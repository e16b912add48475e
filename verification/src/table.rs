//! The table from key bytes to statistics, kept in a hash map.

use vstd::prelude::*;
use vstd::slice::slice_to_vec;
use crate::stats::{combine, lemma_combine_wf, single, stats_wf, StationStats, Stats};

verus! {

/// Hash table from key bytes to the statistics of that key: a
/// `hashbrown::HashMap` with the Fx hasher. An owned copy of a key is made
/// only when the key enters the table. The map itself is hidden from the
/// verifier; the proofs go by `table_contents` and by what the functions
/// below state of the map's methods.
#[verifier::external_body]
#[derive(Debug)]
pub struct StationTable {
    cells: hashbrown::HashMap<Vec<u8>, StationStats, rustc_hash::FxBuildHasher>,
}

/// The entries that the hash map of a table holds.
pub uninterp spec fn table_contents(t: StationTable) -> Map<Seq<u8>, StationStats>;

/// `hashbrown::HashMap::default`: a map with no entry.
#[verifier::external_body]
fn cells_empty() -> (t: StationTable)
    ensures
        forall|k: Seq<u8>| !table_contents(t).contains_key(k),
{
    StationTable { cells: hashbrown::HashMap::default() }
}

/// `hashbrown::HashMap::get` by borrowed key: a copy of the value stored
/// under `key`, or `None` where the map holds no such key.
#[verifier::external_body]
fn cells_get(t: &StationTable, key: &[u8]) -> (r: Option<StationStats>)
    ensures
        r == (if table_contents(*t).contains_key(key@) {
            Some(table_contents(*t)[key@])
        } else {
            None
        }),
{
    t.cells.get(key).copied()
}

/// `hashbrown::HashMap::get_mut` by borrowed key: the value stored under
/// `key` is overwritten in place; a map that lacks the key is left as it is.
#[verifier::external_body]
fn cells_replace(t: &mut StationTable, key: &[u8], stats: StationStats)
    ensures
        table_contents(*final(t)) == (if table_contents(*old(t)).contains_key(key@) {
            table_contents(*old(t)).insert(key@, stats)
        } else {
            table_contents(*old(t))
        }),
{
    if let Some(slot) = t.cells.get_mut(key) {
        *slot = stats;
    }
}

/// `hashbrown::HashMap::insert`: afterwards the map holds `stats` under
/// `key`, and every other entry as before.
#[verifier::external_body]
fn cells_insert(t: &mut StationTable, key: Vec<u8>, stats: StationStats)
    ensures
        table_contents(*final(t)) == table_contents(*old(t)).insert(key@, stats),
{
    t.cells.insert(key, stats);
}

/// The keys in `keys` are pairwise different.
pub open spec fn distinct_keys(keys: Seq<Vec<u8>>) -> bool {
    forall|i: int, j: int| 0 <= i < j < keys.len() ==> keys[i]@ != keys[j]@
}

/// `hashbrown::HashMap::keys`, each key cloned: every key of the map once,
/// in no stated order.
#[verifier::external_body]
fn cells_keys(t: &StationTable) -> (keys: Vec<Vec<u8>>)
    ensures
        distinct_keys(keys@),
        forall|i: int| 0 <= i < keys.len() ==> table_contents(*t).contains_key(#[trigger] keys[i]@),
        forall|k: Seq<u8>| table_contents(*t).contains_key(k) ==> exists|i: int| 0 <= i < keys.len() && #[trigger] keys[i]@ == k,
{
    t.cells.keys().cloned().collect()
}

impl View for StationTable {
    type V = Map<Seq<u8>, Stats>;

    /// The table as a map from key bytes to statistics over integers.
    open spec fn view(&self) -> Map<Seq<u8>, Stats> {
        Map::new(|k: Seq<u8>| table_contents(*self).contains_key(k), |k: Seq<u8>| table_contents(*self)[k]@)
    }
}

/// Every entry of `m` is well formed, with a count that fits the machine word.
pub open spec fn map_wf(m: Map<Seq<u8>, Stats>) -> bool {
    forall|k: Seq<u8>| #[trigger] m.contains_key(k) ==> stats_wf(m[k]) && m[k].count <= usize::MAX
}

/// The table after one more record with key `k` and reading `r`.
pub open spec fn observe(m: Map<Seq<u8>, Stats>, k: Seq<u8>, r: int) -> Map<Seq<u8>, Stats> {
    if m.contains_key(k) {
        m.insert(k, combine(m[k], single(r)))
    } else {
        m.insert(k, single(r))
    }
}

impl StationTable {
    /// Every entry is the statistics of at least one record.
    pub open spec fn wf(&self) -> bool {
        map_wf(self@)
    }

    /// A table with no entry.
    pub fn new() -> (t: StationTable)
        ensures
            t@ == Map::<Seq<u8>, Stats>::empty(),
            t.wf(),
    {
        let t = cells_empty();
        assert(t@ =~= Map::<Seq<u8>, Stats>::empty());
        t
    }

    /// The statistics stored under `key`, if any.
    pub fn get(&self, key: &[u8]) -> (r: Option<StationStats>)
        ensures
            r is Some <==> self@.contains_key(key@),
            r is Some ==> r.unwrap()@ == self@[key@],
    {
        cells_get(self, key)
    }

    /// All keys of the table, each once, in no particular order.
    pub fn keys(&self) -> (keys: Vec<Vec<u8>>)
        ensures
            distinct_keys(keys@),
            forall|i: int| 0 <= i < keys.len() ==> self@.contains_key(#[trigger] keys[i]@),
            forall|k: Seq<u8>| self@.contains_key(k) ==> exists|i: int| 0 <= i < keys.len() && #[trigger] keys[i]@ == k,
    {
        cells_keys(self)
    }

    /// Stores `stats` under `key`, in place of what was there.
    pub(crate) fn set(&mut self, key: &[u8], stats: StationStats)
        ensures
            final(self)@ == old(self)@.insert(key@, stats@),
    {
        match cells_get(self, key) {
            Some(_) => {
                cells_replace(self, key, stats);
            },
            None => {
                cells_insert(self, slice_to_vec(key), stats);
            },
        }
        assert(final(self)@ =~= old(self)@.insert(key@, stats@));
    }

    /// Takes one record into the table: a new key enters with the reading
    /// as its minimum, maximum and total; a known key has its statistics
    /// widened by the reading.
    pub fn record(&mut self, key: &[u8], reading: i32)
        requires
            old(self).wf(),
            old(self)@.contains_key(key@) ==> old(self)@[key@].count < usize::MAX,
        ensures
            final(self)@ == observe(old(self)@, key@, reading as int),
            final(self).wf(),
    {
        match cells_get(self, key) {
            Some(seen) => {
                assert(old(self)@.contains_key(key@));
                let next = seen.merged(StationStats::first(reading));
                proof {
                    lemma_combine_wf(seen@, single(reading as int));
                }
                cells_replace(self, key, next);
            },
            None => {
                cells_insert(self, slice_to_vec(key), StationStats::first(reading));
            },
        }
        assert(final(self)@ =~= observe(old(self)@, key@, reading as int));
    }
}

} // verus!
