//! Reordering the records of a buffer: the table depends on which records
//! there are and how often, not on where they stand.

use vstd::prelude::*;
use vstd::seq_lib::{to_multiset_contains, to_multiset_len, to_multiset_remove};
use crate::merge::merge;
use crate::records::{table_of, well_formed, NEWLINE};
use crate::split::{lemma_concat, whole_records};
use crate::stats::Stats;

verus! {

/// A record as it stands in a buffer: its bytes and the line terminator.
pub open spec fn line_of(rec: Seq<u8>) -> Seq<u8> {
    rec.push(NEWLINE)
}

/// The buffer that holds the records `recs` one after another.
pub open spec fn joined(recs: Seq<Seq<u8>>) -> Seq<u8>
    decreases recs.len(),
{
    if recs.len() == 0 {
        Seq::empty()
    } else {
        joined(recs.drop_last()) + line_of(recs.last())
    }
}

/// The tables of the records `recs`, each taken alone, merged in turn.
pub open spec fn tables_merged(recs: Seq<Seq<u8>>) -> Map<Seq<u8>, Stats>
    decreases recs.len(),
{
    if recs.len() == 0 {
        Map::empty()
    } else {
        merge(tables_merged(recs.drop_last()), table_of(line_of(recs.last())))
    }
}

/// The table of a buffer of records is the merge of the records' tables.
pub proof fn lemma_joined_table(recs: Seq<Seq<u8>>)
    ensures
        whole_records(joined(recs)),
        table_of(joined(recs)) == tables_merged(recs),
    decreases recs.len(),
{
    if recs.len() > 0 {
        lemma_joined_table(recs.drop_last());
        let tail = line_of(recs.last());
        assert(tail[tail.len() - 1] == NEWLINE);
        lemma_concat(joined(recs.drop_last()), tail);
    }
}

/// Every record of `recs`, taken alone, is well formed.
pub open spec fn all_well_formed(recs: Seq<Seq<u8>>) -> bool {
    forall|i: int| 0 <= i < recs.len() ==> well_formed(line_of(#[trigger] recs[i]))
}

/// A buffer of records is well formed exactly if each record is.
pub proof fn lemma_joined_well_formed(recs: Seq<Seq<u8>>)
    ensures
        well_formed(joined(recs)) <==> all_well_formed(recs),
    decreases recs.len(),
{
    if recs.len() > 0 {
        let front = recs.drop_last();
        lemma_joined_well_formed(front);
        lemma_joined_table(front);
        lemma_concat(joined(front), line_of(recs.last()));
        if all_well_formed(recs) {
            assert forall|i: int| 0 <= i < front.len() implies well_formed(line_of(#[trigger] front[i])) by {
                assert(front[i] == recs[i]);
            }
            assert(well_formed(line_of(recs[recs.len() - 1])));
        }
        if all_well_formed(front) && well_formed(line_of(recs.last())) {
            assert forall|i: int| 0 <= i < recs.len() implies well_formed(line_of(#[trigger] recs[i])) by {
                if i < front.len() {
                    assert(front[i] == recs[i]);
                }
            }
        }
    }
}

/// If every record of `a` is well formed, so is every record of a list
/// that holds no other records.
pub proof fn lemma_well_formed_by_multiset(a: Seq<Seq<u8>>, b: Seq<Seq<u8>>)
    requires
        a.to_multiset() == b.to_multiset(),
        all_well_formed(a),
    ensures
        all_well_formed(b),
{
    assert forall|i: int| 0 <= i < b.len() implies well_formed(line_of(#[trigger] b[i])) by {
        let x = b[i];
        assert(b.contains(x));
        to_multiset_contains(b, x);
        to_multiset_contains(a, x);
        let j = choose|j: int| 0 <= j < a.len() && a[j] == x;
        assert(well_formed(line_of(a[j])));
    }
}

/// Any one record may be merged last.
pub proof fn lemma_take_out(recs: Seq<Seq<u8>>, j: int)
    requires
        0 <= j < recs.len(),
    ensures
        tables_merged(recs) == merge(tables_merged(recs.remove(j)), table_of(line_of(recs[j]))),
    decreases recs.len(),
{
    let n = recs.len() as int;
    if j == n - 1 {
        assert(recs.remove(j) =~= recs.drop_last());
    } else {
        let front = recs.drop_last();
        lemma_take_out(front, j);
        let rest = recs.remove(j);
        assert(rest.drop_last() =~= front.remove(j));
        assert(rest.last() == recs.last());
        assert(front[j] == recs[j]);
        let x = tables_merged(front.remove(j));
        let tj = table_of(line_of(recs[j]));
        let tl = table_of(line_of(recs.last()));
        assert(merge(merge(x, tj), tl) =~= merge(merge(x, tl), tj));
    }
}

/// Two lists of the same records, each as often in the one as in the
/// other, merge to the same table.
pub proof fn lemma_merged_by_multiset(a: Seq<Seq<u8>>, b: Seq<Seq<u8>>)
    requires
        a.to_multiset() == b.to_multiset(),
    ensures
        tables_merged(a) == tables_merged(b),
    decreases a.len(),
{
    to_multiset_len(a);
    to_multiset_len(b);
    if a.len() > 0 {
        let n = a.len() as int;
        let x = a.last();
        assert(a[n - 1] == x);
        assert(a.contains(x));
        to_multiset_contains(a, x);
        to_multiset_contains(b, x);
        let j = choose|j: int| 0 <= j < b.len() && b[j] == x;
        to_multiset_remove(a, n - 1);
        to_multiset_remove(b, j);
        assert(a.remove(n - 1) =~= a.drop_last());
        lemma_merged_by_multiset(a.drop_last(), b.remove(j));
        lemma_take_out(b, j);
    }
}

/// Buffers that hold the same records in different orders have the same
/// table, and so the same report; and one is well formed exactly if the
/// other is.
pub proof fn lemma_reordered(a: Seq<Seq<u8>>, b: Seq<Seq<u8>>)
    requires
        a.to_multiset() == b.to_multiset(),
    ensures
        table_of(joined(a)) == table_of(joined(b)),
        well_formed(joined(a)) <==> well_formed(joined(b)),
{
    lemma_joined_table(a);
    lemma_joined_table(b);
    lemma_merged_by_multiset(a, b);
    lemma_joined_well_formed(a);
    lemma_joined_well_formed(b);
    if all_well_formed(a) {
        lemma_well_formed_by_multiset(a, b);
    }
    if all_well_formed(b) {
        lemma_well_formed_by_multiset(b, a);
    }
}

} // verus!
