//! Merging two tables: the rule, its algebra, and the function that
//! applies it key by key.

use vstd::prelude::*;
use crate::stats::{combine, lemma_combine_wf, stats_wf, Stats};
use crate::table::{distinct_keys, map_wf, observe, StationTable};

verus! {

/// The table of the records behind `a` and those behind `b` together: a key
/// of both has its statistics combined, a key of one is carried over.
pub open spec fn merge(a: Map<Seq<u8>, Stats>, b: Map<Seq<u8>, Stats>) -> Map<Seq<u8>, Stats> {
    Map::new(
        |k: Seq<u8>| a.contains_key(k) || b.contains_key(k),
        |k: Seq<u8>|
            if a.contains_key(k) && b.contains_key(k) {
                combine(a[k], b[k])
            } else if a.contains_key(k) {
                a[k]
            } else {
                b[k]
            },
    )
}

/// The counts of the keys that `a` and `b` share add up within the machine word.
pub open spec fn mergeable(a: Map<Seq<u8>, Stats>, b: Map<Seq<u8>, Stats>) -> bool {
    forall|k: Seq<u8>| a.contains_key(k) && b.contains_key(k) ==> (#[trigger] a[k]).count + (#[trigger] b[k]).count <= usize::MAX
}

/// Merging is commutative.
pub proof fn lemma_merge_commutative(a: Map<Seq<u8>, Stats>, b: Map<Seq<u8>, Stats>)
    ensures
        merge(a, b) == merge(b, a),
{
    assert(merge(a, b) =~= merge(b, a));
}

/// Merging is associative.
pub proof fn lemma_merge_associative(
    a: Map<Seq<u8>, Stats>,
    b: Map<Seq<u8>, Stats>,
    c: Map<Seq<u8>, Stats>,
)
    ensures
        merge(merge(a, b), c) == merge(a, merge(b, c)),
{
    assert(merge(merge(a, b), c) =~= merge(a, merge(b, c)));
}

/// The empty table is neutral: a chunk without records adds nothing.
pub proof fn lemma_merge_empty(a: Map<Seq<u8>, Stats>)
    ensures
        merge(a, Map::empty()) == a,
        merge(Map::empty(), a) == a,
{
    assert(merge(a, Map::empty()) =~= a);
    assert(merge(Map::empty(), a) =~= a);
}

/// Taking a record into the second table and merging is merging and then
/// taking the record in.
pub proof fn lemma_merge_observe(a: Map<Seq<u8>, Stats>, b: Map<Seq<u8>, Stats>, k: Seq<u8>, r: int)
    ensures
        merge(a, observe(b, k, r)) == observe(merge(a, b), k, r),
{
    assert(merge(a, observe(b, k, r)) =~= observe(merge(a, b), k, r));
}

/// Merging well-formed tables whose shared counts fit gives a well-formed table.
pub proof fn lemma_merge_wf(a: Map<Seq<u8>, Stats>, b: Map<Seq<u8>, Stats>)
    requires
        map_wf(a),
        map_wf(b),
        mergeable(a, b),
    ensures
        map_wf(merge(a, b)),
{
    let m = merge(a, b);
    assert forall|k: Seq<u8>| #[trigger] m.contains_key(k) implies stats_wf(m[k]) && m[k].count
        <= usize::MAX by {
        if a.contains_key(k) && b.contains_key(k) {
            lemma_combine_wf(a[k], b[k]);
        }
    }
}

/// The part of `b` whose keys stand among the first `n` of `keys`.
pub open spec fn among_first(b: Map<Seq<u8>, Stats>, keys: Seq<Vec<u8>>, n: int) -> Map<Seq<u8>, Stats> {
    Map::new(
        |k: Seq<u8>| b.contains_key(k) && exists|j: int| 0 <= j < n && #[trigger] keys[j]@ == k,
        |k: Seq<u8>| b[k],
    )
}

/// Tells whether `other` can be merged into `acc` without a count leaving
/// the machine word.
pub fn can_merge(acc: &StationTable, other: &StationTable) -> (b: bool)
    ensures
        b == mergeable(acc@, other@),
{
    let keys = other.keys();
    let mut i: usize = 0;
    while i < keys.len()
        invariant
            0 <= i <= keys.len(),
            forall|j: int| 0 <= j < keys.len() ==> other@.contains_key(#[trigger] keys[j]@),
            forall|k: Seq<u8>| other@.contains_key(k) ==> exists|j: int| 0 <= j < keys.len() && #[trigger] keys[j]@ == k,
            forall|j: int|
                0 <= j < i && acc@.contains_key(#[trigger] keys[j]@) ==> acc@[keys[j]@].count + other@[keys[j]@].count
                    <= usize::MAX,
        decreases keys.len() - i,
    {
        let key = keys[i].as_slice();
        match (acc.get(key), other.get(key)) {
            (Some(ours), Some(theirs)) => {
                if ours.count > usize::MAX - theirs.count {
                    assert(acc@[key@].count + other@[key@].count > usize::MAX);
                    return false;
                }
            },
            _ => {},
        }
        i += 1;
    }
    assert forall|k: Seq<u8>| acc@.contains_key(k) && other@.contains_key(k) implies (#[trigger] acc@[k]).count + (
    #[trigger] other@[k]).count <= usize::MAX by {
        let j = choose|j: int| 0 <= j < keys.len() && #[trigger] keys[j]@ == k;
        assert(acc@.contains_key(keys[j]@));
    }
    true
}

/// Merges `other` into `acc`, key by key.
pub fn merge_tables(acc: &mut StationTable, other: &StationTable)
    requires
        old(acc).wf(),
        other.wf(),
        mergeable(old(acc)@, other@),
    ensures
        final(acc)@ == merge(old(acc)@, other@),
        final(acc).wf(),
{
    let keys = other.keys();
    let ghost start = acc@;
    let mut i: usize = 0;
    proof {
        assert(among_first(other@, keys@, 0) =~= Map::empty());
        lemma_merge_empty(start);
    }
    while i < keys.len()
        invariant
            0 <= i <= keys.len(),
            start == old(acc)@,
            map_wf(start),
            other.wf(),
            mergeable(start, other@),
            distinct_keys(keys@),
            forall|j: int| 0 <= j < keys.len() ==> other@.contains_key(#[trigger] keys[j]@),
            acc@ == merge(start, among_first(other@, keys@, i as int)),
        decreases keys.len() - i,
    {
        let key = keys[i].as_slice();
        let ghost before = among_first(other@, keys@, i as int);
        assert(!before.contains_key(key@));
        assert(other@.contains_key(keys[i as int]@));
        match other.get(key) {
            Some(theirs) => {
                match acc.get(key) {
                    Some(ours) => {
                        assert(start.contains_key(key@));
                        acc.set(key, ours.merged(theirs));
                    },
                    None => {
                        acc.set(key, theirs);
                    },
                }
                proof {
                    let after = among_first(other@, keys@, i + 1);
                    assert(after =~= before.insert(key@, theirs@)) by {
                        assert forall|k: Seq<u8>| after.contains_key(k) <==> before.insert(
                            key@,
                            theirs@,
                        ).contains_key(k) by {
                            if k == key@ {
                                assert(keys[i as int]@ == k);
                            }
                        }
                    }
                    assert(acc@ =~= merge(start, after));
                }
            },
            None => {},
        }
        i += 1;
    }
    proof {
        assert(among_first(other@, keys@, keys.len() as int) =~= other@);
        lemma_merge_wf(start, other@);
    }
}

} // verus!
