//! Cutting a buffer at record boundaries: the tables of the parts merge to
//! the table of the whole, however many parts there are.

use vstd::prelude::*;
use crate::merge::{lemma_merge_empty, lemma_merge_observe, merge};
use crate::records::{
    lemma_line_start_bounds, line_start, reading_at, record_at, record_error, record_key,
    table_of, table_upto, well_formed, NEWLINE,
};
use crate::stats::Stats;

verus! {

/// Position `c` of `s` is the start of a record: the start of the buffer, or
/// just behind a line terminator.
pub open spec fn aligned(s: Seq<u8>, c: int) -> bool {
    0 <= c <= s.len() && (c == 0 || s[c - 1] == NEWLINE)
}

/// `cuts` parts `s` into chunks of whole records: it starts at 0, ends at
/// the end of `s`, never steps back, and every cut but the last is aligned.
pub open spec fn valid_plan(s: Seq<u8>, cuts: Seq<usize>) -> bool {
    &&& cuts.len() >= 2
    &&& cuts[0] == 0
    &&& cuts[cuts.len() - 1] == s.len()
    &&& forall|t: int| 0 <= t < cuts.len() - 1 ==> cuts[t] <= #[trigger] cuts[t + 1]
    &&& forall|t: int| 0 <= t < cuts.len() - 1 ==> aligned(s, #[trigger] cuts[t] as int)
}

/// Chunk `t` of the plan.
pub open spec fn chunk_of(s: Seq<u8>, cuts: Seq<usize>, t: int) -> Seq<u8> {
    s.subrange(cuts[t] as int, cuts[t + 1] as int)
}

/// The tables of the first `n` chunks of the plan, merged one after another.
pub open spec fn merged_chunks(s: Seq<u8>, cuts: Seq<usize>, n: int) -> Map<Seq<u8>, Stats>
    decreases n,
{
    if n <= 0 {
        Map::empty()
    } else {
        merge(merged_chunks(s, cuts, n - 1), table_of(chunk_of(s, cuts, n - 1)))
    }
}

/// Behind an aligned cut the records start where they start in the rest
/// taken alone.
pub proof fn lemma_line_start_shift(s: Seq<u8>, c: int, j: int)
    requires
        aligned(s, c),
        0 <= j <= s.len() - c,
    ensures
        line_start(s, c + j) == c + line_start(s.skip(c), j),
    decreases j,
{
    if j > 0 {
        assert(s.skip(c)[j - 1] == s[c + j - 1]);
        if s[c + j - 1] != NEWLINE {
            lemma_line_start_shift(s, c, j - 1);
        }
    }
}

/// Behind an aligned cut the records are those of the rest taken alone.
pub proof fn lemma_record_shift(s: Seq<u8>, c: int, j: int)
    requires
        aligned(s, c),
        0 <= j <= s.len() - c,
    ensures
        record_at(s, c + j) == record_at(s.skip(c), j),
{
    lemma_line_start_shift(s, c, j);
    lemma_line_start_bounds(s.skip(c), j);
    assert(record_at(s, c + j) =~= record_at(s.skip(c), j));
}

/// The records before position `i` do not depend on what follows `c >= i`.
pub proof fn lemma_prefix(s: Seq<u8>, c: int, i: int)
    requires
        0 <= i <= c <= s.len(),
    ensures
        line_start(s.take(c), i) == line_start(s, i),
        record_at(s.take(c), i) == record_at(s, i),
        table_upto(s.take(c), i) == table_upto(s, i),
    decreases i,
{
    if i > 0 {
        lemma_prefix(s, c, i - 1);
        assert(s.take(c)[i - 1] == s[i - 1]);
    }
    lemma_line_start_bounds(s, i);
    assert(record_at(s.take(c), i) =~= record_at(s, i));
}

/// Behind an aligned cut `c`, the table of the first `c + j` bytes is the
/// table of the first `c` merged with that of the first `j` of the rest.
pub proof fn lemma_split_upto(s: Seq<u8>, c: int, j: int)
    requires
        aligned(s, c),
        0 <= j <= s.len() - c,
    ensures
        table_upto(s, c + j) == merge(table_upto(s, c), table_upto(s.skip(c), j)),
    decreases j,
{
    if j == 0 {
        lemma_merge_empty(table_upto(s, c));
    } else {
        lemma_split_upto(s, c, j - 1);
        assert(s.skip(c)[j - 1] == s[c + j - 1]);
        if s[c + j - 1] == NEWLINE {
            lemma_record_shift(s, c, j - 1);
            let line = record_at(s, c + j - 1);
            lemma_merge_observe(
                table_upto(s, c),
                table_upto(s.skip(c), j - 1),
                record_key(line),
                reading_at(s, c + j - 1),
            );
        }
    }
}

/// Cut at a record boundary, a buffer's table is the merge of the tables of
/// its two parts, and it is well formed exactly if both parts are.
pub proof fn lemma_split(s: Seq<u8>, c: int)
    requires
        aligned(s, c),
    ensures
        table_of(s) == merge(table_of(s.take(c)), table_of(s.skip(c))),
        well_formed(s) <==> well_formed(s.take(c)) && well_formed(s.skip(c)),
{
    lemma_split_upto(s, c, s.len() - c);
    lemma_prefix(s, c, c);
    let a = s.take(c);
    let b = s.skip(c);
    assert forall|j: int| 0 <= j < c implies record_at(a, j) == record_at(s, j) && a[j] == s[j] by {
        lemma_prefix(s, c, j);
    }
    assert forall|j: int| 0 <= j < s.len() - c implies record_at(b, j) == record_at(s, c + j) && b[j]
        == s[c + j] by {
        lemma_record_shift(s, c, j);
    }
    if well_formed(s) {
        assert(well_formed(a));
        assert forall|j: int| 0 <= j < b.len() && b[j] == NEWLINE implies record_error(
            #[trigger] record_at(b, j),
        ) is None by {
            assert(s[c + j] == NEWLINE);
            assert(record_at(b, j) == record_at(s, c + j));
        }
    }
    if well_formed(a) && well_formed(b) {
        assert forall|j: int| 0 <= j < s.len() && s[j] == NEWLINE implies record_error(
            #[trigger] record_at(s, j),
        ) is None by {
            if j < c {
                assert(a[j] == NEWLINE);
                assert(record_at(a, j) == record_at(s, j));
            } else {
                assert(b[j - c] == NEWLINE);
                assert(record_at(b, j - c) == record_at(s, c + (j - c)));
            }
        }
    }
}

/// The chunks of a valid plan, merged one after another, give the table of
/// the buffer up to the last cut taken.
pub proof fn lemma_merged_chunks(s: Seq<u8>, cuts: Seq<usize>, n: int)
    requires
        valid_plan(s, cuts),
        0 <= n <= cuts.len() - 1,
    ensures
        merged_chunks(s, cuts, n) == table_of(s.take(cuts[n] as int)),
    decreases n,
{
    lemma_plan_monotone(s, cuts, n, cuts.len() - 1);
    if n > 0 {
        lemma_merged_chunks(s, cuts, n - 1);
        let head = s.take(cuts[n] as int);
        let c = cuts[n - 1] as int;
        assert(cuts[n - 1] <= cuts[n - 1 + 1]);
        assert(aligned(s, c));
        assert(aligned(head, c));
        lemma_split(head, c);
        assert(head.take(c) =~= s.take(c));
        assert(head.skip(c) =~= chunk_of(s, cuts, n - 1));
    }
}

/// The cuts of a valid plan never step back, over any distance.
pub proof fn lemma_plan_monotone(s: Seq<u8>, cuts: Seq<usize>, i: int, j: int)
    requires
        valid_plan(s, cuts),
        0 <= i <= j <= cuts.len() - 1,
    ensures
        cuts[i] <= cuts[j],
    decreases j - i,
{
    if i < j {
        lemma_plan_monotone(s, cuts, i, j - 1);
        assert(cuts[j - 1] <= cuts[j - 1 + 1]);
    }
}

/// However a buffer is cut into chunks of whole records, merging the
/// chunks' tables gives the table of the buffer scanned in one piece; so
/// any two valid plans give the same table.
pub proof fn lemma_plan_independent(s: Seq<u8>, cuts: Seq<usize>)
    requires
        valid_plan(s, cuts),
    ensures
        merged_chunks(s, cuts, cuts.len() - 1) == table_of(s),
{
    lemma_merged_chunks(s, cuts, cuts.len() - 1);
    assert(s.take(s.len() as int) =~= s);
}

/// Two valid plans of one buffer give the same table, whatever the number
/// of chunks of either.
pub proof fn lemma_plans_agree(s: Seq<u8>, first: Seq<usize>, second: Seq<usize>)
    requires
        valid_plan(s, first),
        valid_plan(s, second),
    ensures
        merged_chunks(s, first, first.len() - 1) == merged_chunks(s, second, second.len() - 1),
{
    lemma_plan_independent(s, first);
    lemma_plan_independent(s, second);
}

/// A chunk without bytes is well formed, has the empty table, and leaves
/// any table it is merged with as it was.
pub proof fn lemma_empty_chunk(s: Seq<u8>, acc: Map<Seq<u8>, Stats>)
    requires
        s.len() == 0,
    ensures
        well_formed(s),
        table_of(s) == Map::<Seq<u8>, Stats>::empty(),
        merge(acc, table_of(s)) == acc,
        merge(table_of(s), acc) == acc,
{
    lemma_merge_empty(acc);
}

/// `s` holds whole records only: it is empty or ends in a line terminator.
pub open spec fn whole_records(s: Seq<u8>) -> bool {
    s.len() == 0 || s[s.len() - 1] == NEWLINE
}

/// The table of whole records followed by more bytes is the merge of the
/// two tables, and the whole is well formed exactly if both parts are.
pub proof fn lemma_concat(a: Seq<u8>, b: Seq<u8>)
    requires
        whole_records(a),
    ensures
        table_of(a + b) == merge(table_of(a), table_of(b)),
        well_formed(a + b) <==> well_formed(a) && well_formed(b),
        whole_records(b) ==> whole_records(a + b),
{
    let s = a + b;
    let c = a.len() as int;
    if c > 0 {
        assert(s[c - 1] == a[c - 1]);
    }
    if b.len() > 0 {
        assert(s[s.len() - 1] == b[b.len() - 1]);
    }
    lemma_split(s, c);
    assert(s.take(c) =~= a);
    assert(s.skip(c) =~= b);
}

/// Two neighbouring runs of whole records may change places, wherever in
/// the buffer they stand: the table stays the same, and so does whether
/// the buffer is well formed. Every reordering of the records of a buffer
/// is a chain of such exchanges.
pub proof fn lemma_exchange(x: Seq<u8>, a: Seq<u8>, b: Seq<u8>, y: Seq<u8>)
    requires
        whole_records(x),
        whole_records(a),
        whole_records(b),
    ensures
        table_of(x + a + b + y) == table_of(x + b + a + y),
        well_formed(x + a + b + y) <==> well_formed(x + b + a + y),
{
    lemma_concat(x, a);
    lemma_concat(x + a, b);
    lemma_concat(x + a + b, y);
    lemma_concat(x, b);
    lemma_concat(x + b, a);
    lemma_concat(x + b + a, y);
    let tx = table_of(x);
    let ta = table_of(a);
    let tb = table_of(b);
    assert(merge(merge(tx, ta), tb) =~= merge(merge(tx, tb), ta));
}

} // verus!
