//! The whole computation on one buffer: plan the chunks, scan each, merge
//! the tables, render the report.

use vstd::prelude::*;
use vstd::slice::slice_subrange;
use crate::chunks::{plan_chunks, plannable};
use crate::merge::{merge_tables, mergeable};
use crate::records::{
    counts_within, do_aggregate, record_at, record_error, table_of, well_formed, well_formed_upto,
    RecordError, NEWLINE,
};
use crate::report::{format_output, report_of};
use crate::split::{
    aligned, chunk_of, lemma_plan_independent, lemma_plan_monotone, lemma_prefix,
    lemma_record_shift, merged_chunks, valid_plan,
};
use crate::table::StationTable;

verus! {

/// Why a buffer has no report.
#[derive(Clone, Copy, Debug, PartialEq, Eq, Structural)]
pub enum AggregateError {
    /// No chunks were asked for, or no line terminator follows a candidate
    /// offset of the plan.
    ChunkBoundary,
    /// The first record of the buffer that cannot be taken in, and why.
    Record(RecordError),
}

/// The first malformed record of `s` has the error `e`.
pub open spec fn first_record_error(s: Seq<u8>, e: RecordError) -> bool {
    exists|j: int|
        0 <= j < s.len() && s[j] == NEWLINE && well_formed_upto(s, j) && record_error(
            #[trigger] record_at(s, j),
        ) == Some(e)
}

/// The records of a chunk that starts at an aligned cut are the records of
/// the buffer at the same places.
pub proof fn lemma_chunk_records(s: Seq<u8>, c: int, d: int, u: int)
    requires
        aligned(s, c),
        c <= d <= s.len(),
        0 <= u <= d - c,
    ensures
        record_at(s.subrange(c, d), u) == record_at(s, c + u),
{
    let head = s.take(d);
    assert(head.skip(c) =~= s.subrange(c, d));
    lemma_record_shift(head, c, u);
    lemma_prefix(s, d, c + u);
}

/// A chunk behind well-formed records is well formed up to a place exactly
/// if the buffer is up to the same place.
pub proof fn lemma_chunk_well_formed(s: Seq<u8>, c: int, d: int, u: int)
    requires
        aligned(s, c),
        c <= d <= s.len(),
        0 <= u <= d - c,
        well_formed_upto(s, c),
    ensures
        well_formed_upto(s.subrange(c, d), u) <==> well_formed_upto(s, c + u),
{
    let chunk = s.subrange(c, d);
    assert forall|j: int| 0 <= j < u implies chunk[j] == s[c + j] && record_at(chunk, j) == record_at(
        s,
        c + j,
    ) by {
        lemma_chunk_records(s, c, d, j);
    }
    if well_formed_upto(chunk, u) {
        assert forall|j: int| 0 <= j < c + u && s[j] == NEWLINE implies record_error(
            #[trigger] record_at(s, j),
        ) is None by {
            if j >= c {
                assert(chunk[j - c] == NEWLINE);
                assert(record_at(chunk, j - c) == record_at(s, c + (j - c)));
            }
        }
    }
    if well_formed_upto(s, c + u) {
        assert forall|j: int| 0 <= j < u && chunk[j] == NEWLINE implies record_error(
            #[trigger] record_at(chunk, j),
        ) is None by {
            assert(s[c + j] == NEWLINE);
            assert(record_at(chunk, j) == record_at(s, c + j));
        }
    }
}

/// Whatever valid plan a buffer is scanned by, and so with whatever number
/// of chunks, the merged tables render to the same report, byte for byte:
/// the report of the buffer scanned in one piece.
pub proof fn lemma_report_plan_independent(s: Seq<u8>, first: Seq<usize>, second: Seq<usize>)
    requires
        valid_plan(s, first),
        valid_plan(s, second),
    ensures
        report_of(merged_chunks(s, first, first.len() - 1)) == report_of(table_of(s)),
        report_of(merged_chunks(s, second, second.len() - 1)) == report_of(table_of(s)),
{
    lemma_plan_independent(s, first);
    lemma_plan_independent(s, second);
}

/// Computes the report of `data`, scanned in `parts` chunks of whole
/// records. The report does not depend on `parts`.
pub fn aggregate(data: &[u8], parts: usize) -> (r: Result<Vec<u8>, AggregateError>)
    ensures
        match r {
            Ok(out) => plannable(data@, parts as int) && well_formed(data@) && out@ == report_of(
                table_of(data@),
            ),
            Err(AggregateError::ChunkBoundary) => !plannable(data@, parts as int),
            Err(AggregateError::Record(e)) => plannable(data@, parts as int) && !well_formed(data@)
                && first_record_error(data@, e),
        },
{
    let cuts = match plan_chunks(data, parts) {
        None => {
            return Err(AggregateError::ChunkBoundary);
        },
        Some(cuts) => cuts,
    };
    let mut acc = StationTable::new();
    let mut t: usize = 0;
    while t < parts
        invariant
            0 <= t <= parts,
            cuts@.len() == parts + 1,
            valid_plan(data@, cuts@),
            plannable(data@, parts as int),
            acc.wf(),
            acc@ == merged_chunks(data@, cuts@, t as int),
            counts_within(acc@, cuts@[t as int] as int),
            well_formed_upto(data@, cuts@[t as int] as int),
        decreases parts - t,
    {
        let lo = cuts[t];
        let hi = cuts[t + 1];
        proof {
            assert(cuts@[t as int] <= cuts@[t + 1]);
            lemma_plan_monotone(data@, cuts@, t + 1, parts as int);
            assert(aligned(data@, lo as int));
            lemma_chunk_well_formed(data@, lo as int, hi as int, hi - lo);
        }
        let chunk = slice_subrange(data, lo, hi);
        match do_aggregate(chunk) {
            Err(e) => {
                proof {
                    let j = choose|j: int|
                        0 <= j < chunk@.len() && chunk@[j] == NEWLINE && well_formed_upto(chunk@, j)
                            && record_error(#[trigger] record_at(chunk@, j)) == Some(e);
                    lemma_chunk_records(data@, lo as int, hi as int, j);
                    lemma_chunk_well_formed(data@, lo as int, hi as int, j);
                    assert(data@[lo + j] == chunk@[j]);
                    assert(record_error(record_at(data@, lo + j)) == Some(e));
                }
                return Err(AggregateError::Record(e));
            },
            Ok(part) => {
                assert(mergeable(acc@, part@));
                merge_tables(&mut acc, &part);
                assert(chunk@ == chunk_of(data@, cuts@, t as int));
                assert(counts_within(acc@, hi as int));
            },
        }
        t += 1;
    }
    proof {
        lemma_plan_independent(data@, cuts@);
    }
    Ok(format_output(acc))
}

} // verus!
