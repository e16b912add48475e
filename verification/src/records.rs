//! Records in a byte buffer: one per line, key and reading parted by the
//! first `;`, and the table that a run of whole records amounts to.

use vstd::prelude::*;
use vstd::slice::slice_subrange;
use crate::parse::{parse_int_checked, reading_fits, reading_value};
use crate::stats::{lemma_combine_wf, single, stats_wf, Stats};
use crate::table::{observe, StationTable};

verus! {

/// The line terminator.
pub const NEWLINE: u8 = 10;

/// The field separator, `;`.
pub const SEPARATOR: u8 = 59;

/// Why a record cannot be taken into a table.
#[derive(Clone, Copy, Debug, PartialEq, Eq, Structural)]
pub enum RecordError {
    /// The record holds no `;`.
    MissingSeparator,
    /// The reading's digits spell a number beyond 32 bits.
    ReadingOutOfRange,
}

/// Index of the first `b` in `s`, or the length of `s` where it holds none.
pub open spec fn first_index(s: Seq<u8>, b: u8) -> int
    decreases s.len(),
{
    if s.len() == 0 || s[0] == b {
        0
    } else {
        1 + first_index(s.drop_first(), b)
    }
}

/// `first_index` is the one position with no `b` before it that holds `b`
/// or ends the sequence.
pub proof fn lemma_first_index(s: Seq<u8>, b: u8, i: int)
    requires
        0 <= i <= s.len(),
        forall|j: int| 0 <= j < i ==> #[trigger] s[j] != b,
        i == s.len() || s[i] == b,
    ensures
        first_index(s, b) == i,
    decreases i,
{
    if i > 0 {
        let t = s.drop_first();
        assert(s[0] != b);
        assert forall|j: int| 0 <= j < i - 1 implies #[trigger] t[j] != b by {
            assert(t[j] == s[j + 1]);
        }
        if i < s.len() {
            assert(t[i - 1] == s[i]);
        }
        lemma_first_index(t, b, i - 1);
    }
}

/// Position of the first `b` in `bytes`, or its length where there is none.
pub fn find_byte(bytes: &[u8], b: u8) -> (i: usize)
    ensures
        i == first_index(bytes@, b),
        0 <= i <= bytes.len(),
{
    let mut i: usize = 0;
    while i < bytes.len() && bytes[i] != b
        invariant
            0 <= i <= bytes.len(),
            forall|j: int| 0 <= j < i ==> #[trigger] bytes@[j] != b,
        decreases bytes.len() - i,
    {
        i += 1;
    }
    proof {
        lemma_first_index(bytes@, b, i as int);
    }
    i
}

/// The key of a record: what stands before its first `;`.
pub open spec fn record_key(line: Seq<u8>) -> Seq<u8> {
    line.take(first_index(line, SEPARATOR))
}

/// The reading field of a record: what stands after its first `;`.
pub open spec fn record_field(line: Seq<u8>) -> Seq<u8> {
    line.skip(first_index(line, SEPARATOR) + 1)
}

/// What is wrong with a record, if anything.
pub open spec fn record_error(line: Seq<u8>) -> Option<RecordError> {
    if first_index(line, SEPARATOR) >= line.len() {
        Some(RecordError::MissingSeparator)
    } else if !reading_fits(record_field(line)) {
        Some(RecordError::ReadingOutOfRange)
    } else {
        None
    }
}

/// Where the record begins that position `i` of `s` lies in: just behind
/// the last line terminator before `i`, or at 0.
pub open spec fn line_start(s: Seq<u8>, i: int) -> int
    decreases i,
{
    if i <= 0 {
        0
    } else if s[i - 1] == NEWLINE {
        i
    } else {
        line_start(s, i - 1)
    }
}

/// The record that the line terminator at `i` ends.
pub open spec fn record_at(s: Seq<u8>, i: int) -> Seq<u8> {
    s.subrange(line_start(s, i), i)
}

/// Every record that ends before position `i` can be taken into a table.
pub open spec fn well_formed_upto(s: Seq<u8>, i: int) -> bool {
    forall|j: int| 0 <= j < i && s[j] == NEWLINE ==> record_error(#[trigger] record_at(s, j)) is None
}

/// Every terminated record of `s` can be taken into a table.
pub open spec fn well_formed(s: Seq<u8>) -> bool {
    well_formed_upto(s, s.len() as int)
}

/// The table of the records of `s` that end before position `i`, taken in
/// one after the other.
pub open spec fn table_upto(s: Seq<u8>, i: int) -> Map<Seq<u8>, Stats>
    decreases i,
{
    if i <= 0 {
        Map::empty()
    } else if s[i - 1] == NEWLINE {
        let line = record_at(s, i - 1);
        observe(table_upto(s, i - 1), record_key(line), reading_value(record_field(line)))
    } else {
        table_upto(s, i - 1)
    }
}

/// The table of all terminated records of `s`. Bytes behind the last line
/// terminator belong to no record.
pub open spec fn table_of(s: Seq<u8>) -> Map<Seq<u8>, Stats> {
    table_upto(s, s.len() as int)
}

/// No count in `m` exceeds `n`.
pub open spec fn counts_within(m: Map<Seq<u8>, Stats>, n: int) -> bool {
    forall|k: Seq<u8>| #[trigger] m.contains_key(k) ==> m[k].count <= n
}

/// The line terminator at `j` ends a record with key `k`.
pub open spec fn is_record_of(s: Seq<u8>, k: Seq<u8>, j: int) -> bool {
    s[j] == NEWLINE && record_key(record_at(s, j)) == k
}

/// The reading of the record that ends at `j`.
pub open spec fn reading_at(s: Seq<u8>, j: int) -> int {
    reading_value(record_field(record_at(s, j)))
}

/// How many records with key `k` end before position `i`.
pub open spec fn key_count(s: Seq<u8>, k: Seq<u8>, i: int) -> nat
    decreases i,
{
    if i <= 0 {
        0
    } else if is_record_of(s, k, i - 1) {
        key_count(s, k, i - 1) + 1
    } else {
        key_count(s, k, i - 1)
    }
}

/// The sum of the readings of the records with key `k` that end before `i`.
pub open spec fn key_total(s: Seq<u8>, k: Seq<u8>, i: int) -> int
    decreases i,
{
    if i <= 0 {
        0
    } else if is_record_of(s, k, i - 1) {
        key_total(s, k, i - 1) + reading_at(s, i - 1)
    } else {
        key_total(s, k, i - 1)
    }
}

/// A record with key `k` that ends before `n` is counted.
pub proof fn lemma_count_positive(s: Seq<u8>, k: Seq<u8>, j: int, n: int)
    requires
        0 <= j < n,
        is_record_of(s, k, j),
    ensures
        key_count(s, k, n) >= 1,
    decreases n,
{
    if j < n - 1 {
        lemma_count_positive(s, k, j, n - 1);
    }
}

/// What the table says of a key is what the records say: the key is there
/// exactly if a record has it; its count is the number of its records, its
/// total their exact sum; its minimum and maximum bound every reading of
/// the key and are each the reading of one of its records.
pub proof fn lemma_table_exact(s: Seq<u8>, k: Seq<u8>, i: int)
    requires
        0 <= i <= s.len(),
    ensures
        table_upto(s, i).contains_key(k) <==> key_count(s, k, i) > 0,
        key_count(s, k, i) <= i,
        key_count(s, k, i) == 0 ==> key_total(s, k, i) == 0,
        table_upto(s, i).contains_key(k) ==> {
            let st = table_upto(s, i)[k];
            &&& st.count == key_count(s, k, i)
            &&& st.total == key_total(s, k, i)
            &&& stats_wf(st)
            &&& forall|j: int| 0 <= j < i && is_record_of(s, k, j) ==> st.min <= #[trigger] reading_at(s, j) <= st.max
            &&& exists|j: int| 0 <= j < i && is_record_of(s, k, j) && #[trigger] reading_at(s, j) == st.min
            &&& exists|j: int| 0 <= j < i && is_record_of(s, k, j) && #[trigger] reading_at(s, j) == st.max
        },
    decreases i,
{
    if i > 0 {
        lemma_table_exact(s, k, i - 1);
        let before = table_upto(s, i - 1);
        let now = table_upto(s, i);
        if s[i - 1] == NEWLINE {
            let line = record_at(s, i - 1);
            assert(now == observe(before, record_key(line), reading_at(s, i - 1)));
        } else {
            assert(now == before);
        }
        if now.contains_key(k) {
            let st = now[k];
            assert forall|j: int| 0 <= j < i && is_record_of(s, k, j) implies st.min <= #[trigger] reading_at(s, j)
                <= st.max by {
                if j < i - 1 {
                    lemma_count_positive(s, k, j, i - 1);
                    assert(before.contains_key(k));
                    assert(before[k].min <= reading_at(s, j) <= before[k].max);
                }
            }
        }
        if is_record_of(s, k, i - 1) {
            let r = reading_at(s, i - 1);
            let st = table_upto(s, i)[k];
            if before.contains_key(k) {
                let old_st = before[k];
                lemma_combine_wf(old_st, single(r));
                let lo = choose|j: int| 0 <= j < i - 1 && is_record_of(s, k, j) && #[trigger] reading_at(s, j) == old_st.min;
                let hi = choose|j: int| 0 <= j < i - 1 && is_record_of(s, k, j) && #[trigger] reading_at(s, j) == old_st.max;
                if r < old_st.min {
                    assert(reading_at(s, i - 1) == st.min);
                } else {
                    assert(reading_at(s, lo) == st.min);
                }
                if r > old_st.max {
                    assert(reading_at(s, i - 1) == st.max);
                } else {
                    assert(reading_at(s, hi) == st.max);
                }
            } else {
                assert(reading_at(s, i - 1) == st.min);
                assert(reading_at(s, i - 1) == st.max);
            }
        } else if before.contains_key(k) {
            let st = before[k];
            let lo = choose|j: int| 0 <= j < i - 1 && is_record_of(s, k, j) && #[trigger] reading_at(s, j) == st.min;
            let hi = choose|j: int| 0 <= j < i - 1 && is_record_of(s, k, j) && #[trigger] reading_at(s, j) == st.max;
            assert(reading_at(s, lo) == st.min);
            assert(reading_at(s, hi) == st.max);
        }
    }
}

/// `line_start` lies at or before the position it is asked of.
pub proof fn lemma_line_start_bounds(s: Seq<u8>, i: int)
    requires
        0 <= i,
    ensures
        0 <= line_start(s, i) <= i,
    decreases i,
{
    if i > 0 && s[i - 1] != NEWLINE {
        lemma_line_start_bounds(s, i - 1);
    }
}

/// Scans the records of `chunk` into a fresh table. A chunk with no
/// terminated record gives the empty table. The first record that lacks a
/// separator, or whose reading does not fit, ends the scan with its error.
pub fn do_aggregate(chunk: &[u8]) -> (r: Result<StationTable, RecordError>)
    ensures
        match r {
            Ok(t) => well_formed(chunk@) && t@ == table_of(chunk@) && t.wf() && counts_within(
                t@,
                chunk@.len() as int,
            ),
            Err(e) => !well_formed(chunk@) && exists|j: int|
                0 <= j < chunk@.len() && chunk@[j] == NEWLINE && well_formed_upto(chunk@, j)
                    && record_error(#[trigger] record_at(chunk@, j)) == Some(e),
        },
{
    let mut table = StationTable::new();
    let mut start: usize = 0;
    let mut i: usize = 0;
    while i < chunk.len()
        invariant
            0 <= start <= i <= chunk.len(),
            start == line_start(chunk@, i as int),
            well_formed_upto(chunk@, i as int),
            table@ == table_upto(chunk@, i as int),
            table.wf(),
            counts_within(table@, i as int),
        decreases chunk.len() - i,
    {
        if chunk[i] == NEWLINE {
            let line = slice_subrange(chunk, start, i);
            let sep = find_byte(line, SEPARATOR);
            assert(line@ == record_at(chunk@, i as int));
            if sep >= line.len() {
                assert(record_error(record_at(chunk@, i as int)) == Some(RecordError::MissingSeparator));
                return Err(RecordError::MissingSeparator);
            }
            let key = slice_subrange(line, 0, sep);
            let field = slice_subrange(line, sep + 1, line.len());
            assert(key@ == record_key(line@));
            assert(field@ == record_field(line@));
            match parse_int_checked(field) {
                None => {
                    assert(record_error(record_at(chunk@, i as int)) == Some(RecordError::ReadingOutOfRange));
                    return Err(RecordError::ReadingOutOfRange);
                },
                Some(reading) => {
                    table.record(key, reading);
                },
            }
            assert(record_error(record_at(chunk@, i as int)) is None);
            start = i + 1;
        }
        i += 1;
    }
    Ok(table)
}

} // verus!
