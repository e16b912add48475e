//! Planning the chunks: evenly spaced candidate offsets, each moved forward
//! to just behind the next line terminator.

use vstd::prelude::*;
use vstd::slice::slice_subrange;
use crate::records::{find_byte, first_index, NEWLINE};
use crate::split::{aligned, valid_plan};

verus! {

/// The `t`-th candidate offset for `n` chunks of a buffer of `len` bytes.
pub open spec fn candidate(len: int, n: int, t: int) -> int {
    t * (len / n)
}

/// A line terminator stands at or behind offset `off` of `s`.
pub open spec fn has_newline_from(s: Seq<u8>, off: int) -> bool {
    first_index(s.skip(off), NEWLINE) < s.len() - off
}

/// The position just behind the first line terminator at or behind `off`.
pub open spec fn cut_after(s: Seq<u8>, off: int) -> int {
    off + first_index(s.skip(off), NEWLINE) + 1
}

/// `s` can be planned into `n` chunks: there is at least one chunk, and a
/// line terminator follows every candidate offset.
pub open spec fn plannable(s: Seq<u8>, n: int) -> bool {
    n >= 1 && forall|t: int| 1 <= t < n ==> has_newline_from(s, #[trigger] candidate(s.len() as int, n, t))
}

/// `cuts` is the plan of `s` into `n` chunks: 0, then each candidate moved
/// behind its next line terminator, then the end of the buffer.
pub open spec fn planned(s: Seq<u8>, n: int, cuts: Seq<usize>) -> bool {
    &&& cuts.len() == n + 1
    &&& cuts[0] == 0
    &&& cuts[n] == s.len()
    &&& forall|t: int| 1 <= t < n ==> #[trigger] cuts[t] == cut_after(s, candidate(s.len() as int, n, t))
}

/// No `b` stands before `first_index`, and `b` stands at it unless it is
/// the length.
pub proof fn lemma_first_index_is_first(s: Seq<u8>, b: u8)
    ensures
        0 <= first_index(s, b) <= s.len(),
        forall|j: int| 0 <= j < first_index(s, b) ==> #[trigger] s[j] != b,
        first_index(s, b) < s.len() ==> s[first_index(s, b)] == b,
    decreases s.len(),
{
    if s.len() > 0 && s[0] != b {
        let t = s.drop_first();
        lemma_first_index_is_first(t, b);
        assert forall|j: int| 0 <= j < first_index(s, b) implies #[trigger] s[j] != b by {
            if j > 0 {
                assert(t[j - 1] == s[j]);
            }
        }
        if first_index(s, b) < s.len() {
            assert(t[first_index(t, b)] == s[first_index(t, b) + 1]);
        }
    }
}

/// Candidate offsets lie inside the buffer and never step back.
pub proof fn lemma_candidate_bounds(len: int, n: int, t: int)
    requires
        0 <= len,
        1 <= t < n,
    ensures
        0 <= candidate(len, n, t - 1) <= candidate(len, n, t) <= len,
{
    let c = len / n;
    assert(0 <= c && c * n <= len) by (nonlinear_arith)
        requires
            c == len / n,
            n > 0,
            len >= 0,
    ;
    assert(0 <= (t - 1) * c <= t * c <= c * n) by (nonlinear_arith)
        requires
            0 <= c,
            1 <= t < n,
    ;
}

/// A buffer that is not empty and ends in a line terminator can be planned
/// into any number of chunks from one on: a terminator follows every
/// candidate offset.
pub proof fn lemma_terminated_plannable(s: Seq<u8>, n: int)
    requires
        s.len() > 0,
        s[s.len() - 1] == NEWLINE,
        n >= 1,
    ensures
        plannable(s, n),
{
    let len = s.len() as int;
    assert forall|t: int| 1 <= t < n implies has_newline_from(s, #[trigger] candidate(len, n, t)) by {
        let off = candidate(len, n, t);
        let c = len / n;
        lemma_candidate_bounds(len, n, t);
        assert(c * n <= len && 0 <= c) by (nonlinear_arith)
            requires
                c == len / n,
                n > 0,
                len >= 0,
        ;
        assert(c == 0 ==> t * c == 0) by (nonlinear_arith);
        assert(t * c <= c * n - c) by (nonlinear_arith)
            requires
                0 <= c,
                1 <= t < n,
        ;
        assert(off < len);
        let rest = s.skip(off);
        lemma_first_index_is_first(rest, NEWLINE);
        assert(rest[len - 1 - off] == s[len - 1]);
    }
}

/// Plans `data` into `parts` chunks of whole records. The plan holds
/// `parts + 1` offsets; chunk `t` runs from offset `t` to offset `t + 1`.
/// There is no plan for zero chunks, nor where no line terminator follows
/// a candidate offset.
pub fn plan_chunks(data: &[u8], parts: usize) -> (r: Option<Vec<usize>>)
    ensures
        r is Some <==> plannable(data@, parts as int),
        r is Some ==> planned(data@, parts as int, r.unwrap()@) && valid_plan(data@, r.unwrap()@),
{
    if parts == 0 {
        return None;
    }
    let len = data.len();
    let size = len / parts;
    let mut cuts: Vec<usize> = Vec::new();
    cuts.push(0);
    let mut prev: usize = 0;
    let ghost mut lo: int = 0;
    let mut t: usize = 1;
    while t < parts
        invariant
            1 <= t <= parts,
            len == data@.len(),
            size == len / parts,
            cuts@.len() == t,
            cuts@[0] == 0,
            prev == cuts@[t - 1],
            prev <= len,
            forall|u: int| 1 <= u < t ==> has_newline_from(data@, #[trigger] candidate(len as int, parts as int, u)),
            forall|u: int| 1 <= u < t ==> #[trigger] cuts@[u] == cut_after(data@, candidate(len as int, parts as int, u)),
            forall|u: int| 0 <= u < t - 1 ==> cuts@[u] <= #[trigger] cuts@[u + 1],
            forall|u: int| 0 <= u < t ==> aligned(data@, #[trigger] cuts@[u] as int),
            t > 1 ==> lo == candidate(len as int, parts as int, t - 1) && lo < prev && forall|j: int|
                lo <= j < prev - 1 ==> data@[j] != NEWLINE,
        decreases parts - t,
    {
        proof {
            lemma_candidate_bounds(len as int, parts as int, t as int);
        }
        let off = t * size;
        let rest = slice_subrange(data, off, len);
        let pos = find_byte(rest, NEWLINE);
        proof {
            assert(rest@ =~= data@.skip(off as int));
            lemma_first_index_is_first(rest@, NEWLINE);
        }
        if pos >= rest.len() {
            assert(!has_newline_from(data@, candidate(len as int, parts as int, t as int)));
            return None;
        }
        let cut = off + pos + 1;
        proof {
            assert(rest@[pos as int] == data@[off + pos]);
            assert forall|j: int| off <= j < cut - 1 implies data@[j] != NEWLINE by {
                assert(rest@[j - off] == data@[j]);
            }
            if t > 1 && cut < prev {
                assert(data@[off + pos] != NEWLINE);
            }
            lo = off as int;
        }
        cuts.push(cut);
        prev = cut;
        t += 1;
    }
    cuts.push(len);
    Some(cuts)
}

} // verus!
