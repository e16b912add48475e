//! Running statistics of one key, and the rule that combines two of them.

use vstd::prelude::*;

verus! {

/// Statistics of one key over mathematical integers.
pub struct Stats {
    pub min: int,
    pub max: int,
    pub total: int,
    pub count: nat,
}

/// Statistics of one key as the tables hold them. Readings are scaled by
/// ten; `total` is wide enough for any number of 32-bit readings that a
/// buffer can hold.
#[derive(Clone, Copy, Debug)]
pub struct StationStats {
    pub min: i32,
    pub max: i32,
    pub total: i128,
    pub count: usize,
}

impl View for StationStats {
    type V = Stats;

    open spec fn view(&self) -> Stats {
        Stats { min: self.min as int, max: self.max as int, total: self.total as int, count: self.count as nat }
    }
}

pub open spec fn min_int(a: int, b: int) -> int {
    if a <= b {
        a
    } else {
        b
    }
}

pub open spec fn max_int(a: int, b: int) -> int {
    if a >= b {
        a
    } else {
        b
    }
}

/// Statistics of a key seen once, with reading `r`.
pub open spec fn single(r: int) -> Stats {
    Stats { min: r, max: r, total: r, count: 1 }
}

/// Statistics of the records behind `a` and those behind `b` together.
pub open spec fn combine(a: Stats, b: Stats) -> Stats {
    Stats {
        min: min_int(a.min, b.min),
        max: max_int(a.max, b.max),
        total: a.total + b.total,
        count: a.count + b.count,
    }
}

/// What holds of the statistics of any non-empty set of readings: the
/// minimum is no larger than the maximum, the total lies between count
/// times the one and count times the other, and a single reading is both.
pub open spec fn stats_wf(s: Stats) -> bool {
    &&& s.count >= 1
    &&& s.min <= s.max
    &&& s.count * s.min <= s.total <= s.count * s.max
    &&& s.count == 1 ==> s.min == s.max
}

/// `combine` is commutative.
pub proof fn lemma_combine_commutative(a: Stats, b: Stats)
    ensures
        combine(a, b) == combine(b, a),
{
}

/// `combine` is associative.
pub proof fn lemma_combine_associative(a: Stats, b: Stats, c: Stats)
    ensures
        combine(combine(a, b), c) == combine(a, combine(b, c)),
{
}

/// Combining keeps statistics well formed.
pub proof fn lemma_combine_wf(a: Stats, b: Stats)
    requires
        stats_wf(a),
        stats_wf(b),
    ensures
        stats_wf(combine(a, b)),
{
    let c = combine(a, b);
    assert(c.count * c.min <= a.count * a.min + b.count * b.min) by (nonlinear_arith)
        requires
            c.count == a.count + b.count,
            c.min <= a.min,
            c.min <= b.min,
            a.count >= 0,
            b.count >= 0,
    ;
    assert(a.count * a.max + b.count * b.max <= c.count * c.max) by (nonlinear_arith)
        requires
            c.count == a.count + b.count,
            c.max >= a.max,
            c.max >= b.max,
            a.count >= 0,
            b.count >= 0,
    ;
}

/// The total of well-formed statistics with 32-bit extremes and a count
/// that fits the machine word stays far inside 128 bits.
pub proof fn lemma_total_bounded(s: Stats)
    requires
        stats_wf(s),
        i32::MIN <= s.min,
        s.max <= i32::MAX,
        s.count <= u64::MAX,
    ensures
        -0x8000_0000_0000_0000_0000_0000 <= s.total <= 0x8000_0000_0000_0000_0000_0000,
{
    assert(s.count * s.min >= -0x8000_0000_0000_0000_0000_0000) by (nonlinear_arith)
        requires
            s.count <= 0xffff_ffff_ffff_ffff,
            s.count >= 0,
            s.min >= -0x8000_0000,
    ;
    assert(s.count * s.max <= 0x8000_0000_0000_0000_0000_0000) by (nonlinear_arith)
        requires
            s.count <= 0xffff_ffff_ffff_ffff,
            s.count >= 0,
            s.max <= 0x7fff_ffff,
    ;
}

impl StationStats {
    /// Statistics of a key seen once.
    pub fn first(reading: i32) -> (s: StationStats)
        ensures
            s@ == single(reading as int),
    {
        StationStats { min: reading, max: reading, total: reading as i128, count: 1 }
    }

    /// The statistics of the records behind `self` and behind `other`.
    pub fn merged(self, other: StationStats) -> (s: StationStats)
        requires
            stats_wf(self@),
            stats_wf(other@),
            self.count + other.count <= usize::MAX,
        ensures
            s@ == combine(self@, other@),
    {
        proof {
            lemma_total_bounded(self@);
            lemma_total_bounded(other@);
        }
        StationStats {
            min: if self.min <= other.min {
                self.min
            } else {
                other.min
            },
            max: if self.max >= other.max {
                self.max
            } else {
                other.max
            },
            total: self.total + other.total,
            count: self.count + other.count,
        }
    }
}

} // verus!
