//! Rendering scaled integers as decimals with one fractional digit, and the
//! mean of a key rounded towards positive infinity.

use vstd::prelude::*;
use crate::parse::{
    digits_upto, has_fraction_upto, is_digit, is_scanned, lemma_digits_monotone,
    lemma_scanned_len, reading_negative, reading_value, scanned_len,
};
use crate::stats::{lemma_total_bounded, stats_wf, StationStats, Stats};

verus! {

/// The least integer `q` with `q * c >= t`, for a positive `c`.
pub open spec fn ceil_div(t: int, c: int) -> int {
    if t >= 0 {
        (t + c - 1) / c
    } else {
        -((-t) / c)
    }
}

/// The mean of a key, scaled by ten and rounded up to the next integer.
pub open spec fn mean_scaled(s: Stats) -> int {
    ceil_div(s.total, s.count as int)
}

/// `ceil_div` is the ceiling of the quotient: it reaches `t` when
/// multiplied back, and one less does not.
pub proof fn lemma_ceil_div(t: int, c: int)
    requires
        c > 0,
    ensures
        ceil_div(t, c) * c >= t,
        (ceil_div(t, c) - 1) * c < t,
{
    if t >= 0 {
        let n = t + c - 1;
        vstd::arithmetic::div_mod::lemma_fundamental_div_mod(n, c);
        vstd::arithmetic::div_mod::lemma_mod_bound(n, c);
        assert((n / c) * c == c * (n / c)) by (nonlinear_arith);
        assert((n / c - 1) * c == c * (n / c) - c) by (nonlinear_arith);
    } else {
        let m = -t;
        vstd::arithmetic::div_mod::lemma_fundamental_div_mod(m, c);
        vstd::arithmetic::div_mod::lemma_mod_bound(m, c);
        assert((-(m / c)) * c == -(c * (m / c))) by (nonlinear_arith);
        assert((-(m / c) - 1) * c == -(c * (m / c)) - c) by (nonlinear_arith);
    }
}

/// The mean of well-formed statistics lies between minimum and maximum.
pub proof fn lemma_mean_between(s: Stats)
    requires
        stats_wf(s),
    ensures
        s.min <= mean_scaled(s) <= s.max,
{
    let c = s.count as int;
    let q = mean_scaled(s);
    lemma_ceil_div(s.total, c);
    assert(q >= s.min) by (nonlinear_arith)
        requires
            q * c >= s.total,
            s.total >= c * s.min,
            c > 0,
    ;
    assert(q <= s.max) by (nonlinear_arith)
        requires
            (q - 1) * c < s.total,
            s.total <= c * s.max,
            c > 0,
    ;
}

/// A key seen once has its reading as minimum, mean and maximum.
pub proof fn lemma_single_record_stats(s: Stats)
    requires
        stats_wf(s),
        s.count == 1,
    ensures
        s.min == mean_scaled(s),
        mean_scaled(s) == s.max,
        render_scaled(s.min) == render_scaled(mean_scaled(s)),
        render_scaled(mean_scaled(s)) == render_scaled(s.max),
{
    lemma_mean_between(s);
}

/// The mean of `stats`, scaled by ten and rounded up.
pub fn mean_of(stats: &StationStats) -> (q: i32)
    requires
        stats_wf(stats@),
    ensures
        q == mean_scaled(stats@),
{
    proof {
        lemma_total_bounded(stats@);
        lemma_mean_between(stats@);
    }
    let c: i128 = stats.count as i128;
    if stats.total >= 0 {
        ((stats.total + c - 1) / c) as i32
    } else {
        let m: i128 = -stats.total;
        (-(m / c)) as i32
    }
}

/// The decimal digits of `n`, most significant first.
pub open spec fn decimal(n: nat) -> Seq<u8>
    decreases n,
{
    if n < 10 {
        seq![(48 + n) as u8]
    } else {
        decimal(n / 10).push((48 + n % 10) as u8)
    }
}

pub open spec fn abs_int(v: int) -> nat {
    if v < 0 {
        (-v) as nat
    } else {
        v as nat
    }
}

/// The text of the scaled integer `v` as a decimal with one fractional
/// digit: `-21` is `-2.1`, `5` is `0.5`, `0` is `0.0`.
pub open spec fn render_scaled(v: int) -> Seq<u8> {
    let m = abs_int(v);
    let sign: Seq<u8> = if v < 0 {
        seq![45u8]
    } else {
        Seq::empty()
    };
    sign + decimal(m / 10).push(46u8).push((48 + m % 10) as u8)
}

/// Appends `bytes` to `out`.
pub fn push_all(out: &mut Vec<u8>, bytes: &[u8])
    ensures
        final(out)@ == old(out)@ + bytes@,
{
    let mut i: usize = 0;
    while i < bytes.len()
        invariant
            0 <= i <= bytes.len(),
            out@ == old(out)@ + bytes@.take(i as int),
        decreases bytes.len() - i,
    {
        out.push(bytes[i]);
        assert(bytes@.take(i + 1) =~= bytes@.take(i as int).push(bytes@[i as int]));
        assert(out@ =~= old(out)@ + bytes@.take(i + 1));
        i += 1;
    }
    assert(bytes@.take(bytes.len() as int) =~= bytes@);
}

/// Appends the decimal digits of `n` to `out`.
pub fn push_decimal(out: &mut Vec<u8>, n: u32)
    ensures
        final(out)@ == old(out)@ + decimal(n as nat),
    decreases n,
{
    if n < 10 {
        out.push(48 + n as u8);
        assert(final(out)@ =~= old(out)@ + decimal(n as nat));
    } else {
        push_decimal(out, n / 10);
        out.push(48 + (n % 10) as u8);
        assert(final(out)@ =~= old(out)@ + decimal(n as nat));
    }
}

/// Appends the scaled integer `v` to `out` as a decimal with one
/// fractional digit.
pub fn push_scaled(out: &mut Vec<u8>, v: i32)
    ensures
        final(out)@ == old(out)@ + render_scaled(v as int),
{
    let m: u32 = if v < 0 {
        out.push(45);
        (-(v as i64)) as u32
    } else {
        v as u32
    };
    push_decimal(out, m / 10);
    out.push(46);
    out.push(48 + (m % 10) as u8);
    assert(final(out)@ =~= old(out)@ + render_scaled(v as int));
}

/// `w` is the decimal numeral of a natural number: digits, at least one,
/// and no leading zero but in `0` itself.
pub open spec fn is_numeral(w: Seq<u8>) -> bool {
    &&& w.len() >= 1
    &&& forall|i: int| 0 <= i < w.len() ==> is_digit(#[trigger] w[i])
    &&& (w.len() == 1 || w[0] != 48)
}

/// The text of a reading: an optional `-`, the whole part, a point and
/// one fractional digit.
pub open spec fn reading_text(negative: bool, whole: Seq<u8>, tenth: u8) -> Seq<u8> {
    let sign: Seq<u8> = if negative {
        seq![45u8]
    } else {
        Seq::empty()
    };
    sign + whole.push(46u8).push(tenth)
}

/// The text is the one way a reading is written: the whole part is a
/// numeral, the fraction a digit, and zero carries no sign.
pub open spec fn is_reading_text(negative: bool, whole: Seq<u8>, tenth: u8) -> bool {
    &&& is_numeral(whole)
    &&& is_digit(tenth)
    &&& !(negative && whole == seq![48u8] && tenth == 48)
}

/// What the digits spell up to `i` depends on the bytes before `i` alone.
pub proof fn lemma_digits_prefix(s: Seq<u8>, t: Seq<u8>, i: int)
    requires
        0 <= i,
        forall|j: int| 0 <= j < i ==> #[trigger] s[j] == t[j],
    ensures
        digits_upto(s, i) == digits_upto(t, i),
    decreases i,
{
    if i > 0 {
        lemma_digits_prefix(s, t, i - 1);
        assert(s[i - 1] == t[i - 1]);
    }
}

/// Behind bytes that hold no digit, the digits spell what they spell alone.
pub proof fn lemma_digits_shift(s: Seq<u8>, k: int, w: Seq<u8>, j: int)
    requires
        0 <= k,
        0 <= j <= w.len(),
        digits_upto(s, k) == 0,
        forall|i: int| 0 <= i < j ==> s[k + i] == #[trigger] w[i],
    ensures
        digits_upto(s, k + j) == digits_upto(w, j),
    decreases j,
{
    if j > 0 {
        lemma_digits_shift(s, k, w, j - 1);
        assert(s[k + (j - 1)] == w[j - 1]);
    }
}

/// The decimal digits of the number that a numeral spells are the numeral.
pub proof fn lemma_numeral_decimal(w: Seq<u8>)
    requires
        is_numeral(w),
    ensures
        decimal(digits_upto(w, w.len() as int)) == w,
        w[0] != 48 ==> digits_upto(w, w.len() as int) >= 1,
        digits_upto(w, w.len() as int) == 0 ==> w == seq![48u8],
    decreases w.len(),
{
    let n = w.len() as int;
    assert(is_digit(w[0]));
    assert(digits_upto(w, 1) == w[0] - 48) by {
        assert(digits_upto(w, 0) == 0);
    }
    if n == 1 {
        assert(decimal(digits_upto(w, 1)) =~= w);
        if digits_upto(w, 1) == 0 {
            assert(w =~= seq![48u8]);
        }
    } else {
        lemma_digits_monotone(w, 1, n);
        let p = w.drop_last();
        assert forall|i: int| 0 <= i < p.len() implies is_digit(#[trigger] p[i]) by {
            assert(p[i] == w[i]);
        }
        assert(p[0] == w[0]);
        lemma_numeral_decimal(p);
        lemma_digits_prefix(w, p, n - 1);
        assert(is_digit(w[n - 1]));
        let v = digits_upto(p, n - 1);
        let d = (w[n - 1] - 48) as nat;
        assert(digits_upto(w, n) == v * 10 + d);
        assert((v * 10 + d) / 10 == v && (v * 10 + d) % 10 == d) by (nonlinear_arith)
            requires
                0 <= d < 10,
        ;
        assert(decimal(v * 10 + d) =~= w);
    }
}

/// Parsing the text of a reading and rendering the result gives the text
/// back.
pub proof fn lemma_text_round_trip(negative: bool, whole: Seq<u8>, tenth: u8)
    requires
        is_reading_text(negative, whole, tenth),
    ensures
        render_scaled(reading_value(reading_text(negative, whole, tenth))) == reading_text(
            negative,
            whole,
            tenth,
        ),
{
    let t = reading_text(negative, whole, tenth);
    let k: int = if negative {
        1
    } else {
        0
    };
    let n = whole.len() as int;
    assert(t.len() == k + n + 2);
    assert forall|i: int| 0 <= i < n implies t[k + i] == #[trigger] whole[i] by {}
    assert(t[k + n] == 46);
    assert(t[k + n + 1] == tenth);
    assert forall|j: int| 0 <= j < t.len() implies is_scanned(#[trigger] t[j]) by {
        if k <= j < k + n {
            assert(t[j] == whole[j - k]);
        }
    }
    lemma_scanned_len(t, t.len() as int);
    assert(digits_upto(t, k) == 0) by {
        assert(digits_upto(t, 0) == 0);
    }
    lemma_digits_shift(t, k, whole, n);
    let v = digits_upto(whole, n);
    let f = (tenth - 48) as nat;
    assert(digits_upto(t, k + n + 1) == v);
    assert(digits_upto(t, k + n + 2) == v * 10 + f);
    assert(has_fraction_upto(t, t.len() as int)) by {
        assert(0 <= k + n < k + n + 1 < t.len() && t[k + n] == 46 && is_digit(t[k + n + 1]));
    }
    assert(reading_negative(t) <==> negative) by {
        if negative {
            assert(t[0] == 45);
        } else {
            assert forall|j: int| 0 <= j < scanned_len(t) implies t[j] != 45 by {
                if j < n {
                    assert(t[j] == whole[j]);
                }
            }
        }
    }
    lemma_numeral_decimal(whole);
    let m = v * 10 + f;
    assert(m / 10 == v && m % 10 == f) by (nonlinear_arith)
        requires
            m == v * 10 + f,
            0 <= f < 10,
    ;
    if negative && m == 0 {
        assert(whole == seq![48u8]);
    }
    assert(render_scaled(reading_value(t)) =~= t);
}

} // verus!
