//! Fixed-point readings: a decimal with at most one fractional digit is
//! held as the integer ten times as large.

use vstd::prelude::*;

verus! {

/// The sign byte, `-`.
pub const MINUS: u8 = 45;

/// The decimal point, `.`.
pub const POINT: u8 = 46;

/// The digit `0`.
pub const DIGIT_ZERO: u8 = 48;

/// The digit `9`.
pub const DIGIT_NINE: u8 = 57;

/// `b` is an ASCII decimal digit.
pub open spec fn is_digit(b: u8) -> bool {
    48 <= b <= 57
}

/// `b` is a byte the reading scanner consumes: a digit, `-` or `.`.
pub open spec fn is_scanned(b: u8) -> bool {
    is_digit(b) || b == 45 || b == 46
}

/// Number of leading bytes of `s` that the scanner consumes.
pub open spec fn scanned_len(s: Seq<u8>) -> nat
    decreases s.len(),
{
    if s.len() == 0 || !is_scanned(s[0]) {
        0
    } else {
        1 + scanned_len(s.drop_first())
    }
}

/// The number spelled by the digits among the first `i` bytes of `s`.
pub open spec fn digits_upto(s: Seq<u8>, i: int) -> nat
    decreases i,
{
    if i <= 0 {
        0
    } else if is_digit(s[i - 1]) {
        (digits_upto(s, i - 1) * 10 + (s[i - 1] - 48)) as nat
    } else {
        digits_upto(s, i - 1)
    }
}

/// Among the first `n` bytes of `s` a digit stands behind a decimal point.
pub open spec fn has_fraction_upto(s: Seq<u8>, n: int) -> bool {
    exists|i: int, j: int| 0 <= i < j < n && #[trigger] s[i] == 46 && is_digit(#[trigger] s[j])
}

/// Among the first `n` bytes of `s` stands a decimal point.
pub open spec fn has_point_upto(s: Seq<u8>, n: int) -> bool {
    exists|i: int| 0 <= i < n && #[trigger] s[i] == 46
}

/// The reading is written with a fractional digit.
pub open spec fn has_fraction(s: Seq<u8>) -> bool {
    has_fraction_upto(s, scanned_len(s) as int)
}

/// Magnitude of the reading, scaled by ten. Written with a fractional
/// digit, it is the number that the digits spell with the point skipped;
/// written without one, it is ten times the number that the digits spell.
pub open spec fn reading_magnitude(s: Seq<u8>) -> nat {
    let d = digits_upto(s, scanned_len(s) as int);
    if has_fraction(s) {
        d
    } else {
        d * 10
    }
}

/// A `-` stands somewhere in the scanned prefix.
pub open spec fn reading_negative(s: Seq<u8>) -> bool {
    exists|j: int| 0 <= j < scanned_len(s) && s[j] == 45
}

/// The scaled integer that the field `s` denotes: ten times its value.
pub open spec fn reading_value(s: Seq<u8>) -> int {
    if reading_negative(s) {
        -(reading_magnitude(s) as int)
    } else {
        reading_magnitude(s) as int
    }
}

/// The scaled reading fits the 32-bit integer.
pub open spec fn reading_fits(s: Seq<u8>) -> bool {
    reading_magnitude(s) <= i32::MAX
}

/// The scanned prefix ends at `i` when everything before `i` is consumed and
/// `i` is the end of the field or a byte that stops the scan.
pub proof fn lemma_scanned_len(s: Seq<u8>, i: int)
    requires
        0 <= i <= s.len(),
        forall|j: int| 0 <= j < i ==> is_scanned(#[trigger] s[j]),
        i == s.len() || !is_scanned(s[i]),
    ensures
        scanned_len(s) == i,
    decreases i,
{
    if i > 0 {
        let t = s.drop_first();
        assert(is_scanned(s[0]));
        assert forall|j: int| 0 <= j < i - 1 implies is_scanned(#[trigger] t[j]) by {
            assert(t[j] == s[j + 1]);
        }
        if i < s.len() {
            assert(t[i - 1] == s[i]);
        }
        lemma_scanned_len(t, i - 1);
    }
}

/// Reading more bytes never makes the digits spell a smaller number.
pub proof fn lemma_digits_monotone(s: Seq<u8>, i: int, j: int)
    requires
        0 <= i <= j,
    ensures
        digits_upto(s, i) <= digits_upto(s, j),
    decreases j - i,
{
    if i < j {
        lemma_digits_monotone(s, i, j - 1);
    }
}

/// Parses a reading into its value times ten, or reports that it does not
/// fit 32 bits: `12.3` is 123, `-0.4` is -4, `5` is 50. Scanning stops at
/// the first byte that is no digit, `-` or `.`.
pub fn parse_int_checked(bytes: &[u8]) -> (r: Option<i32>)
    ensures
        r is Some <==> reading_fits(bytes@),
        r is Some ==> r.unwrap() == reading_value(bytes@),
{
    let mut acc: i32 = 0;
    let mut negative = false;
    let mut point = false;
    let mut fraction = false;
    let mut i: usize = 0;
    while i < bytes.len()
        invariant
            0 <= i <= bytes.len(),
            forall|j: int| 0 <= j < i ==> is_scanned(#[trigger] bytes@[j]),
            acc == digits_upto(bytes@, i as int),
            negative <==> exists|j: int| 0 <= j < i && bytes@[j] == 45,
            point <==> has_point_upto(bytes@, i as int),
            fraction <==> has_fraction_upto(bytes@, i as int),
        ensures
            i == bytes.len() || !is_scanned(bytes@[i as int]),
        decreases bytes.len() - i,
    {
        let b = bytes[i];
        if b == MINUS {
            negative = true;
        } else if b == POINT {
            point = true;
        } else if b >= DIGIT_ZERO && b <= DIGIT_NINE {
            let d: i32 = (b - DIGIT_ZERO) as i32;
            if acc > (i32::MAX - d) / 10 {
                proof {
                    lemma_reading_too_large(bytes@, i as int);
                }
                return None;
            }
            acc = acc * 10 + d;
            fraction = fraction || point;
        } else {
            break ;
        }
        proof {
            lemma_fraction_step(bytes@, i as int);
        }
        i += 1;
    }
    proof {
        lemma_scanned_len(bytes@, i as int);
    }
    if !fraction {
        if acc > i32::MAX / 10 {
            return None;
        }
        acc = acc * 10;
    }
    if negative {
        Some(-acc)
    } else {
        Some(acc)
    }
}

/// How one more scanned byte changes whether a point, and a digit behind
/// a point, have been seen.
proof fn lemma_fraction_step(s: Seq<u8>, i: int)
    requires
        0 <= i < s.len(),
    ensures
        has_point_upto(s, i + 1) <==> has_point_upto(s, i) || s[i] == 46,
        has_fraction_upto(s, i + 1) <==> has_fraction_upto(s, i) || (has_point_upto(s, i) && is_digit(
            s[i],
        )),
{
    if has_point_upto(s, i) {
        let p = choose|p: int| 0 <= p < i && #[trigger] s[p] == 46;
        assert(s[p] == 46);
        if is_digit(s[i]) {
            assert(0 <= p < i < i + 1 && s[p] == 46 && is_digit(s[i]));
        }
    }
    if s[i] == 46 {
        assert(has_point_upto(s, i + 1));
    }
    if has_fraction_upto(s, i) {
        let (p, q) = choose|p: int, q: int| 0 <= p < q < i && #[trigger] s[p] == 46 && is_digit(#[trigger] s[q]);
        assert(0 <= p < q < i + 1 && s[p] == 46 && is_digit(s[q]));
    }
    if has_fraction_upto(s, i + 1) {
        let (p, q) = choose|p: int, q: int|
            0 <= p < q < i + 1 && #[trigger] s[p] == 46 && is_digit(#[trigger] s[q]);
        if q < i {
            assert(has_fraction_upto(s, i));
        } else {
            assert(has_point_upto(s, i));
        }
    }
}

/// A digit at `i` that lifts the running number past 32 bits leaves the whole
/// reading out of range, whatever follows.
proof fn lemma_reading_too_large(s: Seq<u8>, i: int)
    requires
        0 <= i < s.len(),
        forall|j: int| 0 <= j < i ==> is_scanned(#[trigger] s[j]),
        is_digit(s[i]),
        digits_upto(s, i + 1) > i32::MAX,
    ensures
        !reading_fits(s),
{
    lemma_scanned_prefix(s, i + 1);
    lemma_digits_monotone(s, i + 1, scanned_len(s) as int);
}

/// Bytes that are all consumed lie inside the scanned prefix.
pub proof fn lemma_scanned_prefix(s: Seq<u8>, i: int)
    requires
        0 <= i <= s.len(),
        forall|j: int| 0 <= j < i ==> is_scanned(#[trigger] s[j]),
    ensures
        i <= scanned_len(s) <= s.len(),
    decreases s.len(),
{
    if s.len() > 0 && is_scanned(s[0]) {
        let t = s.drop_first();
        if i > 0 {
            assert forall|j: int| 0 <= j < i - 1 implies is_scanned(#[trigger] t[j]) by {
                assert(t[j] == s[j + 1]);
            }
            lemma_scanned_prefix(t, i - 1);
        } else {
            lemma_scanned_prefix(t, 0);
        }
    }
}

/// Parses a well-formed reading into its value times ten: `12.3` is 123,
/// `-0.4` is -4, `5` is 50. Scanning stops at the first byte that is no
/// digit, `-` or `.`.
pub fn parse_int(bytes: &[u8]) -> (r: i32)
    requires
        reading_fits(bytes@),
    ensures
        r == reading_value(bytes@),
{
    match parse_int_checked(bytes) {
        Some(value) => value,
        None => vstd::pervasive::unreached(),
    }
}

} // verus!
