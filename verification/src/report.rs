//! The report: every key once, in ascending byte order, each with minimum,
//! mean and maximum.

use vstd::prelude::*;
use crate::records::{
    is_record_of, key_count, lemma_table_exact, reading_at, record_at, record_field, table_of,
};
use crate::render::{
    is_reading_text, lemma_single_record_stats, lemma_text_round_trip, mean_of, mean_scaled,
    push_all, push_scaled, reading_text, render_scaled,
};
use crate::stats::Stats;
use crate::table::{distinct_keys, StationTable};

verus! {

/// `a` comes before `b` in lexicographic byte order.
pub open spec fn lex_lt(a: Seq<u8>, b: Seq<u8>) -> bool
    decreases a.len(),
{
    if b.len() == 0 {
        false
    } else if a.len() == 0 {
        true
    } else if a[0] != b[0] {
        a[0] < b[0]
    } else {
        lex_lt(a.drop_first(), b.drop_first())
    }
}

/// Of two keys at most one comes before the other.
pub proof fn lemma_lex_asymmetric(a: Seq<u8>, b: Seq<u8>)
    ensures
        !(lex_lt(a, b) && lex_lt(b, a)),
    decreases a.len(),
{
    if a.len() > 0 && b.len() > 0 && a[0] == b[0] {
        lemma_lex_asymmetric(a.drop_first(), b.drop_first());
    }
}

/// Of two different keys one comes before the other.
pub proof fn lemma_lex_total(a: Seq<u8>, b: Seq<u8>)
    requires
        a != b,
    ensures
        lex_lt(a, b) || lex_lt(b, a),
    decreases a.len(),
{
    if a.len() == 0 || b.len() == 0 {
        if a.len() == 0 && b.len() == 0 {
            assert(a =~= b);
        }
    } else if a[0] == b[0] {
        let x = a.drop_first();
        let y = b.drop_first();
        if x == y {
            assert(a =~= seq![a[0]] + x);
            assert(b =~= seq![b[0]] + y);
        }
        lemma_lex_total(x, y);
    }
}

/// Every key of `ks` comes before all that follow it.
pub open spec fn strictly_ascending(ks: Seq<Seq<u8>>) -> bool {
    forall|i: int, j: int| 0 <= i < j < ks.len() ==> lex_lt(#[trigger] ks[i], #[trigger] ks[j])
}

/// `ks` lists the keys of `m`, each once, in ascending byte order.
pub open spec fn is_key_order(ks: Seq<Seq<u8>>, m: Map<Seq<u8>, Stats>) -> bool {
    strictly_ascending(ks) && forall|k: Seq<u8>| ks.contains(k) <==> m.contains_key(k)
}

/// Two ascending lists with the same keys are the same list: the order of
/// a report is fixed by the keys alone.
pub proof fn lemma_ascending_unique(a: Seq<Seq<u8>>, b: Seq<Seq<u8>>)
    requires
        strictly_ascending(a),
        strictly_ascending(b),
        forall|k: Seq<u8>| a.contains(k) <==> b.contains(k),
    ensures
        a == b,
    decreases a.len(),
{
    if a.len() == 0 {
        if b.len() > 0 {
            assert(b.contains(b[0]));
        }
        assert(a =~= b);
    } else if b.len() == 0 {
        assert(a.contains(a[0]));
    } else {
        assert(a.contains(a[0]));
        assert(b.contains(b[0]));
        let j = choose|j: int| 0 <= j < b.len() && b[j] == a[0];
        let i = choose|i: int| 0 <= i < a.len() && a[i] == b[0];
        if i > 0 && j > 0 {
            assert(lex_lt(a[0], a[i]));
            assert(lex_lt(b[0], b[j]));
            lemma_lex_asymmetric(a[0], b[0]);
        }
        assert(a[0] == b[0]);
        let x = a.drop_first();
        let y = b.drop_first();
        assert forall|p: int, q: int| 0 <= p < q < x.len() implies lex_lt(#[trigger] x[p], #[trigger] x[q]) by {
            assert(lex_lt(a[p + 1], a[q + 1]));
        }
        assert forall|p: int, q: int| 0 <= p < q < y.len() implies lex_lt(#[trigger] y[p], #[trigger] y[q]) by {
            assert(lex_lt(b[p + 1], b[q + 1]));
        }
        assert forall|k: Seq<u8>| x.contains(k) <==> y.contains(k) by {
            if x.contains(k) {
                let p = choose|p: int| 0 <= p < x.len() && x[p] == k;
                assert(a[p + 1] == k);
                assert(a.contains(k));
                let q = choose|q: int| 0 <= q < b.len() && b[q] == k;
                if q == 0 {
                    assert(lex_lt(a[0], a[p + 1]));
                    lemma_lex_asymmetric(k, k);
                }
                assert(y[q - 1] == k);
            }
            if y.contains(k) {
                let q = choose|q: int| 0 <= q < y.len() && y[q] == k;
                assert(b[q + 1] == k);
                assert(b.contains(k));
                let p = choose|p: int| 0 <= p < a.len() && a[p] == k;
                if p == 0 {
                    assert(lex_lt(b[0], b[q + 1]));
                    lemma_lex_asymmetric(k, k);
                }
                assert(x[p - 1] == k);
            }
        }
        lemma_ascending_unique(x, y);
        assert(a =~= seq![a[0]] + x);
        assert(b =~= seq![b[0]] + y);
    }
}

/// The keys of `m` in ascending byte order.
pub open spec fn key_order(m: Map<Seq<u8>, Stats>) -> Seq<Seq<u8>> {
    choose|ks: Seq<Seq<u8>>| is_key_order(ks, m)
}

/// One entry of the report: `key=min/mean/max`.
pub open spec fn render_entry(k: Seq<u8>, s: Stats) -> Seq<u8> {
    k + seq![61u8] + render_scaled(s.min) + seq![47u8] + render_scaled(mean_scaled(s)) + seq![47u8]
        + render_scaled(s.max)
}

/// The first `n` entries of the report, parted by a comma and a space.
pub open spec fn render_entries(ks: Seq<Seq<u8>>, m: Map<Seq<u8>, Stats>, n: int) -> Seq<u8>
    decreases n,
{
    if n <= 0 {
        Seq::empty()
    } else if n == 1 {
        render_entry(ks[0], m[ks[0]])
    } else {
        render_entries(ks, m, n - 1) + seq![44u8, 32u8] + render_entry(ks[n - 1], m[ks[n - 1]])
    }
}

/// The report with the keys in the order `ks`: the entries in braces,
/// then a line terminator.
pub open spec fn render_report(ks: Seq<Seq<u8>>, m: Map<Seq<u8>, Stats>) -> Seq<u8> {
    seq![123u8] + render_entries(ks, m, ks.len() as int) + seq![125u8, 10u8]
}

/// The report of the table `m`.
pub open spec fn report_of(m: Map<Seq<u8>, Stats>) -> Seq<u8> {
    render_report(key_order(m), m)
}

/// The byte strings behind `keys`.
pub open spec fn key_views(keys: Seq<Vec<u8>>) -> Seq<Seq<u8>> {
    Seq::new(keys.len(), |i: int| keys[i]@)
}

/// `slice::sort` of std on byte strings that are pairwise different: the
/// same strings in ascending order, which for byte strings is the
/// lexicographic one; none is lost, added or doubled.
#[verifier::external_body]
fn sort_keys(keys: &mut Vec<Vec<u8>>)
    requires
        distinct_keys(old(keys)@),
    ensures
        final(keys)@.len() == old(keys)@.len(),
        distinct_keys(final(keys)@),
        forall|k: Seq<u8>| key_views(final(keys)@).contains(k) <==> key_views(old(keys)@).contains(k),
        forall|i: int, j: int|
            0 <= i < j < final(keys)@.len() ==> !lex_lt(#[trigger] final(keys)@[j]@, #[trigger] final(keys)@[i]@),
{
    keys.sort();
}

/// Renders the report of `stats`: `{k1=min/mean/max, k2=...}` and a line
/// terminator, keys ascending byte-wise, every number with one fractional
/// digit, the mean rounded towards positive infinity.
pub fn format_output(stats: StationTable) -> (out: Vec<u8>)
    requires
        stats.wf(),
    ensures
        out@ == report_of(stats@),
        is_key_order(key_order(stats@), stats@),
{
    let mut keys = stats.keys();
    proof {
        let before = key_views(keys@);
        assert forall|k: Seq<u8>| before.contains(k) <==> stats@.contains_key(k) by {
            if stats@.contains_key(k) {
                let i = choose|i: int| 0 <= i < keys.len() && keys[i]@ == k;
                assert(before[i] == k);
            }
            if before.contains(k) {
                let i = choose|i: int| 0 <= i < before.len() && before[i] == k;
                assert(stats@.contains_key(keys[i]@));
            }
        }
    }
    sort_keys(&mut keys);
    let ghost ks = key_views(keys@);
    proof {
        assert forall|i: int, j: int| 0 <= i < j < ks.len() implies lex_lt(#[trigger] ks[i], #[trigger] ks[j]) by {
            assert(!lex_lt(keys@[j]@, keys@[i]@));
            assert(keys@[i]@ != keys@[j]@);
            lemma_lex_total(ks[i], ks[j]);
        }
        assert(is_key_order(ks, stats@));
        lemma_ascending_unique(ks, key_order(stats@));
    }
    let mut out: Vec<u8> = Vec::new();
    out.push(123);
    let mut i: usize = 0;
    while i < keys.len()
        invariant
            0 <= i <= keys.len(),
            ks == key_views(keys@),
            stats.wf(),
            forall|k: Seq<u8>| ks.contains(k) <==> stats@.contains_key(k),
            out@ == seq![123u8] + render_entries(ks, stats@, i as int),
        decreases keys.len() - i,
    {
        let ghost head = out@;
        if i != 0 {
            out.push(44);
            out.push(32);
        }
        let key = keys[i].as_slice();
        assert(ks[i as int] == key@);
        assert(ks.contains(key@));
        match stats.get(key) {
            Some(st) => {
                push_all(&mut out, key);
                out.push(61);
                push_scaled(&mut out, st.min);
                out.push(47);
                push_scaled(&mut out, mean_of(&st));
                out.push(47);
                push_scaled(&mut out, st.max);
                assert(out@ =~= seq![123u8] + render_entries(ks, stats@, i + 1));
            },
            None => {},
        }
        i += 1;
    }
    out.push(125);
    out.push(10);
    assert(out@ =~= render_report(ks, stats@));
    out
}

/// A key with exactly one record in `s` is rendered with the same text for
/// minimum, mean and maximum: the text of that record's reading.
pub proof fn lemma_seen_once(s: Seq<u8>, k: Seq<u8>)
    requires
        key_count(s, k, s.len() as int) == 1,
    ensures
        table_of(s).contains_key(k),
        table_of(s)[k].min == mean_scaled(table_of(s)[k]),
        table_of(s)[k].max == mean_scaled(table_of(s)[k]),
        render_entry(k, table_of(s)[k]) == k + seq![61u8] + render_scaled(table_of(s)[k].min) + seq![47u8]
            + render_scaled(table_of(s)[k].min) + seq![47u8] + render_scaled(table_of(s)[k].min),
{
    lemma_table_exact(s, k, s.len() as int);
    lemma_single_record_stats(table_of(s)[k]);
}

/// A key whose one record carries a reading in its one written form is
/// reported with that very text for minimum, mean and maximum.
pub proof fn lemma_seen_once_text(
    s: Seq<u8>,
    k: Seq<u8>,
    j: int,
    negative: bool,
    whole: Seq<u8>,
    tenth: u8,
)
    requires
        key_count(s, k, s.len() as int) == 1,
        0 <= j < s.len(),
        is_record_of(s, k, j),
        is_reading_text(negative, whole, tenth),
        record_field(record_at(s, j)) == reading_text(negative, whole, tenth),
    ensures
        table_of(s).contains_key(k),
        render_entry(k, table_of(s)[k]) == k + seq![61u8] + reading_text(negative, whole, tenth) + seq![47u8]
            + reading_text(negative, whole, tenth) + seq![47u8] + reading_text(negative, whole, tenth),
{
    lemma_table_exact(s, k, s.len() as int);
    let st = table_of(s)[k];
    assert(st.min <= reading_at(s, j) <= st.max);
    lemma_single_record_stats(st);
    lemma_text_round_trip(negative, whole, tenth);
}

} // verus!
