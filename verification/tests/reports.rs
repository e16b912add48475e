use station_stats::chunks::plan_chunks;
use station_stats::engine::{aggregate, AggregateError};
use station_stats::records::{do_aggregate, RecordError};
use station_stats::render::mean_of;
use station_stats::report::format_output;
use station_stats::stats::StationStats;

fn report(data: &[u8], parts: usize) -> String {
    String::from_utf8(aggregate(data, parts).unwrap()).unwrap()
}

#[test]
fn end_to_end_example() {
    let data = b"Tokyo;12.3\nTokyo;8.7\nParis;-2.1\n";
    assert_eq!(report(data, 1), "{Paris=-2.1/-2.1/-2.1, Tokyo=8.7/10.5/12.3}\n");
}

#[test]
fn mean_that_does_not_terminate_is_rounded_up() {
    let data = b"Tokyo;1.0\nTokyo;1.1\nTokyo;1.1\n";
    assert_eq!(report(data, 1), "{Tokyo=1.0/1.1/1.1}\n");
}

#[test]
fn mean_is_ceiling_not_nearest_even() {
    let stats = StationStats { min: 11, max: 12, total: 23, count: 2 };
    assert_eq!(mean_of(&stats), 12);
    assert_eq!(report(b"k;1.2\nk;1.1\n", 1), "{k=1.1/1.2/1.2}\n");
}

#[test]
fn negative_mean_is_rounded_towards_positive_infinity() {
    let stats = StationStats { min: -12, max: -11, total: -23, count: 2 };
    assert_eq!(mean_of(&stats), -11);
    assert_eq!(report(b"k;-1.2\nk;-1.1\n", 1), "{k=-1.2/-1.1/-1.1}\n");
    assert_eq!(mean_of(&StationStats { min: -1, max: 0, total: -1, count: 2 }), 0);
    assert_eq!(mean_of(&StationStats { min: 0, max: 1, total: 1, count: 3 }), 1);
}

#[test]
fn key_seen_once_has_equal_statistics() {
    assert_eq!(report(b"Oslo;-0.4\n", 1), "{Oslo=-0.4/-0.4/-0.4}\n");
    assert_eq!(report(b"Oslo;0.0\n", 1), "{Oslo=0.0/0.0/0.0}\n");
    assert_eq!(report(b"Oslo;107.9\n", 1), "{Oslo=107.9/107.9/107.9}\n");
}

#[test]
fn keys_come_in_byte_order() {
    let data = b"b;1.0\na;2.0\nB;3.0\nA;4.0\n";
    assert_eq!(report(data, 1), "{A=4.0/4.0/4.0, B=3.0/3.0/3.0, a=2.0/2.0/2.0, b=1.0/1.0/1.0}\n");
}

#[test]
fn prefix_key_comes_before_its_extensions() {
    let data = b"ab;1.0\na;2.0\nabc;3.0\n;4.0\n";
    assert_eq!(report(data, 1), "{=4.0/4.0/4.0, a=2.0/2.0/2.0, ab=1.0/1.0/1.0, abc=3.0/3.0/3.0}\n");
}

#[test]
fn report_of_empty_table() {
    assert_eq!(report(b"", 1), "{}\n");
    assert_eq!(format_output(do_aggregate(b"").unwrap()), b"{}\n".to_vec());
}

#[test]
fn reading_without_fractional_digit_is_a_whole_number() {
    assert_eq!(report(b"k;5\n", 1), "{k=5.0/5.0/5.0}\n");
    assert_eq!(report(b"k;5\nk;4.5\n", 1), "{k=4.5/4.8/5.0}\n");
}

#[test]
fn plan_exists_for_every_chunk_count_when_buffer_ends_in_terminator() {
    let data = b"a;1.0\nbb;2.0\nccc;3.0\n";
    for parts in 1..=40 {
        let cuts = plan_chunks(data, parts).unwrap();
        assert_eq!(cuts.len(), parts + 1);
        assert_eq!(report(data, parts), "{a=1.0/1.0/1.0, bb=2.0/2.0/2.0, ccc=3.0/3.0/3.0}\n");
    }
}

#[test]
fn order_of_records_does_not_change_the_report() {
    let one = report(b"a;1.0\nb;2.0\na;3.5\nc;-1.0\n", 1);
    let two = report(b"c;-1.0\na;3.5\nb;2.0\na;1.0\n", 1);
    assert_eq!(one, two);
    assert_eq!(one, "{a=1.0/2.3/3.5, b=2.0/2.0/2.0, c=-1.0/-1.0/-1.0}\n");
}

#[test]
fn report_does_not_depend_on_the_number_of_chunks() {
    let data = b"Tokyo;12.3\nParis;-2.1\nTokyo;8.7\nOslo;0.3\nParis;4.4\nOslo;-7.0\nTokyo;1.0\n";
    let whole = report(data, 1);
    assert_eq!(whole, "{Oslo=-7.0/-3.3/0.3, Paris=-2.1/1.2/4.4, Tokyo=1.0/7.4/12.3}\n");
    for parts in 1..=7 {
        assert_eq!(report(data, parts), whole);
    }
}

#[test]
fn same_bytes_give_same_report() {
    let data = b"x;1.5\ny;-1.5\nx;2.5\n";
    assert_eq!(aggregate(data, 2), aggregate(data, 2));
    assert_eq!(report(data, 2), "{x=1.5/2.0/2.5, y=-1.5/-1.5/-1.5}\n");
}

#[test]
fn more_chunks_than_records_leaves_some_empty() {
    let data = b"a;1.0\nb;2.0\n";
    let cuts = plan_chunks(data, 8).unwrap();
    assert_eq!(cuts, vec![0, 6, 6, 6, 6, 6, 12, 12, 12]);
    assert!(do_aggregate(&data[6..6]).unwrap().keys().is_empty());
    assert_eq!(report(data, 8), "{a=1.0/1.0/1.0, b=2.0/2.0/2.0}\n");
}

#[test]
fn plan_moves_each_candidate_behind_the_next_terminator() {
    let data = b"aa;1.0\nbb;2.0\ncc;3.0\ndd;4.0\n";
    assert_eq!(plan_chunks(data, 1), Some(vec![0, 28]));
    assert_eq!(plan_chunks(data, 2), Some(vec![0, 21, 28]));
    assert_eq!(plan_chunks(data, 3), Some(vec![0, 14, 21, 28]));
    assert_eq!(plan_chunks(data, 4), Some(vec![0, 14, 21, 28, 28]));
}

#[test]
fn plan_fails_without_terminator_behind_a_candidate() {
    assert_eq!(plan_chunks(b"a;1.0\nb;2.0", 3), None);
    assert_eq!(plan_chunks(b"a;1.0\nb;2.0", 2), Some(vec![0, 6, 11]));
    assert_eq!(plan_chunks(b"", 2), None);
    assert_eq!(plan_chunks(b"a;1.0\n", 0), None);
    assert_eq!(plan_chunks(b"", 1), Some(vec![0, 0]));
}

#[test]
fn aggregate_reports_each_failure() {
    assert_eq!(aggregate(b"a;1.0\nb;2.0", 3), Err(AggregateError::ChunkBoundary));
    assert_eq!(aggregate(b"a;1.0\n", 0), Err(AggregateError::ChunkBoundary));
    assert_eq!(
        aggregate(b"a;1.0\nb\nc;3.0\n", 2),
        Err(AggregateError::Record(RecordError::MissingSeparator))
    );
    assert_eq!(
        aggregate(b"a;1.0\nb;12345678901\nc\n", 3),
        Err(AggregateError::Record(RecordError::ReadingOutOfRange))
    );
}

#[test]
fn key_bytes_pass_through_unchanged() {
    let data = "Zürich;1.0\n東京;2.0\nAbha;3.0\n".as_bytes();
    assert_eq!(report(data, 2), "{Abha=3.0/3.0/3.0, Zürich=1.0/1.0/1.0, 東京=2.0/2.0/2.0}\n");
}

#[test]
fn wide_values_render_all_digits() {
    assert_eq!(report(b"k;-214748364.7\nk;214748364.7\n", 1), "{k=-214748364.7/0.0/214748364.7}\n");
}
