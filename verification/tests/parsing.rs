use station_stats::parse::{parse_int, parse_int_checked};
use station_stats::records::{do_aggregate, find_byte, RecordError};

#[test]
fn parse_int_reads_one_fractional_digit() {
    assert_eq!(parse_int(b"12.3"), 123);
    assert_eq!(parse_int(b"-0.4"), -4);
    assert_eq!(parse_int(b"5"), 50);
    assert_eq!(parse_int(b"0.0"), 0);
    assert_eq!(parse_int(b"-99.9"), -999);
}

#[test]
fn parse_int_scales_a_reading_without_fractional_digit() {
    assert_eq!(parse_int(b"5"), 50);
    assert_eq!(parse_int(b"-12"), -120);
    assert_eq!(parse_int(b"0"), 0);
    assert_eq!(parse_int(b"7."), 70);
    assert_eq!(parse_int(b".5"), 5);
    assert_eq!(parse_int_checked(b"214748364"), Some(2147483640));
    assert_eq!(parse_int_checked(b"214748365"), None);
    assert_eq!(parse_int_checked(b"-214748365"), None);
}

#[test]
fn parse_int_of_empty_field_is_zero() {
    assert_eq!(parse_int(b""), 0);
}

#[test]
fn parse_int_stops_at_first_foreign_byte() {
    assert_eq!(parse_int(b"12.3abc"), 123);
    assert_eq!(parse_int(b"7 8"), 70);
    assert_eq!(parse_int(b"x12"), 0);
}

#[test]
fn parse_int_takes_a_sign_anywhere_in_the_scanned_part() {
    assert_eq!(parse_int(b"1-2"), -120);
    assert_eq!(parse_int(b"1-.2"), -12);
    assert_eq!(parse_int(b"1x-2"), 10);
}

#[test]
fn parse_int_checked_agrees_with_parse_int() {
    assert_eq!(parse_int_checked(b"12.3"), Some(123));
    assert_eq!(parse_int_checked(b"-2.1"), Some(-21));
    assert_eq!(parse_int_checked(b"214748364.7"), Some(i32::MAX));
    assert_eq!(parse_int_checked(b"-214748364.7"), Some(-i32::MAX));
}

#[test]
fn parse_int_checked_rejects_what_does_not_fit() {
    assert_eq!(parse_int_checked(b"214748364.8"), None);
    assert_eq!(parse_int_checked(b"99999999999"), None);
    assert_eq!(parse_int_checked(b"-214748364.8"), None);
}

#[test]
fn find_byte_gives_first_position_or_length() {
    assert_eq!(find_byte(b"a;b;c", b';'), 1);
    assert_eq!(find_byte(b"abc", b';'), 3);
    assert_eq!(find_byte(b"", b';'), 0);
    assert_eq!(find_byte(b";", b';'), 0);
}

#[test]
fn key_ends_at_first_separator() {
    let table = do_aggregate(b"a;b;1.5\n").unwrap();
    let stats = table.get(b"a").unwrap();
    assert_eq!(stats.min, 0);
    assert_eq!(stats.count, 1);
    assert!(table.get(b"a;b").is_none());
}

#[test]
fn record_without_separator_is_refused() {
    assert_eq!(do_aggregate(b"Tokyo 12.3\n").err(), Some(RecordError::MissingSeparator));
    assert_eq!(do_aggregate(b"a;1.0\n\n").err(), Some(RecordError::MissingSeparator));
}

#[test]
fn reading_beyond_32_bits_is_refused() {
    assert_eq!(do_aggregate(b"a;1.0\nb;99999999999.9\n").err(), Some(RecordError::ReadingOutOfRange));
}

#[test]
fn first_malformed_record_decides_the_error() {
    assert_eq!(do_aggregate(b"a;99999999999\nb\n").err(), Some(RecordError::ReadingOutOfRange));
    assert_eq!(do_aggregate(b"b\na;99999999999\n").err(), Some(RecordError::MissingSeparator));
}
