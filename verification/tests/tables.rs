use station_stats::merge::{can_merge, merge_tables};
use station_stats::records::do_aggregate;
use station_stats::stats::StationStats;
use station_stats::table::StationTable;

fn fields(s: StationStats) -> (i32, i32, i128, usize) {
    (s.min, s.max, s.total, s.count)
}

#[test]
fn new_table_is_empty() {
    let table = StationTable::new();
    assert!(table.keys().is_empty());
    assert!(table.get(b"Tokyo").is_none());
}

#[test]
fn first_record_of_a_key_sets_all_fields() {
    let mut table = StationTable::new();
    table.record(b"Tokyo", 123);
    assert_eq!(fields(table.get(b"Tokyo").unwrap()), (123, 123, 123, 1));
    assert!(table.get(b"Toky").is_none());
    assert_eq!(table.keys(), vec![b"Tokyo".to_vec()]);
}

#[test]
fn later_records_widen_the_statistics() {
    let mut table = StationTable::new();
    table.record(b"Tokyo", 123);
    table.record(b"Tokyo", 87);
    table.record(b"Paris", -21);
    table.record(b"Tokyo", 200);
    assert_eq!(fields(table.get(b"Tokyo").unwrap()), (87, 200, 410, 3));
    assert_eq!(fields(table.get(b"Paris").unwrap()), (-21, -21, -21, 1));
    let mut keys = table.keys();
    keys.sort();
    assert_eq!(keys, vec![b"Paris".to_vec(), b"Tokyo".to_vec()]);
}

#[test]
fn first_and_merged_follow_the_combine_rule() {
    let a = StationStats::first(5);
    assert_eq!(fields(a), (5, 5, 5, 1));
    let b = StationStats { min: -3, max: 9, total: 12, count: 4 };
    assert_eq!(fields(a.merged(b)), (-3, 9, 17, 5));
    assert_eq!(fields(b.merged(a)), (-3, 9, 17, 5));
}

#[test]
fn scan_counts_and_sums_each_key() {
    let table = do_aggregate(b"Tokyo;12.3\nTokyo;8.7\nParis;-2.1\n").unwrap();
    assert_eq!(fields(table.get(b"Tokyo").unwrap()), (87, 123, 210, 2));
    assert_eq!(fields(table.get(b"Paris").unwrap()), (-21, -21, -21, 1));
    assert_eq!(table.keys().len(), 2);
}

#[test]
fn scan_of_empty_range_gives_empty_table() {
    let table = do_aggregate(b"").unwrap();
    assert!(table.keys().is_empty());
}

#[test]
fn bytes_behind_the_last_terminator_are_no_record() {
    let table = do_aggregate(b"a;1.0\nb;2.0").unwrap();
    assert!(table.get(b"b").is_none());
    assert_eq!(table.keys().len(), 1);
}

#[test]
fn keys_are_opaque_bytes() {
    let table = do_aggregate(b"\xff\xfe;1.0\n;2.0\n").unwrap();
    assert_eq!(fields(table.get(b"\xff\xfe").unwrap()), (10, 10, 10, 1));
    assert_eq!(fields(table.get(b"").unwrap()), (20, 20, 20, 1));
}

#[test]
fn merge_combines_shared_keys_and_carries_others() {
    let mut acc = do_aggregate(b"a;1.0\nb;5.0\na;3.0\n").unwrap();
    let other = do_aggregate(b"a;-2.0\nc;7.5\n").unwrap();
    assert!(can_merge(&acc, &other));
    merge_tables(&mut acc, &other);
    assert_eq!(fields(acc.get(b"a").unwrap()), (-20, 30, 20, 3));
    assert_eq!(fields(acc.get(b"b").unwrap()), (50, 50, 50, 1));
    assert_eq!(fields(acc.get(b"c").unwrap()), (75, 75, 75, 1));
    assert_eq!(acc.keys().len(), 3);
}

#[test]
fn merge_is_commutative_on_an_example() {
    let mut left = do_aggregate(b"a;1.0\nb;5.0\n").unwrap();
    let right = do_aggregate(b"a;-2.0\nc;7.5\n").unwrap();
    merge_tables(&mut left, &right);
    let mut swapped = do_aggregate(b"a;-2.0\nc;7.5\n").unwrap();
    let other = do_aggregate(b"a;1.0\nb;5.0\n").unwrap();
    merge_tables(&mut swapped, &other);
    for key in [&b"a"[..], &b"b"[..], &b"c"[..]] {
        assert_eq!(fields(left.get(key).unwrap()), fields(swapped.get(key).unwrap()));
    }
}

#[test]
fn merge_with_empty_table_changes_nothing() {
    let mut acc = do_aggregate(b"a;1.0\n").unwrap();
    let empty = do_aggregate(b"").unwrap();
    merge_tables(&mut acc, &empty);
    assert_eq!(fields(acc.get(b"a").unwrap()), (10, 10, 10, 1));
    assert_eq!(acc.keys().len(), 1);
    let mut fresh = StationTable::new();
    merge_tables(&mut fresh, &acc);
    assert_eq!(fields(fresh.get(b"a").unwrap()), (10, 10, 10, 1));
}
