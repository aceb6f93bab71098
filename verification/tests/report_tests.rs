use recent_files::report::{aggregate, check_target, Child, ResultRow, TargetError};
use recent_files::scan::{scan_subtree, VisitedEntry};
use recent_files::timestamp::{sentinel_of, Timestamp, SENTINEL_OFFSET_SECS};

fn ts(secs: i64) -> Timestamp {
    Timestamp::new(secs, 0)
}

fn file_entry(path: &str, secs: i64) -> VisitedEntry {
    VisitedEntry { path: String::from(path), is_file: true, modified: Some(ts(secs)) }
}

fn rows_as_pairs(rows: &[ResultRow]) -> Vec<(String, Timestamp)> {
    rows.iter().map(|r| (r.display_path.clone(), r.timestamp)).collect()
}

#[test]
fn check_target_missing() {
    let r = check_target(false, false);
    assert_eq!(r, Err(TargetError::DoesNotExist));
}

#[test]
fn check_target_not_a_directory() {
    let r = check_target(true, false);
    assert_eq!(r, Err(TargetError::NotADirectory));
}

#[test]
fn check_target_ok() {
    let r = check_target(true, true);
    assert_eq!(r, Ok(()));
}

#[test]
fn sentinel_is_a_hundred_years_back() {
    let now = Timestamp::new(1_700_000_000, 123_456_789);
    let s = sentinel_of(now);
    assert_eq!(s.secs, 1_700_000_000 - SENTINEL_OFFSET_SECS);
    assert_eq!(s.secs, -1_453_600_000);
    assert_eq!(s.nanos, 123_456_789);
}

#[test]
fn timestamp_order() {
    assert!(ts(5).lt(&ts(7)));
    assert!(!ts(7).lt(&ts(5)));
    assert!(!ts(5).lt(&ts(5)));
    assert!(Timestamp::new(5, 1).lt(&Timestamp::new(5, 2)));
    assert!(!Timestamp::new(5, 2).lt(&Timestamp::new(5, 1)));
    assert!(Timestamp::new(4, 999_999_999).lt(&Timestamp::new(5, 0)));
}

#[test]
fn scan_of_empty_subtree_reports_sentinel() {
    let sentinel = ts(100);
    let r = scan_subtree(&vec![], sentinel);
    assert_eq!(r.representative_time, sentinel);
    assert_eq!(r.representative_path, String::new());
}

#[test]
fn scan_with_no_readable_file_reports_sentinel() {
    let sentinel = ts(100);
    let entries = vec![
        VisitedEntry { path: String::from("d/sub"), is_file: false, modified: None },
        VisitedEntry { path: String::from("d/locked"), is_file: true, modified: None },
        VisitedEntry { path: String::from("d/sub/deeper"), is_file: false, modified: Some(ts(999)) },
    ];
    let r = scan_subtree(&entries, sentinel);
    assert_eq!(r.representative_time, sentinel);
    assert_eq!(r.representative_path, String::new());
}

#[test]
fn scan_single_file_at_depth_three() {
    let sentinel = ts(0);
    let entries = vec![
        VisitedEntry { path: String::from("d/a"), is_file: false, modified: None },
        VisitedEntry { path: String::from("d/a/b"), is_file: false, modified: None },
        file_entry("d/a/b/leaf.txt", 1_650_000_000),
    ];
    let r = scan_subtree(&entries, sentinel);
    assert_eq!(r.representative_path, "d/a/b/leaf.txt");
    assert_eq!(r.representative_time, ts(1_650_000_000));
}

#[test]
fn scan_picks_latest_file() {
    let sentinel = ts(0);
    let entries = vec![
        file_entry("d/old.txt", 1_000),
        file_entry("d/newest.txt", 9_000),
        file_entry("d/mid.txt", 5_000),
    ];
    let r = scan_subtree(&entries, sentinel);
    assert_eq!(r.representative_path, "d/newest.txt");
    assert_eq!(r.representative_time, ts(9_000));
}

#[test]
fn scan_tie_first_encountered_wins() {
    let sentinel = ts(0);
    let entries = vec![file_entry("d/first.txt", 7_000), file_entry("d/second.txt", 7_000)];
    let r = scan_subtree(&entries, sentinel);
    assert_eq!(r.representative_path, "d/first.txt");
}

#[test]
fn scan_skips_unreadable_and_non_files() {
    let sentinel = ts(0);
    let entries = vec![
        VisitedEntry { path: String::from("d/locked"), is_file: true, modified: None },
        VisitedEntry { path: String::from("d/sub"), is_file: false, modified: Some(ts(9_999)) },
        file_entry("d/ok.txt", 3_000),
    ];
    let r = scan_subtree(&entries, sentinel);
    assert_eq!(r.representative_path, "d/ok.txt");
    assert_eq!(r.representative_time, ts(3_000));
}

fn sample_children() -> Vec<Child> {
    vec![
        Child::File { path: String::from("t/plain.txt"), modified: Some(ts(4_000)) },
        Child::File { path: String::from("t/locked.txt"), modified: None },
        Child::Directory {
            entries: vec![
                VisitedEntry { path: String::from("t/dir/a"), is_file: false, modified: None },
                file_entry("t/dir/a/inner.txt", 8_000),
            ],
        },
        Child::Other,
        Child::Directory { entries: vec![] },
    ]
}

#[test]
fn aggregate_one_row_per_reportable_child() {
    let sentinel = ts(-100);
    let rows = aggregate(&sample_children(), sentinel);
    // two readable children and two directories minus the unreadable file
    // and the entry of another kind: three rows
    assert_eq!(rows.len(), 3);
}

#[test]
fn aggregate_rows_sorted_descending() {
    let sentinel = ts(-100);
    let rows = aggregate(&sample_children(), sentinel);
    for pair in rows.windows(2) {
        assert!(!pair[0].timestamp.lt(&pair[1].timestamp));
    }
}

#[test]
fn aggregate_exact_order() {
    let sentinel = ts(-100);
    let rows = aggregate(&sample_children(), sentinel);
    let pairs = rows_as_pairs(&rows);
    assert_eq!(
        pairs,
        vec![
            (String::from("t/dir/a/inner.txt"), ts(8_000)),
            (String::from("t/plain.txt"), ts(4_000)),
            (String::new(), ts(-100)),
        ]
    );
}

#[test]
fn aggregate_empty_directory_sorts_last_with_sentinel() {
    let sentinel = ts(-100);
    let rows = aggregate(&sample_children(), sentinel);
    let last = rows.last().unwrap();
    assert_eq!(last.timestamp, sentinel);
    assert_eq!(last.display_path, String::new());
}

#[test]
fn aggregate_unreadable_child_changes_nothing_else() {
    let sentinel = ts(-100);
    let with_unreadable = aggregate(&sample_children(), sentinel);
    let mut children = sample_children();
    children.remove(1);
    let without_unreadable = aggregate(&children, sentinel);
    assert_eq!(rows_as_pairs(&with_unreadable), rows_as_pairs(&without_unreadable));
}

#[test]
fn aggregate_twice_is_identical() {
    let sentinel = ts(-100);
    let first = aggregate(&sample_children(), sentinel);
    let second = aggregate(&sample_children(), sentinel);
    assert_eq!(rows_as_pairs(&first), rows_as_pairs(&second));
}

#[test]
fn aggregate_of_no_children_is_empty() {
    let rows = aggregate(&vec![], ts(0));
    assert!(rows.is_empty());
}
