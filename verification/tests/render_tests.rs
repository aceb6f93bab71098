use recent_files::timestamp::{
    current_sentinel, render_timestamp, Timestamp, MAX_RENDER_SECS, MIN_RENDER_SECS,
    SENTINEL_OFFSET_SECS,
};

#[test]
fn render_epoch() {
    let r = render_timestamp(&Timestamp::new(0, 0));
    assert_eq!(r.unwrap(), "1970/01/01 00:00:00");
}

#[test]
fn render_known_moment() {
    let r = render_timestamp(&Timestamp::new(1_000_000_000, 500));
    assert_eq!(r.unwrap(), "2001/09/09 01:46:40");
}

#[test]
fn render_just_before_epoch() {
    let r = render_timestamp(&Timestamp::new(-1, 0));
    assert_eq!(r.unwrap(), "1969/12/31 23:59:59");
}

#[test]
fn render_ignores_subseconds() {
    let a = render_timestamp(&Timestamp::new(86_400, 0));
    let b = render_timestamp(&Timestamp::new(86_400, 999_999_999));
    assert_eq!(a.unwrap(), "1970/01/02 00:00:00");
    assert_eq!(b.unwrap(), "1970/01/02 00:00:00");
}

#[test]
fn render_out_of_range_is_none() {
    assert!(render_timestamp(&Timestamp::new(MAX_RENDER_SECS + 1, 0)).is_none());
    assert!(render_timestamp(&Timestamp::new(MIN_RENDER_SECS - 1, 0)).is_none());
}

#[test]
fn render_range_edges() {
    assert!(render_timestamp(&Timestamp::new(MAX_RENDER_SECS, 0)).is_some());
    assert!(render_timestamp(&Timestamp::new(MIN_RENDER_SECS, 0)).is_some());
}

#[test]
fn current_sentinel_trails_the_clock_by_a_century() {
    let before = chrono::Utc::now().timestamp();
    let s = current_sentinel();
    let after = chrono::Utc::now().timestamp();
    assert!(s.nanos < 1_000_000_000);
    assert!(s.secs >= before - SENTINEL_OFFSET_SECS);
    assert!(s.secs <= after - SENTINEL_OFFSET_SECS);
}
