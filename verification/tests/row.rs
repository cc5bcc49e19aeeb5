use empath::event::AccessEvent;
use empath::row::{from_row, to_row, FIRST_STORABLE, LAST_STORABLE};

#[test]
fn a_row_holds_the_instant_as_text() {
    let row = to_row(&AccessEvent::new("/repo", "/repo/a", 0)).unwrap();
    assert_eq!(row.repository, "/repo");
    assert_eq!(row.path, "/repo/a");
    assert_eq!(row.time, "1970-01-01T00:00:00Z");
}

#[test]
fn a_row_keeps_the_microseconds() {
    let row = to_row(&AccessEvent::new("/repo", "/repo/a", 1_718_824_965_123_456)).unwrap();
    assert_eq!(row.time, "2024-06-19T19:22:45.123456Z");
    let row = to_row(&AccessEvent::new("/repo", "/repo/a", -1)).unwrap();
    assert_eq!(row.time, "1969-12-31T23:59:59.999999Z");
}

#[test]
fn only_instants_in_range_have_a_row() {
    assert!(to_row(&AccessEvent::new("/repo", "/repo/a", FIRST_STORABLE)).is_some());
    assert!(to_row(&AccessEvent::new("/repo", "/repo/a", LAST_STORABLE)).is_some());
    assert!(to_row(&AccessEvent::new("/repo", "/repo/a", FIRST_STORABLE - 1)).is_none());
    assert!(to_row(&AccessEvent::new("/repo", "/repo/a", LAST_STORABLE + 1)).is_none());
    assert!(to_row(&AccessEvent::new("/repo", "/repo/a", i64::MIN)).is_none());
    assert!(to_row(&AccessEvent::new("/repo", "/repo/a", i64::MAX)).is_none());
}

#[test]
fn a_row_reads_back_as_an_event() {
    let event = from_row("/repo", "/repo/a", "1970-01-01T00:00:01.5Z").unwrap();
    assert_eq!(event.repository, "/repo");
    assert_eq!(event.path, "/repo/a");
    assert_eq!(event.timestamp, 1_500_000);
}

#[test]
fn a_row_with_an_offset_reads_as_the_same_instant() {
    let plain = from_row("/repo", "/repo/a", "2024-03-10T06:05:00Z").unwrap();
    let offset = from_row("/repo", "/repo/a", "2024-03-10T02:05:00-04:00").unwrap();
    assert_eq!(plain.timestamp, offset.timestamp);
    assert_eq!(plain.timestamp, 1_710_050_700_000_000);
}

#[test]
fn a_row_whose_time_is_no_instant_is_refused() {
    assert!(from_row("/repo", "/repo/a", "yesterday").is_none());
    assert!(from_row("/repo", "/repo/a", "").is_none());
    assert!(from_row("/repo", "/repo/a", "2024-03-10").is_none());
    assert!(from_row("/repo", "/repo/a", "2024-03-10T06:05:00").is_none());
}

#[test]
fn what_is_stored_reads_back_unchanged() {
    for timestamp in [0, 1, -1, 1_718_824_965_123_456, FIRST_STORABLE, LAST_STORABLE] {
        let row = to_row(&AccessEvent::new("/repo", "/repo/ä b", timestamp)).unwrap();
        let event = from_row(&row.repository, &row.path, &row.time).unwrap();
        assert_eq!(event.repository, "/repo");
        assert_eq!(event.path, "/repo/ä b");
        assert_eq!(event.timestamp, timestamp);
    }
}
