use timers::clock::{epoch_secs, now, now_millis, timestamp_millis_of, timestamp_of};

#[test]
fn epoch_seconds_fit_in_a_timestamp() {
    assert_eq!(epoch_secs(0), Some(0));
    assert_eq!(epoch_secs(1_700_000_000), Some(1_700_000_000));
    assert_eq!(epoch_secs(i64::MAX as u64), Some(i64::MAX));
    assert_eq!(epoch_secs(i64::MAX as u64 + 1), None);
    assert_eq!(epoch_secs(u64::MAX), None);
}

#[test]
fn timestamps_of_a_reading() {
    assert_eq!(timestamp_of(0, 0), Some(0));
    assert_eq!(timestamp_of(1_700_000_123, 999_999_999), Some(1_700_000_123));
    assert_eq!(timestamp_millis_of(1_700_000_123, 456_789_000), Some(1_700_000_123_456));
    assert_eq!(timestamp_millis_of(1, 999_999), Some(1000));
    // beyond chrono's range of dates, and beyond 64 bits
    assert_eq!(timestamp_of(i64::MAX as u64, 0), None);
    assert_eq!(timestamp_of(u64::MAX, 0), None);
    assert_eq!(timestamp_millis_of(u64::MAX, 0), None);
}

#[test]
fn the_clock_reads_seconds_and_milliseconds() {
    let s = now().unwrap();
    let ms = now_millis().unwrap();
    assert!(s > 1_600_000_000);
    assert!(ms / 1000 >= s && ms / 1000 - s <= 5);
}
