use ai_imessage::appledate::apple_time_to_utc;

/// 2023-01-01T00:00:00Z in seconds since the Apple epoch.
const APPLE_SECS_2023: i64 = 694_224_000;

#[test]
fn zero_means_no_timestamp() {
    assert_eq!(apple_time_to_utc(0), None);
}

#[test]
fn negative_means_no_timestamp() {
    assert_eq!(apple_time_to_utc(-5), None);
    assert_eq!(apple_time_to_utc(i64::MIN), None);
}

#[test]
fn nanosecond_timestamps_convert() {
    let raw = APPLE_SECS_2023 * 1_000_000_000;
    let dt = apple_time_to_utc(raw).unwrap();
    assert_eq!(dt.to_rfc3339(), "2023-01-01T00:00:00+00:00");
}

#[test]
fn legacy_second_timestamps_convert() {
    let dt = apple_time_to_utc(APPLE_SECS_2023).unwrap();
    assert_eq!(dt.to_rfc3339(), "2023-01-01T00:00:00+00:00");
}

#[test]
fn subsecond_precision_is_preserved() {
    let raw = APPLE_SECS_2023 * 1_000_000_000 + 123_456_789;
    let dt = apple_time_to_utc(raw).unwrap();
    assert_eq!(dt.timestamp_subsec_nanos(), 123_456_789);
    assert_eq!(dt.to_rfc3339(), "2023-01-01T00:00:00.123456789+00:00");
    assert_eq!(dt.to_rfc3339_seconds(), "2023-01-01T00:00:00Z");
    assert_eq!(dt.timestamp_millis(), 1_672_531_200_123);
}

#[test]
fn small_positive_values_are_treated_as_seconds() {
    // One second after the Apple epoch.
    let dt = apple_time_to_utc(1).unwrap();
    assert_eq!(dt.to_rfc3339(), "2001-01-01T00:00:01+00:00");
}

#[test]
fn absurdly_large_values_do_not_panic() {
    // i64::MAX nanoseconds is ~2293 CE; must convert, not panic.
    assert!(apple_time_to_utc(i64::MAX).is_some());
}
