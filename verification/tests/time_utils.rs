use maildock::time_utils::{days_from_civil, parse_i64, parse_rfc3339_timestamp, received_at_sort_key};

#[test]
fn sorts_cached_rfc2822_dates_with_rfc3339_dates() {
    assert!(
        received_at_sort_key("Fri, 29 May 2026 09:30:00 +0800")
            > received_at_sort_key("2026-05-29T08:00:00+08:00")
    );
}

#[test]
fn parses_rfc2822_and_rfc3339_for_sorting() {
    assert!(
        received_at_sort_key("Fri, 29 May 2026 09:30:00 +0800")
            > received_at_sort_key("2026-05-29T08:00:00+08:00")
    );
}

#[test]
fn reads_rfc3339_timestamps() {
    assert_eq!(parse_rfc3339_timestamp("1970-01-01T00:00:00Z"), Some(0));
    assert_eq!(parse_rfc3339_timestamp("2026-05-29T08:00:00+08:00"), Some(1780012800));
    assert_eq!(parse_rfc3339_timestamp("2026-05-29T00:00:00.5-00:30"), Some(1780014600));
    assert_eq!(parse_rfc3339_timestamp("2026-05-29T00:00:00"), None);
    assert_eq!(parse_rfc3339_timestamp("2026-05-29T00:00:00*0800"), None);
    assert_eq!(received_at_sort_key("2026-05-29T08:00:00+08:00"), 1780012800);
    assert_eq!(received_at_sort_key("Fri, 29 May 2026 09:30:00 +0800"), 1780018200);
    assert_eq!(received_at_sort_key("not a date"), 0);
}

#[test]
fn counts_days_from_the_epoch() {
    assert_eq!(days_from_civil(1970, 1, 1), 0);
    assert_eq!(days_from_civil(2000, 3, 1), 11017);
    assert_eq!(days_from_civil(1969, 12, 31), -1);
    assert_eq!(parse_i64(b"x+42", 1, 4), Some(42));
    assert_eq!(parse_i64(b"-7", 0, 2), Some(-7));
    assert_eq!(parse_i64(b"4a", 0, 2), None);
    assert_eq!(parse_i64(b"12", 1, 3), None);
}

#[test]
fn reads_integers_of_any_width() {
    assert_eq!(parse_i64(b"12345678901", 0, 11), Some(12345678901));
    assert_eq!(parse_i64(b"-9223372036854775808", 0, 20), Some(i64::MIN));
    assert_eq!(parse_i64(b"9223372036854775807", 0, 19), Some(i64::MAX));
    assert_eq!(parse_i64(b"9223372036854775808", 0, 19), None);
    assert_eq!(parse_i64(b"99999999999999999999999", 0, 23), None);
    assert_eq!(parse_i64(b"123", 2, 1), None);
    assert_eq!(parse_i64(b"+", 0, 1), None);
    assert_eq!(parse_i64(b"", 0, 0), None);
}

#[test]
fn consecutive_days_differ_by_one() {
    assert_eq!(days_from_civil(2024, 12, 31) + 1, days_from_civil(2025, 1, 1));
    assert_eq!(days_from_civil(2026, 5, 28) + 1, days_from_civil(2026, 5, 29));
    assert_eq!(days_from_civil(-400, 3, 1) + 1, days_from_civil(-400, 3, 2));
}

#[test]
fn zone_offsets_shift_the_utc_reading() {
    let utc = parse_rfc3339_timestamp("2026-05-29T08:00:00Z").expect("utc");
    assert_eq!(parse_rfc3339_timestamp("2026-05-29T08:00:00+08:00"), Some(utc - 8 * 3600));
    assert_eq!(parse_rfc3339_timestamp("2026-05-29T08:00:00-05:30"), Some(utc + 5 * 3600 + 30 * 60));
}
