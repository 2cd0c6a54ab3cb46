use qingluan::calendar::{civil_from_days, days_from_civil};
use qingluan::time::{format_iso8601_ms, parse_iso8601_ms};

#[test]
fn parses_utc_iso_with_millis() {
    assert_eq!(
        parse_iso8601_ms("2026-08-16T10:55:34.971Z"),
        Some(1_786_877_734_971)
    );
}

#[test]
fn round_trips_through_format() {
    let ms = parse_iso8601_ms("2026-08-16T10:55:34.971Z").unwrap();
    assert_eq!(format_iso8601_ms(ms), "2026-08-16T10:55:34.971Z");
    assert_eq!(format_iso8601_ms(0), "1970-01-01T00:00:00.000Z");
}

#[test]
fn handles_offsets_and_missing_parts() {
    let z = parse_iso8601_ms("2026-08-16T10:00:00.000Z").unwrap();
    assert_eq!(parse_iso8601_ms("2026-08-16T12:00:00+02:00"), Some(z));
    assert_eq!(parse_iso8601_ms("2026-08-16T08:00:00-02:00"), Some(z));
    // No fractional seconds, no timezone (treated as UTC).
    assert_eq!(parse_iso8601_ms("2026-08-16T10:00:00"), Some(z));
}

#[test]
fn rejects_malformed_timestamps() {
    assert_eq!(parse_iso8601_ms(""), None);
    assert_eq!(parse_iso8601_ms("not-a-date"), None);
    assert_eq!(parse_iso8601_ms("2026-13-01T00:00:00Z"), None);
    assert_eq!(parse_iso8601_ms("2026-08-32T00:00:00Z"), None);
    assert_eq!(parse_iso8601_ms("2026-08-16T25:00:00Z"), None);
}

#[test]
fn fraction_digits_are_padded_and_truncated() {
    assert_eq!(parse_iso8601_ms("1970-01-01T00:00:00.5Z"), Some(500));
    assert_eq!(parse_iso8601_ms("1970-01-01T00:00:00.12Z"), Some(120));
    assert_eq!(parse_iso8601_ms("1970-01-01T00:00:00.123456Z"), Some(123));
    assert_eq!(parse_iso8601_ms("1970-01-01T00:00:00.Z"), None);
}

#[test]
fn separators_and_zone_variants() {
    assert_eq!(parse_iso8601_ms("1970-01-01 00:00:01z"), Some(1000));
    assert_eq!(parse_iso8601_ms("1970-01-01t00:00:01"), Some(1000));
    assert_eq!(parse_iso8601_ms("1970-01-01X00:00:01"), None);
    assert_eq!(parse_iso8601_ms("1970-01-01T01:00:00+01:00"), Some(0));
    // Offsets out of range or malformed.
    assert_eq!(parse_iso8601_ms("1970-01-01T01:00:00+24:00"), None);
    assert_eq!(parse_iso8601_ms("1970-01-01T01:00:00+01:60"), None);
    assert_eq!(parse_iso8601_ms("1970-01-01T01:00:00+0100"), None);
    assert_eq!(parse_iso8601_ms("1970-01-01T01:00:00ZZ"), None);
    // Before the epoch.
    assert_eq!(parse_iso8601_ms("1969-12-31T23:59:59Z"), None);
    assert_eq!(parse_iso8601_ms("1970-01-01T00:00:00+00:01"), None);
}

#[test]
fn leap_second_and_day_overflow_roll_forward() {
    assert_eq!(
        parse_iso8601_ms("1970-01-01T00:00:60Z"),
        parse_iso8601_ms("1970-01-01T00:01:00Z")
    );
    assert_eq!(
        parse_iso8601_ms("2023-02-31T00:00:00Z"),
        parse_iso8601_ms("2023-03-03T00:00:00Z")
    );
}

#[test]
fn formats_leap_days_and_far_years() {
    let ms = parse_iso8601_ms("2024-02-29T23:59:59.999Z").unwrap();
    assert_eq!(format_iso8601_ms(ms), "2024-02-29T23:59:59.999Z");
    let ms = parse_iso8601_ms("9999-12-31T23:59:59.999Z").unwrap();
    assert_eq!(ms, 253_402_300_799_999);
    assert_eq!(format_iso8601_ms(ms), "9999-12-31T23:59:59.999Z");
    assert_eq!(format_iso8601_ms(253_402_300_800_000), "10000-01-01T00:00:00.000Z");
}

#[test]
fn civil_days_round_trip() {
    assert_eq!(days_from_civil(1970, 1, 1), Some(0));
    assert_eq!(days_from_civil(2000, 3, 1), Some(11_017));
    assert_eq!(days_from_civil(1969, 12, 31), Some(-1));
    assert_eq!(days_from_civil(2026, 13, 1), None);
    assert_eq!(days_from_civil(2026, 1, 32), None);
    for z in [-719_468i64, -1, 0, 59, 11_016, 20_000, 2_932_896] {
        let (y, m, d) = civil_from_days(z);
        assert_eq!(days_from_civil(y, m, d), Some(z));
    }
    assert_eq!(civil_from_days(11_016), (2000, 2, 29));
    assert_eq!(civil_from_days(-719_468), (0, 3, 1));
}

#[test]
fn formatted_instants_sort_like_the_instants() {
    let instants = [0u64, 999, 1_000, 59_999, 86_399_999, 86_400_000, 951_782_400_000, 1_786_877_734_971, 253_402_300_799_999];
    for pair in instants.windows(2) {
        assert!(format_iso8601_ms(pair[0]) < format_iso8601_ms(pair[1]), "{pair:?}");
    }
}

#[test]
fn zone_offsets_shift_the_utc_instant() {
    let t = parse_iso8601_ms("2026-08-16T10:00:00.5Z").unwrap();
    assert_eq!(parse_iso8601_ms("2026-08-16T10:00:00.5"), Some(t));
    assert_eq!(parse_iso8601_ms("2026-08-16T10:00:00.5-03:30"), Some(t + 12_600_000));
    assert_eq!(parse_iso8601_ms("2026-08-16T10:00:00.5+03:30"), Some(t - 12_600_000));
    assert_eq!(parse_iso8601_ms("1970-01-01T00:30:00+01:00"), None);
}
