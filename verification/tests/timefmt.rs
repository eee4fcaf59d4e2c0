//! Timestamps.

use snapref::timefmt::{now, utc};

#[test]
fn epoch_zero_and_the_last_second_of_day_one() {
    assert_eq!(utc(0), "1970-01-01T00:00:00Z");
    assert_eq!(utc(86_399), "1970-01-01T23:59:59Z");
}

#[test]
fn leap_day_2000_is_handled() {
    // 2000 is a leap year despite being divisible by 100 (also by 400).
    assert_eq!(utc(951_782_400), "2000-02-29T00:00:00Z");
}

#[test]
fn negative_epochs_format_pre_1970_dates() {
    assert_eq!(utc(-1), "1969-12-31T23:59:59Z");
    assert_eq!(utc(-86_400), "1969-12-31T00:00:00Z");
}

#[test]
fn a_2026_timestamp_round_trips_by_inspection() {
    // 2026-01-01T00:00:00Z is epoch 1767225600; add 192 days + 10h.
    assert_eq!(utc(1_767_225_600), "2026-01-01T00:00:00Z");
    assert_eq!(
        utc(1_767_225_600 + 192 * 86_400 + 36_000),
        "2026-07-12T10:00:00Z"
    );
}

#[test]
fn years_outside_four_digits_keep_their_width() {
    // The year before year one, and its sign counts toward the width.
    assert_eq!(utc(-62_135_596_801), "0000-12-31T23:59:59Z");
    assert_eq!(utc(-62_198_755_200), "-001-01-01T00:00:00Z");
    assert_eq!(utc(253_402_300_800), "10000-01-01T00:00:00Z");
    assert_eq!(utc(i64::MAX), "292277026596-12-04T15:30:07Z");
    assert_eq!(utc(i64::MIN), "-292277022657-01-27T08:29:52Z");
}

#[test]
fn century_years_are_not_leap_years() {
    assert_eq!(utc(4_107_542_399), "2100-02-28T23:59:59Z");
    assert_eq!(utc(4_107_542_400), "2100-03-01T00:00:00Z");
}

#[test]
fn the_time_setting_overrides_the_clock() {
    assert_eq!(now(Some(" 42 "), 7), 42);
    assert_eq!(now(Some("-5"), 7), -5);
    assert_eq!(now(Some("soon"), 7), 7);
    assert_eq!(now(None, 7), 7);
}
