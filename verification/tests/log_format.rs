use std::time::{Duration, UNIX_EPOCH};

use gatefs::calendar::civil_from_days;
use gatefs::log::{format_epoch_timestamp, format_log_entry, format_log_line, format_timestamp};

#[test]
fn formats_timestamp_with_microsecond_precision() {
    let time = UNIX_EPOCH + Duration::new(1_704_067_200, 123_456_789);
    assert_eq!(format_timestamp(time), "[2024-01-01T00:00:00.123456Z]");
}

#[test]
fn formats_log_line_with_id_and_body() {
    let line = format_log_line(7, "pending path=/data/file SETATTR mode=0600");
    assert!(line.starts_with('['));
    assert!(line.contains("] id=7 pending path=/data/file SETATTR mode=0600"));
}

#[test]
fn civil_dates_around_the_epoch() {
    assert_eq!(civil_from_days(0), (1970, 1, 1));
    assert_eq!(civil_from_days(-1), (1969, 12, 31));
    assert_eq!(civil_from_days(31), (1970, 2, 1));
    assert_eq!(civil_from_days(59), (1970, 3, 1));
    assert_eq!(civil_from_days(365), (1971, 1, 1));
}

#[test]
fn civil_dates_follow_gregorian_leap_rules() {
    // 2000 is a leap year (divisible by 400), 1900 and 2100 are not.
    assert_eq!(civil_from_days(11_016), (2000, 2, 29));
    assert_eq!(civil_from_days(11_017), (2000, 3, 1));
    assert_eq!(civil_from_days(-25_508), (1900, 3, 1));
    assert_eq!(civil_from_days(-25_509), (1900, 2, 28));
    assert_eq!(civil_from_days(47_540), (2100, 2, 28));
    assert_eq!(civil_from_days(47_541), (2100, 3, 1));
    assert_eq!(civil_from_days(19_723), (2024, 1, 1));
    assert_eq!(civil_from_days(-719_468), (0, 3, 1));
    assert_eq!(civil_from_days(-719_469), (0, 2, 29));
}

#[test]
fn formats_epoch_and_end_of_day() {
    assert_eq!(format_epoch_timestamp(0, 0), "[1970-01-01T00:00:00.000000Z]");
    assert_eq!(format_epoch_timestamp(86_399, 999_999), "[1970-01-01T23:59:59.999999Z]");
    assert_eq!(format_epoch_timestamp(951_782_400 + 3_661, 42), "[2000-02-29T01:01:01.000042Z]");
}

#[test]
fn times_before_the_epoch_format_as_the_epoch() {
    let time = UNIX_EPOCH - Duration::from_secs(10);
    assert_eq!(format_timestamp(time), "[1970-01-01T00:00:00.000000Z]");
}

#[test]
fn far_future_years_keep_four_digit_padding_rules() {
    // Year 10000 begins 2932897 days after the epoch.
    assert_eq!(
        format_epoch_timestamp(2_932_897 * 86_400, 5),
        "[10000-01-01T00:00:00.000005Z]"
    );
    // The largest time: the year no longer fits in 32 bits and is written truncated, as
    // the formatter of `i32` does.
    let expected = {
        let days = (u64::MAX / 86_400) as i64;
        let (year, month, day) = civil_from_days(days);
        let s = u64::MAX % 86_400;
        format!(
            "[{year:04}-{month:02}-{day:02}T{:02}:{:02}:{:02}.{:06}Z]",
            s / 3_600,
            (s % 3_600) / 60,
            s % 60,
            7
        )
    };
    assert_eq!(format_epoch_timestamp(u64::MAX, 7), expected);
}

#[test]
fn years_beyond_i32_are_written_truncated_with_their_sign() {
    // 2147483653-01-01: the year truncates to -2147483643 as an `i32`.
    assert_eq!(civil_from_days(784_351_578_604), (-2_147_483_643, 1, 1));
    assert_eq!(
        format_epoch_timestamp(784_351_578_604 * 86_400, 0),
        "[-2147483643-01-01T00:00:00.000000Z]"
    );
}

#[test]
fn formats_log_entry_exactly() {
    assert_eq!(
        format_log_entry(1_704_067_200, 123_456, 7, "pending path=/data/file SETATTR mode=0600"),
        "[2024-01-01T00:00:00.123456Z] id=7 pending path=/data/file SETATTR mode=0600"
    );
    assert_eq!(
        format_log_entry(0, 0, 1_234_567_890, ""),
        "[1970-01-01T00:00:00.000000Z] id=1234567890 "
    );
}

#[test]
fn distinct_microseconds_give_distinct_timestamps() {
    let a = format_epoch_timestamp(1_704_067_200, 1);
    let b = format_epoch_timestamp(1_704_067_200, 2);
    let c = format_epoch_timestamp(1_704_067_201, 1);
    assert!(a != b && a != c && b != c);
    assert!(a < b && b < c);
}

#[test]
fn each_day_follows_the_one_before() {
    assert_eq!(civil_from_days(58), (1970, 2, 28));
    assert_eq!(civil_from_days(59), (1970, 3, 1));
    assert_eq!(civil_from_days(11_015), (2000, 2, 28));
    assert_eq!(civil_from_days(11_016), (2000, 2, 29));
    assert_eq!(civil_from_days(10_956), (1999, 12, 31));
    assert_eq!(civil_from_days(10_957), (2000, 1, 1));
    assert_eq!(civil_from_days(2_932_896), (9999, 12, 31));
}
