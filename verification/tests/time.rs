use celestial::time::{decimal_string, format_time, format_time_ord, ord_indicator};
use celestial::time::{DAY, HOUR, MINUTE, YEAR};

#[test]
fn units_in_seconds() {
    assert_eq!(MINUTE, 60);
    assert_eq!(HOUR, 60 * 60);
    assert_eq!(DAY, 60 * 60 * 24);
    assert_eq!(YEAR, 60 * 60 * 24 * 365);
}

#[test]
fn decimal_of_small_numbers() {
    assert_eq!(decimal_string(0), "0");
    assert_eq!(decimal_string(7), "7");
    assert_eq!(decimal_string(9), "9");
    assert_eq!(decimal_string(10), "10");
    assert_eq!(decimal_string(101), "101");
    assert_eq!(decimal_string(12345), "12345");
}

#[test]
fn decimal_agrees_with_std() {
    let mut n: usize = 1;
    for _ in 0..60 {
        assert_eq!(decimal_string(n), n.to_string());
        assert_eq!(decimal_string(n - 1), (n - 1).to_string());
        n = n.wrapping_mul(7).wrapping_add(3);
    }
    assert_eq!(decimal_string(usize::MAX), usize::MAX.to_string());
}

#[test]
fn ordinal_endings_by_last_digit() {
    assert_eq!(ord_indicator(0), "th");
    assert_eq!(ord_indicator(1), "st");
    assert_eq!(ord_indicator(2), "nd");
    assert_eq!(ord_indicator(3), "rd");
    assert_eq!(ord_indicator(4), "th");
    assert_eq!(ord_indicator(9), "th");
    assert_eq!(ord_indicator(10), "th");
    assert_eq!(ord_indicator(21), "st");
    assert_eq!(ord_indicator(22), "nd");
    assert_eq!(ord_indicator(23), "rd");
    assert_eq!(ord_indicator(24), "th");
    assert_eq!(ord_indicator(101), "st");
    assert_eq!(ord_indicator(1002), "nd");
}

#[test]
fn ordinal_endings_of_the_teens() {
    assert_eq!(ord_indicator(11), "th");
    assert_eq!(ord_indicator(12), "th");
    assert_eq!(ord_indicator(13), "th");
    assert_eq!(ord_indicator(14), "th");
    assert_eq!(ord_indicator(111), "th");
    assert_eq!(ord_indicator(112), "th");
    assert_eq!(ord_indicator(113), "th");
    assert_eq!(ord_indicator(1011), "th");
}

#[test]
fn point_in_time_during_the_first_year() {
    assert_eq!(format_time_ord(0), "0th day and 0th hour");
    assert_eq!(format_time_ord(59), "0th day and 0th hour");
    assert_eq!(format_time_ord(HOUR), "0th day and 1st hour");
    assert_eq!(format_time_ord(DAY), "1st day and 0th hour");
    assert_eq!(format_time_ord(2 * DAY + 3 * HOUR + 59 * MINUTE), "2nd day and 3rd hour");
    assert_eq!(format_time_ord(11 * DAY + 12 * HOUR), "11th day and 12th hour");
    assert_eq!(format_time_ord(YEAR - 1), "364th day and 23rd hour");
}

#[test]
fn point_in_time_after_the_first_year() {
    assert_eq!(format_time_ord(YEAR), "1st year and 0th day");
    assert_eq!(format_time_ord(YEAR + 23 * HOUR), "1st year and 0th day");
    assert_eq!(format_time_ord(2 * YEAR + 21 * DAY), "2nd year and 21st day");
    assert_eq!(format_time_ord(13 * YEAR + 113 * DAY + 5), "13th year and 113th day");
    assert_eq!(format_time_ord(103 * YEAR + 364 * DAY), "103rd year and 364th day");
}

#[test]
fn duration_in_seconds_and_minutes() {
    assert_eq!(format_time(0), "0 seconds");
    assert_eq!(format_time(1), "1 second");
    assert_eq!(format_time(2), "2 seconds");
    assert_eq!(format_time(59), "59 seconds");
    assert_eq!(format_time(60), "1 minute");
    assert_eq!(format_time(61), "1 minute and 1 second");
    assert_eq!(format_time(62), "1 minute and 2 seconds");
    assert_eq!(format_time(120), "2 minutes");
    assert_eq!(format_time(59 * MINUTE + 59), "59 minutes and 59 seconds");
}

#[test]
fn duration_in_hours_and_days() {
    assert_eq!(format_time(HOUR), "1 hour");
    assert_eq!(format_time(HOUR + 1), "1 hour");
    assert_eq!(format_time(HOUR + MINUTE), "1 hour and 1 minute");
    assert_eq!(format_time(2 * HOUR + 30 * MINUTE + 15), "2 hours and 30 minutes");
    assert_eq!(format_time(DAY), "1 day");
    assert_eq!(format_time(DAY + 59 * MINUTE), "1 day");
    assert_eq!(format_time(DAY + HOUR), "1 day and 1 hour");
    assert_eq!(format_time(30 * DAY + 23 * HOUR), "30 days and 23 hours");
}

#[test]
fn duration_in_years() {
    assert_eq!(format_time(YEAR), "1 year");
    assert_eq!(format_time(YEAR + 23 * HOUR), "1 year");
    assert_eq!(format_time(YEAR + DAY), "1 year and 1 day");
    assert_eq!(format_time(2 * YEAR + 2 * DAY), "2 years and 2 days");
    assert_eq!(format_time(1000 * YEAR), "1000 years");
}

#[test]
fn duration_of_the_default_time_speed() {
    assert_eq!(format_time(60 * 60 * 24), "1 day");
}
