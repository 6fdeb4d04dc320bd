use chrono::{Datelike, Timelike};
use parse_rust::datetime::{choose_result, PlanChoice};
use parse_rust::datetime::{datetime_plan, normalize_fractional_seconds, normalize_short_tz_offset};

#[test]
fn test_normalize_short_tz_offset_hour_colon() {
    assert_eq!(normalize_short_tz_offset("10:21:36 PM +1:00"), "10:21:36 PM +01:00");
}

#[test]
fn test_normalize_short_tz_offset_three_digits() {
    assert_eq!(normalize_short_tz_offset("10:21:36 PM -530"), "10:21:36 PM -0530");
}

#[test]
fn test_normalize_fractional_seconds_padding_and_truncation() {
    assert_eq!(
        normalize_fractional_seconds("2023-10-14T15:09:08.1Z").as_deref(),
        Some("2023-10-14T15:09:08.100000Z")
    );
    assert_eq!(
        normalize_fractional_seconds("2023-10-14T15:09:08.1234567Z").as_deref(),
        Some("2023-10-14T15:09:08.123456Z")
    );
}

/// The ISO plan is tried attempt by attempt, with chrono standing in for
/// Python's `strptime`.
#[test]
fn test_parse_iso_datetime_supports_spaced_timezone() {
    let plan = datetime_plan("1997-07-16T19:20 +01:00", "ti");
    let value = plan
        .attempts
        .iter()
        .find_map(|a| chrono::DateTime::parse_from_str(&a.text, &a.format).ok())
        .unwrap();
    let repr = format!(
        "datetime.datetime({}, {}, {}, {}, {})",
        value.year(),
        value.month(),
        value.day(),
        value.hour(),
        value.minute()
    );
    assert!(repr.contains("1997, 7, 16, 19, 20"));
    assert!(repr.contains("datetime.datetime"));
}

#[test]
fn plan_takes_the_first_attempt_that_succeeded() {
    assert_eq!(choose_result(&vec![false, true, true], true), PlanChoice::Attempt(1));
    assert_eq!(choose_result(&vec![false, false], true), PlanChoice::Required);
    assert_eq!(choose_result(&vec![], false), PlanChoice::Unsupported);
}
