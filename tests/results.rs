use std::cmp::Ordering;

use uda_stats::result_value::{Decimal, ResultValue};

#[test]
fn parses_empty_text_as_empty() {
    assert_eq!(ResultValue::from_string(""), ResultValue::Empty);
}

#[test]
fn parses_minutes_seconds_and_hundredths() {
    assert_eq!(ResultValue::from_string("00:14.99"), ResultValue::Time(14_990));
}

#[test]
fn parses_hours_minutes_seconds_and_thousandths() {
    assert_eq!(ResultValue::from_string("1:02:03.456"), ResultValue::Time(3_723_456));
}

#[test]
fn parses_plain_seconds_and_one_fractional_digit() {
    assert_eq!(ResultValue::from_string("07"), ResultValue::Time(7_000));
    assert_eq!(ResultValue::from_string("12:05.5"), ResultValue::Time(725_500));
}

#[test]
fn parses_points() {
    assert_eq!(ResultValue::from_string("12.5 pts"), ResultValue::Points(Decimal::new(125, 1)));
}

#[test]
fn parses_distance() {
    assert_eq!(ResultValue::from_string("340 cm"), ResultValue::Distance(340));
}

#[test]
fn keeps_other_text_as_custom() {
    assert_eq!(ResultValue::from_string("lap 3"), ResultValue::Custom(String::from("lap 3")));
    assert_eq!(ResultValue::from_string("00:14:99"), ResultValue::Custom(String::from("00:14:99")));
    assert_eq!(ResultValue::from_string("12 pts"), ResultValue::Custom(String::from("12 pts")));
}

#[test]
fn distance_too_large_is_custom() {
    let text = "12345678901234567890 cm";
    assert_eq!(ResultValue::from_string(text), ResultValue::Custom(String::from(text)));
}

#[test]
fn compares_times_by_duration() {
    let a = ResultValue::from_string("00:14.99");
    let b = ResultValue::from_string("00:18.00");
    assert_eq!(a.compare(&b), Ok(Ordering::Less));
    assert_eq!(b.compare(&a), Ok(Ordering::Greater));
    assert_eq!(a.compare(&a), Ok(Ordering::Equal));
}

#[test]
fn compares_points_by_value_whatever_the_digits() {
    let a = ResultValue::from_string("12.5 pts");
    let b = ResultValue::from_string("12.50 pts");
    let c = ResultValue::from_string("9.75 pts");
    assert_eq!(a.compare(&b), Ok(Ordering::Equal));
    assert_eq!(c.compare(&a), Ok(Ordering::Less));
    assert_eq!(a.compare(&c), Ok(Ordering::Greater));
}

#[test]
fn compares_distances() {
    let a = ResultValue::from_string("340 cm");
    let b = ResultValue::from_string("95 cm");
    assert_eq!(a.compare(&b), Ok(Ordering::Greater));
}

#[test]
fn comparison_is_transitive_on_times() {
    let a = ResultValue::from_string("00:10.00");
    let b = ResultValue::from_string("00:12.00");
    let c = ResultValue::from_string("01:00.00");
    assert_eq!(a.compare(&b), Ok(Ordering::Less));
    assert_eq!(b.compare(&c), Ok(Ordering::Less));
    assert_eq!(a.compare(&c), Ok(Ordering::Less));
}

#[test]
fn comparing_different_kinds_fails_naming_both() {
    let time = ResultValue::from_string("00:14.99");
    let points = ResultValue::from_string("12.5 pts");
    let err = time.compare(&points).unwrap_err();
    assert_eq!(err.left, time);
    assert_eq!(err.right, points);
}

#[test]
fn comparing_empty_or_custom_fails() {
    let empty = ResultValue::Empty;
    let custom = ResultValue::from_string("lap 3");
    assert!(empty.compare(&empty).is_err());
    assert!(custom.compare(&custom).is_err());
    assert!(ResultValue::Distance(3).compare(&custom).is_err());
}
