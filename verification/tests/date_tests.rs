use rzip::date::{format_date_time, pad_leading_zero, DateParts};
use rzip::text::decimal_string;

#[test]
fn padding_of_small_numbers() {
    assert_eq!(pad_leading_zero(0), "00");
    assert_eq!(pad_leading_zero(9), "09");
    assert_eq!(pad_leading_zero(10), "10");
    assert_eq!(pad_leading_zero(59), "59");
    assert_eq!(pad_leading_zero(255), "255");
}

#[test]
fn date_rendering() {
    let d = DateParts { year: 1980, month: 1, day: 31, hour: 23, minute: 0, second: 58 };
    assert_eq!(format_date_time(Some(d)).as_deref(), Some("1980-01-31 23:00:58"));
    assert_eq!(format_date_time(None), None);
}

#[test]
fn decimal_rendering() {
    assert_eq!(decimal_string(0), "0");
    assert_eq!(decimal_string(7), "7");
    assert_eq!(decimal_string(1234567890), "1234567890");
    assert_eq!(decimal_string(u128::MAX), u128::MAX.to_string());
}
