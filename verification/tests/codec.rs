use bookfeed::codec::{format_decimal, parse_decimal_to_int, parse_u64, DecimalError};

fn fmt_str(v: u64, decimals: u32) -> String {
    String::from_utf8(format_decimal(v, decimals)).unwrap()
}

#[test]
fn parse_price_two_decimals() {
    assert_eq!(parse_decimal_to_int("0.33", 2), Ok(33));
}

#[test]
fn parse_size_one_decimal() {
    assert_eq!(parse_decimal_to_int("4142.5", 1), Ok(41425));
}

#[test]
fn parse_integer_scales_up() {
    assert_eq!(parse_decimal_to_int("5", 2), Ok(500));
}

#[test]
fn parse_truncates_extra_digits() {
    // extra fractional digits are dropped, not rounded: 1.23|45
    assert_eq!(parse_decimal_to_int("1.2345", 2), Ok(123));
}

#[test]
fn parse_truncation_drops_not_rounds() {
    assert_eq!(parse_decimal_to_int("0.999", 2), Ok(99));
}

#[test]
fn parse_pads_short_fraction() {
    assert_eq!(parse_decimal_to_int("2.5", 2), Ok(250));
}

#[test]
fn parse_zero_decimals_truncates_fraction() {
    assert_eq!(parse_decimal_to_int("12.9", 0), Ok(12));
}

#[test]
fn parse_rejects_empty() {
    assert_eq!(parse_decimal_to_int("", 2), Err(DecimalError::InvalidNumber));
}

#[test]
fn parse_rejects_letters() {
    assert_eq!(parse_decimal_to_int("abc", 2), Err(DecimalError::InvalidNumber));
}

#[test]
fn parse_rejects_missing_integer_part() {
    assert_eq!(parse_decimal_to_int(".5", 2), Err(DecimalError::InvalidNumber));
}

#[test]
fn parse_rejects_missing_fraction() {
    assert_eq!(parse_decimal_to_int("5.", 2), Err(DecimalError::InvalidNumber));
}

#[test]
fn parse_rejects_two_dots() {
    assert_eq!(parse_decimal_to_int("1.2.3", 2), Err(DecimalError::InvalidNumber));
}

#[test]
fn parse_rejects_sign() {
    assert_eq!(parse_decimal_to_int("+5", 2), Err(DecimalError::InvalidNumber));
    assert_eq!(parse_decimal_to_int("-5", 2), Err(DecimalError::InvalidNumber));
}

#[test]
fn parse_overflow_plain_integer() {
    assert_eq!(
        parse_decimal_to_int("18446744073709551616", 0),
        Err(DecimalError::Overflow)
    );
}

#[test]
fn parse_overflow_after_scaling() {
    // fits as an integer, but not once scaled by 10^2
    assert_eq!(
        parse_decimal_to_int("18446744073709551615", 2),
        Err(DecimalError::Overflow)
    );
}

#[test]
fn parse_max_value_exact() {
    assert_eq!(parse_decimal_to_int("18446744073709551615", 0), Ok(u64::MAX));
}

#[test]
fn parse_u64_timestamp() {
    assert_eq!(parse_u64(b"1700000000123"), Ok(1700000000123));
    assert_eq!(parse_u64(b""), Err(DecimalError::InvalidNumber));
    assert_eq!(parse_u64(b"12a"), Err(DecimalError::InvalidNumber));
}

#[test]
fn format_price() {
    assert_eq!(fmt_str(33, 2), "0.33");
}

#[test]
fn format_size() {
    assert_eq!(fmt_str(41425, 1), "4142.5");
}

#[test]
fn format_keeps_trailing_zeros() {
    assert_eq!(fmt_str(500, 2), "5.00");
}

#[test]
fn format_zero_decimals() {
    assert_eq!(fmt_str(7, 0), "7");
    assert_eq!(fmt_str(0, 0), "0");
}

#[test]
fn format_zero_with_decimals() {
    assert_eq!(fmt_str(0, 2), "0.00");
}

#[test]
fn round_trip_format_then_parse() {
    let cases: [(u64, u32); 8] = [
        (0, 0),
        (0, 2),
        (33, 2),
        (500, 2),
        (41425, 1),
        (1, 5),
        (u64::MAX, 0),
        (123456789, 3),
    ];
    for (v, d) in cases {
        let text = fmt_str(v, d);
        assert_eq!(parse_decimal_to_int(&text, d), Ok(v), "value {} decimals {}", v, d);
    }
}
