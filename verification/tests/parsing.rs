use webformd::parse::IntParseError;
use webformd::parse::parse_i64;

#[test]
fn parse_plain_digits() {
    assert_eq!(parse_i64("0"), Ok(0));
    assert_eq!(parse_i64("1"), Ok(1));
    assert_eq!(parse_i64("42"), Ok(42));
    assert_eq!(parse_i64("007"), Ok(7));
}

#[test]
fn parse_signed_values() {
    assert_eq!(parse_i64("+5"), Ok(5));
    assert_eq!(parse_i64("-5"), Ok(-5));
    assert_eq!(parse_i64("-0"), Ok(0));
}

#[test]
fn parse_extremes_of_the_range() {
    assert_eq!(parse_i64("9223372036854775807"), Ok(i64::MAX));
    assert_eq!(parse_i64("-9223372036854775808"), Ok(i64::MIN));
}

#[test]
fn parse_overflow_is_detected() {
    assert_eq!(parse_i64("9223372036854775808"), Err(IntParseError::PosOverflow));
    assert_eq!(parse_i64("-9223372036854775809"), Err(IntParseError::NegOverflow));
    assert_eq!(parse_i64("99999999999999999999999"), Err(IntParseError::PosOverflow));
}

#[test]
fn parse_rejects_empty_and_lone_signs() {
    assert_eq!(parse_i64(""), Err(IntParseError::Empty));
    assert_eq!(parse_i64("-"), Err(IntParseError::InvalidDigit));
    assert_eq!(parse_i64("+"), Err(IntParseError::InvalidDigit));
}

#[test]
fn parse_rejects_stray_characters() {
    assert_eq!(parse_i64("12x"), Err(IntParseError::InvalidDigit));
    assert_eq!(parse_i64(" 5"), Err(IntParseError::InvalidDigit));
    assert_eq!(parse_i64("5 "), Err(IntParseError::InvalidDigit));
    assert_eq!(parse_i64("1.5"), Err(IntParseError::InvalidDigit));
    assert_eq!(parse_i64("--3"), Err(IntParseError::InvalidDigit));
    assert_eq!(parse_i64("\u{0661}\u{0662}"), Err(IntParseError::InvalidDigit));
}

#[test]
fn parse_matches_the_standard_parser() {
    let cases = ["0", "42", "+5", "-5", "9223372036854775807", "-9223372036854775808", "abc", ""];
    for case in cases {
        assert_eq!(parse_i64(case).ok(), case.parse::<i64>().ok());
    }
}

#[test]
fn error_messages_match_the_standard_wording() {
    assert_eq!(IntParseError::Empty.message(), "cannot parse integer from empty string");
    assert_eq!(IntParseError::InvalidDigit.message(), "invalid digit found in string");
    assert_eq!(IntParseError::PosOverflow.message(), "number too large to fit in target type");
    assert_eq!(IntParseError::NegOverflow.message(), "number too small to fit in target type");
}
