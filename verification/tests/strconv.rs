use serpentine::strconv::{parse, parse_byte, parse_unwrap, ParseIntError};

#[test]
fn parses_plain_numbers() {
    assert_eq!(parse("0").unwrap(), 0);
    assert_eq!(parse("7").unwrap(), 7);
    assert_eq!(parse("123").unwrap(), 123);
    assert_eq!(parse("4096").unwrap(), 4096);
    assert_eq!(parse("18446744073709551615").unwrap(), usize::MAX);
}

#[test]
fn rejects_non_digits() {
    assert!(matches!(parse("12a"), Err(ParseIntError::InvalidDigit)));
    assert!(matches!(parse("-3"), Err(ParseIntError::InvalidDigit)));
    assert!(matches!(parse(" 4"), Err(ParseIntError::InvalidDigit)));
}

#[test]
fn rejects_too_long_strings() {
    // twenty-one digits never fit
    assert!(matches!(
        parse("100000000000000000000"),
        Err(ParseIntError::Overflow)
    ));
}

#[test]
fn unwraps_known_good_strings() {
    assert_eq!(parse_unwrap("1"), 1);
    assert_eq!(parse_unwrap("4"), 4);
    assert_eq!(parse_unwrap("65535"), 65535);
}

#[test]
fn digit_bytes() {
    assert_eq!(parse_byte(b'0').unwrap(), 0);
    assert_eq!(parse_byte(b'9').unwrap(), 9);
    assert!(matches!(parse_byte(b'a'), Err(ParseIntError::InvalidDigit)));
    assert!(matches!(parse_byte(b'/'), Err(ParseIntError::InvalidDigit)));
}
