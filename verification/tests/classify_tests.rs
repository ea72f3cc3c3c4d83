use baseconv::classify::{find_invalid_positions, parse_decimal, parse_number, ParsedNumber};
use baseconv::digits::ConversionError;
use baseconv::display::create_error_display;

#[test]
fn classify_hex_uppercases() {
    match parse_number("0xff") {
        ParsedNumber::Hex(d) => assert_eq!(d, "FF"),
        other => panic!("expected hex, got {:?}", other),
    }
}

#[test]
fn classify_hex_ff() {
    match parse_number("0xFF") {
        ParsedNumber::Hex(d) => assert_eq!(d, "FF"),
        other => panic!("expected hex, got {:?}", other),
    }
}

#[test]
fn classify_flags_invalid_hex_digit() {
    match parse_number("0x1G") {
        ParsedNumber::InvalidChars(pos) => assert_eq!(pos, vec![3]),
        other => panic!("expected invalid characters, got {:?}", other),
    }
}

#[test]
fn classify_binary() {
    match parse_number("0b1010") {
        ParsedNumber::Binary(d) => assert_eq!(d, "1010"),
        other => panic!("expected binary, got {:?}", other),
    }
}

#[test]
fn classify_flags_invalid_binary_digit() {
    match parse_number("0b102") {
        ParsedNumber::InvalidChars(pos) => assert_eq!(pos, vec![4]),
        other => panic!("expected invalid characters, got {:?}", other),
    }
}

#[test]
fn classify_octal() {
    match parse_number("0o17") {
        ParsedNumber::Octal(d) => assert_eq!(d, "17"),
        other => panic!("expected octal, got {:?}", other),
    }
}

#[test]
fn classify_flags_invalid_octal_digit() {
    match parse_number("0o18") {
        ParsedNumber::InvalidChars(pos) => assert_eq!(pos, vec![3]),
        other => panic!("expected invalid characters, got {:?}", other),
    }
}

#[test]
fn classify_decimal() {
    match parse_number("123") {
        ParsedNumber::Decimal(v) => assert_eq!(v, 123),
        other => panic!("expected decimal, got {:?}", other),
    }
}

#[test]
fn classify_negative_decimal() {
    match parse_number("-42") {
        ParsedNumber::Decimal(v) => assert_eq!(v, -42),
        other => panic!("expected decimal, got {:?}", other),
    }
}

#[test]
fn classify_signed_plus_decimal() {
    match parse_number("+7") {
        ParsedNumber::Decimal(v) => assert_eq!(v, 7),
        other => panic!("expected decimal, got {:?}", other),
    }
}

#[test]
fn classify_rejects_mixed_token() {
    assert!(matches!(parse_number("12a"), ParsedNumber::InvalidFormat));
}

#[test]
fn classify_rejects_empty_token() {
    assert!(matches!(parse_number(""), ParsedNumber::InvalidFormat));
}

#[test]
fn classify_rejects_bare_sign() {
    assert!(matches!(parse_number("-"), ParsedNumber::InvalidFormat));
}

#[test]
fn classify_decimal_range_edges() {
    match parse_number("170141183460469231731687303715884105727") {
        ParsedNumber::Decimal(v) => assert_eq!(v, i128::MAX),
        other => panic!("expected decimal, got {:?}", other),
    }
    match parse_number("-170141183460469231731687303715884105728") {
        ParsedNumber::Decimal(v) => assert_eq!(v, i128::MIN),
        other => panic!("expected decimal, got {:?}", other),
    }
    assert!(matches!(
        parse_number("170141183460469231731687303715884105728"),
        ParsedNumber::InvalidFormat
    ));
    assert!(matches!(
        parse_number("-170141183460469231731687303715884105729"),
        ParsedNumber::InvalidFormat
    ));
}

#[test]
fn parse_decimal_rejects_empty_digits() {
    assert_eq!(parse_decimal("+"), Err(ConversionError::MalformedDigits));
}

#[test]
fn find_invalid_positions_lists_all() {
    assert_eq!(find_invalid_positions("1g2h", 16), vec![1usize, 3usize]);
    assert_eq!(find_invalid_positions("1234", 16), Vec::<usize>::new());
}

#[test]
fn error_display_marks_positions() {
    assert_eq!(create_error_display("0x1G", &[3]), "0x1G\n   ^");
}

#[test]
fn error_display_two_marks() {
    assert_eq!(create_error_display("0x1G2H", &[3, 5]), "0x1G2H\n   ^ ^");
}

#[test]
fn error_display_ignores_positions_past_end() {
    assert_eq!(create_error_display("ab", &[5]), "ab\n  ");
}
