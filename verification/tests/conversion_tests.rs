use baseconv::convert::{binary_to_hex, binary_to_octal, hex_to_binary, octal_to_binary};
use baseconv::digits::ConversionError;

#[test]
fn hex_to_binary_ff() {
    assert_eq!(hex_to_binary("FF").unwrap(), "11111111");
}

#[test]
fn hex_to_binary_lower_case() {
    assert_eq!(hex_to_binary("ff").unwrap(), "11111111");
}

#[test]
fn hex_to_binary_strips_leading_zeros() {
    assert_eq!(hex_to_binary("00ff").unwrap(), "11111111");
}

#[test]
fn hex_to_binary_zero() {
    assert_eq!(hex_to_binary("0").unwrap(), "0");
}

#[test]
fn hex_to_binary_empty_is_malformed() {
    assert_eq!(hex_to_binary(""), Err(ConversionError::MalformedDigits));
}

#[test]
fn hex_to_binary_bad_digit_is_malformed() {
    assert_eq!(hex_to_binary("1G"), Err(ConversionError::MalformedDigits));
}

#[test]
fn hex_to_binary_full_width_ok() {
    let h = "F".repeat(32);
    let b = hex_to_binary(&h).unwrap();
    assert_eq!(b, "1".repeat(128));
}

#[test]
fn hex_to_binary_over_width_is_malformed() {
    let h = "1".to_string() + &"0".repeat(32);
    assert_eq!(hex_to_binary(&h), Err(ConversionError::MalformedDigits));
}

#[test]
fn octal_to_binary_377() {
    assert_eq!(octal_to_binary("377").unwrap(), "11111111");
}

#[test]
fn octal_to_binary_bad_digit_is_malformed() {
    assert_eq!(octal_to_binary("78"), Err(ConversionError::MalformedDigits));
}

#[test]
fn binary_to_hex_uppercase() {
    assert_eq!(binary_to_hex("11111111").unwrap(), "FF");
}

#[test]
fn binary_to_hex_bad_digit_is_malformed() {
    assert_eq!(binary_to_hex("10102"), Err(ConversionError::MalformedDigits));
}

#[test]
fn binary_to_octal_377() {
    assert_eq!(binary_to_octal("11111111").unwrap(), "377");
}

#[test]
fn base_conversion_round_trip_normalizes() {
    // the round trip over binary yields the canonical upper-case form
    let b = hex_to_binary("00ff").unwrap();
    assert_eq!(binary_to_hex(&b).unwrap(), "FF");
    let b2 = hex_to_binary("0A3c").unwrap();
    assert_eq!(binary_to_hex(&b2).unwrap(), "A3C");
}
