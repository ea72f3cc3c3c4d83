use baseconv::digits::ConversionError;
use baseconv::signed::{
    binary_to_decimal, decimal_to_2s_complement, decimal_to_unsigned, get_bit_length,
};

#[test]
fn encode_zero_is_00() {
    assert_eq!(decimal_to_2s_complement(&0).unwrap(), "00");
    let d = binary_to_decimal("00").unwrap();
    assert_eq!(d.unsigned, 0);
    assert_eq!(d.twos_complement, 0);
    assert_eq!(d.ones_complement, 0);
}

#[test]
fn encode_minus_one_is_1() {
    assert_eq!(get_bit_length(-1), 1);
    assert_eq!(decimal_to_2s_complement(&-1).unwrap(), "1");
    let d = binary_to_decimal("1").unwrap();
    assert_eq!(d.unsigned, 1);
    assert_eq!(d.twos_complement, -1);
    // the all-ones pattern is negative zero in one's complement
    assert_eq!(d.ones_complement, 0);
}

#[test]
fn encode_minus_128_is_eight_bits() {
    assert_eq!(get_bit_length(-128), 8);
    let s = decimal_to_2s_complement(&-128).unwrap();
    assert_eq!(s.len(), 8);
    assert_eq!(s, "10000000");
    assert_eq!(binary_to_decimal(&s).unwrap().twos_complement, -128);
}

#[test]
fn decode_all_ones_byte() {
    let d = binary_to_decimal("11111111").unwrap();
    assert_eq!(d.unsigned, 255);
    assert_eq!(d.twos_complement, -1);
    // the all-ones pattern is negative zero in one's complement
    assert_eq!(d.ones_complement, 0);
}

#[test]
fn twos_complement_round_trip_samples() {
    let samples: [i128; 12] = [
        0,
        1,
        -1,
        42,
        -42,
        127,
        -128,
        255,
        -255,
        i128::MAX,
        i128::MIN,
        i128::MIN + 1,
    ];
    for v in samples {
        let s = decimal_to_2s_complement(&v).unwrap();
        let d = binary_to_decimal(&s).unwrap();
        assert_eq!(d.twos_complement, v);
    }
}

#[test]
fn unsigned_round_trip_samples() {
    let samples: [i128; 5] = [0, 1, 42, 255, i128::MAX];
    for v in samples {
        let s = decimal_to_unsigned(&v).unwrap();
        let d = binary_to_decimal(&s).unwrap();
        assert_eq!(d.unsigned, v as u128);
    }
}

#[test]
fn unsigned_encoding_absent_for_negative() {
    assert_eq!(decimal_to_unsigned(&-5), None);
}

#[test]
fn unsigned_encoding_of_255() {
    assert_eq!(decimal_to_unsigned(&255).unwrap(), "11111111");
}

#[test]
fn positive_encoding_has_leading_zero() {
    assert_eq!(decimal_to_2s_complement(&5).unwrap(), "0101");
    assert_eq!(decimal_to_2s_complement(&255).unwrap(), "011111111");
}

#[test]
fn bit_length_probes() {
    assert_eq!(get_bit_length(0), 1);
    assert_eq!(get_bit_length(5), 1);
    assert_eq!(get_bit_length(-2), 2);
    assert_eq!(get_bit_length(-3), 3);
    assert_eq!(get_bit_length(-4), 3);
    assert_eq!(get_bit_length(-5), 4);
    assert_eq!(get_bit_length(i128::MIN), 128);
    assert_eq!(get_bit_length(i128::MIN + 1), 128);
}

#[test]
fn minimality_of_width() {
    // one bit fewer no longer represents the value
    let v: i128 = -129;
    let w = get_bit_length(v);
    assert_eq!(w, 9);
    assert!(v >= -(1i128 << (w - 1)));
    assert!(v < -(1i128 << (w - 2)));
}

#[test]
fn decode_empty_is_malformed() {
    assert_eq!(binary_to_decimal(""), Err(ConversionError::MalformedDigits));
}

#[test]
fn decode_bad_digit_is_malformed() {
    assert_eq!(binary_to_decimal("012"), Err(ConversionError::MalformedDigits));
}

#[test]
fn decode_over_128_bits_is_malformed() {
    let s = "0".repeat(129);
    assert_eq!(binary_to_decimal(&s), Err(ConversionError::MalformedDigits));
}

#[test]
fn decode_exactly_128_bits() {
    let s = "1".repeat(128);
    let d = binary_to_decimal(&s).unwrap();
    assert_eq!(d.unsigned, u128::MAX);
    assert_eq!(d.twos_complement, -1);
    assert_eq!(d.ones_complement, 0);
}

#[test]
fn decode_min_value_pattern() {
    let s = "1".to_string() + &"0".repeat(127);
    let d = binary_to_decimal(&s).unwrap();
    assert_eq!(d.twos_complement, i128::MIN);
    assert_eq!(d.ones_complement, i128::MIN + 1);
}
