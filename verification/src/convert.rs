//! Unsigned base conversion among binary, octal and hexadecimal string
//! forms, through a 128-bit intermediate value.

use crate::digits::{
    digits_value, is_digit_for, lemma_digits_value_nonneg, lemma_rendered_digits_value,
    parse_digits, render_digits, rendered_digits, ConversionError,
};
use vstd::prelude::*;

verus! {

/// What a conversion promises: the digit string was read in `from_base`,
/// and the result is the minimal rendering of the same value in `to_base`.
pub open spec fn converts(
    input: Seq<char>,
    output: Seq<char>,
    from_base: int,
    to_base: int,
) -> bool {
    output == rendered_digits(digits_value(input, from_base), to_base)
}

/// Whether a digit string can be converted at all: non-empty, every
/// character a digit of the base, and a magnitude within 128 bits.
pub open spec fn convertible(input: Seq<char>, from_base: int) -> bool {
    &&& input.len() > 0
    &&& forall|i: int| 0 <= i < input.len() ==> is_digit_for(input[i], from_base)
    &&& digits_value(input, from_base) <= u128::MAX
}

/// Convert a digit string between two bases, failing exactly on inputs that
/// are not convertible.
fn convert_digits(s: &str, from_base: u32, to_base: u32) -> (r: Result<
    String,
    ConversionError,
>)
    requires
        2 <= from_base <= 16,
        2 <= to_base <= 16,
    ensures
        match r {
            Ok(out) => convertible(s@, from_base as int) && converts(
                s@,
                out@,
                from_base as int,
                to_base as int,
            ),
            Err(e) => e == ConversionError::MalformedDigits && !convertible(
                s@,
                from_base as int,
            ),
        },
{
    match parse_digits(s, from_base) {
        Ok(v) => {
            proof {
                lemma_digits_value_nonneg(s@, from_base as int);
            }
            Ok(render_digits(v, to_base))
        },
        Err(e) => Err(e),
    }
}

/// Parse a hexadecimal string (either letter case) and render the value as
/// minimal unsigned binary.
pub fn hex_to_binary(hex: &str) -> (r: Result<String, ConversionError>)
    ensures
        match r {
            Ok(out) => convertible(hex@, 16) && converts(hex@, out@, 16, 2),
            Err(e) => e == ConversionError::MalformedDigits && !convertible(hex@, 16),
        },
{
    convert_digits(hex, 16, 2)
}

/// Parse an octal string and render the value as minimal unsigned binary.
pub fn octal_to_binary(octal: &str) -> (r: Result<String, ConversionError>)
    ensures
        match r {
            Ok(out) => convertible(octal@, 8) && converts(octal@, out@, 8, 2),
            Err(e) => e == ConversionError::MalformedDigits && !convertible(octal@, 8),
        },
{
    convert_digits(octal, 8, 2)
}

/// Parse a binary string and render the value as upper-case hexadecimal.
pub fn binary_to_hex(binary: &str) -> (r: Result<String, ConversionError>)
    ensures
        match r {
            Ok(out) => convertible(binary@, 2) && converts(binary@, out@, 2, 16),
            Err(e) => e == ConversionError::MalformedDigits && !convertible(binary@, 2),
        },
{
    convert_digits(binary, 2, 16)
}

/// Parse a binary string and render the value as octal.
pub fn binary_to_octal(binary: &str) -> (r: Result<String, ConversionError>)
    ensures
        match r {
            Ok(out) => convertible(binary@, 2) && converts(binary@, out@, 2, 8),
            Err(e) => e == ConversionError::MalformedDigits && !convertible(binary@, 2),
        },
{
    convert_digits(binary, 2, 8)
}

/// Converting a valid hexadecimal string to binary and back yields its
/// normal form: upper-case digits, no leading zeros. In particular the
/// composition loses nothing of the value.
pub proof fn lemma_base_conversion_round_trip(h: Seq<char>)
    requires
        convertible(h, 16),
    ensures
        digits_value(rendered_digits(digits_value(h, 16), 2), 2) == digits_value(h, 16),
        rendered_digits(digits_value(rendered_digits(digits_value(h, 16), 2), 2), 16)
            == rendered_digits(digits_value(h, 16), 16),
{
    lemma_digits_value_nonneg(h, 16);
    lemma_rendered_digits_value(digits_value(h, 16), 2);
}

} // verus!
