//! Conversion of a numeral token among binary, octal, hexadecimal and decimal
//! forms, together with minimal-width two's-complement and one's-complement
//! encodings of signed 128-bit values.

pub mod classify;
pub mod convert;
pub mod digits;
pub mod display;
pub mod signed;
