//! Classification of an input token: a `0x`/`0b`/`0o` prefixed digit string
//! or a bare decimal literal, with validation of every character and the
//! positions of the offending ones.

use crate::digits::{
    char_to_digit, digit_char, digit_str, digit_value, digits_value, is_digit_for,
    lemma_digits_value_nonneg, parse_digits, ConversionError,
};
use vstd::arithmetic::power2::{lemma2_to64, lemma2_to64_rest, lemma_pow2_adds, pow2};
use vstd::prelude::*;
use vstd::string::*;

verus! {

/// A classified input token: the digit part of a prefixed numeral, a decimal
/// value, or one of the two rejection forms.
#[derive(Debug)]
pub enum ParsedNumber {
    /// `0x` prefix with valid digits; the digit part, upper-cased.
    Hex(String),
    /// `0b` prefix with valid digits; the digit part.
    Binary(String),
    /// `0o` prefix with valid digits; the digit part.
    Octal(String),
    /// A bare decimal literal within the signed 128-bit range.
    Decimal(i128),
    /// A prefixed numeral with illegal digits: their positions in the whole
    /// input, prefix included.
    InvalidChars(Vec<usize>),
    /// No recognised form.
    InvalidFormat,
}

/// Positions of the characters of a string that are not digits of the base,
/// in increasing order.
pub open spec fn invalid_positions(s: Seq<char>, base: int) -> Seq<int>
    decreases s.len(),
{
    if s.len() == 0 {
        Seq::empty()
    } else if is_digit_for(s.last(), base) {
        invalid_positions(s.drop_last(), base)
    } else {
        invalid_positions(s.drop_last(), base).push(s.len() - 1)
    }
}

/// The invalid positions are exactly the indices of invalid characters, in
/// strictly increasing order.
pub proof fn lemma_invalid_positions_iff(s: Seq<char>, base: int)
    ensures
        forall|j: int, k: int|
            0 <= j < k < invalid_positions(s, base).len() ==> invalid_positions(s, base)[j]
                < invalid_positions(s, base)[k],
        forall|j: int|
            0 <= j < invalid_positions(s, base).len() ==> 0 <= #[trigger] invalid_positions(
                s,
                base,
            )[j] < s.len() && !is_digit_for(s[invalid_positions(s, base)[j]], base),
        forall|i: int|
            0 <= i < s.len() && !is_digit_for(s[i], base) ==> invalid_positions(
                s,
                base,
            ).contains(i),
    decreases s.len(),
{
    if s.len() > 0 {
        let t = s.drop_last();
        lemma_invalid_positions_iff(t, base);
        assert(forall|i: int| 0 <= i < t.len() ==> t[i] == s[i]);
        let ip = invalid_positions(s, base);
        let ipt = invalid_positions(t, base);
        assert forall|i: int| 0 <= i < s.len() && !is_digit_for(s[i], base) implies ip.contains(
            i,
        ) by {
            if i < t.len() {
                assert(ipt.contains(i));
                let j = choose|j: int| 0 <= j < ipt.len() && ipt[j] == i;
                if is_digit_for(s.last(), base) {
                    assert(ip[j] == i);
                } else {
                    assert(ip[j] == i);
                }
            } else {
                assert(!is_digit_for(s.last(), base));
                assert(ip.last() == i);
            }
        }
    }
}

/// Indices of the characters that are not digits of the base, in increasing
/// order.
pub fn find_invalid_positions(s: &str, base: u32) -> (r: Vec<usize>)
    requires
        2 <= base <= 16,
    ensures
        r@.map_values(|p: usize| p as int) == invalid_positions(s@, base as int),
{
    let n = s.unicode_len();
    let mut r: Vec<usize> = Vec::new();
    let mut i: usize = 0;
    while i < n
        invariant
            2 <= base <= 16,
            n == s@.len(),
            0 <= i <= n,
            r@.map_values(|p: usize| p as int) =~= invalid_positions(
                s@.take(i as int),
                base as int,
            ),
        decreases n - i,
    {
        let c = s.get_char(i);
        proof {
            assert(s@.take(i + 1 as int).drop_last() =~= s@.take(i as int));
            assert(s@.take(i + 1 as int).last() == s@[i as int]);
        }
        if char_to_digit(c, base).is_none() {
            r.push(i);
            proof {
                assert(r@.map_values(|p: usize| p as int) =~= invalid_positions(
                    s@.take(i + 1 as int),
                    base as int,
                ));
            }
        }
        i = i + 1;
    }
    proof {
        assert(s@.take(n as int) =~= s@);
    }
    r
}

/// The canonical digit spelling of a string of valid digits: each character
/// replaced by the upper-case character of its digit value.
pub open spec fn canonical_digits(s: Seq<char>) -> Seq<char> {
    Seq::new(s.len(), |i: int| digit_char(digit_value(s[i])))
}

/// Rewrite a string of valid digits in canonical upper case.
fn to_canonical_upper(s: &str, base: u32) -> (r: String)
    requires
        2 <= base <= 16,
        forall|i: int| 0 <= i < s@.len() ==> is_digit_for(s@[i], base as int),
    ensures
        r@ == canonical_digits(s@),
{
    let n = s.unicode_len();
    let mut out = String::new();
    let mut i: usize = 0;
    while i < n
        invariant
            2 <= base <= 16,
            n == s@.len(),
            0 <= i <= n,
            forall|j: int| 0 <= j < s@.len() ==> is_digit_for(s@[j], base as int),
            out@ =~= canonical_digits(s@).take(i as int),
        decreases n - i,
    {
        let c = s.get_char(i);
        let d = match char_to_digit(c, base) {
            Some(d) => d,
            None => {
                proof {
                    assert(false);
                }
                0
            },
        };
        out.append(digit_str(d));
        proof {
            assert(out@ =~= canonical_digits(s@).take(i + 1 as int));
        }
        i = i + 1;
    }
    proof {
        assert(canonical_digits(s@).take(n as int) =~= canonical_digits(s@));
    }
    out
}

/// Whether a character is a sign of a decimal literal.
pub open spec fn is_sign(c: char) -> bool {
    c == '-' || c == '+'
}

/// The digit part of a decimal literal, an optional sign stripped.
pub open spec fn decimal_digits(s: Seq<char>) -> Seq<char> {
    if s.len() > 0 && is_sign(s[0]) {
        s.skip(1)
    } else {
        s
    }
}

/// Whether a string is a well-formed decimal literal: an optional sign and
/// at least one decimal digit.
pub open spec fn is_decimal_literal(s: Seq<char>) -> bool {
    &&& decimal_digits(s).len() > 0
    &&& forall|i: int|
        0 <= i < decimal_digits(s).len() ==> is_digit_for(decimal_digits(s)[i], 10)
}

/// The signed value of a decimal literal.
pub open spec fn decimal_literal_value(s: Seq<char>) -> int {
    if s.len() > 0 && s[0] == '-' {
        -digits_value(decimal_digits(s), 10)
    } else {
        digits_value(decimal_digits(s), 10)
    }
}

/// Whether a value is representable as a signed 128-bit integer.
pub open spec fn in_i128_range(v: int) -> bool {
    -pow2(127) <= v < pow2(127)
}

/// Parse a decimal literal as a signed 128-bit value. Fails exactly when
/// the literal is malformed or its value does not fit.
pub fn parse_decimal(s: &str) -> (r: Result<i128, ConversionError>)
    ensures
        match r {
            Ok(v) => {
                &&& is_decimal_literal(s@)
                &&& in_i128_range(decimal_literal_value(s@))
                &&& v == decimal_literal_value(s@)
            },
            Err(e) => {
                &&& e == ConversionError::MalformedDigits
                &&& !(is_decimal_literal(s@) && in_i128_range(decimal_literal_value(s@)))
            },
        },
{
    proof {
        lemma2_to64();
        lemma2_to64_rest();
        lemma_pow2_adds(64, 63);
        lemma_pow2_adds(64, 64);
    }
    let n = s.unicode_len();
    if n == 0 {
        return Err(ConversionError::MalformedDigits);
    }
    let first = s.get_char(0);
    let neg = first == '-';
    let has_sign = neg || first == '+';
    let digits_part = if has_sign {
        s.substring_char(1, n)
    } else {
        s.substring_char(0, n)
    };
    proof {
        assert(digits_part@ =~= decimal_digits(s@));
    }
    let u = match parse_digits(digits_part, 10) {
        Ok(u) => u,
        Err(e) => {
            proof {
                if is_decimal_literal(s@) {
                    lemma_digits_value_nonneg(decimal_digits(s@), 10);
                }
            }
            return Err(e);
        },
    };
    proof {
        lemma_digits_value_nonneg(decimal_digits(s@), 10);
    }
    if neg {
        if u > 0x80000000000000000000000000000000u128 {
            return Err(ConversionError::MalformedDigits);
        }
        if u == 0x80000000000000000000000000000000u128 {
            Ok(i128::MIN)
        } else {
            Ok(-(u as i128))
        }
    } else {
        if u > 0x7FFFFFFFFFFFFFFFFFFFFFFFFFFFFFFFu128 {
            return Err(ConversionError::MalformedDigits);
        }
        Ok(u as i128)
    }
}

/// Whether the token begins with `'0'` followed by the given tag character.
pub open spec fn has_prefix(s: Seq<char>, tag: char) -> bool {
    s.len() >= 2 && s[0] == '0' && s[1] == tag
}

/// The base announced by a token's prefix; a bare token is decimal.
pub open spec fn prefix_base(s: Seq<char>) -> int {
    if has_prefix(s, 'x') {
        16
    } else if has_prefix(s, 'b') {
        2
    } else if has_prefix(s, 'o') {
        8
    } else {
        10
    }
}

/// Whether the token carries any of the three recognised base prefixes.
pub open spec fn has_base_prefix(s: Seq<char>) -> bool {
    has_prefix(s, 'x') || has_prefix(s, 'b') || has_prefix(s, 'o')
}

/// Classify an input token. A prefixed token is validated against its base's
/// alphabet, the positions of illegal characters reported against the whole
/// input; a bare token must be a decimal literal in the signed 128-bit range.
pub fn parse_number(input: &str) -> (r: ParsedNumber)
    ensures
        match r {
            ParsedNumber::Hex(d) => {
                &&& has_prefix(input@, 'x')
                &&& forall|i: int| 0 <= i < input@.skip(2).len() ==> is_digit_for(
                    #[trigger] input@.skip(2)[i],
                    16,
                )
                &&& d@ == canonical_digits(input@.skip(2))
            },
            ParsedNumber::Binary(d) => {
                &&& has_prefix(input@, 'b')
                &&& forall|i: int| 0 <= i < input@.skip(2).len() ==> is_digit_for(
                    #[trigger] input@.skip(2)[i],
                    2,
                )
                &&& d@ == input@.skip(2)
            },
            ParsedNumber::Octal(d) => {
                &&& has_prefix(input@, 'o')
                &&& forall|i: int| 0 <= i < input@.skip(2).len() ==> is_digit_for(
                    #[trigger] input@.skip(2)[i],
                    8,
                )
                &&& d@ == input@.skip(2)
            },
            ParsedNumber::Decimal(v) => {
                &&& !has_base_prefix(input@)
                &&& is_decimal_literal(input@)
                &&& in_i128_range(decimal_literal_value(input@))
                &&& v == decimal_literal_value(input@)
            },
            ParsedNumber::InvalidChars(pos) => {
                &&& has_base_prefix(input@)
                &&& invalid_positions(input@.skip(2), prefix_base(input@)).len() > 0
                &&& pos@.map_values(|p: usize| p as int) == invalid_positions(
                    input@.skip(2),
                    prefix_base(input@),
                ).map_values(|q: int| q + 2)
            },
            ParsedNumber::InvalidFormat => {
                &&& !has_base_prefix(input@)
                &&& !(is_decimal_literal(input@) && in_i128_range(decimal_literal_value(input@)))
            },
        },
{
    let n = input.unicode_len();
    if n >= 2 && input.get_char(0) == '0' {
        let tag = input.get_char(1);
        if tag == 'x' || tag == 'b' || tag == 'o' {
            let base: u32 = if tag == 'x' {
                16
            } else if tag == 'b' {
                2
            } else {
                8
            };
            proof {
                assert(prefix_base(input@) == base as int);
            }
            let part = input.substring_char(2, n);
            proof {
                assert(part@ =~= input@.skip(2));
            }
            let inv = find_invalid_positions(part, base);
            proof {
                lemma_invalid_positions_iff(part@, base as int);
            }
            if inv.len() == 0 {
                proof {
                    assert forall|i: int| 0 <= i < part@.len() implies is_digit_for(
                        #[trigger] part@[i],
                        base as int,
                    ) by {
                        if !is_digit_for(part@[i], base as int) {
                            assert(invalid_positions(part@, base as int).contains(i));
                        }
                    }
                }
                if tag == 'x' {
                    ParsedNumber::Hex(to_canonical_upper(part, 16))
                } else if tag == 'b' {
                    ParsedNumber::Binary(part.to_owned())
                } else {
                    ParsedNumber::Octal(part.to_owned())
                }
            } else {
                let m = inv.len();
                let mut pos: Vec<usize> = Vec::new();
                let mut j: usize = 0;
                while j < m
                    invariant
                        0 <= j <= m,
                        m == inv@.len(),
                        inv@.map_values(|p: usize| p as int) == invalid_positions(
                            part@,
                            base as int,
                        ),
                        forall|k: int|
                            0 <= k < invalid_positions(part@, base as int).len()
                                ==> 0 <= #[trigger] invalid_positions(part@, base as int)[k]
                                < part@.len(),
                        part@.len() + 2 == n,
                        pos@.len() == j,
                        pos@.map_values(|p: usize| p as int) =~= invalid_positions(
                            part@,
                            base as int,
                        ).map_values(|q: int| q + 2).take(j as int),
                    decreases m - j,
                {
                    let p = inv[j];
                    proof {
                        assert(inv@.map_values(|v: usize| v as int)[j as int] == p as int);
                        assert(p as int == invalid_positions(part@, base as int)[j as int]);
                    }
                    let ghost oldpos = pos@;
                    pos.push(p + 2);
                    proof {
                        let ip = invalid_positions(part@, base as int);
                        let shifted = ip.map_values(|q: int| q + 2);
                        assert(pos@ == oldpos.push((p + 2) as usize));
                        assert forall|k: int| 0 <= k <= j implies pos@.map_values(
                            |v: usize| v as int,
                        )[k] == shifted[k] by {
                            if k < j {
                                assert(oldpos.map_values(|v: usize| v as int)[k]
                                    == shifted.take(j as int)[k]);
                                assert(pos@[k] == oldpos[k]);
                            } else {
                                assert(pos@[k] == (p + 2) as usize);
                                assert(shifted[k] == ip[k] + 2);
                            }
                        }
                        assert(pos@.map_values(|v: usize| v as int) =~= shifted.take(
                            j + 1 as int,
                        ));
                    }
                    j = j + 1;
                }
                proof {
                    let full = invalid_positions(part@, base as int).map_values(|q: int| q + 2);
                    assert(full.take(m as int) =~= full);
                }
                ParsedNumber::InvalidChars(pos)
            }
        } else {
            match parse_decimal(input) {
                Ok(v) => ParsedNumber::Decimal(v),
                Err(_) => ParsedNumber::InvalidFormat,
            }
        }
    } else {
        match parse_decimal(input) {
            Ok(v) => ParsedNumber::Decimal(v),
            Err(_) => ParsedNumber::InvalidFormat,
        }
    }
}

} // verus!
