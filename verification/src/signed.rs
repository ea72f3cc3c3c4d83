//! Signed encodings: minimal two's-complement width of a signed 128-bit
//! value, encoding into a minimal-width binary string, and decoding a binary
//! string under the unsigned, two's-complement and one's-complement
//! interpretations.

use crate::digits::{
    digit_char, digit_value, digits_value, is_digit_for, lemma_digit_char_value,
    lemma_digits_value_bound,
    lemma_digits_value_nonneg, lemma_digits_value_split_first, lemma_rendered_digits_len,
    lemma_rendered_digits_len_le, lemma_rendered_digits_value, lemma_rendered_digits_wf,
    parse_digits, render_digits, rendered_digits, ConversionError,
};
use vstd::arithmetic::mul::lemma_mul_basics;
use vstd::arithmetic::power::{lemma_pow_increases, pow};
use vstd::arithmetic::power2::{
    lemma2_to64, lemma2_to64_rest, lemma_pow2, lemma_pow2_adds, lemma_pow2_pos,
    lemma_pow2_strictly_increases, lemma_pow2_unfold, pow2,
};
use vstd::prelude::*;
use vstd::string::*;

verus! {

/// The three decimal interpretations of one binary string, whose length is
/// the authoritative encoding width.
#[derive(Debug, Clone, Copy, PartialEq, Eq, Structural)]
pub struct DecodedValue {
    pub unsigned: u128,
    pub twos_complement: i128,
    pub ones_complement: i128,
}

/// Minimal two's-complement width of a signed value: the smallest `w >= 1`
/// with `-2^(w-1) <= v`. For `v >= 0` this is 1, matching a width probe that
/// never runs for non-negative values.
pub open spec fn min_width(v: int) -> nat
    decreases -v,
{
    if v >= -1 {
        1
    } else {
        (1 + min_width(v / 2)) as nat
    }
}

/// Whether a binary string can be decoded: non-empty, only '0'/'1', and no
/// wider than the supported 128 bits.
pub open spec fn valid_binary_width(s: Seq<char>) -> bool {
    &&& s.len() >= 1
    &&& s.len() <= 128
    &&& forall|i: int| 0 <= i < s.len() ==> is_digit_for(s[i], 2)
}

/// The unsigned interpretation of a binary string.
pub open spec fn decoded_unsigned(s: Seq<char>) -> int {
    digits_value(s, 2)
}

/// The two's-complement interpretation: the most significant bit carries
/// weight `-2^(len-1)`, so a set sign bit subtracts `2^len` from the
/// unsigned reading.
pub open spec fn decoded_twos_complement(s: Seq<char>) -> int {
    if s.len() > 0 && s[0] == '1' {
        digits_value(s, 2) - pow2(s.len())
    } else {
        digits_value(s, 2)
    }
}

/// The one's-complement interpretation: a negative value is the bitwise
/// complement of its magnitude, one above the two's-complement reading.
pub open spec fn decoded_ones_complement(s: Seq<char>) -> int {
    if s.len() > 0 && s[0] == '1' {
        digits_value(s, 2) - pow2(s.len()) + 1
    } else {
        digits_value(s, 2)
    }
}

/// The minimal-width two's-complement encoding of a signed value: a leading
/// zero sign bit over the plain magnitude when non-negative, otherwise the
/// low `min_width(v)` bits of the value's two's-complement bit pattern,
/// which are the binary digits of `v + 2^min_width(v)`.
pub open spec fn encode_twos_complement(v: int) -> Seq<char> {
    if v >= 0 {
        seq!['0'] + rendered_digits(v, 2)
    } else {
        rendered_digits(v + pow2(min_width(v)), 2)
    }
}

/// Concrete values of the powers of two at the edge of the 128-bit range.
proof fn lemma_pow2_128()
    ensures
        pow2(126) == 0x40000000000000000000000000000000,
        pow2(127) == 0x80000000000000000000000000000000,
        pow2(128) == 0x100000000000000000000000000000000,
{
    lemma2_to64();
    lemma2_to64_rest();
    lemma_pow2_adds(64, 62);
    lemma_pow2_adds(64, 63);
    lemma_pow2_adds(64, 64);
}

/// Powers of two do not decrease with the exponent.
proof fn lemma_pow2_le(e1: nat, e2: nat)
    requires
        e1 <= e2,
    ensures
        pow2(e1) <= pow2(e2),
{
    if e1 < e2 {
        lemma_pow2_strictly_increases(e1, e2);
    }
}

/// `min_width` is a representable width: `-2^(w-1) <= v`, and the next
/// narrower width already fails.
pub proof fn lemma_min_width_bounds(v: int)
    requires
        v < 0,
    ensures
        min_width(v) >= 1,
        -pow2((min_width(v) - 1) as nat) <= v,
        min_width(v) > 1 ==> v < -pow2((min_width(v) - 2) as nat),
    decreases -v,
{
    lemma2_to64();
    if v >= -1 {
    } else {
        let q = v / 2;
        lemma_min_width_bounds(q);
        let m = min_width(q);
        lemma_pow2_unfold(m);
        assert(v >= 2 * q);
        if m == 1 {
        } else {
            lemma_pow2_unfold((m - 1) as nat);
            assert(q <= -pow2((m - 2) as nat) - 1);
            assert(v <= 2 * q + 1);
        }
    }
}

/// Minimality: every width strictly below `min_width(v)` cannot represent
/// `v` in two's complement.
pub proof fn lemma_min_width_minimal(v: int, w: nat)
    requires
        v < 0,
        1 <= w < min_width(v),
    ensures
        v < -pow2((w - 1) as nat),
{
    lemma_min_width_bounds(v);
    let mw = min_width(v);
    lemma_pow2_le((w - 1) as nat, (mw - 2) as nat);
}

/// A width that represents `v` and whose predecessor does not is the
/// minimal width.
pub proof fn lemma_min_width_unique(v: int, w: nat)
    requires
        v < 0,
        w >= 1,
        -pow2((w - 1) as nat) <= v,
        w > 1 ==> v < -pow2((w - 2) as nat),
    ensures
        w == min_width(v),
{
    lemma_min_width_bounds(v);
    let mw = min_width(v);
    if w < mw {
        lemma_min_width_minimal(v, w);
    }
    if w > mw {
        lemma_pow2_le((mw - 1) as nat, (w - 2) as nat);
    }
}

/// Every signed 128-bit value fits in at most 128 bits.
pub proof fn lemma_min_width_le_128(v: int)
    requires
        -pow2(127) <= v < 0,
    ensures
        min_width(v) <= 128,
{
    if min_width(v) > 128 {
        lemma_min_width_minimal(v, 128);
    }
}

/// Two raised to an exponent below 128, as a 128-bit value.
fn pow2_u128(e: usize) -> (r: u128)
    requires
        e <= 127,
    ensures
        r == pow2(e as nat),
{
    let mut r: u128 = 1;
    let mut i: usize = 0;
    proof {
        lemma2_to64();
    }
    while i < e
        invariant
            0 <= i <= e <= 127,
            r == pow2(i as nat),
        decreases e - i,
    {
        proof {
            lemma_pow2_unfold((i + 1) as nat);
            lemma_pow2_le((i + 1) as nat, 127);
            lemma_pow2_128();
        }
        r = r * 2;
        i = i + 1;
    }
    r
}

/// Minimal number of bits needed to represent a signed value in two's
/// complement; 1 for non-negative values, whose callers instead measure the
/// plain binary length of the magnitude.
pub fn get_bit_length(num: i128) -> (w: usize)
    ensures
        w == min_width(num as int),
        1 <= w <= 128,
{
    if num >= -1 {
        return 1;
    }
    let mag: u128 = ((-(num + 1)) as u128) + 1;
    proof {
        lemma_pow2_128();
        assert(mag == -(num as int));
    }
    let mut w: usize = 1;
    let mut p: u128 = 1;
    proof {
        lemma2_to64();
    }
    while p < mag
        invariant
            1 <= w <= 128,
            p == pow2((w - 1) as nat),
            mag == -(num as int),
            2 <= mag <= pow2(127),
            w > 1 ==> pow2((w - 2) as nat) < mag,
        decreases 128 - w,
    {
        proof {
            lemma_pow2_128();
            lemma_pow2_pos((w - 1) as nat);
            if w >= 128 {
                lemma_pow2_le(127, (w - 1) as nat);
                assert(false);
            }
            lemma_pow2_unfold(w as nat);
        }
        p = p * 2;
        w = w + 1;
    }
    proof {
        lemma_min_width_unique(num as int, w as nat);
    }
    w
}

/// The plain unsigned binary rendering of a non-negative value; absent for a
/// negative one, whose caller skips the unsigned row instead of failing.
pub fn decimal_to_unsigned(decimal: &i128) -> (r: Option<String>)
    ensures
        match r {
            Some(s) => *decimal >= 0 && s@ == rendered_digits(*decimal as int, 2),
            None => *decimal < 0,
        },
{
    let num = *decimal;
    if num < 0 {
        None
    } else {
        Some(render_digits(num as u128, 2))
    }
}

/// The minimal-width two's-complement binary string of a signed value. The
/// conversion itself cannot fail; the `Result` mirrors the converters.
pub fn decimal_to_2s_complement(decimal: &i128) -> (r: Result<String, ConversionError>)
    ensures
        match r {
            Ok(s) => s@ == encode_twos_complement(*decimal as int),
            Err(_) => false,
        },
{
    let num = *decimal;
    if num >= 0 {
        let bin = render_digits(num as u128, 2);
        let mut s = String::new();
        s.append("0");
        s.append(bin.as_str());
        proof {
            reveal_strlit("0");
            assert(s@ =~= seq!['0'] + rendered_digits(num as int, 2));
        }
        Ok(s)
    } else {
        let w = get_bit_length(num);
        let mag: u128 = ((-(num + 1)) as u128) + 1;
        proof {
            lemma_pow2_128();
            assert(mag == -(num as int));
            lemma_min_width_bounds(num as int);
            lemma_min_width_le_128(num as int);
            lemma_pow2_unfold(w as nat);
            lemma_pow2_pos((w - 1) as nat);
        }
        let u: u128 = if w == 128 {
            (u128::MAX - mag) + 1
        } else {
            pow2_u128(w) - mag
        };
        proof {
            assert(u == num as int + pow2(w as nat));
        }
        Ok(render_digits(u, 2))
    }
}

/// Decode a binary string, whose length is the encoding width, into its
/// unsigned, two's-complement and one's-complement decimal interpretations.
/// Fails exactly when the string is empty, holds a character other than '0'
/// or '1', or is longer than 128 characters.
pub fn binary_to_decimal(binary: &str) -> (r: Result<DecodedValue, ConversionError>)
    ensures
        match r {
            Ok(d) => {
                &&& valid_binary_width(binary@)
                &&& d.unsigned == decoded_unsigned(binary@)
                &&& d.twos_complement == decoded_twos_complement(binary@)
                &&& d.ones_complement == decoded_ones_complement(binary@)
            },
            Err(e) => e == ConversionError::MalformedDigits && !valid_binary_width(binary@),
        },
{
    let n = binary.unicode_len();
    if n == 0 || n > 128 {
        return Err(ConversionError::MalformedDigits);
    }
    let u = match parse_digits(binary, 2) {
        Ok(v) => v,
        Err(e) => {
            proof {
                if forall|i: int| 0 <= i < binary@.len() ==> is_digit_for(binary@[i], 2) {
                    lemma_digits_value_bound(binary@, 2);
                    lemma_pow2(n as nat);
                    lemma_pow2(128);
                    lemma_pow_increases(2, n as nat, 128);
                    lemma_pow2_128();
                    assert(false);
                }
            }
            return Err(e);
        },
    };
    proof {
        lemma_digits_value_bound(binary@, 2);
        lemma_pow2(n as nat);
        lemma_pow2(128);
        lemma_pow_increases(2, n as nat, 128);
        lemma_pow2_128();
        lemma_pow2_unfold(n as nat);
        lemma_digits_value_split_first(binary@, 2);
        lemma_digits_value_nonneg(binary@.skip(1), 2);
        lemma_pow2((n - 1) as nat);
        lemma_pow_increases(2, (n - 1) as nat, 127);
        lemma_pow2(127);
        lemma_mul_basics(pow(2, (n - 1) as nat));
    }
    let first = binary.get_char(0);
    if first == '1' {
        proof {
            // the sign bit contributes 2^(n-1), so u >= 2^(n-1)
            assert(digit_value(binary@[0]) == 1);
            assert(u >= pow2((n - 1) as nat));
        }
        let mask: u128 = if n == 128 {
            u128::MAX
        } else {
            pow2_u128(n) - 1
        };
        proof {
            assert(mask == pow2(n as nat) - 1);
        }
        let inverted = mask - u;
        let inv_i = inverted as i128;
        let twos = -inv_i - 1;
        let ones = -inv_i;
        Ok(DecodedValue { unsigned: u, twos_complement: twos, ones_complement: ones })
    } else {
        proof {
            // a valid digit that is not '1' is '0', so u < 2^(n-1)
            assert(digit_value(binary@[0]) == 0);
            let rest = binary@.skip(1);
            assert(forall|i: int| 0 <= i < rest.len() ==> is_digit_for(#[trigger] rest[i], 2));
            lemma_digits_value_bound(rest, 2);
            assert(u < pow2((n - 1) as nat));
        }
        let v = u as i128;
        Ok(DecodedValue { unsigned: u, twos_complement: v, ones_complement: v })
    }
}

/// Round trip: decoding the minimal-width two's-complement encoding of any
/// signed 128-bit value under the two's-complement interpretation gives the
/// value back, and the encoding is always a decodable binary string.
pub proof fn lemma_twos_complement_round_trip(v: int)
    requires
        -pow2(127) <= v < pow2(127),
    ensures
        valid_binary_width(encode_twos_complement(v)),
        decoded_twos_complement(encode_twos_complement(v)) == v,
{
    lemma_pow2_128();
    lemma2_to64();
    if v >= 0 {
        let rd = rendered_digits(v, 2);
        lemma_rendered_digits_wf(v, 2);
        lemma_rendered_digits_value(v, 2);
        let s = seq!['0'] + rd;
        assert(s[0] == '0');
        assert(s.skip(1) =~= rd);
        lemma_digits_value_split_first(s, 2);
        lemma_mul_basics(pow(2, (s.len() - 1) as nat));
        assert(digits_value(s, 2) == v);
        lemma_pow2(127);
        lemma_rendered_digits_len_le(v, 2, 127);
        assert(forall|i: int| 0 <= i < s.len() ==> is_digit_for(#[trigger] s[i], 2));
    } else {
        let w = min_width(v);
        lemma_min_width_bounds(v);
        lemma_min_width_le_128(v);
        let u = v + pow2(w);
        lemma_pow2_unfold(w);
        lemma_pow2_pos((w - 1) as nat);
        let s = rendered_digits(u, 2);
        lemma_pow2(w);
        lemma_pow2((w - 1) as nat);
        lemma_rendered_digits_len(u, 2, w);
        lemma_rendered_digits_wf(u, 2);
        lemma_rendered_digits_value(u, 2);
        lemma_digit_char_value(1);
        assert(digit_value(s[0]) == 1);
        assert(s[0] == digit_char(1));
        assert(s[0] == '1');
    }
}

/// Round trip: the unsigned interpretation of the plain unsigned binary
/// encoding of a non-negative value gives the value back.
pub proof fn lemma_unsigned_round_trip(v: int)
    requires
        0 <= v,
    ensures
        decoded_unsigned(rendered_digits(v, 2)) == v,
{
    lemma_rendered_digits_value(v, 2);
}

} // verus!
