//! Digit strings: the value of a string of digits in a base, and the minimal
//! rendering of a value as a digit string.

use vstd::arithmetic::div_mod::{
    lemma_div_decreases, lemma_div_is_ordered, lemma_div_multiples_vanish,
    lemma_div_pos_is_pos, lemma_fundamental_div_mod, lemma_multiply_divide_lt,
};
use vstd::arithmetic::mul::{
    lemma_mul_basics, lemma_mul_increases, lemma_mul_inequality, lemma_mul_is_associative,
    lemma_mul_is_commutative, lemma_mul_is_distributive_add_other_way,
    lemma_mul_is_distributive_sub_other_way, lemma_mul_nonnegative,
};
use vstd::arithmetic::power::{lemma_pow0, lemma_pow1, lemma_pow_adds, lemma_pow_positive, pow};
use vstd::prelude::*;
use vstd::string::*;

verus! {

/// Failure of a conversion: the digit string is empty, holds a character
/// outside its base's alphabet, or its magnitude exceeds 128 bits.
#[derive(Debug, Clone, Copy, PartialEq, Eq, Structural)]
pub enum ConversionError {
    MalformedDigits,
}

/// Numeric value of a digit character in bases up to 16; characters that are
/// a digit of no supported base are mapped to 16, above every base.
pub open spec fn digit_value(c: char) -> int {
    if '0' as int <= c as int <= '9' as int {
        c as int - '0' as int
    } else if 'A' as int <= c as int <= 'F' as int {
        c as int - 'A' as int + 10
    } else if 'a' as int <= c as int <= 'f' as int {
        c as int - 'a' as int + 10
    } else {
        16
    }
}

/// Whether a character is a legal digit of the given base.
pub open spec fn is_digit_for(c: char, base: int) -> bool {
    digit_value(c) < base
}

/// Canonical (upper-case) character for a digit value below 16.
pub open spec fn digit_char(d: int) -> char {
    seq!['0', '1', '2', '3', '4', '5', '6', '7', '8', '9', 'A', 'B', 'C', 'D', 'E', 'F'][d]
}

/// Value of a digit string, most significant digit first.
pub open spec fn digits_value(s: Seq<char>, base: int) -> int
    decreases s.len(),
{
    if s.len() == 0 {
        0
    } else {
        digits_value(s.drop_last(), base) * base + digit_value(s.last())
    }
}

/// Minimal rendering of a non-negative value in a base: no leading zeros,
/// zero itself rendered as "0".
pub open spec fn rendered_digits(n: int, base: int) -> Seq<char>
    decreases n,
        when 2 <= base && 0 <= n
        via rendered_digits_decreases
{
    if n < base {
        seq![digit_char(n)]
    } else {
        rendered_digits(n / base, base).push(digit_char(n % base))
    }
}

#[via_fn]
proof fn rendered_digits_decreases(n: int, base: int) {
    if n >= base {
        lemma_div_decreases(n, base);
        lemma_div_pos_is_pos(n, base);
    }
}

pub proof fn lemma_digit_char_value(d: int)
    requires
        0 <= d < 16,
    ensures
        digit_value(digit_char(d)) == d,
{
}

/// One step of the power recursion, without exposing the whole definition.
proof fn lemma_pow_unfold_once(base: int, e: nat)
    requires
        e >= 1,
    ensures
        pow(base, e) == base * pow(base, (e - 1) as nat),
{
    lemma_pow_adds(base, 1, (e - 1) as nat);
    lemma_pow1(base);
}

/// A digit string's value is never negative.
pub proof fn lemma_digits_value_nonneg(s: Seq<char>, base: int)
    requires
        base >= 0,
    ensures
        digits_value(s, base) >= 0,
    decreases s.len(),
{
    if s.len() > 0 {
        lemma_digits_value_nonneg(s.drop_last(), base);
        lemma_mul_nonnegative(digits_value(s.drop_last(), base), base);
    }
}

/// A string of valid digits has a value below `base` to the power of its length.
pub proof fn lemma_digits_value_bound(s: Seq<char>, base: int)
    requires
        2 <= base,
        forall|i: int| 0 <= i < s.len() ==> is_digit_for(s[i], base),
    ensures
        0 <= digits_value(s, base) < pow(base, s.len()),
    decreases s.len(),
{
    lemma_digits_value_nonneg(s, base);
    if s.len() == 0 {
        lemma_pow0(base);
    } else {
        let t = s.drop_last();
        assert(forall|i: int| 0 <= i < t.len() ==> is_digit_for(#[trigger] t[i], base));
        lemma_digits_value_bound(t, base);
        let p = pow(base, t.len());
        let v = digits_value(t, base);
        lemma_pow_unfold_once(base, s.len());
        lemma_mul_inequality(v, p - 1, base);
        lemma_mul_is_distributive_sub_other_way(base, p, 1);
        lemma_mul_basics(base);
        lemma_mul_is_commutative(p, base);
        assert(digit_value(s.last()) <= base - 1);
    }
}

/// The value of a prefix never exceeds the value of the whole string.
pub proof fn lemma_digits_value_prefix_le(s: Seq<char>, i: int, base: int)
    requires
        2 <= base,
        0 <= i <= s.len(),
    ensures
        digits_value(s.take(i), base) <= digits_value(s, base),
    decreases s.len() - i,
{
    if i < s.len() {
        let t = s.take(i + 1);
        assert(t.drop_last() =~= s.take(i));
        lemma_digits_value_nonneg(s.take(i), base);
        let v = digits_value(s.take(i), base);
        if v > 0 {
            lemma_mul_increases(base, v);
            lemma_mul_is_commutative(base, v);
        } else {
            lemma_mul_basics(base);
        }
        assert(digits_value(t, base) >= digits_value(s.take(i), base));
        lemma_digits_value_prefix_le(s, i + 1, base);
        assert(s.take(s.len() as int) =~= s);
    } else {
        assert(s.take(i) =~= s);
    }
}

/// Every character of a rendering is a canonical digit of the base, and the
/// leading digit is nonzero unless the value itself is zero.
pub proof fn lemma_rendered_digits_wf(n: int, base: int)
    requires
        0 <= n,
        2 <= base <= 16,
    ensures
        rendered_digits(n, base).len() >= 1,
        forall|k: int|
            0 <= k < rendered_digits(n, base).len() ==> {
                &&& 0 <= digit_value(#[trigger] rendered_digits(n, base)[k]) < base
                &&& rendered_digits(n, base)[k] == digit_char(
                    digit_value(rendered_digits(n, base)[k]),
                )
            },
        n >= 1 ==> digit_value(rendered_digits(n, base)[0]) >= 1,
        n == 0 ==> rendered_digits(n, base) =~= seq!['0'],
    decreases n,
{
    if n < base {
        lemma_digit_char_value(n);
    } else {
        let q = n / base;
        let r = n % base;
        lemma_div_pos_is_pos(n, base);
        lemma_div_multiples_vanish(1, base);
        lemma_mul_basics(base);
        lemma_div_is_ordered(base, n, base);
        lemma_div_decreases(n, base);
        lemma_rendered_digits_wf(q, base);
        lemma_digit_char_value(r);
        let rq = rendered_digits(q, base);
        assert(rendered_digits(n, base) =~= rq.push(digit_char(r)));
    }
}

/// Parsing a rendering gives back the value: the format/parse round trip.
pub proof fn lemma_rendered_digits_value(n: int, base: int)
    requires
        0 <= n,
        2 <= base <= 16,
    ensures
        digits_value(rendered_digits(n, base), base) == n,
    decreases n,
{
    if n < base {
        lemma_digit_char_value(n);
        lemma_mul_basics(base);
        assert(rendered_digits(n, base) == seq![digit_char(n)]);
        assert(seq![digit_char(n)].drop_last() =~= Seq::<char>::empty());
        assert(digits_value(seq![digit_char(n)], base) == digits_value(
            Seq::<char>::empty(),
            base,
        ) * base + digit_value(digit_char(n)));
        assert(digits_value(Seq::<char>::empty(), base) == 0);
    } else {
        let q = n / base;
        let r = n % base;
        lemma_div_pos_is_pos(n, base);
        lemma_div_decreases(n, base);
        lemma_rendered_digits_value(q, base);
        lemma_digit_char_value(r);
        let rq = rendered_digits(q, base);
        assert(rendered_digits(n, base) == rq.push(digit_char(r)));
        assert(rq.push(digit_char(r)).drop_last() =~= rq);
        assert(rq.push(digit_char(r)).last() == digit_char(r));
        assert(digits_value(rq.push(digit_char(r)), base) == digits_value(rq, base) * base
            + digit_value(digit_char(r)));
        lemma_fundamental_div_mod(n, base);
        lemma_mul_is_commutative(q, base);
        assert(digits_value(rendered_digits(n, base), base) == q * base + r);
    }
}

/// A value between two neighbouring powers of the base renders with exactly
/// as many digits as the exponent of the upper power.
pub proof fn lemma_rendered_digits_len(n: int, base: int, k: nat)
    requires
        2 <= base <= 16,
        k >= 1,
        pow(base, (k - 1) as nat) <= n < pow(base, k),
    ensures
        rendered_digits(n, base).len() == k,
    decreases k,
{
    if k == 1 {
        lemma_pow0(base);
        lemma_pow1(base);
    } else {
        let q = n / base;
        let pk1 = pow(base, (k - 1) as nat);
        let pk2 = pow(base, (k - 2) as nat);
        lemma_pow_unfold_once(base, (k - 1) as nat);
        lemma_pow_unfold_once(base, k);
        lemma_pow_positive(base, (k - 2) as nat);
        lemma_mul_inequality(1, pk2, base);
        lemma_mul_basics(base);
        lemma_mul_is_commutative(pk2, base);
        assert(pk1 >= base);
        lemma_div_multiples_vanish(pk2, base);
        lemma_div_is_ordered(base * pk2, n, base);
        lemma_mul_is_commutative(pk1, base);
        lemma_multiply_divide_lt(n, base, pk1);
        lemma_div_pos_is_pos(n, base);
        lemma_rendered_digits_len(q, base, (k - 1) as nat);
        lemma_div_decreases(n, base);
        assert(rendered_digits(n, base) =~= rendered_digits(q, base).push(
            digit_char(n % base),
        ));
    }
}

/// A value below a power of the base renders with no more digits than the
/// exponent of that power.
pub proof fn lemma_rendered_digits_len_le(n: int, base: int, k: nat)
    requires
        2 <= base <= 16,
        k >= 1,
        0 <= n < pow(base, k),
    ensures
        rendered_digits(n, base).len() <= k,
    decreases k,
{
    if n < base {
    } else {
        lemma_pow1(base);
        if k == 1 {
            assert(false);
        } else {
            let q = n / base;
            let pk1 = pow(base, (k - 1) as nat);
            lemma_pow_unfold_once(base, k);
            lemma_mul_is_commutative(pk1, base);
            lemma_multiply_divide_lt(n, base, pk1);
            lemma_div_pos_is_pos(n, base);
            lemma_rendered_digits_len_le(q, base, (k - 1) as nat);
            lemma_div_decreases(n, base);
            assert(rendered_digits(n, base) =~= rendered_digits(q, base).push(
                digit_char(n % base),
            ));
        }
    }
}

/// A digit string's value, split at its first (most significant) digit.
pub proof fn lemma_digits_value_split_first(s: Seq<char>, base: int)
    requires
        2 <= base,
        s.len() >= 1,
    ensures
        digits_value(s, base) == digit_value(s[0]) * pow(base, (s.len() - 1) as nat)
            + digits_value(s.skip(1), base),
    decreases s.len(),
{
    if s.len() == 1 {
        assert(s.drop_last() =~= Seq::<char>::empty());
        assert(s.skip(1) =~= Seq::<char>::empty());
        lemma_pow0(base);
        lemma_mul_basics(digit_value(s[0]));
    } else {
        let t = s.drop_last();
        let d0 = digit_value(s[0]);
        let e = (s.len() - 2) as nat;
        let pe = pow(base, e);
        let dl = digit_value(s.last());
        let dvt1 = digits_value(t.skip(1), base);
        lemma_digits_value_split_first(t, base);
        assert(t[0] == s[0]);
        assert(digits_value(t, base) == d0 * pe + dvt1);
        assert(digits_value(s, base) == (d0 * pe + dvt1) * base + dl);
        lemma_mul_is_distributive_add_other_way(base, d0 * pe, dvt1);
        assert((d0 * pe + dvt1) * base == (d0 * pe) * base + dvt1 * base);
        lemma_mul_is_associative(d0, pe, base);
        lemma_mul_is_commutative(pe, base);
        lemma_pow_unfold_once(base, (s.len() - 1) as nat);
        assert((d0 * pe) * base == d0 * pow(base, (s.len() - 1) as nat));
        assert(s.skip(1).drop_last() =~= t.skip(1));
        assert(s.skip(1).last() == s.last());
        assert(digits_value(s.skip(1), base) == dvt1 * base + dl);
    }
}

/// Digit value of a character, if it is a digit of the base.
pub fn char_to_digit(c: char, base: u32) -> (r: Option<u32>)
    requires
        2 <= base <= 16,
    ensures
        match r {
            Some(d) => is_digit_for(c, base as int) && d == digit_value(c),
            None => !is_digit_for(c, base as int),
        },
{
    let v: u32 = match c {
        '0' => 0,
        '1' => 1,
        '2' => 2,
        '3' => 3,
        '4' => 4,
        '5' => 5,
        '6' => 6,
        '7' => 7,
        '8' => 8,
        '9' => 9,
        'A' | 'a' => 10,
        'B' | 'b' => 11,
        'C' | 'c' => 12,
        'D' | 'd' => 13,
        'E' | 'e' => 14,
        'F' | 'f' => 15,
        _ => 16,
    };
    if v < base {
        Some(v)
    } else {
        None
    }
}

/// One-character string for a digit value, upper-case.
pub fn digit_str(d: u32) -> (r: &'static str)
    requires
        d < 16,
    ensures
        r@ =~= seq![digit_char(d as int)],
{
    proof {
        reveal_strlit("0");
        reveal_strlit("1");
        reveal_strlit("2");
        reveal_strlit("3");
        reveal_strlit("4");
        reveal_strlit("5");
        reveal_strlit("6");
        reveal_strlit("7");
        reveal_strlit("8");
        reveal_strlit("9");
        reveal_strlit("A");
        reveal_strlit("B");
        reveal_strlit("C");
        reveal_strlit("D");
        reveal_strlit("E");
        reveal_strlit("F");
    }
    match d {
        0 => "0",
        1 => "1",
        2 => "2",
        3 => "3",
        4 => "4",
        5 => "5",
        6 => "6",
        7 => "7",
        8 => "8",
        9 => "9",
        10 => "A",
        11 => "B",
        12 => "C",
        13 => "D",
        14 => "E",
        15 => "F",
        _ => {
            proof {
                assert(false);
            }
            "0"
        },
    }
}

/// Parse a digit string as an unsigned 128-bit value in the given base.
/// Fails exactly when the string is empty, holds a character outside the
/// base's alphabet, or its value exceeds 128 bits.
pub fn parse_digits(s: &str, base: u32) -> (r: Result<u128, ConversionError>)
    requires
        2 <= base <= 16,
    ensures
        match r {
            Ok(v) => {
                &&& s@.len() > 0
                &&& forall|i: int| 0 <= i < s@.len() ==> is_digit_for(s@[i], base as int)
                &&& v == digits_value(s@, base as int)
            },
            Err(e) => {
                &&& e == ConversionError::MalformedDigits
                &&& {
                    ||| s@.len() == 0
                    ||| exists|i: int| 0 <= i < s@.len() && !is_digit_for(s@[i], base as int)
                    ||| digits_value(s@, base as int) > u128::MAX
                }
            },
        },
{
    let n = s.unicode_len();
    if n == 0 {
        return Err(ConversionError::MalformedDigits);
    }
    let mut acc: u128 = 0;
    let mut i: usize = 0;
    while i < n
        invariant
            2 <= base <= 16,
            n == s@.len(),
            0 <= i <= n,
            forall|j: int| 0 <= j < i ==> is_digit_for(s@[j], base as int),
            acc == digits_value(s@.take(i as int), base as int),
        decreases n - i,
    {
        let c = s.get_char(i);
        match char_to_digit(c, base) {
            None => {
                return Err(ConversionError::MalformedDigits);
            },
            Some(d) => {
                let b = base as u128;
                let dd = d as u128;
                let limit = (u128::MAX - dd) / b;
                proof {
                    lemma_digits_value_nonneg(s@.take(i as int), base as int);
                }
                if acc > limit {
                    proof {
                        let m = u128::MAX as int;
                        let bi = base as int;
                        let di = d as int;
                        let q = (m - di) / bi;
                        lemma_fundamental_div_mod(m - di, bi);
                        // acc >= q + 1, so acc * base >= (q + 1) * base > m - di
                        lemma_mul_inequality(q + 1, acc as int, bi);
                        lemma_mul_is_distributive_add_other_way(bi, q, 1);
                        lemma_mul_basics(bi);
                        lemma_mul_is_commutative(q, bi);
                        lemma_mul_is_commutative(acc as int, bi);
                        assert(acc as int * bi + di > m);
                        let t = s@.take(i + 1 as int);
                        assert(t.drop_last() =~= s@.take(i as int));
                        assert(digits_value(t, bi) > m);
                        lemma_digits_value_prefix_le(s@, i + 1 as int, bi);
                    }
                    return Err(ConversionError::MalformedDigits);
                }
                proof {
                    let m = u128::MAX as int;
                    let bi = base as int;
                    let di = d as int;
                    let q = (m - di) / bi;
                    lemma_fundamental_div_mod(m - di, bi);
                    lemma_mul_inequality(acc as int, q, bi);
                    lemma_mul_is_commutative(q, bi);
                    lemma_mul_is_commutative(acc as int, bi);
                    assert(acc as int * bi + di <= m);
                }
                let new_acc = acc * b + dd;
                proof {
                    let t = s@.take(i + 1 as int);
                    assert(t.drop_last() =~= s@.take(i as int));
                    assert(t.last() == s@[i as int]);
                }
                acc = new_acc;
            },
        }
        i = i + 1;
    }
    proof {
        assert(s@.take(n as int) =~= s@);
    }
    Ok(acc)
}

/// Sequence of digit characters of a digit-value list read in reverse order,
/// least significant digit last.
spec fn rev_digit_chars(rev: Seq<u32>) -> Seq<char> {
    Seq::new(rev.len(), |k: int| digit_char(rev[rev.len() - 1 - k] as int))
}

/// Render an unsigned 128-bit value as its minimal digit string in the given
/// base, upper-case.
pub fn render_digits(n: u128, base: u32) -> (r: String)
    requires
        2 <= base <= 16,
    ensures
        r@ == rendered_digits(n as int, base as int),
{
    let b = base as u128;
    let mut rev: Vec<u32> = Vec::new();
    let mut m: u128 = n;
    while m >= b
        invariant
            2 <= base <= 16,
            b == base as u128,
            forall|k: int| 0 <= k < rev@.len() ==> #[trigger] rev@[k] < base,
            rendered_digits(n as int, base as int) =~= rendered_digits(m as int, base as int)
                + rev_digit_chars(rev@),
        decreases m,
    {
        let d = (m % b) as u32;
        let q = m / b;
        proof {
            lemma_div_pos_is_pos(m as int, b as int);
            lemma_div_decreases(m as int, b as int);
            let old_chars = rev_digit_chars(rev@);
            assert(rendered_digits(m as int, base as int) =~= rendered_digits(
                q as int,
                base as int,
            ).push(digit_char(d as int)));
            assert(rev_digit_chars(rev@.push(d)) =~= seq![digit_char(d as int)] + old_chars);
            assert(rendered_digits(q as int, base as int) + rev_digit_chars(rev@.push(d))
                =~= (rendered_digits(q as int, base as int) + seq![digit_char(d as int)])
                + old_chars);
            assert(rendered_digits(q as int, base as int).push(digit_char(d as int))
                =~= rendered_digits(q as int, base as int) + seq![digit_char(d as int)]);
        }
        rev.push(d);
        m = q;
    }
    let d = m as u32;
    proof {
        assert(rendered_digits(m as int, base as int) =~= seq![digit_char(d as int)]);
        assert(rev_digit_chars(rev@.push(d)) =~= seq![digit_char(d as int)]
            + rev_digit_chars(rev@));
    }
    rev.push(d);
    let ghost target = rendered_digits(n as int, base as int);
    proof {
        assert(target =~= rev_digit_chars(rev@));
    }
    let mut out = String::new();
    let mut i: usize = rev.len();
    while i > 0
        invariant
            0 <= i <= rev@.len(),
            forall|k: int| 0 <= k < rev@.len() ==> #[trigger] rev@[k] < 16,
            target == rev_digit_chars(rev@),
            out@ =~= target.take(rev@.len() - i),
        decreases i,
    {
        i = i - 1;
        let ds = digit_str(rev[i]);
        out.append(ds);
        proof {
            assert(target[rev@.len() - 1 - i] == digit_char(rev@[i as int] as int));
            assert(out@ =~= target.take(rev@.len() - i));
        }
    }
    proof {
        assert(target.take(rev@.len() as int) =~= target);
    }
    out
}

} // verus!
