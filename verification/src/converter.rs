//! Conversion of a number from one base to another.
//!
//! The number is written as its digits followed by its base in brackets, as
//! in `1010(2)`. Digits are not checked against the base: a character counts
//! for its distance from `0`, and in a base above 10 the letters `a` to `f`
//! count for 10 to 15.

use crate::text::{chars_of, parse_u32, parsed_u32, pieces, split, string_of, views};
use vstd::arithmetic::power::{lemma_pow0, lemma_pow1, lemma_pow_adds, pow};
use vstd::prelude::*;

verus! {

/// The largest base to convert to for which the character of every digit can
/// be worked out in `i32`.
pub const MAX_BASE: u32 = 2_147_483_560;

/// What the character `c` counts for as a digit in `base`.
pub open spec fn digit_of(c: char, base: int) -> int {
    if base > 10 && 'a' <= c <= 'f' {
        c as int - 'a' as int + 10
    } else {
        c as int - '0' as int
    }
}

/// The number that the digits `s` stand for in `base`: each digit times the
/// power of the base that belongs to its place.
pub open spec fn number_of(s: Seq<char>, base: int) -> int
    decreases s.len(),
{
    if s.len() == 0 {
        0
    } else {
        number_of(s.drop_first(), base) + digit_of(s[0], base) * pow(base, (s.len() - 1) as nat)
    }
}

/// `x` is a value of `i32`.
pub open spec fn fits_i32(x: int) -> bool {
    i32::MIN <= x <= i32::MAX
}

/// Reading `s` from its last digit to its first stays within `i32`: each
/// digit times its power, each sum, and the power of the base for the place
/// after each digit.
pub open spec fn readable(s: Seq<char>, base: int) -> bool
    decreases s.len(),
{
    if s.len() == 0 {
        true
    } else {
        &&& readable(s.drop_first(), base)
        &&& fits_i32(digit_of(s[0], base) * pow(base, (s.len() - 1) as nat))
        &&& fits_i32(number_of(s, base))
        &&& fits_i32(pow(base, s.len()))
    }
}

/// The quotient of `a` by `b`, rounded towards zero.
pub open spec fn quotient(a: int, b: int) -> int {
    if a >= 0 {
        a / b
    } else {
        -((-a) / b)
    }
}

/// The remainder of `a` by `b` that goes with [`quotient`]: it has the sign
/// of `a`.
pub open spec fn remainder(a: int, b: int) -> int {
    if a >= 0 {
        a % b
    } else {
        -((-a) % b)
    }
}

/// The character for the digit `d`: `0` to `9`, then `a` and what follows it.
/// A digit outside the range of a byte is cut down to one.
pub open spec fn digit_char(d: int) -> char {
    if d < 10 {
        ((d + '0' as int) as i32 as u8) as char
    } else {
        ((d - 10 + 'a' as int) as i32 as u8) as char
    }
}

/// The digits of `value` in `base`, the most significant first, and nothing
/// for 0.
pub open spec fn digits_in(value: int, base: int) -> Seq<char>
    decreases (if value >= 0 {
        value
    } else {
        -value
    }),
    via digits_in_decreases
{
    if value == 0 || base < 2 {
        Seq::empty()
    } else {
        digits_in(quotient(value, base), base).push(digit_char(remainder(value, base)))
    }
}

/// The quotient is nearer to zero, so [`digits_in`] comes to an end.
#[via_fn]
proof fn digits_in_decreases(value: int, base: int) {
    if value != 0 && base >= 2 {
        lemma_quotient_smaller(value, base);
    }
}

/// A quotient by 2 or more is nearer to zero than the number.
proof fn lemma_quotient_smaller(value: int, base: int)
    requires
        value != 0,
        base >= 2,
    ensures
        value > 0 ==> 0 <= quotient(value, base) < value,
        value < 0 ==> value < quotient(value, base) <= 0,
        -base < remainder(value, base) < base,
{
    let a = if value >= 0 {
        value
    } else {
        -value
    };
    vstd::arithmetic::div_mod::lemma_fundamental_div_mod(a, base);
    vstd::arithmetic::div_mod::lemma_mod_bound(a, base);
    let q = a / base;
    assert(0 <= q < a) by (nonlinear_arith)
        requires
            a == base * q + a % base,
            0 <= a % base < base,
            a > 0,
            base >= 2,
    ;
}

/// `s` without the characters `c` at its end.
pub open spec fn trimmed_end(s: Seq<char>, c: char) -> Seq<char>
    decreases s.len(),
{
    if s.len() > 0 && s.last() == c {
        trimmed_end(s.drop_last(), c)
    } else {
        s
    }
}

/// What [`convert_base`] answers for the text `num_str` and the base
/// `to_base`, and `None` where it has no answer: where the base in the
/// brackets is no number, where reading the digits overflows, and where
/// `to_base` is below 2 or above [`MAX_BASE`].
pub open spec fn conversion(num_str: Seq<char>, to_base: int) -> Option<Seq<char>> {
    let parts = pieces(trimmed_end(num_str, ')'), '(');
    if parts.len() != 2 {
        Some(Seq::empty())
    } else {
        match parsed_u32(parts[1]) {
            None => None,
            Some(base) => if base < 2 || base > 16 {
                Some(Seq::empty())
            } else if !readable(parts[0], base as int) || to_base < 2 || to_base > MAX_BASE {
                None
            } else {
                Some(digits_in(number_of(parts[0], base as int), to_base))
            },
        }
    }
}

/// Where a part of the digits cannot be read, the whole cannot.
proof fn lemma_readable_suffix(s: Seq<char>, base: int, i: int)
    requires
        0 <= i <= s.len(),
        readable(s, base),
    ensures
        readable(s.skip(i), base),
    decreases i,
{
    if i > 0 {
        assert(s.drop_first().skip(i - 1) =~= s.skip(i));
        lemma_readable_suffix(s.drop_first(), base, i - 1);
    } else {
        assert(s.skip(0) =~= s);
    }
}

/// The number of the character `c`.
pub fn code_of(c: char) -> (code: u32)
    ensures
        code == c as int,
        code <= 0x10FFFF,
{
    c as u32
}

/// Reads the digits `chars` as a number in `base`, from the last to the
/// first, and gives `None` if that overflows.
pub fn try_str_to_int(chars: &Vec<char>, base: u32) -> (value: Option<i32>)
    requires
        2 <= base <= 16,
    ensures
        value is Some <==> readable(chars@, base as int),
        value is Some ==> value->0 == number_of(chars@, base as int),
{
    let mut result: i32 = 0;
    let mut power: i32 = 1;
    let mut i: usize = chars.len();
    proof {
        assert(chars@.skip(i as int) =~= Seq::<char>::empty());
        lemma_pow0(base as int);
    }
    while i > 0
        invariant
            2 <= base <= 16,
            i <= chars.len(),
            result == number_of(chars@.skip(i as int), base as int),
            power == pow(base as int, (chars.len() - i) as nat),
            readable(chars@.skip(i as int), base as int),
        decreases i,
    {
        let ghost suffix = chars@.skip(i as int);
        i -= 1;
        let c = chars[i];
        let ghost next = chars@.skip(i as int);
        proof {
            assert(next.drop_first() =~= suffix);
            assert(next[0] == c);
            lemma_pow1(base as int);
            lemma_pow_adds(base as int, 1, suffix.len());
            assert(pow(base as int, next.len()) == power * base) by (nonlinear_arith)
                requires
                    pow(base as int, next.len()) == base * pow(base as int, suffix.len()),
                    power == pow(base as int, suffix.len()),
            ;
            assert(number_of(next, base as int) == result + digit_of(c, base as int) * power);
            if readable(chars@, base as int) {
                lemma_readable_suffix(chars@, base as int, i as int);
            }
        }
        let code = code_of(c);
        let digit: i32 = if base > 10 && c >= 'a' && c <= 'f' {
            code as i32 - 'a' as i32 + 10
        } else {
            code as i32 - '0' as i32
        };
        let term = match digit.checked_mul(power) {
            Some(t) => t,
            None => {
                return None;
            },
        };
        result = match result.checked_add(term) {
            Some(r) => r,
            None => {
                return None;
            },
        };
        power = match power.checked_mul(base as i32) {
            Some(p) => p,
            None => {
                return None;
            },
        };
    }
    proof {
        assert(chars@.skip(0) =~= chars@);
    }
    Some(result)
}

/// The number that the digits `num` stand for in `base`.
pub fn str_to_int(num: &str, base: u32) -> (value: i32)
    requires
        2 <= base <= 16,
        readable(num@, base as int),
    ensures
        value == number_of(num@, base as int),
{
    let chars = chars_of(num);
    try_str_to_int(&chars, base).unwrap()
}

/// Writes `value` in `base`, the most significant digit first: nothing for
/// 0.
pub fn digits_of(value: i32, base: i32) -> (digits: Vec<char>)
    requires
        2 <= base <= MAX_BASE,
    ensures
        digits@ == digits_in(value as int, base as int),
{
    let mut val = value;
    let mut result: Vec<char> = Vec::new();
    while val != 0
        invariant
            2 <= base <= MAX_BASE,
            digits_in(val as int, base as int) + result@.reverse() == digits_in(
                value as int,
                base as int,
            ),
        decreases (if val >= 0 {
            val as int
        } else {
            -val
        }),
    {
        proof {
            lemma_quotient_smaller(val as int, base as int);
        }
        let rem = val % base;
        let next = val / base;
        let code = if rem < 10 {
            rem + '0' as i32
        } else {
            rem - 10 + 'a' as i32
        };
        let ghost before = result@;
        let digit = code as u8 as char;
        result.push(digit);
        proof {
            assert(rem == remainder(val as int, base as int));
            assert(next == quotient(val as int, base as int));
            assert(digit == digit_char(remainder(val as int, base as int)));
            assert(before.push(digit).reverse() =~= seq![digit] + before.reverse());
            assert(digits_in(quotient(val as int, base as int), base as int).push(digit)
                + before.reverse() =~= digits_in(quotient(val as int, base as int), base as int)
                + (seq![digit] + before.reverse()));
        }
        val = next;
    }
    proof {
        assert(Seq::<char>::empty() + result@.reverse() =~= result@.reverse());
    }
    reversed(&result)
}

/// The elements of `v` in reverse order.
fn reversed(v: &Vec<char>) -> (r: Vec<char>)
    ensures
        r@ == v@.reverse(),
{
    let mut r: Vec<char> = Vec::new();
    let mut i: usize = v.len();
    while i > 0
        invariant
            i <= v.len(),
            r@.len() == v.len() - i,
            forall|k: int| 0 <= k < r@.len() ==> r@[k] == v@[v.len() - 1 - k],
        decreases i,
    {
        i -= 1;
        r.push(v[i]);
    }
    proof {
        assert(r@ =~= v@.reverse());
    }
    r
}

/// `chars` without the characters `c` at its end.
fn trim_end(chars: &mut Vec<char>, c: char)
    ensures
        final(chars)@ == trimmed_end(old(chars)@, c),
{
    while chars.len() > 0 && chars[chars.len() - 1] == c
        invariant
            trimmed_end(chars@, c) == trimmed_end(old(chars)@, c),
        decreases chars@.len(),
    {
        chars.pop();
    }
}

/// The answer of [`convert_base`], or `None` where it has none: see
/// [`conversion`].
pub fn try_convert_base(num_str: &str, to_base: u32) -> (converted: Option<String>)
    ensures
        match conversion(num_str@, to_base as int) {
            Some(text) => converted is Some && converted->0@ == text,
            None => converted is None,
        },
{
    let mut chars = chars_of(num_str);
    trim_end(&mut chars, ')');
    let num = split(&chars, '(');
    if num.len() != 2 {
        return Some(String::new());
    }
    proof {
        assert(views(num@)[0] == num@[0]@);
        assert(views(num@)[1] == num@[1]@);
    }
    let base = match parse_u32(&num[1]) {
        Some(base) => base,
        None => {
            return None;
        },
    };
    if base < 2 || base > 16 {
        return Some(String::new());
    }
    let val = match try_str_to_int(&num[0], base) {
        Some(val) => val,
        None => {
            return None;
        },
    };
    if to_base < 2 || to_base > MAX_BASE {
        return None;
    }
    let result = digits_of(val, to_base as i32);
    Some(string_of(&result))
}

/// Converts the number written in `num_str`, as digits followed by their
/// base in brackets, to the base `to_base`.
///
/// The answer is empty where `num_str` does not have that form, where its
/// base is not one of 2 to 16, and for the number 0.
pub fn convert_base(num_str: &str, to_base: u32) -> (converted: String)
    requires
        conversion(num_str@, to_base as int) is Some,
    ensures
        converted@ == conversion(num_str@, to_base as int)->0,
{
    try_convert_base(num_str, to_base).unwrap()
}

} // verus!
