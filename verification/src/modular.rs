//! Overflow-safe modular arithmetic on `u128`: addition, multiplication and
//! exponentiation modulo `m`, and Euclid's greatest common divisor.
//!
//! Every routine works for the whole `u128` range: no intermediate value ever
//! exceeds the modulus, so nothing can wrap.

use vstd::arithmetic::div_mod::{
    lemma_add_mod_noop, lemma_fundamental_div_mod, lemma_fundamental_div_mod_converse,
    lemma_mod_multiples_vanish, lemma_mul_mod_noop_general, lemma_small_mod,
};
use vstd::arithmetic::mul::lemma_mul_is_associative;
use vstd::arithmetic::power::{
    lemma_pow0, lemma_pow1, lemma_pow_adds, lemma_pow_mod_noop, lemma_pow_multiplies, pow,
};
use vstd::prelude::*;

verus! {

/// The greatest common divisor by Euclid's recurrence, with `gcd(a, 0) = a`.
pub open spec fn gcd_spec(a: nat, b: nat) -> nat
    decreases b,
{
    if b == 0 {
        a
    } else {
        gcd_spec(b, a % b)
    }
}

/// `d` divides `n`: some multiple of `d` is `n`.
pub open spec fn divides(d: nat, n: nat) -> bool {
    exists|k: nat| n == #[trigger] (d * k)
}

/// For a positive divisor, divisibility is a zero remainder.
pub proof fn lemma_divides_iff_mod(d: nat, n: nat)
    requires
        d > 0,
    ensures
        divides(d, n) <==> n % d == 0,
{
    if n % d == 0 {
        lemma_fundamental_div_mod(n as int, d as int);
        assert(n == d * (n / d));
    }
    if divides(d, n) {
        let k = choose|k: nat| n == #[trigger] (d * k);
        lemma_mod_multiples_vanish(k as int, 0, d as int);
        lemma_small_mod(0, d);
    }
}

/// A common divisor of `a` and `b` also divides `a % b`.
proof fn lemma_divides_remainder(d: nat, a: nat, b: nat)
    requires
        b > 0,
        divides(d, a),
        divides(d, b),
    ensures
        divides(d, a % b),
{
    let ka = choose|k: nat| a == #[trigger] (d * k);
    let kb = choose|k: nat| b == #[trigger] (d * k);
    let q = a / b;
    lemma_fundamental_div_mod(a as int, b as int);
    let r = a % b;
    let k = ka - kb * q;
    assert(r == d * k) by (nonlinear_arith)
        requires
            a == b * q + r,
            a == d * ka,
            b == d * kb,
            k == ka - kb * q,
    ;
    if k < 0 {
        assert(d * k <= 0) by (nonlinear_arith)
            requires
                k < 0,
                d >= 0,
        ;
        assert(r == d * 0nat);
    } else {
        assert(r == d * (k as nat));
    }
}

/// A common divisor of `b` and `a % b` also divides `a`.
proof fn lemma_divides_dividend(d: nat, a: nat, b: nat)
    requires
        b > 0,
        divides(d, b),
        divides(d, a % b),
    ensures
        divides(d, a),
{
    let kb = choose|k: nat| b == #[trigger] (d * k);
    let kr = choose|k: nat| a % b == #[trigger] (d * k);
    let q = a / b;
    lemma_fundamental_div_mod(a as int, b as int);
    let r = a % b;
    assert(a == d * (kb * q + kr)) by (nonlinear_arith)
        requires
            a == b * q + r,
            b == d * kb,
            r == d * kr,
    ;
}

/// The value of [`gcd_spec`] divides both of its arguments.
pub proof fn lemma_gcd_divides(a: nat, b: nat)
    ensures
        divides(gcd_spec(a, b), a),
        divides(gcd_spec(a, b), b),
    decreases b,
{
    let g = gcd_spec(a, b);
    if b == 0 {
        assert(a == g * 1nat);
        assert(b == g * 0nat);
    } else {
        lemma_gcd_divides(b, a % b);
        lemma_divides_dividend(g, a, b);
    }
}

/// Every common divisor of `a` and `b` divides [`gcd_spec`]`(a, b)`, which is
/// therefore the greatest of them.
pub proof fn lemma_gcd_is_greatest(a: nat, b: nat, d: nat)
    requires
        divides(d, a),
        divides(d, b),
    ensures
        divides(d, gcd_spec(a, b)),
    decreases b,
{
    if b != 0 {
        lemma_divides_remainder(d, a, b);
        lemma_gcd_is_greatest(b, a % b, d);
    }
}

/// The greatest common divisor is zero only when both arguments are.
pub proof fn lemma_gcd_positive(a: nat, b: nat)
    requires
        a > 0 || b > 0,
    ensures
        gcd_spec(a, b) > 0,
    decreases b,
{
    if b != 0 {
        lemma_gcd_positive(b, a % b);
    }
}

/// A divisor of a positive number is positive and no larger than it.
pub proof fn lemma_divisor_bounds(d: nat, n: nat)
    requires
        n > 0,
        divides(d, n),
    ensures
        1 <= d <= n,
{
    let k = choose|k: nat| n == #[trigger] (d * k);
    assert(1 <= d <= n) by (nonlinear_arith)
        requires
            n == d * k,
            n > 0,
    ;
}

/// Euclid's algorithm: the greatest common divisor of `a` and `b`.
pub fn gcd(a: u128, b: u128) -> (g: u128)
    ensures
        g == gcd_spec(a as nat, b as nat),
        divides(g as nat, a as nat),
        divides(g as nat, b as nat),
    decreases b,
{
    proof {
        lemma_gcd_divides(a as nat, b as nat);
    }
    if b == 0 {
        a
    } else {
        gcd(b, a % b)
    }
}

/// `(x + y) mod m` for two residues, without forming `x + y`.
pub fn add_mod(x: u128, y: u128, m: u128) -> (r: u128)
    requires
        x < m,
        y < m,
    ensures
        r == (x + y) % (m as int),
        r < m,
{
    if x >= m - y {
        proof {
            lemma_fundamental_div_mod_converse(x + y, m as int, 1, x + y - m);
        }
        x - (m - y)
    } else {
        proof {
            lemma_small_mod((x + y) as nat, m as nat);
        }
        x + y
    }
}

/// One round of double-and-add keeps `acc + a * b` unchanged modulo `m`.
proof fn lemma_double_and_add(acc: int, a: int, b: int, m: int)
    requires
        m > 0,
        b >= 0,
    ensures
        ((acc + a * (b % 2)) % m + ((a + a) % m) * (b / 2)) % m == (acc + a * b) % m,
{
    let q = b / 2;
    let r = b % 2;
    lemma_fundamental_div_mod(b, 2);
    assert(acc + a * b == (acc + a * r) + (a + a) * q) by (nonlinear_arith)
        requires
            b == 2 * q + r,
    ;
    lemma_mul_mod_noop_general(a + a, q, m);
    lemma_add_mod_noop(acc + a * r, (a + a) * q, m);
    lemma_add_mod_noop((acc + a * r) % m, ((a + a) % m) * q, m);
    lemma_mod_mod_same((acc + a * r), m);
}

/// Reducing twice is reducing once.
proof fn lemma_mod_mod_same(x: int, m: int)
    requires
        m > 0,
    ensures
        (x % m) % m == x % m,
{
    lemma_small_mod((x % m) as nat, m as nat);
}

/// `(a * b) mod m` by double-and-add over the bits of `b`.
///
/// The product itself is never formed, so the result is exact for every
/// modulus in `1..=u128::MAX`.
pub fn mod_mul(a: u128, b: u128, m: u128) -> (r: u128)
    requires
        m >= 1,
    ensures
        r == (a as int * b as int) % (m as int),
        r < m,
{
    let ghost a0 = a as int;
    let ghost b0 = b as int;
    let mut result: u128 = 0;
    let mut a: u128 = a % m;
    let mut b: u128 = b;
    proof {
        lemma_mul_mod_noop_general(a0, b0, m as int);
    }
    while b > 0
        invariant
            m >= 1,
            a < m,
            result < m,
            (result + a * b) % (m as int) == (a0 * b0) % (m as int),
        decreases b,
    {
        let ghost acc = result as int;
        let ghost a1 = a as int;
        let ghost b1 = b as int;
        assert(b & 1 == b % 2) by (bit_vector);
        assert(b >> 1 == b / 2) by (bit_vector);
        if b & 1 == 1 {
            result = add_mod(result, a, m);
        }
        a = add_mod(a, a, m);
        b >>= 1;
        proof {
            lemma_double_and_add(acc, a1, b1, m as int);
            if b1 % 2 == 1 {
                assert(a1 * (b1 % 2) == a1) by (nonlinear_arith)
                    requires
                        b1 % 2 == 1,
                ;
            } else {
                assert(a1 * (b1 % 2) == 0) by (nonlinear_arith)
                    requires
                        b1 % 2 == 0,
                ;
                lemma_small_mod(acc as nat, m as nat);
            }
        }
    }
    proof {
        assert(a * b == 0) by (nonlinear_arith)
            requires
                b == 0,
        ;
        lemma_small_mod(result as nat, m as nat);
    }
    result
}

/// `base` to the power `exp`, reduced modulo `m`.
pub open spec fn pow_mod(base: nat, exp: nat, m: nat) -> nat {
    (pow(base as int, exp) % (m as int)) as nat
}

/// One round of square-and-multiply keeps `acc * base^exp` unchanged modulo `m`.
proof fn lemma_square_and_multiply(acc: int, base: int, exp: nat, m: int)
    requires
        m > 0,
    ensures
        exp % 2 == 1 ==> (((acc * base) % m) * pow((base * base) % m, exp / 2)) % m == (acc * pow(
            base,
            exp,
        )) % m,
        exp % 2 == 0 ==> (acc * pow((base * base) % m, exp / 2)) % m == (acc * pow(base, exp)) % m,
{
    let q = exp / 2;
    let sq = base * base;
    // pow(base, 2 * q) == pow(base * base, q)
    lemma_pow_multiplies(base, 2, q);
    assert(pow(base, 2) == base * base) by {
        lemma_pow1(base);
        lemma_pow_adds(base, 1, 1);
    }
    assert(pow(sq, q) == pow(base, 2 * q));
    lemma_pow_mod_noop(sq, q, m);
    if exp % 2 == 1 {
        assert(exp == 2 * q + 1);
        lemma_pow_adds(base, 1, 2 * q);
        lemma_pow1(base);
        assert(pow(base, exp) == base * pow(sq, q));
        lemma_mul_is_associative(acc, base, pow(sq, q));
        lemma_mul_mod_noop_general(acc * base, pow(sq, q), m);
        lemma_mul_mod_noop_general((acc * base) % m, pow(sq % m, q), m);
        lemma_mod_mod_same(acc * base, m);
    } else {
        assert(exp == 2 * q);
        lemma_mul_mod_noop_general(acc, pow(sq, q), m);
        lemma_mul_mod_noop_general(acc, pow(sq % m, q), m);
    }
}

/// `base^exp mod modulus` by square-and-multiply over the bits of `exp`,
/// least significant first. Every product goes through [`mod_mul`].
pub fn mod_pow(base: u128, exp: u128, modulus: u128) -> (r: u128)
    requires
        modulus >= 1,
    ensures
        r == pow_mod(base as nat, exp as nat, modulus as nat),
        r < modulus,
        modulus == 1 ==> r == 0,
{
    let ghost base0 = base as int;
    let ghost exp0 = exp as nat;
    let ghost m = modulus as int;
    if modulus == 1 {
        return 0;
    }
    let mut result: u128 = 1;
    let mut base: u128 = base % modulus;
    let mut exp: u128 = exp;
    proof {
        lemma_pow_mod_noop(base0, exp0, m);
        assert(1 * pow(base as int, exp as nat) == pow(base as int, exp as nat));
    }
    while exp > 0
        invariant
            modulus > 1,
            m == modulus,
            base < modulus,
            result < modulus,
            (result * pow(base as int, exp as nat)) % m == pow(base0, exp0) % m,
        decreases exp,
    {
        let ghost acc = result as int;
        let ghost b1 = base as int;
        let ghost e1 = exp as nat;
        assert(exp & 1 == exp % 2) by (bit_vector);
        assert(exp >> 1 == exp / 2) by (bit_vector);
        if exp & 1 == 1 {
            result = mod_mul(result, base, modulus);
        }
        exp >>= 1;
        base = mod_mul(base, base, modulus);
        proof {
            lemma_square_and_multiply(acc, b1, e1, m);
        }
    }
    proof {
        lemma_pow0(base as int);
        assert(result * 1 == result);
        lemma_small_mod(result as nat, modulus as nat);
        assert(pow(base0, exp0) % m >= 0) by {
            lemma_mod_nonnegative(pow(base0, exp0), m);
        }
    }
    result
}

/// A remainder by a positive modulus lies in `0..m`.
proof fn lemma_mod_nonnegative(x: int, m: int)
    requires
        m > 0,
    ensures
        0 <= x % m < m,
{
    lemma_fundamental_div_mod(x, m);
    vstd::arithmetic::div_mod::lemma_mod_bound(x, m);
}

} // verus!
