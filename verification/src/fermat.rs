//! Why the Miller–Rabin test accepts every prime.
//!
//! The argument is the classical one. By Bézout's identity a prime that
//! divides a product divides one of its factors. So modulo a prime `p` the
//! only square roots of 1 are 1 and `p - 1`, and multiplying the numbers
//! `1..p` by some `a` among them only rearranges them, which gives Fermat's
//! little theorem: `a^(p - 1) = 1`. With `p - 1 = d * 2^s`, the powers
//! `a^d, a^(2d), ..` modulo `p` therefore end in 1 after `s` squarings, and
//! the last of them that is not 1, if there is one, is `p - 1`.

use crate::factor::product;
use crate::modular::{
    divides, gcd_spec, lemma_divides_iff_mod, lemma_divisor_bounds, lemma_gcd_divides,
    lemma_gcd_positive, pow_mod,
};
use crate::primality::{is_prime_number, miller_rabin, odd_part, passes_base, two_adicity, WITNESSES};
use vstd::arithmetic::div_mod::{
    lemma_fundamental_div_mod, lemma_mod_bound, lemma_mod_multiples_basic,
    lemma_mod_multiples_vanish, lemma_mul_mod_noop_general, lemma_small_mod,
};
use vstd::arithmetic::power::{lemma_pow0, lemma_pow1, lemma_pow_adds, lemma_pow_positive, pow};
use vstd::arithmetic::power2::{lemma_pow2_unfold, pow2};
use vstd::prelude::*;

verus! {

/// Bézout's identity: the greatest common divisor of `a` and `b` is a sum of
/// a multiple of `a` and a multiple of `b`. The result holds the multipliers.
pub proof fn lemma_bezout(a: nat, b: nat) -> (r: (int, int))
    ensures
        r.0 * a + r.1 * b == gcd_spec(a, b),
    decreases b,
{
    if b == 0 {
        assert(1 * a + 0 * b == a) by (nonlinear_arith);
        (1, 0)
    } else {
        let (u, v) = lemma_bezout(b, a % b);
        let q = (a / b) as int;
        let m = (a % b) as int;
        lemma_fundamental_div_mod(a as int, b as int);
        assert(u * b + v * m == gcd_spec(b, a % b));
        assert(v * a + (u - v * q) * b == u * b + v * m) by (nonlinear_arith)
            requires
                a == b * q + m,
        ;
        (v, u - v * q)
    }
}

/// A number that a prime does not divide has no divisor in common with it
/// but 1.
pub proof fn lemma_coprime_to_prime(x: nat, p: nat)
    requires
        is_prime_number(p as int),
        x % p != 0,
    ensures
        gcd_spec(x, p) == 1,
{
    let g = gcd_spec(x, p);
    lemma_gcd_divides(x, p);
    lemma_gcd_positive(x, p);
    lemma_divisor_bounds(g, p);
    lemma_divides_iff_mod(g, p);
    if g == p {
        lemma_divides_iff_mod(p, x);
    } else if g > 1 {
        assert((p as int) % (g as int) != 0);
    }
}

/// Euclid's lemma: a prime that divides a product divides one of its
/// factors.
pub proof fn lemma_euclid(x: nat, y: nat, p: nat)
    requires
        is_prime_number(p as int),
        (x * y) % p == 0,
    ensures
        x % p == 0 || y % p == 0,
{
    if x % p != 0 {
        lemma_coprime_to_prime(x, p);
        let (u, v) = lemma_bezout(x, p);
        lemma_fundamental_div_mod((x * y) as int, p as int);
        let k = ((x * y) / p) as int;
        let m = u * k + v * y;
        assert(y == m * p) by (nonlinear_arith)
            requires
                u * x + v * p == 1,
                x * y == p * k,
                m == u * k + v * y,
        ;
        lemma_mod_multiples_basic(m, p as int);
    }
}

/// Modulo a prime, 1 has no square roots but 1 and `p - 1`.
pub proof fn lemma_square_root_of_one(x: nat, p: nat)
    requires
        is_prime_number(p as int),
        x < p,
        (x * x) % p == 1,
    ensures
        x == 1 || x == p - 1,
{
    if x == 0 {
        assert(x * x == 0) by (nonlinear_arith)
            requires
                x == 0,
        ;
        lemma_small_mod(0, p);
    } else {
        let below = (x - 1) as nat;
        let above = x + 1;
        lemma_fundamental_div_mod((x * x) as int, p as int);
        let k = ((x * x) / p) as int;
        assert(below * above == p * k) by (nonlinear_arith)
            requires
                x * x == p * k + 1,
                below == x - 1,
                above == x + 1,
        ;
        lemma_mod_multiples_basic(k, p as int);
        assert((below * above) % p == 0) by {
            assert(p * k == k * p) by (nonlinear_arith);
        }
        lemma_euclid(below, above, p);
        if below % p == 0 {
            lemma_small_mod(below, p);
        } else {
            if above < p {
                lemma_small_mod(above, p);
            }
        }
    }
}

/// The product of the numbers from 1 to `n`.
pub open spec fn factorial(n: nat) -> nat
    decreases n,
{
    if n == 0 {
        1
    } else {
        n * factorial((n - 1) as nat)
    }
}

/// `s` holds numbers from 1 to `k`, none of them twice.
pub open spec fn arrangement(s: Seq<nat>, k: nat) -> bool {
    &&& forall|i: int| 0 <= i < s.len() ==> 1 <= #[trigger] s[i] <= k
    &&& forall|i: int, j: int| 0 <= i < j < s.len() ==> #[trigger] s[i] != #[trigger] s[j]
}

/// Taking an element out divides the product by it.
proof fn lemma_product_remove(s: Seq<nat>, j: int)
    requires
        0 <= j < s.len(),
    ensures
        product(s) == product(s.remove(j)) * s[j],
    decreases s.len(),
{
    let rest = s.drop_last();
    if j == s.len() - 1 {
        assert(s.remove(j) =~= rest);
    } else {
        lemma_product_remove(rest, j);
        assert(s.remove(j).drop_last() =~= rest.remove(j));
        assert(s.remove(j).last() == s.last());
        let a = product(rest.remove(j));
        let x = s[j];
        let l = s.last();
        assert((a * x) * l == (a * l) * x) by (nonlinear_arith);
    }
}

/// Without the largest number, an arrangement is one of the numbers below.
proof fn lemma_arrangement_remove(s: Seq<nat>, k: nat, j: int)
    requires
        arrangement(s, k),
        0 <= j < s.len(),
        s[j] == k,
    ensures
        arrangement(s.remove(j), (k - 1) as nat),
{
    let t = s.remove(j);
    assert forall|i: int| 0 <= i < t.len() implies 1 <= #[trigger] t[i] <= k - 1 by {
        if i < j {
            assert(t[i] == s[i]);
        } else {
            assert(t[i] == s[i + 1]);
        }
    }
    assert forall|a: int, b: int| 0 <= a < b < t.len() implies #[trigger] t[a] != #[trigger] t[b] by {
        let a2 = if a < j {
            a
        } else {
            a + 1
        };
        let b2 = if b < j {
            b
        } else {
            b + 1
        };
        assert(t[a] == s[a2] && t[b] == s[b2]);
    }
}

/// There is no room for more than `k` different numbers from 1 to `k`.
proof fn lemma_arrangement_length(s: Seq<nat>, k: nat)
    requires
        arrangement(s, k),
    ensures
        s.len() <= k,
    decreases k,
{
    if k == 0 {
        if s.len() > 0 {
            assert(1 <= s[0] <= 0);
        }
    } else if exists|j: int| 0 <= j < s.len() && s[j] == k {
        let j = choose|j: int| 0 <= j < s.len() && s[j] == k;
        lemma_arrangement_remove(s, k, j);
        lemma_arrangement_length(s.remove(j), (k - 1) as nat);
    } else {
        assert(arrangement(s, (k - 1) as nat));
        lemma_arrangement_length(s, (k - 1) as nat);
    }
}

/// `m` different numbers from 1 to `m` are all of them, so their product is
/// the factorial of `m`.
proof fn lemma_arrangement_product(s: Seq<nat>, m: nat)
    requires
        arrangement(s, m),
        s.len() == m,
    ensures
        product(s) == factorial(m),
    decreases m,
{
    if m == 0 {
    } else if exists|j: int| 0 <= j < s.len() && s[j] == m {
        let j = choose|j: int| 0 <= j < s.len() && s[j] == m;
        lemma_arrangement_remove(s, m, j);
        lemma_arrangement_product(s.remove(j), (m - 1) as nat);
        lemma_product_remove(s, j);
        assert(factorial((m - 1) as nat) * m == m * factorial((m - 1) as nat)) by (nonlinear_arith);
    } else {
        assert(arrangement(s, (m - 1) as nat));
        lemma_arrangement_length(s, (m - 1) as nat);
    }
}

/// The first `j` multiples of `a`, reduced modulo `p`.
pub open spec fn multiples(a: nat, p: nat, j: nat) -> Seq<nat> {
    Seq::new(j, |i: int| ((a * (i + 1)) % (p as int)) as nat)
}

/// Numbers with the same remainder differ by a multiple.
proof fn lemma_same_remainder(x: nat, y: nat, p: nat)
    requires
        p > 0,
        x <= y,
        x % p == y % p,
    ensures
        ((y - x) as nat) % p == 0,
{
    lemma_fundamental_div_mod(x as int, p as int);
    lemma_fundamental_div_mod(y as int, p as int);
    let k = (y / p) as int - (x / p) as int;
    assert(y - x == k * p) by (nonlinear_arith)
        requires
            x == p * (x / p) + x % p,
            y == p * (y / p) + y % p,
            x % p == y % p,
            k == (y / p) as int - (x / p) as int,
    ;
    lemma_mod_multiples_basic(k, p as int);
}

/// Modulo a prime `p`, the multiples of `a` by 1 to `p - 1` are the numbers
/// from 1 to `p - 1` in some order.
proof fn lemma_multiples_arrangement(a: nat, p: nat)
    requires
        is_prime_number(p as int),
        1 <= a < p,
    ensures
        arrangement(multiples(a, p, (p - 1) as nat), (p - 1) as nat),
{
    let t = multiples(a, p, (p - 1) as nat);
    lemma_small_mod(a, p);
    assert forall|i: int| 0 <= i < t.len() implies 1 <= #[trigger] t[i] <= p - 1 by {
        let k = (i + 1) as nat;
        lemma_mod_bound((a * k) as int, p as int);
        if (a * k) % p == 0 {
            lemma_euclid(a, k, p);
            lemma_small_mod(k, p);
        }
    }
    assert forall|i: int, j: int| 0 <= i < j < t.len() implies #[trigger] t[i] != #[trigger] t[j] by {
        let x = (i + 1) as nat;
        let y = (j + 1) as nat;
        if t[i] == t[j] {
            assert(a * x <= a * y) by (nonlinear_arith)
                requires
                    x <= y,
            ;
            lemma_same_remainder(a * x, a * y, p);
            let d = (y - x) as nat;
            assert(a * y - a * x == a * d) by (nonlinear_arith)
                requires
                    d == y - x,
            ;
            lemma_euclid(a, d, p);
            lemma_small_mod(d, p);
        }
    }
}

/// The product of the first `j` multiples of `a` is `a^j` times the
/// factorial of `j`, modulo `p`.
proof fn lemma_multiples_product(a: nat, p: nat, j: nat)
    requires
        p > 0,
    ensures
        product(multiples(a, p, j)) % p == (pow(a as int, j) * factorial(j)) % (p as int),
    decreases j,
{
    if j == 0 {
        lemma_pow0(a as int);
        assert(pow(a as int, 0) * factorial(0) == 1) by (nonlinear_arith)
            requires
                pow(a as int, 0) == 1,
                factorial(0) == 1,
        ;
    } else {
        let before = multiples(a, p, (j - 1) as nat);
        let t = multiples(a, p, j);
        lemma_multiples_product(a, p, (j - 1) as nat);
        assert(t.drop_last() =~= before);
        let m = p as int;
        let pb = product(before) as int;
        let e = pow(a as int, (j - 1) as nat);
        let f = factorial((j - 1) as nat) as int;
        let last = (a * j) as int;
        assert(t.last() == (last % m) as nat);
        // product(t) = pb * (last % m), and pb = e * f modulo m
        lemma_mul_mod_noop_general(pb, last, m);
        lemma_mul_mod_noop_general(e * f, last, m);
        assert((pb * (last % m)) % m == ((e * f) * last) % m);
        lemma_pow1(a as int);
        lemma_pow_adds(a as int, (j - 1) as nat, 1);
        assert((e * f) * last == pow(a as int, j) * factorial(j)) by (nonlinear_arith)
            requires
                last == a * j,
                pow(a as int, j) == e * a,
                factorial(j) == j * f,
        ;
        lemma_mod_bound(last, m);
    }
}

/// A prime does not divide the factorial of a smaller number.
proof fn lemma_factorial_coprime(m: nat, p: nat)
    requires
        is_prime_number(p as int),
        m < p,
    ensures
        factorial(m) % p != 0,
    decreases m,
{
    if m == 0 {
        lemma_small_mod(1, p);
    } else {
        lemma_factorial_coprime((m - 1) as nat, p);
        if factorial(m) % p == 0 {
            lemma_euclid(m, factorial((m - 1) as nat), p);
            lemma_small_mod(m, p);
        }
    }
}

/// Fermat's little theorem: for a prime `p` and `a` from 1 to `p - 1`, the
/// power `a^(p - 1)` leaves the remainder 1.
pub proof fn lemma_fermat(a: nat, p: nat)
    requires
        is_prime_number(p as int),
        1 <= a < p,
    ensures
        pow_mod(a, (p - 1) as nat, p) == 1,
{
    let n = (p - 1) as nat;
    let t = multiples(a, p, n);
    lemma_multiples_arrangement(a, p);
    lemma_arrangement_product(t, n);
    lemma_multiples_product(a, p, n);
    lemma_factorial_coprime(n, p);
    let f = factorial(n);
    let big = pow(a as int, n);
    lemma_pow_positive(a as int, n);
    // (big * f) % p == f % p, so p divides (big - 1) * f
    let less = (big - 1) as nat;
    assert(big * f == less * f + f) by (nonlinear_arith)
        requires
            less == big - 1,
    ;
    assert(big * f >= f) by (nonlinear_arith)
        requires
            big >= 1,
            f >= 0,
    ;
    lemma_same_remainder(f, (big * f) as nat, p);
    lemma_euclid(less, f, p);
    lemma_fundamental_div_mod(less as int, p as int);
    lemma_mod_multiples_vanish((less / p) as int, 1, p as int);
    lemma_small_mod(1, p);
}

/// A positive number is its odd part times two to the power of its
/// two-adicity, and its odd part is odd.
pub proof fn lemma_odd_part(n: nat)
    requires
        n >= 1,
    ensures
        odd_part(n) * pow2(two_adicity(n)) == n,
        odd_part(n) % 2 == 1,
    decreases n,
{
    if n % 2 == 1 {
        lemma_pow0(2);
        assert(n * pow2(0) == n) by (nonlinear_arith)
            requires
                pow2(0) == 1,
        ;
    } else {
        let h = n / 2;
        lemma_odd_part(h);
        lemma_pow2_unfold(two_adicity(n));
        let d = odd_part(h);
        let t = pow2(two_adicity(h));
        assert(d * (2 * t) == n) by (nonlinear_arith)
            requires
                d * t == h,
                n == 2 * h,
        ;
    }
}

/// Where `a^(d * 2^r)` is 1 modulo a prime `p` and `a^d` is not, one of the
/// powers before it is `p - 1`.
proof fn lemma_last_before_one(a: nat, p: nat, d: nat, r: nat)
    requires
        is_prime_number(p as int),
        1 <= a < p,
        pow_mod(a, d * pow2(r), p) == 1,
        pow_mod(a, d, p) != 1,
    ensures
        exists|k: nat| k < r && #[trigger] pow_mod(a, d * pow2(k), p) == p - 1,
    decreases r,
{
    if r == 0 {
        lemma_pow0(2);
        assert(d * pow2(0) == d) by (nonlinear_arith)
            requires
                pow2(0) == 1,
        ;
    } else {
        let k = (r - 1) as nat;
        let e = d * pow2(k);
        let x = pow_mod(a, e, p);
        crate::primality::lemma_square_pow_mod(a, e, p);
        lemma_pow2_unfold(r);
        assert(e * 2 == d * pow2(r)) by (nonlinear_arith)
            requires
                e == d * pow2(k),
                pow2(r) == 2 * pow2(k),
        ;
        assert(pow(x as int, 2) == x * x) by {
            lemma_pow1(x as int);
            lemma_pow_adds(x as int, 1, 1);
        }
        lemma_mod_bound(pow(a as int, e), p as int);
        lemma_square_root_of_one(x, p);
        if x == 1 {
            lemma_last_before_one(a, p, d, k);
        }
    }
}

/// An odd prime is a strong probable prime to every base from 1 to `p - 1`.
pub proof fn lemma_prime_passes(p: nat, a: nat)
    requires
        is_prime_number(p as int),
        p > 2,
        1 <= a < p,
    ensures
        passes_base(p, a),
{
    let n = (p - 1) as nat;
    let d = odd_part(n);
    let s = two_adicity(n);
    lemma_odd_part(n);
    lemma_fermat(a, p);
    if pow_mod(a, d, p) != 1 {
        lemma_last_before_one(a, p, d, s);
    }
}

/// The Miller–Rabin test accepts every prime.
pub proof fn lemma_primes_accepted(n: nat)
    requires
        is_prime_number(n as int),
    ensures
        miller_rabin(n),
{
    if n > 3 {
        assert((n as int) % 2 != 0);
        assert forall|i: int| 0 <= i < WITNESSES@.len() && (#[trigger] WITNESSES@[i]) < n implies passes_base(
            n,
            WITNESSES@[i] as nat,
        ) by {
            lemma_prime_passes(n, WITNESSES@[i] as nat);
        }
    }
}

} // verus!
