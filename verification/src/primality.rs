//! A Miller–Rabin primality test with a fixed set of witnesses.
//!
//! The test is deterministic: it tries the twelve smallest primes as bases.
//! That set is known to classify every number below about 3.3 * 10^24
//! correctly; above that bound a composite number could in principle pass.
//! What is proved here is the exact meaning of the answer (see
//! [`miller_rabin`]), not that bound.

use crate::modular::{mod_pow, pow_mod};
use vstd::arithmetic::power::{lemma_pow_mod_noop, lemma_pow_multiplies, pow};
use vstd::arithmetic::power2::{lemma_pow2_unfold, pow2};
use vstd::prelude::*;

verus! {

/// `n` is prime: at least 2, and divisible by nothing between 1 and itself.
pub open spec fn is_prime_number(n: int) -> bool {
    n >= 2 && forall|d: int| 2 <= d < n ==> #[trigger] (n % d) != 0
}

/// The bases that the test tries, in the order in which it tries them.
pub const WITNESSES: [u128; 12] = [2, 3, 5, 7, 11, 13, 17, 19, 23, 29, 31, 37];

/// `n` with every factor of two divided out (`0` for `0`).
pub open spec fn odd_part(n: nat) -> nat
    decreases n,
{
    if n == 0 || n % 2 == 1 {
        n
    } else {
        odd_part(n / 2)
    }
}

/// How many times two divides `n` (`0` for `0`).
pub open spec fn two_adicity(n: nat) -> nat
    decreases n,
{
    if n == 0 || n % 2 == 1 {
        0
    } else {
        1 + two_adicity(n / 2)
    }
}

/// `n` is a strong probable prime to base `a`: with `n - 1 = d * 2^s` and `d`
/// odd, either `a^d = 1` or `a^(d * 2^r) = -1` modulo `n` for some `r < s`.
pub open spec fn passes_base(n: nat, a: nat) -> bool {
    let d = odd_part((n - 1) as nat);
    let s = two_adicity((n - 1) as nat);
    pow_mod(a, d, n) == 1 || exists|r: nat| r < s && #[trigger] pow_mod(a, d * pow2(r), n) == n - 1
}

/// What the test answers for `n`: `false` up to 1, `true` for 2 and 3, `false`
/// for larger even numbers, and otherwise whether `n` is a strong probable
/// prime to every witness below `n`.
pub open spec fn miller_rabin(n: nat) -> bool {
    if n <= 1 {
        false
    } else if n <= 3 {
        true
    } else if n % 2 == 0 {
        false
    } else {
        forall|i: int|
            0 <= i < WITNESSES@.len() && (#[trigger] WITNESSES@[i]) < n ==> passes_base(
                n,
                WITNESSES@[i] as nat,
            )
    }
}

/// Squaring a power doubles its exponent, also modulo `n`.
pub proof fn lemma_square_pow_mod(a: nat, e: nat, n: nat)
    requires
        n > 0,
    ensures
        pow_mod(pow_mod(a, e, n), 2, n) == pow_mod(a, e * 2, n),
{
    let p = pow(a as int, e);
    lemma_pow_mod_noop(p, 2, n as int);
    lemma_pow_multiplies(a as int, e, 2);
    vstd::arithmetic::div_mod::lemma_mod_bound(p, n as int);
}

/// Decides whether `n` is prime by the Miller–Rabin test over [`WITNESSES`].
///
/// Witnesses that are not below `n` are skipped. The first witness that `n`
/// fails ends the test with `false`. A prime fails none, so `false` always
/// means that `n` is not prime; `true` means that `n` is a strong probable
/// prime to each witness below it.
pub fn is_prime(n: u128) -> (r: bool)
    ensures
        r == miller_rabin(n as nat),
        is_prime_number(n as int) ==> r,
{
    proof {
        if is_prime_number(n as int) {
            crate::fermat::lemma_primes_accepted(n as nat);
        }
    }
    if n <= 1 {
        return false;
    } else if n <= 3 {
        return true;
    } else if n % 2 == 0 {
        return false;
    }
    let mut d: u128 = n - 1;
    let mut s: u128 = 0;
    while d % 2 == 0
        invariant
            n > 3,
            d >= 1,
            s + d <= n - 1,
            odd_part(d as nat) == odd_part((n - 1) as nat),
            two_adicity(d as nat) + s == two_adicity((n - 1) as nat),
        decreases d,
    {
        d /= 2;
        s += 1;
    }
    let mut i: usize = 0;
    while i < 12
        invariant
            n > 3,
            n % 2 == 1,
            i <= 12,
            is_prime_number(n as int) ==> miller_rabin(n as nat),
            d == odd_part((n - 1) as nat),
            s == two_adicity((n - 1) as nat),
            forall|j: int|
                0 <= j < i && (#[trigger] WITNESSES@[j]) < n ==> passes_base(
                    n as nat,
                    WITNESSES@[j] as nat,
                ),
        decreases 12 - i,
    {
        let a = WITNESSES[i];
        if a < n {
            let mut x = mod_pow(a, d, n);
            proof {
                vstd::arithmetic::power::lemma_pow0(2);
                assert(d as nat * pow2(0) == d) by (nonlinear_arith)
                    requires
                        pow2(0) == 1,
                ;
                assert(s >= 1);
            }
            if !(x == 1 || x == n - 1) {
                let mut passed = false;
                let mut r: u128 = 1;
                while r < s
                    invariant_except_break
                        !passed,
                        x == pow_mod(a as nat, d as nat * pow2((r - 1) as nat), n as nat),
                        forall|k: nat|
                            k < r ==> #[trigger] pow_mod(a as nat, d as nat * pow2(k), n as nat)
                                != n - 1,
                    invariant
                        n > 3,
                        a < n,
                        1 <= r,
                        is_prime_number(n as int) ==> miller_rabin(n as nat),
                        pow_mod(a as nat, d as nat, n as nat) != 1,
                        d == odd_part((n - 1) as nat),
                        s == two_adicity((n - 1) as nat),
                    ensures
                        passed ==> passes_base(n as nat, a as nat),
                        !passed ==> !passes_base(n as nat, a as nat),
                    decreases s - r,
                {
                    let ghost e = d as nat * pow2((r - 1) as nat);
                    x = mod_pow(x, 2, n);
                    proof {
                        lemma_square_pow_mod(a as nat, e, n as nat);
                        lemma_pow2_unfold(r as nat);
                        assert(e * 2 == d as nat * pow2(r as nat)) by (nonlinear_arith)
                            requires
                                e == d as nat * pow2((r - 1) as nat),
                                pow2(r as nat) == 2 * pow2((r - 1) as nat),
                        ;
                    }
                    if x == n - 1 {
                        passed = true;
                        break ;
                    }
                    r += 1;
                }
                if !passed {
                    return false;
                }
            }
            assert(passes_base(n as nat, a as nat));
        }
        i += 1;
    }
    true
}

} // verus!
