//! Pollard's rho: a search for a non-trivial divisor of a composite number.
//!
//! Two cursors walk the sequence `v -> (v^2 + c) mod n` from 2, one at twice
//! the speed of the other. A common factor of their difference and `n` is a
//! divisor of `n`. The search is bounded: [`MAX_TRIALS`] steps for each offset
//! `c`, and offsets `1..=MAX_OFFSET`. When the bounds are exhausted the
//! function gives `n` itself back, which says that nothing was found, not that
//! `n` is prime.

use crate::modular::{
    add_mod, divides, gcd, gcd_spec, lemma_divides_iff_mod, lemma_divisor_bounds,
    lemma_gcd_divides, mod_pow,
};
use crate::primality::is_prime_number;
use vstd::arithmetic::div_mod::lemma_add_mod_noop_right;
use vstd::arithmetic::power::{lemma_pow1, lemma_pow_adds, pow};
use vstd::prelude::*;

verus! {

/// How many steps the search takes for one offset before it gives up on it.
pub const MAX_TRIALS: u32 = 100_000;

/// The last offset that the search tries.
pub const MAX_OFFSET: u128 = 100;

/// One step of the sequence: `(v^2 mod n + c) mod n`.
pub open spec fn rho_next(v: nat, c: nat, n: nat) -> nat {
    ((v * v) % n + c) % n
}

/// The slow cursor after `k` steps.
pub open spec fn tortoise(k: nat, c: nat, n: nat) -> nat
    decreases k,
{
    if k == 0 {
        2
    } else {
        rho_next(tortoise((k - 1) as nat, c, n), c, n)
    }
}

/// The fast cursor after `k` steps of the slow one.
pub open spec fn hare(k: nat, c: nat, n: nat) -> nat
    decreases k,
{
    if k == 0 {
        2
    } else {
        rho_next(rho_next(hare((k - 1) as nat, c, n), c, n), c, n)
    }
}

/// The distance between two residues.
pub open spec fn distance(x: nat, y: nat) -> nat {
    if x > y {
        (x - y) as nat
    } else {
        (y - x) as nat
    }
}

/// The common factor that the cursors show after `k` steps.
pub open spec fn collision(k: nat, c: nat, n: nat) -> nat {
    gcd_spec(distance(tortoise(k, c, n), hare(k, c, n)), n)
}

/// What the walk with offset `c` ends on when it has taken `k` steps without
/// a collision: the first common factor other than 1 that shows up within
/// [`MAX_TRIALS`] steps, or 1 if there is none.
pub open spec fn walk_from(c: nat, n: nat, k: nat) -> nat
    decreases MAX_TRIALS - k,
{
    if k >= MAX_TRIALS {
        1
    } else {
        let d = collision(k + 1, c, n);
        if d != 1 {
            d
        } else {
            walk_from(c, n, k + 1)
        }
    }
}

/// What the search gives from offset `c` on: the result of the first walk that
/// ends on a factor other than 1 and `n`, or `n` if no offset up to
/// [`MAX_OFFSET`] has one.
pub open spec fn search_from(n: nat, c: nat) -> nat
    decreases MAX_OFFSET + 1 - c,
{
    if c > MAX_OFFSET {
        n
    } else {
        let d = walk_from(c, n, 0);
        if d != 1 && d != n {
            d
        } else {
            search_from(n, c + 1)
        }
    }
}

/// The divisor that [`pollards_rho`] gives for `n`.
pub open spec fn rho_divisor(n: nat) -> nat {
    if n == 1 {
        1
    } else if n % 2 == 0 {
        2
    } else if n % 3 == 0 {
        3
    } else if n % 5 == 0 {
        5
    } else {
        search_from(n, 1)
    }
}

/// A walk ends on 1 or on a divisor of `n`.
proof fn lemma_walk_divides(c: nat, n: nat, k: nat)
    requires
        n > 0,
    ensures
        divides(walk_from(c, n, k), n),
    decreases MAX_TRIALS - k,
{
    if k >= MAX_TRIALS {
        assert(n == 1 * n);
    } else {
        let d = collision(k + 1, c, n);
        if d != 1 {
            lemma_gcd_divides(distance(tortoise(k + 1, c, n), hare(k + 1, c, n)), n);
        } else {
            lemma_walk_divides(c, n, k + 1);
        }
    }
}

/// The search ends on `n` or on a divisor strictly between 1 and `n`.
proof fn lemma_search_divides(n: nat, c: nat)
    requires
        n > 0,
    ensures
        divides(search_from(n, c), n),
        search_from(n, c) == n || 1 < search_from(n, c) < n,
    decreases MAX_OFFSET + 1 - c,
{
    if c > MAX_OFFSET {
        assert(n == n * 1);
    } else {
        let d = walk_from(c, n, 0);
        if d != 1 && d != n {
            lemma_walk_divides(c, n, 0);
            lemma_divisor_bounds(d, n);
        } else {
            lemma_search_divides(n, c + 1);
        }
    }
}

/// What [`pollards_rho`] gives for a positive `n` divides `n`, and it is `n`
/// itself or lies strictly between 1 and `n`.
pub proof fn lemma_rho_divisor_divides(n: nat)
    requires
        n > 0,
    ensures
        divides(rho_divisor(n), n),
        rho_divisor(n) == n || 1 < rho_divisor(n) < n,
{
    if n == 1 {
        assert(n == 1 * 1);
    } else if n % 2 == 0 {
        lemma_divides_iff_mod(2, n);
    } else if n % 3 == 0 {
        lemma_divides_iff_mod(3, n);
    } else if n % 5 == 0 {
        lemma_divides_iff_mod(5, n);
    } else {
        lemma_search_divides(n, 1);
    }
}

/// For a prime the search has nothing to find: it gives the prime itself.
pub proof fn lemma_rho_divisor_of_prime(n: nat)
    requires
        is_prime_number(n as int),
    ensures
        rho_divisor(n) == n,
{
    let d = rho_divisor(n);
    lemma_rho_divisor_divides(n);
    if d != n {
        lemma_divides_iff_mod(d, n);
        assert((n as int) % (d as int) != 0);
    }
}

/// Advances a cursor by one step of the sequence with offset `c`.
fn rho_step(v: u128, c: u128, n: u128) -> (r: u128)
    requires
        n >= 1,
    ensures
        r == rho_next(v as nat, c as nat, n as nat),
        r < n,
{
    let square = mod_pow(v, 2, n);
    proof {
        lemma_pow1(v as int);
        lemma_pow_adds(v as int, 1, 1);
        assert(pow(v as int, 2) == v * v);
        lemma_add_mod_noop_right(square as int, c as int, n as int);
    }
    add_mod(square, c % n, n)
}

/// Searches for a divisor of `n`.
///
/// For 1 the answer is 1, and a multiple of 2, 3 or 5 gets the smallest of
/// those that divides it. Otherwise the cursors walk as the module describes.
/// The caller has to read a result equal to `n` as "no divisor found".
pub fn pollards_rho(n: u128) -> (d: u128)
    ensures
        d == rho_divisor(n as nat),
        n >= 1 ==> divides(d as nat, n as nat) && (d == n || 1 < d < n),
{
    proof {
        if n >= 1 {
            lemma_rho_divisor_divides(n as nat);
        }
    }
    if n == 1 {
        return 1;
    }
    if n % 2 == 0 {
        return 2;
    }
    if n % 3 == 0 {
        return 3;
    }
    if n % 5 == 0 {
        return 5;
    }
    let mut c: u128 = 1;
    while c <= MAX_OFFSET
        invariant
            1 <= c <= MAX_OFFSET + 1,
            n >= 1,
            search_from(n as nat, c as nat) == rho_divisor(n as nat),
        decreases MAX_OFFSET + 1 - c,
    {
        let mut x: u128 = 2;
        let mut y: u128 = 2;
        let mut d: u128 = 1;
        let mut trials: u32 = 0;
        while d == 1 && trials < MAX_TRIALS
            invariant
                n >= 1,
                trials <= MAX_TRIALS,
                x == tortoise(trials as nat, c as nat, n as nat),
                y == hare(trials as nat, c as nat, n as nat),
                d == 1 ==> walk_from(c as nat, n as nat, trials as nat) == walk_from(
                    c as nat,
                    n as nat,
                    0,
                ),
                d != 1 ==> d == walk_from(c as nat, n as nat, 0),
            decreases MAX_TRIALS - trials,
        {
            x = rho_step(x, c, n);
            y = rho_step(rho_step(y, c, n), c, n);
            d = gcd(
                if x > y {
                    x - y
                } else {
                    y - x
                },
                n,
            );
            trials += 1;
        }
        if d != 1 && d != n {
            proof {
                lemma_rho_divisor_divides(n as nat);
            }
            return d;
        }
        c += 1;
    }
    n
}

} // verus!
