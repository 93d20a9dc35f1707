//! Factorisation of a `u128` and its largest prime factor.
//!
//! Factors of 2, 3 and 5 are divided out first. What is left is split on a
//! work stack: a value that the primality test accepts is a factor; another
//! one is handed to Pollard's rho, and either both parts of it go back on the
//! stack or, when the search found nothing, the value is recorded as it is.
//! Such a value may be composite: the bounded search trades that for a bounded
//! running time.

use crate::modular::{divides, lemma_divides_iff_mod};
use crate::primality::{
    is_prime, is_prime_number, miller_rabin, odd_part, passes_base, two_adicity, WITNESSES,
};
use crate::rho::{lemma_rho_divisor_divides, pollards_rho, rho_divisor};
use vstd::arithmetic::div_mod::{lemma_div_decreases, lemma_fundamental_div_mod};
use vstd::prelude::*;

verus! {

/// The elements of a vector of `u128` as natural numbers.
pub open spec fn nats(s: Seq<u128>) -> Seq<nat> {
    s.map_values(|v: u128| v as nat)
}

/// The product of the elements of `s` (1 for the empty sequence).
pub open spec fn product(s: Seq<nat>) -> nat
    decreases s.len(),
{
    if s.len() == 0 {
        1
    } else {
        product(s.drop_last()) * s.last()
    }
}

/// The largest element of `s` (0 for the empty sequence).
pub open spec fn maximum(s: Seq<nat>) -> nat
    decreases s.len(),
{
    if s.len() == 0 {
        0
    } else if s.last() >= maximum(s.drop_last()) {
        s.last()
    } else {
        maximum(s.drop_last())
    }
}

/// `n` with every factor `p` divided out.
pub open spec fn strip(n: nat, p: nat) -> nat
    decreases n,
    via strip_decreases
{
    if n == 0 || p < 2 || n % p != 0 {
        n
    } else {
        strip(n / p, p)
    }
}

/// Dividing by 2 or more makes a positive number smaller.
#[via_fn]
proof fn strip_decreases(n: nat, p: nat) {
    if !(n == 0 || p < 2 || n % p != 0) {
        lemma_div_decreases(n as int, p as int);
    }
}

/// `p`, once for each time that it divides `n`.
pub open spec fn repeated(n: nat, p: nat) -> Seq<nat>
    decreases n,
    via repeated_decreases
{
    if n == 0 || p < 2 || n % p != 0 {
        Seq::empty()
    } else {
        seq![p] + repeated(n / p, p)
    }
}

/// Dividing by 2 or more makes a positive number smaller.
#[via_fn]
proof fn repeated_decreases(n: nat, p: nat) {
    if !(n == 0 || p < 2 || n % p != 0) {
        lemma_div_decreases(n as int, p as int);
    }
}

/// What is left of `n` when the factors 2, 3 and 5 are divided out.
pub open spec fn rough_part(n: nat) -> nat {
    strip(strip(strip(n, 2), 3), 5)
}

/// The factors 2, 3 and 5 of `n`, with multiplicity, in that order.
pub open spec fn small_factors(n: nat) -> Seq<nat> {
    repeated(n, 2) + repeated(strip(n, 2), 3) + repeated(strip(strip(n, 2), 3), 5)
}

/// A value that the factorisation does not split further: the primality test
/// accepts it, or Pollard's rho finds no proper divisor of it.
pub open spec fn terminal(v: nat) -> bool {
    miller_rabin(v) || rho_divisor(v) == v
}

/// The factors that the recursive splitting of `v` gives: nothing for 1, `v`
/// itself where it is terminal, and otherwise, with `d` the divisor that
/// Pollard's rho finds, the factors of `v / d` followed by those of `d`.
pub open spec fn split(v: nat) -> Seq<nat>
    decreases v,
    via split_decreases
{
    if v <= 1 {
        Seq::empty()
    } else if terminal(v) {
        seq![v]
    } else {
        split(v / rho_divisor(v)) + split(rho_divisor(v))
    }
}

/// Both parts of a split are smaller than the value.
#[via_fn]
proof fn split_decreases(v: nat) {
    if v > 1 && !terminal(v) {
        lemma_proper_divisor(v, rho_divisor(v));
    }
}

/// A proper divisor and its cofactor are both strictly between 1 and `v`.
proof fn lemma_proper_divisor(v: nat, d: nat)
    requires
        v > 1,
        rho_divisor(v) == d,
        d != v,
    ensures
        1 < d < v,
        1 < v / d < v,
        d * (v / d) == v,
        d + v / d <= v,
{
    lemma_rho_divisor_divides(v);
    lemma_divides_iff_mod(d, v);
    lemma_fundamental_div_mod(v as int, d as int);
    let q = v / d;
    assert(1 < q < v && d + q <= v) by (nonlinear_arith)
        requires
            v == d * q,
            1 < d < v,
            q >= 0,
    ;
}

/// The factors of `n` in the order in which [`factor`] gives them.
pub open spec fn factorization(n: nat) -> Seq<nat> {
    small_factors(n) + split(rough_part(n))
}

/// The largest factor that [`factor`] gives, and 0 up to 1.
pub open spec fn max_prime_factor(n: nat) -> nat {
    if n <= 1 {
        0
    } else {
        maximum(factorization(n))
    }
}

/// The factors still owed for a work stack, the last element first.
pub open spec fn pending(stack: Seq<nat>) -> Seq<nat>
    decreases stack.len(),
{
    if stack.len() == 0 {
        Seq::empty()
    } else {
        split(stack.last()) + pending(stack.drop_last())
    }
}

/// A bound on the work that a stack stands for: it shrinks with every step.
pub open spec fn weight(stack: Seq<nat>) -> nat
    decreases stack.len(),
{
    if stack.len() == 0 {
        0
    } else if stack.last() == 0 {
        weight(stack.drop_last())
    } else {
        (weight(stack.drop_last()) + 2 * stack.last() - 1) as nat
    }
}

/// [`nats`] goes through `push`.
proof fn lemma_nats_push(s: Seq<u128>, v: u128)
    ensures
        nats(s.push(v)) == nats(s).push(v as nat),
{
    assert(nats(s.push(v)) =~= nats(s).push(v as nat));
}

/// [`nats`] goes through `drop_last`.
proof fn lemma_nats_drop_last(s: Seq<u128>)
    requires
        s.len() > 0,
    ensures
        nats(s.drop_last()) == nats(s).drop_last(),
        nats(s).last() == s.last() as nat,
{
    assert(nats(s.drop_last()) =~= nats(s).drop_last());
}

/// What a value adds to the factors owed and to the weight of a stack.
proof fn lemma_pending_push(stack: Seq<nat>, v: nat)
    ensures
        pending(stack.push(v)) == split(v) + pending(stack),
        v >= 1 ==> weight(stack.push(v)) == weight(stack) + 2 * v - 1,
{
    assert(stack.push(v).drop_last() =~= stack);
}

/// The product of a concatenation is the product of the products.
pub proof fn lemma_product_concat(a: Seq<nat>, b: Seq<nat>)
    ensures
        product(a + b) == product(a) * product(b),
    decreases b.len(),
{
    if b.len() == 0 {
        assert(a + b =~= a);
        assert(product(a) * 1 == product(a)) by (nonlinear_arith);
    } else {
        assert((a + b).drop_last() =~= a + b.drop_last());
        lemma_product_concat(a, b.drop_last());
        let x = product(a);
        let y = product(b.drop_last());
        let z = b.last();
        assert((x * y) * z == x * (y * z)) by (nonlinear_arith);
    }
}

/// The product of one number is the number.
proof fn lemma_product_one(v: nat)
    ensures
        product(seq![v]) == v,
{
    assert(seq![v].drop_last() =~= Seq::<nat>::empty());
    assert(product(Seq::<nat>::empty()) == 1);
    assert(1 * v == v) by (nonlinear_arith);
}

/// Dividing out `p` and multiplying the divided factors back gives `n`.
proof fn lemma_product_repeated(n: nat, p: nat)
    requires
        n >= 1,
    ensures
        product(repeated(n, p)) * strip(n, p) == n,
        strip(n, p) >= 1,
        p >= 2 ==> strip(n, p) % p != 0,
        forall|i: int| 0 <= i < repeated(n, p).len() ==> repeated(n, p)[i] == p,
    decreases n,
{
    if n == 0 || p < 2 || n % p != 0 {
        assert(1 * n == n) by (nonlinear_arith);
    } else {
        lemma_fundamental_div_mod(n as int, p as int);
        let q = n / p;
        assert(q >= 1 && q < n) by (nonlinear_arith)
            requires
                n == p * q,
                n >= 1,
                p >= 2,
                q >= 0,
        ;
        lemma_product_repeated(q, p);
        lemma_product_concat(seq![p], repeated(q, p));
        lemma_product_one(p);
        let r = product(repeated(q, p));
        let t = strip(q, p);
        assert((p * r) * t == p * (r * t)) by (nonlinear_arith);
    }
}

/// The factors that splitting gives multiply back to the value, and each of
/// them is terminal and at least 2.
pub proof fn lemma_split(v: nat)
    requires
        v >= 1,
    ensures
        product(split(v)) == v,
        forall|i: int| 0 <= i < split(v).len() ==> terminal(#[trigger] split(v)[i]) && split(v)[i] >= 2,
    decreases v,
{
    if v <= 1 {
    } else if terminal(v) {
        lemma_product_one(v);
    } else {
        let d = rho_divisor(v);
        lemma_proper_divisor(v, d);
        lemma_split(v / d);
        lemma_split(d);
        lemma_product_concat(split(v / d), split(d));
        assert((v / d) * d == v) by (nonlinear_arith)
            requires
                d * (v / d) == v,
        ;
    }
}

/// Every element of a sequence divides the product of the sequence.
pub proof fn lemma_element_divides_product(s: Seq<nat>, i: int)
    requires
        0 <= i < s.len(),
    ensures
        divides(s[i], product(s)),
    decreases s.len(),
{
    let rest = s.drop_last();
    let last = s.last();
    if i == s.len() - 1 {
        assert(product(s) == last * product(rest)) by (nonlinear_arith)
            requires
                product(s) == product(rest) * last,
        ;
    } else {
        lemma_element_divides_product(rest, i);
        let k = choose|k: nat| product(rest) == #[trigger] (rest[i] * k);
        assert(product(s) == s[i] * (k * last)) by (nonlinear_arith)
            requires
                product(s) == product(rest) * last,
                product(rest) == s[i] * k,
        ;
    }
}

/// The primality test accepts 2, 3 and 5.
pub proof fn lemma_small_primes_accepted()
    ensures
        miller_rabin(2),
        miller_rabin(3),
        miller_rabin(5),
{
    assert(odd_part(4) == 1 && two_adicity(4) == 2) by {
        reveal_with_fuel(odd_part, 3);
        reveal_with_fuel(two_adicity, 3);
    }
    vstd::arithmetic::power2::lemma2_to64();
    assert(vstd::arithmetic::power::pow(2, 2) == 4 && vstd::arithmetic::power::pow(3, 2) == 9) by {
        vstd::arithmetic::power::lemma_pow1(2);
        vstd::arithmetic::power::lemma_pow1(3);
        vstd::arithmetic::power::lemma_pow_adds(2, 1, 1);
        vstd::arithmetic::power::lemma_pow_adds(3, 1, 1);
    }
    assert(1nat * vstd::arithmetic::power2::pow2(1) == 2);
    assert(crate::modular::pow_mod(2, 1nat * vstd::arithmetic::power2::pow2(1), 5) == 4);
    assert(crate::modular::pow_mod(3, 1nat * vstd::arithmetic::power2::pow2(1), 5) == 4);
    assert(passes_base(5, 2));
    assert(passes_base(5, 3));
    assert forall|i: int| 0 <= i < WITNESSES@.len() && (#[trigger] WITNESSES@[i]) < 5 implies passes_base(
        5,
        WITNESSES@[i] as nat,
    ) by {
        assert(i == 0 || i == 1);
    }
}

/// The factorisation multiplies back to `n`, and each factor divides `n`, is
/// at least 2 and is terminal: accepted by the primality test, or a value of
/// which Pollard's rho found no proper divisor.
pub proof fn lemma_factorization(n: nat)
    requires
        n >= 1,
    ensures
        product(factorization(n)) == n,
        forall|i: int|
            0 <= i < factorization(n).len() ==> terminal(#[trigger] factorization(n)[i])
                && factorization(n)[i] >= 2 && divides(factorization(n)[i], n),
{
    lemma_factorization_product(n);
    assert forall|i: int| 0 <= i < factorization(n).len() implies divides(
        #[trigger] factorization(n)[i],
        n,
    ) by {
        lemma_element_divides_product(factorization(n), i);
    }
}

/// The product and the kind of the factors: see [`lemma_factorization`].
proof fn lemma_factorization_product(n: nat)
    requires
        n >= 1,
    ensures
        product(factorization(n)) == n,
        forall|i: int|
            0 <= i < factorization(n).len() ==> terminal(#[trigger] factorization(n)[i])
                && factorization(n)[i] >= 2,
{
    let n2 = strip(n, 2);
    let n3 = strip(n2, 3);
    let n5 = strip(n3, 5);
    lemma_product_repeated(n, 2);
    lemma_product_repeated(n2, 3);
    lemma_product_repeated(n3, 5);
    lemma_split(n5);
    lemma_small_primes_accepted();
    let a = repeated(n, 2);
    let b = repeated(n2, 3);
    let c = repeated(n3, 5);
    let r = split(n5);
    lemma_product_concat(a + b + c, r);
    lemma_product_concat(a + b, c);
    lemma_product_concat(a, b);
    let pa = product(a);
    let pb = product(b);
    let pc = product(c);
    assert(((pa * pb) * pc) * n5 == n) by (nonlinear_arith)
        requires
            pa * n2 == n,
            pb * n3 == n2,
            pc * n5 == n3,
    ;
}

/// The maximum is an element of a non-empty sequence and bounds every element.
pub proof fn lemma_maximum(s: Seq<nat>)
    ensures
        forall|i: int| 0 <= i < s.len() ==> s[i] <= maximum(s),
        s.len() > 0 ==> exists|i: int| 0 <= i < s.len() && s[i] == maximum(s),
    decreases s.len(),
{
    if s.len() > 0 {
        let t = s.drop_last();
        lemma_maximum(t);
        assert forall|i: int| 0 <= i < s.len() implies s[i] <= maximum(s) by {
            if i < t.len() {
                assert(s[i] == t[i]);
            }
        }
        if s.last() >= maximum(t) {
            assert(s[s.len() - 1] == maximum(s));
        } else {
            let i = choose|i: int| 0 <= i < t.len() && t[i] == maximum(t);
            assert(s[i] == t[i]);
        }
    }
}

/// What [`lemma_factorization`] says, of a vector that holds the factorisation.
proof fn lemma_factors_terminal(factors: Seq<u128>, n: nat)
    requires
        n >= 1,
        nats(factors) == factorization(n),
    ensures
        product(nats(factors)) == n,
        forall|i: int|
            0 <= i < factors.len() ==> terminal((#[trigger] factors[i]) as nat) && factors[i] >= 2
                && divides(factors[i] as nat, n),
{
    lemma_factorization(n);
    assert forall|i: int| 0 <= i < factors.len() implies terminal((#[trigger] factors[i]) as nat)
        && factors[i] >= 2 && divides(factors[i] as nat, n) by {
        assert(nats(factors)[i] == factors[i] as nat);
        assert(terminal(factorization(n)[i]));
    }
}

/// Divides every factor `p` out of `n` and records each division.
fn divide_out(n: u128, p: u128, factors: &mut Vec<u128>) -> (rest: u128)
    requires
        n >= 1,
        p >= 2,
    ensures
        rest == strip(n as nat, p as nat),
        rest >= 1,
        nats(final(factors)@) == nats(old(factors)@) + repeated(n as nat, p as nat),
{
    let mut n = n;
    let ghost n0 = n as nat;
    proof {
        assert(nats(factors@) + Seq::<nat>::empty() =~= nats(factors@));
    }
    while n % p == 0
        invariant
            n >= 1,
            p >= 2,
            strip(n as nat, p as nat) == strip(n0, p as nat),
            nats(factors@) + repeated(n as nat, p as nat) == nats(old(factors)@) + repeated(
                n0,
                p as nat,
            ),
        decreases n,
    {
        proof {
            lemma_nats_push(factors@, p);
            lemma_fundamental_div_mod(n as int, p as int);
            let q = (n / p) as nat;
            assert(q >= 1 && q < n) by (nonlinear_arith)
                requires
                    n == p * q,
                    n >= 1,
                    p >= 2,
                    q >= 0,
            ;
            assert(nats(factors@).push(p as nat) + repeated(q, p as nat) =~= nats(factors@) + (
            seq![p as nat] + repeated(q, p as nat)));
        }
        factors.push(p);
        n /= p;
    }
    proof {
        assert(nats(factors@) + Seq::<nat>::empty() =~= nats(factors@));
    }
    n
}

/// The factors of `n`, with multiplicity: first the factors 2, then 3, then 5,
/// then what the splitting of the rest gives.
///
/// Their product is `n`. Each of them is at least 2 and terminal, that is,
/// accepted by [`is_prime`] or a value of which [`pollards_rho`] found no
/// proper divisor.
pub fn factor(n: u128) -> (factors: Vec<u128>)
    requires
        n >= 1,
    ensures
        nats(factors@) == factorization(n as nat),
        product(nats(factors@)) == n,
        forall|i: int|
            0 <= i < factors@.len() ==> terminal((#[trigger] factors@[i]) as nat) && factors@[i]
                >= 2 && divides(factors@[i] as nat, n as nat),
{
    let ghost n0 = n as nat;
    let mut factors: Vec<u128> = Vec::new();
    proof {
        assert(nats(factors@) =~= Seq::<nat>::empty());
    }
    let n = divide_out(n, 2, &mut factors);
    let n = divide_out(n, 3, &mut factors);
    let n = divide_out(n, 5, &mut factors);
    proof {
        assert(nats(factors@) =~= small_factors(n0));
    }
    if n == 1 {
        proof {
            assert(nats(factors@) + split(1) =~= nats(factors@));
            lemma_factors_terminal(factors@, n0);
        }
        return factors;
    }
    let mut stack: Vec<u128> = Vec::new();
    stack.push(n);
    proof {
        lemma_nats_push(Seq::<u128>::empty(), n);
        assert(nats(Seq::<u128>::empty()) =~= Seq::<nat>::empty());
        lemma_pending_push(Seq::<nat>::empty(), n as nat);
        assert(split(n as nat) + Seq::<nat>::empty() =~= split(n as nat));
    }
    while stack.len() > 0
        invariant
            nats(factors@) + pending(nats(stack@)) == factorization(n0),
            forall|i: int| 0 <= i < stack@.len() ==> stack@[i] >= 1,
        decreases weight(nats(stack@)),
    {
        let ghost before = nats(stack@);
        let ghost done = nats(factors@);
        proof {
            lemma_nats_drop_last(stack@);
        }
        let current = stack.pop().unwrap();
        let ghost rest = nats(stack@);
        proof {
            assert(before =~= rest.push(current as nat));
            lemma_pending_push(rest, current as nat);
        }
        if current == 1 {
            proof {
                assert(done + (split(1) + pending(rest)) =~= done + pending(rest));
            }
        } else if is_prime(current) {
            proof {
                lemma_nats_push(factors@, current);
                assert(done.push(current as nat) + pending(rest) =~= done + (seq![current as nat]
                    + pending(rest)));
            }
            factors.push(current);
        } else {
            let d = pollards_rho(current);
            if d == current {
                proof {
                    lemma_nats_push(factors@, current);
                    assert(done.push(current as nat) + pending(rest) =~= done + (
                    seq![current as nat] + pending(rest)));
                }
                factors.push(d);
            } else {
                proof {
                    lemma_proper_divisor(current as nat, d as nat);
                    lemma_nats_push(stack@, d);
                    lemma_nats_push(stack@.push(d), (current / d) as u128);
                    lemma_pending_push(rest, d as nat);
                    lemma_pending_push(rest.push(d as nat), (current / d) as nat);
                    assert(done + (split((current / d) as nat) + (split(d as nat) + pending(rest)))
                        =~= done + ((split((current / d) as nat) + split(d as nat)) + pending(
                        rest,
                    )));
                }
                stack.push(d);
                stack.push(current / d);
            }
        }
    }
    proof {
        assert(nats(stack@) =~= Seq::<nat>::empty());
        assert(nats(factors@) + Seq::<nat>::empty() =~= nats(factors@));
        lemma_factors_terminal(factors@, n0);
    }
    factors
}

/// What [`find_max_prime_factor`] gives for `n` above 1 is one of the factors
/// of [`factorization`], and none of them is larger.
pub proof fn lemma_max_prime_factor(n: nat)
    requires
        n > 1,
    ensures
        exists|i: int|
            0 <= i < factorization(n).len() && #[trigger] factorization(n)[i] == max_prime_factor(
                n,
            ),
        forall|i: int|
            0 <= i < factorization(n).len() ==> #[trigger] factorization(n)[i] <= max_prime_factor(
                n,
            ),
        max_prime_factor(n) >= 2,
        terminal(max_prime_factor(n)),
        divides(max_prime_factor(n), n),
{
    lemma_factorization(n);
    lemma_maximum(factorization(n));
    if factorization(n).len() == 0 {
        assert(product(factorization(n)) == 1);
    }
    let i = choose|i: int|
        0 <= i < factorization(n).len() && factorization(n)[i] == maximum(factorization(n));
    assert(terminal(factorization(n)[i]));
}

/// A prime that divides a product divides one of its elements.
pub proof fn lemma_prime_divides_element(s: Seq<nat>, p: nat)
    requires
        is_prime_number(p as int),
        product(s) % p == 0,
    ensures
        exists|i: int| 0 <= i < s.len() && #[trigger] s[i] % p == 0,
    decreases s.len(),
{
    if s.len() == 0 {
        vstd::arithmetic::div_mod::lemma_small_mod(1, p);
    } else {
        let rest = s.drop_last();
        crate::fermat::lemma_euclid(product(rest), s.last(), p);
        if s.last() % p == 0 {
            assert(s[s.len() - 1] % p == 0);
        } else {
            lemma_prime_divides_element(rest, p);
            let i = choose|i: int| 0 <= i < rest.len() && #[trigger] rest[i] % p == 0;
            assert(s[i] == rest[i]);
        }
    }
}

/// No prime that divides `n` is larger than what [`find_max_prime_factor`]
/// gives. So where that is a prime, it is the largest prime factor of `n`.
pub proof fn lemma_prime_divisors_bounded(n: nat, p: nat)
    requires
        n > 1,
        is_prime_number(p as int),
        n % p == 0,
    ensures
        p <= max_prime_factor(n),
{
    lemma_factorization(n);
    lemma_maximum(factorization(n));
    lemma_prime_divides_element(factorization(n), p);
    let i = choose|i: int|
        0 <= i < factorization(n).len() && #[trigger] factorization(n)[i] % p == 0;
    let f = factorization(n)[i];
    assert(f >= 2);
    lemma_divides_iff_mod(p, f);
    crate::modular::lemma_divisor_bounds(p, f);
}

/// A prime is its own factorisation, and its own largest prime factor.
pub proof fn lemma_prime_factorization(n: nat)
    requires
        is_prime_number(n as int),
    ensures
        factorization(n) == seq![n],
        max_prime_factor(n) == n,
{
    crate::fermat::lemma_primes_accepted(n);
    assert(maximum(seq![n]) == n) by {
        assert(seq![n].drop_last() =~= Seq::<nat>::empty());
        assert(maximum(Seq::<nat>::empty()) == 0);
        assert(seq![n].last() == n);
    }
    if n == 2 || n == 3 || n == 5 {
        reveal_with_fuel(strip, 2);
        reveal_with_fuel(repeated, 2);
        assert(factorization(n) =~= seq![n]);
    } else {
        assert((n as int) % 2 != 0);
        assert((n as int) % 3 != 0);
        assert((n as int) % 5 != 0);
        assert(factorization(n) =~= seq![n]);
    }
}

/// Two answers of [`find_max_prime_factor`] for one number are the same:
/// nothing but the number enters into the answer.
pub proof fn lemma_max_prime_factor_deterministic(n: u128, first: u128, second: u128)
    requires
        first == max_prime_factor(n as nat),
        second == max_prime_factor(n as nat),
    ensures
        first == second,
{
}

/// The largest prime factor of `n`, and 0 where `n` has none (`n <= 1`).
///
/// It is the largest of the values that [`factor`] gives: it divides `n`,
/// and it is terminal, that is, accepted by [`is_prime`] or a value of which
/// [`pollards_rho`] found no proper divisor. No prime that divides `n` is
/// larger. So the answer is the largest prime factor of `n` whenever it is a
/// prime, and it can fail to be one only where the primality test accepts a
/// composite number or the divisor search comes back empty-handed.
pub fn find_max_prime_factor(n: u128) -> (largest: u128)
    ensures
        largest == max_prime_factor(n as nat),
        n <= 1 ==> largest == 0,
        n > 1 ==> largest >= 2 && terminal(largest as nat) && divides(largest as nat, n as nat),
        forall|p: nat|
            n > 1 && is_prime_number(p as int) && #[trigger] (n as nat % p) == 0 ==> p <= largest,
{
    proof {
        if n > 1 {
            lemma_max_prime_factor(n as nat);
            assert forall|p: nat|
                is_prime_number(p as int) && #[trigger] (n as nat % p) == 0 implies p
                <= max_prime_factor(n as nat) by {
                lemma_prime_divisors_bounded(n as nat, p);
            }
        }
    }
    if n <= 1 {
        return 0;
    }
    let factors = factor(n);
    let mut largest: u128 = 0;
    let mut i: usize = 0;
    proof {
        assert(nats(factors@).take(0) =~= Seq::<nat>::empty());
    }
    while i < factors.len()
        invariant
            i <= factors.len(),
            largest == maximum(nats(factors@).take(i as int)),
        decreases factors.len() - i,
    {
        proof {
            let s = nats(factors@).take(i + 1);
            assert(s.drop_last() =~= nats(factors@).take(i as int));
            assert(s.last() == factors@[i as int] as nat);
        }
        if factors[i] >= largest {
            largest = factors[i];
        }
        i += 1;
    }
    proof {
        assert(nats(factors@).take(i as int) =~= nats(factors@));
        lemma_maximum(nats(factors@));
    }
    largest
}

} // verus!
