//! The sum of the odd Fibonacci numbers below a threshold.

use vstd::prelude::*;

verus! {

/// The largest threshold for which the sum can be worked out in `u32`: the
/// 47th Fibonacci number, the last one that fits.
pub const MAX_THRESHOLD: u32 = 2_971_215_073;

/// The Fibonacci numbers: 0, 1, 1, 2, 3, 5 and so on.
pub open spec fn fib(n: nat) -> nat
    decreases n,
{
    if n == 0 {
        0
    } else if n == 1 {
        1
    } else {
        fib((n - 1) as nat) + fib((n - 2) as nat)
    }
}

/// `x` if it is odd, else 0.
pub open spec fn if_odd(x: nat) -> nat {
    if x % 2 == 1 {
        x
    } else {
        0
    }
}

/// The sum of the odd ones among the Fibonacci numbers from the `k`th on that
/// lie below `threshold`.
pub open spec fn odd_sum_from(k: nat, threshold: nat) -> nat
    decreases threshold + 2 - k,
    via odd_sum_from_decreases
{
    if fib(k) >= threshold {
        0
    } else {
        if_odd(fib(k)) + odd_sum_from(k + 1, threshold)
    }
}

/// A Fibonacci number below the threshold has an index below it too.
#[via_fn]
proof fn odd_sum_from_decreases(k: nat, threshold: nat) {
    lemma_fib_grows(k);
}

/// What [`odd_fibnacci_sum`] gives: 2 for the two ones that the sequence
/// begins with, and the odd Fibonacci numbers after them that lie below
/// `threshold`.
pub open spec fn odd_fib_sum(threshold: nat) -> nat {
    2 + odd_sum_from(3, threshold)
}

/// 2 for the two ones, and the odd ones among the Fibonacci numbers from the
/// third up to, and without, the `k`th.
pub open spec fn odd_total(k: nat) -> nat
    decreases k,
{
    if k <= 3 {
        2
    } else {
        odd_total((k - 1) as nat) + if_odd(fib((k - 1) as nat))
    }
}

/// The `n`th Fibonacci number is at least `n - 1`.
pub proof fn lemma_fib_grows(n: nat)
    ensures
        fib(n) + 1 >= n,
        n >= 1 ==> fib(n) >= 1,
    decreases n,
{
    if n >= 2 {
        lemma_fib_grows((n - 1) as nat);
        lemma_fib_grows((n - 2) as nat);
    }
}

/// The Fibonacci numbers do not fall.
pub proof fn lemma_fib_monotone(a: nat, b: nat)
    requires
        a <= b,
    ensures
        fib(a) <= fib(b),
    decreases b,
{
    if a < b {
        if b == 1 {
        } else {
            lemma_fib_monotone(a, (b - 1) as nat);
        }
    }
}

/// [`odd_total`] does not fall.
proof fn lemma_odd_total_monotone(a: nat, b: nat)
    requires
        a <= b,
    ensures
        odd_total(a) <= odd_total(b),
    decreases b,
{
    if a < b && b > 3 {
        lemma_odd_total_monotone(a, (b - 1) as nat);
    }
}

/// The Fibonacci numbers up to the 47th, and the sum of the odd ones below it.
proof fn lemma_odd_total_table()
    ensures
        odd_total(47) == 3_321_919_439,
        fib(46) == 1_836_311_903,
        fib(47) == 2_971_215_073,
{
    assert(fib(0) == 0);
    assert(fib(1) == 1);
    assert(fib(2) == 1);
    assert(fib(3) == 2);
    assert(fib(4) == 3);
    assert(fib(5) == 5);
    assert(fib(6) == 8);
    assert(fib(7) == 13);
    assert(fib(8) == 21);
    assert(fib(9) == 34);
    assert(fib(10) == 55);
    assert(fib(11) == 89);
    assert(fib(12) == 144);
    assert(fib(13) == 233);
    assert(fib(14) == 377);
    assert(fib(15) == 610);
    assert(fib(16) == 987);
    assert(fib(17) == 1597);
    assert(fib(18) == 2584);
    assert(fib(19) == 4181);
    assert(fib(20) == 6765);
    assert(fib(21) == 10946);
    assert(fib(22) == 17711);
    assert(fib(23) == 28657);
    assert(fib(24) == 46368);
    assert(fib(25) == 75025);
    assert(fib(26) == 121393);
    assert(fib(27) == 196418);
    assert(fib(28) == 317811);
    assert(fib(29) == 514229);
    assert(fib(30) == 832040);
    assert(fib(31) == 1346269);
    assert(fib(32) == 2178309);
    assert(fib(33) == 3524578);
    assert(fib(34) == 5702887);
    assert(fib(35) == 9227465);
    assert(fib(36) == 14930352);
    assert(fib(37) == 24157817);
    assert(fib(38) == 39088169);
    assert(fib(39) == 63245986);
    assert(fib(40) == 102334155);
    assert(fib(41) == 165580141);
    assert(fib(42) == 267914296);
    assert(fib(43) == 433494437);
    assert(fib(44) == 701408733);
    assert(fib(45) == 1134903170);
    assert(fib(46) == 1836311903);
    assert(fib(47) == 2971215073);
    assert(odd_total(3) == 2);
    assert(odd_total(4) == 2);
    assert(odd_total(5) == 5);
    assert(odd_total(6) == 10);
    assert(odd_total(7) == 10);
    assert(odd_total(8) == 23);
    assert(odd_total(9) == 44);
    assert(odd_total(10) == 44);
    assert(odd_total(11) == 99);
    assert(odd_total(12) == 188);
    assert(odd_total(13) == 188);
    assert(odd_total(14) == 421);
    assert(odd_total(15) == 798);
    assert(odd_total(16) == 798);
    assert(odd_total(17) == 1785);
    assert(odd_total(18) == 3382);
    assert(odd_total(19) == 3382);
    assert(odd_total(20) == 7563);
    assert(odd_total(21) == 14328);
    assert(odd_total(22) == 14328);
    assert(odd_total(23) == 32039);
    assert(odd_total(24) == 60696);
    assert(odd_total(25) == 60696);
    assert(odd_total(26) == 135721);
    assert(odd_total(27) == 257114);
    assert(odd_total(28) == 257114);
    assert(odd_total(29) == 574925);
    assert(odd_total(30) == 1089154);
    assert(odd_total(31) == 1089154);
    assert(odd_total(32) == 2435423);
    assert(odd_total(33) == 4613732);
    assert(odd_total(34) == 4613732);
    assert(odd_total(35) == 10316619);
    assert(odd_total(36) == 19544084);
    assert(odd_total(37) == 19544084);
    assert(odd_total(38) == 43701901);
    assert(odd_total(39) == 82790070);
    assert(odd_total(40) == 82790070);
    assert(odd_total(41) == 185124225);
    assert(odd_total(42) == 350704366);
    assert(odd_total(43) == 350704366);
    assert(odd_total(44) == 784198803);
    assert(odd_total(45) == 1485607536);
    assert(odd_total(46) == 1485607536);
    assert(odd_total(47) == 3321919439);
}

/// The sum of the odd Fibonacci numbers below `threshold`, the two ones that
/// the sequence begins with included: they count even where the threshold is
/// 0 or 1.
pub fn odd_fibnacci_sum(threshold: u32) -> (sum: u32)
    requires
        threshold <= MAX_THRESHOLD,
    ensures
        sum == odd_fib_sum(threshold as nat),
{
    let mut a: u32 = 1;
    let mut b: u32 = 1;

    let mut sum: u32 = 2;
    let mut tmp: u32 = 0;
    let ghost mut k: nat = 2;
    proof {
        lemma_odd_total_table();
    }
    while tmp < threshold
        invariant
            threshold <= MAX_THRESHOLD,
            fib(47) == 2_971_215_073,
            odd_total(47) == 3_321_919_439,
            2 <= k <= 47,
            k == 2 ==> tmp == 0 && a == 1 && b == 1 && sum == 2,
            k >= 3 ==> tmp == fib(k) && b == fib(k) && a == fib((k - 1) as nat),
            sum == odd_total(k),
            sum + (if k == 2 {
                odd_sum_from(3, threshold as nat)
            } else {
                odd_sum_from(k, threshold as nat)
            }) == odd_fib_sum(threshold as nat),
        decreases 47 - k,
    {
        proof {
            if k >= 3 {
                assert(k < 47);
                lemma_fib_monotone(k + 1, 47);
                lemma_odd_total_monotone(k + 1, 47);
            } else {
                lemma_fib_monotone(3, 47);
                assert(fib(3) == 2) by {
                    reveal_with_fuel(fib, 4);
                }
                assert(fib(2) == 1) by {
                    reveal_with_fuel(fib, 3);
                }
            }
        }
        if tmp % 2 == 1 {
            sum += tmp;
        }
        tmp = a + b;
        a = b;
        b = tmp;
        proof {
            k = k + 1;
        }
    }

    sum
}

} // verus!
