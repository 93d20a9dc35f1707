//! Goldbach's other conjecture: every odd composite number is the sum of a
//! prime and twice a square. It is false, and this module looks for the
//! numbers that refute it.

use crate::primality::is_prime_number;
use crate::text::{comma_separated, push_decimal, string_of};
use vstd::arithmetic::div_mod::{lemma_fundamental_div_mod, lemma_mod_multiples_vanish};
use vstd::prelude::*;

verus! {

/// `n` is the sum of a prime and twice the square of a positive number.
pub open spec fn prime_plus_twice_square(n: int) -> bool {
    exists|x: int| 1 <= x && #[trigger] is_prime_number(n - 2 * x * x)
}

/// `n` refutes the conjecture: an odd composite number from 9 on that is no
/// sum of a prime and twice a square.
pub open spec fn is_exception(n: int) -> bool {
    n >= 9 && n % 2 == 1 && !is_prime_number(n) && !prime_plus_twice_square(n)
}

/// The numbers below `bound` that refute the conjecture, in rising order.
pub open spec fn exceptions_below(bound: int) -> Seq<int>
    decreases bound,
{
    if bound <= 9 {
        Seq::empty()
    } else if is_exception(bound - 1) {
        exceptions_below(bound - 1).push(bound - 1)
    } else {
        exceptions_below(bound - 1)
    }
}

/// The first `count` numbers below `bound` that refute the conjecture, or all
/// of them if there are fewer.
pub open spec fn first_exceptions(count: int, bound: int) -> Seq<int> {
    let all = exceptions_below(bound);
    if all.len() <= count {
        all
    } else {
        all.take(count)
    }
}

/// The elements of a vector of `i32` as integers.
pub open spec fn ints(s: Seq<i32>) -> Seq<int> {
    s.map_values(|v: i32| v as int)
}

/// A number with a divisor above its root has one below it too.
proof fn lemma_small_divisor(n: int, d: int)
    requires
        2 <= d < n,
        n % d == 0,
    ensures
        2 <= n / d < n,
        n % (n / d) == 0,
        d * (n / d) == n,
{
    lemma_fundamental_div_mod(n, d);
    let q = n / d;
    assert(2 <= q < n) by (nonlinear_arith)
        requires
            n == d * q,
            2 <= d < n,
    ;
    lemma_mod_multiples_vanish(d, 0, q);
    assert(q * d + 0 == n) by (nonlinear_arith)
        requires
            n == d * q,
    ;
}

/// Decides whether `n` is prime, by trial division up to its root.
pub fn is_prime(n: i32) -> (prime: bool)
    ensures
        prime == is_prime_number(n as int),
{
    if n < 2 {
        return false;
    }
    let mut i: i32 = 2;
    while i <= n / i
        invariant
            2 <= i <= n,
            forall|d: int| 2 <= d < i ==> #[trigger] (n as int % d) != 0,
        decreases n - i,
    {
        if n % i == 0 {
            proof {
                assert(i < n) by (nonlinear_arith)
                    requires
                        2 <= i,
                        i <= n / i,
                        n >= 2,
                ;
            }
            return false;
        }
        proof {
            assert(i + 1 <= n) by (nonlinear_arith)
                requires
                    2 <= i,
                    i <= n / i,
                    n >= 2,
            ;
        }
        i += 1;
    }
    proof {
        assert forall|d: int| 2 <= d < n implies #[trigger] (n as int % d) != 0 by {
            if d >= i && n as int % d == 0 {
                lemma_small_divisor(n as int, d);
                let q = n as int / d;
                assert(q < i) by (nonlinear_arith)
                    requires
                        d * q == n,
                        d >= i,
                        i > n as int / (i as int),
                        i >= 2,
                        q >= 2,
                ;
                assert(n as int % q != 0);
            }
        }
    }
    true
}

/// Decides whether `n` is the sum of a prime and twice a square.
pub fn is_prime_plus_twice_square(n: i32) -> (found: bool)
    ensures
        found == prime_plus_twice_square(n as int),
{
    if n < 4 {
        proof {
            lemma_no_larger_square(n as int, 1);
        }
        return false;
    }
    let mut x: i32 = 1;
    let mut twice_square: i32 = 2;
    while twice_square <= n - 2
        invariant
            n >= 4,
            1 <= x,
            twice_square == 2 * x * x,
            forall|y: int| 1 <= y < x ==> !#[trigger] is_prime_number(n - 2 * y * y),
        decreases n - twice_square,
    {
        let p = n - twice_square;
        if is_prime(p) {
            return true;
        }
        proof {
            assert(2 * (x + 1) * (x + 1) == 2 * x * x + 4 * x + 2) by (nonlinear_arith);
            assert(x <= 2 * x * x) by (nonlinear_arith)
                requires
                    x >= 1,
            ;
        }
        let next = twice_square as i64 + 4 * (x as i64) + 2;
        if next > (n - 2) as i64 {
            proof {
                lemma_no_larger_square(n as int, x + 1);
            }
            return false;
        }
        twice_square = next as i32;
        x += 1;
    }
    proof {
        lemma_no_larger_square(n as int, x as int);
    }
    false
}

/// From a square that is already too large on, no square leaves a prime.
proof fn lemma_no_larger_square(n: int, x: int)
    requires
        x >= 1,
        2 * x * x > n - 2,
    ensures
        forall|y: int| y >= x ==> !#[trigger] is_prime_number(n - 2 * y * y),
{
    assert forall|y: int| y >= x implies !#[trigger] is_prime_number(n - 2 * y * y) by {
        assert(2 * y * y >= 2 * x * x) by (nonlinear_arith)
            requires
                y >= x,
                x >= 1,
        ;
    }
}

/// The first `count` numbers below `bound` that refute the conjecture, in
/// rising order: all of them if there are fewer than `count`.
pub fn goldbach_exceptions(count: usize, bound: i32) -> (found: Vec<i32>)
    ensures
        ints(found@) == first_exceptions(count as int, bound as int),
        forall|k: int| 0 <= k < found@.len() ==> is_exception(#[trigger] found@[k] as int),
{
    let mut result: Vec<i32> = Vec::new();
    proof {
        assert(ints(result@) =~= exceptions_below(9));
    }
    let mut n: i32 = 9;
    while n < bound && result.len() < count
        invariant
            9 <= n,
            n % 2 == 1,
            n - 2 < bound || n == 9,
            result@.len() <= count,
            ints(result@) == exceptions_below(n as int),
        decreases bound + 2 - n,
    {
        let ghost before = exceptions_below(n as int);
        if !is_prime(n) && !is_prime_plus_twice_square(n) {
            proof {
                assert(ints(result@.push(n)) =~= before.push(n as int));
            }
            result.push(n);
        }
        proof {
            assert(!is_exception(n + 1));
            assert(exceptions_below(n + 1) == (if is_exception(n as int) {
                before.push(n as int)
            } else {
                before
            }));
            assert(exceptions_below(n + 2) == exceptions_below(n + 1));
        }
        n += 2;
    }
    proof {
        let all = exceptions_below(bound as int);
        if n <= bound {
            lemma_exceptions_prefix(n as int, bound as int);
            if all.len() <= count {
                assert(all.take(all.len() as int) =~= all);
            }
        } else {
            lemma_exceptions_even_gap(n as int, bound as int);
            assert(all.take(all.len() as int) =~= all);
        }
        lemma_exceptions_are_exceptions(n as int);
        assert forall|k: int| 0 <= k < result@.len() implies is_exception(
            #[trigger] result@[k] as int,
        ) by {
            assert(ints(result@)[k] == result@[k] as int);
        }
    }
    result
}

/// The exceptions below a bound begin with those below a smaller bound.
proof fn lemma_exceptions_prefix(low: int, high: int)
    requires
        low <= high,
    ensures
        exceptions_below(low).len() <= exceptions_below(high).len(),
        exceptions_below(high).take(exceptions_below(low).len() as int) == exceptions_below(low),
    decreases high - low,
{
    if low < high {
        lemma_exceptions_prefix(low, high - 1);
        let a = exceptions_below(low);
        let b = exceptions_below(high - 1);
        if high > 9 && is_exception(high - 1) {
            assert(b.push(high - 1).take(a.len() as int) =~= b.take(a.len() as int));
        }
    } else {
        assert(exceptions_below(low).take(exceptions_below(low).len() as int) =~= exceptions_below(
            low,
        ));
    }
}

/// An odd `n` that is at least `bound` has the exceptions below `bound`
/// among those below `n`, and no other when it is at most one step past.
proof fn lemma_exceptions_even_gap(n: int, bound: int)
    requires
        n >= bound,
        n >= 9,
        n % 2 == 1,
        n - 2 < bound || n == 9,
    ensures
        exceptions_below(n) == exceptions_below(bound),
{
    if n == 9 {
    } else if bound == n {
    } else {
        assert(bound == n - 1);
        assert(!is_exception(n - 1));
    }
}

/// The first two numbers that refute the conjecture, with a comma between
/// them: those below `i32::MAX`, and fewer if there are fewer.
pub fn goldbach_conjecture() -> (line: String)
    ensures
        line@ == comma_separated(
            first_exceptions(2, i32::MAX as int).map_values(|n: int| n as nat),
        ),
{
    let found = goldbach_exceptions(2, i32::MAX);
    let ghost numbers = first_exceptions(2, i32::MAX as int).map_values(|n: int| n as nat);
    let mut out: Vec<char> = Vec::new();
    let mut i: usize = 0;
    proof {
        assert(numbers.take(0) =~= Seq::<nat>::empty());
    }
    while i < found.len()
        invariant
            i <= found.len(),
            ints(found@) == first_exceptions(2, i32::MAX as int),
            numbers == first_exceptions(2, i32::MAX as int).map_values(|n: int| n as nat),
            forall|k: int| 0 <= k < found@.len() ==> is_exception(#[trigger] found@[k] as int),
            out@ == comma_separated(numbers.take(i as int)),
        decreases found.len() - i,
    {
        proof {
            let next = numbers.take(i + 1);
            assert(next.drop_last() =~= numbers.take(i as int));
            assert(ints(found@)[i as int] == found@[i as int] as int);
            assert(next.last() == found@[i as int] as nat);
            if i > 0 {
                assert(next.len() > 1);
            } else {
                assert(next =~= seq![numbers[0]]);
            }
        }
        if i > 0 {
            out.push(',');
        }
        push_decimal(&mut out, found[i] as u64);
        i += 1;
    }
    proof {
        assert(numbers.take(i as int) =~= numbers);
    }
    string_of(&out)
}

/// The numbers of [`exceptions_below`] do refute the conjecture.
proof fn lemma_exceptions_are_exceptions(bound: int)
    ensures
        forall|k: int|
            0 <= k < exceptions_below(bound).len() ==> is_exception(
                #[trigger] exceptions_below(bound)[k],
            ),
    decreases bound,
{
    if bound > 9 {
        lemma_exceptions_are_exceptions(bound - 1);
        let before = exceptions_below(bound - 1);
        assert forall|k: int| 0 <= k < exceptions_below(bound).len() implies is_exception(
            #[trigger] exceptions_below(bound)[k],
        ) by {
            if k < before.len() {
                assert(exceptions_below(bound)[k] == before[k]);
            }
        }
    }
}

} // verus!
