//! Making change with the fewest coins.

use vstd::prelude::*;

verus! {

/// The values of the coins, largest first.
pub const COINS: [u32; 8] = [100, 50, 30, 20, 10, 5, 2, 1];

/// `c` is the value of a coin.
pub open spec fn is_coin(c: nat) -> bool {
    exists|j: int| 0 <= j < COINS@.len() && #[trigger] COINS@[j] == c
}

/// The sum of the values in `s`.
pub open spec fn total(s: Seq<nat>) -> nat
    decreases s.len(),
{
    if s.len() == 0 {
        0
    } else {
        total(s.drop_last()) + s.last()
    }
}

/// `s` is a way to pay `amount`: coins that add up to it.
pub open spec fn pays(s: Seq<nat>, amount: nat) -> bool {
    total(s) == amount && forall|i: int| 0 <= i < s.len() ==> is_coin(#[trigger] s[i])
}

/// The fewest coins that pay `amount`, by the recurrence over the last coin:
/// none for 0, and else one more than the fewest for what is left after some
/// coin that fits.
pub open spec fn min_coins(amount: nat) -> nat
    decreases amount, 9nat,
{
    if amount == 0 {
        0
    } else {
        best_of(amount, 8)
    }
}

/// The fewest coins that pay `amount` with one of the first `j` coins as the
/// last one, and `u32::MAX` if none of them fits.
pub open spec fn best_of(amount: nat, j: nat) -> nat
    decreases amount, j,
{
    if j == 0 || j > 8 || amount == 0 {
        u32::MAX as nat
    } else {
        let before = best_of(amount, (j - 1) as nat);
        let coin = COINS@[j - 1] as nat;
        if 0 < coin <= amount && min_coins((amount - coin) as nat) + 1 < before {
            min_coins((amount - coin) as nat) + 1
        } else {
            before
        }
    }
}

/// With the first `j` coins, no last coin that fits does better than
/// [`best_of`].
proof fn lemma_best_of_bounds(amount: nat, j: nat, i: int)
    requires
        amount > 0,
        0 <= i < j <= COINS@.len(),
        COINS@[i] <= amount,
    ensures
        best_of(amount, j) <= min_coins((amount - COINS@[i]) as nat) + 1,
    decreases j,
{
    if i < j - 1 {
        lemma_best_of_bounds(amount, (j - 1) as nat, i);
    }
}

/// [`best_of`] is the limit, or is reached with one of the first `j` coins.
proof fn lemma_best_of_reached(amount: nat, j: nat)
    requires
        amount > 0,
        j <= COINS@.len(),
    ensures
        best_of(amount, j) == u32::MAX || exists|i: int|
            0 <= i < j && COINS@[i] <= amount && best_of(amount, j) == #[trigger] min_coins(
                (amount - COINS@[i]) as nat,
            ) + 1,
    decreases j,
{
    if j > 0 {
        lemma_best_of_reached(amount, (j - 1) as nat);
        let before = best_of(amount, (j - 1) as nat);
        let coin = COINS@[j - 1] as nat;
        if coin <= amount && min_coins((amount - coin) as nat) + 1 < before {
            assert(best_of(amount, j) == min_coins((amount - COINS@[j - 1]) as nat) + 1);
        } else if before != u32::MAX {
            let i = choose|i: int|
                0 <= i < j - 1 && COINS@[i] <= amount && before == #[trigger] min_coins(
                    (amount - COINS@[i]) as nat,
                ) + 1;
            assert(best_of(amount, j) == min_coins((amount - COINS@[i]) as nat) + 1);
        }
    }
}

/// Never more coins than the amount: it can be paid in ones.
pub proof fn lemma_min_coins_at_most_amount(amount: nat)
    ensures
        min_coins(amount) <= amount,
        amount >= 2 ==> min_coins(amount) < amount,
    decreases amount,
{
    if amount > 0 {
        lemma_min_coins_at_most_amount((amount - 1) as nat);
        lemma_best_of_bounds(amount, 8, 7);
        if amount >= 2 {
            lemma_min_coins_at_most_amount((amount - 2) as nat);
            lemma_best_of_bounds(amount, 8, 6);
        }
    }
}

/// No way to pay `amount` takes fewer coins than [`min_coins`].
pub proof fn lemma_min_coins_is_least(s: Seq<nat>, amount: nat)
    requires
        pays(s, amount),
    ensures
        min_coins(amount) <= s.len(),
    decreases s.len(),
{
    if s.len() == 0 {
    } else {
        let coin = s.last();
        let rest = s.drop_last();
        assert(is_coin(coin));
        let i = choose|j: int| 0 <= j < COINS@.len() && #[trigger] COINS@[j] == coin;
        assert(coin >= 1);
        assert forall|k: int| 0 <= k < rest.len() implies is_coin(#[trigger] rest[k]) by {
            assert(rest[k] == s[k]);
        }
        lemma_min_coins_is_least(rest, (amount - coin) as nat);
        lemma_best_of_bounds(amount, 8, i);
    }
}

/// Some way to pay `amount` takes exactly [`min_coins`] coins.
pub proof fn lemma_min_coins_is_paid(amount: nat) -> (s: Seq<nat>)
    requires
        amount <= u32::MAX,
    ensures
        pays(s, amount),
        s.len() == min_coins(amount),
    decreases amount,
{
    if amount == 0 {
        Seq::empty()
    } else {
        lemma_best_of_reached(amount, 8);
        lemma_min_coins_at_most_amount(amount);
        let i = choose|i: int|
            0 <= i < 8 && COINS@[i] <= amount && best_of(amount, 8) == #[trigger] min_coins(
                (amount - COINS@[i]) as nat,
            ) + 1;
        let coin = COINS@[i] as nat;
        assert(coin >= 1);
        let rest = lemma_min_coins_is_paid((amount - coin) as nat);
        let s = rest.push(coin);
        assert(s.drop_last() =~= rest);
        assert(COINS@[i] == coin);
        assert(is_coin(coin));
        assert forall|k: int| 0 <= k < s.len() implies is_coin(#[trigger] s[k]) by {
            if k < rest.len() {
                assert(s[k] == rest[k]);
            }
        }
        s
    }
}

/// The fewest coins of [`COINS`] that pay `amount`.
///
/// The table of the amounts up to `amount` is filled from the bottom, so the
/// amount has to leave room for one more entry.
pub fn dp_rec_mc(amount: u32) -> (count: u32)
    requires
        amount < usize::MAX,
    ensures
        count == min_coins(amount as nat),
{
    let mut dp: Vec<u32> = Vec::new();
    dp.push(0);
    let mut i: usize = 1;
    while i <= amount as usize
        invariant
            amount < usize::MAX,
            1 <= i <= amount + 1,
            dp@.len() == i,
            forall|k: int| 0 <= k < i ==> #[trigger] dp@[k] == min_coins(k as nat),
        decreases amount + 1 - i,
    {
        let mut best: u32 = u32::MAX;
        let mut j: usize = 0;
        while j < 8
            invariant
                1 <= i <= amount,
                j <= 8,
                dp@.len() == i,
                forall|k: int| 0 <= k < i ==> #[trigger] dp@[k] == min_coins(k as nat),
                best == best_of(i as nat, j as nat),
            decreases 8 - j,
        {
            let coin = COINS[j];
            if coin as usize <= i {
                proof {
                    lemma_min_coins_at_most_amount((i - coin) as nat);
                }
                let candidate = dp[i - coin as usize] + 1;
                if candidate < best {
                    best = candidate;
                }
            }
            j += 1;
        }
        dp.push(best);
        i += 1;
    }
    dp[amount as usize]
}

} // verus!
