//! Pro-rata payout of newly minted coins to the shareholders.

use vstd::prelude::*;
use crate::bid::{AccountId, Coins};

verus! {

/// Coins paid per share: `amount / share_supply`, but at least one.
pub open spec fn coins_per_share(amount: Coins, share_supply: u64) -> int
    recommends
        share_supply > 0,
{
    if amount as int / share_supply as int >= 1 {
        amount as int / share_supply as int
    } else {
        1
    }
}

/// Whether one coin per share leaves part of `amount` unpaid, so that the first
/// `amount % holders` shareholders get one extra coin.
pub open spec fn pays_extra(amount: Coins, share_supply: u64, holders: nat) -> bool {
    coins_per_share(amount, share_supply) * holders < amount
}

/// What shareholder `i` is due before the payout is capped at `amount`.
pub open spec fn nominal_payout(
    shares: Seq<(AccountId, u64)>,
    share_supply: u64,
    amount: Coins,
    i: int,
) -> int
    recommends
        share_supply > 0,
        shares.len() > 0,
        0 <= i < shares.len(),
{
    shares[i].1 * coins_per_share(amount, share_supply) + if pays_extra(
        amount,
        share_supply,
        shares.len(),
    ) && i < amount as int % shares.len() as int {
        1int
    } else {
        0int
    }
}

/// What the first `k` shareholders are due before the cap.
pub open spec fn nominal_prefix(
    shares: Seq<(AccountId, u64)>,
    share_supply: u64,
    amount: Coins,
    k: int,
) -> int
    decreases k,
{
    if k <= 0 {
        0
    } else {
        nominal_prefix(shares, share_supply, amount, k - 1) + nominal_payout(
            shares,
            share_supply,
            amount,
            k - 1,
        )
    }
}

/// `a` capped at `cap`.
pub open spec fn capped(a: int, cap: int) -> int {
    if a <= cap {
        a
    } else {
        cap
    }
}

/// What shareholder `i` is paid: its due, within what is left of `amount` after the
/// shareholders before it were paid.
pub open spec fn payout_at(
    shares: Seq<(AccountId, u64)>,
    share_supply: u64,
    amount: Coins,
    i: int,
) -> int {
    capped(nominal_prefix(shares, share_supply, amount, i + 1), amount as int) - capped(
        nominal_prefix(shares, share_supply, amount, i),
        amount as int,
    )
}

/// What all shareholders are paid together.
pub open spec fn payout_total(shares: Seq<(AccountId, u64)>, share_supply: u64, amount: Coins) -> int {
    capped(nominal_prefix(shares, share_supply, amount, shares.len() as int), amount as int)
}

/// The sum of `amounts`.
pub open spec fn sum_of(amounts: Seq<Coins>) -> int
    decreases amounts.len(),
{
    if amounts.len() == 0 {
        0
    } else {
        sum_of(amounts.drop_last()) + amounts.last()
    }
}

pub(crate) proof fn lemma_nominal_nonneg(shares: Seq<(AccountId, u64)>, share_supply: u64, amount: Coins, k: int)
    requires
        share_supply > 0,
    ensures
        0 <= nominal_prefix(shares, share_supply, amount, k),
        forall|j: int| 0 <= j <= k ==> nominal_prefix(shares, share_supply, amount, j) <= #[trigger] nominal_prefix(shares, share_supply, amount, k),
    decreases k,
{
    if k > 0 {
        lemma_nominal_nonneg(shares, share_supply, amount, k - 1);
        let c = coins_per_share(amount, share_supply);
        assert(shares[k - 1].1 * c >= 0) by (nonlinear_arith)
            requires
                c >= 1,
                shares[k - 1].1 >= 0,
        ;
    }
}

/// The payout to each shareholder, in registry order, and their sum.
pub fn shareholder_payouts(shares: &Vec<(AccountId, u64)>, share_supply: u64, amount: Coins) -> (r: (Vec<Coins>, Coins))
    requires
        share_supply > 0,
        shares@.len() > 0,
    ensures
        r.0@.len() == shares@.len(),
        forall|i: int| 0 <= i < r.0@.len() ==> r.0@[i] == payout_at(shares@, share_supply, amount, i),
        sum_of(r.0@) == payout_total(shares@, share_supply, amount),
        r.1 == payout_total(shares@, share_supply, amount),
{
    let len = shares.len() as u64;
    let per_share: u64 = if amount / share_supply >= 1 {
        amount / share_supply
    } else {
        1
    };
    assert((per_share as u128) * (len as u128) <= u64::MAX as int * u64::MAX as int) by (nonlinear_arith)
        requires
            per_share <= u64::MAX,
            len <= u64::MAX,
    ;
    let pay_extra = (per_share as u128) * (len as u128) < amount as u128;
    let extra_below = amount % len;
    let mut payouts: Vec<Coins> = Vec::new();
    let mut paid: Coins = 0;
    let mut i: usize = 0;
    proof {
        assert(pay_extra == pays_extra(amount, share_supply, shares@.len()));
    }
    while i < shares.len()
        invariant
            share_supply > 0,
            len == shares@.len(),
            per_share == coins_per_share(amount, share_supply),
            pay_extra == pays_extra(amount, share_supply, shares@.len()),
            extra_below == amount as int % shares@.len() as int,
            i <= shares@.len(),
            payouts@.len() == i,
            paid == capped(nominal_prefix(shares@, share_supply, amount, i as int), amount as int),
            sum_of(payouts@) == paid,
            forall|j: int| 0 <= j < i ==> payouts@[j] == payout_at(shares@, share_supply, amount, j),
        decreases shares@.len() - i,
    {
        proof {
            lemma_nominal_nonneg(shares@, share_supply, amount, i as int);
        }
        let extra: u128 = if pay_extra && (i as u64) < extra_below {
            1
        } else {
            0
        };
        let count = shares[i].1;
        assert((count as u128) * (per_share as u128) <= u64::MAX as int * u64::MAX as int) by (nonlinear_arith)
            requires count <= u64::MAX, per_share <= u64::MAX;
        let due: u128 = (count as u128) * (per_share as u128) + extra;
        let left = amount - paid;
        let payout: Coins = if due < left as u128 {
            due as u64
        } else {
            left
        };
        assert(due == nominal_payout(shares@, share_supply, amount, i as int));
        proof {
            let ghost_payouts = payouts@.push(payout);
            assert(ghost_payouts.drop_last() =~= payouts@);
        }
        payouts.push(payout);
        paid = paid + payout;
        i += 1;
    }
    (payouts, paid)
}

proof fn lemma_single_share_prefix(shares: Seq<(AccountId, u64)>, amount: Coins, k: int)
    requires
        shares.len() > 0,
        shares.len() <= u64::MAX,
        forall|i: int| 0 <= i < shares.len() ==> #[trigger] shares[i].1 == 1,
        0 <= k <= shares.len(),
    ensures
        nominal_prefix(shares, shares.len() as u64, amount, k) == k * coins_per_share(
            amount,
            shares.len() as u64,
        ) + if pays_extra(amount, shares.len() as u64, shares.len()) {
            if k <= amount as int % shares.len() as int {
                k
            } else {
                amount as int % shares.len() as int
            }
        } else {
            0
        },
    decreases k,
{
    let c = coins_per_share(amount, shares.len() as u64);
    if k > 0 {
        lemma_single_share_prefix(shares, amount, k - 1);
        assert(k * c == (k - 1) * c + c) by (nonlinear_arith);
        assert(shares[k - 1].1 * c == c);
        assert(nominal_prefix(shares, shares.len() as u64, amount, k) == nominal_prefix(
            shares,
            shares.len() as u64,
            amount,
            k - 1,
        ) + nominal_payout(shares, shares.len() as u64, amount, k - 1));
    } else {
        assert(k * c == 0) by (nonlinear_arith)
            requires
                k == 0,
        ;
    }
}

/// With one share per holder and as many shares as holders, a payout of `amount`
/// is paid out in full, and each holder gets `amount / holders` coins, or one more.
pub proof fn lemma_even_handout(shares: Seq<(AccountId, u64)>, amount: Coins)
    requires
        shares.len() > 0,
        shares.len() <= u64::MAX,
        forall|i: int| 0 <= i < shares.len() ==> #[trigger] shares[i].1 == 1,
    ensures
        payout_total(shares, shares.len() as u64, amount) == amount,
        forall|i: int|
            0 <= i < shares.len() ==> amount as int / shares.len() as int <= #[trigger] payout_at(
                shares,
                shares.len() as u64,
                amount,
                i,
            ) <= amount as int / shares.len() as int + 1,
{
    let n = shares.len() as int;
    let supply = shares.len() as u64;
    let q = amount as int / n;
    let r = amount as int % n;
    let c = coins_per_share(amount, supply);
    assert(amount as int == n * q + r && 0 <= r < n) by (nonlinear_arith)
        requires
            n > 0,
            q == amount as int / n,
            r == amount as int % n,
    ;
    lemma_single_share_prefix(shares, amount, n);
    if q >= 1 {
        assert(c == q);
        assert(pays_extra(amount, supply, shares.len()) == (r > 0)) by (nonlinear_arith)
            requires
                c == q,
                amount as int == n * q + r,
                0 <= r,
                pays_extra(amount, supply, shares.len()) == (c * n < amount),
        ;
        assert forall|i: int| 0 <= i < n implies amount as int / n <= #[trigger] payout_at(
            shares,
            supply,
            amount,
            i,
        ) <= amount as int / n + 1 by {
            lemma_single_share_prefix(shares, amount, i);
            lemma_single_share_prefix(shares, amount, i + 1);
            assert((i + 1) * q == i * q + q) by (nonlinear_arith);
            assert(i * q + q <= n * q) by (nonlinear_arith)
                requires
                    i + 1 <= n,
                    q >= 0,
            ;
        }
    } else {
        assert(c == 1);
        assert(q == 0);
        assert(amount < n && !pays_extra(amount, supply, shares.len())) by (nonlinear_arith)
            requires
                c == 1,
                amount as int == n * q + r,
                q == 0,
                r < n,
                pays_extra(amount, supply, shares.len()) == (c * n < amount),
        ;
        assert forall|i: int| 0 <= i < n implies amount as int / n <= #[trigger] payout_at(
            shares,
            supply,
            amount,
            i,
        ) <= amount as int / n + 1 by {
            lemma_single_share_prefix(shares, amount, i);
            lemma_single_share_prefix(shares, amount, i + 1);
        }
    }
}

} // verus!
