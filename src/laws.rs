//! Properties of the supply controller that span operations.

use vstd::prelude::*;
use crate::bid::{BlockNumber, Bond, Coins};
use crate::policy::{
    all_in_step, bond_expiration, contract_post, expand_post, expansion, handout_credits,
    lemma_credits_sum_concat, lemma_settle_bonds_pays, lemma_settle_keeps_queue, lemma_share_credits_total,
    settle_bonds,
};
use crate::ledger::credits_sum;
use crate::stablecoin::{Error, Stablecoin, StablecoinView};

verus! {

/// The payments of an expansion add up to the amount minted.
pub proof fn lemma_expansion_pays_amount(s: StablecoinView, amount: Coins, now: BlockNumber)
    ensures
        expansion(s, amount, now) matches Ok((_, credits)) ==> credits_sum(credits) == amount,
{
    if let Ok((bonds, credits)) = expansion(s, amount, now) {
        let (b, paid, left) = settle_bonds(s.bonds, amount, now);
        lemma_settle_bonds_pays(s.bonds, amount, now);
        if left != 0 {
            let shared = handout_credits(s, left)->Ok_0;
            lemma_share_credits_total(s.shares, s.share_supply, left);
            lemma_credits_sum_concat(paid, shared);
        }
    }
}

/// Every coin that an expansion mints is credited to a balance: the supply and the
/// sum of all balances grow by the same amount.
pub proof fn lemma_expansion_conserves(
    pre: Stablecoin,
    post: Stablecoin,
    r: Result<(), Error>,
    amount: Coins,
    now: BlockNumber,
)
    requires
        expand_post(pre, post, r, amount, now),
        r is Ok,
    ensures
        post@.coin_supply == pre@.coin_supply + amount,
        post@.coin_supply - post@.balances.total() == pre@.coin_supply - pre@.balances.total(),
{
    lemma_expansion_pays_amount(pre@, amount, now);
}

/// A contraction leaves every balance as it was and lowers the supply by the coins
/// burned, which are never more than the amount asked for.
pub proof fn lemma_contraction_burns(
    pre: Stablecoin,
    post: Stablecoin,
    r: Result<(), Error>,
    amount: Coins,
    now: BlockNumber,
)
    requires
        pre@.wf(),
        contract_post(pre, post, r, amount, now),
        r is Ok,
    ensures
        post@.balances == pre@.balances,
        pre@.coin_supply - amount <= post@.coin_supply <= pre@.coin_supply,
{
    let exp = match bond_expiration(now, pre@.expiration_period) {
        Some(e) => e,
        None => 0,
    };
    lemma_settle_keeps_queue(pre@.bids, amount, pre@.maximum_bids, exp);
}

/// The payouts owed on bonds not yet expired at `now`.
pub open spec fn live_payouts(bonds: Seq<Bond>, now: BlockNumber) -> int
    decreases bonds.len(),
{
    if bonds.len() == 0 {
        0
    } else {
        live_payouts(bonds.drop_last(), now) + if now < bonds.last().expiration {
            bonds.last().payout as int
        } else {
            0
        }
    }
}

/// The supply equals all balances plus the payouts owed on live bonds.
pub open spec fn conserved(s: StablecoinView, now: BlockNumber) -> bool {
    s.coin_supply == s.balances.total() + live_payouts(s.bonds, now)
}

proof fn lemma_expired_bonds(bonds: Seq<Bond>, remaining: Coins, now: BlockNumber)
    requires
        forall|i: int| 0 <= i < bonds.len() ==> now >= #[trigger] bonds[i].expiration,
    ensures
        live_payouts(bonds, now) == 0,
        live_payouts(settle_bonds(bonds, remaining, now).0, now) == 0,
        settle_bonds(bonds, remaining, now).1.len() == 0,
    decreases bonds.len(),
{
    if bonds.len() > 0 {
        let rest = bonds.drop_first();
        assert forall|i: int| 0 <= i < rest.len() implies now >= #[trigger] rest[i].expiration by {
            assert(rest[i] == bonds[i + 1]);
        }
        let init = bonds.drop_last();
        assert forall|i: int| 0 <= i < init.len() implies now >= #[trigger] init[i].expiration by {
            assert(init[i] == bonds[i]);
        }
        lemma_expired_bonds(rest, remaining, now);
        lemma_expired_bonds(init, remaining, now);
    }
}

/// Conservation across an expansion, where no bond is live: the minted coins all go
/// to the shareholders' balances, and the supply still equals the balances plus the
/// live bonds. (Paying a live bond mints coins against a payout already owed, so
/// there the equation does not carry over.)
pub proof fn lemma_conservation_expand(
    pre: Stablecoin,
    post: Stablecoin,
    r: Result<(), Error>,
    amount: Coins,
    now: BlockNumber,
)
    requires
        conserved(pre@, now),
        forall|i: int| 0 <= i < pre@.bonds.len() ==> now >= #[trigger] pre@.bonds[i].expiration,
        expand_post(pre, post, r, amount, now),
        r is Ok,
    ensures
        conserved(post@, now),
{
    lemma_expansion_pays_amount(pre@, amount, now);
    lemma_expired_bonds(pre@.bonds, amount, now);
}

/// Conservation across a contraction that finds no bid: nothing is burned and no
/// bond is issued. (A served bid burns its coins yet adds a bond's payout, so there
/// the equation does not carry over.)
pub proof fn lemma_conservation_contract(
    pre: Stablecoin,
    post: Stablecoin,
    r: Result<(), Error>,
    amount: Coins,
    now: BlockNumber,
)
    requires
        conserved(pre@, now),
        pre@.bids.len() == 0,
        contract_post(pre, post, r, amount, now),
    ensures
        conserved(post@, now),
{
    if r is Ok {
        assert(pre@.bonds + Seq::<Bond>::empty() =~= pre@.bonds);
    }
}

/// A contraction that succeeds leaves every bid in step, coins and quantity both zero
/// or both positive, where every bid was in step before: a partly consumed bid that
/// would fall out of step fails the contraction instead.
pub proof fn lemma_contraction_keeps_bids_in_step(
    pre: Stablecoin,
    post: Stablecoin,
    r: Result<(), Error>,
    amount: Coins,
    now: BlockNumber,
)
    requires
        pre@.wf(),
        all_in_step(pre@.bids),
        contract_post(pre, post, r, amount, now),
        r is Ok,
    ensures
        all_in_step(post@.bids),
{
    let exp = match bond_expiration(now, pre@.expiration_period) {
        Some(e) => e,
        None => 0,
    };
    lemma_settle_keeps_queue(pre@.bids, amount, pre@.maximum_bids, exp);
}

} // verus!
