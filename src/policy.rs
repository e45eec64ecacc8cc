//! What each operation on the coin does, stated over its view, and the lemmas that
//! the operations' proofs rest on.

use vstd::prelude::*;
use crate::arith::{billionths_of_ratio, mul_acc_of, perbill_of, BILLION};
use crate::bid::{insert_bid, lemma_insert_keeps_order, lemma_insert_members, spend, AccountId, Bid, BlockNumber, Bond, Coins};
use crate::ledger::{credited, credits_sum, Ledger};
use crate::payout::{capped, lemma_nominal_nonneg, nominal_prefix, payout_at, payout_total, sum_of};
use crate::stablecoin::{bid_queue_ok, error_of, Error, Stablecoin, StablecoinView, BASE_UNIT, COIN_SUPPLY, MINIMUM_BOND_PAYOUT, MINIMUM_BOND_PRICE};

verus! {

/// Burns up to `remaining` coins against `bids`, highest price first: the bid queue
/// afterwards, the bonds issued in order, and the coins that found no bid.
///
/// A bid that costs no less than what is left is partly consumed: it yields a bond of
/// the quantity bought and goes back into the queue if coins and quantity are left.
/// A cheaper bid is consumed whole and yields a bond of its whole quantity.
pub open spec fn settle_bids(
    bids: Seq<Bid>,
    remaining: Coins,
    max: nat,
    expiration: BlockNumber,
) -> Result<(Seq<Bid>, Seq<Bond>, Coins), Error>
    decreases bids.len(),
{
    if remaining == 0 || bids.len() == 0 {
        Ok((bids, Seq::empty(), remaining))
    } else {
        let bid = bids[0];
        let rest = bids.drop_first();
        if bid.price_in_coins >= remaining {
            match spend(bid, remaining) {
                Err(e) => Err(error_of(e)),
                Ok((left, removed)) => {
                    let bond = Bond { account: bid.account, payout: removed, expiration };
                    if left.price_in_coins > 0 && left.quantity > 0 {
                        Ok((insert_bid(rest, left, max), seq![bond], 0))
                    } else if left.price_in_coins != left.quantity {
                        Err(Error::Unexpected)
                    } else {
                        Ok((rest, seq![bond], 0))
                    }
                },
            }
        } else {
            let bond = Bond { account: bid.account, payout: bid.quantity, expiration };
            with_bonds_before(
                seq![bond],
                settle_bids(rest, (remaining - bid.price_in_coins) as u64, max, expiration),
            )
        }
    }
}

/// `r` with `bonds` issued before its own bonds.
pub open spec fn with_bonds_before(
    bonds: Seq<Bond>,
    r: Result<(Seq<Bid>, Seq<Bond>, Coins), Error>,
) -> Result<(Seq<Bid>, Seq<Bond>, Coins), Error> {
    match r {
        Ok((b, issued, left)) => Ok((b, bonds + issued, left)),
        Err(e) => Err(e),
    }
}

pub(crate) proof fn lemma_with_bonds_before(
    a: Seq<Bond>,
    b: Seq<Bond>,
    r: Result<(Seq<Bid>, Seq<Bond>, Coins), Error>,
)
    ensures
        with_bonds_before(a, with_bonds_before(b, r)) == with_bonds_before(a + b, r),
{
    match r {
        Ok((x, issued, left)) => {
            assert(a + (b + issued) =~= (a + b) + issued);
        },
        Err(_) => {},
    }
}

/// The outcome of contracting the supply by `amount` at block `now`: the bid queue
/// afterwards, the bonds issued, and the coins left unburned.
///
/// The supply must stay at one coin or more. A bond issued at `now` must have an
/// expiration that fits in a block number.
pub open spec fn contraction(s: StablecoinView, amount: Coins, now: BlockNumber) -> Result<
    (Seq<Bid>, Seq<Bond>, Coins),
    Error,
> {
    if amount > s.coin_supply {
        Err(Error::CoinUnderflow)
    } else if s.coin_supply - amount < 1 {
        Err(Error::CoinOverflow)
    } else if amount > 0 && s.bids.len() > 0 && bond_expiration(now, s.expiration_period) is None {
        Err(Error::GenericOverflow)
    } else {
        settle_bids(
            s.bids,
            amount,
            s.maximum_bids,
            match bond_expiration(now, s.expiration_period) {
                Some(e) => e,
                None => 0,
            },
        )
    }
}

/// What `contract_supply(amount, now)` does: on success the remaining bids replace the
/// queue, the new bonds join the bond queue, and the supply falls by the coins burned;
/// on an error nothing changes.
pub open spec fn contract_post(
    pre: Stablecoin,
    post: Stablecoin,
    r: Result<(), Error>,
    amount: Coins,
    now: BlockNumber,
) -> bool {
    match contraction(pre@, amount, now) {
        Err(e) => r == Err::<(), Error>(e) && post == pre,
        Ok((bids, issued, left)) => {
            &&& r == Ok::<(), Error>(())
            &&& post@ == (StablecoinView {
                bids,
                bonds: pre@.bonds + issued,
                coin_supply: (pre@.coin_supply - (amount - left)) as u64,
                ..pre@
            })
        },
    }
}

/// Every bid is in step: its coins and its quantity are both zero or both positive.
pub open spec fn all_in_step(bids: Seq<Bid>) -> bool {
    forall|i: int| 0 <= i < bids.len() ==> (#[trigger] bids[i]).in_step()
}

/// Settling keeps the bid queue valid and sorted within its bound, and keeps every bid
/// in step where every bid was.
pub proof fn lemma_settle_keeps_queue(
    bids: Seq<Bid>,
    remaining: Coins,
    max: nat,
    expiration: BlockNumber,
)
    requires
        bid_queue_ok(bids, max),
    ensures
        settle_bids(bids, remaining, max, expiration) matches Ok((b, _, left)) ==> {
            &&& bid_queue_ok(b, max)
            &&& left <= remaining
            &&& all_in_step(bids) ==> all_in_step(b)
        },
    decreases bids.len(),
{
    if remaining == 0 || bids.len() == 0 {
    } else {
        let bid = bids[0];
        let rest = bids.drop_first();
        assert(bid_queue_ok(rest, max)) by {
            assert forall|i: int| 0 <= i < rest.len() implies (#[trigger] rest[i]).wf() by {
                assert(rest[i] == bids[i + 1]);
            }
            assert forall|i: int, j: int| 0 <= i < j < rest.len() implies rest[i].price
                >= rest[j].price by {
                assert(rest[i] == bids[i + 1]);
                assert(rest[j] == bids[j + 1]);
            }
        }
        assert(all_in_step(bids) ==> all_in_step(rest)) by {
            if all_in_step(bids) {
                assert forall|i: int| 0 <= i < rest.len() implies (#[trigger] rest[i]).in_step() by {
                    assert(rest[i] == bids[i + 1]);
                }
            }
        }
        assert(bid.wf());
        if bid.price_in_coins >= remaining {
            if let Ok((left, removed)) = spend(bid, remaining) {
                if left.price_in_coins > 0 && left.quantity > 0 {
                    lemma_insert_keeps_order(rest, left, max);
                    lemma_insert_members(rest, left, max);
                    let b = insert_bid(rest, left, max);
                    assert forall|i: int| 0 <= i < b.len() implies (#[trigger] b[i]).wf()
                        && (all_in_step(bids) ==> b[i].in_step()) by {
                        let x = b[i];
                        if x != left {
                            let j = choose|j: int| 0 <= j < rest.len() && rest[j] == x;
                        }
                    }
                }
            }
        } else {
            lemma_settle_keeps_queue(
                rest,
                (remaining - bid.price_in_coins) as u64,
                max,
                expiration,
            );
        }
    }
}

/// Pays up to `remaining` coins to `bonds`, oldest first, at block `now`: the bonds
/// left, the payments made, and the coins left over.
///
/// An expired bond is dropped unpaid. A bond worth more than what is left is paid
/// that much and stays, reduced. Any other bond is paid in full and dropped.
pub open spec fn settle_bonds(bonds: Seq<Bond>, remaining: Coins, now: BlockNumber) -> (
    Seq<Bond>,
    Seq<(AccountId, Coins)>,
    Coins,
)
    decreases bonds.len(),
{
    if remaining == 0 || bonds.len() == 0 {
        (bonds, Seq::empty(), remaining)
    } else {
        let b = bonds[0];
        if now >= b.expiration {
            settle_bonds(bonds.drop_first(), remaining, now)
        } else if b.payout > remaining {
            (
                bonds.update(0, Bond { payout: (b.payout - remaining) as u64, ..b }),
                seq![(b.account, remaining)],
                0,
            )
        } else {
            let (left, paid, rest) = settle_bonds(
                bonds.drop_first(),
                (remaining - b.payout) as u64,
                now,
            );
            (left, seq![(b.account, b.payout)] + paid, rest)
        }
    }
}

/// `r` with `credits` paid before its own payments.
pub open spec fn with_credits_before(
    credits: Seq<(AccountId, Coins)>,
    r: (Seq<Bond>, Seq<(AccountId, Coins)>, Coins),
) -> (Seq<Bond>, Seq<(AccountId, Coins)>, Coins) {
    (r.0, credits + r.1, r.2)
}

/// Each shareholder with its payout out of `amount`.
pub open spec fn share_credits(shares: Seq<(AccountId, u64)>, share_supply: u64, amount: Coins) -> Seq<
    (AccountId, Coins),
> {
    Seq::new(shares.len(), |i: int| (shares[i].0, payout_at(shares, share_supply, amount, i) as u64))
}

/// The payments that hand `amount` out to the shareholders, once the supply can take
/// `amount` more coins: there must be shares, and the payouts must add up to `amount`.
pub open spec fn handout_credits(s: StablecoinView, amount: Coins) -> Result<
    Seq<(AccountId, Coins)>,
    Error,
> {
    if s.share_supply == 0 || s.shares.len() == 0 {
        Err(Error::NoShareholders)
    } else if s.coin_supply + amount > u64::MAX {
        Err(Error::CoinOverflow)
    } else if payout_total(s.shares, s.share_supply, amount) != amount {
        Err(Error::Unexpected)
    } else {
        Ok(share_credits(s.shares, s.share_supply, amount))
    }
}

/// The outcome of expanding the supply by `amount` at block `now`: the bond queue
/// afterwards and every payment, to bondholders first and then to shareholders.
pub open spec fn expansion(s: StablecoinView, amount: Coins, now: BlockNumber) -> Result<
    (Seq<Bond>, Seq<(AccountId, Coins)>),
    Error,
> {
    if s.coin_supply + amount > u64::MAX {
        Err(Error::CoinOverflow)
    } else {
        let (bonds, paid, left) = settle_bonds(s.bonds, amount, now);
        if left == 0 {
            Ok((bonds, paid))
        } else {
            match handout_credits(s, left) {
                Err(e) => Err(e),
                Ok(shared) => Ok((bonds, paid + shared)),
            }
        }
    }
}

/// No balance would exceed `Coins` once `credits` are paid.
pub open spec fn credits_fit(balances: Ledger, credits: Seq<(AccountId, Coins)>) -> bool {
    forall|a: AccountId| balances.balance(a) + #[trigger] credited(credits, a) <= u64::MAX
}

/// What a payment of `credits` that mints `amount` coins does: on success the
/// balances are credited and the supply grows by `amount`; where a balance would
/// overflow nothing changes.
pub open spec fn credit_post(
    pre: Stablecoin,
    post: Stablecoin,
    r: Result<(), Error>,
    bonds: Seq<Bond>,
    credits: Seq<(AccountId, Coins)>,
    amount: Coins,
) -> bool {
    if credits_fit(pre@.balances, credits) {
        &&& r == Ok::<(), Error>(())
        &&& post@ == (StablecoinView {
            bonds,
            coin_supply: (pre@.coin_supply + amount) as u64,
            balances: post@.balances,
            ..pre@
        })
        &&& forall|a: AccountId| #[trigger]
            post@.balance(a) == pre@.balance(a) + credited(credits, a)
        &&& post@.balances.total() == pre@.balances.total() + credits_sum(credits)
    } else {
        r == Err::<(), Error>(Error::CoinOverflow) && post == pre
    }
}

/// What `expand_supply(amount, now)` does.
pub open spec fn expand_post(
    pre: Stablecoin,
    post: Stablecoin,
    r: Result<(), Error>,
    amount: Coins,
    now: BlockNumber,
) -> bool {
    match expansion(pre@, amount, now) {
        Err(e) => r == Err::<(), Error>(e) && post == pre,
        Ok((bonds, credits)) => credit_post(pre, post, r, bonds, credits, amount),
    }
}

/// What `hand_out_coins_to_shareholders(amount)` does.
pub open spec fn hand_out_post(pre: Stablecoin, post: Stablecoin, r: Result<(), Error>, amount: Coins) -> bool {
    match handout_credits(pre@, amount) {
        Err(e) => r == Err::<(), Error>(e) && post == pre,
        Ok(credits) => credit_post(pre, post, r, pre@.bonds, credits, amount),
    }
}

/// Settling pays the bonds exactly what it does not leave over.
pub proof fn lemma_settle_bonds_pays(bonds: Seq<Bond>, remaining: Coins, now: BlockNumber)
    ensures
        settle_bonds(bonds, remaining, now).2 <= remaining,
        credits_sum(settle_bonds(bonds, remaining, now).1) + settle_bonds(bonds, remaining, now).2
            == remaining,
    decreases bonds.len(),
{
    if remaining == 0 || bonds.len() == 0 {
    } else {
        let b = bonds[0];
        if now >= b.expiration {
            lemma_settle_bonds_pays(bonds.drop_first(), remaining, now);
        } else if b.payout > remaining {
            lemma_credits_sum_prepend((b.account, remaining), Seq::empty());
            assert(seq![(b.account, remaining)] + Seq::empty() =~= seq![(b.account, remaining)]);
        } else {
            let rest = settle_bonds(bonds.drop_first(), (remaining - b.payout) as u64, now);
            lemma_settle_bonds_pays(bonds.drop_first(), (remaining - b.payout) as u64, now);
            lemma_credits_sum_prepend((b.account, b.payout), rest.1);
        }
    }
}

pub(crate) proof fn lemma_credits_sum_prepend(c: (AccountId, Coins), credits: Seq<(AccountId, Coins)>)
    ensures
        credits_sum(seq![c] + credits) == c.1 + credits_sum(credits),
    decreases credits.len(),
{
    if credits.len() == 0 {
        assert(seq![c] + credits =~= seq![c]);
        assert(seq![c].drop_last() =~= Seq::<(AccountId, Coins)>::empty());
        assert(credits_sum(Seq::<(AccountId, Coins)>::empty()) == 0);
        assert(credits_sum(credits) == 0);
    } else {
        assert((seq![c] + credits).drop_last() =~= seq![c] + credits.drop_last());
        assert((seq![c] + credits).last() == credits.last());
        lemma_credits_sum_prepend(c, credits.drop_last());
    }
}

pub(crate) proof fn lemma_share_credits_sum(credits: Seq<(AccountId, Coins)>, payouts: Seq<Coins>)
    requires
        credits.len() == payouts.len(),
        forall|i: int| 0 <= i < credits.len() ==> #[trigger] credits[i].1 == payouts[i],
    ensures
        credits_sum(credits) == sum_of(payouts),
    decreases credits.len(),
{
    if credits.len() > 0 {
        lemma_share_credits_sum(credits.drop_last(), payouts.drop_last());
    }
}

/// The fraction by which a price is off the peg, in billionths: `price / BASE_UNIT - 1`
/// above the peg, `BASE_UNIT / price - 1` below it.
pub open spec fn peg_deviation(price: Coins) -> int
    recommends
        price > 0,
{
    if price > BASE_UNIT {
        billionths_of_ratio(price, BASE_UNIT) - BILLION
    } else {
        billionths_of_ratio(BASE_UNIT, price) - BILLION
    }
}

/// The coins by which `supply` changes at `price`: the deviation from the peg times
/// the supply, rounded toward zero, the supply plus that capped at `u64::MAX`.
pub open spec fn supply_delta(price: Coins, supply: Coins) -> int {
    mul_acc_of(peg_deviation(price) as i64, supply) - supply
}

/// What `expand_or_contract_on_price(price, now)` does: a zero price is refused, a
/// price above the peg contracts the supply, one below it expands it, and the peg
/// itself changes nothing.
pub open spec fn on_price_post(
    pre: Stablecoin,
    post: Stablecoin,
    r: Result<(), Error>,
    price: Coins,
    now: BlockNumber,
) -> bool {
    if price == 0 {
        r == Err::<(), Error>(Error::ZeroPrice) && post == pre
    } else if price > BASE_UNIT {
        contract_post(pre, post, r, supply_delta(price, pre@.coin_supply) as u64, now)
    } else if price < BASE_UNIT {
        expand_post(pre, post, r, supply_delta(price, pre@.coin_supply) as u64, now)
    } else {
        r == Ok::<(), Error>(()) && post == pre
    }
}

/// The bid that `bid_for_bond(who, price, payout)` places: `payout` is in billionths
/// of a unit, and the quantity is `payout * BASE_UNIT` coins, computed as `BASE_UNIT`
/// plus `(payout - 1) * BASE_UNIT` rounded toward zero.
pub open spec fn bond_bid(who: AccountId, price: u32, payout: i64) -> Bid {
    let quantity = mul_acc_of((payout - BILLION) as i64, BASE_UNIT) as u64;
    Bid { account: who, price, price_in_coins: perbill_of(price, quantity) as u64, quantity }
}

/// Why `bid_for_bond(who, price, payout)` is refused, if it is.
pub open spec fn bid_refusal(s: StablecoinView, who: AccountId, price: u32, payout: i64) -> Option<Error> {
    if price > BILLION {
        Some(Error::PriceTooHigh)
    } else if price <= MINIMUM_BOND_PRICE {
        Some(Error::PriceTooLow)
    } else if payout < MINIMUM_BOND_PAYOUT * BILLION {
        Some(Error::PayoutTooLow)
    } else if s.balance(who) < bond_bid(who, price, payout).price_in_coins {
        Some(Error::InsufficientBalance)
    } else {
        None
    }
}

/// One share for each of `holders`, in order.
pub open spec fn one_share_each(holders: Seq<AccountId>) -> Seq<(AccountId, u64)> {
    Seq::new(holders.len(), |i: int| (holders[i], 1u64))
}

/// What `init_with_shareholders(founder, holders)` does: it registers one share per
/// holder and hands the initial coin supply out to them.
pub open spec fn init_shareholders_post(
    pre: Stablecoin,
    post: Stablecoin,
    r: Result<(), Error>,
    holders: Seq<AccountId>,
) -> bool {
    let registered = StablecoinView {
        shares: one_share_each(holders),
        share_supply: holders.len() as u64,
        ..pre@
    };
    if pre@.initialized {
        r == Err::<(), Error>(Error::AlreadyInitialized) && post == pre
    } else {
        match handout_credits(registered, COIN_SUPPLY) {
            Err(e) => r == Err::<(), Error>(e) && post == pre,
            Ok(credits) => if credits_fit(pre@.balances, credits) {
                &&& r == Ok::<(), Error>(())
                &&& post@ == (StablecoinView {
                    initialized: true,
                    coin_supply: (pre@.coin_supply + COIN_SUPPLY) as u64,
                    balances: post@.balances,
                    ..registered
                })
                &&& forall|a: AccountId| #[trigger]
                    post@.balance(a) == pre@.balance(a) + credited(credits, a)
                &&& post@.balances.total() == pre@.balances.total() + COIN_SUPPLY
            } else {
                r == Err::<(), Error>(Error::CoinOverflow) && post == pre
            },
        }
    }
}

pub(crate) proof fn lemma_share_credits_telescope(
    shares: Seq<(AccountId, u64)>,
    share_supply: u64,
    amount: Coins,
    k: int,
)
    requires
        share_supply > 0,
        0 <= k <= shares.len(),
    ensures
        credits_sum(share_credits(shares, share_supply, amount).take(k)) == capped(
            nominal_prefix(shares, share_supply, amount, k),
            amount as int,
        ),
    decreases k,
{
    let c = share_credits(shares, share_supply, amount);
    if k == 0 {
        assert(c.take(0) =~= Seq::<(AccountId, Coins)>::empty());
        assert(credits_sum(Seq::<(AccountId, Coins)>::empty()) == 0);
        assert(nominal_prefix(shares, share_supply, amount, 0) == 0);
    } else {
        lemma_share_credits_telescope(shares, share_supply, amount, k - 1);
        lemma_nominal_nonneg(shares, share_supply, amount, k);
        lemma_nominal_nonneg(shares, share_supply, amount, k - 1);
        assert(c.take(k).drop_last() =~= c.take(k - 1));
        assert(c.take(k).last() == c[k - 1]);
        assert(nominal_prefix(shares, share_supply, amount, k - 1) <= nominal_prefix(shares, share_supply, amount, k));
        let p = payout_at(shares, share_supply, amount, k - 1);
        assert(0 <= p <= amount);
        assert(c[k - 1].1 == p);
    }
}

/// The payments of a hand-out add up to what the shareholders are paid together.
pub(crate) proof fn lemma_share_credits_total(shares: Seq<(AccountId, u64)>, share_supply: u64, amount: Coins)
    requires
        share_supply > 0,
    ensures
        credits_sum(share_credits(shares, share_supply, amount)) == payout_total(
            shares,
            share_supply,
            amount,
        ),
{
    let c = share_credits(shares, share_supply, amount);
    lemma_share_credits_telescope(shares, share_supply, amount, shares.len() as int);
    assert(c.take(shares.len() as int) =~= c);
}

pub(crate) proof fn lemma_credits_sum_concat(a: Seq<(AccountId, Coins)>, b: Seq<(AccountId, Coins)>)
    ensures
        credits_sum(a + b) == credits_sum(a) + credits_sum(b),
    decreases b.len(),
{
    if b.len() == 0 {
        assert(a + b =~= a);
    } else {
        assert((a + b).drop_last() =~= a + b.drop_last());
        assert((a + b).last() == b.last());
        lemma_credits_sum_concat(a, b.drop_last());
    }
}

/// The block from which a bond issued at `now` is void.
pub open spec fn bond_expiration(now: BlockNumber, period: BlockNumber) -> Option<BlockNumber> {
    if now + period <= u64::MAX {
        Some((now + period) as u64)
    } else {
        None
    }
}

} // verus!
