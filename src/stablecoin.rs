//! The supply controller: the coin's state and the operations on it.

use vstd::prelude::*;
use crate::arith::{fixed_from_rational, fixed_mul_acc_int, perbill_mul, BILLION};
use crate::bid::{
    add_bid_to, insert_bid, lemma_insert_keeps_order, lemma_insert_members, sorted_by_price, AccountId, Bid,
    BidError, BlockNumber, Bond, Coins,
};
use crate::ledger::{credits_sum, Ledger};
use crate::payout::{payout_at, payout_total, shareholder_payouts};
use crate::policy::{
    bid_refusal, bond_bid, bond_expiration, contract_post, contraction, expand_post, expansion, handout_credits,
    hand_out_post, init_shareholders_post, lemma_settle_bonds_pays, lemma_settle_keeps_queue,
    lemma_share_credits_sum, lemma_with_bonds_before, on_price_post, one_share_each, settle_bids,
    settle_bonds, share_credits, with_bonds_before, with_credits_before,
};

verus! {

/// Coins that buy one unit of the tracked value: the peg.
pub const BASE_UNIT: Coins = 1000;

/// Coins created at initialization.
pub const COIN_SUPPLY: Coins = BASE_UNIT * 100;

/// Shares given to the founder at initialization.
pub const SHARE_SUPPLY: u64 = 100;

/// The lowest price a bid may offer, exclusive: ten percent, in parts per billion.
pub const MINIMUM_BOND_PRICE: u32 = 100_000_000;

/// The lowest payout a bid may ask for, in whole units of the tracked value.
pub const MINIMUM_BOND_PAYOUT: i64 = 1;

/// Why an operation failed. A failed operation changes nothing.
#[derive(Clone, Copy, Debug, PartialEq, Eq)]
pub enum Error {
    /// The account does not hold the coins.
    InsufficientBalance,
    /// The supply or a balance would exceed `Coins`, or the supply would fall to zero.
    CoinOverflow,
    /// The supply would fall below zero.
    CoinUnderflow,
    /// The price source reported a price of zero.
    ZeroPrice,
    /// A bond's expiration, or the quantity bought from a bid, does not fit.
    GenericOverflow,
    /// A bid has fewer coins or less quantity than is taken from it.
    GenericUnderflow,
    /// A partly consumed bid has coins left but no quantity, or the reverse; or the
    /// shareholder payout did not add up to the amount.
    Unexpected,
    /// The coin was initialized before.
    AlreadyInitialized,
    /// A bid offers more than the whole payout.
    PriceTooHigh,
    /// A bid offers no more than the minimum bond price.
    PriceTooLow,
    /// A bid asks for less than the minimum bond payout.
    PayoutTooLow,
    /// There are no shares to hand coins out to.
    NoShareholders,
}

pub open spec fn error_of(e: BidError) -> Error {
    match e {
        BidError::Overflow => Error::GenericOverflow,
        BidError::Underflow => Error::GenericUnderflow,
    }
}

impl From<BidError> for Error {
    fn from(e: BidError) -> (r: Error) {
        match e {
            BidError::Overflow => Error::GenericOverflow,
            BidError::Underflow => Error::GenericUnderflow,
        }
    }
}

impl vstd::std_specs::convert::FromSpecImpl<BidError> for Error {
    open spec fn obeys_from_spec() -> bool {
        true
    }

    open spec fn from_spec(e: BidError) -> Error {
        error_of(e)
    }
}

/// The state of the coin as its contracts see it.
pub struct StablecoinView {
    pub expiration_period: BlockNumber,
    pub maximum_bids: nat,
    pub initialized: bool,
    pub share_supply: u64,
    pub shares: Seq<(AccountId, u64)>,
    pub balances: Ledger,
    pub coin_supply: Coins,
    pub bonds: Seq<Bond>,
    pub bids: Seq<Bid>,
}

/// The whole state of the coin: configuration, shareholders, balances, supply, and
/// the queues of bonds and of bids.
pub struct Stablecoin {
    expiration_period: BlockNumber,
    maximum_bids: usize,
    initialized: bool,
    share_supply: u64,
    shares: Vec<(AccountId, u64)>,
    balances: Ledger,
    coin_supply: Coins,
    bonds: Vec<Bond>,
    bond_bids: Vec<Bid>,
}

impl View for Stablecoin {
    type V = StablecoinView;

    closed spec fn view(&self) -> StablecoinView {
        StablecoinView {
            expiration_period: self.expiration_period,
            maximum_bids: self.maximum_bids as nat,
            initialized: self.initialized,
            share_supply: self.share_supply,
            shares: self.shares@,
            balances: self.balances,
            coin_supply: self.coin_supply,
            bonds: self.bonds@,
            bids: self.bond_bids@,
        }
    }
}

/// Every bid has a valid price, the queue is sorted highest price first, and it
/// holds at most `max` bids.
pub open spec fn bid_queue_ok(bids: Seq<Bid>, max: nat) -> bool {
    &&& forall|i: int| 0 <= i < bids.len() ==> (#[trigger] bids[i]).wf()
    &&& sorted_by_price(bids)
    &&& bids.len() <= max
}

impl StablecoinView {
    pub open spec fn wf(self) -> bool {
        &&& self.balances.wf()
        &&& bid_queue_ok(self.bids, self.maximum_bids)
        &&& self.maximum_bids <= usize::MAX
    }

    /// The balance of `account`.
    pub open spec fn balance(self, account: AccountId) -> nat {
        self.balances.balance(account)
    }
}

/// A copy of `v`.
fn copy_vec<T: Copy>(v: &Vec<T>) -> (r: Vec<T>)
    ensures
        r@ == v@,
{
    let mut r: Vec<T> = Vec::new();
    let mut i: usize = 0;
    while i < v.len()
        invariant
            i <= v@.len(),
            r@ =~= v@.take(i as int),
        decreases v@.len() - i,
    {
        r.push(v[i]);
        i += 1;
    }
    assert(r@ =~= v@);
    r
}

impl Stablecoin {
    /// A coin that is not initialized yet: no shares, no coins, no bonds, no bids.
    pub fn new(expiration_period: BlockNumber, maximum_bids: usize) -> (r: Stablecoin)
        ensures
            r@.wf(),
            r@.expiration_period == expiration_period,
            r@.maximum_bids == maximum_bids,
            !r@.initialized,
            r@.share_supply == 0,
            r@.shares.len() == 0,
            r@.coin_supply == 0,
            r@.bonds.len() == 0,
            r@.bids.len() == 0,
            r@.balances.total() == 0,
            forall|a: AccountId| #[trigger] r@.balance(a) == 0,
    {
        Stablecoin {
            expiration_period,
            maximum_bids,
            initialized: false,
            share_supply: 0,
            shares: Vec::new(),
            balances: Ledger::new(),
            coin_supply: 0,
            bonds: Vec::new(),
            bond_bids: Vec::new(),
        }
    }

    /// Whether the coin was initialized.
    pub fn initialized(&self) -> (r: bool)
        ensures
            r == self@.initialized,
    {
        self.initialized
    }

    /// The number of shares.
    pub fn share_supply(&self) -> (r: u64)
        ensures
            r == self@.share_supply,
    {
        self.share_supply
    }

    /// The shareholders and their shares, in registry order.
    pub fn shares(&self) -> (r: Vec<(AccountId, u64)>)
        ensures
            r@ == self@.shares,
    {
        copy_vec(&self.shares)
    }

    /// The number of coins in circulation.
    pub fn coin_supply(&self) -> (r: Coins)
        ensures
            r == self@.coin_supply,
    {
        self.coin_supply
    }

    /// The balance of `account`.
    pub fn get_balance(&self, account: AccountId) -> (r: Coins)
        requires
            self@.wf(),
        ensures
            r == self@.balance(account),
    {
        self.balances.get_balance(account)
    }

    /// The unpaid bonds, oldest first.
    pub fn bonds(&self) -> (r: Vec<Bond>)
        ensures
            r@ == self@.bonds,
    {
        copy_vec(&self.bonds)
    }

    /// The outstanding bids, highest price first.
    pub fn bond_bids(&self) -> (r: Vec<Bid>)
        ensures
            r@ == self@.bids,
    {
        copy_vec(&self.bond_bids)
    }

    /// Gives all shares and all coins to `founder`.
    pub fn init(&mut self, founder: AccountId) -> (r: Result<(), Error>)
        requires
            old(self)@.wf(),
        ensures
            final(self)@.wf(),
            old(self)@.initialized ==> r == Err::<(), Error>(Error::AlreadyInitialized) && *final(self) == *old(self),
            !old(self)@.initialized ==> {
                &&& r == Ok::<(), Error>(())
                &&& final(self)@ == (StablecoinView {
                    initialized: true,
                    share_supply: SHARE_SUPPLY,
                    shares: seq![(founder, SHARE_SUPPLY)],
                    coin_supply: COIN_SUPPLY,
                    balances: final(self)@.balances,
                    ..old(self)@
                })
                &&& forall|a: AccountId| #[trigger] final(self)@.balance(a) == if a == founder {
                    COIN_SUPPLY as nat
                } else {
                    old(self)@.balance(a)
                }
            },
    {
        if self.initialized {
            return Err(Error::AlreadyInitialized);
        }
        let mut shares: Vec<(AccountId, u64)> = Vec::new();
        shares.push((founder, SHARE_SUPPLY));
        self.shares = shares;
        self.share_supply = SHARE_SUPPLY;
        self.balances.set_balance(founder, COIN_SUPPLY);
        self.coin_supply = COIN_SUPPLY;
        self.initialized = true;
        proof {
            assert(self.shares@ =~= seq![(founder, SHARE_SUPPLY)]);
        }
        Ok(())
    }

    /// Puts `bid` into the bid queue at its price, dropping the lowest bid where the
    /// queue would exceed its bound.
    pub fn add_bid(&mut self, bid: Bid)
        requires
            old(self)@.wf(),
            bid.wf(),
        ensures
            final(self)@.wf(),
            final(self)@ == (StablecoinView {
                bids: insert_bid(old(self)@.bids, bid, old(self)@.maximum_bids),
                ..old(self)@
            }),
    {
        proof {
            lemma_insert_keeps_order(self.bond_bids@, bid, self.maximum_bids as nat);
            lemma_insert_members(self.bond_bids@, bid, self.maximum_bids as nat);
        }
        add_bid_to(bid, &mut self.bond_bids, self.maximum_bids);
    }

    /// A bond of `payout` for `account`, expiring `expiration_period` blocks after `now`.
    fn new_bond(&self, account: AccountId, payout: Coins, now: BlockNumber) -> (r: Result<Bond, Error>)
        ensures
            match bond_expiration(now, self.expiration_period) {
                Some(e) => r == Ok::<Bond, Error>(Bond { account, payout, expiration: e }),
                None => r == Err::<Bond, Error>(Error::GenericOverflow),
            },
    {
        match now.checked_add(self.expiration_period) {
            Some(expiration) => Ok(Bond { account, payout, expiration }),
            None => Err(Error::GenericOverflow),
        }
    }

    /// Whether the supply can lose `amount` coins and keep at least one.
    fn test_decrease_coin_supply(&self, amount: Coins) -> (r: Result<(), Error>)
        ensures
            amount > self@.coin_supply ==> r == Err::<(), Error>(Error::CoinUnderflow),
            amount <= self@.coin_supply && self@.coin_supply - amount < 1 ==> r == Err::<(), Error>(
                Error::CoinOverflow,
            ),
            amount < self@.coin_supply ==> r == Ok::<(), Error>(()),
    {
        let remaining_supply = match self.coin_supply.checked_sub(amount) {
            Some(s) => s,
            None => return Err(Error::CoinUnderflow),
        };
        if remaining_supply < 1 {
            return Err(Error::CoinOverflow);
        }
        Ok(())
    }

    /// Whether the supply can gain `amount` coins.
    fn test_increase_coin_supply(&self, amount: Coins) -> (r: Result<(), Error>)
        ensures
            r == if self@.coin_supply + amount <= u64::MAX {
                Ok::<(), Error>(())
            } else {
                Err::<(), Error>(Error::CoinOverflow)
            },
    {
        match self.coin_supply.checked_add(amount) {
            Some(_) => Ok(()),
            None => Err(Error::CoinOverflow),
        }
    }

    /// Burns up to `amount` coins against the bid queue, highest price first, issuing a
    /// bond to each bidder served; see `settle_bids` and `contraction`.
    pub fn contract_supply(&mut self, amount: Coins, now: BlockNumber) -> (r: Result<(), Error>)
        requires
            old(self)@.wf(),
        ensures
            final(self)@.wf(),
            contract_post(*old(self), *final(self), r, amount, now),
    {
        self.test_decrease_coin_supply(amount)?;
        let expiration: BlockNumber = if amount > 0 && self.bond_bids.len() > 0 {
            match now.checked_add(self.expiration_period) {
                Some(e) => e,
                None => return Err(Error::GenericOverflow),
            }
        } else {
            0
        };
        let ghost exp = match bond_expiration(now, self.expiration_period) {
            Some(e) => e,
            None => 0,
        };
        let ghost outcome = settle_bids(self.bond_bids@, amount, self.maximum_bids as nat, exp);
        proof {
            assert(outcome == contraction(self@, amount, now));
            lemma_settle_keeps_queue(self.bond_bids@, amount, self.maximum_bids as nat, exp);
            assert(with_bonds_before(Seq::empty(), outcome) == outcome) by {
                if let Ok((b, issued, left)) = outcome {
                    assert(Seq::<Bond>::empty() + issued =~= issued);
                }
            }
        }
        let max = self.maximum_bids;
        let mut bids = copy_vec(&self.bond_bids);
        let mut remaining = amount;
        let mut new_bonds: Vec<Bond> = Vec::new();
        while remaining > 0 && bids.len() > 0
            invariant
                *self == *old(self),
                self@.wf(),
                outcome == contraction(old(self)@, amount, now),
                max == self.maximum_bids,
                bid_queue_ok(bids@, max as nat),
                remaining > 0 && bids@.len() > 0 ==> expiration == exp,
                outcome == with_bonds_before(
                    new_bonds@,
                    settle_bids(bids@, remaining, max as nat, exp),
                ),
            decreases bids@.len() + if remaining > 0 { 1int } else { 0int },
        {
            let ghost before = bids@;
            let ghost rem0 = remaining;
            let ghost nb0 = new_bonds@;
            let mut bid = bids.remove(0);
            assert(bids@ =~= before.drop_first());
            assert(bid == before[0]);
            assert(bid.wf());
            if bid.price_in_coins >= remaining {
                let removed = match bid.remove_coins(remaining) {
                    Ok(q) => q,
                    Err(e) => {
                        let err = Error::from(e);
                        assert(err == error_of(e));
                        assert(settle_bids(before, rem0, max as nat, exp) == Err::<(Seq<Bid>, Seq<Bond>, Coins), Error>(error_of(e)));
                        assert(outcome == Err::<(Seq<Bid>, Seq<Bond>, Coins), Error>(err));
                        assert(contraction(old(self)@, amount, now) == outcome);
                        return Err(err);
                    },
                };
                let bond = Bond { account: bid.account, payout: removed, expiration };
                new_bonds.push(bond);
                if bid.price_in_coins > 0 && bid.quantity > 0 {
                    proof {
                        lemma_insert_keeps_order(bids@, bid, max as nat);
                        lemma_insert_members(bids@, bid, max as nat);
                    }
                    add_bid_to(bid, &mut bids, max);
                } else if bid.price_in_coins != bid.quantity {
                    assert(settle_bids(before, rem0, max as nat, exp) == Err::<(Seq<Bid>, Seq<Bond>, Coins), Error>(Error::Unexpected));
                    assert(outcome == Err::<(Seq<Bid>, Seq<Bond>, Coins), Error>(Error::Unexpected));
                    assert(contraction(old(self)@, amount, now) == outcome);
                    return Err(Error::Unexpected);
                }
                remaining = 0;
                proof {
                    assert(bid_queue_ok(bids@, max as nat)) by {
                        if bids@ != before.drop_first() {
                            let b = bids@;
                            assert forall|i: int| 0 <= i < b.len() implies (#[trigger] b[i]).wf() by {
                                if b[i] != bid {
                                    let j = choose|j: int| 0 <= j < before.drop_first().len() && before.drop_first()[j] == b[i];
                                    assert(before.drop_first()[j] == before[j + 1]);
                                }
                            }
                        } else {
                            assert forall|i: int| 0 <= i < bids@.len() implies (#[trigger] bids@[i]).wf() by {
                                assert(bids@[i] == before[i + 1]);
                            }
                            assert forall|i: int, j: int| 0 <= i < j < bids@.len() implies bids@[i].price >= bids@[j].price by {
                                assert(bids@[i] == before[i + 1]);
                                assert(bids@[j] == before[j + 1]);
                            }
                        }
                    }
                    assert(settle_bids(before, rem0, max as nat, exp) == with_bonds_before(seq![bond], settle_bids(bids@, remaining, max as nat, exp))) by {
                        assert(settle_bids(bids@, remaining, max as nat, exp) == Ok::<(Seq<Bid>, Seq<Bond>, Coins), Error>((bids@, Seq::empty(), 0u64)));
                        assert(seq![bond] + Seq::<Bond>::empty() =~= seq![bond]);
                    }
                    lemma_with_bonds_before(nb0, seq![bond], settle_bids(bids@, remaining, max as nat, exp));
                    assert(nb0 + seq![bond] =~= new_bonds@);
                }
            } else {
                let bond = Bond { account: bid.account, payout: bid.quantity, expiration };
                new_bonds.push(bond);
                remaining = remaining - bid.price_in_coins;
                proof {
                    assert forall|i: int| 0 <= i < bids@.len() implies (#[trigger] bids@[i]).wf() by {
                        assert(bids@[i] == before[i + 1]);
                    }
                    assert forall|i: int, j: int| 0 <= i < j < bids@.len() implies bids@[i].price >= bids@[j].price by {
                        assert(bids@[i] == before[i + 1]);
                        assert(bids@[j] == before[j + 1]);
                    }
                    assert(settle_bids(before, rem0, max as nat, exp) == with_bonds_before(seq![bond], settle_bids(bids@, remaining, max as nat, exp)));
                    lemma_with_bonds_before(nb0, seq![bond], settle_bids(bids@, remaining, max as nat, exp));
                    assert(nb0 + seq![bond] =~= new_bonds@);
                }
            }
        }
        proof {
            assert(new_bonds@ + Seq::<Bond>::empty() =~= new_bonds@);
        }
        let burned = amount - remaining;
        self.coin_supply = self.coin_supply - burned;
        self.bonds.append(&mut new_bonds);
        self.bond_bids = bids;
        Ok(())
    }

    /// Mints `amount` coins and pays them to the shareholders, pro rata; see
    /// `payout_at` for each one's share.
    pub fn hand_out_coins_to_shareholders(&mut self, amount: Coins) -> (r: Result<(), Error>)
        requires
            old(self)@.wf(),
        ensures
            final(self)@.wf(),
            hand_out_post(*old(self), *final(self), r, amount),
    {
        if self.share_supply == 0 || self.shares.len() == 0 {
            return Err(Error::NoShareholders);
        }
        self.test_increase_coin_supply(amount)?;
        let credits = share_credits_for(&self.shares, self.share_supply, amount)?;
        if !self.balances.credit_all(&credits) {
            return Err(Error::CoinOverflow);
        }
        self.coin_supply = self.coin_supply + amount;
        Ok(())
    }

    /// Mints `amount` coins: pays the bonds, oldest first, dropping expired ones, and
    /// hands what the bonds do not take to the shareholders; see `settle_bonds` and
    /// `expansion`.
    pub fn expand_supply(&mut self, amount: Coins, now: BlockNumber) -> (r: Result<(), Error>)
        requires
            old(self)@.wf(),
        ensures
            final(self)@.wf(),
            expand_post(*old(self), *final(self), r, amount, now),
    {
        self.test_increase_coin_supply(amount)?;
        let ghost outcome = settle_bonds(self.bonds@, amount, now);
        proof {
            assert(Seq::<(AccountId, Coins)>::empty() + outcome.1 =~= outcome.1);
            lemma_settle_bonds_pays(self.bonds@, amount, now);
        }
        let mut bonds = copy_vec(&self.bonds);
        let mut credits: Vec<(AccountId, Coins)> = Vec::new();
        let mut remaining = amount;
        while remaining > 0 && bonds.len() > 0
            invariant
                *self == *old(self),
                outcome == settle_bonds(old(self)@.bonds, amount, now),
                outcome == with_credits_before(credits@, settle_bonds(bonds@, remaining, now)),
            decreases bonds@.len() + if remaining > 0 { 1int } else { 0int },
        {
            let ghost before = bonds@;
            let ghost rem0 = remaining;
            let ghost paid0 = credits@;
            let bond = bonds[0];
            if now >= bond.expiration {
                bonds.remove(0);
                assert(bonds@ =~= before.drop_first());
            } else if bond.payout > remaining {
                bonds.set(0, Bond { payout: bond.payout - remaining, ..bond });
                credits.push((bond.account, remaining));
                remaining = 0;
                proof {
                    assert(paid0 + seq![(bond.account, rem0)] + Seq::empty() =~= credits@);
                }
            } else {
                bonds.remove(0);
                credits.push((bond.account, bond.payout));
                remaining = remaining - bond.payout;
                proof {
                    assert(bonds@ =~= before.drop_first());
                    let r = settle_bonds(bonds@, remaining, now);
                    assert(paid0 + (seq![(bond.account, bond.payout)] + r.1) =~= credits@ + r.1);
                }
            }
        }
        proof {
            assert(credits@ + Seq::empty() =~= credits@);
            assert(outcome == (bonds@, credits@, remaining));
        }
        if remaining > 0 {
            if self.share_supply == 0 || self.shares.len() == 0 {
                return Err(Error::NoShareholders);
            }
            let mut shared = match share_credits_for(&self.shares, self.share_supply, remaining) {
                Ok(c) => c,
                Err(e) => {
                    assert(handout_credits(self@, remaining) == Err::<Seq<(AccountId, Coins)>, Error>(e));
                    return Err(e);
                },
            };
            proof {
                assert(handout_credits(self@, remaining) == Ok::<Seq<(AccountId, Coins)>, Error>(shared@));
            }
            credits.append(&mut shared);
        }
        proof {
            assert(expansion(self@, amount, now) == Ok::<(Seq<Bond>, Seq<(AccountId, Coins)>), Error>((bonds@, credits@)));
        }
        if !self.balances.credit_all(&credits) {
            return Err(Error::CoinOverflow);
        }
        self.coin_supply = self.coin_supply + amount;
        self.bonds = bonds;
        Ok(())
    }

    /// Reacts to a new price: contracts the supply above the peg, expands it below,
    /// by the price's deviation from the peg times the supply.
    pub fn expand_or_contract_on_price(&mut self, price: Coins, now: BlockNumber) -> (r: Result<(), Error>)
        requires
            old(self)@.wf(),
        ensures
            final(self)@.wf(),
            on_price_post(*old(self), *final(self), r, price, now),
    {
        if price == 0 {
            return Err(Error::ZeroPrice);
        }
        if price > BASE_UNIT {
            let fraction = fixed_from_rational(price, BASE_UNIT) - BILLION as i64;
            let supply = self.coin_supply;
            assert(fraction as int * supply as int / BILLION as int >= 0) by (nonlinear_arith)
                requires
                    fraction >= 0,
                    supply >= 0,
            ;
            let contract_by = fixed_mul_acc_int(fraction, supply) - supply;
            self.contract_supply(contract_by, now)
        } else if price < BASE_UNIT {
            assert(BASE_UNIT as int * BILLION as int / price as int >= BILLION as int) by (nonlinear_arith)
                requires
                    1 <= price < BASE_UNIT,
            ;
            assert(BASE_UNIT as int * BILLION as int / price as int <= BASE_UNIT as int * BILLION as int) by (nonlinear_arith)
                requires
                    1 <= price,
            ;
            let fraction = fixed_from_rational(BASE_UNIT, price) - BILLION as i64;
            let supply = self.coin_supply;
            assert(fraction as int * supply as int / BILLION as int >= 0) by (nonlinear_arith)
                requires
                    fraction >= 0,
                    supply >= 0,
            ;
            let expand_by = fixed_mul_acc_int(fraction, supply) - supply;
            self.expand_supply(expand_by, now)
        } else {
            Ok(())
        }
    }

    /// Places a bid by `who` at `price` (parts per billion of the payout) for a bond of
    /// `payout` units (in billionths), if `who` holds what the bid costs. The coins are
    /// not taken from the balance.
    pub fn bid_for_bond(&mut self, who: AccountId, price: u32, payout: i64) -> (r: Result<(), Error>)
        requires
            old(self)@.wf(),
        ensures
            final(self)@.wf(),
            match bid_refusal(old(self)@, who, price, payout) {
                Some(e) => r == Err::<(), Error>(e) && *final(self) == *old(self),
                None => r == Ok::<(), Error>(()) && final(self)@ == (StablecoinView {
                    bids: insert_bid(old(self)@.bids, bond_bid(who, price, payout), old(self)@.maximum_bids),
                    ..old(self)@
                }),
            },
    {
        if price > BILLION as u32 {
            return Err(Error::PriceTooHigh);
        }
        if price <= MINIMUM_BOND_PRICE {
            return Err(Error::PriceTooLow);
        }
        if payout < MINIMUM_BOND_PAYOUT * BILLION as i64 {
            return Err(Error::PayoutTooLow);
        }
        let quantity = fixed_mul_acc_int(payout - BILLION as i64, BASE_UNIT);
        let price_in_coins = perbill_mul(price, quantity);
        if self.balances.get_balance(who) < price_in_coins {
            return Err(Error::InsufficientBalance);
        }
        self.add_bid(Bid::new(who, price, quantity));
        Ok(())
    }

    /// Moves `amount` coins from `sender` to `to`.
    pub fn transfer(&mut self, sender: AccountId, to: AccountId, amount: Coins) -> (r: Result<(), Error>)
        requires
            old(self)@.wf(),
        ensures
            final(self)@.wf(),
            old(self)@.balance(sender) < amount ==> r == Err::<(), Error>(Error::InsufficientBalance)
                && *final(self) == *old(self),
            old(self)@.balance(sender) >= amount && sender != to && old(self)@.balance(to) + amount > u64::MAX
                ==> r == Err::<(), Error>(Error::CoinOverflow) && *final(self) == *old(self),
            old(self)@.balance(sender) >= amount && sender == to ==> r == Ok::<(), Error>(())
                && *final(self) == *old(self),
            old(self)@.balance(sender) >= amount && sender != to && old(self)@.balance(to) + amount <= u64::MAX ==> {
                &&& r == Ok::<(), Error>(())
                &&& final(self)@ == (StablecoinView { balances: final(self)@.balances, ..old(self)@ })
                &&& final(self)@.balances.total() == old(self)@.balances.total()
                &&& forall|a: AccountId| #[trigger] final(self)@.balance(a) == if a == sender {
                    old(self)@.balance(sender) - amount
                } else if a == to {
                    old(self)@.balance(to) + amount
                } else {
                    old(self)@.balance(a) as int
                }
            },
    {
        let from_balance = self.balances.get_balance(sender);
        if from_balance < amount {
            return Err(Error::InsufficientBalance);
        }
        if sender == to {
            return Ok(());
        }
        let to_balance = self.balances.get_balance(to);
        if to_balance > u64::MAX - amount {
            return Err(Error::CoinOverflow);
        }
        self.balances.set_balance(sender, from_balance - amount);
        self.balances.set_balance(to, to_balance + amount);
        Ok(())
    }

    /// Gives one share to each of `holders` and hands the initial coin supply out to
    /// them. The founder who initializes the coin gets a share only if listed.
    pub fn init_with_shareholders(&mut self, _founder: AccountId, holders: Vec<AccountId>) -> (r: Result<(), Error>)
        requires
            old(self)@.wf(),
        ensures
            final(self)@.wf(),
            init_shareholders_post(*old(self), *final(self), r, holders@),
    {
        if self.initialized {
            return Err(Error::AlreadyInitialized);
        }
        let mut shares: Vec<(AccountId, u64)> = Vec::new();
        let mut i: usize = 0;
        while i < holders.len()
            invariant
                i <= holders@.len(),
                shares@ =~= one_share_each(holders@).take(i as int),
            decreases holders@.len() - i,
        {
            shares.push((holders[i], 1));
            i += 1;
        }
        assert(shares@ =~= one_share_each(holders@));
        let share_supply = holders.len() as u64;
        let ghost registered = StablecoinView { shares: shares@, share_supply, ..self@ };
        if share_supply == 0 {
            return Err(Error::NoShareholders);
        }
        self.test_increase_coin_supply(COIN_SUPPLY)?;
        let credits = match share_credits_for(&shares, share_supply, COIN_SUPPLY) {
            Ok(c) => c,
            Err(e) => {
                assert(handout_credits(registered, COIN_SUPPLY) == Err::<Seq<(AccountId, Coins)>, Error>(e));
                return Err(e);
            },
        };
        assert(handout_credits(registered, COIN_SUPPLY) == Ok::<Seq<(AccountId, Coins)>, Error>(credits@));
        if !self.balances.credit_all(&credits) {
            return Err(Error::CoinOverflow);
        }
        self.shares = shares;
        self.share_supply = share_supply;
        self.coin_supply = self.coin_supply + COIN_SUPPLY;
        self.initialized = true;
        Ok(())
    }

    /// Appends a bond of `payout` for `account` to the bond queue.
    pub fn add_bond(&mut self, account: AccountId, payout: Coins, now: BlockNumber) -> (r: Result<(), Error>)
        ensures
            match bond_expiration(now, old(self)@.expiration_period) {
                Some(e) => r == Ok::<(), Error>(()) && final(self)@ == (StablecoinView {
                    bonds: old(self)@.bonds.push(Bond { account, payout, expiration: e }),
                    ..old(self)@
                }),
                None => r == Err::<(), Error>(Error::GenericOverflow) && *final(self) == *old(self),
            },
    {
        let bond = self.new_bond(account, payout, now)?;
        self.bonds.push(bond);
        Ok(())
    }
}

/// The payments that hand `amount` out to `shares`.
fn share_credits_for(shares: &Vec<(AccountId, u64)>, share_supply: u64, amount: Coins) -> (r: Result<Vec<(AccountId, Coins)>, Error>)
    requires
        share_supply > 0,
        shares@.len() > 0,
    ensures
        match r {
            Ok(c) => payout_total(shares@, share_supply, amount) == amount
                && c@ == share_credits(shares@, share_supply, amount)
                && credits_sum(c@) == amount,
            Err(e) => e == Error::Unexpected && payout_total(shares@, share_supply, amount) != amount,
        },
{
    let (payouts, paid) = shareholder_payouts(shares, share_supply, amount);
    if paid != amount {
        return Err(Error::Unexpected);
    }
    let mut credits: Vec<(AccountId, Coins)> = Vec::new();
    let mut i: usize = 0;
    while i < payouts.len()
        invariant
            payouts@.len() == shares@.len(),
            forall|j: int| 0 <= j < payouts@.len() ==> payouts@[j] == payout_at(shares@, share_supply, amount, j),
            i <= payouts@.len(),
            credits@.len() == i,
            forall|j: int| 0 <= j < i ==> #[trigger] credits@[j] == (shares@[j].0, payouts@[j]),
        decreases payouts@.len() - i,
    {
        credits.push((shares[i].0, payouts[i]));
        i += 1;
    }
    proof {
        assert(credits@ =~= share_credits(shares@, share_supply, amount));
        lemma_share_credits_sum(credits@, payouts@);
    }
    Ok(credits)
}

} // verus!
