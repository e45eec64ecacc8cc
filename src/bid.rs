//! Bids for bonds, the bonds themselves, and the price-ordered bid queue.

use vstd::prelude::*;
use crate::arith::{perbill_mul, perbill_of, ratio_mul_floor, ratio_product_fits, BILLION};

verus! {

/// An amount of coins.
pub type Coins = u64;

/// Identifies an account in the ledger.
pub type AccountId = u64;

/// A block height.
pub type BlockNumber = u64;

/// An offer to pay `price_in_coins` now for a bond of `quantity` coins later.
///
/// `price` is the offered fraction of the payout, in parts per billion.
#[derive(Clone, Copy, Debug, PartialEq, Eq)]
pub struct Bid {
    pub account: AccountId,
    pub price: u32,
    pub price_in_coins: Coins,
    pub quantity: Coins,
}

/// An obligation to pay `payout` coins to `account`, void from block `expiration` on.
#[derive(Clone, Copy, Debug, PartialEq, Eq)]
pub struct Bond {
    pub account: AccountId,
    pub payout: Coins,
    pub expiration: BlockNumber,
}

/// Why coins could not be taken from a bid.
#[derive(Clone, Copy, Debug, PartialEq, Eq)]
pub enum BidError {
    Overflow,
    Underflow,
}

impl Bid {
    /// A price is a fraction in `(0, 1]`.
    pub open spec fn wf(self) -> bool {
        0 < self.price <= BILLION
    }

    /// Whether `price_in_coins` and `quantity` are both zero or both positive.
    pub open spec fn in_step(self) -> bool {
        (self.price_in_coins == 0) == (self.quantity == 0)
    }

    /// A bid of `quantity` at `price`, costing `price * quantity` rounded to nearest.
    pub fn new(account: AccountId, price: u32, quantity: Coins) -> (r: Bid)
        requires
            0 < price <= BILLION,
        ensures
            r.wf(),
            r == (Bid { account, price, price_in_coins: perbill_of(price, quantity) as u64, quantity }),
    {
        let price_in_coins = perbill_mul(price, quantity);
        Bid { account, price, price_in_coins, quantity }
    }
}

/// The quantity that `coins` buy at `price`: `coins / price`, rounded down, or `None`
/// where the rational product overflows.
pub open spec fn quantity_for(price: u32, coins: Coins) -> Option<Coins> {
    if ratio_product_fits(BILLION, price as u64, coins) {
        Some((BILLION as int * coins as int / price as int) as u64)
    } else {
        None
    }
}

/// The bid after `coins` of its price are spent, with the quantity they bought.
pub open spec fn spend(bid: Bid, coins: Coins) -> Result<(Bid, Coins), BidError> {
    match quantity_for(bid.price, coins) {
        None => Err(BidError::Overflow),
        Some(removed) => if coins > bid.price_in_coins || removed > bid.quantity {
            Err(BidError::Underflow)
        } else {
            Ok(
                (
                    Bid {
                        price_in_coins: (bid.price_in_coins - coins) as u64,
                        quantity: (bid.quantity - removed) as u64,
                        ..bid
                    },
                    removed,
                ),
            )
        },
    }
}

impl Bid {
    /// Spends `coins` of the bid's price and returns the quantity they bought; on an
    /// error the bid is unchanged.
    pub fn remove_coins(&mut self, coins: Coins) -> (r: Result<Coins, BidError>)
        requires
            old(self).wf(),
        ensures
            match spend(*old(self), coins) {
                Ok((b, removed)) => r == Ok::<Coins, BidError>(removed) && *final(self) == b,
                Err(e) => r == Err::<Coins, BidError>(e) && *final(self) == *old(self),
            },
    {
        let removed = match ratio_mul_floor(BILLION, self.price as u64, coins) {
            Some(q) => q,
            None => return Err(BidError::Overflow),
        };
        if coins > self.price_in_coins || removed > self.quantity {
            return Err(BidError::Underflow);
        }
        self.price_in_coins = self.price_in_coins - coins;
        self.quantity = self.quantity - removed;
        Ok(removed)
    }
}

/// The first position whose price is at or below `price`, or the length.
pub open spec fn insertion_index(bids: Seq<Bid>, price: u32) -> nat
    decreases bids.len(),
{
    if bids.len() == 0 {
        0
    } else if bids[0].price <= price {
        0
    } else {
        1 + insertion_index(bids.drop_first(), price)
    }
}

/// `bid` placed before the first bid priced at or below it, then cut to `max` bids.
pub open spec fn insert_bid(bids: Seq<Bid>, bid: Bid, max: nat) -> Seq<Bid> {
    let all = bids.insert(insertion_index(bids, bid.price) as int, bid);
    if all.len() <= max {
        all
    } else {
        all.take(max as int)
    }
}

/// Prices never rise from front to back.
pub open spec fn sorted_by_price(bids: Seq<Bid>) -> bool {
    forall|i: int, j: int| 0 <= i < j < bids.len() ==> bids[i].price >= bids[j].price
}

pub(crate) proof fn lemma_insertion_index(bids: Seq<Bid>, price: u32)
    ensures
        insertion_index(bids, price) <= bids.len(),
        forall|j: int| 0 <= j < insertion_index(bids, price) ==> bids[j].price > price,
        insertion_index(bids, price) < bids.len() ==> bids[insertion_index(bids, price) as int].price <= price,
    decreases bids.len(),
{
    if bids.len() > 0 && bids[0].price > price {
        lemma_insertion_index(bids.drop_first(), price);
        assert forall|j: int| 0 <= j < insertion_index(bids, price) implies bids[j].price > price by {
            if j > 0 {
                assert(bids[j] == bids.drop_first()[j - 1]);
            }
        }
    }
}

/// Inserts `bid` into the queue as `insert_bid` describes.
pub fn add_bid_to(bid: Bid, bids: &mut Vec<Bid>, max: usize)
    ensures
        final(bids)@ == insert_bid(old(bids)@, bid, max as nat),
{
    let mut index: usize = 0;
    proof {
        lemma_insertion_index(bids@, bid.price);
    }
    while index < bids.len() && bids[index].price > bid.price
        invariant
            index <= bids.len(),
            forall|j: int| 0 <= j < index ==> bids@[j].price > bid.price,
        decreases bids.len() - index,
    {
        index += 1;
    }
    proof {
        lemma_insertion_index_exact(bids@, bid.price, index as nat);
    }
    bids.insert(index, bid);
    bids.truncate(max);
}

proof fn lemma_insertion_index_exact(bids: Seq<Bid>, price: u32, k: nat)
    requires
        k <= bids.len(),
        forall|j: int| 0 <= j < k ==> bids[j].price > price,
        k < bids.len() ==> bids[k as int].price <= price,
    ensures
        insertion_index(bids, price) == k,
    decreases bids.len(),
{
    if k > 0 {
        assert(bids[0].price > price);
        assert forall|j: int| 0 <= j < k - 1 implies bids.drop_first()[j].price > price by {
            assert(bids.drop_first()[j] == bids[j + 1]);
        }
        lemma_insertion_index_exact(bids.drop_first(), price, (k - 1) as nat);
    }
}

/// Insertion keeps the queue sorted by price, highest first, and never lets it grow
/// past its bound.
pub proof fn lemma_insert_keeps_order(bids: Seq<Bid>, bid: Bid, max: nat)
    requires
        sorted_by_price(bids),
        bids.len() <= max,
    ensures
        sorted_by_price(insert_bid(bids, bid, max)),
        insert_bid(bids, bid, max).len() <= max,
{
    let k = insertion_index(bids, bid.price) as int;
    lemma_insertion_index(bids, bid.price);
    let all = bids.insert(k, bid);
    assert forall|i: int, j: int| 0 <= i < j < all.len() implies all[i].price >= all[j].price by {
        if j < k {
        } else if j == k {
        } else if i < k {
            assert(all[j] == bids[j - 1]);
        } else if i == k {
            assert(all[j] == bids[j - 1]);
            assert(bids[k].price <= bid.price);
        } else {
            assert(all[j] == bids[j - 1]);
            assert(all[i] == bids[i - 1]);
        }
    }
}

/// Every bid of the queue after an insertion was in the queue before, or is the
/// inserted one.
pub(crate) proof fn lemma_insert_members(bids: Seq<Bid>, bid: Bid, max: nat)
    ensures
        forall|i: int|
            0 <= i < insert_bid(bids, bid, max).len() ==> {
                let x = #[trigger] insert_bid(bids, bid, max)[i];
                x == bid || exists|j: int| 0 <= j < bids.len() && bids[j] == x
            },
{
    let k = insertion_index(bids, bid.price) as int;
    lemma_insertion_index(bids, bid.price);
    let all = bids.insert(k, bid);
    assert forall|i: int| 0 <= i < insert_bid(bids, bid, max).len() implies {
        let x = #[trigger] insert_bid(bids, bid, max)[i];
        x == bid || exists|j: int| 0 <= j < bids.len() && bids[j] == x
    } by {
        assert(insert_bid(bids, bid, max)[i] == all[i]);
        if i < k {
            assert(all[i] == bids[i]);
        } else if i > k {
            assert(all[i] == bids[i - 1]);
        }
    }
}

} // verus!
