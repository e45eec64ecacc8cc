use num_rational::Ratio;
use sp_arithmetic::traits::CheckedMul;
use sp_arithmetic::{FixedI64, FixedPointNumber, PerThing, Perbill};
use stablecoin::{Bid, BidError, Coins, Error, Stablecoin, BASE_UNIT, COIN_SUPPLY};

// Bonds expire quickly and few bids are allowed.
const EXPIRATION_PERIOD: u64 = 100;
const MAXIMUM_BIDS: usize = 10;
// The first block.
const NOW: u64 = 1;

fn new_coin() -> Stablecoin {
    Stablecoin::new(EXPIRATION_PERIOD, MAXIMUM_BIDS)
}

fn percent(p: u32) -> u32 {
    Perbill::from_percent(p).deconstruct()
}

fn with_ten_shareholders() -> Stablecoin {
    let mut coin = new_coin();
    assert_eq!(coin.init_with_shareholders(1, vec![1, 2, 3, 4, 5, 6, 7, 8, 9, 10]), Ok(()));
    coin
}

// A small deterministic generator for the property checks.
struct Lcg(u64);

impl Lcg {
    fn next(&mut self, bound: u64) -> u64 {
        self.0 = self.0.wrapping_mul(6364136223846793005).wrapping_add(1442695040888963407);
        (self.0 >> 33) % bound
    }
}

#[test]
fn init_and_transfer() {
    let mut coin = new_coin();
    assert_eq!(coin.init(1), Ok(()));

    let amount = 42;
    assert_eq!(coin.transfer(1, 2, amount), Ok(()));

    assert_eq!(coin.get_balance(1), COIN_SUPPLY - amount);
    assert_eq!(coin.get_balance(2), amount);
}

#[test]
fn init_with_shareholders_test() {
    let coin = with_ten_shareholders();
    assert_eq!(
        coin.shares(),
        vec![(1, 1), (2, 1), (3, 1), (4, 1), (5, 1), (6, 1), (7, 1), (8, 1), (9, 1), (10, 1)]
    );
    assert_eq!(coin.share_supply(), 10);
}

#[test]
fn bids_are_sorted_highest_to_lowest() {
    let mut coin = new_coin();
    assert_eq!(coin.init(1), Ok(()));

    coin.add_bid(Bid::new(1, percent(25), 5 * BASE_UNIT));
    coin.add_bid(Bid::new(1, percent(33), 5 * BASE_UNIT));
    coin.add_bid(Bid::new(1, percent(50), 5 * BASE_UNIT));

    let prices: Vec<u32> = coin.bond_bids().into_iter().map(|b| b.price).collect();
    assert_eq!(prices, vec![percent(50), percent(33), percent(25)]);
}

#[test]
fn amount_of_bids_is_limited() {
    let mut coin = new_coin();
    assert_eq!(coin.init(1), Ok(()));

    for _i in 0..(2 * MAXIMUM_BIDS) {
        coin.add_bid(Bid::new(1, percent(25), 5 * BASE_UNIT));
    }

    assert_eq!(coin.bond_bids().len(), MAXIMUM_BIDS);
}

#[test]
fn adding_bonds() {
    let mut coin = new_coin();
    assert_eq!(coin.init(1), Ok(()));

    let payout = FixedI64::saturating_from_rational(20, 100).saturating_mul_acc_int(BASE_UNIT);
    assert_eq!(coin.add_bond(3, payout, NOW), Ok(()));

    let bonds = coin.bonds();
    assert_eq!(bonds.len(), 1);
    assert_eq!(bonds[0].expiration, EXPIRATION_PERIOD + 1);
}

#[test]
fn expire_bonds() {
    let mut coin = new_coin();
    assert_eq!(coin.init(1), Ok(()));
    let payout = FixedI64::saturating_from_rational(20, 100).saturating_mul_acc_int(BASE_UNIT);
    assert_eq!(coin.add_bond(3, payout, NOW), Ok(()));

    let bonds = coin.bonds();
    assert_eq!(bonds.len(), 1);
    assert_eq!(bonds[0].expiration, 101);

    let prev_supply = coin.coin_supply();
    // past the expiration
    let now = EXPIRATION_PERIOD + 20;
    assert_eq!(coin.contract_supply(42, now), Ok(()));
    assert_eq!(prev_supply, coin.coin_supply(), "coin supply should not change as the bond expired");
}

#[test]
fn simple_handout_test() {
    let mut coin = with_ten_shareholders();
    assert_eq!(coin.get_balance(1), COIN_SUPPLY / 10);
    assert_eq!(coin.get_balance(10), COIN_SUPPLY / 10);

    let amount = 30 * BASE_UNIT;
    assert_eq!(coin.hand_out_coins_to_shareholders(amount), Ok(()));

    let amount_per_acc = 3 * BASE_UNIT;
    assert_eq!(coin.get_balance(1), COIN_SUPPLY / 10 + amount_per_acc);
    assert_eq!(coin.get_balance(2), COIN_SUPPLY / 10 + amount_per_acc);
    assert_eq!(coin.get_balance(3), COIN_SUPPLY / 10 + amount_per_acc);
    assert_eq!(coin.get_balance(7), COIN_SUPPLY / 10 + amount_per_acc);
    assert_eq!(coin.get_balance(10), COIN_SUPPLY / 10 + amount_per_acc);
}

#[test]
fn handout_less_than_shares_test() {
    let mut coin = with_ten_shareholders();
    assert_eq!(coin.get_balance(1), COIN_SUPPLY / 10);
    assert_eq!(coin.get_balance(10), COIN_SUPPLY / 10);

    let amount = 8;
    assert_eq!(coin.hand_out_coins_to_shareholders(amount), Ok(()));

    let amount_per_acc = 1;
    assert_eq!(coin.get_balance(1), COIN_SUPPLY / 10 + amount_per_acc);
    assert_eq!(coin.get_balance(2), COIN_SUPPLY / 10 + amount_per_acc);
    assert_eq!(coin.get_balance(3), COIN_SUPPLY / 10 + amount_per_acc);
    assert_eq!(coin.get_balance(7), COIN_SUPPLY / 10 + amount_per_acc);
    assert_eq!(coin.get_balance(8), COIN_SUPPLY / 10 + amount_per_acc);
    assert_eq!(coin.get_balance(9), COIN_SUPPLY / 10);
    assert_eq!(coin.get_balance(10), COIN_SUPPLY / 10);
}

#[test]
fn handout_more_than_shares_test() {
    let mut coin = with_ten_shareholders();
    assert_eq!(coin.get_balance(1), COIN_SUPPLY / 10);
    assert_eq!(coin.get_balance(10), COIN_SUPPLY / 10);

    let amount = 13;
    assert_eq!(coin.hand_out_coins_to_shareholders(amount), Ok(()));

    let amount_per_acc = 1;
    assert_eq!(coin.get_balance(1), COIN_SUPPLY / 10 + amount_per_acc + 1);
    assert_eq!(coin.get_balance(2), COIN_SUPPLY / 10 + amount_per_acc + 1);
    assert_eq!(coin.get_balance(3), COIN_SUPPLY / 10 + amount_per_acc + 1);
    assert_eq!(coin.get_balance(4), COIN_SUPPLY / 10 + amount_per_acc);
    assert_eq!(coin.get_balance(8), COIN_SUPPLY / 10 + amount_per_acc);
    assert_eq!(coin.get_balance(10), COIN_SUPPLY / 10 + amount_per_acc);
}

fn handout_property(shareholders: Vec<u64>, amount: Coins) {
    let mut coin = new_coin();
    assert_eq!(coin.init_with_shareholders(1, shareholders.clone()), Ok(()));

    assert_eq!(coin.hand_out_coins_to_shareholders(amount), Ok(()));

    let len = shareholders.len() as u64;
    let payout = amount;
    let balance = coin.get_balance(shareholders[0]);
    assert!(balance >= COIN_SUPPLY / len + payout / len);
    assert!(balance <= COIN_SUPPLY / len + 1 + payout / len + 1);
}

#[test]
fn handout_quickcheck() {
    let mut rng = Lcg(999);
    for _case in 0..100 {
        // between 1 and 999 distinct non-zero shareholders
        let len = 1 + rng.next(999);
        let start = 1 + rng.next(100);
        let shareholders: Vec<u64> = (start..start + len).collect();
        let amount = 1 + rng.next(100);
        handout_property(shareholders, amount);
    }
}

#[test]
fn expand_supply_test() {
    let mut coin = with_ten_shareholders();

    // payout of 120% of BASE_UNIT
    let payout = FixedI64::saturating_from_rational(20, 100).saturating_mul_acc_int(BASE_UNIT);
    assert_eq!(coin.add_bond(2, payout, NOW), Ok(()));
    assert_eq!(coin.add_bond(3, payout, NOW), Ok(()));
    assert_eq!(coin.add_bond(4, payout, NOW), Ok(()));
    assert_eq!(coin.add_bond(5, 7 * payout, NOW), Ok(()));

    let prev_supply = coin.coin_supply();
    let amount = 13 * BASE_UNIT;
    assert_eq!(coin.expand_supply(amount, NOW), Ok(()));

    let amount_per_acc = COIN_SUPPLY / 10 + BASE_UNIT / 10;
    assert_eq!(coin.get_balance(1), amount_per_acc);
    assert_eq!(coin.get_balance(2), amount_per_acc + payout);
    assert_eq!(coin.get_balance(3), amount_per_acc + payout);
    assert_eq!(coin.get_balance(4), amount_per_acc + payout);
    assert_eq!(coin.get_balance(5), amount_per_acc + 7 * payout);
    assert_eq!(coin.get_balance(8), amount_per_acc);
    assert_eq!(coin.get_balance(10), amount_per_acc);

    assert_eq!(coin.coin_supply(), prev_supply + amount, "supply should be increased by amount");
}

#[test]
fn contract_supply_test() {
    let mut coin = with_ten_shareholders();

    let bond_amount = Ratio::new(125, 100)
        .checked_mul(&BASE_UNIT.into())
        .map(|r: Ratio<u64>| r.to_integer())
        .unwrap();
    coin.add_bid(Bid::new(1, percent(80), bond_amount));
    coin.add_bid(Bid::new(2, percent(75), 2 * BASE_UNIT));

    let prev_supply = coin.coin_supply();
    let amount = 2 * BASE_UNIT;
    assert_eq!(coin.contract_supply(amount, NOW), Ok(()));

    let bids = coin.bond_bids();
    let bonds = coin.bonds();
    assert_eq!(bids.len(), 1, "exactly one bid should have been removed");
    let remainging_bid_quantity = FixedI64::saturating_from_rational(667, 1_000)
        .saturating_mul_acc_int(BASE_UNIT)
        .saturating_sub(BASE_UNIT);
    assert_eq!(bids[0], Bid::new(2, percent(75), remainging_bid_quantity));
    assert_eq!(bonds[0].payout, bond_amount);
    assert_eq!(
        bonds[1].payout,
        FixedI64::saturating_from_rational(333, 1_000).saturating_mul_acc_int(BASE_UNIT)
    );

    assert_eq!(coin.coin_supply(), prev_supply - amount, "supply should be decreased by amount");
}

#[test]
fn expand_or_contract_quickcheck() {
    let mut rng = Lcg(100);
    for _case in 0..100 {
        let mut coin = with_ten_shareholders();

        let n_bonds = rng.next(10);
        for _b in 0..n_bonds {
            let account = rng.next(100);
            let payout = rng.next(100);
            if account > 0 && payout > 0 {
                assert_eq!(coin.add_bond(account, payout, NOW), Ok(()));
            }
        }

        let n_prices = rng.next(4);
        for _p in 0..n_prices {
            let price = 1 + rng.next(100);
            assert_eq!(coin.expand_or_contract_on_price(price, NOW), Ok(()));
        }
    }
}

// ------------------------------------------------------------
// prices and the peg

#[test]
fn zero_price_is_refused() {
    let mut coin = with_ten_shareholders();
    assert_eq!(coin.expand_or_contract_on_price(0, NOW), Err(Error::ZeroPrice));
    assert_eq!(coin.coin_supply(), COIN_SUPPLY);
}

#[test]
fn price_at_peg_changes_nothing() {
    let mut coin = with_ten_shareholders();
    assert_eq!(coin.expand_or_contract_on_price(BASE_UNIT, NOW), Ok(()));
    assert_eq!(coin.coin_supply(), COIN_SUPPLY);
    assert_eq!(coin.get_balance(1), COIN_SUPPLY / 10);
}

#[test]
fn price_at_half_the_peg_doubles_the_supply() {
    let mut coin = with_ten_shareholders();
    assert_eq!(coin.expand_or_contract_on_price(BASE_UNIT / 2, NOW), Ok(()));
    assert_eq!(coin.coin_supply(), 2 * COIN_SUPPLY);
    assert_eq!(coin.get_balance(3), 2 * (COIN_SUPPLY / 10));
}

#[test]
fn price_below_peg_rounds_toward_zero() {
    // 1000 / 999 - 1 = 0.001001001 (in billionths), times 100_000 = 100.1001001
    let mut coin = with_ten_shareholders();
    assert_eq!(coin.expand_or_contract_on_price(999, NOW), Ok(()));
    assert_eq!(coin.coin_supply(), COIN_SUPPLY + 100);
}

#[test]
fn price_above_peg_burns_against_bids() {
    let mut coin = with_ten_shareholders();
    coin.add_bid(Bid::new(4, percent(50), 30 * BASE_UNIT));
    // 1100 / 1000 - 1 = 0.1 of 100_000 coins
    assert_eq!(coin.expand_or_contract_on_price(1100, NOW), Ok(()));
    assert_eq!(coin.coin_supply(), COIN_SUPPLY - 10 * BASE_UNIT);
    let bonds = coin.bonds();
    assert_eq!(bonds.len(), 1);
    assert_eq!(bonds[0].payout, 20 * BASE_UNIT);
    assert_eq!(bonds[0].expiration, NOW + EXPIRATION_PERIOD);
    let bids = coin.bond_bids();
    assert_eq!(bids[0].price_in_coins, 5 * BASE_UNIT);
    assert_eq!(bids[0].quantity, 10 * BASE_UNIT);
}

#[test]
fn price_far_above_peg_cannot_burn_everything() {
    let mut coin = with_ten_shareholders();
    assert_eq!(coin.expand_or_contract_on_price(2 * BASE_UNIT, NOW), Err(Error::CoinOverflow));
    assert_eq!(coin.expand_or_contract_on_price(3 * BASE_UNIT, NOW), Err(Error::CoinUnderflow));
    assert_eq!(coin.coin_supply(), COIN_SUPPLY);
}

// ------------------------------------------------------------
// bids

#[test]
fn bid_cost_rounds_to_nearest_ties_down() {
    assert_eq!(Bid::new(1, percent(75), 667).price_in_coins, 500);
    assert_eq!(Bid::new(1, percent(50), 3).price_in_coins, 1);
    assert_eq!(Bid::new(1, percent(50), 5).price_in_coins, 2);
    assert_eq!(Bid::new(1, percent(60), 3).price_in_coins, 2);
    assert_eq!(Bid::new(1, percent(100), 7).price_in_coins, 7);
}

#[test]
fn remove_coins_buys_quantity_at_price() {
    let mut bid = Bid::new(1, percent(75), 2000);
    assert_eq!(bid.remove_coins(1000), Ok(1333));
    assert_eq!(bid.price_in_coins, 500);
    assert_eq!(bid.quantity, 667);
}

#[test]
fn remove_coins_underflow_leaves_bid() {
    let mut bid = Bid { account: 1, price: percent(50), price_in_coins: 100, quantity: 10 };
    assert_eq!(bid.remove_coins(100), Err(BidError::Underflow));
    assert_eq!(bid.remove_coins(101), Err(BidError::Underflow));
    assert_eq!(bid, Bid { account: 1, price: percent(50), price_in_coins: 100, quantity: 10 });
}

#[test]
fn remove_coins_overflow() {
    // 10^9 / 3 is in lowest terms, and 10^9 * 2^40 does not fit in u64.
    let mut bid = Bid { account: 1, price: 3, price_in_coins: u64::MAX, quantity: u64::MAX };
    assert_eq!(bid.remove_coins(1 << 40), Err(BidError::Overflow));
    assert_eq!(bid.quantity, u64::MAX);
}

#[test]
fn contraction_that_leaves_a_bid_out_of_step_fails() {
    let mut coin = with_ten_shareholders();
    // costs 500 coins; 500 coins buy 666, leaving 1 of quantity and no coins
    coin.add_bid(Bid::new(2, percent(75), 667));
    assert_eq!(coin.contract_supply(500, NOW), Err(Error::Unexpected));
    assert_eq!(coin.bond_bids().len(), 1);
    assert_eq!(coin.bonds().len(), 0);
    assert_eq!(coin.coin_supply(), COIN_SUPPLY);
}

#[test]
fn contraction_errors_map_bid_errors() {
    let mut coin = with_ten_shareholders();
    coin.add_bid(Bid { account: 1, price: percent(50), price_in_coins: 100, quantity: 10 });
    assert_eq!(coin.contract_supply(100, NOW), Err(Error::GenericUnderflow));
    let mut coin = with_ten_shareholders();
    coin.add_bid(Bid { account: 1, price: 3, price_in_coins: u64::MAX, quantity: u64::MAX });
    assert_eq!(coin.contract_supply(99_999, NOW), Ok(()));
    assert_eq!(coin.bonds()[0].payout, 33_333_000_000_000);
}

#[test]
fn contraction_with_bond_expiry_overflow() {
    let mut coin = with_ten_shareholders();
    coin.add_bid(Bid::new(2, percent(50), 100));
    assert_eq!(coin.contract_supply(10, u64::MAX), Err(Error::GenericOverflow));
    assert_eq!(coin.add_bond(2, 10, u64::MAX), Err(Error::GenericOverflow));
    assert_eq!(coin.contract_supply(0, u64::MAX), Ok(()));
}

#[test]
fn bid_for_bond_checks() {
    let mut coin = new_coin();
    assert_eq!(coin.init(1), Ok(()));
    let one = 1_000_000_000;
    assert_eq!(coin.bid_for_bond(1, 1_000_000_001, one), Err(Error::PriceTooHigh));
    assert_eq!(coin.bid_for_bond(1, percent(10), one), Err(Error::PriceTooLow));
    assert_eq!(coin.bid_for_bond(1, percent(80), one - 1), Err(Error::PayoutTooLow));
    assert_eq!(coin.bid_for_bond(2, percent(80), 2 * one), Err(Error::InsufficientBalance));
    assert_eq!(coin.bond_bids().len(), 0);

    // a payout of 1.25 units is 1250 coins, at 80%: 1000 coins
    assert_eq!(coin.bid_for_bond(1, percent(80), 1_250_000_000), Ok(()));
    assert_eq!(coin.bond_bids(), vec![Bid::new(1, percent(80), 1250)]);
    assert_eq!(coin.bond_bids()[0].price_in_coins, 1000);
    // the balance is only checked
    assert_eq!(coin.get_balance(1), COIN_SUPPLY);
}

#[test]
fn bids_stay_sorted_and_bounded() {
    let mut coin = new_coin();
    let mut rng = Lcg(7);
    for _i in 0..50 {
        let price = 1 + rng.next(1_000_000_000) as u32;
        coin.add_bid(Bid::new(rng.next(5), price, rng.next(10_000)));
        let bids = coin.bond_bids();
        assert!(bids.len() <= MAXIMUM_BIDS);
        for w in bids.windows(2) {
            assert!(w[0].price >= w[1].price);
        }
    }
}

#[test]
fn equal_price_bid_goes_before_earlier_ones() {
    let mut coin = new_coin();
    coin.add_bid(Bid::new(1, percent(50), 10));
    coin.add_bid(Bid::new(2, percent(50), 10));
    coin.add_bid(Bid::new(3, percent(40), 10));
    let accounts: Vec<u64> = coin.bond_bids().into_iter().map(|b| b.account).collect();
    assert_eq!(accounts, vec![2, 1, 3]);
}

// ------------------------------------------------------------
// initialization, transfers, hand-outs

#[test]
fn init_twice_is_refused() {
    let mut coin = new_coin();
    assert_eq!(coin.init(1), Ok(()));
    assert_eq!(coin.init(2), Err(Error::AlreadyInitialized));
    assert_eq!(coin.init_with_shareholders(2, vec![2, 3]), Err(Error::AlreadyInitialized));
    assert_eq!(coin.get_balance(2), 0);
    assert!(coin.initialized());
}

#[test]
fn init_with_no_shareholders_is_refused() {
    let mut coin = new_coin();
    assert_eq!(coin.init_with_shareholders(1, vec![]), Err(Error::NoShareholders));
    assert!(!coin.initialized());
    assert_eq!(coin.hand_out_coins_to_shareholders(5), Err(Error::NoShareholders));
}

#[test]
fn founder_handout_that_cannot_add_up_fails() {
    // one holder of 100 shares: 150 coins pay 1 per share, 100 in all
    let mut coin = new_coin();
    assert_eq!(coin.init(1), Ok(()));
    assert_eq!(coin.hand_out_coins_to_shareholders(150), Err(Error::Unexpected));
    assert_eq!(coin.hand_out_coins_to_shareholders(99), Ok(()));
    assert_eq!(coin.get_balance(1), COIN_SUPPLY + 99);
    assert_eq!(coin.coin_supply(), COIN_SUPPLY + 99);
}

#[test]
fn handout_spreads_the_remainder_first() {
    let mut coin = new_coin();
    assert_eq!(coin.init_with_shareholders(1, vec![7, 8, 9]), Ok(()));
    let before: Vec<u64> = vec![coin.get_balance(7), coin.get_balance(8), coin.get_balance(9)];
    assert_eq!(before, vec![33_334, 33_333, 33_333]);
    assert_eq!(coin.hand_out_coins_to_shareholders(10), Ok(()));
    assert_eq!(coin.get_balance(7), 33_334 + 4);
    assert_eq!(coin.get_balance(8), 33_333 + 3);
    assert_eq!(coin.get_balance(9), 33_333 + 3);
}

#[test]
fn handout_overflowing_the_supply_is_refused() {
    let mut coin = with_ten_shareholders();
    assert_eq!(coin.hand_out_coins_to_shareholders(u64::MAX), Err(Error::CoinOverflow));
    assert_eq!(coin.expand_supply(u64::MAX, NOW), Err(Error::CoinOverflow));
    assert_eq!(coin.coin_supply(), COIN_SUPPLY);
}

#[test]
fn transfer_checks_balances() {
    let mut coin = new_coin();
    assert_eq!(coin.init(1), Ok(()));
    assert_eq!(coin.transfer(2, 1, 1), Err(Error::InsufficientBalance));
    assert_eq!(coin.transfer(1, 1, 500), Ok(()));
    assert_eq!(coin.get_balance(1), COIN_SUPPLY);
    assert_eq!(coin.transfer(1, 3, COIN_SUPPLY), Ok(()));
    assert_eq!(coin.get_balance(1), 0);
    assert_eq!(coin.get_balance(3), COIN_SUPPLY);
}

#[test]
fn expansion_credits_every_minted_coin() {
    let mut coin = with_ten_shareholders();
    assert_eq!(coin.add_bond(11, 5_000, NOW), Ok(()));
    assert_eq!(coin.add_bond(12, 7_000, NOW), Ok(()));
    let sum = |c: &Stablecoin| (1..=12).map(|a| c.get_balance(a)).sum::<u64>();
    let gap = coin.coin_supply() - sum(&coin);
    assert_eq!(coin.expand_supply(9_000, NOW), Ok(()));
    assert_eq!(coin.coin_supply() - sum(&coin), gap);
    assert_eq!(coin.get_balance(11), 5_000);
    assert_eq!(coin.get_balance(12), 4_000);
    assert_eq!(coin.bonds()[0].payout, 3_000);
}

#[test]
fn expired_bond_takes_nothing() {
    let mut coin = with_ten_shareholders();
    assert_eq!(coin.add_bond(11, 5_000, 0), Ok(()));
    // the bond expires at block 100; at 120 it is dropped unpaid
    assert_eq!(coin.expand_supply(1_000, 120), Ok(()));
    assert_eq!(coin.get_balance(11), 0);
    assert_eq!(coin.get_balance(1), COIN_SUPPLY / 10 + 100);
    assert_eq!(coin.bonds().len(), 0);
    assert_eq!(coin.coin_supply(), COIN_SUPPLY + 1_000);
}

#[test]
fn expansion_without_shareholders_fails_when_bonds_run_out() {
    let mut coin = new_coin();
    assert_eq!(coin.add_bond(11, 500, NOW), Ok(()));
    assert_eq!(coin.expand_supply(400, NOW), Ok(()));
    assert_eq!(coin.get_balance(11), 400);
    assert_eq!(coin.expand_supply(400, NOW), Err(Error::NoShareholders));
    assert_eq!(coin.get_balance(11), 400);
    assert_eq!(coin.coin_supply(), 400);
}
