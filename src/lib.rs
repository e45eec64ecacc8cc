//! Monetary policy of an algorithmic stablecoin.
//!
//! The coin supply follows a price signal: above the peg the supply contracts by
//! selling bonds to the highest bidders, below it the supply expands by paying out
//! the oldest bonds first and handing what is left to the shareholders.

mod arith;
pub mod bid;
pub mod laws;
pub mod ledger;
pub mod payout;
pub mod policy;
pub mod ringbuffer;
pub mod stablecoin;

pub use bid::{AccountId, Bid, BidError, BlockNumber, Bond, Coins};
pub use ledger::Ledger;
pub use ringbuffer::{RingBufferTransient, RingStore, WrappingOps};
pub use stablecoin::{Error, Stablecoin, BASE_UNIT, COIN_SUPPLY, SHARE_SUPPLY};
