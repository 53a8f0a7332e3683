//! A decentralized exchange: tokens with free and frozen balances, trade
//! pairs, a price-ordered book of limit orders per pair, and the matching of
//! a new limit order against the opposite side of the book.

use vstd::prelude::*;

pub mod wide;
pub mod types;
pub mod codec;
pub mod system;
pub mod token;
pub mod trade;

verus! {

/// A 256-bit hash, written as its high and low 128-bit halves (big-endian
/// byte order: the first sixteen bytes form `.0`).
pub type H256 = (u128, u128);

/// An account of the chain.
pub type AccountId = u64;

/// An amount of a token.
pub type Balance = u128;

/// A price, scaled by `PRICE_FACTOR` (so `100_000_000` is a price of one).
pub type Price = u128;

} // verus!
