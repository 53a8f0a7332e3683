//! The origin of a call, and what the chain supplies to calls that make new
//! identifiers.

use vstd::prelude::*;
use crate::{AccountId, H256};

verus! {

/// Who a call comes from.
pub enum Origin {
    /// The root of the chain.
    Root,
    /// A signed transaction of an account.
    Signed(AccountId),
    /// An unsigned transaction.
    Unsigned,
}

impl Origin {
    /// The origin of a transaction that `by` signed.
    pub fn signed(by: AccountId) -> (o: Origin)
        ensures
            o == Origin::Signed(by),
    {
        Origin::Signed(by)
    }
}

/// The account that signed `origin`, or an error when it is not signed.
pub fn ensure_signed(origin: Origin) -> (r: Result<AccountId, &'static str>)
    ensures
        match origin {
            Origin::Signed(who) => r == Ok::<AccountId, &'static str>(who),
            _ => r == Err::<AccountId, &'static str>("bad origin: expected to be a signed origin"),
        },
{
    match origin {
        Origin::Signed(who) => Ok(who),
        _ => Err("bad origin: expected to be a signed origin"),
    }
}

/// The values of the current block that identifiers are made from.
#[derive(Clone, Copy)]
pub struct ChainContext {
    /// The block's random seed.
    pub random_seed: H256,
    /// The block's number.
    pub block_number: u64,
}

} // verus!
