//! Tokens: issuing, transferring, freezing and unfreezing amounts.
//!
//! Every holding `(account, token)` has a balance, split into a free part and
//! a frozen (`freezed`) part; frozen amounts back open orders.

use vstd::prelude::*;
use std::collections::BTreeMap;
use crate::{AccountId, Balance, H256};
use crate::codec::{blake2_256, blake2_256_hash, hash_bytes, le_bytes, push_hash, push_le};
use crate::system::{ensure_signed, ChainContext, Origin};

verus! {

broadcast use vstd::std_specs::btree::group_btree_axioms, vstd::laws_cmp::group_laws_cmp;

/// An issued token.
pub struct Token {
    pub hash: H256,
    pub symbol: Vec<u8>,
    pub total_supply: Balance,
}

impl Token {
    /// Whether two tokens hold the same values.
    pub open spec fn same(self, other: Token) -> bool {
        &&& self.hash == other.hash
        &&& self.symbol@ == other.symbol@
        &&& self.total_supply == other.total_supply
    }

    /// A copy of the token.
    pub fn copy(&self) -> (r: Token)
        ensures
            r.same(*self),
    {
        let mut symbol: Vec<u8> = Vec::new();
        let mut i: usize = 0;
        while i < self.symbol.len()
            invariant
                i <= self.symbol@.len(),
                symbol@ == self.symbol@.subrange(0, i as int),
            decreases self.symbol@.len() - i,
        {
            symbol.push(self.symbol[i]);
            i = i + 1;
            assert(symbol@ =~= self.symbol@.subrange(0, i as int));
        }
        assert(symbol@ =~= self.symbol@);
        Token { hash: self.hash, symbol, total_supply: self.total_supply }
    }
}

/// What the token module reports.
pub enum Event {
    TokenIssued(AccountId, H256, Balance),
    TokenTransfered(AccountId, AccountId, H256, Balance),
    Freezed(AccountId, H256, Balance),
    UnFreezed(AccountId, H256, Balance),
}

/// The value under `k`, or zero where there is none (how the chain's
/// storage answers for an absent amount).
pub open spec fn amount_at<K>(m: Map<K, Balance>, k: K) -> Balance {
    if m.contains_key(k) {
        m[k]
    } else {
        0
    }
}

/// The stored index under `k`, or zero where there is none.
pub open spec fn index_at<K>(m: Map<K, u64>, k: K) -> u64 {
    if m.contains_key(k) {
        m[k]
    } else {
        0
    }
}

/// The bytes that the identifier of the token issued with `nonce` is the
/// hash of.
pub open spec fn token_hash_input(random_seed: H256, nonce: u64) -> Seq<u8> {
    hash_bytes(random_seed) + le_bytes(nonce as nat, 8)
}

/// The state of the token module.
pub struct Module {
    /// token hash => token
    pub tokens: BTreeMap<H256, Token>,
    /// token hash => the account that issued it
    pub owners: BTreeMap<H256, AccountId>,
    /// (account, token hash) => balance
    pub balances: BTreeMap<(AccountId, H256), Balance>,
    /// (account, token hash) => free part of the balance
    pub free_balances: BTreeMap<(AccountId, H256), Balance>,
    /// (account, token hash) => frozen part of the balance
    pub freezed_balances: BTreeMap<(AccountId, H256), Balance>,
    /// (account, index) => hash of the index-th token the account issued
    pub owned_tokens: BTreeMap<(AccountId, u64), H256>,
    /// account => number of tokens the account issued
    pub owned_token_indexes: BTreeMap<AccountId, u64>,
    /// counts the tokens issued, and goes into their identifiers
    pub nonce: u64,
    /// what the module reported, oldest first
    pub events: Vec<Event>,
}

impl Module {
    /// The balance of holding `k`.
    pub open spec fn balance(self, k: (AccountId, H256)) -> Balance {
        amount_at(self.balances@, k)
    }

    /// The free part of holding `k`.
    pub open spec fn free(self, k: (AccountId, H256)) -> Balance {
        amount_at(self.free_balances@, k)
    }

    /// The frozen part of holding `k`.
    pub open spec fn freezed(self, k: (AccountId, H256)) -> Balance {
        amount_at(self.freezed_balances@, k)
    }

    /// Every holding's balance is its free part plus its frozen part.
    pub open spec fn consistent(self) -> bool {
        forall|k: (AccountId, H256)| #[trigger] self.balance(k) == self.free(k) + self.freezed(k)
    }

    /// Amounts are held of issued tokens only.
    pub open spec fn holdings_known(self) -> bool {
        &&& forall|k: (AccountId, H256)| #[trigger] self.balances@.contains_key(k)
            ==> self.tokens@.contains_key(k.1)
        &&& forall|k: (AccountId, H256)| #[trigger] self.free_balances@.contains_key(k)
            ==> self.tokens@.contains_key(k.1)
        &&& forall|k: (AccountId, H256)| #[trigger] self.freezed_balances@.contains_key(k)
            ==> self.tokens@.contains_key(k.1)
    }

    /// No token issued, nothing held.
    pub fn new() -> (m: Module)
        ensures
            m.tokens@ == Map::<H256, Token>::empty(),
            m.owners@ == Map::<H256, AccountId>::empty(),
            m.balances@ == Map::<(AccountId, H256), Balance>::empty(),
            m.free_balances@ == Map::<(AccountId, H256), Balance>::empty(),
            m.freezed_balances@ == Map::<(AccountId, H256), Balance>::empty(),
            m.owned_tokens@ == Map::<(AccountId, u64), H256>::empty(),
            m.owned_token_indexes@ == Map::<AccountId, u64>::empty(),
            m.nonce == 0,
            m.events@.len() == 0,
            m.consistent(),
            m.holdings_known(),
    {
        Module {
            tokens: BTreeMap::new(),
            owners: BTreeMap::new(),
            balances: BTreeMap::new(),
            free_balances: BTreeMap::new(),
            freezed_balances: BTreeMap::new(),
            owned_tokens: BTreeMap::new(),
            owned_token_indexes: BTreeMap::new(),
            nonce: 0,
            events: Vec::new(),
        }
    }

    /// The token with hash `hash`, if any.
    pub fn token(&self, hash: H256) -> (r: Option<Token>)
        ensures
            r is Some <==> self.tokens@.contains_key(hash),
            r matches Some(t) ==> t.same(self.tokens@[hash]),
    {
        match self.tokens.get(&hash) {
            Some(t) => Some(t.copy()),
            None => None,
        }
    }

    /// The account that issued token `hash`, if any.
    pub fn owner(&self, hash: H256) -> (r: Option<AccountId>)
        ensures
            r == (if self.owners@.contains_key(hash) {
                Some(self.owners@[hash])
            } else {
                None
            }),
    {
        match self.owners.get(&hash) {
            Some(a) => Some(*a),
            None => None,
        }
    }

    /// The balance of holding `key`.
    pub fn balance_of(&self, key: (AccountId, H256)) -> (r: Balance)
        ensures
            r == self.balance(key),
    {
        match self.balances.get(&key) {
            Some(b) => *b,
            None => 0,
        }
    }

    /// The free part of holding `key`.
    pub fn free_balance_of(&self, key: (AccountId, H256)) -> (r: Balance)
        ensures
            r == self.free(key),
    {
        match self.free_balances.get(&key) {
            Some(b) => *b,
            None => 0,
        }
    }

    /// The frozen part of holding `key`.
    pub fn freezed_balance_of(&self, key: (AccountId, H256)) -> (r: Balance)
        ensures
            r == self.freezed(key),
    {
        match self.freezed_balances.get(&key) {
            Some(b) => *b,
            None => 0,
        }
    }

    /// The hash of the `key.1`-th token that account `key.0` issued, if any.
    pub fn owned_token(&self, key: (AccountId, u64)) -> (r: Option<H256>)
        ensures
            r == (if self.owned_tokens@.contains_key(key) {
                Some(self.owned_tokens@[key])
            } else {
                None
            }),
    {
        match self.owned_tokens.get(&key) {
            Some(h) => Some(*h),
            None => None,
        }
    }

    /// The number of tokens that `account` issued.
    pub fn owned_token_index(&self, account: AccountId) -> (r: u64)
        ensures
            r == index_at(self.owned_token_indexes@, account),
    {
        match self.owned_token_indexes.get(&account) {
            Some(i) => *i,
            None => 0,
        }
    }
}


/// The tokens issued and the amounts held: what decides whether a transfer
/// or an unfreeze goes through, and what it leaves.
#[verifier::ext_equal]
pub struct Ledger {
    pub tokens: Set<H256>,
    pub balances: Map<(AccountId, H256), Balance>,
    pub free: Map<(AccountId, H256), Balance>,
    pub freezed: Map<(AccountId, H256), Balance>,
}

impl Ledger {
    /// Why an unfreeze of `amount` of `sender`'s holding of token `hash`
    /// is refused, if it is.
    pub open spec fn unfreeze_error(self, sender: AccountId, hash: H256, amount: Balance) -> Option<&'static str> {
        let k = (sender, hash);
        if !self.tokens.contains(hash) {
            Some("no matching token found")
        } else if !self.free.contains_key(k) {
            Some("sender does not have the token")
        } else if amount_at(self.freezed, k) < amount {
            Some("can not unfreeze more than available tokens")
        } else if amount_at(self.free, k) + amount > u128::MAX {
            Some("unfreezed amount overflow")
        } else {
            None
        }
    }

    /// The amounts once `amount` of `sender`'s holding of token `hash` is
    /// moved from its frozen part to its free part.
    pub open spec fn unfrozen(self, sender: AccountId, hash: H256, amount: Balance) -> Ledger {
        let k = (sender, hash);
        Ledger {
            free: self.free.insert(k, (amount_at(self.free, k) + amount) as u128),
            freezed: self.freezed.insert(k, (amount_at(self.freezed, k) - amount) as u128),
            ..self
        }
    }

    /// Why a transfer of `amount` of token `hash` from `sender` to `to` is
    /// refused, if it is.
    pub open spec fn transfer_error(self, sender: AccountId, hash: H256, to: AccountId, amount: Balance) -> Option<
        &'static str,
    > {
        let from = (sender, hash);
        let dest = (to, hash);
        if !self.tokens.contains(hash) {
            Some("no matching token found")
        } else if !self.balances.contains_key(from) {
            Some("sender does not have the token")
        } else if amount_at(self.balances, from) < amount {
            Some("sender does not have enough balance")
        } else if amount_at(self.free, from) < amount {
            Some("sender does not have enough free balance")
        } else if amount_at(self.balances, dest) + amount > u128::MAX {
            Some("to amount overflow")
        } else if amount_at(self.free, dest) + amount > u128::MAX {
            Some("to free amount overflow")
        } else {
            None
        }
    }

    /// The amounts once `amount` of token `hash` went from `sender` to `to`,
    /// free part with it (each written from the amounts before).
    pub open spec fn transferred(self, sender: AccountId, hash: H256, to: AccountId, amount: Balance) -> Ledger {
        let from = (sender, hash);
        let dest = (to, hash);
        Ledger {
            balances: self.balances.insert(from, (amount_at(self.balances, from) - amount) as u128).insert(
                dest,
                (amount_at(self.balances, dest) + amount) as u128,
            ),
            free: self.free.insert(from, (amount_at(self.free, from) - amount) as u128).insert(
                dest,
                (amount_at(self.free, dest) + amount) as u128,
            ),
            ..self
        }
    }
}

impl Module {
    /// The tokens issued and the amounts held.
    pub open spec fn ledger(self) -> Ledger {
        Ledger {
            tokens: self.tokens@.dom(),
            balances: self.balances@,
            free: self.free_balances@,
            freezed: self.freezed_balances@,
        }
    }
}

/// The module's reasons to refuse a transfer or an unfreeze are those of its
/// amounts.
pub proof fn lemma_ledger_errors(m: Module, sender: AccountId, hash: H256, to: AccountId, amount: Balance)
    ensures
        m.unfreeze_error(sender, hash, amount) == m.ledger().unfreeze_error(sender, hash, amount),
        m.transfer_error(sender, hash, to, amount) == m.ledger().transfer_error(sender, hash, to, amount),
{
}

impl Module {
    /// Why `do_transfer` refuses, if it does.
    pub open spec fn transfer_error(self, sender: AccountId, hash: H256, to: AccountId, amount: Balance)
        -> Option<&'static str> {
        if !self.tokens@.contains_key(hash) {
            Some("no matching token found")
        } else if !self.balances@.contains_key((sender, hash)) {
            Some("sender does not have the token")
        } else if self.balance((sender, hash)) < amount {
            Some("sender does not have enough balance")
        } else if self.free((sender, hash)) < amount {
            Some("sender does not have enough free balance")
        } else if self.balance((to, hash)) + amount > u128::MAX {
            Some("to amount overflow")
        } else if self.free((to, hash)) + amount > u128::MAX {
            Some("to free amount overflow")
        } else {
            None
        }
    }

    /// Why `do_freeze` refuses, if it does.
    pub open spec fn freeze_error(self, sender: AccountId, hash: H256, amount: Balance) -> Option<
        &'static str,
    > {
        if !self.tokens@.contains_key(hash) {
            Some("no matching token found")
        } else if !self.free_balances@.contains_key((sender, hash)) {
            Some("sender does not have the token")
        } else if self.free((sender, hash)) < amount {
            Some("can not freeze more than available tokens")
        } else if self.freezed((sender, hash)) + amount > u128::MAX {
            Some("freezed amount overflow")
        } else {
            None
        }
    }

    /// Why `do_unfreeze` refuses, if it does.
    pub open spec fn unfreeze_error(self, sender: AccountId, hash: H256, amount: Balance) -> Option<
        &'static str,
    > {
        if !self.tokens@.contains_key(hash) {
            Some("no matching token found")
        } else if !self.free_balances@.contains_key((sender, hash)) {
            Some("sender does not have the token")
        } else if self.freezed((sender, hash)) < amount {
            Some("can not unfreeze more than available tokens")
        } else if self.free((sender, hash)) + amount > u128::MAX {
            Some("unfreezed amount overflow")
        } else {
            None
        }
    }

    /// Why `ensure_free_balance` refuses, if it does.
    pub open spec fn free_balance_error(self, sender: AccountId, hash: H256, amount: Balance)
        -> Option<&'static str> {
        if !self.tokens@.contains_key(hash) {
            Some("no matching token found")
        } else if !self.free_balances@.contains_key((sender, hash)) {
            Some("sender does not have the token")
        } else if self.free((sender, hash)) < amount {
            Some("does not have enough free balance to freeze")
        } else {
            None
        }
    }

    /// `self` is `before` with `amount` of `sender`'s holding of token `hash`
    /// moved from its free part to its frozen part.
    pub open spec fn freeze_done(self, before: Module, sender: AccountId, hash: H256, amount: Balance) -> bool {
        &&& self.same_but_amounts(before)
        &&& self.balances == before.balances
        &&& self.free_balances@ == before.free_balances@.insert(
            (sender, hash),
            (before.free((sender, hash)) - amount) as u128,
        )
        &&& self.freezed_balances@ == before.freezed_balances@.insert(
            (sender, hash),
            (before.freezed((sender, hash)) + amount) as u128,
        )
        &&& self.events@ == before.events@.push(Event::Freezed(sender, hash, amount))
    }

    /// `self` is `before` with `amount` of `sender`'s holding of token `hash`
    /// moved from its frozen part back to its free part.
    pub open spec fn unfreeze_done(self, before: Module, sender: AccountId, hash: H256, amount: Balance) -> bool {
        &&& self.same_but_amounts(before)
        &&& self.balances == before.balances
        &&& self.free_balances@ == before.free_balances@.insert(
            (sender, hash),
            (before.free((sender, hash)) + amount) as u128,
        )
        &&& self.freezed_balances@ == before.freezed_balances@.insert(
            (sender, hash),
            (before.freezed((sender, hash)) - amount) as u128,
        )
        &&& self.events@ == before.events@.push(Event::UnFreezed(sender, hash, amount))
    }

    /// Only the balances, the free balances and the reports differ.
    pub open spec fn same_but_amounts(self, other: Module) -> bool {
        &&& self.tokens == other.tokens
        &&& self.owners == other.owners
        &&& self.owned_tokens == other.owned_tokens
        &&& self.owned_token_indexes == other.owned_token_indexes
        &&& self.nonce == other.nonce
    }

    /// Issues a token of `total_supply` units, all held (and free) by the
    /// signer of `origin`. Its hash is that of the block's random seed and
    /// the module's nonce.
    pub fn do_issue(&mut self, origin: Origin, symbol: Vec<u8>, total_supply: Balance, ctx: &ChainContext)
        -> (r: Result<(), &'static str>)
        requires
            old(self).nonce < u64::MAX,
            origin matches Origin::Signed(who) ==> index_at(old(self).owned_token_indexes@, who)
                < u64::MAX,
        ensures
            match origin {
                Origin::Signed(sender) => {
                    let hash = blake2_256(token_hash_input(ctx.random_seed, old(self).nonce));
                    let idx = index_at(old(self).owned_token_indexes@, sender);
                    &&& r == Ok::<(), &'static str>(())
                    &&& final(self).nonce == old(self).nonce + 1
                    &&& final(self).tokens@ == old(self).tokens@.insert(
                        hash,
                        (Token { hash, symbol, total_supply }),
                    )
                    &&& final(self).balances@ == old(self).balances@.insert((sender, hash), total_supply)
                    &&& final(self).free_balances@ == old(self).free_balances@.insert(
                        (sender, hash),
                        total_supply,
                    )
                    &&& final(self).freezed_balances == old(self).freezed_balances
                    &&& final(self).owners@ == old(self).owners@.insert(hash, sender)
                    &&& final(self).owned_tokens@ == old(self).owned_tokens@.insert((sender, idx), hash)
                    &&& final(self).owned_token_indexes@ == old(self).owned_token_indexes@.insert(
                        sender,
                        (idx + 1) as u64,
                    )
                    &&& final(self).events@ == old(self).events@.push(
                        Event::TokenIssued(sender, hash, total_supply),
                    )
                    // a token with a hash not seen before leaves every holding consistent
                    &&& old(self).consistent() && old(self).holdings_known()
                        && !old(self).tokens@.contains_key(hash) ==> final(self).consistent()
                    &&& old(self).holdings_known() ==> final(self).holdings_known()
                },
                _ => {
                    &&& r == Err::<(), &'static str>("bad origin: expected to be a signed origin")
                    &&& *final(self) == *old(self)
                },
            },
    {
        let sender = ensure_signed(origin)?;
        let nonce = self.nonce;
        let mut input: Vec<u8> = Vec::new();
        push_hash(&mut input, ctx.random_seed);
        push_le(&mut input, nonce as u128, 8);
        proof {
            assert(input@ =~= token_hash_input(ctx.random_seed, nonce));
        }
        let hash = blake2_256_hash(&input);
        let token = Token { symbol, total_supply, hash };
        self.nonce = self.nonce + 1;
        self.tokens.insert(hash, token);
        self.balances.insert((sender, hash), total_supply);
        self.free_balances.insert((sender, hash), total_supply);
        self.owners.insert(hash, sender);
        let owned_token_index = self.owned_token_index(sender);
        self.owned_tokens.insert((sender, owned_token_index), hash);
        self.owned_token_indexes.insert(sender, owned_token_index + 1);
        self.events.push(Event::TokenIssued(sender, hash, total_supply));
        proof {
            let o = *old(self);
            let f = *self;
            if o.consistent() && o.holdings_known() && !o.tokens@.contains_key(hash) {
                assert forall|k: (AccountId, H256)| #[trigger] f.balance(k) == f.free(k) + f.freezed(k) by {
                    assert(o.balance(k) == o.free(k) + o.freezed(k));
                    if k == (sender, hash) {
                        assert(!o.freezed_balances@.contains_key(k));
                    }
                }
            }
        }
        Ok(())
    }

    /// `do_issue` for a dispatched call.
    pub fn issue(&mut self, origin: Origin, symbol: Vec<u8>, total_supply: Balance, ctx: &ChainContext)
        -> (r: Result<(), &'static str>)
        requires
            old(self).nonce < u64::MAX,
            origin matches Origin::Signed(who) ==> index_at(old(self).owned_token_indexes@, who)
                < u64::MAX,
        ensures
            match origin {
                Origin::Signed(sender) => {
                    let hash = blake2_256(token_hash_input(ctx.random_seed, old(self).nonce));
                    let idx = index_at(old(self).owned_token_indexes@, sender);
                    &&& r == Ok::<(), &'static str>(())
                    &&& final(self).nonce == old(self).nonce + 1
                    &&& final(self).tokens@ == old(self).tokens@.insert(
                        hash,
                        (Token { hash, symbol, total_supply }),
                    )
                    &&& final(self).balances@ == old(self).balances@.insert((sender, hash), total_supply)
                    &&& final(self).free_balances@ == old(self).free_balances@.insert(
                        (sender, hash),
                        total_supply,
                    )
                    &&& final(self).freezed_balances == old(self).freezed_balances
                    &&& final(self).owners@ == old(self).owners@.insert(hash, sender)
                    &&& final(self).owned_tokens@ == old(self).owned_tokens@.insert((sender, idx), hash)
                    &&& final(self).owned_token_indexes@ == old(self).owned_token_indexes@.insert(
                        sender,
                        (idx + 1) as u64,
                    )
                    &&& final(self).events@ == old(self).events@.push(
                        Event::TokenIssued(sender, hash, total_supply),
                    )
                    &&& old(self).consistent() && old(self).holdings_known()
                        && !old(self).tokens@.contains_key(hash) ==> final(self).consistent()
                    &&& old(self).holdings_known() ==> final(self).holdings_known()
                },
                _ => {
                    &&& r == Err::<(), &'static str>("bad origin: expected to be a signed origin")
                    &&& *final(self) == *old(self)
                },
            },
    {
        self.do_issue(origin, symbol, total_supply, ctx)
    }

    /// Moves `amount` of token `hash` from `sender` to `to`, free part with it.
    pub fn do_transfer(&mut self, sender: AccountId, hash: H256, to: AccountId, amount: Balance) -> (r:
        Result<(), &'static str>)
        ensures
            ({
                let err = old(self).transfer_error(sender, hash, to, amount);
                &&& r == (match err {
                    Some(e) => Err::<(), &'static str>(e),
                    None => Ok(()),
                })
                &&& err is Some ==> *final(self) == *old(self)
                &&& err is None ==> {
                    &&& final(self).same_but_amounts(*old(self))
                    &&& final(self).freezed_balances == old(self).freezed_balances
                    &&& final(self).balances@ == old(self).balances@.insert(
                        (sender, hash),
                        (old(self).balance((sender, hash)) - amount) as u128,
                    ).insert((to, hash), (old(self).balance((to, hash)) + amount) as u128)
                    &&& final(self).free_balances@ == old(self).free_balances@.insert(
                        (sender, hash),
                        (old(self).free((sender, hash)) - amount) as u128,
                    ).insert((to, hash), (old(self).free((to, hash)) + amount) as u128)
                    &&& final(self).events@ == old(self).events@.push(
                        Event::TokenTransfered(sender, to, hash, amount),
                    )
                }
            }),
            old(self).consistent() ==> final(self).consistent(),
            old(self).holdings_known() ==> final(self).holdings_known(),
            r is Ok ==> final(self).ledger() == old(self).ledger().transferred(sender, hash, to, amount),
            // between two accounts, a transfer keeps the sum of their balances
            r is Ok && sender != to ==> final(self).balance((sender, hash)) + final(self).balance(
                (to, hash),
            ) == old(self).balance((sender, hash)) + old(self).balance((to, hash)),
    {
        if !self.tokens.contains_key(&hash) {
            return Err("no matching token found");
        }
        if !self.balances.contains_key(&(sender, hash)) {
            return Err("sender does not have the token");
        }
        let from_amount = self.balance_of((sender, hash));
        if from_amount < amount {
            return Err("sender does not have enough balance");
        }
        let new_from_amount = from_amount - amount;
        let from_free_amount = self.free_balance_of((sender, hash));
        if from_free_amount < amount {
            return Err("sender does not have enough free balance");
        }
        let new_from_free_amount = from_free_amount - amount;
        let to_amount = self.balance_of((to, hash));
        let new_to_amount = match to_amount.checked_add(amount) {
            Some(v) => v,
            None => {
                return Err("to amount overflow");
            },
        };
        let to_free_amount = self.free_balance_of((to, hash));
        let new_to_free_amount = match to_free_amount.checked_add(amount) {
            Some(v) => v,
            None => {
                return Err("to free amount overflow");
            },
        };
        self.balances.insert((sender, hash), new_from_amount);
        self.free_balances.insert((sender, hash), new_from_free_amount);
        self.balances.insert((to, hash), new_to_amount);
        self.free_balances.insert((to, hash), new_to_free_amount);
        self.events.push(Event::TokenTransfered(sender, to, hash, amount));
        proof {
            let o = *old(self);
            let f = *self;
            if o.consistent() {
                assert forall|k: (AccountId, H256)| #[trigger] f.balance(k) == f.free(k) + f.freezed(k) by {
                    assert(o.balance(k) == o.free(k) + o.freezed(k));
                    assert(o.balance((sender, hash)) == o.free((sender, hash)) + o.freezed((sender, hash)));
                    assert(o.balance((to, hash)) == o.free((to, hash)) + o.freezed((to, hash)));
                }
            }
        }
        Ok(())
    }

    /// `do_transfer` for a dispatched call, from the signer of `origin`.
    pub fn transfer(&mut self, origin: Origin, to: AccountId, hash: H256, amount: Balance) -> (r:
        Result<(), &'static str>)
        ensures
            match origin {
                Origin::Signed(sender) => {
                    let err = old(self).transfer_error(sender, hash, to, amount);
                    &&& r == (match err {
                        Some(e) => Err::<(), &'static str>(e),
                        None => Ok(()),
                    })
                    &&& err is Some ==> *final(self) == *old(self)
                    &&& err is None ==> {
                        &&& final(self).same_but_amounts(*old(self))
                        &&& final(self).balances@ == old(self).balances@.insert(
                            (sender, hash),
                            (old(self).balance((sender, hash)) - amount) as u128,
                        ).insert((to, hash), (old(self).balance((to, hash)) + amount) as u128)
                        &&& final(self).free_balances@ == old(self).free_balances@.insert(
                            (sender, hash),
                            (old(self).free((sender, hash)) - amount) as u128,
                        ).insert((to, hash), (old(self).free((to, hash)) + amount) as u128)
                        &&& final(self).freezed_balances == old(self).freezed_balances
                        &&& final(self).events@ == old(self).events@.push(
                            Event::TokenTransfered(sender, to, hash, amount),
                        )
                    }
                },
                _ => {
                    &&& r == Err::<(), &'static str>("bad origin: expected to be a signed origin")
                    &&& *final(self) == *old(self)
                },
            },
            old(self).consistent() ==> final(self).consistent(),
            old(self).holdings_known() ==> final(self).holdings_known(),
    {
        let sender = ensure_signed(origin)?;
        self.do_transfer(sender, hash, to, amount)
    }

    /// Moves `amount` of `sender`'s holding of token `hash` from its free part
    /// to its frozen part.
    pub fn do_freeze(&mut self, sender: AccountId, hash: H256, amount: Balance) -> (r: Result<
        (),
        &'static str,
    >)
        ensures
            ({
                let err = old(self).freeze_error(sender, hash, amount);
                &&& r == (match err {
                    Some(e) => Err::<(), &'static str>(e),
                    None => Ok(()),
                })
                &&& err is Some ==> *final(self) == *old(self)
                &&& err is None ==> final(self).freeze_done(*old(self), sender, hash, amount)
            }),
            old(self).consistent() ==> final(self).consistent(),
            old(self).holdings_known() ==> final(self).holdings_known(),
    {
        if !self.tokens.contains_key(&hash) {
            return Err("no matching token found");
        }
        if !self.free_balances.contains_key(&(sender, hash)) {
            return Err("sender does not have the token");
        }
        let old_free_amount = self.free_balance_of((sender, hash));
        if old_free_amount < amount {
            return Err("can not freeze more than available tokens");
        }
        let old_freezed_amount = self.freezed_balance_of((sender, hash));
        let new_freezed_amount = match old_freezed_amount.checked_add(amount) {
            Some(v) => v,
            None => {
                return Err("freezed amount overflow");
            },
        };
        self.free_balances.insert((sender, hash), old_free_amount - amount);
        self.freezed_balances.insert((sender, hash), new_freezed_amount);
        self.events.push(Event::Freezed(sender, hash, amount));
        proof {
            let o = *old(self);
            let f = *self;
            if o.consistent() {
                assert forall|k: (AccountId, H256)| #[trigger] f.balance(k) == f.free(k) + f.freezed(k) by {
                    assert(o.balance(k) == o.free(k) + o.freezed(k));
                }
            }
        }
        Ok(())
    }

    /// `do_freeze` for a dispatched call, by the signer of `origin`.
    pub fn freeze(&mut self, origin: Origin, hash: H256, amount: Balance) -> (r: Result<(), &'static str>)
        ensures
            match origin {
                Origin::Signed(sender) => {
                    let err = old(self).freeze_error(sender, hash, amount);
                    &&& r == (match err {
                        Some(e) => Err::<(), &'static str>(e),
                        None => Ok(()),
                    })
                    &&& err is Some ==> *final(self) == *old(self)
                    &&& err is None ==> final(self).freeze_done(*old(self), sender, hash, amount)
                },
                _ => {
                    &&& r == Err::<(), &'static str>("bad origin: expected to be a signed origin")
                    &&& *final(self) == *old(self)
                },
            },
            old(self).consistent() ==> final(self).consistent(),
            old(self).holdings_known() ==> final(self).holdings_known(),
    {
        let sender = ensure_signed(origin)?;
        self.do_freeze(sender, hash, amount)
    }

    /// Moves `amount` of `sender`'s holding of token `hash` from its frozen
    /// part back to its free part.
    pub fn do_unfreeze(&mut self, sender: AccountId, hash: H256, amount: Balance) -> (r: Result<
        (),
        &'static str,
    >)
        ensures
            ({
                let err = old(self).unfreeze_error(sender, hash, amount);
                &&& r == (match err {
                    Some(e) => Err::<(), &'static str>(e),
                    None => Ok(()),
                })
                &&& err is Some ==> *final(self) == *old(self)
                &&& err is None ==> final(self).unfreeze_done(*old(self), sender, hash, amount)
            }),
            old(self).consistent() ==> final(self).consistent(),
            old(self).holdings_known() ==> final(self).holdings_known(),
            r is Ok ==> final(self).ledger() == old(self).ledger().unfrozen(sender, hash, amount),
    {
        if !self.tokens.contains_key(&hash) {
            return Err("no matching token found");
        }
        if !self.free_balances.contains_key(&(sender, hash)) {
            return Err("sender does not have the token");
        }
        let old_freezed_amount = self.freezed_balance_of((sender, hash));
        if old_freezed_amount < amount {
            return Err("can not unfreeze more than available tokens");
        }
        let old_free_amount = self.free_balance_of((sender, hash));
        let new_free_amount = match old_free_amount.checked_add(amount) {
            Some(v) => v,
            None => {
                return Err("unfreezed amount overflow");
            },
        };
        self.free_balances.insert((sender, hash), new_free_amount);
        self.freezed_balances.insert((sender, hash), old_freezed_amount - amount);
        self.events.push(Event::UnFreezed(sender, hash, amount));
        proof {
            let o = *old(self);
            let f = *self;
            if o.consistent() {
                assert forall|k: (AccountId, H256)| #[trigger] f.balance(k) == f.free(k) + f.freezed(k) by {
                    assert(o.balance(k) == o.free(k) + o.freezed(k));
                }
            }
        }
        Ok(())
    }

    /// `do_unfreeze` for a dispatched call, by the signer of `origin`.
    pub fn unfreeze(&mut self, origin: Origin, hash: H256, amount: Balance) -> (r: Result<(), &'static str>)
        ensures
            match origin {
                Origin::Signed(sender) => {
                    let err = old(self).unfreeze_error(sender, hash, amount);
                    &&& r == (match err {
                        Some(e) => Err::<(), &'static str>(e),
                        None => Ok(()),
                    })
                    &&& err is Some ==> *final(self) == *old(self)
                    &&& err is None ==> final(self).unfreeze_done(*old(self), sender, hash, amount)
                },
                _ => {
                    &&& r == Err::<(), &'static str>("bad origin: expected to be a signed origin")
                    &&& *final(self) == *old(self)
                },
            },
            old(self).consistent() ==> final(self).consistent(),
            old(self).holdings_known() ==> final(self).holdings_known(),
    {
        let sender = ensure_signed(origin)?;
        self.do_unfreeze(sender, hash, amount)
    }

    /// Checks that `sender` holds at least `amount` of token `hash` free.
    pub fn ensure_free_balance(&self, sender: AccountId, hash: H256, amount: Balance) -> (r: Result<
        (),
        &'static str,
    >)
        ensures
            r == (match self.free_balance_error(sender, hash, amount) {
                Some(e) => Err::<(), &'static str>(e),
                None => Ok(()),
            }),
    {
        if !self.tokens.contains_key(&hash) {
            return Err("no matching token found");
        }
        if !self.free_balances.contains_key(&(sender, hash)) {
            return Err("sender does not have the token");
        }
        let free_amount = self.free_balance_of((sender, hash));
        if free_amount < amount {
            return Err("does not have enough free balance to freeze");
        }
        Ok(())
    }
}


/// Unfreezing what was just frozen is always accepted, and gives every
/// holding back its balance, its free part and its frozen part.
pub proof fn lemma_unfreeze_undoes_freeze(
    t0: Module,
    t1: Module,
    t2: Module,
    sender: AccountId,
    hash: H256,
    amount: Balance,
)
    requires
        t0.freeze_error(sender, hash, amount) is None,
        t1.freeze_done(t0, sender, hash, amount),
    ensures
        t1.unfreeze_error(sender, hash, amount) is None,
        t2.unfreeze_done(t1, sender, hash, amount) ==> forall|k: (AccountId, H256)|
            #![trigger t2.free(k)]
            #![trigger t2.freezed(k)]
            #![trigger t2.balance(k)]
            t2.balance(k) == t0.balance(k) && t2.free(k) == t0.free(k) && t2.freezed(k) == t0.freezed(k),
{
    let key = (sender, hash);
    assert(t1.free_balances@.contains_key(key));
    if t2.unfreeze_done(t1, sender, hash, amount) {
        assert forall|k: (AccountId, H256)|
            #![trigger t2.free(k)]
            #![trigger t2.freezed(k)]
            #![trigger t2.balance(k)]
            t2.balance(k) == t0.balance(k) && t2.free(k) == t0.free(k) && t2.freezed(k) == t0.freezed(k) by {
            if k == key {
                assert(t0.free_balances@.contains_key(key));
            }
        }
    }
}

} // verus!
