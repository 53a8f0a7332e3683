//! Trade pairs, limit orders, and the matching of a new limit order against
//! the book of the opposite side.

use vstd::prelude::*;
use std::collections::BTreeMap;
use crate::{AccountId, Balance, H256, Price};
use crate::codec::{blake2_256, blake2_256_hash, hash_bytes, le_bytes, push_hash, push_le};
use crate::system::{ensure_signed, ChainContext, Origin};
use crate::token::{Event as TokenEvent, Ledger, Module as TokenModule, amount_at, lemma_ledger_errors};
use crate::types::{
    ItemView, LinkedItem, LinkedList, PRICE_MAX, PRICE_MIN, blocking_level, book_shape, chain, clear_buys, clear_sells,
    index_in, lemma_chain_distinct, lemma_rank_bounds, lemma_removable_prefix_bound, level_clear, node_linked,
    order_removable, rank, removable_prefix, started, without,
};
use crate::wide::{Wide, u128_bound, u256_bound, wide_div, wide_eq, wide_from_u128, wide_gt, wide_mul, wide_to_u128};

verus! {

broadcast use vstd::std_specs::btree::group_btree_axioms, vstd::laws_cmp::group_laws_cmp;

/// Which side of the book an order is on.
#[derive(Clone, Copy, PartialEq, Eq, Structural, Debug)]
pub enum OrderType {
    /// Buys the quote token with the base token.
    Buy,
    /// Sells the quote token for the base token.
    Sell,
}

impl OrderType {
    /// The other side.
    pub open spec fn opposite_spec(self) -> OrderType {
        match self {
            OrderType::Buy => OrderType::Sell,
            OrderType::Sell => OrderType::Buy,
        }
    }
}

impl OrderType {
    /// The other side.
    pub fn opposite(self) -> (r: OrderType)
        ensures
            r == self.opposite_spec(),
    {
        match self {
            OrderType::Sell => OrderType::Buy,
            OrderType::Buy => OrderType::Sell,
        }
    }
}

impl core::ops::Not for OrderType {
    type Output = OrderType;

    /// The other side.
    fn not(self) -> (r: OrderType)
        ensures
            r == self.opposite_spec(),
    {
        match self {
            OrderType::Sell => OrderType::Buy,
            OrderType::Buy => OrderType::Sell,
        }
    }
}

impl vstd::std_specs::ops::NotSpecImpl for OrderType {
    open spec fn obeys_not_spec() -> bool {
        true
    }

    open spec fn not_req(self) -> bool {
        true
    }

    open spec fn not_spec(self) -> OrderType {
        self.opposite_spec()
    }
}

/// How far an order has been filled.
#[derive(Clone, Copy, PartialEq, Eq, Structural, Debug)]
pub enum OrderStatus {
    Created,
    PartialFilled,
    Filled,
    Canceled,
}

/// A limit order: sell `sell_amount` for `buy_amount` at `price`.
#[derive(Clone, Copy, PartialEq, Eq, Debug)]
pub struct LimitOrder {
    pub hash: H256,
    pub base: H256,
    pub quote: H256,
    pub owner: AccountId,
    pub price: Price,
    pub sell_amount: Balance,
    pub buy_amount: Balance,
    pub remained_sell_amount: Balance,
    pub remained_buy_amount: Balance,
    pub otype: OrderType,
    pub status: OrderStatus,
}

impl LimitOrder {
    /// Filled with nothing left to buy, or canceled.
    pub open spec fn finished(self) -> bool {
        (self.remained_buy_amount == 0 && self.status == OrderStatus::Filled) || self.status
            == OrderStatus::Canceled
    }

    /// Whether the order is filled with nothing left to buy, or canceled.
    pub fn is_finished(&self) -> (r: bool)
        ensures
            r == self.finished(),
    {
        (self.remained_buy_amount == 0 && self.status == OrderStatus::Filled) || self.status
            == OrderStatus::Canceled
    }
}


/// The scale of prices: a price is the amount of the base token paid for one
/// unit of the quote token, times `PRICE_FACTOR`.
pub const PRICE_FACTOR: u128 = 100_000_000;

/// A market of a base token against a quote token.
#[derive(Clone, Copy, PartialEq, Eq, Debug)]
pub struct TradePair {
    pub hash: H256,
    pub base: H256,
    pub quote: H256,
    /// the highest buy level of the book, if any
    pub buy_one_price: Option<Price>,
    /// the lowest sell level of the book, if any
    pub sell_one_price: Option<Price>,
    /// the price of the latest match
    pub latest_matched_price: Option<Price>,
}

/// A match between a maker order (from the book) and a taker order (new).
#[derive(Clone, Copy, PartialEq, Eq, Debug)]
pub struct Trade {
    pub hash: H256,
    pub base: H256,
    pub quote: H256,
    /// holds the base token
    pub buyer: AccountId,
    /// holds the quote token
    pub seller: AccountId,
    /// owner of the order that was in the book first
    pub maker: AccountId,
    /// owner of the new order
    pub taker: AccountId,
    /// the taker order's type
    pub otype: OrderType,
    /// the maker order's price
    pub price: Price,
    /// base token amount exchanged
    pub base_amount: Balance,
    /// quote token amount exchanged
    pub quote_amount: Balance,
}

/// The byte an order type is encoded as.
pub open spec fn order_type_byte(otype: OrderType) -> u8 {
    match otype {
        OrderType::Buy => 0u8,
        OrderType::Sell => 1u8,
    }
}

/// The bytes that an order's hash is the hash of.
pub open spec fn order_hash_input(
    ctx: ChainContext,
    base: H256,
    quote: H256,
    owner: AccountId,
    price: Price,
    sell_amount: Balance,
    buy_amount: Balance,
    otype: OrderType,
    nonce: u64,
) -> Seq<u8> {
    hash_bytes(ctx.random_seed) + le_bytes(ctx.block_number as nat, 8) + hash_bytes(base) + hash_bytes(
        quote,
    ) + le_bytes(owner as nat, 8) + le_bytes(price as nat, 16) + le_bytes(sell_amount as nat, 16)
        + le_bytes(buy_amount as nat, 16) + seq![order_type_byte(otype)] + le_bytes(nonce as nat, 8)
}

/// The bytes that a trade's hash is the hash of.
pub open spec fn trade_hash_input(ctx: ChainContext, nonce: u64, maker: LimitOrder, taker: LimitOrder) -> Seq<u8> {
    hash_bytes(ctx.random_seed) + le_bytes(ctx.block_number as nat, 8) + le_bytes(nonce as nat, 8)
        + hash_bytes(maker.hash) + le_bytes(maker.remained_sell_amount as nat, 16) + le_bytes(
        maker.owner as nat,
        8,
    ) + hash_bytes(taker.hash) + le_bytes(taker.remained_sell_amount as nat, 16) + le_bytes(
        taker.owner as nat,
        8,
    )
}

/// The bytes that a trade pair's hash is the hash of.
pub open spec fn trade_pair_hash_input(ctx: ChainContext, sender: AccountId, base: H256, quote: H256, nonce: u64) -> Seq<u8> {
    hash_bytes(ctx.random_seed) + le_bytes(ctx.block_number as nat, 8) + le_bytes(sender as nat, 8)
        + hash_bytes(base) + hash_bytes(quote) + le_bytes(nonce as nat, 8)
}

impl LimitOrder {
    /// A new order, not filled at all, with a hash made of its terms, the
    /// block and `nonce`.
    pub fn new(
        base: H256,
        quote: H256,
        owner: AccountId,
        price: Price,
        sell_amount: Balance,
        buy_amount: Balance,
        otype: OrderType,
        nonce: u64,
        ctx: &ChainContext,
    ) -> (o: LimitOrder)
        ensures
            o == (LimitOrder {
                hash: blake2_256(
                    order_hash_input(*ctx, base, quote, owner, price, sell_amount, buy_amount, otype, nonce),
                ),
                base,
                quote,
                owner,
                price,
                sell_amount,
                buy_amount,
                remained_sell_amount: sell_amount,
                remained_buy_amount: buy_amount,
                otype,
                status: OrderStatus::Created,
            }),
    {
        let mut input: Vec<u8> = Vec::new();
        push_hash(&mut input, ctx.random_seed);
        push_le(&mut input, ctx.block_number as u128, 8);
        push_hash(&mut input, base);
        push_hash(&mut input, quote);
        push_le(&mut input, owner as u128, 8);
        push_le(&mut input, price, 16);
        push_le(&mut input, sell_amount, 16);
        push_le(&mut input, buy_amount, 16);
        let tag: u8 = match otype {
            OrderType::Buy => 0,
            OrderType::Sell => 1,
        };
        input.push(tag);
        push_le(&mut input, nonce as u128, 8);
        assert(input@ =~= order_hash_input(*ctx, base, quote, owner, price, sell_amount, buy_amount, otype, nonce));
        let hash = blake2_256_hash(&input);
        LimitOrder {
            hash,
            base,
            quote,
            owner,
            price,
            otype,
            sell_amount,
            buy_amount,
            remained_buy_amount: buy_amount,
            remained_sell_amount: sell_amount,
            status: OrderStatus::Created,
        }
    }
}

impl Trade {
    /// The trade of `base_amount` of the base token against `quote_amount` of
    /// the quote token between `maker_order` (whose price it is) and
    /// `taker_order`; the buyer is the owner of the buy order. Its hash is
    /// made with the nonce, which then moves on.
    pub fn new(
        base: H256,
        quote: H256,
        maker_order: &LimitOrder,
        taker_order: &LimitOrder,
        base_amount: Balance,
        quote_amount: Balance,
        nonce: &mut u64,
        ctx: &ChainContext,
    ) -> (t: Trade)
        ensures
            *final(nonce) == old(nonce).wrapping_add(1),
            t == (Trade {
                hash: blake2_256(trade_hash_input(*ctx, *old(nonce), *maker_order, *taker_order)),
                base,
                quote,
                buyer: if taker_order.otype == OrderType::Buy {
                    taker_order.owner
                } else {
                    maker_order.owner
                },
                seller: if taker_order.otype == OrderType::Buy {
                    maker_order.owner
                } else {
                    taker_order.owner
                },
                maker: maker_order.owner,
                taker: taker_order.owner,
                otype: taker_order.otype,
                price: maker_order.price,
                base_amount,
                quote_amount,
            }),
    {
        let mut input: Vec<u8> = Vec::new();
        push_hash(&mut input, ctx.random_seed);
        push_le(&mut input, ctx.block_number as u128, 8);
        push_le(&mut input, *nonce as u128, 8);
        push_hash(&mut input, maker_order.hash);
        push_le(&mut input, maker_order.remained_sell_amount, 16);
        push_le(&mut input, maker_order.owner as u128, 8);
        push_hash(&mut input, taker_order.hash);
        push_le(&mut input, taker_order.remained_sell_amount, 16);
        push_le(&mut input, taker_order.owner as u128, 8);
        assert(input@ =~= trade_hash_input(*ctx, *old(nonce), *maker_order, *taker_order));
        let hash = blake2_256_hash(&input);
        *nonce = nonce.wrapping_add(1);
        let buyer;
        let seller;
        if taker_order.otype == OrderType::Buy {
            buyer = taker_order.owner;
            seller = maker_order.owner;
        } else {
            buyer = maker_order.owner;
            seller = taker_order.owner;
        }
        Trade {
            hash,
            base,
            quote,
            buyer,
            seller,
            base_amount,
            quote_amount,
            maker: maker_order.owner,
            taker: taker_order.owner,
            otype: taker_order.otype,
            price: maker_order.price,
        }
    }
}

/// What the trade module reports.
pub enum Event {
    TradePairCreated(AccountId, H256, TradePair),
    /// (account, base token, quote token, order hash, order)
    OrderCreated(AccountId, H256, H256, H256, LimitOrder),
    /// (account, base token, quote token, trade hash, trade)
    TradeCreated(AccountId, H256, H256, H256, Trade),
    /// (account, order hash)
    OrderCanceled(AccountId, H256),
}

/// The counterparty amount of an order of type `otype` selling `amount` at
/// `price`, and the amount it gives back (equal to `amount` when nothing is
/// lost to rounding).
pub open spec fn counterparty(otype: OrderType, price: nat, amount: nat) -> (nat, nat) {
    let f = PRICE_FACTOR as nat;
    if otype == OrderType::Buy {
        let cp = amount * f / price;
        (cp, cp * price / f)
    } else {
        let cp = amount * price / f;
        (cp, cp * f / price)
    }
}

/// The buy order of a maker and a taker.
pub open spec fn buyer_of(maker: LimitOrder, taker: LimitOrder) -> LimitOrder {
    if taker.otype == OrderType::Buy {
        taker
    } else {
        maker
    }
}

/// The sell order of a maker and a taker.
pub open spec fn seller_of(maker: LimitOrder, taker: LimitOrder) -> LimitOrder {
    if taker.otype == OrderType::Buy {
        maker
    } else {
        taker
    }
}

/// `a * num / den`, plus one when multiplying back by `den / num` does not
/// give `a` (rounding in favour of the side that is filled).
pub open spec fn rounded_up(a: nat, num: nat, den: nat) -> nat {
    let q = a * num / den;
    if q * den / num != a {
        q + 1
    } else {
        q
    }
}

/// The seller's whole remaining buy amount fits into what the buyer has left
/// to sell: the seller is filled.
pub open spec fn seller_filled(maker: LimitOrder, taker: LimitOrder) -> bool {
    seller_of(maker, taker).remained_buy_amount <= buyer_of(maker, taker).remained_sell_amount
}

/// The buyer's whole remaining buy amount fits into what the seller has left
/// to sell: the buyer is filled.
pub open spec fn buyer_filled(maker: LimitOrder, taker: LimitOrder) -> bool {
    buyer_of(maker, taker).remained_buy_amount <= seller_of(maker, taker).remained_sell_amount
}

/// The product that computing the exchanged amounts takes overflows 128
/// bits: that of the seller's remaining buy amount by the price factor
/// where the seller is filled, else that of the buyer's remaining buy amount
/// by the maker's price where the buyer is filled.
pub open spec fn amounts_overflow(maker: LimitOrder, taker: LimitOrder) -> bool {
    let seller = if taker.otype == OrderType::Buy { maker } else { taker };
    let buyer = if taker.otype == OrderType::Buy { taker } else { maker };
    if seller.remained_buy_amount <= buyer.remained_sell_amount {
        seller.remained_buy_amount * 100_000_000nat > 0xffff_ffff_ffff_ffff_ffff_ffff_ffff_ffffnat
    } else if buyer.remained_buy_amount <= seller.remained_sell_amount {
        buyer.remained_buy_amount * maker.price > 0xffff_ffff_ffff_ffff_ffff_ffff_ffff_ffffnat
    } else {
        false
    }
}

/// A match is refused as an exchange overflow exactly when the resting
/// order `o` has no price or the 128-bit product that computing the amounts
/// takes really overflows; amounts whose products fit in 128 bits, however
/// large, are exchanged.
pub proof fn lemma_overflow_refused_exactly(l0: Ledger, give: H256, have: H256, order: LimitOrder, o: LimitOrder)
    ensures
        (exchange_error(l0, give, have, order, o) == Some("exchange amount overflow")) <==> (o.price == 0
            || amounts_overflow(o, order)),
{
    reveal_strlit("exchange amount overflow");
    reveal_strlit("should never executed here");
    reveal_strlit("substract error");
    reveal_strlit("no matching token found");
    reveal_strlit("sender does not have the token");
    reveal_strlit("can not unfreeze more than available tokens");
    reveal_strlit("unfreezed amount overflow");
    reveal_strlit("sender does not have enough balance");
    reveal_strlit("sender does not have enough free balance");
    reveal_strlit("to amount overflow");
    reveal_strlit("to free amount overflow");
}

/// The 128-bit arithmetic of `calculate_ex_amount` stays in range.
pub open spec fn ex_amount_fits(maker: LimitOrder, taker: LimitOrder) -> bool {
    &&& maker.price > 0
    &&& seller_filled(maker, taker) ==> seller_of(maker, taker).remained_buy_amount * PRICE_FACTOR
        <= u128::MAX
    &&& !seller_filled(maker, taker) && buyer_filled(maker, taker) ==> buyer_of(
        maker,
        taker,
    ).remained_buy_amount * maker.price <= u128::MAX
}

/// The (base, quote) amounts that a maker and a taker exchange, at the
/// maker's price; `None` when neither can be filled.
pub open spec fn ex_amount(maker: LimitOrder, taker: LimitOrder) -> Option<(nat, nat)> {
    let f = PRICE_FACTOR as nat;
    let p = maker.price as nat;
    if seller_filled(maker, taker) {
        let base = seller_of(maker, taker).remained_buy_amount as nat;
        Some((base, rounded_up(base, f, p)))
    } else if buyer_filled(maker, taker) {
        let quote = buyer_of(maker, taker).remained_buy_amount as nat;
        Some((rounded_up(quote, p, f), quote))
    } else {
        None
    }
}

/// Whether an order of type `order_type` at `order_price` accepts a level
/// priced `linked_item_price`.
pub open spec fn price_accepts(order_price: Price, order_type: OrderType, linked_item_price: Price) -> bool {
    match order_type {
        OrderType::Sell => order_price <= linked_item_price,
        OrderType::Buy => order_price >= linked_item_price,
    }
}

/// `(x / d) * d` does not exceed `x`.
pub proof fn lemma_div_mul_le(x: nat, d: nat)
    requires
        d > 0,
    ensures
        (x / d) * d <= x,
{
    assert((x / d) * d <= x) by (nonlinear_arith)
        requires
            d > 0,
    ;
}

/// A product of two 128-bit values fits in 256 bits.
pub proof fn lemma_product_fits(a: nat, b: nat)
    requires
        a < u128_bound(),
        b < u128_bound(),
    ensures
        a * b < u256_bound(),
{
    assert(a * b < u128_bound() * u128_bound()) by (nonlinear_arith)
        requires
            a < u128_bound(),
            b < u128_bound(),
    ;
}

/// `rounded_up` with its rounding step, in 128-bit arithmetic: the operands
/// stay in range when `a * num` does.
proof fn lemma_rounded_up_fits(a: nat, num: nat, den: nat)
    requires
        num > 0,
        den > 0,
        a * num <= u128::MAX,
    ensures
        (a * num / den) * den <= u128::MAX,
        (a * num / den) * den / num != a ==> a * num / den < u128::MAX,
{
    let q = a * num / den;
    lemma_div_mul_le(a * num, den);
    if q * den / num != a && q == u128::MAX {
        assert(q * den <= a * num);
        assert(q <= a * num) by (nonlinear_arith)
            requires
                q * den <= a * num,
                den > 0,
        ;
        assert(a * num == u128::MAX);
        assert(q * den == a * num) by (nonlinear_arith)
            requires
                q * den <= a * num,
                q == a * num,
                den > 0,
                q > 0,
        ;
        assert(q * den / num == a) by (nonlinear_arith)
            requires
                q * den == a * num,
                num > 0,
        ;
    }
}

/// The state of the trade module.
pub struct Module {
    /// trade pair hash => trade pair
    pub trade_pairs: BTreeMap<H256, TradePair>,
    /// (base token, quote token) => trade pair hash
    pub trade_pairs_hash_by_base_quote: BTreeMap<(H256, H256), H256>,
    /// order hash => order
    pub orders: BTreeMap<H256, LimitOrder>,
    /// (account, index) => hash of the index-th order of the account
    pub owned_orders: BTreeMap<(AccountId, u64), H256>,
    /// account => number of orders of the account
    pub owned_orders_indexes: BTreeMap<AccountId, u64>,
    /// order hash => hashes of its trades
    pub order_owned_trades: BTreeMap<H256, Vec<H256>>,
    /// (trade pair hash, index) => hash of the index-th order of the pair
    pub trade_pair_owned_orders: BTreeMap<(H256, u64), H256>,
    /// trade pair hash => number of orders of the pair
    pub trade_pair_owned_order_indexes: BTreeMap<H256, u64>,
    /// the books of the trade pairs
    pub linked_items: LinkedList,
    /// trade hash => trade
    pub trades: BTreeMap<H256, Trade>,
    /// account => hashes of its trades
    pub owned_trades: BTreeMap<AccountId, Vec<H256>>,
    /// (account, trade pair hash) => hashes of its trades in that pair
    pub owned_tp_trades: BTreeMap<(AccountId, H256), Vec<H256>>,
    /// trade pair hash => hashes of its trades
    pub trade_pair_owned_trades: BTreeMap<H256, Vec<H256>>,
    /// goes into the hashes of trade pairs, orders and trades
    pub nonce: u64,
    /// what the module reported, oldest first
    pub events: Vec<Event>,
}

impl Module {
    /// Every stored order is stored under its own hash, every pair found by
    /// its tokens is stored, and the books are whole.
    pub open spec fn wf(self) -> bool {
        &&& self.linked_items.wf()
        &&& forall|h: H256| #[trigger] self.orders@.contains_key(h) ==> self.orders@[h].hash == h
        &&& forall|k: (H256, H256)| #[trigger] self.trade_pairs_hash_by_base_quote@.contains_key(k)
            ==> self.trade_pairs@.contains_key(self.trade_pairs_hash_by_base_quote@[k])
    }

    /// No trade pair, order or trade.
    pub fn new() -> (m: Module)
        ensures
            m.wf(),
            m.trade_pairs@ == Map::<H256, TradePair>::empty(),
            m.orders@ == Map::<H256, LimitOrder>::empty(),
            m.trades@ == Map::<H256, Trade>::empty(),
            m.trade_pairs_hash_by_base_quote@ == Map::<(H256, H256), H256>::empty(),
            m.owned_orders@ == Map::<(AccountId, u64), H256>::empty(),
            m.owned_orders_indexes@ == Map::<AccountId, u64>::empty(),
            m.order_owned_trades@ == Map::<H256, Vec<H256>>::empty(),
            m.trade_pair_owned_orders@ == Map::<(H256, u64), H256>::empty(),
            m.trade_pair_owned_order_indexes@ == Map::<H256, u64>::empty(),
            m.owned_trades@ == Map::<AccountId, Vec<H256>>::empty(),
            m.owned_tp_trades@ == Map::<(AccountId, H256), Vec<H256>>::empty(),
            m.trade_pair_owned_trades@ == Map::<H256, Vec<H256>>::empty(),
            m.linked_items@ == Map::<(H256, Option<Price>), crate::types::ItemView>::empty(),
            m.linked_items.sides@ == Map::<H256, (Seq<Price>, Seq<Price>)>::empty(),
            m.nonce == 0,
            m.events@.len() == 0,
            books_uncrossed(m.linked_items),
            book_orders_stored(m.linked_items, m.orders@),
    {
        Module {
            trade_pairs: BTreeMap::new(),
            trade_pairs_hash_by_base_quote: BTreeMap::new(),
            orders: BTreeMap::new(),
            owned_orders: BTreeMap::new(),
            owned_orders_indexes: BTreeMap::new(),
            order_owned_trades: BTreeMap::new(),
            trade_pair_owned_orders: BTreeMap::new(),
            trade_pair_owned_order_indexes: BTreeMap::new(),
            linked_items: LinkedList::new(),
            trades: BTreeMap::new(),
            owned_trades: BTreeMap::new(),
            owned_tp_trades: BTreeMap::new(),
            trade_pair_owned_trades: BTreeMap::new(),
            nonce: 0,
            events: Vec::new(),
        }
    }

    /// Checks that the price and the amount to sell are positive.
    pub fn ensure_bounds(price: Price, sell_amount: Balance) -> (r: Result<(), &'static str>)
        ensures
            r == (if !(price > 0) {
                Err::<(), &'static str>("price bounds check failed")
            } else if !(sell_amount > 0) {
                Err("sell amount bound check failed")
            } else {
                Ok(())
            }),
    {
        if !(price > 0 && price <= PRICE_MAX) {
            return Err("price bounds check failed");
        }
        if !(sell_amount > 0 && sell_amount <= u128::MAX) {
            return Err("sell amount bound check failed");
        }
        Ok(())
    }

    /// The amount an order of type `otype` selling `amount` at `price` buys,
    /// computed in 256-bit arithmetic; fails when converting it back would
    /// not give `amount` (the amount has digits below the price's
    /// precision), or when it is zero or beyond the largest balance.
    pub fn ensure_counterparty_amount_bounds(otype: OrderType, price: Price, amount: Balance) -> (r: Result<Balance, &'static str>)
        requires
            price > 0,
        ensures
            ({
                let (cp, back) = counterparty(otype, price as nat, amount as nat);
                r == (if amount != back {
                    Err::<Balance, &'static str>("amount have digits parts")
                } else if cp == 0 || cp > u128::MAX {
                    Err("counterparty bound check failed")
                } else {
                    Ok(cp as u128)
                })
            }),
    {
        let price_u256 = wide_from_u128(price);
        let amount_u256 = wide_from_u128(amount);
        let max_balance_u256 = wide_from_u128(u128::MAX);
        let price_factor_u256 = wide_from_u128(PRICE_FACTOR);
        let amount_v2: Wide;
        let counterparty_amount: Wide;
        let ghost f = PRICE_FACTOR as nat;
        match otype {
            OrderType::Buy => {
                proof {
                    lemma_product_fits(amount as nat, f);
                }
                let product = wide_mul(amount_u256, price_factor_u256);
                counterparty_amount = wide_div(product, price_u256);
                proof {
                    lemma_div_mul_le(amount as nat * f, price as nat);
                    lemma_product_fits(amount as nat, f);
                }
                let back = wide_mul(counterparty_amount, price_u256);
                amount_v2 = wide_div(back, price_factor_u256);
            },
            OrderType::Sell => {
                proof {
                    lemma_product_fits(amount as nat, price as nat);
                }
                let product = wide_mul(amount_u256, price_u256);
                counterparty_amount = wide_div(product, price_factor_u256);
                proof {
                    lemma_div_mul_le(amount as nat * price as nat, f);
                    lemma_product_fits(amount as nat, price as nat);
                }
                let back = wide_mul(counterparty_amount, price_factor_u256);
                amount_v2 = wide_div(back, price_u256);
            },
        }
        if !wide_eq(amount_u256, amount_v2) {
            return Err("amount have digits parts");
        }
        let zero = wide_from_u128(0);
        if wide_eq(counterparty_amount, zero) || wide_gt(counterparty_amount, max_balance_u256) {
            return Err("counterparty bound check failed");
        }
        let result = match wide_to_u128(counterparty_amount) {
            Ok(v) => v,
            Err(_) => {
                return Err("Overflow error");
            },
        };
        Ok(result)
    }

    /// The (base, quote) amounts that `maker_order` and `taker_order`
    /// exchange at the maker's price: the seller's whole remaining buy
    /// amount if the buyer can pay it, else the buyer's whole remaining buy
    /// amount if the seller can give it; the other amount is rounded up.
    pub fn calculate_ex_amount(maker_order: &LimitOrder, taker_order: &LimitOrder) -> (r: Result<(Balance, Balance), &'static str>)
        requires
            ex_amount_fits(*maker_order, *taker_order),
        ensures
            match ex_amount(*maker_order, *taker_order) {
                Some((base, quote)) => r == Ok::<(Balance, Balance), &'static str>(
                    (base as u128, quote as u128),
                ),
                None => r == Err::<(Balance, Balance), &'static str>("should never executed here"),
            },
    {
        let buyer_order;
        let seller_order;
        if taker_order.otype == OrderType::Buy {
            buyer_order = taker_order;
            seller_order = maker_order;
        } else {
            buyer_order = maker_order;
            seller_order = taker_order;
        }
        let ghost f = PRICE_FACTOR as nat;
        let ghost p = maker_order.price as nat;
        if seller_order.remained_buy_amount <= buyer_order.remained_sell_amount {
            proof {
                lemma_rounded_up_fits(seller_order.remained_buy_amount as nat, f, p);
            }
            let mut quote_qty: u128 = seller_order.remained_buy_amount * PRICE_FACTOR / maker_order.price;
            let buy_amount_v2 = quote_qty * maker_order.price / PRICE_FACTOR;
            if buy_amount_v2 != seller_order.remained_buy_amount {
                quote_qty = quote_qty + 1;
            }
            return Ok((seller_order.remained_buy_amount, quote_qty));
        } else if buyer_order.remained_buy_amount <= seller_order.remained_sell_amount {
            proof {
                lemma_rounded_up_fits(buyer_order.remained_buy_amount as nat, p, f);
            }
            let mut base_qty: u128 = buyer_order.remained_buy_amount * maker_order.price / PRICE_FACTOR;
            let buy_amount_v2 = base_qty * PRICE_FACTOR / maker_order.price;
            if buy_amount_v2 != buyer_order.remained_buy_amount {
                base_qty = base_qty + 1;
            }
            return Ok((base_qty, buyer_order.remained_buy_amount));
        }
        Err("should never executed here")
    }

    /// The price of the next level to match against on side `otype` of the
    /// book whose head is `item`: its `prev` for buys, its `next` for sells.
    pub fn next_match_price(item: &LinkedItem, otype: OrderType) -> (r: Option<Price>)
        ensures
            r == (if otype == OrderType::Buy {
                item.prev
            } else {
                item.next
            }),
    {
        if otype == OrderType::Buy {
            item.prev
        } else {
            item.next
        }
    }

    /// Whether an order of type `order_type` at `order_price` accepts a
    /// level priced `linked_item_price`: a sell order one at or above its
    /// price, a buy order one at or below.
    pub fn price_matched(order_price: Price, order_type: OrderType, linked_item_price: Price) -> (r: bool)
        ensures
            r == price_accepts(order_price, order_type, linked_item_price),
    {
        match order_type {
            OrderType::Sell => order_price <= linked_item_price,
            OrderType::Buy => order_price >= linked_item_price,
        }
    }
}

/// The value under `k`, if any.
pub open spec fn lookup<K, V>(m: Map<K, V>, k: K) -> Option<V> {
    if m.contains_key(k) {
        Some(m[k])
    } else {
        None
    }
}

/// The hashes listed under `k`, or none.
pub open spec fn hashes_at<K>(m: Map<K, Vec<H256>>, k: K) -> Seq<H256> {
    if m.contains_key(k) {
        m[k]@
    } else {
        Seq::empty()
    }
}

/// The lists of hashes `m`, each as a sequence.
pub open spec fn lists_view<K>(m: Map<K, Vec<H256>>) -> Map<K, Seq<H256>> {
    Map::new(|k: K| m.contains_key(k), |k: K| m[k]@)
}

/// `m` with `h` added at the end of the list under `k` (started where there
/// is none).
pub open spec fn push_at<K>(m: Map<K, Seq<H256>>, k: K, h: H256) -> Map<K, Seq<H256>> {
    m.insert(k, (if m.contains_key(k) { m[k] } else { Seq::empty() }).push(h))
}

/// The trades listed under each order, each account, each account in each
/// pair, and each pair.
#[verifier::ext_equal]
pub struct TradeLists {
    pub by_order: Map<H256, Seq<H256>>,
    pub by_owner: Map<AccountId, Seq<H256>>,
    pub by_owner_pair: Map<(AccountId, H256), Seq<H256>>,
    pub by_pair: Map<H256, Seq<H256>>,
}

impl TradeLists {
    /// The lists once trade `h` between the taker `taker` and the resting
    /// order `maker` on pair `tp_hash` is listed: under the taker, then the
    /// maker; under their owners in the same order; under each owner in the
    /// pair; under the pair.
    pub open spec fn listed(self, h: H256, taker: LimitOrder, maker: LimitOrder, tp_hash: H256) -> TradeLists {
        TradeLists {
            by_order: push_at(push_at(self.by_order, taker.hash, h), maker.hash, h),
            by_owner: push_at(push_at(self.by_owner, taker.owner, h), maker.owner, h),
            by_owner_pair: push_at(push_at(self.by_owner_pair, (taker.owner, tp_hash), h), (maker.owner, tp_hash), h),
            by_pair: push_at(self.by_pair, tp_hash, h),
        }
    }
}

/// The stored index under `k`, or zero where there is none.
pub open spec fn count_at<K>(m: Map<K, u64>, k: K) -> u64 {
    if m.contains_key(k) {
        m[k]
    } else {
        0
    }
}

/// A copy of a list of hashes.
pub fn copy_hashes(v: &Vec<H256>) -> (r: Vec<H256>)
    ensures
        r@ == v@,
{
    let mut r: Vec<H256> = Vec::new();
    let mut i: usize = 0;
    while i < v.len()
        invariant
            i <= v@.len(),
            r@ == v@.subrange(0, i as int),
        decreases v@.len() - i,
    {
        r.push(v[i]);
        i = i + 1;
        assert(r@ =~= v@.subrange(0, i as int));
    }
    assert(r@ =~= v@);
    r
}

/// Whether two hashes are equal.
pub fn same_hash(a: H256, b: H256) -> (r: bool)
    ensures
        r == (a == b),
{
    a.0 == b.0 && a.1 == b.1
}

/// The highest buy level of a book, if any.
pub open spec fn best_buy(l: LinkedList, tp_hash: H256) -> Option<Price> {
    if l.buys(tp_hash).len() > 0 {
        Some(l.buys(tp_hash).last())
    } else {
        None
    }
}

/// The lowest sell level of a book, if any.
pub open spec fn best_sell(l: LinkedList, tp_hash: H256) -> Option<Price> {
    if l.sells(tp_hash).len() > 0 {
        Some(l.sells(tp_hash)[0])
    } else {
        None
    }
}

impl Module {
    /// The trade pair with hash `hash`, if any.
    pub fn trade_pair(&self, hash: H256) -> (r: Option<TradePair>)
        ensures
            r == lookup(self.trade_pairs@, hash),
    {
        match self.trade_pairs.get(&hash) {
            Some(t) => Some(*t),
            None => None,
        }
    }

    /// The hash of the trade pair of `key.0` against `key.1`, if any.
    pub fn trade_pair_hash_by_base_quote(&self, key: (H256, H256)) -> (r: Option<H256>)
        ensures
            r == lookup(self.trade_pairs_hash_by_base_quote@, key),
    {
        match self.trade_pairs_hash_by_base_quote.get(&key) {
            Some(h) => Some(*h),
            None => None,
        }
    }

    /// The order with hash `hash`, if any.
    pub fn order(&self, hash: H256) -> (r: Option<LimitOrder>)
        ensures
            r == lookup(self.orders@, hash),
    {
        match self.orders.get(&hash) {
            Some(o) => Some(*o),
            None => None,
        }
    }

    /// The hash of the `key.1`-th order of account `key.0`, if any.
    pub fn owned_order(&self, key: (AccountId, u64)) -> (r: Option<H256>)
        ensures
            r == lookup(self.owned_orders@, key),
    {
        match self.owned_orders.get(&key) {
            Some(h) => Some(*h),
            None => None,
        }
    }

    /// The number of orders of `account`.
    pub fn owned_orders_index(&self, account: AccountId) -> (r: u64)
        ensures
            r == count_at(self.owned_orders_indexes@, account),
    {
        match self.owned_orders_indexes.get(&account) {
            Some(i) => *i,
            None => 0,
        }
    }

    /// The hash of the `key.1`-th order of trade pair `key.0`, if any.
    pub fn trade_pair_owned_order(&self, key: (H256, u64)) -> (r: Option<H256>)
        ensures
            r == lookup(self.trade_pair_owned_orders@, key),
    {
        match self.trade_pair_owned_orders.get(&key) {
            Some(h) => Some(*h),
            None => None,
        }
    }

    /// The number of orders of trade pair `tp_hash`.
    pub fn trade_pair_owned_order_index(&self, tp_hash: H256) -> (r: u64)
        ensures
            r == count_at(self.trade_pair_owned_order_indexes@, tp_hash),
    {
        match self.trade_pair_owned_order_indexes.get(&tp_hash) {
            Some(i) => *i,
            None => 0,
        }
    }

    /// The node of a book stored under `key`, if any.
    pub fn linked_item(&self, key: (H256, Option<Price>)) -> (r: Option<LinkedItem>)
        ensures
            r is Some <==> self.linked_items@.contains_key(key),
            r matches Some(it) ==> it@ == self.linked_items@[key],
    {
        match self.linked_items.items.get(&key) {
            Some(it) => Some(it.copy()),
            None => None,
        }
    }

    /// The trade with hash `hash`, if any.
    pub fn trade(&self, hash: H256) -> (r: Option<Trade>)
        ensures
            r == lookup(self.trades@, hash),
    {
        match self.trades.get(&hash) {
            Some(t) => Some(*t),
            None => None,
        }
    }

    /// The hashes of the trades of `account`, if any.
    pub fn owned_trade(&self, account: AccountId) -> (r: Option<Vec<H256>>)
        ensures
            r is Some <==> self.owned_trades@.contains_key(account),
            r matches Some(v) ==> v@ == self.owned_trades@[account]@,
    {
        match self.owned_trades.get(&account) {
            Some(v) => Some(copy_hashes(v)),
            None => None,
        }
    }

    /// The hashes of the trades of account `key.0` in trade pair `key.1`, if any.
    pub fn owned_trade_pair_trade(&self, key: (AccountId, H256)) -> (r: Option<Vec<H256>>)
        ensures
            r is Some <==> self.owned_tp_trades@.contains_key(key),
            r matches Some(v) ==> v@ == self.owned_tp_trades@[key]@,
    {
        match self.owned_tp_trades.get(&key) {
            Some(v) => Some(copy_hashes(v)),
            None => None,
        }
    }

    /// The hashes of the trades of trade pair `tp_hash`, if any.
    pub fn trade_pair_owned_trade(&self, tp_hash: H256) -> (r: Option<Vec<H256>>)
        ensures
            r is Some <==> self.trade_pair_owned_trades@.contains_key(tp_hash),
            r matches Some(v) ==> v@ == self.trade_pair_owned_trades@[tp_hash]@,
    {
        match self.trade_pair_owned_trades.get(&tp_hash) {
            Some(v) => Some(copy_hashes(v)),
            None => None,
        }
    }

    /// The hashes of the trades of order `order_hash`, if any.
    pub fn order_owned_trade(&self, order_hash: H256) -> (r: Option<Vec<H256>>)
        ensures
            r is Some <==> self.order_owned_trades@.contains_key(order_hash),
            r matches Some(v) ==> v@ == self.order_owned_trades@[order_hash]@,
    {
        match self.order_owned_trades.get(&order_hash) {
            Some(v) => Some(copy_hashes(v)),
            None => None,
        }
    }

    /// Lists trade `trade_hash` under order `order_hash`.
    pub fn add_order_owned_trade(&mut self, order_hash: H256, trade_hash: H256)
        ensures
            final(self).order_owned_trades@.dom() == old(self).order_owned_trades@.dom().insert(order_hash),
            lists_view(final(self).order_owned_trades@) == push_at(lists_view(old(self).order_owned_trades@), order_hash, trade_hash),
            hashes_at(final(self).order_owned_trades@, order_hash) == hashes_at(
                old(self).order_owned_trades@,
                order_hash,
            ).push(trade_hash),
            forall|k: H256| k != order_hash ==> #[trigger] hashes_at(final(self).order_owned_trades@, k)
                == hashes_at(old(self).order_owned_trades@, k),
            final(self).same_but_trade_lists(*old(self)),
            final(self).owned_trades == old(self).owned_trades,
            final(self).owned_tp_trades == old(self).owned_tp_trades,
            final(self).trade_pair_owned_trades == old(self).trade_pair_owned_trades,
    {
        let mut trades: Vec<H256> = match self.order_owned_trades.get(&order_hash) {
            Some(ts) => copy_hashes(ts),
            None => Vec::new(),
        };
        trades.push(trade_hash);
        self.order_owned_trades.insert(order_hash, trades);
        proof {
            assert(lists_view(self.order_owned_trades@) =~= push_at(lists_view(old(self).order_owned_trades@), order_hash, trade_hash));
        }
    }

    /// Lists trade `trade_hash` under account `account_id`.
    pub fn add_owned_trade(&mut self, account_id: AccountId, trade_hash: H256)
        ensures
            final(self).owned_trades@.dom() == old(self).owned_trades@.dom().insert(account_id),
            lists_view(final(self).owned_trades@) == push_at(lists_view(old(self).owned_trades@), account_id, trade_hash),
            hashes_at(final(self).owned_trades@, account_id) == hashes_at(
                old(self).owned_trades@,
                account_id,
            ).push(trade_hash),
            forall|k: AccountId| k != account_id ==> #[trigger] hashes_at(final(self).owned_trades@, k)
                == hashes_at(old(self).owned_trades@, k),
            final(self).same_but_trade_lists(*old(self)),
            final(self).order_owned_trades == old(self).order_owned_trades,
            final(self).owned_tp_trades == old(self).owned_tp_trades,
            final(self).trade_pair_owned_trades == old(self).trade_pair_owned_trades,
    {
        let mut trades: Vec<H256> = match self.owned_trades.get(&account_id) {
            Some(ts) => copy_hashes(ts),
            None => Vec::new(),
        };
        trades.push(trade_hash);
        self.owned_trades.insert(account_id, trades);
        proof {
            assert(lists_view(self.owned_trades@) =~= push_at(lists_view(old(self).owned_trades@), account_id, trade_hash));
        }
    }

    /// Lists trade `trade_hash` under account `account_id` in pair `tp_hash`.
    pub fn add_owned_tp_trade(&mut self, account_id: AccountId, tp_hash: H256, trade_hash: H256)
        ensures
            final(self).owned_tp_trades@.dom() == old(self).owned_tp_trades@.dom().insert((account_id, tp_hash)),
            lists_view(final(self).owned_tp_trades@) == push_at(
                lists_view(old(self).owned_tp_trades@),
                (account_id, tp_hash),
                trade_hash,
            ),
            hashes_at(final(self).owned_tp_trades@, (account_id, tp_hash)) == hashes_at(
                old(self).owned_tp_trades@,
                (account_id, tp_hash),
            ).push(trade_hash),
            forall|k: (AccountId, H256)| k != (account_id, tp_hash) ==> #[trigger] hashes_at(
                final(self).owned_tp_trades@,
                k,
            ) == hashes_at(old(self).owned_tp_trades@, k),
            final(self).same_but_trade_lists(*old(self)),
            final(self).order_owned_trades == old(self).order_owned_trades,
            final(self).owned_trades == old(self).owned_trades,
            final(self).trade_pair_owned_trades == old(self).trade_pair_owned_trades,
    {
        let mut trades: Vec<H256> = match self.owned_tp_trades.get(&(account_id, tp_hash)) {
            Some(ts) => copy_hashes(ts),
            None => Vec::new(),
        };
        trades.push(trade_hash);
        self.owned_tp_trades.insert((account_id, tp_hash), trades);
        proof {
            assert(lists_view(self.owned_tp_trades@) =~= push_at(lists_view(old(self).owned_tp_trades@), (account_id, tp_hash), trade_hash));
        }
    }

    /// Lists trade `trade_hash` under trade pair `tp_hash`.
    pub fn add_trade_pair_owned_trade(&mut self, tp_hash: H256, trade_hash: H256)
        ensures
            final(self).trade_pair_owned_trades@.dom() == old(self).trade_pair_owned_trades@.dom().insert(tp_hash),
            lists_view(final(self).trade_pair_owned_trades@) == push_at(lists_view(old(self).trade_pair_owned_trades@), tp_hash, trade_hash),
            hashes_at(final(self).trade_pair_owned_trades@, tp_hash) == hashes_at(
                old(self).trade_pair_owned_trades@,
                tp_hash,
            ).push(trade_hash),
            forall|k: H256| k != tp_hash ==> #[trigger] hashes_at(final(self).trade_pair_owned_trades@, k)
                == hashes_at(old(self).trade_pair_owned_trades@, k),
            final(self).same_but_trade_lists(*old(self)),
            final(self).order_owned_trades == old(self).order_owned_trades,
            final(self).owned_trades == old(self).owned_trades,
            final(self).owned_tp_trades == old(self).owned_tp_trades,
    {
        let mut trades: Vec<H256> = match self.trade_pair_owned_trades.get(&tp_hash) {
            Some(ts) => copy_hashes(ts),
            None => Vec::new(),
        };
        trades.push(trade_hash);
        self.trade_pair_owned_trades.insert(tp_hash, trades);
        proof {
            assert(lists_view(self.trade_pair_owned_trades@) =~= push_at(lists_view(old(self).trade_pair_owned_trades@), tp_hash, trade_hash));
        }
    }

    /// The four lists of trade hashes.
    pub open spec fn trade_lists(self) -> TradeLists {
        TradeLists {
            by_order: lists_view(self.order_owned_trades@),
            by_owner: lists_view(self.owned_trades@),
            by_owner_pair: lists_view(self.owned_tp_trades@),
            by_pair: lists_view(self.trade_pair_owned_trades@),
        }
    }

    /// Only the four lists of trade hashes differ.
    pub open spec fn same_but_trade_lists(self, other: Module) -> bool {
        &&& self.trade_pairs == other.trade_pairs
        &&& self.trade_pairs_hash_by_base_quote == other.trade_pairs_hash_by_base_quote
        &&& self.orders == other.orders
        &&& self.owned_orders == other.owned_orders
        &&& self.owned_orders_indexes == other.owned_orders_indexes
        &&& self.trade_pair_owned_orders == other.trade_pair_owned_orders
        &&& self.trade_pair_owned_order_indexes == other.trade_pair_owned_order_indexes
        &&& self.linked_items == other.linked_items
        &&& self.trades == other.trades
        &&& self.nonce == other.nonce
        &&& self.events == other.events
    }

    /// The hash of the trade pair of `base` against `quote`, or an error when
    /// there is none.
    pub fn ensure_trade_pair(&self, base: H256, quote: H256) -> (r: Result<H256, &'static str>)
        ensures
            r == (match lookup(self.trade_pairs_hash_by_base_quote@, (base, quote)) {
                Some(h) => Ok::<H256, &'static str>(h),
                None => Err("not trade pair with base & quote"),
            }),
    {
        let bq = self.trade_pair_hash_by_base_quote((base, quote));
        match bq {
            Some(bq) => Ok(bq),
            None => Err("not trade pair with base & quote"),
        }
    }

    /// Records `price` as the latest matched price of trade pair `tp_hash`.
    pub fn set_tp_latest_matched_price(&mut self, tp_hash: H256, price: Option<Price>) -> (r: Result<(), &'static str>)
        ensures
            !old(self).trade_pairs@.contains_key(tp_hash) ==> r == Err::<(), &'static str>(
                "can not get trade pair",
            ) && *final(self) == *old(self),
            old(self).trade_pairs@.contains_key(tp_hash) ==> {
                &&& r == Ok::<(), &'static str>(())
                &&& final(self).trade_pairs@ == old(self).trade_pairs@.insert(
                    tp_hash,
                    (TradePair { latest_matched_price: price, ..old(self).trade_pairs@[tp_hash] }),
                )
                &&& final(self).same_but_pairs(*old(self))
                &&& final(self).linked_items == old(self).linked_items
            },
    {
        let mut tp = match self.trade_pairs.get(&tp_hash) {
            Some(t) => *t,
            None => {
                return Err("can not get trade pair");
            },
        };
        tp.latest_matched_price = price;
        self.trade_pairs.insert(tp_hash, tp);
        Ok(())
    }

    /// The pairs found by their tokens, the lists of orders and the reports
    /// are the same.
    pub open spec fn listed_same(self, other: Module) -> bool {
        &&& self.trade_pairs_hash_by_base_quote == other.trade_pairs_hash_by_base_quote
        &&& self.owned_orders == other.owned_orders
        &&& self.owned_orders_indexes == other.owned_orders_indexes
        &&& self.trade_pair_owned_orders == other.trade_pair_owned_orders
        &&& self.trade_pair_owned_order_indexes == other.trade_pair_owned_order_indexes
        &&& self.events == other.events
    }

    /// Everything but the trade pairs and the books is the same.
    pub open spec fn same_but_pairs(self, other: Module) -> bool {
        &&& self.trade_pairs_hash_by_base_quote == other.trade_pairs_hash_by_base_quote
        &&& self.orders == other.orders
        &&& self.owned_orders == other.owned_orders
        &&& self.owned_orders_indexes == other.owned_orders_indexes
        &&& self.order_owned_trades == other.order_owned_trades
        &&& self.trade_pair_owned_orders == other.trade_pair_owned_orders
        &&& self.trade_pair_owned_order_indexes == other.trade_pair_owned_order_indexes
        &&& self.trades == other.trades
        &&& self.owned_trades == other.owned_trades
        &&& self.owned_tp_trades == other.owned_tp_trades
        &&& self.trade_pair_owned_trades == other.trade_pair_owned_trades
        &&& self.nonce == other.nonce
        &&& self.events == other.events
    }

    /// Records the highest buy level (for `otype` buy) or the lowest sell
    /// level (for `otype` sell) of `tp_hash`'s book in the trade pair, `None`
    /// where that side is empty. Starts the book if it has none.
    pub fn set_tp_buy_one_or_sell_one_price(&mut self, tp_hash: H256, otype: OrderType) -> (r: Result<(), &'static str>)
        requires
            old(self).linked_items.wf(),
        ensures
            !old(self).trade_pairs@.contains_key(tp_hash) ==> r == Err::<(), &'static str>(
                "can not get trade pair",
            ) && *final(self) == *old(self),
            old(self).trade_pairs@.contains_key(tp_hash) ==> {
                let tp = old(self).trade_pairs@[tp_hash];
                let l = final(self).linked_items;
                &&& r == Ok::<(), &'static str>(())
                &&& final(self).trade_pairs@ == old(self).trade_pairs@.insert(
                    tp_hash,
                    if otype == OrderType::Buy {
                        TradePair { buy_one_price: best_buy(l, tp_hash), ..tp }
                    } else {
                        TradePair { sell_one_price: best_sell(l, tp_hash), ..tp }
                    },
                )
                &&& final(self).same_but_pairs(*old(self))
                &&& old(self).linked_items.built(tp_hash) ==> final(self).linked_items == old(self).linked_items
                &&& !old(self).linked_items.built(tp_hash) ==> l.buys(tp_hash).len() == 0 && l.sells(tp_hash).len() == 0
            },
            final(self).linked_items.wf(),
            final(self).linked_items.built(tp_hash) || !old(self).trade_pairs@.contains_key(tp_hash),
            forall|k1: H256| k1 != tp_hash ==> #[trigger] final(self).linked_items.sides@.contains_key(k1)
                == old(self).linked_items.sides@.contains_key(k1) && (old(self).linked_items.sides@.contains_key(k1)
                ==> final(self).linked_items.sides@[k1] == old(self).linked_items.sides@[k1]),
            forall|k: (H256, Option<Price>)| k.0 != tp_hash ==> (#[trigger] final(self).linked_items@.contains_key(k)
                == old(self).linked_items@.contains_key(k) && (old(self).linked_items@.contains_key(k)
                ==> final(self).linked_items@[k] == old(self).linked_items@[k])),
            books_uncrossed(old(self).linked_items) ==> books_uncrossed(final(self).linked_items),
            book_orders_stored(old(self).linked_items, old(self).orders@) ==> book_orders_stored(
                final(self).linked_items,
                final(self).orders@,
            ),
    {
        let mut tp = match self.trade_pairs.get(&tp_hash) {
            Some(t) => *t,
            None => {
                return Err("can not get trade pair");
            },
        };
        let ghost was_built = self.linked_items.built(tp_hash);
        proof {
            if was_built {
                let l = self.linked_items;
                let c = crate::types::chain(l.buys(tp_hash), l.sells(tp_hash));
                assert(crate::types::node_linked(l@, tp_hash, c, l.buys(tp_hash).len() as int + 1));
            }
        }
        let ghost l_before = self.linked_items;
        let head = self.linked_items.read_head(tp_hash);
        proof {
            let l = self.linked_items;
            if book_orders_stored(l_before, self.orders@) {
                assert forall|k: (H256, Option<Price>), i: int|
                    l@.contains_key(k) && 0 <= i < l@[k].orders.len() implies {
                        &&& self.orders@.contains_key(#[trigger] l@[k].orders[i])
                        &&& k.1 == Some(self.orders@[l@[k].orders[i]].price)
                    } by {
                    if l_before@.contains_key(k) && l@[k] == l_before@[k] {
                        assert(self.orders@.contains_key(l_before@[k].orders[i]));
                    }
                }
            }
            let b = l.buys(tp_hash);
            let s = l.sells(tp_hash);
            let c = crate::types::chain(b, s);
            crate::types::lemma_chain_distinct(b, s);
            assert(crate::types::node_linked(l@, tp_hash, c, b.len() as int + 1));
            if b.len() > 0 {
                assert(c[b.len() as int] == Some(b.last()));
                assert(c[0] == Some(PRICE_MIN));
            }
            if s.len() > 0 {
                assert(c[b.len() as int + 2] == Some(s[0]));
                assert(c[c.len() - 1] == Some(PRICE_MAX));
            }
        }
        if otype == OrderType::Buy {
            if head.prev == Some(PRICE_MIN) {
                tp.buy_one_price = None;
            } else {
                tp.buy_one_price = head.prev;
            }
        }
        if otype == OrderType::Sell {
            if head.next == Some(PRICE_MAX) {
                tp.sell_one_price = None;
            } else {
                tp.sell_one_price = head.next;
            }
        }
        self.trade_pairs.insert(tp_hash, tp);
        proof {
            let o = old(self).linked_items;
            let n = self.linked_items;
            if books_uncrossed(o) {
                assert forall|k1: H256| #[trigger] n.built(k1) implies uncrossed(n, k1) by {
                    if k1 != tp_hash || was_built {
                        assert(o.built(k1));
                        assert(n.sides@[k1] == o.sides@[k1]);
                    }
                }
            }
        }
        Ok(())
    }
}

impl Module {
    /// Why `do_create_trade_pair` refuses, if it does.
    pub open spec fn create_pair_error(self, tokens: TokenModule, sender: AccountId, base: H256, quote: H256) -> Option<&'static str> {
        if base == quote {
            Some("base and quote can not be the same token")
        } else if !(tokens.owners@.contains_key(base) && tokens.owners@.contains_key(quote)) {
            Some("can't find owner of base or quote token")
        } else if !(sender == tokens.owners@[base] || sender == tokens.owners@[quote]) {
            Some("sender should be equal to owner of base or quote token")
        } else if self.trade_pairs_hash_by_base_quote@.contains_key((base, quote))
            || self.trade_pairs_hash_by_base_quote@.contains_key((quote, base)) {
            Some("the same trade pair already exists")
        } else {
            None
        }
    }

    /// What `do_create_trade_pair` for `sender` does to the trade module
    /// `before` (leaving `after`), answering `r`.
    pub open spec fn trade_pair_created(
        before: Module,
        after: Module,
        tokens: TokenModule,
        ctx: ChainContext,
        sender: AccountId,
        base: H256,
        quote: H256,
        r: Result<(), &'static str>,
    ) -> bool {
        let err = before.create_pair_error(tokens, sender, base, quote);
        let hash = blake2_256(trade_pair_hash_input(ctx, sender, base, quote, before.nonce));
        let tp = TradePair {
            hash,
            base,
            quote,
            buy_one_price: None,
            sell_one_price: None,
            latest_matched_price: None,
        };
        &&& r == (match err {
            Some(e) => Err::<(), &'static str>(e),
            None => Ok(()),
        })
        &&& err is Some ==> after == before
        &&& err is None ==> {
            &&& after.trade_pairs@ == before.trade_pairs@.insert(hash, tp)
            &&& after.trade_pairs_hash_by_base_quote@ == before.trade_pairs_hash_by_base_quote@.insert(
                (base, quote),
                hash,
            )
            &&& after.nonce == before.nonce.wrapping_add(1)
            &&& after.events@ == before.events@.push(Event::TradePairCreated(sender, hash, tp))
            &&& after.orders == before.orders
            &&& after.owned_orders == before.owned_orders
            &&& after.owned_orders_indexes == before.owned_orders_indexes
            &&& after.order_owned_trades == before.order_owned_trades
            &&& after.trade_pair_owned_orders == before.trade_pair_owned_orders
            &&& after.trade_pair_owned_order_indexes == before.trade_pair_owned_order_indexes
            &&& after.linked_items == before.linked_items
            &&& after.trades == before.trades
            &&& after.owned_trades == before.owned_trades
            &&& after.owned_tp_trades == before.owned_tp_trades
            &&& after.trade_pair_owned_trades == before.trade_pair_owned_trades
        }
    }

    /// Creates the trade pair of token `base` against token `quote`, for
    /// `sender`, who must own one of them; neither it nor its reverse may
    /// exist yet.
    pub fn do_create_trade_pair(&mut self, tokens: &TokenModule, sender: AccountId, base: H256, quote: H256, ctx: &ChainContext) -> (r: Result<(), &'static str>)
        ensures
            Self::trade_pair_created(*old(self), *final(self), *tokens, *ctx, sender, base, quote, r),
            old(self).wf() ==> final(self).wf(),
    {
        if same_hash(base, quote) {
            return Err("base and quote can not be the same token");
        }
        let base_owner = tokens.owner(base);
        let quote_owner = tokens.owner(quote);
        if !(base_owner.is_some() && quote_owner.is_some()) {
            return Err("can't find owner of base or quote token");
        }
        let base_owner = base_owner.unwrap();
        let quote_owner = quote_owner.unwrap();
        if !(sender == base_owner || sender == quote_owner) {
            return Err("sender should be equal to owner of base or quote token");
        }
        let bq = self.trade_pair_hash_by_base_quote((base, quote));
        let qb = self.trade_pair_hash_by_base_quote((quote, base));
        if !(!bq.is_some() && !qb.is_some()) {
            return Err("the same trade pair already exists");
        }
        let nonce = self.nonce;
        let mut input: Vec<u8> = Vec::new();
        push_hash(&mut input, ctx.random_seed);
        push_le(&mut input, ctx.block_number as u128, 8);
        push_le(&mut input, sender as u128, 8);
        push_hash(&mut input, base);
        push_hash(&mut input, quote);
        push_le(&mut input, nonce as u128, 8);
        assert(input@ =~= trade_pair_hash_input(*ctx, sender, base, quote, nonce));
        let hash = blake2_256_hash(&input);
        let tp = TradePair {
            hash,
            base,
            quote,
            buy_one_price: None,
            sell_one_price: None,
            latest_matched_price: None,
        };
        self.nonce = self.nonce.wrapping_add(1);
        self.trade_pairs.insert(hash, tp);
        self.trade_pairs_hash_by_base_quote.insert((base, quote), hash);
        self.events.push(Event::TradePairCreated(sender, hash, tp));
        Ok(())
    }

    /// `do_create_trade_pair` for a dispatched call, by the signer of `origin`.
    pub fn create_trade_pair(&mut self, tokens: &TokenModule, origin: Origin, base: H256, quote: H256, ctx: &ChainContext) -> (r: Result<(), &'static str>)
        ensures
            match origin {
                Origin::Signed(sender) => Self::trade_pair_created(*old(self), *final(self), *tokens, *ctx, sender, base, quote, r),
                _ => {
                    &&& r == Err::<(), &'static str>("bad origin: expected to be a signed origin")
                    &&& *final(self) == *old(self)
                },
            },
            old(self).wf() ==> final(self).wf(),
    {
        let sender = ensure_signed(origin)?;
        self.do_create_trade_pair(tokens, sender, base, quote, ctx)
    }
}

/// The levels of the side that an order of type `otype` rests on.
pub open spec fn own_levels(l: LinkedList, tp_hash: H256, otype: OrderType) -> Seq<Price> {
    if otype == OrderType::Buy {
        l.buys(tp_hash)
    } else {
        l.sells(tp_hash)
    }
}

/// The levels of the side that an order of type `otype` matches against.
pub open spec fn opposite_levels(l: LinkedList, tp_hash: H256, otype: OrderType) -> Seq<Price> {
    own_levels(l, tp_hash, otype.opposite_spec())
}

/// `now` is `before` less its `k` levels next to the head: the lowest sell
/// levels (for a buy `otype`) or the highest buy levels (for a sell one).
pub open spec fn taken_from_head(before: Seq<Price>, now: Seq<Price>, otype: OrderType, k: int) -> bool {
    &&& 0 <= k <= before.len()
    &&& now == if otype == OrderType::Buy {
        before.skip(k)
    } else {
        before.take(before.len() - k)
    }
}

/// The level next to the head on the side an order of type `otype` matches
/// against.
pub open spec fn innermost(levels: Seq<Price>, otype: OrderType) -> Price {
    if otype == OrderType::Buy {
        levels[0]
    } else {
        levels.last()
    }
}

/// The levels of `tp_hash`'s book, as `(buys, sells)`, empty where it has
/// none yet.
pub open spec fn levels_of(l: LinkedList, tp_hash: H256) -> (Seq<Price>, Seq<Price>) {
    if l.built(tp_hash) {
        (l.buys(tp_hash), l.sells(tp_hash))
    } else {
        (Seq::empty(), Seq::empty())
    }
}

/// The books of pairs other than `tp_hash` are the same.
pub open spec fn other_books_same(a: LinkedList, b: LinkedList, tp_hash: H256) -> bool {
    &&& forall|k: (H256, Option<Price>)| k.0 != tp_hash ==> (#[trigger] a@.contains_key(k)
        == b@.contains_key(k) && (b@.contains_key(k) ==> a@[k] == b@[k]))
    &&& forall|k1: H256| k1 != tp_hash ==> #[trigger] a.sides@.contains_key(k1)
        == b.sides@.contains_key(k1) && (b.sides@.contains_key(k1) ==> a.sides@[k1] == b.sides@[k1])
}

/// What matching an order of type `otype` leaves of the books `before`: its
/// own side of `tp_hash`'s book as it was, some levels next to the head
/// taken off the other side, the other books as they were.
pub open spec fn matched_books(before: LinkedList, after: LinkedList, tp_hash: H256, otype: OrderType) -> bool {
    &&& after.wf()
    &&& after.built(tp_hash)
    &&& own_levels(after, tp_hash, otype) == book_side(before, tp_hash, otype)
    &&& exists|k: int| #[trigger]
        taken_from_head(
            book_side(before, tp_hash, otype.opposite_spec()),
            opposite_levels(after, tp_hash, otype),
            otype,
            k,
        )
    &&& other_books_same(after, before, tp_hash)
}

/// The levels of side `otype` of `tp_hash`'s book, none where it has no book
/// yet.
pub open spec fn book_side(l: LinkedList, tp_hash: H256, otype: OrderType) -> Seq<Price> {
    if l.built(tp_hash) {
        own_levels(l, tp_hash, otype)
    } else {
        Seq::empty()
    }
}

/// The token accounting is kept whole, and only the amounts and the
/// reports change: the tokens, their owners, the owned tokens and the nonce
/// stay.
pub open spec fn tokens_kept(before: TokenModule, after: TokenModule) -> bool {
    &&& after.same_but_amounts(before)
    &&& before.consistent() ==> after.consistent()
    &&& before.holdings_known() ==> after.holdings_known()
}

/// The terms of two orders (all but what is left of them and their status)
/// are the same.
pub open spec fn same_terms(a: LimitOrder, b: LimitOrder) -> bool {
    &&& a.hash == b.hash
    &&& a.base == b.base
    &&& a.quote == b.quote
    &&& a.owner == b.owner
    &&& a.price == b.price
    &&& a.sell_amount == b.sell_amount
    &&& a.buy_amount == b.buy_amount
    &&& a.otype == b.otype
}

/// The same orders are stored, each with the same terms.
pub open spec fn orders_kept(before: Map<H256, LimitOrder>, after: Map<H256, LimitOrder>) -> bool {
    &&& after.dom() == before.dom()
    &&& forall|h: H256| #[trigger] after.contains_key(h) ==> same_terms(after[h], before[h])
}

/// Keeping the orders and their terms carries over.
proof fn lemma_orders_kept_trans(a: Map<H256, LimitOrder>, b: Map<H256, LimitOrder>, c: Map<H256, LimitOrder>)
    requires
        orders_kept(a, b),
        orders_kept(b, c),
    ensures
        orders_kept(a, c),
{
    assert forall|h: H256| #[trigger] c.contains_key(h) implies same_terms(c[h], a[h]) by {
        assert(b.contains_key(h));
    }
}

/// Every order resting at a node of the books is stored, at the node's
/// price.
pub open spec fn book_orders_stored(l: LinkedList, orders: Map<H256, LimitOrder>) -> bool {
    forall|k: (H256, Option<Price>), i: int|
        #![trigger l@[k].orders[i]]
        l@.contains_key(k) && 0 <= i < l@[k].orders.len() ==> {
            &&& orders.contains_key(l@[k].orders[i])
            &&& k.1 == Some(orders[l@[k].orders[i]].price)
        }
}

/// The orders `hs` are all stored, at price `p`.
pub open spec fn orders_at_price(orders: Map<H256, LimitOrder>, hs: Seq<H256>, p: Price) -> bool {
    forall|i: int| 0 <= i < hs.len() ==> #[trigger] orders.contains_key(hs[i]) && orders[hs[i]].price == p
}

/// Every trade of `after` that `before` does not hold as it is was made by a
/// taker order of `owner` of type `otype` at `price`, at a price that the
/// order accepts.
pub open spec fn new_trades_accepted(
    before: Map<H256, Trade>,
    after: Map<H256, Trade>,
    owner: AccountId,
    otype: OrderType,
    price: Price,
) -> bool {
    forall|h: H256| #[trigger] after.contains_key(h) && !(before.contains_key(h) && after[h] == before[h]) ==> {
        &&& price_accepts(price, otype, after[h].price)
        &&& after[h].taker == owner
        &&& after[h].otype == otype
    }
}

/// A match at a level that the taker accepts keeps every new trade at an
/// accepted price.
proof fn lemma_trades_accepted_step(
    start: Map<H256, Trade>,
    pre: Map<H256, Trade>,
    now: Map<H256, Trade>,
    owner: AccountId,
    otype: OrderType,
    price: Price,
    level_price: Price,
)
    requires
        new_trades_accepted(start, pre, owner, otype, price),
        price_accepts(price, otype, level_price),
        forall|h: H256| #[trigger] now.contains_key(h) && !(pre.contains_key(h) && now[h] == pre[h]) ==> {
            &&& now[h].price == level_price
            &&& now[h].taker == owner
            &&& now[h].otype == otype
        },
    ensures
        new_trades_accepted(start, now, owner, otype, price),
{
    assert forall|h: H256| #[trigger] now.contains_key(h) && !(start.contains_key(h) && now[h] == start[h]) implies {
        &&& price_accepts(price, otype, now[h].price)
        &&& now[h].taker == owner
        &&& now[h].otype == otype
    } by {
        if pre.contains_key(h) && now[h] == pre[h] {
            assert(pre.contains_key(h) && !(start.contains_key(h) && pre[h] == start[h]));
        }
    }
}

/// Taking finished orders off a side, with the stored orders keeping their
/// terms, keeps every resting order stored at its node's price.
proof fn lemma_book_orders_removed(
    l: LinkedList,
    o: Map<H256, LimitOrder>,
    l2: LinkedList,
    o2: Map<H256, LimitOrder>,
    key1: H256,
    otype: OrderType,
    removable: Map<H256, LimitOrder>,
)
    requires
        book_orders_stored(l, o),
        orders_kept(o, o2),
        l2 == l || l2.items_removed(l, key1, otype, removable),
    ensures
        book_orders_stored(l2, o2),
{
    assert forall|k: (H256, Option<Price>), i: int|
        l2@.contains_key(k) && 0 <= i < l2@[k].orders.len() implies {
            &&& o2.contains_key(#[trigger] l2@[k].orders[i])
            &&& k.1 == Some(o2[l2@[k].orders[i]].price)
        } by {
        let h = l2@[k].orders[i];
        if l2 == l {
            assert(o.contains_key(l@[k].orders[i]));
        } else {
            let v0 = started(l@, key1, l.built(key1));
            let os = v0[k].orders;
            let m = removable_prefix(os, removable);
            lemma_removable_prefix_bound(os, removable);
            let j = if l2@[k].orders == os { i } else { i + m };
            assert(os[j] == h);
            if l@.contains_key(k) {
                assert(v0[k] == l@[k]);
                assert(o.contains_key(l@[k].orders[j]));
            } else {
                assert(os.len() == 0);
            }
        }
        assert(o2.contains_key(h));
        assert(same_terms(o2[h], o[h]));
    }
}

/// No node of the books holds order `h`.
pub open spec fn not_in_book(l: LinkedList, h: H256) -> bool {
    forall|k: (H256, Option<Price>), i: int|
        #![trigger l@[k].orders[i]]
        l@.contains_key(k) && 0 <= i < l@[k].orders.len() ==> l@[k].orders[i] != h
}

/// Taking finished orders off a side adds no order to the books.
proof fn lemma_not_in_book_removed(
    l: LinkedList,
    l2: LinkedList,
    h: H256,
    key1: H256,
    otype: OrderType,
    removable: Map<H256, LimitOrder>,
)
    requires
        not_in_book(l, h),
        l2 == l || l2.items_removed(l, key1, otype, removable),
    ensures
        not_in_book(l2, h),
{
    assert forall|k: (H256, Option<Price>), i: int|
        l2@.contains_key(k) && 0 <= i < l2@[k].orders.len() implies #[trigger] l2@[k].orders[i] != h by {
        if l2 != l {
            let v0 = started(l@, key1, l.built(key1));
            let os = v0[k].orders;
            let m = removable_prefix(os, removable);
            lemma_removable_prefix_bound(os, removable);
            let j = if l2@[k].orders == os { i } else { i + m };
            assert(os[j] == l2@[k].orders[i]);
            if l@.contains_key(k) {
                assert(v0[k] == l@[k]);
                assert(l@[k].orders[j] != h);
            } else {
                assert(os.len() == 0);
            }
        }
    }
}

/// Adding an order at its price keeps every resting order stored at its
/// node's price.
proof fn lemma_book_orders_appended(
    mid: LinkedList,
    after: LinkedList,
    orders: Map<H256, LimitOrder>,
    tp_hash: H256,
    price: Price,
    hash: H256,
    otype: OrderType,
)
    requires
        book_orders_stored(mid, orders),
        after.appended(mid, tp_hash, price, hash, otype),
        orders.contains_key(hash),
        orders[hash].price == price,
    ensures
        book_orders_stored(after, orders),
{
    assert forall|k: (H256, Option<Price>), i: int|
        after@.contains_key(k) && 0 <= i < after@[k].orders.len() implies {
            &&& orders.contains_key(#[trigger] after@[k].orders[i])
            &&& k.1 == Some(orders[after@[k].orders[i]].price)
        } by {
        let key = (tp_hash, Some(price));
        if mid@.contains_key(key) {
            if k == key {
                if i < mid@[k].orders.len() {
                    assert(after@[k].orders[i] == mid@[k].orders[i]);
                }
            } else {
                assert(after@[k] == mid@[k]);
                assert(orders.contains_key(mid@[k].orders[i]));
            }
        } else {
            if k != key {
                if mid@.contains_key(k) {
                    assert(after@[k].orders == mid@[k].orders);
                    assert(orders.contains_key(mid@[k].orders[i]));
                }
            }
        }
    }
}

/// What is left of a list of orders without `h` was in it.
proof fn lemma_without_elems(os: Seq<H256>, h: H256)
    ensures
        forall|i: int| 0 <= i < without(os, h).len() ==> os.contains(#[trigger] without(os, h)[i]),
    decreases os.len(),
{
    if os.len() > 0 {
        let t = os.drop_last();
        lemma_without_elems(t, h);
        assert forall|i: int| 0 <= i < without(os, h).len() implies os.contains(#[trigger] without(os, h)[i]) by {
            let w = without(t, h);
            if i < w.len() {
                assert(t.contains(w[i]));
                let j = choose|j: int| 0 <= j < t.len() && t[j] == w[i];
                assert(os[j] == t[j]);
            } else {
                assert(os[os.len() - 1] == without(os, h)[i]);
            }
        }
    }
}

/// Taking an order off the book keeps every resting order stored at its
/// node's price.
proof fn lemma_book_orders_taken_off(
    before: LinkedList,
    after: LinkedList,
    orders: Map<H256, LimitOrder>,
    tp_hash: H256,
    price: Price,
    h: H256,
)
    requires
        book_orders_stored(before, orders),
        after.order_taken_off(before, tp_hash, price, h),
    ensures
        book_orders_stored(after, orders),
{
    let key = (tp_hash, Some(price));
    if before@.contains_key(key) {
        let it = before@[key];
        let kept = without(it.orders, h);
        lemma_without_elems(it.orders, h);
        assert forall|k: (H256, Option<Price>), i: int|
            after@.contains_key(k) && 0 <= i < after@[k].orders.len() implies {
                &&& orders.contains_key(#[trigger] after@[k].orders[i])
                &&& k.1 == Some(orders[after@[k].orders[i]].price)
            } by {
            if kept.len() > 0 || !(PRICE_MIN < price < PRICE_MAX) {
                if k == key {
                    assert(after@[k].orders == kept);
                    assert(it.orders.contains(kept[i]));
                    let j = choose|j: int| 0 <= j < it.orders.len() && it.orders[j] == kept[i];
                    assert(before@[key].orders[j] == kept[i]);
                } else {
                    assert(after@[k] == before@[k]);
                    assert(orders.contains_key(before@[k].orders[i]));
                }
            } else {
                assert(before@.contains_key(k));
                assert(after@[k].orders == before@[k].orders);
                assert(orders.contains_key(before@[k].orders[i]));
            }
        }
    }
}

/// Levels taken off the head twice are levels taken off the head.
proof fn lemma_taken_more(before: Seq<Price>, mid: Seq<Price>, now: Seq<Price>, otype: OrderType, k: int, k2: int)
    requires
        taken_from_head(before, mid, otype, k),
        taken_from_head(mid, now, otype, k2),
    ensures
        taken_from_head(before, now, otype, k + k2),
{
    if otype == OrderType::Buy {
        assert(now =~= before.skip(k + k2));
    } else {
        assert(now =~= before.take(before.len() - (k + k2)));
    }
}

/// The best buy level of `tp_hash`'s book is below its best sell level.
pub open spec fn uncrossed(l: LinkedList, tp_hash: H256) -> bool {
    l.buys(tp_hash).len() > 0 && l.sells(tp_hash).len() > 0 ==> l.buys(tp_hash).last() < l.sells(tp_hash)[0]
}

/// In no book does a buy level reach a sell level.
pub open spec fn books_uncrossed(l: LinkedList) -> bool {
    forall|k1: H256| #[trigger] l.built(k1) ==> uncrossed(l, k1)
}

/// Matching an order of type `otype` at `price` has nothing more to take:
/// the other side of `tp_hash`'s book is empty, or its level next to the
/// head is not acceptable at `price`.
pub open spec fn match_stopped(l: LinkedList, tp_hash: H256, otype: OrderType, price: Price) -> bool {
    let opp = opposite_levels(l, tp_hash, otype);
    opp.len() == 0 || !price_accepts(price, otype, innermost(opp, otype))
}

/// The trade pair `tp_hash` records the best prices of both sides of its
/// book: its highest buy level and its lowest sell level, `None` for a side
/// without levels (a pair without a book has none).
pub open spec fn best_levels_recorded(m: Module, tp_hash: H256) -> bool {
    let (b, s) = levels_of(m.linked_items, tp_hash);
    &&& m.trade_pairs@.contains_key(tp_hash)
    &&& m.trade_pairs@[tp_hash].buy_one_price == (if b.len() > 0 {
        Some(b.last())
    } else {
        None
    })
    &&& m.trade_pairs@[tp_hash].sell_one_price == (if s.len() > 0 {
        Some(s[0])
    } else {
        None
    })
}

/// Where only the pair `tp_hash` and its book changed, and it records the
/// best prices of its book, every pair that did records them still.
proof fn lemma_levels_recorded_others(before: Module, after: Module, tp_hash: H256)
    requires
        forall|k: H256| #[trigger] before.trade_pairs@.contains_key(k) ==> best_levels_recorded(before, k),
        after.trade_pairs@.dom() == before.trade_pairs@.dom(),
        forall|k: H256| #[trigger] after.trade_pairs@.contains_key(k) && k != tp_hash ==> after.trade_pairs@[k]
            == before.trade_pairs@[k],
        other_books_sides_same(after.linked_items, before.linked_items, tp_hash),
        best_levels_recorded(after, tp_hash),
    ensures
        forall|k: H256| #[trigger] after.trade_pairs@.contains_key(k) ==> best_levels_recorded(after, k),
{
    assert forall|k: H256| #[trigger] after.trade_pairs@.contains_key(k) implies best_levels_recorded(after, k) by {
        if k != tp_hash {
            assert(before.trade_pairs@.contains_key(k));
            assert(best_levels_recorded(before, k));
            assert(after.linked_items.built(k) == before.linked_items.built(k));
            assert(levels_of(after.linked_items, k) == levels_of(before.linked_items, k));
        }
    }
}

/// The sides of the books of pairs other than `tp_hash` are the same.
pub open spec fn other_books_sides_same(a: LinkedList, b: LinkedList, tp_hash: H256) -> bool {
    forall|k1: H256| k1 != tp_hash ==> #[trigger] a.sides@.contains_key(k1) == b.sides@.contains_key(k1) && (
    b.sides@.contains_key(k1) ==> a.sides@[k1] == b.sides@[k1])
}

/// The trade pair `tp_hash` records the best price of side `otype` of its
/// book: the highest buy level, or the lowest sell level (`None` where that
/// side is empty).
pub open spec fn best_recorded(m: Module, tp_hash: H256, otype: OrderType) -> bool {
    &&& m.trade_pairs@.contains_key(tp_hash)
    &&& if otype == OrderType::Buy {
        m.trade_pairs@[tp_hash].buy_one_price == best_buy(m.linked_items, tp_hash)
    } else {
        m.trade_pairs@[tp_hash].sell_one_price == best_sell(m.linked_items, tp_hash)
    }
}

/// Adding an order always changes the books.
proof fn lemma_appended_changes(l: LinkedList, key1: H256, key2: Price, value: H256, otype: OrderType)
    ensures
        !l.appended(l, key1, key2, value, otype),
{
    let key = (key1, Some(key2));
    if l.appended(l, key1, key2, value, otype) {
        if l@.contains_key(key) {
            let os = l@[key].orders;
            assert(l@[key] == l@.insert(key, (ItemView { orders: os.push(value), ..l@[key] }))[key]);
            assert(os.len() == os.push(value).len());
        } else if l.built(key1) {
            assert(l.sides@[key1] == l.sides@.insert(key1, l.appended_sides(key1, key2, otype))[key1]);
            lemma_rank_bounds(l.buys(key1), key2);
            lemma_rank_bounds(l.sells(key1), key2);
            if otype == OrderType::Buy {
                assert(l.buys(key1).len() + 1 == l.appended_sides(key1, key2, otype).0.len());
            } else {
                assert(l.sells(key1).len() + 1 == l.appended_sides(key1, key2, otype).1.len());
            }
        } else {
            assert(l.sides@.insert(key1, l.appended_sides(key1, key2, otype)).contains_key(key1));
        }
    }
}

/// `tp_hash`'s book has a level that an order of type `otype` at `price`
/// accepts.
pub open spec fn crosses(l: LinkedList, tp_hash: H256, otype: OrderType, price: Price) -> bool {
    l.built(tp_hash) && !match_stopped(l, tp_hash, otype, price)
}

/// Matching keeps the books uncrossed: it only takes levels off the other
/// side, next to the head.
pub proof fn lemma_uncrossed_matched(before: LinkedList, after: LinkedList, tp_hash: H256, otype: OrderType)
    requires
        before.wf(),
        books_uncrossed(before),
        matched_books(before, after, tp_hash, otype),
    ensures
        books_uncrossed(after),
{
    assert forall|k1: H256| #[trigger] after.built(k1) implies uncrossed(after, k1) by {
        if k1 != tp_hash {
            assert(before.sides@.contains_key(k1));
            assert(before.built(k1));
            assert(after.sides@[k1] == before.sides@[k1]);
        } else if before.built(tp_hash) {
            let b = before.buys(tp_hash);
            let s = before.sells(tp_hash);
            assert(book_shape(before@, tp_hash, b, s));
            assert(uncrossed(before, tp_hash));
            let k = choose|k: int|
                taken_from_head(
                    book_side(before, tp_hash, otype.opposite_spec()),
                    opposite_levels(after, tp_hash, otype),
                    otype,
                    k,
                );
            assert(taken_from_head(
                book_side(before, tp_hash, otype.opposite_spec()),
                opposite_levels(after, tp_hash, otype),
                otype,
                k,
            ));
            let nb = after.buys(tp_hash);
            let ns = after.sells(tp_hash);
            if nb.len() > 0 && ns.len() > 0 {
                if otype == OrderType::Buy {
                    assert(nb == b);
                    assert(ns == s.skip(k));
                    assert(ns[0] == s[k]);
                    if k > 0 {
                        assert(s[0] < s[k]);
                    }
                } else {
                    assert(ns == s);
                    assert(nb == b.take(b.len() - k));
                    assert(nb.last() == b[b.len() - k - 1]);
                    if k > 0 {
                        assert(b[b.len() - k - 1] < b[b.len() - 1]);
                    }
                }
            }
        } else {
            assert(book_side(before, tp_hash, OrderType::Buy).len() == 0);
            assert(book_side(before, tp_hash, OrderType::Sell).len() == 0);
            let k = choose|k: int|
                taken_from_head(
                    book_side(before, tp_hash, otype.opposite_spec()),
                    opposite_levels(after, tp_hash, otype),
                    otype,
                    k,
                );
            assert(taken_from_head(
                book_side(before, tp_hash, otype.opposite_spec()),
                opposite_levels(after, tp_hash, otype),
                otype,
                k,
            ));
            assert(opposite_levels(after, tp_hash, otype).len() == 0);
        }
    }
}

/// Putting an order that matching left over into its own side keeps the
/// books uncrossed.
pub proof fn lemma_uncrossed_appended(
    mid: LinkedList,
    after: LinkedList,
    tp_hash: H256,
    price: Price,
    hash: H256,
    otype: OrderType,
)
    requires
        books_uncrossed(mid),
        mid.built(tp_hash),
        after.appended(mid, tp_hash, price, hash, otype),
        match_stopped(mid, tp_hash, otype, price),
    ensures
        books_uncrossed(after),
{
    assert forall|k1: H256| #[trigger] after.built(k1) implies uncrossed(after, k1) by {
        if mid@.contains_key((tp_hash, Some(price))) {
            assert(mid.built(k1));
        } else if k1 != tp_hash {
            assert(mid.built(k1));
            assert(after.sides@[k1] == mid.sides@[k1]);
        } else {
            let b = mid.buys(tp_hash);
            let s = mid.sells(tp_hash);
            assert(uncrossed(mid, tp_hash));
            if otype == OrderType::Buy {
                let r = rank(b, price);
                lemma_rank_bounds(b, price);
                let nb = b.insert(r as int, price);
                assert(after.buys(tp_hash) == nb);
                assert(after.sells(tp_hash) == s);
                if nb.len() > 0 && s.len() > 0 {
                    if r == b.len() {
                        assert(nb.last() == price);
                    } else {
                        assert(nb.last() == b.last());
                    }
                }
            } else {
                let r = rank(s, price);
                lemma_rank_bounds(s, price);
                let ns = s.insert(r as int, price);
                assert(after.sells(tp_hash) == ns);
                assert(after.buys(tp_hash) == b);
                if b.len() > 0 && ns.len() > 0 {
                    if r == 0 {
                        assert(ns[0] == price);
                    } else {
                        assert(ns[0] == s[0]);
                    }
                }
            }
        }
    }
}

/// Taking an order off the book keeps the books uncrossed.
pub proof fn lemma_uncrossed_taken_off(before: LinkedList, after: LinkedList, tp_hash: H256, price: Price, h: H256)
    requires
        before.wf(),
        books_uncrossed(before),
        after.order_taken_off(before, tp_hash, price, h),
    ensures
        books_uncrossed(after),
{
    assert forall|k1: H256| #[trigger] after.built(k1) implies uncrossed(after, k1) by {
        if !before@.contains_key((tp_hash, Some(price))) {
        } else {
            assert(before.built(tp_hash));
            let it = before@[(tp_hash, Some(price))];
            let kept = without(it.orders, h);
            if kept.len() > 0 || !(PRICE_MIN < price < PRICE_MAX) {
                assert(before.built(k1));
            } else if k1 != tp_hash {
                assert(before.built(k1));
                assert(after.sides@[k1] == before.sides@[k1]);
            } else {
                let b = before.buys(tp_hash);
                let s = before.sells(tp_hash);
                assert(book_shape(before@, tp_hash, b, s));
                assert(uncrossed(before, tp_hash));
                if b.contains(price) {
                    let i = index_in(b, price);
                    let nb = b.remove(i);
                    assert(after.buys(tp_hash) == nb);
                    assert(after.sells(tp_hash) == s);
                    if nb.len() > 0 && s.len() > 0 {
                        if i == b.len() - 1 {
                            assert(nb.last() == b[b.len() - 2]);
                            assert(b[b.len() - 2] < b[b.len() - 1]);
                        } else {
                            assert(nb.last() == b.last());
                        }
                    }
                } else if s.contains(price) {
                    let i = index_in(s, price);
                    let ns = s.remove(i);
                    assert(after.sells(tp_hash) == ns);
                    assert(after.buys(tp_hash) == b);
                    if b.len() > 0 && ns.len() > 0 {
                        if i == 0 {
                            assert(ns[0] == s[1]);
                            assert(s[0] < s[1]);
                        } else {
                            assert(ns[0] == s[0]);
                        }
                    }
                } else {
                    assert(after.sides@[tp_hash] == before.sides@[tp_hash]);
                }
            }
        }
    }
}

impl Module {
    /// Whether `calculate_ex_amount` can compute the amounts that
    /// `maker_order` and `taker_order` exchange in 128-bit arithmetic.
    pub fn ex_amount_in_range(maker_order: &LimitOrder, taker_order: &LimitOrder) -> (r: bool)
        ensures
            r == ex_amount_fits(*maker_order, *taker_order),
            // it refuses only a maker without a price, or amounts whose 128-bit products overflow
            r == (maker_order.price > 0 && !amounts_overflow(*maker_order, *taker_order)),
    {
        if maker_order.price == 0 {
            return false;
        }
        let buyer_order;
        let seller_order;
        if taker_order.otype == OrderType::Buy {
            buyer_order = taker_order;
            seller_order = maker_order;
        } else {
            buyer_order = maker_order;
            seller_order = taker_order;
        }
        if seller_order.remained_buy_amount <= buyer_order.remained_sell_amount {
            seller_order.remained_buy_amount.checked_mul(PRICE_FACTOR).is_some()
        } else if buyer_order.remained_buy_amount <= seller_order.remained_sell_amount {
            buyer_order.remained_buy_amount.checked_mul(maker_order.price).is_some()
        } else {
            true
        }
    }
}

/// The books of other pairs being the same carries over.
proof fn lemma_other_books_trans(a: LinkedList, b: LinkedList, c: LinkedList, tp_hash: H256)
    requires
        other_books_same(a, b, tp_hash),
        other_books_same(b, c, tp_hash),
    ensures
        other_books_same(a, c, tp_hash),
{
    assert forall|k: (H256, Option<Price>)| k.0 != tp_hash implies (#[trigger] a@.contains_key(k)
        == c@.contains_key(k) && (c@.contains_key(k) ==> a@[k] == c@[k])) by {
        assert(b@.contains_key(k) == c@.contains_key(k));
    }
    assert forall|k1: H256| k1 != tp_hash implies #[trigger] a.sides@.contains_key(k1)
        == c.sides@.contains_key(k1) && (c.sides@.contains_key(k1) ==> a.sides@[k1] == c.sides@[k1]) by {
        assert(b.sides@.contains_key(k1) == c.sides@.contains_key(k1));
    }
}

/// The counts of clear levels are at most the numbers of levels.
proof fn lemma_clear_bounds(
    v: Map<(H256, Option<Price>), ItemView>,
    k1: H256,
    b: Seq<Price>,
    s: Seq<Price>,
    orders: Map<H256, LimitOrder>,
)
    ensures
        clear_buys(v, k1, b, orders) <= b.len(),
        clear_sells(v, k1, s, orders) <= s.len(),
    decreases b.len() + s.len(),
{
    if b.len() > 0 {
        lemma_clear_bounds(v, k1, b.drop_last(), s, orders);
    }
    if s.len() > 0 {
        lemma_clear_bounds(v, k1, b, s.drop_first(), orders);
    }
}

/// After a resting order of the level being matched is finished and the
/// finished orders are taken off the book, the level has moved on past that
/// order, or some level of that side is gone.
proof fn lemma_match_progress(
    before: LinkedList,
    after: LinkedList,
    orders: Map<H256, LimitOrder>,
    tp_hash: H256,
    otype: OrderType,
    opp: Seq<Price>,
    item_price: Price,
    snapshot: Seq<H256>,
    j: int,
    idx: int,
    taker_filled: bool,
) -> (res: (int, int))
    requires
        before.wf(),
        before.built(tp_hash),
        opp.len() > 0,
        item_price == innermost(opp, otype),
        (opposite_levels(before, tp_hash, otype) == opp && idx <= j <= snapshot.len()
            && before@[(tp_hash, Some(item_price))].orders == snapshot.skip(j))
            || opposite_levels(before, tp_hash, otype).len() < opp.len(),
        opposite_levels(before, tp_hash, otype).len() <= opp.len(),
        0 <= idx < snapshot.len(),
        !taker_filled ==> order_removable(orders, snapshot[idx]),
        after.items_removed(before, tp_hash, otype.opposite_spec(), orders),
        after.wf(),
        after.built(tp_hash),
    ensures
        !taker_filled ==> (opposite_levels(after, tp_hash, otype) == opp && idx + 1 <= res.0 <= snapshot.len()
            && after@[(tp_hash, Some(item_price))].orders == snapshot.skip(res.0))
            || opposite_levels(after, tp_hash, otype).len() < opp.len(),
        opposite_levels(after, tp_hash, otype).len() <= opp.len(),
        taken_from_head(opposite_levels(before, tp_hash, otype), opposite_levels(after, tp_hash, otype), otype, res.1),
        own_levels(after, tp_hash, otype) == own_levels(before, tp_hash, otype),
        other_books_same(after, before, tp_hash),
{
    let v0 = before@;
    let key = (tp_hash, Some(item_price));
    let cb = before.buys(tp_hash);
    let cs = before.sells(tp_hash);
    assert(started(before@, tp_hash, true) == before@);
    lemma_clear_bounds(v0, tp_hash, cb, cs, orders);
    if otype == OrderType::Buy {
        let r = clear_sells(v0, tp_hash, cs, orders);
        assert(after.sells(tp_hash) == cs.skip(r as int));
        if !taker_filled && opposite_levels(before, tp_hash, otype) == opp && idx <= j <= snapshot.len()
            && v0[key].orders == snapshot.skip(j) {
            assert(cs[0] == item_price);
            let os = v0[key].orders;
            lemma_removable_prefix_bound(os, orders);
            if r == 0 {
                assert(!level_clear(v0, tp_hash, cs[0], orders));
                assert(blocking_level(v0, tp_hash, cb, cs, OrderType::Sell, orders) == Some(item_price));
                assert(cs.skip(0) =~= cs);
                let c = chain(after.buys(tp_hash), after.sells(tp_hash));
                lemma_chain_distinct(after.buys(tp_hash), after.sells(tp_hash));
                assert(node_linked(after@, tp_hash, c, after.buys(tp_hash).len() as int + 2));
                assert(after@.contains_key(key));
                let m = removable_prefix(os, orders);
                if j == idx {
                    assert(os[0] == snapshot[idx]);
                    assert(m >= 1);
                }
                assert(os.skip(m as int) =~= snapshot.skip(j + m));
                (j + m, 0)
            } else {
                (j, r as int)
            }
        } else {
            (j, r as int)
        }
    } else {
        let r = clear_buys(v0, tp_hash, cb, orders);
        assert(after.buys(tp_hash) == cb.take(cb.len() - r));
        if !taker_filled && opposite_levels(before, tp_hash, otype) == opp && idx <= j <= snapshot.len()
            && v0[key].orders == snapshot.skip(j) {
            assert(cb.last() == item_price);
            let os = v0[key].orders;
            lemma_removable_prefix_bound(os, orders);
            if r == 0 {
                assert(!level_clear(v0, tp_hash, cb.last(), orders));
                assert(blocking_level(v0, tp_hash, cb, cs, OrderType::Buy, orders) == Some(item_price));
                assert(cb.take(cb.len() as int) =~= cb);
                let c = chain(after.buys(tp_hash), after.sells(tp_hash));
                lemma_chain_distinct(after.buys(tp_hash), after.sells(tp_hash));
                assert(node_linked(after@, tp_hash, c, after.buys(tp_hash).len() as int));
                assert(after@.contains_key(key));
                let m = removable_prefix(os, orders);
                if j == idx {
                    assert(os[0] == snapshot[idx]);
                    assert(m >= 1);
                }
                assert(os.skip(m as int) =~= snapshot.skip(j + m));
                (j + m, 0)
            } else {
                (j, r as int)
            }
        } else {
            (j, r as int)
        }
    }
}

/// The books as a match leaves them: the order's own side as it was, `gone`
/// levels next to the head taken off the other side, the other books as they
/// were.
proof fn lemma_books_matched(
    before: LinkedList,
    after: LinkedList,
    tp_hash: H256,
    otype: OrderType,
    b0: Seq<Price>,
    s0: Seq<Price>,
    gone: int,
)
    requires
        after.wf(),
        after.built(tp_hash),
        levels_of(before, tp_hash) == (b0, s0),
        own_levels(after, tp_hash, otype) == (if otype == OrderType::Buy { b0 } else { s0 }),
        taken_from_head(
            if otype == OrderType::Buy { s0 } else { b0 },
            opposite_levels(after, tp_hash, otype),
            otype,
            gone,
        ),
        other_books_same(after, before, tp_hash),
    ensures
        matched_books(before, after, tp_hash, otype),
{
    assert(book_side(before, tp_hash, otype) == if otype == OrderType::Buy { b0 } else { s0 });
    assert(book_side(before, tp_hash, otype.opposite_spec()) == if otype == OrderType::Buy { s0 } else { b0 });
    assert(taken_from_head(
        book_side(before, tp_hash, otype.opposite_spec()),
        opposite_levels(after, tp_hash, otype),
        otype,
        gone,
    ));
}

/// `t` records the match of the taker `order` with the resting order `o`:
/// made at `o`'s price, by their owners, for the amounts that they exchange.
pub open spec fn trade_of_match(t: Trade, o: LimitOrder, order: LimitOrder) -> bool {
    &&& t.price == o.price
    &&& t.maker == o.owner
    &&& t.taker == order.owner
    &&& ex_amount(o, order) == Some((t.base_amount as nat, t.quote_amount as nat))
}

/// The amounts that the taker `order` gives and gets in a match with the
/// resting order `o`, at `o`'s price.
pub open spec fn exchanged(o: LimitOrder, order: LimitOrder) -> (u128, u128) {
    match ex_amount(o, order) {
        Some((base, quote)) => if order.otype == OrderType::Buy {
            (base as u128, quote as u128)
        } else {
            (quote as u128, base as u128)
        },
        None => (0, 0),
    }
}

/// What is left of `order` once it gave `give_qty` and got `have_qty`: a
/// filled order has nothing left to sell (it is given back), one that is
/// matched for the first time is partly filled.
pub open spec fn after_exchange(order: LimitOrder, give_qty: u128, have_qty: u128) -> LimitOrder {
    let rb = (order.remained_buy_amount - have_qty) as u128;
    LimitOrder {
        remained_sell_amount: if rb == 0 {
            0
        } else {
            (order.remained_sell_amount - give_qty) as u128
        },
        remained_buy_amount: rb,
        status: if rb == 0 {
            OrderStatus::Filled
        } else if order.remained_sell_amount == order.sell_amount {
            OrderStatus::PartialFilled
        } else {
            order.status
        },
        ..order
    }
}

/// Why the exchange of a match fails, if it does: `a`'s `gq` of token
/// `give` and `b`'s `hq` of token `have` are unfrozen, then each is given to
/// the other.
pub open spec fn settle_error(
    l0: Ledger,
    a: AccountId,
    give: H256,
    b: AccountId,
    have: H256,
    gq: u128,
    hq: u128,
) -> Option<&'static str> {
    let l1 = l0.unfrozen(a, give, gq);
    let l2 = l1.unfrozen(b, have, hq);
    let l3 = l2.transferred(a, give, b, gq);
    if l0.unfreeze_error(a, give, gq) is Some {
        l0.unfreeze_error(a, give, gq)
    } else if l1.unfreeze_error(b, have, hq) is Some {
        l1.unfreeze_error(b, have, hq)
    } else if l2.transfer_error(a, give, b, gq) is Some {
        l2.transfer_error(a, give, b, gq)
    } else {
        l3.transfer_error(b, have, a, hq)
    }
}

/// The token reports of that exchange: the two unfreezes, then the two
/// transfers.
pub open spec fn settle_events(a: AccountId, give: H256, b: AccountId, have: H256, gq: u128, hq: u128) -> Seq<TokenEvent> {
    seq![
        TokenEvent::UnFreezed(a, give, gq),
        TokenEvent::UnFreezed(b, have, hq),
        TokenEvent::TokenTransfered(a, b, give, gq),
        TokenEvent::TokenTransfered(b, a, have, hq),
    ]
}

/// The token reports of the unfreeze of `amount` of `owner`'s token `token`
/// that a filled order gets back, if there is any to give back.
pub open spec fn given_back_events(owner: AccountId, token: H256, amount: u128) -> Seq<TokenEvent> {
    if amount != 0 {
        seq![TokenEvent::UnFreezed(owner, token, amount)]
    } else {
        Seq::empty()
    }
}

/// The token reports of the exchange of a match of the taker `order`
/// (selling token `give`) with the resting order `o` (selling token
/// `have`): those of the exchange, then those of what each order, if filled,
/// gets back.
pub open spec fn exchange_events(give: H256, have: H256, order: LimitOrder, o: LimitOrder) -> Seq<TokenEvent> {
    let gq = exchanged(o, order).0;
    let hq = exchanged(o, order).1;
    let ts = (order.remained_sell_amount - gq) as u128;
    let us = (o.remained_sell_amount - hq) as u128;
    settle_events(order.owner, give, o.owner, have, gq, hq) + (if order.remained_buy_amount == hq {
        given_back_events(order.owner, give, ts)
    } else {
        Seq::empty()
    }) + (if o.remained_buy_amount == gq {
        given_back_events(o.owner, have, us)
    } else {
        Seq::empty()
    })
}

/// The trade that the match of the taker `order` with the resting order `o`
/// records on the pair of `base` against `quote`, made with `nonce`: at
/// `o`'s price, for the amounts that they exchange, its hash made of the
/// block, the nonce and both orders as the match left them.
pub open spec fn match_trade(ctx: ChainContext, nonce: u64, base: H256, quote: H256, order: LimitOrder, o: LimitOrder) -> Trade {
    let gq = exchanged(o, order).0;
    let hq = exchanged(o, order).1;
    let amounts = match ex_amount(o, order) {
        Some((b, q)) => (b as u128, q as u128),
        None => (0u128, 0u128),
    };
    Trade {
        hash: blake2_256(trade_hash_input(ctx, nonce, after_exchange(o, hq, gq), after_exchange(order, gq, hq))),
        base,
        quote,
        buyer: if order.otype == OrderType::Buy {
            order.owner
        } else {
            o.owner
        },
        seller: if order.otype == OrderType::Buy {
            o.owner
        } else {
            order.owner
        },
        maker: o.owner,
        taker: order.owner,
        otype: order.otype,
        price: o.price,
        base_amount: amounts.0,
        quote_amount: amounts.1,
    }
}

/// `ord` closed if it has nothing left to buy: filled, with nothing left to
/// sell.
pub open spec fn closed(ord: LimitOrder) -> LimitOrder {
    if ord.remained_buy_amount == 0 {
        LimitOrder { status: OrderStatus::Filled, remained_sell_amount: 0, ..ord }
    } else {
        ord
    }
}

/// The amounts once that exchange is done.
pub open spec fn settle_ledger(
    l0: Ledger,
    a: AccountId,
    give: H256,
    b: AccountId,
    have: H256,
    gq: u128,
    hq: u128,
) -> Ledger {
    l0.unfrozen(a, give, gq).unfrozen(b, have, hq).transferred(a, give, b, gq).transferred(b, have, a, hq)
}

/// The amounts once a match of the taker `order` (selling token `give`) with
/// the resting order `o` (selling token `have`) settled on `l0`: the
/// exchange, then what a filled order has left to sell unfrozen.
pub open spec fn settled(l0: Ledger, give: H256, have: H256, order: LimitOrder, o: LimitOrder) -> Ledger {
    let gq = exchanged(o, order).0;
    let hq = exchanged(o, order).1;
    let ts = (order.remained_sell_amount - gq) as u128;
    let us = (o.remained_sell_amount - hq) as u128;
    let l4 = settle_ledger(l0, order.owner, give, o.owner, have, gq, hq);
    let l5 = if order.remained_buy_amount == hq && ts != 0 {
        l4.unfrozen(order.owner, give, ts)
    } else {
        l4
    };
    if o.remained_buy_amount == gq && us != 0 {
        l5.unfrozen(o.owner, have, us)
    } else {
        l5
    }
}

/// Why the exchange of a match of the taker `order` with the resting order
/// `o` fails, if it does, on the amounts `l0`: the amounts must be computable
/// and settle, and what a filled order has left to sell must unfreeze.
pub open spec fn exchange_error(l0: Ledger, give: H256, have: H256, order: LimitOrder, o: LimitOrder) -> Option<
    &'static str,
> {
    let gq = exchanged(o, order).0;
    let hq = exchanged(o, order).1;
    let ts = (order.remained_sell_amount - gq) as u128;
    let us = (o.remained_sell_amount - hq) as u128;
    let l4 = settle_ledger(l0, order.owner, give, o.owner, have, gq, hq);
    let t_given_back = order.remained_buy_amount == hq && ts != 0;
    let l5 = if t_given_back {
        l4.unfrozen(order.owner, give, ts)
    } else {
        l4
    };
    if !ex_amount_fits(o, order) {
        Some("exchange amount overflow")
    } else if ex_amount(o, order) is None {
        Some("should never executed here")
    } else if settle_error(l0, order.owner, give, o.owner, have, gq, hq) is Some {
        settle_error(l0, order.owner, give, o.owner, have, gq, hq)
    } else if order.remained_sell_amount < gq || order.remained_buy_amount < hq || o.remained_sell_amount < hq
        || o.remained_buy_amount < gq {
        Some("substract error")
    } else if t_given_back && l4.unfreeze_error(order.owner, give, ts) is Some {
        l4.unfreeze_error(order.owner, give, ts)
    } else if o.remained_buy_amount == gq && us != 0 && l5.unfreeze_error(o.owner, have, us) is Some {
        l5.unfreeze_error(o.owner, have, us)
    } else {
        None
    }
}

/// Why a match of the taker `order` with the resting order `o_hash` fails,
/// if it does, on the stored orders `orders`, the hashes of the trade pairs
/// `pairs` and the amounts `l0`.
pub open spec fn match_error(
    orders: Map<H256, LimitOrder>,
    pairs: Set<H256>,
    l0: Ledger,
    tp_hash: H256,
    give: H256,
    have: H256,
    order: LimitOrder,
    o_hash: H256,
) -> Option<&'static str> {
    if !orders.contains_key(o_hash) {
        Some("can not get order")
    } else if exchange_error(l0, give, have, order, orders[o_hash]) is Some {
        exchange_error(l0, give, have, order, orders[o_hash])
    } else if !pairs.contains(tp_hash) {
        Some("can not get trade pair")
    } else {
        None
    }
}

/// The pair `tp` recording, for the side of orders of type `otype`, the
/// best price of that side of `tp_hash`'s book in `l`.
pub open spec fn with_side_best(tp: TradePair, otype: OrderType, l: LinkedList, tp_hash: H256) -> TradePair {
    if otype == OrderType::Buy {
        TradePair { buy_one_price: best_buy(l, tp_hash), ..tp }
    } else {
        TradePair { sell_one_price: best_sell(l, tp_hash), ..tp }
    }
}

/// The price that the pair `tp` records for the side of orders of type
/// `otype`: its best buy price for buys, its best sell price for sells.
pub open spec fn side_price(tp: TradePair, otype: OrderType) -> Option<Price> {
    if otype == OrderType::Buy {
        tp.buy_one_price
    } else {
        tp.sell_one_price
    }
}

/// Among the pairs, only that of `tp_hash` may differ from `before` to
/// `after`, and it keeps its hash, its tokens and the price it records for
/// the side `otype`.
pub open spec fn pairs_kept_but(
    before: Map<H256, TradePair>,
    after: Map<H256, TradePair>,
    tp_hash: H256,
    otype: OrderType,
) -> bool {
    &&& after.dom() == before.dom()
    &&& forall|k: H256| #[trigger] after.contains_key(k) && k != tp_hash ==> after[k] == before[k]
    &&& before.contains_key(tp_hash) ==> {
        &&& after[tp_hash].hash == before[tp_hash].hash
        &&& after[tp_hash].base == before[tp_hash].base
        &&& after[tp_hash].quote == before[tp_hash].quote
        &&& side_price(after[tp_hash], otype) == side_price(before[tp_hash], otype)
    }
}

/// Keeping the other pairs carries over.
proof fn lemma_pairs_kept_trans(
    a: Map<H256, TradePair>,
    b: Map<H256, TradePair>,
    c: Map<H256, TradePair>,
    tp_hash: H256,
    otype: OrderType,
)
    requires
        pairs_kept_but(a, b, tp_hash, otype),
        pairs_kept_but(b, c, tp_hash, otype),
    ensures
        pairs_kept_but(a, c, tp_hash, otype),
{
    assert forall|k: H256| #[trigger] c.contains_key(k) && k != tp_hash implies c[k] == a[k] by {
        assert(b.contains_key(k));
    }
}

/// One match made while a taker order runs through the other side of a
/// book: the price of the level reached, the resting orders of that level as
/// they stood when it was reached, which of them is matched, and the books,
/// the amounts, the stored orders and the taker that the match starts from.
#[verifier::ext_equal]
pub struct MatchStep {
    pub level: Price,
    pub queue: Seq<H256>,
    pub pos: int,
    pub book: LinkedList,
    pub ledger: Ledger,
    pub orders: Map<H256, LimitOrder>,
    pub taker: LimitOrder,
    pub nonce: u64,
    pub trades: Map<H256, Trade>,
    pub lists: TradeLists,
    pub token_events: Seq<TokenEvent>,
}

impl MatchStep {
    /// The hash of the resting order matched.
    pub open spec fn maker_hash(self) -> H256 {
        self.queue[self.pos]
    }

    /// The resting order matched, as stored when the match starts.
    pub open spec fn maker(self) -> LimitOrder {
        self.orders[self.maker_hash()]
    }

    /// Why the match fails, if it does (`pairs`: the hashes of the pairs).
    pub open spec fn error(self, pairs: Set<H256>, tp_hash: H256, give: H256, have: H256) -> Option<&'static str> {
        match_error(self.orders, pairs, self.ledger, tp_hash, give, have, self.taker, self.maker_hash())
    }

    /// The taker once the match is done.
    pub open spec fn taker_after(self) -> LimitOrder {
        after_exchange(self.taker, exchanged(self.maker(), self.taker).0, exchanged(self.maker(), self.taker).1)
    }

    /// The resting order once the match is done.
    pub open spec fn maker_after(self) -> LimitOrder {
        after_exchange(self.maker(), exchanged(self.maker(), self.taker).1, exchanged(self.maker(), self.taker).0)
    }

    /// The stored orders once the match is done.
    pub open spec fn orders_after(self) -> Map<H256, LimitOrder> {
        self.orders.insert(self.taker.hash, self.taker_after()).insert(self.maker_hash(), self.maker_after())
    }

    /// The trade that the match records on the pair of `base` against
    /// `quote`.
    pub open spec fn trade(self, ctx: ChainContext, base: H256, quote: H256) -> Trade {
        match_trade(ctx, self.nonce, base, quote, self.taker, self.maker())
    }

    /// The trades once the match is done.
    pub open spec fn trades_after(self, ctx: ChainContext, base: H256, quote: H256) -> Map<H256, Trade> {
        self.trades.insert(self.trade(ctx, base, quote).hash, self.trade(ctx, base, quote))
    }

    /// The lists of trades once the match is done.
    pub open spec fn lists_after(self, ctx: ChainContext, base: H256, quote: H256, tp_hash: H256) -> TradeLists {
        self.lists.listed(self.trade(ctx, base, quote).hash, self.taker, self.maker(), tp_hash)
    }

    /// The token reports once the match is done.
    pub open spec fn token_events_after(self, give: H256, have: H256) -> Seq<TokenEvent> {
        self.token_events + exchange_events(give, have, self.taker, self.maker())
    }

    /// The amounts once the match is done, the taker selling token `give`
    /// and the resting order token `have`.
    pub open spec fn ledger_after(self, give: H256, have: H256) -> Ledger {
        settled(self.ledger, give, have, self.taker, self.maker())
    }

    /// The match is the first of a level: that of the first resting order of
    /// the innermost level of the other side of `tp_hash`'s book, whose price
    /// the taker accepts.
    pub open spec fn opens_level(self, tp_hash: H256, otype: OrderType) -> bool {
        let opp = opposite_levels(self.book, tp_hash, otype);
        &&& self.pos == 0
        &&& opp.len() > 0
        &&& self.level == innermost(opp, otype)
        &&& self.queue == self.book@[(tp_hash, Some(self.level))].orders
        &&& price_accepts(self.taker.price, otype, self.level)
    }

    /// `next` is the match that comes right after this one: this one
    /// succeeded and left the taker unfilled, `next` starts from what it
    /// left, and it is the next resting order of the same level or, once the
    /// level's orders are all matched, the first of the next level.
    pub open spec fn followed_by(
        self,
        next: MatchStep,
        tp_hash: H256,
        otype: OrderType,
        give: H256,
        have: H256,
        pairs: Set<H256>,
    ) -> bool {
        &&& self.error(pairs, tp_hash, give, have) is None
        &&& self.taker_after().status != OrderStatus::Filled
        &&& next.ledger == self.ledger_after(give, have)
        &&& next.orders == self.orders_after()
        &&& next.taker == self.taker_after()
        &&& next.nonce == self.nonce.wrapping_add(1)
        &&& next.book.items_removed(self.book, tp_hash, otype.opposite_spec(), next.orders)
        &&& if self.pos + 1 < self.queue.len() {
            &&& next.level == self.level
            &&& next.queue == self.queue
            &&& next.pos == self.pos + 1
        } else {
            next.opens_level(tp_hash, otype)
        }
    }
}

/// The match at `i` in `steps` is followed by the one at `i + 1`.
pub open spec fn step_followed(
    steps: Seq<MatchStep>,
    i: int,
    tp_hash: H256,
    otype: OrderType,
    give: H256,
    have: H256,
    pairs: Set<H256>,
) -> bool {
    steps[i].followed_by(steps[i + 1], tp_hash, otype, give, have, pairs)
}

/// `steps` are the matches that a taker order `taker` of type `otype` makes
/// one after the other against `tp_hash`'s book, starting from the books
/// `book`, the amounts `ledger` and the stored orders `orders`.
pub open spec fn match_trace(
    steps: Seq<MatchStep>,
    tp_hash: H256,
    otype: OrderType,
    give: H256,
    have: H256,
    pairs: Set<H256>,
    book: LinkedList,
    ledger: Ledger,
    orders: Map<H256, LimitOrder>,
    taker: LimitOrder,
    nonce: u64,
) -> bool {
    &&& steps.len() > 0 ==> {
        &&& steps[0].nonce == nonce
        &&& steps[0].book == book
        &&& steps[0].ledger == ledger
        &&& steps[0].orders == orders
        &&& steps[0].taker == taker
        &&& steps[0].opens_level(tp_hash, otype)
    }
    &&& forall|i: int| 0 <= i < steps.len() - 1 ==> #[trigger] step_followed(steps, i, tp_hash, otype, give, have, pairs)
}

/// The match at `i` in `steps` records its trade and its token reports, and
/// the one at `i + 1` starts from them.
pub open spec fn records_followed(
    steps: Seq<MatchStep>,
    i: int,
    ctx: ChainContext,
    tp_hash: H256,
    base: H256,
    quote: H256,
    give: H256,
    have: H256,
) -> bool {
    &&& steps[i + 1].trades == steps[i].trades_after(ctx, base, quote)
    &&& steps[i + 1].lists == steps[i].lists_after(ctx, base, quote, tp_hash)
    &&& steps[i + 1].token_events == steps[i].token_events_after(give, have)
}

/// The matches `steps` start from the trades `trades`, the lists of trades
/// `lists` and the token reports `events`, and each records its trade, lists
/// it and reports its token moves before the next.
pub open spec fn trace_records(
    steps: Seq<MatchStep>,
    ctx: ChainContext,
    tp_hash: H256,
    base: H256,
    quote: H256,
    give: H256,
    have: H256,
    trades: Map<H256, Trade>,
    lists: TradeLists,
    events: Seq<TokenEvent>,
) -> bool {
    &&& steps.len() > 0 ==> {
        &&& steps[0].trades == trades
        &&& steps[0].lists == lists
        &&& steps[0].token_events == events
    }
    &&& forall|i: int| 0 <= i < steps.len() - 1 ==> #[trigger] records_followed(steps, i, ctx, tp_hash, base, quote, give, have)
}

/// The trades once the matches `steps` are done.
pub open spec fn traced_trades(steps: Seq<MatchStep>, ctx: ChainContext, base: H256, quote: H256, trades: Map<H256, Trade>) -> Map<
    H256,
    Trade,
> {
    if steps.len() == 0 {
        trades
    } else {
        steps.last().trades_after(ctx, base, quote)
    }
}

/// The lists of trades once the matches `steps` are done.
pub open spec fn traced_lists(
    steps: Seq<MatchStep>,
    ctx: ChainContext,
    base: H256,
    quote: H256,
    tp_hash: H256,
    lists: TradeLists,
) -> TradeLists {
    if steps.len() == 0 {
        lists
    } else {
        steps.last().lists_after(ctx, base, quote, tp_hash)
    }
}

/// The token reports once the matches `steps` are done.
pub open spec fn traced_token_events(steps: Seq<MatchStep>, give: H256, have: H256, events: Seq<TokenEvent>) -> Seq<
    TokenEvent,
> {
    if steps.len() == 0 {
        events
    } else {
        steps.last().token_events_after(give, have)
    }
}

/// The trades, lists of trades, token reports and latest matched price
/// `latest` are what the last of the matches `steps` left.
pub open spec fn records_done(
    steps: Seq<MatchStep>,
    trades: Map<H256, Trade>,
    lists: TradeLists,
    events: Seq<TokenEvent>,
    latest: Option<Price>,
    ctx: ChainContext,
    tp_hash: H256,
    base: H256,
    quote: H256,
    give: H256,
    have: H256,
) -> bool {
    steps.len() > 0 ==> {
        &&& trades == steps.last().trades_after(ctx, base, quote)
        &&& lists == steps.last().lists_after(ctx, base, quote, tp_hash)
        &&& events == steps.last().token_events_after(give, have)
        &&& latest == Some(steps.last().maker().price)
    }
}

/// The amounts once the matches `steps` are done (`ledger` if there is none).
pub open spec fn traced_ledger(steps: Seq<MatchStep>, give: H256, have: H256, ledger: Ledger) -> Ledger {
    if steps.len() == 0 {
        ledger
    } else {
        steps.last().ledger_after(give, have)
    }
}

/// The stored orders once the matches `steps` are done.
pub open spec fn traced_orders(steps: Seq<MatchStep>, orders: Map<H256, LimitOrder>) -> Map<H256, LimitOrder> {
    if steps.len() == 0 {
        orders
    } else {
        steps.last().orders_after()
    }
}

/// The nonce once the matches `steps` are done: each moves it on by one.
pub open spec fn traced_nonce(steps: Seq<MatchStep>, nonce: u64) -> u64 {
    if steps.len() == 0 {
        nonce
    } else {
        steps.last().nonce.wrapping_add(1)
    }
}

/// The taker once the matches `steps` are done.
pub open spec fn traced_taker(steps: Seq<MatchStep>, taker: LimitOrder) -> LimitOrder {
    if steps.len() == 0 {
        taker
    } else {
        steps.last().taker_after()
    }
}

/// What matching answers once it made the matches `steps`: a missing pair is
/// refused, a failed match gives its error, else whether the taker got
/// filled.
pub open spec fn match_result(
    steps: Seq<MatchStep>,
    pairs: Set<H256>,
    tp_hash: H256,
    give: H256,
    have: H256,
    taker: LimitOrder,
) -> Result<bool, &'static str> {
    if !pairs.contains(tp_hash) {
        Err("can not get trade pair")
    } else if steps.len() > 0 && steps.last().error(pairs, tp_hash, give, have) is Some {
        Err(steps.last().error(pairs, tp_hash, give, have)->0)
    } else {
        Ok(traced_taker(steps, taker).status == OrderStatus::Filled)
    }
}

/// The matches `steps` are those that matching the taker `order` against
/// `tp_hash`'s book makes, from the pairs `pairs`, the books `book`, the
/// token module `tokens0`, the stored orders `orders0`, the trades
/// `trades0`, the lists of trades `lists0` and the nonce `nonce0`, and it
/// ends with the token module `tokens1`, the pairs `pairs1`, the stored
/// orders `orders1`, the trades `trades1`, the lists `lists1` and the nonce
/// `nonce1`: the matches are those that the book gives, one after the other,
/// each recording its trade; the token module keeps all but its amounts and
/// reports; where matching succeeded (`ok`), the amounts, the stored orders,
/// the nonce, the trades, the lists of trades and the token reports are what
/// the matches left, the pair records the last match's price, and the last
/// level reached had all its orders matched unless the taker got filled;
/// every trade made records one of the matches.
pub open spec fn matched_by(
    steps: Seq<MatchStep>,
    pairs: Map<H256, TradePair>,
    book: LinkedList,
    tokens0: TokenModule,
    orders0: Map<H256, LimitOrder>,
    trades0: Map<H256, Trade>,
    lists0: TradeLists,
    nonce0: u64,
    tokens1: TokenModule,
    pairs1: Map<H256, TradePair>,
    orders1: Map<H256, LimitOrder>,
    trades1: Map<H256, Trade>,
    lists1: TradeLists,
    nonce1: u64,
    tp_hash: H256,
    order: LimitOrder,
    ctx: ChainContext,
    ok: bool,
) -> bool {
    let base = pairs[tp_hash].base;
    let quote = pairs[tp_hash].quote;
    let give = sold_token(base, quote, order.otype);
    let have = sold_token(base, quote, order.otype.opposite_spec());
    &&& match_trace(steps, tp_hash, order.otype, give, have, pairs.dom(), book, tokens0.ledger(), orders0, order, nonce0)
    &&& trace_records(steps, ctx, tp_hash, base, quote, give, have, trades0, lists0, tokens0.events@)
    &&& tokens1.same_but_amounts(tokens0)
    &&& ok ==> {
        &&& tokens1.ledger() == traced_ledger(steps, give, have, tokens0.ledger())
        &&& orders1 == traced_orders(steps, orders0)
        &&& nonce1 == traced_nonce(steps, nonce0)
        &&& trades1 == traced_trades(steps, ctx, base, quote, trades0)
        &&& lists1 == traced_lists(steps, ctx, base, quote, tp_hash, lists0)
        &&& tokens1.events@ == traced_token_events(steps, give, have, tokens0.events@)
        &&& steps.len() > 0 ==> pairs1[tp_hash].latest_matched_price == Some(steps.last().maker().price)
    }
    &&& ok && steps.len() > 0 && traced_taker(steps, order).status != OrderStatus::Filled ==> steps.last().pos + 1
        == steps.last().queue.len()
    &&& trades_traced(trades0, trades1, steps)
}

/// What matching the taker `order` against `tp_hash`'s book answers once it
/// made the matches `steps` (the pairs being `pairs`).
pub open spec fn match_answer(steps: Seq<MatchStep>, pairs: Map<H256, TradePair>, tp_hash: H256, order: LimitOrder) -> Result<
    bool,
    &'static str,
> {
    match_result(
        steps,
        pairs.dom(),
        tp_hash,
        sold_token(pairs[tp_hash].base, pairs[tp_hash].quote, order.otype),
        sold_token(pairs[tp_hash].base, pairs[tp_hash].quote, order.otype.opposite_spec()),
        order,
    )
}

/// The state `l`, `ledger`, `orders`, `taker` is what the last of the
/// matches `steps` left, and that match succeeded.
pub open spec fn steps_done(
    steps: Seq<MatchStep>,
    l: LinkedList,
    ledger: Ledger,
    orders: Map<H256, LimitOrder>,
    taker: LimitOrder,
    nonce: u64,
    tp_hash: H256,
    otype: OrderType,
    give: H256,
    have: H256,
    pairs: Set<H256>,
) -> bool {
    steps.len() > 0 ==> {
        let s = steps.last();
        &&& nonce == s.nonce.wrapping_add(1)
        &&& s.error(pairs, tp_hash, give, have) is None
        &&& ledger == s.ledger_after(give, have)
        &&& orders == s.orders_after()
        &&& taker == s.taker_after()
        &&& l.items_removed(s.book, tp_hash, otype.opposite_spec(), orders)
    }
}

/// Every trade of `after` that `before` does not hold as it is records one
/// of the matches `steps`.
pub open spec fn trades_traced(before: Map<H256, Trade>, after: Map<H256, Trade>, steps: Seq<MatchStep>) -> bool {
    forall|h: H256| #[trigger] after.contains_key(h) && !(before.contains_key(h) && after[h] == before[h])
        ==> exists|i: int| 0 <= i < steps.len() && trade_of_match(after[h], #[trigger] steps[i].maker(), steps[i].taker)
}

/// A match made where the last one left off, at the next resting order of
/// the level being matched or at the first of a new level, extends the
/// matches made.
proof fn lemma_trace_extended(
    steps: Seq<MatchStep>,
    step: MatchStep,
    tp_hash: H256,
    otype: OrderType,
    give: H256,
    have: H256,
    pairs: Set<H256>,
    book: LinkedList,
    ledger: Ledger,
    orders: Map<H256, LimitOrder>,
    taker: LimitOrder,
    nonce: u64,
    l0: LinkedList,
    l_iter: LinkedList,
)
    requires
        match_trace(steps, tp_hash, otype, give, have, pairs, book, ledger, orders, taker, nonce),
        steps.len() == 0 ==> step.book == l0 && step.taker == taker && step.orders == orders && step.ledger
            == ledger && step.nonce == nonce,
        book.built(tp_hash) ==> l0 == book,
        !book.built(tp_hash) ==> opposite_levels(l0, tp_hash, otype).len() == 0,
        steps_done(steps, step.book, step.ledger, step.orders, step.taker, step.nonce, tp_hash, otype, give, have, pairs),
        step.taker.status != OrderStatus::Filled,
        price_accepts(step.taker.price, otype, step.level),
        0 <= step.pos < step.queue.len(),
        opposite_levels(l_iter, tp_hash, otype).len() > 0,
        step.level == innermost(opposite_levels(l_iter, tp_hash, otype), otype),
        step.queue == l_iter@[(tp_hash, Some(step.level))].orders,
        step.pos == 0 ==> step.book == l_iter,
        step.pos == 0 && steps.len() > 0 ==> steps.last().pos + 1 == steps.last().queue.len(),
        step.pos > 0 ==> steps.len() > 0 && steps.last().level == step.level && steps.last().queue == step.queue
            && steps.last().pos == step.pos - 1,
    ensures
        match_trace(steps.push(step), tp_hash, otype, give, have, pairs, book, ledger, orders, taker, nonce),
{
    let ns = steps.push(step);
    if steps.len() == 0 {
        assert(step.pos == 0);
        assert(book.built(tp_hash));
        assert(ns[0] == step);
    } else {
        assert(ns[0] == steps[0]);
        let k = steps.len() - 1;
        assert(ns[k] == steps.last());
        assert(ns[k + 1] == step);
        assert(step_followed(ns, k, tp_hash, otype, give, have, pairs));
    }
    assert forall|i: int| 0 <= i < ns.len() - 1 implies #[trigger] step_followed(
        ns,
        i,
        tp_hash,
        otype,
        give,
        have,
        pairs,
    ) by {
        if i < steps.len() - 1 {
            assert(step_followed(steps, i, tp_hash, otype, give, have, pairs));
            assert(ns[i] == steps[i] && ns[i + 1] == steps[i + 1]);
        }
    }
}

/// A match that starts from what the last one recorded extends the records
/// of the matches made.
proof fn lemma_records_extended(
    steps: Seq<MatchStep>,
    step: MatchStep,
    ctx: ChainContext,
    tp_hash: H256,
    base: H256,
    quote: H256,
    give: H256,
    have: H256,
    trades: Map<H256, Trade>,
    lists: TradeLists,
    events: Seq<TokenEvent>,
)
    requires
        trace_records(steps, ctx, tp_hash, base, quote, give, have, trades, lists, events),
        steps.len() == 0 ==> step.trades == trades && step.lists == lists && step.token_events == events,
        steps.len() > 0 ==> {
            &&& step.trades == steps.last().trades_after(ctx, base, quote)
            &&& step.lists == steps.last().lists_after(ctx, base, quote, tp_hash)
            &&& step.token_events == steps.last().token_events_after(give, have)
        },
    ensures
        trace_records(steps.push(step), ctx, tp_hash, base, quote, give, have, trades, lists, events),
{
    let ns = steps.push(step);
    if steps.len() == 0 {
        assert(ns[0] == step);
    } else {
        assert(ns[0] == steps[0]);
        let k = steps.len() - 1;
        assert(ns[k] == steps.last());
        assert(ns[k + 1] == step);
        assert(records_followed(ns, k, ctx, tp_hash, base, quote, give, have));
    }
    assert forall|i: int| 0 <= i < ns.len() - 1 implies #[trigger] records_followed(
        ns,
        i,
        ctx,
        tp_hash,
        base,
        quote,
        give,
        have,
    ) by {
        if i < steps.len() - 1 {
            assert(records_followed(steps, i, ctx, tp_hash, base, quote, give, have));
            assert(ns[i] == steps[i] && ns[i + 1] == steps[i + 1]);
        }
    }
}

/// The records that a match leaves, its last.
proof fn lemma_step_recorded(
    steps: Seq<MatchStep>,
    step: MatchStep,
    trades: Map<H256, Trade>,
    lists: TradeLists,
    events: Seq<TokenEvent>,
    latest: Option<Price>,
    ctx: ChainContext,
    tp_hash: H256,
    base: H256,
    quote: H256,
    give: H256,
    have: H256,
)
    requires
        steps.len() > 0,
        steps.last() == step,
        trades == step.trades.insert(
            match_trade(ctx, step.nonce, base, quote, step.taker, step.maker()).hash,
            match_trade(ctx, step.nonce, base, quote, step.taker, step.maker()),
        ),
        lists == step.lists.listed(
            match_trade(ctx, step.nonce, base, quote, step.taker, step.maker()).hash,
            step.taker,
            step.maker(),
            tp_hash,
        ),
        events == step.token_events + exchange_events(give, have, step.taker, step.maker()),
        latest == Some(step.maker().price),
    ensures
        records_done(steps, trades, lists, events, latest, ctx, tp_hash, base, quote, give, have),
{
}

/// The trades of one more match, each recording it, keep every trade made
/// recording one of the matches.
proof fn lemma_trades_traced_step(
    start: Map<H256, Trade>,
    pre: Map<H256, Trade>,
    now: Map<H256, Trade>,
    steps: Seq<MatchStep>,
    step: MatchStep,
)
    requires
        trades_traced(start, pre, steps),
        forall|h: H256| #[trigger] now.contains_key(h) && !(pre.contains_key(h) && now[h] == pre[h])
            ==> trade_of_match(now[h], step.maker(), step.taker),
    ensures
        trades_traced(start, now, steps.push(step)),
{
    let ns = steps.push(step);
    assert forall|h: H256| #[trigger] now.contains_key(h) && !(start.contains_key(h) && now[h] == start[h])
        implies exists|i: int| 0 <= i < ns.len() && trade_of_match(now[h], #[trigger] ns[i].maker(), ns[i].taker) by {
        if pre.contains_key(h) && now[h] == pre[h] {
            let i = choose|i: int| 0 <= i < steps.len() && trade_of_match(pre[h], #[trigger] steps[i].maker(), steps[i].taker);
            assert(ns[i] == steps[i]);
            assert(trade_of_match(now[h], ns[i].maker(), ns[i].taker));
        } else {
            assert(ns[steps.len() as int] == step);
            assert(trade_of_match(now[h], ns[steps.len() as int].maker(), ns[steps.len() as int].taker));
        }
    }
}

/// A taker that was not filled before matching and is filled by the
/// matches `steps` has nothing left to sell and nothing left to buy.
pub proof fn lemma_filled_taker_empty(
    steps: Seq<MatchStep>,
    tp_hash: H256,
    otype: OrderType,
    give: H256,
    have: H256,
    pairs: Set<H256>,
    book: LinkedList,
    ledger: Ledger,
    orders: Map<H256, LimitOrder>,
    taker: LimitOrder,
    nonce: u64,
)
    requires
        match_trace(steps, tp_hash, otype, give, have, pairs, book, ledger, orders, taker, nonce),
        taker.status != OrderStatus::Filled,
        traced_taker(steps, taker).status == OrderStatus::Filled,
    ensures
        traced_taker(steps, taker).remained_sell_amount == 0,
        traced_taker(steps, taker).remained_buy_amount == 0,
{
    let k = steps.len() - 1;
    if k > 0 {
        assert(step_followed(steps, k - 1, tp_hash, otype, give, have, pairs));
    }
    assert(steps[k].taker.status != OrderStatus::Filled);
}

/// Between a taker and a resting order of different owners, a settled match
/// only moves tokens between the two: every other account keeps its
/// balances, and the two owners together hold as much of each token as
/// before.
pub proof fn lemma_settled_keeps_totals(l0: Ledger, give: H256, have: H256, order: LimitOrder, o: LimitOrder)
    requires
        order.owner != o.owner,
        exchange_error(l0, give, have, order, o) is None,
    ensures
        forall|x: AccountId, t: H256|
            #![trigger amount_at(settled(l0, give, have, order, o).balances, (x, t))]
            x != order.owner && x != o.owner ==> amount_at(settled(l0, give, have, order, o).balances, (x, t))
                == amount_at(l0.balances, (x, t)),
        forall|t: H256|
            #![trigger amount_at(settled(l0, give, have, order, o).balances, (order.owner, t))]
            amount_at(settled(l0, give, have, order, o).balances, (order.owner, t)) + amount_at(
                settled(l0, give, have, order, o).balances,
                (o.owner, t),
            ) == amount_at(l0.balances, (order.owner, t)) + amount_at(l0.balances, (o.owner, t)),
{
    let a = order.owner;
    let b = o.owner;
    let gq = exchanged(o, order).0;
    let hq = exchanged(o, order).1;
    let l1 = l0.unfrozen(a, give, gq);
    let l2 = l1.unfrozen(b, have, hq);
    let l3 = l2.transferred(a, give, b, gq);
    let l4 = l3.transferred(b, have, a, hq);
    assert(l2.balances == l0.balances);
    assert(l2.transfer_error(a, give, b, gq) is None);
    assert(l3.transfer_error(b, have, a, hq) is None);
    assert(settle_ledger(l0, a, give, b, have, gq, hq) == l4);
    assert(settled(l0, give, have, order, o).balances == l4.balances);
    assert forall|x: AccountId, t: H256| x != a && x != b implies amount_at(l4.balances, (x, t)) == amount_at(
        l0.balances,
        (x, t),
    ) by {
        assert(amount_at(l3.balances, (x, t)) == amount_at(l2.balances, (x, t)));
    }
    assert forall|t: H256| amount_at(l4.balances, (a, t)) + amount_at(l4.balances, (b, t)) == amount_at(
        l0.balances,
        (a, t),
    ) + amount_at(l0.balances, (b, t)) by {
        assert(amount_at(l3.balances, (a, t)) + amount_at(l3.balances, (b, t)) == amount_at(l2.balances, (a, t))
            + amount_at(l2.balances, (b, t)));
    }
}

/// A settled match leaves the balances of every account other than the two
/// owners as they were.
proof fn lemma_settled_keeps_others(l0: Ledger, give: H256, have: H256, order: LimitOrder, o: LimitOrder, x: AccountId, t: H256)
    requires
        exchange_error(l0, give, have, order, o) is None,
        x != order.owner,
        x != o.owner,
    ensures
        amount_at(settled(l0, give, have, order, o).balances, (x, t)) == amount_at(l0.balances, (x, t)),
{
    let gq = exchanged(o, order).0;
    let hq = exchanged(o, order).1;
    let l2 = l0.unfrozen(order.owner, give, gq).unfrozen(o.owner, have, hq);
    let l3 = l2.transferred(order.owner, give, o.owner, gq);
    assert(settled(l0, give, have, order, o).balances == l3.transferred(o.owner, have, order.owner, hq).balances);
    assert(amount_at(l3.balances, (x, t)) == amount_at(l2.balances, (x, t)));
}

/// The matches of a trace but its last are a trace too.
proof fn lemma_trace_prefix(
    steps: Seq<MatchStep>,
    tp_hash: H256,
    otype: OrderType,
    give: H256,
    have: H256,
    pairs: Set<H256>,
    book: LinkedList,
    ledger: Ledger,
    orders: Map<H256, LimitOrder>,
    taker: LimitOrder,
    nonce: u64,
)
    requires
        match_trace(steps, tp_hash, otype, give, have, pairs, book, ledger, orders, taker, nonce),
        steps.len() > 0,
    ensures
        match_trace(steps.drop_last(), tp_hash, otype, give, have, pairs, book, ledger, orders, taker, nonce),
{
    let p = steps.drop_last();
    if p.len() > 0 {
        assert(p[0] == steps[0]);
    }
    assert forall|i: int| 0 <= i < p.len() - 1 implies #[trigger] step_followed(p, i, tp_hash, otype, give, have, pairs) by {
        assert(step_followed(steps, i, tp_hash, otype, give, have, pairs));
        assert(p[i] == steps[i] && p[i + 1] == steps[i + 1]);
    }
}

/// An account that placed neither the taker order nor any resting order
/// that the matches `steps` reached holds, once they are done, what it held
/// of every token (every match but a failed last one being settled).
pub proof fn lemma_trace_keeps_others(
    steps: Seq<MatchStep>,
    tp_hash: H256,
    otype: OrderType,
    give: H256,
    have: H256,
    pairs: Set<H256>,
    book: LinkedList,
    ledger: Ledger,
    orders: Map<H256, LimitOrder>,
    taker: LimitOrder,
    nonce: u64,
    x: AccountId,
    t: H256,
)
    requires
        match_trace(steps, tp_hash, otype, give, have, pairs, book, ledger, orders, taker, nonce),
        steps.len() > 0 ==> steps.last().error(pairs, tp_hash, give, have) is None,
        x != taker.owner,
        forall|i: int| 0 <= i < steps.len() ==> #[trigger] steps[i].maker().owner != x,
    ensures
        amount_at(traced_ledger(steps, give, have, ledger).balances, (x, t)) == amount_at(ledger.balances, (x, t)),
        steps.len() > 0 ==> steps.last().taker.owner == taker.owner,
    decreases steps.len(),
{
    if steps.len() > 0 {
        let k = steps.len() - 1;
        let p = steps.drop_last();
        lemma_trace_prefix(steps, tp_hash, otype, give, have, pairs, book, ledger, orders, taker, nonce);
        if k > 0 {
            assert(step_followed(steps, k - 1, tp_hash, otype, give, have, pairs));
            assert(p.last() == steps[k - 1]);
            assert forall|i: int| 0 <= i < p.len() implies #[trigger] p[i].maker().owner != x by {
                assert(p[i] == steps[i]);
            }
            lemma_trace_keeps_others(p, tp_hash, otype, give, have, pairs, book, ledger, orders, taker, nonce, x, t);
        }
        let s = steps[k];
        assert(s.maker().owner != x);
        assert(s.orders.contains_key(s.maker_hash()));
        lemma_settled_keeps_others(s.ledger, give, have, s.taker, s.maker(), x, t);
    }
}

/// What the accounts `accounts` hold together of token `t`.
pub open spec fn held_by(balances: Map<(AccountId, H256), Balance>, accounts: Seq<AccountId>, t: H256) -> int
    decreases accounts.len(),
{
    if accounts.len() == 0 {
        0
    } else {
        held_by(balances, accounts.drop_last(), t) + amount_at(balances, (accounts.last(), t))
    }
}

/// Where only the holdings of `a` and `b` of token `t` change, what distinct
/// accounts hold together changes by the change of those of them that are
/// among them.
proof fn lemma_held_by_two_changed(
    b0: Map<(AccountId, H256), Balance>,
    b1: Map<(AccountId, H256), Balance>,
    accounts: Seq<AccountId>,
    t: H256,
    a: AccountId,
    b: AccountId,
)
    requires
        a != b,
        accounts.no_duplicates(),
        forall|x: AccountId| x != a && x != b ==> #[trigger] amount_at(b1, (x, t)) == amount_at(b0, (x, t)),
    ensures
        held_by(b1, accounts, t) == held_by(b0, accounts, t) + (if accounts.contains(a) {
            amount_at(b1, (a, t)) - amount_at(b0, (a, t))
        } else {
            0
        }) + (if accounts.contains(b) {
            amount_at(b1, (b, t)) - amount_at(b0, (b, t))
        } else {
            0
        }),
    decreases accounts.len(),
{
    if accounts.len() > 0 {
        let p = accounts.drop_last();
        let x = accounts.last();
        assert(p.no_duplicates());
        lemma_held_by_two_changed(b0, b1, p, t, a, b);
        assert(!p.contains(x));
        assert forall|y: AccountId| accounts.contains(y) <==> (p.contains(y) || y == x) by {
            if accounts.contains(y) {
                let i = choose|i: int| 0 <= i < accounts.len() && accounts[i] == y;
                if i < accounts.len() - 1 {
                    assert(p[i] == y);
                }
            }
            if p.contains(y) {
                let i = choose|i: int| 0 <= i < p.len() && p[i] == y;
                assert(accounts[i] == y);
            }
            if y == x {
                assert(accounts[accounts.len() - 1] == y);
            }
        }
    }
}

/// When no resting order that the matches `steps` reached belongs to the
/// taker's owner, and every match but a failed last one is settled, the
/// matches only move tokens among the owners: any distinct accounts among
/// which are the taker's owner and the owners of the resting orders reached
/// hold together, once the matches are done, what they held of every token.
pub proof fn lemma_trace_keeps_totals(
    steps: Seq<MatchStep>,
    tp_hash: H256,
    otype: OrderType,
    give: H256,
    have: H256,
    pairs: Set<H256>,
    book: LinkedList,
    ledger: Ledger,
    orders: Map<H256, LimitOrder>,
    taker: LimitOrder,
    nonce: u64,
    accounts: Seq<AccountId>,
    t: H256,
)
    requires
        match_trace(steps, tp_hash, otype, give, have, pairs, book, ledger, orders, taker, nonce),
        steps.len() > 0 ==> steps.last().error(pairs, tp_hash, give, have) is None,
        forall|i: int| 0 <= i < steps.len() ==> #[trigger] steps[i].maker().owner != taker.owner,
        accounts.no_duplicates(),
        accounts.contains(taker.owner),
        forall|i: int| 0 <= i < steps.len() ==> accounts.contains(#[trigger] steps[i].maker().owner),
    ensures
        held_by(traced_ledger(steps, give, have, ledger).balances, accounts, t) == held_by(ledger.balances, accounts, t),
        steps.len() > 0 ==> steps.last().taker.owner == taker.owner,
    decreases steps.len(),
{
    if steps.len() > 0 {
        let k = steps.len() - 1;
        let p = steps.drop_last();
        lemma_trace_prefix(steps, tp_hash, otype, give, have, pairs, book, ledger, orders, taker, nonce);
        if k > 0 {
            assert(step_followed(steps, k - 1, tp_hash, otype, give, have, pairs));
            assert(p.last() == steps[k - 1]);
            assert forall|i: int| 0 <= i < p.len() implies #[trigger] p[i].maker().owner != taker.owner
                && accounts.contains(p[i].maker().owner) by {
                assert(p[i] == steps[i]);
            }
            lemma_trace_keeps_totals(p, tp_hash, otype, give, have, pairs, book, ledger, orders, taker, nonce, accounts, t);
        }
        let s = steps[k];
        let l0 = s.ledger;
        let l1 = s.ledger_after(give, have);
        assert(s.maker().owner != taker.owner);
        assert(accounts.contains(s.maker().owner));
        assert(s.orders.contains_key(s.maker_hash()));
        lemma_settled_keeps_totals(l0, give, have, s.taker, s.maker());
        assert(amount_at(l1.balances, (s.taker.owner, t)) + amount_at(l1.balances, (s.maker().owner, t)) == amount_at(
            l0.balances,
            (s.taker.owner, t),
        ) + amount_at(l0.balances, (s.maker().owner, t)));
        lemma_held_by_two_changed(l0.balances, l1.balances, accounts, t, s.taker.owner, s.maker().owner);
    }
}

impl Module {
    /// Exchanges the parts of a match: `a`'s `gq` of token `give` and `b`'s
    /// `hq` of token `have` are unfrozen, then each is given to the other.
    fn settle(
        tokens: &mut TokenModule,
        a: AccountId,
        give: H256,
        b: AccountId,
        have: H256,
        gq: Balance,
        hq: Balance,
    ) -> (r: Result<(), &'static str>)
        ensures
            r == (match settle_error(old(tokens).ledger(), a, give, b, have, gq, hq) {
                Some(e) => Err::<(), &'static str>(e),
                None => Ok(()),
            }),
            r is Ok ==> final(tokens).ledger() == settle_ledger(old(tokens).ledger(), a, give, b, have, gq, hq),
            r is Ok ==> final(tokens).events@ == old(tokens).events@ + settle_events(a, give, b, have, gq, hq),
            tokens_kept(*old(tokens), *final(tokens)),
    {
        let ghost t0 = *tokens;
        proof {
            lemma_ledger_errors(t0, a, give, b, gq);
        }
        match tokens.do_unfreeze(a, give, gq) {
            Ok(_) => {},
            Err(e) => {
                return Err(e);
            },
        }
        let ghost t1 = *tokens;
        proof {
            lemma_ledger_errors(t1, b, have, a, hq);
        }
        match tokens.do_unfreeze(b, have, hq) {
            Ok(_) => {},
            Err(e) => {
                return Err(e);
            },
        }
        let ghost t2 = *tokens;
        proof {
            lemma_ledger_errors(t2, a, give, b, gq);
        }
        match tokens.do_transfer(a, give, b, gq) {
            Ok(_) => {},
            Err(e) => {
                return Err(e);
            },
        }
        let ghost t3 = *tokens;
        proof {
            lemma_ledger_errors(t3, b, have, a, hq);
        }
        match tokens.do_transfer(b, have, a, hq) {
            Ok(_) => {},
            Err(e) => {
                return Err(e);
            },
        }
        Ok(())
    }
}

impl Module {
    /// Marks the order `ord`, which has nothing left to buy, filled, and
    /// unfreezes what it has left to sell of token `token`.
    fn close_filled(tokens: &mut TokenModule, token: H256, ord: &mut LimitOrder) -> (r: Result<(), &'static str>)
        requires
            old(ord).remained_buy_amount == 0,
        ensures
            ({
                let rs = old(ord).remained_sell_amount;
                let l0 = old(tokens).ledger();
                let err = if rs != 0 {
                    l0.unfreeze_error(old(ord).owner, token, rs)
                } else {
                    None
                };
                &&& r == (match err {
                    Some(e) => Err::<(), &'static str>(e),
                    None => Ok(()),
                })
                &&& r is Ok ==> {
                    &&& *final(ord) == (LimitOrder { status: OrderStatus::Filled, remained_sell_amount: 0, ..*old(ord) })
                    &&& final(tokens).ledger() == if rs != 0 {
                        l0.unfrozen(old(ord).owner, token, rs)
                    } else {
                        l0
                    }
                    &&& final(tokens).events@ == old(tokens).events@ + given_back_events(old(ord).owner, token, rs)
                }
            }),
            same_terms(*final(ord), *old(ord)),
            tokens_kept(*old(tokens), *final(tokens)),
    {
        proof {
            lemma_ledger_errors(*tokens, ord.owner, token, ord.owner, ord.remained_sell_amount);
        }
        ord.status = OrderStatus::Filled;
        if ord.remained_sell_amount != 0 {
            match tokens.do_unfreeze(ord.owner, token, ord.remained_sell_amount) {
                Ok(_) => {},
                Err(e) => {
                    return Err(e);
                },
            }
            ord.remained_sell_amount = 0;
        }
        if !ord.is_finished() {
            return Err("order is not finished");
        }
        Ok(())
    }

    /// The exchange of a match of the taker `order` with the resting order
    /// `o`, at `o`'s price: the amounts are computed, unfrozen and
    /// transferred, and both orders are updated (a filled one gets what it
    /// has left to sell unfrozen). Gives the (base, quote) amounts.
    #[verifier::rlimit(100)]
    #[verifier::spinoff_prover]
    fn exchange(
        tokens: &mut TokenModule,
        give: H256,
        have: H256,
        order: &mut LimitOrder,
        o: &mut LimitOrder,
    ) -> (r: Result<(Balance, Balance), &'static str>)
        ensures
            same_terms(*final(order), *old(order)),
            same_terms(*final(o), *old(o)),
            tokens_kept(*old(tokens), *final(tokens)),
            ({
                let err = exchange_error(old(tokens).ledger(), give, have, *old(order), *old(o));
                let (gq, hq) = (exchanged(*old(o), *old(order)).0, exchanged(*old(o), *old(order)).1);
                &&& r is Err <==> err is Some
                &&& r matches Err(e) ==> err == Some(e)
                &&& r matches Ok(v) ==> {
                    &&& ex_amount(*old(o), *old(order)) == Some((v.0 as nat, v.1 as nat))
                    &&& final(tokens).ledger() == settled(old(tokens).ledger(), give, have, *old(order), *old(o))
                    &&& final(tokens).events@ == old(tokens).events@ + exchange_events(give, have, *old(order), *old(o))
                    &&& *final(order) == after_exchange(*old(order), gq, hq)
                    &&& *final(o) == after_exchange(*old(o), hq, gq)
                    &&& (final(order).remained_buy_amount == 0 || final(o).remained_buy_amount == 0)
                }
            }),
    {
        let otype = order.otype;
        if !Self::ex_amount_in_range(o, order) {
            return Err("exchange amount overflow");
        }
        let (base_qty, quote_qty) = match Self::calculate_ex_amount(o, order) {
            Ok(v) => v,
            Err(e) => {
                return Err(e);
            },
        };
        let give_qty: Balance;
        let have_qty: Balance;
        match otype {
            OrderType::Buy => {
                give_qty = base_qty;
                have_qty = quote_qty;
            },
            OrderType::Sell => {
                give_qty = quote_qty;
                have_qty = base_qty;
            },
        }
        if order.remained_sell_amount == order.sell_amount {
            order.status = OrderStatus::PartialFilled;
        }
        if o.remained_sell_amount == o.sell_amount {
            o.status = OrderStatus::PartialFilled;
        }
        match Self::settle(tokens, order.owner, give, o.owner, have, give_qty, have_qty) {
            Ok(_) => {},
            Err(e) => {
                return Err(e);
            },
        }
        order.remained_sell_amount = match order.remained_sell_amount.checked_sub(give_qty) {
            Some(v) => v,
            None => {
                return Err("substract error");
            },
        };
        order.remained_buy_amount = match order.remained_buy_amount.checked_sub(have_qty) {
            Some(v) => v,
            None => {
                return Err("substract error");
            },
        };
        o.remained_sell_amount = match o.remained_sell_amount.checked_sub(have_qty) {
            Some(v) => v,
            None => {
                return Err("substract error");
            },
        };
        o.remained_buy_amount = match o.remained_buy_amount.checked_sub(give_qty) {
            Some(v) => v,
            None => {
                return Err("substract error");
            },
        };
        let ghost ev1 = tokens.events@;
        match Self::close_matched(tokens, give, have, order, o) {
            Ok(_) => {},
            Err(e) => {
                return Err(e);
            },
        }
        proof {
            assert(tokens.events@ =~= old(tokens).events@ + exchange_events(give, have, *old(order), *old(o)));
        }
        Ok((base_qty, quote_qty))
    }

    /// Closes the orders of a match that got filled: `order` gives back
    /// what it has left of token `give`, then `o` what it has left of token
    /// `have`.
    fn close_matched(tokens: &mut TokenModule, give: H256, have: H256, order: &mut LimitOrder, o: &mut LimitOrder) -> (r:
        Result<(), &'static str>)
        ensures
            ({
                let t0 = *old(order);
                let m0 = *old(o);
                let l0 = old(tokens).ledger();
                let l1 = if t0.remained_buy_amount == 0 && t0.remained_sell_amount != 0 {
                    l0.unfrozen(t0.owner, give, t0.remained_sell_amount)
                } else {
                    l0
                };
                let err = if t0.remained_buy_amount == 0 && t0.remained_sell_amount != 0 && l0.unfreeze_error(
                    t0.owner,
                    give,
                    t0.remained_sell_amount,
                ) is Some {
                    l0.unfreeze_error(t0.owner, give, t0.remained_sell_amount)
                } else if m0.remained_buy_amount == 0 && m0.remained_sell_amount != 0 {
                    l1.unfreeze_error(m0.owner, have, m0.remained_sell_amount)
                } else {
                    None
                };
                &&& r == (match err {
                    Some(e) => Err::<(), &'static str>(e),
                    None => Ok(()),
                })
                &&& r is Ok ==> {
                    &&& *final(order) == closed(t0)
                    &&& *final(o) == closed(m0)
                    &&& final(tokens).ledger() == if m0.remained_buy_amount == 0 && m0.remained_sell_amount != 0 {
                        l1.unfrozen(m0.owner, have, m0.remained_sell_amount)
                    } else {
                        l1
                    }
                    &&& final(tokens).events@ == old(tokens).events@ + (if t0.remained_buy_amount == 0 {
                        given_back_events(t0.owner, give, t0.remained_sell_amount)
                    } else {
                        Seq::empty()
                    }) + (if m0.remained_buy_amount == 0 {
                        given_back_events(m0.owner, have, m0.remained_sell_amount)
                    } else {
                        Seq::empty()
                    })
                }
            }),
            same_terms(*final(order), *old(order)),
            same_terms(*final(o), *old(o)),
            tokens_kept(*old(tokens), *final(tokens)),
    {
        let ghost e0 = tokens.events@;
        if order.remained_buy_amount == 0 {
            match Self::close_filled(tokens, give, order) {
                Ok(_) => {},
                Err(e) => {
                    return Err(e);
                },
            }
        }
        let ghost e1 = tokens.events@;
        if o.remained_buy_amount == 0 {
            match Self::close_filled(tokens, have, o) {
                Ok(_) => {},
                Err(e) => {
                    return Err(e);
                },
            }
        }
        proof {
            if old(order).remained_buy_amount != 0 {
                assert(e1 =~= e0 + Seq::<TokenEvent>::empty());
            }
            assert(tokens.events@ =~= e1 + (if old(o).remained_buy_amount == 0 {
                given_back_events(old(o).owner, have, old(o).remained_sell_amount)
            } else {
                Seq::empty()
            }));
        }
        Ok(())
    }

    /// Settles one match of the taker `order` with the resting order
    /// `o_hash`, at the resting order's price: the exchanged amounts are
    /// unfrozen and transferred, both orders are updated and stored (a filled
    /// one gets what it has left to sell unfrozen), the matched price is
    /// recorded, finished orders are taken off the other side of the book,
    /// the best price of that side is recorded, and the trade is stored and
    /// listed under both orders, both owners and the pair.
    #[verifier::rlimit(100)]
    #[verifier::spinoff_prover]
    fn match_resting_order(
        &mut self,
        tokens: &mut TokenModule,
        tp_hash: H256,
        tp: &TradePair,
        give: H256,
        have: H256,
        order: &mut LimitOrder,
        o_hash: H256,
        ctx: &ChainContext,
    ) -> (r: Result<(), &'static str>)
        requires
            old(self).wf(),
            old(self).linked_items.built(tp_hash),
            old(self).orders@.contains_key(old(order).hash),
            same_terms(old(self).orders@[old(order).hash], *old(order)),
        ensures
            final(self).wf(),
            final(self).linked_items.built(tp_hash),
            same_terms(*final(order), *old(order)),
            orders_kept(old(self).orders@, final(self).orders@),
            final(self).listed_same(*old(self)),
            tokens_kept(*old(tokens), *final(tokens)),
            final(self).trade_pairs@.dom() == old(self).trade_pairs@.dom(),
            pairs_kept_but(old(self).trade_pairs@, final(self).trade_pairs@, tp_hash, old(order).otype),
            final(self).linked_items == old(self).linked_items || final(self).linked_items.items_removed(
                old(self).linked_items,
                tp_hash,
                old(order).otype.opposite_spec(),
                final(self).orders@,
            ),
            r is Ok ==> final(self).linked_items.items_removed(
                old(self).linked_items,
                tp_hash,
                old(order).otype.opposite_spec(),
                final(self).orders@,
            ),
            r is Ok && final(order).status != OrderStatus::Filled ==> order_removable(
                final(self).orders@,
                o_hash,
            ),
            r is Ok && o_hash != old(order).hash ==> final(self).orders@[old(order).hash] == *final(order),
            // it fails exactly where a step fails, with that step's error; on success the
            // amounts are settled, both orders are what the exchange leaves of them, and
            // the nonce moves on
            ({
                let err = match_error(
                    old(self).orders@,
                    old(self).trade_pairs@.dom(),
                    old(tokens).ledger(),
                    tp_hash,
                    give,
                    have,
                    *old(order),
                    o_hash,
                );
                let o = old(self).orders@[o_hash];
                let (gq, hq) = (exchanged(o, *old(order)).0, exchanged(o, *old(order)).1);
                &&& r == (match err {
                    Some(e) => Err::<(), &'static str>(e),
                    None => Ok(()),
                })
                &&& r is Ok ==> {
                    &&& final(tokens).ledger() == settled(old(tokens).ledger(), give, have, *old(order), o)
                    &&& *final(order) == after_exchange(*old(order), gq, hq)
                    &&& final(self).orders@ == old(self).orders@.insert(old(order).hash, *final(order)).insert(
                        o_hash,
                        after_exchange(o, hq, gq),
                    )
                    &&& final(self).nonce == old(self).nonce.wrapping_add(1)
                    &&& final(tokens).events@ == old(tokens).events@ + exchange_events(give, have, *old(order), o)
                    &&& final(self).trades@ == old(self).trades@.insert(
                        match_trade(*ctx, old(self).nonce, tp.base, tp.quote, *old(order), o).hash,
                        match_trade(*ctx, old(self).nonce, tp.base, tp.quote, *old(order), o),
                    )
                    &&& final(self).trade_lists() == old(self).trade_lists().listed(
                        match_trade(*ctx, old(self).nonce, tp.base, tp.quote, *old(order), o).hash,
                        *old(order),
                        o,
                        tp_hash,
                    )
                }
            }),
            // the pair records the matched price and the other side's best price
            r is Ok ==> best_recorded(*final(self), tp_hash, old(order).otype.opposite_spec())
                && final(self).trade_pairs@[tp_hash].latest_matched_price == Some(old(self).orders@[o_hash].price),
            // the trade made, if any, is at the resting order's price
            forall|h: H256| #[trigger] final(self).trades@.contains_key(h) && !(old(self).trades@.contains_key(h)
                && final(self).trades@[h] == old(self).trades@[h]) ==> {
                &&& final(self).trades@[h].price == old(self).orders@[o_hash].price
                &&& final(self).trades@[h].taker == old(order).owner
                &&& final(self).trades@[h].otype == old(order).otype
                &&& trade_of_match(final(self).trades@[h], old(self).orders@[o_hash], *old(order))
            },
    {
        let otype = order.otype;
        let mut o = match self.orders.get(&o_hash) {
            Some(x) => *x,
            None => {
                return Err("can not get order");
            },
        };
        assert(o.hash == o_hash);
        let ghost o0 = o;
        let (base_qty, quote_qty) = match Self::exchange(tokens, give, have, order, &mut o) {
            Ok(v) => v,
            Err(e) => {
                return Err(e);
            },
        };
        assert(order.remained_buy_amount == 0 || o.remained_buy_amount == 0);
        self.orders.insert(order.hash, *order);
        self.orders.insert(o.hash, o);
        let ghost stored = self.orders@;
        proof {
            assert(stored == old(self).orders@.insert(old(order).hash, *order).insert(o_hash, o));
            assert(self.orders@.dom() =~= old(self).orders@.dom());
            assert(orders_kept(old(self).orders@, self.orders@));
        }
        match self.set_tp_latest_matched_price(tp_hash, Some(o.price)) {
            Ok(_) => {},
            Err(e) => {
                return Err(e);
            },
        }
        let ghost priced = self.trade_pairs@[tp_hash];
        self.linked_items.remove_items(tp_hash, otype.opposite(), &self.orders);
        let ghost orders_now = self.orders@;
        match self.set_tp_buy_one_or_sell_one_price(tp_hash, order.otype.opposite()) {
            Ok(_) => {},
            Err(e) => {
                return Err(e);
            },
        }
        let ghost recorded = *self;
        proof {
            assert(priced.latest_matched_price == Some(o.price));
            assert(recorded.trade_pairs@[tp_hash].latest_matched_price == Some(o.price));
            assert(best_recorded(recorded, tp_hash, otype.opposite_spec()));
            let p0 = old(self).trade_pairs@;
            let p2 = recorded.trade_pairs@;
            assert(p2.dom() =~= p0.dom());
            assert forall|k: H256| #[trigger] p2.contains_key(k) && k != tp_hash implies p2[k] == p0[k] by {}
            assert(side_price(p2[tp_hash], otype) == side_price(p0[tp_hash], otype));
            assert(pairs_kept_but(p0, p2, tp_hash, otype));
        }
        let trade = self.record_trade(tp_hash, tp, &o, order, base_qty, quote_qty, ctx);
        assert(trade_of_match(trade, old(self).orders@[o_hash], *old(order)));
        proof {
            let (gq, hq) = (exchanged(o0, *old(order)).0, exchanged(o0, *old(order)).1);
            assert(recorded.nonce == old(self).nonce);
            assert(o == after_exchange(o0, hq, gq));
            assert(*order == after_exchange(*old(order), gq, hq));
            assert(ex_amount(o0, *old(order)) == Some((base_qty as nat, quote_qty as nat)));
        }
        assert(trade == match_trade(*ctx, old(self).nonce, tp.base, tp.quote, *old(order), o0));
        assert(self.orders@ == orders_now);
        assert(orders_now == stored);
        assert(self.trade_pairs == recorded.trade_pairs && self.linked_items == recorded.linked_items);
        Ok(())
    }

    /// Stores the trade of a match of the taker `taker` with the resting
    /// order `maker`, for `base_qty` of the base token against `quote_qty` of
    /// the quote token, and lists it under both orders, both owners and the
    /// pair; the nonce moves on.
    fn record_trade(
        &mut self,
        tp_hash: H256,
        tp: &TradePair,
        maker: &LimitOrder,
        taker: &LimitOrder,
        base_qty: Balance,
        quote_qty: Balance,
        ctx: &ChainContext,
    ) -> (t: Trade)
        ensures
            final(self).trades@ == old(self).trades@.insert(t.hash, t),
            final(self).trade_lists() == old(self).trade_lists().listed(t.hash, *taker, *maker, tp_hash),
            t.hash == blake2_256(trade_hash_input(*ctx, old(self).nonce, *maker, *taker)),
            t.base == tp.base,
            t.quote == tp.quote,
            t.buyer == (if taker.otype == OrderType::Buy { taker.owner } else { maker.owner }),
            t.seller == (if taker.otype == OrderType::Buy { maker.owner } else { taker.owner }),
            t.price == maker.price,
            t.maker == maker.owner,
            t.taker == taker.owner,
            t.otype == taker.otype,
            t.base_amount == base_qty,
            t.quote_amount == quote_qty,
            final(self).nonce == old(self).nonce.wrapping_add(1),
            final(self).trade_pairs == old(self).trade_pairs,
            final(self).orders == old(self).orders,
            final(self).linked_items == old(self).linked_items,
            final(self).listed_same(*old(self)),
    {
        let trade = Trade::new(tp.base, tp.quote, maker, taker, base_qty, quote_qty, &mut self.nonce, ctx);
        self.trades.insert(trade.hash, trade);
        self.add_order_owned_trade(taker.hash, trade.hash);
        self.add_order_owned_trade(maker.hash, trade.hash);
        self.add_owned_trade(taker.owner, trade.hash);
        self.add_owned_trade(maker.owner, trade.hash);
        self.add_owned_tp_trade(taker.owner, tp_hash, trade.hash);
        self.add_owned_tp_trade(maker.owner, tp_hash, trade.hash);
        self.add_trade_pair_owned_trade(tp_hash, trade.hash);
        trade
    }

    /// Matches `order` against the other side of `tp_hash`'s book, best
    /// price first, as long as the level's price is acceptable to it and it
    /// is not filled; the resting orders of a level match in the order they
    /// came; the top of the book ends a buy's walk. Tells whether `order`
    /// got filled.
    #[verifier::rlimit(100)]
    #[verifier::spinoff_prover]
    fn order_match(&mut self, tokens: &mut TokenModule, tp_hash: H256, order: LimitOrder, ctx: &ChainContext) -> (r: Result<bool, &'static str>)
        requires
            old(self).wf(),
            order.price > 0,
            old(self).orders@.contains_key(order.hash),
            same_terms(old(self).orders@[order.hash], order),
        ensures
            final(self).wf(),
            matched_books(old(self).linked_items, final(self).linked_items, tp_hash, order.otype),
            tokens_kept(*old(tokens), *final(tokens)),
            final(self).trade_pairs@.dom() == old(self).trade_pairs@.dom(),
            orders_kept(old(self).orders@, final(self).orders@),
            final(self).listed_same(*old(self)),
            r matches Ok(filled) ==> filled || match_stopped(final(self).linked_items, tp_hash, order.otype, order.price),
            book_orders_stored(old(self).linked_items, old(self).orders@) ==> {
                &&& book_orders_stored(final(self).linked_items, final(self).orders@)
                &&& new_trades_accepted(old(self).trades@, final(self).trades@, order.owner, order.otype, order.price)
            },
            // where the order is stored as it is and rests nowhere, whether it got filled is
            // what its stored record says
            book_orders_stored(old(self).linked_items, old(self).orders@) && not_in_book(old(self).linked_items, order.hash)
                && old(self).orders@[order.hash] == order ==> (r matches Ok(filled) ==> (filled
                <==> final(self).orders@[order.hash].status == OrderStatus::Filled)),
            // and a filled one has nothing left to sell or to buy
            book_orders_stored(old(self).linked_items, old(self).orders@) && not_in_book(old(self).linked_items, order.hash)
                && old(self).orders@[order.hash] == order && order.status != OrderStatus::Filled && r
                == Ok::<bool, &'static str>(true) ==> final(self).orders@[order.hash].remained_sell_amount == 0
                && final(self).orders@[order.hash].remained_buy_amount == 0,
            // an order that the book does not cross is not matched at all
            old(self).trade_pairs@.contains_key(tp_hash) && order.status != OrderStatus::Filled && (
            !old(self).linked_items.built(tp_hash) || match_stopped(
                old(self).linked_items,
                tp_hash,
                order.otype,
                order.price,
            )) ==> r == Ok::<bool, &'static str>(false) && final(self).trades == old(self).trades && *final(tokens)
                == *old(tokens) && final(self).trade_pairs == old(self).trade_pairs && final(self).nonce
                == old(self).nonce,
            // among the pairs, only this one changes, and not the price it records for the
            // order's own side
            pairs_kept_but(old(self).trade_pairs@, final(self).trade_pairs@, tp_hash, order.otype),
            // once a trade is made, the pair records the other side's best price
            r is Ok && final(self).trades != old(self).trades ==> best_recorded(
                *final(self),
                tp_hash,
                order.otype.opposite_spec(),
            ),
            // where the pair recorded the best prices of both sides of the book, it
            // still does
            r is Ok && best_levels_recorded(*old(self), tp_hash) ==> best_levels_recorded(*final(self), tp_hash),
            // the matches made, one after the other, and what they leave
            exists|steps: Seq<MatchStep>| #[trigger] matched_by(
                steps,
                old(self).trade_pairs@,
                old(self).linked_items,
                *old(tokens),
                old(self).orders@,
                old(self).trades@,
                old(self).trade_lists(),
                old(self).nonce,
                *final(tokens),
                final(self).trade_pairs@,
                final(self).orders@,
                final(self).trades@,
                final(self).trade_lists(),
                final(self).nonce,
                tp_hash,
                order,
                *ctx,
                r is Ok,
            ) && r == match_answer(steps, old(self).trade_pairs@, tp_hash, order),
    {
        let mut taker = order;
        let otype = taker.otype;
        let oprice = taker.price;
        let ghost l_start = self.linked_items;
        let ghost tokens_start = *tokens;
        let ghost pairs_dom = self.trade_pairs@.dom();
        let ghost orders_start = self.orders@;
        let ghost module_start = *self;
        let ghost trades_start = self.trades@;
        let ghost consistent = book_orders_stored(l_start, orders_start);
        let ghost tracked_taker = consistent && not_in_book(l_start, order.hash) && orders_start[order.hash] == order;
        proof {
            if l_start.built(tp_hash) {
                let c = chain(l_start.buys(tp_hash), l_start.sells(tp_hash));
                assert(node_linked(l_start@, tp_hash, c, l_start.buys(tp_hash).len() as int + 1));
            } else {
                assert(!l_start@.contains_key((tp_hash, None)));
            }
        }
        let mut head = self.linked_items.read_head(tp_hash);
        let ghost l0 = self.linked_items;
        let ghost (b0, s0) = levels_of(l_start, tp_hash);
        let ghost opp0 = if otype == OrderType::Buy { s0 } else { b0 };
        proof {
            assert(other_books_same(l0, l_start, tp_hash));
            assert(levels_of(l0, tp_hash) == (b0, s0));
            assert(opp0 == opposite_levels(l0, tp_hash, otype));
            assert(taken_from_head(opp0, opposite_levels(l0, tp_hash, otype), otype, 0)) by {
                assert(opp0.skip(0) =~= opp0);
                assert(opp0.take(opp0.len() as int) =~= opp0);
            }
        }
        let end_item_price: Option<Price>;
        if otype == OrderType::Buy {
            end_item_price = Some(PRICE_MIN);
        } else {
            end_item_price = Some(PRICE_MAX);
        }
        let tp = match self.trade_pair(tp_hash) {
            Some(t) => t,
            None => {
                proof {
                    lemma_books_matched(l_start, self.linked_items, tp_hash, otype, b0, s0, 0);
                    assert(matched_by(
                                Seq::<MatchStep>::empty(),
                                old(self).trade_pairs@,
                                old(self).linked_items,
                                *old(tokens),
                                old(self).orders@,
                                old(self).trades@,
                                old(self).trade_lists(),
                                old(self).nonce,
                                *tokens,
                                self.trade_pairs@,
                                self.orders@,
                                self.trades@,
                                self.trade_lists(),
                                self.nonce,
                                tp_hash,
                                order,
                                *ctx,
                                false,
                            ) && Err::<bool, &'static str>("can not get trade pair") == match_answer(Seq::<MatchStep>::empty(), old(self).trade_pairs@, tp_hash, order));
                }
                return Err("can not get trade pair");
            },
        };
        let give: H256;
        let have: H256;
        match otype {
            OrderType::Buy => {
                give = tp.base;
                have = tp.quote;
            },
            OrderType::Sell => {
                give = tp.quote;
                have = tp.base;
            },
        }
        let ghost pairs = old(self).trade_pairs@.dom();
        let ghost tb = tp.base;
        let ghost tq = tp.quote;
        let ghost mut steps: Seq<MatchStep> = Seq::empty();
        proof {
            assert(tp == old(self).trade_pairs@[tp_hash]);
            assert(tb == tp.base && tq == tp.quote);
            if !l_start.built(tp_hash) {
                assert(opposite_levels(l0, tp_hash, otype).len() == 0);
            }
        }
        let ghost mut gone: int = 0;
        let ghost mut matched = false;
        let ghost quiet = taker.status != OrderStatus::Filled && match_stopped(l0, tp_hash, otype, oprice);
        proof {
            if !l_start.built(tp_hash) {
                assert(opposite_levels(l0, tp_hash, otype).len() == 0);
            }
            assert((!l_start.built(tp_hash) || match_stopped(l_start, tp_hash, otype, oprice)) ==> match_stopped(
                l0,
                tp_hash,
                otype,
                oprice,
            ));
        }
        loop
            invariant
                self.wf(),
                self.linked_items.built(tp_hash),
                head@ == self.linked_items@[(tp_hash, None)],
                quiet == (order.status != OrderStatus::Filled && match_stopped(l0, tp_hash, otype, oprice)),
                quiet ==> self.linked_items == l0 && taker == order && self.trades == module_start.trades
                    && *tokens == tokens_start && self.trade_pairs == module_start.trade_pairs
                    && self.nonce == module_start.nonce,
                pairs_kept_but(module_start.trade_pairs@, self.trade_pairs@, tp_hash, otype),
                !matched ==> self.trades == module_start.trades,
                matched ==> best_recorded(*self, tp_hash, otype.opposite_spec()),
                (!l_start.built(tp_hash) || match_stopped(l_start, tp_hash, otype, oprice)) ==> match_stopped(
                    l0,
                    tp_hash,
                    otype,
                    oprice,
                ),
                otype == taker.otype,
                otype == order.otype,
                oprice == taker.price,
                oprice > 0,
                l_start == old(self).linked_items,
                tokens_start == *old(tokens),
                pairs_dom == old(self).trade_pairs@.dom(),
                levels_of(l_start, tp_hash) == (b0, s0),
                opp0 == (if otype == OrderType::Buy { s0 } else { b0 }),
                own_levels(self.linked_items, tp_hash, otype) == (if otype == OrderType::Buy { b0 } else { s0 }),
                taken_from_head(opp0, opposite_levels(self.linked_items, tp_hash, otype), otype, gone),
                other_books_same(self.linked_items, l_start, tp_hash),
                tokens_kept(tokens_start, *tokens),
                self.trade_pairs@.dom() == pairs_dom,
                orders_start == old(self).orders@,
                module_start == *old(self),
                orders_kept(orders_start, self.orders@),
                orders_start.contains_key(order.hash),
                same_terms(orders_start[order.hash], order),
                same_terms(taker, order),
                self.listed_same(module_start),
                trades_start == old(self).trades@,
                consistent == book_orders_stored(l_start, orders_start),
                consistent ==> book_orders_stored(self.linked_items, self.orders@),
                consistent ==> new_trades_accepted(trades_start, self.trades@, order.owner, otype, oprice),
                tracked_taker == (consistent && not_in_book(l_start, order.hash) && orders_start[order.hash] == order),
                tracked_taker ==> not_in_book(self.linked_items, order.hash) && self.orders@[order.hash] == taker,
                order.status != OrderStatus::Filled && taker.status == OrderStatus::Filled
                    ==> taker.remained_sell_amount == 0 && taker.remained_buy_amount == 0,
                end_item_price == (if otype == OrderType::Buy { Some(PRICE_MIN) } else { Some(PRICE_MAX) }),
                pairs == old(self).trade_pairs@.dom(),
                pairs.contains(tp_hash),
                give == sold_token(old(self).trade_pairs@[tp_hash].base, old(self).trade_pairs@[tp_hash].quote, otype),
                have == sold_token(
                    old(self).trade_pairs@[tp_hash].base,
                    old(self).trade_pairs@[tp_hash].quote,
                    otype.opposite_spec(),
                ),
                match_trace(steps, tp_hash, otype, give, have, pairs, l_start, tokens_start.ledger(), orders_start, order, module_start.nonce),
                l_start.built(tp_hash) ==> l0 == l_start,
                !l_start.built(tp_hash) ==> opposite_levels(l0, tp_hash, otype).len() == 0,
                steps.len() == 0 ==> self.linked_items == l0 && taker == order && self.orders@ == orders_start
                    && tokens.ledger() == tokens_start.ledger() && self.nonce == module_start.nonce,
                steps.len() == 0 ==> self.trades@ == trades_start && self.trade_lists() == module_start.trade_lists()
                    && tokens.events@ == tokens_start.events@,
                steps_done(steps, self.linked_items, tokens.ledger(), self.orders@, taker, self.nonce, tp_hash, otype, give, have, pairs),
                tb == old(self).trade_pairs@[tp_hash].base,
                tp == old(self).trade_pairs@[tp_hash],
                best_levels_recorded(module_start, tp_hash) ==> best_levels_recorded(*self, tp_hash),
                tq == old(self).trade_pairs@[tp_hash].quote,
                trace_records(steps, *ctx, tp_hash, tb, tq, give, have, trades_start, module_start.trade_lists(), tokens_start.events@),
                records_done(
                    steps,
                    self.trades@,
                    self.trade_lists(),
                    tokens.events@,
                    self.trade_pairs@[tp_hash].latest_matched_price,
                    *ctx,
                    tp_hash,
                    tb,
                    tq,
                    give,
                    have,
                ),
                trades_traced(trades_start, self.trades@, steps),
                steps.len() > 0 && taker.status != OrderStatus::Filled ==> steps.last().pos + 1
                    == steps.last().queue.len(),
            ensures
                taker.status == OrderStatus::Filled || match_stopped(self.linked_items, tp_hash, otype, oprice),
                steps.len() > 0 && taker.status != OrderStatus::Filled ==> steps.last().pos + 1
                    == steps.last().queue.len(),
                quiet ==> taker.status != OrderStatus::Filled && self.trades == module_start.trades && *tokens
                    == tokens_start && self.trade_pairs == module_start.trade_pairs && self.nonce == module_start.nonce,
            decreases opposite_levels(self.linked_items, tp_hash, otype).len(), if taker.status == OrderStatus::Filled { 0int } else { 1int },
        {
            if taker.status == OrderStatus::Filled {
                break;
            }
            let ghost l_iter = self.linked_items;
            let ghost opp = opposite_levels(l_iter, tp_hash, otype);
            let ghost cb = l_iter.buys(tp_hash);
            let ghost cs = l_iter.sells(tp_hash);
            let ghost c = chain(cb, cs);
            proof {
                lemma_chain_distinct(cb, cs);
                assert(node_linked(l_iter@, tp_hash, c, cb.len() as int + 1));
                if cb.len() > 0 {
                    assert(c[cb.len() as int] == Some(cb.last()));
                } else {
                    assert(c[0] == Some(PRICE_MIN));
                }
                if cs.len() > 0 {
                    assert(c[cb.len() as int + 2] == Some(cs[0]));
                } else {
                    assert(c[c.len() - 1] == Some(PRICE_MAX));
                }
            }
            let item_price = Self::next_match_price(&head, otype.opposite());
            proof {
                if opp.len() > 0 {
                    assert(item_price == Some(innermost(opp, otype)));
                } else if otype == OrderType::Buy {
                    assert(item_price == Some(PRICE_MAX));
                } else {
                    assert(item_price == Some(PRICE_MIN));
                }
                if otype == OrderType::Buy && cs.len() > 0 {
                    assert(PRICE_MIN < cs[0]);
                }
                if otype == OrderType::Sell && cb.len() > 0 {
                    assert(cb[cb.len() - 1] < PRICE_MAX);
                }
            }
            if item_price == end_item_price {
                break;
            }
            let item_price = match item_price {
                Some(p) => p,
                None => {
                    proof {
                        lemma_books_matched(l_start, self.linked_items, tp_hash, otype, b0, s0, gone);
                    }
                    return Err("can not unwarp item price");
                },
            };
            if !Self::price_matched(oprice, otype, item_price) {
                break;
            }
            // the top of the book, past the last sell level, ends a buy's walk
            if otype == OrderType::Buy && item_price == PRICE_MAX {
                break;
            }
            proof {
                assert(!quiet);
                assert(opp.len() > 0);
                assert(item_price == innermost(opp, otype));
                if otype == OrderType::Buy {
                    assert(node_linked(l_iter@, tp_hash, c, cb.len() as int + 2));
                } else {
                    assert(node_linked(l_iter@, tp_hash, c, cb.len() as int));
                }
                assert(self.linked_items@.contains_key((tp_hash, Some(item_price))));
            }
            let item = match self.linked_items.items.get(&(tp_hash, Some(item_price))) {
                Some(it) => it.copy(),
                None => {
                    proof {
                        lemma_books_matched(l_start, self.linked_items, tp_hash, otype, b0, s0, gone);
                    }
                    return Err("can not unwrap linked list item");
                },
            };
            let ghost snapshot = item.orders@;
            let ghost level_start = steps.len();
            let ghost mut j: int = 0;
            proof {
                assert(snapshot.skip(0) =~= snapshot);
                if tracked_taker {
                    let key = (tp_hash, Some(item_price));
                    assert forall|i: int| 0 <= i < snapshot.len() implies #[trigger] snapshot[i] != order.hash by {
                        assert(self.linked_items@[key].orders[i] == snapshot[i]);
                    }
                }
                if consistent {
                    let key = (tp_hash, Some(item_price));
                    assert(snapshot == self.linked_items@[key].orders);
                    assert forall|i: int| 0 <= i < snapshot.len() implies #[trigger] self.orders@.contains_key(
                        snapshot[i],
                    ) && self.orders@[snapshot[i]].price == item_price by {
                        assert(self.linked_items@[key].orders[i] == snapshot[i]);
                    }
                }
            }
            let mut idx: usize = 0;
            loop
                invariant_except_break
                    taker.status != OrderStatus::Filled,
                    steps.len() == level_start + idx,
                    idx == 0 ==> self.linked_items == l_iter,
                    idx == 0 && steps.len() > 0 ==> steps.last().pos + 1 == steps.last().queue.len(),
                    idx > 0 ==> steps.last().level == item_price && steps.last().queue == snapshot
                        && steps.last().pos == idx - 1,
                    (opposite_levels(self.linked_items, tp_hash, otype) == opp
                        && idx <= j <= snapshot.len()
                        && self.linked_items@[(tp_hash, Some(item_price))].orders == snapshot.skip(j))
                        || opposite_levels(self.linked_items, tp_hash, otype).len() < opp.len(),
                invariant
                    self.wf(),
                    self.linked_items.built(tp_hash),
                    idx <= snapshot.len(),
                    item.orders@ == snapshot,
                    otype == taker.otype,
                    otype == order.otype,
                    oprice == taker.price,
                    oprice > 0,
                    l_start == old(self).linked_items,
                    tokens_start == *old(tokens),
                    pairs_dom == old(self).trade_pairs@.dom(),
                    levels_of(l_start, tp_hash) == (b0, s0),
                    opp.len() > 0,
                    item_price == innermost(opp, otype),
                    opp0 == (if otype == OrderType::Buy { s0 } else { b0 }),
                    own_levels(self.linked_items, tp_hash, otype) == (if otype == OrderType::Buy { b0 } else { s0 }),
                    taken_from_head(opp0, opposite_levels(self.linked_items, tp_hash, otype), otype, gone),
                    opposite_levels(self.linked_items, tp_hash, otype).len() <= opp.len(),
                    other_books_same(self.linked_items, l_start, tp_hash),
                    tokens_kept(tokens_start, *tokens),
                    self.trade_pairs@.dom() == pairs_dom,
                    pairs_kept_but(module_start.trade_pairs@, self.trade_pairs@, tp_hash, otype),
                    orders_start == old(self).orders@,
                    module_start == *old(self),
                    orders_kept(orders_start, self.orders@),
                    orders_start.contains_key(order.hash),
                    same_terms(orders_start[order.hash], order),
                    same_terms(taker, order),
                    self.listed_same(module_start),
                    trades_start == old(self).trades@,
                    consistent == book_orders_stored(l_start, orders_start),
                    consistent ==> book_orders_stored(self.linked_items, self.orders@),
                    consistent ==> new_trades_accepted(trades_start, self.trades@, order.owner, otype, oprice),
                    price_accepts(oprice, otype, item_price),
                    !quiet,
                    !matched ==> self.trades == module_start.trades,
                    matched ==> best_recorded(*self, tp_hash, otype.opposite_spec()),
                    quiet == (order.status != OrderStatus::Filled && match_stopped(l0, tp_hash, otype, oprice)),
                    (!l_start.built(tp_hash) || match_stopped(l_start, tp_hash, otype, oprice)) ==> match_stopped(
                        l0,
                        tp_hash,
                        otype,
                        oprice,
                    ),
                    consistent ==> orders_at_price(self.orders@, snapshot, item_price),
                    tracked_taker == (consistent && not_in_book(l_start, order.hash) && orders_start[order.hash] == order),
                    tracked_taker ==> not_in_book(self.linked_items, order.hash) && self.orders@[order.hash] == taker,
                    order.status != OrderStatus::Filled && taker.status == OrderStatus::Filled
                        ==> taker.remained_sell_amount == 0 && taker.remained_buy_amount == 0,
                    tracked_taker ==> forall|i: int| 0 <= i < snapshot.len() ==> #[trigger] snapshot[i] != order.hash,
                    pairs == old(self).trade_pairs@.dom(),
                    pairs.contains(tp_hash),
                    give == sold_token(old(self).trade_pairs@[tp_hash].base, old(self).trade_pairs@[tp_hash].quote, otype),
                    have == sold_token(
                        old(self).trade_pairs@[tp_hash].base,
                        old(self).trade_pairs@[tp_hash].quote,
                        otype.opposite_spec(),
                    ),
                    match_trace(steps, tp_hash, otype, give, have, pairs, l_start, tokens_start.ledger(), orders_start, order, module_start.nonce),
                    l_start.built(tp_hash) ==> l0 == l_start,
                    !l_start.built(tp_hash) ==> opposite_levels(l0, tp_hash, otype).len() == 0,
                    steps.len() == 0 ==> self.linked_items == l0 && taker == order && self.orders@ == orders_start
                        && tokens.ledger() == tokens_start.ledger() && self.nonce == module_start.nonce,
                    steps.len() == 0 ==> self.trades@ == trades_start && self.trade_lists() == module_start.trade_lists()
                        && tokens.events@ == tokens_start.events@,
                    steps_done(steps, self.linked_items, tokens.ledger(), self.orders@, taker, self.nonce, tp_hash, otype, give, have, pairs),
                    tb == old(self).trade_pairs@[tp_hash].base,
                    tp == old(self).trade_pairs@[tp_hash],
                    best_levels_recorded(module_start, tp_hash) ==> best_levels_recorded(*self, tp_hash),
                    tq == old(self).trade_pairs@[tp_hash].quote,
                    trace_records(steps, *ctx, tp_hash, tb, tq, give, have, trades_start, module_start.trade_lists(), tokens_start.events@),
                    records_done(
                        steps,
                        self.trades@,
                        self.trade_lists(),
                        tokens.events@,
                        self.trade_pairs@[tp_hash].latest_matched_price,
                        *ctx,
                        tp_hash,
                        tb,
                        tq,
                        give,
                        have,
                    ),
                    trades_traced(trades_start, self.trades@, steps),
                    snapshot == l_iter@[(tp_hash, Some(item_price))].orders,
                    opp == opposite_levels(l_iter, tp_hash, otype),
                ensures
                    steps.len() > 0 && taker.status != OrderStatus::Filled ==> steps.last().pos + 1
                        == steps.last().queue.len(),
                    taker.status == OrderStatus::Filled || opposite_levels(self.linked_items, tp_hash, otype).len()
                        < opp.len(),
                decreases snapshot.len() - idx,
            {
                if idx >= item.orders.len() {
                    proof {
                        let l = self.linked_items;
                        if opposite_levels(l, tp_hash, otype) == opp && idx <= j <= snapshot.len()
                            && l@[(tp_hash, Some(item_price))].orders == snapshot.skip(j) {
                            // the level would be left without orders
                            assert(book_shape(l@, tp_hash, l.buys(tp_hash), l.sells(tp_hash)));
                            if otype == OrderType::Buy {
                                assert(l@[(tp_hash, Some(l.sells(tp_hash)[0]))].orders.len() > 0);
                            } else {
                                let n = l.buys(tp_hash).len() - 1;
                                assert(l@[(tp_hash, Some(l.buys(tp_hash)[n]))].orders.len() > 0);
                            }
                            assert(snapshot.skip(j).len() == 0);
                        }
                    }
                    break;
                }
                let o_hash = item.orders[idx];
                let ghost l_pre = self.linked_items;
                let ghost orders_pre = self.orders@;
                let ghost trades_pre = self.trades@;
                proof {
                    assert(orders_start.contains_key(order.hash));
                    assert(self.orders@.contains_key(taker.hash));
                    assert(same_terms(self.orders@[taker.hash], taker));
                    assert(o_hash == snapshot[idx as int]);
                    if consistent {
                        assert(self.orders@.contains_key(snapshot[idx as int]));
                        assert(orders_pre[o_hash].price == item_price);
                    }
                }
                let ghost step = MatchStep {
                    level: item_price,
                    queue: snapshot,
                    pos: idx as int,
                    book: self.linked_items,
                    ledger: tokens.ledger(),
                    orders: self.orders@,
                    taker: taker,
                    nonce: self.nonce,
                    trades: self.trades@,
                    lists: self.trade_lists(),
                    token_events: tokens.events@,
                };
                let ghost steps_pre = steps;
                let ghost module_pre = *self;
                let ghost pairs_pre = self.trade_pairs@;
                let res = self.match_resting_order(tokens, tp_hash, &tp, give, have, &mut taker, o_hash, ctx);
                proof {
                    lemma_pairs_kept_trans(module_start.trade_pairs@, pairs_pre, self.trade_pairs@, tp_hash, otype);
                    steps = steps.push(step);
                    lemma_trace_extended(
                        steps_pre,
                        step,
                        tp_hash,
                        otype,
                        give,
                        have,
                        pairs,
                        l_start,
                        tokens_start.ledger(),
                        orders_start,
                        order,
                        module_start.nonce,
                        l0,
                        l_iter,
                    );
                    assert(o_hash == step.maker_hash());
                    lemma_records_extended(
                        steps_pre,
                        step,
                        *ctx,
                        tp_hash,
                        tb,
                        tq,
                        give,
                        have,
                        trades_start,
                        module_start.trade_lists(),
                        tokens_start.events@,
                    );
                    lemma_trades_traced_step(trades_start, trades_pre, self.trades@, steps_pre, step);
                    lemma_orders_kept_trans(orders_start, orders_pre, self.orders@);
                    if tracked_taker {
                        lemma_not_in_book_removed(l_pre, self.linked_items, order.hash, tp_hash, otype.opposite_spec(), self.orders@);
                        assert(snapshot[idx as int] != order.hash);
                    }
                    if consistent {
                        lemma_book_orders_removed(
                            l_pre,
                            orders_pre,
                            self.linked_items,
                            self.orders@,
                            tp_hash,
                            otype.opposite_spec(),
                            self.orders@,
                        );
                        assert forall|i: int| 0 <= i < snapshot.len() implies #[trigger] self.orders@.contains_key(
                            snapshot[i],
                        ) && self.orders@[snapshot[i]].price == item_price by {
                            assert(orders_pre.contains_key(snapshot[i]));
                            assert(same_terms(self.orders@[snapshot[i]], orders_pre[snapshot[i]]));
                        }
                        assert(orders_at_price(self.orders@, snapshot, item_price));
                        assert(orders_pre[o_hash].price == item_price);
                        lemma_trades_accepted_step(trades_start, trades_pre, self.trades@, order.owner, otype, oprice, item_price);
                    }
                    if res is Ok || self.linked_items != l_pre {
                        let taker_filled = !(res is Ok && taker.status != OrderStatus::Filled);
                        let (j2, r) = lemma_match_progress(
                            l_pre,
                            self.linked_items,
                            self.orders@,
                            tp_hash,
                            otype,
                            opp,
                            item_price,
                            snapshot,
                            j,
                            idx as int,
                            taker_filled,
                        );
                        lemma_taken_more(
                            opp0,
                            opposite_levels(l_pre, tp_hash, otype),
                            opposite_levels(self.linked_items, tp_hash, otype),
                            otype,
                            gone,
                            r,
                        );
                        gone = gone + r;
                        j = j2;
                        lemma_other_books_trans(self.linked_items, l_pre, l_start, tp_hash);
                    }
                }
                match res {
                    Ok(_) => {},
                    Err(e) => {
                        proof {
                            lemma_books_matched(l_start, self.linked_items, tp_hash, otype, b0, s0, gone);
                            assert(matched_by(
                                steps,
                                old(self).trade_pairs@,
                                old(self).linked_items,
                                *old(tokens),
                                old(self).orders@,
                                old(self).trades@,
                                old(self).trade_lists(),
                                old(self).nonce,
                                *tokens,
                                self.trade_pairs@,
                                self.orders@,
                                self.trades@,
                                self.trade_lists(),
                                self.nonce,
                                tp_hash,
                                order,
                                *ctx,
                                false,
                            ) && Err::<bool, &'static str>(e) == match_answer(steps, old(self).trade_pairs@, tp_hash, order));
                        }
                        return Err(e);
                    },
                }
                proof {
                    matched = true;
                    assert(step.maker() == orders_pre[o_hash]);
                    assert(step.nonce == module_pre.nonce);
                    assert(tb == tp.base && tq == tp.quote);
                    assert(self.trades@ == step.trades.insert(
                        match_trade(*ctx, step.nonce, tb, tq, step.taker, step.maker()).hash,
                        match_trade(*ctx, step.nonce, tb, tq, step.taker, step.maker()),
                    ));
                    lemma_step_recorded(
                        steps,
                        step,
                        self.trades@,
                        self.trade_lists(),
                        tokens.events@,
                        self.trade_pairs@[tp_hash].latest_matched_price,
                        *ctx,
                        tp_hash,
                        tb,
                        tq,
                        give,
                        have,
                    );
                }
                if taker.status == OrderStatus::Filled {
                    break;
                }
                idx = idx + 1;
            }
            proof {
                let l = self.linked_items;
                let c2 = chain(l.buys(tp_hash), l.sells(tp_hash));
                assert(node_linked(l@, tp_hash, c2, l.buys(tp_hash).len() as int + 1));
            }
            head = self.linked_items.read_head(tp_hash);
        }
        proof {
            lemma_books_matched(l_start, self.linked_items, tp_hash, otype, b0, s0, gone);
            assert(matched_by(
                steps,
                old(self).trade_pairs@,
                old(self).linked_items,
                *old(tokens),
                old(self).orders@,
                old(self).trades@,
                old(self).trade_lists(),
                old(self).nonce,
                *tokens,
                self.trade_pairs@,
                self.orders@,
                self.trades@,
                self.trade_lists(),
                self.nonce,
                tp_hash,
                order,
                *ctx,
                true,
            ) && Ok::<bool, &'static str>(taker.status == OrderStatus::Filled) == match_answer(steps, old(self).trade_pairs@, tp_hash, order));
        }
        let filled = taker.status == OrderStatus::Filled;
        let r: Result<bool, &'static str> = Ok(filled);
        assert(matched_by(
            steps,
            old(self).trade_pairs@,
            old(self).linked_items,
            *old(tokens),
            old(self).orders@,
            old(self).trades@,
            old(self).trade_lists(),
            old(self).nonce,
            *tokens,
            self.trade_pairs@,
            self.orders@,
            self.trades@,
            self.trade_lists(),
            self.nonce,
            tp_hash,
            order,
            *ctx,
            r is Ok,
        ) && r == match_answer(steps, old(self).trade_pairs@, tp_hash, order));
        r
    }
}

/// The token that an order of type `otype` on the pair of `base` against
/// `quote` sells: the base token for a buy, the quote token for a sell.
pub open spec fn sold_token(base: H256, quote: H256, otype: OrderType) -> H256 {
    if otype == OrderType::Buy {
        base
    } else {
        quote
    }
}

impl Module {
    /// Why `do_create_limit_order` refuses before it records the order, if
    /// it does.
    pub open spec fn create_order_error(
        self,
        tokens: TokenModule,
        sender: AccountId,
        base: H256,
        quote: H256,
        otype: OrderType,
        price: Price,
        sell_amount: Balance,
    ) -> Option<&'static str> {
        let cp = counterparty(otype, price as nat, sell_amount as nat);
        let token = sold_token(base, quote, otype);
        if !(price > 0) {
            Some("price bounds check failed")
        } else if !(sell_amount > 0) {
            Some("sell amount bound check failed")
        } else if sell_amount != cp.1 {
            Some("amount have digits parts")
        } else if cp.0 == 0 || cp.0 > u128::MAX {
            Some("counterparty bound check failed")
        } else if !self.trade_pairs_hash_by_base_quote@.contains_key((base, quote)) {
            Some("not trade pair with base & quote")
        } else if tokens.free_balance_error(sender, token, sell_amount) is Some {
            tokens.free_balance_error(sender, token, sell_amount)
        } else {
            tokens.freeze_error(sender, token, sell_amount)
        }
    }

    /// The order that `do_create_limit_order` creates: it buys the
    /// counterparty amount, and its hash is that of its terms, the block and
    /// the module's nonce.
    pub open spec fn created_order(
        self,
        ctx: ChainContext,
        sender: AccountId,
        base: H256,
        quote: H256,
        otype: OrderType,
        price: Price,
        sell_amount: Balance,
    ) -> LimitOrder {
        let buy_amount = counterparty(otype, price as nat, sell_amount as nat).0 as u128;
        LimitOrder {
            hash: blake2_256(
                order_hash_input(ctx, base, quote, sender, price, sell_amount, buy_amount, otype, self.nonce),
            ),
            base,
            quote,
            owner: sender,
            price,
            sell_amount,
            buy_amount,
            remained_sell_amount: sell_amount,
            remained_buy_amount: buy_amount,
            otype,
            status: OrderStatus::Created,
        }
    }

    /// What `do_create_limit_order` for `sender` does to the trade module
    /// `before` (leaving `after`) and the token module `tokens_before`
    /// (leaving `tokens_after`), answering `r`.
    pub open spec fn limit_order_created(
        before: Module,
        after: Module,
        tokens_before: TokenModule,
        tokens_after: TokenModule,
        ctx: ChainContext,
        sender: AccountId,
        base: H256,
        quote: H256,
        otype: OrderType,
        price: Price,
        sell_amount: Balance,
        r: Result<(), &'static str>,
    ) -> bool {
        let err = before.create_order_error(tokens_before, sender, base, quote, otype, price, sell_amount);
        let order = before.created_order(ctx, sender, base, quote, otype, price, sell_amount);
        let tp_hash = before.trade_pairs_hash_by_base_quote@[(base, quote)];
        let idx = count_at(before.owned_orders_indexes@, sender);
        let tp_idx = count_at(before.trade_pair_owned_order_indexes@, tp_hash);
        &&& err is Some ==> {
            &&& r == Err::<(), &'static str>(err->0)
            &&& after == before
            &&& tokens_after == tokens_before
        }
        &&& err is None ==> {
            &&& orders_kept(before.orders@.insert(order.hash, order), after.orders@)
            &&& after.owned_orders@ == before.owned_orders@.insert((sender, idx), order.hash)
            &&& after.owned_orders_indexes@ == before.owned_orders_indexes@.insert(sender, (idx + 1) as u64)
            &&& after.trade_pair_owned_orders@ == before.trade_pair_owned_orders@.insert(
                (tp_hash, tp_idx),
                order.hash,
            )
            &&& after.trade_pair_owned_order_indexes@ == before.trade_pair_owned_order_indexes@.insert(
                tp_hash,
                (tp_idx + 1) as u64,
            )
            &&& after.trade_pairs_hash_by_base_quote == before.trade_pairs_hash_by_base_quote
            &&& after.trade_pairs@.dom() == before.trade_pairs@.dom()
            &&& after.events@ == before.events@.push(Event::OrderCreated(sender, base, quote, order.hash, order))
            // an order that the book does not cross is put in it, with no trade, and
            // what it sells is frozen
            &&& !crosses(before.linked_items, tp_hash, otype, price) ==> r == Ok::<(), &'static str>(())
                && after.trades == before.trades && tokens_after.freeze_done(
                tokens_before,
                sender,
                sold_token(base, quote, otype),
                sell_amount,
            )
            // and then the pair records the best price of the order's side, and the
            // nonce moved on once, for the order
            &&& !crosses(before.linked_items, tp_hash, otype, price) ==> after.trade_pairs@
                == before.trade_pairs@.insert(
                tp_hash,
                with_side_best(before.trade_pairs@[tp_hash], otype, after.linked_items, tp_hash),
            ) && after.nonce == before.nonce.wrapping_add(1)
            // among the pairs only this one changes, keeping its hash and tokens, and the
            // price it records for the order's side changes only to that side's best
            &&& forall|k: H256| #[trigger] after.trade_pairs@.contains_key(k) && k != tp_hash
                ==> after.trade_pairs@[k] == before.trade_pairs@[k]
            &&& after.trade_pairs@[tp_hash].hash == before.trade_pairs@[tp_hash].hash
            &&& after.trade_pairs@[tp_hash].base == before.trade_pairs@[tp_hash].base
            &&& after.trade_pairs@[tp_hash].quote == before.trade_pairs@[tp_hash].quote
            &&& side_price(after.trade_pairs@[tp_hash], otype) != side_price(before.trade_pairs@[tp_hash], otype)
                ==> best_recorded(after, tp_hash, otype)
            // where every pair recorded the best prices of both sides of its book, every
            // pair still does
            &&& r is Ok && (forall|k: H256| #[trigger] before.trade_pairs@.contains_key(k) ==> best_levels_recorded(before, k))
                ==> (forall|k: H256| #[trigger] after.trade_pairs@.contains_key(k) ==> best_levels_recorded(after, k))
            // once a trade is made, the pair records the other side's best price
            &&& r is Ok && after.trades != before.trades ==> best_recorded(after, tp_hash, otype.opposite_spec())
            // the order, stored and with what it sells frozen, is matched against the
            // book: the matches made are those that the book gives, one after the
            // other, the answer is theirs, and the amounts, the stored orders and the
            // trades are what they leave
            &&& exists|steps: Seq<MatchStep>, frozen: TokenModule| #[trigger]
                matched_by(
                    steps,
                    before.trade_pairs@,
                    before.linked_items,
                    frozen,
                    before.orders@.insert(order.hash, order),
                    before.trades@,
                    before.trade_lists(),
                    before.nonce.wrapping_add(1),
                    tokens_after,
                    after.trade_pairs@,
                    after.orders@,
                    after.trades@,
                    after.trade_lists(),
                    after.nonce,
                    tp_hash,
                    order,
                    ctx,
                    r is Ok,
                ) && frozen.freeze_done(tokens_before, sender, sold_token(base, quote, otype), sell_amount) && r == (
                match match_answer(steps, before.trade_pairs@, tp_hash, order) {
                    Ok(_) => Ok::<(), &'static str>(()),
                    Err(e) => Err(e),
                })
            &&& exists|mid: LinkedList| #[trigger]
                matched_books(before.linked_items, mid, tp_hash, otype) && Self::rest_placed(
                    before,
                    after,
                    mid,
                    tp_hash,
                    order,
                    r,
                )
            // and the trades made are at prices it accepts
            &&& book_orders_stored(before.linked_items, before.orders@) && !before.orders@.contains_key(order.hash)
                ==> {
                &&& book_orders_stored(after.linked_items, after.orders@)
                &&& new_trades_accepted(before.trades@, after.trades@, sender, otype, price)
                // a filled order has nothing left to sell or to buy
                &&& r is Ok && after.orders@[order.hash].status == OrderStatus::Filled ==> after.orders@[
                    order.hash
                ].remained_sell_amount == 0 && after.orders@[order.hash].remained_buy_amount == 0
            }
        }
    }

    /// How the books of `after` follow from `mid`, the books as matching
    /// `order` against those of `before` left them.
    pub open spec fn rest_placed(
        before: Module,
        after: Module,
        mid: LinkedList,
        tp_hash: H256,
        order: LimitOrder,
        r: Result<(), &'static str>,
    ) -> bool {
        let placed = after.linked_items.appended(mid, tp_hash, order.price, order.hash, order.otype);
        let fresh = book_orders_stored(before.linked_items, before.orders@) && !before.orders@.contains_key(
            order.hash,
        );
        // the books are as matching left them, or (on success) hold the order besides
        &&& after.linked_items == mid || (r is Ok && placed)
        // an order that the book does not cross is put in it
        &&& !crosses(before.linked_items, tp_hash, order.otype, order.price) ==> placed
        // where the order rests in the book, the pair records its side's best price
        &&& r is Ok && placed ==> best_recorded(after, tp_hash, order.otype)
        // where every resting order is stored at its level's price and the order's
        // hash is fresh, the order rests in the book exactly when it was not filled
        &&& fresh && r is Ok ==> (placed <==> after.orders@[order.hash].status != OrderStatus::Filled)
    }

    /// Creates a limit order of `sender` selling `sell_amount` at `price`
    /// on the pair of `base` against `quote`: checks the price and the
    /// amount, computes the amount it buys, freezes what it sells, records
    /// it (with its indexes for its owner and its pair), matches it against
    /// the book, and puts what is left of it in the book.
    #[verifier::rlimit(100)]
    #[verifier::spinoff_prover]
    pub fn do_create_limit_order(
        &mut self,
        tokens: &mut TokenModule,
        sender: AccountId,
        base: H256,
        quote: H256,
        otype: OrderType,
        price: Price,
        sell_amount: Balance,
        ctx: &ChainContext,
    ) -> (r: Result<(), &'static str>)
        requires
            old(self).wf(),
            count_at(old(self).owned_orders_indexes@, sender) < u64::MAX,
            old(self).trade_pairs_hash_by_base_quote@.contains_key((base, quote)) ==> count_at(
                old(self).trade_pair_owned_order_indexes@,
                old(self).trade_pairs_hash_by_base_quote@[(base, quote)],
            ) < u64::MAX,
        ensures
            Self::limit_order_created(
                *old(self),
                *final(self),
                *old(tokens),
                *final(tokens),
                *ctx,
                sender,
                base,
                quote,
                otype,
                price,
                sell_amount,
                r,
            ),
            final(self).wf(),
            tokens_kept(*old(tokens), *final(tokens)),
            books_uncrossed(old(self).linked_items) ==> books_uncrossed(final(self).linked_items),
    {
        match Self::ensure_bounds(price, sell_amount) {
            Ok(_) => {},
            Err(e) => {
                return Err(e);
            },
        }
        let buy_amount = match Self::ensure_counterparty_amount_bounds(otype, price, sell_amount) {
            Ok(v) => v,
            Err(e) => {
                return Err(e);
            },
        };
        let tp_hash = match self.ensure_trade_pair(base, quote) {
            Ok(h) => h,
            Err(e) => {
                return Err(e);
            },
        };
        let op_token_hash = match otype {
            OrderType::Buy => base,
            OrderType::Sell => quote,
        };
        let order = LimitOrder::new(base, quote, sender, price, sell_amount, buy_amount, otype, self.nonce, ctx);
        let hash = order.hash;
        match tokens.ensure_free_balance(sender, op_token_hash, sell_amount) {
            Ok(_) => {},
            Err(e) => {
                return Err(e);
            },
        }
        match tokens.do_freeze(sender, op_token_hash, sell_amount) {
            Ok(_) => {},
            Err(e) => {
                return Err(e);
            },
        }
        self.orders.insert(hash, order);
        self.nonce = self.nonce.wrapping_add(1);
        self.events.push(Event::OrderCreated(sender, base, quote, hash, order));
        let owned_index = self.owned_orders_index(sender);
        self.owned_orders.insert((sender, owned_index), hash);
        self.owned_orders_indexes.insert(sender, owned_index + 1);
        let tp_owned_index = self.trade_pair_owned_order_index(tp_hash);
        self.trade_pair_owned_orders.insert((tp_hash, tp_owned_index), hash);
        self.trade_pair_owned_order_indexes.insert(tp_hash, tp_owned_index + 1);
        let ghost recorded = *self;
        let ghost tokens_frozen = *tokens;
        proof {
            assert(orders_kept(old(self).orders@.insert(hash, order), self.orders@));
            let l = self.linked_items;
            if book_orders_stored(l, old(self).orders@) && !old(self).orders@.contains_key(hash) {
                assert forall|k: (H256, Option<Price>), i: int|
                    l@.contains_key(k) && 0 <= i < l@[k].orders.len() implies {
                        &&& self.orders@.contains_key(#[trigger] l@[k].orders[i])
                        &&& k.1 == Some(self.orders@[l@[k].orders[i]].price)
                    } by {
                    assert(old(self).orders@.contains_key(l@[k].orders[i]));
                }
                assert forall|k: (H256, Option<Price>), i: int|
                    l@.contains_key(k) && 0 <= i < l@[k].orders.len() implies #[trigger] l@[k].orders[i] != hash by {
                    assert(old(self).orders@.contains_key(l@[k].orders[i]));
                }
                assert(not_in_book(l, hash));
                assert(self.orders@[hash] == order);
            }
        }
        proof {
            assert(self.orders@ == old(self).orders@.insert(hash, order));
        }
        let res = self.order_match(tokens, tp_hash, order, ctx);
        let ghost steps = choose|steps: Seq<MatchStep>|
            matched_by(
                steps,
                recorded.trade_pairs@,
                recorded.linked_items,
                tokens_frozen,
                recorded.orders@,
                recorded.trades@,
                recorded.trade_lists(),
                recorded.nonce,
                *tokens,
                self.trade_pairs@,
                self.orders@,
                self.trades@,
                self.trade_lists(),
                self.nonce,
                tp_hash,
                order,
                *ctx,
                res is Ok,
            ) && res == match_answer(steps, recorded.trade_pairs@, tp_hash, order);
        let filled = match res {
            Ok(f) => f,
            Err(e) => {
                proof {
                    assert(matched_by(
                        steps,
                        old(self).trade_pairs@,
                        old(self).linked_items,
                        tokens_frozen,
                        old(self).orders@.insert(hash, order),
                        old(self).trades@,
                        old(self).trade_lists(),
                        old(self).nonce.wrapping_add(1),
                        *tokens,
                        self.trade_pairs@,
                        self.orders@,
                        self.trades@,
                        self.trade_lists(),
                        self.nonce,
                        tp_hash,
                        order,
                        *ctx,
                        false,
                    ));
                    lemma_orders_kept_trans(old(self).orders@.insert(hash, order), recorded.orders@, self.orders@);
                    let mid = self.linked_items;
                    assert(matched_books(old(self).linked_items, mid, tp_hash, otype));
                    if books_uncrossed(old(self).linked_items) {
                        lemma_uncrossed_matched(old(self).linked_items, mid, tp_hash, otype);
                    }
                }
                return Err(e);
            },
        };
        let ghost mid = self.linked_items;
        let ghost matched_state = *self;
        let ghost tokens_matched = *tokens;
        proof {
            lemma_orders_kept_trans(old(self).orders@.insert(hash, order), recorded.orders@, self.orders@);
            assert(matched_books(old(self).linked_items, mid, tp_hash, otype));
            if books_uncrossed(old(self).linked_items) {
                lemma_uncrossed_matched(old(self).linked_items, mid, tp_hash, otype);
            }
        }
        proof {
            lemma_appended_changes(mid, tp_hash, price, hash, otype);
        }
        if !filled {
            self.linked_items.append(tp_hash, price, hash, otype);
            let ghost placed = self.linked_items;
            proof {
                if books_uncrossed(mid) {
                    lemma_uncrossed_appended(mid, placed, tp_hash, price, hash, otype);
                }
                assert(self.orders@.contains_key(hash));
                assert(same_terms(self.orders@[hash], order));
                if book_orders_stored(mid, self.orders@) {
                    lemma_book_orders_appended(mid, placed, self.orders@, tp_hash, price, hash, otype);
                }
            }
            match self.set_tp_buy_one_or_sell_one_price(tp_hash, otype) {
                Ok(_) => {},
                Err(e) => {
                    return Err(e);
                },
            }
            proof {
                assert(self.linked_items == placed);
                assert(old(self).trade_pairs@.contains_key(tp_hash));
                assert(self.trade_pairs@.dom() =~= old(self).trade_pairs@.dom());
                assert(best_recorded(*self, tp_hash, otype));
                if self.trades != old(self).trades {
                    assert(best_recorded(matched_state, tp_hash, otype.opposite_spec()));
                    assert(own_levels(placed, tp_hash, otype.opposite_spec()) == own_levels(mid, tp_hash, otype.opposite_spec()));
                    assert(best_recorded(*self, tp_hash, otype.opposite_spec()));
                }
                if best_levels_recorded(matched_state, tp_hash) {
                    assert(own_levels(placed, tp_hash, otype.opposite_spec()) == own_levels(mid, tp_hash, otype.opposite_spec()));
                    assert(best_levels_recorded(*self, tp_hash));
                }
            }
        }
        proof {
            assert(best_levels_recorded(recorded, tp_hash) == best_levels_recorded(*old(self), tp_hash));
            if forall|k: H256| #[trigger] old(self).trade_pairs@.contains_key(k) ==> best_levels_recorded(*old(self), k) {
                assert(best_levels_recorded(*old(self), tp_hash));
                assert(best_levels_recorded(*self, tp_hash));
                lemma_levels_recorded_others(*old(self), *self, tp_hash);
            }
            assert(self.orders == matched_state.orders && self.trades == matched_state.trades);
            assert(*tokens == tokens_matched);
            assert(matched_by(
                steps,
                old(self).trade_pairs@,
                old(self).linked_items,
                tokens_frozen,
                old(self).orders@.insert(hash, order),
                old(self).trades@,
                old(self).trade_lists(),
                old(self).nonce.wrapping_add(1),
                *tokens,
                self.trade_pairs@,
                self.orders@,
                self.trades@,
                self.trade_lists(),
                self.nonce,
                tp_hash,
                order,
                *ctx,
                true,
            ));
        }
        Ok(())
    }

    /// `do_create_limit_order` for a dispatched call, by the signer of
    /// `origin`.
    pub fn create_limit_order(
        &mut self,
        tokens: &mut TokenModule,
        origin: Origin,
        base: H256,
        quote: H256,
        otype: OrderType,
        price: Price,
        sell_amount: Balance,
        ctx: &ChainContext,
    ) -> (r: Result<(), &'static str>)
        requires
            old(self).wf(),
            origin matches Origin::Signed(sender) ==> count_at(old(self).owned_orders_indexes@, sender) < u64::MAX,
            old(self).trade_pairs_hash_by_base_quote@.contains_key((base, quote)) ==> count_at(
                old(self).trade_pair_owned_order_indexes@,
                old(self).trade_pairs_hash_by_base_quote@[(base, quote)],
            ) < u64::MAX,
        ensures
            match origin {
                Origin::Signed(sender) => Self::limit_order_created(
                    *old(self),
                    *final(self),
                    *old(tokens),
                    *final(tokens),
                    *ctx,
                    sender,
                    base,
                    quote,
                    otype,
                    price,
                    sell_amount,
                    r,
                ),
                _ => {
                    &&& r == Err::<(), &'static str>("bad origin: expected to be a signed origin")
                    &&& *final(self) == *old(self)
                    &&& *final(tokens) == *old(tokens)
                },
            },
            final(self).wf(),
            tokens_kept(*old(tokens), *final(tokens)),
            books_uncrossed(old(self).linked_items) ==> books_uncrossed(final(self).linked_items),
    {
        let sender = ensure_signed(origin)?;
        self.do_create_limit_order(tokens, sender, base, quote, otype, price, sell_amount, ctx)
    }

    /// Why `do_cancel_limit_order` refuses, if it does.
    pub open spec fn cancel_error(self, sender: AccountId, order_hash: H256) -> Option<&'static str> {
        let o = self.orders@[order_hash];
        if !self.orders@.contains_key(order_hash) {
            Some("can not get order")
        } else if o.owner != sender {
            Some("can only cancel your owned order")
        } else if o.finished() {
            Some("can not cancel finished order")
        } else if !self.trade_pairs_hash_by_base_quote@.contains_key((o.base, o.quote)) {
            Some("not trade pair with base & quote")
        } else {
            None
        }
    }

    /// What `do_cancel_limit_order` for `sender` does to the trade module
    /// `before` (leaving `after`), answering `r`.
    pub open spec fn limit_order_canceled(
        before: Module,
        after: Module,
        sender: AccountId,
        order_hash: H256,
        r: Result<(), &'static str>,
    ) -> bool {
        let err = before.cancel_error(sender, order_hash);
        let o = before.orders@[order_hash];
        let tp_hash = before.trade_pairs_hash_by_base_quote@[(o.base, o.quote)];
        &&& r == (match err {
            Some(e) => Err::<(), &'static str>(e),
            None => Ok(()),
        })
        &&& err is Some ==> after == before
        &&& err is None ==> {
            &&& after.linked_items.order_taken_off(before.linked_items, tp_hash, o.price, order_hash)
            &&& after.events@ == before.events@.push(Event::OrderCanceled(sender, order_hash))
            &&& after.same_but_books_and_events(before)
        }
    }

    /// Everything but the books and the reports is the same.
    pub open spec fn same_but_books_and_events(self, other: Module) -> bool {
        &&& self.trade_pairs == other.trade_pairs
        &&& self.trade_pairs_hash_by_base_quote == other.trade_pairs_hash_by_base_quote
        &&& self.orders == other.orders
        &&& self.owned_orders == other.owned_orders
        &&& self.owned_orders_indexes == other.owned_orders_indexes
        &&& self.order_owned_trades == other.order_owned_trades
        &&& self.trade_pair_owned_orders == other.trade_pair_owned_orders
        &&& self.trade_pair_owned_order_indexes == other.trade_pair_owned_order_indexes
        &&& self.trades == other.trades
        &&& self.owned_trades == other.owned_trades
        &&& self.owned_tp_trades == other.owned_tp_trades
        &&& self.trade_pair_owned_trades == other.trade_pair_owned_trades
        &&& self.nonce == other.nonce
    }

    /// Cancels order `order_hash` of `sender`: it must be `sender`'s, not
    /// finished, and its pair must exist; the order is taken off its level of
    /// the book. What it froze stays frozen and the stored order is not
    /// changed.
    pub fn do_cancel_limit_order(&mut self, sender: AccountId, order_hash: H256) -> (r: Result<(), &'static str>)
        requires
            old(self).wf(),
        ensures
            Self::limit_order_canceled(*old(self), *final(self), sender, order_hash, r),
            final(self).wf(),
            books_uncrossed(old(self).linked_items) ==> books_uncrossed(final(self).linked_items),
            book_orders_stored(old(self).linked_items, old(self).orders@) ==> book_orders_stored(
                final(self).linked_items,
                final(self).orders@,
            ),
    {
        let order = match self.order(order_hash) {
            Some(o) => o,
            None => {
                return Err("can not get order");
            },
        };
        if !(order.owner == sender) {
            return Err("can only cancel your owned order");
        }
        if order.is_finished() {
            return Err("can not cancel finished order");
        }
        let tp_hash = match self.ensure_trade_pair(order.base, order.quote) {
            Ok(h) => h,
            Err(e) => {
                return Err(e);
            },
        };
        let ghost before = self.linked_items;
        self.linked_items.remove_order(tp_hash, order.price, order.hash);
        proof {
            if books_uncrossed(before) {
                lemma_uncrossed_taken_off(before, self.linked_items, tp_hash, order.price, order.hash);
            }
            if book_orders_stored(before, self.orders@) {
                lemma_book_orders_taken_off(before, self.linked_items, self.orders@, tp_hash, order.price, order.hash);
            }
        }
        self.events.push(Event::OrderCanceled(sender, order.hash));
        Ok(())
    }

    /// `do_cancel_limit_order` for a dispatched call, by the signer of
    /// `origin`.
    pub fn cancel_limit_order(&mut self, origin: Origin, order_hash: H256) -> (r: Result<(), &'static str>)
        requires
            old(self).wf(),
        ensures
            match origin {
                Origin::Signed(sender) => Self::limit_order_canceled(*old(self), *final(self), sender, order_hash, r),
                _ => {
                    &&& r == Err::<(), &'static str>("bad origin: expected to be a signed origin")
                    &&& *final(self) == *old(self)
                },
            },
            final(self).wf(),
            books_uncrossed(old(self).linked_items) ==> books_uncrossed(final(self).linked_items),
            book_orders_stored(old(self).linked_items, old(self).orders@) ==> book_orders_stored(
                final(self).linked_items,
                final(self).orders@,
            ),
    {
        let sender = ensure_signed(origin)?;
        self.do_cancel_limit_order(sender, order_hash)
    }
}
} // verus!
