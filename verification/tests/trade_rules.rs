use substrate_dex::system::{ChainContext, Origin};
use substrate_dex::token::Module as TokenModule;
use substrate_dex::trade::{Event, LimitOrder, OrderStatus, OrderType, Module as TradeModule};
use substrate_dex::types::{LinkedItem, PRICE_MAX};
use substrate_dex::H256;

const ALICE: u64 = 10;
const BOB: u64 = 20;
const CHARLIE: u64 = 30;

fn ctx() -> ChainContext {
    ChainContext { random_seed: (0, 0), block_number: 0 }
}

/// Two tokens (alice's is the base, bob's the quote), without a pair.
fn two_tokens() -> (TokenModule, H256, H256) {
    let ctx = ctx();
    let mut tokens = TokenModule::new();
    assert_eq!(tokens.issue(Origin::signed(ALICE), b"66".to_vec(), 21000000, &ctx), Ok(()));
    assert_eq!(tokens.issue(Origin::signed(BOB), b"77".to_vec(), 10000000, &ctx), Ok(()));
    let base = tokens.owned_token((ALICE, 0)).unwrap();
    let quote = tokens.owned_token((BOB, 0)).unwrap();
    (tokens, base, quote)
}

#[test]
fn trade_pair_creation_rules() {
    let ctx = ctx();
    let (tokens, base, quote) = two_tokens();
    let mut trade = TradeModule::new();
    assert_eq!(trade.create_trade_pair(&tokens, Origin::signed(ALICE), base, base, &ctx), Err("base and quote can not be the same token"));
    assert_eq!(trade.create_trade_pair(&tokens, Origin::signed(ALICE), base, (0, 5), &ctx), Err("can't find owner of base or quote token"));
    assert_eq!(trade.create_trade_pair(&tokens, Origin::signed(CHARLIE), base, quote, &ctx), Err("sender should be equal to owner of base or quote token"));
    assert_eq!(trade.create_trade_pair(&tokens, Origin::Root, base, quote, &ctx), Err("bad origin: expected to be a signed origin"));
    assert_eq!(trade.create_trade_pair(&tokens, Origin::signed(BOB), base, quote, &ctx), Ok(()));
    assert_eq!(trade.create_trade_pair(&tokens, Origin::signed(ALICE), base, quote, &ctx), Err("the same trade pair already exists"));
    assert_eq!(trade.create_trade_pair(&tokens, Origin::signed(ALICE), quote, base, &ctx), Err("the same trade pair already exists"));
    let tp_hash = trade.trade_pair_hash_by_base_quote((base, quote)).unwrap();
    let tp = trade.trade_pair(tp_hash).unwrap();
    assert_eq!(tp.hash, tp_hash);
    assert_ne!(tp_hash, (0, 0));
    assert_eq!((tp.base, tp.quote), (base, quote));
    assert_eq!((tp.buy_one_price, tp.sell_one_price, tp.latest_matched_price), (None, None, None));
    assert_eq!(trade.nonce, 1);
    assert_eq!(trade.events.len(), 1);
    assert!(matches!(trade.events[0], Event::TradePairCreated(20, _, _)));
    assert_eq!(trade.ensure_trade_pair(base, quote), Ok(tp_hash));
    assert_eq!(trade.ensure_trade_pair(quote, base), Err("not trade pair with base & quote"));
}

#[test]
fn limit_order_creation_errors() {
    let ctx = ctx();
    let (mut tokens, base, quote) = two_tokens();
    let mut trade = TradeModule::new();
    assert_eq!(trade.create_limit_order(&mut tokens, Origin::signed(ALICE), base, quote, OrderType::Buy, 0, 10, &ctx), Err("price bounds check failed"));
    assert_eq!(trade.create_limit_order(&mut tokens, Origin::signed(ALICE), base, quote, OrderType::Buy, 10, 0, &ctx), Err("sell amount bound check failed"));
    assert_eq!(trade.create_limit_order(&mut tokens, Origin::signed(ALICE), base, quote, OrderType::Buy, 25_010_000, 2500, &ctx), Err("amount have digits parts"));
    assert_eq!(trade.create_limit_order(&mut tokens, Origin::signed(ALICE), base, quote, OrderType::Sell, 200_000_000, u128::MAX - 1, &ctx), Err("counterparty bound check failed"));
    assert_eq!(trade.create_limit_order(&mut tokens, Origin::signed(ALICE), base, quote, OrderType::Buy, 20_000_000, 5, &ctx), Err("not trade pair with base & quote"));
    assert_eq!(trade.create_trade_pair(&tokens, Origin::signed(ALICE), base, quote, &ctx), Ok(()));
    assert_eq!(trade.create_limit_order(&mut tokens, Origin::signed(CHARLIE), base, quote, OrderType::Buy, 20_000_000, 5, &ctx), Err("sender does not have the token"));
    assert_eq!(trade.create_limit_order(&mut tokens, Origin::signed(BOB), base, quote, OrderType::Sell, 20_000_000, 10000005, &ctx), Err("does not have enough free balance to freeze"));
    assert_eq!(trade.create_limit_order(&mut tokens, Origin::Unsigned, base, quote, OrderType::Sell, 20_000_000, 5, &ctx), Err("bad origin: expected to be a signed origin"));
    // nothing was recorded
    assert_eq!(trade.owned_orders_index(ALICE), 0);
    assert_eq!(trade.owned_orders_index(BOB), 0);
    assert_eq!(trade.orders.len(), 0);
    assert_eq!(tokens.freezed_balance_of((BOB, quote)), 0);
}

#[test]
fn limit_order_records_and_freezes() {
    let ctx = ctx();
    let (mut tokens, base, quote) = two_tokens();
    let mut trade = TradeModule::new();
    assert_eq!(trade.create_trade_pair(&tokens, Origin::signed(ALICE), base, quote, &ctx), Ok(()));
    let tp_hash = trade.trade_pair_hash_by_base_quote((base, quote)).unwrap();
    assert_eq!(trade.create_limit_order(&mut tokens, Origin::signed(BOB), base, quote, OrderType::Sell, 50_000_000, 10, &ctx), Ok(()));
    let h = trade.owned_order((BOB, 0)).unwrap();
    assert_eq!(trade.trade_pair_owned_order((tp_hash, 0)), Some(h));
    assert_eq!(trade.owned_orders_index(BOB), 1);
    assert_eq!(trade.trade_pair_owned_order_index(tp_hash), 1);
    let o = trade.order(h).unwrap();
    assert_eq!(o.hash, h);
    assert_ne!(h, (0, 0));
    assert_eq!((o.owner, o.price, o.sell_amount, o.buy_amount, o.otype, o.status), (BOB, 50_000_000, 10, 5, OrderType::Sell, OrderStatus::Created));
    assert!(!o.is_finished());
    assert_eq!(tokens.freezed_balance_of((BOB, quote)), 10);
    assert_eq!(tokens.free_balance_of((BOB, quote)), 10000000 - 10);
    assert_eq!(trade.events.len(), 2);
    assert!(matches!(trade.events[1], Event::OrderCreated(20, _, _, _, _)));
    let tp = trade.trade_pair(tp_hash).unwrap();
    assert_eq!(tp.sell_one_price, Some(50_000_000));
    assert_eq!(tp.buy_one_price, None);

    // the same terms again give another order
    assert_eq!(trade.create_limit_order(&mut tokens, Origin::signed(BOB), base, quote, OrderType::Sell, 50_000_000, 10, &ctx), Ok(()));
    let h2 = trade.owned_order((BOB, 1)).unwrap();
    assert_ne!(h, h2);
    assert_eq!(trade.linked_item((tp_hash, Some(50_000_000))).unwrap().orders, vec![h, h2]);
}

#[test]
fn sell_order_matches_buy_levels_from_the_highest() {
    let ctx = ctx();
    let (mut tokens, base, quote) = two_tokens();
    let mut trade = TradeModule::new();
    assert_eq!(trade.create_trade_pair(&tokens, Origin::signed(ALICE), base, quote, &ctx), Ok(()));
    let tp_hash = trade.trade_pair_hash_by_base_quote((base, quote)).unwrap();
    // alice buys 20 quote at 0.2 and 10 quote at 0.5
    assert_eq!(trade.create_limit_order(&mut tokens, Origin::signed(ALICE), base, quote, OrderType::Buy, 20_000_000, 4, &ctx), Ok(()));
    assert_eq!(trade.create_limit_order(&mut tokens, Origin::signed(ALICE), base, quote, OrderType::Buy, 50_000_000, 5, &ctx), Ok(()));
    let low = trade.owned_order((ALICE, 0)).unwrap();
    let high = trade.owned_order((ALICE, 1)).unwrap();
    assert_eq!(trade.trade_pair(tp_hash).unwrap().buy_one_price, Some(50_000_000));

    // bob sells 10 quote at 0.3 for 3 base: the 0.5 level gives them for 6 quote
    assert_eq!(trade.create_limit_order(&mut tokens, Origin::signed(BOB), base, quote, OrderType::Sell, 30_000_000, 10, &ctx), Ok(()));
    let s = trade.owned_order((BOB, 0)).unwrap();
    let so = trade.order(s).unwrap();
    assert_eq!(so.status, OrderStatus::Filled);
    assert_eq!((so.remained_sell_amount, so.remained_buy_amount), (0, 0));
    let ho = trade.order(high).unwrap();
    assert_eq!(ho.status, OrderStatus::PartialFilled);
    assert_eq!((ho.remained_sell_amount, ho.remained_buy_amount), (2, 4));
    assert_eq!(trade.order(low).unwrap().status, OrderStatus::Created);
    let trades = trade.trade_pair_owned_trade(tp_hash).unwrap();
    assert_eq!(trades.len(), 1);
    let t = trade.trade(trades[0]).unwrap();
    assert_eq!((t.buyer, t.seller, t.maker, t.taker, t.otype, t.price), (ALICE, BOB, ALICE, BOB, OrderType::Sell, 50_000_000));
    assert_eq!((t.base_amount, t.quote_amount), (3, 6));
    assert_eq!(tokens.balance_of((BOB, base)), 3);
    assert_eq!(tokens.balance_of((ALICE, quote)), 6);
    assert_eq!(tokens.balance_of((BOB, quote)), 10000000 - 6);
    assert_eq!(tokens.freezed_balance_of((BOB, quote)), 0);
    let tp = trade.trade_pair(tp_hash).unwrap();
    assert_eq!(tp.buy_one_price, Some(50_000_000));
    assert_eq!(tp.latest_matched_price, Some(50_000_000));
    assert_eq!(tp.sell_one_price, None);

    // bob sells 40 quote at 0.2 for 8 base: both levels are taken, the
    // rest of his order rests on the sell side
    assert_eq!(trade.create_limit_order(&mut tokens, Origin::signed(BOB), base, quote, OrderType::Sell, 20_000_000, 40, &ctx), Ok(()));
    let s2 = trade.owned_order((BOB, 1)).unwrap();
    let so2 = trade.order(s2).unwrap();
    assert_eq!(so2.status, OrderStatus::PartialFilled);
    assert_eq!((so2.remained_sell_amount, so2.remained_buy_amount), (16, 2));
    assert_eq!(trade.order(high).unwrap().status, OrderStatus::Filled);
    assert_eq!(trade.order(low).unwrap().status, OrderStatus::Filled);
    let trades = trade.trade_pair_owned_trade(tp_hash).unwrap();
    assert_eq!(trades.len(), 3);
    let t2 = trade.trade(trades[1]).unwrap();
    assert_eq!((t2.price, t2.base_amount, t2.quote_amount), (50_000_000, 2, 4));
    let t3 = trade.trade(trades[2]).unwrap();
    assert_eq!((t3.price, t3.base_amount, t3.quote_amount), (20_000_000, 4, 20));
    assert_eq!(trade.linked_items.read_head(tp_hash), LinkedItem { prev: Some(0), next: Some(20_000_000), price: None, orders: vec![] });
    assert_eq!(trade.linked_items.read(tp_hash, Some(20_000_000)), LinkedItem { prev: None, next: Some(PRICE_MAX), price: Some(20_000_000), orders: vec![s2] });
    let tp = trade.trade_pair(tp_hash).unwrap();
    assert_eq!((tp.buy_one_price, tp.sell_one_price, tp.latest_matched_price), (None, Some(20_000_000), Some(20_000_000)));
    assert_eq!(tokens.balance_of((BOB, base)), 3 + 2 + 4);
    assert_eq!(tokens.freezed_balance_of((BOB, quote)), 16);
    assert_eq!(tokens.freezed_balance_of((ALICE, base)), 0);
}

#[test]
fn order_not_crossing_rests_in_book() {
    let ctx = ctx();
    let (mut tokens, base, quote) = two_tokens();
    let mut trade = TradeModule::new();
    assert_eq!(trade.create_trade_pair(&tokens, Origin::signed(ALICE), base, quote, &ctx), Ok(()));
    let tp_hash = trade.trade_pair_hash_by_base_quote((base, quote)).unwrap();
    assert_eq!(trade.create_limit_order(&mut tokens, Origin::signed(BOB), base, quote, OrderType::Sell, 50_000_000, 10, &ctx), Ok(()));
    assert_eq!(trade.create_limit_order(&mut tokens, Origin::signed(ALICE), base, quote, OrderType::Buy, 40_000_000, 4, &ctx), Ok(()));
    assert_eq!(trade.trades.len(), 0);
    let tp = trade.trade_pair(tp_hash).unwrap();
    assert_eq!((tp.buy_one_price, tp.sell_one_price, tp.latest_matched_price), (Some(40_000_000), Some(50_000_000), None));
}

#[test]
fn cancel_takes_order_off_book_only() {
    let ctx = ctx();
    let (mut tokens, base, quote) = two_tokens();
    let mut trade = TradeModule::new();
    assert_eq!(trade.create_trade_pair(&tokens, Origin::signed(ALICE), base, quote, &ctx), Ok(()));
    let tp_hash = trade.trade_pair_hash_by_base_quote((base, quote)).unwrap();
    assert_eq!(trade.create_limit_order(&mut tokens, Origin::signed(BOB), base, quote, OrderType::Sell, 50_000_000, 10, &ctx), Ok(()));
    let h = trade.owned_order((BOB, 0)).unwrap();
    assert_eq!(trade.cancel_limit_order(Origin::Root, h), Err("bad origin: expected to be a signed origin"));
    assert_eq!(trade.do_cancel_limit_order(BOB, h), Ok(()));
    assert_eq!(trade.linked_item((tp_hash, Some(50_000_000))), None);
    assert_eq!(trade.linked_items.read_head(tp_hash), LinkedItem { prev: Some(0), next: Some(PRICE_MAX), price: None, orders: vec![] });
    // the stored order and the frozen amount stay as they were
    assert_eq!(trade.order(h).unwrap().status, OrderStatus::Created);
    assert_eq!(tokens.freezed_balance_of((BOB, quote)), 10);
    assert!(matches!(trade.events[2], Event::OrderCanceled(20, _)));
}

#[test]
fn order_helpers() {
    assert_eq!(OrderType::Buy.opposite(), OrderType::Sell);
    assert_eq!(!OrderType::Sell, OrderType::Buy);
    assert!(TradeModule::price_matched(10, OrderType::Buy, 10));
    assert!(!TradeModule::price_matched(10, OrderType::Buy, 11));
    assert!(TradeModule::price_matched(10, OrderType::Sell, 11));
    assert!(!TradeModule::price_matched(10, OrderType::Sell, 9));
    let it = LinkedItem { prev: Some(3), next: Some(7), price: None, orders: vec![] };
    assert_eq!(TradeModule::next_match_price(&it, OrderType::Buy), Some(3));
    assert_eq!(TradeModule::next_match_price(&it, OrderType::Sell), Some(7));
    assert_eq!(TradeModule::ensure_bounds(0, 1), Err("price bounds check failed"));
    assert_eq!(TradeModule::ensure_bounds(1, 0), Err("sell amount bound check failed"));
    assert_eq!(TradeModule::ensure_bounds(1, 1), Ok(()));
    let mut o = LimitOrder {
        hash: (0, 0),
        base: (0, 0),
        quote: (0, 0),
        owner: 1,
        price: 10,
        sell_amount: 1,
        buy_amount: 1,
        remained_sell_amount: 1,
        remained_buy_amount: 0,
        otype: OrderType::Buy,
        status: OrderStatus::PartialFilled,
    };
    assert!(!o.is_finished());
    o.status = OrderStatus::Filled;
    assert!(o.is_finished());
    o.remained_buy_amount = 1;
    assert!(!o.is_finished());
    o.status = OrderStatus::Canceled;
    assert!(o.is_finished());
}

#[test]
fn calculate_ex_amount_neither_filled() {
    let buyer = LimitOrder {
        hash: (0, 0),
        base: (0, 0),
        quote: (0, 0),
        owner: 1,
        price: 100_000_000,
        sell_amount: 5,
        buy_amount: 5,
        remained_sell_amount: 1,
        remained_buy_amount: 5,
        otype: OrderType::Buy,
        status: OrderStatus::Created,
    };
    let seller = LimitOrder { owner: 2, remained_sell_amount: 1, remained_buy_amount: 5, otype: OrderType::Sell, ..buyer };
    assert_eq!(TradeModule::calculate_ex_amount(&seller, &buyer), Err("should never executed here"));
    // the maker's price rounds the other amount up
    let buyer = LimitOrder { price: 30_000_000, remained_sell_amount: 100, remained_buy_amount: 1000, ..buyer };
    let seller = LimitOrder { price: 30_000_000, remained_sell_amount: 10, remained_buy_amount: 3, otype: OrderType::Sell, ..buyer };
    assert_eq!(TradeModule::calculate_ex_amount(&seller, &buyer), Ok((3, 10)));
}

#[test]
fn order_hash_follows_terms_and_nonce() {
    let ctx = ctx();
    let a = LimitOrder::new((0, 1), (0, 2), 7, 100, 5, 5, OrderType::Buy, 0, &ctx);
    let b = LimitOrder::new((0, 1), (0, 2), 7, 100, 5, 5, OrderType::Buy, 1, &ctx);
    let c = LimitOrder::new((0, 1), (0, 2), 7, 100, 5, 5, OrderType::Buy, 0, &ctx);
    assert_ne!(a.hash, b.hash);
    assert_eq!(a.hash, c.hash);
    assert_ne!(a.hash, (0, 0));
    assert_eq!((a.remained_sell_amount, a.remained_buy_amount, a.status), (5, 5, OrderStatus::Created));
}

#[test]
fn book_never_crosses_and_trades_respect_limits() {
    let ctx = ctx();
    let (mut tokens, base, quote) = two_tokens();
    let mut trade = TradeModule::new();
    assert_eq!(trade.create_trade_pair(&tokens, Origin::signed(ALICE), base, quote, &ctx), Ok(()));
    let tp_hash = trade.trade_pair_hash_by_base_quote((base, quote)).unwrap();
    // (who, type, price, amount)
    let steps: [(u64, OrderType, u128, u128); 8] = [
        (BOB, OrderType::Sell, 50_000_000, 100),
        (BOB, OrderType::Sell, 40_000_000, 100),
        (ALICE, OrderType::Buy, 20_000_000, 10),
        (ALICE, OrderType::Buy, 45_000_000, 45),
        (BOB, OrderType::Sell, 25_000_000, 40),
        (ALICE, OrderType::Buy, 50_000_000, 25),
        (BOB, OrderType::Sell, 10_000_000, 100),
        (ALICE, OrderType::Buy, 50_000_000, 50),
    ];
    let mut seen = 0;
    for (who, otype, price, amount) in steps.iter() {
        assert_eq!(trade.create_limit_order(&mut tokens, Origin::signed(*who), base, quote, *otype, *price, *amount, &ctx), Ok(()));
        let head = trade.linked_items.read_head(tp_hash);
        let (best_buy, best_sell) = (head.prev.unwrap(), head.next.unwrap());
        if best_buy != 0 && best_sell != u128::MAX {
            assert!(best_buy < best_sell);
        }
        let trades = trade.trade_pair_owned_trade(tp_hash).unwrap_or_default();
        for h in trades[seen..].iter() {
            let t = trade.trade(*h).unwrap();
            assert_eq!(t.otype, *otype);
            assert_eq!(t.taker, *who);
            match otype {
                OrderType::Buy => assert!(t.price <= *price),
                OrderType::Sell => assert!(t.price >= *price),
            }
        }
        seen = trades.len();
    }
    assert!(seen > 0);
    // every holding still splits into its free and frozen parts
    for who in [ALICE, BOB].iter() {
        for token in [base, quote].iter() {
            assert_eq!(
                tokens.balance_of((*who, *token)),
                tokens.free_balance_of((*who, *token)) + tokens.freezed_balance_of((*who, *token))
            );
        }
    }
    // the pair's best prices are those of the book
    let head = trade.linked_items.read_head(tp_hash);
    let tp = trade.trade_pair(tp_hash).unwrap();
    assert_eq!(tp.buy_one_price, if head.prev == Some(0) { None } else { head.prev });
    assert_eq!(tp.sell_one_price, if head.next == Some(u128::MAX) { None } else { head.next });
}

#[test]
fn buyer_with_room_takes_a_whole_sell_order() {
    let ctx = ctx();
    let (mut tokens, base, quote) = two_tokens();
    let mut trade = TradeModule::new();
    assert_eq!(trade.create_trade_pair(&tokens, Origin::signed(ALICE), base, quote, &ctx), Ok(()));
    let tp_hash = trade.trade_pair_hash_by_base_quote((base, quote)).unwrap();
    assert_eq!(trade.create_limit_order(&mut tokens, Origin::signed(BOB), base, quote, OrderType::Sell, 25_000_000, 40, &ctx), Ok(()));
    assert_eq!(trade.create_limit_order(&mut tokens, Origin::signed(BOB), base, quote, OrderType::Sell, 50_000_000, 100, &ctx), Ok(()));
    // alice wants 100 quote for 60 base: the 0.25 level gives 40 for 10 base,
    // then the whole 0.5 order (100 quote for 50 base) is more than she wants
    assert_eq!(trade.create_limit_order(&mut tokens, Origin::signed(ALICE), base, quote, OrderType::Buy, 60_000_000, 60, &ctx), Err("substract error"));
    // what was done before stays: the order, the first trade, and the
    // transfers of the second match, which fails after them
    let h = trade.owned_order((ALICE, 0)).unwrap();
    assert_eq!(trade.order(h).unwrap().sell_amount, 60);
    assert_eq!(trade.trade_pair_owned_trade(tp_hash).unwrap().len(), 1);
    assert_eq!(tokens.balance_of((ALICE, quote)), 40 + 100);
    assert_eq!(tokens.balance_of((BOB, base)), 10 + 50);
    assert_eq!(trade.linked_item((tp_hash, Some(25_000_000))), None);
    assert_eq!(trade.linked_item((tp_hash, Some(60_000_000))), None);
}
