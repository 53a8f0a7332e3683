use substrate_dex::system::{ChainContext, Origin};
use substrate_dex::token::Module as TokenModule;
use substrate_dex::trade::{LimitOrder, OrderStatus, OrderType, Trade, Module as TradeModule};
use substrate_dex::types::LinkedItem;
use substrate_dex::H256;

const ALICE: u64 = 10;
const BOB: u64 = 20;

/// Two tokens (alice's is the base, bob's the quote) and their trade pair.
fn market() -> (TokenModule, TradeModule, ChainContext, H256, H256, H256) {
    let ctx = ChainContext { random_seed: (0, 0), block_number: 0 };
    let mut tokens = TokenModule::new();
    let mut trade = TradeModule::new();

    assert_eq!(tokens.issue(Origin::signed(ALICE), b"66".to_vec(), 21000000, &ctx), Ok(()));
    let token1_hash = tokens.owned_token((ALICE, 0)).unwrap();
    let token1 = tokens.token(token1_hash).unwrap();

    assert_eq!(tokens.issue(Origin::signed(BOB), b"77".to_vec(), 10000000, &ctx), Ok(()));
    let token2_hash = tokens.owned_token((BOB, 0)).unwrap();
    let token2 = tokens.token(token2_hash).unwrap();

    let base = token1.hash;
    let quote = token2.hash;
    assert_eq!(trade.create_trade_pair(&tokens, Origin::signed(ALICE), base, quote, &ctx), Ok(()));
    let tp_hash = trade.trade_pair_hash_by_base_quote((base, quote)).unwrap();
    (tokens, trade, ctx, base, quote, tp_hash)
}

fn item(prev: Option<u128>, next: Option<u128>, price: Option<u128>, orders: Vec<H256>) -> LinkedItem {
    LinkedItem { prev, next, price, orders }
}

/// The price that eight little-endian bytes of an `f64` stand for, scaled
/// by 10^8 (as a dispatched call with a float price reads it).
fn le_float_price(bytes: &[u8]) -> u128 {
    let mut b = [0u8; 8];
    b.copy_from_slice(&bytes[0..8]);
    let price = f64::from_le_bytes(b);
    let price_v2 = (100_000_000f64 * price) as u128;
    let price_v3 = price_v2 as f64 / 100_000_000f64;
    assert!(price == price_v3);
    price_v2
}

#[test]
fn order_match_linked_list_test_case() {
    let (mut tokens, mut trade, ctx, base, quote, tp_hash) = market();
    let alice = ALICE;
    let bob = BOB;

    let max = Some(u128::max_value());
    let min = Some(u128::min_value());

    let bottom = item(max, None, min, Vec::new());
    let top = item(None, min, max, Vec::new());
    let head = item(min, max, None, Vec::new());

    assert_eq!(head, trade.linked_items.read_head(tp_hash));
    assert_eq!(bottom, trade.linked_items.read_bottom(tp_hash));
    assert_eq!(top, trade.linked_items.read_top(tp_hash));

    let p: [u8; 8] = [10, 215, 163, 112, 61, 10, 199, 63]; // 18_000_000
    assert_eq!(trade.create_limit_order(&mut tokens, Origin::signed(bob), base, quote, OrderType::Sell, le_float_price(&p), 200, &ctx), Ok(()));

    let order1_hash = trade.owned_order((bob, 0)).unwrap();
    let mut order1 = trade.order(order1_hash).unwrap();
    assert_eq!(order1.sell_amount, 200);
    assert_eq!(order1.remained_sell_amount, 200);
    assert_eq!(order1.buy_amount, 36);
    assert_eq!(order1.remained_buy_amount, 36);

    let p: [u8; 8] = [154, 153, 153, 153, 153, 153, 185, 63]; // 10_000_000
    assert_eq!(trade.create_limit_order(&mut tokens, Origin::signed(bob), base, quote, OrderType::Sell, le_float_price(&p), 10, &ctx), Ok(()));
    let order2_hash = trade.owned_order((bob, 1)).unwrap();
    let mut order2 = trade.order(order2_hash).unwrap();
    assert_eq!(order2.sell_amount, 10);
    assert_eq!(order2.remained_sell_amount, 10);
    assert_eq!(order2.buy_amount, 1);
    assert_eq!(order2.remained_buy_amount, 1);

    assert_eq!(trade.create_limit_order(&mut tokens, Origin::signed(bob), base, quote, OrderType::Sell, 11_000_000, 100, &ctx), Ok(()));
    let order3_hash = trade.owned_order((bob, 2)).unwrap();
    let mut order3 = trade.order(order3_hash).unwrap();
    assert_eq!(order3.sell_amount, 100);
    assert_eq!(order3.remained_sell_amount, 100);
    assert_eq!(order3.buy_amount, 11);
    assert_eq!(order3.remained_buy_amount, 11);

    let p: [u8; 8] = [41, 92, 143, 194, 245, 40, 188, 63]; // 11_000_000
    assert_eq!(trade.create_limit_order(&mut tokens, Origin::signed(bob), base, quote, OrderType::Sell, le_float_price(&p), 10000, &ctx), Ok(()));
    let order4_hash = trade.owned_order((bob, 3)).unwrap();
    let mut order4 = trade.order(order4_hash).unwrap();
    assert_eq!(order4.sell_amount, 10000);
    assert_eq!(order4.remained_sell_amount, 10000);
    assert_eq!(order4.buy_amount, 1100);
    assert_eq!(order4.remained_buy_amount, 1100);

    assert_eq!(trade.create_limit_order(&mut tokens, Origin::signed(alice), base, quote, OrderType::Buy, 6_000_000, 24, &ctx), Ok(()));
    let order101_hash = trade.owned_order((alice, 0)).unwrap();
    let order101 = trade.order(order101_hash).unwrap();
    assert_eq!(order101.sell_amount, 24);
    assert_eq!(order101.remained_sell_amount, 24);
    assert_eq!(order101.buy_amount, 400);
    assert_eq!(order101.remained_buy_amount, 400);

    // bottom
    let mut it = item(max, Some(6000000), min, Vec::new());
    assert_eq!(trade.linked_items.read_bottom(tp_hash), it);

    // item1
    let mut curr = it.next;
    it = item(Some(0), None, Some(6000000), vec![order101_hash]);
    assert_eq!(trade.linked_items.read(tp_hash, curr), it);

    // item2
    curr = it.next;
    it = item(Some(6000000), Some(10000000), None, Vec::new());
    assert_eq!(trade.linked_items.read(tp_hash, curr), it);

    // item3
    curr = it.next;
    it = item(None, Some(11000000), Some(10000000), vec![order2_hash]);
    assert_eq!(trade.linked_items.read(tp_hash, curr), it);

    // item4
    curr = it.next;
    it = item(Some(10000000), Some(18000000), Some(11000000), vec![order3_hash, order4_hash]);
    assert_eq!(trade.linked_items.read(tp_hash, curr), it);

    // item5
    curr = it.next;
    it = item(Some(11000000), max, Some(18000000), vec![order1_hash]);
    assert_eq!(trade.linked_items.read(tp_hash, curr), it);

    // top
    it = item(Some(18000000), min, max, Vec::new());
    assert_eq!(trade.linked_items.read_top(tp_hash), it);

    assert_eq!(trade.create_limit_order(&mut tokens, Origin::signed(alice), base, quote, OrderType::Buy, 11_000_000, 55, &ctx), Ok(()));

    let order102_hash = trade.owned_order((alice, 1)).unwrap();
    let order102 = trade.order(order102_hash).unwrap();
    assert_eq!(order102.sell_amount, 55);
    assert_eq!(order102.remained_sell_amount, 0);
    assert_eq!(order102.buy_amount, 500);
    assert_eq!(order102.remained_buy_amount, 0);
    assert_eq!(order102.status, OrderStatus::Filled);

    order2 = trade.order(order2_hash).unwrap();
    assert_eq!(order2.sell_amount, 10);
    assert_eq!(order2.remained_sell_amount, 0);
    assert_eq!(order2.buy_amount, 1);
    assert_eq!(order2.remained_buy_amount, 0);
    assert_eq!(order2.status, OrderStatus::Filled);

    order3 = trade.order(order3_hash).unwrap();
    assert_eq!(order3.sell_amount, 100);
    assert_eq!(order3.remained_sell_amount, 0);
    assert_eq!(order3.buy_amount, 11);
    assert_eq!(order3.remained_buy_amount, 0);
    assert_eq!(order3.status, OrderStatus::Filled);

    order4 = trade.order(order4_hash).unwrap();
    assert_eq!(order4.sell_amount, 10000);
    assert_eq!(order4.remained_sell_amount, 9610);
    assert_eq!(order4.buy_amount, 1100);
    assert_eq!(order4.remained_buy_amount, 1057);
    assert_eq!(order4.status, OrderStatus::PartialFilled);

    // bottom
    it = item(max, Some(6000000), min, Vec::new());
    assert_eq!(trade.linked_items.read_bottom(tp_hash), it);

    // item1
    curr = it.next;
    it = item(Some(0), None, Some(6000000), vec![order101_hash]);
    assert_eq!(trade.linked_items.read(tp_hash, curr), it);

    // item2
    curr = it.next;
    it = item(Some(6000000), Some(11000000), None, Vec::new());
    assert_eq!(trade.linked_items.read(tp_hash, curr), it);

    // item4
    curr = it.next;
    it = item(None, Some(18000000), Some(11000000), vec![order4_hash]);
    assert_eq!(trade.linked_items.read(tp_hash, curr), it);

    // item5
    curr = it.next;
    it = item(Some(11000000), max, Some(18000000), vec![order1_hash]);
    assert_eq!(trade.linked_items.read(tp_hash, curr), it);

    // top
    it = item(Some(18000000), min, max, Vec::new());
    assert_eq!(trade.linked_items.read_top(tp_hash), it);

    let trades = trade.trade_pair_owned_trade(tp_hash).unwrap();
    let v = vec![trades[0], trades[1], trades[2]];

    assert_eq!(trade.owned_trade(alice), Some(v.clone()));
    assert_eq!(trade.owned_trade(bob), Some(v.clone()));

    assert_eq!(trade.owned_trade_pair_trade((alice, tp_hash)), Some(v.clone()));
    assert_eq!(trade.owned_trade_pair_trade((bob, tp_hash)), Some(v.clone()));

    assert_eq!(trade.trade_pair_owned_trade(tp_hash), Some(v.clone()));

    assert_eq!(trade.order_owned_trade(order102_hash).unwrap().len(), 3);
    assert_eq!(trade.order_owned_trade(order102_hash), Some(v));

    let v = vec![trades[0]];
    assert_eq!(trade.order_owned_trade(order2_hash).unwrap().len(), 1);
    assert_eq!(trade.order_owned_trade(order2_hash), Some(v));

    let v = vec![trades[1]];
    assert_eq!(trade.order_owned_trade(order3_hash).unwrap().len(), 1);
    assert_eq!(trade.order_owned_trade(order3_hash), Some(v));

    let v = vec![trades[2]];
    assert_eq!(trade.order_owned_trade(order4_hash).unwrap().len(), 1);
    assert_eq!(trade.order_owned_trade(order4_hash), Some(v));

    assert_eq!(trades.len(), 3);
    let t1 = trade.trade(trades[0]).unwrap();
    let trade1 = Trade {
        base: base,
        quote: quote,
        buyer: alice,
        seller: bob,
        maker: bob,
        taker: alice,
        otype: OrderType::Buy,
        price: 10_000_000,
        base_amount: 1,
        quote_amount: 10,
        ..t1
    };
    assert_eq!(t1, trade1);

    let t2 = trade.trade(trades[1]).unwrap();
    let trade2 = Trade {
        base: base,
        quote: quote,
        buyer: alice,
        seller: bob,
        maker: bob,
        taker: alice,
        otype: OrderType::Buy,
        price: 11000000,
        base_amount: 11,
        quote_amount: 100,
        ..t2
    };
    assert_eq!(t2, trade2);

    let t3 = trade.trade(trades[2]).unwrap();
    let trade3 = Trade {
        base: base,
        quote: quote,
        buyer: alice,
        seller: bob,
        maker: bob,
        taker: alice,
        otype: OrderType::Buy,
        price: 11000000,
        base_amount: 43,
        quote_amount: 390,
        ..t3
    };
    assert_eq!(t3, trade3);

    assert_eq!(tokens.balance_of((alice, quote)), 500);
    assert_eq!(tokens.balance_of((bob, base)), 55);

    let tp = trade.trade_pair(tp_hash).unwrap();
    assert_eq!(tp.buy_one_price, Some(6000000));
    assert_eq!(tp.sell_one_price, Some(11000000));
    assert_eq!(tp.latest_matched_price, Some(11000000));

    assert_eq!(trade.create_limit_order(&mut tokens, Origin::signed(alice), base, quote, OrderType::Buy, 18_000_000, 13212, &ctx), Ok(()));
    let order103_hash = trade.owned_order((alice, 2)).unwrap();
    let order103 = trade.order(order103_hash).unwrap();
    assert_eq!(order103.sell_amount, 13212);
    assert_eq!(order103.remained_sell_amount, 13212 - 1057 - 36);
    assert_eq!(order103.buy_amount, 73400);
    assert_eq!(order103.remained_buy_amount, 73400 - 9610 - 200);
    assert_eq!(order103.status, OrderStatus::PartialFilled);

    order4 = trade.order(order4_hash).unwrap();
    assert_eq!(order4.sell_amount, 10000);
    assert_eq!(order4.remained_sell_amount, 0);
    assert_eq!(order4.buy_amount, 1100);
    assert_eq!(order4.remained_buy_amount, 0);
    assert_eq!(order4.status, OrderStatus::Filled);

    order1 = trade.order(order1_hash).unwrap();
    assert_eq!(order1.sell_amount, 200);
    assert_eq!(order1.remained_sell_amount, 0);
    assert_eq!(order1.buy_amount, 36);
    assert_eq!(order1.remained_buy_amount, 0);
    assert_eq!(order1.status, OrderStatus::Filled);

    // bottom
    it = item(max, Some(6000000), min, Vec::new());
    assert_eq!(trade.linked_items.read_bottom(tp_hash), it);

    // item1
    curr = it.next;
    it = item(Some(0), Some(18000000), Some(6000000), vec![order101_hash]);
    assert_eq!(trade.linked_items.read(tp_hash, curr), it);

    // item2
    curr = it.next;
    it = item(Some(6000000), None, Some(18000000), vec![order103_hash]);
    assert_eq!(trade.linked_items.read(tp_hash, curr), it);

    // item4
    curr = it.next;
    it = item(Some(18000000), max, None, Vec::new());
    assert_eq!(trade.linked_items.read(tp_hash, curr), it);

    // top
    it = item(None, min, max, Vec::new());
    assert_eq!(trade.linked_items.read_top(tp_hash), it);

    let trades = trade.trade_pair_owned_trade(tp_hash).unwrap();
    let v = vec![trades[0], trades[1], trades[2], trades[3], trades[4]];

    assert_eq!(trade.owned_trade(alice), Some(v.clone()));
    assert_eq!(trade.owned_trade(bob), Some(v.clone()));

    assert_eq!(trade.owned_trade_pair_trade((alice, tp_hash)), Some(v.clone()));
    assert_eq!(trade.owned_trade_pair_trade((bob, tp_hash)), Some(v.clone()));

    assert_eq!(trade.trade_pair_owned_trade(tp_hash), Some(v.clone()));

    let v = vec![trades[3], trades[4]];
    assert_eq!(trade.order_owned_trade(order103_hash).unwrap().len(), 2);
    assert_eq!(trade.order_owned_trade(order103_hash), Some(v));

    let v = vec![trades[2], trades[3]];
    assert_eq!(trade.order_owned_trade(order4_hash).unwrap().len(), 2);
    assert_eq!(trade.order_owned_trade(order4_hash), Some(v));

    let v = vec![trades[4]];
    assert_eq!(trade.order_owned_trade(order1_hash).unwrap().len(), 1);
    assert_eq!(trade.order_owned_trade(order1_hash), Some(v));

    let trades = trade.trade_pair_owned_trade(tp_hash).unwrap();
    assert_eq!(trades.len(), 5);
    let t1 = trade.trade(trades[0]).unwrap();
    let trade1 = Trade {
        base: base,
        quote: quote,
        buyer: alice,
        seller: bob,
        maker: bob,
        taker: alice,
        otype: OrderType::Buy,
        price: 10_000_000,
        base_amount: 1,
        quote_amount: 10,
        ..t1
    };
    assert_eq!(t1, trade1);

    let t2 = trade.trade(trades[1]).unwrap();
    let trade2 = Trade {
        base: base,
        quote: quote,
        buyer: alice,
        seller: bob,
        maker: bob,
        taker: alice,
        otype: OrderType::Buy,
        price: 11000000,
        base_amount: 11,
        quote_amount: 100,
        ..t2
    };
    assert_eq!(t2, trade2);

    let t3 = trade.trade(trades[2]).unwrap();
    let trade3 = Trade {
        base: base,
        quote: quote,
        buyer: alice,
        seller: bob,
        maker: bob,
        taker: alice,
        otype: OrderType::Buy,
        price: 11000000,
        base_amount: 43,
        quote_amount: 390,
        ..t3
    };
    assert_eq!(t3, trade3);

    let t4 = trade.trade(trades[3]).unwrap();
    let trade4 = Trade {
        base: base,
        quote: quote,
        buyer: alice,
        seller: bob,
        maker: bob,
        taker: alice,
        otype: OrderType::Buy,
        price: 11000000,
        base_amount: 1057,
        quote_amount: 9610,
        ..t4
    };
    assert_eq!(t4, trade4);

    let t5 = trade.trade(trades[4]).unwrap();
    let trade5 = Trade {
        base: base,
        quote: quote,
        buyer: alice,
        seller: bob,
        maker: bob,
        taker: alice,
        otype: OrderType::Buy,
        price: 18000000,
        base_amount: 36,
        quote_amount: 200,
        ..t5
    };
    assert_eq!(t5, trade5);

    assert_eq!(tokens.balance_of((alice, quote)), 10 + 100 + 10000 + 200);
    assert_eq!(tokens.balance_of((bob, base)), 1 + 11 + 1100 + 36);

    let tp = trade.trade_pair(tp_hash).unwrap();
    assert_eq!(tp.buy_one_price, Some(18000000));
    assert_eq!(tp.sell_one_price, None);
    assert_eq!(tp.latest_matched_price, Some(18000000));
}

#[test]
fn order_cancel_test_case() {
    let (mut tokens, mut trade, ctx, base, quote, tp_hash) = market();
    let alice = ALICE;
    let bob = BOB;

    let max = Some(u128::max_value());
    let min = Some(u128::min_value());

    let bottom = item(max, None, min, Vec::new());
    let top = item(None, min, max, Vec::new());
    let head = item(min, max, None, Vec::new());

    assert_eq!(head, trade.linked_items.read_head(tp_hash));
    assert_eq!(bottom, trade.linked_items.read_bottom(tp_hash));
    assert_eq!(top, trade.linked_items.read_top(tp_hash));

    assert_eq!(trade.create_limit_order(&mut tokens, Origin::signed(bob), base, quote, OrderType::Sell, 18_000_000, 200, &ctx), Ok(()));
    let order1_hash = trade.owned_order((bob, 0)).unwrap();
    let order1 = trade.order(order1_hash).unwrap();
    assert_eq!(order1.sell_amount, 200);
    assert_eq!(order1.remained_sell_amount, 200);
    assert_eq!(order1.buy_amount, 36);
    assert_eq!(order1.remained_buy_amount, 36);

    assert_eq!(trade.create_limit_order(&mut tokens, Origin::signed(bob), base, quote, OrderType::Sell, 10_000_000, 10, &ctx), Ok(()));
    let order2_hash = trade.owned_order((bob, 1)).unwrap();
    let order2 = trade.order(order2_hash).unwrap();
    assert_eq!(order2.sell_amount, 10);
    assert_eq!(order2.remained_sell_amount, 10);
    assert_eq!(order2.buy_amount, 1);
    assert_eq!(order2.remained_buy_amount, 1);

    assert_eq!(trade.create_limit_order(&mut tokens, Origin::signed(bob), base, quote, OrderType::Sell, 11_000_000, 100, &ctx), Ok(()));
    let order3_hash = trade.owned_order((bob, 2)).unwrap();
    let mut order3 = trade.order(order3_hash).unwrap();
    assert_eq!(order3.sell_amount, 100);
    assert_eq!(order3.remained_sell_amount, 100);
    assert_eq!(order3.buy_amount, 11);
    assert_eq!(order3.remained_buy_amount, 11);

    assert_eq!(trade.create_limit_order(&mut tokens, Origin::signed(bob), base, quote, OrderType::Sell, 11_000_000, 10000, &ctx), Ok(()));
    let order4_hash = trade.owned_order((bob, 3)).unwrap();
    let order4 = trade.order(order4_hash).unwrap();
    assert_eq!(order4.sell_amount, 10000);
    assert_eq!(order4.remained_sell_amount, 10000);
    assert_eq!(order4.buy_amount, 1100);
    assert_eq!(order4.remained_buy_amount, 1100);

    assert_eq!(trade.create_limit_order(&mut tokens, Origin::signed(alice), base, quote, OrderType::Buy, 6_000_000, 24, &ctx), Ok(()));
    let order101_hash = trade.owned_order((alice, 0)).unwrap();
    let mut order101 = trade.order(order101_hash).unwrap();
    assert_eq!(order101.sell_amount, 24);
    assert_eq!(order101.remained_sell_amount, 24);
    assert_eq!(order101.buy_amount, 400);
    assert_eq!(order101.remained_buy_amount, 400);

    // bottom
    let mut it = item(max, Some(6000000), min, Vec::new());
    assert_eq!(trade.linked_items.read_bottom(tp_hash), it);

    // item1
    let mut curr = it.next;
    it = item(Some(0), None, Some(6000000), vec![order101_hash]);
    assert_eq!(trade.linked_items.read(tp_hash, curr), it);

    // item2
    curr = it.next;
    it = item(Some(6000000), Some(10000000), None, Vec::new());
    assert_eq!(trade.linked_items.read(tp_hash, curr), it);

    // item3
    curr = it.next;
    it = item(None, Some(11000000), Some(10000000), vec![order2_hash]);
    assert_eq!(trade.linked_items.read(tp_hash, curr), it);

    // item4
    curr = it.next;
    it = item(Some(10000000), Some(18000000), Some(11000000), vec![order3_hash, order4_hash]);
    assert_eq!(trade.linked_items.read(tp_hash, curr), it);

    // item5
    curr = it.next;
    it = item(Some(11000000), max, Some(18000000), vec![order1_hash]);
    assert_eq!(trade.linked_items.read(tp_hash, curr), it);

    // top
    it = item(Some(18000000), min, max, Vec::new());
    assert_eq!(trade.linked_items.read_top(tp_hash), it);

    order101.status = OrderStatus::Filled;
    let tmp_amount = order101.remained_buy_amount;
    order101.remained_buy_amount = 0;
    trade.orders.insert(order101.hash, order101.clone());
    assert_eq!(trade.cancel_limit_order(Origin::signed(alice), order101.hash), Err("can not cancel finished order"));

    assert_eq!(trade.cancel_limit_order(Origin::signed(alice), order1.hash), Err("can only cancel your owned order"));

    assert_eq!(trade.cancel_limit_order(Origin::signed(alice), (0, 0)), Err("can not get order"));

    order101.status = OrderStatus::Created;
    order101.remained_buy_amount = tmp_amount;
    trade.orders.insert(order101.hash, order101.clone());
    assert_eq!(trade.cancel_limit_order(Origin::signed(alice), order101.hash), Ok(()));

    order3.status = OrderStatus::PartialFilled;
    order3.remained_buy_amount = order3.remained_buy_amount.checked_sub(1).unwrap();
    trade.orders.insert(order3.hash, order3.clone());
    assert_eq!(trade.cancel_limit_order(Origin::signed(bob), order3.hash), Ok(()));
    assert_eq!(trade.cancel_limit_order(Origin::signed(bob), order4.hash), Ok(()));

    // bottom
    it = item(max, None, min, Vec::new());
    assert_eq!(trade.linked_items.read_bottom(tp_hash), it);

    // item1
    curr = it.next;
    it = item(Some(0), Some(10000000), None, Vec::new());
    assert_eq!(trade.linked_items.read(tp_hash, curr), it);

    // item2
    curr = it.next;
    it = item(None, Some(18000000), Some(10000000), vec![order2_hash]);
    assert_eq!(trade.linked_items.read(tp_hash, curr), it);

    // item3
    curr = it.next;
    it = item(Some(10000000), max, Some(18000000), vec![order1_hash]);
    assert_eq!(trade.linked_items.read(tp_hash, curr), it);

    // item4
    curr = it.next;
    it = item(Some(18000000), min, max, Vec::new());
    assert_eq!(trade.linked_items.read(tp_hash, curr), it);
}

#[test]
fn order_match_test_case() {
    let (mut tokens, mut trade, ctx, base, quote, _tp_hash) = market();
    let alice = ALICE;
    let bob = BOB;

    assert_eq!(trade.create_limit_order(&mut tokens, Origin::signed(alice), base, quote, OrderType::Buy, 25_010_000, 2501, &ctx), Ok(()));
    let order101_hash = trade.owned_order((alice, 0)).unwrap();
    let order101 = trade.order(order101_hash).unwrap();
    assert_eq!(order101.sell_amount, 2501);
    assert_eq!(order101.remained_sell_amount, 2501);
    assert_eq!(order101.buy_amount, 10000);
    assert_eq!(order101.remained_buy_amount, 10000);

    assert_eq!(trade.create_limit_order(&mut tokens, Origin::signed(bob), base, quote, OrderType::Sell, 25_000_000, 4, &ctx), Ok(()));
    let order1_hash = trade.owned_order((bob, 0)).unwrap();
    let order1 = trade.order(order1_hash).unwrap();
    assert_eq!(order1.sell_amount, 4);
    assert_eq!(order1.remained_sell_amount, 0);
    assert_eq!(order1.buy_amount, 1);
    assert_eq!(order1.remained_buy_amount, 0);

    assert_eq!(tokens.balance_of((alice, quote)), 4);
    assert_eq!(tokens.balance_of((alice, base)), 21000000 - 1);
    assert_eq!(tokens.balance_of((bob, base)), 1);
    assert_eq!(tokens.balance_of((bob, quote)), 10000000 - 4);

    assert_eq!(trade.create_limit_order(&mut tokens, Origin::signed(bob), base, quote, OrderType::Sell, 25_000_000, 9996, &ctx), Ok(()));
    let order1_hash = trade.owned_order((bob, 1)).unwrap();
    let order1 = trade.order(order1_hash).unwrap();
    assert_eq!(order1.sell_amount, 9996);
    assert_eq!(order1.remained_sell_amount, 0);
    assert_eq!(order1.buy_amount, 2499);
    assert_eq!(order1.remained_buy_amount, 0);

    let order101_hash = trade.owned_order((alice, 0)).unwrap();
    let order101 = trade.order(order101_hash).unwrap();
    assert_eq!(order101.sell_amount, 2501);
    assert_eq!(order101.remained_sell_amount, 1);
    assert_eq!(order101.buy_amount, 10000);
    assert_eq!(order101.remained_buy_amount, 3);

    assert_eq!(tokens.balance_of((alice, quote)), 4 + 9993);
    assert_eq!(tokens.balance_of((alice, base)), 21000000 - 1 - 2499);
    assert_eq!(tokens.freezed_balance_of((alice, base)), 1);
    assert_eq!(tokens.balance_of((bob, base)), 1 + 2499);
    assert_eq!(tokens.balance_of((bob, quote)), 10000000 - 4 - 9993);
    assert_eq!(tokens.freezed_balance_of((bob, base)), 0);
}

fn limit_order(owner: u64, price: u128, sell: u128, buy: u128, otype: OrderType) -> LimitOrder {
    LimitOrder {
        hash: (0, 0),
        base: (0, 0),
        quote: (0, 0),
        owner,
        price,
        sell_amount: sell,
        remained_sell_amount: sell,
        buy_amount: buy,
        remained_buy_amount: buy,
        otype,
        status: OrderStatus::Created,
    }
}

#[test]
fn calculate_ex_amount() {
    let alice = ALICE;
    let bob = BOB;

    let order1 = limit_order(alice, 25010000, 2501, 10000, OrderType::Buy);
    let mut order2 = limit_order(bob, 25000000, 4, 1, OrderType::Sell);

    let result = TradeModule::calculate_ex_amount(&order1, &order2).unwrap();
    assert_eq!(result.0, 1);
    assert_eq!(result.1, 4);

    let result = TradeModule::calculate_ex_amount(&order2, &order1).unwrap();
    assert_eq!(result.0, 1);
    assert_eq!(result.1, 4);

    order2.price = 25_010_000;
    let result = TradeModule::calculate_ex_amount(&order1, &order2).unwrap();
    assert_eq!(result.0, 1);
    assert_eq!(result.1, 4);

    let result = TradeModule::calculate_ex_amount(&order2, &order1).unwrap();
    assert_eq!(result.0, 1);
    assert_eq!(result.1, 4);

    order2.price = 33_000_000;
    let result = TradeModule::calculate_ex_amount(&order1, &order2).unwrap();
    assert_eq!(result.0, 1);
    assert_eq!(result.1, 4);

    let result = TradeModule::calculate_ex_amount(&order2, &order1).unwrap();
    assert_eq!(result.0, 1);
    assert_eq!(result.1, 4);

    order2.price = 35_000_000;
    let result = TradeModule::calculate_ex_amount(&order1, &order2).unwrap();
    assert_eq!(result.0, 1);
    assert_eq!(result.1, 4);

    let result = TradeModule::calculate_ex_amount(&order2, &order1).unwrap();
    assert_eq!(result.0, 1);
    assert_eq!(result.1, 3);
}

#[test]
fn ensure_amount_zero_digits_test_case() {
    assert_eq!(1, 1);

    let price = 25_010_000;
    let amount = 2501;
    let otype = OrderType::Buy;
    assert_eq!(TradeModule::ensure_counterparty_amount_bounds(otype, price, amount), Ok(10000u128));

    let price = 25_010_000; // 0.2501
    let amount = 2500;
    let otype = OrderType::Buy;
    assert_eq!(TradeModule::ensure_counterparty_amount_bounds(otype, price, amount), Err("amount have digits parts"));

    let price = 25_000_000; // 0.25
    let amount = 24;
    let otype = OrderType::Sell;
    assert_eq!(TradeModule::ensure_counterparty_amount_bounds(otype, price, amount), Ok(6u128));

    let price = 25_000_000; // 0.25
    let amount = 21;
    let otype = OrderType::Sell;
    assert_eq!(TradeModule::ensure_counterparty_amount_bounds(otype, price, amount), Err("amount have digits parts"));

    let price = 200_000_000; // 2.0
    let amount = u128::max_value() - 1;
    let otype = OrderType::Sell;
    assert_eq!(TradeModule::ensure_counterparty_amount_bounds(otype, price, amount), Err("counterparty bound check failed"));
}

#[test]
fn matching_moves_tokens_only_between_the_two_owners() {
    let (mut tokens, mut trade, ctx, base, quote, _tp_hash) = market();
    let (alice, bob, carol) = (ALICE, BOB, 30u64);
    let total = |tokens: &TokenModule, t: H256| {
        tokens.balance_of((alice, t)) + tokens.balance_of((bob, t)) + tokens.balance_of((carol, t))
    };
    let (base_total, quote_total) = (total(&tokens, base), total(&tokens, quote));
    assert_eq!(trade.create_limit_order(&mut tokens, Origin::signed(alice), base, quote, OrderType::Buy, 25_010_000, 2501, &ctx), Ok(()));
    assert_eq!(trade.create_limit_order(&mut tokens, Origin::signed(bob), base, quote, OrderType::Sell, 25_000_000, 9996, &ctx), Ok(()));
    // a match took place, and each token's total is what it was
    assert_eq!(tokens.balance_of((bob, base)), 2499);
    assert_eq!(total(&tokens, base), base_total);
    assert_eq!(total(&tokens, quote), quote_total);
    assert_eq!(tokens.balance_of((carol, base)), 0);
    // the filled taker has nothing left to sell or to buy
    let taker = trade.order(trade.owned_order((bob, 0)).unwrap()).unwrap();
    assert_eq!(taker.status, OrderStatus::Filled);
    assert_eq!((taker.remained_sell_amount, taker.remained_buy_amount), (0, 0));
}

#[test]
fn a_trade_is_at_the_maker_price_for_the_exchanged_amounts() {
    let (mut tokens, mut trade, ctx, base, quote, tp_hash) = market();
    let (alice, bob) = (ALICE, BOB);
    assert_eq!(trade.create_limit_order(&mut tokens, Origin::signed(bob), base, quote, OrderType::Sell, 10_000_000, 10, &ctx), Ok(()));
    let nonce_before = trade.nonce;
    assert_eq!(trade.create_limit_order(&mut tokens, Origin::signed(alice), base, quote, OrderType::Buy, 11_000_000, 55, &ctx), Ok(()));
    // one nonce for the order, one for its one trade
    assert_eq!(trade.nonce, nonce_before + 2);
    let trade_hash = trade.trade_pair_owned_trades.get(&tp_hash).unwrap()[0];
    let t = trade.trades.get(&trade_hash).unwrap();
    assert_eq!(t.price, 10_000_000);
    assert_eq!((t.base_amount, t.quote_amount), (1, 10));
    assert_eq!((t.maker, t.taker), (bob, alice));
    assert_eq!((t.buyer, t.seller), (alice, bob));
    assert_eq!((t.base, t.quote), (base, quote));
    // the trade is listed under both orders, both owners, both owners in the pair, and the pair
    let sell_hash = trade.owned_order((bob, 0)).unwrap();
    let buy_hash = trade.owned_order((alice, 0)).unwrap();
    assert_eq!(trade.order_owned_trades.get(&sell_hash).unwrap(), &vec![trade_hash]);
    assert_eq!(trade.order_owned_trades.get(&buy_hash).unwrap(), &vec![trade_hash]);
    assert_eq!(trade.owned_trades.get(&alice).unwrap(), &vec![trade_hash]);
    assert_eq!(trade.owned_trades.get(&bob).unwrap(), &vec![trade_hash]);
    assert_eq!(trade.owned_tp_trades.get(&(alice, tp_hash)).unwrap(), &vec![trade_hash]);
    assert_eq!(trade.owned_tp_trades.get(&(bob, tp_hash)).unwrap(), &vec![trade_hash]);
    assert_eq!(trade.trade_pair_owned_trades.get(&tp_hash).unwrap().len(), 1);
    // the pair records the price of the match
    assert_eq!(trade.trade_pair(tp_hash).unwrap().latest_matched_price, Some(10_000_000));
}

#[test]
fn a_buy_at_the_top_price_stops_at_the_top_of_the_book() {
    let ctx = ChainContext { random_seed: (0, 0), block_number: 0 };
    let mut tokens = TokenModule::new();
    let mut trade = TradeModule::new();
    let (alice, bob) = (ALICE, BOB);
    assert_eq!(tokens.issue(Origin::signed(alice), b"big".to_vec(), u128::MAX, &ctx), Ok(()));
    let base = tokens.owned_token((alice, 0)).unwrap();
    assert_eq!(tokens.issue(Origin::signed(bob), b"77".to_vec(), 10000000, &ctx), Ok(()));
    let quote = tokens.owned_token((bob, 0)).unwrap();
    assert_eq!(trade.create_trade_pair(&tokens, Origin::signed(alice), base, quote, &ctx), Ok(()));

    assert_eq!(trade.create_limit_order(&mut tokens, Origin::signed(bob), base, quote, OrderType::Sell, 10_000_000, 10, &ctx), Ok(()));
    // the buy takes the one sell level, then stops at the top of the book
    assert_eq!(trade.create_limit_order(&mut tokens, Origin::signed(alice), base, quote, OrderType::Buy, u128::MAX, u128::MAX, &ctx), Ok(()));
    let sell = trade.order(trade.owned_order((bob, 0)).unwrap()).unwrap();
    assert_eq!(sell.status, OrderStatus::Filled);
    let buy = trade.order(trade.owned_order((alice, 0)).unwrap()).unwrap();
    assert_eq!(buy.status, OrderStatus::PartialFilled);
    assert_eq!(buy.remained_buy_amount, 100_000_000 - 10);
    assert_eq!(tokens.balance_of((alice, quote)), 10);
    assert_eq!(tokens.balance_of((bob, base)), 1);
}
