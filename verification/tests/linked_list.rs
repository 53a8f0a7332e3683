use substrate_dex::system::{ChainContext, Origin};
use substrate_dex::token::Module as TokenModule;
use substrate_dex::trade::{OrderStatus, OrderType, Module as TradeModule};
use substrate_dex::types::LinkedItem;
use substrate_dex::H256;

const ALICE: u64 = 10;
const BOB: u64 = 20;

/// Two tokens (alice's is the base, bob's the quote) and their trade pair.
fn market() -> (TokenModule, TradeModule, ChainContext, H256, H256, H256) {
    let ctx = ChainContext { random_seed: (0, 0), block_number: 0 };
    let mut tokens = TokenModule::new();
    let mut trade = TradeModule::new();

    assert_eq!(tokens.issue(Origin::signed(ALICE), b"66".to_vec(), 21000000, &ctx), Ok(()));
    let token1_hash = tokens.owned_token((ALICE, 0)).unwrap();
    let token1 = tokens.token(token1_hash).unwrap();

    assert_eq!(tokens.issue(Origin::signed(BOB), b"77".to_vec(), 10000000, &ctx), Ok(()));
    let token2_hash = tokens.owned_token((BOB, 0)).unwrap();
    let token2 = tokens.token(token2_hash).unwrap();

    let base = token1.hash;
    let quote = token2.hash;
    assert_eq!(trade.create_trade_pair(&tokens, Origin::signed(ALICE), base, quote, &ctx), Ok(()));
    let tp_hash = trade.trade_pair_hash_by_base_quote((base, quote)).unwrap();
    (tokens, trade, ctx, base, quote, tp_hash)
}

fn item(prev: Option<u128>, next: Option<u128>, price: Option<u128>, orders: Vec<H256>) -> LinkedItem {
    LinkedItem { prev, next, price, orders }
}

#[test]
fn linked_list_test_case() {
    let (mut tokens, mut trade, ctx, base, quote, tp_hash) = market();
    let alice = ALICE;
    let bob = BOB;

    let max = Some(u128::max_value());
    let min = Some(u128::min_value());

    let bottom = item(max, None, min, Vec::new());
    let top = item(None, min, max, Vec::new());
    let head = item(min, max, None, Vec::new());

    assert_eq!(head, trade.linked_items.read_head(tp_hash));
    assert_eq!(bottom, trade.linked_items.read_bottom(tp_hash));
    assert_eq!(top, trade.linked_items.read_top(tp_hash));

    // sell limit order
    assert_eq!(trade.create_limit_order(&mut tokens, Origin::signed(bob), base, quote, OrderType::Sell, 180_000_000, 100, &ctx), Ok(()));
    let order1_hash = trade.owned_order((bob, 0)).unwrap();
    let mut order1 = trade.order(order1_hash).unwrap();
    assert_eq!(order1.sell_amount, 100);

    assert_eq!(trade.create_limit_order(&mut tokens, Origin::signed(bob), base, quote, OrderType::Sell, 100_000_000, 50, &ctx), Ok(()));
    let order2_hash = trade.owned_order((bob, 1)).unwrap();
    let mut order2 = trade.order(order2_hash).unwrap();
    assert_eq!(order2.sell_amount, 50);

    assert_eq!(trade.create_limit_order(&mut tokens, Origin::signed(bob), base, quote, OrderType::Sell, 50_000_000, 10, &ctx), Ok(()));
    let order3_hash = trade.owned_order((bob, 2)).unwrap();
    let mut order3 = trade.order(order3_hash).unwrap();
    assert_eq!(order3.sell_amount, 10);

    assert_eq!(trade.create_limit_order(&mut tokens, Origin::signed(bob), base, quote, OrderType::Sell, 50_000_000, 20, &ctx), Ok(()));
    let order4_hash = trade.owned_order((bob, 3)).unwrap();
    let mut order4 = trade.order(order4_hash).unwrap();
    assert_eq!(order4.sell_amount, 20);

    assert_eq!(trade.create_limit_order(&mut tokens, Origin::signed(bob), base, quote, OrderType::Sell, 120_000_000, 10, &ctx), Ok(()));
    let order5_hash = trade.owned_order((bob, 4)).unwrap();
    let mut order5 = trade.order(order5_hash).unwrap();
    assert_eq!(order5.sell_amount, 10);

    assert_eq!(trade.create_limit_order(&mut tokens, Origin::signed(bob), base, quote, OrderType::Sell, 120_000_000, 30, &ctx), Ok(()));
    let order6_hash = trade.owned_order((bob, 5)).unwrap();
    let mut order6 = trade.order(order6_hash).unwrap();
    assert_eq!(order6.sell_amount, 30);

    assert_eq!(trade.create_limit_order(&mut tokens, Origin::signed(bob), base, quote, OrderType::Sell, 120_000_000, 20, &ctx), Ok(()));
    let order7_hash = trade.owned_order((bob, 6)).unwrap();
    let mut order7 = trade.order(order7_hash).unwrap();
    assert_eq!(order7.sell_amount, 20);

    // buy limit order
    assert_eq!(trade.create_limit_order(&mut tokens, Origin::signed(alice), base, quote, OrderType::Buy, 20_000_000, 5, &ctx), Ok(()));
    let order101_hash = trade.owned_order((alice, 0)).unwrap();
    let mut order101 = trade.order(order101_hash).unwrap();
    assert_eq!(order101.sell_amount, 5);

    assert_eq!(trade.create_limit_order(&mut tokens, Origin::signed(alice), base, quote, OrderType::Buy, 10_000_000, 12, &ctx), Ok(()));
    let order102_hash = trade.owned_order((alice, 1)).unwrap();
    let mut order102 = trade.order(order102_hash).unwrap();
    assert_eq!(order102.sell_amount, 12);

    assert_eq!(trade.create_limit_order(&mut tokens, Origin::signed(alice), base, quote, OrderType::Buy, 40_000_000, 100, &ctx), Ok(()));
    let order103_hash = trade.owned_order((alice, 2)).unwrap();
    let mut order103 = trade.order(order103_hash).unwrap();
    assert_eq!(order103.sell_amount, 100);

    assert_eq!(trade.create_limit_order(&mut tokens, Origin::signed(alice), base, quote, OrderType::Buy, 20_000_000, 1000000, &ctx), Ok(()));
    let order104_hash = trade.owned_order((alice, 3)).unwrap();
    let mut order104 = trade.order(order104_hash).unwrap();
    assert_eq!(order104.sell_amount, 1000000);

    // head
    let mut it = item(Some(40000000), Some(50000000), None, Vec::new());
    assert_eq!(trade.linked_items.read_head(tp_hash), it);

    // item1
    let mut curr = it.next;
    it = item(None, Some(100000000), Some(50000000), vec![order3_hash, order4_hash]);
    assert_eq!(trade.linked_items.read(tp_hash, curr), it);

    // item2
    curr = it.next;
    it = item(Some(50000000), Some(120000000), Some(100000000), vec![order2_hash]);
    assert_eq!(trade.linked_items.read(tp_hash, curr), it);

    // item3
    curr = it.next;
    it = item(Some(100000000), Some(180000000), Some(120000000), vec![order5_hash, order6_hash, order7_hash]);
    assert_eq!(trade.linked_items.read(tp_hash, curr), it);

    // item4
    curr = it.next;
    it = item(Some(120000000), max, Some(180000000), vec![order1_hash]);
    assert_eq!(trade.linked_items.read(tp_hash, curr), it);

    // top
    it = item(Some(180000000), min, max, Vec::new());
    assert_eq!(trade.linked_items.read_top(tp_hash), it);

    // bottom
    it = item(max, Some(10000000), min, Vec::new());
    assert_eq!(trade.linked_items.read_bottom(tp_hash), it);

    // item1
    curr = it.next;
    it = item(min, Some(20000000), Some(10000000), vec![order102_hash]);
    assert_eq!(trade.linked_items.read(tp_hash, curr), it);

    // item2
    curr = it.next;
    it = item(Some(10000000), Some(40000000), Some(20000000), vec![order101_hash, order104_hash]);
    assert_eq!(trade.linked_items.read(tp_hash, curr), it);

    // item3
    curr = it.next;
    it = item(Some(20000000), None, Some(40000000), vec![order103_hash]);
    assert_eq!(trade.linked_items.read(tp_hash, curr), it);

    // remove sell orders
    trade.linked_items.remove_items(tp_hash, OrderType::Sell, &trade.orders);
    trade.linked_items.remove_items(tp_hash, OrderType::Buy, &trade.orders);

    // price = 5
    order3.remained_buy_amount = 0;
    order3.status = OrderStatus::Filled;
    trade.orders.insert(order3.hash, order3);

    order4.status = OrderStatus::Canceled;
    trade.orders.insert(order4.hash, order4);

    // price = 10
    order2.remained_buy_amount = 0;
    order2.status = OrderStatus::Filled;
    trade.orders.insert(order2.hash, order2);

    // price = 12
    order5.status = OrderStatus::Canceled;
    trade.orders.insert(order5.hash, order5);

    order6.remained_buy_amount = order6.remained_buy_amount.checked_sub(1).unwrap();
    order6.status = OrderStatus::PartialFilled;
    trade.orders.insert(order6.hash, order6.clone());

    trade.linked_items.remove_items(tp_hash, OrderType::Sell, &trade.orders);

    // head
    it = item(Some(40000000), Some(120000000), None, Vec::new());
    assert_eq!(trade.linked_items.read_head(tp_hash), it);

    // item1
    curr = it.next;
    it = item(None, Some(180000000), Some(120000000), vec![order6_hash, order7_hash]);
    assert_eq!(trade.linked_items.read(tp_hash, curr), it);

    // item2
    curr = it.next;
    it = item(Some(120000000), max, Some(180000000), vec![order1_hash]);
    assert_eq!(trade.linked_items.read(tp_hash, curr), it);

    trade.linked_items.remove_items(tp_hash, OrderType::Sell, &trade.orders);

    // price = 18
    order1.status = OrderStatus::Canceled;
    trade.orders.insert(order1.hash, order1);

    // price = 12
    order6.remained_buy_amount = 0;
    order6.status = OrderStatus::Filled;
    trade.orders.insert(order6.hash, order6);

    order7.remained_buy_amount = 0;
    order7.status = OrderStatus::Filled;
    trade.orders.insert(order7.hash, order7);

    trade.linked_items.remove_items(tp_hash, OrderType::Sell, &trade.orders);

    // head
    it = item(Some(40000000), max, None, Vec::new());
    assert_eq!(trade.linked_items.read_head(tp_hash), it);

    // remove buy orders
    // price = 4
    order103.remained_buy_amount = 0;
    order103.status = OrderStatus::Filled;
    trade.orders.insert(order103.hash, order103);

    // price = 2
    order101.status = OrderStatus::Canceled;
    trade.orders.insert(order101.hash, order101);

    order104.remained_buy_amount = order104.remained_buy_amount.checked_sub(100).unwrap();
    order104.status = OrderStatus::PartialFilled;
    trade.orders.insert(order104.hash, order104.clone());

    trade.linked_items.remove_items(tp_hash, OrderType::Buy, &trade.orders);

    // bottom
    it = item(max, Some(10000000), min, Vec::new());
    assert_eq!(trade.linked_items.read_bottom(tp_hash), it);

    // item1
    curr = it.next;
    it = item(min, Some(20000000), Some(10000000), vec![order102_hash]);
    assert_eq!(trade.linked_items.read(tp_hash, curr), it);

    // item2
    curr = it.next;
    it = item(Some(10000000), None, Some(20000000), vec![order104_hash]);
    assert_eq!(trade.linked_items.read(tp_hash, curr), it);

    // price = 2
    order104.status = OrderStatus::Canceled;
    trade.orders.insert(order104.hash, order104);

    // price = 1
    order102.remained_buy_amount = 0;
    order102.status = OrderStatus::Filled;
    trade.orders.insert(order102.hash, order102);

    trade.linked_items.remove_items(tp_hash, OrderType::Buy, &trade.orders);

    let bottom = item(max, None, min, Vec::new());
    let top = item(None, min, max, Vec::new());
    let head = item(min, max, None, Vec::new());

    assert_eq!(head, trade.linked_items.read_head(tp_hash));
    assert_eq!(bottom, trade.linked_items.read_bottom(tp_hash));
    assert_eq!(top, trade.linked_items.read_top(tp_hash));
}

#[test]
fn linked_list_append_and_remove_order() {
    let (_tokens, mut trade, _ctx, _base, _quote, tp_hash) = market();
    let max = Some(u128::MAX);
    let min = Some(0u128);
    let (a, b, c) = ((0u128, 1u128), (0u128, 2u128), (0u128, 3u128));
    // a book is started by the first append
    trade.linked_items.append(tp_hash, 7, a, OrderType::Sell);
    trade.linked_items.append(tp_hash, 7, b, OrderType::Sell);
    trade.linked_items.append(tp_hash, 3, c, OrderType::Buy);
    assert_eq!(trade.linked_items.read(tp_hash, Some(7)), item(None, max, Some(7), vec![a, b]));
    assert_eq!(trade.linked_items.read(tp_hash, Some(3)), item(min, None, Some(3), vec![c]));
    assert_eq!(trade.linked_items.read_head(tp_hash), item(Some(3), Some(7), None, Vec::new()));

    // taking one order off keeps the level; the last one takes the level out
    trade.linked_items.remove_order(tp_hash, 7, a);
    assert_eq!(trade.linked_items.read(tp_hash, Some(7)), item(None, max, Some(7), vec![b]));
    trade.linked_items.remove_order(tp_hash, 7, b);
    assert_eq!(trade.linked_items.items.len(), 4);
    assert_eq!(trade.linked_items.read_head(tp_hash), item(Some(3), max, None, Vec::new()));
    assert_eq!(trade.linked_items.read_top(tp_hash), item(None, min, max, Vec::new()));
    // an order that is not there changes nothing
    trade.linked_items.remove_order(tp_hash, 3, a);
    assert_eq!(trade.linked_items.read(tp_hash, Some(3)), item(min, None, Some(3), vec![c]));
}

#[test]
fn linked_list_remove_item_errors() {
    let (_tokens, mut trade, _ctx, _base, _quote, tp_hash) = market();
    let h = (0u128, 42u128);
    trade.linked_items.append(tp_hash, 5, h, OrderType::Sell);
    // the order is not stored
    assert_eq!(trade.linked_items.remove_item(tp_hash, 5, &trade.orders), Err("can not get order"));
    // a price without a node is fine
    assert_eq!(trade.linked_items.remove_item(tp_hash, 6, &trade.orders), Ok(()));
}

#[test]
fn read_bottom_and_top_start_a_book() {
    let (_tokens, mut trade, _ctx, _base, _quote, _tp_hash) = market();
    let max = Some(u128::MAX);
    let min = Some(0u128);
    // the sentinel asked for is returned, as just stored, with the rest of the book
    let fresh: H256 = (7, 7);
    assert_eq!(trade.linked_items.read_bottom(fresh), item(max, None, min, Vec::new()));
    assert_eq!(trade.linked_items.read_head(fresh), item(min, max, None, Vec::new()));
    assert_eq!(trade.linked_items.read_top(fresh), item(None, min, max, Vec::new()));
    let other: H256 = (8, 8);
    assert_eq!(trade.linked_items.read_top(other), item(None, min, max, Vec::new()));
    assert_eq!(trade.linked_items.read_bottom(other), item(max, None, min, Vec::new()));
    assert_eq!(trade.linked_items.read_head(other), item(min, max, None, Vec::new()));
}

#[test]
fn append_buy_starts_a_book_on_its_buy_side() {
    let (_tokens, mut trade, _ctx, _base, _quote, _tp_hash) = market();
    let max = Some(u128::MAX);
    let min = Some(0u128);
    let fresh: H256 = (9, 9);
    let h = (0u128, 5u128);
    trade.linked_items.append(fresh, 5, h, OrderType::Buy);
    assert_eq!(trade.linked_items.read(fresh, Some(5)), item(min, None, Some(5), vec![h]));
    assert_eq!(trade.linked_items.read_head(fresh), item(Some(5), max, None, Vec::new()));
    assert_eq!(trade.linked_items.read_bottom(fresh), item(max, Some(5), min, Vec::new()));
    assert_eq!(trade.linked_items.read_top(fresh), item(None, min, max, Vec::new()));
}
