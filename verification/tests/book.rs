use exchange::amount::Amount;
use exchange::book::Orderbook;
use chrono::Utc;
use exchange::clock::Timestamp;
use uuid::Uuid;
use exchange::order::{Order, Side, Status};
use rust_decimal::Decimal;

fn dec(v: i64) -> Amount {
    Amount::from_parts(v as i128, 0).unwrap()
}

fn new_id() -> u128 {
    Uuid::new_v4().as_u128()
}

fn now() -> Timestamp {
    let t = Utc::now();
    Timestamp { secs: t.timestamp(), nanos: t.timestamp_subsec_nanos() }
}

fn d(a: Amount) -> Decimal {
    Decimal::from_i128_with_scale(a.mantissa, a.scale)
}

fn create_order(side: Side, price: Amount, quantity: Amount) -> Order {
    Order {
        order_id: new_id(),
        user_id: new_id(),
        market_id: new_id(),
        side,
        price,
        quantity,
        filled_quantity: dec(0),
        status: Status::Pending,
        timestamp: now(),
    }
}

#[test]
fn bid_order_added_when_no_asks() {
    let mut book = Orderbook::new("BTCUSDT".to_string());

    let bid = create_order(Side::Bid, dec(100), dec(10));

    let (executed, fills) = book.place_order(bid).unwrap();

    assert_eq!(d(executed), Decimal::new(0, 0));
    assert!(fills.is_empty());

    assert_eq!(book.best_bid().map(d), Some(Decimal::new(100, 0)));
    assert_eq!(book.best_ask().map(d), None);

    assert_eq!(book.orders_at(Side::Bid, &dec(100)).unwrap().len(), 1);
}

#[test]
fn ask_order_added_when_no_bids() {
    let mut book = Orderbook::new("BTCUSDT".to_string());

    let ask = create_order(Side::Ask, dec(100), dec(10));

    let (executed, fills) = book.place_order(ask).unwrap();

    assert_eq!(d(executed), Decimal::new(0, 0));
    assert!(fills.is_empty());

    assert_eq!(book.best_bid().map(d), None);
    assert_eq!(book.best_ask().map(d), Some(Decimal::new(100, 0)));

    assert_eq!(book.orders_at(Side::Ask, &dec(100)).unwrap().len(), 1);
}

#[test]
fn bid_matches_single_ask_exact_quantity() {
    let mut book = Orderbook::new("BTCUSDT".to_string());

    let ask = create_order(Side::Ask, dec(100), dec(10));
    book.place_order(ask).unwrap();

    let bid = create_order(Side::Bid, dec(100), dec(10));

    let (executed, fills) = book.place_order(bid).unwrap();

    assert_eq!(d(executed), Decimal::new(10, 0));
    assert_eq!(fills.len(), 1);

    assert_eq!(d(fills[0].price), Decimal::new(100, 0));
    assert_eq!(d(fills[0].quantity), Decimal::new(10, 0));

    assert!(book.asks.is_empty());
    assert_eq!(d(book.last_traded_price), Decimal::new(100, 0));
}

#[test]
fn ask_matches_single_bid_exact_quantity() {
    let mut book = Orderbook::new("BTCUSDT".to_string());

    let bid = create_order(Side::Bid, dec(100), dec(10));
    book.place_order(bid).unwrap();

    let ask = create_order(Side::Ask, dec(100), dec(10));

    let (executed, fills) = book.place_order(ask).unwrap();

    assert_eq!(d(executed), Decimal::new(10, 0));
    assert_eq!(fills.len(), 1);

    assert_eq!(d(fills[0].price), Decimal::new(100, 0));
    assert_eq!(d(fills[0].quantity), Decimal::new(10, 0));

    assert!(book.bids.is_empty());
    assert_eq!(d(book.last_traded_price), Decimal::new(100, 0));
}

#[test]
fn bid_partially_fills_larger_ask() {
    let mut book = Orderbook::new("BTCUSDT".to_string());

    let ask = create_order(Side::Ask, dec(100), dec(20));
    book.place_order(ask).unwrap();

    let bid = create_order(Side::Bid, dec(100), dec(5));

    let (executed, fills) = book.place_order(bid).unwrap();

    assert_eq!(d(executed), Decimal::new(5, 0));
    assert_eq!(fills.len(), 1);

    let remaining = &book.orders_at(Side::Ask, &dec(100)).unwrap()[0];

    assert_eq!(d(remaining.quantity), Decimal::new(20, 0));
    assert_eq!(d(remaining.filled_quantity), Decimal::new(5, 0));
}

#[test]
fn ask_partially_fills_larger_bid() {
    let mut book = Orderbook::new("BTCUSDT".to_string());

    let bid = create_order(Side::Bid, dec(100), dec(20));
    book.place_order(bid).unwrap();

    let ask = create_order(Side::Ask, dec(100), dec(5));

    let (executed, fills) = book.place_order(ask).unwrap();

    assert_eq!(d(executed), Decimal::new(5, 0));
    assert_eq!(fills.len(), 1);

    let remaining = &book.orders_at(Side::Bid, &dec(100)).unwrap()[0];

    assert_eq!(d(remaining.quantity), Decimal::new(20, 0));
    assert_eq!(d(remaining.filled_quantity), Decimal::new(5, 0));
}

#[test]
fn bid_consumes_multiple_asks_same_price() {
    let mut book = Orderbook::new("BTCUSDT".to_string());

    book.place_order(create_order(Side::Ask, dec(100), dec(5))).unwrap();
    book.place_order(create_order(Side::Ask, dec(100), dec(5))).unwrap();

    let bid = create_order(Side::Bid, dec(100), dec(10));

    let (executed, fills) = book.place_order(bid).unwrap();

    assert_eq!(d(executed), Decimal::new(10, 0));
    assert_eq!(fills.len(), 2);

    assert!(book.asks.is_empty());
}

#[test]
fn ask_consumes_multiple_bids_same_price() {
    let mut book = Orderbook::new("BTCUSDT".to_string());

    book.place_order(create_order(Side::Bid, dec(100), dec(5))).unwrap();
    book.place_order(create_order(Side::Bid, dec(100), dec(5))).unwrap();

    let ask = create_order(Side::Ask, dec(100), dec(10));

    let (executed, fills) = book.place_order(ask).unwrap();

    assert_eq!(d(executed), Decimal::new(10, 0));
    assert_eq!(fills.len(), 2);

    assert!(book.bids.is_empty());
}

#[test]
fn bid_consumes_multiple_price_levels() {
    let mut book = Orderbook::new("BTCUSDT".to_string());

    book.place_order(create_order(Side::Ask, dec(99), dec(5))).unwrap();
    book.place_order(create_order(Side::Ask, dec(100), dec(5))).unwrap();
    book.place_order(create_order(Side::Ask, dec(101), dec(5))).unwrap();

    let bid = create_order(Side::Bid, dec(101), dec(12));

    let (executed, fills) = book.place_order(bid).unwrap();

    assert_eq!(d(executed), Decimal::new(12, 0));
    assert_eq!(fills.len(), 3);

    let remaining = &book.orders_at(Side::Ask, &dec(101)).unwrap()[0];

    assert_eq!(d(remaining.filled_quantity), Decimal::new(2, 0));
}

#[test]
fn bid_does_not_match_higher_ask_price() {
    let mut book = Orderbook::new("BTCUSDT".to_string());

    book.place_order(create_order(Side::Ask, dec(101), dec(10))).unwrap();

    let bid = create_order(Side::Bid, dec(100), dec(10));

    let (executed, fills) = book.place_order(bid).unwrap();

    assert_eq!(d(executed), Decimal::new(0, 0));
    assert!(fills.is_empty());

    assert_eq!(book.best_bid().map(d), Some(Decimal::new(100, 0)));
    assert_eq!(book.best_ask().map(d), Some(Decimal::new(101, 0)));
}

#[test]
fn fifo_priority_respected_for_same_price_asks() {
    let mut book = Orderbook::new("BTCUSDT".to_string());

    let ask1 = create_order(Side::Ask, dec(100), dec(5));
    let ask1_id = ask1.order_id;

    let ask2 = create_order(Side::Ask, dec(100), dec(5));
    let ask2_id = ask2.order_id;

    book.place_order(ask1).unwrap();
    book.place_order(ask2).unwrap();

    let bid = create_order(Side::Bid, dec(100), dec(10));

    let (_, fills) = book.place_order(bid).unwrap();

    assert_eq!(fills.len(), 2);

    assert_eq!(fills[0].maker_order_id, ask1_id);
    assert_eq!(fills[1].maker_order_id, ask2_id);
}

#[test]
fn best_bid_returns_none_for_empty_book() {
    let book = Orderbook::new("BTCUSDT".to_string());

    assert_eq!(book.best_bid().map(d), None);
}

#[test]
fn best_ask_returns_none_for_empty_book() {
    let book = Orderbook::new("BTCUSDT".to_string());

    assert_eq!(book.best_ask().map(d), None);
}
