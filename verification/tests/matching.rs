use exchange::amount::{is_exact, is_ok, Amount, MAX_MANTISSA};
use exchange::book::Orderbook;
use chrono::Utc;
use exchange::clock::Timestamp;
use uuid::Uuid;
use exchange::errors::BookError;
use exchange::market_task::{market_step, MarketAction};
use exchange::messages::EngineMessage;
use exchange::order::{Order, Side, Status};
use rust_decimal::Decimal;

fn amt(mantissa: i128, scale: u32) -> Amount {
    Amount::from_parts(mantissa, scale).unwrap()
}

fn new_id() -> u128 {
    Uuid::new_v4().as_u128()
}

fn now() -> Timestamp {
    let t = Utc::now();
    Timestamp { secs: t.timestamp(), nanos: t.timestamp_subsec_nanos() }
}

fn d(a: Amount) -> Decimal {
    Decimal::from_i128_with_scale(a.mantissa, a.scale)
}

fn order(side: Side, price: Amount, quantity: Amount) -> Order {
    Order {
        order_id: new_id(),
        user_id: new_id(),
        market_id: 7,
        side,
        price,
        quantity,
        filled_quantity: amt(0, 0),
        status: Status::Pending,
        timestamp: now(),
    }
}

fn uncrossed(book: &Orderbook) -> bool {
    match (book.best_bid(), book.best_ask()) {
        (Some(b), Some(a)) => d(b) < d(a),
        _ => true,
    }
}

#[test]
fn bid_fills_at_resting_price_not_its_limit() {
    let mut book = Orderbook::new("ETHUSDT".to_string());
    book.place_order(order(Side::Ask, amt(99, 0), amt(5, 0))).unwrap();
    let (executed, fills) = book.place_order(order(Side::Bid, amt(101, 0), amt(5, 0))).unwrap();
    assert_eq!(d(executed), Decimal::new(5, 0));
    assert_eq!(fills.len(), 1);
    assert_eq!(d(fills[0].price), Decimal::new(99, 0));
    assert_eq!(d(book.last_traded_price), Decimal::new(99, 0));
    assert!(book.asks.is_empty() && book.bids.is_empty());
}

#[test]
fn ask_takes_highest_bids_first() {
    let mut book = Orderbook::new("ETHUSDT".to_string());
    book.place_order(order(Side::Bid, amt(98, 0), amt(5, 0))).unwrap();
    book.place_order(order(Side::Bid, amt(100, 0), amt(5, 0))).unwrap();
    book.place_order(order(Side::Bid, amt(99, 0), amt(5, 0))).unwrap();
    let ask = order(Side::Ask, amt(97, 0), amt(10, 0));
    let ask_id = ask.order_id;
    let (executed, fills) = book.place_order(ask).unwrap();
    assert_eq!(d(executed), Decimal::new(10, 0));
    assert_eq!(fills.len(), 2);
    assert_eq!(d(fills[0].price), Decimal::new(100, 0));
    assert_eq!(d(fills[1].price), Decimal::new(99, 0));
    assert!(fills.iter().all(|f| f.taker_order_id == ask_id && f.market_id == 7));
    assert_eq!(book.bids.len(), 1);
    assert_eq!(d(book.best_bid().unwrap()), Decimal::new(98, 0));
    assert_eq!(d(book.last_traded_price), Decimal::new(99, 0));
}

#[test]
fn unfilled_rest_of_taker_rests_with_its_fill() {
    let mut book = Orderbook::new("ETHUSDT".to_string());
    book.place_order(order(Side::Ask, amt(100, 0), amt(3, 0))).unwrap();
    let (executed, fills) = book.place_order(order(Side::Bid, amt(100, 0), amt(10, 0))).unwrap();
    let total: Decimal = fills.iter().map(|f| d(f.quantity)).sum();
    assert_eq!(total, d(executed));
    assert_eq!(d(executed), Decimal::new(3, 0));
    let resting = &book.orders_at(Side::Bid, &amt(100, 0)).unwrap()[0];
    assert_eq!(d(resting.filled_quantity), Decimal::new(3, 0));
    assert_eq!(d(resting.quantity), Decimal::new(10, 0));
    assert!(book.asks.is_empty());
    assert!(uncrossed(&book));
}

#[test]
fn decimal_quantities_add_up_exactly() {
    let mut book = Orderbook::new("ETHUSDT".to_string());
    book.place_order(order(Side::Ask, amt(100, 0), amt(1, 1))).unwrap();
    book.place_order(order(Side::Ask, amt(100, 0), amt(2, 1))).unwrap();
    let (executed, fills) = book.place_order(order(Side::Bid, amt(100, 0), amt(3, 1))).unwrap();
    assert_eq!(fills.len(), 2);
    assert_eq!(d(executed), Decimal::new(3, 1));
    assert!(book.asks.is_empty());
    assert!(book.bids.is_empty());
}

#[test]
fn equal_prices_of_different_scale_share_a_level() {
    let mut book = Orderbook::new("ETHUSDT".to_string());
    book.place_order(order(Side::Ask, amt(1000, 1), amt(1, 0))).unwrap();
    book.place_order(order(Side::Ask, amt(100, 0), amt(1, 0))).unwrap();
    assert_eq!(book.asks.len(), 1);
    assert_eq!(book.orders_at(Side::Ask, &amt(10000, 2)).unwrap().len(), 2);
    let best = book.best_ask().unwrap();
    assert_eq!((best.mantissa, best.scale), (1000, 1));
}

#[test]
fn levels_stay_sorted_and_book_uncrossed() {
    let mut book = Orderbook::new("ETHUSDT".to_string());
    let prices = [105i128, 101, 103, 99, 100, 104, 98, 102];
    for (i, p) in prices.iter().enumerate() {
        let side = if i % 2 == 0 { Side::Ask } else { Side::Bid };
        book.place_order(order(side, amt(*p, 0), amt(2 + i as i128, 0))).unwrap();
        assert!(uncrossed(&book));
        assert!(book.asks.windows(2).all(|w| d(w[0].price) < d(w[1].price)));
        assert!(book.bids.windows(2).all(|w| d(w[0].price) < d(w[1].price)));
        assert!(book.asks.iter().chain(book.bids.iter()).all(|l| !l.orders.is_empty()));
    }
}

#[test]
fn order_already_filled_neither_matches_nor_rests() {
    let mut book = Orderbook::new("ETHUSDT".to_string());
    book.place_order(order(Side::Ask, amt(100, 0), amt(5, 0))).unwrap();
    let mut o = order(Side::Bid, amt(100, 0), amt(5, 0));
    o.filled_quantity = amt(5, 0);
    let (executed, fills) = book.place_order(o).unwrap();
    assert_eq!(d(executed), Decimal::new(0, 0));
    assert!(fills.is_empty());
    assert!(book.bids.is_empty());
    assert_eq!(book.asks.len(), 1);
    assert_eq!(d(book.last_traded_price), Decimal::new(0, 0));
}

#[test]
fn rounded_arithmetic_is_placed_as_rust_decimal_computes_it() {
    let mut book = Orderbook::new("ETHUSDT".to_string());
    book.place_order(order(Side::Ask, amt(100, 0), amt(1, 0))).unwrap();
    // what is left of this bid, MAX_MANTISSA - 0.1, is rounded by rust_decimal
    let mut o = order(Side::Bid, amt(100, 0), amt(MAX_MANTISSA, 0));
    o.filled_quantity = amt(1, 1);
    assert!(book.can_place(&o));
    match market_step(&mut book, Some(EngineMessage::PlaceOrder(o))) {
        MarketAction::Placed(executed, fills) => {
            assert_eq!(d(executed), Decimal::new(1, 0));
            assert_eq!(fills.len(), 1);
        }
        other => panic!("unexpected {:?}", other),
    }
    assert!(book.asks.is_empty());
    let resting = &book.orders_at(Side::Bid, &amt(100, 0)).unwrap()[0];
    assert_eq!(d(resting.filled_quantity), Decimal::new(11, 1));
}

#[test]
fn overflowing_arithmetic_is_refused_by_the_market_task() {
    let mut book = Orderbook::new("ETHUSDT".to_string());
    book.place_order(order(Side::Ask, amt(100, 0), amt(1, 0))).unwrap();
    // what is left of this bid, MAX_MANTISSA + 1, is beyond any decimal: rust_decimal panics
    let mut o = order(Side::Bid, amt(100, 0), amt(MAX_MANTISSA, 0));
    o.filled_quantity = amt(-1, 0);
    assert!(!book.can_place(&o));
    match market_step(&mut book, Some(EngineMessage::PlaceOrder(o))) {
        MarketAction::Rejected(e) => assert_eq!(e, BookError::InvalidQuantity),
        other => panic!("unexpected {:?}", other),
    }
    assert!(book.bids.is_empty());
    assert_eq!(book.asks.len(), 1);
}

#[test]
fn inexact_arithmetic_without_a_trade_is_placed() {
    let mut book = Orderbook::new("ETHUSDT".to_string());
    let mut o = order(Side::Bid, amt(100, 0), amt(MAX_MANTISSA, 0));
    o.filled_quantity = amt(1, 1);
    assert!(book.can_place(&o));
    match market_step(&mut book, Some(EngineMessage::PlaceOrder(o))) {
        MarketAction::Placed(executed, fills) => {
            assert_eq!(d(executed), Decimal::new(0, 0));
            assert!(fills.is_empty());
        }
        other => panic!("unexpected {:?}", other),
    }
    assert_eq!(book.bids.len(), 1);
}

#[test]
fn orders_of_different_scales_at_one_level_are_matched() {
    let mut book = Orderbook::new("ETHUSDT".to_string());
    book.place_order(order(Side::Ask, amt(100, 0), amt(8, 0))).unwrap();
    // 1.0000000000000000000000000000, at the largest scale
    book.place_order(order(Side::Ask, amt(100, 0), amt(10i128.pow(28), 28))).unwrap();
    let bid = order(Side::Bid, amt(100, 0), amt(1, 0));
    assert!(book.can_place(&bid));
    match market_step(&mut book, Some(EngineMessage::PlaceOrder(bid))) {
        MarketAction::Placed(executed, fills) => {
            assert_eq!(d(executed), Decimal::new(1, 0));
            assert_eq!(fills.len(), 1);
            assert_eq!(d(fills[0].quantity), Decimal::new(1, 0));
        }
        other => panic!("unexpected {:?}", other),
    }
    let level = book.orders_at(Side::Ask, &amt(100, 0)).unwrap();
    assert_eq!(level.len(), 2);
    assert_eq!(d(level[0].filled_quantity), Decimal::new(1, 0));
    assert_eq!(d(level[1].filled_quantity), Decimal::new(0, 0));
    // the rest of the first ask, then the second one
    let bid = order(Side::Bid, amt(100, 0), amt(7, 0));
    assert!(book.can_place(&bid));
    let (executed, fills) = book.place_order(bid).unwrap();
    assert_eq!(d(executed), Decimal::new(7, 0));
    assert_eq!(fills.len(), 1);
    let bid = order(Side::Bid, amt(100, 0), amt(1, 0));
    assert!(book.can_place(&bid));
    let (executed, fills) = book.place_order(bid).unwrap();
    assert_eq!(d(executed), Decimal::new(1, 0));
    assert_eq!((fills[0].quantity.mantissa, fills[0].quantity.scale), (10i128.pow(28), 28));
    // zero plus the fill is the fill itself, scale included
    assert_eq!((executed.mantissa, executed.scale), (10i128.pow(28), 28));
    assert!(book.asks.is_empty());
    assert!(book.bids.is_empty());
}

#[test]
fn a_sum_that_rust_decimal_rounds_is_placed() {
    let mut book = Orderbook::new("ETHUSDT".to_string());
    book.place_order(order(Side::Ask, amt(100, 0), amt(7, 0))).unwrap();
    book.place_order(order(Side::Ask, amt(100, 0), amt(10i128.pow(28), 28))).unwrap();
    // 7 + 1.0000000000000000000000000000 is rounded to a smaller scale
    let bid = order(Side::Bid, amt(100, 0), amt(8, 0));
    assert!(book.can_place(&bid));
    let (executed, fills) = book.place_order(bid).unwrap();
    assert_eq!(fills.len(), 2);
    assert_eq!(d(executed), Decimal::new(8, 0));
    assert!(executed.scale < 28);
    assert!(book.asks.is_empty());
    assert!(book.bids.is_empty());
}

#[test]
fn market_task_places_and_shuts_down() {
    let mut book = Orderbook::new("ETHUSDT".to_string());
    let o = order(Side::Ask, amt(100, 0), amt(5, 0));
    assert!(book.can_place(&o));
    match market_step(&mut book, Some(EngineMessage::PlaceOrder(o))) {
        MarketAction::Placed(executed, fills) => {
            assert_eq!(d(executed), Decimal::new(0, 0));
            assert!(fills.is_empty());
        }
        other => panic!("unexpected {:?}", other),
    }
    assert_eq!(book.asks.len(), 1);
    assert!(matches!(market_step(&mut book, None), MarketAction::Shutdown));
}

#[test]
fn exactness_check_of_decimal_arithmetic() {
    // 0.1 + 0.2 at scale 1
    assert!(is_exact(&amt(1, 1), &amt(2, 1), true));
    // the largest mantissa plus one overflows
    assert!(!is_exact(&amt(MAX_MANTISSA, 0), &amt(1, 0), true));
    // a large integer cannot be brought to scale 1 exactly
    assert!(!is_exact(&amt(MAX_MANTISSA, 0), &amt(1, 1), false));
    assert_eq!(amt(12, 1).rescaled(3), Some(1200));
    assert_eq!(amt(MAX_MANTISSA, 0).rescaled(1), None);
    assert!(Amount::from_parts(MAX_MANTISSA + 1, 0).is_none());
    assert!(Amount::from_parts(1, 29).is_none());
    // rounded, but within range
    assert!(is_ok(&amt(MAX_MANTISSA, 0), &amt(1, 1), false));
    // beyond any decimal
    assert!(!is_ok(&amt(MAX_MANTISSA, 0), &amt(1, 0), true));
    assert!(is_ok(&amt(MAX_MANTISSA, 0), &amt(-1, 0), true));
    assert!(!is_ok(&amt(-MAX_MANTISSA, 0), &amt(1, 1), false));
}

#[test]
fn orders_out_of_reach_do_not_constrain_the_arithmetic() {
    let mut book = Orderbook::new("ETHUSDT".to_string());
    book.place_order(order(Side::Ask, amt(200, 0), amt(MAX_MANTISSA, 0))).unwrap();
    book.place_order(order(Side::Ask, amt(100, 0), amt(5, 1))).unwrap();
    let bid = order(Side::Bid, amt(100, 0), amt(5, 1));
    assert!(book.can_place(&bid));
    let (executed, fills) = book.place_order(bid).unwrap();
    assert_eq!(d(executed), Decimal::new(5, 1));
    assert_eq!(fills.len(), 1);
    assert_eq!(book.asks.len(), 1);
    // the huge ask is reached now: half a unit of it trades exactly
    let reaching = order(Side::Bid, amt(200, 0), amt(5, 1));
    assert!(book.can_place(&reaching));
    let (executed, fills) = book.place_order(reaching).unwrap();
    assert_eq!(d(executed), Decimal::new(5, 1));
    assert_eq!(fills.len(), 1);
    // what is left of it, MAX_MANTISSA - 0.5, is rounded by rust_decimal
    let again = order(Side::Bid, amt(200, 0), amt(1, 0));
    assert!(book.can_place(&again));
    let (executed, fills) = book.place_order(again).unwrap();
    assert_eq!(d(executed), Decimal::new(1, 0));
    assert_eq!(fills.len(), 1);
    assert_eq!(book.asks.len(), 1);
}
