use hft::message::OrderMessage;
use hft::orderbook::{MarketDataEvent, OrderBook, TYPE_LIMIT, TYPE_MODIFY};
use hft::pool::OrderPool;
use hft::risk::{RiskGateway, UserState};
use hft::strategy::MarketMakerStrategy;

fn order(user_id: u16, quantity: u32) -> OrderMessage {
    OrderMessage {
        ticker_id: 0,
        user_id,
        is_bid: true,
        order_type: TYPE_LIMIT,
        price: 100,
        order_id: 1,
        quantity,
        display_quantity: quantity,
        stop_signal: false,
    }
}

#[test]
fn fresh_user_state() {
    let u = UserState::default();
    assert_eq!((u.max_position, u.current_exposure, u.active_orders_count), (1_000_000, 0, 0));
    let g = RiskGateway::new(10);
    let u = g.user(9);
    assert_eq!((u.max_position, u.current_exposure, u.active_orders_count), (1_000_000, 0, 0));
}

#[test]
fn accepted_orders_add_exposure() {
    let mut g = RiskGateway::new(10);
    assert!(g.check_pre_trade(&order(3, 500)));
    assert!(g.check_pre_trade(&order(3, 250)));
    let u = g.user(3);
    assert_eq!((u.current_exposure, u.active_orders_count), (750, 2));
    assert_eq!(g.user(4).current_exposure, 0);
}

#[test]
fn unknown_user_is_rejected() {
    let mut g = RiskGateway::new(10);
    assert!(!g.check_pre_trade(&order(10, 1)));
    assert!(!g.check_pre_trade(&order(u16::MAX, 1)));
}

#[test]
fn oversized_order_is_rejected() {
    let mut g = RiskGateway::new(10);
    assert!(g.check_pre_trade(&order(1, 50_000)));
    assert!(!g.check_pre_trade(&order(1, 50_001)));
    let u = g.user(1);
    assert_eq!((u.current_exposure, u.active_orders_count), (50_000, 1));
}

#[test]
fn exposure_never_passes_the_limit() {
    let mut g = RiskGateway::new(2);
    for _ in 0..20 {
        assert!(g.check_pre_trade(&order(0, 50_000)));
    }
    assert_eq!(g.user(0).current_exposure, 1_000_000);
    assert!(!g.check_pre_trade(&order(0, 1)));
    assert!(g.check_pre_trade(&order(0, 0)));
    assert_eq!(g.user(0).current_exposure, 1_000_000);
    assert_eq!(g.user(0).active_orders_count, 21);
}

fn book_with(bid: u32, ask: u32) -> (OrderBook, OrderPool) {
    let mut book = OrderBook::new(200, 100);
    let mut pool = OrderPool::new(100);
    let mut out: Vec<MarketDataEvent> = Vec::new();
    book.process_order(&mut pool, true, bid, 1, 10, 0, TYPE_LIMIT, 3, 5, &mut out);
    book.process_order(&mut pool, false, ask, 2, 10, 0, TYPE_LIMIT, 3, 6, &mut out);
    (book, pool)
}

fn key(m: &OrderMessage) -> (u16, u16, bool, u8, u32, u32, u32, u32) {
    (m.ticker_id, m.user_id, m.is_bid, m.order_type, m.price, m.order_id, m.quantity, m.display_quantity)
}

#[test]
fn new_strategy_has_no_quotes() {
    let s = MarketMakerStrategy::new(1000, 4);
    assert_eq!(s.user_id, 1000);
    assert_eq!(s.spread_tolerance, 4);
    assert_eq!(s.base_order_id, 20_000);
    assert_eq!((s.active_bid_id, s.active_ask_id), (0, 0));
    assert_eq!((s.current_bid_price, s.current_ask_price), (0, 0));
}

#[test]
fn strategy_quotes_around_the_mid() {
    let (book, _pool) = book_with(100, 110);
    let mut s = MarketMakerStrategy::new(1000, 4);
    let (actions, count) = s.on_book_update(&book, 3);
    assert_eq!(count, 2);
    assert_eq!(key(&actions[0]), (3, 1000, true, TYPE_LIMIT, 101, 20_001, 100, 100));
    assert_eq!(key(&actions[1]), (3, 1000, false, TYPE_LIMIT, 109, 20_002, 100, 100));
    assert_eq!((s.active_bid_id, s.active_ask_id, s.base_order_id), (20_001, 20_002, 20_002));
    assert_eq!((s.current_bid_price, s.current_ask_price), (101, 109));
    // The quotes straddle the mid and stay inside the book.
    assert!(actions[0].price < book.best_ask_price() && actions[1].price > book.best_bid_price());
}

#[test]
fn strategy_stays_put_when_targets_do_not_move() {
    let (book, _pool) = book_with(100, 110);
    let mut s = MarketMakerStrategy::new(1000, 4);
    s.on_book_update(&book, 3);
    let (actions, count) = s.on_book_update(&book, 3);
    assert_eq!(count, 0);
    assert_eq!(key(&actions[0]), (0, 0, false, 0, 0, 0, 0, 0));
    assert_eq!(key(&actions[1]), (0, 0, false, 0, 0, 0, 0, 0));
}

#[test]
fn strategy_moves_live_quotes_with_modify() {
    let (book, _pool) = book_with(100, 110);
    let mut s = MarketMakerStrategy::new(1000, 4);
    s.on_book_update(&book, 3);
    let (book2, _pool2) = book_with(104, 110);
    let (actions, count) = s.on_book_update(&book2, 3);
    assert_eq!(count, 2);
    assert_eq!(key(&actions[0]), (3, 1000, true, TYPE_MODIFY, 103, 20_001, 100, 100));
    assert_eq!(key(&actions[1]), (3, 1000, false, TYPE_MODIFY, 111, 20_002, 100, 100));
    assert_eq!(s.base_order_id, 20_002);
}

#[test]
fn strategy_only_requotes_the_side_that_moved() {
    let (book, _pool) = book_with(100, 110);
    let mut s = MarketMakerStrategy::new(1000, 0);
    s.on_book_update(&book, 3);
    assert_eq!((s.current_bid_price, s.current_ask_price), (105, 105));
    let (book2, _pool2) = book_with(100, 111);
    let (actions, count) = s.on_book_update(&book2, 3);
    assert_eq!(count, 0);
    let (book3, _pool3) = book_with(102, 111);
    let (actions3, count3) = s.on_book_update(&book3, 3);
    assert_eq!(count3, 2);
    assert_eq!(actions3[0].price, 106);
    assert_eq!(key(&actions[0]), (0, 0, false, 0, 0, 0, 0, 0));
}

#[test]
fn strategy_bid_target_floors_at_zero() {
    let (book, _pool) = book_with(2, 6);
    let mut s = MarketMakerStrategy::new(7, 10);
    let (actions, count) = s.on_book_update(&book, 1);
    // The bid target is 0, the price a new strategy starts at, so only the
    // ask is quoted.
    assert_eq!(count, 1);
    assert_eq!(key(&actions[0]), (1, 7, false, TYPE_LIMIT, 14, 20_001, 100, 100));
    assert_eq!((s.active_bid_id, s.current_bid_price), (0, 0));
}

#[test]
fn strategy_ignores_one_sided_book() {
    let mut book = OrderBook::new(200, 100);
    let mut pool = OrderPool::new(100);
    let mut out: Vec<MarketDataEvent> = Vec::new();
    let mut s = MarketMakerStrategy::new(1000, 4);
    assert_eq!(s.on_book_update(&book, 0).1, 0);
    book.process_order(&mut pool, true, 100, 1, 10, 0, TYPE_LIMIT, 0, 5, &mut out);
    assert_eq!(s.on_book_update(&book, 0).1, 0);
    assert_eq!(s.base_order_id, 20_000);
}
