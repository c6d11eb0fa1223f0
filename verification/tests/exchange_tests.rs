use hft::exchange::{Exchange, PRICE_LEVELS};
use hft::message::OrderMessage;
use hft::orderbook::{TYPE_CANCEL, TYPE_IOC, TYPE_LIMIT, TYPE_MODIFY};
use hft::pool::NULL_IDX;

fn msg(ticker_id: u16, user_id: u16, is_bid: bool, order_type: u8, price: u32, order_id: u32, quantity: u32) -> OrderMessage {
    OrderMessage {
        ticker_id,
        user_id,
        is_bid,
        order_type,
        price,
        order_id,
        quantity,
        display_quantity: quantity,
        stop_signal: false,
    }
}

fn events(x: &Exchange<()>) -> Vec<(u8, u16, u32, u32)> {
    x.egress_buffer.iter().map(|e| (e.event_type, e.ticker_id, e.price, e.quantity)).collect()
}

#[test]
fn new_exchange_has_empty_books_and_house_market_makers() {
    let x: Exchange<u8> = Exchange::new(3, 1000, 7u8);
    assert_eq!(x.egress_queue, 7);
    assert!(x.egress_buffer.is_empty());
    assert_eq!(PRICE_LEVELS, 100_000);
    for t in 0..3 {
        assert_eq!(x.best_prices(t), (0, NULL_IDX));
        let s = x.strategy(t);
        assert_eq!((s.user_id, s.spread_tolerance, s.base_order_id), (1000, 4, 20_000));
    }
}

#[test]
fn market_maker_quotes_once_the_book_is_two_sided() {
    let mut x: Exchange<()> = Exchange::new(2, 50_000, ());
    x.route_and_execute(msg(1, 5, false, TYPE_LIMIT, 50_010, 1, 10));
    assert_eq!(x.best_prices(1), (0, 50_010));
    assert_eq!(x.strategy(1).active_bid_id, 0);
    x.route_and_execute(msg(1, 6, true, TYPE_LIMIT, 50_000, 2, 10));
    assert_eq!(x.best_prices(1), (50_001, 50_009));
    let s = x.strategy(1);
    assert_eq!((s.active_bid_id, s.active_ask_id), (20_001, 20_002));
    assert_eq!((s.current_bid_price, s.current_ask_price), (50_001, 50_009));
    assert!(x.egress_buffer.is_empty());
    assert_eq!(x.best_prices(0), (0, NULL_IDX));
}

#[test]
fn trades_against_the_market_maker_are_published() {
    let mut x: Exchange<()> = Exchange::new(2, 50_000, ());
    x.route_and_execute(msg(1, 5, false, TYPE_LIMIT, 50_010, 1, 10));
    x.route_and_execute(msg(1, 6, true, TYPE_LIMIT, 50_000, 2, 10));
    x.route_and_execute(msg(1, 7, false, TYPE_IOC, 50_000, 3, 15));
    assert_eq!(events(&x), vec![(1, 1, 50_001, 15)]);
    assert_eq!(x.best_prices(1), (50_001, 50_009));
    x.route_and_execute(msg(1, 7, false, TYPE_IOC, 50_000, 4, 90));
    // The book is now 50_000 x 50_009: the market maker re-enters its filled
    // bid and moves its ask, which cancels the old one.
    assert_eq!(
        events(&x),
        vec![(1, 1, 50_001, 15), (1, 1, 50_001, 85), (1, 1, 50_000, 5), (3, 1, 50_009, 0)]
    );
    let s = x.strategy(1);
    assert_eq!((s.current_bid_price, s.current_ask_price), (50_000, 50_008));
    assert_eq!(x.best_prices(1), (50_000, 50_008));
}

#[test]
fn cancel_and_modify_are_routed() {
    let mut x: Exchange<()> = Exchange::new(1, 100, ());
    x.route_and_execute(msg(0, 5, true, TYPE_LIMIT, 40, 1, 10));
    x.route_and_execute(msg(0, 5, true, TYPE_MODIFY, 40, 1, 4));
    assert_eq!(events(&x), vec![(4, 0, 40, 4)]);
    x.route_and_execute(msg(0, 5, true, TYPE_CANCEL, 0, 1, 0));
    assert_eq!(events(&x), vec![(4, 0, 40, 4), (3, 0, 40, 0)]);
    assert_eq!(x.best_prices(0), (0, NULL_IDX));
}

#[test]
fn exchange_without_tickers() {
    let x: Exchange<()> = Exchange::new(0, 0, ());
    assert!(x.egress_buffer.is_empty());
}
