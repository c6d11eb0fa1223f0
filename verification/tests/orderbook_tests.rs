use hft::orderbook::{MarketDataEvent, OrderBook, PriceLevel, TYPE_FOK, TYPE_IOC, TYPE_LIMIT};
use hft::pool::{OrderPool, NULL_IDX};

const T: u16 = 7;

fn setup() -> (OrderBook, OrderPool, Vec<MarketDataEvent>) {
    (OrderBook::new(100, 100), OrderPool::new(100), Vec::new())
}

fn ev(event_type: u8, price: u32, quantity: u32) -> (u8, u16, u32, u32) {
    (event_type, T, price, quantity)
}

fn events(e: &[MarketDataEvent]) -> Vec<(u8, u16, u32, u32)> {
    e.iter().map(|x| (x.event_type, x.ticker_id, x.price, x.quantity)).collect()
}

fn limit(book: &mut OrderBook, pool: &mut OrderPool, out: &mut Vec<MarketDataEvent>, is_bid: bool, price: u32, id: u32, qty: u32, user: u16) {
    book.process_order(pool, is_bid, price, id, qty, 0, TYPE_LIMIT, T, user, out);
}

#[test]
fn price_level_new_is_empty() {
    let l = PriceLevel::new(17);
    assert_eq!(l.price, 17);
    assert_eq!(l.volume, 0);
    assert_eq!(l.order_count, 0);
    assert_eq!(l.head_idx, NULL_IDX);
    assert_eq!(l.tail_idx, NULL_IDX);
}

#[test]
fn new_book_is_empty() {
    let (book, _, _) = setup();
    assert_eq!(book.best_bid_price(), 0);
    assert_eq!(book.best_ask_price(), NULL_IDX);
    assert_eq!(book.ask_levels(), 100);
    assert_eq!(book.bids.len(), 100);
    assert_eq!(book.bids[42].price, 42);
    assert_eq!(book.asks[99].price, 99);
    assert_eq!(book.asks[99].head_idx, NULL_IDX);
}

#[test]
fn add_order_links_orders_in_arrival_order() {
    let (mut book, mut pool, _) = setup();
    let a = book.add_order(&mut pool, true, 50, 1, 10, 0, 10, 1);
    let b = book.add_order(&mut pool, true, 50, 2, 5, 15, 5, 2);
    assert_eq!((a, b), (0, 1));
    let l = book.bids[50];
    assert_eq!(l.volume, 15);
    assert_eq!(l.order_count, 2);
    assert_eq!(l.head_idx, a);
    assert_eq!(l.tail_idx, b);
    assert_eq!(pool.get(a).next_idx, b);
    assert_eq!(pool.get(b).prev_idx, a);
    assert_eq!(pool.get(b).hidden_quantity, 15);
    assert_eq!(book.best_bid_price(), 50);
    let c = book.add_order(&mut pool, false, 60, 3, 4, 0, 4, 3);
    assert_eq!(c, 2);
    assert_eq!(book.best_ask_price(), 60);
    book.add_order(&mut pool, false, 58, 4, 4, 0, 4, 3);
    assert_eq!(book.best_ask_price(), 58);
    book.add_order(&mut pool, true, 40, 5, 4, 0, 4, 3);
    assert_eq!(book.best_bid_price(), 50);
}

#[test]
fn limit_order_on_empty_book_rests() {
    let (mut book, mut pool, mut out) = setup();
    limit(&mut book, &mut pool, &mut out, true, 50, 1, 10, 1);
    assert!(out.is_empty());
    assert_eq!(book.best_bid_price(), 50);
    assert_eq!(book.bids[50].volume, 10);
    assert_eq!(book.bids[50].order_count, 1);
    assert_eq!(book.best_ask_price(), NULL_IDX);
}

#[test]
fn crossing_order_trades_at_resting_price() {
    let (mut book, mut pool, mut out) = setup();
    limit(&mut book, &mut pool, &mut out, false, 52, 1, 10, 2);
    limit(&mut book, &mut pool, &mut out, true, 55, 2, 4, 1);
    assert_eq!(events(&out), vec![ev(1, 52, 4)]);
    assert_eq!(book.asks[52].volume, 6);
    assert_eq!(book.best_ask_price(), 52);
    assert_eq!(book.best_bid_price(), 0);
}

#[test]
fn sweep_several_levels_then_rest_the_rest() {
    let (mut book, mut pool, mut out) = setup();
    limit(&mut book, &mut pool, &mut out, false, 52, 1, 5, 2);
    limit(&mut book, &mut pool, &mut out, false, 53, 2, 5, 2);
    limit(&mut book, &mut pool, &mut out, false, 57, 3, 5, 2);
    limit(&mut book, &mut pool, &mut out, true, 55, 4, 12, 1);
    assert_eq!(events(&out), vec![ev(1, 52, 5), ev(1, 53, 5)]);
    assert_eq!(book.best_bid_price(), 55);
    assert_eq!(book.bids[55].volume, 2);
    assert_eq!(book.best_ask_price(), 57);
    assert_eq!(book.asks[52].head_idx, NULL_IDX);
    assert_eq!(book.asks[53].head_idx, NULL_IDX);
}

#[test]
fn ioc_remainder_is_dropped() {
    let (mut book, mut pool, mut out) = setup();
    limit(&mut book, &mut pool, &mut out, false, 52, 1, 5, 2);
    book.process_order(&mut pool, true, 55, 2, 8, 0, TYPE_IOC, T, 1, &mut out);
    assert_eq!(events(&out), vec![ev(1, 52, 5)]);
    assert_eq!(book.best_bid_price(), 0);
    assert_eq!(book.best_ask_price(), NULL_IDX);
}

#[test]
fn fok_fills_what_it_can_and_drops_the_rest() {
    let (mut book, mut pool, mut out) = setup();
    limit(&mut book, &mut pool, &mut out, false, 52, 1, 5, 2);
    book.process_order(&mut pool, true, 55, 2, 8, 0, TYPE_FOK, T, 1, &mut out);
    assert_eq!(events(&out), vec![ev(1, 52, 5)]);
    assert_eq!(book.best_bid_price(), 0);
}

#[test]
fn sell_sweeps_bids_from_the_top() {
    let (mut book, mut pool, mut out) = setup();
    limit(&mut book, &mut pool, &mut out, true, 50, 1, 5, 2);
    limit(&mut book, &mut pool, &mut out, true, 49, 2, 5, 2);
    limit(&mut book, &mut pool, &mut out, false, 49, 3, 7, 1);
    assert_eq!(events(&out), vec![ev(1, 50, 5), ev(1, 49, 2)]);
    assert_eq!(book.best_bid_price(), 49);
    assert_eq!(book.bids[49].volume, 3);
    assert_eq!(book.best_ask_price(), NULL_IDX);
}

#[test]
fn sell_above_best_bid_rests() {
    let (mut book, mut pool, mut out) = setup();
    limit(&mut book, &mut pool, &mut out, true, 50, 1, 5, 2);
    limit(&mut book, &mut pool, &mut out, false, 51, 2, 5, 1);
    assert!(out.is_empty());
    assert_eq!(book.best_bid_price(), 50);
    assert_eq!(book.best_ask_price(), 51);
}

#[test]
fn earlier_order_at_a_price_fills_first() {
    let (mut book, mut pool, mut out) = setup();
    limit(&mut book, &mut pool, &mut out, false, 52, 10, 3, 2);
    limit(&mut book, &mut pool, &mut out, false, 52, 11, 3, 3);
    limit(&mut book, &mut pool, &mut out, true, 52, 12, 4, 1);
    assert_eq!(events(&out), vec![ev(1, 52, 3), ev(1, 52, 1)]);
    assert_eq!(book.asks[52].order_count, 1);
    assert_eq!(book.asks[52].volume, 2);
    let head = book.asks[52].head_idx;
    assert_eq!(pool.get(head).order_id, 11);
}

#[test]
fn own_resting_order_is_cancelled_not_traded() {
    let (mut book, mut pool, mut out) = setup();
    limit(&mut book, &mut pool, &mut out, false, 52, 1, 5, 1);
    limit(&mut book, &mut pool, &mut out, true, 52, 2, 5, 1);
    assert!(out.is_empty());
    assert_eq!(book.best_ask_price(), NULL_IDX);
    assert_eq!(book.best_bid_price(), 52);
    assert_eq!(book.bids[52].volume, 5);
    // The id of the removed order is free again: cancelling it does nothing.
    book.cancel_order(&mut pool, 1, 1, T, &mut out);
    assert!(out.is_empty());
}

#[test]
fn iceberg_shows_clips_and_refills() {
    let (mut book, mut pool, mut out) = setup();
    book.process_order(&mut pool, false, 52, 1, 10, 4, TYPE_LIMIT, T, 2, &mut out);
    assert_eq!(book.asks[52].volume, 4);
    let idx = book.asks[52].head_idx;
    assert_eq!(pool.get(idx).hidden_quantity, 6);
    limit(&mut book, &mut pool, &mut out, true, 52, 2, 4, 1);
    assert_eq!(events(&out), vec![ev(1, 52, 4)]);
    assert_eq!(book.asks[52].volume, 4);
    assert_eq!(pool.get(idx).hidden_quantity, 2);
    out.clear();
    limit(&mut book, &mut pool, &mut out, true, 52, 3, 6, 1);
    assert_eq!(events(&out), vec![ev(1, 52, 4), ev(1, 52, 2)]);
    assert_eq!(book.best_ask_price(), NULL_IDX);
    assert_eq!(book.best_bid_price(), 0);
}

#[test]
fn refilled_iceberg_goes_behind_the_queue() {
    let (mut book, mut pool, mut out) = setup();
    book.process_order(&mut pool, false, 52, 1, 6, 2, TYPE_LIMIT, T, 2, &mut out);
    limit(&mut book, &mut pool, &mut out, false, 52, 2, 3, 3);
    limit(&mut book, &mut pool, &mut out, true, 52, 3, 3, 1);
    // 2 from the iceberg, which refills 2 and goes behind order 2, then 1 from order 2.
    assert_eq!(events(&out), vec![ev(1, 52, 2), ev(1, 52, 1)]);
    let head = book.asks[52].head_idx;
    assert_eq!(pool.get(head).order_id, 2);
    assert_eq!(pool.get(book.asks[52].tail_idx).order_id, 1);
    assert_eq!(book.asks[52].volume, 4);
}

#[test]
fn cancel_by_owner_only() {
    let (mut book, mut pool, mut out) = setup();
    limit(&mut book, &mut pool, &mut out, true, 50, 1, 5, 1);
    limit(&mut book, &mut pool, &mut out, true, 45, 2, 5, 1);
    book.cancel_order(&mut pool, 1, 2, T, &mut out);
    assert!(out.is_empty());
    assert_eq!(book.best_bid_price(), 50);
    book.cancel_order(&mut pool, 1, 1, T, &mut out);
    assert_eq!(events(&out), vec![ev(3, 50, 0)]);
    assert_eq!(book.best_bid_price(), 45);
    assert_eq!(book.bids[50].volume, 0);
    assert_eq!(book.bids[50].head_idx, NULL_IDX);
}

#[test]
fn cancel_of_unknown_or_out_of_range_id_does_nothing() {
    let (mut book, mut pool, mut out) = setup();
    limit(&mut book, &mut pool, &mut out, false, 60, 1, 5, 1);
    book.cancel_order(&mut pool, 2, 1, T, &mut out);
    book.cancel_order(&mut pool, 1000, 1, T, &mut out);
    assert!(out.is_empty());
    assert_eq!(book.best_ask_price(), 60);
}

#[test]
fn cancel_last_ask_finds_next_ask() {
    let (mut book, mut pool, mut out) = setup();
    limit(&mut book, &mut pool, &mut out, false, 60, 1, 5, 1);
    limit(&mut book, &mut pool, &mut out, false, 95, 2, 5, 1);
    book.cancel_order(&mut pool, 1, 1, T, &mut out);
    assert_eq!(book.best_ask_price(), 95);
    book.cancel_order(&mut pool, 2, 1, T, &mut out);
    assert_eq!(book.best_ask_price(), NULL_IDX);
    assert_eq!(events(&out), vec![ev(3, 60, 0), ev(3, 95, 0)]);
}

#[test]
fn add_then_cancel_restores_the_book() {
    let (mut book, mut pool, mut out) = setup();
    limit(&mut book, &mut pool, &mut out, true, 50, 1, 5, 1);
    limit(&mut book, &mut pool, &mut out, false, 60, 2, 5, 1);
    let before_bids: Vec<(u32, u32)> = book.bids.iter().map(|l| (l.volume, l.order_count)).collect();
    let before = (book.best_bid_price(), book.best_ask_price());
    limit(&mut book, &mut pool, &mut out, true, 55, 3, 9, 4);
    assert_eq!(book.best_bid_price(), 55);
    book.cancel_order(&mut pool, 3, 4, T, &mut out);
    let after_bids: Vec<(u32, u32)> = book.bids.iter().map(|l| (l.volume, l.order_count)).collect();
    assert_eq!(before_bids, after_bids);
    assert_eq!((book.best_bid_price(), book.best_ask_price()), before);
    assert_eq!(events(&out), vec![ev(3, 55, 0)]);
    // The slot is free again and handed out first.
    assert_eq!(book.add_order(&mut pool, true, 10, 4, 1, 0, 1, 1), 2);
}

#[test]
fn modify_down_in_place_keeps_priority() {
    let (mut book, mut pool, mut out) = setup();
    limit(&mut book, &mut pool, &mut out, false, 52, 1, 5, 1);
    limit(&mut book, &mut pool, &mut out, false, 52, 2, 5, 2);
    book.modify_order(&mut pool, 1, false, 52, 3, 1, T, &mut out);
    assert_eq!(events(&out), vec![ev(4, 52, 3)]);
    assert_eq!(book.asks[52].volume, 8);
    let head = book.asks[52].head_idx;
    assert_eq!(pool.get(head).order_id, 1);
    assert_eq!(pool.get(head).quantity, 3);
}

#[test]
fn modify_up_or_to_new_price_requeues() {
    let (mut book, mut pool, mut out) = setup();
    limit(&mut book, &mut pool, &mut out, false, 52, 1, 5, 1);
    limit(&mut book, &mut pool, &mut out, false, 52, 2, 5, 2);
    book.modify_order(&mut pool, 1, false, 52, 6, 1, T, &mut out);
    assert_eq!(events(&out), vec![ev(3, 52, 0)]);
    let head = book.asks[52].head_idx;
    assert_eq!(pool.get(head).order_id, 2);
    assert_eq!(book.asks[52].volume, 11);
    out.clear();
    book.modify_order(&mut pool, 1, true, 58, 6, 1, T, &mut out);
    assert_eq!(events(&out), vec![ev(3, 52, 0)]);
    assert_eq!(book.best_ask_price(), 52);
    assert_eq!(book.asks[58].volume, 6);
    assert_eq!(book.asks[52].volume, 5);
}

#[test]
fn modify_to_crossing_price_trades() {
    let (mut book, mut pool, mut out) = setup();
    limit(&mut book, &mut pool, &mut out, true, 50, 1, 4, 2);
    limit(&mut book, &mut pool, &mut out, false, 52, 2, 5, 1);
    book.modify_order(&mut pool, 2, false, 50, 5, 1, T, &mut out);
    assert_eq!(events(&out), vec![ev(3, 52, 0), ev(1, 50, 4)]);
    assert_eq!(book.best_bid_price(), 0);
    assert_eq!(book.best_ask_price(), 50);
    assert_eq!(book.asks[50].volume, 1);
}

#[test]
fn modify_of_unknown_id_enters_a_limit_order() {
    let (mut book, mut pool, mut out) = setup();
    book.modify_order(&mut pool, 9, true, 40, 7, 3, T, &mut out);
    assert!(out.is_empty());
    assert_eq!(book.best_bid_price(), 40);
    assert_eq!(book.bids[40].volume, 7);
}

#[test]
fn modify_by_other_user_or_out_of_range_does_nothing() {
    let (mut book, mut pool, mut out) = setup();
    limit(&mut book, &mut pool, &mut out, true, 40, 1, 7, 3);
    book.modify_order(&mut pool, 1, true, 41, 7, 4, T, &mut out);
    book.modify_order(&mut pool, 5000, true, 41, 7, 3, T, &mut out);
    assert!(out.is_empty());
    assert_eq!(book.best_bid_price(), 40);
}

#[test]
fn execute_level_returns_what_is_left() {
    let (mut book, mut pool, mut out) = setup();
    limit(&mut book, &mut pool, &mut out, false, 52, 1, 3, 2);
    limit(&mut book, &mut pool, &mut out, false, 52, 2, 3, 3);
    let left = book.execute_level(&mut pool, false, 52, 10, T, 1, &mut out);
    assert_eq!(left, 4);
    assert_eq!(events(&out), vec![ev(1, 52, 3), ev(1, 52, 3)]);
    assert_eq!(book.asks[52].head_idx, NULL_IDX);
    assert_eq!(book.asks[52].volume, 0);
}

#[test]
fn traded_plus_left_is_the_order_quantity() {
    let (mut book, mut pool, mut out) = setup();
    limit(&mut book, &mut pool, &mut out, false, 52, 1, 3, 2);
    limit(&mut book, &mut pool, &mut out, false, 54, 2, 4, 3);
    limit(&mut book, &mut pool, &mut out, false, 56, 3, 4, 3);
    book.process_order(&mut pool, true, 54, 4, 20, 0, TYPE_LIMIT, T, 1, &mut out);
    let traded: u32 = out.iter().map(|e| e.quantity).sum();
    assert_eq!(traded, 7);
    assert!(out.iter().all(|e| e.event_type == 1 && e.price <= 54));
    assert_eq!(book.bids[54].volume, 13);
}

#[test]
fn book_never_stays_crossed() {
    let mut book = OrderBook::new(100, 1000);
    let mut pool = OrderPool::new(1000);
    let mut out = Vec::new();
    let mut seed: u64 = 12345;
    for id in 0..600u32 {
        seed = seed.wrapping_mul(6364136223846793005).wrapping_add(1442695040888963407);
        let r = (seed >> 33) as u32;
        let is_bid = r % 2 == 0;
        let price = 40 + (r / 2) % 20;
        let qty = 1 + (r / 64) % 9;
        let user = ((r / 1024) % 5) as u16;
        match (r / 8192) % 6 {
            0 => book.cancel_order(&mut pool, (r / 7) % 600, user, T, &mut out),
            1 => book.modify_order(&mut pool, (r / 7) % 600, is_bid, price, qty, user, T, &mut out),
            2 => book.process_order(&mut pool, is_bid, price, id, qty, 0, TYPE_IOC, T, user, &mut out),
            3 => book.process_order(&mut pool, is_bid, price, id, qty + 10, 3, TYPE_LIMIT, T, user, &mut out),
            _ => book.process_order(&mut pool, is_bid, price, id, qty, 0, TYPE_LIMIT, T, user, &mut out),
        }
        let (b, a) = (book.best_bid_price(), book.best_ask_price());
        assert!(b == 0 || a == NULL_IDX || b < a, "crossed at step {}: {} / {}", id, b, a);
    }
    assert!(out.iter().all(|e| e.event_type == 1 || e.event_type == 3 || e.event_type == 4));
}

#[test]
fn added_order_may_show_more_than_its_clip() {
    let (mut book, mut pool, mut out) = setup();
    book.add_order(&mut pool, false, 52, 1, 10, 0, 5, 2);
    book.add_order(&mut pool, false, 53, 2, 4, 0, 0, 2);
    assert_eq!(book.asks[52].volume, 10);
    limit(&mut book, &mut pool, &mut out, true, 53, 3, 12, 1);
    assert_eq!(events(&out), vec![ev(1, 52, 10), ev(1, 53, 2)]);
    assert_eq!(book.asks[53].volume, 2);
    assert_eq!(book.best_ask_price(), 53);
}

#[test]
fn every_resting_order_is_found_by_its_id() {
    let mut book = OrderBook::new(100, 200);
    let mut pool = OrderPool::new(200);
    let mut out = Vec::new();
    for id in 0..60u32 {
        let is_bid = id % 2 == 0;
        let price = if is_bid { 40 + id % 7 } else { 44 + id % 5 };
        book.process_order(&mut pool, is_bid, price, id, 3 + id % 4, 2, TYPE_LIMIT, T, (id % 3) as u16, &mut out);
    }
    // Walk every level through the pool links.
    let mut resting = Vec::new();
    for (side, levels) in [(true, &book.bids), (false, &book.asks)] {
        for l in levels.iter() {
            let mut i = l.head_idx;
            let mut n = 0;
            while i != NULL_IDX {
                let o = pool.get(i);
                assert_eq!((o.is_bid, o.price), (side, l.price));
                resting.push((o.order_id, o.user_id, i));
                i = o.next_idx;
                n += 1;
            }
            assert_eq!(n, l.order_count);
        }
    }
    let mut slots: Vec<u32> = resting.iter().map(|r| r.2).collect();
    slots.sort();
    slots.dedup();
    assert_eq!(slots.len(), resting.len());
    // The index finds each of them: its owner's cancel takes it out.
    for (id, user, _) in resting.iter() {
        out.clear();
        book.cancel_order(&mut pool, *id, *user, T, &mut out);
        assert_eq!(out.len(), 1);
        assert_eq!(out[0].event_type, 3);
    }
    assert_eq!(book.best_bid_price(), 0);
    assert_eq!(book.best_ask_price(), NULL_IDX);
}
