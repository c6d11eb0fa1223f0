use hft::message::OrderMessage;
use hft::orderbook::{TYPE_CANCEL, TYPE_FOK, TYPE_IOC, TYPE_LIMIT, TYPE_MODIFY};
use hft::workload::synthetic_order;

fn key(m: &OrderMessage) -> (u16, u16, bool, u8, u32, u32, u32, u32) {
    (m.ticker_id, m.user_id, m.is_bid, m.order_type, m.price, m.order_id, m.quantity, m.display_quantity)
}

#[test]
fn first_message_is_a_fok_iceberg() {
    let m = synthetic_order(0, 256, 64);
    assert_eq!(key(&m), (0, 0, true, TYPE_FOK, 50_000, 0, 10_000, 100));
    assert!(!m.stop_signal);
}

#[test]
fn plain_messages_are_small_limits() {
    assert_eq!(key(&synthetic_order(667, 256, 64)), (10, 667, false, TYPE_LIMIT, 50_007, 2, 10, 10));
    assert_eq!(key(&synthetic_order(7, 256, 64)), (0, 7, false, TYPE_IOC, 50_007, 0, 10, 10));
}

#[test]
fn later_rules_win() {
    assert_eq!(key(&synthetic_order(1001, 256, 64)), (15, 1, false, TYPE_FOK, 50_001, 3, 50_000, 50_000));
    assert_eq!(key(&synthetic_order(1058, 256, 64)), (16, 58, true, TYPE_CANCEL, 50_008, 4, 10, 10));
    assert_eq!(key(&synthetic_order(1015, 256, 64)), (15, 15, false, TYPE_MODIFY, 50_005, 3, 5, 10));
    assert_eq!(key(&synthetic_order(1334, 256, 64)), (20, 334, true, TYPE_MODIFY, 50_004, 5, 5, 10));
}

#[test]
fn cancels_and_modifies_only_after_the_first_thousand() {
    // 667 is a multiple of both 23 and 29.
    assert_eq!(synthetic_order(667, 256, 64).order_type, TYPE_LIMIT);
    assert_eq!(synthetic_order(667 * 2, 256, 64).order_type, TYPE_MODIFY);
}

#[test]
fn bursts_rotate_over_tickers() {
    assert_eq!(synthetic_order(63, 4, 64).ticker_id, 0);
    assert_eq!(synthetic_order(64, 4, 64).ticker_id, 1);
    assert_eq!(synthetic_order(64 * 4, 4, 64).ticker_id, 0);
    assert_eq!(synthetic_order(64 * 5 + 1, 4, 1).ticker_id, 1);
}
