//! The synthetic order flow the benchmark replays: a fixed mix of limit,
//! IOC, FOK, cancel and modify orders over a ladder of ten prices, sent in
//! bursts to one ticker after another.
use vstd::prelude::*;
use crate::message::OrderMessage;
use crate::orderbook::{TYPE_LIMIT, TYPE_IOC, TYPE_FOK, TYPE_CANCEL, TYPE_MODIFY};

verus! {

/// The order type of message `i`: every 7th is an IOC, every 13th a FOK;
/// after the first 1000, every 23rd is a cancel and every 29th a modify,
/// a later rule winning over an earlier one.
pub open spec fn synthetic_type(i: usize) -> u8 {
    if i > 1000 && i % 29 == 0 {
        TYPE_MODIFY
    } else if i > 1000 && i % 23 == 0 {
        TYPE_CANCEL
    } else if i % 13 == 0 {
        TYPE_FOK
    } else if i % 7 == 0 {
        TYPE_IOC
    } else {
        TYPE_LIMIT
    }
}

/// The quantity of message `i`: 10, or 50_000 for every 13th, or 10_000
/// for every 19th, or 5 for a modify.
pub open spec fn synthetic_quantity(i: usize) -> u32 {
    if i > 1000 && i % 29 == 0 {
        5
    } else if i % 19 == 0 {
        10_000
    } else if i % 13 == 0 {
        50_000
    } else {
        10
    }
}

/// The displayed quantity of message `i`: 100 for every 19th, 50_000 for
/// every 13th, else 10.
pub open spec fn synthetic_display(i: usize) -> u32 {
    if i % 19 == 0 {
        100
    } else if i % 13 == 0 {
        50_000
    } else {
        10
    }
}

/// Message `i` of the synthetic flow over `num_tickers` tickers, in bursts
/// of `burst_size` messages per ticker.
pub fn synthetic_order(i: usize, num_tickers: usize, burst_size: usize) -> (m: OrderMessage)
    requires
        num_tickers > 0,
        burst_size > 0,
    ensures
        m == (OrderMessage {
            ticker_id: ((i / burst_size) % num_tickers) as u16,
            user_id: (i % 1000) as u16,
            is_bid: i % 2 == 0,
            order_type: synthetic_type(i),
            price: (50_000 + i % 10) as u32,
            order_id: (i / num_tickers) as u32,
            quantity: synthetic_quantity(i),
            display_quantity: synthetic_display(i),
            stop_signal: false,
        }),
{
    let is_bid = i % 2 == 0;
    let price = 50_000 + (i % 10) as u32;
    let ticker_id = ((i / burst_size) % num_tickers) as u16;
    let user_id = (i % 1000) as u16;
    let local_order_id = (i / num_tickers) as u32;
    let mut order_type = TYPE_LIMIT;
    let mut quantity: u32 = 10;
    let mut display_quantity: u32 = 10;
    if i % 7 == 0 {
        order_type = TYPE_IOC;
    }
    if i % 13 == 0 {
        order_type = TYPE_FOK;
        quantity = 50_000;
        display_quantity = 50_000;
    }
    if i % 19 == 0 {
        quantity = 10_000;
        display_quantity = 100;
    }
    if i > 1000 {
        if i % 23 == 0 {
            order_type = TYPE_CANCEL;
        }
        if i % 29 == 0 {
            order_type = TYPE_MODIFY;
            quantity = 5;
        }
    }
    OrderMessage {
        ticker_id,
        user_id,
        is_bid,
        order_type,
        price,
        order_id: local_order_id,
        quantity,
        display_quantity,
        stop_signal: false,
    }
}

} // verus!
