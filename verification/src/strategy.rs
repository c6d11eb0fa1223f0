//! A market maker that quotes one bid and one ask around the mid price.
use vstd::prelude::*;
use crate::message::{OrderMessage, blank_message};
use crate::orderbook::{OrderBook, TYPE_LIMIT, TYPE_MODIFY};

verus! {

/// Quantity of each quote.
pub const QUOTE_QTY: u32 = 100;

pub struct MarketMakerStrategy {
    pub user_id: u16,
    pub active_bid_id: u64,
    pub active_ask_id: u64,
    pub current_bid_price: u32,
    pub current_ask_price: u32,
    pub base_order_id: u64,
    pub spread_tolerance: u32,
}

/// A quote of `QUOTE_QTY`, fully displayed.
pub open spec fn quote(
    ticker_id: u16,
    user_id: u16,
    is_bid: bool,
    order_type: u8,
    price: u32,
    order_id: u32,
) -> OrderMessage {
    OrderMessage {
        ticker_id,
        user_id,
        is_bid,
        order_type,
        price,
        order_id,
        quantity: QUOTE_QTY,
        display_quantity: QUOTE_QTY,
        stop_signal: false,
    }
}

/// The book is two-sided and uncrossed, with the ask on a level of the book.
pub open spec fn quotable(best_bid: u32, best_ask: u32, n_levels: int) -> bool {
    !(best_bid == 0 || best_ask >= n_levels || best_bid >= best_ask)
}

pub open spec fn mid_price(best_bid: u32, best_ask: u32) -> u32 {
    ((best_bid + best_ask) / 2) as u32
}

/// The bid target: the mid less the spread tolerance, floored at 0.
pub open spec fn target_bid(s: MarketMakerStrategy, best_bid: u32, best_ask: u32) -> u32 {
    let mid = mid_price(best_bid, best_ask);
    if mid >= s.spread_tolerance {
        (mid - s.spread_tolerance) as u32
    } else {
        0
    }
}

/// The ask target: the mid plus the spread tolerance.
pub open spec fn target_ask(s: MarketMakerStrategy, best_bid: u32, best_ask: u32) -> u32 {
    (mid_price(best_bid, best_ask) + s.spread_tolerance) as u32
}

/// Re-quotes one side at `target`: a live quote is moved by a modify, a
/// missing one is placed as a new limit order with the next order id.
pub open spec fn requote(
    s: MarketMakerStrategy,
    is_bid: bool,
    target: u32,
    ticker_id: u16,
) -> (MarketMakerStrategy, Seq<OrderMessage>) {
    let current = if is_bid {
        s.current_bid_price
    } else {
        s.current_ask_price
    };
    let active = if is_bid {
        s.active_bid_id
    } else {
        s.active_ask_id
    };
    if current == target {
        (s, seq![])
    } else if active != 0 {
        let s1 = if is_bid {
            MarketMakerStrategy { current_bid_price: target, ..s }
        } else {
            MarketMakerStrategy { current_ask_price: target, ..s }
        };
        (s1, seq![quote(ticker_id, s.user_id, is_bid, TYPE_MODIFY, target, active as u32)])
    } else {
        let id = (s.base_order_id + 1) as u64;
        let s1 = if is_bid {
            MarketMakerStrategy { base_order_id: id, active_bid_id: id, current_bid_price: target, ..s }
        } else {
            MarketMakerStrategy { base_order_id: id, active_ask_id: id, current_ask_price: target, ..s }
        };
        (s1, seq![quote(ticker_id, s.user_id, is_bid, TYPE_LIMIT, target, id as u32)])
    }
}

/// What the strategy does on a book update: nothing on a one-sided or
/// crossed book; otherwise it re-quotes its bid, then its ask.
pub open spec fn strategy_step(
    s: MarketMakerStrategy,
    best_bid: u32,
    best_ask: u32,
    n_levels: int,
    ticker_id: u16,
) -> (MarketMakerStrategy, Seq<OrderMessage>) {
    if !quotable(best_bid, best_ask, n_levels) {
        (s, seq![])
    } else {
        let b = requote(s, true, target_bid(s, best_bid, best_ask), ticker_id);
        let a = requote(b.0, false, target_ask(s, best_bid, best_ask), ticker_id);
        (a.0, b.1 + a.1)
    }
}

/// How many new order ids a re-quote at these prices takes: one for each
/// side whose target moved and that has no live quote.
pub open spec fn ids_needed(s: MarketMakerStrategy, best_bid: u32, best_ask: u32) -> int {
    (if s.current_bid_price != target_bid(s, best_bid, best_ask) && s.active_bid_id == 0 {
        1int
    } else {
        0int
    }) + (if s.current_ask_price != target_ask(s, best_bid, best_ask) && s.active_ask_id == 0 {
        1int
    } else {
        0int
    })
}

/// When the strategy's arithmetic stays within its integer types: the mid
/// and the ask target fit in a `u32`, and the order ids it takes fit in a
/// `u64`.
pub open spec fn strategy_ok(s: MarketMakerStrategy, best_bid: u32, best_ask: u32, n_levels: int) -> bool {
    quotable(best_bid, best_ask, n_levels) ==> {
        &&& best_bid + best_ask <= u32::MAX
        &&& mid_price(best_bid, best_ask) + s.spread_tolerance <= u32::MAX
        &&& s.base_order_id + ids_needed(s, best_bid, best_ask) <= u64::MAX
    }
}

/// Reacting twice to the same book sends nothing the second time: both
/// quotes already sit at their targets, so the second reaction neither
/// sends an order nor takes an id, and it stays within bounds.
pub proof fn lemma_requote_idempotent(
    s: MarketMakerStrategy,
    best_bid: u32,
    best_ask: u32,
    n_levels: int,
    ticker_id: u16,
)
    requires
        strategy_ok(s, best_bid, best_ask, n_levels),
    ensures
        ({
            let first = strategy_step(s, best_bid, best_ask, n_levels, ticker_id);
            &&& strategy_ok(first.0, best_bid, best_ask, n_levels)
            &&& strategy_step(first.0, best_bid, best_ask, n_levels, ticker_id) == (first.0, Seq::<
                OrderMessage,
            >::empty())
        }),
{
    let first = strategy_step(s, best_bid, best_ask, n_levels, ticker_id);
    if quotable(best_bid, best_ask, n_levels) {
        assert(first.0.spread_tolerance == s.spread_tolerance);
        assert(first.0.current_bid_price == target_bid(s, best_bid, best_ask));
        assert(first.0.current_ask_price == target_ask(s, best_bid, best_ask));
        assert(ids_needed(first.0, best_bid, best_ask) == 0);
        assert(strategy_step(first.0, best_bid, best_ask, n_levels, ticker_id).1 =~= Seq::<OrderMessage>::empty());
    }
}

/// On a two-sided, uncrossed book the targets straddle the mid price, and
/// with a positive spread tolerance neither quote crosses the book: the bid
/// stays under the best ask and the ask over the best bid.
pub proof fn lemma_quotes_straddle(s: MarketMakerStrategy, best_bid: u32, best_ask: u32, n_levels: int)
    requires
        quotable(best_bid, best_ask, n_levels),
        strategy_ok(s, best_bid, best_ask, n_levels),
    ensures
        target_bid(s, best_bid, best_ask) <= mid_price(best_bid, best_ask) <= target_ask(s, best_bid, best_ask),
        best_bid <= mid_price(best_bid, best_ask) < best_ask,
        s.spread_tolerance > 0 ==> target_bid(s, best_bid, best_ask) < best_ask && best_bid < target_ask(
            s,
            best_bid,
            best_ask,
        ),
{
}

/// The market maker quotes around the mid price `(best_bid + best_ask) / 2`
/// of every two-sided, uncrossed book whose best ask is one of its levels:
/// a bid at the mid less its spread tolerance (0 when the tolerance is
/// larger) and an ask at the mid plus it, each of 100 shown in full. A side
/// is sent, bid first, exactly when its price moved: as a modify of its
/// live quote, or as a new limit order under the next id. On any other book
/// it sends nothing and stays as it was.
pub proof fn lemma_strategy_reacts(
    s: MarketMakerStrategy,
    best_bid: u32,
    best_ask: u32,
    n_levels: int,
    ticker_id: u16,
)
    requires
        strategy_ok(s, best_bid, best_ask, n_levels),
    ensures
        ({
            let r = strategy_step(s, best_bid, best_ask, n_levels, ticker_id);
            let mid = (best_bid + best_ask) / 2;
            let tb = if mid >= s.spread_tolerance {
                mid - s.spread_tolerance
            } else {
                0
            };
            let ta = mid + s.spread_tolerance;
            let moved_bid = s.current_bid_price != tb;
            let moved_ask = s.current_ask_price != ta;
            let bid_id: int = if s.active_bid_id != 0 {
                s.active_bid_id as int
            } else {
                s.base_order_id + 1
            };
            let ask_id: int = if s.active_ask_id != 0 {
                s.active_ask_id as int
            } else if moved_bid && s.active_bid_id == 0 {
                s.base_order_id + 2
            } else {
                s.base_order_id + 1
            };
            &&& !(0 < best_bid && best_bid < best_ask && best_ask < n_levels) ==> r.0 == s && r.1.len() == 0
            &&& (0 < best_bid && best_bid < best_ask && best_ask < n_levels) ==> {
                &&& r.0.current_bid_price == tb
                &&& r.0.current_ask_price == ta
                &&& r.1.len() == (if moved_bid { 1int } else { 0int }) + (if moved_ask { 1int } else { 0int })
                &&& moved_bid ==> {
                    &&& r.1[0].is_bid
                    &&& r.1[0].price == tb
                    &&& r.1[0].quantity == 100
                    &&& r.1[0].display_quantity == 100
                    &&& r.1[0].user_id == s.user_id
                    &&& r.1[0].ticker_id == ticker_id
                    &&& r.1[0].order_type == (if s.active_bid_id != 0 { 4u8 } else { 0u8 })
                    &&& r.1[0].order_id == bid_id as u32
                }
                &&& moved_ask ==> {
                    let a = r.1[r.1.len() - 1];
                    &&& !a.is_bid
                    &&& a.price == ta
                    &&& a.quantity == 100
                    &&& a.display_quantity == 100
                    &&& a.user_id == s.user_id
                    &&& a.ticker_id == ticker_id
                    &&& a.order_type == (if s.active_ask_id != 0 { 4u8 } else { 0u8 })
                    &&& a.order_id == ask_id as u32
                }
            }
        }),
{
}

impl MarketMakerStrategy {
    /// A strategy trading as `user_id`, with no live quote; its order ids
    /// start above 20000.
    pub fn new(user_id: u16, spread_tolerance: u32) -> (s: Self)
        ensures
            s == (MarketMakerStrategy {
                user_id,
                active_bid_id: 0,
                active_ask_id: 0,
                current_bid_price: 0,
                current_ask_price: 0,
                base_order_id: 20_000,
                spread_tolerance,
            }),
    {
        MarketMakerStrategy {
            user_id,
            active_bid_id: 0,
            active_ask_id: 0,
            current_bid_price: 0,
            current_ask_price: 0,
            base_order_id: 20_000,
            spread_tolerance,
        }
    }

    /// Reacts to the book of `ticker_id`; returns up to two orders to send,
    /// and how many of the two slots are used.
    pub fn on_book_update(&mut self, book: &OrderBook, ticker_id: u16) -> (res: ([OrderMessage; 2], usize))
        requires
            strategy_ok(*old(self), book.best_bid_of(), book.best_ask_of(), book.levels(false).len() as int),
        ensures
            ({
                let st = strategy_step(
                    *old(self),
                    book.best_bid_of(),
                    book.best_ask_of(),
                    book.levels(false).len() as int,
                    ticker_id,
                );
                &&& *final(self) == st.0
                &&& res.1 == st.1.len()
                &&& res.1 <= 2
                &&& forall|i: int| 0 <= i < res.1 ==> res.0@[i] == st.1[i]
                &&& forall|i: int| res.1 <= i < 2 ==> res.0@[i] == blank_message()
            }),
    {
        let blank = OrderMessage::default();
        let mut actions = [blank, blank];
        let mut count: usize = 0;
        let best_bid = book.best_bid_price();
        let best_ask = book.best_ask_price();
        if best_bid == 0 || (best_ask as usize) >= book.ask_levels() || best_bid >= best_ask {
            return (actions, count);
        }
        let mid_price = (best_bid + best_ask) / 2;
        let target_bid = mid_price.saturating_sub(self.spread_tolerance);
        let target_ask = mid_price + self.spread_tolerance;
        let ghost s0 = *self;
        if self.current_bid_price != target_bid {
            if self.active_bid_id != 0 {
                actions[count] = OrderMessage {
                        ticker_id,
                        user_id: self.user_id,
                        is_bid: true,
                        order_type: TYPE_MODIFY,
                        price: target_bid,
                        order_id: self.active_bid_id as u32,
                        quantity: QUOTE_QTY,
                        display_quantity: QUOTE_QTY,
                        stop_signal: false,
                    };
            } else {
                self.base_order_id = self.base_order_id + 1;
                self.active_bid_id = self.base_order_id;
                actions[count] = OrderMessage {
                        ticker_id,
                        user_id: self.user_id,
                        is_bid: true,
                        order_type: TYPE_LIMIT,
                        price: target_bid,
                        order_id: self.active_bid_id as u32,
                        quantity: QUOTE_QTY,
                        display_quantity: QUOTE_QTY,
                        stop_signal: false,
                    };
            }
            self.current_bid_price = target_bid;
            count = count + 1;
        }
        let ghost s1 = *self;
        let ghost c1 = count;
        if self.current_ask_price != target_ask {
            if self.active_ask_id != 0 {
                actions[count] = OrderMessage {
                        ticker_id,
                        user_id: self.user_id,
                        is_bid: false,
                        order_type: TYPE_MODIFY,
                        price: target_ask,
                        order_id: self.active_ask_id as u32,
                        quantity: QUOTE_QTY,
                        display_quantity: QUOTE_QTY,
                        stop_signal: false,
                    };
            } else {
                self.base_order_id = self.base_order_id + 1;
                self.active_ask_id = self.base_order_id;
                actions[count] = OrderMessage {
                        ticker_id,
                        user_id: self.user_id,
                        is_bid: false,
                        order_type: TYPE_LIMIT,
                        price: target_ask,
                        order_id: self.active_ask_id as u32,
                        quantity: QUOTE_QTY,
                        display_quantity: QUOTE_QTY,
                        stop_signal: false,
                    };
            }
            self.current_ask_price = target_ask;
            count = count + 1;
        }
        proof {
            let bb = book.best_bid_of();
            let ba = book.best_ask_of();
            assert(target_bid == crate::strategy::target_bid(s0, bb, ba));
            assert(target_ask == crate::strategy::target_ask(s0, bb, ba));
            let b = requote(s0, true, target_bid, ticker_id);
            let a = requote(b.0, false, target_ask, ticker_id);
            assert(s1 == b.0);
            assert(c1 == b.1.len());
        }
        (actions, count)
    }
}

} // verus!
