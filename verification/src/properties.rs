//! Properties of the book that span its operations: what an aggressive
//! order trades plus what it keeps is what it came with, and it never trades
//! through its limit price; a cancel undoes an add; and no message leaves an
//! uncrossed book crossed.
use vstd::prelude::*;
use crate::market::{
    Market, RestingOrder, run_level, take_asks, take_bids, matching, trade_event, replenish_amount, level_weight,
    next_ask, prev_bid, add_resting, can_add, cancel, cancel_event, process, process_ok, clip_of, modify,
    lemma_weight_drop_first, lemma_weight_requeue, lemma_run_level_frame, lemma_run_level_progress,
    lemma_next_ask_skips, lemma_next_ask_range, lemma_next_ask_is, lemma_next_ask_none, lemma_prev_bid_range,
    lemma_prev_bid_is, lemma_prev_bid_none,
};
use crate::exchange::{dispatch, dispatch_ok};
use crate::ledger::index_sound;
use crate::message::OrderMessage;
use crate::orderbook::{MarketDataEvent, OrderBook, TYPE_LIMIT, TYPE_CANCEL, TYPE_MODIFY};
use crate::pool::{OrderPool, NULL_IDX};

verus! {

/// The sum of the quantities of a sequence of market-data events.
pub open spec fn total_quantity(events: Seq<MarketDataEvent>) -> nat
    decreases events.len(),
{
    if events.len() == 0 {
        0
    } else {
        events[0].quantity as nat + total_quantity(events.drop_first())
    }
}

/// Every event is a trade of ticker `ticker_id` at a price no worse than
/// `limit` for an aggressor on side `is_buy`.
pub open spec fn trades_within(events: Seq<MarketDataEvent>, ticker_id: u16, is_buy: bool, limit: u32) -> bool {
    forall|k: int|
        0 <= k < events.len() ==> {
            &&& (#[trigger] events[k]).event_type == 1
            &&& events[k].ticker_id == ticker_id
            &&& if is_buy {
                events[k].price <= limit
            } else {
                events[k].price >= limit
            }
        }
}

/// Every free slot is a slot of the market.
pub open spec fn free_in_range(m: Market) -> bool {
    forall|k: int| 0 <= k < m.free.len() ==> #[trigger] m.free[k] < m.slots.len()
}

/// The quantity of two runs of events together is the sum of theirs.
pub proof fn lemma_total_quantity_concat(a: Seq<MarketDataEvent>, b: Seq<MarketDataEvent>)
    ensures
        total_quantity(a + b) == total_quantity(a) + total_quantity(b),
    decreases a.len(),
{
    if a.len() == 0 {
        assert(a + b =~= b);
    } else {
        assert((a + b).drop_first() =~= a.drop_first() + b);
        lemma_total_quantity_concat(a.drop_first(), b);
    }
}

proof fn lemma_total_quantity_cons(e: MarketDataEvent, rest: Seq<MarketDataEvent>)
    ensures
        total_quantity(seq![e] + rest) == e.quantity + total_quantity(rest),
{
    assert((seq![e] + rest).drop_first() =~= rest);
}

/// Matching `agg` at one level: the quantity traded plus the quantity left
/// is `agg`, and every event is a trade at that level's price.
pub proof fn lemma_run_level_conserves(
    m: Market,
    is_bid: bool,
    p: int,
    agg: u32,
    ticker_id: u16,
    user_id: u16,
)
    ensures
        ({
            let r = run_level(m, is_bid, p, agg, ticker_id, user_id);
            &&& total_quantity(r.events) + r.remaining == agg
            &&& free_in_range(m) ==> free_in_range(r.market)
            &&& forall|k: int|
                0 <= k < r.events.len() ==> #[trigger] r.events[k] == trade_event(
                    ticker_id,
                    p as u32,
                    r.events[k].quantity,
                )
        }),
    decreases agg, level_weight(m.slots, m.queue(is_bid, p)),
{
    let q = m.queue(is_bid, p);
    if !(0 <= p < m.levels(is_bid).len()) || q.len() == 0 || agg == 0 || q[0] >= m.slots.len() {
    } else {
        let i = q[0];
        let o = m.slots[i as int];
        let rest = q.drop_first();
        if o.user_id == user_id {
            lemma_weight_drop_first(m.slots, q);
            lemma_run_level_conserves(m.with_queue(is_bid, p, rest).release(i), is_bid, p, agg, ticker_id, user_id);
        } else {
            let ev = trade_event(ticker_id, p as u32, if o.quantity <= agg {
                o.quantity
            } else {
                agg
            });
            if o.quantity <= agg {
                let agg2 = (agg - o.quantity) as u32;
                if o.hidden_quantity > 0 {
                    let rep = replenish_amount(o);
                    let o2 = RestingOrder {
                        quantity: rep,
                        hidden_quantity: (o.hidden_quantity - rep) as u32,
                        ..o
                    };
                    let m1 = m.with_queue(is_bid, p, rest.push(i)).with_slot(i, o2);
                    if rest.len() == 0 || (o.quantity == 0 && rep == 0) {
                        lemma_total_quantity_cons(ev, seq![]);
                    } else {
                        if rep > 0 {
                            lemma_weight_requeue(m.slots, q, o2);
                        }
                        lemma_run_level_conserves(m1, is_bid, p, agg2, ticker_id, user_id);
                        let r = run_level(m1, is_bid, p, agg2, ticker_id, user_id);
                        lemma_total_quantity_cons(ev, r.events);
                        assert forall|k: int| 0 <= k < (seq![ev] + r.events).len() implies #[trigger] (
                        seq![ev] + r.events)[k] == trade_event(
                            ticker_id,
                            p as u32,
                            (seq![ev] + r.events)[k].quantity,
                        ) by {
                            if k > 0 {
                                assert((seq![ev] + r.events)[k] == r.events[k - 1]);
                            }
                        }
                    }
                } else {
                    lemma_weight_drop_first(m.slots, q);
                    let m1 = m.with_queue(is_bid, p, rest).release(i);
                    lemma_run_level_conserves(m1, is_bid, p, agg2, ticker_id, user_id);
                    let r = run_level(m1, is_bid, p, agg2, ticker_id, user_id);
                    lemma_total_quantity_cons(ev, r.events);
                    assert forall|k: int| 0 <= k < (seq![ev] + r.events).len() implies #[trigger] (seq![ev]
                        + r.events)[k] == trade_event(
                        ticker_id,
                        p as u32,
                        (seq![ev] + r.events)[k].quantity,
                    ) by {
                        if k > 0 {
                            assert((seq![ev] + r.events)[k] == r.events[k - 1]);
                        }
                    }
                }
            } else {
                lemma_total_quantity_cons(ev, seq![]);
            }
        }
    }
}

proof fn lemma_trades_concat(
    a: Seq<MarketDataEvent>,
    b: Seq<MarketDataEvent>,
    ticker_id: u16,
    is_buy: bool,
    limit: u32,
)
    requires
        trades_within(a, ticker_id, is_buy, limit),
        trades_within(b, ticker_id, is_buy, limit),
    ensures
        trades_within(a + b, ticker_id, is_buy, limit),
{
    assert forall|k: int| 0 <= k < (a + b).len() implies {
        &&& (#[trigger] (a + b)[k]).event_type == 1
        &&& (a + b)[k].ticker_id == ticker_id
        &&& if is_buy {
            (a + b)[k].price <= limit
        } else {
            (a + b)[k].price >= limit
        }
    } by {
        if k < a.len() {
            assert((a + b)[k] == a[k]);
        } else {
            assert((a + b)[k] == b[k - a.len()]);
        }
    }
}

/// A buy sweep of the asks: traded plus left is what came in, and every
/// trade is at or under the limit.
pub proof fn lemma_take_asks_conserves(m: Market, price: u32, qty: u32, ticker_id: u16, user_id: u16)
    ensures
        ({
            let r = take_asks(m, price, qty, ticker_id, user_id);
            &&& total_quantity(r.events) + r.remaining == qty
            &&& trades_within(r.events, ticker_id, true, price)
            &&& free_in_range(m) ==> free_in_range(r.market)
        }),
    decreases qty, crate::market::ask_distance(m), level_weight(m.slots, m.asks[m.best_ask as int]),
{
    if qty > 0 && m.asks.len() < crate::pool::NULL_IDX && m.best_ask < m.asks.len() && price >= m.best_ask {
        let b = m.best_ask as int;
        let r = run_level(m, false, b, qty, ticker_id, user_id);
        let m1 = r.market;
        let emptied = m1.asks[b].len() == 0;
        let m2 = if emptied {
            Market { best_ask: next_ask(m1.asks, b), ..m1 }
        } else {
            m1
        };
        lemma_run_level_frame(m, false, b, qty, ticker_id, user_id);
        lemma_run_level_conserves(m, false, b, qty, ticker_id, user_id);
        if emptied {
            lemma_next_ask_skips(m1.asks, b);
        }
        assert(trades_within(r.events, ticker_id, true, price)) by {
            assert forall|k: int| 0 <= k < r.events.len() implies {
                &&& (#[trigger] r.events[k]).event_type == 1
                &&& r.events[k].ticker_id == ticker_id
                &&& r.events[k].price <= price
            } by {
                assert(r.events[k] == trade_event(ticker_id, b as u32, r.events[k].quantity));
            }
        }
        if !emptied && r.remaining == qty && level_weight(m1.slots, m1.asks[b]) >= level_weight(
            m.slots,
            m.asks[b],
        ) {
        } else {
            lemma_take_asks_conserves(m2, price, r.remaining, ticker_id, user_id);
            let r2 = take_asks(m2, price, r.remaining, ticker_id, user_id);
            lemma_total_quantity_concat(r.events, r2.events);
            lemma_trades_concat(r.events, r2.events, ticker_id, true, price);
        }
    }
}

/// A sell sweep of the bids: traded plus left is what came in, and every
/// trade is at or over the limit.
pub proof fn lemma_take_bids_conserves(m: Market, price: u32, qty: u32, ticker_id: u16, user_id: u16)
    ensures
        ({
            let r = take_bids(m, price, qty, ticker_id, user_id);
            &&& total_quantity(r.events) + r.remaining == qty
            &&& trades_within(r.events, ticker_id, false, price)
            &&& free_in_range(m) ==> free_in_range(r.market)
        }),
    decreases qty, crate::market::bid_distance(m), level_weight(m.slots, m.bids[m.best_bid as int]),
{
    if qty > 0 && m.best_bid > 0 && m.best_bid < m.bids.len() && price <= m.best_bid {
        let b = m.best_bid as int;
        let r = run_level(m, true, b, qty, ticker_id, user_id);
        let m1 = r.market;
        let emptied = m1.bids[b].len() == 0;
        let m2 = if emptied {
            Market { best_bid: prev_bid(m1.bids, b), ..m1 }
        } else {
            m1
        };
        lemma_run_level_frame(m, true, b, qty, ticker_id, user_id);
        lemma_run_level_conserves(m, true, b, qty, ticker_id, user_id);
        if emptied {
            lemma_prev_bid_range(m1.bids, b - 1);
        }
        assert(trades_within(r.events, ticker_id, false, price)) by {
            assert forall|k: int| 0 <= k < r.events.len() implies {
                &&& (#[trigger] r.events[k]).event_type == 1
                &&& r.events[k].ticker_id == ticker_id
                &&& r.events[k].price >= price
            } by {
                assert(r.events[k] == trade_event(ticker_id, b as u32, r.events[k].quantity));
            }
        }
        if !emptied && r.remaining == qty && level_weight(m1.slots, m1.bids[b]) >= level_weight(
            m.slots,
            m.bids[b],
        ) {
        } else {
            lemma_take_bids_conserves(m2, price, r.remaining, ticker_id, user_id);
            let r2 = take_bids(m2, price, r.remaining, ticker_id, user_id);
            lemma_total_quantity_concat(r.events, r2.events);
            lemma_trades_concat(r.events, r2.events, ticker_id, false, price);
        }
    }
}

/// Matching an incoming order of `qty` at limit `price` against the book:
/// the quantity it trades plus the quantity left to it is `qty`, and it
/// trades only at prices no worse than its limit.
pub proof fn lemma_matching_conserves(
    m: Market,
    is_bid: bool,
    price: u32,
    qty: u32,
    ticker_id: u16,
    user_id: u16,
)
    ensures
        ({
            let r = matching(m, is_bid, price, qty, ticker_id, user_id);
            &&& total_quantity(r.events) + r.remaining == qty
            &&& trades_within(r.events, ticker_id, is_bid, price)
            &&& free_in_range(m) ==> free_in_range(r.market)
        }),
{
    if is_bid {
        lemma_take_asks_conserves(m, price, qty, ticker_id, user_id);
    } else {
        lemma_take_bids_conserves(m, price, qty, ticker_id, user_id);
    }
}

/// The best prices of a market are its highest non-empty bid level (0 when
/// there is none) and its lowest non-empty ask level (`NULL_IDX` when there
/// is none).
pub open spec fn tops_ok(m: Market) -> bool {
    &&& m.best_bid == prev_bid(m.bids, m.bids.len() - 1)
    &&& m.best_ask == next_ask(m.asks, 0)
}

proof fn lemma_prev_bid_facts(qs: Seq<Seq<u32>>, p: int)
    requires
        p < qs.len(),
        qs.len() < NULL_IDX,
    ensures
        prev_bid(qs, p) == 0 || (0 < prev_bid(qs, p) <= p && qs[prev_bid(qs, p) as int].len() > 0),
        forall|j: int| prev_bid(qs, p) < j <= p && 0 < j ==> #[trigger] qs[j].len() == 0,
    decreases p,
{
    if p > 0 && qs[p].len() == 0 {
        lemma_prev_bid_facts(qs, p - 1);
    }
}

proof fn lemma_next_ask_facts(qs: Seq<Seq<u32>>, p: int)
    requires
        0 <= p,
        qs.len() < NULL_IDX,
    ensures
        next_ask(qs, p) == NULL_IDX || (p <= next_ask(qs, p) < qs.len() && qs[next_ask(qs, p) as int].len() > 0),
        forall|j: int| p <= j < qs.len() && j < next_ask(qs, p) ==> #[trigger] qs[j].len() == 0,
    decreases qs.len() - p,
{
    if p < qs.len() && qs[p].len() == 0 {
        lemma_next_ask_facts(qs, p + 1);
    }
}

/// An order added to a market and then cancelled by its owner leaves the
/// market as it was, but for the content of the slot it used, which is free
/// again; the cancel publishes one cancel event at the order's price.
pub proof fn lemma_cancel_undoes_add(
    m: Market,
    is_bid: bool,
    price: u32,
    order_id: u32,
    visible: u32,
    hidden_qty: u32,
    clip: u32,
    user_id: u16,
    ticker_id: u16,
)
    requires
        can_add(m, is_bid, price, order_id, visible),
        m.order_map[order_id as int] == NULL_IDX,
        m.slots.len() <= NULL_IDX,
        m.free[0] < m.slots.len(),
        !m.queue(is_bid, price as int).contains(m.free[0]),
        m.bids.len() == m.asks.len(),
        m.asks.len() < NULL_IDX,
        tops_ok(m),
    ensures
        ({
            let a = add_resting(m, is_bid, price, order_id, visible, hidden_qty, clip, user_id);
            let c = cancel(a, order_id, user_id, ticker_id);
            &&& c.0 == Market { slots: a.slots, ..m }
            &&& c.1 == seq![cancel_event(ticker_id, price)]
        }),
{
    let a = add_resting(m, is_bid, price, order_id, visible, hidden_qty, clip, user_id);
    let idx = m.free[0];
    let p = price as int;
    let old_q = m.queue(is_bid, p);
    let q = a.queue(is_bid, p);
    assert(q == old_q.push(idx));
    assert(a.order_map[order_id as int] == idx);
    assert(a.slots[idx as int].user_id == user_id);
    assert(a.slots[idx as int].price == price);
    assert(a.slots[idx as int].is_bid == is_bid);
    assert(q.index_of(idx) == old_q.len()) by {
        let k = q.index_of(idx);
        assert(q[old_q.len() as int] == idx);
        if k != old_q.len() {
            assert(old_q[k] == idx);
        }
    }
    let q2 = q.remove(q.index_of(idx));
    assert(q2 =~= old_q);
    let m1 = a.with_queue(is_bid, p, q2).release(idx);
    assert(m1.bids =~= m.bids);
    assert(m1.asks =~= m.asks);
    assert(m1.free =~= m.free);
    assert(m1.order_map =~= m.order_map);
    let n = m.bids.len() as int;
    lemma_prev_bid_facts(m.bids, n - 1);
    lemma_next_ask_facts(m.asks, 0);
    if is_bid {
        if old_q.len() > 0 {
            assert(a.best_bid == m.best_bid);
        } else if price > m.best_bid {
            if m.best_bid > 0 {
                lemma_prev_bid_is(m.bids, p, m.best_bid as int);
            } else {
                lemma_prev_bid_none(m.bids, p);
            }
        } else if price == m.best_bid && price > 0 {
            assert(m.bids[p].len() > 0);
        }
    } else {
        if old_q.len() > 0 {
            assert(a.best_ask == m.best_ask);
        } else if m.best_ask == NULL_IDX || price < m.best_ask {
            if m.best_ask == NULL_IDX {
                lemma_next_ask_none(m.asks, p);
            } else {
                lemma_next_ask_is(m.asks, p, m.best_ask as int);
            }
        } else if price == m.best_ask {
            assert(m.asks[p].len() > 0);
        }
    }
}

/// On a sound book, cancelling an order just added by its owner under an
/// unused id gives back the market as it was, but for the content of the
/// slot the order used, which is free again.
pub proof fn lemma_book_cancel_undoes_add(
    book: &OrderBook,
    pool: &OrderPool,
    is_bid: bool,
    price: u32,
    order_id: u32,
    visible: u32,
    hidden_qty: u32,
    clip: u32,
    user_id: u16,
    ticker_id: u16,
)
    requires
        book.wf(pool),
        can_add(book.market(pool), is_bid, price, order_id, visible),
        book.market(pool).order_map[order_id as int] == NULL_IDX,
    ensures
        ({
            let m = book.market(pool);
            let a = add_resting(m, is_bid, price, order_id, visible, hidden_qty, clip, user_id);
            let c = cancel(a, order_id, user_id, ticker_id);
            &&& c.0 == Market { slots: a.slots, ..m }
            &&& c.1 == seq![cancel_event(ticker_id, price)]
        }),
{
    let m = book.market(pool);
    book.lemma_market_valid(pool);
    assert(m.free[0] < m.slots.len());
    assert(!m.queue(is_bid, price as int).contains(m.free[0]));
    lemma_cancel_undoes_add(m, is_bid, price, order_id, visible, hidden_qty, clip, user_id, ticker_id);
}

/// Every unit of an incoming order is accounted for: it is traded, at a
/// price no worse than its limit, or, for a limit order, rests in the book
/// under its id at the back of its level, showing at most `display` at a
/// time; what is left of an IOC or FOK order is dropped and the book is the
/// one matching left.
pub proof fn lemma_process_accounts(
    m: Market,
    is_bid: bool,
    price: u32,
    order_id: u32,
    total: u32,
    display: u32,
    order_type: u8,
    ticker_id: u16,
    user_id: u16,
)
    requires
        process_ok(m, is_bid, price, order_id, total, display, order_type, ticker_id, user_id),
        free_in_range(m),
    ensures
        ({
            let r = matching(m, is_bid, price, total, ticker_id, user_id);
            let out = process(m, is_bid, price, order_id, total, display, order_type, ticker_id, user_id);
            &&& total_quantity(out.1) + r.remaining == total
            &&& trades_within(out.1, ticker_id, is_bid, price)
            &&& (order_type == TYPE_LIMIT && r.remaining > 0) ==> {
                let idx = r.market.free[0];
                let o = out.0.slots[idx as int];
                &&& o.quantity + o.hidden_quantity == r.remaining
                &&& o.quantity == clip_of(r.remaining, display)
                &&& o.order_id == order_id
                &&& o.user_id == user_id
                &&& out.0.order_map[order_id as int] == idx
                &&& out.0.queue(is_bid, price as int).last() == idx
            }
            &&& !(order_type == TYPE_LIMIT && r.remaining > 0) ==> out.0 == r.market
        }),
{
    lemma_matching_conserves(m, is_bid, price, total, ticker_id, user_id);
}

/// Every order queued at a level is a slot of the market that shows a
/// positive clip.
pub open spec fn resting_ok(m: Market) -> bool {
    forall|is_bid: bool, p: int, k: int|
        0 <= p < m.levels(is_bid).len() && 0 <= k < m.queue(is_bid, p).len() ==> {
            &&& #[trigger] m.queue(is_bid, p)[k] < m.slots.len()
            &&& m.slots[m.queue(is_bid, p)[k] as int].hidden_quantity > 0 ==> m.slots[m.queue(is_bid, p)[k] as int].display_clip > 0
        }
}

/// Each best price is a level of its side, or the mark of an empty side.
pub open spec fn tops_in_range(m: Market) -> bool {
    &&& (m.best_ask == NULL_IDX || m.best_ask < m.asks.len())
    &&& (m.best_bid == 0 || m.best_bid < m.bids.len())
}

/// The best bid is under the best ask, or a side is empty.
pub open spec fn uncrossed(m: Market) -> bool {
    m.best_bid == 0 || m.best_ask == NULL_IDX || m.best_bid < m.best_ask
}

/// A level replaced by some of its own orders, and a slot given new content
/// with the same clip, keep every queued order sound.
proof fn lemma_resting_requeue(m: Market, is_bid: bool, p: int, q2: Seq<u32>, i: u32, o2: RestingOrder)
    requires
        resting_ok(m),
        0 <= p < m.levels(is_bid).len(),
        forall|k: int| 0 <= k < q2.len() ==> m.queue(is_bid, p).contains(#[trigger] q2[k]),
        i < m.slots.len(),
        o2.display_clip == m.slots[i as int].display_clip,
        o2.hidden_quantity <= m.slots[i as int].hidden_quantity,
    ensures
        resting_ok(m.with_queue(is_bid, p, q2)),
        resting_ok(m.with_queue(is_bid, p, q2).with_slot(i, o2)),
{
    let m1 = m.with_queue(is_bid, p, q2);
    let m2 = m1.with_slot(i, o2);
    assert forall|s: bool, p2: int, k: int|
        0 <= p2 < m1.levels(s).len() && 0 <= k < m1.queue(s, p2).len() implies {
        &&& #[trigger] m1.queue(s, p2)[k] < m1.slots.len()
        &&& m1.slots[m1.queue(s, p2)[k] as int].hidden_quantity > 0 ==> m1.slots[m1.queue(s, p2)[k] as int].display_clip > 0
    } by {
        if s == is_bid && p2 == p {
            let j = choose|j: int| 0 <= j < m.queue(is_bid, p).len() && m.queue(is_bid, p)[j] == q2[k];
            assert(m.queue(is_bid, p)[j] < m.slots.len());
        } else {
            assert(m1.queue(s, p2) == m.queue(s, p2));
            assert(m.queue(s, p2)[k] < m.slots.len());
        }
    }
    assert forall|s: bool, p2: int, k: int|
        0 <= p2 < m2.levels(s).len() && 0 <= k < m2.queue(s, p2).len() implies {
        &&& #[trigger] m2.queue(s, p2)[k] < m2.slots.len()
        &&& m2.slots[m2.queue(s, p2)[k] as int].hidden_quantity > 0 ==> m2.slots[m2.queue(s, p2)[k] as int].display_clip > 0
    } by {
        assert(m2.queue(s, p2) == m1.queue(s, p2));
        assert(m1.queue(s, p2)[k] < m1.slots.len());
    }
}

proof fn lemma_resting_release(m: Market, i: u32)
    requires
        resting_ok(m),
    ensures
        resting_ok(m.release(i)),
{
    let m1 = m.release(i);
    assert forall|s: bool, p2: int, k: int|
        0 <= p2 < m1.levels(s).len() && 0 <= k < m1.queue(s, p2).len() implies {
        &&& #[trigger] m1.queue(s, p2)[k] < m1.slots.len()
        &&& m1.slots[m1.queue(s, p2)[k] as int].hidden_quantity > 0 ==> m1.slots[m1.queue(s, p2)[k] as int].display_clip > 0
    } by {
        assert(m1.queue(s, p2) == m.queue(s, p2));
        assert(m.queue(s, p2)[k] < m.slots.len());
    }
}

proof fn lemma_resting_same_levels(m1: Market, m2: Market)
    requires
        resting_ok(m1),
        m2.bids == m1.bids,
        m2.asks == m1.asks,
        m2.slots == m1.slots,
    ensures
        resting_ok(m2),
{
    assert forall|s: bool, p2: int, k: int|
        0 <= p2 < m2.levels(s).len() && 0 <= k < m2.queue(s, p2).len() implies {
        &&& #[trigger] m2.queue(s, p2)[k] < m2.slots.len()
        &&& m2.slots[m2.queue(s, p2)[k] as int].hidden_quantity > 0 ==> m2.slots[m2.queue(s, p2)[k] as int].display_clip > 0
    } by {
        assert(m2.queue(s, p2) == m1.queue(s, p2));
        assert(m1.queue(s, p2)[k] < m1.slots.len());
    }
}

/// Matching at one level keeps every queued order sound.
pub proof fn lemma_run_level_resting(
    m: Market,
    is_bid: bool,
    p: int,
    agg: u32,
    ticker_id: u16,
    user_id: u16,
)
    requires
        resting_ok(m),
    ensures
        resting_ok(run_level(m, is_bid, p, agg, ticker_id, user_id).market),
    decreases agg, level_weight(m.slots, m.queue(is_bid, p)),
{
    let q = m.queue(is_bid, p);
    if !(0 <= p < m.levels(is_bid).len()) || q.len() == 0 || agg == 0 || q[0] >= m.slots.len() {
    } else {
        let i = q[0];
        let o = m.slots[i as int];
        let rest = q.drop_first();
        assert forall|k: int| 0 <= k < rest.len() implies q.contains(#[trigger] rest[k]) by {
            assert(q[k + 1] == rest[k]);
        }
        let pushed = rest.push(i);
        assert forall|k: int| 0 <= k < pushed.len() implies q.contains(#[trigger] pushed[k]) by {
            if k < rest.len() {
                assert(q[k + 1] == pushed[k]);
            } else {
                assert(q[0] == pushed[k]);
            }
        }
        if o.user_id == user_id {
            lemma_weight_drop_first(m.slots, q);
            lemma_resting_requeue(m, is_bid, p, rest, i, o);
            lemma_resting_release(m.with_queue(is_bid, p, rest), i);
            lemma_run_level_resting(m.with_queue(is_bid, p, rest).release(i), is_bid, p, agg, ticker_id, user_id);
        } else if o.quantity <= agg {
            let agg2 = (agg - o.quantity) as u32;
            if o.hidden_quantity > 0 {
                let rep = replenish_amount(o);
                let o2 = RestingOrder {
                    quantity: rep,
                    hidden_quantity: (o.hidden_quantity - rep) as u32,
                    ..o
                };
                let m1 = m.with_queue(is_bid, p, pushed).with_slot(i, o2);
                lemma_resting_requeue(m, is_bid, p, pushed, i, o2);
                if rest.len() == 0 || (o.quantity == 0 && rep == 0) {
                } else {
                    if rep > 0 {
                        lemma_weight_requeue(m.slots, q, o2);
                    }
                    lemma_run_level_resting(m1, is_bid, p, agg2, ticker_id, user_id);
                }
            } else {
                lemma_weight_drop_first(m.slots, q);
                lemma_resting_requeue(m, is_bid, p, rest, i, o);
                lemma_resting_release(m.with_queue(is_bid, p, rest), i);
                lemma_run_level_resting(m.with_queue(is_bid, p, rest).release(i), is_bid, p, agg2, ticker_id, user_id);
            }
        } else {
            let o2 = RestingOrder { quantity: (o.quantity - agg) as u32, ..o };
            lemma_resting_requeue(m, is_bid, p, q, i, o2);
            assert(m.with_queue(is_bid, p, q).with_slot(i, o2) == m.with_slot(i, o2));
        }
    }
}

/// A buy sweep leaves every queued order sound and the bids as they were;
/// the best ask only rises; and when quantity is left, no ask is at or under
/// the limit any more.
pub proof fn lemma_take_asks_stops(m: Market, price: u32, qty: u32, ticker_id: u16, user_id: u16)
    requires
        resting_ok(m),
        tops_in_range(m),
        m.asks.len() < NULL_IDX,
    ensures
        ({
            let r = take_asks(m, price, qty, ticker_id, user_id);
            &&& resting_ok(r.market)
            &&& tops_in_range(r.market)
            &&& r.market.asks.len() == m.asks.len()
            &&& r.market.bids == m.bids
            &&& r.market.best_bid == m.best_bid
            &&& m.best_ask <= r.market.best_ask
            &&& r.remaining > 0 ==> r.market.best_ask == NULL_IDX || price < r.market.best_ask
        }),
    decreases qty, crate::market::ask_distance(m), level_weight(m.slots, m.asks[m.best_ask as int]),
{
    if qty > 0 && m.asks.len() < NULL_IDX && m.best_ask < m.asks.len() && price >= m.best_ask {
        let b = m.best_ask as int;
        let r = run_level(m, false, b, qty, ticker_id, user_id);
        let m1 = r.market;
        let emptied = m1.asks[b].len() == 0;
        let m2 = if emptied {
            Market { best_ask: next_ask(m1.asks, b), ..m1 }
        } else {
            m1
        };
        lemma_run_level_frame(m, false, b, qty, ticker_id, user_id);
        lemma_run_level_resting(m, false, b, qty, ticker_id, user_id);
        assert(m1.bids == m.bids) by {
            assert(m1.levels(true) == m.levels(true));
        }
        if emptied {
            lemma_next_ask_skips(m1.asks, b);
        }
        assert(resting_ok(m2)) by {
            assert forall|s: bool, p2: int, k: int|
                0 <= p2 < m2.levels(s).len() && 0 <= k < m2.queue(s, p2).len() implies {
                &&& #[trigger] m2.queue(s, p2)[k] < m2.slots.len()
                &&& m2.slots[m2.queue(s, p2)[k] as int].hidden_quantity > 0 ==> m2.slots[m2.queue(s, p2)[k] as int].display_clip > 0
            } by {
                assert(m2.queue(s, p2) == m1.queue(s, p2));
                assert(m1.queue(s, p2)[k] < m1.slots.len());
            }
        }
        if !emptied && r.remaining == qty && level_weight(m1.slots, m1.asks[b]) >= level_weight(
            m.slots,
            m.asks[b],
        ) {
            assert(m.asks[b].len() > 0);
            assert(m.queue(false, b)[0] < m.slots.len());
            lemma_run_level_progress(m, false, b, qty, ticker_id, user_id);
        } else {
            lemma_take_asks_stops(m2, price, r.remaining, ticker_id, user_id);
        }
    }
}

/// A sell sweep leaves every queued order sound and the asks as they were;
/// the best bid only falls; and when quantity is left, no bid is at or over
/// the limit any more.
pub proof fn lemma_take_bids_stops(m: Market, price: u32, qty: u32, ticker_id: u16, user_id: u16)
    requires
        resting_ok(m),
        tops_in_range(m),
        m.bids.len() < NULL_IDX,
    ensures
        ({
            let r = take_bids(m, price, qty, ticker_id, user_id);
            &&& resting_ok(r.market)
            &&& tops_in_range(r.market)
            &&& r.market.bids.len() == m.bids.len()
            &&& r.market.asks == m.asks
            &&& r.market.best_ask == m.best_ask
            &&& r.market.best_bid <= m.best_bid
            &&& r.remaining > 0 ==> r.market.best_bid == 0 || r.market.best_bid < price
        }),
    decreases qty, crate::market::bid_distance(m), level_weight(m.slots, m.bids[m.best_bid as int]),
{
    if qty > 0 && m.best_bid > 0 && m.best_bid < m.bids.len() && price <= m.best_bid {
        let b = m.best_bid as int;
        let r = run_level(m, true, b, qty, ticker_id, user_id);
        let m1 = r.market;
        let emptied = m1.bids[b].len() == 0;
        let m2 = if emptied {
            Market { best_bid: prev_bid(m1.bids, b), ..m1 }
        } else {
            m1
        };
        lemma_run_level_frame(m, true, b, qty, ticker_id, user_id);
        lemma_run_level_resting(m, true, b, qty, ticker_id, user_id);
        assert(m1.asks == m.asks) by {
            assert(m1.levels(false) == m.levels(false));
        }
        if emptied {
            lemma_prev_bid_range(m1.bids, b - 1);
        }
        assert(resting_ok(m2)) by {
            assert forall|s: bool, p2: int, k: int|
                0 <= p2 < m2.levels(s).len() && 0 <= k < m2.queue(s, p2).len() implies {
                &&& #[trigger] m2.queue(s, p2)[k] < m2.slots.len()
                &&& m2.slots[m2.queue(s, p2)[k] as int].hidden_quantity > 0 ==> m2.slots[m2.queue(s, p2)[k] as int].display_clip > 0
            } by {
                assert(m2.queue(s, p2) == m1.queue(s, p2));
                assert(m1.queue(s, p2)[k] < m1.slots.len());
            }
        }
        if !emptied && r.remaining == qty && level_weight(m1.slots, m1.bids[b]) >= level_weight(
            m.slots,
            m.bids[b],
        ) {
            assert(m.bids[b].len() > 0);
            assert(m.queue(true, b)[0] < m.slots.len());
            lemma_run_level_progress(m, true, b, qty, ticker_id, user_id);
        } else {
            lemma_take_bids_stops(m2, price, r.remaining, ticker_id, user_id);
        }
    }
}

/// Every indexed order rests in the queue of its side and price.
pub open spec fn index_ok(m: Market) -> bool {
    forall|id: int|
        0 <= id < m.order_map.len() && #[trigger] m.order_map[id] != NULL_IDX ==> {
            let i = m.order_map[id];
            &&& i < m.slots.len()
            &&& m.slots[i as int].price < m.bids.len()
            &&& m.queue(m.slots[i as int].is_bid, m.slots[i as int].price as int).contains(i)
        }
}

/// The facts about a market that the sweeps of the book rely on.
pub open spec fn market_ok(m: Market) -> bool {
    &&& resting_ok(m)
    &&& tops_in_range(m)
    &&& index_ok(m)
    &&& m.bids.len() == m.asks.len()
    &&& m.asks.len() < NULL_IDX
}

/// An incoming order leaves an uncrossed market uncrossed: what is left of
/// it rests only where it no longer meets the other side.
pub proof fn lemma_process_uncrossed(
    m: Market,
    is_bid: bool,
    price: u32,
    order_id: u32,
    total: u32,
    display: u32,
    order_type: u8,
    ticker_id: u16,
    user_id: u16,
)
    requires
        uncrossed(m),
        resting_ok(m),
        tops_in_range(m),
        m.bids.len() < NULL_IDX,
        m.asks.len() < NULL_IDX,
    ensures
        uncrossed(process(m, is_bid, price, order_id, total, display, order_type, ticker_id, user_id).0),
{
    if is_bid {
        lemma_take_asks_stops(m, price, total, ticker_id, user_id);
    } else {
        lemma_take_bids_stops(m, price, total, ticker_id, user_id);
    }
}

/// A cancel leaves an uncrossed market uncrossed, and keeps the facts the
/// sweeps rely on.
pub proof fn lemma_cancel_uncrossed(m: Market, order_id: u32, user_id: u16, ticker_id: u16)
    requires
        uncrossed(m),
        market_ok(m),
    ensures
        uncrossed(cancel(m, order_id, user_id, ticker_id).0),
        resting_ok(cancel(m, order_id, user_id, ticker_id).0),
        tops_in_range(cancel(m, order_id, user_id, ticker_id).0),
        cancel(m, order_id, user_id, ticker_id).0.bids.len() == m.bids.len(),
        cancel(m, order_id, user_id, ticker_id).0.asks.len() == m.asks.len(),
{
    if order_id >= m.order_map.len() || m.order_map[order_id as int] == NULL_IDX {
    } else {
        let idx = m.order_map[order_id as int];
        let o = m.slots[idx as int];
        if o.user_id != user_id {
        } else {
            let p = o.price as int;
            let q = m.queue(o.is_bid, p);
            assert(q.contains(idx));
            let j = q.index_of(idx);
            assert(0 <= j < q.len() && q[j] == idx);
            let q2 = q.remove(j);
            assert forall|k: int| 0 <= k < q2.len() implies q.contains(#[trigger] q2[k]) by {
                if k < j {
                    assert(q[k] == q2[k]);
                } else {
                    assert(q[k + 1] == q2[k]);
                }
            }
            lemma_resting_requeue(m, o.is_bid, p, q2, idx, o);
            lemma_resting_release(m.with_queue(o.is_bid, p, q2), idx);
            let m1 = m.with_queue(o.is_bid, p, q2).release(idx);
            lemma_prev_bid_range(m1.bids, p);
            lemma_next_ask_range(m1.asks, p);
            lemma_resting_same_levels(m1, cancel(m, order_id, user_id, ticker_id).0);
        }
    }
}

/// A modification leaves an uncrossed market uncrossed.
pub proof fn lemma_modify_uncrossed(
    m: Market,
    order_id: u32,
    is_bid: bool,
    new_price: u32,
    new_quantity: u32,
    user_id: u16,
    ticker_id: u16,
)
    requires
        uncrossed(m),
        market_ok(m),
    ensures
        uncrossed(modify(m, order_id, is_bid, new_price, new_quantity, user_id, ticker_id).0),
{
    if order_id >= m.order_map.len() {
    } else if m.order_map[order_id as int] == NULL_IDX {
        lemma_process_uncrossed(m, is_bid, new_price, order_id, new_quantity, new_quantity, TYPE_LIMIT, ticker_id, user_id);
    } else {
        let idx = m.order_map[order_id as int];
        let o = m.slots[idx as int];
        if o.user_id != user_id {
        } else if o.price == new_price && new_quantity <= o.quantity {
        } else {
            lemma_cancel_uncrossed(m, order_id, user_id, ticker_id);
            let c = cancel(m, order_id, user_id, ticker_id);
            lemma_process_uncrossed(
                c.0,
                o.is_bid,
                new_price,
                order_id,
                new_quantity,
                new_quantity,
                TYPE_LIMIT,
                ticker_id,
                user_id,
            );
        }
    }
}

/// The market of a sound book has the facts the sweeps rely on, and its
/// best prices are its extreme non-empty levels.
pub proof fn lemma_book_market_ok(book: &OrderBook, pool: &OrderPool)
    requires
        book.wf(pool),
    ensures
        market_ok(book.market(pool)),
        tops_ok(book.market(pool)),
{
    let m = book.market(pool);
    book.lemma_market_valid(pool);
    lemma_prev_bid_range(m.bids, m.bids.len() - 1);
    lemma_next_ask_range(m.asks, 0);
    assert forall|s: bool, p: int, k: int|
        0 <= p < m.levels(s).len() && 0 <= k < m.queue(s, p).len() implies {
        &&& #[trigger] m.queue(s, p)[k] < m.slots.len()
        &&& m.slots[m.queue(s, p)[k] as int].hidden_quantity > 0 ==> m.slots[m.queue(s, p)[k] as int].display_clip > 0
    } by {
        assert(m.levels(s).len() == m.bids.len());
    }
}

/// Every message leaves an uncrossed market uncrossed: a limit order rests
/// only where it no longer meets the other side, and cancels and
/// modifications never make the best bid reach the best ask.
pub proof fn lemma_dispatch_uncrossed(m: Market, msg: OrderMessage)
    requires
        uncrossed(m),
        market_ok(m),
    ensures
        uncrossed(dispatch(m, msg).0),
{
    if msg.order_type == TYPE_CANCEL {
        lemma_cancel_uncrossed(m, msg.order_id, msg.user_id, msg.ticker_id);
    } else if msg.order_type == TYPE_MODIFY {
        lemma_modify_uncrossed(m, msg.order_id, msg.is_bid, msg.price, msg.quantity, msg.user_id, msg.ticker_id);
    } else {
        lemma_process_uncrossed(
            m,
            msg.is_bid,
            msg.price,
            msg.order_id,
            msg.quantity,
            msg.display_quantity,
            msg.order_type,
            msg.ticker_id,
            msg.user_id,
        );
    }
}

/// On a sound book, every message leaves an uncrossed book uncrossed.
pub proof fn lemma_book_dispatch_uncrossed(book: &OrderBook, pool: &OrderPool, msg: OrderMessage)
    requires
        book.wf(pool),
        uncrossed(book.market(pool)),
    ensures
        uncrossed(dispatch(book.market(pool), msg).0),
{
    lemma_book_market_ok(book, pool);
    lemma_dispatch_uncrossed(book.market(pool), msg);
}

/// A limit, IOC or FOK message is matched with the message's own
/// quantities: what it trades plus what is left of it is its quantity, and
/// what is left of a limit message rests under its id, showing the
/// message's display quantity at a time (all of it when the display
/// quantity is 0 or not below what is left) and hiding the rest. What is
/// left of an IOC or FOK message is dropped.
pub proof fn lemma_dispatch_order(m: Market, msg: OrderMessage)
    requires
        msg.order_type < TYPE_CANCEL,
        dispatch_ok(m, msg),
        free_in_range(m),
    ensures
        ({
            let r = matching(m, msg.is_bid, msg.price, msg.quantity, msg.ticker_id, msg.user_id);
            let out = dispatch(m, msg);
            &&& total_quantity(out.1) + r.remaining == msg.quantity
            &&& trades_within(out.1, msg.ticker_id, msg.is_bid, msg.price)
            &&& (msg.order_type == 0 && r.remaining > 0) ==> {
                let idx = r.market.free[0];
                let o = out.0.slots[idx as int];
                &&& o.quantity == (if msg.display_quantity == 0 || msg.display_quantity >= r.remaining {
                    r.remaining
                } else {
                    msg.display_quantity
                })
                &&& o.quantity + o.hidden_quantity == r.remaining
                &&& o.order_id == msg.order_id
                &&& o.user_id == msg.user_id
                &&& o.price == msg.price
                &&& o.is_bid == msg.is_bid
                &&& out.0.order_map[msg.order_id as int] == idx
                &&& out.0.queue(msg.is_bid, msg.price as int).last() == idx
            }
            &&& msg.order_type != 0 ==> out.0 == r.market
        }),
{
    lemma_process_accounts(
        m,
        msg.is_bid,
        msg.price,
        msg.order_id,
        msg.quantity,
        msg.display_quantity,
        msg.order_type,
        msg.ticker_id,
        msg.user_id,
    );
    lemma_matching_conserves(m, msg.is_bid, msg.price, msg.quantity, msg.ticker_id, msg.user_id);
}

/// A modification by the owner at the order's own price to a quantity not
/// above what it shows (equal included) changes the order where it stands:
/// every queue, the free list, the index and the best prices stay as they
/// were, only the order's visible quantity becomes the new one, and one
/// modify event carries the price and the new quantity.
pub proof fn lemma_modify_in_place(
    m: Market,
    order_id: u32,
    is_bid: bool,
    new_price: u32,
    new_quantity: u32,
    user_id: u16,
    ticker_id: u16,
)
    requires
        order_id < m.order_map.len(),
        m.order_map[order_id as int] != NULL_IDX,
        m.slots[m.order_map[order_id as int] as int].user_id == user_id,
        m.slots[m.order_map[order_id as int] as int].price == new_price,
        new_quantity <= m.slots[m.order_map[order_id as int] as int].quantity,
    ensures
        ({
            let r = modify(m, order_id, is_bid, new_price, new_quantity, user_id, ticker_id);
            let idx = m.order_map[order_id as int];
            let o = m.slots[idx as int];
            &&& r.0.bids == m.bids
            &&& r.0.asks == m.asks
            &&& r.0.free == m.free
            &&& r.0.order_map == m.order_map
            &&& r.0.best_bid == m.best_bid
            &&& r.0.best_ask == m.best_ask
            &&& r.0.slots == m.slots.update(
                idx as int,
                RestingOrder {
                    order_id: o.order_id,
                    price: o.price,
                    quantity: new_quantity,
                    hidden_quantity: o.hidden_quantity,
                    display_clip: o.display_clip,
                    user_id: o.user_id,
                    is_bid: o.is_bid,
                },
            )
            &&& r.1 == seq![MarketDataEvent { event_type: 4, ticker_id, price: new_price, quantity: new_quantity }]
        }),
{
}

/// A cancel of an unknown id, or by anyone but the order's owner, changes
/// nothing and publishes nothing. A cancel by the owner takes the order out
/// of its level, frees its slot first, empties its index entry, leaves every
/// other level as it was, and publishes one cancel event at its price.
pub proof fn lemma_cancel_effect(m: Market, order_id: u32, user_id: u16, ticker_id: u16)
    requires
        index_sound(m),
    ensures
        ({
            let c = cancel(m, order_id, user_id, ticker_id);
            let known = order_id < m.order_map.len() && m.order_map[order_id as int] != NULL_IDX;
            &&& !(known && m.slots[m.order_map[order_id as int] as int].user_id == user_id) ==> c.0 == m
                && c.1.len() == 0
            &&& (known && m.slots[m.order_map[order_id as int] as int].user_id == user_id) ==> {
                let idx = m.order_map[order_id as int];
                let o = m.slots[idx as int];
                &&& c.1 == seq![MarketDataEvent { event_type: 3, ticker_id, price: o.price, quantity: 0 }]
                &&& c.0.free == seq![idx] + m.free
                &&& c.0.order_map[order_id as int] == NULL_IDX
                &&& c.0.slots == m.slots
                &&& c.0.queue(o.is_bid, o.price as int).len() + 1 == m.queue(o.is_bid, o.price as int).len()
                &&& forall|s: bool, p: int|
                    0 <= p < m.levels(s).len() && !(s == o.is_bid && p == o.price) ==> #[trigger] c.0.queue(s, p)
                        == m.queue(s, p)
            }
        }),
{
    let known = order_id < m.order_map.len() && m.order_map[order_id as int] != NULL_IDX;
    if known && m.slots[m.order_map[order_id as int] as int].user_id == user_id {
        let idx = m.order_map[order_id as int];
        let o = m.slots[idx as int];
        let q = m.queue(o.is_bid, o.price as int);
        assert(q.contains(idx));
        let j = q.index_of(idx);
        assert(0 <= j < q.len());
    }
}

} // verus!
