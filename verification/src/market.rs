//! The mathematical model of an order book together with its order pool, and
//! the meaning of every book operation as a function on that model.
//!
//! A `Market` keeps, for each side and price, the FIFO queue of the pool
//! slots resting there; the content of every slot; the free list of the pool;
//! the order-id index; and the best bid and ask.
use vstd::prelude::*;
use crate::pool::{Order, NULL_IDX};
use crate::orderbook::{MarketDataEvent, TYPE_LIMIT};

verus! {

/// What a slot holds, links left out.
pub struct RestingOrder {
    pub order_id: u32,
    pub price: u32,
    pub quantity: u32,
    pub hidden_quantity: u32,
    pub display_clip: u32,
    pub user_id: u16,
    pub is_bid: bool,
}

pub open spec fn resting(o: Order) -> RestingOrder {
    RestingOrder {
        order_id: o.order_id,
        price: o.price,
        quantity: o.quantity,
        hidden_quantity: o.hidden_quantity,
        display_clip: o.display_clip,
        user_id: o.user_id,
        is_bid: o.is_bid,
    }
}

#[verifier::ext_equal]
pub struct Market {
    pub bids: Seq<Seq<u32>>,
    pub asks: Seq<Seq<u32>>,
    pub slots: Seq<RestingOrder>,
    pub free: Seq<u32>,
    pub order_map: Seq<u32>,
    pub best_bid: u32,
    pub best_ask: u32,
}

/// The result of running a piece of matching on a market: the new market,
/// the quantity still unfilled, the events published, and whether every
/// level volume stayed within `u32`.
#[verifier::ext_equal]
pub struct Outcome {
    pub market: Market,
    pub remaining: u32,
    pub events: Seq<MarketDataEvent>,
    pub ok: bool,
}

pub open spec fn trade_event(ticker_id: u16, price: u32, quantity: u32) -> MarketDataEvent {
    MarketDataEvent { event_type: 1, ticker_id, price, quantity }
}

pub open spec fn cancel_event(ticker_id: u16, price: u32) -> MarketDataEvent {
    MarketDataEvent { event_type: 3, ticker_id, price, quantity: 0 }
}

pub open spec fn modify_event(ticker_id: u16, price: u32, quantity: u32) -> MarketDataEvent {
    MarketDataEvent { event_type: 4, ticker_id, price, quantity }
}

/// The lowest non-empty level at or above `p`, or `NULL_IDX` when there is none.
pub open spec fn next_ask(qs: Seq<Seq<u32>>, p: int) -> u32
    decreases qs.len() - p,
{
    if p >= qs.len() {
        NULL_IDX
    } else if p >= 0 && qs[p].len() > 0 {
        p as u32
    } else {
        next_ask(qs, p + 1)
    }
}

/// The highest non-empty level at or below `p`, or 0 when there is none.
pub open spec fn prev_bid(qs: Seq<Seq<u32>>, p: int) -> u32
    decreases p,
{
    if p <= 0 {
        0
    } else if p < qs.len() && qs[p].len() > 0 {
        p as u32
    } else {
        prev_bid(qs, p - 1)
    }
}

/// Sum of the visible quantities of the slots in `q`.
pub open spec fn volume(slots: Seq<RestingOrder>, q: Seq<u32>) -> nat
    decreases q.len(),
{
    if q.len() == 0 {
        0
    } else {
        (if q[0] < slots.len() {
            slots[q[0] as int].quantity as nat
        } else {
            0
        }) + volume(slots, q.drop_first())
    }
}

/// Sum of the hidden quantities of the slots in `q`.
pub open spec fn hidden(slots: Seq<RestingOrder>, q: Seq<u32>) -> nat
    decreases q.len(),
{
    if q.len() == 0 {
        0
    } else {
        (if q[0] < slots.len() {
            slots[q[0] as int].hidden_quantity as nat
        } else {
            0
        }) + hidden(slots, q.drop_first())
    }
}

/// The size of what is left to match at a level: its hidden quantity plus
/// its number of orders.
pub open spec fn level_weight(slots: Seq<RestingOrder>, q: Seq<u32>) -> nat {
    hidden(slots, q) + q.len()
}

pub open spec fn replenish_amount(o: RestingOrder) -> u32 {
    if o.hidden_quantity > o.display_clip {
        o.display_clip
    } else {
        o.hidden_quantity
    }
}

impl Market {
    pub open spec fn queue(self, is_bid: bool, p: int) -> Seq<u32> {
        if is_bid {
            self.bids[p]
        } else {
            self.asks[p]
        }
    }

    pub open spec fn levels(self, is_bid: bool) -> Seq<Seq<u32>> {
        if is_bid {
            self.bids
        } else {
            self.asks
        }
    }

    pub open spec fn with_queue(self, is_bid: bool, p: int, q: Seq<u32>) -> Market {
        if is_bid {
            Market { bids: self.bids.update(p, q), ..self }
        } else {
            Market { asks: self.asks.update(p, q), ..self }
        }
    }

    pub open spec fn with_slot(self, i: u32, o: RestingOrder) -> Market {
        Market { slots: self.slots.update(i as int, o), ..self }
    }

    /// Returns slot `i` to the pool and forgets the id of the order it held.
    pub open spec fn release(self, i: u32) -> Market {
        Market {
            free: seq![i] + self.free,
            order_map: if self.slots[i as int].order_id < self.order_map.len() {
                self.order_map.update(self.slots[i as int].order_id as int, NULL_IDX)
            } else {
                self.order_map
            },
            ..self
        }
    }

    /// The visible volume resting at a level.
    pub open spec fn level_volume(self, is_bid: bool, p: int) -> nat {
        volume(self.slots, self.queue(is_bid, p))
    }
}

/// Matches up to `agg` against the level (`is_bid`, `p`), front to back.
/// Orders of `user_id` are removed instead of traded against; a filled
/// iceberg order shows its next clip and goes to the back of the level.
pub open spec fn run_level(
    m: Market,
    is_bid: bool,
    p: int,
    agg: u32,
    ticker_id: u16,
    user_id: u16,
) -> Outcome
    decreases agg, level_weight(m.slots, m.queue(is_bid, p)),
{
    let q = m.queue(is_bid, p);
    if !(0 <= p < m.levels(is_bid).len()) || q.len() == 0 || agg == 0 || q[0] >= m.slots.len() {
        Outcome { market: m, remaining: agg, events: seq![], ok: true }
    } else {
        let i = q[0];
        let o = m.slots[i as int];
        let rest = q.drop_first();
        if o.user_id == user_id {
            proof {
                lemma_weight_drop_first(m.slots, q);
            }
            run_level(m.with_queue(is_bid, p, rest).release(i), is_bid, p, agg, ticker_id, user_id)
        } else {
            let ev = trade_event(ticker_id, p as u32, if o.quantity <= agg {
                o.quantity
            } else {
                agg
            });
            if o.quantity <= agg {
                let agg2 = (agg - o.quantity) as u32;
                if o.hidden_quantity > 0 {
                    let rep = replenish_amount(o);
                    let o2 = RestingOrder {
                        quantity: rep,
                        hidden_quantity: (o.hidden_quantity - rep) as u32,
                        ..o
                    };
                    let m1 = m.with_queue(is_bid, p, rest.push(i)).with_slot(i, o2);
                    let ok1 = volume(m.slots, rest) + rep <= u32::MAX;
                    if rest.len() == 0 || (o.quantity == 0 && rep == 0) {
                        Outcome { market: m1, remaining: agg2, events: seq![ev], ok: ok1 }
                    } else {
                        proof {
                            if rep > 0 {
                                lemma_weight_requeue(m.slots, q, o2);
                            }
                        }
                        let r = run_level(m1, is_bid, p, agg2, ticker_id, user_id);
                        Outcome {
                            market: r.market,
                            remaining: r.remaining,
                            events: seq![ev] + r.events,
                            ok: ok1 && r.ok,
                        }
                    }
                } else {
                    proof {
                        lemma_weight_drop_first(m.slots, q);
                    }
                    let r = run_level(
                        m.with_queue(is_bid, p, rest).release(i),
                        is_bid,
                        p,
                        agg2,
                        ticker_id,
                        user_id,
                    );
                    Outcome {
                        market: r.market,
                        remaining: r.remaining,
                        events: seq![ev] + r.events,
                        ok: r.ok,
                    }
                }
            } else {
                let o2 = RestingOrder { quantity: (o.quantity - agg) as u32, ..o };
                Outcome { market: m.with_slot(i, o2), remaining: 0, events: seq![ev], ok: true }
            }
        }
    }
}

pub proof fn lemma_weight_drop_first(slots: Seq<RestingOrder>, q: Seq<u32>)
    requires
        q.len() > 0,
    ensures
        level_weight(slots, q.drop_first()) < level_weight(slots, q),
{
}

pub proof fn lemma_hidden_push(slots: Seq<RestingOrder>, q: Seq<u32>, i: u32)
    requires
        i < slots.len(),
    ensures
        hidden(slots, q.push(i)) == hidden(slots, q) + slots[i as int].hidden_quantity,
    decreases q.len(),
{
    if q.len() == 0 {
        assert(q.push(i).drop_first() =~= q);
    } else {
        assert(q.push(i).drop_first() =~= q.drop_first().push(i));
        lemma_hidden_push(slots, q.drop_first(), i);
    }
}

pub proof fn lemma_hidden_update_le(slots: Seq<RestingOrder>, q: Seq<u32>, i: u32, o: RestingOrder)
    requires
        0 <= i < slots.len(),
        o.hidden_quantity <= slots[i as int].hidden_quantity,
    ensures
        hidden(slots.update(i as int, o), q) <= hidden(slots, q),
    decreases q.len(),
{
    if q.len() > 0 {
        lemma_hidden_update_le(slots, q.drop_first(), i, o);
    }
}

pub proof fn lemma_weight_requeue(slots: Seq<RestingOrder>, q: Seq<u32>, o2: RestingOrder)
    requires
        q.len() > 1,
        0 <= q[0] < slots.len(),
        slots[q[0] as int].hidden_quantity > 0,
        o2.hidden_quantity < slots[q[0] as int].hidden_quantity,
    ensures
        level_weight(slots.update(q[0] as int, o2), q.drop_first().push(q[0])) < level_weight(
            slots,
            q,
        ),
{
    let s2 = slots.update(q[0] as int, o2);
    lemma_hidden_push(s2, q.drop_first(), q[0]);
    lemma_hidden_update_le(slots, q.drop_first(), q[0], o2);
}

/// What `run_level` leaves alone: the other side, the other levels of its
/// side, the best prices, the number of slots; and it never adds to the
/// quantity to match.
pub proof fn lemma_run_level_frame(
    m: Market,
    is_bid: bool,
    p: int,
    agg: u32,
    ticker_id: u16,
    user_id: u16,
)
    ensures
        ({
            let r = run_level(m, is_bid, p, agg, ticker_id, user_id);
            &&& r.remaining <= agg
            &&& r.market.bids.len() == m.bids.len()
            &&& r.market.asks.len() == m.asks.len()
            &&& r.market.slots.len() == m.slots.len()
            &&& r.market.best_bid == m.best_bid
            &&& r.market.best_ask == m.best_ask
            &&& r.market.order_map.len() == m.order_map.len()
            &&& r.market.levels(!is_bid) == m.levels(!is_bid)
            &&& forall|j: int|
                0 <= j < m.levels(is_bid).len() && j != p ==> #[trigger] r.market.levels(is_bid)[j]
                    == m.levels(is_bid)[j]
        }),
    decreases agg, level_weight(m.slots, m.queue(is_bid, p)),
{
    let q = m.queue(is_bid, p);
    if !(0 <= p < m.levels(is_bid).len()) || q.len() == 0 || agg == 0 || q[0] >= m.slots.len() {
    } else {
        let i = q[0];
        let o = m.slots[i as int];
        let rest = q.drop_first();
        if o.user_id == user_id {
            lemma_weight_drop_first(m.slots, q);
            let m1 = m.with_queue(is_bid, p, rest).release(i);
            lemma_run_level_frame(m1, is_bid, p, agg, ticker_id, user_id);
        } else if o.quantity <= agg {
            let agg2 = (agg - o.quantity) as u32;
            if o.hidden_quantity > 0 {
                let rep = replenish_amount(o);
                let o2 = RestingOrder {
                    quantity: rep,
                    hidden_quantity: (o.hidden_quantity - rep) as u32,
                    ..o
                };
                let m1 = m.with_queue(is_bid, p, rest.push(i)).with_slot(i, o2);
                if rest.len() == 0 || (o.quantity == 0 && rep == 0) {
                } else {
                    if rep > 0 {
                        lemma_weight_requeue(m.slots, q, o2);
                    }
                    lemma_run_level_frame(m1, is_bid, p, agg2, ticker_id, user_id);
                }
            } else {
                lemma_weight_drop_first(m.slots, q);
                lemma_run_level_frame(m.with_queue(is_bid, p, rest).release(i), is_bid, p, agg2, ticker_id, user_id);
            }
        }
    }
}

/// A level emptied at `p` is skipped by the search for the next ask.
pub proof fn lemma_next_ask_skips(qs: Seq<Seq<u32>>, p: int)
    requires
        qs.len() < NULL_IDX,
        0 <= p < qs.len(),
        qs[p].len() == 0,
    ensures
        next_ask(qs, p) == next_ask(qs, p + 1),
        next_ask(qs, p) == NULL_IDX || p < next_ask(qs, p) < qs.len(),
{
    lemma_next_ask_range(qs, p + 1);
}

pub proof fn lemma_next_ask_range(qs: Seq<Seq<u32>>, p: int)
    requires
        qs.len() < NULL_IDX,
    ensures
        next_ask(qs, p) == NULL_IDX || (p <= next_ask(qs, p) < qs.len()),
    decreases qs.len() - p,
{
    if p < qs.len() && !(p >= 0 && qs[p].len() > 0) {
        lemma_next_ask_range(qs, p + 1);
    }
}

pub proof fn lemma_prev_bid_range(qs: Seq<Seq<u32>>, p: int)
    ensures
        prev_bid(qs, p) == 0 || (0 < prev_bid(qs, p) <= p && prev_bid(qs, p) < qs.len()),
    decreases p,
{
    if p > 0 && !(p < qs.len() && qs[p].len() > 0) {
        lemma_prev_bid_range(qs, p - 1);
    }
}

pub open spec fn ask_distance(m: Market) -> nat {
    if m.best_ask < m.asks.len() {
        (m.asks.len() - m.best_ask) as nat
    } else {
        0
    }
}

pub open spec fn bid_distance(m: Market) -> nat {
    if m.best_bid < m.bids.len() {
        m.best_bid as nat
    } else {
        0
    }
}

/// A buy order of `qty` at limit `price` sweeps the ask levels from the best
/// one up while they are at or under its limit.
pub open spec fn take_asks(m: Market, price: u32, qty: u32, ticker_id: u16, user_id: u16) -> Outcome
    decreases qty, ask_distance(m), level_weight(m.slots, m.asks[m.best_ask as int]),
{
    if qty > 0 && m.asks.len() < NULL_IDX && m.best_ask < m.asks.len() && price >= m.best_ask {
        let b = m.best_ask as int;
        let r = run_level(m, false, b, qty, ticker_id, user_id);
        let m1 = r.market;
        let emptied = m1.asks[b].len() == 0;
        let m2 = if emptied {
            Market { best_ask: next_ask(m1.asks, b), ..m1 }
        } else {
            m1
        };
        proof {
            lemma_run_level_frame(m, false, b, qty, ticker_id, user_id);
            if emptied {
                lemma_next_ask_skips(m1.asks, b);
            }
        }
        if !emptied && r.remaining == qty && level_weight(m1.slots, m1.asks[b]) >= level_weight(
            m.slots,
            m.asks[b],
        ) {
            Outcome { market: m2, remaining: r.remaining, events: r.events, ok: r.ok }
        } else {
            let r2 = take_asks(m2, price, r.remaining, ticker_id, user_id);
            Outcome {
                market: r2.market,
                remaining: r2.remaining,
                events: r.events + r2.events,
                ok: r.ok && r2.ok,
            }
        }
    } else {
        Outcome { market: m, remaining: qty, events: seq![], ok: true }
    }
}

/// A sell order of `qty` at limit `price` sweeps the bid levels from the
/// best one down while they are at or over its limit.
pub open spec fn take_bids(m: Market, price: u32, qty: u32, ticker_id: u16, user_id: u16) -> Outcome
    decreases qty, bid_distance(m), level_weight(m.slots, m.bids[m.best_bid as int]),
{
    if qty > 0 && m.best_bid > 0 && m.best_bid < m.bids.len() && price <= m.best_bid {
        let b = m.best_bid as int;
        let r = run_level(m, true, b, qty, ticker_id, user_id);
        let m1 = r.market;
        let emptied = m1.bids[b].len() == 0;
        let m2 = if emptied {
            Market { best_bid: prev_bid(m1.bids, b), ..m1 }
        } else {
            m1
        };
        proof {
            lemma_run_level_frame(m, true, b, qty, ticker_id, user_id);
            if emptied {
                lemma_prev_bid_range(m1.bids, b - 1);
            }
        }
        if !emptied && r.remaining == qty && level_weight(m1.slots, m1.bids[b]) >= level_weight(
            m.slots,
            m.bids[b],
        ) {
            Outcome { market: m2, remaining: r.remaining, events: r.events, ok: r.ok }
        } else {
            let r2 = take_bids(m2, price, r.remaining, ticker_id, user_id);
            Outcome {
                market: r2.market,
                remaining: r2.remaining,
                events: r.events + r2.events,
                ok: r.ok && r2.ok,
            }
        }
    } else {
        Outcome { market: m, remaining: qty, events: seq![], ok: true }
    }
}

/// Either side's search for the next best price after the level at `p`
/// emptied.
pub open spec fn matching(m: Market, is_bid: bool, price: u32, qty: u32, ticker_id: u16, user_id: u16) -> Outcome {
    if is_bid {
        take_asks(m, price, qty, ticker_id, user_id)
    } else {
        take_bids(m, price, qty, ticker_id, user_id)
    }
}

/// The visible part of a resting order of `remaining` with display `display`
/// (0: all of it).
pub open spec fn clip_of(remaining: u32, display: u32) -> u32 {
    if display == 0 || display >= remaining {
        remaining
    } else {
        display
    }
}

/// The new order takes the first free slot, joins the back of its level,
/// is indexed by its id, and may become the best price of its side.
pub open spec fn add_resting(
    m: Market,
    is_bid: bool,
    price: u32,
    order_id: u32,
    visible: u32,
    hidden_qty: u32,
    clip: u32,
    user_id: u16,
) -> Market {
    let idx = m.free[0];
    let o = RestingOrder {
        order_id,
        price,
        quantity: visible,
        hidden_quantity: hidden_qty,
        display_clip: clip,
        user_id,
        is_bid,
    };
    let m1 = Market {
        free: m.free.drop_first(),
        slots: m.slots.update(idx as int, o),
        order_map: m.order_map.update(order_id as int, idx),
        ..m
    };
    let m2 = m1.with_queue(is_bid, price as int, m.queue(is_bid, price as int).push(idx));
    if is_bid && price > m.best_bid {
        Market { best_bid: price, ..m2 }
    } else if !is_bid && (m.best_ask == NULL_IDX || price < m.best_ask) {
        Market { best_ask: price, ..m2 }
    } else {
        m2
    }
}

/// When an order can rest without the engine failing: its price has a
/// level, its id has an index entry, a slot is free, and the level volume
/// stays within `u32`.
pub open spec fn can_add(m: Market, is_bid: bool, price: u32, order_id: u32, visible: u32) -> bool {
    &&& price < m.levels(is_bid).len()
    &&& order_id < m.order_map.len()
    &&& m.free.len() > 0
    &&& m.level_volume(is_bid, price as int) + visible <= u32::MAX
}

/// An order is matched against the other side; what is left of a limit
/// order rests in the book, showing `display` of it at a time.
pub open spec fn process(
    m: Market,
    is_bid: bool,
    price: u32,
    order_id: u32,
    total: u32,
    display: u32,
    order_type: u8,
    ticker_id: u16,
    user_id: u16,
) -> (Market, Seq<MarketDataEvent>) {
    let r = matching(m, is_bid, price, total, ticker_id, user_id);
    if r.remaining > 0 && order_type == TYPE_LIMIT {
        let clip = clip_of(r.remaining, display);
        (
            add_resting(
                r.market,
                is_bid,
                price,
                order_id,
                clip,
                (r.remaining - clip) as u32,
                clip,
                user_id,
            ),
            r.events,
        )
    } else {
        (r.market, r.events)
    }
}

pub open spec fn process_ok(
    m: Market,
    is_bid: bool,
    price: u32,
    order_id: u32,
    total: u32,
    display: u32,
    order_type: u8,
    ticker_id: u16,
    user_id: u16,
) -> bool {
    let r = matching(m, is_bid, price, total, ticker_id, user_id);
    &&& r.ok
    &&& (r.remaining > 0 && order_type == TYPE_LIMIT) ==> can_add(
        r.market,
        is_bid,
        price,
        order_id,
        clip_of(r.remaining, display),
    )
}

/// A cancel by the owner of a resting order takes it out of the book.
pub open spec fn cancel(m: Market, order_id: u32, user_id: u16, ticker_id: u16) -> (
    Market,
    Seq<MarketDataEvent>,
) {
    if order_id >= m.order_map.len() || m.order_map[order_id as int] == NULL_IDX {
        (m, seq![])
    } else {
        let idx = m.order_map[order_id as int];
        let o = m.slots[idx as int];
        if o.user_id != user_id {
            (m, seq![])
        } else {
            let q = m.queue(o.is_bid, o.price as int);
            let q2 = q.remove(q.index_of(idx));
            let m1 = m.with_queue(o.is_bid, o.price as int, q2).release(idx);
            let m2 = if q2.len() == 0 && o.is_bid && m.best_bid == o.price {
                Market { best_bid: prev_bid(m1.bids, o.price as int), ..m1 }
            } else if q2.len() == 0 && !o.is_bid && m.best_ask == o.price {
                Market { best_ask: next_ask(m1.asks, o.price as int), ..m1 }
            } else {
                m1
            };
            (m2, seq![cancel_event(ticker_id, o.price)])
        }
    }
}

/// A modification by the owner: a smaller quantity at the same price keeps
/// the order's place; anything else cancels it and enters a new limit order
/// with the same id. An unknown id enters a new limit order.
pub open spec fn modify(
    m: Market,
    order_id: u32,
    is_bid: bool,
    new_price: u32,
    new_quantity: u32,
    user_id: u16,
    ticker_id: u16,
) -> (Market, Seq<MarketDataEvent>) {
    if order_id >= m.order_map.len() {
        (m, seq![])
    } else if m.order_map[order_id as int] == NULL_IDX {
        process(m, is_bid, new_price, order_id, new_quantity, new_quantity, TYPE_LIMIT, ticker_id, user_id)
    } else {
        let idx = m.order_map[order_id as int];
        let o = m.slots[idx as int];
        if o.user_id != user_id {
            (m, seq![])
        } else if o.price == new_price && new_quantity <= o.quantity {
            (
                m.with_slot(idx, RestingOrder { quantity: new_quantity, ..o }),
                seq![modify_event(ticker_id, new_price, new_quantity)],
            )
        } else {
            let c = cancel(m, order_id, user_id, ticker_id);
            let r = process(
                c.0,
                o.is_bid,
                new_price,
                order_id,
                new_quantity,
                new_quantity,
                TYPE_LIMIT,
                ticker_id,
                user_id,
            );
            (r.0, c.1 + r.1)
        }
    }
}

pub open spec fn modify_ok(
    m: Market,
    order_id: u32,
    is_bid: bool,
    new_price: u32,
    new_quantity: u32,
    user_id: u16,
    ticker_id: u16,
) -> bool {
    if order_id >= m.order_map.len() {
        true
    } else if m.order_map[order_id as int] == NULL_IDX {
        process_ok(m, is_bid, new_price, order_id, new_quantity, new_quantity, TYPE_LIMIT, ticker_id, user_id)
    } else {
        let idx = m.order_map[order_id as int];
        let o = m.slots[idx as int];
        if o.user_id != user_id {
            true
        } else if o.price == new_price && new_quantity <= o.quantity {
            true
        } else {
            let c = cancel(m, order_id, user_id, ticker_id);
            process_ok(
                c.0,
                o.is_bid,
                new_price,
                order_id,
                new_quantity,
                new_quantity,
                TYPE_LIMIT,
                ticker_id,
                user_id,
            )
        }
    }
}

pub proof fn lemma_next_ask_is(qs: Seq<Seq<u32>>, from: int, r: int)
    requires
        qs.len() < NULL_IDX,
        0 <= from <= r < qs.len(),
        qs[r].len() > 0,
        forall|p: int| from <= p < r ==> #[trigger] qs[p].len() == 0,
    ensures
        next_ask(qs, from) == r,
    decreases r - from,
{
    if from < r {
        lemma_next_ask_is(qs, from + 1, r);
    }
}

pub proof fn lemma_next_ask_none(qs: Seq<Seq<u32>>, from: int)
    requires
        0 <= from,
        forall|p: int| from <= p < qs.len() ==> #[trigger] qs[p].len() == 0,
    ensures
        next_ask(qs, from) == NULL_IDX,
    decreases qs.len() - from,
{
    if from < qs.len() {
        lemma_next_ask_none(qs, from + 1);
    }
}

pub proof fn lemma_prev_bid_is(qs: Seq<Seq<u32>>, from: int, r: int)
    requires
        qs.len() < NULL_IDX,
        0 <= r <= from < qs.len(),
        qs[r].len() > 0,
        forall|p: int| r < p <= from ==> #[trigger] qs[p].len() == 0,
    ensures
        prev_bid(qs, from) == r,
    decreases from - r,
{
    if r < from {
        lemma_prev_bid_is(qs, from - 1, r);
    }
}

pub proof fn lemma_prev_bid_none(qs: Seq<Seq<u32>>, from: int)
    requires
        from < qs.len(),
        forall|p: int| 0 < p <= from ==> #[trigger] qs[p].len() == 0,
    ensures
        prev_bid(qs, from) == 0,
    decreases from,
{
    if from > 0 {
        lemma_prev_bid_none(qs, from - 1);
    }
}

pub open spec fn qty_at(slots: Seq<RestingOrder>, i: u32) -> nat {
    if i < slots.len() {
        slots[i as int].quantity as nat
    } else {
        0
    }
}

pub proof fn lemma_volume_frame(s1: Seq<RestingOrder>, s2: Seq<RestingOrder>, q: Seq<u32>)
    requires
        forall|k: int| 0 <= k < q.len() ==> qty_at(s1, #[trigger] q[k]) == qty_at(s2, q[k]),
    ensures
        volume(s1, q) == volume(s2, q),
    decreases q.len(),
{
    if q.len() > 0 {
        assert(qty_at(s1, q[0]) == qty_at(s2, q[0]));
        assert forall|k: int| 0 <= k < q.drop_first().len() implies qty_at(s1, #[trigger] q.drop_first()[k])
            == qty_at(s2, q.drop_first()[k]) by {
            assert(q.drop_first()[k] == q[k + 1]);
        }
        lemma_volume_frame(s1, s2, q.drop_first());
    }
}

pub proof fn lemma_volume_push(s: Seq<RestingOrder>, q: Seq<u32>, i: u32)
    ensures
        volume(s, q.push(i)) == volume(s, q) + qty_at(s, i),
    decreases q.len(),
{
    if q.len() == 0 {
        assert(q.push(i).drop_first() =~= q);
    } else {
        assert(q.push(i).drop_first() =~= q.drop_first().push(i));
        lemma_volume_push(s, q.drop_first(), i);
    }
}

pub proof fn lemma_volume_remove(s: Seq<RestingOrder>, q: Seq<u32>, k: int)
    requires
        0 <= k < q.len(),
    ensures
        volume(s, q.remove(k)) + qty_at(s, q[k]) == volume(s, q),
    decreases q.len(),
{
    if k == 0 {
        assert(q.remove(0) =~= q.drop_first());
    } else {
        assert(q.remove(k).drop_first() =~= q.drop_first().remove(k - 1));
        lemma_volume_remove(s, q.drop_first(), k - 1);
    }
}

/// Changing the slot of one order of a queue changes the queue's volume by
/// the change of that order's quantity.
pub proof fn lemma_volume_update(s: Seq<RestingOrder>, q: Seq<u32>, k: int, o: RestingOrder)
    requires
        0 <= k < q.len(),
        q.no_duplicates(),
        q[k] < s.len(),
    ensures
        volume(s.update(q[k] as int, o), q) + s[q[k] as int].quantity == volume(s, q) + o.quantity,
{
    let i = q[k];
    let s2 = s.update(i as int, o);
    lemma_volume_remove(s, q, k);
    lemma_volume_remove(s2, q, k);
    assert forall|j: int| 0 <= j < q.remove(k).len() implies qty_at(s, #[trigger] q.remove(k)[j])
        == qty_at(s2, q.remove(k)[j]) by {
        if j < k {
            assert(q.remove(k)[j] == q[j]);
        } else {
            assert(q.remove(k)[j] == q[j + 1]);
        }
    }
    lemma_volume_frame(s, s2, q.remove(k));
}

/// One round of `run_level` at the front of a non-empty level: the new
/// market, what is left to match, the events, whether volumes stayed within
/// `u32`, and whether matching goes on at the same level.
#[verifier::ext_equal]
pub struct Step {
    pub market: Market,
    pub remaining: u32,
    pub events: Seq<MarketDataEvent>,
    pub ok: bool,
    pub more: bool,
}

pub open spec fn level_step(
    m: Market,
    is_bid: bool,
    p: int,
    agg: u32,
    ticker_id: u16,
    user_id: u16,
) -> Step {
    let q = m.queue(is_bid, p);
    let i = q[0];
    let o = m.slots[i as int];
    let rest = q.drop_first();
    if o.user_id == user_id {
        Step {
            market: m.with_queue(is_bid, p, rest).release(i),
            remaining: agg,
            events: seq![],
            ok: true,
            more: true,
        }
    } else {
        let ev = trade_event(ticker_id, p as u32, if o.quantity <= agg {
            o.quantity
        } else {
            agg
        });
        if o.quantity <= agg {
            let agg2 = (agg - o.quantity) as u32;
            if o.hidden_quantity > 0 {
                let rep = replenish_amount(o);
                let o2 = RestingOrder {
                    quantity: rep,
                    hidden_quantity: (o.hidden_quantity - rep) as u32,
                    ..o
                };
                Step {
                    market: m.with_queue(is_bid, p, rest.push(i)).with_slot(i, o2),
                    remaining: agg2,
                    events: seq![ev],
                    ok: volume(m.slots, rest) + rep <= u32::MAX,
                    more: !(rest.len() == 0 || (o.quantity == 0 && rep == 0)),
                }
            } else {
                Step {
                    market: m.with_queue(is_bid, p, rest).release(i),
                    remaining: agg2,
                    events: seq![ev],
                    ok: true,
                    more: true,
                }
            }
        } else {
            Step {
                market: m.with_slot(i, RestingOrder { quantity: (o.quantity - agg) as u32, ..o }),
                remaining: 0,
                events: seq![ev],
                ok: true,
                more: false,
            }
        }
    }
}

/// `run_level` is a `level_step` followed, when matching goes on, by
/// `run_level` on what the step left.
pub proof fn lemma_run_level_unfold(
    m: Market,
    is_bid: bool,
    p: int,
    agg: u32,
    ticker_id: u16,
    user_id: u16,
)
    requires
        0 <= p < m.levels(is_bid).len(),
        m.queue(is_bid, p).len() > 0,
        agg > 0,
        m.queue(is_bid, p)[0] < m.slots.len(),
    ensures
        ({
            let s = level_step(m, is_bid, p, agg, ticker_id, user_id);
            let r = run_level(s.market, is_bid, p, s.remaining, ticker_id, user_id);
            run_level(m, is_bid, p, agg, ticker_id, user_id) == (if s.more {
                Outcome {
                    market: r.market,
                    remaining: r.remaining,
                    events: s.events + r.events,
                    ok: s.ok && r.ok,
                }
            } else {
                Outcome { market: s.market, remaining: s.remaining, events: s.events, ok: s.ok }
            })
        }),
{
    let s = level_step(m, is_bid, p, agg, ticker_id, user_id);
    let r = run_level(s.market, is_bid, p, s.remaining, ticker_id, user_id);
    let q = m.queue(is_bid, p);
    let o = m.slots[q[0] as int];
    if o.user_id == user_id {
        assert(r.events =~= seq![] + r.events);
    }
}

/// `run_level` never adds to what is left to match, and when it leaves
/// the quantity as it was it does not make the level heavier.
pub proof fn lemma_run_level_monotone(
    m: Market,
    is_bid: bool,
    p: int,
    agg: u32,
    ticker_id: u16,
    user_id: u16,
)
    ensures
        ({
            let r = run_level(m, is_bid, p, agg, ticker_id, user_id);
            &&& r.remaining <= agg
            &&& r.remaining == agg ==> level_weight(r.market.slots, r.market.queue(is_bid, p)) <= level_weight(
                m.slots,
                m.queue(is_bid, p),
            )
        }),
    decreases agg, level_weight(m.slots, m.queue(is_bid, p)),
{
    let q = m.queue(is_bid, p);
    if !(0 <= p < m.levels(is_bid).len()) || q.len() == 0 || agg == 0 || q[0] >= m.slots.len() {
    } else {
        let i = q[0];
        let o = m.slots[i as int];
        let rest = q.drop_first();
        lemma_weight_drop_first(m.slots, q);
        if o.user_id == user_id {
            lemma_run_level_monotone(m.with_queue(is_bid, p, rest).release(i), is_bid, p, agg, ticker_id, user_id);
        } else if o.quantity <= agg {
            let agg2 = (agg - o.quantity) as u32;
            if o.hidden_quantity > 0 {
                let rep = replenish_amount(o);
                let o2 = RestingOrder {
                    quantity: rep,
                    hidden_quantity: (o.hidden_quantity - rep) as u32,
                    ..o
                };
                let m1 = m.with_queue(is_bid, p, rest.push(i)).with_slot(i, o2);
                lemma_hidden_push(m.slots.update(i as int, o2), rest, i);
                lemma_hidden_update_le(m.slots, rest, i, o2);
                assert(hidden(m.slots, q) == o.hidden_quantity + hidden(m.slots, rest));
                if rest.len() == 0 || (o.quantity == 0 && rep == 0) {
                } else {
                    if rep > 0 {
                        lemma_weight_requeue(m.slots, q, o2);
                    }
                    lemma_run_level_monotone(m1, is_bid, p, agg2, ticker_id, user_id);
                }
            } else {
                lemma_run_level_monotone(m.with_queue(is_bid, p, rest).release(i), is_bid, p, agg2, ticker_id, user_id);
            }
        }
    }
}

/// Matching at a non-empty level whose front order shows clips makes
/// progress: less is left to match, or the level got lighter.
pub proof fn lemma_run_level_progress(
    m: Market,
    is_bid: bool,
    p: int,
    agg: u32,
    ticker_id: u16,
    user_id: u16,
)
    requires
        0 <= p < m.levels(is_bid).len(),
        m.queue(is_bid, p).len() > 0,
        agg > 0,
        m.queue(is_bid, p)[0] < m.slots.len(),
        m.slots[m.queue(is_bid, p)[0] as int].hidden_quantity > 0 ==> m.slots[m.queue(
            is_bid,
            p,
        )[0] as int].display_clip > 0,
    ensures
        ({
            let r = run_level(m, is_bid, p, agg, ticker_id, user_id);
            r.remaining < agg || level_weight(r.market.slots, r.market.queue(is_bid, p)) < level_weight(
                m.slots,
                m.queue(is_bid, p),
            )
        }),
{
    let q = m.queue(is_bid, p);
    let i = q[0];
    let o = m.slots[i as int];
    let rest = q.drop_first();
    lemma_weight_drop_first(m.slots, q);
    if o.user_id == user_id {
        lemma_run_level_monotone(m.with_queue(is_bid, p, rest).release(i), is_bid, p, agg, ticker_id, user_id);
    } else if o.quantity <= agg {
        let agg2 = (agg - o.quantity) as u32;
        if o.hidden_quantity > 0 {
            let rep = replenish_amount(o);
            let o2 = RestingOrder {
                quantity: rep,
                hidden_quantity: (o.hidden_quantity - rep) as u32,
                ..o
            };
            let m1 = m.with_queue(is_bid, p, rest.push(i)).with_slot(i, o2);
            lemma_hidden_push(m.slots.update(i as int, o2), rest, i);
            lemma_hidden_update_le(m.slots, rest, i, o2);
            assert(hidden(m.slots, q) == o.hidden_quantity + hidden(m.slots, rest));
            if rest.len() == 0 || (o.quantity == 0 && rep == 0) {
            } else {
                lemma_weight_requeue(m.slots, q, o2);
                lemma_run_level_monotone(m1, is_bid, p, agg2, ticker_id, user_id);
            }
        } else {
            lemma_run_level_monotone(m.with_queue(is_bid, p, rest).release(i), is_bid, p, agg2, ticker_id, user_id);
        }
    }
}

} // verus!
