//! Where every slot of an order pool is: free, or resting once in the queue
//! of its order's side and price, where the order-id index finds it. Every
//! message keeps this account.
use vstd::prelude::*;
use crate::market::{
    Market, RestingOrder, run_level, take_asks, take_bids, matching, replenish_amount, level_weight, next_ask,
    prev_bid, add_resting, can_add, cancel, process, process_ok, clip_of, modify, modify_ok,
    lemma_weight_drop_first, lemma_weight_requeue, lemma_run_level_frame, lemma_next_ask_skips, lemma_prev_bid_range,
};
use crate::exchange::{dispatch, dispatch_ok, empty_market};
use crate::message::OrderMessage;
use crate::orderbook::{OrderBook, TYPE_LIMIT, TYPE_CANCEL, TYPE_MODIFY};
use crate::pool::{OrderPool, NULL_IDX};

verus! {

/// The free list and the queues agree: no slot is free twice, every free
/// slot is a slot of the market, and every queued slot is a slot that is
/// not free and holds an order of its level's side and price, queued once.
pub open spec fn queues_sound(m: Market) -> bool {
    &&& m.slots.len() <= NULL_IDX
    &&& m.free.no_duplicates()
    &&& forall|k: int| 0 <= k < m.free.len() ==> #[trigger] m.free[k] < m.slots.len()
    &&& forall|s: bool, p: int| 0 <= p < m.levels(s).len() ==> (#[trigger] m.queue(s, p)).no_duplicates()
    &&& forall|s: bool, p: int, k: int|
        0 <= p < m.levels(s).len() && 0 <= k < m.queue(s, p).len() ==> {
            let i = #[trigger] m.queue(s, p)[k];
            &&& i < m.slots.len()
            &&& m.slots[i as int].is_bid == s
            &&& m.slots[i as int].price == p
            &&& !m.free.contains(i)
        }
}

/// Every index entry names a slot that holds an order of that id resting
/// in the queue of its side and price.
pub open spec fn index_sound(m: Market) -> bool {
    forall|id: int|
        0 <= id < m.order_map.len() && #[trigger] m.order_map[id] != NULL_IDX ==> {
            let i = m.order_map[id];
            &&& i < m.slots.len()
            &&& m.slots[i as int].order_id == id
            &&& m.slots[i as int].price < m.levels(m.slots[i as int].is_bid).len()
            &&& m.queue(m.slots[i as int].is_bid, m.slots[i as int].price as int).contains(i)
        }
}

/// Every slot is free, or rests in the queue of its order's side and price.
pub open spec fn slots_accounted(m: Market) -> bool {
    forall|i: int|
        #![trigger m.slots[i]]
        0 <= i < m.slots.len() ==> m.free.contains(i as u32) || {
            &&& m.slots[i].price < m.levels(m.slots[i].is_bid).len()
            &&& m.queue(m.slots[i].is_bid, m.slots[i].price as int).contains(i as u32)
        }
}

/// Every resting order is found through the index under its id.
pub open spec fn orders_indexed(m: Market) -> bool {
    forall|s: bool, p: int, k: int|
        0 <= p < m.levels(s).len() && 0 <= k < m.queue(s, p).len() ==> {
            let i = #[trigger] m.queue(s, p)[k];
            &&& m.slots[i as int].order_id < m.order_map.len()
            &&& m.order_map[m.slots[i as int].order_id as int] == i
        }
}

/// The whole account of the slots.
pub open spec fn ledger_ok(m: Market) -> bool {
    &&& queues_sound(m)
    &&& index_sound(m)
    &&& slots_accounted(m)
    &&& orders_indexed(m)
}

/// Two orders that sit in the same place in the book.
pub open spec fn same_place(a: RestingOrder, b: RestingOrder) -> bool {
    a.order_id == b.order_id && a.price == b.price && a.is_bid == b.is_bid
}

/// The account only looks at the queues, the slots, the free list and the
/// index.
proof fn lemma_ledger_frame(m1: Market, m2: Market)
    requires
        ledger_ok(m1),
        m2.bids == m1.bids,
        m2.asks == m1.asks,
        m2.slots == m1.slots,
        m2.free == m1.free,
        m2.order_map == m1.order_map,
    ensures
        ledger_ok(m2),
{
    assert forall|s: bool, p: int| #[trigger] m2.queue(s, p) == m1.queue(s, p) by {}
    assert forall|s: bool| #[trigger] m2.levels(s) == m1.levels(s) by {}
}

/// A slot's content may change while it keeps its place.
proof fn lemma_ledger_with_slot(m: Market, i: u32, o2: RestingOrder)
    requires
        ledger_ok(m),
        i < m.slots.len(),
        same_place(o2, m.slots[i as int]),
    ensures
        ledger_ok(m.with_slot(i, o2)),
{
    let m1 = m.with_slot(i, o2);
    assert forall|j: int| 0 <= j < m.slots.len() implies same_place(#[trigger] m1.slots[j], m.slots[j]) by {}
    assert(queues_sound(m1)) by {
        assert forall|s: bool, p: int, k: int|
            0 <= p < m1.levels(s).len() && 0 <= k < m1.queue(s, p).len() implies {
            let x = #[trigger] m1.queue(s, p)[k];
            &&& x < m1.slots.len()
            &&& m1.slots[x as int].is_bid == s
            &&& m1.slots[x as int].price == p
            &&& !m1.free.contains(x)
        } by {
            assert(m.queue(s, p)[k] < m.slots.len());
        }
    }
    assert(index_sound(m1)) by {
        assert forall|id: int| 0 <= id < m1.order_map.len() && #[trigger] m1.order_map[id] != NULL_IDX implies {
            let x = m1.order_map[id];
            &&& x < m1.slots.len()
            &&& m1.slots[x as int].order_id == id
            &&& m1.slots[x as int].price < m1.levels(m1.slots[x as int].is_bid).len()
            &&& m1.queue(m1.slots[x as int].is_bid, m1.slots[x as int].price as int).contains(x)
        } by {
            assert(m.order_map[id] != NULL_IDX);
        }
    }
    assert(slots_accounted(m1)) by {
        assert forall|j: int|
            #![trigger m1.slots[j]]
            0 <= j < m1.slots.len() implies m1.free.contains(j as u32) || {
            &&& m1.slots[j].price < m1.levels(m1.slots[j].is_bid).len()
            &&& m1.queue(m1.slots[j].is_bid, m1.slots[j].price as int).contains(j as u32)
        } by {
            assert(same_place(m1.slots[j], m.slots[j]));
        }
    }
    assert(orders_indexed(m1)) by {
        assert forall|s: bool, p: int, k: int|
            0 <= p < m1.levels(s).len() && 0 <= k < m1.queue(s, p).len() implies {
            let x = #[trigger] m1.queue(s, p)[k];
            &&& m1.slots[x as int].order_id < m1.order_map.len()
            &&& m1.order_map[m1.slots[x as int].order_id as int] == x
        } by {
            let x = m.queue(s, p)[k];
            assert(x < m.slots.len());
            assert(same_place(m1.slots[x as int], m.slots[x as int]));
        }
    }
}

/// A level may be reordered, keeping its members once each.
proof fn lemma_ledger_same_members(m: Market, s: bool, p: int, q2: Seq<u32>)
    requires
        ledger_ok(m),
        0 <= p < m.levels(s).len(),
        q2.no_duplicates(),
        forall|x: u32| q2.contains(x) <==> m.queue(s, p).contains(x),
    ensures
        ledger_ok(m.with_queue(s, p, q2)),
{
    let m1 = m.with_queue(s, p, q2);
    let q = m.queue(s, p);
    assert forall|s2: bool| #[trigger] m1.levels(s2).len() == m.levels(s2).len() by {}
    assert forall|s2: bool, p2: int, x: u32|
        0 <= p2 < m.levels(s2).len() implies #[trigger] m1.queue(s2, p2).contains(x) == m.queue(s2, p2).contains(x) by {
        if s2 == s && p2 == p {
            assert(m1.queue(s2, p2) == q2);
        } else {
            assert(m1.queue(s2, p2) == m.queue(s2, p2));
        }
    }
    assert(queues_sound(m1)) by {
        assert forall|s2: bool, p2: int| 0 <= p2 < m1.levels(s2).len() implies (#[trigger] m1.queue(
            s2,
            p2,
        )).no_duplicates() by {
            if !(s2 == s && p2 == p) {
                assert(m1.queue(s2, p2) == m.queue(s2, p2));
            }
        }
        assert forall|s2: bool, p2: int, k: int|
            0 <= p2 < m1.levels(s2).len() && 0 <= k < m1.queue(s2, p2).len() implies {
            let x = #[trigger] m1.queue(s2, p2)[k];
            &&& x < m1.slots.len()
            &&& m1.slots[x as int].is_bid == s2
            &&& m1.slots[x as int].price == p2
            &&& !m1.free.contains(x)
        } by {
            let x = m1.queue(s2, p2)[k];
            assert(m1.queue(s2, p2).contains(x));
            assert(m.queue(s2, p2).contains(x));
            let j = choose|j: int| 0 <= j < m.queue(s2, p2).len() && m.queue(s2, p2)[j] == x;
            assert(m.queue(s2, p2)[j] < m.slots.len());
        }
    }
    assert(orders_indexed(m1)) by {
        assert forall|s2: bool, p2: int, k: int|
            0 <= p2 < m1.levels(s2).len() && 0 <= k < m1.queue(s2, p2).len() implies {
            let x = #[trigger] m1.queue(s2, p2)[k];
            &&& m1.slots[x as int].order_id < m1.order_map.len()
            &&& m1.order_map[m1.slots[x as int].order_id as int] == x
        } by {
            let x = m1.queue(s2, p2)[k];
            assert(m1.queue(s2, p2).contains(x));
            let j = choose|j: int| 0 <= j < m.queue(s2, p2).len() && m.queue(s2, p2)[j] == x;
            assert(m.queue(s2, p2)[j] < m.slots.len());
        }
    }
    assert(index_sound(m1)) by {
        assert forall|id: int| 0 <= id < m1.order_map.len() && #[trigger] m1.order_map[id] != NULL_IDX implies {
            let x = m1.order_map[id];
            &&& x < m1.slots.len()
            &&& m1.slots[x as int].order_id == id
            &&& m1.slots[x as int].price < m1.levels(m1.slots[x as int].is_bid).len()
            &&& m1.queue(m1.slots[x as int].is_bid, m1.slots[x as int].price as int).contains(x)
        } by {
            assert(m.order_map[id] != NULL_IDX);
            let x = m.order_map[id];
            assert(m1.queue(m.slots[x as int].is_bid, m.slots[x as int].price as int).contains(x));
        }
    }
    assert(slots_accounted(m1)) by {
        assert forall|j: int|
            #![trigger m1.slots[j]]
            0 <= j < m1.slots.len() implies m1.free.contains(j as u32) || {
            &&& m1.slots[j].price < m1.levels(m1.slots[j].is_bid).len()
            &&& m1.queue(m1.slots[j].is_bid, m1.slots[j].price as int).contains(j as u32)
        } by {
            assert(m.slots[j] == m1.slots[j]);
            if !m.free.contains(j as u32) {
                assert(m1.queue(m.slots[j].is_bid, m.slots[j].price as int).contains(j as u32));
            }
        }
    }
}

/// An order taken out of its level and its slot freed: the slot goes to
/// the front of the free list and its id leaves the index.
proof fn lemma_ledger_release(m: Market, s: bool, p: int, j: int)
    requires
        ledger_ok(m),
        0 <= p < m.levels(s).len(),
        0 <= j < m.queue(s, p).len(),
    ensures
        ledger_ok(m.with_queue(s, p, m.queue(s, p).remove(j)).release(m.queue(s, p)[j])),
{
    let q = m.queue(s, p);
    let i = q[j];
    let q2 = q.remove(j);
    let m0 = m.with_queue(s, p, q2);
    let m1 = m0.release(i);
    let oid = m.slots[i as int].order_id;
    assert(i < m.slots.len() && m.slots[i as int].is_bid == s && m.slots[i as int].price == p);
    assert(!m.free.contains(i));
    assert(oid < m.order_map.len() && m.order_map[oid as int] == i);
    assert(m1.order_map == m.order_map.update(oid as int, NULL_IDX));
    assert(m1.free == seq![i] + m.free);
    assert(m1.slots == m.slots);
    // Membership of the shortened level.
    assert forall|x: u32| #[trigger] q2.contains(x) <==> (q.contains(x) && x != i) by {
        if q2.contains(x) {
            let k = choose|k: int| 0 <= k < q2.len() && q2[k] == x;
            if k < j {
                assert(q[k] == x);
            } else {
                assert(q[k + 1] == x);
            }
        }
        if q.contains(x) && x != i {
            let k = choose|k: int| 0 <= k < q.len() && q[k] == x;
            if k < j {
                assert(q2[k] == x);
            } else {
                assert(k != j);
                assert(q2[k - 1] == x);
            }
        }
    }
    assert forall|s2: bool| #[trigger] m1.levels(s2).len() == m.levels(s2).len() by {}
    assert forall|s2: bool, p2: int, x: u32|
        0 <= p2 < m.levels(s2).len() implies #[trigger] m1.queue(s2, p2).contains(x) == (m.queue(s2, p2).contains(
        x,
    ) && x != i) by {
        if s2 == s && p2 == p {
            assert(m1.queue(s2, p2) == q2);
        } else {
            assert(m1.queue(s2, p2) == m.queue(s2, p2));
            if m.queue(s2, p2).contains(x) {
                let k = choose|k: int| 0 <= k < m.queue(s2, p2).len() && m.queue(s2, p2)[k] == x;
                assert(m.queue(s2, p2)[k] < m.slots.len());
            }
        }
    }
    assert(q2.no_duplicates()) by {
        assert forall|a: int, b: int| 0 <= a < q2.len() && 0 <= b < q2.len() && a != b implies q2[a] != q2[b] by {
            let a1 = if a < j { a } else { a + 1 };
            let b1 = if b < j { b } else { b + 1 };
            assert(q2[a] == q[a1] && q2[b] == q[b1]);
        }
    }
    assert(queues_sound(m1)) by {
        assert(m1.free.no_duplicates()) by {
            assert forall|a: int, b: int| 0 <= a < m1.free.len() && 0 <= b < m1.free.len() && a != b implies m1.free[a]
                != m1.free[b] by {
                if a > 0 && b > 0 {
                    assert(m1.free[a] == m.free[a - 1] && m1.free[b] == m.free[b - 1]);
                } else if a == 0 {
                    assert(m1.free[b] == m.free[b - 1]);
                } else {
                    assert(m1.free[a] == m.free[a - 1]);
                }
            }
        }
        assert forall|k: int| 0 <= k < m1.free.len() implies #[trigger] m1.free[k] < m1.slots.len() by {
            if k > 0 {
                assert(m1.free[k] == m.free[k - 1]);
            }
        }
        assert forall|s2: bool, p2: int| 0 <= p2 < m1.levels(s2).len() implies (#[trigger] m1.queue(
            s2,
            p2,
        )).no_duplicates() by {
            if !(s2 == s && p2 == p) {
                assert(m1.queue(s2, p2) == m.queue(s2, p2));
            }
        }
        assert forall|s2: bool, p2: int, k: int|
            0 <= p2 < m1.levels(s2).len() && 0 <= k < m1.queue(s2, p2).len() implies {
            let x = #[trigger] m1.queue(s2, p2)[k];
            &&& x < m1.slots.len()
            &&& m1.slots[x as int].is_bid == s2
            &&& m1.slots[x as int].price == p2
            &&& !m1.free.contains(x)
        } by {
            let x = m1.queue(s2, p2)[k];
            assert(m1.queue(s2, p2).contains(x));
            assert(m.queue(s2, p2).contains(x) && x != i);
            let t = choose|t: int| 0 <= t < m.queue(s2, p2).len() && m.queue(s2, p2)[t] == x;
            assert(m.queue(s2, p2)[t] < m.slots.len());
            if m1.free.contains(x) {
                let f = choose|f: int| 0 <= f < m1.free.len() && m1.free[f] == x;
                assert(f > 0);
                assert(m.free[f - 1] == x);
            }
        }
    }
    assert(orders_indexed(m1)) by {
        assert forall|s2: bool, p2: int, k: int|
            0 <= p2 < m1.levels(s2).len() && 0 <= k < m1.queue(s2, p2).len() implies {
            let x = #[trigger] m1.queue(s2, p2)[k];
            &&& m1.slots[x as int].order_id < m1.order_map.len()
            &&& m1.order_map[m1.slots[x as int].order_id as int] == x
        } by {
            let x = m1.queue(s2, p2)[k];
            assert(m1.queue(s2, p2).contains(x));
            assert(m.queue(s2, p2).contains(x) && x != i);
            let t = choose|t: int| 0 <= t < m.queue(s2, p2).len() && m.queue(s2, p2)[t] == x;
            assert(m.queue(s2, p2)[t] < m.slots.len());
        }
    }
    assert(index_sound(m1)) by {
        assert forall|id: int| 0 <= id < m1.order_map.len() && #[trigger] m1.order_map[id] != NULL_IDX implies {
            let x = m1.order_map[id];
            &&& x < m1.slots.len()
            &&& m1.slots[x as int].order_id == id
            &&& m1.slots[x as int].price < m1.levels(m1.slots[x as int].is_bid).len()
            &&& m1.queue(m1.slots[x as int].is_bid, m1.slots[x as int].price as int).contains(x)
        } by {
            assert(id != oid);
            assert(m.order_map[id] != NULL_IDX);
            let x = m.order_map[id];
            assert(x != i);
        }
    }
    assert(slots_accounted(m1)) by {
        assert forall|y: int|
            #![trigger m1.slots[y]]
            0 <= y < m1.slots.len() implies m1.free.contains(y as u32) || {
            &&& m1.slots[y].price < m1.levels(m1.slots[y].is_bid).len()
            &&& m1.queue(m1.slots[y].is_bid, m1.slots[y].price as int).contains(y as u32)
        } by {
            assert(m.slots[y] == m1.slots[y]);
            if y as u32 == i {
                assert(m1.free[0] == i);
            } else if m.free.contains(y as u32) {
                let f = choose|f: int| 0 <= f < m.free.len() && m.free[f] == y as u32;
                assert(m1.free[f + 1] == y as u32);
            } else {
                assert(m1.queue(m.slots[y].is_bid, m.slots[y].price as int).contains(y as u32));
            }
        }
    }
}

/// Index entries that are empty stay empty.
pub open spec fn keeps_empty_ids(m1: Market, m2: Market) -> bool {
    &&& m2.order_map.len() == m1.order_map.len()
    &&& forall|id: int| 0 <= id < m1.order_map.len() && m1.order_map[id] == NULL_IDX ==> #[trigger] m2.order_map[id] == NULL_IDX
}

proof fn lemma_no_dup_rotate(q: Seq<u32>)
    requires
        q.len() > 0,
        q.no_duplicates(),
    ensures
        q.drop_first().push(q[0]).no_duplicates(),
        forall|x: u32| q.drop_first().push(q[0]).contains(x) <==> q.contains(x),
{
    let r = q.drop_first().push(q[0]);
    assert forall|a: int, b: int| 0 <= a < r.len() && 0 <= b < r.len() && a != b implies r[a] != r[b] by {
        let a1 = if a + 1 < q.len() { a + 1 } else { 0 };
        let b1 = if b + 1 < q.len() { b + 1 } else { 0 };
        assert(r[a] == q[a1] && r[b] == q[b1]);
    }
    assert forall|x: u32| r.contains(x) <==> q.contains(x) by {
        if r.contains(x) {
            let k = choose|k: int| 0 <= k < r.len() && r[k] == x;
            if k + 1 < q.len() {
                assert(q[k + 1] == x);
            } else {
                assert(q[0] == x);
            }
        }
        if q.contains(x) {
            let k = choose|k: int| 0 <= k < q.len() && q[k] == x;
            if k == 0 {
                assert(r[q.len() - 1] == x);
            } else {
                assert(r[k - 1] == x);
            }
        }
    }
}

/// Matching at one level keeps the account of the slots, and empties no
/// index entry into a used one.
pub proof fn lemma_run_level_ledger(
    m: Market,
    is_bid: bool,
    p: int,
    agg: u32,
    ticker_id: u16,
    user_id: u16,
)
    requires
        ledger_ok(m),
    ensures
        ledger_ok(run_level(m, is_bid, p, agg, ticker_id, user_id).market),
        keeps_empty_ids(m, run_level(m, is_bid, p, agg, ticker_id, user_id).market),
    decreases agg, level_weight(m.slots, m.queue(is_bid, p)),
{
    let q = m.queue(is_bid, p);
    if !(0 <= p < m.levels(is_bid).len()) || q.len() == 0 || agg == 0 || q[0] >= m.slots.len() {
    } else {
        let i = q[0];
        let o = m.slots[i as int];
        let rest = q.drop_first();
        assert(q.remove(0) =~= rest);
        if o.user_id == user_id {
            lemma_weight_drop_first(m.slots, q);
            lemma_ledger_release(m, is_bid, p, 0);
            let m1 = m.with_queue(is_bid, p, rest).release(i);
            lemma_run_level_ledger(m1, is_bid, p, agg, ticker_id, user_id);
        } else if o.quantity <= agg {
            let agg2 = (agg - o.quantity) as u32;
            if o.hidden_quantity > 0 {
                let rep = replenish_amount(o);
                let o2 = RestingOrder {
                    quantity: rep,
                    hidden_quantity: (o.hidden_quantity - rep) as u32,
                    ..o
                };
                let m1 = m.with_queue(is_bid, p, rest.push(i)).with_slot(i, o2);
                lemma_no_dup_rotate(q);
                lemma_ledger_same_members(m, is_bid, p, rest.push(i));
                lemma_ledger_with_slot(m.with_queue(is_bid, p, rest.push(i)), i, o2);
                if rest.len() == 0 || (o.quantity == 0 && rep == 0) {
                } else {
                    if rep > 0 {
                        lemma_weight_requeue(m.slots, q, o2);
                    }
                    lemma_run_level_ledger(m1, is_bid, p, agg2, ticker_id, user_id);
                }
            } else {
                lemma_weight_drop_first(m.slots, q);
                lemma_ledger_release(m, is_bid, p, 0);
                let m1 = m.with_queue(is_bid, p, rest).release(i);
                lemma_run_level_ledger(m1, is_bid, p, agg2, ticker_id, user_id);
            }
        } else {
            let o2 = RestingOrder { quantity: (o.quantity - agg) as u32, ..o };
            lemma_ledger_with_slot(m, i, o2);
        }
    }
}

/// A buy sweep keeps the account of the slots.
pub proof fn lemma_take_asks_ledger(m: Market, price: u32, qty: u32, ticker_id: u16, user_id: u16)
    requires
        ledger_ok(m),
    ensures
        ledger_ok(take_asks(m, price, qty, ticker_id, user_id).market),
        keeps_empty_ids(m, take_asks(m, price, qty, ticker_id, user_id).market),
    decreases qty, crate::market::ask_distance(m), level_weight(m.slots, m.asks[m.best_ask as int]),
{
    if qty > 0 && m.asks.len() < NULL_IDX && m.best_ask < m.asks.len() && price >= m.best_ask {
        let b = m.best_ask as int;
        let r = run_level(m, false, b, qty, ticker_id, user_id);
        let m1 = r.market;
        let emptied = m1.asks[b].len() == 0;
        let m2 = if emptied {
            Market { best_ask: next_ask(m1.asks, b), ..m1 }
        } else {
            m1
        };
        lemma_run_level_frame(m, false, b, qty, ticker_id, user_id);
        lemma_run_level_ledger(m, false, b, qty, ticker_id, user_id);
        lemma_ledger_frame(m1, m2);
        if emptied {
            lemma_next_ask_skips(m1.asks, b);
        }
        if !emptied && r.remaining == qty && level_weight(m1.slots, m1.asks[b]) >= level_weight(
            m.slots,
            m.asks[b],
        ) {
        } else {
            lemma_take_asks_ledger(m2, price, r.remaining, ticker_id, user_id);
        }
    }
}

/// A sell sweep keeps the account of the slots.
pub proof fn lemma_take_bids_ledger(m: Market, price: u32, qty: u32, ticker_id: u16, user_id: u16)
    requires
        ledger_ok(m),
    ensures
        ledger_ok(take_bids(m, price, qty, ticker_id, user_id).market),
        keeps_empty_ids(m, take_bids(m, price, qty, ticker_id, user_id).market),
    decreases qty, crate::market::bid_distance(m), level_weight(m.slots, m.bids[m.best_bid as int]),
{
    if qty > 0 && m.best_bid > 0 && m.best_bid < m.bids.len() && price <= m.best_bid {
        let b = m.best_bid as int;
        let r = run_level(m, true, b, qty, ticker_id, user_id);
        let m1 = r.market;
        let emptied = m1.bids[b].len() == 0;
        let m2 = if emptied {
            Market { best_bid: prev_bid(m1.bids, b), ..m1 }
        } else {
            m1
        };
        lemma_run_level_frame(m, true, b, qty, ticker_id, user_id);
        lemma_run_level_ledger(m, true, b, qty, ticker_id, user_id);
        lemma_ledger_frame(m1, m2);
        if emptied {
            lemma_prev_bid_range(m1.bids, b - 1);
        }
        if !emptied && r.remaining == qty && level_weight(m1.slots, m1.bids[b]) >= level_weight(
            m.slots,
            m.bids[b],
        ) {
        } else {
            lemma_take_bids_ledger(m2, price, r.remaining, ticker_id, user_id);
        }
    }
}

/// A new resting order takes the first free slot, joins the back of its
/// level and is indexed under its unused id: the account still holds.
pub proof fn lemma_add_resting_ledger(
    m: Market,
    is_bid: bool,
    price: u32,
    order_id: u32,
    visible: u32,
    hidden_qty: u32,
    clip: u32,
    user_id: u16,
)
    requires
        ledger_ok(m),
        can_add(m, is_bid, price, order_id, visible),
        m.order_map[order_id as int] == NULL_IDX,
    ensures
        ledger_ok(add_resting(m, is_bid, price, order_id, visible, hidden_qty, clip, user_id)),
{
    let a = add_resting(m, is_bid, price, order_id, visible, hidden_qty, clip, user_id);
    let idx = m.free[0];
    let pp = price as int;
    let q = m.queue(is_bid, pp);
    let q2 = q.push(idx);
    assert(idx < m.slots.len());
    assert(a.free == m.free.drop_first());
    assert(a.order_map == m.order_map.update(order_id as int, idx));
    assert(a.slots[idx as int].order_id == order_id && a.slots[idx as int].price == price
        && a.slots[idx as int].is_bid == is_bid);
    assert(forall|j: int| 0 <= j < m.slots.len() && j != idx ==> #[trigger] a.slots[j] == m.slots[j]);
    assert(m.free.contains(idx));
    // A queued slot is never the slot taken.
    assert forall|s2: bool, p2: int, k: int|
        0 <= p2 < m.levels(s2).len() && 0 <= k < m.queue(s2, p2).len() implies #[trigger] m.queue(s2, p2)[k]
        != idx by {
        assert(!m.free.contains(m.queue(s2, p2)[k]));
    }
    assert(!q.contains(idx));
    assert forall|s2: bool| #[trigger] a.levels(s2).len() == m.levels(s2).len() by {}
    assert forall|s2: bool, p2: int, x: u32|
        0 <= p2 < m.levels(s2).len() implies #[trigger] a.queue(s2, p2).contains(x) == (m.queue(s2, p2).contains(x)
        || (s2 == is_bid && p2 == pp && x == idx)) by {
        if s2 == is_bid && p2 == pp {
            assert(a.queue(s2, p2) == q2);
            if q2.contains(x) {
                let k = choose|k: int| 0 <= k < q2.len() && q2[k] == x;
                if k < q.len() {
                    assert(q[k] == x);
                }
            }
            if q.contains(x) {
                let k = choose|k: int| 0 <= k < q.len() && q[k] == x;
                assert(q2[k] == x);
            }
            assert(q2[q.len() as int] == idx);
        } else {
            assert(a.queue(s2, p2) == m.queue(s2, p2));
        }
    }
    assert(forall|x: u32| #[trigger] a.free.contains(x) ==> m.free.contains(x) && x != idx) by {
        assert forall|x: u32| #[trigger] a.free.contains(x) implies m.free.contains(x) && x != idx by {
            let f = choose|f: int| 0 <= f < a.free.len() && a.free[f] == x;
            assert(m.free[f + 1] == x);
        }
    }
    assert(queues_sound(a)) by {
        assert forall|k: int| 0 <= k < a.free.len() implies #[trigger] a.free[k] < a.slots.len() by {
            assert(a.free[k] == m.free[k + 1]);
        }
        assert forall|s2: bool, p2: int| 0 <= p2 < a.levels(s2).len() implies (#[trigger] a.queue(s2, p2)).no_duplicates() by {
            if s2 == is_bid && p2 == pp {
                assert(a.queue(s2, p2) == q2);
                assert forall|x: int, y: int| 0 <= x < q2.len() && 0 <= y < q2.len() && x != y implies q2[x] != q2[y] by {
                    if x < q.len() && y < q.len() {
                    } else if x < q.len() {
                        assert(q[x] != idx);
                    } else {
                        assert(q[y] != idx);
                    }
                }
            } else {
                assert(a.queue(s2, p2) == m.queue(s2, p2));
            }
        }
        assert forall|s2: bool, p2: int, k: int|
            0 <= p2 < a.levels(s2).len() && 0 <= k < a.queue(s2, p2).len() implies {
            let x = #[trigger] a.queue(s2, p2)[k];
            &&& x < a.slots.len()
            &&& a.slots[x as int].is_bid == s2
            &&& a.slots[x as int].price == p2
            &&& !a.free.contains(x)
        } by {
            let x = a.queue(s2, p2)[k];
            assert(a.queue(s2, p2).contains(x));
            if x != idx {
                assert(m.queue(s2, p2).contains(x));
                let t = choose|t: int| 0 <= t < m.queue(s2, p2).len() && m.queue(s2, p2)[t] == x;
                assert(m.queue(s2, p2)[t] < m.slots.len());
            }
        }
    }
    assert(index_sound(a)) by {
        assert forall|id: int| 0 <= id < a.order_map.len() && #[trigger] a.order_map[id] != NULL_IDX implies {
            let x = a.order_map[id];
            &&& x < a.slots.len()
            &&& a.slots[x as int].order_id == id
            &&& a.slots[x as int].price < a.levels(a.slots[x as int].is_bid).len()
            &&& a.queue(a.slots[x as int].is_bid, a.slots[x as int].price as int).contains(x)
        } by {
            if id != order_id {
                assert(m.order_map[id] != NULL_IDX);
                let x = m.order_map[id];
                let j = choose|j: int| 0 <= j < m.queue(m.slots[x as int].is_bid, m.slots[x as int].price as int).len()
                    && m.queue(m.slots[x as int].is_bid, m.slots[x as int].price as int)[j] == x;
                assert(x != idx);
            }
        }
    }
    assert(orders_indexed(a)) by {
        assert forall|s2: bool, p2: int, k: int|
            0 <= p2 < a.levels(s2).len() && 0 <= k < a.queue(s2, p2).len() implies {
            let x = #[trigger] a.queue(s2, p2)[k];
            &&& a.slots[x as int].order_id < a.order_map.len()
            &&& a.order_map[a.slots[x as int].order_id as int] == x
        } by {
            let x = a.queue(s2, p2)[k];
            assert(a.queue(s2, p2).contains(x));
            if x != idx {
                assert(m.queue(s2, p2).contains(x));
                let t = choose|t: int| 0 <= t < m.queue(s2, p2).len() && m.queue(s2, p2)[t] == x;
                assert(m.queue(s2, p2)[t] < m.slots.len());
                assert(m.slots[x as int].order_id != order_id);
            }
        }
    }
    assert(slots_accounted(a)) by {
        assert forall|y: int|
            #![trigger a.slots[y]]
            0 <= y < a.slots.len() implies a.free.contains(y as u32) || {
            &&& a.slots[y].price < a.levels(a.slots[y].is_bid).len()
            &&& a.queue(a.slots[y].is_bid, a.slots[y].price as int).contains(y as u32)
        } by {
            if y as u32 == idx {
                assert(a.queue(is_bid, pp).contains(idx));
            } else {
                assert(a.slots[y] == m.slots[y]);
                if m.free.contains(y as u32) {
                    let f = choose|f: int| 0 <= f < m.free.len() && m.free[f] == y as u32;
                    assert(f > 0);
                    assert(a.free[f - 1] == y as u32);
                } else {
                    assert(a.queue(m.slots[y].is_bid, m.slots[y].price as int).contains(y as u32));
                }
            }
        }
    }
}

/// A limit order's id is unused: no order rests under it.
pub open spec fn fresh_id(m: Market, order_type: u8, order_id: u32) -> bool {
    order_type == TYPE_LIMIT && order_id < m.order_map.len() ==> m.order_map[order_id as int] == NULL_IDX
}

/// An incoming order keeps the account of the slots, provided a limit
/// order comes under an unused id.
pub proof fn lemma_process_ledger(
    m: Market,
    is_bid: bool,
    price: u32,
    order_id: u32,
    total: u32,
    display: u32,
    order_type: u8,
    ticker_id: u16,
    user_id: u16,
)
    requires
        ledger_ok(m),
        process_ok(m, is_bid, price, order_id, total, display, order_type, ticker_id, user_id),
        fresh_id(m, order_type, order_id),
    ensures
        ledger_ok(process(m, is_bid, price, order_id, total, display, order_type, ticker_id, user_id).0),
{
    let r = matching(m, is_bid, price, total, ticker_id, user_id);
    if is_bid {
        lemma_take_asks_ledger(m, price, total, ticker_id, user_id);
    } else {
        lemma_take_bids_ledger(m, price, total, ticker_id, user_id);
    }
    if r.remaining > 0 && order_type == TYPE_LIMIT {
        let clip = clip_of(r.remaining, display);
        assert(r.market.order_map[order_id as int] == NULL_IDX);
        lemma_add_resting_ledger(
            r.market,
            is_bid,
            price,
            order_id,
            clip,
            (r.remaining - clip) as u32,
            clip,
            user_id,
        );
    }
}

/// A cancel keeps the account of the slots, and a cancelled order's id is
/// unused afterwards.
pub proof fn lemma_cancel_ledger(m: Market, order_id: u32, user_id: u16, ticker_id: u16)
    requires
        ledger_ok(m),
    ensures
        ledger_ok(cancel(m, order_id, user_id, ticker_id).0),
        cancel(m, order_id, user_id, ticker_id).0.order_map.len() == m.order_map.len(),
        ({
            let c = cancel(m, order_id, user_id, ticker_id).0;
            (order_id < m.order_map.len() && m.order_map[order_id as int] != NULL_IDX
                && m.slots[m.order_map[order_id as int] as int].user_id == user_id)
                ==> c.order_map[order_id as int] == NULL_IDX
        }),
{
    if order_id >= m.order_map.len() || m.order_map[order_id as int] == NULL_IDX {
    } else {
        let idx = m.order_map[order_id as int];
        let o = m.slots[idx as int];
        if o.user_id != user_id {
        } else {
            let p = o.price as int;
            let q = m.queue(o.is_bid, p);
            assert(q.contains(idx));
            let j = q.index_of(idx);
            lemma_ledger_release(m, o.is_bid, p, j);
            let m1 = m.with_queue(o.is_bid, p, q.remove(j)).release(idx);
            lemma_ledger_frame(m1, cancel(m, order_id, user_id, ticker_id).0);
        }
    }
}

/// A modification keeps the account of the slots.
pub proof fn lemma_modify_ledger(
    m: Market,
    order_id: u32,
    is_bid: bool,
    new_price: u32,
    new_quantity: u32,
    user_id: u16,
    ticker_id: u16,
)
    requires
        ledger_ok(m),
        modify_ok(m, order_id, is_bid, new_price, new_quantity, user_id, ticker_id),
    ensures
        ledger_ok(modify(m, order_id, is_bid, new_price, new_quantity, user_id, ticker_id).0),
{
    if order_id >= m.order_map.len() {
    } else if m.order_map[order_id as int] == NULL_IDX {
        lemma_process_ledger(m, is_bid, new_price, order_id, new_quantity, new_quantity, TYPE_LIMIT, ticker_id, user_id);
    } else {
        let idx = m.order_map[order_id as int];
        let o = m.slots[idx as int];
        if o.user_id != user_id {
        } else if o.price == new_price && new_quantity <= o.quantity {
            lemma_ledger_with_slot(m, idx, RestingOrder { quantity: new_quantity, ..o });
        } else {
            lemma_cancel_ledger(m, order_id, user_id, ticker_id);
            let c = cancel(m, order_id, user_id, ticker_id);
            lemma_process_ledger(
                c.0,
                o.is_bid,
                new_price,
                order_id,
                new_quantity,
                new_quantity,
                TYPE_LIMIT,
                ticker_id,
                user_id,
            );
        }
    }
}

/// Every message keeps the account of the slots: each slot stays free or
/// resting once in its level, and each resting order stays indexed under
/// its id, provided a limit order comes under an unused id.
pub proof fn lemma_dispatch_ledger(m: Market, msg: OrderMessage)
    requires
        ledger_ok(m),
        dispatch_ok(m, msg),
        fresh_id(m, msg.order_type, msg.order_id),
    ensures
        ledger_ok(dispatch(m, msg).0),
{
    if msg.order_type == TYPE_CANCEL {
        lemma_cancel_ledger(m, msg.order_id, msg.user_id, msg.ticker_id);
    } else if msg.order_type == TYPE_MODIFY {
        lemma_modify_ledger(m, msg.order_id, msg.is_bid, msg.price, msg.quantity, msg.user_id, msg.ticker_id);
    } else {
        lemma_process_ledger(
            m,
            msg.is_bid,
            msg.price,
            msg.order_id,
            msg.quantity,
            msg.display_quantity,
            msg.order_type,
            msg.ticker_id,
            msg.user_id,
        );
    }
}

/// A sound book's queues and index agree with its pool.
pub proof fn lemma_book_queues_sound(book: &OrderBook, pool: &OrderPool)
    requires
        book.wf(pool),
    ensures
        queues_sound(book.market(pool)),
        index_sound(book.market(pool)),
{
    let m = book.market(pool);
    book.lemma_market_valid(pool);
    book.lemma_market_sound(pool);
    assert forall|s: bool| #[trigger] m.levels(s).len() == m.bids.len() by {}
    assert forall|s: bool, p: int, k: int|
        0 <= p < m.levels(s).len() && 0 <= k < m.queue(s, p).len() implies {
        let i = #[trigger] m.queue(s, p)[k];
        &&& i < m.slots.len()
        &&& m.slots[i as int].is_bid == s
        &&& m.slots[i as int].price == p
        &&& !m.free.contains(i)
    } by {
        let i = m.queue(s, p)[k];
        if m.free.contains(i) {
            let f = choose|f: int| 0 <= f < m.free.len() && m.free[f] == i;
            assert(m.queue(s, p).contains(m.free[f]));
        }
    }
    assert forall|s: bool, p: int| 0 <= p < m.levels(s).len() implies (#[trigger] m.queue(s, p)).no_duplicates() by {}
}

/// The market of a new book and a new pool: every slot free, no order
/// resting, the index empty.
pub proof fn lemma_empty_market_ledger(levels: nat, capacity: nat)
    requires
        capacity <= NULL_IDX,
    ensures
        ledger_ok(empty_market(levels, capacity)),
{
    let m = empty_market(levels, capacity);
    assert forall|s: bool, p: int| 0 <= p < m.levels(s).len() implies #[trigger] m.queue(s, p) == Seq::<u32>::empty() by {}
    assert forall|i: int|
        #![trigger m.slots[i]]
        0 <= i < m.slots.len() implies m.free.contains(i as u32) || {
        &&& m.slots[i].price < m.levels(m.slots[i].is_bid).len()
        &&& m.queue(m.slots[i].is_bid, m.slots[i].price as int).contains(i as u32)
    } by {
        assert(m.free[i] == i as u32);
    }
    assert(m.free.no_duplicates());
}

/// On a sound book whose slots are all free or resting and whose resting
/// orders are all indexed, every message keeps it so, provided a limit
/// order comes under an unused id: afterwards every slot is either free or
/// rests once in the level of its side and price, and every resting order
/// is found through the index under its id.
pub proof fn lemma_book_dispatch_ledger(book: &OrderBook, pool: &OrderPool, msg: OrderMessage)
    requires
        book.wf(pool),
        slots_accounted(book.market(pool)),
        orders_indexed(book.market(pool)),
        dispatch_ok(book.market(pool), msg),
        fresh_id(book.market(pool), msg.order_type, msg.order_id),
    ensures
        ledger_ok(dispatch(book.market(pool), msg).0),
{
    lemma_book_queues_sound(book, pool);
    lemma_dispatch_ledger(book.market(pool), msg);
}

} // verus!
