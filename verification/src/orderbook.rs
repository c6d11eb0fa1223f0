//! The order book of one instrument: one FIFO price level per price tick on
//! each side, linked through the slots of an `OrderPool`, with bitmaps of the
//! non-empty levels to find the next best price.
use vstd::prelude::*;
use crate::pool::{OrderPool, Order, NULL_IDX};
use crate::market::{
    Market, RestingOrder, resting, run_level, next_ask, prev_bid, volume, qty_at,
    lemma_volume_frame, lemma_volume_push, lemma_volume_remove, lemma_volume_update, level_step,
    level_weight, hidden, lemma_weight_drop_first, lemma_weight_requeue, lemma_hidden_push,
    lemma_run_level_unfold, take_asks, take_bids, ask_distance, bid_distance, lemma_run_level_progress,
    lemma_run_level_frame, lemma_next_ask_skips, lemma_prev_bid_range,
    lemma_next_ask_is, lemma_next_ask_none, lemma_prev_bid_is, lemma_prev_bid_none, add_resting,
    can_add, cancel, cancel_event, process, process_ok, matching, modify, modify_ok,
};
use crate::bits::{bit, lemma_bit_set, lemma_bit_clear, lemma_bits_from, lemma_bits_upto, lemma_zero_word_no_bits};

verus! {

pub const TYPE_LIMIT: u8 = 0;
pub const TYPE_IOC: u8 = 1;
pub const TYPE_FOK: u8 = 2;
pub const TYPE_CANCEL: u8 = 3;
pub const TYPE_MODIFY: u8 = 4;

/// A message on the market-data feed: a trade (1), a cancel (3) or a
/// modification in place (4).
#[derive(Debug, Clone, Copy)]
pub struct MarketDataEvent {
    pub event_type: u8,
    pub ticker_id: u16,
    pub price: u32,
    pub quantity: u32,
}

impl Default for MarketDataEvent {
    fn default() -> (e: Self)
        ensures
            e == (MarketDataEvent { event_type: 0, ticker_id: 0, price: 0, quantity: 0 }),
    {
        MarketDataEvent { event_type: 0, ticker_id: 0, price: 0, quantity: 0 }
    }
}

#[derive(Debug, Clone, Copy)]
pub struct PriceLevel {
    pub price: u32,
    pub volume: u32,
    pub order_count: u32,
    pub head_idx: u32,
    pub tail_idx: u32,
}

impl PriceLevel {
    pub open spec fn empty_at(price: u32) -> PriceLevel {
        PriceLevel { price, volume: 0, order_count: 0, head_idx: NULL_IDX, tail_idx: NULL_IDX }
    }

    pub fn new(price: u32) -> (l: Self)
        ensures
            l == PriceLevel::empty_at(price),
    {
        PriceLevel { price, volume: 0, order_count: 0, head_idx: NULL_IDX, tail_idx: NULL_IDX }
    }
}

pub struct OrderBook {
    pub bids: Vec<PriceLevel>,
    pub asks: Vec<PriceLevel>,
    pub best_bid: u32,
    pub best_ask: u32,
    order_map: Vec<u32>,
    bid_bitmask: Vec<u64>,
    ask_bitmask: Vec<u64>,
    bid_queues: Ghost<Seq<Seq<u32>>>,
    ask_queues: Ghost<Seq<Seq<u32>>>,
}

/// The slots of a pool seen without their links.
pub open spec fn view_slots(s: Seq<Order>) -> Seq<RestingOrder> {
    s.map_values(|o: Order| resting(o))
}

/// Whether level `p` is marked non-empty in a bitmap.
pub open spec fn level_bit(words: Seq<u64>, p: int) -> bool {
    bit(words[p / 64], (p % 64) as u64)
}

/// Node `k` of the queue `q` of level (`is_bid`, `p`) is a live order of
/// that level, linked to its neighbours in `q`.
pub open spec fn node_ok(
    slots: Seq<Order>,
    free: Seq<u32>,
    q: Seq<u32>,
    k: int,
    is_bid: bool,
    p: int,
    map_len: int,
) -> bool {
    let i = q[k];
    let o = slots[i as int];
    &&& i < slots.len()
    &&& !free.contains(i)
    &&& o.price == p
    &&& o.is_bid == is_bid
    &&& o.hidden_quantity > 0 ==> o.display_clip > 0
    &&& o.order_id < map_len
    &&& o.next_idx == (if k + 1 < q.len() { q[k + 1] } else { NULL_IDX })
    &&& o.prev_idx == (if k > 0 { q[k - 1] } else { NULL_IDX })
}

/// A price level's fields summarize its queue, whose nodes are all sound.
#[verifier::opaque]
pub open spec fn level_ok(
    lvl: PriceLevel,
    q: Seq<u32>,
    slots: Seq<Order>,
    free: Seq<u32>,
    is_bid: bool,
    p: int,
    map_len: int,
) -> bool {
    &&& lvl.price == p
    &&& lvl.order_count == q.len()
    &&& lvl.volume == volume(view_slots(slots), q)
    &&& (q.len() == 0 ==> lvl.head_idx == NULL_IDX && lvl.tail_idx == NULL_IDX)
    &&& (q.len() > 0 ==> lvl.head_idx == q[0] && lvl.tail_idx == q.last())
    &&& q.no_duplicates()
    &&& forall|k: int| 0 <= k < q.len() ==> #[trigger] node_ok(slots, free, q, k, is_bid, p, map_len)
}

/// The bitmap marks exactly the non-empty levels.
pub open spec fn bitmap_ok(words: Seq<u64>, qs: Seq<Seq<u32>>) -> bool {
    &&& words.len() == qs.len() / 64 + 1
    &&& forall|p: int| 0 <= p < qs.len() ==> #[trigger] level_bit(words, p) == (qs[p].len() > 0)
    &&& forall|p: int| qs.len() <= p < words.len() * 64 ==> !#[trigger] level_bit(words, p)
}

impl OrderBook {
    pub closed spec fn queues(&self, is_bid: bool) -> Seq<Seq<u32>> {
        if is_bid {
            self.bid_queues@
        } else {
            self.ask_queues@
        }
    }

    pub closed spec fn bitmask(&self, is_bid: bool) -> Seq<u64> {
        if is_bid {
            self.bid_bitmask@
        } else {
            self.ask_bitmask@
        }
    }

    pub closed spec fn best_bid_of(&self) -> u32 {
        self.best_bid
    }

    pub closed spec fn best_ask_of(&self) -> u32 {
        self.best_ask
    }

    pub closed spec fn map(&self) -> Seq<u32> {
        self.order_map@
    }

    pub closed spec fn levels(&self, is_bid: bool) -> Seq<PriceLevel> {
        if is_bid {
            self.bids@
        } else {
            self.asks@
        }
    }

    /// The book and its pool seen as a `Market`.
    pub open spec fn market(&self, pool: &OrderPool) -> Market {
        Market {
            bids: self.queues(true),
            asks: self.queues(false),
            slots: view_slots(pool.slots()),
            free: pool.free_list(),
            order_map: self.map(),
            best_bid: self.best_bid_of(),
            best_ask: self.best_ask_of(),
        }
    }

    /// Every level is sound and agrees with its queue.
    #[verifier::opaque]
    pub closed spec fn structure_ok(&self, pool: &OrderPool) -> bool {
        let n = self.bids@.len();
        &&& pool.wf()
        &&& n < NULL_IDX
        &&& self.asks@.len() == n
        &&& self.queues(true).len() == n
        &&& self.queues(false).len() == n
        &&& self.bitmask(true).len() == n / 64 + 1
        &&& self.bitmask(false).len() == n / 64 + 1
        &&& forall|is_bid: bool, p: int|
            0 <= p < n ==> #[trigger] level_ok(
                self.levels(is_bid)[p],
                self.queues(is_bid)[p],
                pool.slots(),
                pool.free_list(),
                is_bid,
                p,
                self.map().len() as int,
            )
    }

    /// Every index entry names a slot holding that order id, which rests in
    /// its level, except perhaps slot `except`.
    #[verifier::opaque]
    pub closed spec fn map_ok(&self, pool: &OrderPool, except: u32) -> bool {
        forall|id: int|
            0 <= id < self.map().len() && #[trigger] self.map()[id] != NULL_IDX ==> {
                let i = self.map()[id];
                let o = pool.slots()[i as int];
                &&& i < pool.slots().len()
                &&& o.order_id == id
                &&& (i != except ==> o.price < self.bids@.len() && self.queues(o.is_bid)[o.price as int].contains(i))
            }
    }

    /// The bitmaps mark the non-empty levels; the best prices are the highest
    /// non-empty bid level and the lowest non-empty ask level.
    #[verifier::opaque]
    pub closed spec fn index_ok(&self) -> bool {
        &&& bitmap_ok(self.bitmask(true), self.queues(true))
        &&& bitmap_ok(self.bitmask(false), self.queues(false))
        &&& self.best_bid == prev_bid(self.queues(true), self.bids@.len() - 1)
        &&& self.best_ask == next_ask(self.queues(false), 0)
    }

    #[verifier::opaque]
    pub closed spec fn wf(&self, pool: &OrderPool) -> bool {
        &&& self.structure_ok(pool)
        &&& self.map_ok(pool, NULL_IDX)
        &&& self.index_ok()
    }

    /// An empty book with `max_price_ticks` price levels per side and an
    /// index for order ids below `max_orders`.
    pub fn new(max_price_ticks: usize, max_orders: usize) -> (b: Self)
        requires
            max_price_ticks < NULL_IDX,
        ensures
            b.levels(true).len() == max_price_ticks,
            b.levels(false).len() == max_price_ticks,
            forall|p: int|
                0 <= p < max_price_ticks ==> #[trigger] b.levels(true)[p] == PriceLevel::empty_at(p as u32),
            forall|p: int|
                0 <= p < max_price_ticks ==> #[trigger] b.levels(false)[p] == PriceLevel::empty_at(p as u32),
            b.best_bid_of() == 0,
            b.best_ask_of() == NULL_IDX,
            b.queues(true) == Seq::new(max_price_ticks as nat, |p: int| Seq::<u32>::empty()),
            b.queues(false) == Seq::new(max_price_ticks as nat, |p: int| Seq::<u32>::empty()),
            b.map() == Seq::new(max_orders as nat, |i: int| NULL_IDX),
            forall|pool: OrderPool| pool.wf() ==> #[trigger] b.wf(&pool),
    {
        let mut bids = vec![PriceLevel::new(0); max_price_ticks];
        let mut asks = vec![PriceLevel::new(0); max_price_ticks];
        let mut i: usize = 0;
        while i < max_price_ticks
            invariant
                max_price_ticks < NULL_IDX,
                bids@.len() == max_price_ticks,
                asks@.len() == max_price_ticks,
                i <= max_price_ticks,
                forall|p: int| 0 <= p < i ==> #[trigger] bids@[p] == PriceLevel::empty_at(p as u32),
                forall|p: int| 0 <= p < i ==> #[trigger] asks@[p] == PriceLevel::empty_at(p as u32),
                forall|p: int| i <= p < max_price_ticks ==> #[trigger] bids@[p] == PriceLevel::empty_at(0),
                forall|p: int| i <= p < max_price_ticks ==> #[trigger] asks@[p] == PriceLevel::empty_at(0),
            decreases max_price_ticks - i,
        {
            let mut l = bids[i];
            l.price = i as u32;
            bids.set(i, l);
            let mut l = asks[i];
            l.price = i as u32;
            asks.set(i, l);
            i = i + 1;
        }
        let mask_len = (max_price_ticks / 64) + 1;
        let ghost qs = Seq::new(max_price_ticks as nat, |p: int| Seq::<u32>::empty());
        let b = OrderBook {
            bids,
            asks,
            best_bid: 0,
            best_ask: NULL_IDX,
            order_map: vec![NULL_IDX; max_orders],
            bid_bitmask: vec![0; mask_len],
            ask_bitmask: vec![0; mask_len],
            bid_queues: Ghost(qs),
            ask_queues: Ghost(qs),
        };
        proof {
            reveal(OrderBook::structure_ok);
            reveal(OrderBook::map_ok);
            reveal(OrderBook::index_ok);
            reveal(OrderBook::wf);
            assert(b.map() =~= Seq::new(max_orders as nat, |i: int| NULL_IDX));
            lemma_zero_word_no_bits();
            assert forall|is_bid: bool| #[trigger] bitmap_ok(b.bitmask(is_bid), b.queues(is_bid)) by {
                assert forall|p: int| 0 <= p < b.bitmask(is_bid).len() * 64 implies !#[trigger] level_bit(
                    b.bitmask(is_bid),
                    p,
                ) by {
                    assert(b.bitmask(is_bid)[p / 64] == 0);
                    assert(!bit(0, (p % 64) as u64));
                }
            }
            lemma_prev_bid_none(qs, max_price_ticks - 1);
            lemma_next_ask_none(qs, 0);
            assert forall|pool: OrderPool| pool.wf() implies #[trigger] b.wf(&pool) by {
                assert forall|is_bid: bool, p: int| 0 <= p < max_price_ticks implies #[trigger] level_ok(
                    b.levels(is_bid)[p],
                    b.queues(is_bid)[p],
                    pool.slots(),
                    pool.free_list(),
                    is_bid,
                    p,
                    b.map().len() as int,
                ) by {
                    reveal(level_ok);
                    assert(volume(view_slots(pool.slots()), b.queues(is_bid)[p]) == 0);
                }
            }
        }
        b
    }

    fn set_bit(&mut self, is_bid: bool, price: u32)
        requires
            (price as int) / 64 < old(self).bitmask(is_bid).len(),
        ensures
            final(self).bitmask(is_bid).len() == old(self).bitmask(is_bid).len(),
            forall|p: int|
                0 <= p < old(self).bitmask(is_bid).len() * 64 ==> #[trigger] level_bit(
                    final(self).bitmask(is_bid),
                    p,
                ) == (p == price || level_bit(old(self).bitmask(is_bid), p)),
            final(self).bitmask(!is_bid) == old(self).bitmask(!is_bid),
            final(self).bids == old(self).bids,
            final(self).asks == old(self).asks,
            final(self).best_bid == old(self).best_bid,
            final(self).best_ask == old(self).best_ask,
            final(self).map() == old(self).map(),
            final(self).queues(true) == old(self).queues(true),
            final(self).queues(false) == old(self).queues(false),
    {
        let idx = (price / 64) as usize;
        let b = price % 64;
        if is_bid {
            let w = self.bid_bitmask[idx] | (1u64 << b);
            self.bid_bitmask.set(idx, w);
        } else {
            let w = self.ask_bitmask[idx] | (1u64 << b);
            self.ask_bitmask.set(idx, w);
        }
        proof {
            let ow = old(self).bitmask(is_bid);
            let nw = self.bitmask(is_bid);
            assert forall|p: int| 0 <= p < ow.len() * 64 implies #[trigger] level_bit(nw, p) == (p == price
                || level_bit(ow, p)) by {
                if p / 64 == idx {
                    lemma_bit_set(ow[idx as int], b as u64, (p % 64) as u64);
                }
            }
        }
    }

    fn clear_bit(&mut self, is_bid: bool, price: u32)
        requires
            (price as int) / 64 < old(self).bitmask(is_bid).len(),
        ensures
            final(self).bitmask(is_bid).len() == old(self).bitmask(is_bid).len(),
            forall|p: int|
                0 <= p < old(self).bitmask(is_bid).len() * 64 ==> #[trigger] level_bit(
                    final(self).bitmask(is_bid),
                    p,
                ) == (p != price && level_bit(old(self).bitmask(is_bid), p)),
            final(self).bitmask(!is_bid) == old(self).bitmask(!is_bid),
            final(self).bids == old(self).bids,
            final(self).asks == old(self).asks,
            final(self).best_bid == old(self).best_bid,
            final(self).best_ask == old(self).best_ask,
            final(self).map() == old(self).map(),
            final(self).queues(true) == old(self).queues(true),
            final(self).queues(false) == old(self).queues(false),
    {
        let idx = (price / 64) as usize;
        let b = price % 64;
        if is_bid {
            let w = self.bid_bitmask[idx] & !(1u64 << b);
            self.bid_bitmask.set(idx, w);
        } else {
            let w = self.ask_bitmask[idx] & !(1u64 << b);
            self.ask_bitmask.set(idx, w);
        }
        proof {
            let ow = old(self).bitmask(is_bid);
            let nw = self.bitmask(is_bid);
            assert forall|p: int| 0 <= p < ow.len() * 64 implies #[trigger] level_bit(nw, p) == (p != price
                && level_bit(ow, p)) by {
                if p / 64 == idx {
                    lemma_bit_clear(ow[idx as int], b as u64, (p % 64) as u64);
                }
            }
        }
    }

    /// The lowest non-empty ask level at or above `current`.
    fn find_next_ask(&self, current: u32) -> (r: u32)
        requires
            self.queues(false).len() < NULL_IDX,
            bitmap_ok(self.bitmask(false), self.queues(false)),
            current == NULL_IDX || current / 64 < self.bitmask(false).len(),
        ensures
            r == next_ask(self.queues(false), current as int),
    {
        let ghost qs = self.queues(false);
        let ghost words = self.bitmask(false);
        if current == NULL_IDX {
            return NULL_IDX;
        }
        let mut idx = (current / 64) as usize;
        let b = current % 64;
        proof {
            lemma_bits_from(0, b as u64, 0);
        }
        let mut mask = self.ask_bitmask[idx] & !((1u64 << b) - 1);
        proof {
            assert forall|j: u64| j < 64 implies #[trigger] bit(mask, j) == (idx * 64 + j >= current
                && level_bit(words, idx * 64 + j)) by {
                lemma_bits_from(words[idx as int], b as u64, j);
                assert((idx * 64 + j) / 64 == idx);
                assert((idx * 64 + j) % 64 == j);
            }
        }
        let last = self.ask_bitmask.len() - 1;
        while mask == 0 && idx < last
            invariant
                qs == self.queues(false),
                words == self.bitmask(false),
                bitmap_ok(words, qs),
                qs.len() < NULL_IDX,
                current / 64 < words.len(),
                last == words.len() - 1,
                current / 64 <= idx <= last,
                forall|j: u64| j < 64 ==> #[trigger] bit(mask, j) == (idx * 64 + j >= current
                    && level_bit(words, idx * 64 + j)),
                forall|p: int| current <= p < idx * 64 ==> !#[trigger] level_bit(words, p),
            decreases last - idx,
        {
            proof {
                lemma_zero_word_no_bits();
                assert forall|p: int| current <= p < (idx + 1) * 64 implies !#[trigger] level_bit(words, p) by {
                    if p >= idx * 64 {
                        assert(!bit(mask, (p - idx * 64) as u64));
                        assert(p / 64 == idx);
                        assert(p % 64 == p - idx * 64);
                    }
                }
            }
            idx = idx + 1;
            mask = self.ask_bitmask[idx];
            proof {
                assert forall|j: u64| j < 64 implies #[trigger] bit(mask, j) == (idx * 64 + j >= current
                    && level_bit(words, idx * 64 + j)) by {
                    assert((idx * 64 + j) / 64 == idx);
                    assert((idx * 64 + j) % 64 == j);
                }
            }
        }
        if mask == 0 {
            proof {
                lemma_zero_word_no_bits();
                assert forall|p: int| current <= p < qs.len() implies #[trigger] qs[p].len() == 0 by {
                    assert(level_bit(words, p) == (qs[p].len() > 0));
                    if p >= idx * 64 {
                        assert(!bit(mask, (p - idx * 64) as u64));
                        assert(p / 64 == idx);
                        assert(p % 64 == p - idx * 64);
                    }
                }
                lemma_next_ask_none(qs, current as int);
            }
            return NULL_IDX;
        }
        let t = mask.trailing_zeros();
        proof {
            broadcast use vstd::std_specs::bits::axiom_u64_trailing_zeros;

            assert(t < 64);
            assert(bit(mask, t as u64));
            let r = idx * 64 + t;
            assert(r / 64 == idx && r % 64 == t);
            assert(level_bit(words, r));
            assert(r < qs.len());
            assert forall|p: int| current <= p < r implies #[trigger] qs[p].len() == 0 by {
                assert(level_bit(words, p) == (qs[p].len() > 0));
                if p >= idx * 64 {
                    let j = (p - idx * 64) as u64;
                    assert(!bit(mask, j));
                    assert(p / 64 == idx);
                    assert(p % 64 == j);
                }
            }
            lemma_next_ask_is(qs, current as int, r);
        }
        (idx as u32 * 64) + t
    }

    /// The highest non-empty bid level at or below `current` (0 when none).
    fn find_next_bid(&self, current: u32) -> (r: u32)
        requires
            self.queues(true).len() < NULL_IDX,
            bitmap_ok(self.bitmask(true), self.queues(true)),
            current == 0 || current / 64 < self.bitmask(true).len(),
        ensures
            r == prev_bid(self.queues(true), current as int),
    {
        let ghost qs = self.queues(true);
        let ghost words = self.bitmask(true);
        if current == 0 {
            return 0;
        }
        let mut idx = (current / 64) as usize;
        let b = current % 64;
        let mut mask = if b == 63 {
            self.bid_bitmask[idx]
        } else {
            proof {
                lemma_bits_upto(0, b as u64, 0);
            }
            self.bid_bitmask[idx] & ((1u64 << (b + 1)) - 1)
        };
        proof {
            assert forall|j: u64| j < 64 implies #[trigger] bit(mask, j) == (idx * 64 + j <= current
                && level_bit(words, idx * 64 + j)) by {
                if b != 63 {
                    lemma_bits_upto(words[idx as int], b as u64, j);
                }
                assert((idx * 64 + j) / 64 == idx);
                assert((idx * 64 + j) % 64 == j);
            }
        }
        while mask == 0 && idx > 0
            invariant
                qs == self.queues(true),
                words == self.bitmask(true),
                bitmap_ok(words, qs),
                qs.len() < NULL_IDX,
                0 < current,
                current / 64 < words.len(),
                idx <= current / 64,
                forall|j: u64| j < 64 ==> #[trigger] bit(mask, j) == (idx * 64 + j <= current
                    && level_bit(words, idx * 64 + j)),
                forall|p: int| (idx + 1) * 64 <= p <= current ==> !#[trigger] level_bit(words, p),
            decreases idx,
        {
            proof {
                lemma_zero_word_no_bits();
                assert forall|p: int| idx * 64 <= p <= current implies !#[trigger] level_bit(words, p) by {
                    if p < (idx + 1) * 64 {
                        assert(!bit(mask, (p - idx * 64) as u64));
                        assert(p / 64 == idx);
                        assert(p % 64 == p - idx * 64);
                    }
                }
            }
            idx = idx - 1;
            mask = self.bid_bitmask[idx];
            proof {
                assert forall|j: u64| j < 64 implies #[trigger] bit(mask, j) == (idx * 64 + j <= current
                    && level_bit(words, idx * 64 + j)) by {
                    assert((idx * 64 + j) / 64 == idx);
                    assert((idx * 64 + j) % 64 == j);
                }
            }
        }
        if mask == 0 {
            proof {
                lemma_zero_word_no_bits();
                let top = if current < qs.len() { current as int } else { qs.len() - 1 };
                assert forall|p: int| 0 < p <= top implies #[trigger] qs[p].len() == 0 by {
                    assert(level_bit(words, p) == (qs[p].len() > 0));
                    if p < 64 {
                        assert(!bit(mask, p as u64));
                        assert(p / 64 == 0);
                        assert(p % 64 == p);
                    }
                }
                if qs.len() > 0 {
                    lemma_prev_bid_none(qs, top);
                }
                lemma_prev_bid_above(qs, current as int);
            }
            return 0;
        }
        let lz = mask.leading_zeros();
        proof {
            broadcast use vstd::std_specs::bits::axiom_u64_leading_zeros;

            assert(lz < 64);
            let t = (63 - lz) as u64;
            assert(bit(mask, t)) by {
                assert((mask >> (63u64 - lz as u64) as u64) & 1u64 != 0u64);
                assert(((mask >> t) & 1u64) != 0u64 ==> ((mask >> t) & 1u64) == 1u64) by (bit_vector);
            }
            let r = idx * 64 + t;
            assert(r / 64 == idx && r % 64 == t);
            assert(level_bit(words, r));
            assert(r < qs.len());
            let top = if current < qs.len() { current as int } else { qs.len() - 1 };
            assert forall|p: int| r < p <= top implies #[trigger] qs[p].len() == 0 by {
                assert(level_bit(words, p) == (qs[p].len() > 0));
                if p < (idx + 1) * 64 {
                    let j = (p - idx * 64) as u64;
                    assert(64 - lz <= j < 64);
                    assert((mask >> j) & 1u64 == 0u64);
                    assert(!bit(mask, j));
                    assert(p / 64 == idx);
                    assert(p % 64 == j);
                }
            }
            lemma_prev_bid_is(qs, top, r);
            lemma_prev_bid_above(qs, current as int);
        }
        (idx as u32 * 64) + (63 - lz)
    }
}

/// Above the last level the highest non-empty bid level is that of the
/// last level.
proof fn lemma_prev_bid_above(qs: Seq<Seq<u32>>, p: int)
    ensures
        p >= qs.len() ==> prev_bid(qs, p) == prev_bid(qs, qs.len() - 1),
    decreases p,
{
    if p > qs.len() {
        lemma_prev_bid_above(qs, p - 1);
    }
}

/// A level stays sound when none of its nodes changed or became free.
proof fn lemma_level_frame(
    lvl: PriceLevel,
    q: Seq<u32>,
    s1: Seq<Order>,
    f1: Seq<u32>,
    s2: Seq<Order>,
    f2: Seq<u32>,
    is_bid: bool,
    p: int,
    ml: int,
)
    requires
        level_ok(lvl, q, s1, f1, is_bid, p, ml),
        s2.len() == s1.len(),
        forall|k: int|
            0 <= k < q.len() ==> s2[#[trigger] q[k] as int] == s1[q[k] as int] && !f2.contains(q[k]),
    ensures
        level_ok(lvl, q, s2, f2, is_bid, p, ml),
{
    reveal(level_ok);
    assert forall|k: int| 0 <= k < q.len() implies qty_at(view_slots(s1), #[trigger] q[k]) == qty_at(
        view_slots(s2),
        q[k],
    ) by {
        assert(node_ok(s1, f1, q, k, is_bid, p, ml));
    }
    lemma_volume_frame(view_slots(s1), view_slots(s2), q);
    assert forall|k: int| 0 <= k < q.len() implies #[trigger] node_ok(s2, f2, q, k, is_bid, p, ml) by {
        assert(node_ok(s1, f1, q, k, is_bid, p, ml));
    }
}

/// A queue of distinct slots that misses slot `x` is shorter than the pool.
proof fn lemma_distinct_bound(q: Seq<u32>, x: u32, bound: nat)
    requires
        q.no_duplicates(),
        forall|k: int| 0 <= k < q.len() ==> #[trigger] q[k] < bound,
        x < bound,
        !q.contains(x),
    ensures
        q.len() < bound,
{
    let s = q.push(x).map_values(|v: u32| v as int);
    assert forall|a: int, b: int| 0 <= a < s.len() && 0 <= b < s.len() && a != b implies s[a] != s[b] by {
        if a < q.len() && b < q.len() {
        } else if a < q.len() {
            assert(q.push(x)[a] == q[a]);
        } else {
            assert(q.push(x)[b] == q[b]);
        }
    }
    s.unique_seq_to_set();
    assert(s.to_set().subset_of(vstd::set_lib::set_int_range(0, bound as int))) by {
        assert forall|v: int| s.to_set().contains(v) implies vstd::set_lib::set_int_range(0, bound as int).contains(v) by {
            let k = choose|k: int| 0 <= k < s.len() && s[k] == v;
            if k < q.len() {
                assert(q.push(x)[k] == q[k]);
            }
        }
    }
    vstd::set_lib::lemma_int_range(0, bound as int);
    vstd::set_lib::lemma_len_subset(s.to_set(), vstd::set_lib::set_int_range(0, bound as int));
}

/// What the search for the highest bid level finds.
proof fn lemma_prev_bid_spec(qs: Seq<Seq<u32>>, from: int)
    requires
        qs.len() < NULL_IDX,
        from < qs.len(),
    ensures
        forall|p: int| prev_bid(qs, from) < p <= from ==> #[trigger] qs[p].len() == 0,
        prev_bid(qs, from) == 0 || (prev_bid(qs, from) <= from && qs[prev_bid(qs, from) as int].len() > 0),
    decreases from,
{
    if from > 0 && qs[from].len() == 0 {
        lemma_prev_bid_spec(qs, from - 1);
    }
}

/// What the search for the lowest ask level finds.
proof fn lemma_next_ask_spec(qs: Seq<Seq<u32>>, from: int)
    requires
        qs.len() < NULL_IDX,
        0 <= from,
    ensures
        forall|p: int| from <= p < qs.len() && p < next_ask(qs, from) ==> #[trigger] qs[p].len() == 0,
        next_ask(qs, from) == NULL_IDX || (from <= next_ask(qs, from) < qs.len() && qs[next_ask(qs, from) as int].len() > 0),
    decreases qs.len() - from,
{
    if from < qs.len() && qs[from].len() == 0 {
        lemma_next_ask_spec(qs, from + 1);
    }
}

impl OrderBook {
    pub closed spec fn queue_at(&self, is_bid: bool, p: int) -> Seq<u32> {
        self.queues(is_bid)[p]
    }

    proof fn lemma_map_ok_weaken(&self, pool: &OrderPool, x: u32)
        requires
            self.map_ok(pool, NULL_IDX),
        ensures
            self.map_ok(pool, x),
    {
        reveal(OrderBook::map_ok);
    }

    /// Levels other than (`skip_bid`, `skip_p`) stay sound when their
    /// summaries and queues are kept and only slots of that level, or free
    /// slots, changed.
    proof fn lemma_levels_frame(
        b1: &OrderBook,
        pool1: &OrderPool,
        b2: &OrderBook,
        pool2: &OrderPool,
        skip_bid: bool,
        skip_p: int,
    )
        requires
            b1.structure_ok(pool1),
            pool2.slots().len() == pool1.slots().len(),
            b2.map().len() == b1.map().len(),
            forall|j: u32|
                j < pool1.slots().len() && (pool2.slots()[j as int] != pool1.slots()[j as int] || (
                pool2.free_list().contains(j) && !pool1.free_list().contains(j))) ==> (
                pool1.free_list().contains(j) || (pool1.slots()[j as int].price == skip_p
                    && pool1.slots()[j as int].is_bid == skip_bid)),
            forall|is_bid: bool, p: int|
                0 <= p < b1.bids@.len() && !(is_bid == skip_bid && p == skip_p) ==> b2.levels(is_bid)[p]
                    == b1.levels(is_bid)[p] && b2.queues(is_bid)[p] == b1.queues(is_bid)[p],
        ensures
            forall|is_bid: bool, p: int|
                0 <= p < b1.bids@.len() && !(is_bid == skip_bid && p == skip_p) ==> #[trigger] level_ok(
                    b2.levels(is_bid)[p],
                    b2.queues(is_bid)[p],
                    pool2.slots(),
                    pool2.free_list(),
                    is_bid,
                    p,
                    b2.map().len() as int,
                ),
    {
        reveal(OrderBook::structure_ok);
        assert forall|is_bid: bool, p: int|
            0 <= p < b1.bids@.len() && !(is_bid == skip_bid && p == skip_p) implies #[trigger] level_ok(
            b2.levels(is_bid)[p],
            b2.queues(is_bid)[p],
            pool2.slots(),
            pool2.free_list(),
            is_bid,
            p,
            b2.map().len() as int,
        ) by {
            let q = b1.queues(is_bid)[p];
            assert(level_ok(
                b1.levels(is_bid)[p],
                q,
                pool1.slots(),
                pool1.free_list(),
                is_bid,
                p,
                b1.map().len() as int,
            ));
            assert forall|k: int| 0 <= k < q.len() implies pool2.slots()[#[trigger] q[k] as int]
                == pool1.slots()[q[k] as int] && !pool2.free_list().contains(q[k]) by {
                reveal(level_ok);
                assert(node_ok(pool1.slots(), pool1.free_list(), q, k, is_bid, p, b1.map().len() as int));
            }
            lemma_level_frame(
                b1.levels(is_bid)[p],
                q,
                pool1.slots(),
                pool1.free_list(),
                pool2.slots(),
                pool2.free_list(),
                is_bid,
                p,
                b1.map().len() as int,
            );
        }
    }

    /// The structure of a book survives a change confined to one level.
    proof fn lemma_structure_after(
        b1: &OrderBook,
        pool1: &OrderPool,
        b2: &OrderBook,
        pool2: &OrderPool,
        side: bool,
        p: int,
    )
        requires
            b1.structure_ok(pool1),
            pool2.wf(),
            0 <= p < b1.bids@.len(),
            pool2.slots().len() == pool1.slots().len(),
            b2.map().len() == b1.map().len(),
            b2.bids@.len() == b1.bids@.len(),
            b2.asks@.len() == b1.asks@.len(),
            b2.queues(true).len() == b1.queues(true).len(),
            b2.queues(false).len() == b1.queues(false).len(),
            b2.bitmask(true).len() == b1.bitmask(true).len(),
            b2.bitmask(false).len() == b1.bitmask(false).len(),
            forall|j: u32|
                j < pool1.slots().len() && (pool2.slots()[j as int] != pool1.slots()[j as int] || (
                pool2.free_list().contains(j) && !pool1.free_list().contains(j))) ==> (
                pool1.free_list().contains(j) || (pool1.slots()[j as int].price == p
                    && pool1.slots()[j as int].is_bid == side)),
            forall|is_bid: bool, pp: int|
                0 <= pp < b1.bids@.len() && !(is_bid == side && pp == p) ==> b2.levels(is_bid)[pp]
                    == b1.levels(is_bid)[pp] && b2.queues(is_bid)[pp] == b1.queues(is_bid)[pp],
            level_ok(
                b2.levels(side)[p],
                b2.queues(side)[p],
                pool2.slots(),
                pool2.free_list(),
                side,
                p,
                b2.map().len() as int,
            ),
        ensures
            b2.structure_ok(pool2),
    {
        reveal(OrderBook::structure_ok);
        OrderBook::lemma_levels_frame(b1, pool1, b2, pool2, side, p);
        assert forall|sd: bool, pp: int| 0 <= pp < b2.bids@.len() implies #[trigger] level_ok(
            b2.levels(sd)[pp],
            b2.queues(sd)[pp],
            pool2.slots(),
            pool2.free_list(),
            sd,
            pp,
            b2.map().len() as int,
        ) by {
            if sd == side && pp == p {
            }
        }
    }
}

impl OrderBook {
    /// Writes back the summary of level (`is_bid`, `price`).
    fn put_level(&mut self, is_bid: bool, price: u32, level: PriceLevel)
        requires
            price < old(self).levels(is_bid).len(),
        ensures
            final(self).levels(is_bid) == old(self).levels(is_bid).update(price as int, level),
            final(self).levels(!is_bid) == old(self).levels(!is_bid),
            final(self).bids@.len() == old(self).bids@.len(),
            final(self).queues(true) == old(self).queues(true),
            final(self).queues(false) == old(self).queues(false),
            final(self).bitmask(true) == old(self).bitmask(true),
            final(self).bitmask(false) == old(self).bitmask(false),
            final(self).map() == old(self).map(),
            final(self).best_bid == old(self).best_bid,
            final(self).best_ask == old(self).best_ask,
    {
        if is_bid {
            self.bids.set(price as usize, level);
        } else {
            self.asks.set(price as usize, level);
        }
    }

    /// Reads the summary of level (`is_bid`, `price`).
    fn get_level(&self, is_bid: bool, price: u32) -> (level: PriceLevel)
        requires
            price < self.levels(is_bid).len(),
        ensures
            level == self.levels(is_bid)[price as int],
    {
        if is_bid {
            self.bids[price as usize]
        } else {
            self.asks[price as usize]
        }
    }

    /// Takes node `k` out of the queue of level (`is_bid`, `price`), joining
    /// its neighbours; the slot itself is left as it was.
    fn unlink_order(
        &mut self,
        pool: &mut OrderPool,
        is_bid: bool,
        price: u32,
        prev_idx: u32,
        next_idx: u32,
        visible_qty: u32,
        Ghost(k): Ghost<int>,
    )
        requires
            old(self).structure_ok(old(pool)),
            price < old(self).levels(is_bid).len(),
            0 <= k < old(self).queue_at(is_bid, price as int).len(),
            prev_idx == (if k > 0 {
                old(self).queue_at(is_bid, price as int)[k - 1]
            } else {
                NULL_IDX
            }),
            next_idx == (if k + 1 < old(self).queue_at(is_bid, price as int).len() {
                old(self).queue_at(is_bid, price as int)[k + 1]
            } else {
                NULL_IDX
            }),
            visible_qty == old(pool).slots()[old(self).queue_at(is_bid, price as int)[k] as int].quantity,
        ensures
            final(self).structure_ok(final(pool)),
            final(self).queues(is_bid) == old(self).queues(is_bid).update(
                price as int,
                old(self).queue_at(is_bid, price as int).remove(k),
            ),
            final(self).queues(!is_bid) == old(self).queues(!is_bid),
            final(self).bitmask(true) == old(self).bitmask(true),
            final(self).bitmask(false) == old(self).bitmask(false),
            final(self).map() == old(self).map(),
            final(self).best_bid == old(self).best_bid,
            final(self).best_ask == old(self).best_ask,
            final(self).bids@.len() == old(self).bids@.len(),
            view_slots(final(pool).slots()) == view_slots(old(pool).slots()),
            final(pool).free_list() == old(pool).free_list(),
            final(pool).slots()[old(self).queue_at(is_bid, price as int)[k] as int] == old(pool).slots()[old(
                self,
            ).queue_at(is_bid, price as int)[k] as int],
            old(self).map_ok(old(pool), NULL_IDX) ==> final(self).map_ok(
                final(pool),
                old(self).queue_at(is_bid, price as int)[k],
            ),
    {
        let ghost q = self.queue_at(is_bid, price as int);
        let ghost p = price as int;
        let ghost ml = self.map().len() as int;
        proof {
            reveal(OrderBook::structure_ok);
            reveal(OrderBook::map_ok);
            reveal(OrderBook::index_ok);
            reveal(OrderBook::wf);
            old(pool).lemma_wf();
            assert(level_ok(self.levels(is_bid)[p], q, pool.slots(), pool.free_list(), is_bid, p, ml));
            assert(node_ok(pool.slots(), pool.free_list(), q, k, is_bid, p, ml)
                && (k > 0 ==> node_ok(pool.slots(), pool.free_list(), q, k - 1, is_bid, p, ml))
                && (k + 1 < q.len() ==> node_ok(pool.slots(), pool.free_list(), q, k + 1, is_bid, p, ml))
                && self.levels(is_bid)[p].volume == volume(view_slots(pool.slots()), q)
                && self.levels(is_bid)[p].order_count == q.len()
                && (q.len() > 0 ==> self.levels(is_bid)[p].head_idx == q[0] && self.levels(is_bid)[p].tail_idx == q.last())
                && q.no_duplicates()) by {
                reveal(level_ok);
            }
            lemma_volume_remove(view_slots(pool.slots()), q, k);
            assert(qty_at(view_slots(pool.slots()), q[k]) == pool.slots()[q[k] as int].quantity);
        }
        let mut level = self.get_level(is_bid, price);
        level.volume = level.volume - visible_qty;
        level.order_count = level.order_count - 1;
        if prev_idx != NULL_IDX {
            let mut o = pool.get(prev_idx);
            o.next_idx = next_idx;
            pool.put(prev_idx, o);
        } else {
            level.head_idx = next_idx;
        }
        if next_idx != NULL_IDX {
            let mut o = pool.get(next_idx);
            o.prev_idx = prev_idx;
            pool.put(next_idx, o);
        } else {
            level.tail_idx = prev_idx;
        }
        self.put_level(is_bid, price, level);
        proof {
            reveal(OrderBook::structure_ok);
            reveal(OrderBook::map_ok);
            reveal(OrderBook::index_ok);
            reveal(OrderBook::wf);
            let q2 = q.remove(k);
            if is_bid {
                self.bid_queues@ = self.bid_queues@.update(p, q2);
            } else {
                self.ask_queues@ = self.ask_queues@.update(p, q2);
            }
            let s1 = old(pool).slots();
            let s2 = pool.slots();
            let f = pool.free_list();
            assert(view_slots(s2) =~= view_slots(s1));
            lemma_unlink_level(old(self).levels(is_bid)[p], level, q, k, s1, s2, f, is_bid, p, ml);
            assert forall|j: u32|
                j < s1.len() && (s2[j as int] != s1[j as int] || (f.contains(j) && !f.contains(j))) implies (
            f.contains(j) || (s1[j as int].price == p && s1[j as int].is_bid == is_bid)) by {
                if k > 0 && j == q[k - 1] {
                } else if k + 1 < q.len() && j == q[k + 1] {
                } else {
                    assert(s2[j as int] == s1[j as int]);
                }
            }
            OrderBook::lemma_structure_after(old(self), old(pool), self, pool, is_bid, p);
            if old(self).map_ok(old(pool), NULL_IDX) {
                lemma_unlink_map(old(self), self, old(pool), pool, is_bid, p, k);
            }
        }
    }
}

/// The queue of a level with node `k` taken out, its neighbours joined and
/// its summary reduced, is sound.
proof fn lemma_unlink_level(
    lvl1: PriceLevel,
    lvl2: PriceLevel,
    q: Seq<u32>,
    k: int,
    s1: Seq<Order>,
    s2: Seq<Order>,
    f: Seq<u32>,
    is_bid: bool,
    p: int,
    ml: int,
)
    requires
        level_ok(lvl1, q, s1, f, is_bid, p, ml),
        0 <= k < q.len(),
        s2.len() == s1.len(),
        view_slots(s2) == view_slots(s1),
        forall|j: int|
            0 <= j < s1.len() && !(k > 0 && j == q[k - 1]) && !(k + 1 < q.len() && j == q[k + 1])
                ==> s2[j] == s1[j],
        k > 0 ==> s2[q[k - 1] as int] == (Order {
            next_idx: if k + 1 < q.len() { q[k + 1] } else { NULL_IDX },
            ..s1[q[k - 1] as int]
        }),
        k + 1 < q.len() ==> s2[q[k + 1] as int] == (Order {
            prev_idx: if k > 0 { q[k - 1] } else { NULL_IDX },
            ..s1[q[k + 1] as int]
        }),
        lvl2.price == lvl1.price,
        lvl2.order_count == lvl1.order_count - 1,
        lvl2.volume == lvl1.volume - s1[q[k] as int].quantity,
        lvl2.head_idx == (if k == 0 { if k + 1 < q.len() { q[k + 1] } else { NULL_IDX } } else { lvl1.head_idx }),
        lvl2.tail_idx == (if k + 1 == q.len() { if k > 0 { q[k - 1] } else { NULL_IDX } } else { lvl1.tail_idx }),
    ensures
        level_ok(lvl2, q.remove(k), s2, f, is_bid, p, ml),
{
    reveal(level_ok);
    let q2 = q.remove(k);
    assert(node_ok(s1, f, q, k, is_bid, p, ml));
    lemma_volume_remove(view_slots(s1), q, k);
    assert(qty_at(view_slots(s1), q[k]) == s1[q[k] as int].quantity);
    assert forall|j: int| 0 <= j < q2.len() implies #[trigger] q2[j] == (if j < k {
        q[j]
    } else {
        q[j + 1]
    }) by {}
    assert forall|j: int| 0 <= j < q2.len() implies #[trigger] node_ok(s2, f, q2, j, is_bid, p, ml) by {
        let jj = if j < k { j } else { j + 1 };
        assert(node_ok(s1, f, q, jj, is_bid, p, ml));
        assert(q[jj] != q[k]);
        if k > 0 {
            assert(q[jj] == q[k - 1] ==> jj == k - 1);
        }
        if k + 1 < q.len() {
            assert(q[jj] == q[k + 1] ==> jj == k + 1);
        }
    }
    assert(q2.no_duplicates()) by {
        assert forall|a: int, b: int| 0 <= a < q2.len() && 0 <= b < q2.len() && a != b implies q2[a]
            != q2[b] by {
            assert(q2[a] == (if a < k { q[a] } else { q[a + 1] }));
            assert(q2[b] == (if b < k { q[b] } else { q[b + 1] }));
        }
    }
    if q2.len() > 0 {
        assert(q2.last() == q2[q2.len() - 1]);
    }
}

/// After an unlink, every index entry but the unlinked slot's still rests.
proof fn lemma_unlink_map(
    b1: &OrderBook,
    b2: &OrderBook,
    pool1: &OrderPool,
    pool2: &OrderPool,
    is_bid: bool,
    p: int,
    k: int,
)
    requires
        b1.map_ok(pool1, NULL_IDX),
        b2.map() == b1.map(),
        b2.bids@.len() == b1.bids@.len(),
        view_slots(pool2.slots()) == view_slots(pool1.slots()),
        pool2.slots().len() == pool1.slots().len(),
        0 <= p < b1.bids@.len(),
        0 <= k < b1.queue_at(is_bid, p).len(),
        b2.queues(is_bid) == b1.queues(is_bid).update(p, b1.queue_at(is_bid, p).remove(k)),
        b2.queues(!is_bid) == b1.queues(!is_bid),
        b1.queues(is_bid).len() == b1.bids@.len(),
    ensures
        b2.map_ok(pool2, b1.queue_at(is_bid, p)[k]),
{
    reveal(OrderBook::map_ok);
    let q = b1.queue_at(is_bid, p);
    let q2 = q.remove(k);
    let s1 = pool1.slots();
    let s2 = pool2.slots();
    assert forall|id: int|
        0 <= id < b2.map().len() && #[trigger] b2.map()[id] != NULL_IDX implies {
        let i = b2.map()[id];
        let o = s2[i as int];
        &&& i < s2.len()
        &&& o.order_id == id
        &&& (i != q[k] ==> o.price < b2.bids@.len() && b2.queues(o.is_bid)[o.price as int].contains(i))
    } by {
        let i = b2.map()[id];
        assert(b1.map()[id] == i);
        assert(view_slots(s2)[i as int] == view_slots(s1)[i as int]);
        let o = s1[i as int];
        if i != q[k] && o.is_bid == is_bid && o.price == p {
            let c = choose|c: int| 0 <= c < q.len() && q[c] == i;
            let c2 = if c < k { c } else { c - 1 };
            assert(q2[c2] == i);
        }
    }
}

/// The queue of a level with slot `i` linked at its back and its summary
/// grown is sound.
proof fn lemma_append_level(
    lvl1: PriceLevel,
    lvl2: PriceLevel,
    q: Seq<u32>,
    i: u32,
    s1: Seq<Order>,
    s2: Seq<Order>,
    f: Seq<u32>,
    is_bid: bool,
    p: int,
    ml: int,
)
    requires
        level_ok(lvl1, q, s1, f, is_bid, p, ml),
        i < s1.len(),
        !f.contains(i),
        !q.contains(i),
        s1[i as int].price == p,
        s1[i as int].is_bid == is_bid,
        s1[i as int].hidden_quantity > 0 ==> s1[i as int].display_clip > 0,
        s1[i as int].order_id < ml,
        s2.len() == s1.len(),
        view_slots(s2) == view_slots(s1),
        forall|j: int| 0 <= j < s1.len() && j != i && !(q.len() > 0 && j == q.last()) ==> s2[j] == s1[j],
        s2[i as int] == (Order {
            prev_idx: if q.len() > 0 { q.last() } else { NULL_IDX },
            next_idx: NULL_IDX,
            ..s1[i as int]
        }),
        q.len() > 0 ==> s2[q.last() as int] == (Order { next_idx: i, ..s1[q.last() as int] }),
        lvl2.price == lvl1.price,
        lvl2.order_count == lvl1.order_count + 1,
        lvl2.volume == lvl1.volume + s1[i as int].quantity,
        lvl2.head_idx == (if q.len() == 0 { i } else { lvl1.head_idx }),
        lvl2.tail_idx == i,
    ensures
        level_ok(lvl2, q.push(i), s2, f, is_bid, p, ml),
{
    reveal(level_ok);
    let q2 = q.push(i);
    lemma_volume_push(view_slots(s1), q, i);
    assert(view_slots(s2) == view_slots(s1));
    assert forall|j: int| 0 <= j < q2.len() implies #[trigger] node_ok(s2, f, q2, j, is_bid, p, ml) by {
        if j < q.len() {
            assert(node_ok(s1, f, q, j, is_bid, p, ml));
            assert(q2[j] == q[j]);
            assert(q[j] != i);
        }
    }
    assert(q2.no_duplicates()) by {
        assert forall|a: int, b: int| 0 <= a < q2.len() && 0 <= b < q2.len() && a != b implies q2[a]
            != q2[b] by {
            if a < q.len() && b < q.len() {
            } else if a < q.len() {
                assert(q2[a] == q[a]);
            } else {
                assert(q2[b] == q[b]);
            }
        }
    }
}

impl OrderBook {
    /// Links slot `idx` at the back of the queue of level (`is_bid`, `price`).
    fn append_order(&mut self, pool: &mut OrderPool, is_bid: bool, price: u32, idx: u32)
        requires
            old(self).structure_ok(old(pool)),
            price < old(self).levels(is_bid).len(),
            idx < old(pool).slots().len(),
            !old(pool).free_list().contains(idx),
            !old(self).queue_at(is_bid, price as int).contains(idx),
            old(pool).slots()[idx as int].price == price,
            old(pool).slots()[idx as int].is_bid == is_bid,
            old(pool).slots()[idx as int].hidden_quantity > 0 ==> old(pool).slots()[idx as int].display_clip > 0,
            old(pool).slots()[idx as int].order_id < old(self).map().len(),
            old(self).levels(is_bid)[price as int].volume + old(pool).slots()[idx as int].quantity
                <= u32::MAX,
        ensures
            final(self).structure_ok(final(pool)),
            final(self).queues(is_bid) == old(self).queues(is_bid).update(
                price as int,
                old(self).queue_at(is_bid, price as int).push(idx),
            ),
            final(self).queues(!is_bid) == old(self).queues(!is_bid),
            final(self).bitmask(true) == old(self).bitmask(true),
            final(self).bitmask(false) == old(self).bitmask(false),
            final(self).map() == old(self).map(),
            final(self).best_bid == old(self).best_bid,
            final(self).best_ask == old(self).best_ask,
            final(self).bids@.len() == old(self).bids@.len(),
            view_slots(final(pool).slots()) == view_slots(old(pool).slots()),
            final(pool).free_list() == old(pool).free_list(),
            old(self).map_ok(old(pool), idx) ==> final(self).map_ok(final(pool), NULL_IDX),
    {
        let ghost q = self.queue_at(is_bid, price as int);
        let ghost p = price as int;
        let ghost ml = self.map().len() as int;
        proof {
            reveal(OrderBook::structure_ok);
            reveal(OrderBook::map_ok);
            reveal(OrderBook::index_ok);
            reveal(OrderBook::wf);
            old(pool).lemma_wf();
            assert(level_ok(self.levels(is_bid)[p], q, pool.slots(), pool.free_list(), is_bid, p, ml));
            assert((q.len() > 0 ==> node_ok(pool.slots(), pool.free_list(), q, q.len() - 1, is_bid, p, ml))
                && (forall|k: int| 0 <= k < q.len() ==> #[trigger] q[k] < pool.slots().len())
                && self.levels(is_bid)[p].order_count == q.len()
                && (q.len() == 0 ==> self.levels(is_bid)[p].tail_idx == NULL_IDX)
                && (q.len() > 0 ==> self.levels(is_bid)[p].head_idx == q[0] && self.levels(is_bid)[p].tail_idx == q.last())
                && q.no_duplicates()) by {
                reveal(level_ok);
                assert forall|k: int| 0 <= k < q.len() implies #[trigger] q[k] < pool.slots().len() by {
                    assert(node_ok(pool.slots(), pool.free_list(), q, k, is_bid, p, ml));
                }
            }
            lemma_distinct_bound(q, idx, pool.slots().len());
        }
        let mut level = self.get_level(is_bid, price);
        let tail = level.tail_idx;
        let o = pool.get(idx);
        let mut linked = o;
        linked.prev_idx = tail;
        linked.next_idx = NULL_IDX;
        pool.put(idx, linked);
        if tail != NULL_IDX {
            let mut t = pool.get(tail);
            t.next_idx = idx;
            pool.put(tail, t);
        } else {
            level.head_idx = idx;
        }
        level.tail_idx = idx;
        level.volume = level.volume + o.quantity;
        level.order_count = level.order_count + 1;
        self.put_level(is_bid, price, level);
        proof {
            reveal(OrderBook::structure_ok);
            reveal(OrderBook::map_ok);
            reveal(OrderBook::index_ok);
            reveal(OrderBook::wf);
            let q2 = q.push(idx);
            if is_bid {
                self.bid_queues@ = self.bid_queues@.update(p, q2);
            } else {
                self.ask_queues@ = self.ask_queues@.update(p, q2);
            }
            let s1 = old(pool).slots();
            let s2 = pool.slots();
            let f = pool.free_list();
            assert(view_slots(s2) =~= view_slots(s1));
            lemma_append_level(old(self).levels(is_bid)[p], level, q, idx, s1, s2, f, is_bid, p, ml);
            assert forall|j: u32|
                j < s1.len() && (s2[j as int] != s1[j as int] || (f.contains(j) && !f.contains(j))) implies (
            f.contains(j) || (s1[j as int].price == p && s1[j as int].is_bid == is_bid)) by {
                if q.len() > 0 && j == q.last() {
                } else if j == idx {
                } else {
                    assert(s2[j as int] == s1[j as int]);
                }
            }
            OrderBook::lemma_structure_after(old(self), old(pool), self, pool, is_bid, p);
            if old(self).map_ok(old(pool), idx) {
                assert forall|id: int|
                    0 <= id < self.map().len() && #[trigger] self.map()[id] != NULL_IDX implies {
                    let i = self.map()[id];
                    let o = s2[i as int];
                    &&& i < s2.len()
                    &&& o.order_id == id
                    &&& (i != NULL_IDX ==> o.price < self.bids@.len() && self.queues(o.is_bid)[o.price as int].contains(i))
                } by {
                    let i = self.map()[id];
                    assert(old(self).map()[id] == i);
                    assert(view_slots(s2)[i as int] == view_slots(s1)[i as int]);
                    let o = s1[i as int];
                    if i == idx {
                        assert(q2[q.len() as int] == idx);
                    } else if o.is_bid == is_bid && o.price == p {
                        let c = choose|c: int| 0 <= c < q.len() && q[c] == i;
                        assert(q2[c] == i);
                    }
                }
            }
        }
    }

    /// Returns slot `idx`, which rests in no level, to the pool and drops its
    /// index entry.
    fn release_slot(&mut self, pool: &mut OrderPool, idx: u32)
        requires
            old(self).structure_ok(old(pool)),
            idx < old(pool).slots().len(),
            !old(pool).free_list().contains(idx),
            old(pool).slots()[idx as int].price < old(self).bids@.len(),
            !old(self).queue_at(
                old(pool).slots()[idx as int].is_bid,
                old(pool).slots()[idx as int].price as int,
            ).contains(idx),
            old(pool).slots()[idx as int].order_id < old(self).map().len(),
            old(self).map_ok(old(pool), idx),
        ensures
            final(self).structure_ok(final(pool)),
            final(self).map_ok(final(pool), NULL_IDX),
            final(self).map() == old(self).map().update(
                old(pool).slots()[idx as int].order_id as int,
                NULL_IDX,
            ),
            final(pool).free_list() == seq![idx] + old(pool).free_list(),
            view_slots(final(pool).slots()) == view_slots(old(pool).slots()),
            final(self).queues(true) == old(self).queues(true),
            final(self).queues(false) == old(self).queues(false),
            final(self).levels(true) == old(self).levels(true),
            final(self).levels(false) == old(self).levels(false),
            final(self).bitmask(true) == old(self).bitmask(true),
            final(self).bitmask(false) == old(self).bitmask(false),
            final(self).best_bid == old(self).best_bid,
            final(self).best_ask == old(self).best_ask,
    {
        proof {
            reveal(OrderBook::structure_ok);
        }
        let o = pool.get(idx);
        pool.deallocate(idx);
        self.order_map.set(o.order_id as usize, NULL_IDX);
        proof {
            reveal(OrderBook::structure_ok);
            reveal(OrderBook::map_ok);
            reveal(OrderBook::index_ok);
            reveal(OrderBook::wf);
            old(pool).lemma_wf();
            let s1 = old(pool).slots();
            let s2 = pool.slots();
            let f1 = old(pool).free_list();
            let f2 = pool.free_list();
            let ml = self.map().len() as int;
            let side = o.is_bid;
            let p = o.price as int;
            assert(view_slots(s2) =~= view_slots(s1));
            assert forall|j: u32|
                j < s1.len() && (s2[j as int] != s1[j as int] || (f2.contains(j) && !f1.contains(j))) implies (
            f1.contains(j) || (s1[j as int].price == p && s1[j as int].is_bid == side)) by {
                if j != idx {
                    assert(s2[j as int] == s1[j as int]);
                    assert(f2.contains(j) ==> f1.contains(j)) by {
                        if f2.contains(j) {
                            let c = choose|c: int| 0 <= c < f2.len() && f2[c] == j;
                            assert(f1[c - 1] == j);
                        }
                    }
                }
            }
            let q = self.queue_at(side, p);
            assert(level_ok(old(self).levels(side)[p], old(self).queues(side)[p], s1, f1, side, p, ml));
            assert forall|k: int| 0 <= k < q.len() implies s2[#[trigger] q[k] as int] == s1[q[k] as int]
                && !f2.contains(q[k]) by {
                reveal(level_ok);
                assert(node_ok(s1, f1, q, k, side, p, ml));
                assert(q[k] != idx);
                if f2.contains(q[k]) {
                    let c = choose|c: int| 0 <= c < f2.len() && f2[c] == q[k];
                    assert(f1[c - 1] == q[k]);
                }
            }
            lemma_level_frame(self.levels(side)[p], q, s1, f1, s2, f2, side, p, ml);
            OrderBook::lemma_structure_after(old(self), old(pool), self, pool, side, p);
            assert forall|id: int|
                0 <= id < self.map().len() && #[trigger] self.map()[id] != NULL_IDX implies {
                let i = self.map()[id];
                let oo = s2[i as int];
                &&& i < s2.len()
                &&& oo.order_id == id
                &&& (i != NULL_IDX ==> oo.price < self.bids@.len() && self.queues(oo.is_bid)[oo.price as int].contains(i))
            } by {
                let i = self.map()[id];
                assert(id != o.order_id);
                assert(old(self).map()[id] == i);
                assert(view_slots(s2)[i as int] == view_slots(s1)[i as int]);
                assert(i != idx);
            }
        }
    }
}

/// Adding an order at bid level `p` makes it the best bid when it is above
/// the old one.
proof fn lemma_best_bid_after_add(qs: Seq<Seq<u32>>, qs2: Seq<Seq<u32>>, p: int)
    requires
        qs.len() < NULL_IDX,
        qs2.len() == qs.len(),
        0 <= p < qs.len(),
        qs2[p].len() > 0,
        forall|j: int| 0 <= j < qs.len() && j != p ==> qs2[j] == qs[j],
    ensures
        prev_bid(qs2, qs.len() - 1) == (if p > prev_bid(qs, qs.len() - 1) {
            p as u32
        } else {
            prev_bid(qs, qs.len() - 1)
        }),
{
    let n = qs.len() as int;
    let r = prev_bid(qs, n - 1);
    lemma_prev_bid_spec(qs, n - 1);
    if p > r {
        assert forall|j: int| p < j <= n - 1 implies #[trigger] qs2[j].len() == 0 by {
            assert(qs[j].len() == 0);
        }
        lemma_prev_bid_is(qs2, n - 1, p);
    } else if r > 0 {
        assert forall|j: int| r < j <= n - 1 implies #[trigger] qs2[j].len() == 0 by {
            assert(qs[j].len() == 0);
        }
        lemma_prev_bid_is(qs2, n - 1, r as int);
    } else {
        assert forall|j: int| 0 < j <= n - 1 implies #[trigger] qs2[j].len() == 0 by {
            assert(qs[j].len() == 0);
        }
        lemma_prev_bid_none(qs2, n - 1);
    }
}

/// Adding an order at ask level `p` makes it the best ask when there was
/// none or it is below the old one.
proof fn lemma_best_ask_after_add(qs: Seq<Seq<u32>>, qs2: Seq<Seq<u32>>, p: int)
    requires
        qs.len() < NULL_IDX,
        qs2.len() == qs.len(),
        0 <= p < qs.len(),
        qs2[p].len() > 0,
        forall|j: int| 0 <= j < qs.len() && j != p ==> qs2[j] == qs[j],
    ensures
        next_ask(qs2, 0) == (if next_ask(qs, 0) == NULL_IDX || p < next_ask(qs, 0) {
            p as u32
        } else {
            next_ask(qs, 0)
        }),
{
    let r = next_ask(qs, 0);
    lemma_next_ask_spec(qs, 0);
    if r == NULL_IDX || p < r {
        assert forall|j: int| 0 <= j < p implies #[trigger] qs2[j].len() == 0 by {
            assert(qs[j].len() == 0);
        }
        lemma_next_ask_is(qs2, 0, p);
    } else {
        assert forall|j: int| 0 <= j < r implies #[trigger] qs2[j].len() == 0 by {
            assert(qs[j].len() == 0);
        }
        lemma_next_ask_is(qs2, 0, r as int);
    }
}

impl OrderBook {
    /// Rests a new order at the back of level (`is_bid`, `price`), showing
    /// `visible_qty` now and `hidden_qty` later in clips of `display_clip`;
    /// returns its slot. An order with hidden quantity needs a positive clip:
    /// with a clip of 0 it would show nothing after its visible part is
    /// filled, and matching against it would never end.
    #[verifier::spinoff_prover]
    #[verifier::rlimit(40)]
    pub fn add_order(
        &mut self,
        pool: &mut OrderPool,
        is_bid: bool,
        price: u32,
        order_id: u32,
        visible_qty: u32,
        hidden_qty: u32,
        display_clip: u32,
        user_id: u16,
    ) -> (idx: u32)
        requires
            old(self).wf(old(pool)),
            can_add(old(self).market(old(pool)), is_bid, price, order_id, visible_qty),
            hidden_qty > 0 ==> display_clip > 0,
        ensures
            final(self).wf(final(pool)),
            idx == old(pool).free_list()[0],
            final(self).market(final(pool)) == add_resting(
                old(self).market(old(pool)),
                is_bid,
                price,
                order_id,
                visible_qty,
                hidden_qty,
                display_clip,
                user_id,
            ),
    {
        let ghost p = price as int;
        let ghost q = self.queue_at(is_bid, p);
        proof {
            reveal(OrderBook::structure_ok);
            reveal(OrderBook::map_ok);
            reveal(OrderBook::index_ok);
            reveal(OrderBook::wf);
            old(pool).lemma_wf();
            assert(level_ok(
                self.levels(is_bid)[p],
                self.queues(is_bid)[p],
                pool.slots(),
                pool.free_list(),
                is_bid,
                p,
                self.map().len() as int,
            ));
            assert((q.len() == 0 <==> self.levels(is_bid)[p].head_idx == NULL_IDX)
                && self.levels(is_bid)[p].volume == volume(view_slots(pool.slots()), q)
                && (forall|k: int| 0 <= k < q.len() ==> !pool.free_list().contains(#[trigger] q[k]))) by {
                reveal(level_ok);
                if q.len() > 0 {
                    assert(node_ok(pool.slots(), pool.free_list(), q, 0, is_bid, p, self.map().len() as int));
                }
                assert forall|k: int| 0 <= k < q.len() implies !pool.free_list().contains(#[trigger] q[k]) by {
                    assert(node_ok(pool.slots(), pool.free_list(), q, k, is_bid, p, self.map().len() as int));
                }
            }
        }
        let is_empty = self.get_level(is_bid, price).head_idx == NULL_IDX;
        if is_empty {
            self.set_bit(is_bid, price);
        }
        let ghost b1 = *self;
        let ghost pool0 = *pool;
        let new_idx = pool.allocate(order_id, price, is_bid, visible_qty, hidden_qty, display_clip, user_id);
        proof {
            reveal(OrderBook::structure_ok);
            reveal(OrderBook::map_ok);
            reveal(OrderBook::index_ok);
            reveal(OrderBook::wf);
            OrderBook::lemma_structure_same(old(self), &b1, &pool0);
            OrderBook::lemma_after_allocate(&b1, &pool0, pool);
            assert(!q.contains(new_idx)) by {
                if q.contains(new_idx) {
                    let c = choose|c: int| 0 <= c < q.len() && q[c] == new_idx;
                    assert(pool0.free_list()[0] == new_idx);
                }
            }
            assert(!pool.free_list().contains(new_idx)) by {
                if pool.free_list().contains(new_idx) {
                    let c = choose|c: int| 0 <= c < pool.free_list().len() && pool.free_list()[c] == new_idx;
                    assert(pool0.free_list()[c + 1] == new_idx);
                }
            }
            assert(view_slots(pool.slots()) =~= view_slots(pool0.slots()).update(
                new_idx as int,
                RestingOrder {
                    order_id,
                    price,
                    quantity: visible_qty,
                    hidden_quantity: hidden_qty,
                    display_clip,
                    user_id,
                    is_bid,
                },
            ));
            lemma_volume_frame(view_slots(pool0.slots()), view_slots(pool.slots()), q);
            b1.lemma_map_ok_weaken(pool, new_idx);
        }
        self.append_order(pool, is_bid, price, new_idx);
        let ghost b2 = *self;
        if is_bid && price > self.best_bid {
            self.best_bid = price;
        } else if !is_bid && (self.best_ask == NULL_IDX || price < self.best_ask) {
            self.best_ask = price;
        }
        self.order_map.set(order_id as usize, new_idx);
        proof {
            reveal(OrderBook::structure_ok);
            reveal(OrderBook::map_ok);
            reveal(OrderBook::index_ok);
            reveal(OrderBook::wf);
            let m0 = old(self).market(old(pool));
            let qs1 = old(self).queues(is_bid);
            let qs2 = self.queues(is_bid);
            assert(qs2[p] == q.push(new_idx));
            assert(qs2[p].len() > 0);
            if is_bid {
                lemma_best_bid_after_add(qs1, qs2, p);
            } else {
                lemma_best_ask_after_add(qs1, qs2, p);
            }
            OrderBook::lemma_structure_same(&b2, self, pool);
            assert forall|sd: bool| #[trigger] bitmap_ok(self.bitmask(sd), self.queues(sd)) by {
                assert(bitmap_ok(old(self).bitmask(sd), old(self).queues(sd)));
                if sd == is_bid {
                    assert forall|pp: int| 0 <= pp < self.queues(sd).len() implies #[trigger] level_bit(
                        self.bitmask(sd),
                        pp,
                    ) == (self.queues(sd)[pp].len() > 0) by {
                        assert(level_bit(old(self).bitmask(sd), pp) == (old(self).queues(sd)[pp].len() > 0));
                    }
                    assert forall|pp: int| self.queues(sd).len() <= pp < self.bitmask(sd).len() * 64 implies !#[trigger] level_bit(
                        self.bitmask(sd),
                        pp,
                    ) by {
                        assert(!level_bit(old(self).bitmask(sd), pp));
                    }
                }
            }
            assert forall|id: int|
                0 <= id < self.map().len() && #[trigger] self.map()[id] != NULL_IDX implies {
                let i = self.map()[id];
                let o = pool.slots()[i as int];
                &&& i < pool.slots().len()
                &&& o.order_id == id
                &&& (i != NULL_IDX ==> o.price < self.bids@.len() && self.queues(o.is_bid)[o.price as int].contains(i))
            } by {
                if id == order_id {
                    assert(view_slots(pool.slots())[new_idx as int].order_id == order_id);
                    assert(self.queues(is_bid)[p][q.len() as int] == new_idx);
                } else {
                    assert(b2.map()[id] == self.map()[id]);
                }
            }
            assert(self.market(pool) =~= add_resting(m0, is_bid, price, order_id, visible_qty, hidden_qty, display_clip, user_id));
        }
        new_idx
    }

    /// Taking a free slot changes nothing the book's soundness depends on.
    proof fn lemma_after_allocate(b: &OrderBook, pool1: &OrderPool, pool2: &OrderPool)
        requires
            b.structure_ok(pool1),
            b.map_ok(pool1, NULL_IDX),
            pool1.free_list().len() > 0,
            pool2.wf(),
            pool2.free_list() == pool1.free_list().drop_first(),
            pool2.slots().len() == pool1.slots().len(),
            forall|j: int| 0 <= j < pool1.slots().len() && j != pool1.free_list()[0] ==> pool2.slots()[j]
                == pool1.slots()[j],
        ensures
            b.structure_ok(pool2),
            b.map_ok(pool2, NULL_IDX),
    {
        reveal(OrderBook::structure_ok);
        reveal(OrderBook::map_ok);
        let f1 = pool1.free_list();
        let f2 = pool2.free_list();
        assert forall|j: u32|
            j < pool1.slots().len() && (pool2.slots()[j as int] != pool1.slots()[j as int] || (f2.contains(j)
                && !f1.contains(j))) implies (f1.contains(j) || (pool1.slots()[j as int].price == -1int
            && pool1.slots()[j as int].is_bid == true)) by {
            if f2.contains(j) {
                let c = choose|c: int| 0 <= c < f2.len() && f2[c] == j;
                assert(f1[c + 1] == j);
            }
            if j == f1[0] {
                assert(f1.contains(j));
            }
        }
        OrderBook::lemma_levels_frame(b, pool1, b, pool2, true, -1);
        assert forall|id: int|
            0 <= id < b.map().len() && #[trigger] b.map()[id] != NULL_IDX implies {
            let i = b.map()[id];
            let o = pool2.slots()[i as int];
            &&& i < pool2.slots().len()
            &&& o.order_id == id
            &&& (i != NULL_IDX ==> o.price < b.bids@.len() && b.queues(o.is_bid)[o.price as int].contains(i))
        } by {
            let i = b.map()[id];
            let o = pool1.slots()[i as int];
            let q = b.queues(o.is_bid)[o.price as int];
            let c = choose|c: int| 0 <= c < q.len() && q[c] == i;
            assert(level_ok(
                b.levels(o.is_bid)[o.price as int],
                q,
                pool1.slots(),
                f1,
                o.is_bid,
                o.price as int,
                b.map().len() as int,
            ));
            assert(!f1.contains(i)) by {
                reveal(level_ok);
                assert(node_ok(pool1.slots(), f1, q, c, o.is_bid, o.price as int, b.map().len() as int));
            }
            assert(i != f1[0]);
        }
    }

    /// Soundness of the structure depends only on levels, queues, the index
    /// length and the bitmap lengths.
    proof fn lemma_structure_same(b1: &OrderBook, b2: &OrderBook, pool: &OrderPool)
        requires
            b1.structure_ok(pool),
            b2.bids == b1.bids,
            b2.asks == b1.asks,
            b2.queues(true) == b1.queues(true),
            b2.queues(false) == b1.queues(false),
            b2.map().len() == b1.map().len(),
            b2.bitmask(true).len() == b1.bitmask(true).len(),
            b2.bitmask(false).len() == b1.bitmask(false).len(),
        ensures
            b2.structure_ok(pool),
    {
        reveal(OrderBook::structure_ok);
        assert forall|sd: bool, pp: int| 0 <= pp < b2.bids@.len() implies #[trigger] level_ok(
            b2.levels(sd)[pp],
            b2.queues(sd)[pp],
            pool.slots(),
            pool.free_list(),
            sd,
            pp,
            b2.map().len() as int,
        ) by {
            assert(level_ok(
                b1.levels(sd)[pp],
                b1.queues(sd)[pp],
                pool.slots(),
                pool.free_list(),
                sd,
                pp,
                b1.map().len() as int,
            ));
        }
    }
}

proof fn lemma_prev_bid_skip(qs: Seq<Seq<u32>>, a: int, b: int)
    requires
        qs.len() < NULL_IDX,
        0 <= a <= b < qs.len(),
        forall|j: int| a < j <= b ==> #[trigger] qs[j].len() == 0,
    ensures
        prev_bid(qs, b) == prev_bid(qs, a),
    decreases b - a,
{
    if a < b {
        lemma_prev_bid_skip(qs, a, b - 1);
    }
}

proof fn lemma_next_ask_skip(qs: Seq<Seq<u32>>, a: int, b: int)
    requires
        qs.len() < NULL_IDX,
        0 <= a <= b < qs.len(),
        forall|j: int| a <= j < b ==> #[trigger] qs[j].len() == 0,
    ensures
        next_ask(qs, a) == next_ask(qs, b),
    decreases b - a,
{
    if a < b {
        lemma_next_ask_skip(qs, a + 1, b);
    }
}

/// After level `p` (non-empty before) changed: the best bid moves only
/// when that level emptied while being the best.
proof fn lemma_best_bid_after_remove(qs: Seq<Seq<u32>>, qs2: Seq<Seq<u32>>, p: int)
    requires
        qs.len() < NULL_IDX,
        qs2.len() == qs.len(),
        0 <= p < qs.len(),
        qs[p].len() > 0,
        forall|j: int| 0 <= j < qs.len() && j != p ==> qs2[j] == qs[j],
    ensures
        qs2[p].len() > 0 ==> prev_bid(qs2, qs.len() - 1) == prev_bid(qs, qs.len() - 1),
        qs2[p].len() == 0 && prev_bid(qs, qs.len() - 1) == p ==> prev_bid(qs2, qs.len() - 1) == prev_bid(qs2, p),
        qs2[p].len() == 0 && prev_bid(qs, qs.len() - 1) != p ==> prev_bid(qs2, qs.len() - 1) == prev_bid(qs, qs.len() - 1),
{
    let n = qs.len() as int;
    let r = prev_bid(qs, n - 1);
    lemma_prev_bid_spec(qs, n - 1);
    assert(r >= p) by {
        if r < p {
            assert(qs[p].len() == 0);
        }
    }
    if r > 0 || qs2[p].len() > 0 {
        if r > 0 {
            assert forall|j: int| r < j <= n - 1 implies #[trigger] qs2[j].len() == 0 by {
                assert(qs[j].len() == 0);
            }
        }
    }
    if qs2[p].len() > 0 {
        if r > 0 {
            lemma_prev_bid_is(qs2, n - 1, r as int);
        } else {
            assert forall|j: int| 0 < j <= n - 1 implies #[trigger] qs2[j].len() == 0 by {
                assert(qs[j].len() == 0);
            }
            lemma_prev_bid_none(qs2, n - 1);
        }
    } else if r == p {
        assert forall|j: int| p < j <= n - 1 implies #[trigger] qs2[j].len() == 0 by {
            assert(qs[j].len() == 0);
        }
        lemma_prev_bid_skip(qs2, p, n - 1);
    } else {
        assert(r > p);
        lemma_prev_bid_is(qs2, n - 1, r as int);
    }
}

/// After level `p` (non-empty before) changed: the best ask moves only
/// when that level emptied while being the best.
proof fn lemma_best_ask_after_remove(qs: Seq<Seq<u32>>, qs2: Seq<Seq<u32>>, p: int)
    requires
        qs.len() < NULL_IDX,
        qs2.len() == qs.len(),
        0 <= p < qs.len(),
        qs[p].len() > 0,
        forall|j: int| 0 <= j < qs.len() && j != p ==> qs2[j] == qs[j],
    ensures
        qs2[p].len() > 0 ==> next_ask(qs2, 0) == next_ask(qs, 0),
        qs2[p].len() == 0 && next_ask(qs, 0) == p ==> next_ask(qs2, 0) == next_ask(qs2, p),
        qs2[p].len() == 0 && next_ask(qs, 0) != p ==> next_ask(qs2, 0) == next_ask(qs, 0),
{
    let r = next_ask(qs, 0);
    lemma_next_ask_spec(qs, 0);
    assert(r != NULL_IDX && r <= p) by {
        if r == NULL_IDX || r > p {
            assert(qs[p].len() == 0);
        }
    }
    if qs2[p].len() > 0 || r != p {
        assert forall|j: int| 0 <= j < r implies #[trigger] qs2[j].len() == 0 by {
            assert(qs[j].len() == 0);
        }
        lemma_next_ask_is(qs2, 0, r as int);
    } else {
        assert forall|j: int| 0 <= j < p implies #[trigger] qs2[j].len() == 0 by {
            assert(qs[j].len() == 0);
        }
        lemma_next_ask_skip(qs2, 0, p);
    }
}

impl OrderBook {
    /// What soundness says of one level.
    proof fn lemma_level_facts(&self, pool: &OrderPool, side: bool, p: int)
        requires
            self.structure_ok(pool),
            0 <= p < self.bids@.len(),
        ensures
            pool.wf(),
            self.bids@.len() < NULL_IDX,
            self.queues(side).len() == self.bids@.len(),
            self.queues(!side).len() == self.bids@.len(),
            self.levels(side).len() == self.bids@.len(),
            self.levels(!side).len() == self.bids@.len(),
            self.bitmask(side).len() == self.bids@.len() / 64 + 1,
            level_ok(
                self.levels(side)[p],
                self.queues(side)[p],
                pool.slots(),
                pool.free_list(),
                side,
                p,
                self.map().len() as int,
            ),
            self.queue_at(side, p).no_duplicates(),
            self.queue_at(side, p).len() == 0 <==> self.levels(side)[p].head_idx == NULL_IDX,
            self.queue_at(side, p).len() > 0 ==> self.levels(side)[p].head_idx == self.queue_at(side, p)[0]
                && self.queue_at(side, p)[0] < pool.slots().len() && pool.slots().len() <= NULL_IDX,
            self.levels(side)[p].volume == volume(view_slots(pool.slots()), self.queue_at(side, p)),
            forall|k: int|
                0 <= k < self.queue_at(side, p).len() ==> #[trigger] node_ok(
                    pool.slots(),
                    pool.free_list(),
                    self.queue_at(side, p),
                    k,
                    side,
                    p,
                    self.map().len() as int,
                ),
    {
        let q = self.queue_at(side, p);
        let ml = self.map().len() as int;
        assert(pool.wf() && self.bids@.len() < NULL_IDX && self.queues(side).len() == self.bids@.len()
            && self.queues(!side).len() == self.bids@.len() && self.levels(side).len() == self.bids@.len()
            && self.levels(!side).len() == self.bids@.len()
            && self.bitmask(side).len() == self.bids@.len() / 64 + 1 && level_ok(
            self.levels(side)[p],
            q,
            pool.slots(),
            pool.free_list(),
            side,
            p,
            ml,
        )) by {
            reveal(OrderBook::structure_ok);
        }
        pool.lemma_wf();
        assert(q.no_duplicates() && (q.len() == 0 <==> self.levels(side)[p].head_idx == NULL_IDX)
            && (q.len() > 0 ==> self.levels(side)[p].head_idx == q[0] && q[0] < pool.slots().len())
            && self.levels(side)[p].volume == volume(view_slots(pool.slots()), q) && forall|k: int|
            0 <= k < q.len() ==> #[trigger] node_ok(pool.slots(), pool.free_list(), q, k, side, p, ml)) by {
            reveal(level_ok);
            if q.len() > 0 {
                assert(node_ok(pool.slots(), pool.free_list(), q, 0, side, p, ml));
            }
        }
    }

    proof fn lemma_index_ok_same(b1: &OrderBook, b2: &OrderBook)
        requires
            b1.index_ok(),
            b2.queues(true) == b1.queues(true),
            b2.queues(false) == b1.queues(false),
            b2.bitmask(true) == b1.bitmask(true),
            b2.bitmask(false) == b1.bitmask(false),
            b2.best_bid == b1.best_bid,
            b2.best_ask == b1.best_ask,
            b2.bids@.len() == b1.bids@.len(),
        ensures
            b2.index_ok(),
    {
        reveal(OrderBook::index_ok);
    }

    proof fn lemma_wf_parts(&self, pool: &OrderPool)
        requires
            self.wf(pool),
        ensures
            self.structure_ok(pool),
            self.map_ok(pool, NULL_IDX),
            self.index_ok(),
    {
        reveal(OrderBook::wf);
    }

    proof fn lemma_map_ok_same(b1: &OrderBook, b2: &OrderBook, pool: &OrderPool, except: u32)
        requires
            b1.map_ok(pool, except),
            b2.map() == b1.map(),
            b2.queues(true) == b1.queues(true),
            b2.queues(false) == b1.queues(false),
            b2.bids@.len() == b1.bids@.len(),
        ensures
            b2.map_ok(pool, except),
    {
        reveal(OrderBook::map_ok);
        assert forall|id: int|
            0 <= id < b2.map().len() && #[trigger] b2.map()[id] != NULL_IDX implies {
            let i = b2.map()[id];
            let o = pool.slots()[i as int];
            &&& i < pool.slots().len()
            &&& o.order_id == id
            &&& (i != except ==> o.price < b2.bids@.len() && b2.queues(o.is_bid)[o.price as int].contains(i))
        } by {
            assert(b1.map()[id] == b2.map()[id]);
        }
    }

    proof fn lemma_lens(&self, pool: &OrderPool)
        requires
            self.structure_ok(pool),
        ensures
            self.levels(true).len() == self.bids@.len(),
            self.levels(false).len() == self.bids@.len(),
            self.queues(true).len() == self.bids@.len(),
            self.queues(false).len() == self.bids@.len(),
            self.bids@.len() < NULL_IDX,
            pool.wf(),
    {
        reveal(OrderBook::structure_ok);
    }

    /// Whether a level is empty shows in its head.
    proof fn lemma_level_head(&self, pool: &OrderPool, side: bool, p: int)
        requires
            self.structure_ok(pool),
            0 <= p < self.bids@.len(),
        ensures
            self.queue_at(side, p).len() == 0 <==> self.levels(side)[p].head_idx == NULL_IDX,
            self.levels(side).len() == self.bids@.len(),
            self.levels(!side).len() == self.bids@.len(),
            self.queues(side).len() == self.bids@.len(),
            self.queues(!side).len() == self.bids@.len(),
            self.bitmask(side).len() == self.bids@.len() / 64 + 1,
            self.bids@.len() < NULL_IDX,
    {
        self.lemma_level_facts(pool, side, p);
    }

    /// What the index says of one entry.
    proof fn lemma_map_entry(&self, pool: &OrderPool, except: u32, id: int)
        requires
            self.map_ok(pool, except),
            0 <= id < self.map().len(),
            self.map()[id] != NULL_IDX,
        ensures
            self.map()[id] < pool.slots().len(),
            pool.slots()[self.map()[id] as int].order_id == id,
            ({
                let i = self.map()[id];
                let o = pool.slots()[i as int];
                i != except ==> o.price < self.bids@.len() && self.queues(o.is_bid)[o.price as int].contains(i)
            }),
    {
        reveal(OrderBook::map_ok);
    }

    /// The bitmaps and best prices after level (`side`, `p`), non-empty
    /// before, changed, its bit was cleared if it emptied, and the best price
    /// was searched again if it was that level.
    proof fn lemma_index_after_change(b1: &OrderBook, b2: &OrderBook, side: bool, p: int)
        requires
            b1.index_ok(),
            b1.bids@.len() < NULL_IDX,
            b1.queues(true).len() == b1.bids@.len(),
            b1.queues(false).len() == b1.bids@.len(),
            b2.bids@.len() == b1.bids@.len(),
            0 <= p < b1.bids@.len(),
            b1.queue_at(side, p).len() > 0,
            b2.queues(side) == b1.queues(side).update(p, b2.queue_at(side, p)),
            b2.queues(!side) == b1.queues(!side),
            b2.bitmask(!side) == b1.bitmask(!side),
            b2.bitmask(side).len() == b1.bitmask(side).len(),
            forall|pp: int|
                0 <= pp < b1.bitmask(side).len() * 64 ==> #[trigger] level_bit(b2.bitmask(side), pp) == (
                if b2.queue_at(side, p).len() == 0 {
                    pp != p && level_bit(b1.bitmask(side), pp)
                } else {
                    level_bit(b1.bitmask(side), pp)
                }),
            b2.best_bid == (if side && b2.queue_at(side, p).len() == 0 && b1.best_bid == p {
                prev_bid(b2.queues(true), p)
            } else {
                b1.best_bid
            }),
            b2.best_ask == (if !side && b2.queue_at(side, p).len() == 0 && b1.best_ask == p {
                next_ask(b2.queues(false), p)
            } else {
                b1.best_ask
            }),
        ensures
            b2.index_ok(),
    {
        reveal(OrderBook::index_ok);
        reveal(OrderBook::wf);
        let n = b1.bids@.len();
        assert forall|sd: bool| #[trigger] bitmap_ok(b2.bitmask(sd), b2.queues(sd)) by {
            assert(bitmap_ok(b1.bitmask(sd), b1.queues(sd)));
            if sd == side {
                assert forall|pp: int| 0 <= pp < n implies #[trigger] level_bit(b2.bitmask(sd), pp) == (
                b2.queues(sd)[pp].len() > 0) by {
                    assert(level_bit(b1.bitmask(sd), pp) == (b1.queues(sd)[pp].len() > 0));
                }
                assert forall|pp: int| n <= pp < b2.bitmask(sd).len() * 64 implies !#[trigger] level_bit(
                    b2.bitmask(sd),
                    pp,
                ) by {
                    assert(!level_bit(b1.bitmask(sd), pp));
                }
            }
        }
        if side {
            lemma_best_bid_after_remove(b1.queues(true), b2.queues(true), p);
        } else {
            lemma_best_ask_after_remove(b1.queues(false), b2.queues(false), p);
        }
    }

    proof fn lemma_index_bitmaps(&self)
        requires
            self.index_ok(),
        ensures
            bitmap_ok(self.bitmask(true), self.queues(true)),
            bitmap_ok(self.bitmask(false), self.queues(false)),
            self.best_bid == prev_bid(self.queues(true), self.bids@.len() - 1),
            self.best_ask == next_ask(self.queues(false), 0),
    {
        reveal(OrderBook::index_ok);
    }

    /// Re-marks level (`is_bid`, `price`) after orders left it: an emptied
    /// level loses its bit and, when it was the best, the best price moves on.
    fn refresh_level(&mut self, is_bid: bool, price: u32, Ghost(b0): Ghost<OrderBook>)
        requires
            b0.index_ok(),
            b0.bids@.len() < NULL_IDX,
            b0.queues(true).len() == b0.bids@.len(),
            b0.queues(false).len() == b0.bids@.len(),
            b0.bitmask(is_bid).len() == b0.bids@.len() / 64 + 1,
            old(self).bids@.len() == b0.bids@.len(),
            old(self).levels(is_bid).len() == b0.bids@.len(),
            price < b0.bids@.len(),
            b0.queue_at(is_bid, price as int).len() > 0,
            old(self).queues(is_bid) == b0.queues(is_bid).update(
                price as int,
                old(self).queue_at(is_bid, price as int),
            ),
            old(self).queues(!is_bid) == b0.queues(!is_bid),
            old(self).bitmask(true) == b0.bitmask(true),
            old(self).bitmask(false) == b0.bitmask(false),
            old(self).best_bid == b0.best_bid,
            old(self).best_ask == b0.best_ask,
            old(self).queue_at(is_bid, price as int).len() == 0 <==> old(self).levels(is_bid)[price as int].head_idx
                == NULL_IDX,
        ensures
            final(self).index_ok(),
            final(self).bids == old(self).bids,
            final(self).asks == old(self).asks,
            final(self).queues(true) == old(self).queues(true),
            final(self).queues(false) == old(self).queues(false),
            final(self).map() == old(self).map(),
            final(self).bitmask(true).len() == old(self).bitmask(true).len(),
            final(self).bitmask(false).len() == old(self).bitmask(false).len(),
            final(self).best_bid == (if is_bid && old(self).queue_at(is_bid, price as int).len() == 0
                && b0.best_bid == price {
                prev_bid(old(self).queues(true), price as int)
            } else {
                b0.best_bid
            }),
            final(self).best_ask == (if !is_bid && old(self).queue_at(is_bid, price as int).len() == 0
                && b0.best_ask == price {
                next_ask(old(self).queues(false), price as int)
            } else {
                b0.best_ask
            }),
    {
        let ghost p = price as int;
        proof {
            b0.lemma_index_bitmaps();
        }
        let is_empty = self.get_level(is_bid, price).head_idx == NULL_IDX;
        if is_empty {
            self.clear_bit(is_bid, price);
            proof {
                lemma_bitmap_after_clear(
                    b0.bitmask(is_bid),
                    self.bitmask(is_bid),
                    b0.queues(is_bid),
                    self.queues(is_bid),
                    p,
                );
            }
            if is_bid && self.best_bid == price {
                self.best_bid = self.find_next_bid(price);
            } else if !is_bid && self.best_ask == price {
                self.best_ask = self.find_next_ask(price);
            }
        }
        proof {
            OrderBook::lemma_index_after_change(&b0, self, is_bid, p);
        }
    }

    /// Takes the resting order in slot `idx`, owned by the caller, out of
    /// the book and publishes its cancel event.
    fn cancel_resting(
        &mut self,
        pool: &mut OrderPool,
        order_id: u32,
        idx: u32,
        ticker_id: u16,
        egress_buf: &mut Vec<MarketDataEvent>,
    )
        requires
            old(self).wf(old(pool)),
            order_id < old(self).map().len(),
            old(self).map()[order_id as int] == idx,
            idx != NULL_IDX,
        ensures
            final(self).wf(final(pool)),
            ({
                let m = old(self).market(old(pool));
                let o = m.slots[idx as int];
                let q = m.queue(o.is_bid, o.price as int);
                let q2 = q.remove(q.index_of(idx));
                let m1 = m.with_queue(o.is_bid, o.price as int, q2).release(idx);
                final(self).market(final(pool)) == (if q2.len() == 0 && o.is_bid && m.best_bid == o.price {
                    Market { best_bid: prev_bid(m1.bids, o.price as int), ..m1 }
                } else if q2.len() == 0 && !o.is_bid && m.best_ask == o.price {
                    Market { best_ask: next_ask(m1.asks, o.price as int), ..m1 }
                } else {
                    m1
                })
            }),
            final(egress_buf)@ == old(egress_buf)@.push(
                cancel_event(ticker_id, old(pool).slots()[idx as int].price),
            ),
    {
        proof {
            self.lemma_wf_parts(pool);
            self.lemma_map_entry(pool, NULL_IDX, order_id as int);
        }
        let o = pool.get(idx);
        let price = o.price;
        let is_bid = o.is_bid;
        let ghost p = price as int;
        let ghost q = self.queue_at(is_bid, p);
        let ghost k = q.index_of(idx);
        proof {
            self.lemma_level_facts(pool, is_bid, p);
            assert(node_ok(pool.slots(), pool.free_list(), q, k, is_bid, p, self.map().len() as int));
        }
        self.unlink_order(pool, is_bid, price, o.prev_idx, o.next_idx, o.quantity, Ghost(k));
        let ghost b1 = *self;
        proof {
            self.lemma_level_head(pool, is_bid, p);
        }
        self.refresh_level(is_bid, price, Ghost(*old(self)));
        proof {
            OrderBook::lemma_structure_same(&b1, self, pool);
            OrderBook::lemma_map_ok_same(&b1, self, pool, idx);
            lemma_remove_absent(q, k);
        }
        let ghost b2 = *self;
        self.release_slot(pool, idx);
        egress_buf.push(MarketDataEvent { event_type: 3, ticker_id, price, quantity: 0 });
        proof {
            OrderBook::lemma_index_ok_same(&b2, self);
            reveal(OrderBook::wf);
            let m = old(self).market(old(pool));
            let q2 = q.remove(k);
            let m1 = m.with_queue(is_bid, p, q2).release(idx);
            assert(self.market(pool) =~= (if q2.len() == 0 && is_bid && m.best_bid == price {
                Market { best_bid: prev_bid(m1.bids, p), ..m1 }
            } else if q2.len() == 0 && !is_bid && m.best_ask == price {
                Market { best_ask: next_ask(m1.asks, p), ..m1 }
            } else {
                m1
            }));
        }
    }

    /// Cancels order `order_id` when it rests and belongs to `user_id`,
    /// publishing a cancel event; does nothing otherwise.
    pub fn cancel_order(
        &mut self,
        pool: &mut OrderPool,
        order_id: u32,
        user_id: u16,
        ticker_id: u16,
        egress_buf: &mut Vec<MarketDataEvent>,
    )
        requires
            old(self).wf(old(pool)),
        ensures
            final(self).wf(final(pool)),
            final(self).market(final(pool)) == cancel(old(self).market(old(pool)), order_id, user_id, ticker_id).0,
            final(egress_buf)@ == old(egress_buf)@ + cancel(old(self).market(old(pool)), order_id, user_id, ticker_id).1,
    {
        if (order_id as usize) >= self.order_map.len() {
            assert(egress_buf@ =~= old(egress_buf)@ + seq![]);
            return;
        }
        let idx = self.order_map[order_id as usize];
        if idx == NULL_IDX {
            assert(egress_buf@ =~= old(egress_buf)@ + seq![]);
            return;
        }
        proof {
            reveal(OrderBook::wf);
            self.lemma_map_entry(pool, NULL_IDX, order_id as int);
        }
        let owner = pool.get(idx).user_id;
        if owner != user_id {
            assert(egress_buf@ =~= old(egress_buf)@ + seq![]);
            return;
        }
        self.cancel_resting(pool, order_id, idx, ticker_id, egress_buf);
        assert(egress_buf@ =~= old(egress_buf)@ + cancel(old(self).market(old(pool)), order_id, user_id, ticker_id).1);
    }
}

/// Clearing the bit of a level that emptied keeps a bitmap exact.
proof fn lemma_bitmap_after_clear(w1: Seq<u64>, w2: Seq<u64>, qs1: Seq<Seq<u32>>, qs2: Seq<Seq<u32>>, p: int)
    requires
        bitmap_ok(w1, qs1),
        qs2.len() == qs1.len(),
        0 <= p < qs1.len(),
        qs2[p].len() == 0,
        forall|j: int| 0 <= j < qs1.len() && j != p ==> qs2[j] == qs1[j],
        w2.len() == w1.len(),
        forall|pp: int| 0 <= pp < w1.len() * 64 ==> #[trigger] level_bit(w2, pp) == (pp != p && level_bit(w1, pp)),
    ensures
        bitmap_ok(w2, qs2),
{
    assert forall|pp: int| 0 <= pp < qs2.len() implies #[trigger] level_bit(w2, pp) == (qs2[pp].len() > 0) by {
        assert(level_bit(w1, pp) == (qs1[pp].len() > 0));
    }
    assert forall|pp: int| qs2.len() <= pp < w2.len() * 64 implies !#[trigger] level_bit(w2, pp) by {
        assert(!level_bit(w1, pp));
    }
}

/// A queue without duplicates no longer holds the node taken out of it.
proof fn lemma_remove_absent(q: Seq<u32>, k: int)
    requires
        q.no_duplicates(),
        0 <= k < q.len(),
    ensures
        !q.remove(k).contains(q[k]),
{
    let q2 = q.remove(k);
    if q2.contains(q[k]) {
        let c = choose|c: int| 0 <= c < q2.len() && q2[c] == q[k];
        if c < k {
            assert(q2[c] == q[c]);
        } else {
            assert(q2[c] == q[c + 1]);
        }
    }
}

impl OrderBook {
    /// The index entries only depend on each slot's id, price and side.
    proof fn lemma_map_ok_slots(b: &OrderBook, pool1: &OrderPool, pool2: &OrderPool, except: u32)
        requires
            b.map_ok(pool1, except),
            pool2.slots().len() == pool1.slots().len(),
            forall|i: int|
                0 <= i < pool1.slots().len() ==> (#[trigger] pool2.slots()[i]).order_id
                    == pool1.slots()[i].order_id && pool2.slots()[i].price == pool1.slots()[i].price
                    && pool2.slots()[i].is_bid == pool1.slots()[i].is_bid,
        ensures
            b.map_ok(pool2, except),
    {
        reveal(OrderBook::map_ok);
        assert forall|id: int|
            0 <= id < b.map().len() && #[trigger] b.map()[id] != NULL_IDX implies {
            let i = b.map()[id];
            let o = pool2.slots()[i as int];
            &&& i < pool2.slots().len()
            &&& o.order_id == id
            &&& (i != except ==> o.price < b.bids@.len() && b.queues(o.is_bid)[o.price as int].contains(i))
        } by {
            let i = b.map()[id];
            assert(pool2.slots()[i as int].order_id == pool1.slots()[i as int].order_id);
        }
    }

    /// Lowers the visible quantity of node `k` of level (`is_bid`, `price`)
    /// and the level's volume with it.
    fn set_queued_quantity(
        &mut self,
        pool: &mut OrderPool,
        is_bid: bool,
        price: u32,
        idx: u32,
        new_qty: u32,
        Ghost(k): Ghost<int>,
    )
        requires
            old(self).structure_ok(old(pool)),
            price < old(self).bids@.len(),
            0 <= k < old(self).queue_at(is_bid, price as int).len(),
            idx == old(self).queue_at(is_bid, price as int)[k],
            new_qty <= old(pool).slots()[old(self).queue_at(is_bid, price as int)[k] as int].quantity,
        ensures
            final(self).structure_ok(final(pool)),
            view_slots(final(pool).slots()) == view_slots(old(pool).slots()).update(
                old(self).queue_at(is_bid, price as int)[k] as int,
                RestingOrder {
                    quantity: new_qty,
                    ..view_slots(old(pool).slots())[old(self).queue_at(is_bid, price as int)[k] as int]
                },
            ),
            final(pool).free_list() == old(pool).free_list(),
            final(self).queues(true) == old(self).queues(true),
            final(self).queues(false) == old(self).queues(false),
            final(self).map() == old(self).map(),
            final(self).bitmask(true) == old(self).bitmask(true),
            final(self).bitmask(false) == old(self).bitmask(false),
            final(self).best_bid == old(self).best_bid,
            final(self).best_ask == old(self).best_ask,
            final(self).bids@.len() == old(self).bids@.len(),
            forall|x: u32| old(self).map_ok(old(pool), x) ==> #[trigger] final(self).map_ok(final(pool), x),
    {
        let ghost p = price as int;
        let ghost q = self.queue_at(is_bid, p);
        let ghost ml = self.map().len() as int;
        proof {
            self.lemma_level_facts(pool, is_bid, p);
            assert(node_ok(pool.slots(), pool.free_list(), q, k, is_bid, p, ml));
        }
        let mut o = pool.get(idx);
        let old_qty = o.quantity;
        o.quantity = new_qty;
        pool.put(idx, o);
        let mut level = self.get_level(is_bid, price);
        proof {
            let s1 = view_slots(old(pool).slots());
            lemma_volume_update(s1, q, k, resting(o));
            assert(view_slots(pool.slots()) =~= s1.update(idx as int, resting(o)));
            assert(qty_at(s1, idx) == old_qty);
        }
        level.volume = level.volume - (old_qty - new_qty);
        self.put_level(is_bid, price, level);
        proof {
            let s1 = old(pool).slots();
            let s2 = pool.slots();
            let f = pool.free_list();
            assert(view_slots(s2) =~= view_slots(s1).update(idx as int, resting(o)));
            assert(level_ok(level, q, s2, f, is_bid, p, ml)) by {
                reveal(level_ok);
                assert forall|j: int| 0 <= j < q.len() implies #[trigger] node_ok(s2, f, q, j, is_bid, p, ml) by {
                    assert(node_ok(s1, f, q, j, is_bid, p, ml));
                }
            }
            assert forall|j: u32|
                j < s1.len() && (s2[j as int] != s1[j as int] || (f.contains(j) && !f.contains(j))) implies (
            f.contains(j) || (s1[j as int].price == p && s1[j as int].is_bid == is_bid)) by {
                if j != idx {
                    assert(s2[j as int] == s1[j as int]);
                }
            }
            OrderBook::lemma_structure_after(old(self), old(pool), self, pool, is_bid, p);
            assert forall|x: u32| old(self).map_ok(old(pool), x) implies #[trigger] self.map_ok(pool, x) by {
                OrderBook::lemma_map_ok_same(old(self), self, old(pool), x);
                OrderBook::lemma_map_ok_slots(self, old(pool), pool, x);
            }
        }
    }
}

impl OrderBook {
    /// Overwrites slot `idx`, which rests in no level and is not free,
    /// keeping its id, price and side.
    fn rewrite_detached(&self, pool: &mut OrderPool, idx: u32, o: Order)
        requires
            self.structure_ok(old(pool)),
            idx < old(pool).slots().len(),
            !old(pool).free_list().contains(idx),
            old(pool).slots()[idx as int].price < self.bids@.len(),
            !self.queue_at(
                old(pool).slots()[idx as int].is_bid,
                old(pool).slots()[idx as int].price as int,
            ).contains(idx),
            o.price == old(pool).slots()[idx as int].price,
            o.is_bid == old(pool).slots()[idx as int].is_bid,
            o.order_id == old(pool).slots()[idx as int].order_id,
        ensures
            self.structure_ok(final(pool)),
            final(pool).slots() == old(pool).slots().update(idx as int, o),
            final(pool).free_list() == old(pool).free_list(),
            forall|x: u32| self.map_ok(old(pool), x) ==> #[trigger] self.map_ok(final(pool), x),
    {
        proof {
            self.lemma_level_facts(old(pool), o.is_bid, o.price as int);
        }
        pool.put(idx, o);
        proof {
            let s1 = old(pool).slots();
            let s2 = pool.slots();
            let f = pool.free_list();
            let side = o.is_bid;
            let p = o.price as int;
            let q = self.queue_at(side, p);
            let ml = self.map().len() as int;
            assert forall|k: int| 0 <= k < q.len() implies s2[#[trigger] q[k] as int] == s1[q[k] as int]
                && !f.contains(q[k]) by {
                assert(node_ok(s1, f, q, k, side, p, ml));
            }
            lemma_level_frame(self.levels(side)[p], q, s1, f, s2, f, side, p, ml);
            assert forall|j: u32|
                j < s1.len() && (s2[j as int] != s1[j as int] || (f.contains(j) && !f.contains(j))) implies (
            f.contains(j) || (s1[j as int].price == p && s1[j as int].is_bid == side)) by {
                if j != idx {
                    assert(s2[j as int] == s1[j as int]);
                }
            }
            OrderBook::lemma_structure_after(self, old(pool), self, pool, side, p);
            assert forall|x: u32| self.map_ok(old(pool), x) implies #[trigger] self.map_ok(pool, x) by {
                OrderBook::lemma_map_ok_slots(self, old(pool), pool, x);
            }
        }
    }

    /// One round of matching at the front of level (`is_bid`, `price`).
    /// Returns what is left to match and the node matching goes on with.
    fn execute_step(
        &mut self,
        pool: &mut OrderPool,
        is_bid: bool,
        price: u32,
        current_idx: u32,
        aggressive_qty: u32,
        ticker_id: u16,
        user_id: u16,
        egress_buf: &mut Vec<MarketDataEvent>,
    ) -> (res: (u32, u32))
        requires
            old(self).structure_ok(old(pool)),
            old(self).map_ok(old(pool), NULL_IDX),
            price < old(self).bids@.len(),
            old(self).queue_at(is_bid, price as int).len() > 0,
            current_idx == old(self).queue_at(is_bid, price as int)[0],
            aggressive_qty > 0,
            level_step(
                old(self).market(old(pool)),
                is_bid,
                price as int,
                aggressive_qty,
                ticker_id,
                user_id,
            ).ok,
        ensures
            ({
                let st = level_step(
                    old(self).market(old(pool)),
                    is_bid,
                    price as int,
                    aggressive_qty,
                    ticker_id,
                    user_id,
                );
                let q2 = final(self).queue_at(is_bid, price as int);
                &&& final(self).structure_ok(final(pool))
                &&& final(self).map_ok(final(pool), NULL_IDX)
                &&& final(self).market(final(pool)) == st.market
                &&& res.0 == st.remaining
                &&& final(egress_buf)@ == old(egress_buf)@ + st.events
                &&& (st.more ==> res.1 == (if q2.len() > 0 { q2[0] } else { NULL_IDX }))
                &&& (!st.more ==> (res.1 == NULL_IDX || res.0 == 0))
                &&& (res.0 < aggressive_qty || (res.0 == aggressive_qty && level_weight(
                    final(self).market(final(pool)).slots,
                    q2,
                ) < level_weight(old(self).market(old(pool)).slots, old(self).queue_at(is_bid, price as int))))
            }),
            final(self).bitmask(true) == old(self).bitmask(true),
            final(self).bitmask(false) == old(self).bitmask(false),
            final(self).bids@.len() == old(self).bids@.len(),
    {
        let ghost p = price as int;
        let ghost q = self.queue_at(is_bid, p);
        let ghost m = self.market(pool);
        let ghost ml = self.map().len() as int;
        proof {
            self.lemma_level_facts(pool, is_bid, p);
            assert(node_ok(pool.slots(), pool.free_list(), q, 0, is_bid, p, ml));
            if q.len() > 1 {
                assert(node_ok(pool.slots(), pool.free_list(), q, 1, is_bid, p, ml));
            }
            lemma_remove_absent(q, 0);
            assert(q.remove(0) =~= q.drop_first());
            lemma_weight_drop_first(m.slots, q);
        }
        let o = pool.get(current_idx);
        let next_idx = o.next_idx;
        if o.user_id == user_id {
            self.unlink_order(pool, is_bid, price, o.prev_idx, o.next_idx, o.quantity, Ghost(0));
            self.release_slot(pool, current_idx);
            proof {
                assert(self.market(pool) =~= m.with_queue(is_bid, p, q.drop_first()).release(current_idx));
                assert(egress_buf@ =~= old(egress_buf)@ + seq![]);
            }
            return (aggressive_qty, next_idx);
        }
        let trade_qty = if o.quantity <= aggressive_qty {
            o.quantity
        } else {
            aggressive_qty
        };
        egress_buf.push(MarketDataEvent { event_type: 1, ticker_id, price, quantity: trade_qty });
        if o.quantity <= aggressive_qty {
            let remaining = aggressive_qty - o.quantity;
            self.unlink_order(pool, is_bid, price, o.prev_idx, o.next_idx, o.quantity, Ghost(0));
            if o.hidden_quantity > 0 {
                let replenish = if o.hidden_quantity > o.display_clip {
                    o.display_clip
                } else {
                    o.hidden_quantity
                };
                let mut refilled = pool.get(current_idx);
                refilled.quantity = replenish;
                refilled.hidden_quantity = o.hidden_quantity - replenish;
                self.rewrite_detached(pool, current_idx, refilled);
                proof {
                    self.lemma_level_facts(pool, is_bid, p);
                    let s1 = view_slots(old(pool).slots());
                    let s2 = view_slots(pool.slots());
                    assert(s2 =~= s1.update(current_idx as int, resting(refilled)));
                    assert forall|j: int| 0 <= j < q.drop_first().len() implies qty_at(s1, #[trigger] q.drop_first()[j])
                        == qty_at(s2, q.drop_first()[j]) by {
                        assert(q.drop_first()[j] == q[j + 1]);
                        assert(q[j + 1] != q[0]);
                    }
                    lemma_volume_frame(s1, s2, q.drop_first());
                }
                self.append_order(pool, is_bid, price, current_idx);
                proof {
                    let o2 = resting(refilled);
                    assert(self.market(pool) =~= m.with_queue(is_bid, p, q.drop_first().push(current_idx)).with_slot(
                        current_idx,
                        o2,
                    ));
                    if q.len() > 1 {
                        lemma_weight_requeue(m.slots, q, o2);
                    } else {
                        lemma_hidden_push(m.slots.update(current_idx as int, o2), q.drop_first(), current_idx);
                        assert(q.drop_first().len() == 0);
                        assert(hidden(m.slots, q) == m.slots[q[0] as int].hidden_quantity) by {
                            assert(hidden(m.slots, q.drop_first()) == 0);
                        }
                    }
                }
                return (remaining, next_idx);
            } else {
                self.release_slot(pool, current_idx);
                proof {
                    assert(self.market(pool) =~= m.with_queue(is_bid, p, q.drop_first()).release(current_idx));
                }
                return (remaining, next_idx);
            }
        } else {
            let remaining_visible = o.quantity - aggressive_qty;
            self.set_queued_quantity(pool, is_bid, price, current_idx, remaining_visible, Ghost(0));
            proof {
                assert(self.market(pool) =~= m.with_slot(
                    current_idx,
                    RestingOrder { quantity: remaining_visible, ..m.slots[current_idx as int] },
                ));
            }
            return (0, next_idx);
        }
    }
}

impl OrderBook {
    /// The levels, the pool and the order-id index agree; the bitmaps and
    /// best prices may lag behind.
    pub closed spec fn core_ok(&self, pool: &OrderPool) -> bool {
        self.structure_ok(pool) && self.map_ok(pool, NULL_IDX)
    }

    pub proof fn lemma_wf_core(&self, pool: &OrderPool)
        requires
            self.wf(pool),
        ensures
            self.core_ok(pool),
    {
        reveal(OrderBook::wf);
    }

    /// Matches up to `aggressive_qty` against level (`is_bid_level`,
    /// `price`) front to back and returns what is left unfilled. An order of
    /// `user_id` met on the way is cancelled instead of traded; a filled
    /// iceberg order shows its next clip at the back of the level. Every
    /// trade is published.
    pub fn execute_level(
        &mut self,
        pool: &mut OrderPool,
        is_bid_level: bool,
        price: u32,
        aggressive_qty: u32,
        ticker_id: u16,
        user_id: u16,
        egress_buf: &mut Vec<MarketDataEvent>,
    ) -> (remaining: u32)
        requires
            old(self).core_ok(old(pool)),
            price < old(self).levels(is_bid_level).len(),
            run_level(
                old(self).market(old(pool)),
                is_bid_level,
                price as int,
                aggressive_qty,
                ticker_id,
                user_id,
            ).ok,
        ensures
            final(self).core_ok(final(pool)),
            final(self).market(final(pool)) == run_level(
                old(self).market(old(pool)),
                is_bid_level,
                price as int,
                aggressive_qty,
                ticker_id,
                user_id,
            ).market,
            remaining == run_level(
                old(self).market(old(pool)),
                is_bid_level,
                price as int,
                aggressive_qty,
                ticker_id,
                user_id,
            ).remaining,
            final(egress_buf)@ == old(egress_buf)@ + run_level(
                old(self).market(old(pool)),
                is_bid_level,
                price as int,
                aggressive_qty,
                ticker_id,
                user_id,
            ).events,
            final(self).bitmask(true) == old(self).bitmask(true),
            final(self).bitmask(false) == old(self).bitmask(false),
            final(self).levels(true).len() == old(self).levels(true).len(),
            final(self).levels(false).len() == old(self).levels(false).len(),
    {
        let ghost p = price as int;
        let ghost target = run_level(self.market(pool), is_bid_level, p, aggressive_qty, ticker_id, user_id);
        proof {
            reveal(OrderBook::core_ok);
            self.lemma_lens(pool);
            self.lemma_level_facts(pool, is_bid_level, p);
            if self.queue_at(is_bid_level, p).len() > 0 {
                assert(node_ok(pool.slots(), pool.free_list(), self.queue_at(is_bid_level, p), 0, is_bid_level, p, self.map().len() as int));
            }
            assert(egress_buf@ + target.events =~= old(egress_buf)@ + target.events);
        }
        let mut agg = aggressive_qty;
        let mut current_idx = self.get_level(is_bid_level, price).head_idx;
        let ghost mut done = false;
        while current_idx != NULL_IDX && agg > 0
            invariant
                self.structure_ok(pool),
                self.map_ok(pool, NULL_IDX),
                p == price,
                price < self.bids@.len(),
                self.bids@.len() == old(self).bids@.len(),
                self.bitmask(true) == old(self).bitmask(true),
                self.bitmask(false) == old(self).bitmask(false),
                target == run_level(
                    old(self).market(old(pool)),
                    is_bid_level,
                    p,
                    aggressive_qty,
                    ticker_id,
                    user_id,
                ),
                done ==> self.market(pool) == target.market && agg == target.remaining
                    && egress_buf@ == old(egress_buf)@ + target.events,
                done ==> (current_idx == NULL_IDX || agg == 0),
                !done ==> ({
                    let r = run_level(self.market(pool), is_bid_level, p, agg, ticker_id, user_id);
                    &&& r.market == target.market
                    &&& r.remaining == target.remaining
                    &&& egress_buf@ + r.events == old(egress_buf)@ + target.events
                    &&& r.ok
                }),
                !done ==> current_idx == (if self.queue_at(is_bid_level, p).len() > 0 {
                    self.queue_at(is_bid_level, p)[0]
                } else {
                    NULL_IDX
                }),
            decreases agg, level_weight(self.market(pool).slots, self.queue_at(is_bid_level, p)),
        {
            let ghost m = self.market(pool);
            let ghost eg = egress_buf@;
            let ghost st = level_step(m, is_bid_level, p, agg, ticker_id, user_id);
            proof {
                self.lemma_level_facts(pool, is_bid_level, p);
                let q = self.queue_at(is_bid_level, p);
                assert(!done);
                if !done {
                    assert(q.len() > 0);
                    assert(node_ok(pool.slots(), pool.free_list(), q, 0, is_bid_level, p, self.map().len() as int));
                    lemma_run_level_unfold(m, is_bid_level, p, agg, ticker_id, user_id);
                }
            }
            let (a2, nxt) = self.execute_step(pool, is_bid_level, price, current_idx, agg, ticker_id, user_id, egress_buf);
            proof {
                let r2 = run_level(st.market, is_bid_level, p, st.remaining, ticker_id, user_id);
                if st.more {
                    assert(egress_buf@ + r2.events =~= eg + (st.events + r2.events));
                } else {
                    done = true;
                }
            }
            agg = a2;
            current_idx = nxt;
        }
        proof {
            self.lemma_lens(pool);
            old(self).lemma_lens(old(pool));
            self.lemma_level_facts(pool, is_bid_level, p);
            if !done {
                let q = self.queue_at(is_bid_level, p);
                assert(q.len() == 0 || agg == 0);
                let r = run_level(self.market(pool), is_bid_level, p, agg, ticker_id, user_id);
                assert(r.events =~= seq![]);
                assert(egress_buf@ + r.events =~= egress_buf@);
            }
            reveal(OrderBook::core_ok);
        }
        agg
    }
}

impl OrderBook {
    proof fn lemma_wf_from_parts(&self, pool: &OrderPool)
        requires
            self.structure_ok(pool),
            self.map_ok(pool, NULL_IDX),
            self.index_ok(),
        ensures
            self.wf(pool),
    {
        reveal(OrderBook::wf);
    }

    /// After one level of a sweep: the book is sound again.
    proof fn lemma_sweep_round_wf(
        b0: &OrderBook,
        pool0: &OrderPool,
        b1: &OrderBook,
        b2: &OrderBook,
        pool: &OrderPool,
        side: bool,
        p: int,
    )
        requires
            b0.wf(pool0),
            0 <= p < b0.bids@.len(),
            b0.queue_at(side, p).len() > 0,
            b1.core_ok(pool),
            b1.bitmask(true) == b0.bitmask(true),
            b1.bitmask(false) == b0.bitmask(false),
            b1.best_bid == b0.best_bid,
            b1.best_ask == b0.best_ask,
            b1.bids@.len() == b0.bids@.len(),
            b1.queues(side) == b0.queues(side).update(p, b1.queue_at(side, p)),
            b1.queues(!side) == b0.queues(!side),
            b2.bids == b1.bids,
            b2.asks == b1.asks,
            b2.queues(true) == b1.queues(true),
            b2.queues(false) == b1.queues(false),
            b2.map() == b1.map(),
            b2.bitmask(true).len() == b1.bitmask(true).len(),
            b2.bitmask(false).len() == b1.bitmask(false).len(),
            b2.bitmask(!side) == b1.bitmask(!side),
            forall|pp: int|
                0 <= pp < b0.bitmask(side).len() * 64 ==> #[trigger] level_bit(b2.bitmask(side), pp) == (
                if b2.queue_at(side, p).len() == 0 {
                    pp != p && level_bit(b0.bitmask(side), pp)
                } else {
                    level_bit(b0.bitmask(side), pp)
                }),
            b2.best_bid == (if side && b2.queue_at(side, p).len() == 0 && b0.best_bid == p {
                prev_bid(b2.queues(true), p)
            } else {
                b0.best_bid
            }),
            b2.best_ask == (if !side && b2.queue_at(side, p).len() == 0 && b0.best_ask == p {
                next_ask(b2.queues(false), p)
            } else {
                b0.best_ask
            }),
        ensures
            b2.wf(pool),
    {
        reveal(OrderBook::core_ok);
        b0.lemma_wf_parts(pool0);
        b0.lemma_lens(pool0);
        b1.lemma_lens(pool);
        OrderBook::lemma_structure_same(b1, b2, pool);
        OrderBook::lemma_map_ok_same(b1, b2, pool, NULL_IDX);
        OrderBook::lemma_index_after_change(b0, b2, side, p);
        b2.lemma_wf_from_parts(pool);
    }

    /// A buy order's sweep of the ask levels at or under `price`; returns
    /// what is left of `total_quantity`.
    fn match_asks(
        &mut self,
        pool: &mut OrderPool,
        price: u32,
        total_quantity: u32,
        ticker_id: u16,
        user_id: u16,
        egress_buf: &mut Vec<MarketDataEvent>,
    ) -> (remaining: u32)
        requires
            old(self).wf(old(pool)),
            take_asks(old(self).market(old(pool)), price, total_quantity, ticker_id, user_id).ok,
        ensures
            final(self).wf(final(pool)),
            final(self).market(final(pool)) == take_asks(
                old(self).market(old(pool)),
                price,
                total_quantity,
                ticker_id,
                user_id,
            ).market,
            remaining == take_asks(old(self).market(old(pool)), price, total_quantity, ticker_id, user_id).remaining,
            final(egress_buf)@ == old(egress_buf)@ + take_asks(
                old(self).market(old(pool)),
                price,
                total_quantity,
                ticker_id,
                user_id,
            ).events,
    {
        let ghost target = take_asks(self.market(pool), price, total_quantity, ticker_id, user_id);
        proof {
            assert(egress_buf@ + target.events =~= old(egress_buf)@ + target.events);
        }
        let mut total = total_quantity;
        while total > 0 && self.best_ask != NULL_IDX && price >= self.best_ask
            invariant
                self.wf(pool),
                target == take_asks(old(self).market(old(pool)), price, total_quantity, ticker_id, user_id),
                ({
                    let t = take_asks(self.market(pool), price, total, ticker_id, user_id);
                    &&& t.market == target.market
                    &&& t.remaining == target.remaining
                    &&& egress_buf@ + t.events == old(egress_buf)@ + target.events
                    &&& t.ok
                }),
            decreases
                total,
                ask_distance(self.market(pool)),
                level_weight(self.market(pool).slots, self.market(pool).asks[self.best_ask as int]),
        {
            let ghost m = self.market(pool);
            let ghost eg = egress_buf@;
            let ghost b0 = *self;
            let ghost pool0 = *pool;
            let b = self.best_ask;
            let ghost bp = b as int;
            proof {
                self.lemma_wf_parts(pool);
                self.lemma_lens(pool);
                self.lemma_index_bitmaps();
                lemma_next_ask_spec(self.queues(false), 0);
                self.lemma_level_facts(pool, false, bp);
                assert(node_ok(pool.slots(), pool.free_list(), self.queue_at(false, bp), 0, false, bp, self.map().len() as int));
                lemma_run_level_progress(m, false, bp, total, ticker_id, user_id);
                lemma_run_level_frame(m, false, bp, total, ticker_id, user_id);
                self.lemma_wf_core(pool);
            }
            let ghost r = run_level(m, false, bp, total, ticker_id, user_id);
            total = self.execute_level(pool, false, b, total, ticker_id, user_id, egress_buf);
            let ghost b1 = *self;
            proof {
                reveal(OrderBook::core_ok);
                self.lemma_level_head(pool, false, bp);
                assert forall|j: int| 0 <= j < b0.queues(false).len() && j != bp implies self.queues(false)[j] == b0.queues(false)[j] by {
                    assert(r.market.levels(false)[j] == m.levels(false)[j]);
                }
                assert(r.market.levels(!false) == m.levels(!false));
                assert(self.queues(false) =~= b0.queues(false).update(bp, self.queue_at(false, bp)));
                assert(self.queues(!false) =~= b0.queues(!false));
            }
            if self.asks[b as usize].head_idx == NULL_IDX {
                proof {
                    b0.lemma_index_bitmaps();
                }
                self.clear_bit(false, b);
                proof {
                    lemma_bitmap_after_clear(b0.bitmask(false), self.bitmask(false), b0.queues(false), self.queues(false), bp);
                }
                self.best_ask = self.find_next_ask(b);
            }
            proof {
                OrderBook::lemma_sweep_round_wf(&b0, &pool0, &b1, self, pool, false, bp);
                let m1 = r.market;
                let emptied = m1.asks[bp].len() == 0;
                let m2 = if emptied {
                    Market { best_ask: next_ask(m1.asks, bp), ..m1 }
                } else {
                    m1
                };
                assert(self.market(pool) =~= m2);
                let r2 = take_asks(m2, price, r.remaining, ticker_id, user_id);
                assert(egress_buf@ + r2.events =~= eg + (r.events + r2.events));
                if emptied {
                    lemma_next_ask_skips(m1.asks, bp);
                }
            }
        }
        proof {
            assert(take_asks(self.market(pool), price, total, ticker_id, user_id).events =~= seq![]);
            assert(egress_buf@ + seq![] =~= egress_buf@);
            self.lemma_wf_parts(pool);
            self.lemma_lens(pool);
        }
        total
    }

    /// A sell order's sweep of the bid levels at or over `price`; returns
    /// what is left of `total_quantity`.
    fn match_bids(
        &mut self,
        pool: &mut OrderPool,
        price: u32,
        total_quantity: u32,
        ticker_id: u16,
        user_id: u16,
        egress_buf: &mut Vec<MarketDataEvent>,
    ) -> (remaining: u32)
        requires
            old(self).wf(old(pool)),
            take_bids(old(self).market(old(pool)), price, total_quantity, ticker_id, user_id).ok,
        ensures
            final(self).wf(final(pool)),
            final(self).market(final(pool)) == take_bids(
                old(self).market(old(pool)),
                price,
                total_quantity,
                ticker_id,
                user_id,
            ).market,
            remaining == take_bids(old(self).market(old(pool)), price, total_quantity, ticker_id, user_id).remaining,
            final(egress_buf)@ == old(egress_buf)@ + take_bids(
                old(self).market(old(pool)),
                price,
                total_quantity,
                ticker_id,
                user_id,
            ).events,
    {
        let ghost target = take_bids(self.market(pool), price, total_quantity, ticker_id, user_id);
        proof {
            assert(egress_buf@ + target.events =~= old(egress_buf)@ + target.events);
        }
        let mut total = total_quantity;
        while total > 0 && self.best_bid > 0 && price <= self.best_bid
            invariant
                self.wf(pool),
                target == take_bids(old(self).market(old(pool)), price, total_quantity, ticker_id, user_id),
                ({
                    let t = take_bids(self.market(pool), price, total, ticker_id, user_id);
                    &&& t.market == target.market
                    &&& t.remaining == target.remaining
                    &&& egress_buf@ + t.events == old(egress_buf)@ + target.events
                    &&& t.ok
                }),
            decreases
                total,
                bid_distance(self.market(pool)),
                level_weight(self.market(pool).slots, self.market(pool).bids[self.best_bid as int]),
        {
            let ghost m = self.market(pool);
            let ghost eg = egress_buf@;
            let ghost b0 = *self;
            let ghost pool0 = *pool;
            let b = self.best_bid;
            let ghost bp = b as int;
            proof {
                self.lemma_wf_parts(pool);
                self.lemma_lens(pool);
                self.lemma_index_bitmaps();
                lemma_prev_bid_spec(self.queues(true), self.bids@.len() - 1);
                self.lemma_level_facts(pool, true, bp);
                assert(node_ok(pool.slots(), pool.free_list(), self.queue_at(true, bp), 0, true, bp, self.map().len() as int));
                lemma_run_level_progress(m, true, bp, total, ticker_id, user_id);
                lemma_run_level_frame(m, true, bp, total, ticker_id, user_id);
                self.lemma_wf_core(pool);
            }
            let ghost r = run_level(m, true, bp, total, ticker_id, user_id);
            total = self.execute_level(pool, true, b, total, ticker_id, user_id, egress_buf);
            let ghost b1 = *self;
            proof {
                reveal(OrderBook::core_ok);
                self.lemma_level_head(pool, true, bp);
                assert forall|j: int| 0 <= j < b0.queues(true).len() && j != bp implies self.queues(true)[j] == b0.queues(true)[j] by {
                    assert(r.market.levels(true)[j] == m.levels(true)[j]);
                }
                assert(r.market.levels(!true) == m.levels(!true));
                assert(self.queues(true) =~= b0.queues(true).update(bp, self.queue_at(true, bp)));
                assert(self.queues(!true) =~= b0.queues(!true));
            }
            if self.bids[b as usize].head_idx == NULL_IDX {
                proof {
                    b0.lemma_index_bitmaps();
                }
                self.clear_bit(true, b);
                proof {
                    lemma_bitmap_after_clear(b0.bitmask(true), self.bitmask(true), b0.queues(true), self.queues(true), bp);
                }
                self.best_bid = self.find_next_bid(b);
            }
            proof {
                OrderBook::lemma_sweep_round_wf(&b0, &pool0, &b1, self, pool, true, bp);
                let m1 = r.market;
                let emptied = m1.bids[bp].len() == 0;
                let m2 = if emptied {
                    Market { best_bid: prev_bid(m1.bids, bp), ..m1 }
                } else {
                    m1
                };
                assert(self.market(pool) =~= m2);
                let r2 = take_bids(m2, price, r.remaining, ticker_id, user_id);
                assert(egress_buf@ + r2.events =~= eg + (r.events + r2.events));
                if emptied {
                    lemma_prev_bid_range(m1.bids, bp - 1);
                }
            }
        }
        proof {
            assert(take_bids(self.market(pool), price, total, ticker_id, user_id).events =~= seq![]);
            assert(egress_buf@ + seq![] =~= egress_buf@);
        }
        total
    }
}

impl OrderBook {
    /// Matches an incoming order against the other side of the book, best
    /// price first and oldest order first within a price, then rests what is
    /// left of a limit order (`TYPE_LIMIT`) at its price, showing
    /// `display_quantity` of it at a time (0: all of it). Other order types
    /// never rest.
    pub fn process_order(
        &mut self,
        pool: &mut OrderPool,
        is_bid: bool,
        price: u32,
        order_id: u32,
        total_quantity: u32,
        display_quantity: u32,
        order_type: u8,
        ticker_id: u16,
        user_id: u16,
        egress_buf: &mut Vec<MarketDataEvent>,
    )
        requires
            old(self).wf(old(pool)),
            process_ok(
                old(self).market(old(pool)),
                is_bid,
                price,
                order_id,
                total_quantity,
                display_quantity,
                order_type,
                ticker_id,
                user_id,
            ),
        ensures
            final(self).wf(final(pool)),
            final(self).market(final(pool)) == process(
                old(self).market(old(pool)),
                is_bid,
                price,
                order_id,
                total_quantity,
                display_quantity,
                order_type,
                ticker_id,
                user_id,
            ).0,
            final(egress_buf)@ == old(egress_buf)@ + process(
                old(self).market(old(pool)),
                is_bid,
                price,
                order_id,
                total_quantity,
                display_quantity,
                order_type,
                ticker_id,
                user_id,
            ).1,
    {
        let total = if is_bid {
            self.match_asks(pool, price, total_quantity, ticker_id, user_id, egress_buf)
        } else {
            self.match_bids(pool, price, total_quantity, ticker_id, user_id, egress_buf)
        };
        if total > 0 && order_type == TYPE_LIMIT {
            let clip = if display_quantity == 0 || display_quantity >= total {
                total
            } else {
                display_quantity
            };
            let hidden_qty = total - clip;
            self.add_order(pool, is_bid, price, order_id, clip, hidden_qty, clip, user_id);
        }
    }
}

impl OrderBook {
    /// Modifies order `order_id` for its owner `user_id`: a quantity not
    /// above its visible quantity at the same price is changed in place and
    /// keeps its time priority; anything else cancels it and enters a limit
    /// order of `new_quantity` at `new_price` on the order's own side. An id
    /// that rests nowhere enters a new limit order on side `is_bid_payload`.
    pub fn modify_order(
        &mut self,
        pool: &mut OrderPool,
        order_id: u32,
        is_bid_payload: bool,
        new_price: u32,
        new_quantity: u32,
        user_id: u16,
        ticker_id: u16,
        egress_buf: &mut Vec<MarketDataEvent>,
    )
        requires
            old(self).wf(old(pool)),
            modify_ok(
                old(self).market(old(pool)),
                order_id,
                is_bid_payload,
                new_price,
                new_quantity,
                user_id,
                ticker_id,
            ),
        ensures
            final(self).wf(final(pool)),
            final(self).market(final(pool)) == modify(
                old(self).market(old(pool)),
                order_id,
                is_bid_payload,
                new_price,
                new_quantity,
                user_id,
                ticker_id,
            ).0,
            final(egress_buf)@ == old(egress_buf)@ + modify(
                old(self).market(old(pool)),
                order_id,
                is_bid_payload,
                new_price,
                new_quantity,
                user_id,
                ticker_id,
            ).1,
    {
        if (order_id as usize) >= self.order_map.len() {
            assert(egress_buf@ =~= old(egress_buf)@ + seq![]);
            return;
        }
        let idx = self.order_map[order_id as usize];
        if idx == NULL_IDX {
            self.process_order(
                pool,
                is_bid_payload,
                new_price,
                order_id,
                new_quantity,
                new_quantity,
                TYPE_LIMIT,
                ticker_id,
                user_id,
                egress_buf,
            );
            return;
        }
        proof {
            self.lemma_wf_parts(pool);
            self.lemma_map_entry(pool, NULL_IDX, order_id as int);
        }
        let o = pool.get(idx);
        if o.user_id != user_id {
            assert(egress_buf@ =~= old(egress_buf)@ + seq![]);
            return;
        }
        if o.price == new_price && new_quantity <= o.quantity {
            let ghost p = o.price as int;
            let ghost q = self.queue_at(o.is_bid, p);
            let ghost k = q.index_of(idx);
            let ghost b0 = *self;
            self.set_queued_quantity(pool, o.is_bid, o.price, idx, new_quantity, Ghost(k));
            egress_buf.push(MarketDataEvent { event_type: 4, ticker_id, price: new_price, quantity: new_quantity });
            proof {
                OrderBook::lemma_index_ok_same(&b0, self);
                assert(self.map_ok(pool, NULL_IDX));
                self.lemma_wf_from_parts(pool);
                assert(self.market(pool) =~= modify(
                    old(self).market(old(pool)),
                    order_id,
                    is_bid_payload,
                    new_price,
                    new_quantity,
                    user_id,
                    ticker_id,
                ).0);
            }
        } else {
            self.cancel_order(pool, order_id, user_id, ticker_id, egress_buf);
            self.process_order(
                pool,
                o.is_bid,
                new_price,
                order_id,
                new_quantity,
                new_quantity,
                TYPE_LIMIT,
                ticker_id,
                user_id,
                egress_buf,
            );
            assert(egress_buf@ =~= old(egress_buf)@ + modify(
                old(self).market(old(pool)),
                order_id,
                is_bid_payload,
                new_price,
                new_quantity,
                user_id,
                ticker_id,
            ).1);
        }
    }
}

impl OrderBook {
    /// The best bid price (0: no bid).
    pub fn best_bid_price(&self) -> (r: u32)
        ensures
            r == self.best_bid_of(),
    {
        self.best_bid
    }

    /// The best ask price (`NULL_IDX`: no ask).
    pub fn best_ask_price(&self) -> (r: u32)
        ensures
            r == self.best_ask_of(),
    {
        self.best_ask
    }

    /// The number of price levels on the ask side.
    pub fn ask_levels(&self) -> (n: usize)
        ensures
            n == self.levels(false).len(),
    {
        self.asks.len()
    }

    /// The price levels of a sound book summarize its queues: a level's
    /// price is its index, its volume is the visible quantity queued there,
    /// its order count is the length of its queue, and its head and tail are
    /// the ends of the queue (`NULL_IDX` when it is empty). This holds of a
    /// sound book, and of a book just out of `execute_level`, whose best
    /// prices and bitmaps may not be up to date.
    pub proof fn lemma_levels_summarize(&self, pool: &OrderPool, is_bid: bool, p: int)
        requires
            self.wf(pool) || self.core_ok(pool),
            0 <= p < self.levels(is_bid).len(),
        ensures
            ({
                let l = self.levels(is_bid)[p];
                let m = self.market(pool);
                let q = m.queue(is_bid, p);
                &&& self.levels(true).len() == m.bids.len()
                &&& self.levels(false).len() == m.bids.len()
                &&& l.price == p
                &&& l.volume == m.level_volume(is_bid, p)
                &&& l.order_count == q.len()
                &&& q.len() == 0 ==> l.head_idx == NULL_IDX && l.tail_idx == NULL_IDX
                &&& q.len() > 0 ==> l.head_idx == q[0] && l.tail_idx == q.last()
            }),
    {
        if self.wf(pool) {
            self.lemma_wf_core(pool);
        }
        self.lemma_lens(pool);
        self.lemma_level_facts(pool, is_bid, p);
        reveal(level_ok);
    }

    /// What a sound book tells of its market: the best prices are the
    /// extreme non-empty levels, both sides have as many levels, and every
    /// free slot is a slot of the pool that rests in no level.
    pub proof fn lemma_market_valid(&self, pool: &OrderPool)
        requires
            self.wf(pool),
        ensures
            ({
                let m = self.market(pool);
                &&& m.best_bid == prev_bid(m.bids, m.bids.len() - 1)
                &&& m.best_ask == next_ask(m.asks, 0)
                &&& m.bids.len() == m.asks.len()
                &&& m.asks.len() < NULL_IDX
                &&& m.slots.len() <= NULL_IDX
                &&& forall|k: int| 0 <= k < m.free.len() ==> #[trigger] m.free[k] < m.slots.len()
                &&& forall|is_bid: bool, p: int, k: int|
                    0 <= p < m.bids.len() && 0 <= k < m.free.len() ==> !(#[trigger] m.queue(is_bid, p)).contains(
                        #[trigger] m.free[k],
                    )
                &&& forall|is_bid: bool, p: int, k: int|
                    0 <= p < m.bids.len() && 0 <= k < m.queue(is_bid, p).len() ==> {
                        &&& #[trigger] m.queue(is_bid, p)[k] < m.slots.len()
                        &&& m.slots[m.queue(is_bid, p)[k] as int].hidden_quantity > 0
                            ==> m.slots[m.queue(is_bid, p)[k] as int].display_clip > 0
                    }
                &&& forall|id: int|
                    0 <= id < m.order_map.len() && #[trigger] m.order_map[id] != NULL_IDX ==> {
                        let i = m.order_map[id];
                        &&& i < m.slots.len()
                        &&& m.slots[i as int].price < m.bids.len()
                        &&& m.queue(m.slots[i as int].is_bid, m.slots[i as int].price as int).contains(i)
                    }
            }),
    {
        self.lemma_wf_parts(pool);
        self.lemma_lens(pool);
        pool.lemma_wf();
        reveal(OrderBook::index_ok);
        let m = self.market(pool);
        assert forall|is_bid: bool, p: int, k: int|
            0 <= p < m.bids.len() && 0 <= k < m.free.len() implies !(#[trigger] m.queue(is_bid, p)).contains(
            #[trigger] m.free[k],
        ) by {
            self.lemma_level_facts(pool, is_bid, p);
            reveal(level_ok);
            let q = self.queues(is_bid)[p];
            if q.contains(m.free[k]) {
                let j = choose|j: int| 0 <= j < q.len() && q[j] == m.free[k];
                assert(node_ok(pool.slots(), pool.free_list(), q, j, is_bid, p, self.map().len() as int));
                assert(pool.free_list().contains(m.free[k]));
            }
        }
        assert forall|is_bid: bool, p: int, k: int|
            0 <= p < m.bids.len() && 0 <= k < m.queue(is_bid, p).len() implies {
            &&& #[trigger] m.queue(is_bid, p)[k] < m.slots.len()
            &&& m.slots[m.queue(is_bid, p)[k] as int].hidden_quantity > 0
                ==> m.slots[m.queue(is_bid, p)[k] as int].display_clip > 0
        } by {
            self.lemma_level_facts(pool, is_bid, p);
            reveal(level_ok);
            let q = self.queues(is_bid)[p];
            assert(node_ok(pool.slots(), pool.free_list(), q, k, is_bid, p, self.map().len() as int));
        }
        assert forall|id: int| 0 <= id < m.order_map.len() && #[trigger] m.order_map[id] != NULL_IDX implies {
            let i = m.order_map[id];
            &&& i < m.slots.len()
            &&& m.slots[i as int].price < m.bids.len()
            &&& m.queue(m.slots[i as int].is_bid, m.slots[i as int].price as int).contains(i)
        } by {
            self.lemma_map_entry(pool, NULL_IDX, id);
        }
    }

    /// Where the orders of a sound book sit: every queued slot holds an order
    /// of its level's side and price, no level holds a slot twice, no slot
    /// is free twice, and every index entry names a slot holding that id.
    pub proof fn lemma_market_sound(&self, pool: &OrderPool)
        requires
            self.wf(pool),
        ensures
            ({
                let m = self.market(pool);
                &&& m.free.no_duplicates()
                &&& forall|is_bid: bool, p: int| 0 <= p < m.bids.len() ==> (#[trigger] m.queue(is_bid, p)).no_duplicates()
                &&& forall|is_bid: bool, p: int, k: int|
                    0 <= p < m.bids.len() && 0 <= k < m.queue(is_bid, p).len() ==> {
                        &&& m.slots[#[trigger] m.queue(is_bid, p)[k] as int].price == p
                        &&& m.slots[m.queue(is_bid, p)[k] as int].is_bid == is_bid
                    }
                &&& forall|id: int|
                    0 <= id < m.order_map.len() && #[trigger] m.order_map[id] != NULL_IDX
                        ==> m.slots[m.order_map[id] as int].order_id == id
            }),
    {
        self.lemma_wf_parts(pool);
        self.lemma_lens(pool);
        pool.lemma_wf();
        let m = self.market(pool);
        assert forall|is_bid: bool, p: int| 0 <= p < m.bids.len() implies (#[trigger] m.queue(
            is_bid,
            p,
        )).no_duplicates() by {
            self.lemma_level_facts(pool, is_bid, p);
        }
        assert forall|is_bid: bool, p: int, k: int|
            0 <= p < m.bids.len() && 0 <= k < m.queue(is_bid, p).len() implies {
            &&& m.slots[#[trigger] m.queue(is_bid, p)[k] as int].price == p
            &&& m.slots[m.queue(is_bid, p)[k] as int].is_bid == is_bid
        } by {
            self.lemma_level_facts(pool, is_bid, p);
            let q = self.queues(is_bid)[p];
            assert(node_ok(pool.slots(), pool.free_list(), q, k, is_bid, p, self.map().len() as int));
        }
        assert forall|id: int| 0 <= id < m.order_map.len() && #[trigger] m.order_map[id] != NULL_IDX implies m.slots[
        m.order_map[id] as int].order_id == id by {
            self.lemma_map_entry(pool, NULL_IDX, id);
        }
    }

    /// The best prices of the market view are the book's.
    pub proof fn lemma_market_tops(&self, pool: &OrderPool)
        ensures
            self.market(pool).best_bid == self.best_bid_of(),
            self.market(pool).best_ask == self.best_ask_of(),
            self.wf(pool) ==> self.market(pool).asks.len() == self.levels(false).len()
                && self.market(pool).bids.len() == self.levels(false).len(),
    {
        if self.wf(pool) {
            self.lemma_wf_parts(pool);
            self.lemma_lens(pool);
        }
    }
}

} // verus!
