//! A fixed-capacity pool of order slots. Free slots are chained through their
//! `next_idx` field into a LIFO free list headed by `free_head`.
use vstd::prelude::*;

verus! {

/// Index value that stands for "no slot".
pub const NULL_IDX: u32 = 0xFFFF_FFFFu32;

/// One slot of the pool: a resting order and its links in a price level.
#[derive(Debug, Clone, Copy)]
pub struct Order {
    pub order_id: u32,
    pub price: u32,
    pub quantity: u32,
    pub hidden_quantity: u32,
    pub display_clip: u32,
    pub next_idx: u32,
    pub prev_idx: u32,
    pub user_id: u16,
    pub is_bid: bool,
    pub _pad: u8,
}

/// The slot that `OrderPool::new` writes at index `i` of a pool of `capacity` slots.
pub open spec fn initial_slot(i: int, capacity: int) -> Order {
    Order {
        order_id: 0,
        price: 0,
        quantity: 0,
        hidden_quantity: 0,
        display_clip: 0,
        next_idx: if i + 1 < capacity { (i + 1) as u32 } else { NULL_IDX },
        prev_idx: NULL_IDX,
        user_id: 0,
        is_bid: false,
        _pad: 0,
    }
}

/// The slot that `allocate` writes.
pub open spec fn fresh_order(
    order_id: u32,
    price: u32,
    is_bid: bool,
    quantity: u32,
    hidden_quantity: u32,
    display_clip: u32,
    user_id: u16,
    old_pad: u8,
) -> Order {
    Order {
        order_id,
        price,
        quantity,
        hidden_quantity,
        display_clip,
        next_idx: NULL_IDX,
        prev_idx: NULL_IDX,
        user_id,
        is_bid,
        _pad: old_pad,
    }
}

pub struct OrderPool {
    pool: Vec<Order>,
    free_head: u32,
    free_list: Ghost<Seq<u32>>,
}

impl OrderPool {
    /// The contents of every slot, in index order.
    pub closed spec fn slots(&self) -> Seq<Order> {
        self.pool@
    }

    /// The free slots, in the order in which `allocate` hands them out.
    pub closed spec fn free_list(&self) -> Seq<u32> {
        self.free_list@
    }

    /// The head of the free list (`NULL_IDX` when no slot is free).
    pub closed spec fn head(&self) -> u32 {
        self.free_head
    }

    /// The free list is exactly the chain of `next_idx` links from `free_head`.
    pub closed spec fn wf(&self) -> bool {
        let f = self.free_list();
        let s = self.slots();
        &&& s.len() <= NULL_IDX
        &&& (if f.len() == 0 { self.head() == NULL_IDX } else { self.head() == f[0] })
        &&& f.no_duplicates()
        &&& forall|k: int| 0 <= k < f.len() ==> #[trigger] f[k] < s.len()
        &&& forall|k: int|
            0 <= k < f.len() ==> s[#[trigger] f[k] as int].next_idx == (if k + 1 < f.len() {
                f[k + 1]
            } else {
                NULL_IDX
            })
    }

    /// Makes `capacity` blank slots, all free, handed out in index order.
    pub fn new(capacity: usize) -> (p: Self)
        requires
            1 <= capacity <= NULL_IDX,
        ensures
            p.wf(),
            p.slots().len() == capacity,
            forall|i: int| 0 <= i < capacity ==> p.slots()[i] == initial_slot(i, capacity as int),
            p.free_list() == Seq::new(capacity as nat, |i: int| i as u32),
    {
        let blank = Order {
            order_id: 0,
            price: 0,
            quantity: 0,
            hidden_quantity: 0,
            display_clip: 0,
            next_idx: NULL_IDX,
            prev_idx: NULL_IDX,
            user_id: 0,
            is_bid: false,
            _pad: 0,
        };
        let mut pool = vec![blank; capacity];
        let last = capacity - 1;
        let mut i: usize = 0;
        while i < last
            invariant
                last + 1 == capacity,
                capacity <= NULL_IDX,
                i <= last,
                blank == initial_slot(last as int, capacity as int),
                pool@.len() == capacity,
                forall|j: int| 0 <= j < i ==> pool@[j] == initial_slot(j, capacity as int),
                forall|j: int| i <= j < capacity ==> pool@[j] == blank,
            decreases last - i,
        {
            let mut o = pool[i];
            o.next_idx = (i + 1) as u32;
            pool.set(i, o);
            i = i + 1;
        }
        let ghost f = Seq::new(capacity as nat, |i: int| i as u32);
        let p = OrderPool { pool, free_head: 0, free_list: Ghost(f) };
        assert(p.slots()[last as int] == initial_slot(last as int, capacity as int));
        assert forall|a: int, b: int| 0 <= a < f.len() && 0 <= b < f.len() && a != b implies f[a]
            != f[b] by {}
        assert forall|k: int| 0 <= k < f.len() implies #[trigger] f[k] < p.slots().len() by {}
        assert forall|k: int| 0 <= k < f.len() implies p.slots()[#[trigger] f[k] as int].next_idx == (
        if k + 1 < f.len() {
            f[k + 1]
        } else {
            NULL_IDX
        }) by {
            assert(f[k] as int == k);
            assert(p.slots()[k] == initial_slot(k, capacity as int));
        }
        p
    }

    /// Takes the slot at the head of the free list and fills it. The process
    /// aborts when no slot is free; callers must not get there.
    pub fn allocate(
        &mut self,
        order_id: u32,
        price: u32,
        is_bid: bool,
        quantity: u32,
        hidden_quantity: u32,
        display_clip: u32,
        user_id: u16,
    ) -> (idx: u32)
        requires
            old(self).wf(),
            old(self).free_list().len() > 0,
        ensures
            final(self).wf(),
            idx == old(self).free_list()[0],
            final(self).free_list() == old(self).free_list().drop_first(),
            final(self).slots() == old(self).slots().update(
                idx as int,
                fresh_order(
                    order_id,
                    price,
                    is_bid,
                    quantity,
                    hidden_quantity,
                    display_clip,
                    user_id,
                    old(self).slots()[idx as int]._pad,
                ),
            ),
    {
        let idx = self.free_head;
        proof {
            assert(self.free_list@[0] < self.pool@.len());
        }
        self.free_head = self.pool[idx as usize].next_idx;
        let mut order = self.pool[idx as usize];
        order.order_id = order_id;
        order.price = price;
        order.is_bid = is_bid;
        order.quantity = quantity;
        order.hidden_quantity = hidden_quantity;
        order.display_clip = display_clip;
        order.user_id = user_id;
        order.next_idx = NULL_IDX;
        order.prev_idx = NULL_IDX;
        self.pool.set(idx as usize, order);
        proof {
            let f = old(self).free_list@;
            self.free_list@ = f.drop_first();
            let nf = self.free_list@;
            assert forall|k: int| 0 <= k < nf.len() implies self.pool@[#[trigger] nf[k] as int].next_idx
                == (if k + 1 < nf.len() { nf[k + 1] } else { NULL_IDX }) by {
                assert(nf[k] == f[k + 1]);
                assert(f[k + 1] != f[0]);
            }
            assert forall|k: int| 0 <= k < nf.len() implies #[trigger] nf[k] < self.pool@.len() by {
                assert(nf[k] == f[k + 1]);
            }
        }
        idx
    }

    /// Puts slot `idx` back at the head of the free list; the slot keeps its
    /// contents except the link.
    pub fn deallocate(&mut self, idx: u32)
        requires
            old(self).wf(),
            idx < old(self).slots().len(),
            !old(self).free_list().contains(idx),
        ensures
            final(self).wf(),
            final(self).free_list() == seq![idx] + old(self).free_list(),
            final(self).slots() == old(self).slots().update(
                idx as int,
                Order { next_idx: old(self).head(), ..old(self).slots()[idx as int] },
            ),
    {
        let mut order = self.pool[idx as usize];
        order.next_idx = self.free_head;
        self.pool.set(idx as usize, order);
        self.free_head = idx;
        proof {
            let f = old(self).free_list@;
            self.free_list@ = seq![idx] + f;
            let nf = self.free_list@;
            assert forall|k: int| 0 <= k < nf.len() implies self.pool@[#[trigger] nf[k] as int].next_idx
                == (if k + 1 < nf.len() { nf[k + 1] } else { NULL_IDX }) by {
                if k > 0 {
                    assert(nf[k] == f[k - 1]);
                    assert(f[k - 1] != idx);
                }
            }
            assert forall|k: int| 0 <= k < nf.len() implies #[trigger] nf[k] < self.pool@.len() by {
                if k > 0 {
                    assert(nf[k] == f[k - 1]);
                }
            }
            assert forall|a: int, b: int| 0 <= a < nf.len() && 0 <= b < nf.len() && a != b implies nf[a]
                != nf[b] by {
                if a > 0 && b > 0 {
                    assert(nf[a] == f[a - 1] && nf[b] == f[b - 1]);
                } else if a == 0 {
                    assert(nf[b] == f[b - 1]);
                } else {
                    assert(nf[a] == f[a - 1]);
                }
            }
        }
    }

    /// Slot indices fit below the sentinel, the head is the first free slot,
    /// and the free slots are distinct slots of the pool, each linked to the
    /// next.
    pub proof fn lemma_wf(&self)
        requires
            self.wf(),
        ensures
            self.slots().len() <= NULL_IDX,
            self.head() == (if self.free_list().len() == 0 {
                NULL_IDX
            } else {
                self.free_list()[0]
            }),
            forall|k: int|
                0 <= k < self.free_list().len() ==> self.slots()[#[trigger] self.free_list()[k] as int].next_idx == (
                if k + 1 < self.free_list().len() {
                    self.free_list()[k + 1]
                } else {
                    NULL_IDX
                }),
            self.free_list().no_duplicates(),
            forall|k: int| 0 <= k < self.free_list().len() ==> #[trigger] self.free_list()[k] < self.slots().len(),
    {
    }

    /// Reads slot `idx`.
    pub fn get(&self, idx: u32) -> (o: Order)
        requires
            idx < self.slots().len(),
        ensures
            o == self.slots()[idx as int],
    {
        self.pool[idx as usize]
    }

    /// The number of slots.
    pub fn capacity(&self) -> (n: usize)
        ensures
            n == self.slots().len(),
    {
        self.pool.len()
    }

    /// Overwrites slot `idx`, which must not be free.
    pub(crate) fn put(&mut self, idx: u32, o: Order)
        requires
            old(self).wf(),
            idx < old(self).slots().len(),
            !old(self).free_list().contains(idx),
        ensures
            final(self).wf(),
            final(self).free_list() == old(self).free_list(),
            final(self).slots() == old(self).slots().update(idx as int, o),
    {
        self.pool.set(idx as usize, o);
        proof {
            let f = self.free_list@;
            assert forall|k: int| 0 <= k < f.len() implies self.pool@[#[trigger] f[k] as int].next_idx
                == (if k + 1 < f.len() { f[k + 1] } else { NULL_IDX }) by {
                assert(f[k] != idx);
            }
        }
    }
}

} // verus!
