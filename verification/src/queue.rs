//! A bounded ring buffer between one producer and one consumer. Its
//! counters run freely and wrap; a slot is found by masking a counter with
//! `capacity - 1`, which needs the capacity to be a power of two.
use vstd::prelude::*;
use vstd::arithmetic::div_mod::{lemma_mod_mod, lemma_sub_mod_noop, lemma_add_mod_noop, lemma_small_mod};
use vstd::arithmetic::power2::{pow2, lemma_pow2_adds, lemma_pow2_pos};
use vstd::bits::lemma_usize_low_bits_mask_is_mod;
use vstd::layout::unsigned_int_max_values;

verus! {

/// `n` is a power of two that a `usize` can hold.
pub open spec fn is_power_of_two(n: usize) -> bool {
    exists|k: nat| k < usize::BITS && pow2(k) == n
}

/// One past the largest `usize`: counters wrap modulo this.
pub open spec fn wrap_modulus() -> int {
    usize::MAX as int + 1
}

proof fn lemma_mask_is_mod(x: usize, c: usize)
    requires
        is_power_of_two(c),
    ensures
        c > 0,
        x & ((c - 1) as usize) == x % c,
{
    let k = choose|k: nat| k < usize::BITS && pow2(k) == c;
    lemma_pow2_pos(k);
    lemma_usize_low_bits_mask_is_mod(x, k);
}

/// A power of two divides the wrap modulus, so reducing a counter modulo
/// the capacity does not care about wrapping.
proof fn lemma_wrap_then_mod(x: int, c: usize)
    requires
        is_power_of_two(c),
    ensures
        (x % wrap_modulus()) % (c as int) == x % (c as int),
{
    let k = choose|k: nat| k < usize::BITS && pow2(k) == c;
    let rest = (usize::BITS - k) as nat;
    unsigned_int_max_values();
    lemma_pow2_adds(k, rest);
    lemma_pow2_pos(k);
    lemma_pow2_pos(rest);
    assert(wrap_modulus() == (c as int) * (pow2(rest) as int));
    lemma_mod_mod(x, c as int, pow2(rest) as int);
}

/// Two counters less than the capacity apart name different slots.
proof fn lemma_distinct_slots(a: int, d: int, c: int)
    requires
        0 < d < c,
    ensures
        (a + d) % c != a % c,
{
    lemma_sub_mod_noop(a + d, a, c);
    lemma_small_mod(d as nat, c as nat);
    assert((a + d) - a == d);
    if (a + d) % c == a % c {
        assert((a + d) % c - a % c == 0);
        lemma_small_mod(0, c as nat);
    }
}

/// Counters are reduced modulo the wrap modulus by `wrapping_add`.
proof fn lemma_wrapping_add(x: usize, y: usize, v: int)
    requires
        x as int == v % wrap_modulus(),
    ensures
        x.wrapping_add(y) as int == (v + y) % wrap_modulus(),
{
    let w = wrap_modulus();
    lemma_add_mod_noop(v, y as int, w);
    lemma_small_mod(y as nat, w as nat);
    if x + y >= w {
        lemma_small_mod((x + y - w) as nat, w as nat);
        assert((x + y) % w == (x + y - w) % w) by {
            vstd::arithmetic::div_mod::lemma_mod_sub_multiples_vanish(x + y, w);
        }
    } else {
        lemma_small_mod((x + y) as nat, w as nat);
    }
}

/// The distance between two counters is recovered by `wrapping_sub`.
proof fn lemma_wrapping_sub(h: usize, t: usize, v: int, n: int)
    requires
        t as int == v % wrap_modulus(),
        h as int == (v + n) % wrap_modulus(),
        0 <= n < wrap_modulus(),
    ensures
        h.wrapping_sub(t) as int == n,
{
    let w = wrap_modulus();
    lemma_sub_mod_noop(v + n, v, w);
    lemma_small_mod(n as nat, w as nat);
    if h - t < 0 {
        assert((h - t + w) % w == (h - t) % w) by {
            vstd::arithmetic::div_mod::lemma_mod_add_multiples_vanish(h - t, w);
        }
        lemma_small_mod((h - t + w) as nat, w as nat);
    } else {
        lemma_small_mod((h - t) as nat, w as nat);
    }
}

pub struct SpscQueue<T> {
    buffer: Vec<T>,
    capacity: usize,
    mask: usize,
    head: usize,
    tail: usize,
    front: Ghost<int>,
    items: Ghost<Seq<T>>,
}

impl<T: Copy + Default> SpscQueue<T> {
    /// The items in the queue, oldest first.
    pub closed spec fn view(&self) -> Seq<T> {
        self.items@
    }

    pub closed spec fn cap(&self) -> nat {
        self.capacity as nat
    }

    /// The items sit in consecutive slots after the consumer's counter,
    /// and the producer's counter is that many slots further.
    pub closed spec fn wf(&self) -> bool {
        let w = wrap_modulus();
        &&& is_power_of_two(self.capacity)
        &&& self.buffer@.len() == self.capacity
        &&& self.mask == self.capacity - 1
        &&& self.items@.len() <= self.capacity
        &&& self.tail as int == self.front@ % w
        &&& self.head as int == (self.front@ + self.items@.len()) % w
        &&& forall|k: int|
            0 <= k < self.items@.len() ==> #[trigger] self.items@[k] == self.buffer@[(self.front@ + k)
                % (self.capacity as int)]
    }

    /// A queue never holds more items than its capacity, a power of two.
    pub proof fn lemma_bounded(&self)
        requires
            self.wf(),
        ensures
            self.view().len() <= self.cap(),
            is_power_of_two(self.cap() as usize),
    {
    }

    /// An empty queue of `capacity` slots; the capacity must be a power of
    /// two.
    pub fn new(capacity: usize) -> (q: Self)
        requires
            is_power_of_two(capacity),
        ensures
            q.wf(),
            q.view() == Seq::<T>::empty(),
            q.cap() == capacity,
    {
        proof {
            lemma_mask_is_mod(0, capacity);
        }
        let mut buffer: Vec<T> = Vec::with_capacity(capacity);
        let mut i: usize = 0;
        while i < capacity
            invariant
                buffer@.len() == i,
                i <= capacity,
            decreases capacity - i,
        {
            buffer.push(T::default());
            i = i + 1;
        }
        let q = SpscQueue {
            buffer,
            capacity,
            mask: capacity - 1,
            head: 0,
            tail: 0,
            front: Ghost(0),
            items: Ghost(Seq::empty()),
        };
        proof {
            lemma_small_mod(0, wrap_modulus() as nat);
        }
        q
    }

    /// The number of items waiting.
    pub fn len(&self) -> (n: usize)
        requires
            self.wf(),
        ensures
            n == self.view().len(),
    {
        proof {
            lemma_wrapping_sub(self.head, self.tail, self.front@, self.items@.len() as int);
        }
        self.head.wrapping_sub(self.tail)
    }

    /// Appends `item`, or hands it back when the queue is full.
    pub fn push(&mut self, item: T) -> (r: Result<(), T>)
        requires
            old(self).wf(),
        ensures
            final(self).wf(),
            final(self).cap() == old(self).cap(),
            old(self).view().len() == old(self).cap() ==> r == Err::<(), T>(item) && final(self).view()
                == old(self).view(),
            old(self).view().len() < old(self).cap() ==> r == Ok::<(), T>(()) && final(self).view()
                == old(self).view().push(item),
    {
        let current_head = self.head;
        let current_tail = self.tail;
        proof {
            lemma_wrapping_sub(current_head, current_tail, self.front@, self.items@.len() as int);
        }
        if current_head.wrapping_sub(current_tail) == self.capacity {
            return Err(item);
        }
        let index = current_head & self.mask;
        proof {
            let c = self.capacity as int;
            let f = self.front@ as int;
            let n = self.items@.len() as int;
            lemma_mask_is_mod(current_head, self.capacity);
            lemma_wrap_then_mod(f + n, self.capacity);
            assert(index as int == (f + n) % c);
        }
        let ghost old_buffer = self.buffer@;
        let ghost old_items = self.items@;
        let ghost f = self.front@;
        let ghost n = self.items@.len() as int;
        let ghost c = self.capacity as int;
        assert(forall|k: int| 0 <= k < n ==> #[trigger] old_items[k] == old_buffer[(f + k) % c]);
        self.buffer.set(index, item);
        proof {
            assert(self.buffer@ == old_buffer.update(index as int, item));
            lemma_wrapping_add(current_head, 1, f + n);
            self.items@ = old_items.push(item);
            assert forall|k: int| 0 <= k < self.items@.len() implies #[trigger] self.items@[k]
                == self.buffer@[(f + k) % c] by {
                if k < n {
                    lemma_distinct_slots(f + k, n - k, c);
                    assert(old_items[k] == old_buffer[(f + k) % c]);
                }
            }
        }
        self.head = current_head.wrapping_add(1);
        Ok(())
    }

    /// Removes and returns the oldest item, if any.
    pub fn pop(&mut self) -> (r: Option<T>)
        requires
            old(self).wf(),
        ensures
            final(self).wf(),
            final(self).cap() == old(self).cap(),
            old(self).view().len() == 0 ==> r == None::<T> && final(self).view() == old(self).view(),
            old(self).view().len() > 0 ==> r == Some(old(self).view()[0]) && final(self).view()
                == old(self).view().drop_first(),
    {
        let current_tail = self.tail;
        let current_head = self.head;
        proof {
            lemma_wrapping_sub(current_head, current_tail, self.front@, self.items@.len() as int);
        }
        if current_head == current_tail {
            return None;
        }
        let index = current_tail & self.mask;
        proof {
            lemma_mask_is_mod(current_tail, self.capacity);
            lemma_wrap_then_mod(self.front@, self.capacity);
            assert(self.items@[0] == self.buffer@[(self.front@ + 0) % (self.capacity as int)]);
        }
        let item = self.buffer[index];
        proof {
            lemma_wrapping_add(current_tail, 1, self.front@);
            let f = self.front@;
            let old_items = self.items@;
            self.front@ = f + 1;
            self.items@ = old_items.drop_first();
            assert forall|k: int| 0 <= k < self.items@.len() implies #[trigger] self.items@[k] == self.buffer@[(
            self.front@ + k) % (self.capacity as int)] by {
                assert(old_items[k + 1] == self.buffer@[(f + (k + 1)) % (self.capacity as int)]);
            }
            assert(self.head as int == (self.front@ + self.items@.len()) % wrap_modulus());
        }
        self.tail = current_tail.wrapping_add(1);
        Some(item)
    }

    /// Appends as many of `items`, in order, as there is room for; returns
    /// how many.
    pub fn push_batch(&mut self, items: &[T]) -> (pushed: usize)
        requires
            old(self).wf(),
        ensures
            final(self).wf(),
            final(self).cap() == old(self).cap(),
            pushed == vstd::math::min(items@.len() as int, old(self).cap() - old(self).view().len()),
            final(self).view() == old(self).view() + items@.subrange(0, pushed as int),
    {
        let current_head = self.head;
        let current_tail = self.tail;
        proof {
            lemma_wrapping_sub(current_head, current_tail, self.front@, self.items@.len() as int);
        }
        let available = self.capacity - current_head.wrapping_sub(current_tail);
        let to_push = if items.len() < available {
            items.len()
        } else {
            available
        };
        if to_push == 0 {
            assert(items@.subrange(0, 0) =~= Seq::<T>::empty());
            assert(self.items@ =~= old(self).items@ + items@.subrange(0, 0));
            return 0;
        }
        let ghost f = self.front@;
        let ghost n = self.items@.len() as int;
        let ghost c = self.capacity as int;
        let mut i: usize = 0;
        while i < to_push
            invariant
                0 <= i <= to_push,
                to_push <= items@.len(),
                n + to_push <= c,
                c == self.capacity,
                f == self.front@,
                n == self.items@.len(),
                self.items@ == old(self).items@,
                self.front@ == old(self).front@,
                self.capacity == old(self).capacity,
                self.mask == old(self).mask,
                self.head == old(self).head,
                self.tail == old(self).tail,
                current_head == self.head,
                old(self).wf(),
                self.buffer@.len() == c,
                forall|k: int| 0 <= k < n ==> #[trigger] self.buffer@[(f + k) % c] == old(self).buffer@[(f + k) % c],
                forall|k: int| 0 <= k < i ==> #[trigger] self.buffer@[(f + n + k) % c] == items@[k],
            decreases to_push - i,
        {
            let index = current_head.wrapping_add(i) & self.mask;
            proof {
                lemma_wrapping_add(current_head, i, f + n);
                lemma_mask_is_mod(current_head.wrapping_add(i), self.capacity);
                lemma_wrap_then_mod(f + n + i, self.capacity);
                assert(index as int == (f + n + i) % c);
            }
            let ghost before = self.buffer@;
            self.buffer.set(index, items[i]);
            proof {
                assert(self.buffer@ == before.update(index as int, items@[i as int]));
                assert forall|k: int| 0 <= k < n implies #[trigger] self.buffer@[(f + k) % c]
                    == old(self).buffer@[(f + k) % c] by {
                    lemma_distinct_slots(f + k, n + i - k, c);
                }
                assert forall|k: int| 0 <= k < i + 1 implies #[trigger] self.buffer@[(f + n + k) % c]
                    == items@[k] by {
                    if k < i {
                        lemma_distinct_slots(f + n + k, i - k, c);
                    }
                }
            }
            i = i + 1;
        }
        proof {
            lemma_wrapping_add(current_head, to_push, f + n);
            let old_items = self.items@;
            self.items@ = old_items + items@.subrange(0, to_push as int);
            assert forall|k: int| 0 <= k < self.items@.len() implies #[trigger] self.items@[k] == self.buffer@[(
            f + k) % c] by {
                if k < n {
                    assert(old_items[k] == old(self).buffer@[(f + k) % c]);
                } else {
                    assert(self.buffer@[(f + n + (k - n)) % c] == items@[k - n]);
                }
            }
        }
        self.head = current_head.wrapping_add(to_push);
        to_push
    }

    /// Moves the oldest items, as many as `out` holds and the queue has, to
    /// the front of `out`; returns how many.
    pub fn pop_batch(&mut self, out: &mut [T]) -> (popped: usize)
        requires
            old(self).wf(),
        ensures
            final(self).wf(),
            final(self).cap() == old(self).cap(),
            popped == vstd::math::min(old(out)@.len() as int, old(self).view().len() as int),
            final(out)@ == old(self).view().subrange(0, popped as int) + old(out)@.subrange(
                popped as int,
                old(out)@.len() as int,
            ),
            final(self).view() == old(self).view().subrange(popped as int, old(self).view().len() as int),
    {
        let current_tail = self.tail;
        let current_head = self.head;
        proof {
            lemma_wrapping_sub(current_head, current_tail, self.front@, self.items@.len() as int);
        }
        let available = current_head.wrapping_sub(current_tail);
        let to_pop = if out.len() < available {
            out.len()
        } else {
            available
        };
        if to_pop == 0 {
            assert(out@ =~= old(self).view().subrange(0, 0) + old(out)@.subrange(0, old(out)@.len() as int));
            assert(self.items@ =~= old(self).items@.subrange(0, old(self).items@.len() as int));
            return 0;
        }
        let ghost f = self.front@;
        let ghost c = self.capacity as int;
        let mut i: usize = 0;
        while i < to_pop
            invariant
                0 <= i <= to_pop,
                to_pop <= out@.len(),
                to_pop <= self.items@.len(),
                out@.len() == old(out)@.len(),
                c == self.capacity,
                f == self.front@,
                current_tail == self.tail,
                self.wf(),
                self.items@ == old(self).items@,
                forall|k: int| 0 <= k < i ==> #[trigger] out@[k] == self.items@[k],
                forall|k: int| i <= k < out@.len() ==> #[trigger] out@[k] == old(out)@[k],
            decreases to_pop - i,
        {
            let index = current_tail.wrapping_add(i) & self.mask;
            proof {
                lemma_wrapping_add(current_tail, i, f);
                lemma_mask_is_mod(current_tail.wrapping_add(i), self.capacity);
                lemma_wrap_then_mod(f + i, self.capacity);
                assert(self.items@[i as int] == self.buffer@[(f + i) % c]);
            }
            out[i] = self.buffer[index];
            i = i + 1;
        }
        proof {
            lemma_wrapping_add(current_tail, to_pop, f);
            let old_items = self.items@;
            self.front@ = self.front@ + to_pop as int;
            self.items@ = old_items.subrange(to_pop as int, old_items.len() as int);
            assert forall|k: int| 0 <= k < self.items@.len() implies #[trigger] self.items@[k] == self.buffer@[(
            self.front@ + k) % c] by {
                assert(old_items[k + to_pop] == self.buffer@[(f + (k + to_pop)) % c]);
            }
            assert(self.head as int == (self.front@ + self.items@.len()) % wrap_modulus());
            assert(out@ =~= old(self).view().subrange(0, to_pop as int) + old(out)@.subrange(
                to_pop as int,
                old(out)@.len() as int,
            ));
        }
        self.tail = current_tail.wrapping_add(to_pop);
        to_pop
    }
}

} // verus!
