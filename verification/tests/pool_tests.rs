use hft::pool::{OrderPool, NULL_IDX};

#[test]
fn pool_hands_out_slots_in_index_order() {
    let mut pool = OrderPool::new(3);
    assert_eq!(pool.capacity(), 3);
    assert_eq!(pool.allocate(7, 100, true, 5, 0, 5, 1), 0);
    assert_eq!(pool.allocate(8, 101, false, 6, 0, 6, 2), 1);
    assert_eq!(pool.allocate(9, 102, true, 7, 0, 7, 3), 2);
}

#[test]
fn pool_allocate_fills_the_slot() {
    let mut pool = OrderPool::new(2);
    let idx = pool.allocate(42, 1234, false, 30, 70, 30, 9);
    let o = pool.get(idx);
    assert_eq!(o.order_id, 42);
    assert_eq!(o.price, 1234);
    assert!(!o.is_bid);
    assert_eq!(o.quantity, 30);
    assert_eq!(o.hidden_quantity, 70);
    assert_eq!(o.display_clip, 30);
    assert_eq!(o.user_id, 9);
    assert_eq!(o.next_idx, NULL_IDX);
    assert_eq!(o.prev_idx, NULL_IDX);
}

#[test]
fn pool_reuses_the_last_freed_slot_first() {
    let mut pool = OrderPool::new(4);
    let a = pool.allocate(1, 10, true, 1, 0, 1, 1);
    let b = pool.allocate(2, 10, true, 1, 0, 1, 1);
    assert_eq!((a, b), (0, 1));
    pool.deallocate(a);
    assert_eq!(pool.allocate(3, 10, true, 1, 0, 1, 1), a);
    pool.deallocate(b);
    assert_eq!(pool.allocate(4, 10, true, 1, 0, 1, 1), b);
    assert_eq!(pool.allocate(5, 10, true, 1, 0, 1, 1), 2);
}

#[test]
fn pool_deallocate_links_slot_to_old_head() {
    let mut pool = OrderPool::new(3);
    let a = pool.allocate(1, 10, true, 1, 0, 1, 1);
    pool.deallocate(a);
    let o = pool.get(a);
    assert_eq!(o.next_idx, 1);
    assert_eq!(o.order_id, 1);
}

#[test]
fn pool_of_one_slot() {
    let mut pool = OrderPool::new(1);
    assert_eq!(pool.get(0).next_idx, NULL_IDX);
    assert_eq!(pool.allocate(1, 1, true, 1, 0, 1, 1), 0);
    pool.deallocate(0);
    assert_eq!(pool.get(0).next_idx, NULL_IDX);
    assert_eq!(pool.allocate(2, 1, true, 1, 0, 1, 1), 0);
}
