use hft::queue::SpscQueue;

#[test]
fn new_queue_is_empty() {
    let mut q: SpscQueue<u32> = SpscQueue::new(4);
    assert_eq!(q.len(), 0);
    assert_eq!(q.pop(), None);
}

#[test]
fn push_until_full_then_refuse() {
    let mut q: SpscQueue<u32> = SpscQueue::new(4);
    for i in 0..4u32 {
        assert_eq!(q.push(i), Ok(()));
    }
    assert_eq!(q.len(), 4);
    assert_eq!(q.push(99), Err(99));
    assert_eq!(q.len(), 4);
}

#[test]
fn pop_returns_items_first_in_first_out() {
    let mut q: SpscQueue<u32> = SpscQueue::new(8);
    q.push(10).unwrap();
    q.push(20).unwrap();
    q.push(30).unwrap();
    assert_eq!(q.pop(), Some(10));
    q.push(40).unwrap();
    assert_eq!(q.pop(), Some(20));
    assert_eq!(q.pop(), Some(30));
    assert_eq!(q.pop(), Some(40));
    assert_eq!(q.pop(), None);
}

#[test]
fn counters_wrap_around_the_buffer() {
    let mut q: SpscQueue<u64> = SpscQueue::new(2);
    for i in 0..1000u64 {
        q.push(i).unwrap();
        q.push(i + 1_000_000).unwrap();
        assert_eq!(q.push(7), Err(7));
        assert_eq!(q.pop(), Some(i));
        assert_eq!(q.pop(), Some(i + 1_000_000));
        assert_eq!(q.len(), 0);
    }
}

#[test]
fn capacity_one_queue() {
    let mut q: SpscQueue<u8> = SpscQueue::new(1);
    assert_eq!(q.push(5), Ok(()));
    assert_eq!(q.push(6), Err(6));
    assert_eq!(q.pop(), Some(5));
    assert_eq!(q.pop(), None);
}

#[test]
fn push_batch_takes_what_fits() {
    let mut q: SpscQueue<u32> = SpscQueue::new(4);
    q.push(1).unwrap();
    assert_eq!(q.push_batch(&[2, 3, 4, 5, 6]), 3);
    assert_eq!(q.len(), 4);
    assert_eq!(q.push_batch(&[7]), 0);
    assert_eq!(q.push_batch(&[]), 0);
    let mut out = [0u32; 8];
    assert_eq!(q.pop_batch(&mut out), 4);
    assert_eq!(out, [1, 2, 3, 4, 0, 0, 0, 0]);
}

#[test]
fn pop_batch_fills_the_front_of_out() {
    let mut q: SpscQueue<u32> = SpscQueue::new(8);
    assert_eq!(q.push_batch(&[1, 2, 3, 4, 5]), 5);
    let mut out = [9u32; 3];
    assert_eq!(q.pop_batch(&mut out), 3);
    assert_eq!(out, [1, 2, 3]);
    let mut out2 = [9u32; 4];
    assert_eq!(q.pop_batch(&mut out2), 2);
    assert_eq!(out2, [4, 5, 9, 9]);
    assert_eq!(q.pop_batch(&mut out2), 0);
    assert_eq!(out2, [4, 5, 9, 9]);
}

#[test]
fn batches_wrap_around_the_buffer() {
    let mut q: SpscQueue<u32> = SpscQueue::new(4);
    let mut next = 0u32;
    let mut expect = 0u32;
    for _ in 0..100 {
        let batch = [next, next + 1, next + 2];
        let pushed = q.push_batch(&batch);
        next += pushed as u32;
        let mut out = [0u32; 2];
        let popped = q.pop_batch(&mut out);
        for k in 0..popped {
            assert_eq!(out[k], expect);
            expect += 1;
        }
    }
    while let Some(x) = q.pop() {
        assert_eq!(x, expect);
        expect += 1;
    }
    assert_eq!(expect, next);
}
