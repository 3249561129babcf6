use rspec::ring::Ring;

#[test]
fn new_ring_is_empty() {
    let r: Ring<i64> = Ring::new(8);
    assert_eq!(r.len(), 0);
}

#[test]
fn recv_on_empty_returns_none() {
    let mut r: Ring<i64> = Ring::new(4);
    assert_eq!(r.recv(), None);
    assert_eq!(r.len(), 0);
}

#[test]
fn fifo_order_without_overflow() {
    let mut r: Ring<i64> = Ring::new(8);
    for v in [10, 20, 30, 40] {
        assert!(!r.send(v));
    }
    assert_eq!(r.len(), 4);
    assert_eq!(r.recv(), Some(10));
    assert_eq!(r.recv(), Some(20));
    assert_eq!(r.recv(), Some(30));
    assert_eq!(r.recv(), Some(40));
    assert_eq!(r.recv(), None);
}

#[test]
fn capacity_invariant_under_pushes() {
    let mut r: Ring<i64> = Ring::new(4);
    for v in 0..10 {
        r.send(v);
        assert!(r.len() <= 4);
    }
    let mut b: Ring<i64> = Ring::new(4);
    for chunk in [vec![1, 2, 3], vec![4, 5, 6, 7, 8], vec![], vec![9]] {
        b.send_many(chunk);
        assert!(b.len() <= 4);
    }
}

#[test]
fn overflow_keeps_last_capacity_items() {
    let mut r: Ring<i64> = Ring::new(4);
    for v in 0..6 {
        let dropped = r.send(v);
        assert_eq!(dropped, v >= 4);
    }
    assert_eq!(r.len(), 4);
    assert_eq!(r.recv_many(4), vec![2, 3, 4, 5]);
}

#[test]
fn batch_push_equals_single_pushes() {
    let items: Vec<i64> = (0..7).collect();
    let mut singles: Ring<i64> = Ring::new(4);
    let mut dropped_singles = 0;
    for &v in &items {
        if singles.send(v) {
            dropped_singles += 1;
        }
    }
    let mut batch: Ring<i64> = Ring::new(4);
    let dropped_batch = batch.send_many(items);
    assert_eq!(dropped_batch, dropped_singles);
    assert_eq!(dropped_batch, 3);
    assert_eq!(singles.recv_many(4), batch.recv_many(4));
}

#[test]
fn batch_push_after_wraparound() {
    let mut r: Ring<i64> = Ring::new(5);
    r.send_many(vec![1, 2, 3]);
    assert_eq!(r.recv(), Some(1));
    assert_eq!(r.recv(), Some(2));
    // Head is now deep in the storage; this batch wraps past the end.
    let dropped = r.send_many(vec![4, 5, 6, 7]);
    assert_eq!(dropped, 0);
    assert_eq!(r.len(), 5);
    assert_eq!(r.recv_many(5), vec![3, 4, 5, 6, 7]);
}

#[test]
fn send_many_empty_batch_does_nothing() {
    let mut r: Ring<i64> = Ring::new(3);
    r.send(7);
    assert_eq!(r.send_many(Vec::new()), 0);
    assert_eq!(r.len(), 1);
    assert_eq!(r.recv(), Some(7));
}

#[test]
fn send_many_batch_larger_than_capacity() {
    let mut r: Ring<i64> = Ring::new(4);
    let dropped = r.send_many((0..10).collect());
    assert_eq!(dropped, 6);
    assert_eq!(r.len(), 4);
    assert_eq!(r.recv_many(4), vec![6, 7, 8, 9]);
}

#[test]
fn batch_pop_equals_single_pops() {
    let mut a: Ring<i64> = Ring::new(8);
    let mut b: Ring<i64> = Ring::new(8);
    a.send_many(vec![1, 2, 3, 4, 5]);
    b.send_many(vec![1, 2, 3, 4, 5]);
    let batch = a.recv_many(3);
    let mut singles = Vec::new();
    for _ in 0..3 {
        singles.push(b.recv().unwrap());
    }
    assert_eq!(batch, singles);
    assert_eq!(a.len(), b.len());
    assert_eq!(a.recv_many(2), b.recv_many(2));
}

#[test]
fn recv_many_more_than_held_returns_fewer() {
    let mut r: Ring<i64> = Ring::new(8);
    r.send_many(vec![1, 2, 3]);
    assert_eq!(r.recv_many(10), vec![1, 2, 3]);
    assert_eq!(r.len(), 0);
    assert_eq!(r.recv_many(1), Vec::<i64>::new());
}

#[test]
fn recv_many_zero_does_nothing() {
    let mut r: Ring<i64> = Ring::new(4);
    r.send(1);
    assert_eq!(r.recv_many(0), Vec::<i64>::new());
    assert_eq!(r.len(), 1);
}

#[test]
fn drop_one_reports_whether_dropped() {
    let mut r: Ring<i64> = Ring::new(4);
    assert!(!r.drop_one());
    r.send(5);
    r.send(6);
    assert!(r.drop_one());
    assert_eq!(r.recv(), Some(6));
}

#[test]
fn drop_many_discards_oldest() {
    let mut r: Ring<i64> = Ring::new(8);
    r.send_many(vec![1, 2, 3, 4, 5]);
    assert_eq!(r.drop_many(2), 2);
    assert_eq!(r.recv_many(8), vec![3, 4, 5]);
    assert_eq!(r.drop_many(3), 0);
    r.send_many(vec![6, 7]);
    assert_eq!(r.drop_many(9), 2);
    assert_eq!(r.len(), 0);
}

#[test]
fn end_to_end_overflow_scenario() {
    // Capacity 16; push the values 0..19 one at a time. The last four
    // pushes overwrite the four oldest values, so 4..19 remain.
    let mut r: Ring<i64> = Ring::new(16);
    for i in 0..20 {
        let dropped = r.send(i);
        assert_eq!(dropped, i >= 16);
    }
    assert_eq!(r.len(), 16);
    let held = r.recv_many(16);
    let expected: Vec<i64> = (4..20).collect();
    assert_eq!(held, expected);
}
