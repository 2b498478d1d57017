use thermobug::buffer::{PersistBuffer, RingBuffer};
use thermobug::measurement::Measurement;

fn m(deci: u16, ts: u64) -> Measurement {
    Measurement::new(deci, ts)
}

#[test]
fn ring_keeps_last_capacity_values() {
    // capacity 3, pushes 10, 20, 30, 40: the snapshot holds exactly
    // {20, 30, 40}, in whatever storage order.
    let mut b = RingBuffer::new(3);
    for (i, v) in [10u16, 20, 30, 40].iter().enumerate() {
        b.push(m(*v, i as u64));
    }
    let snap = b.snapshot();
    assert_eq!(snap.len(), 3);
    let mut values: Vec<u16> = snap.iter().map(|x| x.deci_deg_c).collect();
    values.sort();
    assert_eq!(values, vec![20, 30, 40]);
}

#[test]
fn ring_never_exceeds_capacity() {
    let mut b = RingBuffer::new(2);
    for i in 0..10u64 {
        b.push(m(i as u16, i));
        assert!(b.len() <= 2);
    }
    assert_eq!(b.len(), 2);
}

#[test]
fn ring_below_capacity_keeps_insertion_order() {
    let mut b = RingBuffer::new(5);
    b.push(m(1, 10));
    b.push(m(2, 20));
    let snap = b.snapshot();
    assert_eq!(snap.len(), 2);
    assert_eq!(snap[0], m(1, 10));
    assert_eq!(snap[1], m(2, 20));
}

#[test]
fn persist_snapshot_reports_pushes_in_order() {
    let mut b = PersistBuffer::new(4);
    let pushed = [m(5, 1), m(7, 2), m(9, 2), m(3, 5)];
    for x in pushed.iter() {
        b.push(*x);
    }
    let snap = b.snapshot();
    assert_eq!(snap, pushed.to_vec());
    // a read-only snapshot leaves the buffer as it was
    assert_eq!(b.snapshot(), pushed.to_vec());
}

#[test]
fn compact_captures_all_and_keeps_last() {
    let mut b = PersistBuffer::new(2);
    b.push(m(10, 1));
    b.push(m(20, 2));
    let captured = b.snapshot_and_compact();
    assert_eq!(captured, vec![m(10, 1), m(20, 2)]);
    let after = b.snapshot();
    assert_eq!(after, vec![m(20, 2)]);
}

#[test]
fn compact_on_empty_is_a_no_op() {
    let mut b = PersistBuffer::new(8);
    let captured = b.snapshot_and_compact();
    assert!(captured.is_empty());
    assert_eq!(b.len(), 0);
}

#[test]
fn compact_twice_keeps_the_same_last_value() {
    let mut b = PersistBuffer::new(2);
    b.push(m(1, 1));
    b.push(m(2, 2));
    let first = b.snapshot_and_compact();
    assert_eq!(first.len(), 2);
    let second = b.snapshot_and_compact();
    assert_eq!(second, vec![m(2, 2)]);
    assert_eq!(b.snapshot(), vec![m(2, 2)]);
}
