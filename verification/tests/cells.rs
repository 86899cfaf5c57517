//! Buffer cell disciplines on concrete values.

use knx_bridge::cell::{LatestCell, RingCell};
use knx_bridge::errors::SubscriptionError;

#[test]
fn latest_read_returns_last_write() {
    let mut cell: LatestCell<u32> = LatestCell::new(2);
    assert!(cell.read().is_none());
    cell.write(1);
    cell.write(2);
    cell.write(3);
    assert_eq!(cell.read().copied(), Some(3));
}

#[test]
fn latest_subscription_sees_each_update_once() {
    let mut cell: LatestCell<u32> = LatestCell::new(1);
    let sub = cell.subscribe().unwrap();
    // a subscription observes the next update, not the stored value
    assert!(!cell.has_update(sub));
    cell.write(7);
    assert!(cell.has_update(sub));
    cell.ack(sub);
    assert!(!cell.has_update(sub));
    // two writes before a read collapse to the latest value
    cell.write(8);
    cell.write(9);
    assert!(cell.has_update(sub));
    assert_eq!(cell.read().copied(), Some(9));
}

#[test]
fn latest_subscriber_limit() {
    let mut cell: LatestCell<u32> = LatestCell::new(1);
    assert_eq!(cell.subscribe(), Ok(0));
    assert_eq!(cell.subscribe(), Err(SubscriptionError::LimitReached));
}

fn drain(cell: &mut RingCell<u32>, sub: usize) -> Vec<u32> {
    let mut out = Vec::new();
    loop {
        let next = match cell.peek(sub) {
            Some(v) => *v,
            None => break,
        };
        out.push(next);
        cell.advance(sub);
    }
    out
}

#[test]
fn ring_overflow_drops_oldest() {
    // capacity 3, write 5: the subscriber gets exactly the last 3, in order
    let mut cell: RingCell<u32> = RingCell::new(3, 2);
    let sub = cell.subscribe().unwrap();
    for v in 1..=5u32 {
        cell.write(v);
    }
    assert_eq!(cell.len(), 3);
    assert_eq!(drain(&mut cell, sub), vec![3, 4, 5]);
    // drained: the next read would suspend
    assert!(cell.peek(sub).is_none());
}

#[test]
fn ring_keeps_arrival_order_below_capacity() {
    let mut cell: RingCell<u32> = RingCell::new(4, 1);
    let sub = cell.subscribe().unwrap();
    cell.write(10);
    cell.write(20);
    assert_eq!(drain(&mut cell, sub), vec![10, 20]);
    cell.write(30);
    assert_eq!(drain(&mut cell, sub), vec![30]);
}

#[test]
fn ring_subscribers_have_independent_cursors() {
    let mut cell: RingCell<u32> = RingCell::new(8, 2);
    let a = cell.subscribe().unwrap();
    let b = cell.subscribe().unwrap();
    cell.write(1);
    cell.write(2);
    assert_eq!(drain(&mut cell, a), vec![1, 2]);
    cell.write(3);
    assert_eq!(drain(&mut cell, a), vec![3]);
    assert_eq!(drain(&mut cell, b), vec![1, 2, 3]);
}

#[test]
fn ring_lagging_subscriber_skips_to_oldest_surviving() {
    let mut cell: RingCell<u32> = RingCell::new(2, 1);
    let sub = cell.subscribe().unwrap();
    cell.write(1);
    cell.write(2);
    cell.write(3);  // overwrites 1; the subscriber never read it
    assert_eq!(drain(&mut cell, sub), vec![2, 3]);
}

#[test]
fn ring_subscriber_limit() {
    let mut cell: RingCell<u32> = RingCell::new(2, 1);
    assert_eq!(cell.subscribe(), Ok(0));
    assert_eq!(cell.subscribe(), Err(SubscriptionError::LimitReached));
}
