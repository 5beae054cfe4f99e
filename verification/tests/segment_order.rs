use metamath_pipeline::segment_order::{SegmentId, SegmentOrder};
use std::cmp::Ordering;

#[test]
fn new_order_holds_the_start_marker() {
    let order = SegmentOrder::new();
    assert_eq!(order.len(), 1);
    assert_eq!(order.start(), SegmentId(0));
    assert!(order.is_live(SegmentId(0)));
    assert!(!order.is_live(SegmentId(1)));
    assert_eq!(order.room(), u32::MAX - 1);
}

#[test]
fn initial_identifiers_come_in_order() {
    let mut order = SegmentOrder::new();
    let ids = order.allocate_initial(4);
    assert_eq!(ids, vec![SegmentId(1), SegmentId(2), SegmentId(3), SegmentId(4)]);
    for i in 0..4 {
        for j in 0..4 {
            assert_eq!(order.compare(ids[i], ids[j]), i.cmp(&j));
            assert_eq!(order.precedes(ids[i], ids[j]), i < j);
        }
        assert_eq!(order.compare(order.start(), ids[i]), Ordering::Less);
    }
    assert_eq!(order.successor(ids[1]), Some(ids[2]));
    assert_eq!(order.successor(ids[3]), None);
}

#[test]
fn allocation_between_neighbours() {
    let mut order = SegmentOrder::new();
    let ids = order.allocate_initial(2);
    let mid = order.allocate_between(ids[0], ids[1]);
    assert_eq!(mid, SegmentId(3));
    assert_eq!(order.compare(ids[0], mid), Ordering::Less);
    assert_eq!(order.compare(mid, ids[1]), Ordering::Less);
    assert_eq!(order.compare(mid, mid), Ordering::Equal);
    assert_eq!(order.compare(ids[1], mid), Ordering::Greater);
    let after = order.allocate_after(ids[0]);
    assert_eq!(after, SegmentId(4));
    assert_eq!(order.successor(ids[0]), Some(after));
    assert_eq!(order.successor(after), Some(mid));
}

#[test]
fn freed_identifiers_are_never_handed_out_again() {
    let mut order = SegmentOrder::new();
    let ids = order.allocate_initial(3);
    order.free(ids[1]);
    assert!(!order.is_live(ids[1]));
    assert_eq!(order.len(), 3);
    let fresh = order.allocate_after(ids[0]);
    assert_eq!(fresh, SegmentId(4));
    assert!(!order.is_live(ids[1]));
    assert_eq!(order.successor(ids[0]), Some(fresh));
    assert_eq!(order.successor(fresh), Some(ids[2]));
}

#[test]
fn order_of_survivors_is_stable() {
    let mut order = SegmentOrder::new();
    let ids = order.allocate_initial(5);
    let mut expected = Vec::new();
    for i in 0..5 {
        for j in 0..5 {
            expected.push(order.compare(ids[i], ids[j]));
        }
    }
    let a = order.allocate_after(ids[2]);
    let b = order.allocate_between(ids[0], ids[1]);
    order.free(a);
    let c = order.allocate_after(order.start());
    order.free(b);
    order.free(c);
    let d = order.allocate_after(ids[4]);
    let mut got = Vec::new();
    for i in 0..5 {
        for j in 0..5 {
            got.push(order.compare(ids[i], ids[j]));
        }
    }
    assert_eq!(got, expected);
    assert_eq!(order.compare(ids[4], d), Ordering::Less);
}

#[test]
fn duplicate_is_independent() {
    let mut order = SegmentOrder::new();
    let ids = order.allocate_initial(2);
    let mut copy = order.duplicate();
    copy.free(ids[0]);
    assert!(order.is_live(ids[0]));
    assert!(!copy.is_live(ids[0]));
}
