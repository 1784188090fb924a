use dataflow::bitset::BitSet;
use dataflow::work_queue::WorkQueue;

#[test]
fn bitset_insert_contains_count() {
    let mut s = BitSet::new_empty(8);
    assert_eq!(s.universe(), 8);
    assert!(!s.contains(3));
    s.insert(3);
    s.insert(5);
    assert!(s.contains(3));
    assert!(s.contains(5));
    assert!(!s.contains(4));
    assert_eq!(s.count(), 2);
    s.remove(3);
    assert!(!s.contains(3));
    assert_eq!(s.count(), 1);
}

#[test]
fn bitset_union_reports_change() {
    let mut a = BitSet::new_empty(4);
    let mut b = BitSet::new_empty(4);
    b.insert(1);
    b.insert(2);
    assert!(a.union_with(&b));
    assert!(a.contains(1) && a.contains(2));
    // a second union with the same set changes nothing
    assert!(!a.union_with(&b));
}

#[test]
fn bitset_subtract() {
    let mut a = BitSet::new_empty(4);
    a.insert(0);
    a.insert(1);
    let mut b = BitSet::new_empty(4);
    b.insert(1);
    b.insert(3);
    a.subtract(&b);
    assert!(a.contains(0));
    assert!(!a.contains(1));
    assert!(!a.contains(3));
}

#[test]
fn bitset_copy_and_clone() {
    let mut a = BitSet::new_empty(3);
    a.insert(2);
    let c = a.clone_set();
    assert!(c.contains(2));
    let mut d = BitSet::new_empty(3);
    d.copy_from(&a);
    assert!(d.contains(2));
    assert!(!d.contains(0));
}

#[test]
fn work_queue_is_fifo_with_duplicate_suppression() {
    let mut q = WorkQueue::with_none(10);
    assert_eq!(q.len(), 0);
    q.insert(4);
    q.insert(7);
    q.insert(4); // suppressed: already inserted
    assert_eq!(q.len(), 2);
    assert_eq!(q.take(), Some(4));
    assert_eq!(q.take(), Some(7));
    assert_eq!(q.take(), None);
    // the membership set is never cleared: 4 cannot re-enter the deque
    q.insert(4);
    assert_eq!(q.len(), 0);
    assert_eq!(q.take(), None);
}

#[test]
fn work_queue_mark_visited_blocks_insertion() {
    let mut q = WorkQueue::with_none(5);
    let mut visited = BitSet::new_empty(5);
    visited.insert(2);
    q.mark_visited(&visited);
    q.insert(2); // assumed visited: never enqueued
    q.insert(3);
    assert_eq!(q.take(), Some(3));
    assert_eq!(q.take(), None);
}
