use std::cell::RefCell;
use std::rc::Rc;

use moka::common::deque::{DeqNode, Deque};
use moka::common::CacheRegion;

#[test]
fn basics() {
    let region = CacheRegion::MainProbation;
    let mut deque: Deque<String> = Deque::new(region);
    assert_eq!(deque.len(), 0);
    assert!(deque.peek_front().is_none());
    assert!(deque.peek_back().is_none());

    // push_back(node1)
    assert!(!deque.contains(0));
    let node1 = deque.push_back(DeqNode::new(region, "a".to_string()));
    assert_eq!(deque.len(), 1);

    // peek_front() -> node1
    assert_eq!(deque.peek_front_ptr(), Some(node1));
    assert!(deque.contains(node1));
    assert!(deque.is_head(node1));
    assert!(deque.is_tail(node1));
    assert_eq!(deque.peek_front().unwrap().element, "a".to_string());

    // move_to_back(node1)
    deque.move_to_back(node1);
    assert_eq!(deque.len(), 1);
    is_front(&deque, node1, None);
    is_back(&deque, node1, None);

    // push_back(node2)
    let node2 = deque.push_back(DeqNode::new(region, "b".to_string()));
    assert_eq!(deque.len(), 2);
    is_front(&deque, node1, Some(node2));

    // move_to_back(node2)
    deque.move_to_back(node2);
    assert_eq!(deque.len(), 2);
    is_front(&deque, node1, Some(node2));
    is_back(&deque, node2, Some(node1));
    assert_eq!(deque.peek_back().unwrap().element, "b".to_string());

    // move_to_back(node1)
    deque.move_to_back(node1);
    assert_eq!(deque.len(), 2);
    is_front(&deque, node2, Some(node1));
    is_back(&deque, node1, Some(node2));

    // push_back(node3)
    let node3 = deque.push_back(DeqNode::new(region, "c".to_string()));
    assert_eq!(deque.len(), 3);
    is_front(&deque, node2, Some(node1));
    is_back(&deque, node3, Some(node1));
    assert_eq!(deque.peek_back().unwrap().element, "c".to_string());

    // move_to_back(node1)
    deque.move_to_back(node1);
    assert_eq!(deque.len(), 3);
    is_front(&deque, node2, Some(node3));
    is_back(&deque, node1, Some(node3));

    // unlink(node3)
    let unlinked = deque.unlink(node3);
    assert_eq!(deque.len(), 2);
    assert!(!deque.contains(node3));
    assert!(unlinked.next.is_none());
    assert!(unlinked.prev.is_none());
    is_front(&deque, node2, Some(node1));
    is_back(&deque, node1, Some(node2));

    // unlink(node2)
    let unlinked = deque.unlink(node2);
    assert_eq!(deque.len(), 1);
    assert!(!deque.contains(node2));
    assert!(unlinked.next.is_none());
    assert!(unlinked.prev.is_none());
    is_front(&deque, node1, None);
    is_back(&deque, node1, None);

    // unlink(node1)
    let unlinked = deque.unlink(node1);
    assert_eq!(deque.len(), 0);
    assert!(!deque.contains(node1));
    assert!(unlinked.next.is_none());
    assert!(unlinked.prev.is_none());

    assert!(deque.peek_front().is_none());
    assert!(deque.peek_back().is_none());
}

/// The node is the first, and `next` comes after it.
fn is_front(deque: &Deque<String>, node: usize, next: Option<usize>) {
    assert_eq!(deque.peek_front_ptr(), Some(node));
    assert!(deque.contains(node));
    assert!(deque.is_head(node));
    assert_eq!(deque.is_tail(node), next.is_none());
    let front = deque.peek_front().unwrap();
    assert!(std::ptr::eq(front, deque.node(node)));
    assert!(front.prev.is_none());
    assert_eq!(front.next, next);
}

/// The node is the last, and `prev` comes before it.
fn is_back(deque: &Deque<String>, node: usize, prev: Option<usize>) {
    assert!(deque.contains(node));
    assert_eq!(deque.is_head(node), prev.is_none());
    assert!(deque.is_tail(node));
    let back = deque.peek_back().unwrap();
    assert!(std::ptr::eq(back, deque.node(node)));
    assert_eq!(back.prev, prev);
    assert!(back.next.is_none());
}

struct X(u32, Rc<RefCell<Vec<u32>>>);

impl Drop for X {
    fn drop(&mut self) {
        self.1.borrow_mut().push(self.0)
    }
}

#[test]
fn drop() {
    let region = CacheRegion::MainProbation;
    let mut deque: Deque<X> = Deque::new(region);
    let dropped = Rc::new(RefCell::new(Vec::default()));

    let node1 = DeqNode::new(region, X(1, Rc::clone(&dropped)));
    let node2 = DeqNode::new(region, X(2, Rc::clone(&dropped)));
    let node3 = DeqNode::new(region, X(3, Rc::clone(&dropped)));
    let node4 = DeqNode::new(region, X(4, Rc::clone(&dropped)));
    deque.push_back(node1);
    deque.push_back(node2);
    deque.push_back(node3);
    deque.push_back(node4);
    assert_eq!(deque.len(), 4);

    std::mem::drop(deque);

    assert_eq!(*dropped.borrow(), &[1, 2, 3, 4]);
}

#[test]
fn pop_front_goes_in_order() {
    let region = CacheRegion::MainProbation;
    let mut deque: Deque<u8> = Deque::new(region);
    for n in 1..=3u8 {
        deque.push_back(DeqNode::new(region, n));
    }
    assert_eq!(deque.pop_front().map(|n| n.element), Some(1));
    deque.push_back(DeqNode::new(region, 4));
    assert_eq!(deque.pop_front().map(|n| n.element), Some(2));
    assert_eq!(deque.pop_front().map(|n| n.element), Some(3));
    assert_eq!(deque.pop_front().map(|n| n.element), Some(4));
    assert!(deque.pop_front().is_none());
}

#[test]
fn moved_members_are_dropped_from_front_to_back() {
    let region = CacheRegion::MainProbation;
    let mut deque: Deque<X> = Deque::new(region);
    let dropped = Rc::new(RefCell::new(Vec::default()));
    let nodes: Vec<usize> =
        (1..=5).map(|n| deque.push_back(DeqNode::new(region, X(n, Rc::clone(&dropped))))).collect();
    deque.move_to_back(nodes[0]);
    deque.move_to_back(nodes[2]);
    std::mem::drop(deque.unlink(nodes[3]));
    deque.push_back(DeqNode::new(region, X(6, Rc::clone(&dropped))));
    // Many moves, so that the gaps are closed now and then.
    for _ in 0..500 {
        deque.move_to_back(nodes[4]);
        deque.move_to_back(nodes[1]);
    }
    assert_eq!(deque.len(), 5);
    assert_eq!(*dropped.borrow(), &[4]);
    std::mem::drop(deque);
    assert_eq!(*dropped.borrow(), &[4, 1, 3, 6, 5, 2]);
}
