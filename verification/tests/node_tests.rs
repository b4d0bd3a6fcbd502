use blink_tree::latch::{LatchState, LatchType, NodeLatch, READER_LIMIT};
use blink_tree::node::{BTreeNode, Node};

#[test]
fn test_create() {
    // Testing creation
    let node: Node<usize> = Node::create(2);
    assert!(node.inner.root == false);
    assert!(node.inner.right_link.is_none());
    assert!(node.inner.out_link.is_none());
    assert!(node.inner.children.len() == 0);
    assert!(node.inner.keys.len() == 0);
    assert!(node.inner.min_ord == 2);
}

#[test]
fn created_node_is_unlatched() {
    let node: Node<u64> = Node::create(3);
    assert_eq!(node.latch.state(), LatchState { shared: 0, upgradable: false, exclusive: false });
    assert!(node.inner.low_key.is_none());
    assert!(node.inner.high_key.is_none());
}

#[test]
fn has_key_finds_what_is_there() {
    let mut node: Node<u64> = Node::create(2);
    node.latch.acquire(LatchType::Excl);
    node.set_keys(vec![10, 20, 30, 40]);
    assert!(node.has_key(&10));
    assert!(node.has_key(&30));
    assert!(node.has_key(&40));
    assert!(!node.has_key(&5));
    assert!(!node.has_key(&25));
    assert!(!node.has_key(&45));
}

#[test]
fn internal_node_has_the_keys_of_its_range() {
    let mut node: Node<u64> = Node::create(1);
    node.latch.acquire(LatchType::Excl);
    node.set_keys(vec![20, 30]);
    node.set_children(vec![4, 5, 6]);
    node.inner.low_key = Some(10);
    node.inner.high_key = Some(40);
    assert!(!node.has_key(&9));
    assert!(node.has_key(&10));
    assert!(node.has_key(&20));
    assert!(node.has_key(&25));
    assert!(node.has_key(&39));
    assert!(!node.has_key(&40));
    node.inner.low_key = None;
    assert!(node.has_key(&0));
    node.inner.high_key = None;
    assert!(node.has_key(&u64::MAX));
}

#[test]
fn has_key_on_empty_node() {
    let mut node: Node<u64> = Node::create(2);
    node.latch.acquire(LatchType::Shared);
    assert!(!node.has_key(&1));
}

#[test]
fn setters_replace_keys_and_children() {
    let mut node: Node<u64> = Node::create(1);
    node.latch.acquire(LatchType::Excl);
    node.set_keys(vec![7]);
    node.set_children(vec![3, 4]);
    assert_eq!(node.inner.keys, vec![7]);
    assert_eq!(node.inner.children, vec![3, 4]);
    assert!(!node.is_root());
    assert_eq!(node.inner.min_ord, 1);
}

#[test]
fn overflow_is_due_at_twice_the_order() {
    let mut node: Node<u64> = Node::create(2);
    node.latch.acquire(LatchType::Excl);
    assert!(!node.would_overflow());
    node.set_keys(vec![1, 2, 3]);
    assert!(!node.would_overflow());
    node.set_keys(vec![1, 2, 3, 4]);
    assert!(node.would_overflow());
    node.set_keys(vec![1, 2, 3, 4, 5]);
    assert!(!node.would_overflow());
}

#[test]
fn underflow_is_due_at_the_order() {
    let mut node: Node<u64> = Node::create(2);
    node.latch.acquire(LatchType::Excl);
    assert!(!node.would_underflow());
    node.set_keys(vec![1, 2]);
    assert!(node.would_underflow());
    node.set_keys(vec![1, 2, 3]);
    assert!(!node.would_underflow());
}

#[test]
fn overflow_with_largest_order_does_not_wrap() {
    let mut node: Node<u64> = Node::create(usize::MAX);
    node.latch.acquire(LatchType::Shared);
    assert!(!node.would_overflow());
    assert!(!node.would_underflow());
}

#[test]
fn child_slot_counts_keys_up_to_the_key() {
    let mut node: Node<u64> = Node::create(2);
    node.latch.acquire(LatchType::Excl);
    node.set_keys(vec![10, 20, 30]);
    assert_eq!(node.child_slot(&5), 0);
    assert_eq!(node.child_slot(&10), 1);
    assert_eq!(node.child_slot(&15), 1);
    assert_eq!(node.child_slot(&20), 2);
    assert_eq!(node.child_slot(&30), 3);
    assert_eq!(node.child_slot(&99), 3);
}

#[test]
fn latch_modes_exclude_as_they_should() {
    let mut latch = NodeLatch::new();
    assert!(latch.state().can_acquire(LatchType::Shared));
    assert!(latch.state().can_acquire(LatchType::Upgradable));
    assert!(latch.state().can_acquire(LatchType::Excl));
    latch.acquire(LatchType::Shared);
    latch.acquire(LatchType::Shared);
    assert_eq!(latch.state().shared, 2);
    assert!(latch.state().can_acquire(LatchType::Upgradable));
    assert!(!latch.state().can_acquire(LatchType::Excl));
    latch.acquire(LatchType::Upgradable);
    assert!(latch.state().can_acquire(LatchType::Shared));
    assert!(!latch.state().can_acquire(LatchType::Upgradable));
    assert!(!latch.state().can_acquire(LatchType::Excl));
    latch.acquire(LatchType::Shared);
    assert_eq!(latch.state().shared, 3);
    latch.release(LatchType::Shared);
    latch.release(LatchType::Shared);
    latch.release(LatchType::Shared);
    latch.upgrade();
    assert!(latch.state().is_held(LatchType::Excl));
    assert!(!latch.state().is_held(LatchType::Upgradable));
    assert!(!latch.state().can_acquire(LatchType::Shared));
    assert!(!latch.state().can_acquire(LatchType::Upgradable));
    assert!(!latch.state().can_acquire(LatchType::Excl));
    latch.release(LatchType::Excl);
    assert_eq!(latch.state(), LatchState::new());
    latch.acquire(LatchType::Excl);
    latch.release(LatchType::Excl);
    latch.acquire(LatchType::Upgradable);
    latch.release(LatchType::Upgradable);
    assert_eq!(latch.state(), LatchState::new());
}

#[test]
fn record_counts_the_upgradable_holder_as_a_reader() {
    assert_eq!(READER_LIMIT, usize::MAX >> 4);
    let full = LatchState { shared: READER_LIMIT, upgradable: false, exclusive: false };
    assert!(!full.can_acquire(LatchType::Shared));
    assert!(!full.can_acquire(LatchType::Upgradable));
    let nearly = LatchState { shared: READER_LIMIT - 1, upgradable: false, exclusive: false };
    assert!(nearly.can_acquire(LatchType::Shared));
    assert!(nearly.can_acquire(LatchType::Upgradable));
    let with_upgradable = LatchState { shared: READER_LIMIT - 1, upgradable: true, exclusive: false };
    assert!(!with_upgradable.can_acquire(LatchType::Shared));
}
