use blink_tree::latch::LatchType;
use blink_tree::node::{BTreeNode, SynchronizedNode};

#[test]
fn test_create() {
    // Testing creation
    let mut node: SynchronizedNode = SynchronizedNode::create(2);
    node.acquire_exclusive();
    assert!(node.is_root() == false);
    assert!(node.right_link().is_none());
    assert!(node.out_link().is_none());
    assert!(node.num_children() == 0);
    assert!(node.num_keys() == 0);
    assert!(node.min_ord() == 2);

    // Testing setters

    assert!(!node.is_root());
    node.set_root(true);
    assert!(node.is_root());

    let new_keys: Vec<u64> = vec![1, 2, 3, 4];
    node.set_keys(new_keys);
    assert!(node.num_keys() == 4);

    for i in 0..4 {
        assert!(node.key_at(i) == i as u64 + 1);
    }

    let child_one: SynchronizedNode = SynchronizedNode::create(2);
    let child_two: SynchronizedNode = SynchronizedNode::create(2);
    let child_three: SynchronizedNode = SynchronizedNode::create(2);
    let child_four: SynchronizedNode = SynchronizedNode::create(2);
    let child_five: SynchronizedNode = SynchronizedNode::create(2);
    drop(child_one);
    drop(child_two);
    drop(child_three);
    drop(child_four);
    drop(child_five);

    // child pointers are identifiers into a tree's node store
    let new_children: Vec<usize> = vec![1, 2, 3, 4, 5];

    node.set_children(new_children);

    assert!(node.num_children() == 5);

    let sib: usize = 6;
    let out: usize = 7;

    node.set_right_link(Some(sib));
    assert!(node.right_link().is_some());

    node.set_out_link(Some(out));
    assert!(node.out_link().is_some());

    node.set_right_link(None);
    node.set_out_link(None);

    assert!(node.right_link().is_none());
    assert!(node.out_link().is_none());
    node.release();
}

#[test]
fn has_key_is_a_binary_search_hit() {
    let mut node: SynchronizedNode = SynchronizedNode::create(2);
    node.acquire_exclusive();
    node.set_keys(vec![1, 3, 5, 9]);
    assert!(node.has_key(3));
    assert!(node.has_key(1));
    assert!(node.has_key(9));
    assert!(!node.has_key(2));
    assert!(!node.has_key(0));
    assert!(!node.has_key(10));
    node.release();
}

#[test]
fn overflow_and_underflow_thresholds() {
    let mut node: SynchronizedNode = SynchronizedNode::create(2);
    node.acquire_exclusive();
    node.set_keys(vec![1, 2]);
    assert!(!node.would_overflow());
    assert!(node.would_underflow());
    node.set_keys(vec![1, 2, 3]);
    assert!(node.would_overflow());
    assert!(!node.would_underflow());
    node.set_keys(vec![1]);
    assert!(!node.would_overflow());
    assert!(node.would_underflow());
    node.release();
}

#[test]
fn latch_modes_acquire_and_release() {
    let mut node: SynchronizedNode = SynchronizedNode::create(3);
    node.acquire(LatchType::Shared);
    assert!(node.num_keys() == 0);
    node.release();
    node.acquire(LatchType::Exclusive);
    node.set_keys(vec![4]);
    assert!(node.num_keys() == 1);
    node.release();
}
