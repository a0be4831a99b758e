use blink_tree::latch::LatchType;
use blink_tree::tree::Tree;

/// All keys held by live leaves, in ascending order.
fn live_leaf_keys(t: &mut Tree) -> Vec<u64> {
    let mut all: Vec<u64> = Vec::new();
    for i in 0..t.node_count() {
        t.acquire_at(i, LatchType::Shared);
        if t.out_link_at(i).is_none() && t.num_children_at(i) == 0 {
            for p in 0..t.num_keys_at(i) {
                all.push(t.key_at_of(i, p));
            }
        }
        t.release_at(i);
    }
    all.sort();
    all
}

/// The number of edges from the root down to the leftmost leaf.
fn height(t: &mut Tree) -> usize {
    let mut cur = t.root_node();
    let mut d = 0;
    loop {
        t.acquire_at(cur, LatchType::Shared);
        let nc = t.num_children_at(cur);
        if nc == 0 {
            t.release_at(cur);
            return d;
        }
        let c = t.child_at_of(cur, 0);
        t.release_at(cur);
        cur = c;
        d += 1;
    }
}

#[test]
fn empty_tree_basics() {
    let mut t = Tree::new(2);
    assert_eq!(t.order(), 2);
    assert_eq!(t.node_count(), 1);
    assert!(!t.search(17));
    assert!(!t.delete(17));
    assert_eq!(live_leaf_keys(&mut t), Vec::<u64>::new());
}

#[test]
fn scenario_insert_one_to_eight() {
    // min_ord = 2; insert keys 1..8 sequentially into an initially empty
    // tree: the root ends up holding a single separator key, two levels
    // above the leaves, and search(5) is found while search(9) is not.
    let mut t = Tree::new(2);
    for k in 1..=8u64 {
        assert!(t.insert(k));
    }
    let root = t.root_node();
    t.acquire_at(root, LatchType::Shared);
    assert_eq!(t.num_keys_at(root), 1);
    assert_eq!(t.key_at_of(root, 0), 5);
    assert!(t.is_root_at(root));
    t.release_at(root);
    assert_eq!(height(&mut t), 2);
    assert!(t.search(5));
    assert!(!t.search(9));
    assert_eq!(live_leaf_keys(&mut t), vec![1, 2, 3, 4, 5, 6, 7, 8]);
}

#[test]
fn split_on_reaching_capacity() {
    // Inserting 2 * min_ord distinct keys into a single leaf forces exactly
    // one leaf split: both halves hold between min_ord and 2 * min_ord
    // keys, the left half right-links to the right half, and the left
    // half's largest key is below the right half's smallest.
    let mut t = Tree::new(2);
    for k in [10u64, 20, 30, 40] {
        assert!(t.insert(k));
    }
    let root = t.root_node();
    t.acquire_at(root, LatchType::Shared);
    assert_eq!(t.num_children_at(root), 2);
    let left = t.child_at_of(root, 0);
    let right = t.child_at_of(root, 1);
    t.release_at(root);

    t.acquire_at(left, LatchType::Shared);
    let lk = t.num_keys_at(left);
    assert!(2 <= lk && lk <= 4);
    assert_eq!(t.key_at_of(left, 0), 10);
    assert_eq!(t.key_at_of(left, 1), 20);
    assert_eq!(t.right_link_at(left), Some(right));
    let left_max = t.key_at_of(left, lk - 1);
    t.release_at(left);

    t.acquire_at(right, LatchType::Shared);
    let rk = t.num_keys_at(right);
    assert!(2 <= rk && rk <= 4);
    assert_eq!(t.key_at_of(right, 0), 30);
    assert_eq!(t.key_at_of(right, 1), 40);
    assert!(left_max < t.key_at_of(right, 0));
    t.release_at(right);

    // one leaf split and one root growth: exactly three nodes in the store
    assert_eq!(t.node_count(), 3);
}

#[test]
fn merge_sets_out_link_and_recovers() {
    // Deleting into underflow triggers a merge: the merged-away node's
    // out-link is set, stays set, and a traversal that latched onto the
    // tombstone reaches the surviving node through it.
    let mut t = Tree::new(2);
    for k in 1..=8u64 {
        assert!(t.insert(k));
    }
    assert!(t.delete(1));
    // find a tombstone and follow its out-link via move_right
    let mut tomb = None;
    for i in 0..t.node_count() {
        t.acquire_at(i, LatchType::Shared);
        let dead = t.out_link_at(i).is_some();
        t.release_at(i);
        if dead {
            tomb = Some(i);
            break;
        }
    }
    let tomb = tomb.expect("a merge must leave a tombstone behind");
    t.acquire_at(tomb, LatchType::Shared);
    let resumed = t.move_right(tomb, 3, LatchType::Shared);
    assert_ne!(resumed, tomb);
    assert!(t.out_link_at(resumed).is_none());
    assert!(t.has_key_at(resumed, 3));
    t.release_at(resumed);
    // the out-link is never cleared afterwards
    assert!(t.delete(2));
    t.acquire_at(tomb, LatchType::Shared);
    assert!(t.out_link_at(tomb).is_some());
    t.release_at(tomb);
    assert_eq!(live_leaf_keys(&mut t), vec![3, 4, 5, 6, 7, 8]);
}

#[test]
fn move_right_is_idempotent_on_covering_node() {
    let mut t = Tree::new(2);
    for k in 1..=8u64 {
        assert!(t.insert(k));
    }
    // the root is rightmost at its level: it covers every key
    let root = t.root_node();
    t.acquire_at(root, LatchType::Shared);
    let r = t.move_right(root, 6, LatchType::Shared);
    assert_eq!(r, root);
    // a leaf whose key range covers the target is returned unchanged too
    let leaf = t.child_at_of(root, 0);
    t.release_at(root);
    t.acquire_at(leaf, LatchType::Shared);
    let r2 = t.move_right(leaf, 2, LatchType::Shared);
    assert_eq!(r2, leaf);
    t.release_at(leaf);
}

#[test]
fn interleaved_inserts_lose_nothing() {
    // Three writers with disjoint key sets, interleaved round-robin as a
    // serial schedule: afterwards every key is present exactly once.
    let mut t = Tree::new(2);
    let m = 10u64;
    for round in 0..m {
        for writer in 0..3u64 {
            assert!(t.insert(1 + writer + 3 * round));
        }
    }
    for k in 1..=3 * m {
        assert!(t.search(k));
    }
    assert!(!t.search(0));
    assert!(!t.search(3 * m + 1));
    let all = live_leaf_keys(&mut t);
    let expected: Vec<u64> = (1..=3 * m).collect();
    assert_eq!(all, expected);
}

#[test]
fn reachability_after_insert_and_delete() {
    let mut t = Tree::new(2);
    for k in [5u64, 1, 9, 3, 7, 2, 8, 4, 6, 10] {
        assert!(t.insert(k));
    }
    for k in 1..=10u64 {
        assert!(t.search(k));
    }
    for k in [2u64, 4, 6, 8, 10] {
        assert!(t.delete(k));
    }
    for k in [2u64, 4, 6, 8, 10] {
        assert!(!t.search(k));
    }
    for k in [1u64, 3, 5, 7, 9] {
        assert!(t.search(k));
    }
    assert_eq!(live_leaf_keys(&mut t), vec![1, 3, 5, 7, 9]);
}

#[test]
fn delete_of_absent_key_is_a_normal_outcome() {
    let mut t = Tree::new(2);
    assert!(t.insert(4));
    assert!(!t.delete(5));
    assert!(t.search(4));
    assert!(t.delete(4));
    assert!(!t.delete(4));
    assert_eq!(live_leaf_keys(&mut t), Vec::<u64>::new());
}

#[test]
fn duplicate_insert_changes_nothing() {
    let mut t = Tree::new(2);
    assert!(t.insert(5));
    assert!(t.insert(5));
    assert!(t.search(5));
    assert_eq!(live_leaf_keys(&mut t), vec![5]);
}

#[test]
fn root_flag_is_unique_at_quiescence() {
    let mut t = Tree::new(2);
    for k in 1..=20u64 {
        assert!(t.insert(k));
    }
    for k in 1..=9u64 {
        assert!(t.delete(k));
    }
    let root = t.root_node();
    for i in 0..t.node_count() {
        t.acquire_at(i, LatchType::Shared);
        assert_eq!(t.is_root_at(i), i == root);
        t.release_at(i);
    }
    let rest: Vec<u64> = (10..=20).collect();
    assert_eq!(live_leaf_keys(&mut t), rest);
}

#[test]
fn deletes_shrink_the_tree_to_one_live_branch() {
    let mut t = Tree::new(2);
    for k in 1..=8u64 {
        assert!(t.insert(k));
    }
    for k in 1..=6u64 {
        assert!(t.delete(k));
    }
    assert!(t.search(7));
    assert!(t.search(8));
    for k in 1..=6u64 {
        assert!(!t.search(k));
    }
    assert_eq!(live_leaf_keys(&mut t), vec![7, 8]);
}
