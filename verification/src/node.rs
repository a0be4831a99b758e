//! The B-link tree node payload and its latch-guarded wrapper.
//!
//! A node is described at the specification level by [`NodeModel`]: its
//! minimum order, root flag, strictly ascending key sequence, child slots
//! (empty for leaves), right-link to the sibling at the same level, out-link
//! to the node where a stray traversal resumes once this node has been
//! merged away, and its level (leaves at level zero).  Node references are
//! identifiers into the tree's node store; see [`crate::tree`].
//!
//! [`SynchronizedNode`] pairs the payload with its own [`Latch`] and is the
//! only path to the payload's fields: every reader demands at least a shared
//! hold and every mutator demands the exclusive hold in its precondition, so
//! an unlatched access is a verification error, never a silent race.

use crate::latch::{Latch, LatchType};
use vstd::prelude::*;

verus! {

/// The mathematical model of one node.
#[verifier::ext_equal]
pub struct NodeModel {
    pub min_ord: usize,
    pub root: bool,
    pub keys: Seq<u64>,
    pub children: Seq<usize>,
    pub right_link: Option<usize>,
    pub out_link: Option<usize>,
    pub level: nat,
}

/// A key sequence in strictly ascending order.
pub open spec fn strictly_sorted(s: Seq<u64>) -> bool {
    forall|i: int, j: int| 0 <= i < j < s.len() ==> s[i] < s[j]
}

/// The model of a freshly created node: empty, non-root, unlinked, a leaf.
pub open spec fn empty_node(min_ord: usize) -> NodeModel {
    NodeModel {
        min_ord,
        root: false,
        keys: Seq::empty(),
        children: Seq::empty(),
        right_link: None,
        out_link: None,
        level: 0,
    }
}

/// The internal structure of a node:
/// - `min_ord` is the tree-wide minimum order, the lower bound on the number
///   of keys a non-root node should hold (capacity is twice it);
/// - `root` is true iff this node is currently the tree's entry point;
/// - `keys` are the stored keys (leaves) or the separator keys (internal
///   nodes), in strictly ascending order;
/// - `children` holds the identifiers of the nodes one level down, empty for
///   a leaf, one more entry than `keys` otherwise;
/// - `right_link` is the identifier of the immediate right sibling at the
///   same level, if any;
/// - `out_link` is set exactly when the node has been merged away, and then
///   names a live node from which a traversal caught on this node resumes;
/// - `level` is the node's height above the leaves, kept as ghost state to
///   witness that every descent terminates.
pub struct NodeInner {
    min_ord: usize,
    root: bool,
    keys: Vec<u64>,
    children: Vec<usize>,
    right_link: Option<usize>,
    out_link: Option<usize>,
    level: Ghost<nat>,
}

impl View for NodeInner {
    type V = NodeModel;

    closed spec fn view(&self) -> NodeModel {
        NodeModel {
            min_ord: self.min_ord,
            root: self.root,
            keys: self.keys@,
            children: self.children@,
            right_link: self.right_link,
            out_link: self.out_link,
            level: self.level@,
        }
    }
}

impl NodeInner {
    /// A new empty, non-root leaf payload.
    pub fn new(min_ord: usize) -> (n: Self)
        ensures
            n@ == empty_node(min_ord),
    {
        Self {
            min_ord,
            root: false,
            keys: Vec::new(),
            children: Vec::new(),
            right_link: None,
            out_link: None,
            level: Ghost(0),
        }
    }
}

/// A node wrapped with its own latch.  All field access goes through the
/// methods below, whose preconditions demand the appropriate hold.
pub struct SynchronizedNode {
    latch: Latch,
    inner: NodeInner,
}

/// The latch-guarded operations every B-link tree node offers.  Readers
/// demand at least a shared hold, mutators the exclusive hold; none of the
/// mutators validates tree-wide invariants, which is the traversal engine's
/// responsibility while it holds the latch across the whole
/// read-decide-mutate sequence.
pub trait BTreeNode: Sized {
    /// The node payload this value currently holds.
    spec fn node(&self) -> NodeModel;

    /// The state of this node's latch.
    spec fn latch_state(&self) -> Latch;

    /// Allocate a new empty, non-root leaf node with a free latch.
    fn create(min_ord: usize) -> (n: Self)
        ensures
            n.node() == empty_node(min_ord),
            n.latch_state().is_free(),
    ;

    /// Whether `key` is present in `keys`: a true binary-search hit.
    fn has_key(&self, key: u64) -> (r: bool)
        requires
            self.latch_state().is_held(),
            strictly_sorted(self.node().keys),
        ensures
            r == self.node().keys.contains(key),
    ;

    /// Whether this node is currently the tree's entry point.
    fn is_root(&self) -> (r: bool)
        requires
            self.latch_state().is_held(),
        ensures
            r == self.node().root,
    ;

    /// At or beyond the proactive-split threshold: true once the key count
    /// reaches one insertion away from exceeding capacity, so a split is
    /// triggered before any overflow can be observed.
    fn would_overflow(&self) -> (r: bool)
        requires
            self.latch_state().is_held(),
            1 <= self.node().min_ord <= usize::MAX / 2,
        ensures
            r == (self.node().keys.len() >= 2 * self.node().min_ord - 1),
    ;

    /// At or below the proactive-rebalance threshold: true once the key
    /// count reaches one deletion away from falling below the floor, so a
    /// borrow or merge is triggered before any underflow can be observed.
    fn would_underflow(&self) -> (r: bool)
        requires
            self.latch_state().is_held(),
        ensures
            r == (self.node().keys.len() <= self.node().min_ord),
    ;

    /// Set the root flag.
    fn set_root(&mut self, root: bool)
        requires
            old(self).latch_state().is_exclusive(),
        ensures
            final(self).node() == (NodeModel { root, ..old(self).node() }),
            final(self).latch_state() == old(self).latch_state(),
    ;

    /// Replace the key sequence.
    fn set_keys(&mut self, keys: Vec<u64>)
        requires
            old(self).latch_state().is_exclusive(),
        ensures
            final(self).node() == (NodeModel { keys: keys@, ..old(self).node() }),
            final(self).latch_state() == old(self).latch_state(),
    ;

    /// Replace the child identifiers.
    fn set_children(&mut self, children: Vec<usize>)
        requires
            old(self).latch_state().is_exclusive(),
        ensures
            final(self).node() == (NodeModel { children: children@, ..old(self).node() }),
            final(self).latch_state() == old(self).latch_state(),
    ;

    /// Replace the right-link.
    fn set_right_link(&mut self, new_right_link: Option<usize>)
        requires
            old(self).latch_state().is_exclusive(),
        ensures
            final(self).node() == (NodeModel { right_link: new_right_link, ..old(self).node() }),
            final(self).latch_state() == old(self).latch_state(),
    ;

    /// Replace the out-link.
    fn set_out_link(&mut self, new_out_link: Option<usize>)
        requires
            old(self).latch_state().is_exclusive(),
        ensures
            final(self).node() == (NodeModel { out_link: new_out_link, ..old(self).node() }),
            final(self).latch_state() == old(self).latch_state(),
    ;
}

impl BTreeNode for SynchronizedNode {
    closed spec fn node(&self) -> NodeModel {
        self.inner@
    }

    closed spec fn latch_state(&self) -> Latch {
        self.latch
    }

    fn create(min_ord: usize) -> (n: Self) {
        SynchronizedNode { latch: Latch::new(), inner: NodeInner::new(min_ord) }
    }

    fn has_key(&self, key: u64) -> (r: bool) {
        let mut lo: usize = 0;
        let mut hi: usize = self.inner.keys.len();
        while lo < hi
            invariant
                lo <= hi <= self.node().keys.len(),
                strictly_sorted(self.node().keys),
                forall|i: int| 0 <= i < lo ==> self.node().keys[i] < key,
                forall|i: int| hi <= i < self.node().keys.len() ==> self.node().keys[i] > key,
            decreases hi - lo,
        {
            let mid = lo + (hi - lo) / 2;
            let k = self.inner.keys[mid];
            if k == key {
                assert(self.node().keys.contains(key)) by {
                    assert(self.node().keys[mid as int] == key);
                }
                return true;
            } else if k < key {
                lo = mid + 1;
            } else {
                hi = mid;
            }
        }
        assert(!self.node().keys.contains(key)) by {
            assert(forall|i: int|
                0 <= i < self.node().keys.len() ==> self.node().keys[i] != key);
        }
        false
    }

    fn is_root(&self) -> (r: bool) {
        self.inner.root
    }

    fn would_overflow(&self) -> (r: bool) {
        self.inner.keys.len() >= 2 * self.inner.min_ord - 1
    }

    fn would_underflow(&self) -> (r: bool) {
        self.inner.keys.len() <= self.inner.min_ord
    }

    fn set_root(&mut self, root: bool) {
        self.inner.root = root;
    }

    fn set_keys(&mut self, keys: Vec<u64>) {
        self.inner.keys = keys;
    }

    fn set_children(&mut self, children: Vec<usize>) {
        self.inner.children = children;
    }

    fn set_right_link(&mut self, new_right_link: Option<usize>) {
        self.inner.right_link = new_right_link;
    }

    fn set_out_link(&mut self, new_out_link: Option<usize>) {
        self.inner.out_link = new_out_link;
    }
}

impl SynchronizedNode {
    /// The tree-wide minimum order this node was created with.
    pub fn min_ord(&self) -> (r: usize)
        requires
            self.latch_state().is_held(),
        ensures
            r == self.node().min_ord,
    {
        self.inner.min_ord
    }

    /// How many keys the node currently holds.
    pub fn num_keys(&self) -> (r: usize)
        requires
            self.latch_state().is_held(),
        ensures
            r == self.node().keys.len(),
    {
        self.inner.keys.len()
    }

    /// The key at position `i`.
    pub fn key_at(&self, i: usize) -> (r: u64)
        requires
            self.latch_state().is_held(),
            i < self.node().keys.len(),
        ensures
            r == self.node().keys[i as int],
    {
        self.inner.keys[i]
    }

    /// How many child slots the node currently holds; zero exactly for a
    /// leaf.
    pub fn num_children(&self) -> (r: usize)
        requires
            self.latch_state().is_held(),
        ensures
            r == self.node().children.len(),
    {
        self.inner.children.len()
    }

    /// The child identifier at position `i`.
    pub fn child_at(&self, i: usize) -> (r: usize)
        requires
            self.latch_state().is_held(),
            i < self.node().children.len(),
        ensures
            r == self.node().children[i as int],
    {
        self.inner.children[i]
    }

    /// The right sibling's identifier, if any.
    pub fn right_link(&self) -> (r: Option<usize>)
        requires
            self.latch_state().is_held(),
        ensures
            r == self.node().right_link,
    {
        self.inner.right_link
    }

    /// The out-link left behind when this node was merged away, if any.
    pub fn out_link(&self) -> (r: Option<usize>)
        requires
            self.latch_state().is_held(),
        ensures
            r == self.node().out_link,
    {
        self.inner.out_link
    }

    /// Insert `key` at position `i` of the key sequence.
    pub fn insert_key_at(&mut self, i: usize, key: u64)
        requires
            old(self).latch_state().is_exclusive(),
            i <= old(self).node().keys.len(),
            old(self).node().keys.len() < usize::MAX,
        ensures
            final(self).node() == (NodeModel {
                keys: old(self).node().keys.insert(i as int, key),
                ..old(self).node()
            }),
            final(self).latch_state() == old(self).latch_state(),
    {
        self.inner.keys.insert(i, key);
    }

    /// Remove the key at position `i`.
    pub fn remove_key_at(&mut self, i: usize) -> (r: u64)
        requires
            old(self).latch_state().is_exclusive(),
            i < old(self).node().keys.len(),
        ensures
            r == old(self).node().keys[i as int],
            final(self).node() == (NodeModel {
                keys: old(self).node().keys.remove(i as int),
                ..old(self).node()
            }),
            final(self).latch_state() == old(self).latch_state(),
    {
        self.inner.keys.remove(i)
    }

    /// Insert child identifier `c` at position `i` of the child slots.
    pub fn insert_child_at(&mut self, i: usize, c: usize)
        requires
            old(self).latch_state().is_exclusive(),
            i <= old(self).node().children.len(),
            old(self).node().children.len() < usize::MAX,
        ensures
            final(self).node() == (NodeModel {
                children: old(self).node().children.insert(i as int, c),
                ..old(self).node()
            }),
            final(self).latch_state() == old(self).latch_state(),
    {
        self.inner.children.insert(i, c);
    }

    /// Remove the child identifier at position `i`.
    pub fn remove_child_at(&mut self, i: usize) -> (r: usize)
        requires
            old(self).latch_state().is_exclusive(),
            i < old(self).node().children.len(),
        ensures
            r == old(self).node().children[i as int],
            final(self).node() == (NodeModel {
                children: old(self).node().children.remove(i as int),
                ..old(self).node()
            }),
            final(self).latch_state() == old(self).latch_state(),
    {
        self.inner.children.remove(i)
    }

    /// Record the node's level; ghost bookkeeping used when a node takes
    /// over the contents of a node at another level.
    pub fn set_level(&mut self, level: Ghost<nat>)
        requires
            old(self).latch_state().is_exclusive(),
        ensures
            final(self).node() == (NodeModel { level: level@, ..old(self).node() }),
            final(self).latch_state() == old(self).latch_state(),
    {
        self.inner.level = level;
    }

    /// Acquire this node's latch in shared mode.
    pub fn acquire_shared(&mut self)
        requires
            !old(self).latch_state().is_exclusive(),
            old(self).latch_state().shared_holders() < usize::MAX,
        ensures
            final(self).node() == old(self).node(),
            !final(self).latch_state().is_exclusive(),
            final(self).latch_state().shared_holders() == old(self).latch_state().shared_holders()
                + 1,
    {
        self.latch.acquire_shared();
    }

    /// Acquire this node's latch in exclusive mode.
    pub fn acquire_exclusive(&mut self)
        requires
            old(self).latch_state().is_free(),
        ensures
            final(self).node() == old(self).node(),
            final(self).latch_state().is_exclusive(),
            final(self).latch_state().shared_holders() == 0,
    {
        self.latch.acquire_exclusive();
    }

    /// Acquire this node's latch in the given mode.
    pub fn acquire(&mut self, mode: LatchType)
        requires
            mode == LatchType::Shared ==> !old(self).latch_state().is_exclusive() && old(
                self,
            ).latch_state().shared_holders() < usize::MAX,
            mode == LatchType::Exclusive ==> old(self).latch_state().is_free(),
        ensures
            final(self).node() == old(self).node(),
            final(self).latch_state().is_held_as(mode),
            mode == LatchType::Shared ==> final(self).latch_state().shared_holders() == old(
                self).latch_state().shared_holders() + 1,
            mode == LatchType::Exclusive ==> final(self).latch_state().shared_holders() == 0,
    {
        self.latch.acquire(mode);
    }

    /// Release one hold of this node's latch.
    pub fn release(&mut self)
        requires
            old(self).latch_state().is_held(),
        ensures
            final(self).node() == old(self).node(),
            old(self).latch_state().is_exclusive() ==> final(self).latch_state().is_free(),
            !old(self).latch_state().is_exclusive() ==> !final(self).latch_state().is_exclusive(),
            !old(self).latch_state().is_exclusive() ==> final(self).latch_state().shared_holders()
                == old(self).latch_state().shared_holders() - 1,
    {
        self.latch.release();
    }
}

} // verus!
