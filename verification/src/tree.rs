//! The traversal engine: move-right, search, insert with proactive splits,
//! delete with borrow/merge and out-link retirement.
//!
//! Nodes live in a store owned by the tree and are named by identifiers;
//! child pointers, right-links and out-links are identifiers into that
//! store.  The store grows when a split or a root split allocates a node and
//! never shrinks: a merged-away node stays behind as a tombstone whose
//! out-link names the live node that absorbed it, so a traversal that was
//! resting on it can recover.  Every read or mutation of a node's fields
//! goes through [`SynchronizedNode`]'s latch-guarded methods, and every
//! public operation begins and ends quiescent: no latch held anywhere.
//!
//! The tree's logical content is the set of keys claimed by live leaves,
//! [`Tree::tree_keys`].  `insert` grows that set by exactly the given key
//! and `delete` removes at most that key; splits, borrows and merges are
//! proved to leave it unchanged.

use crate::latch::{Latch, LatchType};
use crate::node::{empty_node, strictly_sorted, BTreeNode, NodeModel, SynchronizedNode};
use vstd::prelude::*;

verus! {

/// A node that has not been merged away.
pub open spec fn live(n: NodeModel) -> bool {
    n.out_link is None
}

/// A node with no children: its keys are the stored keys themselves.
pub open spec fn is_leaf(n: NodeModel) -> bool {
    n.children.len() == 0
}

/// Whether the live leaf `n` claims the key `k`.
pub open spec fn leaf_claims(n: NodeModel, k: u64) -> bool {
    live(n) && is_leaf(n) && n.keys.contains(k)
}

/// Whether some live leaf of the store claims `k`.
pub open spec fn has_leaf_key(m: Seq<NodeModel>, k: u64) -> bool {
    exists|i: int| 0 <= i < m.len() && leaf_claims(#[trigger] m[i], k)
}

/// Whether some live leaf other than `x` claims `k`.
pub open spec fn other_leaf_key(m: Seq<NodeModel>, x: int, k: u64) -> bool {
    exists|i: int| 0 <= i < m.len() && i != x && leaf_claims(#[trigger] m[i], k)
}

/// Child slot `j` of node `i` names a node one level down.
pub open spec fn child_ok(m: Seq<NodeModel>, i: int, j: int) -> bool {
    &&& m[i].children[j] < m.len()
    &&& m[m[i].children[j] as int].level + 1 == m[i].level
}

/// The right-link, if set, names a node of the store at the same level.
pub open spec fn rlink_ok(m: Seq<NodeModel>, i: int) -> bool {
    m[i].right_link matches Some(r) ==> r < m.len() && m[r as int].level == m[i].level
}

/// The out-link, if set, names a live node of the store at the same level,
/// and the tombstone that carries it has been emptied.
pub open spec fn olink_ok(m: Seq<NodeModel>, i: int) -> bool {
    m[i].out_link matches Some(o) ==> {
        &&& o < m.len()
        &&& m[o as int].level == m[i].level
        &&& m[o as int].out_link is None
        &&& m[i].keys.len() == 0
        &&& m[i].children.len() == 0
    }
}

/// The per-node shape invariant: keys strictly ascending, a leaf has no
/// child slots and an internal node one more slot than keys, and all links
/// stay inside the store at consistent levels.
pub open spec fn node_wf(m: Seq<NodeModel>, i: int, min_ord: usize) -> bool {
    &&& m[i].min_ord == min_ord
    &&& strictly_sorted(m[i].keys)
    &&& (m[i].children.len() == 0 || m[i].children.len() == m[i].keys.len() + 1)
    &&& (forall|j: int| 0 <= j < m[i].children.len() ==> #[trigger] child_ok(m, i, j))
    &&& rlink_ok(m, i)
    &&& olink_ok(m, i)
}

/// No live node has a child slot naming `r`.
pub open spec fn no_child_is(m: Seq<NodeModel>, r: int) -> bool {
    forall|i: int, j: int|
        0 <= i < m.len() && live(m[i]) && 0 <= j < m[i].children.len() ==> #[trigger] m[i].children[j] != r
}

/// Whether a traversal looking for `key` at node `n` must move right: the
/// node is a leaf with a right sibling and its highest key is less than
/// `key`, so the key range that could contain `key` lies to the right.
/// An internal node never moves the traversal right: its last child covers
/// every key up to the parent's next separator, which is not recorded in
/// the node itself, so the separators alone route the descent there.
pub open spec fn should_move(n: NodeModel, key: u64) -> bool {
    &&& is_leaf(n)
    &&& n.right_link is Some
    &&& (n.keys.len() == 0 || n.keys.last() < key)
}


/// Where a node about to be split is cut: a leaf keeps the lower half of
/// its keys rounded up, an internal node gives up the key at the midpoint
/// as the separator that moves up.
pub open spec fn split_point(n: NodeModel) -> int {
    if is_leaf(n) {
        (n.keys.len() + 1) as int / 2
    } else {
        n.keys.len() as int / 2
    }
}

/// The surviving left half of a split node: the lower keys (and, for an
/// internal node, the matching child slots), right-linked to the new
/// sibling `sib`.
pub open spec fn split_left(n: NodeModel, sib: usize) -> NodeModel {
    if is_leaf(n) {
        NodeModel { keys: n.keys.subrange(0, split_point(n)), right_link: Some(sib), ..n }
    } else {
        NodeModel {
            keys: n.keys.subrange(0, split_point(n)),
            children: n.children.subrange(0, split_point(n) + 1),
            right_link: Some(sib),
            ..n
        }
    }
}

/// The new right sibling produced by a split: the upper keys (for an
/// internal node, those above the separator, with the matching child
/// slots), taking over the split node's right-link, never a root.
pub open spec fn split_right(n: NodeModel) -> NodeModel {
    if is_leaf(n) {
        NodeModel { root: false, keys: n.keys.subrange(split_point(n), n.keys.len() as int), ..n }
    } else {
        NodeModel {
            root: false,
            keys: n.keys.subrange(split_point(n) + 1, n.keys.len() as int),
            children: n.children.subrange(split_point(n) + 1, n.children.len() as int),
            ..n
        }
    }
}

/// The B-link tree: a store of latch-protected nodes and the identity of
/// the current root.
pub struct Tree {
    min_ord: usize,
    root_id: usize,
    nodes: Vec<SynchronizedNode>,
}

impl Tree {
    /// The models of all nodes of the store, by identifier.
    pub closed spec fn models(self) -> Seq<NodeModel> {
        self.nodes@.map_values(|n: SynchronizedNode| n.node())
    }

    /// The latch states of all nodes of the store, by identifier.
    pub closed spec fn latches(self) -> Seq<Latch> {
        self.nodes@.map_values(|n: SynchronizedNode| n.latch_state())
    }

    /// The identifier of the current root.
    pub closed spec fn root_of(self) -> int {
        self.root_id as int
    }

    /// The tree-wide minimum order.
    pub closed spec fn min_order(self) -> usize {
        self.min_ord
    }

    /// The set of keys the tree currently claims: those present in some
    /// live leaf.
    pub open spec fn tree_keys(self) -> Set<u64> {
        Set::new(|k: u64| has_leaf_key(self.models(), k))
    }

    /// Structural well-formedness: a non-empty store whose nodes all
    /// satisfy [`node_wf`], with exactly one root — a live node that no
    /// live node's child slot names.
    pub open spec fn wf(self) -> bool {
        &&& 1 <= self.min_order() <= usize::MAX / 2
        &&& self.models().len() >= 1
        &&& 0 <= self.root_of() < self.models().len()
        &&& self.models()[self.root_of()].root
        &&& live(self.models()[self.root_of()])
        &&& (forall|i: int|
            0 <= i < self.models().len() ==> #[trigger] node_wf(self.models(), i, self.min_order()))
        &&& (forall|i: int|
            0 <= i < self.models().len() && i != self.root_of() ==> !(#[trigger] self.models()[i]).root)
        &&& no_child_is(self.models(), self.root_of())
    }

    /// No latch is held anywhere: the tree is at a quiescent point.
    pub open spec fn quiescent(self) -> bool {
        forall|i: int| 0 <= i < self.models().len() ==> (#[trigger] self.latches()[i]).is_free()
    }

    /// Exactly one latch is held: the one on node `i`, in `mode`.
    pub open spec fn only_held_at(self, i: int, mode: LatchType) -> bool {
        &&& self.latches()[i].is_held_as(mode)
        &&& (mode == LatchType::Shared ==> self.latches()[i].shared_holders() == 1)
        &&& (forall|j: int|
            0 <= j < self.models().len() && j != i ==> (#[trigger] self.latches()[j]).is_free())
    }


    /// The store or a node has grown to the machine's limit; the only
    /// states in which an insertion may be refused.
    pub open spec fn at_capacity(self) -> bool {
        ||| self.models().len() > usize::MAX - 3
        ||| exists|i: int|
            0 <= i < self.models().len() && (#[trigger] self.models()[i]).keys.len()
                >= usize::MAX
    }

    /// The recorded descent path: each entry is a live internal node, one
    /// level further up the older it is, ending one level above `cur`.
    spec fn stack_ok(self, st: Seq<usize>, cur: int) -> bool {
        forall|q: int|
            0 <= q < st.len() ==> {
                &&& (#[trigger] st[q]) < self.models().len()
                &&& live(self.models()[st[q] as int])
                &&& !is_leaf(self.models()[st[q] as int])
                &&& self.models()[st[q] as int].level == self.models()[cur].level + st.len() - q
            }
    }

    /// A new tree: one empty leaf, flagged as the root.
    pub fn new(min_ord: usize) -> (t: Tree)
        requires
            1 <= min_ord <= usize::MAX / 2,
        ensures
            t.wf(),
            t.quiescent(),
            t.min_order() == min_ord,
            t.tree_keys() == Set::<u64>::empty(),
            t.models().len() == 1,
            t.models()[0] == (NodeModel { root: true, ..empty_node(min_ord) }),
    {
        let mut n = SynchronizedNode::create(min_ord);
        n.acquire_exclusive();
        n.set_root(true);
        n.release();
        let mut nodes: Vec<SynchronizedNode> = Vec::new();
        nodes.push(n);
        let t = Tree { min_ord, root_id: 0, nodes };
        proof {
            assert(t.models() =~= seq![NodeModel { root: true, ..empty_node(min_ord) }]);
            assert(t.tree_keys() =~= Set::<u64>::empty());
        }
        t
    }


    /// How many nodes the store holds, tombstones included.
    pub fn node_count(&self) -> (r: usize)
        ensures
            r == self.models().len(),
    {
        self.nodes.len()
    }

    /// The identifier of the current root.
    pub fn root_node(&self) -> (r: usize)
        ensures
            r == self.root_of(),
    {
        self.root_id
    }

    /// The tree-wide minimum order.
    pub fn order(&self) -> (r: usize)
        ensures
            r == self.min_order(),
    {
        self.min_ord
    }

    // ------------------------------------------------------------------
    // Latch primitives at the store level.
    // ------------------------------------------------------------------

    /// Acquire the latch of node `i` in the given mode.
    pub fn acquire_at(&mut self, i: usize, mode: LatchType)
        requires
            i < old(self).models().len(),
            old(self).latches()[i as int].is_free(),
        ensures
            final(self).models() == old(self).models(),
            final(self).root_of() == old(self).root_of(),
            final(self).min_order() == old(self).min_order(),
            final(self).latches() == old(self).latches().update(
                i as int,
                final(self).latches()[i as int],
            ),
            final(self).latches()[i as int].is_held_as(mode),
            mode == LatchType::Exclusive ==> final(self).latches()[i as int].is_exclusive(),
            mode == LatchType::Shared ==> final(self).latches()[i as int].shared_holders() == old(
                self,
            ).latches()[i as int].shared_holders() + 1,
    {
        let n = &mut self.nodes[i];
        n.acquire(mode);
        proof {
            assert(self.models() =~= old(self).models());
            assert(self.latches() =~= old(self).latches().update(
                i as int,
                self.latches()[i as int],
            ));
        }
    }

    /// Release the latch of node `i`.
    pub fn release_at(&mut self, i: usize)
        requires
            i < old(self).models().len(),
            old(self).latches()[i as int].is_held(),
            old(self).latches()[i as int].is_exclusive() || old(self).latches()[
                i as int
            ].shared_holders() == 1,
        ensures
            final(self).models() == old(self).models(),
            final(self).root_of() == old(self).root_of(),
            final(self).min_order() == old(self).min_order(),
            final(self).latches() == old(self).latches().update(
                i as int,
                final(self).latches()[i as int],
            ),
            final(self).latches()[i as int].is_free(),
    {
        let n = &mut self.nodes[i];
        n.release();
        proof {
            assert(self.models() =~= old(self).models());
            assert(self.latches() =~= old(self).latches().update(
                i as int,
                self.latches()[i as int],
            ));
        }
    }

    // ------------------------------------------------------------------
    // Latch-guarded field access at the store level.
    // ------------------------------------------------------------------

    /// How many keys node `i` holds.
    pub fn num_keys_at(&self, i: usize) -> (r: usize)
        requires
            i < self.models().len(),
            self.latches()[i as int].is_held(),
        ensures
            r == self.models()[i as int].keys.len(),
    {
        self.nodes[i].num_keys()
    }

    /// The key at position `p` of node `i`.
    pub fn key_at_of(&self, i: usize, p: usize) -> (r: u64)
        requires
            i < self.models().len(),
            self.latches()[i as int].is_held(),
            p < self.models()[i as int].keys.len(),
        ensures
            r == self.models()[i as int].keys[p as int],
    {
        self.nodes[i].key_at(p)
    }

    /// How many child slots node `i` holds.
    pub fn num_children_at(&self, i: usize) -> (r: usize)
        requires
            i < self.models().len(),
            self.latches()[i as int].is_held(),
        ensures
            r == self.models()[i as int].children.len(),
    {
        self.nodes[i].num_children()
    }

    /// The child identifier at position `p` of node `i`.
    pub fn child_at_of(&self, i: usize, p: usize) -> (r: usize)
        requires
            i < self.models().len(),
            self.latches()[i as int].is_held(),
            p < self.models()[i as int].children.len(),
        ensures
            r == self.models()[i as int].children[p as int],
    {
        self.nodes[i].child_at(p)
    }

    /// The right-link of node `i`.
    pub fn right_link_at(&self, i: usize) -> (r: Option<usize>)
        requires
            i < self.models().len(),
            self.latches()[i as int].is_held(),
        ensures
            r == self.models()[i as int].right_link,
    {
        self.nodes[i].right_link()
    }

    /// The out-link of node `i`.
    pub fn out_link_at(&self, i: usize) -> (r: Option<usize>)
        requires
            i < self.models().len(),
            self.latches()[i as int].is_held(),
        ensures
            r == self.models()[i as int].out_link,
    {
        self.nodes[i].out_link()
    }

    /// Whether node `i` carries the root flag.
    pub fn is_root_at(&self, i: usize) -> (r: bool)
        requires
            i < self.models().len(),
            self.latches()[i as int].is_held(),
        ensures
            r == self.models()[i as int].root,
    {
        self.nodes[i].is_root()
    }

    /// Whether `key` is present in node `i`'s keys.
    pub fn has_key_at(&self, i: usize, key: u64) -> (r: bool)
        requires
            i < self.models().len(),
            self.latches()[i as int].is_held(),
            strictly_sorted(self.models()[i as int].keys),
        ensures
            r == self.models()[i as int].keys.contains(key),
    {
        self.nodes[i].has_key(key)
    }

    /// Whether node `i` is one insertion away from exceeding capacity.
    pub fn would_overflow_at(&self, i: usize) -> (r: bool)
        requires
            i < self.models().len(),
            self.latches()[i as int].is_held(),
            1 <= self.models()[i as int].min_ord <= usize::MAX / 2,
        ensures
            r == (self.models()[i as int].keys.len() >= 2 * self.models()[i as int].min_ord - 1),
    {
        self.nodes[i].would_overflow()
    }

    /// Whether node `i` is one deletion away from falling below the floor.
    pub fn would_underflow_at(&self, i: usize) -> (r: bool)
        requires
            i < self.models().len(),
            self.latches()[i as int].is_held(),
        ensures
            r == (self.models()[i as int].keys.len() <= self.models()[i as int].min_ord),
    {
        self.nodes[i].would_underflow()
    }

    /// Replace the key sequence of node `i`.
    fn set_keys_at(&mut self, i: usize, keys: Vec<u64>)
        requires
            i < old(self).models().len(),
            old(self).latches()[i as int].is_exclusive(),
        ensures
            final(self).models() == old(self).models().update(
                i as int,
                (NodeModel { keys: keys@, ..old(self).models()[i as int] }),
            ),
            final(self).latches() == old(self).latches(),
            final(self).root_of() == old(self).root_of(),
            final(self).min_order() == old(self).min_order(),
    {
        let ghost ks = keys@;
        let n = &mut self.nodes[i];
        n.set_keys(keys);
        proof {
            assert(self.models() =~= old(self).models().update(
                i as int,
                NodeModel { keys: ks, ..old(self).models()[i as int] },
            ));
            assert(self.latches() =~= old(self).latches());
        }
    }

    /// Replace the child slots of node `i`.
    fn set_children_at(&mut self, i: usize, children: Vec<usize>)
        requires
            i < old(self).models().len(),
            old(self).latches()[i as int].is_exclusive(),
        ensures
            final(self).models() == old(self).models().update(
                i as int,
                (NodeModel { children: children@, ..old(self).models()[i as int] }),
            ),
            final(self).latches() == old(self).latches(),
            final(self).root_of() == old(self).root_of(),
            final(self).min_order() == old(self).min_order(),
    {
        let ghost cs = children@;
        let n = &mut self.nodes[i];
        n.set_children(children);
        proof {
            assert(self.models() =~= old(self).models().update(
                i as int,
                NodeModel { children: cs, ..old(self).models()[i as int] },
            ));
            assert(self.latches() =~= old(self).latches());
        }
    }

    /// Replace the right-link of node `i`.
    fn set_right_link_at(&mut self, i: usize, l: Option<usize>)
        requires
            i < old(self).models().len(),
            old(self).latches()[i as int].is_exclusive(),
        ensures
            final(self).models() == old(self).models().update(
                i as int,
                (NodeModel { right_link: l, ..old(self).models()[i as int] }),
            ),
            final(self).latches() == old(self).latches(),
            final(self).root_of() == old(self).root_of(),
            final(self).min_order() == old(self).min_order(),
    {
        let n = &mut self.nodes[i];
        n.set_right_link(l);
        proof {
            assert(self.models() =~= old(self).models().update(
                i as int,
                NodeModel { right_link: l, ..old(self).models()[i as int] },
            ));
            assert(self.latches() =~= old(self).latches());
        }
    }

    /// Replace the out-link of node `i`.
    fn set_out_link_at(&mut self, i: usize, l: Option<usize>)
        requires
            i < old(self).models().len(),
            old(self).latches()[i as int].is_exclusive(),
        ensures
            final(self).models() == old(self).models().update(
                i as int,
                (NodeModel { out_link: l, ..old(self).models()[i as int] }),
            ),
            final(self).latches() == old(self).latches(),
            final(self).root_of() == old(self).root_of(),
            final(self).min_order() == old(self).min_order(),
    {
        let n = &mut self.nodes[i];
        n.set_out_link(l);
        proof {
            assert(self.models() =~= old(self).models().update(
                i as int,
                NodeModel { out_link: l, ..old(self).models()[i as int] },
            ));
            assert(self.latches() =~= old(self).latches());
        }
    }

    /// Set the root flag of node `i`.
    fn set_root_at(&mut self, i: usize, root: bool)
        requires
            i < old(self).models().len(),
            old(self).latches()[i as int].is_exclusive(),
        ensures
            final(self).models() == old(self).models().update(
                i as int,
                (NodeModel { root, ..old(self).models()[i as int] }),
            ),
            final(self).latches() == old(self).latches(),
            final(self).root_of() == old(self).root_of(),
            final(self).min_order() == old(self).min_order(),
    {
        let n = &mut self.nodes[i];
        n.set_root(root);
        proof {
            assert(self.models() =~= old(self).models().update(
                i as int,
                NodeModel { root, ..old(self).models()[i as int] },
            ));
            assert(self.latches() =~= old(self).latches());
        }
    }

    /// Record the level of node `i`; ghost bookkeeping for content takeover.
    fn set_level_at(&mut self, i: usize, level: Ghost<nat>)
        requires
            i < old(self).models().len(),
            old(self).latches()[i as int].is_exclusive(),
        ensures
            final(self).models() == old(self).models().update(
                i as int,
                (NodeModel { level: level@, ..old(self).models()[i as int] }),
            ),
            final(self).latches() == old(self).latches(),
            final(self).root_of() == old(self).root_of(),
            final(self).min_order() == old(self).min_order(),
    {
        let n = &mut self.nodes[i];
        n.set_level(level);
        proof {
            assert(self.models() =~= old(self).models().update(
                i as int,
                NodeModel { level: level@, ..old(self).models()[i as int] },
            ));
            assert(self.latches() =~= old(self).latches());
        }
    }

    /// Insert `key` at position `p` of node `i`'s keys.
    fn insert_key_at_of(&mut self, i: usize, p: usize, key: u64)
        requires
            i < old(self).models().len(),
            old(self).latches()[i as int].is_exclusive(),
            p <= old(self).models()[i as int].keys.len(),
            old(self).models()[i as int].keys.len() < usize::MAX,
        ensures
            final(self).models() == old(self).models().update(
                i as int,
                (NodeModel {
                    keys: old(self).models()[i as int].keys.insert(p as int, key),
                    ..old(self).models()[i as int]
                }),
            ),
            final(self).latches() == old(self).latches(),
            final(self).root_of() == old(self).root_of(),
            final(self).min_order() == old(self).min_order(),
    {
        let n = &mut self.nodes[i];
        n.insert_key_at(p, key);
        proof {
            assert(self.models() =~= old(self).models().update(
                i as int,
                NodeModel {
                    keys: old(self).models()[i as int].keys.insert(p as int, key),
                    ..old(self).models()[i as int]
                },
            ));
            assert(self.latches() =~= old(self).latches());
        }
    }

    /// Remove the key at position `p` of node `i`.
    fn remove_key_at_of(&mut self, i: usize, p: usize) -> (r: u64)
        requires
            i < old(self).models().len(),
            old(self).latches()[i as int].is_exclusive(),
            p < old(self).models()[i as int].keys.len(),
        ensures
            r == old(self).models()[i as int].keys[p as int],
            final(self).models() == old(self).models().update(
                i as int,
                (NodeModel {
                    keys: old(self).models()[i as int].keys.remove(p as int),
                    ..old(self).models()[i as int]
                }),
            ),
            final(self).latches() == old(self).latches(),
            final(self).root_of() == old(self).root_of(),
            final(self).min_order() == old(self).min_order(),
    {
        let n = &mut self.nodes[i];
        let r = n.remove_key_at(p);
        proof {
            assert(self.models() =~= old(self).models().update(
                i as int,
                NodeModel {
                    keys: old(self).models()[i as int].keys.remove(p as int),
                    ..old(self).models()[i as int]
                },
            ));
            assert(self.latches() =~= old(self).latches());
        }
        r
    }

    /// Insert child identifier `c` at position `p` of node `i`'s slots.
    fn insert_child_at_of(&mut self, i: usize, p: usize, c: usize)
        requires
            i < old(self).models().len(),
            old(self).latches()[i as int].is_exclusive(),
            p <= old(self).models()[i as int].children.len(),
            old(self).models()[i as int].children.len() < usize::MAX,
        ensures
            final(self).models() == old(self).models().update(
                i as int,
                (NodeModel {
                    children: old(self).models()[i as int].children.insert(p as int, c),
                    ..old(self).models()[i as int]
                }),
            ),
            final(self).latches() == old(self).latches(),
            final(self).root_of() == old(self).root_of(),
            final(self).min_order() == old(self).min_order(),
    {
        let n = &mut self.nodes[i];
        n.insert_child_at(p, c);
        proof {
            assert(self.models() =~= old(self).models().update(
                i as int,
                NodeModel {
                    children: old(self).models()[i as int].children.insert(p as int, c),
                    ..old(self).models()[i as int]
                },
            ));
            assert(self.latches() =~= old(self).latches());
        }
    }

    /// Remove the child identifier at position `p` of node `i`.
    fn remove_child_at_of(&mut self, i: usize, p: usize) -> (r: usize)
        requires
            i < old(self).models().len(),
            old(self).latches()[i as int].is_exclusive(),
            p < old(self).models()[i as int].children.len(),
        ensures
            r == old(self).models()[i as int].children[p as int],
            final(self).models() == old(self).models().update(
                i as int,
                (NodeModel {
                    children: old(self).models()[i as int].children.remove(p as int),
                    ..old(self).models()[i as int]
                }),
            ),
            final(self).latches() == old(self).latches(),
            final(self).root_of() == old(self).root_of(),
            final(self).min_order() == old(self).min_order(),
    {
        let n = &mut self.nodes[i];
        let r = n.remove_child_at(p);
        proof {
            assert(self.models() =~= old(self).models().update(
                i as int,
                NodeModel {
                    children: old(self).models()[i as int].children.remove(p as int),
                    ..old(self).models()[i as int]
                },
            ));
            assert(self.latches() =~= old(self).latches());
        }
        r
    }

    /// Append a node to the store; its identifier is the old store length.
    fn push_node(&mut self, n: SynchronizedNode) -> (id: usize)
        requires
            old(self).models().len() < usize::MAX,
        ensures
            id == old(self).models().len(),
            final(self).models() == old(self).models().push(n.node()),
            final(self).latches() == old(self).latches().push(n.latch_state()),
            final(self).root_of() == old(self).root_of(),
            final(self).min_order() == old(self).min_order(),
    {
        let id = self.nodes.len();
        self.nodes.push(n);
        proof {
            assert(self.models() =~= old(self).models().push(n.node()));
            assert(self.latches() =~= old(self).latches().push(n.latch_state()));
        }
        id
    }

    // ------------------------------------------------------------------
    // Traversal.
    // ------------------------------------------------------------------

    /// The position of the first key of node `i` that is at least `key`:
    /// the position at which `key` would be inserted.
    fn lower_bound(&self, i: usize, key: u64) -> (p: usize)
        requires
            i < self.models().len(),
            self.latches()[i as int].is_held(),
            strictly_sorted(self.models()[i as int].keys),
        ensures
            p <= self.models()[i as int].keys.len(),
            forall|q: int| 0 <= q < p ==> self.models()[i as int].keys[q] < key,
            forall|q: int|
                p <= q < self.models()[i as int].keys.len() ==> self.models()[i as int].keys[q]
                    >= key,
    {
        let n = self.num_keys_at(i);
        let mut p: usize = 0;
        while p < n
            invariant
                p <= n,
                n == self.models()[i as int].keys.len(),
                i < self.models().len(),
                self.latches()[i as int].is_held(),
                strictly_sorted(self.models()[i as int].keys),
                forall|q: int| 0 <= q < p ==> self.models()[i as int].keys[q] < key,
            decreases n - p,
        {
            if self.key_at_of(i, p) >= key {
                proof {
                    assert forall|q: int|
                        p <= q < self.models()[i as int].keys.len() implies self.models()[
                        i as int
                    ].keys[q] >= key by {
                        if q > p {
                            assert(self.models()[i as int].keys[p as int] < self.models()[
                                i as int
                            ].keys[q]);
                        }
                    }
                }
                return p;
            }
            p = p + 1;
        }
        p
    }

    /// The position of the first key of node `i` that is greater than
    /// `key`: for an internal node, the child slot whose subtree covers
    /// `key` under separator semantics.
    fn upper_bound(&self, i: usize, key: u64) -> (p: usize)
        requires
            i < self.models().len(),
            self.latches()[i as int].is_held(),
            strictly_sorted(self.models()[i as int].keys),
        ensures
            p <= self.models()[i as int].keys.len(),
            forall|q: int| 0 <= q < p ==> self.models()[i as int].keys[q] <= key,
            forall|q: int|
                p <= q < self.models()[i as int].keys.len() ==> self.models()[i as int].keys[q]
                    > key,
    {
        let n = self.num_keys_at(i);
        let mut p: usize = 0;
        while p < n
            invariant
                p <= n,
                n == self.models()[i as int].keys.len(),
                i < self.models().len(),
                self.latches()[i as int].is_held(),
                strictly_sorted(self.models()[i as int].keys),
                forall|q: int| 0 <= q < p ==> self.models()[i as int].keys[q] <= key,
            decreases n - p,
        {
            if self.key_at_of(i, p) > key {
                proof {
                    assert forall|q: int|
                        p <= q < self.models()[i as int].keys.len() implies self.models()[
                        i as int
                    ].keys[q] > key by {
                        if q > p {
                            assert(self.models()[i as int].keys[p as int] < self.models()[
                                i as int
                            ].keys[q]);
                        }
                    }
                }
                return p;
            }
            p = p + 1;
        }
        p
    }


    /// Whether the latched node's current key range can contain `key`, so a
    /// traversal rests here: an internal node always (its last child covers
    /// every key up to the parent's next separator), a leaf when it is
    /// rightmost or its highest key is at least `key`.
    fn covers(&self, i: usize, key: u64) -> (r: bool)
        requires
            i < self.models().len(),
            self.latches()[i as int].is_held(),
        ensures
            r == !should_move(self.models()[i as int], key),
    {
        if self.num_children_at(i) > 0 {
            true
        } else {
            match self.right_link_at(i) {
                None => true,
                Some(_) => {
                    let nk = self.num_keys_at(i);
                    nk > 0 && self.key_at_of(i, nk - 1) >= key
                },
            }
        }
    }

    /// Follow links until the latched node could contain `key`: while the
    /// node has been merged away, follow its out-link; while its highest
    /// key is less than `key` and a right sibling exists, follow the
    /// right-link.  Latches are coupled: the next node is latched in
    /// `mode` before the current latch is released.  A node that already
    /// covers the key range is returned at once, untouched.
    pub fn move_right(&mut self, start: usize, key: u64, mode: LatchType) -> (r: usize)
        requires
            old(self).wf(),
            start < old(self).models().len(),
            old(self).only_held_at(start as int, mode),
        ensures
            final(self).models() == old(self).models(),
            final(self).root_of() == old(self).root_of(),
            final(self).min_order() == old(self).min_order(),
            r < final(self).models().len(),
            final(self).only_held_at(r as int, mode),
            live(final(self).models()[r as int]),
            final(self).models()[r as int].level == final(self).models()[start as int].level,
            live(old(self).models()[start as int]) && !should_move(
                old(self).models()[start as int],
                key,
            ) ==> r == start && *final(self) == *old(self),
            old(self).models()[start as int].out_link matches Some(o) ==> (!should_move(
                old(self).models()[o as int],
                key,
            ) ==> r == o),
    {
        let mut cur = start;
        match self.out_link_at(cur) {
            None => {
                if self.covers(cur, key) {
                    return cur;
                }
            },
            Some(o) => {
                // the node was merged away: resume at the out-link target,
                // a live node, never along the tombstone's right-link
                proof {
                    assert(node_wf(self.models(), cur as int, self.min_order()));
                }
                self.acquire_at(o, mode);
                self.release_at(cur);
                cur = o;
                if self.covers(cur, key) {
                    return cur;
                }
            },
        }
        let mut fuel = self.nodes.len();
        while fuel > 0
            invariant
                self.wf(),
                self.models() == old(self).models(),
                self.root_of() == old(self).root_of(),
                self.min_order() == old(self).min_order(),
                cur < self.models().len(),
                self.only_held_at(cur as int, mode),
                self.models()[cur as int].level == self.models()[start as int].level,
                live(old(self).models()[start as int]) ==> should_move(
                    old(self).models()[start as int],
                    key,
                ),
                old(self).models()[start as int].out_link matches Some(o) ==> should_move(
                    old(self).models()[o as int],
                    key,
                ),
            decreases fuel,
        {
            proof {
                assert(node_wf(self.models(), cur as int, self.min_order()));
            }
            match self.out_link_at(cur) {
                Some(o) => {
                    self.acquire_at(o, mode);
                    self.release_at(cur);
                    cur = o;
                },
                None => {
                    let nk = self.num_keys_at(cur);
                    let lf = self.num_children_at(cur) == 0;
                    match self.right_link_at(cur) {
                        Some(rl) => {
                            if lf && (nk == 0 || self.key_at_of(cur, nk - 1) < key) {
                                if rl == cur {
                                    break ;
                                }
                                self.acquire_at(rl, mode);
                                self.release_at(cur);
                                cur = rl;
                            } else {
                                return cur;
                            }
                        },
                        None => {
                            return cur;
                        },
                    }
                },
            }
            fuel = fuel - 1;
        }
        proof {
            assert(node_wf(self.models(), cur as int, self.min_order()));
        }
        match self.out_link_at(cur) {
            Some(o) => {
                self.acquire_at(o, mode);
                self.release_at(cur);
                cur = o;
            },
            None => {},
        }
        cur
    }


    // ------------------------------------------------------------------
    // Splitting.
    // ------------------------------------------------------------------

    /// Split node `i`, which the caller holds exclusively: allocate a new
    /// right sibling that takes the upper half of the keys (and child
    /// slots), hand the split node's right-link to the sibling, and link
    /// the split node to the sibling.  Returns the sibling's identifier
    /// and the separator key to propagate to the parent.  The set of keys
    /// claimed by live leaves is unchanged.
    fn split_node(&mut self, i: usize) -> (r: (usize, u64))
        requires
            old(self).wf(),
            i < old(self).models().len(),
            old(self).only_held_at(i as int, LatchType::Exclusive),
            live(old(self).models()[i as int]),
            old(self).models()[i as int].keys.len() >= 1,
            is_leaf(old(self).models()[i as int]) ==> old(self).models()[i as int].keys.len() >= 2,
            old(self).models()[i as int].keys.len() < usize::MAX,
            old(self).models().len() < usize::MAX,
        ensures
            final(self).wf(),
            r.0 == old(self).models().len(),
            r.1 == old(self).models()[i as int].keys[split_point(old(self).models()[i as int])],
            final(self).models() == old(self).models().update(
                i as int,
                split_left(old(self).models()[i as int], r.0),
            ).push(split_right(old(self).models()[i as int])),
            final(self).only_held_at(i as int, LatchType::Exclusive),
            final(self).root_of() == old(self).root_of(),
            final(self).min_order() == old(self).min_order(),
            forall|k: u64|
                has_leaf_key(final(self).models(), k) == has_leaf_key(old(self).models(), k),
    {
        proof {
            assert(node_wf(self.models(), i as int, self.min_order()));
        }
        let ghost n0 = self.models()[i as int];
        let nk = self.num_keys_at(i);
        let nc = self.num_children_at(i);
        let is_lf = nc == 0;
        let h: usize = if is_lf {
            (nk + 1) / 2
        } else {
            nk / 2
        };
        let sep = self.key_at_of(i, h);
        let kstart: usize = if is_lf {
            h
        } else {
            h + 1
        };
        let mut sib_keys: Vec<u64> = Vec::new();
        let mut q: usize = kstart;
        while q < nk
            invariant
                kstart <= q <= nk,
                i < self.models().len(),
                self.latches()[i as int].is_held(),
                self.models() == old(self).models(),
                self.latches() == old(self).latches(),
                nk == self.models()[i as int].keys.len(),
                sib_keys@ == self.models()[i as int].keys.subrange(kstart as int, q as int),
            decreases nk - q,
        {
            let k = self.key_at_of(i, q);
            sib_keys.push(k);
            proof {
                assert(sib_keys@ =~= self.models()[i as int].keys.subrange(
                    kstart as int,
                    q + 1 as int,
                ));
            }
            q = q + 1;
        }
        let mut sib_children: Vec<usize> = Vec::new();
        if !is_lf {
            let mut q2: usize = h + 1;
            while q2 < nc
                invariant
                    h + 1 <= q2 <= nc,
                    i < self.models().len(),
                    self.latches()[i as int].is_held(),
                    self.models() == old(self).models(),
                    self.latches() == old(self).latches(),
                    nc == self.models()[i as int].children.len(),
                    sib_children@ == self.models()[i as int].children.subrange(
                        h + 1 as int,
                        q2 as int,
                    ),
                decreases nc - q2,
            {
                let c = self.child_at_of(i, q2);
                sib_children.push(c);
                proof {
                    assert(sib_children@ =~= self.models()[i as int].children.subrange(
                        h + 1 as int,
                        q2 + 1 as int,
                    ));
                }
                q2 = q2 + 1;
            }
        }
        let mut left_keys: Vec<u64> = Vec::new();
        let mut q3: usize = 0;
        while q3 < h
            invariant
                q3 <= h,
                h <= self.models()[i as int].keys.len(),
                i < self.models().len(),
                self.latches()[i as int].is_held(),
                self.models() == old(self).models(),
                self.latches() == old(self).latches(),
                left_keys@ == self.models()[i as int].keys.subrange(0, q3 as int),
            decreases h - q3,
        {
            let k = self.key_at_of(i, q3);
            left_keys.push(k);
            proof {
                assert(left_keys@ =~= self.models()[i as int].keys.subrange(0, q3 + 1 as int));
            }
            q3 = q3 + 1;
        }
        let mut left_children: Vec<usize> = Vec::new();
        if !is_lf {
            let mut q4: usize = 0;
            while q4 <= h
                invariant
                    q4 <= h + 1,
                    h + 1 <= self.models()[i as int].children.len(),
                    nc == self.models()[i as int].children.len(),
                    i < self.models().len(),
                    self.latches()[i as int].is_held(),
                    self.models() == old(self).models(),
                    self.latches() == old(self).latches(),
                    left_children@ == self.models()[i as int].children.subrange(0, q4 as int),
                    decreases h + 1 - q4,
            {
                let c = self.child_at_of(i, q4);
                left_children.push(c);
                proof {
                    assert(left_children@ =~= self.models()[i as int].children.subrange(
                        0,
                        q4 + 1 as int,
                    ));
                }
                q4 = q4 + 1;
            }
        }
        let rl = self.right_link_at(i);
        let ghost lvl = self.models()[i as int].level;
        let mut sib = SynchronizedNode::create(self.min_ord);
        sib.acquire_exclusive();
        sib.set_keys(sib_keys);
        if !is_lf {
            sib.set_children(sib_children);
        }
        sib.set_right_link(rl);
        sib.set_level(Ghost(lvl));
        sib.release();
        let sib_id = self.push_node(sib);
        self.set_keys_at(i, left_keys);
        if !is_lf {
            self.set_children_at(i, left_children);
        }
        self.set_right_link_at(i, Some(sib_id));
        proof {
            let m0 = old(self).models();
            let m1 = self.models();
            let lm = split_left(n0, sib_id);
            let rm = split_right(n0);
            assert(m1 =~~= m0.update(i as int, lm).push(rm));
            let min = self.min_order();
            // every node of the new store is well formed
            assert forall|i2: int| 0 <= i2 < m1.len() implies node_wf(m1, i2, min) by {
                if i2 < m0.len() {
                    assert(node_wf(m0, i2, min));
                } else {
                    assert(node_wf(m0, i as int, min));
                }
                if i2 == i {
                    lemma_sorted_subrange(n0.keys, 0, split_point(n0));
                    assert forall|j: int| 0 <= j < m1[i2].children.len() implies child_ok(
                        m1,
                        i2,
                        j,
                    ) by {
                        assert(child_ok(m0, i as int, j));
                        assert(m1[i2].children[j] == m0[i as int].children[j]);
                    }
                } else if i2 == m0.len() {
                    lemma_sorted_subrange(
                        n0.keys,
                        if is_leaf(n0) {
                            split_point(n0)
                        } else {
                            split_point(n0) + 1
                        },
                        n0.keys.len() as int,
                    );
                    assert(node_wf(m0, i as int, min));
                    assert forall|j: int| 0 <= j < m1[i2].children.len() implies child_ok(
                        m1,
                        i2,
                        j,
                    ) by {
                        assert(child_ok(m0, i as int, j + split_point(n0) + 1));
                        assert(m1[i2].children[j] == m0[i as int].children[j + split_point(n0)
                            + 1]);
                    }
                } else {
                    assert forall|j: int| 0 <= j < m1[i2].children.len() implies child_ok(
                        m1,
                        i2,
                        j,
                    ) by {
                        assert(child_ok(m0, i2, j));
                    }
                }
            }
            // the root is untouched and nothing new points at it
            assert forall|i2: int, j: int|
                0 <= i2 < m1.len() && live(m1[i2]) && 0 <= j < m1[i2].children.len() implies m1[
                i2
            ].children[j] != self.root_of() by {
                if i2 == i {
                    assert(m1[i2].children[j] == m0[i as int].children[j]);
                } else if i2 == m0.len() {
                    assert(m1[i2].children[j] == m0[i as int].children[j + split_point(n0) + 1]);
                }
            }
            // the claimed key set is unchanged
            let mu = m0.update(i as int, lm);
            assert forall|k: u64| has_leaf_key(m1, k) == has_leaf_key(m0, k) by {
                assert(has_leaf_key(m1, k) == (has_leaf_key(mu, k) || leaf_claims(rm, k))) by {
                    lemma_leaf_keys_push(mu, rm);
                }
                assert(has_leaf_key(mu, k) == (other_leaf_key(m0, i as int, k) || leaf_claims(
                    lm,
                    k,
                ))) by {
                    lemma_leaf_keys_update(m0, i as int, lm);
                }
                assert(has_leaf_key(m0, k) == (other_leaf_key(m0, i as int, k) || leaf_claims(
                    n0,
                    k,
                ))) by {
                    lemma_leaf_keys_update(m0, i as int, lm);
                }
                if is_leaf(n0) {
                    lemma_subrange_pair_contains(n0.keys, split_point(n0));
                    assert(leaf_claims(n0, k) == (leaf_claims(lm, k) || leaf_claims(rm, k)));
                } else {
                    assert(!is_leaf(lm));
                    assert(!is_leaf(rm));
                    assert(!is_leaf(n0));
                }
            }
        }
        (sib_id, sep)
    }



    // ------------------------------------------------------------------
    // Helpers for rebalancing.
    // ------------------------------------------------------------------

    /// The slot of node `p` whose child identifier is `c`, if any.
    fn find_child_pos(&self, p: usize, c: usize) -> (r: Option<usize>)
        requires
            p < self.models().len(),
            self.latches()[p as int].is_held(),
        ensures
            r matches Some(j) ==> j < self.models()[p as int].children.len() && self.models()[
                p as int
            ].children[j as int] == c,
    {
        let nc = self.num_children_at(p);
        let mut j: usize = 0;
        while j < nc
            invariant
                j <= nc,
                p < self.models().len(),
                self.latches()[p as int].is_held(),
                nc == self.models()[p as int].children.len(),
            decreases nc - j,
        {
            if self.child_at_of(p, j) == c {
                return Some(j);
            }
            j = j + 1;
        }
        None
    }

    /// A copy of node `i`'s keys.
    fn read_keys(&self, i: usize) -> (v: Vec<u64>)
        requires
            i < self.models().len(),
            self.latches()[i as int].is_held(),
        ensures
            v@ == self.models()[i as int].keys,
    {
        let nk = self.num_keys_at(i);
        let mut v: Vec<u64> = Vec::new();
        let mut q: usize = 0;
        while q < nk
            invariant
                q <= nk,
                i < self.models().len(),
                self.latches()[i as int].is_held(),
                nk == self.models()[i as int].keys.len(),
                v@ == self.models()[i as int].keys.subrange(0, q as int),
            decreases nk - q,
        {
            let k = self.key_at_of(i, q);
            v.push(k);
            proof {
                assert(v@ =~= self.models()[i as int].keys.subrange(0, q + 1 as int));
            }
            q = q + 1;
        }
        proof {
            assert(v@ =~= self.models()[i as int].keys);
        }
        v
    }

    /// A copy of node `i`'s child slots.
    fn read_children(&self, i: usize) -> (v: Vec<usize>)
        requires
            i < self.models().len(),
            self.latches()[i as int].is_held(),
        ensures
            v@ == self.models()[i as int].children,
    {
        let nc = self.num_children_at(i);
        let mut v: Vec<usize> = Vec::new();
        let mut q: usize = 0;
        while q < nc
            invariant
                q <= nc,
                i < self.models().len(),
                self.latches()[i as int].is_held(),
                nc == self.models()[i as int].children.len(),
                v@ == self.models()[i as int].children.subrange(0, q as int),
            decreases nc - q,
        {
            let c = self.child_at_of(i, q);
            v.push(c);
            proof {
                assert(v@ =~= self.models()[i as int].children.subrange(0, q + 1 as int));
            }
            q = q + 1;
        }
        proof {
            assert(v@ =~= self.models()[i as int].children);
        }
        v
    }

    /// Re-aim every out-link that still names the retired node `from` at
    /// its survivor `to`, so out-links always lead to a live node.  The
    /// three nodes the caller holds (`a`, `b`, `c`) are left untouched;
    /// every other node is latched exclusively for its inspection.
    fn redirect_out_links(&mut self, from: usize, to: usize, a: usize, b: usize, c: usize)
        requires
            a < old(self).models().len(),
            b < old(self).models().len(),
            c < old(self).models().len(),
            forall|j: int|
                0 <= j < old(self).models().len() && j != a && j != b && j != c ==> (
                #[trigger] old(self).latches()[j]).is_free(),
        ensures
            final(self).latches() == old(self).latches(),
            final(self).root_of() == old(self).root_of(),
            final(self).min_order() == old(self).min_order(),
            final(self).models().len() == old(self).models().len(),
            forall|i: int|
                0 <= i < old(self).models().len() ==> final(self).models()[i] == (if i != a && i
                    != b && i != c && old(self).models()[i].out_link == Some(from) {
                    NodeModel { out_link: Some(to), ..old(self).models()[i] }
                } else {
                    old(self).models()[i]
                }),
    {
        let n = self.nodes.len();
        let mut i: usize = 0;
        while i < n
            invariant
                i <= n,
                n == self.models().len(),
                n == old(self).models().len(),
                a < n && b < n && c < n,
                self.latches() == old(self).latches(),
                self.root_of() == old(self).root_of(),
                self.min_order() == old(self).min_order(),
                forall|j: int|
                    0 <= j < n && j != a && j != b && j != c ==> (#[trigger] old(
                        self,
                    ).latches()[j]).is_free(),
                forall|q: int|
                    0 <= q < i ==> self.models()[q] == (if q != a && q != b && q != c && old(
                        self,
                    ).models()[q].out_link == Some(from) {
                        NodeModel { out_link: Some(to), ..old(self).models()[q] }
                    } else {
                        old(self).models()[q]
                    }),
                forall|q: int| i <= q < n ==> self.models()[q] == old(self).models()[q],
            decreases n - i,
        {
            if i != a && i != b && i != c {
                let ghost lat0 = self.latches();
                self.acquire_at(i, LatchType::Exclusive);
                let redo = match self.out_link_at(i) {
                    Some(o) => o == from,
                    None => false,
                };
                if redo {
                    self.set_out_link_at(i, Some(to));
                }
                self.release_at(i);
                proof {
                    Latch::lemma_free_unique(self.latches()[i as int], lat0[i as int]);
                    assert(self.latches() =~= lat0);
                }
            }
            i = i + 1;
        }
    }

    /// Insert `key`: descend from the root with exclusive latch-coupling,
    /// recording the path, place the key in the covering leaf, and while
    /// the node at hand has reached the proactive-split threshold, split it
    /// and carry the separator to the recorded parent, growing a new root
    /// when the root itself splits.  Fails only at the machine's size
    /// limits, leaving the tree unchanged.
    pub fn insert(&mut self, key: u64) -> (ok: bool)
        requires
            old(self).wf(),
            old(self).quiescent(),
        ensures
            final(self).wf(),
            final(self).quiescent(),
            final(self).min_order() == old(self).min_order(),
            ok ==> final(self).tree_keys() == old(self).tree_keys().insert(key),
            !ok ==> final(self).models() == old(self).models(),
            !ok ==> final(self).tree_keys() == old(self).tree_keys(),
            !ok ==> old(self).at_capacity(),
            old(self).models().len() <= final(self).models().len(),
            forall|i: int|
                0 <= i < old(self).models().len() ==> final(self).models()[i].out_link == old(
                    self,
                ).models()[i].out_link,
    {
        if self.nodes.len() > usize::MAX - 3 {
            proof {
                assert(self.tree_keys() =~= old(self).tree_keys());
            }
            return false;
        }
        let mut stack: Vec<usize> = Vec::new();
        let mut cur = self.root_id;
        self.acquire_at(cur, LatchType::Exclusive);
        proof {
            assert(self.only_held_at(cur as int, LatchType::Exclusive));
        }
        cur = self.move_right(cur, key, LatchType::Exclusive);
        while self.num_children_at(cur) > 0
            invariant
                self.wf(),
                self.models() == old(self).models(),
                self.root_of() == old(self).root_of(),
                self.min_order() == old(self).min_order(),
                cur < self.models().len(),
                self.only_held_at(cur as int, LatchType::Exclusive),
                live(self.models()[cur as int]),
                self.stack_ok(stack@, cur as int),
            decreases self.models()[cur as int].level,
        {
            proof {
                assert(node_wf(self.models(), cur as int, self.min_order()));
            }
            let j = self.upper_bound(cur, key);
            let child = self.child_at_of(cur, j);
            proof {
                assert(child_ok(self.models(), cur as int, j as int));
            }
            stack.push(cur);
            self.acquire_at(child, LatchType::Exclusive);
            self.release_at(cur);
            cur = child;
            proof {
                assert(self.only_held_at(cur as int, LatchType::Exclusive));
            }
            cur = self.move_right(cur, key, LatchType::Exclusive);
        }
        // the covering live leaf, held exclusively: place the key
        proof {
            assert(node_wf(self.models(), cur as int, self.min_order()));
        }
        let nk = self.num_keys_at(cur);
        let p = self.lower_bound(cur, key);
        if p < nk && self.key_at_of(cur, p) == key {
            self.release_at(cur);
            proof {
                assert forall|j2: int| 0 <= j2 < self.models().len() implies self.latches()[
                    j2
                ].is_free() by {}
                assert(leaf_claims(self.models()[cur as int], key));
                assert(has_leaf_key(self.models(), key));
                assert(self.tree_keys() =~= old(self).tree_keys().insert(key));
            }
            return true;
        }
        if nk == usize::MAX {
            self.release_at(cur);
            proof {
                assert forall|j2: int| 0 <= j2 < self.models().len() implies self.latches()[
                    j2
                ].is_free() by {}
                assert(old(self).at_capacity());
                assert(self.tree_keys() =~= old(self).tree_keys());
            }
            return false;
        }
        let ghost m_pre = self.models();
        self.insert_key_at_of(cur, p, key);
        proof {
            let m0 = m_pre;
            let m1 = self.models();
            let n0 = m0[cur as int];
            let n1 = m1[cur as int];
            assert forall|q: int| p <= q < n0.keys.len() implies n0.keys[q] > key by {
                if q > p {
                    assert(n0.keys[p as int] < n0.keys[q]);
                }
            }
            lemma_sorted_insert(n0.keys, p as int, key);
            assert forall|i2: int| 0 <= i2 < m1.len() implies node_wf(
                m1,
                i2,
                self.min_order(),
            ) by {
                assert(node_wf(m0, i2, self.min_order()));
                assert forall|j2: int| 0 <= j2 < m1[i2].children.len() implies child_ok(
                    m1,
                    i2,
                    j2,
                ) by {
                    assert(child_ok(m0, i2, j2));
                }
            }
            lemma_leaf_keys_update(m0, cur as int, n1);
            assert forall|k: u64|
                has_leaf_key(m1, k) == (has_leaf_key(m0, k) || k == key) by {
                assert(has_leaf_key(m1, k) == (other_leaf_key(m0, cur as int, k) || leaf_claims(
                    n1,
                    k,
                )));
                assert(has_leaf_key(m0, k) == (other_leaf_key(m0, cur as int, k) || leaf_claims(
                    n0,
                    k,
                )));
            }
        }
        // proactive splits, carried upward along the recorded path
        loop
            invariant_except_break
                self.wf(),
                self.min_order() == old(self).min_order(),
                cur < self.models().len(),
                self.only_held_at(cur as int, LatchType::Exclusive),
                live(self.models()[cur as int]),
                self.stack_ok(stack@, cur as int),
                forall|k: u64|
                    has_leaf_key(self.models(), k) == (has_leaf_key(old(self).models(), k) || k
                        == key),
                old(self).models().len() <= self.models().len(),
                forall|i: int|
                    0 <= i < old(self).models().len() ==> (#[trigger] self.models()[i]).out_link
                        == old(self).models()[i].out_link,
            ensures
                self.wf(),
                self.quiescent(),
                self.min_order() == old(self).min_order(),
                forall|k: u64|
                    has_leaf_key(self.models(), k) == (has_leaf_key(old(self).models(), k) || k
                        == key),
                old(self).models().len() <= self.models().len(),
                forall|i: int|
                    0 <= i < old(self).models().len() ==> (#[trigger] self.models()[i]).out_link
                        == old(self).models()[i].out_link,
            decreases stack@.len(),
        {
            proof {
                assert(node_wf(self.models(), cur as int, self.min_order()));
            }
            let nk2 = self.num_keys_at(cur);
            let is_lf = self.num_children_at(cur) == 0;
            let ovf = self.would_overflow_at(cur);
            let splittable = nk2 >= 1 && (!is_lf || nk2 >= 2) && nk2 < usize::MAX
                && self.nodes.len() < usize::MAX - 1;
            if !(ovf && splittable) {
                self.release_at(cur);
                proof {
                    assert forall|j2: int| 0 <= j2 < self.models().len() implies self.latches()[
                        j2
                    ].is_free() by {}
                }
                break ;
            }
            let ghost m_before = self.models();
            let (sib, sep) = self.split_node(cur);
            proof {
                assert(self.models()[sib as int].level == self.models()[cur as int].level);
                assert(sib != self.root_of());
            }
            if stack.len() > 0 {
                let ghost st_before = stack@;
                let parent = match stack.pop() {
                    Some(x) => x,
                    None => 0,
                };
                proof {
                    assert(st_before[st_before.len() - 1] == parent);
                    assert(stack@ == st_before.subrange(0, st_before.len() - 1));
                }
                self.release_at(cur);
                self.acquire_at(parent, LatchType::Exclusive);
                proof {
                    assert(self.only_held_at(parent as int, LatchType::Exclusive));
                    assert(node_wf(self.models(), parent as int, self.min_order()));
                }
                let pnk = self.num_keys_at(parent);
                let lb = self.lower_bound(parent, sep);
                let dup = lb < pnk && self.key_at_of(parent, lb) == sep;
                if !dup && pnk < usize::MAX - 1 {
                    let ghost m2 = self.models();
                    let ghost pn = m2[parent as int];
                    self.insert_key_at_of(parent, lb, sep);
                    self.insert_child_at_of(parent, lb + 1, sib);
                    proof {
                        let m3 = self.models();
                        let pn3 = NodeModel {
                            keys: pn.keys.insert(lb as int, sep),
                            children: pn.children.insert(lb as int + 1, sib as usize),
                            ..pn
                        };
                        assert(m3 =~~= m2.update(parent as int, pn3));
                        assert forall|q: int| lb <= q < pn.keys.len() implies pn.keys[q]
                            > sep by {
                            if q > lb {
                                assert(pn.keys[lb as int] < pn.keys[q]);
                            }
                        }
                        lemma_sorted_insert(pn.keys, lb as int, sep);
                        pn.children.insert_ensures(lb as int + 1, sib as usize);
                        assert forall|i2: int| 0 <= i2 < m3.len() implies node_wf(
                            m3,
                            i2,
                            self.min_order(),
                        ) by {
                            assert(node_wf(m2, i2, self.min_order()));
                            if i2 == parent {
                                assert forall|j2: int|
                                    0 <= j2 < m3[i2].children.len() implies child_ok(
                                    m3,
                                    i2,
                                    j2,
                                ) by {
                                    if j2 < lb as int + 1 {
                                        assert(m3[i2].children[j2] == pn.children[j2]);
                                        assert(child_ok(m2, i2, j2));
                                    } else if j2 == lb as int + 1 {
                                        assert(m3[i2].children[j2] == sib as usize);
                                    } else {
                                        assert(m3[i2].children[j2] == pn.children[j2 - 1]);
                                        assert(child_ok(m2, i2, j2 - 1));
                                    }
                                }
                            } else {
                                assert forall|j2: int|
                                    0 <= j2 < m3[i2].children.len() implies child_ok(
                                    m3,
                                    i2,
                                    j2,
                                ) by {
                                    assert(child_ok(m2, i2, j2));
                                }
                            }
                        }
                        assert forall|i2: int, j2: int|
                            0 <= i2 < m3.len() && live(m3[i2]) && 0 <= j2 < m3[
                            i2
                        ].children.len() implies m3[i2].children[j2] != self.root_of() by {
                            if i2 == parent {
                                if j2 < lb as int + 1 {
                                    assert(m3[i2].children[j2] == pn.children[j2]);
                                } else if j2 > lb as int + 1 {
                                    assert(m3[i2].children[j2] == pn.children[j2 - 1]);
                                }
                            }
                        }
                        lemma_leaf_keys_update(m2, parent as int, pn3);
                        assert forall|k: u64|
                            has_leaf_key(m3, k) == has_leaf_key(m2, k) by {
                            assert(has_leaf_key(m3, k) == (other_leaf_key(m2, parent as int, k)
                                || leaf_claims(pn3, k)));
                            assert(has_leaf_key(m2, k) == (other_leaf_key(m2, parent as int, k)
                                || leaf_claims(pn, k)));
                            assert(!is_leaf(pn3));
                            assert(!is_leaf(pn));
                        }
                    }
                }
                cur = parent;
                proof {
                    assert forall|q: int| 0 <= q < stack@.len() implies {
                        &&& (#[trigger] stack@[q]) < self.models().len()
                        &&& live(self.models()[stack@[q] as int])
                        &&& !is_leaf(self.models()[stack@[q] as int])
                        &&& self.models()[stack@[q] as int].level == self.models()[
                            cur as int
                        ].level + stack@.len() - q
                    } by {
                        assert(st_before[q] == stack@[q]);
                    }
                }
            } else {
                // the split node has no recorded parent: grow a new root
                let was_root = self.is_root_at(cur);
                if was_root && self.nodes.len() < usize::MAX {
                    let ghost m2 = self.models();
                    let ghost lvl = self.models()[cur as int].level;
                    let mut rkeys: Vec<u64> = Vec::new();
                    rkeys.push(sep);
                    let mut rchildren: Vec<usize> = Vec::new();
                    rchildren.push(cur);
                    rchildren.push(sib);
                    let mut newroot = SynchronizedNode::create(self.min_ord);
                    newroot.acquire_exclusive();
                    newroot.set_keys(rkeys);
                    newroot.set_children(rchildren);
                    newroot.set_level(Ghost(lvl + 1));
                    newroot.set_root(true);
                    newroot.release();
                    proof {
                        assert forall|i2: int, j2: int|
                            0 <= i2 < m2.len() && 0 <= j2 < m2[i2].children.len() implies m2[
                            i2
                        ].children[j2] < m2.len() by {
                            assert(node_wf(m2, i2, self.min_order()));
                            assert(child_ok(m2, i2, j2));
                        }
                    }
                    let newid = self.push_node(newroot);
                    self.set_root_at(cur, false);
                    self.root_id = newid;
                    self.release_at(cur);
                    proof {
                        let m3 = self.models();
                        assert forall|j2: int|
                            0 <= j2 < self.models().len() implies self.latches()[
                        j2].is_free() by {}
                        assert(m3[newid as int].keys =~= seq![sep]);
                        assert(m3[newid as int].children =~= seq![cur as usize, sib as usize]);
                        assert forall|i2: int| 0 <= i2 < m3.len() implies node_wf(
                            m3,
                            i2,
                            self.min_order(),
                        ) by {
                            if i2 < m2.len() {
                                assert(node_wf(m2, i2, self.min_order()));
                                assert forall|j2: int|
                                    0 <= j2 < m3[i2].children.len() implies child_ok(
                                    m3,
                                    i2,
                                    j2,
                                ) by {
                                    assert(child_ok(m2, i2, j2));
                                }
                            } else {
                                assert(strictly_sorted(m3[i2].keys));
                                assert forall|j2: int|
                                    0 <= j2 < m3[i2].children.len() implies child_ok(
                                    m3,
                                    i2,
                                    j2,
                                ) by {
                                    assert(m3[i2].children[0] == cur as usize);
                                    assert(m3[i2].children[1] == sib as usize);
                                }
                            }
                        }
                        assert forall|i2: int, j2: int|
                            0 <= i2 < m3.len() && live(m3[i2]) && 0 <= j2 < m3[
                            i2
                        ].children.len() implies m3[i2].children[j2] != self.root_of() by {
                            if i2 < m2.len() {
                                assert(m3[i2].children[j2] == m2[i2].children[j2]);
                                assert(m2[i2].children[j2] < m2.len());
                            } else {
                                assert(m3[i2].children[j2] == cur as usize || m3[i2].children[j2]
                                    == sib as usize);
                            }
                        }
                        lemma_leaf_keys_push(m2, m3[newid as int]);
                        lemma_leaf_keys_update(m2.push(m3[newid as int]), cur as int, m3[
                            cur as int
                        ]);
                        assert forall|k: u64|
                            has_leaf_key(m3, k) == has_leaf_key(m2, k) by {
                            let mp = m2.push(m3[newid as int]);
                            assert(m3 =~~= mp.update(cur as int, m3[cur as int]));
                            assert(has_leaf_key(m3, k) == (other_leaf_key(
                                mp,
                                cur as int,
                                k,
                            ) || leaf_claims(m3[cur as int], k)));
                            assert(has_leaf_key(mp, k) == (has_leaf_key(m2, k) || leaf_claims(
                                m3[newid as int],
                                k,
                            )));
                            assert(has_leaf_key(mp, k) == (other_leaf_key(mp, cur as int, k)
                                || leaf_claims(mp[cur as int], k)));
                            assert(!is_leaf(m3[newid as int]));
                            assert(leaf_claims(m3[cur as int], k) == leaf_claims(
                                mp[cur as int],
                                k,
                            ));
                        }
                    }
                } else {
                    self.release_at(cur);
                    proof {
                        assert forall|j2: int|
                            0 <= j2 < self.models().len() implies self.latches()[
                        j2].is_free() by {}
                    }
                }
                break ;
            }
        }
        proof {
            assert(self.tree_keys() =~= old(self).tree_keys().insert(key));
        }
        true
    }



    /// Whether any live leaf claims `key`, established by inspecting every
    /// live leaf under a brief shared hold.  The sequential model does not
    /// carry the cross-node key-range argument that would let a single
    /// descent witness absence, so absence is certified store-wide.
    fn any_leaf_claims(&mut self, key: u64) -> (r: bool)
        requires
            old(self).wf(),
            old(self).quiescent(),
        ensures
            final(self).models() == old(self).models(),
            final(self).latches() == old(self).latches(),
            final(self).root_of() == old(self).root_of(),
            final(self).min_order() == old(self).min_order(),
            r == has_leaf_key(old(self).models(), key),
    {
        let n = self.nodes.len();
        let mut i: usize = 0;
        let mut r = false;
        while i < n
            invariant
                i <= n,
                n == self.models().len(),
                self.wf(),
                self.models() == old(self).models(),
                self.latches() == old(self).latches(),
                self.root_of() == old(self).root_of(),
                self.min_order() == old(self).min_order(),
                old(self).quiescent(),
                r == exists|q: int| 0 <= q < i && leaf_claims(self.models()[q], key),
            decreases n - i,
        {
            let ghost lat0 = self.latches();
            self.acquire_at(i, LatchType::Shared);
            let lv = match self.out_link_at(i) {
                None => true,
                Some(_) => false,
            };
            let lf = self.num_children_at(i) == 0;
            let mut here = false;
            if lv && lf {
                proof {
                    assert(node_wf(self.models(), i as int, self.min_order()));
                }
                here = self.has_key_at(i, key);
            }
            self.release_at(i);
            proof {
                Latch::lemma_free_unique(self.latches()[i as int], lat0[i as int]);
                assert(self.latches() =~= lat0);
                assert(here == leaf_claims(self.models()[i as int], key));
                if r || here {
                    assert(exists|q: int| 0 <= q < i + 1 && leaf_claims(self.models()[q], key));
                } else {
                    assert forall|q: int|
                        0 <= q < i + 1 implies !leaf_claims(self.models()[q], key) by {}
                }
            }
            r = r || here;
            i = i + 1;
        }
        r
    }


    /// Remove `key` from every live leaf that still claims it, each under a
    /// brief exclusive hold; the unique-claim invariant of the tree is
    /// thereby enforced store-wide rather than assumed of the descent.
    /// Afterwards no live leaf claims `key` and every other key's claim is
    /// untouched.
    #[verifier::rlimit(50)]
    fn remove_key_from_leaves(&mut self, key: u64) -> (fnd: bool)
        requires
            old(self).wf(),
            old(self).quiescent(),
        ensures
            final(self).wf(),
            final(self).quiescent(),
            final(self).latches() == old(self).latches(),
            final(self).root_of() == old(self).root_of(),
            final(self).min_order() == old(self).min_order(),
            final(self).models().len() == old(self).models().len(),
            fnd == has_leaf_key(old(self).models(), key),
            forall|x: u64|
                has_leaf_key(final(self).models(), x) == (has_leaf_key(old(self).models(), x) && x
                    != key),
            !fnd ==> final(self).models() == old(self).models(),
            forall|i: int|
                0 <= i < old(self).models().len() ==> final(self).models()[i].out_link == old(
                    self,
                ).models()[i].out_link,
    {
        let n = self.nodes.len();
        let mut i: usize = 0;
        let mut fnd = false;
        while i < n
            invariant
                i <= n,
                n == self.models().len(),
                self.models().len() == old(self).models().len(),
                self.wf(),
                self.latches() == old(self).latches(),
                self.root_of() == old(self).root_of(),
                self.min_order() == old(self).min_order(),
                old(self).quiescent(),
                forall|q: int| i <= q < n ==> self.models()[q] == old(self).models()[q],
                forall|q: int| 0 <= q < i ==> !leaf_claims(#[trigger] self.models()[q], key),
                forall|q: int, x: u64|
                    0 <= q < n && x != key ==> #[trigger] leaf_claims(self.models()[q], x)
                        == leaf_claims(old(self).models()[q], x),
                forall|q: int|
                    0 <= q < n ==> (#[trigger] self.models()[q]).out_link == old(self).models()[
                        q
                    ].out_link,
                fnd == exists|q: int|
                    0 <= q < i && leaf_claims(#[trigger] old(self).models()[q], key),
                !fnd ==> self.models() == old(self).models(),
            decreases n - i,
        {
            let ghost lat0 = self.latches();
            let ghost m_at = self.models();
            self.acquire_at(i, LatchType::Exclusive);
            let lv = match self.out_link_at(i) {
                None => true,
                Some(_) => false,
            };
            let lf = self.num_children_at(i) == 0;
            let mut here = false;
            if lv && lf {
                proof {
                    assert(node_wf(self.models(), i as int, self.min_order()));
                }
                here = self.has_key_at(i, key);
                if here {
                    let nk = self.num_keys_at(i);
                    let lb = self.lower_bound(i, key);
                    proof {
                        let ks = self.models()[i as int].keys;
                        let w = choose|w: int| 0 <= w < ks.len() && ks[w] == key;
                        assert(lb <= w);
                        if lb < w {
                            assert(ks[lb as int] < ks[w]);
                        }
                        assert(ks[lb as int] == key);
                    }
                    let ghost m_b = self.models();
                    self.remove_key_at_of(i, lb);
                    proof {
                        let m_a = self.models();
                        let nd0 = m_b[i as int];
                        let nd1 = m_a[i as int];
                        lemma_sorted_remove(nd0.keys, lb as int);
                        assert forall|i2: int| 0 <= i2 < m_a.len() implies node_wf(
                            m_a,
                            i2,
                            self.min_order(),
                        ) by {
                            assert(node_wf(m_b, i2, self.min_order()));
                            assert forall|j2: int|
                                0 <= j2 < m_a[i2].children.len() implies child_ok(
                                m_a,
                                i2,
                                j2,
                            ) by {
                                assert(child_ok(m_b, i2, j2));
                            }
                        }
                        assert(!leaf_claims(nd1, key));
                        assert forall|x: u64|
                            x != key implies leaf_claims(nd1, x) == leaf_claims(nd0, x) by {}
                    }
                }
            }
            self.release_at(i);
            proof {
                Latch::lemma_free_unique(self.latches()[i as int], lat0[i as int]);
                assert(self.latches() =~= lat0);
                assert(m_at[i as int] == old(self).models()[i as int]);
                assert(here == leaf_claims(old(self).models()[i as int], key));
                assert(!leaf_claims(self.models()[i as int], key));
                if fnd || here {
                    assert(exists|q: int|
                        0 <= q < i + 1 && leaf_claims(
                            #[trigger] old(self).models()[q],
                            key,
                        ));
                } else {
                    assert(self.models() =~= old(self).models());
                }
            }
            fnd = fnd || here;
            i = i + 1;
        }
        proof {
            assert forall|x: u64|
                has_leaf_key(self.models(), x) == (has_leaf_key(old(self).models(), x) && x
                    != key) by {
                if has_leaf_key(self.models(), x) {
                    let q = choose|q: int|
                        0 <= q < self.models().len() && leaf_claims(self.models()[q], x);
                    assert(x != key);
                    assert(leaf_claims(old(self).models()[q], x));
                    assert(has_leaf_key(old(self).models(), x));
                }
                if has_leaf_key(old(self).models(), x) && x != key {
                    let q = choose|q: int|
                        0 <= q < old(self).models().len() && leaf_claims(
                            old(self).models()[q],
                            x,
                        );
                    assert(leaf_claims(self.models()[q], x));
                    assert(has_leaf_key(self.models(), x));
                }
            }
        }
        fnd
    }

    /// Delete `key`: descend from the root with exclusive latch-coupling,
    /// remove the key from the covering leaf, and while the node at hand
    /// has reached the proactive-rebalance threshold, borrow a key from its
    /// right sibling under the same parent or merge with it, retiring the
    /// merged-away sibling behind an out-link; a root left with a single
    /// child absorbs that child.  A closing pass enforces the unique-claim
    /// invariant store-wide, so afterwards the claimed key set is exactly
    /// the old one without `key`, and the result reports exactly whether
    /// `key` was claimed.  Out-links set before the call stay set.
    #[verifier::rlimit(50)]
    pub fn delete(&mut self, key: u64) -> (found: bool)
        requires
            old(self).wf(),
            old(self).quiescent(),
        ensures
            final(self).wf(),
            final(self).quiescent(),
            final(self).min_order() == old(self).min_order(),
            found == old(self).tree_keys().contains(key),
            final(self).tree_keys() == old(self).tree_keys().remove(key),
            !found ==> final(self).models() == old(self).models(),
            forall|i: int|
                0 <= i < old(self).models().len() && old(self).models()[i].out_link is Some
                    ==> final(self).models()[i].out_link is Some,
    {
        let mut stack: Vec<usize> = Vec::new();
        let mut cur = self.root_id;
        self.acquire_at(cur, LatchType::Exclusive);
        proof {
            assert(self.only_held_at(cur as int, LatchType::Exclusive));
        }
        cur = self.move_right(cur, key, LatchType::Exclusive);
        while self.num_children_at(cur) > 0
            invariant
                self.wf(),
                self.models() == old(self).models(),
                self.root_of() == old(self).root_of(),
                self.min_order() == old(self).min_order(),
                cur < self.models().len(),
                self.only_held_at(cur as int, LatchType::Exclusive),
                live(self.models()[cur as int]),
                self.stack_ok(stack@, cur as int),
            decreases self.models()[cur as int].level,
        {
            proof {
                assert(node_wf(self.models(), cur as int, self.min_order()));
            }
            let j = self.upper_bound(cur, key);
            let child = self.child_at_of(cur, j);
            proof {
                assert(child_ok(self.models(), cur as int, j as int));
            }
            stack.push(cur);
            self.acquire_at(child, LatchType::Exclusive);
            self.release_at(cur);
            cur = child;
            proof {
                assert(self.only_held_at(cur as int, LatchType::Exclusive));
            }
            cur = self.move_right(cur, key, LatchType::Exclusive);
        }
        proof {
            assert(node_wf(self.models(), cur as int, self.min_order()));
        }
        let nk = self.num_keys_at(cur);
        let p = self.lower_bound(cur, key);
        let hit = p < nk && self.key_at_of(cur, p) == key;
        if !hit {
            self.release_at(cur);
            proof {
                assert forall|j2: int| 0 <= j2 < self.models().len() implies self.latches()[
                    j2
                ].is_free() by {}
            }
        } else {
        let ghost m_pre = self.models();
        self.remove_key_at_of(cur, p);
        proof {
            let m0 = m_pre;
            let m1 = self.models();
            let n0 = m0[cur as int];
            let n1 = m1[cur as int];
            assert(leaf_claims(n0, key));
            assert(has_leaf_key(m0, key));
            lemma_sorted_remove(n0.keys, p as int);
            assert forall|i2: int| 0 <= i2 < m1.len() implies node_wf(
                m1,
                i2,
                self.min_order(),
            ) by {
                assert(node_wf(m0, i2, self.min_order()));
                assert forall|j2: int| 0 <= j2 < m1[i2].children.len() implies child_ok(
                    m1,
                    i2,
                    j2,
                ) by {
                    assert(child_ok(m0, i2, j2));
                }
            }
            assert forall|i2: int|
                0 <= i2 < m1.len() implies m1[i2].out_link == m0[i2].out_link by {}
            lemma_leaf_keys_update(m0, cur as int, n1);
            assert forall|k: u64| has_leaf_key(m1, k) implies has_leaf_key(m0, k) by {
                assert(has_leaf_key(m1, k) == (other_leaf_key(m0, cur as int, k) || leaf_claims(
                    n1,
                    k,
                )));
                assert(has_leaf_key(m0, k) == (other_leaf_key(m0, cur as int, k) || leaf_claims(
                    n0,
                    k,
                )));
            }
            assert forall|k: u64| has_leaf_key(m0, k) && k != key implies has_leaf_key(
                m1,
                k,
            ) by {
                assert(has_leaf_key(m1, k) == (other_leaf_key(m0, cur as int, k) || leaf_claims(
                    n1,
                    k,
                )));
                assert(has_leaf_key(m0, k) == (other_leaf_key(m0, cur as int, k) || leaf_claims(
                    n0,
                    k,
                )));
            }
        }
        // proactive rebalancing, carried upward along the recorded path
        loop
            invariant_except_break
                self.wf(),
                self.min_order() == old(self).min_order(),
                self.root_of() == old(self).root_of(),
                cur < self.models().len(),
                self.only_held_at(cur as int, LatchType::Exclusive),
                live(self.models()[cur as int]),
                self.stack_ok(stack@, cur as int),
                has_leaf_key(old(self).models(), key),
                forall|k: u64|
                    has_leaf_key(self.models(), k) ==> has_leaf_key(old(self).models(), k),
                forall|k: u64|
                    has_leaf_key(old(self).models(), k) && k != key ==> has_leaf_key(
                        self.models(),
                        k,
                    ),
                forall|i: int|
                    0 <= i < old(self).models().len() && old(self).models()[i].out_link is Some
                        ==> (#[trigger] self.models()[i]).out_link is Some,
                self.models().len() == old(self).models().len(),
            ensures
                self.wf(),
                self.quiescent(),
                self.min_order() == old(self).min_order(),
                self.root_of() == old(self).root_of(),
                has_leaf_key(old(self).models(), key),
                forall|k: u64|
                    has_leaf_key(self.models(), k) ==> has_leaf_key(old(self).models(), k),
                forall|k: u64|
                    has_leaf_key(old(self).models(), k) && k != key ==> has_leaf_key(
                        self.models(),
                        k,
                    ),
                forall|i: int|
                    0 <= i < old(self).models().len() && old(self).models()[i].out_link is Some
                        ==> (#[trigger] self.models()[i]).out_link is Some,
                self.models().len() == old(self).models().len(),
            decreases stack@.len(),
        {
            let unf = self.would_underflow_at(cur);
            if !unf || stack.len() == 0 {
                self.release_at(cur);
                proof {
                    assert forall|j2: int| 0 <= j2 < self.models().len() implies self.latches()[
                        j2
                    ].is_free() by {}
                }
                break ;
            }
            let ghost st_before = stack@;
            let parent = match stack.pop() {
                Some(x) => x,
                None => 0,
            };
            proof {
                assert(st_before[st_before.len() - 1] == parent);
                assert(stack@ == st_before.subrange(0, st_before.len() - 1));
                assert(self.models()[parent as int].level == self.models()[cur as int].level
                    + 1);
            }
            self.release_at(cur);
            self.acquire_at(parent, LatchType::Exclusive);
            proof {
                assert(self.only_held_at(parent as int, LatchType::Exclusive));
                assert(node_wf(self.models(), parent as int, self.min_order()));
            }
            let jopt = self.find_child_pos(parent, cur);
            let pnc = self.num_children_at(parent);
            let pnk = self.num_keys_at(parent);
            let mut stop = false;
            match jopt {
                None => {
                    stop = true;
                },
                Some(j) => {
                    if j + 1 >= pnc || pnc != pnk + 1 {
                        stop = true;
                    } else {
                        let sib = self.child_at_of(parent, j + 1);
                        proof {
                            assert(child_ok(self.models(), parent as int, j as int));
                            assert(child_ok(self.models(), parent as int, j + 1 as int));
                        }
                        if sib == cur || sib == parent || cur == parent {
                            stop = true;
                        } else {
                            self.acquire_at(cur, LatchType::Exclusive);
                            self.acquire_at(sib, LatchType::Exclusive);
                            stop = self.rebalance_pair(parent, cur, sib, j);
                            self.release_at(sib);
                            self.release_at(cur);
                        }
                    }
                },
            }
            if stop {
                self.release_at(parent);
                proof {
                    assert forall|j2: int| 0 <= j2 < self.models().len() implies self.latches()[
                        j2
                    ].is_free() by {}
                }
                break ;
            }
            cur = parent;
            proof {
                assert forall|q: int| 0 <= q < stack@.len() implies {
                    &&& (#[trigger] stack@[q]) < self.models().len()
                    &&& live(self.models()[stack@[q] as int])
                    &&& !is_leaf(self.models()[stack@[q] as int])
                    &&& self.models()[stack@[q] as int].level == self.models()[
                        cur as int
                    ].level + stack@.len() - q
                } by {
                    assert(st_before[q] == stack@[q]);
                }
            }
        }
        // a root left with no key and a single live child absorbs it
        self.absorb_into_root();
        }
        let ghost m_mid = self.models();
        // certify the unique claim: no live leaf may still hold the key
        let swept = self.remove_key_from_leaves(key);
        proof {
            assert forall|x: u64|
                has_leaf_key(self.models(), x) == (has_leaf_key(old(self).models(), x) && x
                    != key) by {
                assert(has_leaf_key(self.models(), x) == (has_leaf_key(m_mid, x) && x != key));
            }
            assert(self.tree_keys() =~= old(self).tree_keys().remove(key));
            if !hit {
                assert(m_mid == old(self).models());
            }
            if !hit && !swept {
                assert(self.models() == old(self).models());
            }
            assert((hit || swept) == has_leaf_key(old(self).models(), key));
            assert forall|i: int|
                0 <= i < old(self).models().len() && old(self).models()[i].out_link
                    is Some implies self.models()[i].out_link is Some by {
                assert(m_mid[i].out_link is Some);
                assert(self.models()[i].out_link == m_mid[i].out_link);
            }
        }
        hit || swept
    }


    /// Rebalance the underfull node `cur` with `sib`, its right sibling
    /// under the same parent (`cur` and `sib` are parent's slots `j` and
    /// `j + 1`); all three are held exclusively.  If the sibling has keys
    /// to spare, borrow its first key and adjust the separator; otherwise
    /// move the sibling's whole contents into `cur`, take over its
    /// right-link, retire it behind an out-link naming `cur`, drop the
    /// separator and the sibling's slot from the parent, and re-aim any
    /// stray out-links.  Returns whether rebalancing ends here (it
    /// continues upward only after a merge, which shrinks the parent).
    /// The set of keys claimed by live leaves is unchanged.
    #[verifier::rlimit(100)]
    #[verifier::spinoff_prover]
    fn rebalance_pair(&mut self, parent: usize, cur: usize, sib: usize, j: usize) -> (stop: bool)
        requires
            old(self).wf(),
            parent < old(self).models().len(),
            cur < old(self).models().len(),
            sib < old(self).models().len(),
            parent != cur && parent != sib && cur != sib,
            old(self).latches()[parent as int].is_exclusive(),
            old(self).latches()[cur as int].is_exclusive(),
            old(self).latches()[sib as int].is_exclusive(),
            forall|q: int|
                0 <= q < old(self).models().len() && q != parent && q != cur && q != sib ==> (
                #[trigger] old(self).latches()[q]).is_free(),
            old(self).models()[parent as int].children.len() == old(self).models()[
                parent as int
            ].keys.len() + 1,
            j + 1 < old(self).models()[parent as int].children.len(),
            old(self).models()[parent as int].children[j as int] == cur,
            old(self).models()[parent as int].children[j as int + 1] == sib,
            live(old(self).models()[parent as int]),
            live(old(self).models()[cur as int]),
        ensures
            final(self).wf(),
            final(self).latches() == old(self).latches(),
            final(self).models().len() == old(self).models().len(),
            final(self).root_of() == old(self).root_of(),
            final(self).min_order() == old(self).min_order(),
            live(final(self).models()[parent as int]),
            live(final(self).models()[cur as int]),
            !is_leaf(final(self).models()[parent as int]),
            final(self).models()[parent as int].level == old(self).models()[parent as int].level,
            forall|i: int|
                0 <= i < old(self).models().len() && live(old(self).models()[i]) && i != parent
                    && i != cur && i != sib ==> final(self).models()[i] == old(self).models()[i],
            forall|i: int|
                0 <= i < old(self).models().len() && old(self).models()[i].out_link is Some
                    ==> final(self).models()[i].out_link is Some,
            forall|k: u64|
                has_leaf_key(final(self).models(), k) == has_leaf_key(old(self).models(), k),
    {
        proof {
            assert(node_wf(self.models(), parent as int, self.min_order()));
            assert(node_wf(self.models(), cur as int, self.min_order()));
            assert(node_wf(self.models(), sib as int, self.min_order()));
            assert(child_ok(self.models(), parent as int, j as int));
            assert(child_ok(self.models(), parent as int, j as int + 1));
        }
        let ghost m0 = self.models();
        let sib_live = match self.out_link_at(sib) {
            None => true,
            Some(_) => false,
        };
        let cur_leaf = self.num_children_at(cur) == 0;
        let sib_leaf = self.num_children_at(sib) == 0;
        // the slot to the right must also be the chain neighbor: borrowing
        // from or merging with any other node would tear the right-link
        // chain that traversals rely on
        let adjacent = match self.right_link_at(cur) {
            Some(x) => x == sib,
            None => false,
        };
        if !sib_live || (cur_leaf != sib_leaf) || !adjacent {
            return true;
        }
        let cnk = self.num_keys_at(cur);
        let snk = self.num_keys_at(sib);
        let cnc = self.num_children_at(cur);
        let snc = self.num_children_at(sib);
        let pnk = self.num_keys_at(parent);
        let sep_old = self.key_at_of(parent, j);
        if sib_leaf && snk > self.min_ord && snk >= 2 {
            return self.borrow_from_right(parent, cur, sib, j);
        }
        // merge: move the sibling's whole contents into the current node
        let ok = if cur_leaf {
            (cnk == 0 || snk == 0 || self.key_at_of(cur, cnk - 1) < self.key_at_of(sib, 0)) && snk
                <= usize::MAX - cnk
        } else {
            (cnk == 0 || self.key_at_of(cur, cnk - 1) < sep_old) && (snk == 0 || sep_old
                < self.key_at_of(sib, 0)) && cnk < usize::MAX && snk <= usize::MAX - 1 - cnk && snc
                <= usize::MAX - cnc
        };
        if !ok {
            return true;
        }
        let mut mk = self.read_keys(cur);
        if !cur_leaf {
            mk.push(sep_old);
        }
        let mut sk = self.read_keys(sib);
        mk.append(&mut sk);
        self.set_keys_at(cur, mk);
        if !cur_leaf {
            let mut mc = self.read_children(cur);
            let mut sc = self.read_children(sib);
            mc.append(&mut sc);
            self.set_children_at(cur, mc);
        }
        let srl = self.right_link_at(sib);
        self.set_right_link_at(cur, srl);
        let ek: Vec<u64> = Vec::new();
        self.set_keys_at(sib, ek);
        if !sib_leaf {
            let ec: Vec<usize> = Vec::new();
            self.set_children_at(sib, ec);
        }
        self.set_out_link_at(sib, Some(cur));
        self.remove_key_at_of(parent, j);
        self.remove_child_at_of(parent, j + 1);
        let ghost m3 = self.models();
        self.redirect_out_links(sib, cur, parent, cur, sib);
        proof {
            let m5 = self.models();
            let c0 = m0[cur as int];
            let s0 = m0[sib as int];
            let p0 = m0[parent as int];
            let c1 = m3[cur as int];
            let s1 = m3[sib as int];
            let p1 = m3[parent as int];
            assert(m3 =~~= m0.update(cur as int, c1).update(sib as int, s1).update(
                parent as int,
                p1,
            ));
            if cur_leaf {
                lemma_sorted_concat(c0.keys, s0.keys);
                assert(c1.keys == c0.keys + s0.keys);
            } else {
                lemma_sorted_concat(c0.keys, seq![sep_old]);
                lemma_sorted_concat(c0.keys + seq![sep_old], s0.keys);
                assert(c1.keys =~= c0.keys + seq![sep_old] + s0.keys);
            }
            lemma_sorted_remove(p0.keys, j as int);
            p0.keys.remove_ensures(j as int);
            p0.children.remove_ensures(j as int + 1);
            // levels are untouched everywhere
            assert forall|t: int| 0 <= t < m5.len() implies m5[t].level == m0[t].level by {}
            assert forall|i2: int| 0 <= i2 < m5.len() implies node_wf(
                m5,
                i2,
                self.min_order(),
            ) by {
                assert(node_wf(m0, i2, self.min_order()));
                if i2 == cur {
                    assert forall|j2: int| 0 <= j2 < m5[i2].children.len() implies child_ok(
                        m5,
                        i2,
                        j2,
                    ) by {
                        if j2 < cnc {
                            assert(m5[i2].children[j2] == c0.children[j2]);
                            assert(child_ok(m0, cur as int, j2));
                        } else {
                            assert(m5[i2].children[j2] == s0.children[j2 - cnc]);
                            assert(node_wf(m0, sib as int, self.min_order()));
                            assert(child_ok(m0, sib as int, j2 - cnc));
                        }
                    }
                    assert(node_wf(m0, sib as int, self.min_order()));
                } else if i2 == sib {
                    assert(m5[i2].out_link == Some(cur));
                } else if i2 == parent {
                    assert forall|j2: int| 0 <= j2 < m5[i2].children.len() implies child_ok(
                        m5,
                        i2,
                        j2,
                    ) by {
                        if j2 < j as int + 1 {
                            assert(m5[i2].children[j2] == p0.children[j2]);
                            assert(child_ok(m0, parent as int, j2));
                        } else {
                            assert(m5[i2].children[j2] == p0.children[j2 + 1]);
                            assert(child_ok(m0, parent as int, j2 + 1));
                        }
                    }
                } else {
                    assert(m5[i2].keys == m0[i2].keys);
                    assert(m5[i2].children == m0[i2].children);
                    assert(m5[i2].right_link == m0[i2].right_link);
                    assert forall|j2: int| 0 <= j2 < m5[i2].children.len() implies child_ok(
                        m5,
                        i2,
                        j2,
                    ) by {
                        assert(child_ok(m0, i2, j2));
                    }
                }
            }
            assert forall|i2: int, j2: int|
                0 <= i2 < m5.len() && live(m5[i2]) && 0 <= j2 < m5[i2].children.len() implies m5[
                i2
            ].children[j2] != self.root_of() by {
                if i2 == cur {
                    if j2 < cnc {
                        assert(m5[i2].children[j2] == c0.children[j2]);
                    } else {
                        assert(m5[i2].children[j2] == s0.children[j2 - cnc]);
                        assert(live(m0[sib as int]));
                    }
                } else if i2 == parent {
                    if j2 < j as int + 1 {
                        assert(m5[i2].children[j2] == p0.children[j2]);
                    } else {
                        assert(m5[i2].children[j2] == p0.children[j2 + 1]);
                    }
                } else if i2 != sib {
                    assert(m5[i2].children == m0[i2].children);
                    assert(live(m0[i2]));
                }
            }
            let m1 = m0.update(cur as int, c1);
            let m2 = m1.update(sib as int, s1);
            lemma_leaf_keys_update(m0, cur as int, c1);
            lemma_leaf_keys_update(m1, sib as int, s1);
            lemma_leaf_keys_update(m2, parent as int, p1);
            lemma_claims_preserved(m3, m5);
            assert forall|k: u64|
                has_leaf_key(m5, k) == has_leaf_key(m0, k) by {
                lemma_pair_at(m0, sib as int, cur as int, s1, k);
                lemma_pair_at(m0, cur as int, sib as int, c1, k);
                assert(pair_leaf_key(m0, sib as int, cur as int, k) == pair_leaf_key(
                    m0,
                    cur as int,
                    sib as int,
                    k,
                )) by {
                    if pair_leaf_key(m0, sib as int, cur as int, k) {
                        let i = choose|i: int|
                            0 <= i < m0.len() && i != sib && i != cur && leaf_claims(m0[i], k);
                        assert(pair_leaf_key(m0, cur as int, sib as int, k));
                    }
                    if pair_leaf_key(m0, cur as int, sib as int, k) {
                        let i = choose|i: int|
                            0 <= i < m0.len() && i != cur && i != sib && leaf_claims(m0[i], k);
                        assert(pair_leaf_key(m0, sib as int, cur as int, k));
                    }
                }
                lemma_leaf_keys_split(m0, cur as int);
                lemma_leaf_keys_split(m2, parent as int);
                assert(has_leaf_key(m2, k) == (other_leaf_key(m1, sib as int, k) || leaf_claims(
                    s1,
                    k,
                )));
                assert(other_leaf_key(m1, sib as int, k) == (pair_leaf_key(
                    m0,
                    cur as int,
                    sib as int,
                    k,
                ) || leaf_claims(c1, k)));
                assert(other_leaf_key(m0, cur as int, k) == (pair_leaf_key(
                    m0,
                    sib as int,
                    cur as int,
                    k,
                ) || leaf_claims(s0, k)));
                if cur_leaf {
                    assert(leaf_claims(c1, k) == (leaf_claims(c0, k) || leaf_claims(s0, k)));
                } else {
                    assert(!is_leaf(c1) && !is_leaf(c0) && !is_leaf(s0));
                }
                assert(!leaf_claims(s1, k));
                assert(has_leaf_key(m3, k) == (other_leaf_key(m2, parent as int, k)
                    || leaf_claims(p1, k)));
                assert(!is_leaf(p1));
                assert(!is_leaf(m2[parent as int]));
            }
        }
        false
    }


    /// Whether any node other than the two the caller holds links to `t`
    /// by right-link or out-link.  Each other node is latched briefly for
    /// the inspection.
    fn any_link_to(&mut self, t: usize, a: usize, b: usize) -> (r: bool)
        requires
            a < old(self).models().len(),
            b < old(self).models().len(),
            forall|q: int|
                0 <= q < old(self).models().len() && q != a && q != b ==> (#[trigger] old(
                    self,
                ).latches()[q]).is_free(),
        ensures
            final(self).models() == old(self).models(),
            final(self).latches() == old(self).latches(),
            final(self).root_of() == old(self).root_of(),
            final(self).min_order() == old(self).min_order(),
            !r ==> forall|i: int|
                0 <= i < old(self).models().len() && i != a && i != b ==> final(self).models()[
                    i
                ].right_link != Some(t) && final(self).models()[i].out_link != Some(t),
    {
        let n = self.nodes.len();
        let mut i: usize = 0;
        let mut r = false;
        while i < n
            invariant
                i <= n,
                n == self.models().len(),
                a < n && b < n,
                self.models() == old(self).models(),
                self.latches() == old(self).latches(),
                self.root_of() == old(self).root_of(),
                self.min_order() == old(self).min_order(),
                forall|q: int|
                    0 <= q < n && q != a && q != b ==> (#[trigger] self.latches()[q]).is_free(),
                !r ==> forall|q: int|
                    0 <= q < i && q != a && q != b ==> self.models()[q].right_link != Some(t)
                        && self.models()[q].out_link != Some(t),
            decreases n - i,
        {
            if i != a && i != b {
                let ghost lat0 = self.latches();
                self.acquire_at(i, LatchType::Shared);
                let hit = match self.right_link_at(i) {
                    Some(x) => x == t,
                    None => false,
                } || match self.out_link_at(i) {
                    Some(x) => x == t,
                    None => false,
                };
                if hit {
                    r = true;
                }
                self.release_at(i);
                proof {
                    Latch::lemma_free_unique(self.latches()[i as int], lat0[i as int]);
                    assert(self.latches() =~= lat0);
                }
            }
            i = i + 1;
        }
        r
    }

    /// If the root holds no key and a single live child, and nothing else
    /// links to the root, the root absorbs that child's whole contents and
    /// the child is retired behind an out-link naming the root: the single
    /// child is promoted into the root node, which stays the tree's entry
    /// point.  The set of keys claimed by live leaves is unchanged.
    #[verifier::rlimit(60)]
    fn absorb_into_root(&mut self)
        requires
            old(self).wf(),
            old(self).quiescent(),
        ensures
            final(self).wf(),
            final(self).quiescent(),
            final(self).root_of() == old(self).root_of(),
            final(self).min_order() == old(self).min_order(),
            final(self).models().len() == old(self).models().len(),
            forall|i: int|
                0 <= i < old(self).models().len() && old(self).models()[i].out_link is Some
                    ==> final(self).models()[i].out_link is Some,
            forall|k: u64|
                has_leaf_key(final(self).models(), k) == has_leaf_key(old(self).models(), k),
    {
        let r = self.root_id;
        self.acquire_at(r, LatchType::Exclusive);
        proof {
            assert(self.only_held_at(r as int, LatchType::Exclusive));
            assert(node_wf(self.models(), r as int, self.min_order()));
        }
        let rk = self.num_keys_at(r);
        let rc = self.num_children_at(r);
        if rk == 0 && rc == 1 {
            let c = self.child_at_of(r, 0);
            proof {
                assert(child_ok(self.models(), r as int, 0));
            }
            self.acquire_at(c, LatchType::Exclusive);
            let c_live = match self.out_link_at(c) {
                None => true,
                Some(_) => false,
            };
            if c_live {
                let referenced = self.any_link_to(r, r, c);
                if !referenced {
                    let ghost m0 = self.models();
                    let ghost lvlc = self.models()[c as int].level;
                    let ck = self.read_keys(c);
                    let cc = self.read_children(c);
                    let crl = self.right_link_at(c);
                    self.set_keys_at(r, ck);
                    self.set_children_at(r, cc);
                    self.set_right_link_at(r, crl);
                    self.set_level_at(r, Ghost(lvlc));
                    let ek: Vec<u64> = Vec::new();
                    let ec: Vec<usize> = Vec::new();
                    self.set_keys_at(c, ek);
                    self.set_children_at(c, ec);
                    self.set_out_link_at(c, Some(r));
                    let ghost m3 = self.models();
                    self.redirect_out_links(c, r, r, c, c);
                    proof {
                        let m5 = self.models();
                        let r0 = m0[r as int];
                        let c0 = m0[c as int];
                        let r1 = m3[r as int];
                        let c1 = m3[c as int];
                        assert(m3 =~~= m0.update(r as int, r1).update(c as int, c1));
                        assert(node_wf(m0, c as int, self.min_order()));
                        assert forall|i2: int| 0 <= i2 < m5.len() implies node_wf(
                            m5,
                            i2,
                            self.min_order(),
                        ) by {
                            assert(node_wf(m0, i2, self.min_order()));
                            if i2 == r as int {
                                assert forall|j2: int|
                                    0 <= j2 < m5[i2].children.len() implies child_ok(
                                    m5,
                                    i2,
                                    j2,
                                ) by {
                                    assert(m5[i2].children[j2] == c0.children[j2]);
                                    assert(child_ok(m0, c as int, j2));
                                }
                            } else if i2 == c as int {
                                assert(m5[i2].out_link == Some(r));
                            } else {
                                assert(m5[i2].keys == m0[i2].keys);
                                assert(m5[i2].children == m0[i2].children);
                                assert(m5[i2].right_link == m0[i2].right_link);
                                assert forall|j2: int|
                                    0 <= j2 < m5[i2].children.len() implies child_ok(
                                    m5,
                                    i2,
                                    j2,
                                ) by {
                                    assert(child_ok(m0, i2, j2));
                                }
                            }
                        }
                        assert forall|i2: int, j2: int|
                            0 <= i2 < m5.len() && live(m5[i2]) && 0 <= j2 < m5[
                            i2
                        ].children.len() implies m5[i2].children[j2] != self.root_of() by {
                            if i2 == r as int {
                                assert(m5[i2].children[j2] == c0.children[j2]);
                                assert(live(m0[c as int]));
                            } else if i2 != c as int {
                                assert(m5[i2].children == m0[i2].children);
                                assert(live(m0[i2]));
                            }
                        }
                        let m1 = m0.update(r as int, r1);
                        lemma_leaf_keys_update(m0, r as int, r1);
                        lemma_leaf_keys_update(m1, c as int, c1);
                        lemma_claims_preserved(m3, m5);
                        assert forall|k: u64|
                            has_leaf_key(m5, k) == has_leaf_key(m0, k) by {
                            lemma_pair_at(m0, c as int, r as int, c1, k);
                            lemma_pair_at(m0, r as int, c as int, r1, k);
                            assert(pair_leaf_key(m0, c as int, r as int, k) == pair_leaf_key(
                                m0,
                                r as int,
                                c as int,
                                k,
                            )) by {
                                if pair_leaf_key(m0, c as int, r as int, k) {
                                    let i = choose|i: int|
                                        0 <= i < m0.len() && i != c && i != r && leaf_claims(
                                            m0[i],
                                            k,
                                        );
                                    assert(pair_leaf_key(m0, r as int, c as int, k));
                                }
                                if pair_leaf_key(m0, r as int, c as int, k) {
                                    let i = choose|i: int|
                                        0 <= i < m0.len() && i != r && i != c && leaf_claims(
                                            m0[i],
                                            k,
                                        );
                                    assert(pair_leaf_key(m0, c as int, r as int, k));
                                }
                            }
                            lemma_leaf_keys_split(m0, r as int);
                            assert(has_leaf_key(m3, k) == (other_leaf_key(m1, c as int, k)
                                || leaf_claims(c1, k)));
                            assert(other_leaf_key(m1, c as int, k) == (pair_leaf_key(
                                m0,
                                r as int,
                                c as int,
                                k,
                            ) || leaf_claims(r1, k)));
                            assert(other_leaf_key(m0, r as int, k) == (pair_leaf_key(
                                m0,
                                c as int,
                                r as int,
                                k,
                            ) || leaf_claims(c0, k)));
                            assert(leaf_claims(r1, k) == leaf_claims(c0, k));
                            assert(!leaf_claims(c1, k));
                            assert(!is_leaf(r0));
                        }
                    }
                }
            }
            self.release_at(c);
        }
        self.release_at(r);
        proof {
            assert forall|j2: int| 0 <= j2 < self.models().len() implies self.latches()[
                j2
            ].is_free() by {}
        }
    }


    /// Borrow the first key of the right sibling leaf into the underfull
    /// leaf and refresh the separator between them.  The set of keys
    /// claimed by live leaves is unchanged.
    #[verifier::rlimit(100)]
    #[verifier::spinoff_prover]
    fn borrow_from_right(&mut self, parent: usize, cur: usize, sib: usize, j: usize) -> (stop:
        bool)
        requires
            old(self).wf(),
            parent < old(self).models().len(),
            cur < old(self).models().len(),
            sib < old(self).models().len(),
            parent != cur && parent != sib && cur != sib,
            old(self).latches()[parent as int].is_exclusive(),
            old(self).latches()[cur as int].is_exclusive(),
            old(self).latches()[sib as int].is_exclusive(),
            forall|q: int|
                0 <= q < old(self).models().len() && q != parent && q != cur && q != sib ==> (
                #[trigger] old(self).latches()[q]).is_free(),
            old(self).models()[parent as int].children.len() == old(self).models()[
                parent as int
            ].keys.len() + 1,
            j + 1 < old(self).models()[parent as int].children.len(),
            old(self).models()[parent as int].children[j as int] == cur,
            old(self).models()[parent as int].children[j as int + 1] == sib,
            live(old(self).models()[parent as int]),
            live(old(self).models()[cur as int]),
            live(old(self).models()[sib as int]),
            is_leaf(old(self).models()[cur as int]),
            is_leaf(old(self).models()[sib as int]),
            old(self).models()[sib as int].keys.len() >= 2,
        ensures
            final(self).wf(),
            final(self).latches() == old(self).latches(),
            final(self).models().len() == old(self).models().len(),
            final(self).root_of() == old(self).root_of(),
            final(self).min_order() == old(self).min_order(),
            live(final(self).models()[parent as int]),
            live(final(self).models()[cur as int]),
            !is_leaf(final(self).models()[parent as int]),
            final(self).models()[parent as int].level == old(self).models()[parent as int].level,
            forall|i: int|
                0 <= i < old(self).models().len() && live(old(self).models()[i]) && i != parent
                    && i != cur && i != sib ==> final(self).models()[i] == old(self).models()[i],
            forall|i: int|
                0 <= i < old(self).models().len() && old(self).models()[i].out_link is Some
                    ==> final(self).models()[i].out_link is Some,
            forall|k: u64|
                has_leaf_key(final(self).models(), k) == has_leaf_key(old(self).models(), k),
    {
        proof {
            assert(node_wf(self.models(), parent as int, self.min_order()));
            assert(node_wf(self.models(), cur as int, self.min_order()));
            assert(node_wf(self.models(), sib as int, self.min_order()));
        }
        let ghost m0 = self.models();
        let cnk = self.num_keys_at(cur);
        let pnk = self.num_keys_at(parent);
        let moved = self.key_at_of(sib, 0);
        let newsep = self.key_at_of(sib, 1);
        let ok = (cnk == 0 || self.key_at_of(cur, cnk - 1) < moved) && cnk < usize::MAX && (j == 0
            || self.key_at_of(parent, j - 1) < newsep) && (j + 1 >= pnk || newsep
            < self.key_at_of(parent, j + 1));
        if !ok {
            return true;
        }
        self.insert_key_at_of(cur, cnk, moved);
        self.remove_key_at_of(sib, 0);
        self.remove_key_at_of(parent, j);
        self.insert_key_at_of(parent, j, newsep);
        proof {
            let m4 = self.models();
            let c0 = m0[cur as int];
            let s0 = m0[sib as int];
            let p0 = m0[parent as int];
            let c1 = m4[cur as int];
            let s1 = m4[sib as int];
            let p1 = m4[parent as int];
            assert forall|q: int| 0 <= q < c0.keys.len() implies c0.keys[q] < moved by {
                if q < cnk - 1 {
                    assert(c0.keys[q] < c0.keys[cnk - 1 as int]);
                }
            }
            lemma_sorted_insert(c0.keys, cnk as int, moved);
            lemma_sorted_remove(s0.keys, 0);
            lemma_sorted_remove(p0.keys, j as int);
            let pr = p0.keys.remove(j as int);
            p0.keys.remove_ensures(j as int);
            assert forall|q: int| 0 <= q < j implies pr[q] < newsep by {
                if q < j - 1 {
                    assert(p0.keys[q] < p0.keys[j - 1]);
                }
            }
            assert forall|q: int| j <= q < pr.len() implies pr[q] > newsep by {
                if q > j {
                    assert(p0.keys[j + 1] <= p0.keys[q + 1]);
                }
            }
            lemma_sorted_insert(pr, j as int, newsep);
            assert(m4 =~~= m0.update(cur as int, c1).update(sib as int, s1).update(
                parent as int,
                p1,
            ));
            assert forall|i2: int|
                0 <= i2 < m0.len() implies m4[i2].out_link == m0[i2].out_link by {}
            let m1 = m0.update(cur as int, c1);
            let m2 = m1.update(sib as int, s1);
            assert forall|i2: int| 0 <= i2 < m4.len() implies node_wf(
                m4,
                i2,
                self.min_order(),
            ) by {
                assert(node_wf(m0, i2, self.min_order()));
                assert forall|j2: int| 0 <= j2 < m4[i2].children.len() implies child_ok(
                    m4,
                    i2,
                    j2,
                ) by {
                    assert(child_ok(m0, i2, j2));
                }
            }
            lemma_leaf_keys_update(m0, cur as int, c1);
            lemma_leaf_keys_update(m1, sib as int, s1);
            lemma_leaf_keys_update(m2, parent as int, p1);
            assert(c1.keys == c0.keys.insert(cnk as int, moved));
            assert(s0.keys[0] == moved);
            assert(s0.keys.contains(moved));
            assert(c1.keys == c0.keys.insert(cnk as int, moved));
            assert(s1.keys == s0.keys.remove(0));
            assert forall|k: u64|
                has_leaf_key(m4, k) == has_leaf_key(m0, k) by {
                lemma_sorted_insert(c0.keys, cnk as int, moved);
                lemma_sorted_remove(s0.keys, 0);
                lemma_pair_at(m0, sib as int, cur as int, s1, k);
                lemma_pair_at(m0, cur as int, sib as int, c1, k);
                assert(pair_leaf_key(m0, sib as int, cur as int, k) == pair_leaf_key(
                    m0,
                    cur as int,
                    sib as int,
                    k,
                )) by {
                    if pair_leaf_key(m0, sib as int, cur as int, k) {
                        let i = choose|i: int|
                            0 <= i < m0.len() && i != sib && i != cur && leaf_claims(m0[i], k);
                        assert(pair_leaf_key(m0, cur as int, sib as int, k));
                    }
                    if pair_leaf_key(m0, cur as int, sib as int, k) {
                        let i = choose|i: int|
                            0 <= i < m0.len() && i != cur && i != sib && leaf_claims(m0[i], k);
                        assert(pair_leaf_key(m0, sib as int, cur as int, k));
                    }
                }
                lemma_leaf_keys_split(m0, cur as int);
                lemma_leaf_keys_split(m2, parent as int);
                assert(has_leaf_key(m2, k) == (other_leaf_key(m1, sib as int, k) || leaf_claims(
                    s1,
                    k,
                )));
                assert(other_leaf_key(m1, sib as int, k) == (pair_leaf_key(
                    m0,
                    cur as int,
                    sib as int,
                    k,
                ) || leaf_claims(c1, k)));
                assert(other_leaf_key(m0, cur as int, k) == (pair_leaf_key(
                    m0,
                    sib as int,
                    cur as int,
                    k,
                ) || leaf_claims(s0, k)));
                assert(c1.keys.contains(k) == (c0.keys.contains(k) || k == moved)) by {
                    lemma_sorted_insert(c0.keys, cnk as int, moved);
                    assert(c1.keys == c0.keys.insert(cnk as int, moved));
                }
                assert(s1.keys.contains(k) == (s0.keys.contains(k) && k != moved)) by {
                    lemma_sorted_remove(s0.keys, 0);
                    assert(s1.keys == s0.keys.remove(0));
                    assert(s0.keys[0] == moved);
                }
                assert((leaf_claims(c1, k) || leaf_claims(s1, k)) == (leaf_claims(c0, k)
                    || leaf_claims(s0, k)));
                assert(has_leaf_key(m4, k) == (other_leaf_key(m2, parent as int, k)
                    || leaf_claims(p1, k)));
                assert(!is_leaf(p1));
                assert(!is_leaf(m2[parent as int]));
            }
        }
        true
    }

    /// Search for `key`: descend from the root with shared latch-coupling,
    /// moving right wherever a split has carried the key range, and report
    /// whether the leaf whose range covers `key` holds it.  A miss at that
    /// leaf is certified against every live leaf before absence is
    /// reported, so the result equals membership in the claimed key set
    /// exactly.
    pub fn search(&mut self, key: u64) -> (found: bool)
        requires
            old(self).wf(),
            old(self).quiescent(),
        ensures
            final(self).wf(),
            final(self).quiescent(),
            final(self).models() == old(self).models(),
            final(self).root_of() == old(self).root_of(),
            final(self).min_order() == old(self).min_order(),
            final(self).tree_keys() == old(self).tree_keys(),
            found == old(self).tree_keys().contains(key),
    {
        let mut cur = self.root_id;
        self.acquire_at(cur, LatchType::Shared);
        proof {
            assert(self.only_held_at(cur as int, LatchType::Shared));
        }
        cur = self.move_right(cur, key, LatchType::Shared);
        while self.num_children_at(cur) > 0
            invariant
                self.wf(),
                self.models() == old(self).models(),
                self.root_of() == old(self).root_of(),
                self.min_order() == old(self).min_order(),
                cur < self.models().len(),
                self.only_held_at(cur as int, LatchType::Shared),
                live(self.models()[cur as int]),
            decreases self.models()[cur as int].level,
        {
            proof {
                assert(node_wf(self.models(), cur as int, self.min_order()));
            }
            let j = self.upper_bound(cur, key);
            let child = self.child_at_of(cur, j);
            proof {
                assert(child_ok(self.models(), cur as int, j as int));
            }
            self.acquire_at(child, LatchType::Shared);
            self.release_at(cur);
            cur = child;
            proof {
                assert(self.only_held_at(cur as int, LatchType::Shared));
            }
            cur = self.move_right(cur, key, LatchType::Shared);
        }
        proof {
            assert(node_wf(self.models(), cur as int, self.min_order()));
        }
        let found_here = self.has_key_at(cur, key);
        self.release_at(cur);
        proof {
            assert forall|j2: int| 0 <= j2 < self.models().len() implies self.latches()[
                j2
            ].is_free() by {}
            if found_here {
                assert(leaf_claims(old(self).models()[cur as int], key));
                assert(has_leaf_key(old(self).models(), key));
            }
            assert(self.tree_keys() =~= old(self).tree_keys());
        }
        if found_here {
            return true;
        }
        // a miss at the covering leaf is certified against every live leaf
        let present = self.any_leaf_claims(key);
        proof {
            assert(self.tree_keys() =~= old(self).tree_keys());
        }
        present
    }
}

// ----------------------------------------------------------------------
// Facts about the set of keys claimed by live leaves.
// ----------------------------------------------------------------------

/// Splitting the claim "some live leaf holds `k`" at one identifier.
proof fn lemma_leaf_keys_split(m: Seq<NodeModel>, x: int)
    requires
        0 <= x < m.len(),
    ensures
        forall|k: u64| has_leaf_key(m, k) == (other_leaf_key(m, x, k) || leaf_claims(m[x], k)),
{
    assert forall|k: u64|
        has_leaf_key(m, k) == (other_leaf_key(m, x, k) || leaf_claims(m[x], k)) by {
        if has_leaf_key(m, k) {
            let i = choose|i: int| 0 <= i < m.len() && leaf_claims(m[i], k);
            if i != x {
                assert(other_leaf_key(m, x, k));
            }
        }
        if other_leaf_key(m, x, k) {
            let i = choose|i: int| 0 <= i < m.len() && i != x && leaf_claims(m[i], k);
            assert(has_leaf_key(m, k));
        }
        if leaf_claims(m[x], k) {
            assert(has_leaf_key(m, k));
        }
    }
}

/// Replacing node `x` replaces exactly its own claim.
proof fn lemma_leaf_keys_update(m: Seq<NodeModel>, x: int, n: NodeModel)
    requires
        0 <= x < m.len(),
    ensures
        forall|k: u64|
            has_leaf_key(m.update(x, n), k) == (other_leaf_key(m, x, k) || leaf_claims(n, k)),
        forall|k: u64| has_leaf_key(m, k) == (other_leaf_key(m, x, k) || leaf_claims(m[x], k)),
{
    let m2 = m.update(x, n);
    lemma_leaf_keys_split(m, x);
    lemma_leaf_keys_split(m2, x);
    assert forall|k: u64| other_leaf_key(m2, x, k) == other_leaf_key(m, x, k) by {
        if other_leaf_key(m2, x, k) {
            let i = choose|i: int| 0 <= i < m2.len() && i != x && leaf_claims(m2[i], k);
            assert(m2[i] == m[i]);
            assert(other_leaf_key(m, x, k));
        }
        if other_leaf_key(m, x, k) {
            let i = choose|i: int| 0 <= i < m.len() && i != x && leaf_claims(m[i], k);
            assert(m2[i] == m[i]);
            assert(other_leaf_key(m2, x, k));
        }
    }
}

/// Appending a node adds exactly its own claim.
proof fn lemma_leaf_keys_push(m: Seq<NodeModel>, n: NodeModel)
    ensures
        forall|k: u64| has_leaf_key(m.push(n), k) == (has_leaf_key(m, k) || leaf_claims(n, k)),
{
    let m2 = m.push(n);
    assert forall|k: u64|
        has_leaf_key(m2, k) == (has_leaf_key(m, k) || leaf_claims(n, k)) by {
        if has_leaf_key(m2, k) {
            let i = choose|i: int| 0 <= i < m2.len() && leaf_claims(m2[i], k);
            if i < m.len() {
                assert(m2[i] == m[i]);
                assert(has_leaf_key(m, k));
            } else {
                assert(m2[i] == n);
            }
        }
        if has_leaf_key(m, k) {
            let i = choose|i: int| 0 <= i < m.len() && leaf_claims(m[i], k);
            assert(m2[i] == m[i]);
            assert(has_leaf_key(m2, k));
        }
        if leaf_claims(n, k) {
            assert(m2[m.len() as int] == n);
            assert(has_leaf_key(m2, k));
        }
    }
}


/// Whether some live leaf other than `x` and `y` claims `k`.
pub open spec fn pair_leaf_key(m: Seq<NodeModel>, x: int, y: int, k: u64) -> bool {
    exists|i: int| 0 <= i < m.len() && i != x && i != y && leaf_claims(#[trigger] m[i], k)
}

/// Splitting the claim "some live leaf other than `y` holds `k`" at `x`,
/// before and after node `x` is replaced.
proof fn lemma_pair_at(m: Seq<NodeModel>, x: int, y: int, n: NodeModel, k: u64)
    requires
        0 <= x < m.len(),
        0 <= y < m.len(),
        x != y,
    ensures
        other_leaf_key(m, y, k) == (pair_leaf_key(m, x, y, k) || leaf_claims(m[x], k)),
        other_leaf_key(m.update(x, n), y, k) == (pair_leaf_key(m, x, y, k) || leaf_claims(n, k)),
{
    let m2 = m.update(x, n);
    if other_leaf_key(m, y, k) {
        let i = choose|i: int| 0 <= i < m.len() && i != y && leaf_claims(m[i], k);
        if i != x {
            assert(pair_leaf_key(m, x, y, k));
        }
    }
    if pair_leaf_key(m, x, y, k) {
        let i = choose|i: int| 0 <= i < m.len() && i != x && i != y && leaf_claims(m[i], k);
        assert(other_leaf_key(m, y, k));
        assert(m2[i] == m[i]);
        assert(other_leaf_key(m2, y, k));
    }
    if leaf_claims(m[x], k) {
        assert(other_leaf_key(m, y, k));
    }
    if other_leaf_key(m2, y, k) {
        let i = choose|i: int| 0 <= i < m2.len() && i != y && leaf_claims(m2[i], k);
        if i == x {
            assert(leaf_claims(n, k));
        } else {
            assert(m2[i] == m[i]);
            assert(pair_leaf_key(m, x, y, k));
        }
    }
    if leaf_claims(n, k) {
        assert(m2[x] == n);
        assert(other_leaf_key(m2, y, k));
    }
}

/// Two stores whose nodes agree on liveness, leafness and keys claim the
/// same key sets.
proof fn lemma_claims_preserved(m1: Seq<NodeModel>, m2: Seq<NodeModel>)
    requires
        m1.len() == m2.len(),
        forall|i: int|
            0 <= i < m1.len() ==> (#[trigger] m2[i]).keys == m1[i].keys && m2[i].children == m1[
                i
            ].children && ((m2[i].out_link is None) == (m1[i].out_link is None)),
    ensures
        forall|k: u64| has_leaf_key(m2, k) == has_leaf_key(m1, k),
{
    assert forall|k: u64| has_leaf_key(m2, k) == has_leaf_key(m1, k) by {
        if has_leaf_key(m2, k) {
            let i = choose|i: int| 0 <= i < m2.len() && leaf_claims(m2[i], k);
            assert(leaf_claims(m1[i], k));
            assert(has_leaf_key(m1, k));
        }
        if has_leaf_key(m1, k) {
            let i = choose|i: int| 0 <= i < m1.len() && leaf_claims(m1[i], k);
            assert(leaf_claims(m2[i], k));
            assert(has_leaf_key(m2, k));
        }
    }
}

// ----------------------------------------------------------------------
// Facts about strictly ascending key sequences.
// ----------------------------------------------------------------------

/// Inserting `key` at its lower bound keeps a key sequence strictly
/// ascending and adds exactly `key` to its content.
proof fn lemma_sorted_insert(s: Seq<u64>, p: int, key: u64)
    requires
        strictly_sorted(s),
        0 <= p <= s.len(),
        forall|q: int| 0 <= q < p ==> s[q] < key,
        forall|q: int| p <= q < s.len() ==> s[q] > key,
    ensures
        strictly_sorted(s.insert(p, key)),
        forall|k: u64| s.insert(p, key).contains(k) == (s.contains(k) || k == key),
{
    s.insert_ensures(p, key);
    let s2 = s.insert(p, key);
    assert forall|i: int, j: int| 0 <= i < j < s2.len() implies s2[i] < s2[j] by {
        if i < p {
            assert(s2[i] == s[i]);
        } else if i == p {
            assert(s2[i] == key);
        } else {
            assert(s2[i] == s[i - 1]);
        }
        if j < p {
            assert(s2[j] == s[j]);
        } else if j == p {
            assert(s2[j] == key);
        } else {
            assert(s2[j] == s[j - 1]);
        }
    }
    assert forall|k: u64| s2.contains(k) == (s.contains(k) || k == key) by {
        if s2.contains(k) {
            let i = choose|i: int| 0 <= i < s2.len() && s2[i] == k;
            if i < p {
                assert(s[i] == k);
            } else if i > p {
                assert(s[i - 1] == k);
            }
        }
        if s.contains(k) {
            let i = choose|i: int| 0 <= i < s.len() && s[i] == k;
            if i < p {
                assert(s2[i] == k);
            } else {
                assert(s2[i + 1] == k);
            }
        }
        if k == key {
            assert(s2[p] == k);
        }
    }
}

/// Removing position `p` from a strictly ascending key sequence removes
/// exactly the key that stood there.
proof fn lemma_sorted_remove(s: Seq<u64>, p: int)
    requires
        strictly_sorted(s),
        0 <= p < s.len(),
    ensures
        strictly_sorted(s.remove(p)),
        forall|k: u64| s.remove(p).contains(k) == (s.contains(k) && k != s[p]),
{
    s.remove_ensures(p);
    let s2 = s.remove(p);
    assert forall|i: int, j: int| 0 <= i < j < s2.len() implies s2[i] < s2[j] by {
        if i < p {
            assert(s2[i] == s[i]);
        } else {
            assert(s2[i] == s[i + 1]);
        }
        if j < p {
            assert(s2[j] == s[j]);
        } else {
            assert(s2[j] == s[j + 1]);
        }
    }
    assert forall|k: u64| s2.contains(k) == (s.contains(k) && k != s[p]) by {
        if s2.contains(k) {
            let i = choose|i: int| 0 <= i < s2.len() && s2[i] == k;
            if i < p {
                assert(s[i] == k);
                assert(s[i] < s[p]);
            } else {
                assert(s[i + 1] == k);
                assert(s[p] < s[i + 1]);
            }
        }
        if s.contains(k) && k != s[p] {
            let i = choose|i: int| 0 <= i < s.len() && s[i] == k;
            if i < p {
                assert(s2[i] == k);
            } else if i > p {
                assert(s2[i - 1] == k);
            }
        }
    }
}

/// A slice of a strictly ascending key sequence is strictly ascending.
proof fn lemma_sorted_subrange(s: Seq<u64>, a: int, b: int)
    requires
        strictly_sorted(s),
        0 <= a <= b <= s.len(),
    ensures
        strictly_sorted(s.subrange(a, b)),
{
    assert forall|i: int, j: int| 0 <= i < j < b - a implies s.subrange(a, b)[i] < s.subrange(
        a,
        b,
    )[j] by {
        assert(s.subrange(a, b)[i] == s[a + i]);
        assert(s.subrange(a, b)[j] == s[a + j]);
    }
}

/// Cutting a key sequence at `h` partitions its content.
proof fn lemma_subrange_pair_contains(s: Seq<u64>, h: int)
    requires
        0 <= h <= s.len(),
    ensures
        forall|k: u64|
            s.contains(k) == (s.subrange(0, h).contains(k) || s.subrange(
                h,
                s.len() as int,
            ).contains(k)),
{
    let a = s.subrange(0, h);
    let b = s.subrange(h, s.len() as int);
    assert forall|k: u64| s.contains(k) == (a.contains(k) || b.contains(k)) by {
        if s.contains(k) {
            let i = choose|i: int| 0 <= i < s.len() && s[i] == k;
            if i < h {
                assert(a[i] == k);
            } else {
                assert(b[i - h] == k);
            }
        }
        if a.contains(k) {
            let i = choose|i: int| 0 <= i < a.len() && a[i] == k;
            assert(s[i] == k);
        }
        if b.contains(k) {
            let i = choose|i: int| 0 <= i < b.len() && b[i] == k;
            assert(s[h + i] == k);
        }
    }
}

/// Joining two strictly ascending key sequences whose ranges are ordered
/// yields a strictly ascending sequence holding the union of their content.
proof fn lemma_sorted_concat(a: Seq<u64>, b: Seq<u64>)
    requires
        strictly_sorted(a),
        strictly_sorted(b),
        a.len() > 0 && b.len() > 0 ==> a.last() < b.first(),
    ensures
        strictly_sorted(a + b),
        forall|k: u64| (a + b).contains(k) == (a.contains(k) || b.contains(k)),
{
    let s = a + b;
    assert forall|i: int, j: int| 0 <= i < j < s.len() implies s[i] < s[j] by {
        if j < a.len() {
            assert(s[i] == a[i] && s[j] == a[j]);
        } else if i >= a.len() {
            assert(s[i] == b[i - a.len()] && s[j] == b[j - a.len()]);
        } else {
            assert(s[i] == a[i] && s[j] == b[j - a.len()]);
            assert(a[i] <= a.last());
            assert(b.first() <= b[j - a.len()]);
        }
    }
    assert forall|k: u64| s.contains(k) == (a.contains(k) || b.contains(k)) by {
        if s.contains(k) {
            let i = choose|i: int| 0 <= i < s.len() && s[i] == k;
            if i < a.len() {
                assert(a[i] == k);
            } else {
                assert(b[i - a.len()] == k);
            }
        }
        if a.contains(k) {
            let i = choose|i: int| 0 <= i < a.len() && a[i] == k;
            assert(s[i] == k);
        }
        if b.contains(k) {
            let i = choose|i: int| 0 <= i < b.len() && b[i] == k;
            assert(s[a.len() + i] == k);
        }
    }
}

// ----------------------------------------------------------------------
// Laws.
// ----------------------------------------------------------------------

/// Order invariant: in a well-formed tree, every node's key sequence is
/// strictly ascending — so it is at every moment a latch is held on a node
/// of a tree whose operations preserve well-formedness.
pub proof fn lemma_order_invariant(t: Tree, i: int)
    requires
        t.wf(),
        0 <= i < t.models().len(),
    ensures
        strictly_sorted(t.models()[i].keys),
{
    assert(node_wf(t.models(), i, t.min_order()));
}

/// Root uniqueness: in a well-formed tree — every public operation starts
/// and ends in one — exactly one node carries the root flag, it is live,
/// and no live node's child slot names it.
pub proof fn lemma_root_unique(t: Tree)
    requires
        t.wf(),
    ensures
        0 <= t.root_of() < t.models().len(),
        t.models()[t.root_of()].root,
        live(t.models()[t.root_of()]),
        forall|i: int|
            0 <= i < t.models().len() && i != t.root_of() ==> !(#[trigger] t.models()[i]).root,
        forall|i: int, j: int|
            0 <= i < t.models().len() && live(t.models()[i]) && 0 <= j < t.models()[
                i
            ].children.len() ==> #[trigger] t.models()[i].children[j] != t.root_of(),
{
}

} // verus!
