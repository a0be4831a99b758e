//! Concurrency core of a B-link tree (Lehman & Yao style).
//!
//! A B-link tree is a B-tree variant in which every node keeps a link to
//! its right sibling, so a traversal that arrives at a node whose key range
//! has been carried away by a split can recover by moving right instead of
//! restarting from the root, and every node that is merged away leaves an
//! out-link behind naming a live node from which a traversal caught on the
//! retired node resumes.
//!
//! The crate is organised as:
//! - [`latch`]: the reader/writer latch that mediates access to one node;
//! - [`node`]: the node payload, its model, and latch-guarded field access;
//! - [`tree`]: the traversal engine: move-right, search, insert with
//!   proactive splits, delete with borrow/merge and out-link retirement.

pub mod latch;
pub mod node;
pub mod tree;
