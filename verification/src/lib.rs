//! A disjoint-set (union-find) data structure over `usize` keys.
//!
//! The structure partitions a growing universe of keys into equivalence
//! classes. Each key points at a parent key; a key whose parent is itself is
//! the *representative* of its class. `find` follows parent pointers to the
//! representative, `find_shorten` additionally performs path compression, and
//! the union operations merge two classes, either through a pluggable
//! [`Union`](generic::Union) strategy or by rank.
//!
//! Every operation is specified against a mathematical model of the parent
//! mapping (see [`forest`]) and verified: the parent mapping always remains a
//! forest, `find` is total on the stored keys, compression never changes any
//! key's representative, and ranks never decrease.

use vstd::prelude::*;

pub mod extra;
pub mod forest;
pub mod generic;

verus! {

/// A union-find over `usize` keys backed by hash maps, using union by rank.
pub type HashUnionFindByRank = crate::generic::UnionFind<crate::extra::ByRank>;

} // verus!
