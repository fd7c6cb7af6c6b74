//! An ordered map backed by a self-balancing (AVL) binary search tree.
//!
//! Keys are `u64`; values are an arbitrary type `V`. The tree supports
//! point lookup, insertion with overwrite, deletion, minimum/maximum
//! queries, successor queries, and ordered range iteration. Every
//! operation carries a contract relating it to the tree's abstract view
//! as a `Map<u64, V>`, and every mutation is proved to preserve both the
//! binary-search-tree ordering invariant and the AVL height-balance
//! invariant.

pub mod node;
pub mod tree;
pub mod iterators;
pub mod laws;

pub use tree::AVLTree;
pub use iterators::Bound;
