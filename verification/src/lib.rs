//! An in-memory ordered set of unique `u64` values backed by a
//! height-balanced binary search tree (AVL discipline).
//!
//! Every operation carries a contract relating it to a mathematical model:
//! the set of stored values (`tree_set`) and the in-order sequence
//! (`tree_seq`). The well-formedness predicate `wf` pins down the search
//! order, the cached heights, and the AVL balance bound for every node.

pub mod laws;
pub mod node;
pub mod set;

pub use node::AVLNode;
pub use set::AVLTreeSet;
pub use set::AVLTreeSetNodeIter;
