//! An arena-backed AVL tree over `u64` values.
//!
//! The arena (`AVLTreeArena`) owns every node and addresses them by slot
//! index; the tree handle (`AVLTree`) wraps the arena and exposes insertion,
//! order-statistic lookup and size queries. Every operation is verified
//! against an abstract binary-tree model (`model::TreeV`).

pub mod arena;
pub mod model;
pub mod tree;
