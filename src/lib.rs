//! Ordered collections: a height-balanced binary search tree (`avl`), with a few
//! smaller companion structures.
pub mod avl;
pub mod avl_tree;
pub mod list;
pub mod tree;
