//! The storage engine and the pieces it is built from.

pub mod codec;
pub mod engine;
pub mod kvstore;
pub mod laws;
pub mod lsm_tree;
pub mod naming;
pub mod ordered;
pub mod rbtree;
pub mod segment;
