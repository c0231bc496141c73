//! A splay tree: a self-adjusting binary search tree that keeps its keys in
//! ascending order and moves every accessed key to the root.

pub mod order;
pub mod seqs;
mod node;
pub mod cost;
pub mod tree;
pub mod laws;

pub use tree::SplayTree;
