//! A binary search tree whose nodes live in an arena and link to each other
//! by index: child slots point down, a parent slot points back up.
pub mod bst;

pub use bst::{BstArena, BstNode, BstNodeLink};
