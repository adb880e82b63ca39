//! An in-memory B-tree of configurable (Knuth) order, with membership search,
//! insertion with node splitting, and deletion with rotation and merging.
pub mod key;
mod node;
pub mod tree;

pub use key::KeyOrder;
pub use tree::{BTree, BTreeError};
