//! Compiled patterns and the prefix tree that stores and matches them.

pub mod laws;
pub mod node;
pub mod pattern;
pub mod root;
pub mod segment;
pub mod trie;

pub use node::{BranchNode, LeafNode, Node};
pub use root::Root;
pub use segment::Segment;
