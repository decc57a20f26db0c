//! B+ tree nodes and their page encodings.
pub mod leaf_node;
pub mod internal_node;

pub use leaf_node::{LeafNode, NODE_LEAF};
pub use internal_node::{InternalNode, NODE_INTERNAL};
