//! An ordered binary search tree over `i64` values.
//!
//! A tree is a single node that optionally owns a left and a right subtree.
//! It supports membership testing, in-place insertion (duplicates are
//! silently ignored), and balanced bulk construction from a sequence of
//! elements by recursively picking the median as pivot.

mod bulk;
mod tree;

pub use bulk::BuildError;
pub use tree::BinaryTree;
