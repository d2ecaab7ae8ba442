//! Radish: a non-comparative sort. Each element is mapped to a byte key,
//! the keys are inserted into a 256-way trie, and an in-order walk of the
//! trie yields the elements in ascending key order.
pub mod key;
pub mod sort;
pub mod tree;

pub use sort::{sort, sort_by_keys};
pub use tree::{Tree, TreeIter};
