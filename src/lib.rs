//! An unbalanced binary search tree of `i64` elements with five resumable
//! traversal engines, together with a bounded Fibonacci generator and a
//! singly linked list.

pub mod binary_search_tree;
pub mod fibonacci;
pub mod node;
pub mod singly_linked_list;
pub mod traversal;
pub mod tree;
