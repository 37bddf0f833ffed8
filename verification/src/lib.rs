//! An ordered map backed by a skip list, with a priority queue on top of it.
//!
//! Nodes live in an arena and name each other by address; every forward link
//! packs an address with a deletion tag. Removal is two-phase: a node is first
//! marked and frozen, then unlinked level by level, and searches finish the
//! unlinking of frozen nodes they meet. A list has one owner at a time, and
//! every operation runs to its end before the next begins.

pub mod height;
pub mod laws;
pub mod list;
pub mod node;
pub mod order;
pub mod priority_queue;
pub mod skiplist;
pub mod tagged;

pub use list::SkipList as SSkipList;
pub use priority_queue::PriorityQueue;
pub use skiplist::SkipList;
