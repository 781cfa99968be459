//! A treap: a binary search tree over keys that is also a min-heap over
//! per-node priorities, with a leveled-logging vocabulary beside it.

pub mod order;
pub mod shape;
pub mod laws;
pub mod listing;
pub mod logger;
pub mod treap;
