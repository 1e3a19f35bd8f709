//! The core of an embedded key-value store: the counters and statistics of its
//! page store, the strategy that picks the next file to reclaim, and the sorted
//! index pages that route a key to a child of the tree.

pub mod builder;
pub mod counter;
pub mod fraction;
pub mod index_page;
pub mod iter;
pub mod key;
pub mod page;
pub mod page_iter;
pub mod stats;
pub mod strategy;
pub mod wide;
