//! Counters that many threads update and observers sample.

use crate::stats::{JobStats, WritebufStats};
use std::sync::atomic::{AtomicU64, Ordering};
use vstd::prelude::*;

verus! {

/// A counter that threads share. Its updates are atomic and relaxed: a reading
/// says nothing about what other counters held at that moment.
pub struct Counter {
    value: AtomicU64,
}

impl Counter {
    /// A counter that starts at `value`.
    pub fn new(value: u64) -> Counter {
        Counter { value: AtomicU64::new(value) }
    }

    /// Adds `delta`, wrapping around at 2^64, and returns the reading before.
    pub fn add(&self, delta: u64) -> u64 {
        self.value.fetch_add(delta, Ordering::Relaxed)
    }

    /// Adds one.
    pub fn inc(&self) -> u64 {
        self.add(1)
    }

    /// The current reading.
    pub fn get(&self) -> u64 {
        self.value.load(Ordering::Relaxed)
    }
}

impl Default for Counter {
    fn default() -> Counter {
        Counter::new(0)
    }
}

/// The shared counters of the write buffer.
pub struct AtomicWritebufStats {
    pub read_in_buf: Counter,
    pub read_in_file: Counter,
}

impl AtomicWritebufStats {
    /// Reads each counter once. Threads may update the counters meanwhile, so
    /// the two readings need not belong to one moment.
    pub fn snapshot(&self) -> WritebufStats {
        WritebufStats {
            read_in_buf: self.read_in_buf.get(),
            read_in_file: self.read_in_file.get(),
        }
    }
}

impl Default for AtomicWritebufStats {
    fn default() -> AtomicWritebufStats {
        AtomicWritebufStats { read_in_buf: Counter::default(), read_in_file: Counter::default() }
    }
}

/// The shared counters of the background jobs.
pub struct AtomicJobStats {
    pub flush_write_bytes: Counter,
    pub rewrite_bytes: Counter,
    pub compact_write_bytes: Counter,
}

impl AtomicJobStats {
    /// Reads each counter once. Threads may update the counters meanwhile, so
    /// the readings need not belong to one moment.
    pub fn snapshot(&self) -> JobStats {
        JobStats {
            flush_write_bytes: self.flush_write_bytes.get(),
            rewrite_bytes: self.rewrite_bytes.get(),
            compact_write_bytes: self.compact_write_bytes.get(),
        }
    }
}

impl Default for AtomicJobStats {
    fn default() -> AtomicJobStats {
        AtomicJobStats {
            flush_write_bytes: Counter::default(),
            rewrite_bytes: Counter::default(),
            compact_write_bytes: Counter::default(),
        }
    }
}

} // verus!
