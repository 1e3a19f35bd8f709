//! Snapshots of the page store's counters, with interval arithmetic that stays
//! meaningful when a counter wraps around.

use vstd::prelude::*;

verus! {

/// The difference of two counter readings, modulo 2^64.
pub open spec fn wrapping_diff(a: u64, b: u64) -> u64 {
    ((a - b) % 0x1_0000_0000_0000_0000) as u64
}

/// The sum of two counter readings, modulo 2^64.
pub open spec fn wrapping_sum(a: u64, b: u64) -> u64 {
    ((a + b) % 0x1_0000_0000_0000_0000) as u64
}

/// Adding back what was subtracted restores a counter reading, whatever wrapped.
pub proof fn lemma_wrapping_diff_sum(a: u64, b: u64)
    ensures
        wrapping_sum(wrapping_diff(a, b), b) == a,
{
}

/// Statistics of a cache.
#[derive(Clone, Copy, Debug, PartialEq, Eq, Structural)]
pub struct CacheStats {
    pub lookup_hit: u64,
    pub lookup_miss: u64,
    pub insert: u64,
    pub active_evict: u64,
    pub passive_evict: u64,
}

impl CacheStats {
    /// The snapshot of counters that were never touched.
    pub open spec fn zero() -> CacheStats {
        CacheStats { lookup_hit: 0, lookup_miss: 0, insert: 0, active_evict: 0, passive_evict: 0 }
    }

    /// The pointwise difference of two snapshots, each field modulo 2^64.
    pub open spec fn spec_sub(self, o: CacheStats) -> CacheStats {
        CacheStats {
            lookup_hit: wrapping_diff(self.lookup_hit, o.lookup_hit),
            lookup_miss: wrapping_diff(self.lookup_miss, o.lookup_miss),
            insert: wrapping_diff(self.insert, o.insert),
            active_evict: wrapping_diff(self.active_evict, o.active_evict),
            passive_evict: wrapping_diff(self.passive_evict, o.passive_evict),
        }
    }

    /// The pointwise sum of two snapshots, each field modulo 2^64.
    pub open spec fn spec_add(self, o: CacheStats) -> CacheStats {
        CacheStats {
            lookup_hit: wrapping_sum(self.lookup_hit, o.lookup_hit),
            lookup_miss: wrapping_sum(self.lookup_miss, o.lookup_miss),
            insert: wrapping_sum(self.insert, o.insert),
            active_evict: wrapping_sum(self.active_evict, o.active_evict),
            passive_evict: wrapping_sum(self.passive_evict, o.passive_evict),
        }
    }

    /// Subtracts an earlier snapshot, which gives the counts of the interval.
    pub fn sub(&self, o: &CacheStats) -> (r: CacheStats)
        ensures
            r == self.spec_sub(*o),
    {
        CacheStats {
            lookup_hit: self.lookup_hit.wrapping_sub(o.lookup_hit),
            lookup_miss: self.lookup_miss.wrapping_sub(o.lookup_miss),
            insert: self.insert.wrapping_sub(o.insert),
            active_evict: self.active_evict.wrapping_sub(o.active_evict),
            passive_evict: self.passive_evict.wrapping_sub(o.passive_evict),
        }
    }

    /// Adds another snapshot field by field.
    pub fn add(&self, o: &CacheStats) -> (r: CacheStats)
        ensures
            r == self.spec_add(*o),
    {
        CacheStats {
            lookup_hit: self.lookup_hit.wrapping_add(o.lookup_hit),
            lookup_miss: self.lookup_miss.wrapping_add(o.lookup_miss),
            insert: self.insert.wrapping_add(o.insert),
            active_evict: self.active_evict.wrapping_add(o.active_evict),
            passive_evict: self.passive_evict.wrapping_add(o.passive_evict),
        }
    }

    /// The number of lookups, hits and misses together: the denominator of the
    /// hit rate. It is zero while nothing was looked up.
    pub fn lookups(&self) -> (r: u128)
        ensures
            r == self.lookup_hit + self.lookup_miss,
    {
        self.lookup_hit as u128 + self.lookup_miss as u128
    }

    /// Interval arithmetic is exact modulo 2^64: an interval added to the
    /// snapshot it was measured from gives back the later snapshot, field by
    /// field, for any two snapshots.
    pub proof fn lemma_sub_then_add(a: CacheStats, b: CacheStats)
        ensures
            a.spec_sub(b).spec_add(b) == a,
    {
        lemma_wrapping_diff_sum(a.lookup_hit, b.lookup_hit);
        lemma_wrapping_diff_sum(a.lookup_miss, b.lookup_miss);
        lemma_wrapping_diff_sum(a.insert, b.insert);
        lemma_wrapping_diff_sum(a.active_evict, b.active_evict);
        lemma_wrapping_diff_sum(a.passive_evict, b.passive_evict);
    }
}

impl Default for CacheStats {
    fn default() -> (r: CacheStats)
        ensures
            r == CacheStats::zero(),
    {
        CacheStats { lookup_hit: 0, lookup_miss: 0, insert: 0, active_evict: 0, passive_evict: 0 }
    }
}

/// Statistics of the write buffer.
#[derive(Clone, Copy, Debug, PartialEq, Eq, Structural)]
pub struct WritebufStats {
    pub read_in_buf: u64,
    pub read_in_file: u64,
}

impl WritebufStats {
    /// The snapshot of counters that were never touched.
    pub open spec fn zero() -> WritebufStats {
        WritebufStats { read_in_buf: 0, read_in_file: 0 }
    }

    /// The pointwise difference of two snapshots, each field modulo 2^64.
    pub open spec fn spec_sub(self, o: WritebufStats) -> WritebufStats {
        WritebufStats {
            read_in_buf: wrapping_diff(self.read_in_buf, o.read_in_buf),
            read_in_file: wrapping_diff(self.read_in_file, o.read_in_file),
        }
    }

    /// Subtracts an earlier snapshot, which gives the counts of the interval.
    pub fn sub(&self, o: &WritebufStats) -> (r: WritebufStats)
        ensures
            r == self.spec_sub(*o),
    {
        WritebufStats {
            read_in_buf: self.read_in_buf.wrapping_sub(o.read_in_buf),
            read_in_file: self.read_in_file.wrapping_sub(o.read_in_file),
        }
    }

    /// The number of reads, from the buffer and from files together: the
    /// denominator of the hit rate.
    pub fn reads(&self) -> (r: u128)
        ensures
            r == self.read_in_buf + self.read_in_file,
    {
        self.read_in_buf as u128 + self.read_in_file as u128
    }
}

impl Default for WritebufStats {
    fn default() -> (r: WritebufStats)
        ensures
            r == WritebufStats::zero(),
    {
        WritebufStats { read_in_buf: 0, read_in_file: 0 }
    }
}

/// Statistics of the background jobs.
#[derive(Clone, Copy, Debug, PartialEq, Eq, Structural)]
pub struct JobStats {
    /// The total bytes written during flush.
    pub flush_write_bytes: u64,
    /// The total bytes rewritten.
    pub rewrite_bytes: u64,
    /// The total bytes written during compaction.
    pub compact_write_bytes: u64,
}

impl JobStats {
    /// The snapshot of counters that were never touched.
    pub open spec fn zero() -> JobStats {
        JobStats { flush_write_bytes: 0, rewrite_bytes: 0, compact_write_bytes: 0 }
    }

    /// The pointwise difference of two snapshots, each field modulo 2^64.
    pub open spec fn spec_sub(self, o: JobStats) -> JobStats {
        JobStats {
            flush_write_bytes: wrapping_diff(self.flush_write_bytes, o.flush_write_bytes),
            rewrite_bytes: wrapping_diff(self.rewrite_bytes, o.rewrite_bytes),
            compact_write_bytes: wrapping_diff(self.compact_write_bytes, o.compact_write_bytes),
        }
    }

    /// Subtracts an earlier snapshot, which gives the counts of the interval.
    /// Every field is subtracted, the bytes written during compaction too.
    pub fn sub(&self, o: &Self) -> (r: Self)
        ensures
            r == self.spec_sub(*o),
    {
        JobStats {
            flush_write_bytes: self.flush_write_bytes.wrapping_sub(o.flush_write_bytes),
            rewrite_bytes: self.rewrite_bytes.wrapping_sub(o.rewrite_bytes),
            compact_write_bytes: self.compact_write_bytes.wrapping_sub(o.compact_write_bytes),
        }
    }

    /// The bytes that rewriting and compaction wrote together: the numerator of
    /// the write amplification, whose denominator is `flush_write_bytes`.
    pub fn amplified_bytes(&self) -> (r: u128)
        ensures
            r == self.rewrite_bytes + self.compact_write_bytes,
    {
        self.rewrite_bytes as u128 + self.compact_write_bytes as u128
    }
}

impl Default for JobStats {
    fn default() -> (r: JobStats)
        ensures
            r == JobStats::zero(),
    {
        JobStats { flush_write_bytes: 0, rewrite_bytes: 0, compact_write_bytes: 0 }
    }
}

/// Statistics of the page store.
#[derive(Clone, Copy, Debug, PartialEq, Eq, Structural)]
pub struct StoreStats {
    /// Statistics of the page cache.
    pub page_cache: CacheStats,
    /// Statistics of the file reader cache.
    pub file_reader_cache: CacheStats,
    /// Statistics of the write buffer.
    pub writebuf: WritebufStats,
    /// Statistics of the jobs.
    pub jobs: JobStats,
}

impl StoreStats {
    /// The snapshot of counters that were never touched.
    pub open spec fn zero() -> StoreStats {
        StoreStats {
            page_cache: CacheStats::zero(),
            file_reader_cache: CacheStats::zero(),
            writebuf: WritebufStats::zero(),
            jobs: JobStats::zero(),
        }
    }

    /// The pointwise difference of two snapshots, each counter modulo 2^64.
    pub open spec fn spec_sub(self, o: StoreStats) -> StoreStats {
        StoreStats {
            page_cache: self.page_cache.spec_sub(o.page_cache),
            file_reader_cache: self.file_reader_cache.spec_sub(o.file_reader_cache),
            writebuf: self.writebuf.spec_sub(o.writebuf),
            jobs: self.jobs.spec_sub(o.jobs),
        }
    }

    /// Subtracts an earlier snapshot, which gives the statistics of the interval.
    pub fn sub(&self, o: &StoreStats) -> (r: StoreStats)
        ensures
            r == self.spec_sub(*o),
    {
        StoreStats {
            page_cache: self.page_cache.sub(&o.page_cache),
            file_reader_cache: self.file_reader_cache.sub(&o.file_reader_cache),
            writebuf: self.writebuf.sub(&o.writebuf),
            jobs: self.jobs.sub(&o.jobs),
        }
    }
}

impl Default for StoreStats {
    fn default() -> (r: StoreStats)
        ensures
            r == StoreStats::zero(),
    {
        StoreStats {
            page_cache: CacheStats::default(),
            file_reader_cache: CacheStats::default(),
            writebuf: WritebufStats::default(),
            jobs: JobStats::default(),
        }
    }
}

} // verus!
