use photondb::counter::{AtomicJobStats, AtomicWritebufStats, Counter};
use photondb::stats::{CacheStats, JobStats, StoreStats, WritebufStats};

fn cache(a: u64, b: u64, c: u64, d: u64, e: u64) -> CacheStats {
    CacheStats { lookup_hit: a, lookup_miss: b, insert: c, active_evict: d, passive_evict: e }
}

#[test]
fn cache_stats_sub_is_pointwise() {
    let now = cache(10, 20, 30, 40, 50);
    let then = cache(1, 2, 3, 4, 5);
    assert_eq!(now.sub(&then), cache(9, 18, 27, 36, 45));
}

#[test]
fn cache_stats_add_is_pointwise() {
    let a = cache(1, 2, 3, 4, 5);
    let b = cache(10, 20, 30, 40, 50);
    assert_eq!(a.add(&b), cache(11, 22, 33, 44, 55));
}

#[test]
fn cache_stats_sub_wraps_around() {
    let now = cache(3, 0, 0, 0, 0);
    let then = cache(u64::MAX - 1, 1, 0, 0, 0);
    let interval = now.sub(&then);
    assert_eq!(interval.lookup_hit, 5);
    assert_eq!(interval.lookup_miss, u64::MAX);
}

#[test]
fn cache_stats_add_wraps_around() {
    let a = cache(u64::MAX, 0, 0, 0, 0);
    let b = cache(2, 0, 0, 0, 0);
    assert_eq!(a.add(&b).lookup_hit, 1);
}

#[test]
fn sub_then_add_restores_the_snapshot() {
    let values = [0u64, 1, 2, 7, u64::MAX / 2, u64::MAX - 1, u64::MAX];
    for &a in values.iter() {
        for &b in values.iter() {
            let x = cache(a, b, a ^ b, a.wrapping_mul(3), b.wrapping_add(11));
            let y = cache(b, a, b, a, 5);
            assert_eq!(x.sub(&y).add(&y), x);
        }
    }
}

#[test]
fn cache_stats_lookups_do_not_overflow() {
    let s = cache(u64::MAX, u64::MAX, 0, 0, 0);
    assert_eq!(s.lookups(), 2 * (u64::MAX as u128));
    assert_eq!(cache(3, 4, 9, 9, 9).lookups(), 7);
    assert_eq!(CacheStats::default().lookups(), 0);
}

#[test]
fn writebuf_stats_sub_wraps_around() {
    let now = WritebufStats { read_in_buf: 5, read_in_file: 0 };
    let then = WritebufStats { read_in_buf: 2, read_in_file: 1 };
    assert_eq!(now.sub(&then), WritebufStats { read_in_buf: 3, read_in_file: u64::MAX });
}

#[test]
fn writebuf_stats_reads() {
    let s = WritebufStats { read_in_buf: u64::MAX, read_in_file: 1 };
    assert_eq!(s.reads(), 1u128 << 64);
}

#[test]
fn job_stats_sub_subtracts_every_field() {
    let now = JobStats { flush_write_bytes: 100, rewrite_bytes: 50, compact_write_bytes: 30 };
    let then = JobStats { flush_write_bytes: 40, rewrite_bytes: 20, compact_write_bytes: 10 };
    assert_eq!(
        now.sub(&then),
        JobStats { flush_write_bytes: 60, rewrite_bytes: 30, compact_write_bytes: 20 }
    );
}

#[test]
fn job_stats_sub_wraps_around() {
    let now = JobStats { flush_write_bytes: 0, rewrite_bytes: 1, compact_write_bytes: 2 };
    let then = JobStats { flush_write_bytes: 1, rewrite_bytes: 2, compact_write_bytes: 3 };
    let d = now.sub(&then);
    assert_eq!(d.flush_write_bytes, u64::MAX);
    assert_eq!(d.rewrite_bytes, u64::MAX);
    assert_eq!(d.compact_write_bytes, u64::MAX);
}

#[test]
fn job_stats_amplified_bytes() {
    let s = JobStats { flush_write_bytes: 10, rewrite_bytes: u64::MAX, compact_write_bytes: 5 };
    assert_eq!(s.amplified_bytes(), u64::MAX as u128 + 5);
}

#[test]
fn store_stats_sub_is_pointwise() {
    let now = StoreStats {
        page_cache: cache(10, 10, 10, 10, 10),
        file_reader_cache: cache(5, 6, 7, 8, 9),
        writebuf: WritebufStats { read_in_buf: 8, read_in_file: 4 },
        jobs: JobStats { flush_write_bytes: 9, rewrite_bytes: 8, compact_write_bytes: 7 },
    };
    let then = StoreStats {
        page_cache: cache(1, 2, 3, 4, 5),
        file_reader_cache: cache(5, 5, 5, 5, 5),
        writebuf: WritebufStats { read_in_buf: 3, read_in_file: 4 },
        jobs: JobStats { flush_write_bytes: 1, rewrite_bytes: 2, compact_write_bytes: 3 },
    };
    let d = now.sub(&then);
    assert_eq!(d.page_cache, cache(9, 8, 7, 6, 5));
    assert_eq!(d.file_reader_cache, cache(0, 1, 2, 3, 4));
    assert_eq!(d.writebuf, WritebufStats { read_in_buf: 5, read_in_file: 0 });
    assert_eq!(d.jobs, JobStats { flush_write_bytes: 8, rewrite_bytes: 6, compact_write_bytes: 4 });
}

#[test]
fn store_stats_sub_of_itself_is_zero() {
    let s = StoreStats {
        page_cache: cache(1, 2, 3, 4, 5),
        file_reader_cache: cache(6, 7, 8, 9, 10),
        writebuf: WritebufStats { read_in_buf: 11, read_in_file: 12 },
        jobs: JobStats { flush_write_bytes: 13, rewrite_bytes: 14, compact_write_bytes: 15 },
    };
    assert_eq!(s.sub(&s), StoreStats::default());
}

#[test]
fn defaults_are_zero() {
    assert_eq!(CacheStats::default(), cache(0, 0, 0, 0, 0));
    assert_eq!(WritebufStats::default(), WritebufStats { read_in_buf: 0, read_in_file: 0 });
    assert_eq!(
        JobStats::default(),
        JobStats { flush_write_bytes: 0, rewrite_bytes: 0, compact_write_bytes: 0 }
    );
}

#[test]
fn counter_adds_and_reads() {
    let c = Counter::new(5);
    assert_eq!(c.get(), 5);
    assert_eq!(c.add(10), 5);
    assert_eq!(c.get(), 15);
    assert_eq!(c.inc(), 15);
    assert_eq!(c.get(), 16);
    assert_eq!(Counter::default().get(), 0);
}

#[test]
fn counter_wraps_around() {
    let c = Counter::new(u64::MAX);
    c.add(2);
    assert_eq!(c.get(), 1);
}

#[test]
fn atomic_writebuf_stats_snapshot() {
    let s = AtomicWritebufStats::default();
    s.read_in_buf.add(3);
    s.read_in_file.add(4);
    assert_eq!(s.snapshot(), WritebufStats { read_in_buf: 3, read_in_file: 4 });
}

#[test]
fn atomic_job_stats_snapshot() {
    let s = AtomicJobStats::default();
    s.flush_write_bytes.add(1);
    s.rewrite_bytes.add(2);
    s.compact_write_bytes.add(3);
    let before = s.snapshot();
    s.compact_write_bytes.add(10);
    let after = s.snapshot();
    assert_eq!(
        after.sub(&before),
        JobStats { flush_write_bytes: 0, rewrite_bytes: 0, compact_write_bytes: 10 }
    );
}
