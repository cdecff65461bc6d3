//! Counters for the page path.
//!
//! Cheap relaxed atomics; they are diagnostics, not a consistent snapshot.

use std::sync::atomic::{AtomicU64, Ordering};

use vstd::prelude::*;

verus! {

/// Live counters owned by a database.
///
/// Any thread may count at any time, so nothing is proved of what they add up to.
pub struct Metrics {
    pub(crate) cache_hits: AtomicU64,
    pub(crate) cache_misses: AtomicU64,
    pub(crate) coalesced_loads: AtomicU64,
    pub(crate) page_reads: AtomicU64,
    pub(crate) bytes_read: AtomicU64,
    pub(crate) evictions: AtomicU64,
    pub(crate) directory_chunk_reads: AtomicU64,
    pub(crate) decompressed_bytes: AtomicU64,
}

/// Page path counters.
#[derive(Debug, Clone, Copy, PartialEq, Eq, Structural)]
pub struct MetricsSnapshot {
    /// Page lookups served from the cache.
    pub cache_hits: u64,
    /// Page lookups that had to load.
    pub cache_misses: u64,
    /// Lookups that waited on another thread's in-flight load of the same page.
    pub coalesced_loads: u64,
    /// Pages actually read from the source.
    pub page_reads: u64,
    /// Bytes read from the source, including page length probes.
    pub bytes_read: u64,
    /// Pages dropped from the cache by the eviction policy.
    pub evictions: u64,
    /// Page directory chunks read.
    pub directory_chunk_reads: u64,
    /// Bytes produced by page filters while decoding.
    pub decompressed_bytes: u64,
}

/// Whether a counter was made to start at zero.
pub open spec fn from_zero(counter: AtomicU64) -> bool {
    call_ensures(AtomicU64::new, (0u64,), counter)
}

/// Whether a counter was read, and this is what it said.
pub open spec fn reading(counter: &AtomicU64, n: u64) -> bool {
    call_ensures(AtomicU64::load, (counter, Ordering::Relaxed), n)
}

impl Metrics {
    /// Whether every counter was made to start at zero.
    pub closed spec fn fresh(&self) -> bool {
        &&& from_zero(self.cache_hits)
        &&& from_zero(self.cache_misses)
        &&& from_zero(self.coalesced_loads)
        &&& from_zero(self.page_reads)
        &&& from_zero(self.bytes_read)
        &&& from_zero(self.evictions)
        &&& from_zero(self.directory_chunk_reads)
        &&& from_zero(self.decompressed_bytes)
    }

    /// Whether each figure is what its counter said when it was read.
    pub closed spec fn said(&self, s: MetricsSnapshot) -> bool {
        &&& reading(&self.cache_hits, s.cache_hits)
        &&& reading(&self.cache_misses, s.cache_misses)
        &&& reading(&self.coalesced_loads, s.coalesced_loads)
        &&& reading(&self.page_reads, s.page_reads)
        &&& reading(&self.bytes_read, s.bytes_read)
        &&& reading(&self.evictions, s.evictions)
        &&& reading(&self.directory_chunk_reads, s.directory_chunk_reads)
        &&& reading(&self.decompressed_bytes, s.decompressed_bytes)
    }

    /// Counters that have counted nothing.
    pub fn new() -> (r: Metrics)
        ensures
            r.fresh(),
    {
        Metrics {
            cache_hits: AtomicU64::new(0),
            cache_misses: AtomicU64::new(0),
            coalesced_loads: AtomicU64::new(0),
            page_reads: AtomicU64::new(0),
            bytes_read: AtomicU64::new(0),
            evictions: AtomicU64::new(0),
            directory_chunk_reads: AtomicU64::new(0),
            decompressed_bytes: AtomicU64::new(0),
        }
    }

    /// What the counters read.
    pub fn snapshot(&self) -> (r: MetricsSnapshot)
        ensures
            self.said(r),
    {
        MetricsSnapshot {
            cache_hits: self.cache_hits.load(Ordering::Relaxed),
            cache_misses: self.cache_misses.load(Ordering::Relaxed),
            coalesced_loads: self.coalesced_loads.load(Ordering::Relaxed),
            page_reads: self.page_reads.load(Ordering::Relaxed),
            bytes_read: self.bytes_read.load(Ordering::Relaxed),
            evictions: self.evictions.load(Ordering::Relaxed),
            directory_chunk_reads: self.directory_chunk_reads.load(Ordering::Relaxed),
            decompressed_bytes: self.decompressed_bytes.load(Ordering::Relaxed),
        }
    }

    /// Whether a counter was put on by this much.
    pub closed spec fn put_on(counter: &AtomicU64, by: u64) -> bool {
        exists|was: u64| #[trigger]
            call_ensures(AtomicU64::fetch_add, (counter, by, Ordering::Relaxed), was)
    }

    /// Whether a page was counted as found in the cache.
    pub closed spec fn noted_hit(&self) -> bool {
        Metrics::put_on(&self.cache_hits, 1)
    }

    /// Whether a page was counted as not found in the cache, and loaded.
    pub closed spec fn noted_miss(&self) -> bool {
        Metrics::put_on(&self.cache_misses, 1)
    }

    /// Whether a page read of this many bytes was counted.
    pub closed spec fn noted_read(&self, bytes: u64) -> bool {
        Metrics::put_on(&self.page_reads, 1) && Metrics::put_on(&self.bytes_read, bytes)
    }

    /// Whether a read of a part of the directory of this many bytes was counted.
    pub closed spec fn noted_chunk(&self, bytes: u64) -> bool {
        Metrics::put_on(&self.directory_chunk_reads, 1) && Metrics::put_on(&self.bytes_read, bytes)
    }

    /// Whether a read of the length of a page was counted.
    pub closed spec fn noted_probe(&self, bytes: u64) -> bool {
        Metrics::put_on(&self.bytes_read, bytes)
    }

    /// Whether a wait for another thread's load was counted.
    pub closed spec fn noted_wait(&self) -> bool {
        Metrics::put_on(&self.coalesced_loads, 1)
    }

    /// Whether pages dropped from the cache were counted.
    pub closed spec fn noted_evictions(&self, pages: u64) -> bool {
        Metrics::put_on(&self.evictions, pages)
    }

    /// Whether bytes that page filters gave were counted.
    pub closed spec fn noted_decoded(&self, bytes: u64) -> bool {
        Metrics::put_on(&self.decompressed_bytes, bytes)
    }

    /// Counts.
    #[inline]
    pub(crate) fn bump(counter: &AtomicU64, by: u64)
        ensures
            Metrics::put_on(counter, by),
    {
        let was = counter.fetch_add(by, Ordering::Relaxed);
        proof {
            assert(call_ensures(AtomicU64::fetch_add, (counter, by, Ordering::Relaxed), was));
        }
    }

    /// Counts a page found in the cache.
    pub(crate) fn note_hit(&self)
        ensures
            self.noted_hit(),
    {
        Metrics::bump(&self.cache_hits, 1);
    }

    /// Counts a page not found in the cache.
    pub(crate) fn note_miss(&self)
        ensures
            self.noted_miss(),
    {
        Metrics::bump(&self.cache_misses, 1);
    }

    /// Counts a page read.
    pub(crate) fn note_read(&self, bytes: u64)
        ensures
            self.noted_read(bytes),
    {
        Metrics::bump(&self.page_reads, 1);
        Metrics::bump(&self.bytes_read, bytes);
    }

    /// Counts a read of a part of the directory.
    pub(crate) fn note_chunk(&self, bytes: u64)
        ensures
            self.noted_chunk(bytes),
    {
        Metrics::bump(&self.directory_chunk_reads, 1);
        Metrics::bump(&self.bytes_read, bytes);
    }

    /// Counts a read of the length of a page.
    pub(crate) fn note_probe(&self, bytes: u64)
        ensures
            self.noted_probe(bytes),
    {
        Metrics::bump(&self.bytes_read, bytes);
    }

    /// Counts a wait for another thread's load.
    pub(crate) fn note_wait(&self)
        ensures
            self.noted_wait(),
    {
        Metrics::bump(&self.coalesced_loads, 1);
    }

    /// Counts pages dropped from the cache.
    pub(crate) fn note_evictions(&self, pages: u64)
        ensures
            self.noted_evictions(pages),
    {
        Metrics::bump(&self.evictions, pages);
    }

    /// Counts bytes that page filters gave.
    pub(crate) fn note_decoded(&self, bytes: u64)
        ensures
            self.noted_decoded(bytes),
    {
        Metrics::bump(&self.decompressed_bytes, bytes);
    }
}

/// Memory accounting of a database.
#[derive(Debug, Clone, Copy, PartialEq, Eq, Structural)]
pub struct MemoryReport {
    /// Configured budget in bytes.
    pub budget_limit: u64,
    /// Bytes charged right now: live page buffers, directory chunks and scratch.
    pub charged: u64,
    /// Highest charge seen so far.
    pub peak_charged: u64,
    /// Bytes the page cache is currently retaining.
    pub cache_resident: u64,
    /// Soft limit the cache evicts against.
    pub cache_capacity: u64,
}

impl Metrics {
    /// What each figure of a snapshot is, and which counter each event puts on.
    pub(crate) proof fn lemma_counters(&self, s: MetricsSnapshot, n: u64)
        ensures
            self.said(s) ==> reading(&self.cache_hits, s.cache_hits) && reading(
                &self.cache_misses,
                s.cache_misses,
            ) && reading(&self.coalesced_loads, s.coalesced_loads) && reading(
                &self.page_reads,
                s.page_reads,
            ) && reading(&self.bytes_read, s.bytes_read) && reading(
                &self.evictions,
                s.evictions,
            ) && reading(&self.directory_chunk_reads, s.directory_chunk_reads) && reading(
                &self.decompressed_bytes,
                s.decompressed_bytes,
            ),
            self.noted_hit() ==> Metrics::put_on(&self.cache_hits, 1),
            self.noted_miss() ==> Metrics::put_on(&self.cache_misses, 1),
            self.noted_wait() ==> Metrics::put_on(&self.coalesced_loads, 1),
            self.noted_read(n) ==> Metrics::put_on(&self.page_reads, 1) && Metrics::put_on(
                &self.bytes_read,
                n,
            ),
            self.noted_chunk(n) ==> Metrics::put_on(&self.directory_chunk_reads, 1)
                && Metrics::put_on(&self.bytes_read, n),
            self.noted_probe(n) ==> Metrics::put_on(&self.bytes_read, n),
            self.noted_evictions(n) ==> Metrics::put_on(&self.evictions, n),
            self.noted_decoded(n) ==> Metrics::put_on(&self.decompressed_bytes, n),
    {
    }
}

} // verus!
