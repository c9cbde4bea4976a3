use vstd::prelude::*;
use std::sync::atomic::AtomicU64;
use std::sync::atomic::Ordering;
use crate::histogram::{bucket_of, in_bucket, HistogramSnapshot, NUM_BUCKETS};

verus! {

// The counters below are shared between threads and updated without locks;
// what a load returns depends on the other threads, so no contract here
// speaks of the counted values. What is proved is that every recorded
// latency lands in an existing bucket, and the arithmetic of the snapshots
// (see `histogram`).

/// Lock-free latency histogram with power-of-two buckets: bucket `k`
/// counts the measurements whose highest set bit is bit `k - 1`.
pub struct LatencyHistogram {
    buckets: Vec<AtomicU64>,
}

impl LatencyHistogram {
    #[verifier::type_invariant]
    spec fn has_all_buckets(&self) -> bool {
        self.buckets@.len() == NUM_BUCKETS
    }

    /// An empty histogram.
    pub fn new() -> Self {
        let mut buckets: Vec<AtomicU64> = Vec::new();
        let mut i: usize = 0;
        while i < NUM_BUCKETS
            invariant
                i <= NUM_BUCKETS,
                buckets@.len() == i,
            decreases NUM_BUCKETS - i,
        {
            buckets.push(AtomicU64::new(0));
            i = i + 1;
        }
        LatencyHistogram { buckets }
    }

    /// The bucket of a latency of `nanos` nanoseconds: 0 for 0, otherwise
    /// the position of its highest set bit plus one, capped at the last
    /// bucket.
    pub fn bucket_index(nanos: u64) -> (r: usize)
        ensures
            in_bucket(nanos, r as int),
    {
        bucket_of(nanos)
    }

    /// Counts one measurement of `nanos` nanoseconds in its bucket.
    pub fn record(&self, nanos: u64) {
        proof {
            use_type_invariant(self);
        }
        let idx = bucket_of(nanos);
        self.buckets[idx].fetch_add(1, Ordering::Relaxed);
    }

    /// A copy of the bucket counts, each read on its own.
    pub fn snapshot(&self) -> HistogramSnapshot {
        proof {
            use_type_invariant(self);
        }
        let mut counts: [u64; 64] = [0u64; 64];
        let mut i: usize = 0;
        while i < NUM_BUCKETS
            invariant
                i <= NUM_BUCKETS,
                self.buckets@.len() == NUM_BUCKETS,
                counts@.len() == NUM_BUCKETS,
            decreases NUM_BUCKETS - i,
        {
            counts[i] = self.buckets[i].load(Ordering::Relaxed);
            i = i + 1;
        }
        HistogramSnapshot::from_counts(counts)
    }
}

/// Central collection point for the store's metrics, meant to be shared
/// between threads: every counter is an `AtomicU64`.
pub struct Metrics {
    /// Events written to the log since start.
    pub events_written: AtomicU64,
    /// Events read (replay and queries).
    pub events_read: AtomicU64,
    /// Bytes written to disk, index excluded.
    pub bytes_written: AtomicU64,
    /// Segments sealed.
    pub segments_sealed: AtomicU64,
    /// Latency of `write_event` calls, in nanoseconds.
    pub write_latency: LatencyHistogram,
    /// Latency of range reads and replays, in nanoseconds.
    pub read_latency: LatencyHistogram,
}

impl Metrics {
    /// Metrics with every counter at zero.
    pub fn new() -> Self {
        Metrics {
            events_written: AtomicU64::new(0),
            events_read: AtomicU64::new(0),
            bytes_written: AtomicU64::new(0),
            segments_sealed: AtomicU64::new(0),
            write_latency: LatencyHistogram::new(),
            read_latency: LatencyHistogram::new(),
        }
    }

    /// A copy of the current values, each counter read on its own: the
    /// snapshot is consistent per value, not across values.
    pub fn snapshot(&self) -> MetricsSnapshot {
        MetricsSnapshot {
            events_written: self.events_written.load(Ordering::Relaxed),
            events_read: self.events_read.load(Ordering::Relaxed),
            bytes_written: self.bytes_written.load(Ordering::Relaxed),
            segments_sealed: self.segments_sealed.load(Ordering::Relaxed),
            write_latency: self.write_latency.snapshot(),
            read_latency: self.read_latency.snapshot(),
        }
    }
}

/// Immutable view of the metrics at one moment.
#[derive(Debug, Clone)]
pub struct MetricsSnapshot {
    pub events_written: u64,
    pub events_read: u64,
    pub bytes_written: u64,
    pub segments_sealed: u64,
    pub write_latency: HistogramSnapshot,
    pub read_latency: HistogramSnapshot,
}

} // verus!
