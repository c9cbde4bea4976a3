use std::sync::atomic::Ordering;

use ashta::histogram::{HistogramSnapshot, NUM_BUCKETS};
use ashta::metrics::{LatencyHistogram, Metrics};

#[test]
fn bucket_index_zero() {
    assert_eq!(LatencyHistogram::bucket_index(0), 0);
}

#[test]
fn bucket_index_powers_of_two() {
    assert_eq!(LatencyHistogram::bucket_index(1), 1);
    assert_eq!(LatencyHistogram::bucket_index(2), 2);
    assert_eq!(LatencyHistogram::bucket_index(3), 2);
    assert_eq!(LatencyHistogram::bucket_index(4), 3);
    assert_eq!(LatencyHistogram::bucket_index(1_000), 10);
    assert_eq!(LatencyHistogram::bucket_index(1_000_000), 20);
}

#[test]
fn bucket_index_never_out_of_bounds() {
    assert!(LatencyHistogram::bucket_index(u64::MAX) < NUM_BUCKETS);
}

#[test]
fn bucket_index_top_buckets() {
    assert_eq!(LatencyHistogram::bucket_index((1u64 << 62) - 1), 62);
    assert_eq!(LatencyHistogram::bucket_index(1u64 << 62), 63);
    assert_eq!(LatencyHistogram::bucket_index(u64::MAX), 63);
    assert_eq!(LatencyHistogram::bucket_index(1023), 10);
    assert_eq!(LatencyHistogram::bucket_index(1024), 11);
}

#[test]
fn record_increments_correct_bucket() {
    let h = LatencyHistogram::new();
    h.record(1_000);
    h.record(1_000);
    h.record(500);

    let snap = h.snapshot();
    assert_eq!(snap.counts()[10], 2);
    assert_eq!(snap.counts()[9], 1);
    assert_eq!(snap.count(), 3);
}

#[test]
fn empty_histogram_count_is_zero() {
    let h = LatencyHistogram::new();
    let snap = h.snapshot();
    assert_eq!(snap.count(), 0);
}

#[test]
fn percentile_returns_zero_on_empty() {
    let h = LatencyHistogram::new();
    let snap = h.snapshot();
    assert_eq!(snap.p50(), 0);
    assert_eq!(snap.p99(), 0);
}

#[test]
fn percentile_single_bucket() {
    let h = LatencyHistogram::new();
    for _ in 0..100 {
        h.record(1_000);
    }
    let snap = h.snapshot();
    assert_eq!(snap.p50(), 1024);
    assert_eq!(snap.p99(), 1024);
}

#[test]
fn percentile_two_buckets() {
    let h = LatencyHistogram::new();
    for _ in 0..90 {
        h.record(1_000);
    }
    for _ in 0..10 {
        h.record(1_000_000);
    }
    let snap = h.snapshot();
    assert_eq!(snap.p50(), 1024);
    assert_eq!(snap.p90(), 1024);
    assert_eq!(snap.p99(), 1 << 20);
    assert_eq!(snap.percentile_ratio(1, 1), 1 << 20);
}

#[test]
fn percentiles_are_ordered() {
    let mut counts = [0u64; 64];
    counts[0] = 3;
    counts[5] = 40;
    counts[12] = 50;
    counts[40] = 7;
    let snap = HistogramSnapshot::from_counts(counts);
    assert_eq!(snap.count(), 100);
    assert_eq!(snap.percentile_ratio(0, 1), 1);
    assert_eq!(snap.percentile_ratio(3, 100), 1);
    assert_eq!(snap.percentile_ratio(4, 100), 32);
    assert_eq!(snap.p50(), 4096);
    assert_eq!(snap.p90(), 4096);
    assert_eq!(snap.p99(), 1 << 40);
    assert!(snap.p50() <= snap.p90() && snap.p90() <= snap.p99());
}

#[test]
fn percentile_above_one_is_unreached() {
    let mut counts = [0u64; 64];
    counts[3] = 10;
    let snap = HistogramSnapshot::from_counts(counts);
    assert_eq!(snap.percentile_ratio(11, 10), u64::MAX);
    assert_eq!(snap.upper_bound_reaching(10), 8);
    assert_eq!(snap.upper_bound_reaching(11), u64::MAX);
}

#[test]
fn metrics_counters_are_independent() {
    let m = Metrics::new();
    m.events_written.fetch_add(1_000, Ordering::Relaxed);
    m.bytes_written.fetch_add(40_000, Ordering::Relaxed);
    m.segments_sealed.fetch_add(1, Ordering::Relaxed);

    let snap = m.snapshot();
    assert_eq!(snap.events_written, 1_000);
    assert_eq!(snap.events_read, 0);
    assert_eq!(snap.bytes_written, 40_000);
    assert_eq!(snap.segments_sealed, 1);
}

#[test]
fn metrics_latencies_are_separate() {
    let m = Metrics::new();
    m.write_latency.record(1_500);
    m.write_latency.record(0);
    m.read_latency.record(3);
    let snap = m.snapshot();
    assert_eq!(snap.write_latency.count(), 2);
    assert_eq!(snap.write_latency.counts()[11], 1);
    assert_eq!(snap.write_latency.counts()[0], 1);
    assert_eq!(snap.read_latency.count(), 1);
    assert_eq!(snap.read_latency.counts()[2], 1);
}

#[test]
fn percentile_is_the_bucket_bound_of_the_ranked_value() {
    // Values 3, 5, 40, 700, 9000: the median (rank 3) is 40, in bucket 6
    // ([32, 64)), so p50 is 64; p90 asks for rank 5, the value 9000 in
    // bucket 14 ([8192, 16384)).
    let h = LatencyHistogram::new();
    for v in [700u64, 3, 9000, 40, 5] {
        h.record(v);
    }
    let snap = h.snapshot();
    assert_eq!(snap.count(), 5);
    assert_eq!(snap.p50(), 64);
    assert!(40 < snap.p50() && snap.p50() <= 80);
    assert_eq!(snap.p90(), 16384);
    assert_eq!(snap.percentile_ratio(1, 5), 4);
}
