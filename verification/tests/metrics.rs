use sum100::metrics::{Metrics, LATENCY_BUCKET_BOUNDS_MS};
use sum100::types::Ratio;

/// A quantile of the latency, as a decimal.
fn percentile(metrics: &Metrics, quantile: f64) -> f64 {
    let hundredths = Ratio {
        numer: (quantile * 100.0).round() as u64,
        denom: 100,
    };
    metrics.latency_percentile_ms(hundredths) as f64
}

/// Each quantile names the bucket its own sample landed in, reporting that
/// bucket's ceiling. A fast feed with a slow tail is the case that matters:
/// the median must stay fast while p99 shows the tail, because a single
/// figure averaging the two would hide exactly the latency worth seeing.
#[test]
fn percentiles_name_the_bucket_the_quantile_lands_in() {
    let mut metrics = Metrics::default();
    for (count, latency) in [(90, 3), (5, 40), (5, 400)] {
        for _ in 0..count {
            metrics.observe_latency(latency, 0);
        }
    }
    assert_eq!(metrics.latency_samples(), 100);
    assert_eq!(percentile(&metrics, 0.50), 5.0);
    assert_eq!(percentile(&metrics, 0.95), 50.0);
    assert_eq!(percentile(&metrics, 0.99), 500.0);
}

/// The tail bucket is unbounded above, so a quantile inside it reports the
/// last finite bound. Understating is the only finite option; it must never
/// report zero, which would read as a perfectly fast feed.
#[test]
fn the_overflow_bucket_reports_the_last_finite_bound() {
    let mut metrics = Metrics::default();
    metrics.observe_latency(9_000, 0);
    assert_eq!(metrics.latency_buckets[6], 1);
    assert_eq!(percentile(&metrics, 0.5), 500.0);
}

/// Nothing measured is zero, and it must not be confused with a real
/// sub-millisecond reading: the sample count is what tells them apart.
#[test]
fn no_samples_is_zero_and_says_so_in_the_sample_count() {
    let metrics = Metrics::default();
    assert_eq!(metrics.latency_samples(), 0);
    assert_eq!(percentile(&metrics, 0.5), 0.0);

    let mut fast = Metrics::default();
    fast.observe_latency(1, 0);
    assert_eq!(fast.latency_samples(), 1);
    assert_eq!(percentile(&fast, 0.5), 1.0);
}

/// A venue timestamp ahead of local receipt is clock skew, not negative
/// latency, and must stay out of the histogram entirely.
#[test]
fn clock_skew_is_counted_separately_and_never_enters_the_histogram() {
    let mut metrics = Metrics::default();
    metrics.observe_latency(100, 500);
    assert_eq!(metrics.clock_skew_samples, 1);
    assert_eq!(metrics.latency_samples(), 0);
}

/// The bucket a sample lands in is decided by the shared bound table, so the
/// boundaries are inclusive and the table is the only place they are stated.
#[test]
fn bucket_edges_are_inclusive_and_come_from_the_shared_table() {
    for (index, bound) in LATENCY_BUCKET_BOUNDS_MS.iter().enumerate() {
        let mut metrics = Metrics::default();
        metrics.observe_latency(*bound, 0);
        assert_eq!(metrics.latency_buckets[index], 1, "bound {bound} ms");

        let mut over = Metrics::default();
        over.observe_latency(bound + 1, 0);
        assert_eq!(over.latency_buckets[index], 0, "bound {bound} ms");
    }
}
