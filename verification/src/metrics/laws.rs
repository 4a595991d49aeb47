//! What the counters say of the latencies that they counted.
use vstd::prelude::*;
use crate::metrics;
use crate::metrics::MetricsView;
use crate::tally;
use crate::types::Ratio;

verus! {

/// The latencies that a bucket counts: above the lower bound, up to the upper.
pub open spec fn counts(bucket: int, latency: int) -> bool {
    ||| bucket == 0 && 0 <= latency <= 1
    ||| bucket == 1 && 1 < latency <= 5
    ||| bucket == 2 && 5 < latency <= 10
    ||| bucket == 3 && 10 < latency <= 50
    ||| bucket == 4 && 50 < latency <= 100
    ||| bucket == 5 && 100 < latency <= 500
    ||| bucket == 6 && 500 < latency
}

/// A message that was heard after it was sent is counted in the bucket of its
/// latency and in no other, and one that was heard before is counted as skewed.
pub proof fn a_latency_lands_in_its_bucket(
    before: MetricsView,
    received: u64,
    venue: u64,
    bucket: int,
)
    requires
        before.has_room(),
        0 <= bucket < 7,
    ensures
        ({
            let after = before.observed(received, venue);
            let late = received >= venue;
            &&& after.latency_buckets.len() == 7
            &&& after.latency_buckets[bucket] == before.latency_buckets[bucket] + (if late && counts(
                bucket,
                received - venue,
            ) {
                1int
            } else {
                0int
            })
            &&& after.clock_skew_samples == before.clock_skew_samples + (if late {
                0int
            } else {
                1int
            })
            &&& after == (MetricsView {
                latency_buckets: after.latency_buckets,
                clock_skew_samples: after.clock_skew_samples,
                ..before
            })
        }),
{
}

/// How many samples lie in a bucket or below it.
pub open spec fn upto(buckets: Seq<u64>, bucket: int) -> int {
    tally::total(bucket + 1, |i: int| buckets[i] as int)
}

proof fn lemma_samples(buckets: Seq<u64>, n: int)
    ensures
        metrics::samples_in(buckets, n) == tally::total(n, |i: int| buckets[i] as int),
    decreases n,
{
    if n > 0 {
        lemma_samples(buckets, n - 1);
    }
}

proof fn lemma_upto_rises(buckets: Seq<u64>, a: int, b: int)
    requires
        a <= b,
    ensures
        0 <= upto(buckets, a) <= upto(buckets, b),
    decreases b + 1,
{
    if b >= 0 {
        lemma_upto_rises(buckets, if a < b {
            a
        } else {
            b - 1
        }, b - 1);
    }
}

/// A bucket that a quantile may be read from: it has seen a sample, and the share
/// of the samples that it has seen reaches the quantile.
pub open spec fn reaches(buckets: Seq<u64>, quantile: Ratio, bucket: int) -> bool {
    upto(buckets, bucket) >= 1 && upto(buckets, bucket) * quantile.denom >= quantile.numer * upto(
        buckets,
        6,
    )
}

proof fn lemma_quantile(buckets: Seq<u64>, quantile: Ratio, from: int)
    requires
        0 <= from <= 7,
        forall|i: int| 0 <= i < from ==> !#[trigger] reaches(buckets, quantile, i),
    ensures
        ({
            let found = metrics::quantile_bucket(buckets, quantile, from);
            &&& from <= found <= 7
            &&& found < 7 ==> reaches(buckets, quantile, found)
            &&& forall|i: int| 0 <= i < found ==> !#[trigger] reaches(buckets, quantile, i)
        }),
    decreases 7 - from,
{
    if from < 7 {
        lemma_samples(buckets, from + 1);
        lemma_samples(buckets, 7);
        if !reaches(buckets, quantile, from) {
            lemma_quantile(buckets, quantile, from + 1);
        }
    }
}

/// The bound that a bucket is reported under; latencies above the last bound are
/// reported under it.
pub open spec fn is_bound(bucket: int, ms: int) -> bool {
    ||| bucket == 0 && ms == 1
    ||| bucket == 1 && ms == 5
    ||| bucket == 2 && ms == 10
    ||| bucket == 3 && ms == 50
    ||| bucket == 4 && ms == 100
    ||| bucket >= 5 && ms == 500
}

/// A percentile is the bound of the first bucket that reaches it, and nothing
/// where nothing was measured.
pub proof fn a_percentile_is_the_first_bound_that_reaches_it(
    before: MetricsView,
    quantile: Ratio,
    bucket: int,
)
    requires
        0 <= bucket < 7,
        reaches(before.latency_buckets, quantile, bucket),
        forall|i: int|
            0 <= i < bucket ==> !#[trigger] reaches(before.latency_buckets, quantile, i),
    ensures
        is_bound(bucket, before.percentile_ms(quantile) as int),
{
    let buckets = before.latency_buckets;
    lemma_quantile(buckets, quantile, 0);
    lemma_samples(buckets, 7);
    lemma_upto_rises(buckets, bucket, 6);
    let found = metrics::quantile_bucket(buckets, quantile, 0);
    assert(found == bucket);
}

/// Nothing measured has no percentile.
pub proof fn nothing_measured_has_no_percentile(before: MetricsView, quantile: Ratio)
    requires
        upto(before.latency_buckets, 6) == 0,
    ensures
        before.percentile_ms(quantile) == 0,
        before.samples() == 0,
{
    lemma_samples(before.latency_buckets, 7);
}

/// A counter that is raised holds the sum, or as much as it can.
pub proof fn a_counter_is_raised_by_what_is_added(count: u64, n: nat)
    ensures
        count + n <= u64::MAX ==> metrics::raised(count, n as int) == count + n,
        count + n > u64::MAX ==> metrics::raised(count, n as int) == u64::MAX,
{
}

} // verus!
