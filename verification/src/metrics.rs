//! Feed counters and the latency histogram.
use vstd::prelude::*;
use crate::types::Ratio;

pub mod laws;

verus! {

/// Upper bounds of the latency histogram buckets, in milliseconds.
///
/// A sample falls in the first bucket whose bound it does not exceed; anything
/// slower than the last bound lands in the overflow bucket, which is why
/// [`Metrics::latency_buckets`] holds one more slot than there are bounds.
pub const LATENCY_BUCKET_BOUNDS_MS: [u64; 6] = [1, 5, 10, 50, 100, 500];

#[derive(Clone, Copy, Debug, PartialEq, Eq)]
pub struct Metrics {
    pub messages_received: u64,
    pub parse_errors: u64,
    pub parse_attempts: u64,
    pub unknown_messages: u64,
    pub reconnections: u64,
    /// Uncompressed envelope bytes written, not compressed filesystem size.
    pub bytes_recorded: u64,
    /// Exact hundredths discarded by mathematical floor, including signed deltas.
    pub discarded_size_hundredths: u64,
    /// Snapshot sides whose key the venue omitted, applied as empty sides.
    pub snapshot_sides_absent: u64,
    /// Quotes finer than one cent, which this book cannot hold.
    ///
    /// Counted apart from [`Metrics::parse_errors`] because it is not a parse
    /// failure: the payload was understood perfectly, and the price is one the
    /// engine's whole-cent book has no slot for. Conflating them reports a
    /// venue quoting a finer tick as a venue sending malformed data, and the
    /// two call for completely different responses.
    pub sub_cent_prices: u64,
    /// Venue-to-local receipt latency buckets: <=1, 5, 10, 50, 100, 500, >500 ms.
    pub latency_buckets: [u64; 7],
    pub clock_skew_samples: u64,
}

/// What [`Metrics`] holds.
#[verifier::ext_equal]
pub struct MetricsView {
    pub messages_received: u64,
    pub parse_errors: u64,
    pub parse_attempts: u64,
    pub unknown_messages: u64,
    pub reconnections: u64,
    pub bytes_recorded: u64,
    pub discarded_size_hundredths: u64,
    pub snapshot_sides_absent: u64,
    pub sub_cent_prices: u64,
    pub latency_buckets: Seq<u64>,
    pub clock_skew_samples: u64,
}

impl View for Metrics {
    type V = MetricsView;

    open spec fn view(&self) -> MetricsView {
        MetricsView {
            messages_received: self.messages_received,
            parse_errors: self.parse_errors,
            parse_attempts: self.parse_attempts,
            unknown_messages: self.unknown_messages,
            reconnections: self.reconnections,
            bytes_recorded: self.bytes_recorded,
            discarded_size_hundredths: self.discarded_size_hundredths,
            snapshot_sides_absent: self.snapshot_sides_absent,
            sub_cent_prices: self.sub_cent_prices,
            latency_buckets: self.latency_buckets@,
            clock_skew_samples: self.clock_skew_samples,
        }
    }
}

/// The upper bound of a bucket; the overflow bucket reports the last finite one.
pub open spec fn bound_ms(bucket: int) -> u64 {
    if bucket <= 0 {
        1
    } else if bucket == 1 {
        5
    } else if bucket == 2 {
        10
    } else if bucket == 3 {
        50
    } else if bucket == 4 {
        100
    } else {
        500
    }
}

/// The bucket a latency falls in.
pub open spec fn bucket_of(latency: int) -> int {
    if latency <= 1 {
        0
    } else if latency <= 5 {
        1
    } else if latency <= 10 {
        2
    } else if latency <= 50 {
        3
    } else if latency <= 100 {
        4
    } else if latency <= 500 {
        5
    } else {
        6
    }
}

/// The samples in the first `n` buckets.
pub open spec fn samples_in(buckets: Seq<u64>, n: int) -> int
    decreases n,
{
    if n <= 0 {
        0
    } else {
        samples_in(buckets, n - 1) + buckets[n - 1]
    }
}

/// The first bucket from `from` on by whose end the quantile has been reached;
/// past the last one where none has.
pub open spec fn quantile_bucket(buckets: Seq<u64>, quantile: Ratio, from: int) -> int
    decreases 7 - from,
{
    let seen = samples_in(buckets, from + 1);
    if from >= 7 {
        7
    } else if seen >= 1 && seen * quantile.denom >= quantile.numer * samples_in(buckets, 7) {
        from
    } else {
        quantile_bucket(buckets, quantile, from + 1)
    }
}

impl MetricsView {
    pub open spec fn zero() -> MetricsView {
        MetricsView {
            messages_received: 0,
            parse_errors: 0,
            parse_attempts: 0,
            unknown_messages: 0,
            reconnections: 0,
            bytes_recorded: 0,
            discarded_size_hundredths: 0,
            snapshot_sides_absent: 0,
            sub_cent_prices: 0,
            latency_buckets: Seq::new(7, |i: int| 0u64),
            clock_skew_samples: 0,
        }
    }

    /// No counter that a parser raises is full.
    pub open spec fn has_room(self) -> bool {
        &&& self.parse_errors < u64::MAX
        &&& self.parse_attempts < u64::MAX
        &&& self.unknown_messages < u64::MAX
        &&& self.snapshot_sides_absent < u64::MAX - 1
        &&& self.sub_cent_prices < u64::MAX
        &&& self.clock_skew_samples < u64::MAX
        &&& self.latency_buckets.len() == 7
        &&& forall|i: int| 0 <= i < 7 ==> #[trigger] self.latency_buckets[i] < u64::MAX
    }

    /// The counters after one latency sample. A venue timestamp ahead of local
    /// receipt is clock skew, not negative latency, and stays out of the
    /// histogram.
    pub open spec fn observed(self, received: u64, venue: u64) -> MetricsView {
        if venue > received {
            MetricsView { clock_skew_samples: (self.clock_skew_samples + 1) as u64, ..self }
        } else {
            let i = bucket_of(received - venue);
            MetricsView {
                latency_buckets: self.latency_buckets.update(
                    i,
                    (self.latency_buckets[i] + 1) as u64,
                ),
                ..self
            }
        }
    }

    pub open spec fn samples(self) -> int {
        samples_in(self.latency_buckets, 7)
    }

    /// The upper bound of the bucket that a quantile lands in; zero without a
    /// sample.
    pub open spec fn percentile_ms(self, quantile: Ratio) -> u64 {
        if self.samples() == 0 {
            0
        } else {
            bound_ms(quantile_bucket(self.latency_buckets, quantile, 0))
        }
    }
}

impl Default for Metrics {
    fn default() -> (metrics: Self)
        ensures
            metrics@ == MetricsView::zero(),
    {
        let metrics = Metrics {
            messages_received: 0,
            parse_errors: 0,
            parse_attempts: 0,
            unknown_messages: 0,
            reconnections: 0,
            bytes_recorded: 0,
            discarded_size_hundredths: 0,
            snapshot_sides_absent: 0,
            sub_cent_prices: 0,
            latency_buckets: [0u64; 7],
            clock_skew_samples: 0,
        };
        assert(metrics@ =~= MetricsView::zero());
        metrics
    }
}

/// A count after an addition, held at the largest.
pub open spec fn raised(count: u64, n: int) -> u64 {
    if count + n <= u64::MAX {
        (count + n) as u64
    } else {
        u64::MAX
    }
}

impl Metrics {
    /// Count one venue-to-local latency.
    pub fn observe_latency(&mut self, received: u64, venue: u64)
        requires
            venue > received ==> old(self)@.clock_skew_samples < u64::MAX,
            venue <= received ==> old(self)@.latency_buckets[bucket_of(received - venue)]
                < u64::MAX,
        ensures
            final(self)@ == old(self)@.observed(received, venue),
    {
        if venue > received {
            self.clock_skew_samples = self.clock_skew_samples + 1;
            return;
        }
        let latency: u64 = received - venue;
        let mut index: usize = 0;
        while index < 6 && latency > bound(index)
            invariant
                index <= 6,
                index == 0 || latency > bound_ms(index - 1),
            decreases 6 - index,
        {
            index = index + 1;
        }
        assert(index == bucket_of(latency as int));
        self.latency_buckets[index] = self.latency_buckets[index] + 1;
        assert(self@ =~= old(self)@.observed(received, venue));
    }

    /// Latency samples taken, which is deltas seen minus those the venue
    /// stamped in the future.
    pub fn latency_samples(&self) -> (samples: u64)
        requires
            self@.samples() <= u64::MAX,
        ensures
            samples == self@.samples(),
    {
        let mut samples: u64 = 0;
        let mut i: usize = 0;
        while i < 7
            invariant
                i <= 7,
                samples == samples_in(self@.latency_buckets, i as int),
                self@.samples() <= u64::MAX,
            decreases 7 - i,
        {
            proof {
                lemma_samples_grow(self@.latency_buckets, i + 1, 7);
            }
            samples = samples + self.latency_buckets[i];
            i = i + 1;
        }
        samples
    }

    /// Bucketed quantile estimate, in milliseconds.
    ///
    /// A histogram cannot name the sample sitting at a quantile, only the bucket
    /// it landed in, so this reports that bucket's upper bound: a figure the
    /// true latency is at or below. The overflow bucket has no upper bound and
    /// reports the last finite one instead, which is the usual convention and
    /// the only finite answer available.
    ///
    /// Zero samples reports zero, which reads as "nothing measured" beside a
    /// message count the dashboard shows next to it.
    pub fn latency_percentile_ms(&self, quantile: Ratio) -> (ms: u64)
        requires
            self@.samples() <= u64::MAX,
        ensures
            ms == self@.percentile_ms(quantile),
    {
        let total: u64 = self.latency_samples();
        if total == 0 {
            return 0;
        }
        let ghost buckets = self@.latency_buckets;
        let mut seen: u64 = 0;
        let mut bucket: usize = 0;
        while bucket < 7
            invariant
                bucket <= 7,
                buckets == self@.latency_buckets,
                total == samples_in(buckets, 7),
                total > 0,
                seen == samples_in(buckets, bucket as int),
                quantile_bucket(buckets, quantile, 0) == quantile_bucket(
                    buckets,
                    quantile,
                    bucket as int,
                ),
            decreases 7 - bucket,
        {
            proof {
                lemma_samples_grow(buckets, bucket + 1, 7);
            }
            seen = seen + self.latency_buckets[bucket];
            let a: u128 = seen as u128;
            let b: u128 = quantile.denom as u128;
            let c: u128 = quantile.numer as u128;
            let d: u128 = total as u128;
            assert(a * b <= u128::MAX && c * d <= u128::MAX) by (nonlinear_arith)
                requires
                    a <= 0xffff_ffff_ffff_ffff,
                    b <= 0xffff_ffff_ffff_ffff,
                    c <= 0xffff_ffff_ffff_ffff,
                    d <= 0xffff_ffff_ffff_ffff,
            ;
            if seen >= 1 && a * b >= c * d {
                return bound(bucket);
            }
            bucket = bucket + 1;
        }
        bound(7)
    }
}

fn bound(bucket: usize) -> (ms: u64)
    ensures
        ms == bound_ms(bucket as int),
{
    if bucket < 6 {
        let bounds: [u64; 6] = LATENCY_BUCKET_BOUNDS_MS;
        bounds[bucket]
    } else {
        500
    }
}

proof fn lemma_samples_grow(buckets: Seq<u64>, m: int, n: int)
    requires
        m <= n,
    ensures
        0 <= samples_in(buckets, m) <= samples_in(buckets, n),
    decreases n,
{
    if n > 0 {
        if m < n {
            lemma_samples_grow(buckets, m, n - 1);
        } else {
            lemma_samples_grow(buckets, m - 1, n - 1);
        }
    }
}

/// A latency sample is counted exactly once: in the histogram, or as clock skew.
pub proof fn a_latency_sample_is_counted_once(metrics: MetricsView, received: u64, venue: u64)
    requires
        metrics.has_room(),
    ensures
        metrics.observed(received, venue).samples() + metrics.observed(
            received,
            venue,
        ).clock_skew_samples == metrics.samples() + metrics.clock_skew_samples + 1,
{
    if venue <= received {
        let i = bucket_of(received - venue);
        let before = metrics.latency_buckets;
        lemma_samples_update(before, i, (before[i] + 1) as u64, 7);
    }
}

proof fn lemma_samples_update(buckets: Seq<u64>, i: int, count: u64, n: int)
    requires
        0 <= i < buckets.len(),
        n <= buckets.len(),
    ensures
        samples_in(buckets.update(i, count), n) == samples_in(buckets, n) + (if i < n {
            count - buckets[i]
        } else {
            0
        }),
    decreases n,
{
    if n > 0 {
        lemma_samples_update(buckets, i, count, n - 1);
    }
}

/// Counters that have counted nothing hold no latency sample.
pub proof fn lemma_zero_samples()
    ensures
        MetricsView::zero().samples() == 0,
{
    reveal_with_fuel(samples_in, 8);
}

} // verus!
