//! One feed over several venues.
//!
//! The engine loop takes a single feed, and two venues have to reach it without
//! either one blocking the other. The program selects across them and yields
//! whichever spoke first; what is kept here is which of them are still worth
//! asking, and their counters as one.
//!
//! # Arrival order, not timestamp order
//!
//! Events come out in the order the venues produce them. They are deliberately
//! *not* sorted by timestamp, because doing so would mean holding an event from
//! the fast venue until the slow one had been heard from, which converts a
//! latency advantage into a latency penalty and still could not produce a true
//! ordering — the next message from the quiet venue may be older than the one
//! already held. Nothing downstream needs a global order: sequence continuity
//! is scoped per venue in [`crate::book::BookStore`], and freshness is judged
//! per book against the clock.
use vstd::prelude::*;
use crate::metrics::{Metrics, MetricsView};

verus! {

/// Which of several feeds have finished. A finished feed is never polled again:
/// it would answer immediately every pass and starve the others.
#[derive(Clone, Debug, PartialEq)]
pub struct Roster {
    finished: Vec<bool>,
}

impl View for Roster {
    type V = Seq<bool>;

    closed spec fn view(&self) -> Seq<bool> {
        self.finished@
    }
}

/// The places below `n` that have not finished, in order.
pub open spec fn live_below(finished: Seq<bool>, n: int) -> Seq<usize>
    decreases n,
{
    if n <= 0 {
        Seq::empty()
    } else if finished[n - 1] {
        live_below(finished, n - 1)
    } else {
        live_below(finished, n - 1).push((n - 1) as usize)
    }
}

impl Roster {
    pub fn new(feeds: usize) -> (roster: Self)
        ensures
            roster@ == Seq::new(feeds as nat, |i: int| false),
    {
        let mut finished: Vec<bool> = Vec::new();
        let mut i: usize = 0;
        while i < feeds
            invariant
                i <= feeds,
                finished@ == Seq::new(i as nat, |k: int| false),
            decreases feeds - i,
        {
            finished.push(false);
            i = i + 1;
            assert(finished@ =~= Seq::new(i as nat, |k: int| false));
        }
        Roster { finished }
    }

    /// Whether every feed has finished.
    pub fn is_finished(&self) -> (done: bool)
        ensures
            done == (forall|i: int| 0 <= i < self@.len() ==> #[trigger] self@[i]),
    {
        let mut i: usize = 0;
        while i < self.finished.len()
            invariant
                i <= self.finished@.len(),
                forall|k: int| 0 <= k < i ==> #[trigger] self.finished@[k],
            decreases self.finished@.len() - i,
        {
            if !self.finished[i] {
                assert(!self@[i as int]);
                return false;
            }
            i = i + 1;
        }
        true
    }

    /// The feeds still worth asking, in order.
    pub fn live(&self) -> (places: Vec<usize>)
        ensures
            places@ == live_below(self@, self@.len() as int),
    {
        let mut places: Vec<usize> = Vec::new();
        let mut i: usize = 0;
        while i < self.finished.len()
            invariant
                i <= self.finished@.len(),
                places@ == live_below(self.finished@, i as int),
            decreases self.finished@.len() - i,
        {
            if !self.finished[i] {
                places.push(i);
            }
            i = i + 1;
        }
        places
    }

    /// A feed returned nothing; the others may still have more to say.
    pub fn finish(&mut self, place: usize)
        requires
            place < old(self)@.len(),
        ensures
            final(self)@ == old(self)@.update(place as int, true),
    {
        self.finished[place] = true;
    }
}

/// Two sets of counters added up.
pub open spec fn added(a: MetricsView, b: MetricsView) -> MetricsView {
    MetricsView {
        messages_received: (a.messages_received + b.messages_received) as u64,
        parse_errors: (a.parse_errors + b.parse_errors) as u64,
        parse_attempts: (a.parse_attempts + b.parse_attempts) as u64,
        unknown_messages: (a.unknown_messages + b.unknown_messages) as u64,
        reconnections: (a.reconnections + b.reconnections) as u64,
        bytes_recorded: (a.bytes_recorded + b.bytes_recorded) as u64,
        discarded_size_hundredths: (a.discarded_size_hundredths
            + b.discarded_size_hundredths) as u64,
        snapshot_sides_absent: (a.snapshot_sides_absent + b.snapshot_sides_absent) as u64,
        sub_cent_prices: (a.sub_cent_prices + b.sub_cent_prices) as u64,
        latency_buckets: Seq::new(
            7,
            |i: int| (a.latency_buckets[i] + b.latency_buckets[i]) as u64,
        ),
        clock_skew_samples: (a.clock_skew_samples + b.clock_skew_samples) as u64,
    }
}

/// Machine integers hold two sets of counters added up.
pub open spec fn addable(a: MetricsView, b: MetricsView) -> bool {
    &&& a.messages_received + b.messages_received <= u64::MAX
    &&& a.parse_errors + b.parse_errors <= u64::MAX
    &&& a.parse_attempts + b.parse_attempts <= u64::MAX
    &&& a.unknown_messages + b.unknown_messages <= u64::MAX
    &&& a.reconnections + b.reconnections <= u64::MAX
    &&& a.bytes_recorded + b.bytes_recorded <= u64::MAX
    &&& a.discarded_size_hundredths + b.discarded_size_hundredths <= u64::MAX
    &&& a.snapshot_sides_absent + b.snapshot_sides_absent <= u64::MAX
    &&& a.sub_cent_prices + b.sub_cent_prices <= u64::MAX
    &&& a.clock_skew_samples + b.clock_skew_samples <= u64::MAX
    &&& forall|i: int|
        0 <= i < 7 ==> (#[trigger] a.latency_buckets[i]) + b.latency_buckets[i] <= u64::MAX
}

/// The counters of the first `n` feeds that keep any, added up.
pub open spec fn summed(feeds: Seq<Option<Metrics>>, n: int) -> Option<MetricsView>
    decreases n,
{
    if n <= 0 {
        None
    } else {
        match (summed(feeds, n - 1), feeds[n - 1]) {
            (total, None) => total,
            (None, Some(metrics)) => Some(added(MetricsView::zero(), metrics@)),
            (Some(total), Some(metrics)) => Some(added(total, metrics@)),
        }
    }
}

/// Machine integers hold every running total.
pub open spec fn summable(feeds: Seq<Option<Metrics>>) -> bool {
    forall|n: int|
        0 <= n < feeds.len() ==> (#[trigger] feeds[n] matches Some(metrics) ==> summed(
            feeds,
            n,
        ) matches Some(total) ==> addable(total, metrics@))
}

fn sum(a: &Metrics, b: &Metrics) -> (total: Metrics)
    requires
        addable(a@, b@),
    ensures
        total@ == added(a@, b@),
{
    let mut latency_buckets: [u64; 7] = [0u64; 7];
    let mut i: usize = 0;
    while i < 7
        invariant
            i <= 7,
            addable(a@, b@),
            latency_buckets@.len() == 7,
            forall|k: int|
                0 <= k < i ==> latency_buckets@[k] == (#[trigger] a@.latency_buckets[k])
                    + b@.latency_buckets[k],
        decreases 7 - i,
    {
        assert(a@.latency_buckets[i as int] + b@.latency_buckets[i as int] <= u64::MAX);
        latency_buckets[i] = a.latency_buckets[i] + b.latency_buckets[i];
        i = i + 1;
    }
    let total = Metrics {
        messages_received: a.messages_received + b.messages_received,
        parse_errors: a.parse_errors + b.parse_errors,
        parse_attempts: a.parse_attempts + b.parse_attempts,
        unknown_messages: a.unknown_messages + b.unknown_messages,
        reconnections: a.reconnections + b.reconnections,
        bytes_recorded: a.bytes_recorded + b.bytes_recorded,
        discarded_size_hundredths: a.discarded_size_hundredths + b.discarded_size_hundredths,
        snapshot_sides_absent: a.snapshot_sides_absent + b.snapshot_sides_absent,
        sub_cent_prices: a.sub_cent_prices + b.sub_cent_prices,
        latency_buckets,
        clock_skew_samples: a.clock_skew_samples + b.clock_skew_samples,
    };
    assert(total@.latency_buckets =~= added(a@, b@).latency_buckets) by {
        assert forall|k: int| 0 <= k < 7 implies total@.latency_buckets[k] == added(
            a@,
            b@,
        ).latency_buckets[k] by {
            assert(latency_buckets@[k] == a@.latency_buckets[k] + b@.latency_buckets[k]);
        }
    }
    total
}

fn may_sum(a: &Metrics, b: &Metrics) -> (yes: bool)
    ensures
        yes == addable(a@, b@),
{
    let mut i: usize = 0;
    while i < 7
        invariant
            i <= 7,
            a@.latency_buckets == a.latency_buckets@,
            b@.latency_buckets == b.latency_buckets@,
            a.latency_buckets@.len() == 7,
            b.latency_buckets@.len() == 7,
            forall|k: int|
                0 <= k < i ==> (#[trigger] a@.latency_buckets[k]) + b@.latency_buckets[k]
                    <= u64::MAX,
        decreases 7 - i,
    {
        if a.latency_buckets[i] > u64::MAX - b.latency_buckets[i] {
            assert(a@.latency_buckets[i as int] + b@.latency_buckets[i as int] > u64::MAX);
            return false;
        }
        i = i + 1;
    }
    a.messages_received <= u64::MAX - b.messages_received && a.parse_errors <= u64::MAX
        - b.parse_errors && a.parse_attempts <= u64::MAX - b.parse_attempts && a.unknown_messages
        <= u64::MAX - b.unknown_messages && a.reconnections <= u64::MAX - b.reconnections
        && a.bytes_recorded <= u64::MAX - b.bytes_recorded && a.discarded_size_hundredths
        <= u64::MAX - b.discarded_size_hundredths && a.snapshot_sides_absent <= u64::MAX
        - b.snapshot_sides_absent && a.sub_cent_prices <= u64::MAX - b.sub_cent_prices
        && a.clock_skew_samples <= u64::MAX - b.clock_skew_samples
}

/// Whether the venues' counters can be summed.
pub fn can_total(feeds: &[Option<Metrics>]) -> (yes: bool)
    ensures
        yes == summable(feeds@),
{
    let mut total: Option<Metrics> = None;
    let mut i: usize = 0;
    while i < feeds.len()
        invariant
            i <= feeds@.len(),
            forall|n: int|
                0 <= n < i ==> (#[trigger] feeds@[n] matches Some(metrics) ==> summed(
                    feeds@,
                    n,
                ) matches Some(total) ==> addable(total, metrics@)),
            (match total {
                Some(total) => Some(total@),
                None => None,
            }) == summed(feeds@, i as int),
        decreases feeds@.len() - i,
    {
        if let Some(metrics) = &feeds[i] {
            let base: Metrics = match total {
                Some(total) => total,
                None => Metrics::default(),
            };
            assert(feeds@[i as int] == Some(*metrics));
            if !may_sum(&base, metrics) {
                return false;
            }
            total = Some(sum(&base, metrics));
        }
        i = i + 1;
    }
    true
}

/// The venues' counters, summed: the aggregate the dashboard shows beside the
/// per-venue panel. A feed that keeps none adds nothing, and none at all is no
/// answer rather than zeros.
pub fn total_metrics(feeds: &[Option<Metrics>]) -> (total: Option<Metrics>)
    requires
        summable(feeds@),
    ensures
        (match total {
            Some(total) => Some(total@),
            None => None,
        }) == summed(feeds@, feeds@.len() as int),
{
    let mut total: Option<Metrics> = None;
    let mut i: usize = 0;
    while i < feeds.len()
        invariant
            i <= feeds@.len(),
            summable(feeds@),
            (match total {
                Some(total) => Some(total@),
                None => None,
            }) == summed(feeds@, i as int),
        decreases feeds@.len() - i,
    {
        let ghost held = feeds@[i as int];
        if let Some(metrics) = &feeds[i] {
            let base: Metrics = match total {
                Some(total) => total,
                None => Metrics::default(),
            };
            assert(feeds@[i as int] == Some(*metrics));
            total = Some(sum(&base, metrics));
        }
        i = i + 1;
    }
    total
}

// ---------------------------------------------------------------------------
// Laws
// ---------------------------------------------------------------------------

/// Only feeds that have not finished are asked, and all of them are.
pub proof fn every_live_feed_is_asked(finished: Seq<bool>, n: int, place: usize)
    requires
        0 <= n <= finished.len(),
        finished.len() <= usize::MAX,
    ensures
        live_below(finished, n).contains(place) == (place < n && !finished[place as int]),
    decreases n,
{
    if n > 0 {
        every_live_feed_is_asked(finished, n - 1, place);
        let before = live_below(finished, n - 1);
        if !finished[n - 1] {
            let after = before.push((n - 1) as usize);
            if before.contains(place) {
                let k = choose|k: int| 0 <= k < before.len() && before[k] == place;
                assert(after[k] == place);
            }
            if place == n - 1 {
                assert(after[before.len() as int] == place);
            }
            if after.contains(place) && place != n - 1 {
                let k = choose|k: int| 0 <= k < after.len() && after[k] == place;
                assert(before[k] == place);
            }
        }
    }
}

} // verus!
