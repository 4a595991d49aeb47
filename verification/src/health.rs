//! Venue health: is this feed telling us the truth right now?
//!
//! The solver's freshness gate already refuses a stale *book*. This is the
//! coarser question one level up: is the venue connection itself working. A book
//! can look perfectly fresh while the socket behind it has been silently dead
//! for a minute, because nothing arrived to make it stale: an idle far strike
//! and a dead feed produce identical books.
//!
//! Health blocks trading, never book keeping. An unhealthy venue still applies
//! every event it delivers; it just stops being allowed to spend money.
use vstd::prelude::*;
use crate::feed::{EventView, FeedEvent};
use crate::types;
use crate::types::{Venue, VENUE_COUNT};

pub mod laws;

verus! {

#[derive(Clone, Copy, Debug, PartialEq, Eq, Structural)]
pub enum HealthState {
    Healthy,
    /// Nothing has arrived for longer than the idle budget.
    Stale,
    /// Consecutive failures against the venue's API.
    Erroring,
    /// The feed reported the socket gone.
    Disconnected,
}

/// Errors before a venue is considered broken.
///
/// One failure is noise: a timeout, a 503, a dropped packet. Three in a row with
/// no success between them is a pattern, and continuing to send orders into it
/// is how you discover an outage by losing money in it.
pub const ERROR_THRESHOLD: u32 = 3;

#[derive(Clone, Copy, Debug, PartialEq, Eq, Structural)]
pub struct VenueHealth {
    pub venue: Venue,
    pub last_message_ms: u64,
    pub consecutive_errors: u32,
    pub state: HealthState,
    /// Whether anything feeds this venue on this run.
    ///
    /// An unsubscribed venue is absent, not broken. The distinction matters
    /// because it is otherwise indistinguishable from a venue whose socket
    /// never came up, and rolling it up as a failure would report a healthy
    /// single-venue run as permanently degraded.
    pub subscribed: bool,
}

impl VenueHealth {
    pub open spec fn unproven(venue: Venue) -> VenueHealth {
        VenueHealth {
            venue,
            last_message_ms: 0,
            consecutive_errors: 0,
            state: HealthState::Disconnected,
            subscribed: false,
        }
    }

    pub open spec fn heard(self, now_ms: u64) -> VenueHealth {
        VenueHealth {
            last_message_ms: now_ms,
            consecutive_errors: 0,
            state: HealthState::Healthy,
            ..self
        }
    }

    pub open spec fn failed(self) -> VenueHealth {
        let errors: u32 = if self.consecutive_errors < u32::MAX {
            (self.consecutive_errors + 1) as u32
        } else {
            u32::MAX
        };
        VenueHealth {
            consecutive_errors: errors,
            state: if errors >= ERROR_THRESHOLD {
                HealthState::Erroring
            } else {
                self.state
            },
            ..self
        }
    }

    pub open spec fn idle(self, now_ms: u64, max_idle_ms: u64) -> bool {
        now_ms - self.last_message_ms > max_idle_ms
    }

    pub open spec fn aged(self, now_ms: u64, max_idle_ms: u64) -> VenueHealth {
        if self.state == HealthState::Healthy && self.idle(now_ms, max_idle_ms) {
            VenueHealth { state: HealthState::Stale, ..self }
        } else {
            self
        }
    }

    pub open spec fn healthy_at(self, now_ms: u64, max_idle_ms: u64) -> bool {
        self.state == HealthState::Healthy && !self.idle(now_ms, max_idle_ms)
    }

    /// Starts [`HealthState::Disconnected`]: a venue is not healthy because
    /// nobody has said otherwise. Health has to be earned by a message.
    pub fn new(venue: Venue) -> (health: Self)
        ensures
            health == VenueHealth::unproven(venue),
    {
        VenueHealth {
            venue,
            last_message_ms: 0,
            consecutive_errors: 0,
            state: HealthState::Disconnected,
            subscribed: false,
        }
    }

    /// A message arrived: the socket is alive and the error streak is broken.
    pub fn update_on_message(&mut self, now_ms: u64)
        ensures
            *final(self) == old(self).heard(now_ms),
    {
        self.last_message_ms = now_ms;
        self.consecutive_errors = 0;
        self.state = HealthState::Healthy;
    }

    pub fn update_on_error(&mut self)
        ensures
            *final(self) == old(self).failed(),
    {
        self.consecutive_errors = self.consecutive_errors.saturating_add(1);
        if self.consecutive_errors >= ERROR_THRESHOLD {
            self.state = HealthState::Erroring;
        }
    }

    /// Health as of `now_ms`, applying the idle budget without recording it.
    ///
    /// The read-only twin of [`VenueHealth::check_staleness`], for the publish
    /// path: a dashboard asking how things look must not be what demotes a
    /// venue, or the answer would depend on whether anyone was watching.
    pub fn is_healthy_at(&self, now_ms: u64, max_idle_ms: u64) -> (healthy: bool)
        ensures
            healthy == self.healthy_at(now_ms, max_idle_ms),
    {
        self.state == HealthState::Healthy && now_ms.saturating_sub(self.last_message_ms)
            <= max_idle_ms
    }

    /// Demote to [`HealthState::Stale`] once the idle budget is exceeded.
    ///
    /// Only ever demotes from `Healthy`. A venue that is `Erroring` or
    /// `Disconnected` has a more specific problem, and overwriting it with
    /// "stale" would lose the reason.
    pub fn check_staleness(&mut self, now_ms: u64, max_idle_ms: u64)
        ensures
            *final(self) == old(self).aged(now_ms, max_idle_ms),
    {
        if self.state == HealthState::Healthy && now_ms.saturating_sub(self.last_message_ms)
            > max_idle_ms {
            self.state = HealthState::Stale;
        }
    }

    pub fn is_healthy(&self) -> (healthy: bool)
        ensures
            healthy == (self.state == HealthState::Healthy),
    {
        self.state == HealthState::Healthy
    }

    /// Time since the last message, or zero if there has never been one.
    ///
    /// A venue that has never spoken has no idle time to report. Subtracting
    /// from an unset timestamp would give time since the epoch, which renders as
    /// a feed that has been silent for decades rather than one that was never
    /// subscribed; the state beside this is what says which.
    pub fn idle_ms(&self, now_ms: u64) -> (ms: u64)
        ensures
            ms == self.idle_for(now_ms),
    {
        if self.last_message_ms == 0 {
            return 0;
        }
        now_ms.saturating_sub(self.last_message_ms)
    }

    pub open spec fn idle_for(self, now_ms: u64) -> u64 {
        if self.last_message_ms == 0 || now_ms <= self.last_message_ms {
            0
        } else {
            (now_ms - self.last_message_ms) as u64
        }
    }
}

/// How the engine as a whole is doing, rolled up over subscribed venues.
///
/// Reported beside the per-venue detail rather than instead of it: an operator
/// needs one field to glance at, and the venue that caused it.
#[derive(Clone, Copy, Debug, PartialEq, Eq, Structural)]
pub enum OverallHealth {
    /// Every subscribed venue is healthy.
    Connected,
    /// Some subscribed venue is healthy and some is not. Trading continues on
    /// the venues that are up; anything needing the others is refused.
    Degraded,
    /// No subscribed venue is healthy, so nothing can be traded. An engine with
    /// no subscriptions at all reports this too, since the question this answers
    /// is whether trading is possible right now, and it is not.
    Erroring,
}

/// Health across every venue the engine trades.
#[derive(Clone, Copy, Debug, PartialEq, Eq)]
pub struct HealthMonitor {
    pub venues: [VenueHealth; 2],
    pub max_idle_ms: u64,
}

/// What a [`HealthMonitor`] holds.
#[verifier::ext_equal]
pub struct MonitorView {
    pub venues: Seq<VenueHealth>,
    pub max_idle_ms: u64,
}

impl View for HealthMonitor {
    type V = MonitorView;

    open spec fn view(&self) -> MonitorView {
        MonitorView { venues: self.venues@, max_idle_ms: self.max_idle_ms }
    }
}

/// A zero budget would mark every venue stale the instant it went healthy,
/// which reads as a misconfiguration rather than an intent to never trade.
pub open spec fn budget(configured: u64) -> u64 {
    if configured < 1 {
        1
    } else {
        configured
    }
}

impl MonitorView {
    pub open spec fn of(self, venue: Venue) -> VenueHealth {
        self.venues[types::venue_slot(venue)]
    }

    pub open spec fn with(self, venue: Venue, health: VenueHealth) -> MonitorView {
        MonitorView { venues: self.venues.update(types::venue_slot(venue), health), ..self }
    }

    pub open spec fn unproven(max_idle_ms: u64) -> MonitorView {
        MonitorView {
            venues: seq![
                VenueHealth::unproven(Venue::Kalshi),
                VenueHealth::unproven(Venue::Polymarket),
            ],
            max_idle_ms,
        }
    }

    /// Whether a venue may be traded at an instant.
    pub open spec fn tradeable(self, venue: Venue, now_ms: u64) -> bool {
        self.of(venue).healthy_at(now_ms, budget(self.max_idle_ms))
    }

    /// The record after asking whether a venue may be traded.
    pub open spec fn asked(self, venue: Venue, now_ms: u64) -> MonitorView {
        self.with(venue, self.of(venue).aged(now_ms, budget(self.max_idle_ms)))
    }

    pub open spec fn up(self, venue: Venue, now_ms: u64) -> bool {
        self.of(venue).subscribed && self.tradeable(venue, now_ms)
    }

    pub open spec fn down(self, venue: Venue, now_ms: u64) -> bool {
        self.of(venue).subscribed && !self.tradeable(venue, now_ms)
    }

    pub open spec fn rollup(self, now_ms: u64) -> OverallHealth {
        if !self.up(Venue::Kalshi, now_ms) && !self.up(Venue::Polymarket, now_ms) {
            OverallHealth::Erroring
        } else if self.down(Venue::Kalshi, now_ms) || self.down(Venue::Polymarket, now_ms) {
            OverallHealth::Degraded
        } else {
            OverallHealth::Connected
        }
    }

    pub open spec fn folded(self, event: EventView, venue: Venue, now_ms: u64) -> MonitorView {
        match event {
            EventView::Snapshot { .. } => self.with(venue, self.of(venue).heard(now_ms)),
            EventView::Delta { .. } => self.with(venue, self.of(venue).heard(now_ms)),
            EventView::LevelSet { .. } => self.with(venue, self.of(venue).heard(now_ms)),
            EventView::Disconnected { .. } => self.with(
                venue,
                VenueHealth { state: HealthState::Disconnected, ..self.of(venue) },
            ),
            EventView::Resubscribed { .. } => self,
        }
    }

    pub open spec fn erred(self, venue: Venue) -> MonitorView {
        self.with(venue, self.of(venue).failed())
    }
}

/// Default idle budget: ten times the book freshness budget.
///
/// These measure different things. `max_book_age_ms` asks whether one quote is
/// current; this asks whether the connection is alive at all, and a quiet
/// market can legitimately go seconds without a single update across every
/// subscribed contract.
pub const DEFAULT_MAX_IDLE_MS: u64 = 5_000;

impl Default for HealthMonitor {
    fn default() -> (monitor: Self)
        ensures
            monitor@ == MonitorView::unproven(DEFAULT_MAX_IDLE_MS),
    {
        HealthMonitor::new(DEFAULT_MAX_IDLE_MS)
    }
}

impl HealthMonitor {
    /// Every venue tracked, none subscribed. Prefer [`HealthMonitor::for_venues`]
    /// on a real run so the rollup knows what it is allowed to judge.
    pub fn new(max_idle_ms: u64) -> (monitor: Self)
        ensures
            monitor@ == MonitorView::unproven(max_idle_ms),
    {
        let monitor = HealthMonitor {
            venues: [VenueHealth::new(Venue::Kalshi), VenueHealth::new(Venue::Polymarket)],
            max_idle_ms,
        };
        assert(monitor@ =~= MonitorView::unproven(max_idle_ms));
        monitor
    }

    /// Track every venue, and mark these as ones the rollup may judge.
    pub fn for_venues(max_idle_ms: u64, subscribed: &[Venue]) -> (monitor: Self)
        ensures
            monitor@.max_idle_ms == max_idle_ms,
            monitor@.venues.len() == VENUE_COUNT,
            forall|venue: Venue|
                #[trigger] monitor@.of(venue) == (VenueHealth {
                    subscribed: subscribed@.contains(venue),
                    ..VenueHealth::unproven(venue)
                }),
    {
        let mut monitor = HealthMonitor::new(max_idle_ms);
        let mut i: usize = 0;
        while i < subscribed.len()
            invariant
                i <= subscribed@.len(),
                monitor@.max_idle_ms == max_idle_ms,
                monitor@.venues.len() == VENUE_COUNT,
                forall|venue: Venue|
                    #[trigger] monitor@.of(venue) == (VenueHealth {
                        subscribed: subscribed@.subrange(0, i as int).contains(venue),
                        ..VenueHealth::unproven(venue)
                    }),
            decreases subscribed@.len() - i,
        {
            let ghost before = monitor@;
            let named: Venue = subscribed[i];
            monitor.venues[named.index()].subscribed = true;
            proof {
                let done = subscribed@.subrange(0, i as int);
                let next = subscribed@.subrange(0, i + 1);
                assert(next =~= done.push(named));
                assert forall|venue: Venue|
                    #[trigger] monitor@.of(venue) == (VenueHealth {
                        subscribed: next.contains(venue),
                        ..VenueHealth::unproven(venue)
                    }) by {
                    assert(before.of(venue) == (VenueHealth {
                        subscribed: done.contains(venue),
                        ..VenueHealth::unproven(venue)
                    }));
                    if venue == named {
                        assert(next[i as int] == venue);
                    } else {
                        if done.contains(venue) {
                            let k = choose|k: int| 0 <= k < done.len() && done[k] == venue;
                            assert(next[k] == venue);
                        }
                        if next.contains(venue) {
                            let k = choose|k: int| 0 <= k < next.len() && next[k] == venue;
                            assert(done[k] == venue);
                        }
                    }
                }
            }
            i = i + 1;
        }
        assert(subscribed@.subrange(0, subscribed@.len() as int) =~= subscribed@);
        monitor
    }

    pub fn all(&self) -> (venues: &[VenueHealth])
        ensures
            venues@ == self@.venues,
    {
        self.venues.as_slice()
    }

    /// Roll the subscribed venues up into one verdict.
    ///
    /// Read-only, unlike [`HealthMonitor::can_trade`]: publishing state must not
    /// change it, so staleness is evaluated here rather than recorded.
    pub fn overall(&self, now_ms: u64) -> (verdict: OverallHealth)
        ensures
            verdict == self@.rollup(now_ms),
    {
        let limit: u64 = max_idle(self.max_idle_ms);
        let kalshi: VenueHealth = self.venues[0];
        let polymarket: VenueHealth = self.venues[1];
        let kalshi_up: bool = kalshi.is_healthy_at(now_ms, limit);
        let polymarket_up: bool = polymarket.is_healthy_at(now_ms, limit);
        let healthy: bool = (kalshi.subscribed && kalshi_up) || (polymarket.subscribed
            && polymarket_up);
        let broken: bool = (kalshi.subscribed && !kalshi_up) || (polymarket.subscribed
            && !polymarket_up);
        if !healthy {
            OverallHealth::Erroring
        } else if broken {
            OverallHealth::Degraded
        } else {
            OverallHealth::Connected
        }
    }

    /// Whether this venue may be traded right now. Evaluates staleness first,
    /// so a caller cannot read a `Healthy` that has quietly expired.
    pub fn can_trade(&mut self, venue: Venue, now_ms: u64) -> (tradeable: bool)
        ensures
            tradeable == old(self)@.tradeable(venue, now_ms),
            final(self)@ == old(self)@.asked(venue, now_ms),
    {
        let limit: u64 = max_idle(self.max_idle_ms);
        let slot: usize = venue.index();
        self.venues[slot].check_staleness(now_ms, limit);
        assert(self@ =~= old(self)@.asked(venue, now_ms));
        self.venues[slot].is_healthy()
    }

    pub fn venue(&self, venue: Venue) -> (health: &VenueHealth)
        ensures
            *health == self@.of(venue),
    {
        &self.venues[venue.index()]
    }

    /// Fold a feed event into one venue's health.
    ///
    /// The venue is passed in rather than read off the event, because only
    /// `Disconnected` names one; the rest carry a contract, and the book store
    /// owns the mapping from that to a venue.
    ///
    /// `Resubscribed` deliberately does not restore health: the venue
    /// acknowledged a subscription but has not yet sent a book. Health returns
    /// when data does.
    pub fn apply_feed_event(&mut self, event: &FeedEvent, venue: Venue, now_ms: u64)
        ensures
            final(self)@ == old(self)@.folded(event@, venue, now_ms),
    {
        let slot: usize = venue.index();
        match event {
            FeedEvent::Snapshot { .. } => {
                self.venues[slot].update_on_message(now_ms);
            },
            FeedEvent::Delta { .. } => {
                self.venues[slot].update_on_message(now_ms);
            },
            FeedEvent::LevelSet { .. } => {
                self.venues[slot].update_on_message(now_ms);
            },
            FeedEvent::Disconnected { .. } => {
                self.venues[slot].state = HealthState::Disconnected;
            },
            FeedEvent::Resubscribed { .. } => {},
        }
        assert(self@ =~= old(self)@.folded(event@, venue, now_ms));
    }

    pub fn note_error(&mut self, venue: Venue)
        ensures
            final(self)@ == old(self)@.erred(venue),
    {
        self.venues[venue.index()].update_on_error();
        assert(self@ =~= old(self)@.erred(venue));
    }
}

fn max_idle(configured: u64) -> (ms: u64)
    ensures
        ms == budget(configured),
{
    if configured < 1 {
        1
    } else {
        configured
    }
}

// ---------------------------------------------------------------------------
// Laws
// ---------------------------------------------------------------------------

/// Two venues, two sockets, two independent verdicts: what happens to one
/// leaves the other's record alone.
pub proof fn one_venue_failing_leaves_the_other_alone(
    monitor: MonitorView,
    event: EventView,
    venue: Venue,
    other: Venue,
    now_ms: u64,
)
    requires
        monitor.venues.len() == VENUE_COUNT,
        venue != other,
    ensures
        monitor.folded(event, venue, now_ms).of(other) == monitor.of(other),
        monitor.erred(venue).of(other) == monitor.of(other),
        monitor.asked(venue, now_ms).of(other) == monitor.of(other),
{
}

/// A specific failure is never overwritten by staleness.
pub proof fn staleness_never_hides_a_specific_failure(
    health: VenueHealth,
    now_ms: u64,
    max_idle_ms: u64,
)
    ensures
        health.state != HealthState::Healthy ==> health.aged(now_ms, max_idle_ms) == health,
        health.aged(now_ms, max_idle_ms).state == HealthState::Healthy <==> health.healthy_at(
            now_ms,
            max_idle_ms,
        ),
{
}

/// Health has to be earned by data: an event that is not a book update never
/// turns an unhealthy venue healthy, and a book update always does.
pub proof fn health_is_earned_by_data(
    monitor: MonitorView,
    event: EventView,
    venue: Venue,
    now_ms: u64,
)
    requires
        monitor.venues.len() == VENUE_COUNT,
    ensures
        (event is Snapshot || event is Delta || event is LevelSet) ==> monitor.folded(
            event,
            venue,
            now_ms,
        ).tradeable(venue, now_ms),
        (event is Disconnected || event is Resubscribed) && monitor.of(venue).state
            != HealthState::Healthy ==> monitor.folded(event, venue, now_ms).of(venue).state
            != HealthState::Healthy,
        event is Disconnected ==> !monitor.folded(event, venue, now_ms).tradeable(venue, now_ms),
{
}

/// Fewer errors in a row than the threshold never stop a venue, and a message
/// clears the streak.
pub proof fn errors_need_a_streak(health: VenueHealth, now_ms: u64)
    ensures
        health.consecutive_errors < ERROR_THRESHOLD - 1 ==> health.failed().state == health.state,
        health.consecutive_errors >= ERROR_THRESHOLD - 1 ==> health.failed().state
            == HealthState::Erroring,
        health.failed().heard(now_ms).consecutive_errors == 0,
        health.failed().heard(now_ms).state == HealthState::Healthy,
{
}

} // verus!
