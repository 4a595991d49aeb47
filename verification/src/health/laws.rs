//! What the health record says, of what was heard and when.
use vstd::prelude::*;
use crate::feed::EventView;
use crate::health::{HealthState, MonitorView, OverallHealth, VenueHealth};
use crate::types::Venue;

verus! {

/// The record of a venue.
pub open spec fn record(monitor: MonitorView, venue: Venue) -> VenueHealth {
    match venue {
        Venue::Kalshi => monitor.venues[0],
        Venue::Polymarket => monitor.venues[1],
    }
}

/// Whether a venue is healthy and spoke within the idle budget, which is a
/// millisecond at least.
pub open spec fn heard_lately(monitor: MonitorView, venue: Venue, now_ms: u64) -> bool {
    &&& record(monitor, venue).state == HealthState::Healthy
    &&& now_ms <= record(monitor, venue).last_message_ms + (if monitor.max_idle_ms == 0 {
        1
    } else {
        monitor.max_idle_ms as int
    })
}

/// A venue may be traded exactly while it is healthy and was heard from within
/// the budget, and asking records as stale one that was healthy and was not.
pub proof fn a_venue_trades_while_it_is_heard_from(
    monitor: MonitorView,
    venue: Venue,
    now_ms: u64,
)
    requires
        monitor.venues.len() == 2,
    ensures
        monitor.tradeable(venue, now_ms) == heard_lately(monitor, venue, now_ms),
        ({
            let before = record(monitor, venue);
            let after = record(monitor.asked(venue, now_ms), venue);
            after == (if before.state == HealthState::Healthy && !heard_lately(
                monitor,
                venue,
                now_ms,
            ) {
                VenueHealth { state: HealthState::Stale, ..before }
            } else {
                before
            })
        }),
        monitor.asked(venue, now_ms).max_idle_ms == monitor.max_idle_ms,
        monitor.of(venue) == record(monitor, venue),
{
}

/// What an event does to the record of its venue: a book update makes it healthy
/// as of now and ends a streak of errors, a disconnect makes it disconnected, and
/// an acknowledged subscription says nothing.
pub proof fn an_event_marks_its_venue(
    monitor: MonitorView,
    event: EventView,
    venue: Venue,
    now_ms: u64,
)
    requires
        monitor.venues.len() == 2,
    ensures
        ({
            let before = record(monitor, venue);
            let after = record(monitor.folded(event, venue, now_ms), venue);
            match event {
                EventView::Disconnected { .. } => after == (VenueHealth {
                    state: HealthState::Disconnected,
                    ..before
                }),
                EventView::Resubscribed { .. } => after == before,
                _ => after.state == HealthState::Healthy && after.last_message_ms == now_ms
                    && after.consecutive_errors == 0 && after.venue == before.venue
                    && after.subscribed == before.subscribed,
            }
        }),
        monitor.folded(event, venue, now_ms).venues.len() == 2,
        monitor.folded(event, venue, now_ms).max_idle_ms == monitor.max_idle_ms,
{
}

/// The third error in a row makes a venue erring; fewer leave its state alone,
/// and none touches what was last heard.
pub proof fn the_third_error_in_a_row_counts(monitor: MonitorView, venue: Venue)
    requires
        monitor.venues.len() == 2,
        record(monitor, venue).consecutive_errors < u32::MAX,
    ensures
        ({
            let before = record(monitor, venue);
            let after = record(monitor.erred(venue), venue);
            &&& after.consecutive_errors == before.consecutive_errors + 1
            &&& after.state == (if before.consecutive_errors >= 2 {
                HealthState::Erroring
            } else {
                before.state
            })
            &&& after.last_message_ms == before.last_message_ms
            &&& after.venue == before.venue && after.subscribed == before.subscribed
        }),
{
}

/// The roll-up looks at subscribed venues only: connected where all of them may be
/// traded and there is one, erring where none may be, degraded in between.
pub proof fn the_rollup_is_over_subscribed_venues(monitor: MonitorView, now_ms: u64)
    requires
        monitor.venues.len() == 2,
    ensures
        ({
            let up = exists|v: Venue|
                record(monitor, v).subscribed && #[trigger] heard_lately(monitor, v, now_ms);
            let down = exists|v: Venue|
                record(monitor, v).subscribed && !#[trigger] heard_lately(monitor, v, now_ms);
            match monitor.rollup(now_ms) {
                OverallHealth::Connected => up && !down,
                OverallHealth::Degraded => up && down,
                OverallHealth::Erroring => !up,
            }
        }),
{
    a_venue_trades_while_it_is_heard_from(monitor, Venue::Kalshi, now_ms);
    a_venue_trades_while_it_is_heard_from(monitor, Venue::Polymarket, now_ms);
    assert forall|v: Venue| monitor.up(v, now_ms) == (record(monitor, v).subscribed
        && #[trigger] heard_lately(monitor, v, now_ms)) by {
        a_venue_trades_while_it_is_heard_from(monitor, v, now_ms);
    }
    assert forall|v: Venue| monitor.down(v, now_ms) == (record(monitor, v).subscribed
        && !#[trigger] heard_lately(monitor, v, now_ms)) by {
        a_venue_trades_while_it_is_heard_from(monitor, v, now_ms);
    }
    assert(heard_lately(monitor, Venue::Kalshi, now_ms) || !heard_lately(
        monitor,
        Venue::Kalshi,
        now_ms,
    ));
    assert(heard_lately(monitor, Venue::Polymarket, now_ms) || !heard_lately(
        monitor,
        Venue::Polymarket,
        now_ms,
    ));
}

/// A venue that never spoke has not been idle; one that did has been idle since.
pub proof fn idle_time_is_since_the_last_message(health: VenueHealth, now_ms: u64)
    ensures
        health.last_message_ms == 0 ==> health.idle_for(now_ms) == 0,
        health.last_message_ms > 0 && now_ms >= health.last_message_ms ==> health.last_message_ms
            + health.idle_for(now_ms) == now_ms,
        now_ms < health.last_message_ms ==> health.idle_for(now_ms) == 0,
{
}

/// Nobody is healthy before anything was heard.
pub proof fn health_starts_unproven(max_idle_ms: u64, venue: Venue, now_ms: u64)
    ensures
        ({
            let start = MonitorView::unproven(max_idle_ms);
            &&& start.venues.len() == 2
            &&& !heard_lately(start, venue, now_ms)
            &&& !record(start, venue).subscribed
            &&& record(start, venue).venue == venue
            &&& record(start, venue).consecutive_errors == 0
        }),
{
}

} // verus!
