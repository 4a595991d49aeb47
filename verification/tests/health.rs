use sum100::feed::FeedEvent;
use sum100::health::{HealthMonitor, HealthState, OverallHealth};
use sum100::types::{ContractId, Side, Venue};

fn delta(now: u64) -> FeedEvent {
    FeedEvent::Delta {
        contract: ContractId(0),
        side: Side::Yes,
        price: 40,
        size_delta: 1,
        seq: 1,
        venue_ts_ms: now,
    }
}

#[test]
fn a_venue_starts_untrusted_and_earns_health_from_data() {
    let mut monitor = HealthMonitor::default();
    assert!(!monitor.can_trade(Venue::Kalshi, 1_000));
    assert_eq!(
        monitor.venue(Venue::Kalshi).state,
        HealthState::Disconnected
    );

    monitor.apply_feed_event(&delta(1_000), Venue::Kalshi, 1_000);
    assert!(monitor.can_trade(Venue::Kalshi, 1_000));

    // A subscription acknowledgement is not data, so it does not restore
    // health on its own.
    monitor.apply_feed_event(
        &FeedEvent::Disconnected {
            venue: Venue::Kalshi,
        },
        Venue::Kalshi,
        1_100,
    );
    monitor.apply_feed_event(
        &FeedEvent::Resubscribed {
            contract: ContractId(0),
        },
        Venue::Kalshi,
        1_200,
    );
    assert!(!monitor.can_trade(Venue::Kalshi, 1_200));
    monitor.apply_feed_event(&delta(1_300), Venue::Kalshi, 1_300);
    assert!(monitor.can_trade(Venue::Kalshi, 1_300));
}

#[test]
fn silence_past_the_idle_budget_blocks_trading() {
    let mut monitor = HealthMonitor::new(5_000);
    monitor.apply_feed_event(&delta(1_000), Venue::Kalshi, 1_000);
    assert!(monitor.can_trade(Venue::Kalshi, 6_000), "exactly at budget");
    assert!(!monitor.can_trade(Venue::Kalshi, 6_001));
    assert_eq!(monitor.venue(Venue::Kalshi).state, HealthState::Stale);
    // One message brings it straight back.
    monitor.apply_feed_event(&delta(6_500), Venue::Kalshi, 6_500);
    assert!(monitor.can_trade(Venue::Kalshi, 6_500));
}

#[test]
fn three_consecutive_errors_stop_trading_and_one_success_clears_them() {
    let mut monitor = HealthMonitor::default();
    monitor.apply_feed_event(&delta(1_000), Venue::Kalshi, 1_000);
    monitor.note_error(Venue::Kalshi);
    monitor.note_error(Venue::Kalshi);
    // Two is noise; the venue is still tradeable.
    assert!(monitor.can_trade(Venue::Kalshi, 1_000));
    monitor.note_error(Venue::Kalshi);
    assert!(!monitor.can_trade(Venue::Kalshi, 1_000));
    assert_eq!(monitor.venue(Venue::Kalshi).state, HealthState::Erroring);

    monitor.apply_feed_event(&delta(1_100), Venue::Kalshi, 1_100);
    assert_eq!(monitor.venue(Venue::Kalshi).consecutive_errors, 0);
    assert!(monitor.can_trade(Venue::Kalshi, 1_100));
}

#[test]
fn a_specific_failure_is_not_overwritten_by_staleness() {
    let mut monitor = HealthMonitor::new(100);
    monitor.apply_feed_event(&delta(1_000), Venue::Kalshi, 1_000);
    monitor.apply_feed_event(
        &FeedEvent::Disconnected {
            venue: Venue::Kalshi,
        },
        Venue::Kalshi,
        1_000,
    );
    // Long past the idle budget, but "disconnected" is the useful reason.
    assert!(!monitor.can_trade(Venue::Kalshi, 99_000));
    assert_eq!(
        monitor.venue(Venue::Kalshi).state,
        HealthState::Disconnected
    );
}

/// Two venues, two sockets, two independent verdicts. One going down must
/// not cost the other its health, or a Polymarket outage would stop Kalshi
/// trading for no reason.
#[test]
fn one_venue_failing_leaves_the_other_tradeable() {
    let mut monitor = HealthMonitor::for_venues(5_000, &[Venue::Kalshi, Venue::Polymarket]);
    monitor.apply_feed_event(&delta(1_000), Venue::Kalshi, 1_000);
    monitor.apply_feed_event(&delta(1_000), Venue::Polymarket, 1_000);
    assert_eq!(monitor.overall(1_000), OverallHealth::Connected);

    monitor.apply_feed_event(
        &FeedEvent::Disconnected {
            venue: Venue::Polymarket,
        },
        Venue::Polymarket,
        1_100,
    );
    assert!(monitor.can_trade(Venue::Kalshi, 1_100));
    assert!(!monitor.can_trade(Venue::Polymarket, 1_100));
    assert_eq!(monitor.overall(1_100), OverallHealth::Degraded);

    // Errors are counted against the venue that produced them.
    monitor.note_error(Venue::Polymarket);
    assert_eq!(monitor.venue(Venue::Kalshi).consecutive_errors, 0);
    assert_eq!(monitor.venue(Venue::Polymarket).consecutive_errors, 1);
}

/// A venue nobody subscribed to is absent, not broken. Counting it as a
/// failure would hold every single-venue run at Degraded forever.
#[test]
fn an_unsubscribed_venue_is_absent_rather_than_unhealthy() {
    let mut monitor = HealthMonitor::for_venues(5_000, &[Venue::Kalshi]);
    monitor.apply_feed_event(&delta(1_000), Venue::Kalshi, 1_000);

    assert_eq!(monitor.overall(1_000), OverallHealth::Connected);
    assert!(!monitor.venue(Venue::Polymarket).subscribed);
    assert!(monitor.venue(Venue::Kalshi).subscribed);

    // And once the only subscribed venue goes, there is nothing left to
    // trade on, which is Erroring rather than Degraded.
    monitor.apply_feed_event(
        &FeedEvent::Disconnected {
            venue: Venue::Kalshi,
        },
        Venue::Kalshi,
        1_100,
    );
    assert_eq!(monitor.overall(1_100), OverallHealth::Erroring);
}
