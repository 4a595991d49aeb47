use sum100::api::dashboard_state;
use sum100::engine::{
    ContractSummary, EngineMetrics, EngineState, HealthStatus, Signal, SignalLeg,
};
use sum100::health::HealthState;
use sum100::metrics::Metrics;
use sum100::portfolio::PortfolioSummary;
use sum100::risk::{RiskLimits, RiskStatus};
use sum100::solver::types::SolverMetrics;
use sum100::types::Venue;

/// A disconnected engine that has seen nothing, which is what the dashboard
/// used to render as a healthy venue with no errors and no latency.
fn silent_engine() -> EngineState {
    EngineState {
        timestamp_ms: 1_700_000_000_000,
        contracts: Vec::new(),
        opportunities: Vec::new(),
        engine: EngineMetrics::default(),
        solver: SolverMetrics::default(),
        portfolio: PortfolioSummary {
            capital_available_cents: 1_000_000,
            capital_locked_cents: 0,
            open_positions: 0,
            pnl_realized_cents: 0,
            pnl_unrealized_cents: 0,
            daily_loss_cents: 0,
            daily_loss_limit_cents: 100_000,
        },
        health: HealthStatus {
            kalshi_healthy: false,
            kalshi_state: HealthState::Disconnected,
            last_message_age_ms: 0,
            feed: None,
        },
        risk: RiskStatus {
            can_trade: false,
            reasons: Vec::new(),
            open_positions: 0,
            limits: RiskLimits::default(),
        },
    }
}

fn signal(legs: Vec<SignalLeg>) -> Signal {
    Signal {
        detected_at_ms: 1_700_000_000_000,
        group: 3,
        qty: 10,
        capital_cents: 950,
        fees_cents: 20,
        net_cents: 30,
        horizon_ms: 86_400_000,
        legs,
        order_ids: Vec::new(),
        filled_cost_cents: 950,
    }
}

fn leg(contract: u32, side: &'static str) -> SignalLeg {
    SignalLeg {
        venue: Venue::Kalshi,
        contract,
        side,
        qty: 10,
        cost_cents: 450,
        fee_cents: 10,
    }
}

fn quoted_book(contract: u32) -> ContractSummary {
    ContractSummary {
        contract,
        venue: Venue::Kalshi,
        ticker: format!("KXBTCD-T{contract}"),
        state: "live",
        seq: 91,
        best_bid: Some(44),
        best_ask: Some(46),
        best_no_bid: Some(54),
        best_no_ask: Some(56),
        age_ms: 12,
    }
}

/// Every health field the dashboard renders must move when the engine's own
/// counters move. The frame used to carry constants, so a dead feed and a
/// perfect one serialized identically and the panel could not tell them
/// apart; this pins both readings against the same projection.
#[test]
fn dashboard_state_reflects_actual_metrics() {
    let silent = dashboard_state(&silent_engine());
    let health = &silent.health;
    assert_eq!(health.connected, false);
    assert_eq!(health.parse_errors, 0);
    assert_eq!(health.reconnections, 0);
    assert_eq!(health.sequence_gaps, 0);
    assert_eq!(health.latency_ms.p50 as f64, 0.0);

    let mut feed = Metrics {
        messages_received: 4_812,
        parse_errors: 3,
        reconnections: 2,
        ..Metrics::default()
    };
    // Ten quick deltas and one that took nine seconds, so the median and the
    // tail have to disagree for the panel to be telling the truth.
    for _ in 0..10 {
        feed.observe_latency(8, 0);
    }
    feed.observe_latency(9_000, 0);

    let mut state = silent_engine();
    state.health.kalshi_healthy = true;
    state.health.kalshi_state = HealthState::Healthy;
    state.health.feed = Some(feed);
    state.engine.sequence_gaps = 5;
    state.engine.events_received = 4_700;

    let live = dashboard_state(&state);
    let health = &live.health;
    assert_eq!(health.connected, true);
    assert_eq!(health.parse_errors, 3);
    assert_eq!(health.reconnections, 2);
    assert_eq!(health.sequence_gaps, 5);
    // Frames off the socket, not events that survived the parser.
    assert_eq!(health.messages_received, 4_812);
    assert_eq!(health.latency_ms.p50 as f64, 10.0);
    assert_eq!(health.latency_ms.p99 as f64, 500.0);
}

/// Latency is only meaningful once something has been timed. Zero samples
/// has to keep reporting zero rather than inheriting a bucket bound.
#[test]
fn an_unmeasured_feed_reports_zero_latency_rather_than_a_bucket_bound() {
    let mut state = silent_engine();
    state.health.feed = Some(Metrics {
        messages_received: 12,
        ..Metrics::default()
    });

    let latency = dashboard_state(&state).health.latency_ms;
    assert_eq!(latency.p50 as f64, 0.0);
    assert_eq!(latency.p95 as f64, 0.0);
    assert_eq!(latency.p99 as f64, 0.0);
}

/// A leg that buys the no outcome is filled against resting yes bids, so it
/// must be quoted off the no ladder. Publishing the yes quote for both sides
/// would show a 46 cent ask on a leg that actually pays 56.
#[test]
fn a_leg_is_quoted_on_the_side_of_the_book_it_buys() {
    let mut state = silent_engine();
    state.contracts = vec![quoted_book(7)];
    state.opportunities = vec![signal(vec![leg(7, "yes"), leg(7, "no")])];

    let legs = dashboard_state(&state).opportunities.remove(0).legs;
    assert_eq!(legs[0].best_ask, 46);
    assert_eq!(legs[0].best_bid, 44);
    assert_eq!(legs[1].best_ask, 56);
    assert_eq!(legs[1].best_bid, 54);
}

/// An unquoted contract must not report a free one. The wire needs a number,
/// and the honest one is the price the solver costed the leg at.
#[test]
fn a_leg_with_no_book_falls_back_to_the_costed_price() {
    let mut state = silent_engine();
    state.opportunities = vec![signal(vec![leg(7, "yes")])];

    let legs = dashboard_state(&state).opportunities.remove(0).legs;
    assert_eq!(legs[0].best_ask, 45);
    assert_eq!(legs[0].best_bid, 0);
}
