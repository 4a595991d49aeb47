use sum100::portfolio::{Portfolio, Position, PositionLeg};
use sum100::registry::{EventId, GroupId, Registry, Relation};
use sum100::risk::{check, RiskError, RiskLimits};
use sum100::types::{Cents, ContractId, Side};

const NOW: u64 = 1_789_343_120_404;

fn registry_with_themes() -> Registry {
    Registry::parse(
        r#"
[[event]]
id = "fed-sep"
description = "FOMC September"
resolves_at = "2026-09-17T18:00:00Z"
resolution_source = "FOMC statement"
theme = "fed"

[[event.group]]
type = "complement"
members = [{ venue = "kalshi", ticker = "KXFED-26SEP-C25" }]

[[event]]
id = "fed-oct"
description = "FOMC October"
resolves_at = "2026-10-29T18:00:00Z"
resolution_source = "FOMC statement"
theme = "fed"

[[event.group]]
type = "complement"
members = [{ venue = "kalshi", ticker = "KXFED-26OCT-C25" }]

[[event]]
id = "btc"
description = "BTC hourly"
resolves_at = "2026-09-14T21:00:00Z"
resolution_source = "Kalshi"

[[event.group]]
type = "complement"
members = [{ venue = "kalshi", ticker = "KXBTCD-26SEP1417-T70000" }]
"#,
    )
    .unwrap()
}

fn position(event: EventId, cost_cents: Cents) -> Position {
    Position {
        event_id: event,
        group: 0,
        legs: vec![PositionLeg {
            contract_id: ContractId(0),
            side: Side::Yes,
            quantity: 1,
            average_entry_price: cost_cents,
            order_ids: Vec::new(),
        }],
        cost_cents,
        fees_cents: 0,
        entry_time_ms: NOW,
        resolved: false,
        pnl_realized_cents: 0,
        pnl_unrealized_cents: 0,
    }
}

fn portfolio_holding(positions: &[(EventId, Cents)]) -> Portfolio {
    let mut portfolio = Portfolio::new(10_000_000, 1_000_000, NOW);
    for (event, cost) in positions {
        portfolio.add_position(position(*event, *cost)).unwrap();
    }
    portfolio
}

#[test]
fn a_trade_cannot_step_over_the_event_limit_it_was_under() {
    let registry = registry_with_themes();
    let limits = RiskLimits::default();
    let portfolio = portfolio_holding(&[(EventId(0), 45_000)]);

    // 45000 held plus 5000 is exactly the 50000 limit: allowed.
    assert!(check(&portfolio, &registry, EventId(0), None, 5_000, &limits).is_ok());
    // One cent more is not.
    assert_eq!(
        check(&portfolio, &registry, EventId(0), None, 5_001, &limits),
        Err(RiskError::EventLimitExceeded {
            would_be: 50_001,
            limit: 50_000,
        })
    );
    // A different event has its own budget.
    assert!(check(&portfolio, &registry, EventId(2), None, 40_000, &limits).is_ok());
}

#[test]
fn theme_exposure_pools_across_separate_events() {
    let registry = registry_with_themes();
    let limits = RiskLimits::default();
    // Two different Fed events, 45000 each, both under the event limit.
    let portfolio = portfolio_holding(&[(EventId(0), 45_000), (EventId(1), 45_000)]);
    assert!(check(&portfolio, &registry, EventId(0), None, 5_000, &limits).is_ok());

    // Together they are 90000 of one resolution source; 10001 more breaks
    // the theme budget even though the event budget has room.
    assert_eq!(
        check(
            &portfolio,
            &registry,
            EventId(0),
            Some("fed"),
            5_000,
            &limits
        ),
        Ok(())
    );
    assert_eq!(
        check(
            &portfolio,
            &registry,
            EventId(2),
            Some("fed"),
            10_001,
            &limits
        ),
        Err(RiskError::ThemeLimitExceeded {
            would_be: 100_001,
            limit: 100_000,
        })
    );
    // The untethered BTC event does not draw on the Fed budget.
    assert!(check(&portfolio, &registry, EventId(2), None, 40_000, &limits).is_ok());
}

#[test]
fn the_concurrency_limit_counts_only_open_positions() {
    let registry = registry_with_themes();
    let limits = RiskLimits {
        max_concurrent_trades: 2,
        ..RiskLimits::default()
    };
    let mut portfolio = portfolio_holding(&[(EventId(0), 100), (EventId(1), 100)]);
    assert_eq!(
        check(&portfolio, &registry, EventId(2), None, 100, &limits),
        Err(RiskError::ConcurrentTradeLimit { open: 2, limit: 2 })
    );
    // Settling one frees a slot.
    portfolio.realize(EventId(0), true).unwrap();
    assert!(check(&portfolio, &registry, EventId(2), None, 100, &limits).is_ok());
}

#[test]
fn an_empty_portfolio_accepts_a_trade_inside_every_limit() {
    let registry = registry_with_themes();
    let portfolio = portfolio_holding(&[]);
    assert!(
        check(
            &portfolio,
            &registry,
            EventId(0),
            Some("fed"),
            10_000,
            &RiskLimits::default()
        )
        .is_ok()
    );
    // Relations are untouched by risk; this only guards the registry shape
    // the themes were read from.
    assert!(matches!(
        registry
            .group(GroupId(0))
            .unwrap()
            .relation,
        Relation::Complement { .. }
    ));
}
