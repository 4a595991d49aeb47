use sum100::book::BookStore;
use sum100::engine::{Engine, EngineConfig, PlannedTrade, SignalLog};
use sum100::exec::atomic::ExecutionError;
use sum100::exec::paper::PaperOrderClient;
use sum100::exec::OrderError;
use sum100::feed::FeedEvent;
use sum100::fees::FeeModels;
use sum100::portfolio::Portfolio;
use sum100::registry::{EventId, Registry};
use sum100::types::{ContractId, Level, Side, Venue};

const NOW: u64 = 1_789_343_120_404;

const REGISTRY: &str = r#"
[[event]]
id = "e"
description = "d"
resolves_at = "2026-09-17T18:00:00Z"
resolution_source = "s"

[[event.group]]
type = "complement"
members = [{ venue = "kalshi", ticker = "KXA" }]
"#;

fn engine(config: EngineConfig, capital: i64) -> Engine<SignalLog> {
    let registry = Registry::parse(REGISTRY).unwrap();
    let store = BookStore::new(Venue::Kalshi, registry.tickers(Venue::Kalshi)).unwrap();
    Engine::new(
        registry,
        store,
        SignalLog::default(),
        FeeModels::default(),
        config,
        Portfolio::new(capital, 100_000, NOW),
    )
}

/// Yes bid 60 and no bid 55: both outcomes together cost 85 cents.
fn crossed(seq: u64) -> FeedEvent {
    FeedEvent::Snapshot {
        contract: ContractId(0),
        yes: vec![Level {
            price: 60,
            size: 100,
        }],
        no: vec![Level {
            price: 55,
            size: 100,
        }],
        seq,
        venue_ts_ms: None,
    }
}

fn planned(engine: &mut Engine<SignalLog>) -> Vec<PlannedTrade> {
    let opportunities = engine.step(&crossed(1), NOW);
    assert_eq!(opportunities.len(), 1);
    engine.approve(opportunities, NOW)
}

#[test]
fn a_crossed_book_becomes_a_settled_paper_trade() {
    let mut engine = engine(EngineConfig::default(), 1_000_000);
    let plans = planned(&mut engine);
    assert_eq!(plans.len(), 1);
    let plan = engine.release(plans, false).remove(0);
    assert_eq!(plan.event, EventId(0));
    assert_eq!(plan.trade.legs.len(), 2);

    let mut client = PaperOrderClient::new(FeeModels::default());
    client.observe(engine.book_store().books(), NOW);
    let answers = plan
        .trade
        .legs
        .iter()
        .map(|leg| client.place_order(leg))
        .collect();
    let outcome = plan.trade.conclude(Some(answers));
    assert!(outcome.is_ok());
    let signal = engine.settle(&plan, outcome, NOW).unwrap();
    assert_eq!(signal.qty, 100);
    assert_eq!(signal.legs.len(), 2);
    // Buying yes lifts the no bid at 55; buying no lifts the yes bid at 60.
    assert_eq!(signal.legs[0].cost_cents, 100 * 45);
    assert_eq!(signal.legs[1].cost_cents, 100 * 40);
    assert_eq!(engine.metrics.trades_placed, 1);
    assert_eq!(engine.sink().signals.len(), 1);
    assert_eq!(engine.portfolio.open_count(), 1);
}

#[test]
fn a_trade_that_cannot_be_paid_for_is_counted_and_dropped() {
    let mut engine = engine(EngineConfig::default(), 100);
    assert!(planned(&mut engine).is_empty());
    assert_eq!(engine.metrics.blocked_no_capital, 1);
}

#[test]
fn a_risk_limit_blocks_and_says_so() {
    let mut config = EngineConfig::default();
    config.risk.max_per_event_cents = 10;
    let mut engine = engine(config, 1_000_000);
    assert!(planned(&mut engine).is_empty());
    assert_eq!(engine.metrics.blocked_risk_limit, 1);
}

#[test]
fn a_live_client_needs_its_opt_in() {
    let mut engine = engine(EngineConfig::default(), 1_000_000);
    let plans = planned(&mut engine);
    assert!(engine.release(plans, true).is_empty());
}

#[test]
fn a_gap_solves_nothing_and_asks_for_a_resync() {
    let mut engine = engine(EngineConfig::default(), 1_000_000);
    engine.step(&crossed(1), NOW);
    let gap = FeedEvent::Delta {
        contract: ContractId(0),
        side: Side::Yes,
        price: 61,
        size_delta: 1,
        seq: 9,
        venue_ts_ms: NOW,
    };
    assert!(engine.step(&gap, NOW).is_empty());
    assert_eq!(engine.take_resync(), Some(Venue::Kalshi));
    assert_eq!(engine.take_resync(), None);
    assert_eq!(engine.metrics.sequence_gaps, 1);
}

#[test]
fn a_state_shows_the_books_as_they_stand() {
    let mut engine = engine(EngineConfig::default(), 1_000_000);
    engine.step(&crossed(1), NOW);
    engine.mark_to_market(NOW);
    engine.note_broadcast();
    let state = engine.state(&[], None, NOW + 5);
    assert_eq!(state.contracts.len(), 1);
    assert_eq!(state.contracts[0].ticker, "KXA");
    assert_eq!(state.contracts[0].best_bid, Some(60));
    assert_eq!(state.contracts[0].best_ask, Some(45));
    assert_eq!(state.contracts[0].age_ms, 5);
    assert!(state.health.kalshi_healthy);
    assert_eq!(state.engine.states_broadcast, 1);
    assert_eq!(engine.registry().groups().len(), 1);
    assert_eq!(engine.solver_metrics().opportunities_emitted, 1);
}

const PAIR: &str = r#"
[[event]]
id = "e"
description = "d"
resolves_at = "2026-09-17T18:00:00Z"
resolution_source = "s"

[[event.group]]
type = "equivalent"
verified = true
members = [
  { venue = "kalshi", ticker = "KXA" },
  { venue = "polymarket", token = "0xabc" },
]
"#;

#[test]
fn only_the_venue_that_missed_its_leg_is_blamed() {
    let registry = Registry::parse(PAIR).unwrap();
    let store = BookStore::multi_venue(&[
        (Venue::Kalshi, registry.tickers(Venue::Kalshi)),
        (Venue::Polymarket, registry.tickers(Venue::Polymarket)),
    ])
    .unwrap();
    let mut engine = Engine::new(
        registry,
        store,
        SignalLog::default(),
        FeeModels::default(),
        EngineConfig::default(),
        Portfolio::new(1_000_000, 100_000, NOW),
    );
    // Kalshi offers yes at 40, Polymarket offers no at 45.
    let quote = |contract: u32, yes: i64, no: i64| FeedEvent::Snapshot {
        contract: ContractId(contract),
        yes: vec![Level {
            price: yes,
            size: 100,
        }],
        no: vec![Level {
            price: no,
            size: 100,
        }],
        seq: 1,
        venue_ts_ms: None,
    };
    engine.step(&quote(0, 38, 60), NOW);
    let found = engine.step(&quote(1, 55, 43), NOW);
    assert_eq!(found.len(), 1);
    let plans = engine.approve(found, NOW);
    let plan = engine.release(plans, false).remove(0);
    assert_eq!(plan.opportunity.legs[0].venue, Venue::Kalshi);
    assert_eq!(plan.opportunity.legs[1].venue, Venue::Polymarket);

    let mut client = PaperOrderClient::new(FeeModels::default());
    client.observe(engine.book_store().books(), NOW);
    let filled = client.place_order(&plan.trade.legs[0]).unwrap();
    let outcome = plan.trade.conclude(Some(vec![
        Ok(filled),
        Err(OrderError::Rejected("no".into())),
    ]));
    assert!(matches!(outcome, Err(ExecutionError::Legged { .. })));
    assert!(engine.settle(&plan, outcome, NOW).is_none());
    assert_eq!(engine.health.venue(Venue::Kalshi).consecutive_errors, 0);
    assert_eq!(engine.health.venue(Venue::Polymarket).consecutive_errors, 1);
    assert_eq!(engine.metrics.trades_needing_reconciliation, 1);
}
