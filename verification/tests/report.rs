use sum100::book::BookStore;
use sum100::discovery::{infer_groups, RawEvent, RawMarket, Universe};
use sum100::engine::EngineMetrics;
use sum100::feed::FeedEvent;
use sum100::portfolio::PortfolioSummary;
use sum100::registry::Registry;
use sum100::report::{
    book_table, discovery_output, registry_summary, render_registry_toml, scan_report,
};
use sum100::solver::types::SolverMetrics;
use sum100::types::{ContractId, Level, Venue};

fn universe() -> Universe {
    let market = |ticker: &str| RawMarket {
        ticker: ticker.into(),
        event_ticker: "POPE".into(),
        title: "t".into(),
        strike_type: None,
        floor_strike: None,
        cap_strike: None,
        status: "open".into(),
        close_time: Some("2026-09-20T21:00:00Z".into()),
    };
    Universe {
        fetched_at_ms: 1_000,
        markets: vec![market("POPE-A"), market("POPE-B")],
        events: vec![RawEvent {
            event_ticker: "POPE".into(),
            series_ticker: "KXPOPE".into(),
            title: "The \"next\" pope".into(),
            mutually_exclusive: true,
        }],
    }
}

#[test]
fn a_book_stands_on_one_line_under_its_columns() {
    let mut store = BookStore::new(Venue::Kalshi, &["KXA".to_string()]).unwrap();
    store.apply(
        &FeedEvent::Snapshot {
            contract: ContractId(0),
            yes: vec![Level { price: 44, size: 7 }],
            no: vec![Level { price: 54, size: 5 }],
            seq: 91,
            venue_ts_ms: None,
        },
        1_000,
    );
    let lines = book_table(&store, 1_250);
    assert_eq!(
        lines,
        [
            format!(
                "{:<32} {:<14} {:>8} {:>12} {:>12} {:>12} {:>12} {:>8}",
                "ticker", "state", "seq", "yes_bid", "yes_ask", "no_bid", "no_ask", "age_ms"
            ),
            format!(
                "{:<32} {:<14} {:>8} {:>12} {:>12} {:>12} {:>12} {:>8}",
                "KXA", "live", 91, "44x7", "46x5", "54x5", "56x7", 250
            ),
        ]
    );
}

#[test]
fn a_registry_is_summed_up() {
    let registry = Registry::from_universe(&universe()).unwrap();
    assert_eq!(
        registry_summary(&registry),
        [
            "events     1".to_string(),
            format!(
                "  {:<24} resolves {}  {}",
                "POPE", "2026-09-20T21:00:00+00:00", "The \"next\" pope"
            ),
            "groups     3 (complement 2, exhaustive 1, monotone 0, implies 0, equivalent 0)"
                .to_string(),
            "contracts  kalshi 2, polymarket 0".to_string(),
        ]
    );
}

#[test]
fn a_rendered_registry_loads_back() {
    let registry = Registry::from_universe(&universe()).unwrap();
    let text = render_registry_toml(&registry);
    assert!(text.contains("description = \"The 'next' pope\""));
    assert!(text.contains("theme = \"KXPOPE\""));
    let again = Registry::parse(&text).unwrap();
    assert_eq!(
        again.tickers(Venue::Kalshi),
        registry.tickers(Venue::Kalshi)
    );
    assert_eq!(again.groups().len(), registry.groups().len());
    for (a, b) in again.groups().iter().zip(registry.groups()) {
        assert_eq!(a.relation, b.relation);
        assert_eq!(a.resolves_at_ms, b.resolves_at_ms);
        // What a human has read is no longer a guess.
        assert!(!a.inferred && b.inferred);
    }
}

#[test]
fn a_discovery_shows_a_sample_of_its_groups() {
    let universe = universe();
    let registry = Registry::from_universe(&universe).unwrap();
    let (groups, report) = infer_groups(&universe);
    let output = discovery_output(&universe, &groups, &report, &registry);
    assert_eq!(output.markets, 2);
    assert_eq!(output.constraint_groups, 3);
    assert_eq!(output.other_events, 1);
    assert_eq!(output.inferred_groups, 3);
    assert_eq!(output.kalshi_contracts, 2);
    assert_eq!(output.sample_groups.len(), 3);
    assert_eq!(output.sample_groups[2].relation, "exhaustive");
    assert_eq!(output.sample_groups[2].event_title, "The \"next\" pope");
    assert_eq!(output.sample_groups[2].members, ["POPE-A", "POPE-B"]);
}

#[test]
fn a_run_reports_only_the_refusals_it_made() {
    let store = BookStore::new(Venue::Kalshi, &["KXA".to_string()]).unwrap();
    let engine = EngineMetrics {
        events_received: 12,
        blocked_risk_limit: 2,
        ..EngineMetrics::default()
    };
    let solver = SolverMetrics {
        rejected_stale: 3,
        rejected_no_depth: 4,
        ..SolverMetrics::default()
    };
    let portfolio = PortfolioSummary {
        capital_available_cents: 900,
        capital_locked_cents: 100,
        open_positions: 1,
        pnl_realized_cents: -5,
        pnl_unrealized_cents: 0,
        daily_loss_cents: 5,
        daily_loss_limit_cents: 100,
    };
    let lines = scan_report(&engine, &solver, &store, &portfolio, 7, 1);
    let has = |line: &str| lines.iter().any(|l| l == line);
    assert!(has("events received      12"));
    assert!(has("states broadcast     7 (lagged 1)"));
    assert!(has("books                0 live, 0 resyncing, 1 uninitialized"));
    assert!(has(&format!("{:<22} {}", "  risk limit", 2)));
    assert!(has("capital              900 available, 100 locked"));
    assert!(has("pnl                  -5 realized, 0 unrealized"));
    assert!(has("rejections           7"));
    assert!(has(&format!("{:<22} {}", "  stale", 3)));
    assert!(!lines.iter().any(|l| l.contains("no capital")));
    assert!(!lines.iter().any(|l| l.contains("RECONCILIATION")));
}
