use sum100::book::BookStore;
use sum100::feed::FeedEvent;
use sum100::fees::FeeModels;
use sum100::registry::{GroupId, Registry};
use sum100::solver::types::SolverConfig;
use sum100::solver::Solver;
use sum100::types::{Cents, ContractId, Level, Side, Venue};

const NOW: u64 = 1_789_343_120_404;

const REGISTRY: &str = r#"
[[event]]
id = "e"
description = "d"
resolves_at = "2026-09-17T18:00:00Z"
resolution_source = "s"

[[event.group]]
type = "complement"
members = [{ venue = "kalshi", ticker = "KXA" }]

[[event.group]]
type = "complement"
members = [{ venue = "kalshi", ticker = "KXB" }]

[[event.group]]
type = "exhaustive"
members = [{ venue = "kalshi", ticker = "KXA" }, { venue = "kalshi", ticker = "KXB" }]

[[event.group]]
type = "complement"
members = [{ venue = "kalshi", ticker = "KXC" }]
"#;

/// Books that ask `asks[i]` for the yes and the no outcome of contract `i`.
fn store(registry: &Registry, asks: &[(Cents, Cents)], size: i64) -> BookStore {
    let mut store = BookStore::new(Venue::Kalshi, registry.tickers(Venue::Kalshi)).unwrap();
    for (i, (yes, no)) in asks.iter().enumerate() {
        store.apply(
            &FeedEvent::Snapshot {
                contract: ContractId(i as u32),
                yes: vec![Level {
                    price: 100 - no,
                    size,
                }],
                no: vec![Level {
                    price: 100 - yes,
                    size,
                }],
                seq: 1 + i as u64,
                venue_ts_ms: None,
            },
            NOW,
        );
    }
    store
}

#[test]
fn no_quantity_nets_more_than_the_one_chosen() {
    let registry = Registry::parse(REGISTRY).unwrap();
    let store = store(&registry, &[(5, 94), (50, 55), (50, 55)], 13);
    let mut solver = Solver::new();
    let found = solver.evaluate(
        &registry,
        &store.at(NOW),
        &[ContractId(0)],
        &FeeModels::default(),
        &SolverConfig::default(),
    );
    // Twelve pay 4 and 5 cents of fees on a gross of 12. Thirteen pay a cent
    // more on either leg, which is more than the extra cent they earn.
    let pair = found.iter().find(|o| o.group == GroupId(0)).unwrap();
    assert_eq!(pair.qty, 12);
    assert_eq!(pair.gross_cents, 12);
    assert_eq!(pair.fees_cents, 9);
    assert_eq!(pair.net_cents, 3);
}

#[test]
fn an_evaluation_sees_the_set_of_dirty_contracts() {
    let registry = Registry::parse(REGISTRY).unwrap();
    let store = store(&registry, &[(45, 40), (40, 45), (45, 40)], 100);
    let run = |dirty: &[ContractId]| {
        let mut solver = Solver::new();
        let found = solver.evaluate(
            &registry,
            &store.at(NOW),
            dirty,
            &FeeModels::default(),
            &SolverConfig::default(),
        );
        (format!("{found:?}"), solver.metrics)
    };
    let (once, metrics) = run(&[ContractId(0), ContractId(1)]);
    let (again, others) = run(&[ContractId(1), ContractId(0), ContractId(1), ContractId(0)]);
    assert_eq!(once, again);
    assert_eq!(format!("{metrics:?}"), format!("{others:?}"));
    // Both complements and the partition, the latter once though both of its
    // members are dirty; the third market is left alone.
    assert_eq!(metrics.groups_evaluated, 3);
    assert_eq!(metrics.opportunities_emitted, 3);

    let (none, untouched) = run(&[]);
    assert_eq!(none, "[]");
    assert_eq!(untouched.groups_evaluated, 0);
}

#[test]
fn a_group_without_every_book_is_counted_and_rejected() {
    let registry = Registry::parse(REGISTRY).unwrap();
    let store = store(&registry, &[(45, 40)], 100);
    let mut solver = Solver::new();
    let found = solver.evaluate(
        &registry,
        &store.at(NOW),
        &[ContractId(0)],
        &FeeModels::default(),
        &SolverConfig::default(),
    );
    assert_eq!(found.len(), 1);
    assert_eq!(found[0].legs.len(), 2);
    assert_eq!(found[0].legs[0].side, Side::Yes);
    assert_eq!(solver.metrics.groups_evaluated, 2);
    assert_eq!(solver.metrics.rejected_not_live, 1);
}
