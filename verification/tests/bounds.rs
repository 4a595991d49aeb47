use sum100::bounds::{
    can_date, can_mark, can_place, can_rank, can_settle, can_size, can_sum, can_total, has_room,
    is_sound,
};
use sum100::book::BookStore;
use sum100::exec::atomic::ExecutionResult;
use sum100::exec::paper::PaperOrderClient;
use sum100::exec::{NewOrder, OrderAction, OrderError, OrderFill, TimeInForce};
use sum100::fees::FeeModels;
use sum100::feed::merged;
use sum100::metrics::Metrics;
use sum100::portfolio::{Portfolio, Position, PositionLeg};
use sum100::registry::{EventId, Registry, Relation};
use sum100::solver::types::{SolverConfig, SolverMetrics};
use sum100::types::{Book, ContractId, Level, Side, Venue};

fn position(cost_cents: i64) -> Position {
    Position {
        event_id: EventId(0),
        group: 0,
        legs: vec![PositionLeg {
            contract_id: ContractId(0),
            side: Side::Yes,
            quantity: 10,
            average_entry_price: 40,
            order_ids: Vec::new(),
        }],
        cost_cents,
        fees_cents: 0,
        entry_time_ms: 0,
        resolved: false,
        pnl_realized_cents: 0,
        pnl_unrealized_cents: 0,
    }
}

#[test]
fn a_sizable_registry_is_sized() {
    let registry = Registry::new(vec![(
        Relation::Exhaustive {
            members: vec![ContractId(0), ContractId(1), ContractId(2)],
        },
        1_000,
    )])
    .unwrap();
    let fees = FeeModels::default();
    let mut config = SolverConfig::default();
    assert!(can_size(&registry, &fees, &config));
    config.max_position_size = 1_000_000_000;
    assert!(can_size(&registry, &fees, &config));
    config.max_position_size = i64::MAX;
    assert!(!can_size(&registry, &fees, &config));
    config.max_position_size = -1;
    assert!(can_size(&registry, &fees, &config));
    let mut dear = FeeModels::default();
    dear.kalshi.multiplier_denom = 0;
    assert!(!can_size(&registry, &dear, &config));
}

#[test]
fn the_last_day_has_no_midnight_after_it() {
    assert!(can_date(0));
    assert!(can_date(1_700_000_000_000));
    assert!(!can_date(u64::MAX));
}

#[test]
fn portfolios_that_do_not_add_up_are_told_apart() {
    let mut portfolio = Portfolio::new(1_000, 100, 0);
    assert!(is_sound(&portfolio) && can_sum(&portfolio));
    portfolio.positions.push(position(i64::MAX - 1_000));
    assert!(is_sound(&portfolio) && can_sum(&portfolio));
    portfolio.positions.push(position(1));
    assert!(!is_sound(&portfolio) && can_sum(&portfolio));
    portfolio.positions.push(position(1_000));
    assert!(!can_sum(&portfolio));
    let mut owing = Portfolio::new(1_000, 100, 0);
    owing.positions.push(position(-1));
    assert!(!is_sound(&owing));
    let store = BookStore::new(Venue::Kalshi, &["KXA".to_string()]).unwrap();
    assert!(can_mark(&owing, &store.at(0)));
    owing.positions[0].cost_cents = i64::MIN;
    assert!(!can_mark(&owing, &store.at(0)));
    owing.positions[0].resolved = true;
    assert!(can_mark(&owing, &store.at(0)));
}

#[test]
fn a_fill_that_cannot_be_counted_is_not_settled() {
    let mut fill = OrderFill {
        order_id: "a".into(),
        contract_id: ContractId(0),
        outcome: Side::Yes,
        action: OrderAction::Buy,
        quantity_filled: 10,
        average_price: 40,
        fee_cents: 2,
        timestamp_ms: 0,
    };
    let result = ExecutionResult { fills: vec![fill.clone(), fill.clone()] };
    assert!(can_settle(&result, 1_000));
    assert!(!can_settle(&result, i64::MIN));
    fill.quantity_filled = i64::MAX;
    assert!(!can_settle(&ExecutionResult { fills: vec![fill] }, 0));
}

#[test]
fn an_order_too_large_to_price_is_not_placed() {
    let fees = FeeModels::default();
    let mut client = PaperOrderClient::new(fees.clone());
    let mut order = NewOrder {
        contract_id: ContractId(0),
        ticker: "KXA".into(),
        outcome: Side::Yes,
        action: OrderAction::Buy,
        quantity: 500,
        limit_price: 40,
        time_in_force: TimeInForce::FillOrKill,
        client_order_id: "a".into(),
    };
    // Without a book there is nothing to price.
    order.quantity = i64::MAX;
    assert!(can_place(&fees, &order, &client));
    let mut book = Book::new(Venue::Kalshi, ContractId(0));
    let offer = |size: i64| [Level { price: 60, size }];
    book.apply_snapshot(&[], &offer(300), 1, 1).unwrap();
    client.observe(&[book.clone()], 1);
    // A thin book keeps even the largest order countable.
    assert!(can_place(&fees, &order, &client));
    assert_eq!(
        client.place_order(&order),
        Err(OrderError::Unfillable { wanted: i64::MAX, available: 300 })
    );
    book.apply_snapshot(&[], &offer(i64::MAX), 2, 1).unwrap();
    client.observe(&[book.clone()], 1);
    assert!(!can_place(&fees, &order, &client));
    // The premium fits here, and the fee does not.
    order.quantity = i64::MAX / 1_000;
    assert!(!can_place(&fees, &order, &client));
    order.quantity = 500;
    assert!(can_place(&fees, &order, &client));
    order.quantity = -1;
    assert!(can_place(&fees, &order, &client));
    // The other venue's schedule counts in 128 bits.
    let mut tokens = Book::new(Venue::Polymarket, ContractId(0));
    tokens.apply_snapshot(&[], &offer(i64::MAX), 1, 1).unwrap();
    client.observe(&[tokens], 1);
    order.quantity = i64::MAX / 1_000;
    assert!(can_place(&fees, &order, &client));
}

#[test]
fn full_counters_are_told_apart() {
    let mut metrics = Metrics::default();
    assert!(has_room(&metrics) && can_rank(&metrics));
    metrics.latency_buckets[6] = u64::MAX;
    assert!(!has_room(&metrics) && can_rank(&metrics));
    metrics.latency_buckets[0] = 1;
    assert!(!can_rank(&metrics));
    metrics = Metrics::default();
    metrics.parse_errors = u64::MAX;
    assert!(!has_room(&metrics));
    assert!(merged::can_total(&[Some(metrics), None, Some(Metrics::default())]));
    assert!(!merged::can_total(&[Some(metrics), None, Some(metrics)]));
    let mut solver = SolverMetrics::default();
    assert!(can_total(&solver));
    solver.rejected_stale = u64::MAX;
    assert!(can_total(&solver));
    solver.rejected_not_live = 1;
    assert!(!can_total(&solver));
}
