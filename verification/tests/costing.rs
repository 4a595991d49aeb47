use sum100::fees::{FeeModel, KalshiFees};
use sum100::registry::{GroupId, Relation};
use sum100::solver::costing::{
    apply_fees_per_level, freshness_gate, horizon_to, min_payoff_per_unit, rank, size_breakpoints,
    total_cost_cents, walk_depth_and_cost, worst_price_cents,
};
use sum100::solver::types::{CandidateLeg, Opportunity, RejectReason, MIN_HORIZON_MS};
use sum100::types::{Book, Cents, ContractId, Level, Side, Venue};

const DAY_MS: u64 = 86_400_000;

fn ladder(levels: &[(Cents, i64)]) -> Vec<Level> {
    levels
        .iter()
        .map(|(price, size)| Level {
            price: *price,
            size: *size,
        })
        .collect()
}

#[test]
fn depth_walk_pays_each_level_not_the_top_price() {
    let mut book = Book::new(Venue::Kalshi, ContractId(0));
    // Yes asks at 40, 42, 45 are no bids at 60, 58, 55.
    book.apply_snapshot(&[], &ladder(&[(60, 10), (58, 20), (55, 100)]), 1, 1_000)
        .unwrap();

    let walk = walk_depth_and_cost(&book, Side::Yes, 50);
    assert_eq!(walk.filled, 50);
    assert_eq!(walk.consumed, ladder(&[(40, 10), (42, 20), (45, 20)]));
    // Top of book times quantity would have said 2000; the truth is higher.
    assert_eq!(walk.total_cost_cents, 400 + 840 + 900);
    assert_eq!(total_cost_cents(&walk.consumed, 50), walk.total_cost_cents);
    // A prefix is priced at the levels it actually reaches.
    assert_eq!(total_cost_cents(&walk.consumed, 15), 10 * 40 + 5 * 42);
    // Requesting more than the book holds fills what exists, no more.
    assert_eq!(walk_depth_and_cost(&book, Side::Yes, 500).filled, 130);
}

#[test]
fn fees_are_charged_once_per_level_and_never_understate() {
    let fees = KalshiFees::default();
    let consumed = ladder(&[(40, 10), (42, 20)]);
    let per_level = apply_fees_per_level(&consumed, ContractId(0), 30, &fees);
    assert_eq!(per_level, fees.taker_fee(ContractId(0), 40, 10) + fees.taker_fee(ContractId(0), 42, 20));
    // Blending to an average price and rounding once would undercharge.
    let blended_price = (10 * 40 + 20 * 42) / 30;
    assert!(per_level >= fees.taker_fee(ContractId(0), blended_price, 30));
}

#[test]
fn min_payoff_is_computed_from_the_relation_not_assumed() {
    let legs = |pairs: &[(u32, Side)]| -> Vec<CandidateLeg> {
        pairs
            .iter()
            .map(|(id, side)| CandidateLeg {
                venue: Venue::Kalshi,
                contract_id: ContractId(*id),
                side: *side,
            })
            .collect()
    };
    let exhaustive = Relation::Exhaustive {
        members: vec![ContractId(0), ContractId(1), ContractId(2)],
    };
    assert_eq!(
        min_payoff_per_unit(
            &exhaustive,
            &legs(&[(0, Side::Yes), (1, Side::Yes), (2, Side::Yes)])
        ),
        100
    );
    // Drop a leg and one state pays nothing: not an arbitrage at any price.
    assert_eq!(
        min_payoff_per_unit(&exhaustive, &legs(&[(0, Side::Yes), (1, Side::Yes)])),
        0
    );
    // The ladder trade pays 100 in two states and 200 in the middle one;
    // only the worst case may be counted.
    let ladder_relation = Relation::Monotone {
        ordered: vec![ContractId(0), ContractId(1)],
    };
    assert_eq!(
        min_payoff_per_unit(&ladder_relation, &legs(&[(0, Side::Yes), (1, Side::No)])),
        100
    );
    // The reversed ladder trade pays nothing when only the weak rung hits.
    assert_eq!(
        min_payoff_per_unit(&ladder_relation, &legs(&[(1, Side::Yes), (0, Side::No)])),
        0
    );
}

#[test]
fn breakpoints_are_level_boundaries_capped_at_the_thinnest_leg() {
    let ladders = vec![ladder(&[(40, 10), (42, 90)]), ladder(&[(50, 30), (52, 70)])];
    assert_eq!(size_breakpoints(&ladders, 60), vec![10, 30, 60]);
    // A cap below every boundary still evaluates the cap itself.
    assert_eq!(size_breakpoints(&ladders, 5), vec![5]);
}

#[test]
fn ranking_prefers_the_shorter_lockup_at_equal_profit() {
    let base = Opportunity {
        group: GroupId(0),
        legs: Vec::new(),
        qty: 1,
        guaranteed_payoff_cents: 100,
        capital_cents: 5_000,
        gross_cents: 1,
        fees_cents: 0,
        net_cents: 1,
        horizon_ms: 240 * DAY_MS,
    };
    let quick = Opportunity {
        group: GroupId(1),
        capital_cents: 50_000,
        net_cents: 2,
        horizon_ms: DAY_MS,
        ..base.clone()
    };
    let mut ranked = vec![base.clone(), quick.clone()];
    rank(&mut ranked);
    // 2 cents on $500 for a day is 1.46x; 1 cent on $50 for eight months is
    // 0.30x. Raw profit says the opposite, which is why ranking is on return.
    assert_eq!(ranked[0].group, quick.group);
    assert_eq!(ranked[1].group, base.group);
}

#[test]
fn horizon_is_floored_so_imminent_resolution_cannot_dominate() {
    assert_eq!(horizon_to(1_000 + 86_400_000, 1_000), DAY_MS);
    // Resolution inside the hour, or already past, clamps to the floor.
    assert_eq!(horizon_to(1_000, 1_000), MIN_HORIZON_MS);
    assert_eq!(horizon_to(0, 1_000), MIN_HORIZON_MS);
}

#[test]
fn the_worst_price_is_that_of_the_last_level_reached() {
    let levels = ladder(&[(40, 10), (42, 20)]);
    assert_eq!(worst_price_cents(&levels, 10), Some(40));
    assert_eq!(worst_price_cents(&levels, 11), Some(42));
    assert_eq!(worst_price_cents(&levels, 0), None);
}

#[test]
fn a_book_must_be_live_and_fresh_before_it_is_priced() {
    let mut book = Book::new(Venue::Kalshi, ContractId(0));
    assert_eq!(
        freshness_gate(&[&book], 1_000, 500),
        Err(RejectReason::NotLive)
    );
    book.apply_snapshot(&[], &ladder(&[(60, 10)]), 1, 1_000)
        .unwrap();
    assert_eq!(freshness_gate(&[&book], 1_500, 500), Ok(()));
    assert_eq!(
        freshness_gate(&[&book], 1_501, 500),
        Err(RejectReason::Stale)
    );
}

#[test]
fn a_walk_prices_every_smaller_walk_at_the_lowest_cost() {
    let mut book = Book::new(Venue::Kalshi, ContractId(0));
    book.apply_snapshot(&[], &ladder(&[(60, 10), (58, 20), (55, 100)]), 1, 1_000)
        .unwrap();
    let walk = walk_depth_and_cost(&book, Side::Yes, 50);
    for qty in 0..=walk.filled {
        assert_eq!(
            total_cost_cents(&walk.consumed, qty),
            walk_depth_and_cost(&book, Side::Yes, qty).total_cost_cents
        );
    }
    // Leaving five of the cheapest and taking five more of the dearest.
    assert!(walk.total_cost_cents < 5 * 40 + 20 * 42 + 25 * 45);
    // A negative quantity takes nothing.
    assert_eq!(total_cost_cents(&walk.consumed, -1), 0);
}

#[test]
fn a_loss_ranks_below_a_gain_and_a_slower_loss_above_a_faster_one() {
    let gain = Opportunity {
        group: GroupId(0),
        legs: Vec::new(),
        qty: 1,
        guaranteed_payoff_cents: 100,
        capital_cents: 5_000,
        gross_cents: 1,
        fees_cents: 0,
        net_cents: 1,
        horizon_ms: 240 * DAY_MS,
    };
    let fast = Opportunity {
        group: GroupId(1),
        net_cents: -1,
        horizon_ms: DAY_MS,
        ..gain.clone()
    };
    let slow = Opportunity {
        group: GroupId(2),
        net_cents: -1,
        ..gain.clone()
    };
    let mut ranked = vec![fast, slow, gain];
    rank(&mut ranked);
    let order: Vec<u32> = ranked.iter().map(|o| o.group.0).collect();
    assert_eq!(order, [0, 2, 1]);
}
