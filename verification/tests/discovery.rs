use sum100::discovery::cache::{assemble, file_name, is_fresh};
use sum100::discovery::polymarket::{market as gamma_market, GammaMarket, Walk};
use sum100::discovery::{
    event_close_times, infer_groups, polymarket_complement_groups, register_polymarket_fees,
    to_relation, validate_discovered_universe, DiscoveryScope, InferenceReport, InferredGroup,
    InferredKind, PolymarketMarket, RawEvent, RawMarket, Universe,
};
use sum100::feed::rest::{Event, Market};
use sum100::fees::{FeeCategory, PolymarketFees};
use sum100::registry::{GroupId, Registry, Relation};
use sum100::types::{ContractId, Contracts, Venue};

/// The place of a threshold among thresholds.
fn strike_key(strike: f64) -> i64 {
    let magnitude = strike.abs().to_bits() as i64;
    if strike < 0.0 {
        -magnitude
    } else {
        magnitude
    }
}

fn market(ticker: &str, event: &str, strike: Option<f64>) -> RawMarket {
    RawMarket {
        ticker: ticker.into(),
        event_ticker: event.into(),
        title: "t".into(),
        strike_type: strike.map(|_| "greater".into()),
        floor_strike: strike.map(strike_key),
        cap_strike: None,
        status: "active".into(),
        close_time: Some("2026-09-20T21:00:00Z".into()),
    }
}

fn universe(markets: Vec<RawMarket>, events: Vec<RawEvent>) -> Universe {
    Universe {
        fetched_at_ms: 1_000,
        markets,
        events,
    }
}

fn event(ticker: &str, exclusive: bool) -> RawEvent {
    RawEvent {
        event_ticker: ticker.into(),
        series_ticker: "S".into(),
        title: "e".into(),
        mutually_exclusive: exclusive,
    }
}

#[test]
fn every_binary_market_is_its_own_complement() {
    let u = universe(
        vec![market("A-1", "A", None), market("B-1", "B", None)],
        vec![event("A", false), event("B", false)],
    );
    let (groups, report) = infer_groups(&u);
    assert_eq!(report.complements, 2);
    assert_eq!(report.exhaustive_sets, 0);
    assert_eq!(report.ladders, 0);
    assert!(
        groups
            .iter()
            .all(|g| g.relation_kind == InferredKind::Complement && g.tickers.len() == 1)
    );
}

#[test]
fn a_mutually_exclusive_event_is_an_exhaustive_set_and_never_a_ladder() {
    // Seven papal candidates, no strikes: exactly one resolves yes.
    let markets: Vec<RawMarket> = ["PPAR", "PPIZ", "PERD"]
        .iter()
        .map(|s| market(&format!("POPE-{s}"), "POPE", None))
        .collect();
    let (groups, report) = infer_groups(&universe(markets, vec![event("POPE", true)]));
    assert_eq!(report.exhaustive_sets, 1);
    assert_eq!(report.ladders, 0);
    let set = groups
        .iter()
        .find(|g| g.relation_kind == InferredKind::Exhaustive)
        .unwrap();
    assert_eq!(set.tickers.len(), 3);

    // Even with strikes, exclusivity wins: brackets are a partition, and
    // reading them as nested claims would invert the relation.
    let bracketed: Vec<RawMarket> = [(1.0, "a"), (2.0, "b"), (3.0, "c")]
        .iter()
        .map(|(s, n)| market(&format!("BR-{n}"), "BR", Some(*s)))
        .collect();
    let (_, report) = infer_groups(&universe(bracketed, vec![event("BR", true)]));
    assert_eq!(report.exhaustive_sets, 1);
    assert_eq!(report.ladders, 0);
}

#[test]
fn threshold_rungs_become_a_ladder_ordered_weakest_first() {
    // Deliberately out of order on the wire.
    let markets = vec![
        market("BTC-T72000", "BTC", Some(71_999.99)),
        market("BTC-T71600", "BTC", Some(71_599.99)),
        market("BTC-T71800", "BTC", Some(71_799.99)),
    ];
    let (groups, report) = infer_groups(&universe(markets, vec![event("BTC", false)]));
    assert_eq!(report.ladders, 1);
    assert_eq!(report.complements, 3, "each rung is still a complement");
    let ladder = groups
        .iter()
        .find(|g| g.relation_kind == InferredKind::Monotone)
        .unwrap();
    // Lowest threshold first: "above 71,600" is the easiest claim.
    assert_eq!(ladder.tickers, ["BTC-T71600", "BTC-T71800", "BTC-T72000"]);
}

#[test]
fn a_less_than_ladder_runs_the_other_way() {
    let below = |ticker: &str, cap: f64| RawMarket {
        strike_type: Some("less".into()),
        floor_strike: None,
        cap_strike: Some(strike_key(cap)),
        ..market(ticker, "IDX", None)
    };
    let markets = vec![below("IDX-L70", 70.0), below("IDX-L80", 80.0)];
    let (groups, _) = infer_groups(&universe(markets, vec![event("IDX", false)]));
    let ladder = groups
        .iter()
        .find(|g| g.relation_kind == InferredKind::Monotone)
        .unwrap();
    // "below 80" is the likelier claim, so it leads.
    assert_eq!(ladder.tickers, ["IDX-L80", "IDX-L70"]);
}

#[test]
fn structures_the_venue_did_not_describe_are_left_alone() {
    let custom = |ticker: &str| RawMarket {
        strike_type: Some("custom".into()),
        ..market(ticker, "X", None)
    };
    let (groups, report) = infer_groups(&universe(
        vec![custom("X-1"), custom("X-2")],
        vec![event("X", false)],
    ));
    assert_eq!(report.events_not_inferable, 1);
    assert_eq!(report.ladders, 0);
    assert_eq!(report.exhaustive_sets, 0);
    // The complements still stand; they never depended on the structure.
    assert_eq!(report.complements, 2);
    assert!(
        groups
            .iter()
            .all(|g| g.relation_kind == InferredKind::Complement)
    );

    // Mixed strike types are not a ladder either.
    let mixed = vec![
        RawMarket {
            strike_type: Some("greater".into()),
            floor_strike: Some(strike_key(1.0)),
            ..market("M-1", "M", None)
        },
        custom("M-2"),
    ];
    let (_, report) = infer_groups(&universe(mixed, vec![event("M", false)]));
    assert_eq!(report.ladders, 0);

    // Two rungs at one threshold are the same claim twice.
    let duplicate = vec![market("D-1", "D", Some(5.0)), market("D-2", "D", Some(5.0))];
    let (_, report) = infer_groups(&universe(duplicate, vec![event("D", false)]));
    assert_eq!(report.ladders, 0);
}

#[test]
fn an_empty_universe_infers_nothing_rather_than_erroring() {
    let (groups, report) = infer_groups(&universe(Vec::new(), Vec::new()));
    assert!(groups.is_empty());
    assert_eq!(report, InferenceReport::default());
}

#[test]
fn inference_is_deterministic_regardless_of_wire_order() {
    let build = |order: [usize; 3]| {
        let all = [
            market("BTC-T72000", "BTC", Some(71_999.99)),
            market("BTC-T71600", "BTC", Some(71_599.99)),
            market("BTC-T71800", "BTC", Some(71_799.99)),
        ];
        let markets = order.iter().map(|i| all[*i].clone()).collect();
        infer_groups(&universe(markets, vec![event("BTC", false)])).0
    };
    // Contract ids are positional, so two runs of the same venue must
    // produce the same order or every id shifts underneath the book store.
    assert_eq!(build([0, 1, 2]), build([2, 0, 1]));
    assert_eq!(build([0, 1, 2]), build([1, 2, 0]));
}

#[test]
fn discovered_validation_rejects_closed_or_expired_markets() {
    let mut closed = market("A-1", "A", None);
    closed.status = "closed".into();
    let validation =
        validate_discovered_universe(&universe(vec![closed], vec![event("A", false)]), 1_000);
    assert!(!validation.is_valid());
    assert_eq!(validation.live_markets, 0);
    assert_eq!(validation.closed_markets, ["A-1"]);

    let mut expired = market("A-1", "A", None);
    expired.close_time = Some("1970-01-01T00:00:00Z".into());
    let validation =
        validate_discovered_universe(&universe(vec![expired], vec![event("A", false)]), 1_000);
    assert!(!validation.is_valid());
    assert_eq!(validation.closed_markets, ["A-1"]);
}

#[test]
fn discovered_validation_accepts_a_live_binary_market() {
    let mut live = market("A-1", "A", None);
    live.status = "open".into();
    let validation =
        validate_discovered_universe(&universe(vec![live], vec![event("A", false)]), 1_000);
    assert!(validation.is_valid(), "{validation:?}");
    assert_eq!(validation.groups, 1);
    assert_eq!(validation.live_markets, 1);
}

#[test]
fn auto_registry_interns_markets_and_indexes_inferred_groups() {
    let markets = vec![
        market("BTC-T72000", "BTC", Some(72_000.0)),
        market("BTC-T71600", "BTC", Some(71_600.0)),
        market("BTC-T71800", "BTC", Some(71_800.0)),
    ];
    let registry =
        Registry::from_universe(&universe(markets, vec![event("BTC", false)]))
            .unwrap();
    assert_eq!(
        registry.tickers(Venue::Kalshi),
        ["BTC-T71600", "BTC-T71800", "BTC-T72000",]
    );
    assert_eq!(
        registry.groups().len(),
        4,
        "three complements plus one ladder"
    );
    assert_eq!(registry.groups_for(ContractId(0)).len(), 2);
    assert_eq!(registry.inferred_count(), 4);
}

#[test]
fn non_default_scopes_use_separate_cache_files() {
    let default_name = file_name(&DiscoveryScope::default());
    let scoped = DiscoveryScope {
        series: Some("KXBTCD".into()),
        ..DiscoveryScope::default()
    };
    assert_eq!(default_name, "kalshi_markets.json.gz");
    assert_ne!(
        file_name(&scoped),
        default_name,
        "a series cache must not masquerade as a full-universe cache"
    );
    assert!(file_name(&scoped).contains("KXBTCD"));
    // What a file name cannot hold is replaced, and an empty filter is named.
    let odd = DiscoveryScope {
        status: String::new(),
        series: Some("KX/BTC".into()),
        max_pages: 3,
    };
    assert_eq!(file_name(&odd), "kalshi_markets-all-KX_BTC-3.json.gz");
}

#[test]
fn a_picture_is_fresh_until_its_age_reaches_the_limit() {
    assert!(is_fresh(10_000, 5, 14_999));
    assert!(!is_fresh(10_000, 5, 15_000));
    // A clock behind the picture makes it new, not ancient.
    assert!(is_fresh(10_000, 5, 1));
    assert!(!is_fresh(10_000, 0, 1));
    assert!(is_fresh(0, u64::MAX, u64::MAX - 1));
}

fn listed(ticker: &str, event: &str, status: &str, close: Option<&str>) -> Market {
    Market {
        ticker: ticker.into(),
        event_ticker: event.into(),
        title: "t".into(),
        strike_type: None,
        floor_strike: None,
        cap_strike: None,
        status: status.into(),
        close_time: close.map(|c| c.into()),
        expiration_time: Some("2026-12-31T00:00:00Z".into()),
    }
}

#[test]
fn a_fetch_keeps_the_scope_and_sorts_what_it_keeps() {
    let markets = vec![
        listed("B-1", "B", "open", None),
        listed("A-2", "A", "closed", None),
        listed("A-1", "A", "open", Some("2026-09-20T21:00:00Z")),
    ];
    let events = vec![
        Event {
            event_ticker: "B".into(),
            series_ticker: "S".into(),
            title: "b".into(),
            mutually_exclusive: false,
        },
        Event {
            event_ticker: "A".into(),
            series_ticker: "S".into(),
            title: "a".into(),
            mutually_exclusive: true,
        },
    ];
    let universe = assemble(&DiscoveryScope::default(), markets, events, 77);
    assert_eq!(universe.fetched_at_ms, 77);
    let tickers: Vec<&str> = universe.markets.iter().map(|m| m.ticker.as_str()).collect();
    assert_eq!(tickers, ["A-1", "B-1"]);
    assert_eq!(
        universe.markets[0].close_time.as_deref(),
        Some("2026-09-20T21:00:00Z")
    );
    // A market that does not say when trading stops stops when it expires.
    assert_eq!(
        universe.markets[1].close_time.as_deref(),
        Some("2026-12-31T00:00:00Z")
    );
    assert_eq!(universe.events[0].event_ticker, "A");
    assert!(universe.event("A").unwrap().mutually_exclusive);
    assert!(universe.event("C").is_none());
}

#[test]
fn markets_stand_under_their_event_in_ticker_order() {
    let u = universe(
        vec![
            market("B-1", "B", None),
            market("A-2", "A", None),
            market("A-1", "A", None),
        ],
        Vec::new(),
    );
    let listings = u.by_event();
    assert_eq!(listings.len(), 2);
    assert_eq!(listings[0].0, "A");
    let tickers: Vec<&str> = listings[0].1.iter().map(|m| m.ticker.as_str()).collect();
    assert_eq!(tickers, ["A-1", "A-2"]);
    assert_eq!(listings[1].0, "B");
}

#[test]
fn an_event_closes_with_its_first_market() {
    let mut early = market("A-1", "A", None);
    early.close_time = Some("2026-09-20T22:00:00+02:00".into());
    let late = market("A-2", "A", None);
    // 22:00 at +02:00 is 20:00 UTC, an hour before the other, though its text
    // is the later one.
    let closes = event_close_times(&universe(vec![late, early], Vec::new()));
    assert_eq!(
        closes.get("A").map(|c| c.as_str()),
        Some("2026-09-20T22:00:00+02:00")
    );
    assert!(closes.get("B").is_none());
}

#[test]
fn a_group_is_a_relation_only_over_known_contracts() {
    let mut contracts = Contracts::default();
    contracts.intern(Venue::Kalshi, "A").unwrap();
    contracts.intern(Venue::Kalshi, "B").unwrap();
    let mut group = InferredGroup {
        relation_kind: InferredKind::Exhaustive,
        tickers: vec!["B".into(), "A".into()],
        event_ticker: "E".into(),
    };
    assert_eq!(
        to_relation(&contracts, Venue::Kalshi, &group),
        Some(Relation::Exhaustive {
            members: vec![ContractId(1), ContractId(0)]
        })
    );
    assert_eq!(to_relation(&contracts, Venue::Polymarket, &group), None);
    group.tickers.push("C".into());
    assert_eq!(to_relation(&contracts, Venue::Kalshi, &group), None);
}

#[test]
fn a_ticker_under_two_events_fails_validation() {
    let u = universe(
        vec![market("A-1", "A", None), market("A-1", "B", None)],
        vec![event("A", false), event("B", false)],
    );
    let validation = validate_discovered_universe(&u, 1_000);
    assert!(!validation.is_valid());
    assert_eq!(
        validation.structural_errors,
        ["A group contains a market from another event"]
    );
}

#[test]
fn an_event_listed_twice_cannot_be_discovered() {
    let u = universe(
        vec![market("A-1", "A", None)],
        vec![event("A", false), event("A", false)],
    );
    assert_eq!(
        Registry::from_universe(&u).err().unwrap(),
        "duplicate event ticker \"A\""
    );
}

#[test]
fn an_event_without_a_horizon_is_left_out() {
    let mut endless = market("A-1", "A", None);
    endless.close_time = None;
    let registry = Registry::from_universe(&universe(
        vec![endless, market("B-1", "B", None)],
        vec![event("A", false), event("B", false)],
    ))
    .unwrap();
    assert_eq!(registry.tickers(Venue::Kalshi), ["B-1"]);
    assert_eq!(registry.events().len(), 1);
    assert_eq!(registry.events()[0].resolution_source, "kalshi:S");
    assert_eq!(registry.groups().len(), 1);
}

fn polymarket(token: &str, fee_type: Option<&str>, fees_enabled: bool) -> PolymarketMarket {
    PolymarketMarket {
        yes_token: token.into(),
        no_token: format!("{token}-no"),
        question: "q".into(),
        cent_tick: true,
        fee_type: fee_type.map(|f| f.into()),
        fees_enabled,
        ends_at: Some("2026-09-20T21:00:00Z".into()),
    }
}

#[test]
fn a_catalogue_entry_is_a_market_only_with_two_tokens_and_a_tick() {
    let entry = GammaMarket {
        question: "q".into(),
        clob_token_ids: Some("[\"1\", \"2\"]".into()),
        cent_tick: Some(true),
        fee_type: None,
        fees_enabled: true,
        closed: false,
        accepting_orders: true,
        end_date: None,
    };
    let found = gamma_market(&entry).unwrap();
    assert_eq!(found.yes_token, "1");
    assert_eq!(found.no_token, "2");
    assert!(found.tick_is_representable());
    // Fees on, and no schedule named: the dearest one.
    assert_eq!(found.fee_category(), FeeCategory::Crypto);

    let mut three = entry.clone();
    three.clob_token_ids = Some("[\"1\", \"2\", \"3\"]".into());
    assert!(gamma_market(&three).is_none());
    let mut numbers = entry.clone();
    numbers.clob_token_ids = Some("[1, 2]".into());
    assert!(gamma_market(&numbers).is_none());
    let mut closed = entry.clone();
    closed.closed = true;
    assert!(gamma_market(&closed).is_none());
    let mut unticked = entry.clone();
    unticked.cent_tick = None;
    assert!(gamma_market(&unticked).is_none());
}

#[test]
fn a_walk_keeps_what_it_can_hold_and_stops_when_it_has_enough() {
    let mut fine = polymarket("2", None, true);
    fine.cent_tick = false;
    let mut walk = Walk::new(2);
    assert!(walk.wants_more());
    walk.take(vec![polymarket("1", None, true), fine]);
    assert!(walk.wants_more());
    walk.take(vec![polymarket("3", None, true), polymarket("4", None, true)]);
    assert!(!walk.wants_more());
    let tokens: Vec<String> = walk.finish().into_iter().map(|m| m.yes_token).collect();
    assert_eq!(tokens, ["1", "3"]);

    let mut dry = Walk::new(2);
    dry.take(Vec::new());
    assert!(!dry.wants_more());
    assert!(dry.finish().is_empty());
}

#[test]
fn polymarket_markets_join_behind_the_kalshi_ones() {
    let mut registry = Registry::from_universe(&universe(
        vec![market("A-1", "A", None)],
        vec![event("A", false)],
    ))
    .unwrap();
    let mut endless = polymarket("0x2", None, true);
    endless.ends_at = None;
    let markets = vec![
        polymarket("0x1", Some("zero_fees"), true),
        endless,
        polymarket("0x1", None, true),
        polymarket("0x3", Some("sports_v3"), false),
    ];
    assert_eq!(registry.extend_with_polymarket(&markets), Ok(2));
    assert_eq!(registry.tickers(Venue::Polymarket), ["0x1", "0x3"]);
    assert_eq!(
        registry.contracts().get(Venue::Kalshi, "A-1"),
        Some(ContractId(0))
    );
    assert_eq!(registry.groups_for(ContractId(2)), [GroupId(2)]);
    assert_eq!(registry.inferred_count(), 3);

    let mut fees = PolymarketFees::default();
    // The first token is listed twice and registered twice; the last word wins.
    assert_eq!(
        register_polymarket_fees(&markets, registry.contracts(), &mut fees),
        3
    );
    assert_eq!(fees.category(ContractId(1)), FeeCategory::Crypto);
    assert_eq!(fees.category(ContractId(2)), FeeCategory::Zero);

    let groups = polymarket_complement_groups(&markets[..1]);
    assert_eq!(groups[0].tickers, ["0x1"]);
    assert_eq!(groups[0].relation_kind, InferredKind::Complement);
}

/// The groups in the order they came, by event and members.
fn shape(groups: &[InferredGroup]) -> Vec<(InferredKind, String, Vec<String>)> {
    groups
        .iter()
        .map(|g| (g.relation_kind, g.event_ticker.clone(), g.tickers.clone()))
        .collect()
}

#[test]
fn an_event_listed_twice_alike_is_one_event() {
    let markets = vec![
        market("B-2", "B", None),
        market("A-1", "A", Some(1.0)),
        market("B-1", "B", None),
        market("A-2", "A", Some(2.0)),
    ];
    let mut reversed = markets.clone();
    reversed.reverse();
    let listed = vec![event("B", true), event("A", false), event("B", true)];
    let mut shuffled = listed.clone();
    shuffled.reverse();
    shuffled.swap(0, 1);
    let (groups, report) = infer_groups(&universe(markets, listed));
    let (others, other_report) = infer_groups(&universe(reversed, shuffled));
    assert_eq!(shape(&groups), shape(&others));
    assert_eq!(report, other_report);

    // One complement a market, and one further group an event.
    for ticker in ["A-1", "A-2", "B-1", "B-2"] {
        let own: Vec<_> = groups
            .iter()
            .filter(|g| {
                g.relation_kind == InferredKind::Complement
                    && g.tickers.iter().any(|t| t == ticker)
            })
            .collect();
        assert_eq!(own.len(), 1);
        assert_eq!(own[0].tickers, [ticker]);
    }
    let further: Vec<_> = shape(&groups)
        .into_iter()
        .filter(|(kind, _, _)| *kind != InferredKind::Complement)
        .collect();
    assert_eq!(
        further,
        [
            (
                InferredKind::Monotone,
                "A".to_string(),
                vec!["A-1".to_string(), "A-2".to_string()]
            ),
            (
                InferredKind::Exhaustive,
                "B".to_string(),
                vec!["B-1".to_string(), "B-2".to_string()]
            ),
        ]
    );
}
