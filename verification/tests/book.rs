use sum100::book::{Applied, BookMetrics, BookStore};
use sum100::feed::FeedEvent;
use sum100::types::{BookState, ContractId, Level, Side, TokenSide, Venue};

fn store() -> BookStore {
    let kalshi = ["KXA".to_string(), "KXB".to_string()];
    let polymarket = ["111".to_string()];
    BookStore::multi_venue(&[(Venue::Kalshi, &kalshi), (Venue::Polymarket, &polymarket)]).unwrap()
}

fn snapshot(contract: u32, seq: u64) -> FeedEvent {
    FeedEvent::Snapshot {
        contract: ContractId(contract),
        yes: vec![Level { price: 40, size: 5 }],
        no: Vec::new(),
        seq,
        venue_ts_ms: None,
    }
}

fn delta(contract: u32, seq: u64) -> FeedEvent {
    FeedEvent::Delta {
        contract: ContractId(contract),
        side: Side::Yes,
        price: 40,
        size_delta: -7,
        seq,
        venue_ts_ms: 0,
    }
}

#[test]
fn ids_follow_the_order_of_the_subscriptions() {
    let store = store();
    assert_eq!(
        store.contracts().get(Venue::Polymarket, "111"),
        Some(ContractId(2))
    );
    assert_eq!(store.venues(), [Venue::Kalshi, Venue::Polymarket]);
    assert_eq!(store.venue_of(&snapshot(2, 1)), Some(Venue::Polymarket));
    assert_eq!(store.venue_of(&snapshot(9, 1)), None);
}

#[test]
fn a_delta_before_its_snapshot_is_skipped() {
    let mut store = store();
    assert_eq!(store.apply(&snapshot(0, 1), 10), Applied::Snapshot(ContractId(0)));
    assert_eq!(store.apply(&delta(1, 2), 11), Applied::Skipped);
    assert_eq!(store.counters().deltas_skipped_not_live, 1);
    // A size that would fall below nothing is held there, and counted.
    assert_eq!(store.apply(&delta(0, 2), 12), Applied::Delta(ContractId(0)));
    assert_eq!(store.get(ContractId(0)).unwrap().yes_size_at(40), Some(0));
    assert_eq!(store.counters().negative_level_clamps, 1);
    assert_eq!(store.expected_seq(Venue::Kalshi), Some(3));
}

#[test]
fn a_disconnect_leaves_the_other_venue_alone() {
    let mut store = store();
    store.apply(&snapshot(0, 1), 10);
    store.apply(&snapshot(2, 0), 10);
    store.apply(
        &FeedEvent::Disconnected {
            venue: Venue::Kalshi,
        },
        11,
    );
    assert_eq!(store.get(ContractId(0)).unwrap().state, BookState::Resyncing);
    assert_eq!(store.get(ContractId(2)).unwrap().state, BookState::Live);
    // Every book behind the socket goes with it, whether or not it was live.
    assert_eq!(BookMetrics::books_by_state(&store), (0, 2, 1));
    let (applied, dirty) = store.apply_and_mark(
        &FeedEvent::LevelSet {
            contract: ContractId(2),
            side: TokenSide::Bid,
            price: 41,
            size: 3,
            venue_ts_ms: 0,
        },
        12,
    );
    assert_eq!(applied, Applied::Delta(ContractId(2)));
    assert_eq!(dirty, [ContractId(2)]);
}
