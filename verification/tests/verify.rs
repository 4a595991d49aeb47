use sha2::Digest;
use sum100::book::{Applied, BookStore};
use sum100::feed::FeedEvent;
use sum100::types::{ContractId, Level, Side, Venue};
use sum100::verify::{canonical_book, Expected, GapLog, StateDigest};

fn snapshot(seq: u64) -> FeedEvent {
    FeedEvent::Snapshot {
        contract: ContractId(0),
        yes: vec![Level { price: 40, size: 5 }],
        no: Vec::new(),
        seq,
        venue_ts_ms: None,
    }
}

fn delta(seq: u64) -> FeedEvent {
    FeedEvent::Delta {
        contract: ContractId(0),
        side: Side::Yes,
        price: 41,
        size_delta: 2,
        seq,
        venue_ts_ms: 0,
    }
}

fn run(start_ms: u64) -> (BookStore, GapLog, Vec<Applied>) {
    let mut store = BookStore::new(Venue::Kalshi, &["KXA".to_string()]).unwrap();
    let mut log = GapLog::new();
    let applied = [snapshot(1), delta(2), delta(9)]
        .iter()
        .enumerate()
        .map(|(i, event)| log.apply(&mut store, event, start_ms + i as u64))
        .collect();
    (store, log, applied)
}

#[test]
fn time_never_decides_a_digest() {
    let (store, log, applied) = run(1_000);
    assert_eq!(
        applied,
        [
            Applied::Snapshot(ContractId(0)),
            Applied::Delta(ContractId(0)),
            Applied::Gap {
                expected: 3,
                got: 9
            },
        ]
    );
    assert_eq!(log.entries().len(), 1);
    assert_eq!(log.events_seen(), 3);
    let (later, later_log, _) = run(77_000);
    assert_eq!(
        StateDigest::new(&store, &log),
        StateDigest::new(&later, &later_log)
    );
}

#[test]
fn a_rendered_digest_accepts_its_own_run_and_no_other() {
    let (store, log, _) = run(1_000);
    let digest = StateDigest::new(&store, &log);
    let text = digest.render();
    let expected = Expected::parse(&text).unwrap();
    assert!(expected.check(&digest).is_empty());

    let mut other = BookStore::new(Venue::Kalshi, &["KXA".to_string()]).unwrap();
    let mut other_log = GapLog::new();
    other_log.apply(&mut other, &snapshot(1), 1_000);
    let different = StateDigest::new(&other, &other_log);
    assert!(!expected.check(&different).is_empty());
}

#[test]
fn an_expected_hash_must_be_one() {
    let mut expected = Expected::new();
    assert!(expected.add_book_arg("KXA").is_err());
    assert!(expected.add_book_arg("KXA=xyz").is_err());
    let hash = "ab".repeat(32);
    assert!(expected.add_book_arg(&format!("KXA={hash}")).is_ok());
    assert!(expected.add_book("KXA", &hash).is_err());
    assert!(expected.set_gaps(&hash).is_ok());
    assert!(Expected::parse("what is this").is_err());
}

/// The hash of a book is the SHA-256 of its canonical text.
#[test]
fn a_book_hashes_its_canonical_text() {
    let (store, log, _) = run(1_000);
    let text = canonical_book(&store.books()[0], "KXA");
    let hash: String = sha2::Sha256::digest(text.as_bytes())
        .iter()
        .map(|b| format!("{b:02x}"))
        .collect();
    let digest = StateDigest::new(&store, &log);
    assert_eq!(digest.books, [("KXA".to_string(), hash)]);
}
