use sum100::registry::GroupId;
use sum100::solver::fast::{
    evaluate_complement, evaluate_cross_venue, evaluate_exhaustive, evaluate_monotonicity,
};
use sum100::types::{Book, Cents, ContractId, Level, Side, Venue};

/// Book quoting `ask_yes` for the yes outcome and `ask_no` for the no one.
///
/// A yes ask at A is a resting no bid at `100 - A`; a no ask at B is a
/// resting yes bid at `100 - B`.
fn quote(id: u32, ask_yes: Cents, ask_no: Cents, size: i64) -> Book {
    let mut book = Book::new(Venue::Kalshi, ContractId(id));
    book.apply_snapshot(
        &[Level {
            price: 100 - ask_no,
            size,
        }],
        &[Level {
            price: 100 - ask_yes,
            size,
        }],
        1,
        1_000,
    )
    .unwrap();
    assert_eq!(book.best_ask().map(|l| l.price), Some(ask_yes));
    assert_eq!(book.best_no_ask().map(|l| l.price), Some(ask_no));
    book
}

#[test]
fn complement_fires_only_when_both_outcomes_cost_under_a_dollar() {
    let mut out = Vec::new();
    // Crossed: yes bid 60 + no bid 45 = 105, so asks are 55 and 40.
    evaluate_complement(GroupId(0), &quote(0, 55, 40, 10), &mut out);
    assert_eq!(out.len(), 1);
    assert_eq!(out[0].top_of_book_cost_cents, 95);
    assert_eq!(out[0].legs[0].side, Side::Yes);
    assert_eq!(out[0].legs[1].side, Side::No);

    // The bid form of the same test must agree with the ask form.
    let crossed = quote(0, 55, 40, 10);
    assert!(crossed.is_crossed());

    out.clear();
    evaluate_complement(GroupId(0), &quote(0, 55, 46, 10), &mut out);
    assert!(out.is_empty(), "101 cents is not an arbitrage");
    evaluate_complement(GroupId(0), &quote(0, 55, 45, 10), &mut out);
    assert!(out.is_empty(), "exactly 100 cents has no gross edge");
}

#[test]
fn exhaustive_sums_asks_and_needs_every_member_quoted() {
    let books = [
        quote(0, 3, 97, 10),
        quote(1, 60, 40, 10),
        quote(2, 29, 71, 10),
    ];
    let refs: Vec<&Book> = books.iter().collect();
    let mut out = Vec::new();
    evaluate_exhaustive(GroupId(0), &refs, &mut out);
    assert_eq!(out.len(), 1);
    assert_eq!(out[0].top_of_book_cost_cents, 92);
    assert_eq!(out[0].legs.len(), 3);

    // One member with no resting liquidity means no computable sum, so no
    // candidate — never a candidate priced off the members that do quote.
    let empty = Book::new(Venue::Kalshi, ContractId(3));
    let refs = vec![&books[0], &books[1], &empty];
    out.clear();
    evaluate_exhaustive(GroupId(0), &refs, &mut out);
    assert!(out.is_empty());
}

#[test]
fn monotonicity_buys_the_weaker_rung_and_sells_the_stronger() {
    // Rung 0 is the weaker claim. Buying it at 50 and selling rung 1 at its
    // bid of 62 costs 50 + 38 = 88 for a guaranteed dollar.
    let rungs = [
        quote(0, 60, 40, 10),
        quote(1, 50, 50, 10),
        quote(2, 62, 38, 10),
    ];
    let refs: Vec<&Book> = rungs.iter().collect();
    let mut out = Vec::new();
    evaluate_monotonicity(GroupId(0), &refs, &mut out);
    assert_eq!(out.len(), 1);
    assert_eq!(out[0].top_of_book_cost_cents, 88);
    assert_eq!(out[0].legs[0].contract_id, ContractId(1));
    assert_eq!(out[0].legs[0].side, Side::Yes);
    assert_eq!(out[0].legs[1].contract_id, ContractId(2));
    assert_eq!(out[0].legs[1].side, Side::No);

    // A properly ordered ladder produces nothing.
    let ordered = [
        quote(0, 60, 40, 10),
        quote(1, 50, 50, 10),
        quote(2, 40, 60, 10),
    ];
    let refs: Vec<&Book> = ordered.iter().collect();
    out.clear();
    evaluate_monotonicity(GroupId(0), &refs, &mut out);
    assert!(out.is_empty());
}

#[test]
fn cross_venue_checks_both_directions_independently() {
    let mut kalshi = quote(0, 45, 55, 10);
    kalshi.venue = Venue::Kalshi;
    let mut polymarket = Book::new(Venue::Polymarket, ContractId(1));
    // Polymarket quotes yes at 52, no at 50: buying Kalshi yes at 45 and
    // Polymarket no at 50 costs 95.
    polymarket
        .apply_snapshot(
            &[Level {
                price: 50,
                size: 10,
            }],
            &[Level {
                price: 48,
                size: 10,
            }],
            1,
            1_000,
        )
        .unwrap();
    let mut out = Vec::new();
    evaluate_cross_venue(GroupId(0), &kalshi, &polymarket, &mut out);
    assert_eq!(out.len(), 1);
    assert_eq!(out[0].top_of_book_cost_cents, 95);
    assert_eq!(out[0].legs[0].venue, Venue::Kalshi);
    assert_eq!(out[0].legs[1].venue, Venue::Polymarket);
}
