use sum100::fees::{FeeModel, KalshiFees};
use sum100::scan::{scan_exhaustive_set, walk_asks};
use sum100::types::{Book, BookState, Cents, ContractId, Level, Venue};

/// Single-level Kalshi book via a no-side bid at `100 - price` (yes ask).
fn book(contract_id: u32, price: Cents, size: i64) -> Book {
    let mut b = Book::new(Venue::Kalshi, ContractId(contract_id));
    b.apply_snapshot(
        &[],
        &[Level {
            price: 100 - price,
            size,
        }],
        1,
        1000,
    )
    .unwrap();
    assert_eq!(b.state, BookState::Live);
    assert_eq!(b.best_ask().map(|l| (l.price, l.size)), Some((price, size)));
    b
}

#[test]
fn two_cent_gap_is_eaten_by_fees() {
    let prices = [4, 62, 29, 3];
    assert_eq!(prices.iter().sum::<Cents>(), 98);

    let fees = KalshiFees::default();
    let total_fee: Cents = prices.iter().map(|&p| fees.taker_fee(ContractId(0), p, 100)).sum();
    assert_eq!(total_fee, 358);

    let books: Vec<Book> = prices
        .iter()
        .enumerate()
        .map(|(i, &p)| book(i as u32, p, 100))
        .collect();
    assert_eq!(scan_exhaustive_set(&books, &fees, 100, 1000, 500), None);
}

#[test]
fn five_cent_gap_survives_fees() {
    let prices = [3, 60, 29, 3];
    assert_eq!(prices.iter().sum::<Cents>(), 95);

    let fees = KalshiFees::default();
    let books: Vec<Book> = prices
        .iter()
        .enumerate()
        .map(|(i, &p)| book(i as u32, p, 100))
        .collect();

    let opp =
        scan_exhaustive_set(&books, &fees, 100, 1000, 500).expect("5 cent gap must clear fees");
    assert_eq!(opp.gross, 500);
    assert!(opp.net > 0);
    assert_eq!(opp.legs.len(), 4);
}

#[test]
fn stale_leg_is_rejected() {
    let prices = [3, 60, 29, 3];
    let fees = KalshiFees::default();
    let mut books: Vec<Book> = prices
        .iter()
        .enumerate()
        .map(|(i, &p)| book(i as u32, p, 100))
        .collect();
    books[0].updated_at_ms = 0;

    assert_eq!(scan_exhaustive_set(&books, &fees, 100, 1000, 500), None);
}

#[test]
fn a_walk_stops_where_the_book_does() {
    let fees = KalshiFees::default();
    let walk = walk_asks(&book(0, 40, 10), 50, &fees);
    assert_eq!(walk.filled, 10);
    assert_eq!(walk.cost, 400);
    assert_eq!(walk.fee, 17);
}
