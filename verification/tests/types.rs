use sum100::types::{
    parse_price_cents, parse_size_contracts, Book, BookApplyError, ContractId, Contracts, Level,
    PriceParseError, Side, SizeParseError, TokenSide, Venue,
};

#[test]
fn parses_real_venue_prices_exactly() {
    // These four strings are copied from live Kalshi payloads.
    assert_eq!(parse_price_cents("0.960"), Ok(96));
    assert_eq!(parse_price_cents("0.0800"), Ok(8));
    assert_eq!(parse_price_cents("0.0100"), Ok(1));
    assert_eq!(parse_price_cents("1.0000"), Ok(100));
}

#[test]
fn parses_boundaries_and_short_forms() {
    assert_eq!(parse_price_cents("0.0000"), Ok(0));
    assert_eq!(parse_price_cents("0"), Ok(0));
    assert_eq!(parse_price_cents("1"), Ok(100));
    assert_eq!(parse_price_cents("0.5"), Ok(50));
    assert_eq!(parse_price_cents("0.07"), Ok(7));
    assert_eq!(parse_price_cents("0.99"), Ok(99));
    // Trailing zeros beyond the cent are exact, not lossy.
    assert_eq!(parse_price_cents("0.990000000"), Ok(99));
    assert_eq!(parse_price_cents("  0.42  "), Ok(42));
}

#[test]
fn sub_cent_precision_is_rejected_not_rounded() {
    // The whole point: never silently absorb a tick-size change.
    assert_eq!(parse_price_cents("0.005"), Err(PriceParseError::SubCent));
    assert_eq!(parse_price_cents("0.001"), Err(PriceParseError::SubCent));
    assert_eq!(parse_price_cents("0.9601"), Err(PriceParseError::SubCent));
    assert_eq!(parse_price_cents("0.12345"), Err(PriceParseError::SubCent));
    // Rounding either direction would have produced a plausible-looking number.
    assert!(parse_price_cents("0.005").is_err());
}

#[test]
fn malformed_and_empty_input_is_rejected() {
    assert_eq!(parse_price_cents(""), Err(PriceParseError::Empty));
    assert_eq!(parse_price_cents("   "), Err(PriceParseError::Empty));
    assert_eq!(parse_price_cents("abc"), Err(PriceParseError::Malformed));
    assert_eq!(parse_price_cents("0.abc"), Err(PriceParseError::Malformed));
    assert_eq!(parse_price_cents("0."), Err(PriceParseError::Malformed));
    assert_eq!(parse_price_cents("."), Err(PriceParseError::Malformed));
    assert_eq!(parse_price_cents(".5"), Err(PriceParseError::Malformed));
    assert_eq!(parse_price_cents("0.1.2"), Err(PriceParseError::Malformed));
    assert_eq!(parse_price_cents("1e-2"), Err(PriceParseError::Malformed));
    assert_eq!(parse_price_cents("NaN"), Err(PriceParseError::Malformed));
    assert_eq!(parse_price_cents("inf"), Err(PriceParseError::Malformed));
    // A negative price is not a quote; it must not parse.
    assert_eq!(parse_price_cents("-0.50"), Err(PriceParseError::Malformed));
}

#[test]
fn out_of_range_prices_are_rejected() {
    // Above $1 a binary contract makes no sense, so this is a schema change.
    assert_eq!(
        parse_price_cents("1.0100"),
        Err(PriceParseError::OutOfRange)
    );
    assert_eq!(
        parse_price_cents("2.0000"),
        Err(PriceParseError::OutOfRange)
    );
    assert_eq!(
        parse_price_cents("99999999999999999999"),
        Err(PriceParseError::Malformed)
    );
}

#[test]
fn no_float_rounding_artifacts_across_the_whole_tick_ladder() {
    // Every representable cent must round-trip exactly. The f64 path fails
    // several of these, which is precisely why this parser exists.
    for cents in 0..=100i64 {
        let s = format!("0.{:02}00", cents % 100);
        let expected = if cents == 100 { 0 } else { cents };
        assert_eq!(parse_price_cents(&s), Ok(expected), "input {s}");
    }
    for cents in 0..=100i64 {
        let dollars = cents / 100;
        let rem = cents % 100;
        let s = format!("{dollars}.{rem:02}");
        assert_eq!(parse_price_cents(&s), Ok(cents), "input {s}");
    }
}

#[test]
fn side_is_a_faithful_echo_of_the_wire() {
    // Guard the boundary decision: Side carries no conversion logic, so the
    // complement relationship stays documented rather than applied here.
    assert_ne!(Side::Yes, Side::No);
}

#[test]
fn sizes_truncate_to_whole_contracts_and_account_for_the_rest() {
    let mut discarded = 0;
    assert_eq!(parse_size_contracts("12.00", &mut discarded), Ok(12));
    assert_eq!(discarded, 0);
    assert_eq!(parse_size_contracts("3.75", &mut discarded), Ok(3));
    assert_eq!(discarded, 75);
    assert_eq!(
        parse_size_contracts("x", &mut discarded),
        Err(SizeParseError::Malformed)
    );
    assert_eq!(discarded, 75);
}

#[test]
fn a_ticker_keeps_the_number_it_was_first_given() {
    let mut contracts = Contracts::default();
    assert_eq!(contracts.intern(Venue::Kalshi, "A"), Ok(ContractId(0)));
    assert_eq!(contracts.intern(Venue::Polymarket, "A"), Ok(ContractId(1)));
    assert_eq!(contracts.intern(Venue::Kalshi, "A"), Ok(ContractId(0)));
    assert_eq!(contracts.get(Venue::Kalshi, "B"), None);
    assert_eq!(
        contracts.resolve(ContractId(1)),
        Some(&(Venue::Polymarket, "A".to_owned()))
    );
    assert_eq!(contracts.len(), 2);
}

#[test]
fn both_sides_of_a_book_are_one_market() {
    let mut book = Book::new(Venue::Kalshi, ContractId(0));
    book.apply_snapshot(
        &[Level { price: 44, size: 7 }, Level { price: 40, size: 9 }],
        &[Level { price: 54, size: 5 }],
        1,
        1_000,
    )
    .unwrap();
    // A no bid at 54 is a yes ask at 46.
    assert_eq!(book.best_bid(), Some(Level { price: 44, size: 7 }));
    assert_eq!(book.best_ask(), Some(Level { price: 46, size: 5 }));
    assert_eq!(book.best_no_ask(), Some(Level { price: 56, size: 7 }));
    assert!(!book.is_crossed());
    assert!(book.apply_delta(Side::Yes, 47, 3, 2, 1_200).is_ok());
    assert!(book.is_crossed());
    assert_eq!(
        book.apply_delta(Side::Yes, 101, 3, 3, 1_300),
        Err(BookApplyError::PriceOutOfRange(101))
    );
}

#[test]
fn a_restated_level_replaces_what_rested_there() {
    let mut book = Book::new(Venue::Polymarket, ContractId(0));
    book.apply_snapshot(&[Level { price: 44, size: 7 }], &[], 0, 1_000)
        .unwrap();
    book.set_level(TokenSide::Bid, 44, 2, 1_100).unwrap();
    assert_eq!(book.yes_size_at(44), Some(2));
    // An offer at 46 is a no bid at 54.
    book.set_level(TokenSide::Ask, 46, 9, 1_200).unwrap();
    assert_eq!(book.no_size_at(54), Some(9));
}

#[test]
fn a_snapshot_counts_the_empty_levels_it_drops() {
    let mut book = Book::new(Venue::Kalshi, ContractId(0));
    let dropped = book.apply_snapshot(
        &[Level { price: 44, size: 0 }, Level { price: 40, size: 9 }],
        &[Level { price: 54, size: 0 }, Level { price: 53, size: 0 }],
        1,
        1_000,
    );
    assert_eq!(dropped, Ok(3));
    assert_eq!(book.bids(), [Level { price: 40, size: 9 }]);
    assert!(book.asks().is_empty());
    assert_eq!(
        book.apply_snapshot(&[Level { price: 44, size: 7 }], &[], 2, 1_100),
        Ok(0)
    );
}
