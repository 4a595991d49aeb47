use sum100::book::BookStore;
use sum100::feed::FeedEvent;
use sum100::portfolio::{Portfolio, PortfolioError, Position, PositionLeg, DAY_MS};
use sum100::registry::EventId;
use sum100::types::{Book, BookState, Cents, ContractId, Level, Side, Venue};

/// A store that holds this book for contract 0, or no book at all.
fn holding(book: Option<Book>) -> BookStore {
    let Some(book) = book else {
        return BookStore::new(Venue::Kalshi, &[]).unwrap();
    };
    let mut store = BookStore::new(Venue::Kalshi, &["T".to_string()]).unwrap();
    if book.state == BookState::Live {
        store.apply(
            &FeedEvent::Snapshot {
                contract: ContractId(0),
                yes: book.best_bid().into_iter().collect(),
                no: book.best_no_bid().into_iter().collect(),
                seq: book.seq,
                venue_ts_ms: None,
            },
            NOW,
        );
    }
    store
}

const NOW: u64 = 1_789_343_120_404;

fn leg(contract: u32, side: Side, quantity: i64, price: Cents) -> PositionLeg {
    PositionLeg {
        contract_id: ContractId(contract),
        side,
        quantity,
        average_entry_price: price,
        order_ids: vec![format!("order-{contract}")],
    }
}

/// A complement position: 100 yes at 55 and 100 no at 40, 683 cents of fees.
fn complement_position() -> Position {
    Position {
        event_id: EventId(0),
        group: 0,
        legs: vec![leg(0, Side::Yes, 100, 55), leg(0, Side::No, 100, 40)],
        cost_cents: 9_500 + 683,
        fees_cents: 683,
        entry_time_ms: NOW,
        resolved: false,
        pnl_realized_cents: 0,
        pnl_unrealized_cents: 0,
    }
}

fn book_quoting(bid_yes: Cents, bid_no: Cents) -> Book {
    let mut book = Book::new(Venue::Kalshi, ContractId(0));
    book.apply_snapshot(
        &[Level {
            price: bid_yes,
            size: 500,
        }],
        &[Level {
            price: bid_no,
            size: 500,
        }],
        1,
        NOW,
    )
    .unwrap();
    book
}

#[test]
fn capital_is_committed_on_entry_and_returned_at_settlement() {
    let mut portfolio = Portfolio::new(50_000, 10_000, NOW);
    portfolio.add_position(complement_position()).unwrap();
    assert_eq!(portfolio.capital_available_cents, 50_000 - 10_183);
    assert_eq!(portfolio.open_count(), 1);
    assert_eq!(portfolio.exposure_to(EventId(0)), 10_183);

    // Exactly one of the two legs pays a dollar, whichever way it resolves.
    let pnl = portfolio.realize(EventId(0), true).unwrap();
    assert_eq!(pnl, 10_000 - 10_183);
    assert_eq!(portfolio.capital_available_cents, 50_000 - 183);
    assert_eq!(portfolio.pnl_realized_cents, -183);
    assert_eq!(portfolio.open_count(), 0);
    assert_eq!(portfolio.exposure_to(EventId(0)), 0);
}

#[test]
fn a_position_that_cannot_be_paid_for_is_refused() {
    let mut portfolio = Portfolio::new(5_000, 10_000, NOW);
    assert_eq!(
        portfolio.add_position(complement_position()),
        Err(PortfolioError::InsufficientCapital {
            needed: 10_183,
            available: 5_000,
        })
    );
    // Nothing was committed by the failed attempt.
    assert_eq!(portfolio.capital_available_cents, 5_000);
    assert!(portfolio.positions.is_empty());
}

#[test]
fn the_day_closes_once_realized_losses_reach_the_limit() {
    let mut portfolio = Portfolio::new(100_000, 200, NOW);
    portfolio.add_position(complement_position()).unwrap();
    // Settling at a 183 cent loss does not yet reach a 200 cent limit.
    portfolio.realize(EventId(0), false).unwrap();
    assert_eq!(portfolio.daily_loss_realized_cents, 183);
    assert!(portfolio.within_daily_loss_limit());
    portfolio.add_position(complement_position()).unwrap();

    portfolio.realize(EventId(0), false).unwrap();
    assert_eq!(portfolio.daily_loss_realized_cents, 366);
    assert!(!portfolio.within_daily_loss_limit());
    assert_eq!(
        portfolio.add_position(complement_position()),
        Err(PortfolioError::DailyLossExceeded {
            realized: 366,
            limit: 200,
        })
    );
}

#[test]
fn the_loss_budget_resets_at_calendar_midnight_not_after_24_hours() {
    let mut portfolio = Portfolio::new(100_000, 200, NOW);
    portfolio.daily_loss_realized_cents = 500;
    let midnight = portfolio.daily_reset_at_ms;
    assert_eq!(midnight % DAY_MS, 0, "reset lands on a UTC day boundary");
    assert!(midnight > NOW && midnight - NOW <= DAY_MS);

    assert!(!portfolio.reset_daily_if_needed(midnight - 1));
    assert_eq!(portfolio.daily_loss_realized_cents, 500);
    assert!(portfolio.reset_daily_if_needed(midnight));
    assert_eq!(portfolio.daily_loss_realized_cents, 0);
    assert_eq!(portfolio.daily_reset_at_ms, midnight + DAY_MS);
}

#[test]
fn positions_mark_at_the_bid_not_the_mid() {
    let mut portfolio = Portfolio::new(50_000, 10_000, NOW);
    portfolio.add_position(complement_position()).unwrap();

    // Yes bids 54 and no bids 44: liquidating both legs returns 9800
    // against 10183 committed.
    let book = book_quoting(54, 44);
    portfolio.mark_to_market(&holding(Some(book)).at(NOW));
    assert_eq!(portfolio.pnl_unrealized_cents(), 9_800 - 10_183);

    // The asks are 56 and 46, which would have shown a profit. Marking
    // there would book money the spread takes back on exit.
    assert!(portfolio.pnl_unrealized_cents() < 0);

    // A book with no bid at all marks that leg at zero, not at its cost.
    let empty = Book::new(Venue::Kalshi, ContractId(0));
    portfolio.mark_to_market(&holding(Some(empty)).at(NOW));
    assert_eq!(portfolio.pnl_unrealized_cents(), -10_183);

    // A missing book is the same story: understate, never invent.
    portfolio.mark_to_market(&holding(None).at(NOW));
    assert_eq!(portfolio.pnl_unrealized_cents(), -10_183);
}

#[test]
fn a_settled_position_stops_being_marked_or_counted() {
    let mut portfolio = Portfolio::new(50_000, 10_000, NOW);
    portfolio.add_position(complement_position()).unwrap();
    portfolio.realize(EventId(0), true).unwrap();
    let book = book_quoting(54, 44);
    portfolio.mark_to_market(&holding(Some(book)).at(NOW));
    assert_eq!(portfolio.pnl_unrealized_cents(), 0);
    assert_eq!(portfolio.summary().capital_locked_cents, 0);
    assert_eq!(
        portfolio.realize(EventId(0), true),
        Err(PortfolioError::UnknownEvent)
    );
}

#[test]
fn every_refusal_says_why() {
    assert_eq!(
        PortfolioError::InsufficientCapital {
            needed: 10_183,
            available: 5_000
        }
        .message(),
        "position needs 10183 cents, 5000 available"
    );
    assert_eq!(
        PortfolioError::DailyLossExceeded {
            realized: 366,
            limit: 200
        }
        .message(),
        "daily loss 366 cents has reached the 200 limit"
    );
    assert_eq!(PortfolioError::UnknownEvent.message(), "event is not held");
}
