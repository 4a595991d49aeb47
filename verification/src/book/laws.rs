//! What a book holds after each event, price by price.
use vstd::prelude::*;
use crate::book;
use crate::book::{Applied, BookMetrics, StoreView};
use crate::feed::EventView;
use crate::solver;
use crate::tally;
use crate::types;
use crate::types::{
    BookApplyError, BookState, BookView, Cents, ContractId, Level, Side, TokenSide, Venue,
};

verus! {

// ---------------------------------------------------------------------------
// Reading one book
// ---------------------------------------------------------------------------

/// A level at which a size rests.
pub open spec fn rests(sizes: Seq<i64>, level: Level) -> bool {
    0 <= level.price <= 100 && level.size > 0 && sizes[level.price as int] == level.size
}

/// A level at which a bid for the other outcome is an offer of this one.
pub open spec fn offers(sizes: Seq<i64>, level: Level) -> bool {
    0 <= level.price <= 100 && level.size > 0 && sizes[100 - level.price] == level.size
}

proof fn lemma_resting_holds(sizes: Seq<i64>, top: int, level: Level)
    requires
        sizes.len() == 101,
        -1 <= top <= 100,
    ensures
        types::resting(sizes, top).contains(level) <==> rests(sizes, level) && level.price <= top,
        forall|j: int, k: int|
            0 <= j < k < types::resting(sizes, top).len() ==> (#[trigger] types::resting(
                sizes,
                top,
            )[j]).price > (#[trigger] types::resting(sizes, top)[k]).price,
        forall|k: int|
            0 <= k < types::resting(sizes, top).len() ==> (#[trigger] types::resting(
                sizes,
                top,
            )[k]).price <= top,
    decreases top + 1,
{
    if top >= 0 {
        lemma_resting_holds(sizes, top - 1, level);
        let rest = types::resting(sizes, top - 1);
        let all = types::resting(sizes, top);
        if sizes[top] > 0 {
            let here = Level { price: top as i64, size: sizes[top] };
            assert(all =~= seq![here] + rest);
            if rest.contains(level) {
                let k = choose|k: int| 0 <= k < rest.len() && rest[k] == level;
                assert(all[k + 1] == level);
            }
            if level == here {
                assert(all[0] == level);
            }
            if all.contains(level) {
                let k = choose|k: int| 0 <= k < all.len() && all[k] == level;
                if k > 0 {
                    assert(rest[k - 1] == level);
                }
            }
            assert forall|j: int, k: int| 0 <= j < k < all.len() implies (#[trigger] all[j]).price
                > (#[trigger] all[k]).price by {
                assert(all[k] == rest[k - 1]);
                if j > 0 {
                    assert(all[j] == rest[j - 1]);
                }
            }
            assert forall|k: int| 0 <= k < all.len() implies (#[trigger] all[k]).price <= top by {
                if k > 0 {
                    assert(all[k] == rest[k - 1]);
                }
            }
        }
    }
}

proof fn lemma_offered_holds(sizes: Seq<i64>, top: int, level: Level)
    requires
        sizes.len() == 101,
        -1 <= top <= 100,
    ensures
        types::offered(sizes, top).contains(level) <==> offers(sizes, level) && level.price >= 100
            - top,
    decreases top + 1,
{
    if top >= 0 {
        lemma_offered_holds(sizes, top - 1, level);
        let rest = types::offered(sizes, top - 1);
        let all = types::offered(sizes, top);
        if sizes[top] > 0 {
            let here = Level { price: (100 - top) as i64, size: sizes[top] };
            assert(all =~= seq![here] + rest);
            if rest.contains(level) {
                let k = choose|k: int| 0 <= k < rest.len() && rest[k] == level;
                assert(all[k + 1] == level);
            }
            if level == here {
                assert(all[0] == level);
            }
            if all.contains(level) {
                let k = choose|k: int| 0 <= k < all.len() && all[k] == level;
                if k > 0 {
                    assert(rest[k - 1] == level);
                }
            }
        }
    }
}

/// The bids are the sizes that rest for Yes, best first, and the offers of an
/// outcome are the sizes that rest for the other, at the complement of their
/// price, cheapest first. Nothing is left out and nothing is made up.
pub proof fn a_ladder_shows_what_rests(book: BookView, level: Level)
    requires
        book.wf(),
    ensures
        book.bids().contains(level) <==> rests(book.yes, level),
        book.no_bids().contains(level) <==> rests(book.no, level),
        book.asks().contains(level) <==> offers(book.no, level),
        book.no_asks().contains(level) <==> offers(book.yes, level),
        forall|j: int, k: int|
            0 <= j < k < book.bids().len() ==> (#[trigger] book.bids()[j]).price > (
            #[trigger] book.bids()[k]).price,
        forall|j: int, k: int|
            0 <= j < k < book.no_bids().len() ==> (#[trigger] book.no_bids()[j]).price > (
            #[trigger] book.no_bids()[k]).price,
        forall|j: int, k: int|
            0 <= j < k < book.asks().len() ==> (#[trigger] book.asks()[j]).price < (
            #[trigger] book.asks()[k]).price,
        forall|j: int, k: int|
            0 <= j < k < book.no_asks().len() ==> (#[trigger] book.no_asks()[j]).price < (
            #[trigger] book.no_asks()[k]).price,
{
    lemma_resting_holds(book.yes, 100, level);
    lemma_resting_holds(book.no, 100, level);
    lemma_offered_holds(book.no, 100, level);
    lemma_offered_holds(book.yes, 100, level);
    types::lemma_offered(book.no, 100);
    types::lemma_offered(book.yes, 100);
}

proof fn lemma_first_resting(sizes: Seq<i64>, top: int)
    requires
        sizes.len() == 101,
        -1 <= top <= 100,
    ensures
        match types::first_level(types::resting(sizes, top)) {
            Some(level) => rests(sizes, level) && level.price <= top && forall|p: int|
                level.price < p <= top ==> #[trigger] sizes[p] <= 0,
            None => forall|p: int| 0 <= p <= top ==> #[trigger] sizes[p] <= 0,
        },
    decreases top + 1,
{
    if top >= 0 {
        lemma_first_resting(sizes, top - 1);
    }
}

proof fn lemma_first_offered(sizes: Seq<i64>, top: int)
    requires
        sizes.len() == 101,
        -1 <= top <= 100,
    ensures
        match types::first_level(types::offered(sizes, top)) {
            Some(level) => offers(sizes, level) && level.price >= 100 - top && forall|p: int|
                100 - level.price < p <= top ==> #[trigger] sizes[p] <= 0,
            None => forall|p: int| 0 <= p <= top ==> #[trigger] sizes[p] <= 0,
        },
    decreases top + 1,
{
    if top >= 0 {
        lemma_first_offered(sizes, top - 1);
    }
}

/// The best bid is the highest price at which anything rests, the best offer the
/// complement of the highest at which anything rests for the other outcome, and
/// there is none exactly where nothing rests.
pub proof fn the_best_is_at_the_highest_resting_price(book: BookView)
    requires
        book.wf(),
    ensures
        match types::first_level(book.bids()) {
            Some(best) => rests(book.yes, best) && forall|p: int|
                best.price < p <= 100 ==> #[trigger] book.yes[p] == 0,
            None => forall|p: int| 0 <= p <= 100 ==> #[trigger] book.yes[p] == 0,
        },
        match types::first_level(book.no_bids()) {
            Some(best) => rests(book.no, best) && forall|p: int|
                best.price < p <= 100 ==> #[trigger] book.no[p] == 0,
            None => forall|p: int| 0 <= p <= 100 ==> #[trigger] book.no[p] == 0,
        },
        match types::first_level(book.asks()) {
            Some(best) => offers(book.no, best) && forall|p: int|
                100 - best.price < p <= 100 ==> #[trigger] book.no[p] == 0,
            None => forall|p: int| 0 <= p <= 100 ==> #[trigger] book.no[p] == 0,
        },
        match types::first_level(book.no_asks()) {
            Some(best) => offers(book.yes, best) && forall|p: int|
                100 - best.price < p <= 100 ==> #[trigger] book.yes[p] == 0,
            None => forall|p: int| 0 <= p <= 100 ==> #[trigger] book.yes[p] == 0,
        },
{
    lemma_first_resting(book.yes, 100);
    lemma_first_resting(book.no, 100);
    lemma_first_offered(book.yes, 100);
    lemma_first_offered(book.no, 100);
}

/// A book is crossed exactly where both outcomes are bid for at prices that come
/// to more than a dollar.
pub proof fn a_crossed_book_bids_more_than_a_dollar(book: BookView)
    requires
        book.wf(),
    ensures
        book.crossed() <==> exists|p: int, q: int|
            0 <= p <= 100 && 0 <= q <= 100 && p + q > 100 && #[trigger] book.yes[p] > 0
                && #[trigger] book.no[q] > 0,
{
    the_best_is_at_the_highest_resting_price(book);
    if book.crossed() {
        let yes = types::first_level(book.bids())->0.price as int;
        let no = types::first_level(book.no_bids())->0.price as int;
        assert(book.yes[yes] > 0 && book.no[no] > 0);
    }
}

/// A book counts as fresh exactly while it is live and was written no longer ago
/// than allowed.
pub proof fn a_fresh_book_is_live_and_recent(book: BookView, now_ms: u64, max_age_ms: u64)
    ensures
        book.is_fresh(now_ms, max_age_ms) <==> book.state == BookState::Live && now_ms
            <= book.updated_at_ms + max_age_ms,
{
}

// ---------------------------------------------------------------------------
// Writing one book
// ---------------------------------------------------------------------------

/// A level that a book has a place for.
pub open spec fn can_rest(level: Level) -> bool {
    level.size >= 0 && 0 <= level.price <= 100
}

/// What is wrong with a level that has no place.
pub open spec fn complaint(level: Level) -> BookApplyError {
    if level.size < 0 {
        BookApplyError::NegativeSnapshotSize(level.size)
    } else {
        BookApplyError::PriceOutOfRange(level.price)
    }
}

/// The size listed last at a price, or none listed at all.
pub open spec fn listed_last(levels: Seq<Level>, price: int, size: i64) -> bool {
    ||| exists|i: int|
        0 <= i < levels.len() && (#[trigger] levels[i]).price == price && levels[i].size == size
            && forall|k: int| i < k < levels.len() ==> (#[trigger] levels[k]).price != price
    ||| size == 0 && forall|i: int|
        0 <= i < levels.len() ==> (#[trigger] levels[i]).price != price
}

/// The first level without a place is `error`'s.
pub open spec fn first_complaint(levels: Seq<Level>, error: BookApplyError) -> bool {
    exists|i: int|
        0 <= i < levels.len() && !can_rest(#[trigger] levels[i]) && error == complaint(levels[i])
            && forall|k: int| 0 <= k < i ==> can_rest(#[trigger] levels[k])
}

/// Every level has a place.
pub open spec fn all_can_rest(levels: Seq<Level>) -> bool {
    forall|i: int| 0 <= i < levels.len() ==> can_rest(#[trigger] levels[i])
}

proof fn lemma_placed_by_price(levels: Seq<Level>, price: int)
    requires
        0 <= price <= 100,
    ensures
        match types::placed(levels) {
            Ok(sizes) => sizes.len() == 101 && all_can_rest(levels) && listed_last(
                levels,
                price,
                sizes[price],
            ),
            Err(error) => first_complaint(levels, error),
        },
    decreases levels.len(),
{
    if levels.len() > 0 {
        let before = levels.drop_last();
        let last = levels.last();
        lemma_placed_by_price(before, price);
        let n = levels.len() - 1;
        assert(levels[n] == last);
        assert forall|i: int| 0 <= i < n implies #[trigger] levels[i] == before[i] by {}
        match types::placed(before) {
            Err(error) => {
                let i = choose|i: int|
                    0 <= i < before.len() && !can_rest(#[trigger] before[i]) && error == complaint(
                        before[i],
                    ) && forall|k: int| 0 <= k < i ==> can_rest(#[trigger] before[k]);
                assert(levels[i] == before[i]);
                assert(first_complaint(levels, error));
            },
            Ok(sizes) => {
                if can_rest(last) {
                    let after = sizes.update(last.price as int, last.size);
                    assert(types::placed(levels) == Ok::<Seq<i64>, BookApplyError>(after));
                    if last.price == price {
                        assert(listed_last(levels, price, after[price]));
                    } else {
                        assert(after[price] == sizes[price]);
                        if exists|i: int|
                            0 <= i < before.len() && (#[trigger] before[i]).price == price
                                && before[i].size == sizes[price] && forall|k: int|
                                i < k < before.len() ==> (#[trigger] before[k]).price != price {
                            let i = choose|i: int|
                                0 <= i < before.len() && (#[trigger] before[i]).price == price
                                    && before[i].size == sizes[price] && forall|k: int|
                                    i < k < before.len() ==> (#[trigger] before[k]).price != price;
                            assert(levels[i] == before[i]);
                            assert forall|k: int| i < k < levels.len() implies (
                            #[trigger] levels[k]).price != price by {
                                if k < n {
                                    assert(levels[k] == before[k]);
                                }
                            }
                        }
                        assert(listed_last(levels, price, after[price]));
                    }
                } else {
                    assert(first_complaint(levels, complaint(last)));
                }
            },
        }
    }
}

/// A snapshot is taken exactly where every level has a place, and then the book
/// holds at each price the size listed last there and nothing elsewhere. It is
/// otherwise refused for the first level that has none, Yes before No.
pub proof fn a_snapshot_holds_its_levels(
    book: BookView,
    yes: Seq<Level>,
    no: Seq<Level>,
    seq: u64,
    ts_ms: u64,
    price: int,
)
    requires
        0 <= price <= 100,
    ensures
        match book.snapshot(yes, no, seq, ts_ms) {
            Ok(after) => {
                &&& all_can_rest(yes) && all_can_rest(no)
                &&& after.yes.len() == 101 && after.no.len() == 101
                &&& listed_last(yes, price, after.yes[price])
                &&& listed_last(no, price, after.no[price])
                &&& after.state == BookState::Live
                &&& after.seq == seq
                &&& after.updated_at_ms == ts_ms
                &&& after.venue == book.venue && after.contract_id == book.contract_id
            },
            Err(error) => first_complaint(yes, error) || (all_can_rest(yes) && first_complaint(
                no,
                error,
            )),
        },
{
    lemma_placed_by_price(yes, price);
    lemma_placed_by_price(no, price);
}

/// A snapshot counts the levels that it listed without a size.
pub proof fn empty_levels_are_counted(levels: Seq<Level>)
    ensures
        types::empty_levels(levels) == tally::total(
            levels.len() as int,
            |i: int|
                if levels[i].size == 0 {
                    1
                } else {
                    0
                },
        ),
    decreases levels.len(),
{
    let flag = |i: int|
        if levels[i].size == 0 {
            1int
        } else {
            0int
        };
    if levels.len() > 0 {
        let before = levels.drop_last();
        empty_levels_are_counted(before);
        let earlier = |i: int|
            if before[i].size == 0 {
                1int
            } else {
                0int
            };
        tally::lemma_same(before.len() as int, earlier, flag);
    }
    assert(flag =~= (|i: int|
        if levels[i].size == 0 {
            1int
        } else {
            0int
        }));
}

/// A delta moves the size at one price of one side by what it says, never below
/// nothing and never past what an integer holds, and touches no other.
pub proof fn a_delta_moves_one_size(
    book: BookView,
    side: Side,
    price: int,
    size_delta: i64,
    seq: u64,
    ts_ms: u64,
    p: int,
)
    requires
        book.wf(),
        0 <= price <= 100,
        0 <= p <= 100,
    ensures
        ({
            let after = book.delta(side, price, size_delta, seq, ts_ms);
            let (moved, held) = match side {
                Side::Yes => (after.yes, book.yes),
                Side::No => (after.no, book.no),
            };
            let (still, kept) = match side {
                Side::Yes => (after.no, book.no),
                Side::No => (after.yes, book.yes),
            };
            &&& still == kept
            &&& p != price ==> moved[p] == held[p]
            &&& 0 <= held[price] + size_delta <= i64::MAX ==> moved[price] == held[price]
                + size_delta
            &&& held[price] + size_delta < 0 ==> moved[price] == 0
            &&& held[price] + size_delta > i64::MAX ==> moved[price] == i64::MAX
            &&& book.unclamped(side, price, size_delta) < 0 <==> held[price] + size_delta < 0
            &&& after.seq == seq && after.updated_at_ms == ts_ms
            &&& after.state == book.state && after.venue == book.venue && after.contract_id
                == book.contract_id
        }),
{
}

/// Setting a level writes the size at its price: a bid rests for Yes, and an
/// offer of Yes is a bid for No at the complement.
pub proof fn a_set_level_holds_its_size(
    book: BookView,
    side: TokenSide,
    price: int,
    size: i64,
    ts_ms: u64,
    p: int,
)
    requires
        book.wf(),
        0 <= price <= 100,
        0 <= p <= 100,
        size >= 0,
    ensures
        ({
            let after = book.level_set(side, price, size, ts_ms);
            &&& side == TokenSide::Bid ==> after.no == book.no && after.yes[price] == size && (p
                != price ==> after.yes[p] == book.yes[p])
            &&& side == TokenSide::Ask ==> after.yes == book.yes && after.no[100 - price] == size
                && (p != 100 - price ==> after.no[p] == book.no[p])
            &&& after.seq == book.seq && after.updated_at_ms == ts_ms
            &&& after.state == book.state && after.venue == book.venue && after.contract_id
                == book.contract_id
        }),
{
}

// ---------------------------------------------------------------------------
// The store
// ---------------------------------------------------------------------------

/// The sequence number that a venue's next delta must carry.
pub open spec fn awaited(store: StoreView, venue: Venue) -> Option<u64> {
    match venue {
        Venue::Kalshi => store.expected[0],
        Venue::Polymarket => store.expected[1],
    }
}

/// The book at a contract's number is that contract's own.
pub open spec fn has_book(store: StoreView, contract: ContractId) -> bool {
    contract.0 < store.books.len() && store.books[contract.0 as int].contract_id == contract
}

/// Every book but one is as it was, and so is what the venues but one await.
pub open spec fn nothing_else_moves(
    before: StoreView,
    after: StoreView,
    contract: ContractId,
    venue: Venue,
) -> bool {
    &&& after.books.len() == before.books.len()
    &&& forall|i: int|
        0 <= i < before.books.len() && i != contract.0 ==> #[trigger] after.books[i]
            == before.books[i]
    &&& forall|v: Venue| v != venue ==> #[trigger] awaited(after, v) == awaited(before, v)
    &&& after.names == before.names
}

/// A count that went up by one, or is as high as it goes.
pub open spec fn one_more(before: u64, after: u64) -> bool {
    after == before + 1 || (before == u64::MAX && after == before)
}

/// Counting adds one, and stops where an integer does.
pub proof fn a_count_goes_up_by_one(count: u64)
    ensures
        one_more(count, solver::types::bumped(count)),
{
}

/// Crossed books are counted, and no other.
pub open spec fn cross_counted(before: BookMetrics, after: BookMetrics, book: BookView) -> bool {
    let crossed = exists|p: int, q: int|
        0 <= p <= 100 && 0 <= q <= 100 && p + q > 100 && #[trigger] book.yes[p] > 0
            && #[trigger] book.no[q] > 0;
    if crossed {
        one_more(before.crossed_books_observed, after.crossed_books_observed)
    } else {
        after.crossed_books_observed == before.crossed_books_observed
    }
}

/// A snapshot replaces its own book where it has one and can hold it, and the
/// venue then awaits the next number. Otherwise nothing moves at all.
pub proof fn a_snapshot_lands_on_its_own_book(
    store: StoreView,
    contract: ContractId,
    yes: Seq<Level>,
    no: Seq<Level>,
    seq: u64,
    heard: Option<u64>,
    now_ms: u64,
)
    requires
        store.wf(),
    ensures
        ({
            let event = EventView::Snapshot { contract, yes, no, seq, venue_ts_ms: heard };
            let (after, outcome) = store.applied(event, now_ms);
            let fits = all_can_rest(yes) && all_can_rest(no);
            &&& !has_book(store, contract) ==> after == store && outcome
                == Applied::UnknownContract
            &&& has_book(store, contract) && !fits ==> after == store && outcome
                == Applied::Skipped
            &&& has_book(store, contract) && fits ==> {
                let book = store.books[contract.0 as int];
                let written = after.books[contract.0 as int];
                &&& outcome == Applied::Snapshot(contract)
                &&& book.snapshot(yes, no, seq, now_ms) == Ok::<BookView, BookApplyError>(written)
                &&& seq < u64::MAX ==> awaited(after, book.venue) == Some((seq + 1) as u64)
                &&& nothing_else_moves(store, after, contract, book.venue)
                &&& one_more(store.metrics.snapshots_applied, after.metrics.snapshots_applied)
                &&& cross_counted(store.metrics, after.metrics, written)
                &&& after.metrics.deltas_applied == store.metrics.deltas_applied
                &&& after.metrics.sequence_gaps == store.metrics.sequence_gaps
                &&& after.metrics.deltas_skipped_not_live == store.metrics.deltas_skipped_not_live
                &&& after.metrics.negative_level_clamps == store.metrics.negative_level_clamps
                &&& after.metrics.resync_requests == store.metrics.resync_requests
            }
        }),
{
    if has_book(store, contract) {
        let book = store.books[contract.0 as int];
        a_snapshot_holds_its_levels(book, yes, no, seq, now_ms, 0);
        if let Ok(next) = book.snapshot(yes, no, seq, now_ms) {
            types::lemma_placed(yes);
            types::lemma_placed(no);
            a_crossed_book_bids_more_than_a_dollar(next);
        }
    }
}

/// What a delta does, case by case: unknown books and books that are not live
/// take none, an unexpected number is a gap that silences every live book of the
/// venue, and one that is in turn moves one size of one book.
pub proof fn a_delta_lands_only_in_turn(
    store: StoreView,
    contract: ContractId,
    side: Side,
    price: Cents,
    size_delta: i64,
    seq: u64,
    heard: u64,
    now_ms: u64,
)
    requires
        store.wf(),
    ensures
        ({
            let event = EventView::Delta {
                contract,
                side,
                price,
                size_delta,
                seq,
                venue_ts_ms: heard,
            };
            let (after, outcome) = store.applied(event, now_ms);
            let book = store.books[contract.0 as int];
            let awaits = awaited(store, book.venue);
            let live = has_book(store, contract) && book.state == BookState::Live && awaits
                is Some;
            &&& !has_book(store, contract) ==> after == store && outcome
                == Applied::UnknownContract
            &&& has_book(store, contract) && !live ==> {
                &&& outcome == Applied::Skipped
                &&& after == (StoreView { metrics: after.metrics, ..store })
                &&& one_more(
                    store.metrics.deltas_skipped_not_live,
                    after.metrics.deltas_skipped_not_live,
                )
                &&& after.metrics == (BookMetrics {
                    deltas_skipped_not_live: after.metrics.deltas_skipped_not_live,
                    ..store.metrics
                })
            }
            &&& live && awaits != Some(seq) ==> {
                &&& outcome == (Applied::Gap { expected: awaits->0, got: seq })
                &&& awaited(after, book.venue) is None
                &&& forall|v: Venue| v != book.venue ==> #[trigger] awaited(after, v) == awaited(store, v)
                &&& after.books.len() == store.books.len()
                &&& forall|i: int|
                    0 <= i < store.books.len() ==> #[trigger] after.books[i] == (
                    if store.books[i].venue == book.venue && store.books[i].state
                        == BookState::Live {
                        BookView { state: BookState::Resyncing, ..store.books[i] }
                    } else {
                        store.books[i]
                    })
                &&& one_more(store.metrics.sequence_gaps, after.metrics.sequence_gaps)
                &&& after.metrics == (BookMetrics {
                    sequence_gaps: after.metrics.sequence_gaps,
                    ..store.metrics
                })
            }
            &&& live && awaits == Some(seq) && !(0 <= price <= 100) ==> after == store && outcome
                == Applied::Skipped
            &&& live && awaits == Some(seq) && 0 <= price <= 100 ==> {
                let held = match side {
                    Side::Yes => book.yes[price as int],
                    Side::No => book.no[price as int],
                };
                let written = after.books[contract.0 as int];
                &&& outcome == Applied::Delta(contract)
                &&& written == book.delta(side, price as int, size_delta, seq, now_ms)
                &&& seq < u64::MAX ==> awaited(after, book.venue) == Some((seq + 1) as u64)
                &&& nothing_else_moves(store, after, contract, book.venue)
                &&& one_more(store.metrics.deltas_applied, after.metrics.deltas_applied)
                &&& cross_counted(store.metrics, after.metrics, written)
                &&& if held + size_delta < 0 {
                    one_more(
                        store.metrics.negative_level_clamps,
                        after.metrics.negative_level_clamps,
                    )
                } else {
                    after.metrics.negative_level_clamps == store.metrics.negative_level_clamps
                }
                &&& after.metrics.snapshots_applied == store.metrics.snapshots_applied
                &&& after.metrics.sequence_gaps == store.metrics.sequence_gaps
                &&& after.metrics.deltas_skipped_not_live == store.metrics.deltas_skipped_not_live
                &&& after.metrics.resync_requests == store.metrics.resync_requests
            }
        }),
{
    if has_book(store, contract) && 0 <= price <= 100 {
        let book = store.books[contract.0 as int];
        a_delta_moves_one_size(book, side, price as int, size_delta, seq, now_ms, price as int);
        let next = book.delta(side, price as int, size_delta, seq, now_ms);
        assert(book.wf());
        assert(next.wf());
        a_crossed_book_bids_more_than_a_dollar(next);
    }
}

/// A set level is written to its own live book, whatever number is awaited, and
/// to no other.
pub proof fn a_set_level_lands_on_its_own_book(
    store: StoreView,
    contract: ContractId,
    side: TokenSide,
    price: Cents,
    size: i64,
    heard: u64,
    now_ms: u64,
)
    requires
        store.wf(),
    ensures
        ({
            let event = EventView::LevelSet { contract, side, price, size, venue_ts_ms: heard };
            let (after, outcome) = store.applied(event, now_ms);
            let book = store.books[contract.0 as int];
            let live = has_book(store, contract) && book.state == BookState::Live;
            let fits = size >= 0 && 0 <= price <= 100;
            &&& !has_book(store, contract) ==> after == store && outcome
                == Applied::UnknownContract
            &&& has_book(store, contract) && !live ==> {
                &&& outcome == Applied::Skipped
                &&& after == (StoreView { metrics: after.metrics, ..store })
                &&& one_more(
                    store.metrics.deltas_skipped_not_live,
                    after.metrics.deltas_skipped_not_live,
                )
                &&& after.metrics == (BookMetrics {
                    deltas_skipped_not_live: after.metrics.deltas_skipped_not_live,
                    ..store.metrics
                })
            }
            &&& live && !fits ==> after == store && outcome == Applied::Skipped
            &&& live && fits ==> {
                let written = after.books[contract.0 as int];
                &&& outcome == Applied::Delta(contract)
                &&& written == book.level_set(side, price as int, size, now_ms)
                &&& nothing_else_moves(store, after, contract, book.venue)
                &&& awaited(after, book.venue) == awaited(store, book.venue)
                &&& one_more(store.metrics.deltas_applied, after.metrics.deltas_applied)
                &&& cross_counted(store.metrics, after.metrics, written)
                &&& after.metrics.negative_level_clamps == store.metrics.negative_level_clamps
                &&& after.metrics.snapshots_applied == store.metrics.snapshots_applied
                &&& after.metrics.sequence_gaps == store.metrics.sequence_gaps
                &&& after.metrics.deltas_skipped_not_live == store.metrics.deltas_skipped_not_live
                &&& after.metrics.resync_requests == store.metrics.resync_requests
            }
        }),
{
    if has_book(store, contract) && 0 <= price <= 100 && size >= 0 {
        let book = store.books[contract.0 as int];
        assert(book.wf());
        let next = book.level_set(side, price as int, size, now_ms);
        assert(next.wf());
        a_crossed_book_bids_more_than_a_dollar(next);
    }
}

/// A lost connection leaves every book of the venue awaiting a snapshot, and a
/// renewed subscription every live one. Neither changes what any book holds, and
/// neither reaches another venue.
pub proof fn a_lost_venue_awaits_snapshots(store: StoreView, event: EventView, now_ms: u64, i: int)
    requires
        store.wf(),
        0 <= i < store.books.len(),
    ensures
        ({
            let (after, outcome) = store.applied(event, now_ms);
            let was = store.books[i];
            match event {
                EventView::Disconnected { venue } => {
                    &&& outcome == Applied::Invalidated
                    &&& after.books[i] == (if was.venue == venue {
                        BookView { state: BookState::Resyncing, ..was }
                    } else {
                        was
                    })
                    &&& awaited(after, venue) is None
                    &&& forall|v: Venue|
                        v != venue ==> #[trigger] awaited(after, v) == awaited(store, v)
                    &&& after.metrics == store.metrics
                },
                EventView::Resubscribed { contract } => if contract.0 < store.books.len() {
                    let venue = store.books[contract.0 as int].venue;
                    &&& outcome == Applied::Invalidated
                    &&& after.books[i] == (if was.venue == venue && was.state == BookState::Live {
                        BookView { state: BookState::Resyncing, ..was }
                    } else {
                        was
                    })
                    &&& awaited(after, venue) is None
                    &&& forall|v: Venue|
                        v != venue ==> #[trigger] awaited(after, v) == awaited(store, v)
                    &&& after.metrics == store.metrics
                } else {
                    outcome == Applied::UnknownContract && after == store
                },
                _ => true,
            }
        }),
{
}

/// What is handed on to be evaluated is the one book that an event wrote, and
/// nothing where it wrote none.
pub proof fn only_a_written_book_is_evaluated(applied: Applied, contract: ContractId)
    ensures
        book::dirtied(applied).contains(contract) <==> (applied == Applied::Snapshot(contract)
            || applied == Applied::Delta(contract)),
        book::dirtied(applied).len() <= 1,
{
    if applied == Applied::Snapshot(contract) || applied == Applied::Delta(contract) {
        assert(book::dirtied(applied)[0] == contract);
    }
}

/// Every book is in one state, and each state counts its own.
pub proof fn books_are_counted_by_state(books: Seq<BookView>, state: BookState)
    ensures
        book::count_in(books, state) == tally::total(
            books.len() as int,
            |i: int|
                if books[i].state == state {
                    1
                } else {
                    0
                },
        ),
        book::count_in(books, BookState::Uninitialized) + book::count_in(
            books,
            BookState::Resyncing,
        ) + book::count_in(books, BookState::Live) == books.len(),
    decreases books.len(),
{
    let flag = |i: int|
        if books[i].state == state {
            1int
        } else {
            0int
        };
    if books.len() > 0 {
        let before = books.drop_last();
        books_are_counted_by_state(before, state);
        let earlier = |i: int|
            if before[i].state == state {
                1int
            } else {
                0int
            };
        tally::lemma_same(before.len() as int, earlier, flag);
    }
    assert(flag =~= (|i: int|
        if books[i].state == state {
            1int
        } else {
            0int
        }));
}

/// The contract that an event names.
pub open spec fn names_contract(event: EventView, contract: ContractId) -> bool {
    match event {
        EventView::Snapshot { contract: named, .. } => named == contract,
        EventView::Delta { contract: named, .. } => named == contract,
        EventView::LevelSet { contract: named, .. } => named == contract,
        EventView::Resubscribed { contract: named } => named == contract,
        EventView::Disconnected { .. } => false,
    }
}

/// An event is about the venue of its contract's book, or the one it names.
pub proof fn an_event_is_about_its_books_venue(
    store: StoreView,
    event: EventView,
    contract: ContractId,
    venue: Venue,
)
    ensures
        store.venue_of(EventView::Disconnected { venue }) == Some(venue),
        names_contract(event, contract) ==> store.venue_of(event) == (if contract.0
            < store.books.len() {
            Some(store.books[contract.0 as int].venue)
        } else {
            None
        }),
{
}

/// A store opens with one empty book for each instrument, none of them live.
pub proof fn a_store_opens_empty(instruments: Seq<types::Instrument>, i: int, price: int)
    requires
        0 <= i < instruments.len(),
        0 <= price <= 100,
    ensures
        ({
            let store = book::opened(instruments);
            let book = store.books[i];
            &&& store.books.len() == instruments.len()
            &&& book.venue == instruments[i].0
            &&& book.state == BookState::Uninitialized
            &&& book.yes.len() == 101 && book.no.len() == 101
            &&& book.yes[price] == 0 && book.no[price] == 0
            &&& awaited(store, Venue::Kalshi) is None
            &&& awaited(store, Venue::Polymarket) is None
        }),
{
}

} // verus!
