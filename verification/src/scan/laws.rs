//! What a scan finds, said of the sizes that rest in the books.
use vstd::prelude::*;
use crate::fees::FeeModel;
use crate::quote;
use crate::scan;
use crate::solver::costing;
use crate::tally;
use crate::types::{BookState, BookView, Side};

verus! {

/// The most that every book can sell, and no more than is wanted.
pub open spec fn is_common(books: Seq<BookView>, most: int, q: int) -> bool {
    &&& q <= most
    &&& forall|i: int|
        0 <= i < books.len() ==> q <= quote::offered_upto(#[trigger] books[i], Side::Yes, 100)
    &&& q == most || exists|i: int|
        0 <= i < books.len() && q == quote::offered_upto(#[trigger] books[i], Side::Yes, 100)
}

/// What `q` of every book cost together.
pub open spec fn together(books: Seq<BookView>, q: int) -> int {
    tally::total(
        books.len() as int,
        |i: int| quote::cost_upto(books[i], Side::Yes, q, 100),
    )
}

/// What is charged for `q` of every book together.
pub open spec fn charged<F: FeeModel>(fees: &F, books: Seq<BookView>, q: int) -> int {
    tally::total(
        books.len() as int,
        |i: int| quote::fee_upto(fees, books[i].contract_id, books[i], Side::Yes, q, 100),
    )
}

proof fn lemma_obtainable<F: FeeModel>(fees: &F, book: BookView, want: int, q: int)
    requires
        book.wf(),
        want > 0,
        q >= 0,
    ensures
        scan::obtainable(book, want) == costing::min(
            want,
            quote::offered_upto(book, Side::Yes, 100),
        ),
        scan::cost_of(book, q) == quote::cost_upto(book, Side::Yes, q, 100),
        scan::fee_of(fees, book, q) == quote::fee_upto(
            fees,
            book.contract_id,
            book,
            Side::Yes,
            q,
            100,
        ),
{
    let offers = costing::asks_for(book, Side::Yes);
    quote::lemma_offers(fees, book.contract_id, book, Side::Yes, q);
    costing::lemma_walked(offers, want);
    if costing::depth(costing::walked(offers, want)) < want {
        assert(costing::walked(offers, want) == offers);
    }
}

proof fn lemma_common<F: FeeModel>(fees: &F, books: Seq<BookView>, most: int, n: int)
    requires
        0 <= n <= books.len(),
        most > 0,
        forall|i: int| 0 <= i < books.len() ==> (#[trigger] books[i]).wf(),
    ensures
        ({
            let q = scan::common_size(books, most, n);
            &&& 0 <= q <= most
            &&& forall|i: int|
                0 <= i < n ==> q <= quote::offered_upto(#[trigger] books[i], Side::Yes, 100)
            &&& q == most || exists|i: int|
                0 <= i < n && q == quote::offered_upto(#[trigger] books[i], Side::Yes, 100)
        }),
    decreases n,
{
    if n > 0 {
        lemma_common(fees, books, most, n - 1);
        assert(books[n - 1].wf());
        lemma_obtainable(fees, books[n - 1], most, 0);
        quote::lemma_upto_nonneg(books[n - 1], Side::Yes, 100);
        let before = scan::common_size(books, most, n - 1);
        let here = quote::offered_upto(books[n - 1], Side::Yes, 100);
        if before != most && before <= here {
            let i = choose|i: int|
                0 <= i < n - 1 && before == quote::offered_upto(
                    #[trigger] books[i],
                    Side::Yes,
                    100,
                );
            assert(before == quote::offered_upto(books[i], Side::Yes, 100));
        }
    }
}

proof fn lemma_set<F: FeeModel>(fees: &F, books: Seq<BookView>, q: int, n: int)
    requires
        0 <= n <= books.len(),
        q >= 0,
        forall|i: int| 0 <= i < books.len() ==> (#[trigger] books[i]).wf(),
    ensures
        scan::set_cost(books, q, n) == tally::total(
            n,
            |i: int| quote::cost_upto(books[i], Side::Yes, q, 100),
        ),
        scan::set_fees(fees, books, q, n) == tally::total(
            n,
            |i: int| quote::fee_upto(fees, books[i].contract_id, books[i], Side::Yes, q, 100),
        ),
    decreases n,
{
    if n > 0 {
        lemma_set(fees, books, q, n - 1);
        assert(books[n - 1].wf());
        lemma_obtainable(fees, books[n - 1], 1, q);
    }
}

/// A scan finds a trade exactly where there is more than one book, all of them
/// live and recent, all of them sell something, and as many as all of them sell
/// cost less than the dollar that one of them pays. The trade is that many of
/// each.
pub proof fn a_scan_finds_what_pays<F: FeeModel>(
    fees: &F,
    books: Seq<BookView>,
    most: int,
    now_ms: u64,
    max_age_ms: u64,
    q: int,
)
    requires
        scan::scan_fits(fees, books, most),
        forall|i: int| 0 <= i < books.len() ==> (#[trigger] books[i]).wf(),
        is_common(books, most, q),
    ensures
        ({
            let asked = books.len() >= 2 && most > 0;
            let current = forall|i: int|
                0 <= i < books.len() ==> (#[trigger] books[i]).state == BookState::Live && now_ms
                    <= books[i].updated_at_ms + max_age_ms;
            let left = 100 * q - together(books, q) - charged(fees, books, q);
            match scan::scanned(fees, books, most, now_ms, max_age_ms) {
                Some(trade) => {
                    &&& asked && current && q > 0 && left > 0
                    &&& trade.qty == q
                    &&& trade.fees == charged(fees, books, q)
                    &&& trade.capital == together(books, q) + charged(fees, books, q)
                    &&& trade.gross == 100 * q - together(books, q)
                    &&& trade.net == left
                    &&& trade.legs.len() == books.len()
                    &&& forall|i: int|
                        0 <= i < books.len() ==> {
                            let leg = #[trigger] trade.legs[i];
                            &&& leg.venue == books[i].venue
                            &&& leg.contract_id == books[i].contract_id
                            &&& leg.qty == q
                            &&& leg.cost == quote::cost_upto(books[i], Side::Yes, q, 100)
                            &&& leg.fee == quote::fee_upto(
                                fees,
                                books[i].contract_id,
                                books[i],
                                Side::Yes,
                                q,
                                100,
                            )
                        }
                },
                None => !asked || !current || q <= 0 || left <= 0,
            }
        }),
{
    let n = books.len() as int;
    if n >= 2 && most > 0 {
        lemma_common(fees, books, most, n);
        let size = scan::common_size(books, most, n);
        assert(size == q) by {
            if size < q {
                let i = choose|i: int|
                    0 <= i < n && size == quote::offered_upto(#[trigger] books[i], Side::Yes, 100);
                assert(q <= quote::offered_upto(books[i], Side::Yes, 100));
            } else if q < size {
                let i = choose|i: int|
                    0 <= i < n && q == quote::offered_upto(#[trigger] books[i], Side::Yes, 100);
                assert(size <= quote::offered_upto(books[i], Side::Yes, 100));
            }
        }
        lemma_set(fees, books, q, n);
        assert(scan::walk_fits(fees, books[0], q));
        assert(i64::MIN <= scan::set_fees(fees, books, q, n) <= i64::MAX);
        if let Some(trade) = scan::scanned(fees, books, most, now_ms, max_age_ms) {
            lemma_cost_nonneg(books, q, n);
            assert forall|i: int| 0 <= i < n implies {
                let leg = #[trigger] trade.legs[i];
                &&& leg.venue == books[i].venue
                &&& leg.contract_id == books[i].contract_id
                &&& leg.qty == q
                &&& leg.cost == quote::cost_upto(books[i], Side::Yes, q, 100)
                &&& leg.fee == quote::fee_upto(
                    fees,
                    books[i].contract_id,
                    books[i],
                    Side::Yes,
                    q,
                    100,
                )
            } by {
                assert(books[i].wf());
                lemma_obtainable(fees, books[i], most, q);
                assert(scan::walk_fits(fees, books[i], q));
                let offers = costing::asks_for(books[i], Side::Yes);
                quote::lemma_offers(fees, books[i].contract_id, books[i], Side::Yes, q);
                costing::lemma_premium_bounds(offers, q);
                costing::lemma_levied_fits(fees, books[i].contract_id, offers, q, 0);
            }
            assert forall|i: int| 0 <= i < n implies (#[trigger] books[i]).state
                == BookState::Live && now_ms <= books[i].updated_at_ms + max_age_ms by {
                assert(books[i].is_fresh(now_ms, max_age_ms));
            }
        } else if q > 0 && 100 * q - together(books, q) - charged(fees, books, q) > 0 {
            let i = choose|i: int|
                0 <= i < n && !(#[trigger] books[i]).is_fresh(now_ms, max_age_ms);
            assert(!books[i].is_fresh(now_ms, max_age_ms));
        }
    }
}

proof fn lemma_cost_nonneg(books: Seq<BookView>, q: int, n: int)
    requires
        0 <= n <= books.len(),
        q >= 0,
        forall|i: int| 0 <= i < books.len() ==> (#[trigger] books[i]).wf(),
    ensures
        scan::set_cost(books, q, n) >= 0,
    decreases n,
{
    if n > 0 {
        lemma_cost_nonneg(books, q, n - 1);
        assert(books[n - 1].wf());
        let offers = costing::asks_for(books[n - 1], Side::Yes);
        let charges = crate::fees::KalshiFees { multiplier_numer: 1, multiplier_denom: 1 };
        quote::lemma_offers(&charges, books[n - 1].contract_id, books[n - 1], Side::Yes, q);
        costing::lemma_premium_bounds(offers, q);
    }
}

/// A walk takes what is wanted, or all there is, cheapest first.
pub proof fn a_walk_takes_the_cheapest<F: FeeModel>(fees: &F, book: BookView, want: int)
    requires
        book.wf(),
        want > 0,
    ensures
        ({
            let offered = quote::offered_upto(book, Side::Yes, 100);
            scan::obtainable(book, want) == (if want < offered {
                want
            } else {
                offered
            })
        }),
        scan::cost_of(book, want) == quote::cost_upto(book, Side::Yes, want, 100),
        scan::fee_of(fees, book, want) == quote::fee_upto(
            fees,
            book.contract_id,
            book,
            Side::Yes,
            want,
            100,
        ),
{
    lemma_obtainable(fees, book, want, want);
}

} // verus!
