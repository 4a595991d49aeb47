//! What a book quotes, read off the sizes that rest in it.
//!
//! A bid for one outcome at P cents is an offer of the other at `100 - P`. The
//! best bid, the best offer, and what taking contracts costs are said here price
//! by price, so that what the rest of the library does with ladders and walks can
//! be held to it.
use vstd::prelude::*;
use crate::fees::FeeModel;
use crate::solver::costing;
use crate::types;
use crate::types::{BookView, Cents, ContractId, Level, Side};

verus! {

/// The outcome that pays when a given one does not.
pub open spec fn other(side: Side) -> Side {
    match side {
        Side::Yes => Side::No,
        Side::No => Side::Yes,
    }
}

/// The sizes bid for an outcome, by price.
pub open spec fn bid_sizes(book: BookView, side: Side) -> Seq<i64> {
    match side {
        Side::Yes => book.yes,
        Side::No => book.no,
    }
}

/// The highest price at which anything is bid for an outcome.
pub open spec fn is_best_bid(book: BookView, side: Side, price: int) -> bool {
    &&& 0 <= price <= 100
    &&& bid_sizes(book, side)[price] > 0
    &&& forall|p: int| price < p <= 100 ==> #[trigger] bid_sizes(book, side)[p] <= 0
}

/// Nothing is bid for an outcome.
pub open spec fn no_bid(book: BookView, side: Side) -> bool {
    forall|p: int| 0 <= p <= 100 ==> #[trigger] bid_sizes(book, side)[p] <= 0
}

/// How many contracts of an outcome are offered at a price: what is bid for the
/// other outcome at the complement.
pub open spec fn offered_at(book: BookView, side: Side, price: int) -> int {
    if bid_sizes(book, other(side))[100 - price] > 0 {
        bid_sizes(book, other(side))[100 - price] as int
    } else {
        0
    }
}

/// How many contracts of an outcome are offered at a price or below.
pub open spec fn offered_upto(book: BookView, side: Side, price: int) -> int
    decreases price + 1,
{
    if price < 0 {
        0
    } else {
        offered_upto(book, side, price - 1) + offered_at(book, side, price)
    }
}

/// The lowest price at which an outcome is offered.
pub open spec fn is_best_ask(book: BookView, side: Side, price: int) -> bool {
    &&& 0 <= price <= 100
    &&& offered_at(book, side, price) > 0
    &&& forall|p: int| 0 <= p < price ==> #[trigger] offered_at(book, side, p) == 0
}

/// An outcome is not offered.
pub open spec fn no_ask(book: BookView, side: Side) -> bool {
    forall|p: int| 0 <= p <= 100 ==> #[trigger] offered_at(book, side, p) == 0
}

/// How many of `qty` contracts are taken at a price when the cheaper ones go
/// first.
pub open spec fn taken_at(book: BookView, side: Side, qty: int, price: int) -> int {
    let left = qty - offered_upto(book, side, price - 1);
    if left <= 0 {
        0
    } else if left <= offered_at(book, side, price) {
        left
    } else {
        offered_at(book, side, price)
    }
}

/// What those of `qty` contracts cost that are taken at a price or below.
pub open spec fn cost_upto(book: BookView, side: Side, qty: int, price: int) -> int
    decreases price + 1,
{
    if price < 0 {
        0
    } else {
        cost_upto(book, side, qty, price - 1) + taken_at(book, side, qty, price) * price
    }
}

/// What is charged for those of `qty` contracts that are taken at a price or
/// below: one fee for each price at which anything is taken.
pub open spec fn fee_upto<F: FeeModel + ?Sized>(
    fees: &F,
    contract: ContractId,
    book: BookView,
    side: Side,
    qty: int,
    price: int,
) -> int
    decreases price + 1,
{
    if price < 0 {
        0
    } else {
        fee_upto(fees, contract, book, side, qty, price - 1) + if taken_at(book, side, qty, price)
            > 0 {
            fees.fee(contract, price, taken_at(book, side, qty, price))
        } else {
            0
        }
    }
}

/// The lowest price up to which the offers hold `qty` contracts, or the highest
/// price offered where all of them together hold fewer.
pub open spec fn is_reach(book: BookView, side: Side, qty: int, price: int) -> bool {
    &&& 0 <= price <= 100
    &&& offered_at(book, side, price) > 0
    &&& offered_upto(book, side, price - 1) < qty
    &&& offered_upto(book, side, price) >= qty || forall|p: int|
        price < p <= 100 ==> #[trigger] offered_at(book, side, p) == 0
}

// ---------------------------------------------------------------------------
// Ladders
// ---------------------------------------------------------------------------

/// The offers at 100 - `top` cents and above.
spec fn above(book: BookView, side: Side, top: int) -> Seq<Level> {
    types::offered(bid_sizes(book, other(side)), top)
}

pub proof fn lemma_upto_nonneg(book: BookView, side: Side, price: int)
    ensures
        offered_upto(book, side, price) >= 0,
    decreases price + 1,
{
    if price >= 0 {
        lemma_upto_nonneg(book, side, price - 1);
    }
}

pub proof fn lemma_upto_rises(book: BookView, side: Side, low: int, high: int)
    requires
        low <= high,
    ensures
        offered_upto(book, side, low) <= offered_upto(book, side, high),
    decreases high - low,
{
    if low < high {
        lemma_upto_rises(book, side, low, high - 1);
        lemma_upto_nonneg(book, side, high - 1);
    }
}

/// A ladder from some price on costs, charges and holds what is left of the
/// prices from there on.
proof fn lemma_above<F: FeeModel + ?Sized>(
    fees: &F,
    contract: ContractId,
    book: BookView,
    side: Side,
    qty: int,
    top: int,
)
    requires
        -1 <= top <= 100,
        book.yes.len() == 101,
        book.no.len() == 101,
    ensures
        ({
            let left = costing::max(qty - offered_upto(book, side, 99 - top), 0);
            let ladder = above(book, side, top);
            &&& cost_upto(book, side, qty, 99 - top) + costing::premium(ladder, left)
                == cost_upto(book, side, qty, 100)
            &&& fee_upto(fees, contract, book, side, qty, 99 - top) + costing::levied(
                fees,
                contract,
                ladder,
                left,
            ) == fee_upto(fees, contract, book, side, qty, 100)
            &&& offered_upto(book, side, 99 - top) + costing::depth(ladder) == offered_upto(
                book,
                side,
                100,
            )
        }),
    decreases top + 1,
{
    let price = 100 - top;
    let ladder = above(book, side, top);
    if top >= 0 {
        lemma_above(fees, contract, book, side, qty, top - 1);
        lemma_upto_nonneg(book, side, price - 1);
        let rest = above(book, side, top - 1);
        let before = offered_upto(book, side, price - 1);
        let left = costing::max(qty - before, 0);
        let here = offered_at(book, side, price);
        assert(offered_upto(book, side, price) == before + here);
        if here > 0 {
            assert(ladder.subrange(1, ladder.len() as int) =~= rest);
            assert(ladder[0] == Level { price: price as i64, size: here as i64 });
            let take = costing::min(left, here);
            assert(taken_at(book, side, qty, price) == take);
            assert(costing::max(qty - (before + here), 0) == left - take);
            assert(ladder =~= seq![ladder[0]] + rest);
            costing::lemma_depth_concat(seq![ladder[0]], rest);
            assert(seq![ladder[0]].drop_last() =~= Seq::<Level>::empty());
            assert(costing::depth(seq![ladder[0]]) == here) by {
                assert(costing::depth(seq![ladder[0]].drop_last()) == 0);
            }
            if left == 0 {
                assert(take * price == 0) by (nonlinear_arith)
                    requires
                        take == 0,
                ;
                assert(costing::premium(rest, 0) == 0);
                assert(costing::levied(fees, contract, rest, 0) == 0);
            }
        } else {
            assert(taken_at(book, side, qty, price) == 0);
            assert(ladder == rest);
            assert(0 * price == 0);
        }
    } else {
        assert(ladder =~= Seq::<Level>::empty());
    }
}

/// Where a ladder from some price on is left behind by a walk.
proof fn lemma_reach_above(
    book: BookView,
    side: Side,
    qty: int,
    top: int,
    so_far: Option<Cents>,
)
    requires
        -1 <= top <= 100,
        book.yes.len() == 101,
        book.no.len() == 101,
        match so_far {
            None => offered_upto(book, side, 99 - top) == 0,
            Some(price) => 0 <= price < 100 - top && offered_at(book, side, price as int) > 0
                && offered_upto(book, side, price - 1) < qty && forall|p: int|
                price < p < 100 - top ==> #[trigger] offered_at(book, side, p) == 0,
        },
    ensures
        ({
            let left = costing::max(qty - offered_upto(book, side, 99 - top), 0);
            match costing::worst_price(above(book, side, top), left, so_far) {
                Some(price) => is_reach(book, side, qty, price as int),
                None => so_far is None && (qty <= 0 || offered_upto(book, side, 100) == 0),
            }
        }),
    decreases top + 1,
{
    let price = 100 - top;
    let ladder = above(book, side, top);
    let left = costing::max(qty - offered_upto(book, side, 99 - top), 0);
    if top >= 0 {
        let rest = above(book, side, top - 1);
        let here = offered_at(book, side, price);
        lemma_upto_nonneg(book, side, price - 1);
        if here > 0 {
            assert(ladder.subrange(1, ladder.len() as int) =~= rest);
            assert(ladder[0] == Level { price: price as i64, size: here as i64 });
            if left > 0 {
                assert(offered_upto(book, side, price - 1) < qty);
                lemma_reach_above(book, side, qty, top - 1, Some(price as i64));
            } else if let Some(found) = so_far {
                lemma_flat(book, side, found as int, price - 1);
            }
        } else {
            assert(ladder == rest);
            if let Some(found) = so_far {
                assert forall|p: int| found < p < 101 - top implies #[trigger] offered_at(
                    book,
                    side,
                    p,
                ) == 0 by {
                    if p == price {
                    }
                }
            }
            lemma_reach_above(book, side, qty, top - 1, so_far);
        }
    } else {
        assert(ladder =~= Seq::<Level>::empty());
    }
}

/// Where nothing is offered between two prices, as much is offered up to either.
pub proof fn lemma_flat(book: BookView, side: Side, low: int, high: int)
    requires
        low <= high,
        -1 <= low,
        forall|p: int| low < p <= high ==> #[trigger] offered_at(book, side, p) == 0,
    ensures
        offered_upto(book, side, low) == offered_upto(book, side, high),
    decreases high - low,
{
    if low < high {
        lemma_flat(book, side, low, high - 1);
    }
}

/// What is taken off the offers does not depend on having walked further first.
pub proof fn lemma_walked_alike<F: FeeModel + ?Sized>(
    fees: &F,
    contract: ContractId,
    offers: Seq<Level>,
    want: int,
    qty: int,
    so_far: Option<Cents>,
)
    requires
        costing::ladder_wf(offers),
        0 <= qty <= want,
    ensures
        ({
            let ladder = costing::walked(offers, want);
            &&& costing::premium(ladder, qty) == costing::premium(offers, qty)
            &&& costing::levied(fees, contract, ladder, qty) == costing::levied(
                fees,
                contract,
                offers,
                qty,
            )
            &&& costing::worst_price(ladder, qty, so_far) == costing::worst_price(
                offers,
                qty,
                so_far,
            )
        }),
    decreases offers.len(),
{
    let ladder = costing::walked(offers, want);
    if want > 0 && offers.len() > 0 {
        let rest = offers.subrange(1, offers.len() as int);
        assert(offers[0].size > 0);
        assert forall|k: int| 0 <= k < rest.len() implies 0 <= (#[trigger] rest[k]).price <= 100
            && rest[k].size > 0 by {
            assert(rest[k] == offers[k + 1]);
        }
        let take = costing::min(want, offers[0].size as int);
        let tail = costing::walked(rest, want - take);
        assert(ladder == seq![Level { price: offers[0].price, size: take as i64 }] + tail);
        assert(ladder.subrange(1, ladder.len() as int) =~= tail);
        assert(ladder[0] == Level { price: offers[0].price, size: take as i64 });
        let step = costing::min(qty, offers[0].size as int);
        if qty > 0 {
            assert(costing::min(qty, take) == step);
            lemma_walked_alike(
                fees,
                contract,
                rest,
                want - take,
                qty - step,
                Some(offers[0].price),
            );
        }
    } else {
        assert(ladder =~= Seq::<Level>::empty());
    }
}

/// The ladder of offers of a sound book, as the prices say it.
pub proof fn lemma_offers<F: FeeModel + ?Sized>(
    fees: &F,
    contract: ContractId,
    book: BookView,
    side: Side,
    qty: int,
)
    requires
        book.yes.len() == 101,
        book.no.len() == 101,
    ensures
        costing::ladder_wf(costing::asks_for(book, side)),
        costing::ascending(costing::asks_for(book, side)),
        costing::depth(costing::asks_for(book, side)) == offered_upto(book, side, 100),
        qty >= 0 ==> costing::premium(costing::asks_for(book, side), qty) == cost_upto(
            book,
            side,
            qty,
            100,
        ),
        qty >= 0 ==> costing::levied(fees, contract, costing::asks_for(book, side), qty)
            == fee_upto(fees, contract, book, side, qty, 100),
        match costing::worst_price(costing::asks_for(book, side), costing::max(qty, 0), None) {
            Some(price) => is_reach(book, side, qty, price as int),
            None => qty <= 0 || offered_upto(book, side, 100) == 0,
        },
{
    types::lemma_offered(book.yes, 100);
    types::lemma_offered(book.no, 100);
    assert(costing::asks_for(book, side) == above(book, side, 100));
    lemma_above(fees, contract, book, side, qty, 100);
    assert(offered_upto(book, side, -1) == 0);
    lemma_reach_above(book, side, qty, 100, None);
}

/// The first level of the resting bids is the best bid, and the first of the
/// offers the best offer.
pub proof fn lemma_first(book: BookView, side: Side)
    requires
        book.yes.len() == 101,
        book.no.len() == 101,
    ensures
        match types::first_level(types::resting(bid_sizes(book, side), 100)) {
            Some(level) => is_best_bid(book, side, level.price as int) && level.size == bid_sizes(
                book,
                side,
            )[level.price as int],
            None => no_bid(book, side),
        },
        match types::first_level(costing::asks_for(book, side)) {
            Some(level) => is_best_ask(book, side, level.price as int) && level.size == offered_at(
                book,
                side,
                level.price as int,
            ),
            None => no_ask(book, side),
        },
{
    lemma_first_bid(bid_sizes(book, side), 100);
    lemma_first_offer(book, side, 100);
}

proof fn lemma_first_bid(sizes: Seq<i64>, top: int)
    requires
        sizes.len() == 101,
        -1 <= top <= 100,
        forall|p: int| top < p <= 100 ==> #[trigger] sizes[p] <= 0,
    ensures
        match types::first_level(types::resting(sizes, top)) {
            Some(level) => 0 <= level.price <= 100 && level.size == sizes[level.price as int]
                && level.size > 0 && forall|p: int|
                level.price < p <= 100 ==> #[trigger] sizes[p] <= 0,
            None => forall|p: int| 0 <= p <= 100 ==> #[trigger] sizes[p] <= 0,
        },
    decreases top + 1,
{
    if top >= 0 && sizes[top] <= 0 {
        lemma_first_bid(sizes, top - 1);
    }
}

proof fn lemma_first_offer(book: BookView, side: Side, top: int)
    requires
        book.yes.len() == 101,
        book.no.len() == 101,
        -1 <= top <= 100,
        forall|p: int| 0 <= p < 100 - top ==> #[trigger] offered_at(book, side, p) == 0,
    ensures
        match types::first_level(above(book, side, top)) {
            Some(level) => is_best_ask(book, side, level.price as int) && level.size == offered_at(
                book,
                side,
                level.price as int,
            ),
            None => no_ask(book, side),
        },
    decreases top + 1,
{
    if top >= 0 && offered_at(book, side, 100 - top) == 0 {
        lemma_first_offer(book, side, top - 1);
    }
}

/// A book has at most one best offer, and at most one best bid.
pub proof fn lemma_one_best(book: BookView, side: Side, a: int, b: int)
    ensures
        is_best_ask(book, side, a) && is_best_ask(book, side, b) ==> a == b,
        is_best_bid(book, side, a) && is_best_bid(book, side, b) ==> a == b,
        !(is_best_ask(book, side, a) && no_ask(book, side)),
        !(is_best_bid(book, side, a) && no_bid(book, side)),
{
}

} // verus!
