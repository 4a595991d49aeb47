//! The four closed-form constraint checks.
//!
//! Each one answers a single question in a handful of integer operations: are
//! the best prices in this group mutually inconsistent? They run on every dirty
//! group and never touch depth, fees, or the clock. Everything expensive happens
//! in [`crate::solver::costing`], and only for groups that fail one of these
//! tests.
//!
//! All four are expressed the same way: a trade is a candidate when the legs
//! that guarantee a dollar can be bought for less than a dollar. Writing the
//! checks in terms of *executable* prices rather than quoted ones matters. A
//! ladder inversion between two mid prices is not a trade if crossing both
//! spreads costs more than the inversion is worth, so the checks compare the
//! price you can actually pay against the price you can actually receive.
use vstd::prelude::*;
use crate::registry::GroupId;
use crate::solver::types::{Candidate, CandidateLeg, CandidateView};
use crate::solver::types;
use crate::types::{Book, BookView, Cents, Side};

verus! {

/// Cheapest executable price for the yes outcome, from resting no bids.
pub open spec fn ask_yes(book: BookView) -> Option<int> {
    match crate::types::first_level(book.asks()) {
        Some(level) => Some(level.price as int),
        None => None,
    }
}

/// Cheapest executable price for the no outcome, from resting yes bids.
pub open spec fn ask_no(book: BookView) -> Option<int> {
    match crate::types::first_level(book.no_asks()) {
        Some(level) => Some(level.price as int),
        None => None,
    }
}

pub open spec fn leg_on(book: BookView, side: Side) -> CandidateLeg {
    CandidateLeg { venue: book.venue, contract_id: book.contract_id, side }
}

/// Exactly one dollar is guaranteed, so anything strictly cheaper is a
/// candidate. Equality is not: a set costing exactly 100 has zero gross edge
/// and no fee schedule can improve it.
pub open spec fn if_underpriced(group: GroupId, legs: Seq<CandidateLeg>, cost: int) -> Seq<
    CandidateView,
> {
    if cost < 100 {
        seq![CandidateView { group, legs, top_of_book_cost_cents: cost as i64 }]
    } else {
        Seq::empty()
    }
}

/// Buying yes on one book and no on another, where both are quoted.
pub open spec fn pair_candidates(group: GroupId, long: BookView, short: BookView) -> Seq<
    CandidateView,
> {
    match (ask_yes(long), ask_no(short)) {
        (Some(yes), Some(no)) => if_underpriced(
            group,
            seq![leg_on(long, Side::Yes), leg_on(short, Side::No)],
            yes + no,
        ),
        _ => Seq::empty(),
    }
}

/// What buying yes on every book costs, where every one is quoted.
pub open spec fn yes_cost(books: Seq<BookView>) -> Option<int>
    decreases books.len(),
{
    if books.len() == 0 {
        Some(0)
    } else {
        match (yes_cost(books.drop_last()), ask_yes(books.last())) {
            (Some(before), Some(price)) => Some(before + price),
            _ => None,
        }
    }
}

pub open spec fn yes_legs(books: Seq<BookView>) -> Seq<CandidateLeg> {
    books.map_values(|book: BookView| leg_on(book, Side::Yes))
}

pub open spec fn complement_candidates(group: GroupId, book: BookView) -> Seq<CandidateView> {
    pair_candidates(group, book, book)
}

pub open spec fn exhaustive_candidates(group: GroupId, books: Seq<BookView>) -> Seq<CandidateView> {
    if books.len() < 2 {
        Seq::empty()
    } else {
        match yes_cost(books) {
            Some(cost) => if_underpriced(group, yes_legs(books), cost),
            None => Seq::empty(),
        }
    }
}

/// One candidate per inverted adjacent pair among the first `n` rungs.
pub open spec fn monotone_candidates(group: GroupId, ordered: Seq<BookView>, n: int) -> Seq<
    CandidateView,
>
    decreases n,
{
    if n < 2 {
        Seq::empty()
    } else {
        monotone_candidates(group, ordered, n - 1) + pair_candidates(
            group,
            ordered[n - 2],
            ordered[n - 1],
        )
    }
}

pub open spec fn cross_candidates(group: GroupId, a: BookView, b: BookView) -> Seq<CandidateView> {
    pair_candidates(group, a, b) + pair_candidates(group, b, a)
}

/// What a list of borrowed books holds.
pub open spec fn books_view(books: Seq<&Book>) -> Seq<BookView> {
    books.map_values(|book: &Book| book@)
}

fn best_ask_yes(book: &Book) -> (price: Option<Cents>)
    ensures
        match price {
            Some(cents) => ask_yes(book@) == Some(cents as int) && 0 <= cents <= 100,
            None => ask_yes(book@) is None,
        },
{
    proof {
        crate::types::lemma_offered(book@.no, 100);
    }
    match book.best_ask() {
        Some(level) => Some(level.price),
        None => None,
    }
}

fn best_ask_no(book: &Book) -> (price: Option<Cents>)
    ensures
        match price {
            Some(cents) => ask_no(book@) == Some(cents as int) && 0 <= cents <= 100,
            None => ask_no(book@) is None,
        },
{
    proof {
        crate::types::lemma_offered(book@.yes, 100);
    }
    match book.best_no_ask() {
        Some(level) => Some(level.price),
        None => None,
    }
}

fn leg(book: &Book, side: Side) -> (leg: CandidateLeg)
    ensures
        leg == leg_on(book@, side),
{
    CandidateLeg { venue: book.venue, contract_id: book.contract_id, side }
}

fn push_if_underpriced(
    group: GroupId,
    legs: Vec<CandidateLeg>,
    total_cost_cents: i128,
    out: &mut Vec<Candidate>,
)
    requires
        total_cost_cents >= 0,
    ensures
        types::candidates_view(final(out)@) == types::candidates_view(old(out)@) + if_underpriced(
            group,
            legs@,
            total_cost_cents as int,
        ),
{
    if total_cost_cents < 100 {
        let ghost legs_view = legs@;
        out.push(Candidate { group, legs, top_of_book_cost_cents: total_cost_cents as i64 });
        assert(types::candidates_view(out@) =~= types::candidates_view(old(out)@)
            + if_underpriced(group, legs_view, total_cost_cents as int));
    } else {
        assert(types::candidates_view(out@) =~= types::candidates_view(old(out)@)
            + if_underpriced(group, legs@, total_cost_cents as int));
    }
}

/// Buy yes on `long` and no on `short`, where that costs less than a dollar.
fn push_pair(group: GroupId, long: &Book, short: &Book, out: &mut Vec<Candidate>)
    ensures
        types::candidates_view(final(out)@) == types::candidates_view(old(out)@)
            + pair_candidates(group, long@, short@),
{
    match (best_ask_yes(long), best_ask_no(short)) {
        (Some(yes), Some(no)) => {
            let legs: Vec<CandidateLeg> = vec![leg(long, Side::Yes), leg(short, Side::No)];
            assert(legs@ =~= seq![leg_on(long@, Side::Yes), leg_on(short@, Side::No)]);
            push_if_underpriced(group, legs, yes as i128 + no as i128, out);
        },
        _ => {
            assert(types::candidates_view(out@) =~= types::candidates_view(old(out)@)
                + pair_candidates(group, long@, short@));
        },
    }
}

/// A contract and its own negation must sum to exactly 100 cents.
///
/// The published form of this check is stated two ways, best yes bid plus best
/// no bid above 100, or best yes ask plus best no ask below 100, and on a
/// single Kalshi contract they are the same inequality, because a yes ask is a
/// resting no bid at `100 - P`. Only the ask form is checked, because it is the
/// form that gets costed.
///
/// The trade buys both outcomes: one of them pays a dollar, and the other pays
/// nothing, with certainty. The two legs take liquidity from opposite sides of
/// the same book, so they never consume each other's depth.
pub fn evaluate_complement(group: GroupId, book: &Book, out: &mut Vec<Candidate>)
    ensures
        types::candidates_view(final(out)@) == types::candidates_view(old(out)@)
            + complement_candidates(group, book@),
{
    push_pair(group, book, book, out);
}

/// N mutually exclusive and exhaustive outcomes must sum to 100 cents.
///
/// Exactly one member resolves yes, so buying one of each pays exactly a dollar
/// whatever happens. The check is a sum and a comparison. Fees are deliberately
/// not applied here: they depend on the quantity, which depends on depth, which
/// this stage does not look at. Under-100 is the necessary condition, and
/// costing decides whether it survives.
pub fn evaluate_exhaustive(group: GroupId, books: &[&Book], out: &mut Vec<Candidate>)
    ensures
        types::candidates_view(final(out)@) == types::candidates_view(old(out)@)
            + exhaustive_candidates(group, books_view(books@)),
{
    let ghost all = books_view(books@);
    if books.len() < 2 {
        assert(types::candidates_view(out@) =~= types::candidates_view(old(out)@)
            + exhaustive_candidates(group, all));
        return;
    }
    let mut total_cost_cents: i128 = 0;
    let mut legs: Vec<CandidateLeg> = Vec::new();
    let mut i: usize = 0;
    assert(all.subrange(0, 0) =~= Seq::<BookView>::empty());
    assert(legs@ =~= yes_legs(all.subrange(0, 0)));
    while i < books.len()
        invariant
            i <= books@.len(),
            all == books_view(books@),
            out@ == old(out)@,
            books@.len() >= 2,
            yes_cost(all.subrange(0, i as int)) == Some(total_cost_cents as int),
            0 <= total_cost_cents <= 100 * i,
            legs@ == yes_legs(all.subrange(0, i as int)),
        decreases books@.len() - i,
    {
        let book: &Book = books[i];
        assert(all.subrange(0, i + 1).drop_last() =~= all.subrange(0, i as int));
        assert(all.subrange(0, i + 1).last() == book@);
        match best_ask_yes(book) {
            Some(price) => {
                total_cost_cents = total_cost_cents + price as i128;
            },
            None => {
                proof {
                    lemma_yes_cost_prefix(all, i + 1);
                    assert(types::candidates_view(out@) =~= types::candidates_view(old(out)@)
                        + exhaustive_candidates(group, all));
                }
                return;
            },
        }
        legs.push(leg(book, Side::Yes));
        i = i + 1;
        assert(legs@ =~= yes_legs(all.subrange(0, i as int)));
    }
    assert(all.subrange(0, all.len() as int) =~= all);
    push_if_underpriced(group, legs, total_cost_cents, out);
}

proof fn lemma_yes_cost_prefix(books: Seq<BookView>, n: int)
    requires
        0 <= n <= books.len(),
        yes_cost(books.subrange(0, n)) is None,
    ensures
        yes_cost(books) is None,
    decreases books.len(),
{
    if n == books.len() {
        assert(books.subrange(0, n) =~= books);
    } else {
        assert(books.drop_last().subrange(0, n) =~= books.subrange(0, n));
        lemma_yes_cost_prefix(books.drop_last(), n);
    }
}

/// A threshold ladder's prices must be non-increasing as the threshold rises.
///
/// `ordered` runs from the weakest claim to the strongest, so each rung's yes
/// event contains the next rung's and `P(rung i) >= P(rung i+1)`. An inversion
/// is tradeable when the weaker rung can be *bought* for less than the stronger
/// rung can be *sold*: buy yes on rung `i`, buy no on rung `i + 1`. That
/// position pays a dollar in every state and two dollars in the one state
/// between the thresholds, so a dollar is the guarantee and the rest is upside.
///
/// Every violating adjacent pair becomes its own candidate. A ladder can be
/// inverted in more than one place, and the pairs are priced independently
/// because they consume different books.
pub fn evaluate_monotonicity(group: GroupId, ordered: &[&Book], out: &mut Vec<Candidate>)
    ensures
        types::candidates_view(final(out)@) == types::candidates_view(old(out)@)
            + monotone_candidates(group, books_view(ordered@), ordered@.len() as int),
{
    let ghost all = books_view(ordered@);
    let ghost before = types::candidates_view(out@);
    let mut n: usize = 1;
    assert(before =~= before + monotone_candidates(group, all, 1));
    if ordered.len() == 0 {
        assert(before =~= before + monotone_candidates(group, all, 0));
        return;
    }
    while n < ordered.len()
        invariant
            1 <= n <= ordered@.len(),
            all == books_view(ordered@),
            types::candidates_view(out@) == before + monotone_candidates(group, all, n as int),
        decreases ordered@.len() - n,
    {
        let ghost held = types::candidates_view(out@);
        push_pair(group, ordered[n - 1], ordered[n], out);
        proof {
            assert(all[n - 1] == ordered@[n - 1]@);
            assert(all[n as int] == ordered@[n as int]@);
            assert(types::candidates_view(out@) =~= before + monotone_candidates(
                group,
                all,
                n + 1,
            ));
        }
        n = n + 1;
    }
}

/// The same event listed on two venues must price the same.
///
/// Buying yes on one venue and no on the other pays exactly a dollar, since the
/// two contracts resolve together by definition of the pair. Both directions are
/// checked because either venue can be the cheap one, and they take liquidity
/// from opposite sides of both books, so a group that is crossed in both
/// directions yields two independent trades rather than one double-counted one.
///
/// Callers must confirm the pair is verified before calling. An unverified pair
/// is two contracts that merely look alike, and a cross-venue position on two
/// contracts that settle differently is a naked directional bet.
pub fn evaluate_cross_venue(group: GroupId, a: &Book, b: &Book, out: &mut Vec<Candidate>)
    ensures
        types::candidates_view(final(out)@) == types::candidates_view(old(out)@)
            + cross_candidates(group, a@, b@),
{
    push_pair(group, a, b, out);
    push_pair(group, b, a, out);
    assert(types::candidates_view(out@) =~= types::candidates_view(old(out)@)
        + cross_candidates(group, a@, b@));
}

/// The two published forms of the complement check are one inequality: both
/// outcomes cost less than a dollar together exactly when the book is crossed.
pub proof fn complement_fires_exactly_on_a_crossed_book(group: GroupId, book: BookView)
    requires
        book.yes.len() == 101,
        book.no.len() == 101,
    ensures
        complement_candidates(group, book).len() == (if book.crossed() {
            1int
        } else {
            0
        }),
        ask_yes(book) matches Some(yes) ==> ask_no(book) matches Some(no) ==> ({
            &&& book.bids().len() > 0
            &&& book.no_bids().len() > 0
            &&& yes + no == 200 - (book.bids()[0].price + book.no_bids()[0].price)
        }),
{
    crate::types::lemma_offered_mirrors_resting(book.yes, 100);
    crate::types::lemma_offered_mirrors_resting(book.no, 100);
}

} // verus!
