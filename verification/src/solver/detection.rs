//! What the checks find, said of the books they are run on.
//!
//! - A group that can be evaluated yields exactly the purchases that its relation
//!   guarantees a dollar for and its best offers sell for less: every one of them,
//!   each once, and nothing else.
//! - A group that cannot be evaluated is refused for a fact about its books.
//! - The resolutions of a relation are exactly those it permits.
use vstd::prelude::*;
use crate::quote;
use crate::registry::{GroupView, RelationView};
use crate::solver;
use crate::solver::costing;
use crate::solver::fast;
use crate::solver::types::{CandidateLeg, CandidateView, RejectReason};
use crate::types::{BookState, BookView, ContractId, Side};

verus! {

/// A leg that buys an outcome on a book.
pub open spec fn on(leg: CandidateLeg, book: BookView, side: Side) -> bool {
    leg.venue == book.venue && leg.contract_id == book.contract_id && leg.side == side
}

/// A purchase of yes on one book and no on another, at the best offer of each.
pub open spec fn buys_pair(found: CandidateView, long: BookView, short: BookView) -> bool {
    &&& found.legs.len() == 2
    &&& on(found.legs[0], long, Side::Yes)
    &&& on(found.legs[1], short, Side::No)
    &&& exists|yes: int, no: int|
        #![trigger quote::is_best_ask(long, Side::Yes, yes), quote::is_best_ask(short, Side::No, no)]
        quote::is_best_ask(long, Side::Yes, yes) && quote::is_best_ask(short, Side::No, no)
            && found.top_of_book_cost_cents == yes + no
}

/// The sum of a list of prices.
pub open spec fn sum(prices: Seq<int>) -> int
    decreases prices.len(),
{
    if prices.len() == 0 {
        0
    } else {
        sum(prices.drop_last()) + prices.last()
    }
}

/// Prices that are the best offers of yes, book by book.
pub open spec fn yes_prices(books: Seq<BookView>, prices: Seq<int>) -> bool {
    prices.len() == books.len() && forall|i: int|
        0 <= i < books.len() ==> quote::is_best_ask(
            #[trigger] books[i],
            Side::Yes,
            prices[i],
        )
}

/// A purchase of yes on every book, at the best offer of each.
pub open spec fn buys_all(found: CandidateView, books: Seq<BookView>) -> bool {
    &&& found.legs.len() == books.len()
    &&& forall|i: int| 0 <= i < books.len() ==> on(#[trigger] found.legs[i], books[i], Side::Yes)
    &&& exists|prices: Seq<int>| #[trigger]
        yes_prices(books, prices) && found.top_of_book_cost_cents == sum(prices)
}

/// A purchase that a relation guarantees a dollar for, and that costs less.
pub open spec fn violates(group: GroupView, books: Seq<BookView>, found: CandidateView) -> bool {
    &&& found.group == group.id
    &&& found.top_of_book_cost_cents < 100
    &&& match group.relation {
        // Both outcomes of one contract.
        RelationView::Complement { .. } => buys_pair(found, books[0], books[0]),
        // One of each outcome.
        RelationView::Exhaustive { .. } => books.len() >= 2 && buys_all(found, books),
        // A rung, and the next stronger one failing.
        RelationView::Monotone { .. } => exists|i: int|
            0 <= i < books.len() - 1 && buys_pair(found, #[trigger] books[i], books[i + 1]),
        // The consequent, and the antecedent failing.
        RelationView::Implies { .. } => buys_pair(found, books[1], books[0]),
        // Either of the two, and the other failing.
        RelationView::Equivalent { .. } => buys_pair(found, books[0], books[1]) || buys_pair(
            found,
            books[1],
            books[0],
        ),
    }
}

/// The books of a group's members are there, sound, live, and recent.
pub open spec fn evaluable(
    group: GroupView,
    quotes: costing::Quotes,
    books: Seq<BookView>,
    max_age_ms: u64,
    now_ms: u64,
) -> bool {
    &&& books.len() == group.relation.members().len()
    &&& forall|i: int|
        0 <= i < books.len() ==> quotes(group.relation.members()[i]) == Some(#[trigger] books[i])
    &&& forall|i: int|
        0 <= i < books.len() ==> (#[trigger] books[i]).wf() && books[i].state == BookState::Live
            && now_ms <= books[i].updated_at_ms + max_age_ms
    &&& !(group.relation matches RelationView::Equivalent { verified, .. } && !verified)
}

proof fn lemma_pair(group: GroupView, long: BookView, short: BookView, found: CandidateView)
    requires
        long.wf(),
        short.wf(),
    ensures
        fast::pair_candidates(group.id, long, short).contains(found) <==> (found.group == group.id
            && found.top_of_book_cost_cents < 100 && buys_pair(found, long, short)),
        fast::pair_candidates(group.id, long, short).len() <= 1,
{
    quote::lemma_first(long, Side::Yes);
    quote::lemma_first(short, Side::No);
    let all = fast::pair_candidates(group.id, long, short);
    match (fast::ask_yes(long), fast::ask_no(short)) {
        (Some(yes), Some(no)) => {
            assert(quote::is_best_ask(long, Side::Yes, yes));
            assert(quote::is_best_ask(short, Side::No, no));
            let legs = seq![fast::leg_on(long, Side::Yes), fast::leg_on(short, Side::No)];
            if found.group == group.id && found.top_of_book_cost_cents < 100 && buys_pair(
                found,
                long,
                short,
            ) {
                let (y, n) = choose|y: int, n: int|
                    #![trigger quote::is_best_ask(long, Side::Yes, y), quote::is_best_ask(short, Side::No, n)]
                    quote::is_best_ask(long, Side::Yes, y) && quote::is_best_ask(short, Side::No, n)
                        && found.top_of_book_cost_cents == y + n;
                quote::lemma_one_best(long, Side::Yes, y, yes);
                quote::lemma_one_best(short, Side::No, n, no);
                assert(found.legs =~= legs);
                assert(all[0] == found);
            }
            if all.contains(found) {
                assert(found == all[0]);
                assert(found.legs =~= legs);
            }
        },
        _ => {
            if buys_pair(found, long, short) {
                let (y, n) = choose|y: int, n: int|
                    #![trigger quote::is_best_ask(long, Side::Yes, y), quote::is_best_ask(short, Side::No, n)]
                    quote::is_best_ask(long, Side::Yes, y) && quote::is_best_ask(short, Side::No, n)
                        && found.top_of_book_cost_cents == y + n;
                quote::lemma_one_best(long, Side::Yes, y, y);
                quote::lemma_one_best(short, Side::No, n, n);
            }
        },
    }
}

proof fn lemma_rungs(group: GroupView, books: Seq<BookView>, n: int, found: CandidateView)
    requires
        0 <= n <= books.len(),
        forall|i: int| 0 <= i < books.len() ==> (#[trigger] books[i]).wf(),
    ensures
        fast::monotone_candidates(group.id, books, n).contains(found) <==> (found.group == group.id
            && found.top_of_book_cost_cents < 100 && exists|i: int|
            0 <= i < n - 1 && buys_pair(found, #[trigger] books[i], books[i + 1])),
    decreases n,
{
    let all = fast::monotone_candidates(group.id, books, n);
    if n >= 2 {
        lemma_rungs(group, books, n - 1, found);
        lemma_pair(group, books[n - 2], books[n - 1], found);
        let before = fast::monotone_candidates(group.id, books, n - 1);
        let last = fast::pair_candidates(group.id, books[n - 2], books[n - 1]);
        lemma_concat(before, last, found);
        if exists|i: int|
            0 <= i < n - 1 && buys_pair(found, #[trigger] books[i], books[i + 1]) {
            let i = choose|i: int|
                0 <= i < n - 1 && buys_pair(found, #[trigger] books[i], books[i + 1]);
            if i < n - 2 {
                assert(0 <= i < (n - 1) - 1);
            }
        }
    } else {
        assert(!all.contains(found));
    }
}

proof fn lemma_concat<T>(a: Seq<T>, b: Seq<T>, x: T)
    ensures
        (a + b).contains(x) <==> a.contains(x) || b.contains(x),
{
    let all = a + b;
    if a.contains(x) {
        let k = choose|k: int| 0 <= k < a.len() && a[k] == x;
        assert(all[k] == x);
    }
    if b.contains(x) {
        let k = choose|k: int| 0 <= k < b.len() && b[k] == x;
        assert(all[a.len() + k] == x);
    }
    if all.contains(x) {
        let k = choose|k: int| 0 <= k < all.len() && all[k] == x;
        if k < a.len() {
            assert(a[k] == x);
        } else {
            assert(b[k - a.len()] == x);
        }
    }
}

proof fn lemma_yes_cost(books: Seq<BookView>)
    requires
        forall|i: int| 0 <= i < books.len() ==> (#[trigger] books[i]).wf(),
    ensures
        match fast::yes_cost(books) {
            Some(cost) => cost >= 0 && exists|prices: Seq<int>| #[trigger]
                yes_prices(books, prices) && sum(prices) == cost,
            None => forall|prices: Seq<int>| !#[trigger] yes_prices(books, prices),
        },
    decreases books.len(),
{
    if books.len() == 0 {
        let none = Seq::<int>::empty();
        assert(yes_prices(books, none) && sum(none) == 0);
    } else {
        let front = books.drop_last();
        assert forall|i: int| 0 <= i < front.len() implies (#[trigger] front[i]).wf() by {
            assert(front[i] == books[i]);
        }
        lemma_yes_cost(front);
        let last = books[books.len() - 1];
        assert(last.wf());
        quote::lemma_first(last, Side::Yes);
        match (fast::yes_cost(front), fast::ask_yes(last)) {
            (Some(before), Some(price)) => {
                let some = choose|prices: Seq<int>| #[trigger]
                    yes_prices(front, prices) && sum(prices) == before;
                let all = some.push(price);
                assert(all.drop_last() =~= some);
                assert forall|i: int| 0 <= i < books.len() implies quote::is_best_ask(
                    #[trigger] books[i],
                    Side::Yes,
                    all[i],
                ) by {
                    if i < front.len() {
                        assert(front[i] == books[i]);
                    }
                }
                assert(yes_prices(books, all) && sum(all) == before + price);
            },
            _ => {
                assert forall|prices: Seq<int>| !#[trigger] yes_prices(books, prices) by {
                    if yes_prices(books, prices) {
                        let some = prices.drop_last();
                        assert forall|i: int| 0 <= i < front.len() implies quote::is_best_ask(
                            #[trigger] front[i],
                            Side::Yes,
                            some[i],
                        ) by {
                            assert(front[i] == books[i]);
                            assert(quote::is_best_ask(books[i], Side::Yes, prices[i]));
                        }
                        assert(yes_prices(front, some));
                        let p = prices[books.len() - 1];
                        assert(quote::is_best_ask(books[books.len() - 1], Side::Yes, p));
                        quote::lemma_one_best(last, Side::Yes, p, p);
                    }
                }
            },
        }
    }
}

proof fn lemma_all(group: GroupView, books: Seq<BookView>, found: CandidateView)
    requires
        forall|i: int| 0 <= i < books.len() ==> (#[trigger] books[i]).wf(),
    ensures
        fast::exhaustive_candidates(group.id, books).contains(found) <==> (found.group == group.id
            && found.top_of_book_cost_cents < 100 && books.len() >= 2 && buys_all(found, books)),
        fast::exhaustive_candidates(group.id, books).len() <= 1,
{
    lemma_yes_cost(books);
    let all = fast::exhaustive_candidates(group.id, books);
    let legs = fast::yes_legs(books);
    if books.len() >= 2 {
        match fast::yes_cost(books) {
            Some(cost) => {
                let prices = choose|prices: Seq<int>| #[trigger]
                    yes_prices(books, prices) && sum(prices) == cost;
                if all.contains(found) {
                    assert(found == all[0]);
                    assert(found.legs == legs);
                    assert(buys_all(found, books));
                }
                if found.group == group.id && found.top_of_book_cost_cents < 100 && buys_all(
                    found,
                    books,
                ) {
                    let others = choose|others: Seq<int>| #[trigger]
                        yes_prices(books, others) && found.top_of_book_cost_cents == sum(others);
                    assert forall|i: int| 0 <= i < prices.len() implies prices[i] == others[i] by {
                        quote::lemma_one_best(books[i], Side::Yes, prices[i], others[i]);
                    }
                    assert(prices =~= others);
                    assert(found.legs =~= legs);
                    assert(all[0] == found);
                }
            },
            None => {},
        }
    }
}

/// A group that can be evaluated yields exactly the purchases that its relation
/// guarantees a dollar for and that the best offers sell for less. For two
/// venues that means either direction, for a ladder every adjacent pair.
pub proof fn every_violation_is_found_and_nothing_else(
    group: GroupView,
    quotes: costing::Quotes,
    books: Seq<BookView>,
    max_age_ms: u64,
    now_ms: u64,
    found: CandidateView,
)
    requires
        evaluable(group, quotes, books, max_age_ms, now_ms),
    ensures
        solver::candidates_of(group, quotes, max_age_ms, now_ms) matches Ok(candidates) && (
        candidates.contains(found) <==> violates(group, books, found)),
{
    lemma_evaluable(group, quotes, books, max_age_ms, now_ms);
    match group.relation {
        RelationView::Complement { .. } => {
            lemma_pair(group, books[0], books[0], found);
        },
        RelationView::Exhaustive { .. } => {
            lemma_all(group, books, found);
        },
        RelationView::Monotone { .. } => {
            lemma_rungs(group, books, books.len() as int, found);
        },
        RelationView::Implies { .. } => {
            assert(books[0].wf() && books[1].wf());
            let rungs = seq![books[1], books[0]];
            lemma_rungs(group, rungs, 2, found);
            if violates(group, books, found) {
                assert(buys_pair(found, rungs[0], rungs[1]));
            }
        },
        RelationView::Equivalent { .. } => {
            lemma_pair(group, books[0], books[1], found);
            lemma_pair(group, books[1], books[0], found);
            lemma_concat(
                fast::pair_candidates(group.id, books[0], books[1]),
                fast::pair_candidates(group.id, books[1], books[0]),
                found,
            );
        },
    }
}

proof fn lemma_evaluable(
    group: GroupView,
    quotes: costing::Quotes,
    books: Seq<BookView>,
    max_age_ms: u64,
    now_ms: u64,
)
    requires
        evaluable(group, quotes, books, max_age_ms, now_ms),
    ensures
        solver::candidates_of(group, quotes, max_age_ms, now_ms) == Ok::<
            Seq<CandidateView>,
            RejectReason,
        >(solver::fast_path(group, books)),
{
    let members = group.relation.members();
    let read = solver::member_books(quotes, members);
    assert forall|i: int| 0 <= i < members.len() implies quotes(
        #[trigger] members[i],
    ) == Some(books[i]) by {
        assert(quotes(group.relation.members()[i]) == Some(books[i]));
    }
    assert(read =~= books);
}

proof fn lemma_rungs_once(group: GroupView, books: Seq<BookView>, n: int)
    requires
        0 <= n <= books.len(),
        forall|i: int| 0 <= i < books.len() ==> (#[trigger] books[i]).wf(),
        forall|i: int, j: int|
            0 <= i < j < books.len() ==> (#[trigger] books[i]).contract_id != (
            #[trigger] books[j]).contract_id,
    ensures
        fast::monotone_candidates(group.id, books, n).no_duplicates(),
    decreases n,
{
    if n >= 2 {
        lemma_rungs_once(group, books, n - 1);
        let before = fast::monotone_candidates(group.id, books, n - 1);
        let last = fast::pair_candidates(group.id, books[n - 2], books[n - 1]);
        let all = fast::monotone_candidates(group.id, books, n);
        assert forall|i: int, j: int| 0 <= i < j < all.len() implies all[i] != all[j] by {
            if j >= before.len() {
                lemma_pair(group, books[n - 2], books[n - 1], all[j]);
                assert(j == before.len());
                assert(last[0] == all[j]);
                assert(last.contains(all[j]));
                if i < before.len() {
                    assert(before[i] == all[i]);
                    assert(before.contains(all[i]));
                    lemma_rungs(group, books, n - 1, all[i]);
                    let k = choose|k: int|
                        0 <= k < n - 2 && buys_pair(all[i], #[trigger] books[k], books[k + 1]);
                    assert(all[i].legs[0].contract_id == books[k].contract_id);
                    assert(all[j].legs[0].contract_id == books[n - 2].contract_id);
                    assert(books[k].contract_id != books[n - 2].contract_id);
                }
            } else {
                assert(before[i] == all[i] && before[j] == all[j]);
            }
        }
    }
}

/// No purchase is proposed twice.
pub proof fn no_violation_is_found_twice(
    group: GroupView,
    quotes: costing::Quotes,
    books: Seq<BookView>,
    max_age_ms: u64,
    now_ms: u64,
)
    requires
        evaluable(group, quotes, books, max_age_ms, now_ms),
        forall|i: int, j: int|
            0 <= i < j < books.len() ==> (#[trigger] books[i]).contract_id != (
            #[trigger] books[j]).contract_id,
    ensures
        solver::candidates_of(group, quotes, max_age_ms, now_ms) matches Ok(candidates)
            && candidates.no_duplicates(),
{
    lemma_evaluable(group, quotes, books, max_age_ms, now_ms);
    let all = solver::fast_path(group, books);
    match group.relation {
        RelationView::Complement { .. } => {
            lemma_pair(group, books[0], books[0], all[0]);
        },
        RelationView::Exhaustive { .. } => {
            lemma_all(group, books, all[0]);
        },
        RelationView::Monotone { .. } => {
            lemma_rungs_once(group, books, books.len() as int);
        },
        RelationView::Implies { .. } => {
            assert(books[0].wf() && books[1].wf());
            let rungs = seq![books[1], books[0]];
            assert(books[0].contract_id != books[1].contract_id);
            lemma_rungs_once(group, rungs, 2);
        },
        RelationView::Equivalent { .. } => {
            let first = fast::pair_candidates(group.id, books[0], books[1]);
            let second = fast::pair_candidates(group.id, books[1], books[0]);
            assert(books[0].contract_id != books[1].contract_id);
            assert forall|i: int, j: int| 0 <= i < j < all.len() implies all[i] != all[j] by {
                lemma_pair(group, books[0], books[1], all[i]);
                lemma_pair(group, books[1], books[0], all[j]);
                assert(first[0] == all[i] && first.contains(all[i]));
                assert(second[0] == all[j] && second.contains(all[j]));
            }
        },
    }
}

/// A group is refused for a fact about it or its books, and for the first of
/// these that holds: a pair that nobody confirmed, a member without a book, a
/// book that is not live, a book that is too old.
pub proof fn a_group_is_refused_for_cause(
    group: GroupView,
    quotes: costing::Quotes,
    max_age_ms: u64,
    now_ms: u64,
)
    ensures
        ({
            let members = group.relation.members();
            let unconfirmed = group.relation matches RelationView::Equivalent { verified, .. }
                && !verified;
            let missing = exists|i: int|
                0 <= i < members.len() && quotes(#[trigger] members[i]) is None;
            let down = exists|i: int|
                0 <= i < members.len() && quotes(#[trigger] members[i])->0.state
                    != BookState::Live;
            let old = exists|i: int|
                0 <= i < members.len() && now_ms > quotes(
                    #[trigger] members[i],
                )->0.updated_at_ms + max_age_ms;
            match solver::candidates_of(group, quotes, max_age_ms, now_ms) {
                Err(RejectReason::Unverified) => unconfirmed,
                Err(RejectReason::MissingBook) => !unconfirmed && missing,
                Err(RejectReason::NotLive) => !unconfirmed && !missing && down,
                Err(RejectReason::Stale) => !unconfirmed && !missing && !down && old,
                Err(_) => false,
                Ok(_) => !unconfirmed && !missing && !down && !old,
            }
        }),
{
    let members = group.relation.members();
    let books = solver::member_books(quotes, members);
    assert forall|i: int| 0 <= i < members.len() implies books[i] == quotes(
        #[trigger] members[i],
    )->0 by {}
    if exists|i: int| 0 <= i < books.len() && (#[trigger] books[i]).state != BookState::Live {
        let i = choose|i: int|
            0 <= i < books.len() && (#[trigger] books[i]).state != BookState::Live;
        assert(quotes(members[i])->0.state != BookState::Live);
    }
    if exists|i: int|
        0 <= i < members.len() && quotes(#[trigger] members[i])->0.state != BookState::Live {
        let i = choose|i: int|
            0 <= i < members.len() && quotes(#[trigger] members[i])->0.state != BookState::Live;
        assert(books[i].state != BookState::Live);
    }
    if exists|i: int|
        0 <= i < books.len() && !(#[trigger] books[i]).is_fresh(now_ms, max_age_ms) {
        let i = choose|i: int|
            0 <= i < books.len() && !(#[trigger] books[i]).is_fresh(now_ms, max_age_ms);
        assert(books[i] == quotes(members[i])->0);
    }
    if exists|i: int|
        0 <= i < members.len() && now_ms > quotes(#[trigger] members[i])->0.updated_at_ms
            + max_age_ms {
        let i = choose|i: int|
            0 <= i < members.len() && now_ms > quotes(#[trigger] members[i])->0.updated_at_ms
                + max_age_ms;
        assert(!books[i].is_fresh(now_ms, max_age_ms));
    }
}

// ---------------------------------------------------------------------------
// Resolutions
// ---------------------------------------------------------------------------

/// Whether a relation permits exactly the contracts of a set to resolve yes.
pub open spec fn permits(relation: RelationView, yes: Set<ContractId>) -> bool {
    match relation {
        // A contract resolves one way or the other.
        RelationView::Complement { .. } => true,
        // Exactly one member resolves yes.
        RelationView::Exhaustive { members } => exists|i: int|
            0 <= i < members.len() && yes.contains(#[trigger] members[i]) && forall|j: int|
                0 <= j < members.len() && j != i ==> !yes.contains(#[trigger] members[j]),
        // A rung resolves yes only where every weaker one does.
        RelationView::Monotone { ordered } => forall|i: int, j: int|
            0 <= i < j < ordered.len() && yes.contains(#[trigger] ordered[j]) ==> yes.contains(
                #[trigger] ordered[i],
            ),
        // The antecedent resolves yes only where the consequent does.
        RelationView::Implies { antecedent, consequent } => yes.contains(antecedent)
            ==> yes.contains(consequent),
        // The two resolve alike.
        RelationView::Equivalent { a, b, .. } => yes.contains(a) == yes.contains(b),
    }
}

/// A resolution that has a relation's members resolve as a set says.
pub open spec fn resolves_as(
    relation: RelationView,
    state: Seq<ContractId>,
    yes: Set<ContractId>,
) -> bool {
    forall|c: ContractId| #[trigger]
        relation.members().contains(c) ==> (state.contains(c) <==> yes.contains(c))
}

proof fn lemma_listed(relation: RelationView, yes: Set<ContractId>, s: int)
    requires
        0 <= s < relation.states().len(),
        resolves_as(relation, relation.states()[s], yes),
    ensures
        exists|k: int|
            0 <= k < relation.states().len() && resolves_as(
                relation,
                #[trigger] relation.states()[k],
                yes,
            ),
{
}

/// The resolutions of a relation are those it permits: each one that is listed
/// is permitted, and each one that is permitted is listed.
pub proof fn the_resolutions_are_those_permitted(relation: RelationView, yes: Set<ContractId>)
    requires
        relation.members().no_duplicates(),
    ensures
        permits(relation, yes) <==> exists|s: int|
            0 <= s < relation.states().len() && resolves_as(
                relation,
                #[trigger] relation.states()[s],
                yes,
            ),
{
    let members = relation.members();
    let states = relation.states();
    if permits(relation, yes) {
        match relation {
            RelationView::Complement { contract } => {
                let s: int = if yes.contains(contract) {
                    0
                } else {
                    1
                };
                assert(states[0][0] == contract);
                lemma_listed(relation, yes, s);
            },
            RelationView::Exhaustive { .. } => {
                let i = choose|i: int|
                    0 <= i < members.len() && yes.contains(#[trigger] members[i]) && forall|j: int|
                        0 <= j < members.len() && j != i ==> !yes.contains(#[trigger] members[j]);
                assert forall|c: ContractId| #[trigger] members.contains(c) implies (
                states[i].contains(c) <==> yes.contains(c)) by {
                    let k = choose|k: int| 0 <= k < members.len() && members[k] == c;
                    assert(states[i][0] == members[i]);
                    if k != i {
                        assert(!yes.contains(members[k]));
                    }
                }
                lemma_listed(relation, yes, i);
            },
            RelationView::Monotone { ordered } => {
                let cut = lemma_cut(ordered, yes, ordered.len() as int);
                let state = ordered.subrange(0, cut);
                assert forall|c: ContractId| #[trigger] members.contains(c) implies (
                states[cut].contains(c) <==> yes.contains(c)) by {
                    let k = choose|k: int| 0 <= k < ordered.len() && ordered[k] == c;
                    if k < cut {
                        assert(state[k] == c);
                    }
                    if state.contains(c) {
                        let m = choose|m: int| 0 <= m < state.len() && state[m] == c;
                        assert(ordered[m] == c);
                    }
                }
                lemma_listed(relation, yes, cut);
            },
            RelationView::Implies { antecedent, consequent } => {
                assert(members[0] == antecedent && members[1] == consequent);
                assert(states[1][0] == consequent);
                assert(states[2][0] == consequent && states[2][1] == antecedent);
                let s: int = if yes.contains(antecedent) {
                    2
                } else if yes.contains(consequent) {
                    1
                } else {
                    0
                };
                lemma_listed(relation, yes, s);
            },
            RelationView::Equivalent { a, b, .. } => {
                assert(states[0][0] == a && states[0][1] == b);
                let s: int = if yes.contains(a) {
                    0
                } else {
                    1
                };
                lemma_listed(relation, yes, s);
            },
        }
    }
    if exists|s: int|
        0 <= s < relation.states().len() && resolves_as(
            relation,
            #[trigger] relation.states()[s],
            yes,
        ) {
        let s = choose|s: int|
            0 <= s < relation.states().len() && resolves_as(
                relation,
                #[trigger] relation.states()[s],
                yes,
            );
        match relation {
            RelationView::Complement { .. } => {},
            RelationView::Exhaustive { .. } => {
                assert(members.contains(members[s]));
                assert(states[s][0] == members[s]);
                assert(yes.contains(members[s]));
                assert forall|j: int| 0 <= j < members.len() && j != s implies !yes.contains(
                    #[trigger] members[j],
                ) by {
                    assert(members.contains(members[j]));
                    if states[s].contains(members[j]) {
                        assert(members[j] == members[s]);
                    }
                }
            },
            RelationView::Monotone { ordered } => {
                assert forall|i: int, j: int|
                    0 <= i < j < ordered.len() && yes.contains(
                        #[trigger] ordered[j],
                    ) implies yes.contains(#[trigger] ordered[i]) by {
                    assert(members.contains(ordered[i]) && members.contains(ordered[j]));
                    assert(states[s].contains(ordered[j]));
                    let k = choose|k: int| 0 <= k < states[s].len() && states[s][k] == ordered[j];
                    assert(ordered[k] == ordered[j]);
                    assert(k == j);
                    assert(states[s][i] == ordered[i]);
                }
            },
            RelationView::Implies { antecedent, consequent } => {
                assert(members[0] == antecedent && members[1] == consequent);
                assert(members.contains(antecedent) && members.contains(consequent));
                assert(states[2][0] == consequent && states[2][1] == antecedent);
            },
            RelationView::Equivalent { a, b, .. } => {
                assert(members[0] == a && members[1] == b);
                assert(members.contains(a) && members.contains(b));
                assert(states[0][0] == a && states[0][1] == b);
            },
        }
    }
}

/// Where the rungs that resolve yes end.
proof fn lemma_cut(ordered: Seq<ContractId>, yes: Set<ContractId>, n: int) -> (cut: int)
    requires
        0 <= n <= ordered.len(),
        forall|i: int, j: int|
            0 <= i < j < ordered.len() && yes.contains(#[trigger] ordered[j]) ==> yes.contains(
                #[trigger] ordered[i],
            ),
    ensures
        0 <= cut <= n,
        forall|i: int| 0 <= i < n ==> (yes.contains(#[trigger] ordered[i]) <==> i < cut),
    decreases n,
{
    if n == 0 {
        0
    } else if yes.contains(ordered[n - 1]) {
        n
    } else {
        lemma_cut(ordered, yes, n - 1)
    }
}

} // verus!
