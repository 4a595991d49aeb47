//! What holds of every signal, whatever the books say.
//!
//! - A candidate of a fast path is guaranteed a dollar in every resolution its
//!   relation permits.
//! - An emitted position pays at least its guaranteed payoff in every such
//!   resolution, and strictly more than it cost to enter.
//! - The thinnest leg, and the configured limit, cap the quantity.
//! - Prices that some probability over the resolutions explains never signal.
//! - No other quantity up to the cap earns more than the one chosen.
//! - A depth walk takes its contracts at the lowest cost, and prices every
//!   smaller walk.
//! - An evaluation depends on the set of dirty contracts alone, and looks at each
//!   group that holds one exactly once.
use vstd::prelude::*;
use crate::fees::FeeModels;
use crate::registry;
use crate::registry::{GroupId, GroupView, Registry, RelationView};
use crate::solver;
use crate::solver::costing;
use crate::solver::fast;
use crate::solver::types;
use crate::solver::types::{CandidateLeg, CandidateView, OpportunityView, RejectReason, SolverConfig, SolverMetrics};
use crate::types::{BookView, ContractId, Level, Side};

verus! {

// ---------------------------------------------------------------------------
// A dollar in every resolution
// ---------------------------------------------------------------------------

/// The books are those of the group's members, in order.
pub open spec fn books_of(group: GroupView, books: Seq<BookView>) -> bool {
    &&& books.len() == group.relation.members().len()
    &&& forall|i: int|
        0 <= i < books.len() ==> (#[trigger] books[i]).contract_id == group.relation.members()[i]
}

proof fn lemma_payoff_two(a: CandidateLeg, b: CandidateLeg, state: Seq<ContractId>)
    ensures
        costing::payoff_in(seq![a, b], state) == (if costing::pays(a, state) {
            100int
        } else {
            0
        }) + (if costing::pays(b, state) {
            100int
        } else {
            0
        }),
{
    let both = seq![a, b];
    assert(both.drop_last() =~= seq![a]);
    assert(seq![a].drop_last() =~= Seq::<CandidateLeg>::empty());
    assert(costing::payoff_in(Seq::<CandidateLeg>::empty(), state) == 0);
    assert(costing::payoff_in(seq![a], state) == if costing::pays(a, state) {
        100int
    } else {
        0
    });
}

proof fn lemma_payoff_one_of(legs: Seq<CandidateLeg>, state: Seq<ContractId>, i: int)
    requires
        0 <= i < legs.len(),
        costing::pays(legs[i], state),
    ensures
        costing::payoff_in(legs, state) >= 100,
    decreases legs.len(),
{
    let front = legs.drop_last();
    lemma_payoff_nonneg(front, state);
    if i < legs.len() - 1 {
        assert(front[i] == legs[i]);
        lemma_payoff_one_of(front, state, i);
    } else {
        assert(legs.last() == legs[i]);
    }
}

proof fn lemma_payoff_nonneg(legs: Seq<CandidateLeg>, state: Seq<ContractId>)
    ensures
        costing::payoff_in(legs, state) >= 0,
    decreases legs.len(),
{
    if legs.len() > 0 {
        lemma_payoff_nonneg(legs.drop_last(), state);
    }
}

/// The worst payoff is at most that of any state, and is that of some state.
pub proof fn lemma_worst_payoff(states: Seq<Seq<ContractId>>, legs: Seq<CandidateLeg>)
    ensures
        forall|i: int|
            0 <= i < states.len() ==> costing::worst_payoff(states, legs) <= costing::payoff_in(
                legs,
                #[trigger] states[i],
            ),
        states.len() > 0 ==> exists|i: int|
            0 <= i < states.len() && costing::worst_payoff(states, legs) == costing::payoff_in(
                legs,
                #[trigger] states[i],
            ),
    decreases states.len(),
{
    if states.len() > 1 {
        let front = states.drop_last();
        lemma_worst_payoff(front, legs);
        assert forall|i: int| 0 <= i < states.len() implies costing::worst_payoff(states, legs)
            <= costing::payoff_in(legs, #[trigger] states[i]) by {
            if i < front.len() {
                assert(front[i] == states[i]);
            } else {
                assert(states.last() == states[i]);
            }
        }
        let k = choose|k: int|
            0 <= k < front.len() && costing::worst_payoff(front, legs) == costing::payoff_in(
                legs,
                #[trigger] front[k],
            );
        assert(states[k] == front[k]);
        assert(states[states.len() - 1] == states.last());
    } else if states.len() == 1 {
        assert(costing::worst_payoff(states, legs) == costing::payoff_in(legs, states[0]));
    }
}

/// Buying the weaker rung and selling the stronger one pays in every state of a
/// ladder.
proof fn lemma_rungs_pay(ordered: Seq<ContractId>, weak: int, cut: int, a: CandidateLeg, b: CandidateLeg)
    requires
        ordered.no_duplicates(),
        0 <= weak < ordered.len() - 1,
        0 <= cut <= ordered.len(),
        a.contract_id == ordered[weak],
        a.side == Side::Yes,
        b.contract_id == ordered[weak + 1],
        b.side == Side::No,
    ensures
        costing::payoff_in(seq![a, b], ordered.subrange(0, cut)) >= 100,
{
    let state = ordered.subrange(0, cut);
    lemma_payoff_two(a, b, state);
    if state.contains(b.contract_id) {
        let k = choose|k: int| 0 <= k < state.len() && state[k] == b.contract_id;
        assert(ordered[k] == ordered[weak + 1]);
        assert(k == weak + 1);
        assert(state[weak] == a.contract_id);
    }
}

/// Where a ladder's candidates come from.
proof fn lemma_monotone_origin(
    id: crate::registry::GroupId,
    books: Seq<BookView>,
    n: int,
    c: int,
) -> (weak: int)
    requires
        0 <= c < fast::monotone_candidates(id, books, n).len(),
        n <= books.len(),
    ensures
        0 <= weak < n - 1,
        fast::pair_candidates(id, books[weak], books[weak + 1]).len() == 1,
        fast::monotone_candidates(id, books, n)[c] == fast::pair_candidates(
            id,
            books[weak],
            books[weak + 1],
        )[0],
    decreases n,
{
    let before = fast::monotone_candidates(id, books, n - 1);
    if c < before.len() {
        assert(fast::monotone_candidates(id, books, n)[c] == before[c]);
        lemma_monotone_origin(id, books, n - 1, c)
    } else {
        assert(fast::monotone_candidates(id, books, n)[c] == fast::pair_candidates(
            id,
            books[n - 2],
            books[n - 1],
        )[c - before.len()]);
        n - 2
    }
}

/// Every candidate of a fast path pays at least a dollar a unit in every
/// resolution its relation permits.
pub proof fn a_candidate_is_guaranteed_a_dollar(group: GroupView, books: Seq<BookView>, c: int)
    requires
        books_of(group, books),
        group.relation.members().no_duplicates(),
        0 <= c < solver::fast_path(group, books).len(),
    ensures
        forall|s: int|
            0 <= s < group.relation.states().len() ==> costing::payoff_in(
                solver::fast_path(group, books)[c].legs,
                #[trigger] group.relation.states()[s],
            ) >= 100,
        costing::worst_payoff(
            group.relation.states(),
            solver::fast_path(group, books)[c].legs,
        ) >= 100,
{
    let candidate = solver::fast_path(group, books)[c];
    let states = group.relation.states();
    let members = group.relation.members();
    assert forall|s: int| 0 <= s < states.len() implies costing::payoff_in(
        candidate.legs,
        #[trigger] states[s],
    ) >= 100 by {
        match group.relation {
            RelationView::Complement { contract } => {
                let a = fast::leg_on(books[0], Side::Yes);
                let b = fast::leg_on(books[0], Side::No);
                assert(candidate.legs == seq![a, b]);
                lemma_payoff_two(a, b, states[s]);
            },
            RelationView::Exhaustive { members: set } => {
                assert(candidate.legs == fast::yes_legs(books));
                assert(states[s] == seq![set[s]]);
                assert(states[s][0] == set[s]);
                assert(books[s].contract_id == set[s]);
                lemma_payoff_one_of(candidate.legs, states[s], s);
            },
            RelationView::Monotone { ordered } => {
                let weak = lemma_monotone_origin(group.id, books, books.len() as int, c);
                lemma_rungs_pay(
                    ordered,
                    weak,
                    s,
                    fast::leg_on(books[weak], Side::Yes),
                    fast::leg_on(books[weak + 1], Side::No),
                );
            },
            RelationView::Implies { antecedent, consequent } => {
                let rungs = seq![books[1], books[0]];
                let weak = lemma_monotone_origin(group.id, rungs, 2, c);
                let a = fast::leg_on(books[1], Side::Yes);
                let b = fast::leg_on(books[0], Side::No);
                assert(weak == 0 && rungs[0] == books[1] && rungs[1] == books[0]);
                assert(candidate.legs == seq![a, b]);
                lemma_payoff_two(a, b, states[s]);
                assert(members[0] == antecedent && members[1] == consequent);
                assert(books[0].contract_id == antecedent);
                assert(books[1].contract_id == consequent);
                if s == 0 {
                    assert(states[s] =~= Seq::<ContractId>::empty());
                } else if s == 1 {
                    assert(states[s][0] == consequent);
                } else {
                    assert(states[s][0] == consequent);
                }
            },
            RelationView::Equivalent { a: first, b: second, .. } => {
                assert(members[0] == first && members[1] == second);
                assert(books[0].contract_id == first);
                assert(books[1].contract_id == second);
                let one = fast::pair_candidates(group.id, books[0], books[1]);
                let (long, short) = if c < one.len() {
                    (books[0], books[1])
                } else {
                    (books[1], books[0])
                };
                let a = fast::leg_on(long, Side::Yes);
                let b = fast::leg_on(short, Side::No);
                assert(candidate.legs == seq![a, b]);
                lemma_payoff_two(a, b, states[s]);
                if s == 0 {
                    assert(states[s][0] == first && states[s][1] == second);
                } else {
                    assert(states[s] =~= Seq::<ContractId>::empty());
                }
            },
        }
    }
    lemma_worst_payoff(states, candidate.legs);
    assert(states.len() > 0);
    let k = choose|k: int|
        0 <= k < states.len() && costing::worst_payoff(states, candidate.legs)
            == costing::payoff_in(candidate.legs, #[trigger] states[k]);
    assert(costing::payoff_in(candidate.legs, states[k]) >= 100);
}

// ---------------------------------------------------------------------------
// What an emitted position is worth
// ---------------------------------------------------------------------------

/// Among the quantities up to `n` one is best.
proof fn lemma_best_up_to(
    models: &FeeModels,
    legs: Seq<CandidateLeg>,
    ladders: Seq<Seq<Level>>,
    payoff: int,
    n: int,
) -> (best: int)
    requires
        n >= 1,
    ensures
        costing::is_best(models, legs, ladders, payoff, n, best),
    decreases n,
{
    if n == 1 {
        1
    } else {
        let before = lemma_best_up_to(models, legs, ladders, payoff, n - 1);
        let top = costing::net_at(models, legs, ladders, payoff, before);
        if costing::net_at(models, legs, ladders, payoff, n) > top {
            n
        } else {
            before
        }
    }
}

/// With any depth at all there is a best quantity, inside the cap.
pub proof fn lemma_best_exists(
    models: &FeeModels,
    legs: Seq<CandidateLeg>,
    ladders: Seq<Seq<Level>>,
    payoff: int,
    cap: int,
)
    requires
        cap > 0,
    ensures
        costing::is_best(
            models,
            legs,
            ladders,
            payoff,
            cap,
            costing::best_quantity(models, legs, ladders, payoff, cap),
        ),
        0 < costing::best_quantity(models, legs, ladders, payoff, cap) <= cap,
{
    let best = lemma_best_up_to(models, legs, ladders, payoff, cap);
    assert(costing::is_best(models, legs, ladders, payoff, cap, best));
}

/// The cap is at most the limit and at most the depth of every ladder.
proof fn lemma_thinnest(ladders: Seq<Seq<Level>>, most: int)
    ensures
        costing::thinnest(ladders, most) <= costing::max(most, 0),
        forall|i: int|
            0 <= i < ladders.len() ==> costing::thinnest(ladders, most) <= costing::depth(
                #[trigger] ladders[i],
            ),
    decreases ladders.len(),
{
    if ladders.len() > 0 {
        let front = ladders.drop_last();
        lemma_thinnest(front, most);
        assert forall|i: int| 0 <= i < ladders.len() implies costing::thinnest(ladders, most)
            <= costing::depth(#[trigger] ladders[i]) by {
            if i < front.len() {
                assert(front[i] == ladders[i]);
            } else {
                assert(ladders.last() == ladders[i]);
            }
        }
    }
}

/// Both sides of every book that the legs name have one slot per cent.
pub open spec fn quotes_wf(quotes: costing::Quotes, legs: Seq<CandidateLeg>) -> bool {
    forall|i: int|
        0 <= i < legs.len() ==> (quotes((#[trigger] legs[i]).contract_id) matches Some(book)
            ==> book.yes.len() == 101 && book.no.len() == 101)
}

proof fn lemma_ladders_wf(quotes: costing::Quotes, legs: Seq<CandidateLeg>, most: int)
    requires
        quotes_wf(quotes, legs),
        forall|i: int| 0 <= i < legs.len() ==> quotes((#[trigger] legs[i]).contract_id) is Some,
    ensures
        forall|i: int|
            0 <= i < legs.len() ==> {
                let ladder = #[trigger] costing::ladders_of(quotes, legs, most)[i];
                let asks = costing::asks_for(quotes(legs[i].contract_id)->0, legs[i].side);
                &&& costing::ladder_wf(ladder)
                &&& costing::ladder_wf(asks)
                &&& costing::depth(ladder) <= costing::depth(asks)
            },
{
    let ladders = costing::ladders_of(quotes, legs, most);
    assert forall|i: int| 0 <= i < legs.len() implies {
        let ladder = #[trigger] ladders[i];
        let asks = costing::asks_for(quotes(legs[i].contract_id)->0, legs[i].side);
        &&& costing::ladder_wf(ladder)
        &&& costing::ladder_wf(asks)
        &&& costing::depth(ladder) <= costing::depth(asks)
    } by {
        let book = quotes(legs[i].contract_id)->0;
        crate::types::lemma_offered(book.yes, 100);
        crate::types::lemma_offered(book.no, 100);
        costing::lemma_walked(costing::asks_for(book, legs[i].side), most);
    }
}

/// An emitted position pays at least its guaranteed payoff in every resolution
/// the relation permits, and strictly more than it cost to enter. It holds the
/// same quantity on every leg, no more than the configured limit and no more
/// than the thinnest leg offers.
pub proof fn an_emitted_position_is_safe_in_every_resolution(
    models: &FeeModels,
    group: GroupView,
    legs: Seq<CandidateLeg>,
    quotes: costing::Quotes,
    config: SolverConfig,
    now_ms: u64,
    trade: OpportunityView,
)
    requires
        quotes_wf(quotes, legs),
        costing::sizing_fits(models, config.max_position_size as int, legs.len() as int),
        costing::costed(models, group, legs, quotes, config, now_ms) == Ok::<
            OpportunityView,
            RejectReason,
        >(trade),
    ensures
        forall|s: int|
            0 <= s < group.relation.states().len() ==> costing::payoff_in(
                legs,
                #[trigger] group.relation.states()[s],
            ) * trade.qty >= trade.guaranteed_payoff_cents,
        trade.guaranteed_payoff_cents > trade.capital_cents,
        trade.net_cents == trade.guaranteed_payoff_cents - trade.capital_cents,
        trade.net_cents >= config.min_net_edge_cents,
        trade.legs.len() == legs.len(),
        forall|i: int| 0 <= i < legs.len() ==> (#[trigger] trade.legs[i]).qty == trade.qty,
        0 < trade.qty <= config.max_position_size,
        forall|i: int|
            0 <= i < legs.len() ==> trade.qty <= costing::depth(
                costing::asks_for(
                    quotes((#[trigger] legs[i]).contract_id)->0,
                    legs[i].side,
                ),
            ),
{
    let most = config.max_position_size as int;
    let payoff = costing::worst_payoff(group.relation.states(), legs);
    let ladders = costing::ladders_of(quotes, legs, most);
    let cap = costing::thinnest(ladders, most);
    let q = costing::best_quantity(models, legs, ladders, payoff, cap);
    assert forall|i: int| 0 <= i < legs.len() implies quotes(
        (#[trigger] legs[i]).contract_id,
    ) is Some by {}
    lemma_ladders_wf(quotes, legs, most);
    lemma_thinnest(ladders, most);
    lemma_best_exists(models, legs, ladders, payoff, cap);
    costing::lemma_sizing(models, most, legs.len() as int, legs.len() as int, q);
    costing::lemma_position_bounds(
        models,
        legs,
        ladders,
        q,
        costing::max(most, 0),
        legs.len() as int,
    );
    lemma_worst_payoff(group.relation.states(), legs);
    lemma_worst_bound(group.relation.states(), legs);
    assert(0 <= payoff * q <= (100 * legs.len()) * q) by (nonlinear_arith)
        requires
            0 <= payoff <= 100 * legs.len(),
            q >= 0,
    ;
    assert(trade.qty == q);
    assert(trade.guaranteed_payoff_cents == payoff * q);
    assert forall|s: int| 0 <= s < group.relation.states().len() implies costing::payoff_in(
        legs,
        #[trigger] group.relation.states()[s],
    ) * trade.qty >= trade.guaranteed_payoff_cents by {
        let paid = costing::payoff_in(legs, group.relation.states()[s]);
        assert(paid * q >= payoff * q) by (nonlinear_arith)
            requires
                paid >= payoff,
                q >= 0,
        ;
    }
    assert forall|i: int| 0 <= i < legs.len() implies trade.qty <= costing::depth(
        costing::asks_for(quotes((#[trigger] legs[i]).contract_id)->0, legs[i].side),
    ) by {
        assert(costing::depth(ladders[i]) <= costing::depth(
            costing::asks_for(quotes(legs[i].contract_id)->0, legs[i].side),
        ));
    }
}

pub proof fn lemma_worst_bound(states: Seq<Seq<ContractId>>, legs: Seq<CandidateLeg>)
    ensures
        0 <= costing::worst_payoff(states, legs) <= 100 * legs.len(),
    decreases states.len(),
{
    if states.len() > 0 {
        lemma_payoff_at_most(legs, states.last());
        lemma_payoff_nonneg(legs, states.last());
        if states.len() > 1 {
            lemma_worst_bound(states.drop_last(), legs);
        } else {
            assert(states.last() == states[0]);
        }
    }
}

proof fn lemma_payoff_at_most(legs: Seq<CandidateLeg>, state: Seq<ContractId>)
    ensures
        costing::payoff_in(legs, state) <= 100 * legs.len(),
    decreases legs.len(),
{
    if legs.len() > 0 {
        lemma_payoff_at_most(legs.drop_last(), state);
    }
}

// ---------------------------------------------------------------------------
// Coherent prices
// ---------------------------------------------------------------------------

/// The sum of the first `n` weights.
pub open spec fn total(weights: Seq<nat>, n: int) -> int
    decreases n,
{
    if n <= 0 {
        0
    } else {
        total(weights, n - 1) + weights[n - 1]
    }
}

/// The weight of those among the first `n` states in which a leg pays.
pub open spec fn mass(
    states: Seq<Seq<ContractId>>,
    weights: Seq<nat>,
    leg: CandidateLeg,
    n: int,
) -> int
    decreases n,
{
    if n <= 0 {
        0
    } else {
        mass(states, weights, leg, n - 1) + if costing::pays(leg, states[n - 1]) {
            weights[n - 1] as int
        } else {
            0
        }
    }
}

/// The cheapest price at which one outcome can be bought.
pub open spec fn ask(book: BookView, side: Side) -> Option<int> {
    match side {
        Side::Yes => fast::ask_yes(book),
        Side::No => fast::ask_no(book),
    }
}

/// Some probability over the relation's resolutions explains every ask: no
/// outcome of any member is offered for less than it is expected to pay. The
/// probability of a state is its weight over the total weight.
pub open spec fn coherent(group: GroupView, books: Seq<BookView>, weights: Seq<nat>) -> bool {
    let states = group.relation.states();
    let n = states.len() as int;
    &&& weights.len() == n
    &&& total(weights, n) > 0
    &&& forall|i: int, side: Side|
        0 <= i < books.len() ==> (#[trigger] ask(books[i], side) matches Some(price) ==> price
            * total(weights, n) >= 100 * mass(
            states,
            weights,
            fast::leg_on(books[i], side),
            n,
        ))
}

/// The weighted payoff of a set of legs over the first `n` states.
spec fn expected(
    states: Seq<Seq<ContractId>>,
    weights: Seq<nat>,
    legs: Seq<CandidateLeg>,
    n: int,
) -> int
    decreases n,
{
    if n <= 0 {
        0
    } else {
        expected(states, weights, legs, n - 1) + weights[n - 1] * costing::payoff_in(
            legs,
            states[n - 1],
        )
    }
}

/// One more leg adds a dollar times its mass.
proof fn lemma_expected_push(
    states: Seq<Seq<ContractId>>,
    weights: Seq<nat>,
    legs: Seq<CandidateLeg>,
    leg: CandidateLeg,
    n: int,
)
    ensures
        expected(states, weights, legs.push(leg), n) == expected(states, weights, legs, n) + 100
            * mass(states, weights, leg, n),
    decreases n,
{
    if n > 0 {
        lemma_expected_push(states, weights, legs, leg, n - 1);
        assert(legs.push(leg).drop_last() =~= legs);
        let w = weights[n - 1] as int;
        let before = costing::payoff_in(legs, states[n - 1]);
        assert(w * (before + 100) == w * before + 100 * w) by (nonlinear_arith);
    }
}

proof fn lemma_expected_empty(states: Seq<Seq<ContractId>>, weights: Seq<nat>, n: int)
    ensures
        expected(states, weights, Seq::empty(), n) == 0,
    decreases n,
{
    if n > 0 {
        lemma_expected_empty(states, weights, n - 1);
        assert(weights[n - 1] * costing::payoff_in(Seq::empty(), states[n - 1]) == 0)
            by (nonlinear_arith)
            requires
                costing::payoff_in(Seq::empty(), states[n - 1]) == 0,
        ;
    }
}

/// Legs that pay a dollar in every state are expected to pay a dollar.
proof fn lemma_expected_floor(
    states: Seq<Seq<ContractId>>,
    weights: Seq<nat>,
    legs: Seq<CandidateLeg>,
    n: int,
)
    requires
        0 <= n <= states.len(),
        forall|s: int|
            0 <= s < states.len() ==> costing::payoff_in(legs, #[trigger] states[s]) >= 100,
    ensures
        expected(states, weights, legs, n) >= 100 * total(weights, n),
    decreases n,
{
    if n > 0 {
        lemma_expected_floor(states, weights, legs, n - 1);
        let w = weights[n - 1] as int;
        let paid = costing::payoff_in(legs, states[n - 1]);
        assert(w * paid >= 100 * w) by (nonlinear_arith)
            requires
                w >= 0,
                paid >= 100,
        ;
    }
}

/// Two legs bought at coherent prices cost what they are expected to pay.
proof fn lemma_pair_cost(
    group: GroupView,
    books: Seq<BookView>,
    weights: Seq<nat>,
    long: int,
    short: int,
)
    requires
        coherent(group, books, weights),
        0 <= long < books.len(),
        0 <= short < books.len(),
        fast::pair_candidates(group.id, books[long], books[short]).len() == 1,
    ensures
        fast::pair_candidates(group.id, books[long], books[short])[0].top_of_book_cost_cents < 100,
        ({
            let n = group.relation.states().len() as int;
            let candidate = fast::pair_candidates(group.id, books[long], books[short])[0];
            candidate.top_of_book_cost_cents * total(weights, n) >= expected(
                group.relation.states(),
                weights,
                candidate.legs,
                n,
            )
        }),
{
    let states = group.relation.states();
    let n = states.len() as int;
    let t = total(weights, n);
    let a = fast::leg_on(books[long], Side::Yes);
    let b = fast::leg_on(books[short], Side::No);
    let candidate = fast::pair_candidates(group.id, books[long], books[short])[0];
    assert(candidate.legs == seq![a, b]);
    lemma_expected_empty(states, weights, n);
    lemma_expected_push(states, weights, Seq::empty(), a, n);
    lemma_expected_push(states, weights, seq![a], b, n);
    assert(Seq::<CandidateLeg>::empty().push(a) =~= seq![a]);
    assert(seq![a].push(b) =~= seq![a, b]);
    assert(ask(books[long], Side::Yes) is Some);
    assert(ask(books[short], Side::No) is Some);
    let yes = ask(books[long], Side::Yes)->0;
    let no = ask(books[short], Side::No)->0;
    assert((yes + no) * t == yes * t + no * t) by (nonlinear_arith);
    lemma_ask_range(books[long], Side::Yes);
    lemma_ask_range(books[short], Side::No);
    assert(candidate.top_of_book_cost_cents == yes + no);
    assert(candidate.top_of_book_cost_cents < 100);
}

/// Every offer is priced inside the band.
proof fn lemma_offer_price(sizes: Seq<i64>, top: int)
    requires
        top <= 100,
    ensures
        forall|k: int|
            0 <= k < crate::types::offered(sizes, top).len() ==> 0 <= (
            #[trigger] crate::types::offered(sizes, top)[k]).price <= 100,
    decreases top + 1,
{
    if top >= 0 {
        lemma_offer_price(sizes, top - 1);
        let rest = crate::types::offered(sizes, top - 1);
        let all = crate::types::offered(sizes, top);
        assert forall|k: int| 0 <= k < all.len() implies 0 <= (#[trigger] all[k]).price <= 100 by {
            if sizes[top] > 0 && k > 0 {
                assert(all[k] == rest[k - 1]);
            }
        }
    }
}

proof fn lemma_ask_range(book: BookView, side: Side)
    ensures
        ask(book, side) matches Some(price) ==> 0 <= price <= 100,
{
    lemma_offer_price(book.no, 100);
    lemma_offer_price(book.yes, 100);
}

/// One of each outcome bought at coherent prices costs what it is expected to
/// pay.
proof fn lemma_set_cost(
    group: GroupView,
    books: Seq<BookView>,
    weights: Seq<nat>,
    k: int,
)
    requires
        coherent(group, books, weights),
        0 <= k <= books.len(),
        fast::yes_cost(books.subrange(0, k)) is Some,
    ensures
        ({
            let n = group.relation.states().len() as int;
            fast::yes_cost(books.subrange(0, k))->0 * total(weights, n) >= expected(
                group.relation.states(),
                weights,
                fast::yes_legs(books.subrange(0, k)),
                n,
            )
        }),
    decreases k,
{
    let states = group.relation.states();
    let n = states.len() as int;
    let t = total(weights, n);
    let some = books.subrange(0, k);
    if k == 0 {
        assert(fast::yes_legs(some) =~= Seq::<CandidateLeg>::empty());
        lemma_expected_empty(states, weights, n);
        assert(0 * t == 0);
    } else {
        let front = books.subrange(0, k - 1);
        assert(some.drop_last() =~= front);
        assert(some.last() == books[k - 1]);
        lemma_set_cost(group, books, weights, k - 1);
        let leg = fast::leg_on(books[k - 1], Side::Yes);
        assert(fast::yes_legs(some) =~= fast::yes_legs(front).push(leg));
        lemma_expected_push(states, weights, fast::yes_legs(front), leg, n);
        assert(ask(books[k - 1], Side::Yes) is Some);
        let price = ask(books[k - 1], Side::Yes)->0;
        let before = fast::yes_cost(front)->0;
        assert((before + price) * t == before * t + price * t) by (nonlinear_arith);
    }
}

/// A coherent group never signals: where some probability over the permitted
/// resolutions explains every ask, no fast path finds a candidate, and
/// evaluating the group emits nothing.
pub proof fn coherent_groups_never_signal(
    group: GroupView,
    books: Seq<BookView>,
    weights: Seq<nat>,
)
    requires
        books_of(group, books),
        group.relation.members().no_duplicates(),
        coherent(group, books, weights),
    ensures
        solver::fast_path(group, books) =~= Seq::<crate::solver::types::CandidateView>::empty(),
{
    let states = group.relation.states();
    let n = states.len() as int;
    let t = total(weights, n);
    let found = solver::fast_path(group, books);
    if found.len() > 0 {
        let candidate = found[0];
        a_candidate_is_guaranteed_a_dollar(group, books, 0);
        lemma_expected_floor(states, weights, candidate.legs, n);
        match group.relation {
            RelationView::Complement { .. } => {
                lemma_pair_cost(group, books, weights, 0, 0);
            },
            RelationView::Exhaustive { .. } => {
                assert(books.subrange(0, books.len() as int) =~= books);
                lemma_set_cost(group, books, weights, books.len() as int);
                lemma_yes_cost_range(books);
            },
            RelationView::Monotone { .. } => {
                let weak = lemma_monotone_origin(group.id, books, books.len() as int, 0);
                lemma_pair_cost(group, books, weights, weak, weak + 1);
            },
            RelationView::Implies { .. } => {
                let rungs = seq![books[1], books[0]];
                let weak = lemma_monotone_origin(group.id, rungs, 2, 0);
                assert(weak == 0 && rungs[0] == books[1] && rungs[1] == books[0]);
                lemma_pair_cost(group, books, weights, 1, 0);
            },
            RelationView::Equivalent { .. } => {
                let one = fast::pair_candidates(group.id, books[0], books[1]);
                if one.len() > 0 {
                    lemma_pair_cost(group, books, weights, 0, 1);
                } else {
                    lemma_pair_cost(group, books, weights, 1, 0);
                }
            },
        }
        let cost = candidate.top_of_book_cost_cents as int;
        assert(cost < 100);
        assert(cost * t >= 100 * t);
        assert(false) by (nonlinear_arith)
            requires
                cost * t >= 100 * t,
                cost < 100,
                t > 0,
        ;
    }
}

/// Prices are never negative, so neither is their sum.
proof fn lemma_yes_cost_range(books: Seq<BookView>)
    ensures
        fast::yes_cost(books) matches Some(cost) ==> cost >= 0,
    decreases books.len(),
{
    if books.len() > 0 {
        lemma_yes_cost_range(books.drop_last());
        lemma_ask_range(books.last(), Side::Yes);
    }
}

/// Evaluating a coherent group emits nothing, whatever the thresholds and the
/// fee schedules.
pub proof fn a_coherent_group_emits_nothing(
    metrics: SolverMetrics,
    models: &FeeModels,
    group: GroupView,
    quotes: costing::Quotes,
    config: SolverConfig,
    now_ms: u64,
    weights: Seq<nat>,
)
    requires
        books_of(group, solver::member_books(quotes, group.relation.members())),
        group.relation.members().no_duplicates(),
        coherent(group, solver::member_books(quotes, group.relation.members()), weights),
    ensures
        solver::group_outcome(metrics, models, group, quotes, config, now_ms).1 =~= Seq::<
            OpportunityView,
        >::empty(),
{
    let books = solver::member_books(quotes, group.relation.members());
    coherent_groups_never_signal(group, books, weights);
    assert(solver::fast_path(group, books).len() == 0);
}

// ---------------------------------------------------------------------------
// How good the chosen quantity is
// ---------------------------------------------------------------------------

/// The executable quantity is the one that maximizes net profit: no quantity up
/// to the cap nets more, and none smaller nets as much.
pub proof fn no_quantity_nets_more_than_the_chosen_one(
    models: &FeeModels,
    group: GroupView,
    legs: Seq<CandidateLeg>,
    quotes: costing::Quotes,
    config: SolverConfig,
    now_ms: u64,
    trade: OpportunityView,
    q: int,
)
    requires
        quotes_wf(quotes, legs),
        costing::sizing_fits(models, config.max_position_size as int, legs.len() as int),
        costing::costed(models, group, legs, quotes, config, now_ms) == Ok::<
            OpportunityView,
            RejectReason,
        >(trade),
        1 <= q <= costing::thinnest(
            costing::ladders_of(quotes, legs, config.max_position_size as int),
            config.max_position_size as int,
        ),
    ensures
        1 <= trade.qty <= costing::thinnest(
            costing::ladders_of(quotes, legs, config.max_position_size as int),
            config.max_position_size as int,
        ),
        trade.net_cents == costing::net_at(
            models,
            legs,
            costing::ladders_of(quotes, legs, config.max_position_size as int),
            costing::worst_payoff(group.relation.states(), legs),
            trade.qty as int,
        ),
        ({
            let net = costing::net_at(
                models,
                legs,
                costing::ladders_of(quotes, legs, config.max_position_size as int),
                costing::worst_payoff(group.relation.states(), legs),
                q,
            );
            net <= trade.net_cents && (q < trade.qty ==> net < trade.net_cents)
        }),
{
    let limit = config.max_position_size as int;
    let payoff = costing::worst_payoff(group.relation.states(), legs);
    let ladders = costing::ladders_of(quotes, legs, limit);
    let cap = costing::thinnest(ladders, limit);
    let best = costing::best_quantity(models, legs, ladders, payoff, cap);
    let n = legs.len() as int;
    assert forall|i: int| 0 <= i < legs.len() implies quotes(
        (#[trigger] legs[i]).contract_id,
    ) is Some by {}
    lemma_ladders_wf(quotes, legs, limit);
    lemma_thinnest(ladders, limit);
    lemma_best_exists(models, legs, ladders, payoff, cap);
    costing::lemma_sizing(models, limit, n, n, best);
    costing::lemma_position_bounds(models, legs, ladders, best, costing::max(limit, 0), n);
    lemma_worst_bound(group.relation.states(), legs);
    assert(0 <= payoff * best <= (100 * n) * best) by (nonlinear_arith)
        requires
            0 <= payoff <= 100 * n,
            best >= 0,
    ;
}

// ---------------------------------------------------------------------------
// What a depth walk costs
// ---------------------------------------------------------------------------

/// What taking `sizes[i]` contracts of the offer at each level `i` costs.
pub open spec fn cost_of(offers: Seq<Level>, sizes: Seq<int>) -> int
    decreases offers.len(),
{
    if offers.len() == 0 || sizes.len() == 0 {
        0
    } else {
        sizes[0] * offers[0].price + cost_of(
            offers.subrange(1, offers.len() as int),
            sizes.subrange(1, sizes.len() as int),
        )
    }
}

/// How many contracts a choice of sizes takes.
pub open spec fn taken(sizes: Seq<int>) -> int
    decreases sizes.len(),
{
    if sizes.len() == 0 {
        0
    } else {
        sizes[0] + taken(sizes.subrange(1, sizes.len() as int))
    }
}

/// A choice takes from each offer at least nothing and at most what is offered.
pub open spec fn within(offers: Seq<Level>, sizes: Seq<int>) -> bool {
    &&& sizes.len() == offers.len()
    &&& forall|i: int| 0 <= i < sizes.len() ==> 0 <= #[trigger] sizes[i] <= offers[i].size
}

proof fn lemma_offers(book: BookView, side: Side)
    requires
        book.wf(),
    ensures
        costing::ladder_wf(costing::asks_for(book, side)),
        costing::ascending(costing::asks_for(book, side)),
{
    crate::types::lemma_offered(book.yes, 100);
    crate::types::lemma_offered(book.no, 100);
}

proof fn lemma_ladder_split(ladder: Seq<Level>)
    requires
        costing::ladder_wf(ladder),
        ladder.len() > 0,
    ensures
        costing::ladder_wf(ladder.subrange(1, ladder.len() as int)),
        costing::ascending(ladder) ==> costing::ascending(ladder.subrange(1, ladder.len() as int)),
        costing::depth(ladder) == ladder[0].size + costing::depth(
            ladder.subrange(1, ladder.len() as int),
        ),
        costing::price_of(ladder) == ladder[0].size * ladder[0].price + costing::price_of(
            ladder.subrange(1, ladder.len() as int),
        ),
        costing::depth(ladder.subrange(1, ladder.len() as int)) >= 0,
{
    let rest = ladder.subrange(1, ladder.len() as int);
    let first = seq![ladder[0]];
    assert forall|k: int| 0 <= k < rest.len() implies 0 <= (#[trigger] rest[k]).price <= 100
        && rest[k].size > 0 by {
        assert(rest[k] == ladder[k + 1]);
    }
    if costing::ascending(ladder) {
        assert forall|i: int, j: int| 0 <= i <= j < rest.len() implies (#[trigger] rest[i]).price
            <= (#[trigger] rest[j]).price by {
            assert(rest[i] == ladder[i + 1] && rest[j] == ladder[j + 1]);
        }
    }
    assert(ladder =~= first + rest);
    costing::lemma_depth_concat(first, rest);
    costing::lemma_price_concat(first, rest);
    assert(first.drop_last() =~= Seq::<Level>::empty());
    assert(costing::depth(Seq::<Level>::empty()) == 0);
    assert(costing::price_of(Seq::<Level>::empty()) == 0);
    costing::lemma_depth_nonneg(rest);
}

/// A ladder taken whole costs what its levels cost.
proof fn lemma_premium_whole(ladder: Seq<Level>)
    requires
        costing::ladder_wf(ladder),
    ensures
        costing::premium(ladder, costing::depth(ladder)) == costing::price_of(ladder),
    decreases ladder.len(),
{
    if ladder.len() > 0 {
        lemma_ladder_split(ladder);
        lemma_premium_whole(ladder.subrange(1, ladder.len() as int));
    }
}

proof fn lemma_prefix(offers: Seq<Level>, want: int, qty: int)
    requires
        costing::ladder_wf(offers),
        0 <= qty <= want,
    ensures
        costing::premium(costing::walked(offers, want), qty) == costing::price_of(
            costing::walked(offers, qty),
        ),
    decreases offers.len(),
{
    let short = costing::walked(offers, qty);
    let all = costing::walked(offers, want);
    if qty == 0 {
        assert(short =~= Seq::<Level>::empty());
    } else if offers.len() > 0 {
        let rest = offers.subrange(1, offers.len() as int);
        let price = offers[0].price;
        lemma_ladder_split(offers);
        let take = costing::min(want, offers[0].size as int);
        let step = costing::min(qty, offers[0].size as int);
        let tail = costing::walked(rest, want - take);
        let short_tail = costing::walked(rest, qty - step);
        assert(all == seq![Level { price, size: take as i64 }] + tail);
        assert(short == seq![Level { price, size: step as i64 }] + short_tail);
        assert(all.subrange(1, all.len() as int) =~= tail);
        assert(short.subrange(1, short.len() as int) =~= short_tail);
        costing::lemma_walked(offers, qty);
        lemma_ladder_split(short);
        assert(all[0] == Level { price, size: take as i64 });
        assert(short[0] == Level { price, size: step as i64 });
        lemma_prefix(rest, want - take, qty - step);
    } else {
        assert(short =~= Seq::<Level>::empty());
        assert(all =~= Seq::<Level>::empty());
    }
}

/// Walking once and pricing a smaller quantity off what the walk consumed costs
/// what walking for that quantity alone would have cost; all of it costs what
/// the walk cost.
pub proof fn a_walk_prices_every_smaller_walk(book: BookView, side: Side, want: int, qty: int)
    requires
        book.wf(),
        0 <= qty <= want,
    ensures
        ({
            let offers = costing::asks_for(book, side);
            let consumed = costing::walked(offers, want);
            &&& costing::premium(consumed, qty) == costing::price_of(costing::walked(offers, qty))
            &&& costing::premium(consumed, costing::depth(consumed)) == costing::price_of(consumed)
        }),
{
    let offers = costing::asks_for(book, side);
    lemma_offers(book, side);
    lemma_prefix(offers, want, qty);
    costing::lemma_walked(offers, want);
    lemma_premium_whole(costing::walked(offers, want));
}

/// Each contract of a ladder costs at least its first price.
proof fn lemma_premium_grows(ladder: Seq<Level>, qty: int, fewer: int, floor: int)
    requires
        costing::ladder_wf(ladder),
        forall|i: int| 0 <= i < ladder.len() ==> floor <= (#[trigger] ladder[i]).price,
        0 <= fewer <= qty <= costing::depth(ladder),
    ensures
        costing::premium(ladder, qty) >= costing::premium(ladder, fewer) + (qty - fewer) * floor,
    decreases ladder.len(),
{
    if ladder.len() > 0 && qty > 0 {
        lemma_ladder_split(ladder);
        let rest = ladder.subrange(1, ladder.len() as int);
        let price = ladder[0].price as int;
        let take = costing::min(qty, ladder[0].size as int);
        let step = costing::min(fewer, ladder[0].size as int);
        assert forall|i: int| 0 <= i < rest.len() implies floor <= (#[trigger] rest[i]).price by {
            assert(rest[i] == ladder[i + 1]);
        }
        lemma_premium_grows(rest, qty - take, fewer - step, floor);
        assert(costing::premium(ladder, fewer) == step * price + costing::premium(
            rest,
            fewer - step,
        )) by {
            if fewer == 0 {
                assert(costing::premium(rest, 0) == 0);
                assert(step * price == 0) by (nonlinear_arith)
                    requires
                        step == 0,
                ;
            }
        }
        assert(take * price - step * price + ((qty - take) - (fewer - step)) * floor >= (qty
            - fewer) * floor) by (nonlinear_arith)
            requires
                take >= step,
                price >= floor,
        ;
    } else {
        assert((qty - fewer) * floor == 0) by (nonlinear_arith)
            requires
                qty == fewer,
        ;
    }
}

proof fn lemma_greedy_is_cheapest(offers: Seq<Level>, sizes: Seq<int>)
    requires
        costing::ladder_wf(offers),
        costing::ascending(offers),
        within(offers, sizes),
    ensures
        0 <= taken(sizes) <= costing::depth(offers),
        costing::premium(offers, taken(sizes)) <= cost_of(offers, sizes),
    decreases offers.len(),
{
    if offers.len() > 0 {
        let rest = offers.subrange(1, offers.len() as int);
        let others = sizes.subrange(1, sizes.len() as int);
        let price = offers[0].price as int;
        lemma_ladder_split(offers);
        assert forall|i: int| 0 <= i < others.len() implies 0 <= #[trigger] others[i]
            <= rest[i].size by {
            assert(others[i] == sizes[i + 1]);
            assert(rest[i] == offers[i + 1]);
        }
        lemma_greedy_is_cheapest(rest, others);
        assert forall|i: int| 0 <= i < rest.len() implies price <= (#[trigger] rest[i]).price by {
            assert(rest[i] == offers[i + 1]);
        }
        let all = taken(sizes);
        assert(0 <= sizes[0] <= offers[0].size);
        let take = costing::min(all, offers[0].size as int);
        lemma_premium_grows(rest, taken(others), all - take, price);
        assert(costing::premium(offers, all) == take * price + costing::premium(rest, all - take))
            by {
            if all == 0 {
                assert(costing::premium(rest, 0) == 0);
                assert(take * price == 0) by (nonlinear_arith)
                    requires
                        take == 0,
                ;
            }
        }
        assert(sizes[0] * price + (taken(others) - (all - take)) * price == take * price)
            by (nonlinear_arith)
            requires
                all == sizes[0] + taken(others),
        ;
    }
}

/// A walk takes its contracts at the lowest cost the book allows: any choice of
/// sizes within the offers that takes as many costs at least as much.
pub proof fn no_choice_of_offers_costs_less_than_the_walk(
    book: BookView,
    side: Side,
    want: int,
    sizes: Seq<int>,
)
    requires
        book.wf(),
        within(costing::asks_for(book, side), sizes),
        taken(sizes) == costing::depth(costing::walked(costing::asks_for(book, side), want)),
    ensures
        costing::price_of(costing::walked(costing::asks_for(book, side), want)) <= cost_of(
            costing::asks_for(book, side),
            sizes,
        ),
{
    let offers = costing::asks_for(book, side);
    let consumed = costing::walked(offers, want);
    lemma_offers(book, side);
    lemma_greedy_is_cheapest(offers, sizes);
    costing::lemma_walked(offers, want);
    lemma_walked_premium(offers, want);
}

/// A walk costs what as many contracts cost off the whole book.
proof fn lemma_walked_premium(offers: Seq<Level>, want: int)
    requires
        costing::ladder_wf(offers),
    ensures
        costing::price_of(costing::walked(offers, want)) == costing::premium(
            offers,
            costing::depth(costing::walked(offers, want)),
        ),
    decreases offers.len(),
{
    let consumed = costing::walked(offers, want);
    if want > 0 && offers.len() > 0 {
        let rest = offers.subrange(1, offers.len() as int);
        let take = costing::min(want, offers[0].size as int);
        let tail = costing::walked(rest, want - take);
        lemma_ladder_split(offers);
        costing::lemma_walked(offers, want);
        assert(consumed == seq![Level { price: offers[0].price, size: take as i64 }] + tail);
        assert(consumed.subrange(1, consumed.len() as int) =~= tail);
        lemma_ladder_split(consumed);
        lemma_walked_premium(rest, want - take);
        costing::lemma_walked(rest, want - take);
        assert(consumed[0] == Level { price: offers[0].price, size: take as i64 });
        assert(costing::depth(consumed) == take + costing::depth(tail));
        if take < offers[0].size {
            assert(want - take == 0);
            assert(tail =~= Seq::<Level>::empty());
        }
    } else {
        assert(consumed =~= Seq::<Level>::empty());
    }
}

// ---------------------------------------------------------------------------
// Which groups an evaluation looks at
// ---------------------------------------------------------------------------

/// Whether a group holds a dirty contract.
pub open spec fn holds_dirty(group: GroupView, dirty: Seq<ContractId>) -> bool {
    exists|i: int| 0 <= i < dirty.len() && group.relation.members().contains(#[trigger] dirty[i])
}

/// The groups that hold a dirty contract.
pub open spec fn dirty_groups(groups: Seq<GroupView>, dirty: Seq<ContractId>) -> Seq<GroupView> {
    groups.filter(|group: GroupView| holds_dirty(group, dirty))
}

proof fn lemma_touched_same(
    groups: Seq<GroupView>,
    dirty: Seq<ContractId>,
    again: Seq<ContractId>,
    id: int,
)
    requires
        forall|c: ContractId| #[trigger] dirty.contains(c) ==> again.contains(c),
        solver::touched(groups, dirty, id),
    ensures
        solver::touched(groups, again, id),
{
    let i = choose|i: int|
        0 <= i < dirty.len() && registry::groups_containing(groups, #[trigger] dirty[i]).contains(
            GroupId(id as u32),
        );
    assert(dirty.contains(dirty[i]));
    assert(again.contains(dirty[i]));
    let j = choose|j: int| 0 <= j < again.len() && again[j] == dirty[i];
    assert(registry::groups_containing(groups, again[j]).contains(GroupId(id as u32)));
}

proof fn lemma_evaluated_same(
    metrics: SolverMetrics,
    models: &FeeModels,
    groups: Seq<GroupView>,
    dirty: Seq<ContractId>,
    again: Seq<ContractId>,
    quotes: costing::Quotes,
    config: SolverConfig,
    now_ms: u64,
    n: int,
)
    requires
        forall|c: ContractId| #[trigger] dirty.contains(c) <==> #[trigger] again.contains(c),
    ensures
        solver::evaluated(metrics, models, groups, dirty, quotes, config, now_ms, n)
            == solver::evaluated(metrics, models, groups, again, quotes, config, now_ms, n),
    decreases n,
{
    if n > 0 {
        lemma_evaluated_same(
            metrics,
            models,
            groups,
            dirty,
            again,
            quotes,
            config,
            now_ms,
            n - 1,
        );
        if solver::touched(groups, dirty, n - 1) {
            lemma_touched_same(groups, dirty, again, n - 1);
        }
        if solver::touched(groups, again, n - 1) {
            lemma_touched_same(groups, again, dirty, n - 1);
        }
    }
}

/// An evaluation depends on which contracts are dirty, and not on the order they
/// are listed in or how often: the same set leaves the same counters and the same
/// opportunities in the same ranking.
pub proof fn evaluation_depends_on_the_set_of_dirty_contracts(
    metrics: SolverMetrics,
    models: &FeeModels,
    groups: Seq<GroupView>,
    dirty: Seq<ContractId>,
    again: Seq<ContractId>,
    quotes: costing::Quotes,
    config: SolverConfig,
    now_ms: u64,
)
    requires
        dirty.to_set() == again.to_set(),
    ensures
        ({
            let n = groups.len() as int;
            let once = solver::evaluated(
                metrics,
                models,
                groups,
                dirty,
                quotes,
                config,
                now_ms,
                n,
            );
            let other = solver::evaluated(
                metrics,
                models,
                groups,
                again,
                quotes,
                config,
                now_ms,
                n,
            );
            once.0 == other.0 && costing::ranked(once.1) == costing::ranked(other.1)
        }),
{
    assert forall|c: ContractId| #[trigger] dirty.contains(c) <==> #[trigger] again.contains(c) by {
        assert(dirty.to_set().contains(c) <==> dirty.contains(c));
        assert(again.to_set().contains(c) <==> again.contains(c));
    }
    lemma_evaluated_same(
        metrics,
        models,
        groups,
        dirty,
        again,
        quotes,
        config,
        now_ms,
        groups.len() as int,
    );
}

pub proof fn lemma_containing(groups: Seq<GroupView>, contract: ContractId, id: int)
    requires
        groups.len() <= 0x1_0000_0000,
        forall|i: int|
            0 <= i < groups.len() ==> (#[trigger] groups[i]).id == registry::group_id_at(i),
        0 <= id <= u32::MAX,
    ensures
        registry::groups_containing(groups, contract).contains(GroupId(id as u32)) <==> (id
            < groups.len() && groups[id].relation.members().contains(contract)),
    decreases groups.len(),
{
    if groups.len() > 0 {
        let fewer = groups.drop_last();
        let last = groups.len() - 1;
        assert forall|i: int| 0 <= i < fewer.len() implies (#[trigger] fewer[i]).id
            == registry::group_id_at(i) by {
            assert(fewer[i] == groups[i]);
        }
        lemma_containing(fewer, contract, id);
        let before = registry::groups_containing(fewer, contract);
        let all = registry::groups_containing(groups, contract);
        assert(groups[last].id == registry::group_id_at(last));
        if groups.last().relation.members().contains(contract) {
            assert(all == before.push(groups.last().id));
            if id == last {
                assert(all[before.len() as int] == GroupId(id as u32));
            } else {
                if before.contains(GroupId(id as u32)) {
                    let k = choose|k: int|
                        0 <= k < before.len() && before[k] == GroupId(id as u32);
                    assert(all[k] == GroupId(id as u32));
                }
                if all.contains(GroupId(id as u32)) {
                    let k = choose|k: int| 0 <= k < all.len() && all[k] == GroupId(id as u32);
                    assert(k < before.len());
                    assert(before[k] == GroupId(id as u32));
                }
            }
        }
        if id < last {
            assert(fewer[id] == groups[id]);
        }
    }
}

pub proof fn lemma_touched_holds(groups: Seq<GroupView>, dirty: Seq<ContractId>, id: int)
    requires
        groups.len() <= 0x1_0000_0000,
        forall|i: int|
            0 <= i < groups.len() ==> (#[trigger] groups[i]).id == registry::group_id_at(i),
        0 <= id < groups.len(),
    ensures
        solver::touched(groups, dirty, id) <==> holds_dirty(groups[id], dirty),
{
    assert forall|i: int| 0 <= i < dirty.len() implies registry::groups_containing(
        groups,
        #[trigger] dirty[i],
    ).contains(GroupId(id as u32)) == groups[id].relation.members().contains(dirty[i]) by {
        lemma_containing(groups, dirty[i], id);
    }
    if solver::touched(groups, dirty, id) {
        let i = choose|i: int|
            0 <= i < dirty.len() && registry::groups_containing(
                groups,
                #[trigger] dirty[i],
            ).contains(GroupId(id as u32));
        assert(groups[id].relation.members().contains(dirty[i]));
    }
    if holds_dirty(groups[id], dirty) {
        let i = choose|i: int|
            0 <= i < dirty.len() && groups[id].relation.members().contains(#[trigger] dirty[i]);
        assert(registry::groups_containing(groups, dirty[i]).contains(GroupId(id as u32)));
    }
}

proof fn lemma_costing_counts_no_group(
    metrics: SolverMetrics,
    models: &FeeModels,
    group: GroupView,
    candidates: Seq<CandidateView>,
    quotes: costing::Quotes,
    config: SolverConfig,
    now_ms: u64,
)
    ensures
        solver::costed_all(
            metrics,
            models,
            group,
            candidates,
            quotes,
            config,
            now_ms,
        ).0.groups_evaluated == metrics.groups_evaluated,
    decreases candidates.len(),
{
    if candidates.len() > 0 {
        lemma_costing_counts_no_group(
            metrics,
            models,
            group,
            candidates.drop_last(),
            quotes,
            config,
            now_ms,
        );
    }
}

proof fn lemma_counted(
    metrics: SolverMetrics,
    models: &FeeModels,
    groups: Seq<GroupView>,
    dirty: Seq<ContractId>,
    quotes: costing::Quotes,
    config: SolverConfig,
    now_ms: u64,
    n: int,
)
    requires
        groups.len() <= 0x1_0000_0000,
        forall|i: int|
            0 <= i < groups.len() ==> (#[trigger] groups[i]).id == registry::group_id_at(i),
        0 <= n <= groups.len(),
    ensures
        solver::evaluated(
            metrics,
            models,
            groups,
            dirty,
            quotes,
            config,
            now_ms,
            n,
        ).0.groups_evaluated == costing::min(
            u64::MAX as int,
            metrics.groups_evaluated + dirty_groups(groups.subrange(0, n), dirty).len(),
        ),
    decreases n,
{
    reveal(Seq::filter);
    let some = groups.subrange(0, n);
    if n > 0 {
        lemma_counted(metrics, models, groups, dirty, quotes, config, now_ms, n - 1);
        lemma_touched_holds(groups, dirty, n - 1);
        assert(some.drop_last() =~= groups.subrange(0, n - 1));
        assert(some.last() == groups[n - 1]);
        let before = solver::evaluated(
            metrics,
            models,
            groups,
            dirty,
            quotes,
            config,
            now_ms,
            n - 1,
        ).0;
        let counted = SolverMetrics {
            groups_evaluated: types::bumped(before.groups_evaluated),
            ..before
        };
        match solver::candidates_of(groups[n - 1], quotes, config.max_book_age_ms, now_ms) {
            Err(_) => {},
            Ok(candidates) => {
                lemma_costing_counts_no_group(
                    counted,
                    models,
                    groups[n - 1],
                    candidates,
                    quotes,
                    config,
                    now_ms,
                );
            },
        }
    }
}

/// Each group that holds a dirty contract is evaluated once: the counter grows by
/// their number, and stops at the largest count. This is said of as many groups
/// as there are ids to tell them apart.
pub proof fn each_touched_group_is_counted_once(
    registry: &Registry,
    metrics: SolverMetrics,
    models: &FeeModels,
    dirty: Seq<ContractId>,
    quotes: costing::Quotes,
    config: SolverConfig,
    now_ms: u64,
)
    requires
        registry.wf(),
        registry@.groups.len() <= 0x1_0000_0000,
    ensures
        solver::evaluated(
            metrics,
            models,
            registry@.groups,
            dirty,
            quotes,
            config,
            now_ms,
            registry@.groups.len() as int,
        ).0.groups_evaluated == costing::min(
            u64::MAX as int,
            metrics.groups_evaluated + dirty_groups(registry@.groups, dirty).len(),
        ),
{
    registry.lemma_group_ids();
    let groups = registry@.groups;
    lemma_counted(
        metrics,
        models,
        groups,
        dirty,
        quotes,
        config,
        now_ms,
        groups.len() as int,
    );
    assert(groups.subrange(0, groups.len() as int) =~= groups);
}

} // verus!
