//! What an opportunity is, said of the books and the schedules it was priced on.
//!
//! - Its legs take the cheapest contracts that are offered, and each is charged by
//!   its own venue, price by price.
//! - Its payoff is what the worst permitted resolution pays, its capital what the
//!   legs cost and are charged, its net the difference.
//! - No other quantity within reach earns more.
//! - It meets the configured edge and the configured return over its own lockup,
//!   and what is refused for either fails exactly that.
//! - Every other refusal is for a fact about the legs or their books.
use vstd::prelude::*;
use crate::fees::FeeModels;
use crate::quote;
use crate::registry::{GroupView, RelationView};
use crate::solver::costing;
use crate::solver::detection;
use crate::solver::laws;
use crate::solver::types::{CandidateLeg, Leg, OpportunityView, RejectReason, SolverConfig};
use crate::types::{BookView, ContractId, Level, Ratio, Side, Venue};

verus! {

/// What the venue of a leg charges for taking `qty` contracts off a book.
pub open spec fn charge(models: &FeeModels, leg: CandidateLeg, book: BookView, qty: int) -> int {
    match leg.venue {
        Venue::Kalshi => quote::fee_upto(
            &models.kalshi,
            leg.contract_id,
            book,
            leg.side,
            qty,
            100,
        ),
        Venue::Polymarket => quote::fee_upto(
            &models.polymarket,
            leg.contract_id,
            book,
            leg.side,
            qty,
            100,
        ),
    }
}

/// What the first `n` legs cost at a quantity, premium and fees.
pub open spec fn outlay(
    models: &FeeModels,
    legs: Seq<CandidateLeg>,
    quotes: costing::Quotes,
    qty: int,
    n: int,
) -> int
    decreases n,
{
    if n <= 0 {
        0
    } else {
        let leg = legs[n - 1];
        let book = quotes(leg.contract_id)->0;
        outlay(models, legs, quotes, qty, n - 1) + quote::cost_upto(book, leg.side, qty, 100)
            + charge(models, leg, book, qty)
    }
}

/// The premium of the first `n` legs.
pub open spec fn premiums(legs: Seq<Leg>, n: int) -> int
    decreases n,
{
    if n <= 0 {
        0
    } else {
        premiums(legs, n - 1) + legs[n - 1].total_cost_cents
    }
}

/// The fees of the first `n` legs.
pub open spec fn charges(legs: Seq<Leg>, n: int) -> int
    decreases n,
{
    if n <= 0 {
        0
    } else {
        charges(legs, n - 1) + legs[n - 1].fee_cents
    }
}

/// What one contract of each of the first `n` legs pays when exactly the
/// contracts of a set resolve yes.
pub open spec fn pays_out(legs: Seq<CandidateLeg>, yes: Set<ContractId>, n: int) -> int
    decreases n,
{
    if n <= 0 {
        0
    } else {
        pays_out(legs, yes, n - 1) + if (legs[n - 1].side == Side::Yes) == yes.contains(
            legs[n - 1].contract_id,
        ) {
            100int
        } else {
            0
        }
    }
}

/// A quantity that the limit allows and that every leg's book offers.
pub open spec fn within_reach(
    legs: Seq<CandidateLeg>,
    quotes: costing::Quotes,
    config: SolverConfig,
    qty: int,
) -> bool {
    &&& 1 <= qty <= config.max_position_size
    &&& forall|i: int|
        0 <= i < legs.len() ==> qty <= quote::offered_upto(
            quotes((#[trigger] legs[i]).contract_id)->0,
            legs[i].side,
            100,
        )
}

/// Every leg has a book.
pub open spec fn all_quoted(legs: Seq<CandidateLeg>, quotes: costing::Quotes) -> bool {
    forall|i: int| 0 <= i < legs.len() ==> quotes((#[trigger] legs[i]).contract_id) is Some
}

/// Every leg is on a contract that a relation speaks of.
pub open spec fn legs_among(legs: Seq<CandidateLeg>, relation: RelationView) -> bool {
    &&& relation.members().no_duplicates()
    &&& forall|i: int|
        0 <= i < legs.len() ==> relation.members().contains((#[trigger] legs[i]).contract_id)
}

// ---------------------------------------------------------------------------
// From ladders to prices
// ---------------------------------------------------------------------------

proof fn lemma_venue_fee(
    models: &FeeModels,
    leg: CandidateLeg,
    book: BookView,
    qty: int,
    price: int,
)
    ensures
        match leg.venue {
            Venue::Kalshi => quote::fee_upto(
                &models.venue_fees(leg.venue),
                leg.contract_id,
                book,
                leg.side,
                qty,
                price,
            ) == quote::fee_upto(
                &models.kalshi,
                leg.contract_id,
                book,
                leg.side,
                qty,
                price,
            ),
            Venue::Polymarket => quote::fee_upto(
                &models.venue_fees(leg.venue),
                leg.contract_id,
                book,
                leg.side,
                qty,
                price,
            ) == quote::fee_upto(
                &models.polymarket,
                leg.contract_id,
                book,
                leg.side,
                qty,
                price,
            ),
        },
    decreases price + 1,
{
    if price >= 0 {
        lemma_venue_fee(models, leg, book, qty, price - 1);
    }
}

/// One leg, walked to `most`, costs and charges what its book says.
proof fn lemma_leg(
    models: &FeeModels,
    legs: Seq<CandidateLeg>,
    quotes: costing::Quotes,
    most: int,
    qty: int,
    i: int,
)
    requires
        0 <= i < legs.len(),
        laws::quotes_wf(quotes, legs),
        all_quoted(legs, quotes),
        0 <= qty,
    ensures
        ({
            let ladder = costing::ladders_of(quotes, legs, most)[i];
            let book = quotes(legs[i].contract_id)->0;
            &&& qty <= most ==> costing::premium(ladder, qty) == quote::cost_upto(
                book,
                legs[i].side,
                qty,
                100,
            )
            &&& qty <= most ==> costing::leg_fee(models, legs[i], ladder, qty) == charge(
                models,
                legs[i],
                book,
                qty,
            )
            &&& costing::ladder_wf(ladder)
            &&& costing::depth(ladder) == costing::min(
                costing::max(most, 0),
                quote::offered_upto(book, legs[i].side, 100),
            )
        }),
{
    let leg = legs[i];
    let book = quotes(leg.contract_id)->0;
    let offers = costing::asks_for(book, leg.side);
    let fees = models.venue_fees(leg.venue);
    quote::lemma_offers(&fees, leg.contract_id, book, leg.side, qty);
    quote::lemma_upto_nonneg(book, leg.side, 100);
    if qty <= most {
        quote::lemma_walked_alike(&fees, leg.contract_id, offers, most, qty, None);
        lemma_venue_fee(models, leg, book, qty, 100);
    }
    costing::lemma_walked(offers, most);
    if most <= 0 {
        assert(costing::walked(offers, most) =~= Seq::<Level>::empty());
    }
}

proof fn lemma_outlay(
    models: &FeeModels,
    legs: Seq<CandidateLeg>,
    quotes: costing::Quotes,
    most: int,
    qty: int,
    n: int,
)
    requires
        0 <= n <= legs.len(),
        laws::quotes_wf(quotes, legs),
        all_quoted(legs, quotes),
        0 <= qty <= most,
    ensures
        ({
            let ladders = costing::ladders_of(quotes, legs, most);
            costing::cost_at(ladders, qty, n) + costing::fees_at(models, legs, ladders, qty, n)
                == outlay(models, legs, quotes, qty, n)
        }),
    decreases n,
{
    if n > 0 {
        lemma_outlay(models, legs, quotes, most, qty, n - 1);
        lemma_leg(models, legs, quotes, most, qty, n - 1);
    }
}

proof fn lemma_cap(
    legs: Seq<CandidateLeg>,
    quotes: costing::Quotes,
    config: SolverConfig,
    qty: int,
    models: &FeeModels,
)
    requires
        laws::quotes_wf(quotes, legs),
        all_quoted(legs, quotes),
    ensures
        ({
            let most = config.max_position_size as int;
            let ladders = costing::ladders_of(quotes, legs, most);
            1 <= qty <= costing::thinnest(ladders, most) <==> within_reach(
                legs,
                quotes,
                config,
                qty,
            )
        }),
{
    let most = config.max_position_size as int;
    let ladders = costing::ladders_of(quotes, legs, most);
    lemma_thinnest_is_least(ladders, most, qty);
    assert forall|i: int| 0 <= i < legs.len() implies costing::depth(ladders[i]) == costing::min(
        costing::max(most, 0),
        quote::offered_upto(quotes((#[trigger] legs[i]).contract_id)->0, legs[i].side, 100),
    ) by {
        lemma_leg(models, legs, quotes, most, 0, i);
    }
    if within_reach(legs, quotes, config, qty) {
        assert forall|i: int| 0 <= i < ladders.len() implies qty <= costing::depth(
            #[trigger] ladders[i],
        ) by {
            assert(qty <= quote::offered_upto(
                quotes(legs[i].contract_id)->0,
                legs[i].side,
                100,
            ));
        }
    }
    if 1 <= qty <= costing::thinnest(ladders, most) {
        assert forall|i: int| 0 <= i < legs.len() implies qty <= quote::offered_upto(
            quotes((#[trigger] legs[i]).contract_id)->0,
            legs[i].side,
            100,
        ) by {
            assert(qty <= costing::depth(ladders[i]));
        }
    }
}

proof fn lemma_thinnest_is_least(ladders: Seq<Seq<Level>>, most: int, qty: int)
    ensures
        qty <= costing::thinnest(ladders, most) <==> (qty <= costing::max(most, 0) && forall|
            i: int,
        |
            0 <= i < ladders.len() ==> qty <= costing::depth(#[trigger] ladders[i])),
    decreases ladders.len(),
{
    if ladders.len() > 0 {
        let front = ladders.drop_last();
        lemma_thinnest_is_least(front, most, qty);
        if qty <= costing::thinnest(ladders, most) {
            assert forall|i: int| 0 <= i < ladders.len() implies qty <= costing::depth(
                #[trigger] ladders[i],
            ) by {
                if i < front.len() {
                    assert(front[i] == ladders[i]);
                }
            }
        }
        if forall|i: int|
            0 <= i < ladders.len() ==> qty <= costing::depth(#[trigger] ladders[i]) {
            assert(qty <= costing::depth(ladders[ladders.len() - 1]));
            assert forall|i: int| 0 <= i < front.len() implies qty <= costing::depth(
                #[trigger] front[i],
            ) by {
                assert(front[i] == ladders[i]);
            }
        }
    }
}

/// What a state pays is what the set it stands for pays.
proof fn lemma_payoff(
    relation: RelationView,
    legs: Seq<CandidateLeg>,
    state: Seq<ContractId>,
    yes: Set<ContractId>,
    n: int,
)
    requires
        0 <= n <= legs.len(),
        legs_among(legs, relation),
        detection::resolves_as(relation, state, yes),
    ensures
        costing::payoff_in(legs.subrange(0, n), state) == pays_out(legs, yes, n),
    decreases n,
{
    if n > 0 {
        lemma_payoff(relation, legs, state, yes, n - 1);
        let some = legs.subrange(0, n);
        assert(some.drop_last() =~= legs.subrange(0, n - 1));
        assert(some.last() == legs[n - 1]);
        assert(relation.members().contains(legs[n - 1].contract_id));
    }
}

/// The worst payoff is the least that any permitted resolution pays.
proof fn lemma_guarantee(
    relation: RelationView,
    legs: Seq<CandidateLeg>,
    yes: Set<ContractId>,
)
    requires
        legs_among(legs, relation),
        detection::permits(relation, yes),
    ensures
        pays_out(legs, yes, legs.len() as int) >= costing::worst_payoff(relation.states(), legs),
        exists|least: Set<ContractId>| #[trigger]
            detection::permits(relation, least) && pays_out(legs, least, legs.len() as int)
                == costing::worst_payoff(relation.states(), legs),
{
    let n = legs.len() as int;
    let states = relation.states();
    assert(legs.subrange(0, n) =~= legs);
    detection::the_resolutions_are_those_permitted(relation, yes);
    let s = choose|s: int|
        0 <= s < states.len() && detection::resolves_as(relation, #[trigger] states[s], yes);
    laws::lemma_worst_payoff(states, legs);
    lemma_payoff(relation, legs, states[s], yes, n);
    let k = lemma_worst_is_some(states, legs);
    let least = Set::new(|c: ContractId| states[k].contains(c));
    assert(detection::resolves_as(relation, states[k], least));
    detection::the_resolutions_are_those_permitted(relation, least);
    lemma_payoff(relation, legs, states[k], least, n);
    assert(detection::permits(relation, least));
}

proof fn lemma_worst_is_some(states: Seq<Seq<ContractId>>, legs: Seq<CandidateLeg>) -> (k: int)
    requires
        states.len() > 0,
    ensures
        0 <= k < states.len(),
        costing::worst_payoff(states, legs) == costing::payoff_in(legs, states[k]),
    decreases states.len(),
{
    if states.len() == 1 {
        0
    } else {
        let front = states.drop_last();
        let k = lemma_worst_is_some(front, legs);
        if costing::worst_payoff(front, legs) <= costing::payoff_in(legs, states.last()) {
            k
        } else {
            states.len() - 1
        }
    }
}

proof fn lemma_sums(
    models: &FeeModels,
    legs: Seq<CandidateLeg>,
    ladders: Seq<Seq<Level>>,
    qty: int,
    n: int,
    most: int,
)
    requires
        0 <= n <= legs.len(),
        ladders.len() == legs.len(),
        forall|i: int| 0 <= i < ladders.len() ==> costing::ladder_wf(#[trigger] ladders[i]),
        0 <= qty <= costing::max(most, 0),
        costing::sizing_fits(models, most, legs.len() as int),
    ensures
        ({
            let filled = costing::filled_legs(models, legs, ladders, qty);
            &&& premiums(filled, n) == costing::cost_at(ladders, qty, n)
            &&& charges(filled, n) == costing::fees_at(models, legs, ladders, qty, n)
            &&& forall|i: int|
                0 <= i < n ==> (#[trigger] filled[i]).total_cost_cents == costing::premium(
                    ladders[i],
                    qty,
                ) && filled[i].fee_cents == costing::leg_fee(models, legs[i], ladders[i], qty)
        }),
    decreases n,
{
    if n > 0 {
        lemma_sums(models, legs, ladders, qty, n - 1, most);
        let total = legs.len() as int;
        costing::lemma_sizing(models, most, total, n, qty);
        costing::lemma_sizing(models, most, total, n - 1, qty);
        costing::lemma_position_bounds(models, legs, ladders, qty, costing::max(most, 0), n);
        costing::lemma_position_bounds(models, legs, ladders, qty, costing::max(most, 0), n - 1);
        assert(costing::ladder_wf(ladders[n - 1]));
        costing::lemma_premium_bounds(ladders[n - 1], qty);
        let k = crate::fees::dearest_per_contract(models);
        assert(qty * k <= costing::max(most, 0) * k) by (nonlinear_arith)
            requires
                qty <= costing::max(most, 0),
                k >= 0,
        ;
        costing::lemma_levied_bounds(
            models,
            legs[n - 1].venue,
            legs[n - 1].contract_id,
            ladders[n - 1],
            qty,
            costing::max(most, 0),
            0,
        );
    }
}

// ---------------------------------------------------------------------------
// Laws
// ---------------------------------------------------------------------------

/// An opportunity is what its legs come to: each leg takes the cheapest contracts
/// that its book offers and is charged by its own venue at every price it takes
/// at; the capital is what all of them cost, the net what the guaranteed payoff
/// leaves over it.
pub proof fn an_opportunity_is_what_its_legs_come_to(
    models: &FeeModels,
    group: GroupView,
    legs: Seq<CandidateLeg>,
    quotes: costing::Quotes,
    config: SolverConfig,
    now_ms: u64,
    trade: OpportunityView,
)
    requires
        laws::quotes_wf(quotes, legs),
        costing::sizing_fits(models, config.max_position_size as int, legs.len() as int),
        costing::costed(models, group, legs, quotes, config, now_ms) == Ok::<
            OpportunityView,
            RejectReason,
        >(trade),
    ensures
        trade.group == group.id,
        trade.legs.len() == legs.len(),
        forall|i: int|
            0 <= i < legs.len() ==> {
                let leg = #[trigger] trade.legs[i];
                let book = quotes(legs[i].contract_id)->0;
                &&& leg.venue == legs[i].venue
                &&& leg.contract_id == legs[i].contract_id
                &&& leg.side == legs[i].side
                &&& leg.qty == trade.qty
                &&& leg.total_cost_cents == quote::cost_upto(
                    book,
                    leg.side,
                    trade.qty as int,
                    100,
                )
                &&& leg.fee_cents == charge(models, legs[i], book, trade.qty as int)
            },
        trade.fees_cents == charges(trade.legs, trade.legs.len() as int),
        trade.capital_cents == premiums(trade.legs, trade.legs.len() as int) + charges(
            trade.legs,
            trade.legs.len() as int,
        ),
        trade.gross_cents == trade.guaranteed_payoff_cents - premiums(
            trade.legs,
            trade.legs.len() as int,
        ),
        trade.net_cents == trade.guaranteed_payoff_cents - trade.capital_cents,
        trade.net_cents == trade.gross_cents - trade.fees_cents,
{
    let most = config.max_position_size as int;
    let n = legs.len() as int;
    let ladders = costing::ladders_of(quotes, legs, most);
    let payoff = costing::worst_payoff(group.relation.states(), legs);
    let cap = costing::thinnest(ladders, most);
    let q = costing::best_quantity(models, legs, ladders, payoff, cap);
    lemma_chosen(models, group, legs, quotes, config, now_ms, trade);
    assert forall|i: int| 0 <= i < ladders.len() implies costing::ladder_wf(
        #[trigger] ladders[i],
    ) by {
        lemma_leg(models, legs, quotes, most, q, i);
    }
    lemma_sums(models, legs, ladders, q, n, most);
    assert forall|i: int| 0 <= i < legs.len() implies {
        let leg = #[trigger] trade.legs[i];
        let book = quotes(legs[i].contract_id)->0;
        &&& leg.total_cost_cents == quote::cost_upto(book, leg.side, q, 100)
        &&& leg.fee_cents == charge(models, legs[i], book, q)
    } by {
        lemma_leg(models, legs, quotes, most, q, i);
    }
}

/// The quantity of a trade is the best one inside the cap, and its figures are
/// those of that quantity.
proof fn lemma_chosen(
    models: &FeeModels,
    group: GroupView,
    legs: Seq<CandidateLeg>,
    quotes: costing::Quotes,
    config: SolverConfig,
    now_ms: u64,
    trade: OpportunityView,
)
    requires
        laws::quotes_wf(quotes, legs),
        costing::sizing_fits(models, config.max_position_size as int, legs.len() as int),
        costing::costed(models, group, legs, quotes, config, now_ms) == Ok::<
            OpportunityView,
            RejectReason,
        >(trade),
    ensures
        all_quoted(legs, quotes),
        ({
            let most = config.max_position_size as int;
            let ladders = costing::ladders_of(quotes, legs, most);
            let payoff = costing::worst_payoff(group.relation.states(), legs);
            let cap = costing::thinnest(ladders, most);
            let q = costing::best_quantity(models, legs, ladders, payoff, cap);
            let cost = costing::cost_at(ladders, q, legs.len() as int);
            let fee = costing::fees_at(models, legs, ladders, q, legs.len() as int);
            &&& 1 <= q <= cap <= costing::max(most, 0)
            &&& q <= most
            &&& costing::is_best(models, legs, ladders, payoff, cap, q)
            &&& trade.qty == q
            &&& trade.legs == costing::filled_legs(models, legs, ladders, q)
            &&& trade.guaranteed_payoff_cents == payoff * q
            &&& trade.capital_cents == cost + fee
            &&& trade.gross_cents == payoff * q - cost
            &&& trade.fees_cents == fee
            &&& trade.net_cents == payoff * q - cost - fee
            &&& payoff > 0
        }),
{
    let most = config.max_position_size as int;
    let n = legs.len() as int;
    let ladders = costing::ladders_of(quotes, legs, most);
    let payoff = costing::worst_payoff(group.relation.states(), legs);
    let cap = costing::thinnest(ladders, most);
    let q = costing::best_quantity(models, legs, ladders, payoff, cap);
    assert forall|i: int| 0 <= i < legs.len() implies quotes(
        (#[trigger] legs[i]).contract_id,
    ) is Some by {}
    laws::lemma_best_exists(models, legs, ladders, payoff, cap);
    lemma_thinnest_is_least(ladders, most, cap);
    assert forall|i: int| 0 <= i < ladders.len() implies costing::ladder_wf(
        #[trigger] ladders[i],
    ) by {
        lemma_leg(models, legs, quotes, most, q, i);
    }
    costing::lemma_sizing(models, most, n, n, q);
    costing::lemma_position_bounds(models, legs, ladders, q, costing::max(most, 0), n);
    laws::lemma_worst_bound(group.relation.states(), legs);
    assert(0 <= payoff * q <= (100 * n) * q) by (nonlinear_arith)
        requires
            0 <= payoff <= 100 * n,
            q >= 0,
    ;
}

/// The guaranteed payoff of an opportunity is what its worst permitted resolution
/// pays: no resolution pays less, and one pays no more.
pub proof fn the_guarantee_is_the_worst_permitted_payoff(
    models: &FeeModels,
    group: GroupView,
    legs: Seq<CandidateLeg>,
    quotes: costing::Quotes,
    config: SolverConfig,
    now_ms: u64,
    trade: OpportunityView,
    yes: Set<ContractId>,
)
    requires
        laws::quotes_wf(quotes, legs),
        legs_among(legs, group.relation),
        costing::sizing_fits(models, config.max_position_size as int, legs.len() as int),
        costing::costed(models, group, legs, quotes, config, now_ms) == Ok::<
            OpportunityView,
            RejectReason,
        >(trade),
        detection::permits(group.relation, yes),
    ensures
        pays_out(legs, yes, legs.len() as int) * trade.qty >= trade.guaranteed_payoff_cents,
        exists|least: Set<ContractId>| #[trigger]
            detection::permits(group.relation, least) && pays_out(legs, least, legs.len() as int)
                * trade.qty == trade.guaranteed_payoff_cents,
{
    lemma_chosen(models, group, legs, quotes, config, now_ms, trade);
    lemma_guarantee(group.relation, legs, yes);
    let payoff = costing::worst_payoff(group.relation.states(), legs);
    let paid = pays_out(legs, yes, legs.len() as int);
    let q = trade.qty as int;
    assert(paid * q >= payoff * q) by (nonlinear_arith)
        requires
            paid >= payoff,
            q >= 0,
    ;
    let least = choose|least: Set<ContractId>| #[trigger]
        detection::permits(group.relation, least) && pays_out(legs, least, legs.len() as int)
            == payoff;
    assert(detection::permits(group.relation, least));
}

/// The quantity of an opportunity is within reach, and no quantity within reach
/// earns more; a smaller one earns less.
pub proof fn no_quantity_within_reach_earns_more(
    models: &FeeModels,
    group: GroupView,
    legs: Seq<CandidateLeg>,
    quotes: costing::Quotes,
    config: SolverConfig,
    now_ms: u64,
    trade: OpportunityView,
    payoff: int,
    qty: int,
)
    requires
        laws::quotes_wf(quotes, legs),
        costing::sizing_fits(models, config.max_position_size as int, legs.len() as int),
        costing::costed(models, group, legs, quotes, config, now_ms) == Ok::<
            OpportunityView,
            RejectReason,
        >(trade),
        payoff * trade.qty == trade.guaranteed_payoff_cents,
        within_reach(legs, quotes, config, qty),
    ensures
        within_reach(legs, quotes, config, trade.qty as int),
        payoff * qty - outlay(models, legs, quotes, qty, legs.len() as int) <= trade.net_cents,
        qty < trade.qty ==> payoff * qty - outlay(
            models,
            legs,
            quotes,
            qty,
            legs.len() as int,
        ) < trade.net_cents,
{
    lemma_chosen(models, group, legs, quotes, config, now_ms, trade);
    let most = config.max_position_size as int;
    let ladders = costing::ladders_of(quotes, legs, most);
    let per_unit = costing::worst_payoff(group.relation.states(), legs);
    let q = trade.qty as int;
    assert(payoff == per_unit) by (nonlinear_arith)
        requires
            payoff * q == per_unit * q,
            q > 0,
    ;
    lemma_cap(legs, quotes, config, qty, models);
    lemma_cap(legs, quotes, config, q, models);
    lemma_outlay(models, legs, quotes, most, qty, legs.len() as int);
    lemma_outlay(models, legs, quotes, most, q, legs.len() as int);
    let net = costing::net_at(models, legs, ladders, per_unit, qty);
    assert(net <= costing::net_at(models, legs, ladders, per_unit, q));
}

/// An annualized return, `net` on `capital` for `lockup_ms`, that is at least a
/// ratio, over a year of 365 days.
pub open spec fn earns(net: int, capital: int, lockup_ms: int, least: Ratio) -> bool {
    net * least.denom * 31_536_000_000 >= capital * least.numer * lockup_ms
}

/// How long capital is locked: until the group resolves, and an hour at least.
pub open spec fn is_lockup(resolves_at_ms: u64, now_ms: u64, lockup_ms: int) -> bool {
    &&& lockup_ms >= 3_600_000
    &&& now_ms + lockup_ms >= resolves_at_ms
    &&& lockup_ms == 3_600_000 || now_ms + lockup_ms == resolves_at_ms
}

proof fn lemma_lockup(resolves_at_ms: u64, now_ms: u64)
    ensures
        is_lockup(resolves_at_ms, now_ms, costing::horizon(resolves_at_ms, now_ms) as int),
{
}

/// An opportunity earns the configured edge and, over its own lockup, the
/// configured return.
pub proof fn an_opportunity_meets_the_thresholds(
    models: &FeeModels,
    group: GroupView,
    legs: Seq<CandidateLeg>,
    quotes: costing::Quotes,
    config: SolverConfig,
    now_ms: u64,
    trade: OpportunityView,
)
    requires
        laws::quotes_wf(quotes, legs),
        costing::sizing_fits(models, config.max_position_size as int, legs.len() as int),
        costing::costed(models, group, legs, quotes, config, now_ms) == Ok::<
            OpportunityView,
            RejectReason,
        >(trade),
    ensures
        trade.net_cents > 0,
        trade.net_cents >= config.min_net_edge_cents,
        is_lockup(group.resolves_at_ms, now_ms, trade.horizon_ms as int),
        earns(
            trade.net_cents as int,
            trade.capital_cents as int,
            trade.horizon_ms as int,
            config.min_annualized_return,
        ),
{
    lemma_chosen(models, group, legs, quotes, config, now_ms, trade);
    lemma_lockup(group.resolves_at_ms, now_ms);
}

/// Raising the return that is asked for drops exactly the trades that do not earn
/// it: a trade that is found when no return is asked for is found all the same
/// where it earns what is asked, and is otherwise refused for its return.
pub proof fn the_return_threshold_decides_exactly(
    models: &FeeModels,
    group: GroupView,
    legs: Seq<CandidateLeg>,
    quotes: costing::Quotes,
    config: SolverConfig,
    now_ms: u64,
)
    requires
        laws::quotes_wf(quotes, legs),
        costing::sizing_fits(models, config.max_position_size as int, legs.len() as int),
    ensures
        ({
            let asked = costing::costed(models, group, legs, quotes, config, now_ms);
            let free = costing::costed(
                models,
                group,
                legs,
                quotes,
                SolverConfig { min_annualized_return: Ratio { numer: 0, denom: 1 }, ..config },
                now_ms,
            );
            match free {
                Ok(trade) => asked == (if earns(
                    trade.net_cents as int,
                    trade.capital_cents as int,
                    trade.horizon_ms as int,
                    config.min_annualized_return,
                ) {
                    Ok::<OpportunityView, RejectReason>(trade)
                } else {
                    Err(RejectReason::BelowMinReturn)
                }),
                Err(reason) => asked == free && reason != RejectReason::BelowMinReturn,
            }
        }),
{
    let open = SolverConfig { min_annualized_return: Ratio { numer: 0, denom: 1 }, ..config };
    let free = costing::costed(models, group, legs, quotes, open, now_ms);
    let most = config.max_position_size as int;
    let n = legs.len() as int;
    let ladders = costing::ladders_of(quotes, legs, most);
    let payoff = costing::worst_payoff(group.relation.states(), legs);
    let cap = costing::thinnest(ladders, most);
    let q = costing::best_quantity(models, legs, ladders, payoff, cap);
    let trade = costing::position(models, group, legs, ladders, payoff, q, now_ms);
    assert((trade.capital_cents * 0) * trade.horizon_ms == 0) by (nonlinear_arith);
    if let Ok(found) = free {
        lemma_chosen(models, group, legs, quotes, open, now_ms, found);
    } else if free == Err::<OpportunityView, RejectReason>(RejectReason::BelowMinReturn) {
        assert(payoff > 0 && cap > 0);
        assert forall|i: int| 0 <= i < legs.len() implies quotes(
            (#[trigger] legs[i]).contract_id,
        ) is Some by {}
        laws::lemma_best_exists(models, legs, ladders, payoff, cap);
        lemma_thinnest_is_least(ladders, most, cap);
        assert forall|i: int| 0 <= i < ladders.len() implies costing::ladder_wf(
            #[trigger] ladders[i],
        ) by {
            lemma_leg(models, legs, quotes, most, q, i);
        }
        costing::lemma_sizing(models, most, n, n, q);
        costing::lemma_position_bounds(models, legs, ladders, q, costing::max(most, 0), n);
        laws::lemma_worst_bound(group.relation.states(), legs);
        assert(0 <= payoff * q <= (100 * n) * q) by (nonlinear_arith)
            requires
                0 <= payoff <= 100 * n,
                q >= 0,
        ;
        assert(trade.net_cents > 0);
        assert(false);
    }
}

/// The thresholds drop exactly the trades that do not meet them, the edge before
/// the return: a trade that is found when nothing is asked for is found all the
/// same where it meets both, and nothing else is refused for either.
pub proof fn the_thresholds_decide_exactly(
    models: &FeeModels,
    group: GroupView,
    legs: Seq<CandidateLeg>,
    quotes: costing::Quotes,
    config: SolverConfig,
    now_ms: u64,
)
    requires
        laws::quotes_wf(quotes, legs),
        costing::sizing_fits(models, config.max_position_size as int, legs.len() as int),
    ensures
        ({
            let asked = costing::costed(models, group, legs, quotes, config, now_ms);
            let free = costing::costed(
                models,
                group,
                legs,
                quotes,
                SolverConfig {
                    min_net_edge_cents: 0,
                    min_annualized_return: Ratio { numer: 0, denom: 1 },
                    ..config
                },
                now_ms,
            );
            match free {
                Ok(trade) => asked == (if trade.net_cents < config.min_net_edge_cents {
                    Err::<OpportunityView, RejectReason>(RejectReason::BelowMinEdge)
                } else if !earns(
                    trade.net_cents as int,
                    trade.capital_cents as int,
                    trade.horizon_ms as int,
                    config.min_annualized_return,
                ) {
                    Err(RejectReason::BelowMinReturn)
                } else {
                    Ok(trade)
                }),
                Err(reason) => asked == free && reason != RejectReason::BelowMinReturn && reason
                    != RejectReason::BelowMinEdge,
            }
        }),
{
    let open = SolverConfig { min_net_edge_cents: 0, ..config };
    let free = SolverConfig { min_annualized_return: Ratio { numer: 0, denom: 1 }, ..open };
    the_return_threshold_decides_exactly(models, group, legs, quotes, config, now_ms);
    the_return_threshold_decides_exactly(models, group, legs, quotes, open, now_ms);
    let found = costing::costed(models, group, legs, quotes, free, now_ms);
    if let Ok(trade) = found {
        lemma_chosen(models, group, legs, quotes, free, now_ms, trade);
    }
}

/// A candidate is refused for a fact about its legs, and for the first of these
/// that holds: some permitted resolution pays nothing, a leg has no book, no
/// quantity is within reach, none within reach earns anything.
pub proof fn a_candidate_is_refused_for_cause(
    models: &FeeModels,
    group: GroupView,
    legs: Seq<CandidateLeg>,
    quotes: costing::Quotes,
    config: SolverConfig,
    now_ms: u64,
    payoff: int,
    yes: Set<ContractId>,
)
    requires
        laws::quotes_wf(quotes, legs),
        legs_among(legs, group.relation),
        costing::sizing_fits(models, config.max_position_size as int, legs.len() as int),
        // What the worst permitted resolution pays.
        detection::permits(group.relation, yes),
        payoff == pays_out(legs, yes, legs.len() as int),
        forall|other: Set<ContractId>| #[trigger]
            detection::permits(group.relation, other) ==> payoff <= pays_out(
                legs,
                other,
                legs.len() as int,
            ),
    ensures
        ({
            let quoted = all_quoted(legs, quotes);
            let reachable = within_reach(legs, quotes, config, 1);
            let gain = exists|qty: int| #[trigger]
                within_reach(legs, quotes, config, qty) && payoff * qty > outlay(
                    models,
                    legs,
                    quotes,
                    qty,
                    legs.len() as int,
                );
            match costing::costed(models, group, legs, quotes, config, now_ms) {
                Err(RejectReason::PayoffNotGuaranteed) => payoff == 0,
                Err(RejectReason::MissingBook) => payoff > 0 && !quoted,
                Err(RejectReason::NoDepth) => payoff > 0 && quoted && !reachable,
                Err(RejectReason::FeesExceedGap) => payoff > 0 && quoted && reachable && !gain,
                Err(RejectReason::BelowMinEdge) => payoff > 0 && quoted && gain,
                Err(RejectReason::BelowMinReturn) => payoff > 0 && quoted && gain,
                Err(_) => false,
                Ok(_) => payoff > 0 && quoted && gain,
            }
        }),
{
    let most = config.max_position_size as int;
    let n = legs.len() as int;
    let ladders = costing::ladders_of(quotes, legs, most);
    let worst = costing::worst_payoff(group.relation.states(), legs);
    let cap = costing::thinnest(ladders, most);
    let q = costing::best_quantity(models, legs, ladders, worst, cap);
    lemma_guarantee(group.relation, legs, yes);
    let least = choose|least: Set<ContractId>| #[trigger]
        detection::permits(group.relation, least) && pays_out(legs, least, n) == worst;
    assert(detection::permits(group.relation, least));
    assert(worst == payoff);
    laws::lemma_worst_bound(group.relation.states(), legs);
    let unquoted = exists|i: int|
        0 <= i < legs.len() && quotes((#[trigger] legs[i]).contract_id) is None;
    assert(unquoted == !all_quoted(legs, quotes));
    if worst > 0 && !unquoted {
        lemma_cap(legs, quotes, config, 1, models);
        if cap > 0 {
            laws::lemma_best_exists(models, legs, ladders, worst, cap);
            lemma_cap(legs, quotes, config, q, models);
            assert(within_reach(legs, quotes, config, q));
            lemma_outlay(models, legs, quotes, most, q, n);
            if exists|qty: int| #[trigger]
                within_reach(legs, quotes, config, qty) && payoff * qty > outlay(
                    models,
                    legs,
                    quotes,
                    qty,
                    n,
                ) {
                let qty = choose|qty: int| #[trigger]
                    within_reach(legs, quotes, config, qty) && payoff * qty > outlay(
                        models,
                        legs,
                        quotes,
                        qty,
                        n,
                    );
                lemma_cap(legs, quotes, config, qty, models);
                lemma_outlay(models, legs, quotes, most, qty, n);
                assert(costing::net_at(models, legs, ladders, worst, qty) <= costing::net_at(
                    models,
                    legs,
                    ladders,
                    worst,
                    q,
                ));
            }
        }
    }
}

} // verus!
