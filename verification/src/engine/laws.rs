//! What holds of every decision the engine makes.
//!
//! - A planned trade passed every gate, and its orders are the legs the solver
//!   costed, all or nothing.
//! - Every opportunity is planned or counted under one named refusal.
//! - No live client is handed a plan without the opt-in, nor an inferred group
//!   without its own.
//! - A gap solves nothing and asks for a resync.
//! - A plan that meets the books it was made on fills on paper.
//! - A failed trade counts only against the venues that missed a leg.
use vstd::prelude::*;
use crate::book;
use crate::book::StoreView;
use crate::engine;
use crate::engine::{EngineMetrics, EngineView, PlanView, Verdict};
use crate::exec::atomic;
use crate::exec::paper;
use crate::exec::paper::PaperView;
use crate::exec::{OrderAction, OrderView, TimeInForce};
use crate::feed::EventView;
use crate::registry::{GroupId, RegistryView};
use crate::risk;
use crate::solver;
use crate::solver::costing;
use crate::solver::types::{Leg, OpportunityView};
use crate::types;
use crate::types::{BookView, ContractId, Venue, VENUE_COUNT};
use crate::verify;

verus! {

/// A plan that passed every gate of admission.
pub open spec fn passed(engine: EngineView, plan: PlanView, now_ms: u64) -> bool {
    let trade = plan.opportunity;
    &&& engine.reachable(trade, now_ms)
    &&& engine::event_of(engine.registry, trade.group) == Some(plan.event)
    &&& trade.capital_cents <= engine.portfolio.capital_available_cents
    &&& engine.portfolio.day_open()
    &&& risk::refusal(
        engine.portfolio,
        engine.registry,
        plan.event,
        risk::theme_of(engine.registry, plan.event),
        trade.capital_cents as int,
        engine.config.risk,
    ) is None
    &&& plan.timeout_ms == engine.config.atomic_timeout_ms
    &&& plan.legs.len() == trade.legs.len()
    &&& forall|i: int|
        0 <= i < plan.legs.len() ==> orders_leg(#[trigger] plan.legs[i], trade.legs[i])
}

/// An order that buys a leg, whole or not at all.
pub open spec fn orders_leg(order: OrderView, leg: Leg) -> bool {
    &&& order.contract_id == leg.contract_id
    &&& order.outcome == leg.side
    &&& order.quantity == leg.qty
    &&& order.action == OrderAction::Buy
    &&& order.time_in_force == TimeInForce::FillOrKill
}

proof fn lemma_planned_legs(
    registry: RegistryView,
    store: StoreView,
    group: GroupId,
    legs: Seq<Leg>,
    n: int,
    now_ms: u64,
)
    requires
        0 <= n <= legs.len(),
    ensures
        engine::planned_legs(registry, store, group, legs, n, now_ms) matches Some(orders) ==> {
            &&& orders.len() == n
            &&& forall|i: int|
                0 <= i < n ==> engine::planned_leg(
                    registry,
                    store,
                    group,
                    legs[i],
                    i,
                    now_ms,
                ) == Some(#[trigger] orders[i])
        },
    decreases n,
{
    if n > 0 {
        lemma_planned_legs(registry, store, group, legs, n - 1, now_ms);
    }
}

proof fn lemma_judged(
    engine: EngineView,
    opportunities: Seq<OpportunityView>,
    now_ms: u64,
    n: int,
)
    requires
        0 <= n <= opportunities.len(),
    ensures
        forall|k: int|
            0 <= k < engine.judged(opportunities, now_ms, n).1.len() ==> passed(
                engine,
                #[trigger] engine.judged(opportunities, now_ms, n).1[k],
                now_ms,
            ),
    decreases n,
{
    if n > 0 {
        lemma_judged(engine, opportunities, now_ms, n - 1);
        let before = engine.judged(opportunities, now_ms, n - 1).1;
        let after = engine.judged(opportunities, now_ms, n).1;
        let trade = opportunities[n - 1];
        lemma_planned_legs(
            engine.registry,
            engine.store,
            trade.group,
            trade.legs,
            trade.legs.len() as int,
            now_ms,
        );
        assert forall|k: int| 0 <= k < after.len() implies passed(
            engine,
            #[trigger] after[k],
            now_ms,
        ) by {
            if k < before.len() {
                assert(after[k] == before[k]);
            } else {
                let plan = after[k];
                assert(engine.verdict(trade, now_ms) == Verdict::Planned(plan));
                assert forall|i: int| 0 <= i < plan.legs.len() implies orders_leg(
                    #[trigger] plan.legs[i],
                    trade.legs[i],
                ) by {}
            }
        }
    }
}

/// A planned trade passed every gate: its venues are healthy, its event is
/// known, the capital is there, the day is open, and every limit is kept. Its
/// orders buy exactly the legs that were costed, whole or not at all.
pub proof fn a_planned_trade_passed_every_gate(
    engine: EngineView,
    opportunities: Seq<OpportunityView>,
    now_ms: u64,
)
    ensures
        forall|k: int|
            0 <= k < engine.admitted(opportunities, now_ms).1.len() ==> passed(
                engine,
                #[trigger] engine.admitted(opportunities, now_ms).1[k],
                now_ms,
            ),
{
    lemma_judged(engine, opportunities, now_ms, opportunities.len() as int);
}

/// Every refusal counted so far.
pub open spec fn refusals(metrics: EngineMetrics) -> int {
    metrics.blocked_unhealthy + metrics.blocked_unbound_contract + metrics.blocked_no_capital
        + metrics.blocked_risk_limit
}

/// No refusal counter is at its largest within `n` more.
pub open spec fn has_room(metrics: EngineMetrics, n: int) -> bool {
    &&& metrics.blocked_unhealthy + n <= u64::MAX
    &&& metrics.blocked_unbound_contract + n <= u64::MAX
    &&& metrics.blocked_no_capital + n <= u64::MAX
    &&& metrics.blocked_risk_limit + n <= u64::MAX
}

proof fn lemma_counted(
    engine: EngineView,
    opportunities: Seq<OpportunityView>,
    now_ms: u64,
    n: int,
    most: int,
)
    requires
        0 <= n <= most,
        has_room(engine.metrics, most),
    ensures
        ({
            let (after, plans) = engine.judged(opportunities, now_ms, n);
            &&& refusals(after) + plans.len() == refusals(engine.metrics) + n
            &&& has_room(after, most - n)
        }),
    decreases n,
{
    if n > 0 {
        lemma_counted(engine, opportunities, now_ms, n - 1, most);
    }
}

/// Every opportunity is planned or counted under one named refusal; none is
/// dropped in silence.
pub proof fn every_opportunity_is_planned_or_counted(
    engine: EngineView,
    opportunities: Seq<OpportunityView>,
    now_ms: u64,
)
    requires
        has_room(engine.metrics, opportunities.len() as int),
    ensures
        ({
            let (after, plans) = engine.admitted(opportunities, now_ms);
            refusals(after.metrics) + plans.len() == refusals(engine.metrics)
                + opportunities.len()
        }),
{
    let n = opportunities.len() as int;
    lemma_counted(engine, opportunities, now_ms, n, n);
}

proof fn lemma_releasing(engine: EngineView, plans: Seq<PlanView>, live: bool, n: int)
    requires
        0 <= n <= plans.len(),
    ensures
        forall|k: int|
            0 <= k < engine.releasing(plans, live, n).1.len() ==> !engine.withheld(
                #[trigger] engine.releasing(plans, live, n).1[k],
                live,
            ),
        !live ==> engine.releasing(plans, live, n).1 == plans.subrange(0, n),
    decreases n,
{
    if n > 0 {
        lemma_releasing(engine, plans, live, n - 1);
        let before = engine.releasing(plans, live, n - 1).1;
        let after = engine.releasing(plans, live, n).1;
        assert forall|k: int| 0 <= k < after.len() implies !engine.withheld(
            #[trigger] after[k],
            live,
        ) by {
            if k < before.len() {
                assert(after[k] == before[k]);
            }
        }
        if !live {
            assert(after =~= plans.subrange(0, n));
        }
    } else {
        assert(plans.subrange(0, 0) =~= Seq::<PlanView>::empty());
    }
}

/// A live client is handed nothing without the opt-in, and no plan on an
/// inferred group without the opt-in for those. A client that cannot spend
/// money is handed every plan.
pub proof fn live_orders_need_their_opt_ins(engine: EngineView, plans: Seq<PlanView>)
    ensures
        !engine.config.allow_live_orders ==> engine.released(plans, true).1.len() == 0,
        !engine.config.allow_inferred_live_orders ==> forall|k: int|
            0 <= k < engine.released(plans, true).1.len() ==> !engine.inferred(
                #[trigger] engine.released(plans, true).1[k],
            ),
        engine.released(plans, false).1 == plans,
{
    lemma_releasing(engine, plans, true, plans.len() as int);
    lemma_releasing(engine, plans, false, plans.len() as int);
    assert(plans.subrange(0, plans.len() as int) =~= plans);
    if !engine.config.allow_inferred_live_orders {
        let out = engine.released(plans, true).1;
        assert forall|k: int| 0 <= k < out.len() implies !engine.inferred(#[trigger] out[k]) by {
            assert(!engine.withheld(out[k], true));
        }
    }
}

/// A gap solves nothing and asks for a resync of its own venue: no opportunity
/// comes out of a book that may be wrong.
pub proof fn a_gap_solves_nothing(engine: EngineView, event: EventView, now_ms: u64)
    requires
        engine.store.applied(event, now_ms).1 is Gap,
    ensures
        engine.stepped(event, now_ms).1.len() == 0,
        engine.stepped(event, now_ms).0.resync_pending is Some,
        engine.stepped(event, now_ms).0.resync_pending == engine.store.venue_of(event),
        engine.stepped(event, now_ms).0.solver == engine.solver,
{
}

/// Events that differ only in the venue's timestamps are decided alike.
pub proof fn venue_timestamps_decide_nothing(
    engine: EngineView,
    a: EventView,
    b: EventView,
    now_ms: u64,
)
    requires
        verify::alike(a, b),
    ensures
        engine.stepped(a, now_ms) == engine.stepped(b, now_ms),
{
    assert(engine.store.applied(a, now_ms) == engine.store.applied(b, now_ms));
    assert(engine.received(a, now_ms) == engine.received(b, now_ms));
}

/// The books of a store stand under their own numbers.
pub open spec fn positional(store: StoreView) -> bool {
    forall|i: int|
        0 <= i < store.books.len() ==> (#[trigger] store.books[i]).contract_id == ContractId(
            i as u32,
        ) && i <= u32::MAX
}

proof fn lemma_book_of(books: Seq<BookView>, from: int, at: int)
    requires
        0 <= from <= at < books.len(),
        forall|i: int|
            0 <= i < books.len() ==> (#[trigger] books[i]).contract_id == ContractId(i as u32) && i
                <= u32::MAX,
    ensures
        paper::book_of(
            books.subrange(from, books.len() as int),
            ContractId(at as u32),
        ) == Some(books[at]),
    decreases at - from,
{
    let part = books.subrange(from, books.len() as int);
    assert(part[0] == books[from]);
    if from < at {
        lemma_book_of(books, from + 1, at);
        assert(part.subrange(1, part.len() as int) =~= books.subrange(
            from + 1,
            books.len() as int,
        ));
    }
}

/// A planned leg that meets the books it was planned on fills on paper, for the
/// whole quantity and within its limit, wherever those books hold that many
/// contracts: the limit never refuses the very fill that was costed.
pub proof fn a_planned_leg_fills_on_paper(
    registry: RegistryView,
    store: StoreView,
    group: GroupId,
    leg: Leg,
    index: int,
    now_ms: u64,
    client: PaperView,
)
    requires
        store.wf(),
        positional(store),
        client.books == store.books,
        leg.qty > 0,
        leg.qty * 100 <= i64::MAX,
        engine::planned_leg(registry, store, group, leg, index, now_ms) is Some,
        leg.qty <= costing::depth(
            costing::asks_for(store.books[leg.contract_id.0 as int], leg.side),
        ),
    ensures
        ({
            let order = engine::planned_leg(registry, store, group, leg, index, now_ms)->0;
            client.answer(order) matches Ok(fill) && fill.quantity_filled == leg.qty
                && fill.contract_id == leg.contract_id && fill.outcome == leg.side
                && fill.average_price <= order.limit_price
        }),
{
    let order = engine::planned_leg(registry, store, group, leg, index, now_ms)->0;
    let at = leg.contract_id.0 as int;
    let book = store.books[at];
    assert(book.wf());
    assert(store.books.subrange(0, store.books.len() as int) =~= store.books);
    lemma_book_of(store.books, 0, at);
    types::lemma_offered(book.no, 100);
    types::lemma_offered(book.yes, 100);
    let asks = costing::asks_for(book, leg.side);
    let want = leg.qty as int;
    costing::lemma_walked(asks, want);
    let ladder = costing::walked(asks, want);
    if costing::depth(ladder) < want {
        assert(ladder == asks);
    }
    costing::lemma_walked_ascending(asks, want);
    costing::lemma_worst_bounds_premium(ladder, want, None);
    costing::lemma_premium_bounds(ladder, want);
    let cost = costing::premium(ladder, want);
    let limit = order.limit_price as int;
    assert(0 <= cost / want <= limit) by (nonlinear_arith)
        requires
            0 <= cost <= want * limit,
            0 < want,
    ;
    assert(cost / want <= cost) by (nonlinear_arith)
        requires
            0 <= cost,
            0 < want,
    ;
}

/// One venue's miss never costs the other its health: a trade that failed leaves
/// the record of a venue as it was where every leg on that venue filled, and of
/// a venue that had no leg.
pub proof fn a_venue_that_filled_its_legs_is_not_blamed(
    engine: EngineView,
    plan: PlanView,
    error: atomic::ExecutionErrorView,
    now_ms: u64,
    venue: Venue,
)
    requires
        engine.health.venues.len() == VENUE_COUNT,
        forall|i: int|
            0 <= i < plan.opportunity.legs.len() && (#[trigger] plan.opportunity.legs[i]).venue
                == venue ==> engine::is_filled(
                plan.opportunity.legs[i],
                engine::known_fills(error),
            ),
    ensures
        engine.settled(plan, Err(error), now_ms).0.health.of(venue) == engine.health.of(venue),
{
    let fills = engine::known_fills(error);
    assert(!engine::missed_on(plan, fills, venue));
    assert(error is NoFills ==> fills =~= Seq::empty());
}

} // verus!
