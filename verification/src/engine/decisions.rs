//! What the engine decides, said of books, records and fills.
//!
//! - The limit of an order is the least price that fills what was costed.
//! - Two orders never share an idempotency key.
//! - An opportunity is planned exactly where its venues were heard from, its event
//!   is known, the cash is there, the limits hold, and every leg can be ordered.
//! - A trade that filled becomes one position that cost what the fills cost.
use vstd::prelude::*;
use crate::book;
use crate::book::{Applied, StoreView};
use crate::engine;
use crate::engine::{EngineMetrics, EngineView, PlanView, Verdict};
use crate::exec::atomic;
use crate::exec::{FillView, OrderAction, OrderView, TimeInForce};
use crate::feed::EventView;
use crate::fees;
use crate::health;
use crate::portfolio::PortfolioView;
use crate::quote;
use crate::registry::{EventId, GroupId, RegistryView};
use crate::risk;
use crate::solver;
use crate::solver::costing;
use crate::solver::emission;
use crate::solver::types::{Leg, OpportunityView};
use crate::tally;
use crate::text;
use crate::types;
use crate::types::{BookView, ContractId, Side, Venue};

verus! {

// ---------------------------------------------------------------------------
// Orders
// ---------------------------------------------------------------------------

/// A leg whose contract is bound and whose book offers anything of it.
pub open spec fn orderable(registry: RegistryView, store: StoreView, leg: Leg) -> bool {
    &&& registry.bindings.contains_key(leg.contract_id.0)
    &&& leg.contract_id.0 < store.books.len()
    &&& leg.qty > 0
    &&& quote::offered_upto(store.books[leg.contract_id.0 as int], leg.side, 100) > 0
}

/// An order that takes what was costed and no worse: it buys the leg's outcome on
/// the leg's contract, under the venue's own name for it, for the whole quantity
/// or nothing, and its limit is the lowest price up to which the book offers that
/// many.
pub open spec fn orders(
    registry: RegistryView,
    store: StoreView,
    leg: Leg,
    order: OrderView,
) -> bool {
    &&& order.contract_id == leg.contract_id
    &&& order.ticker == registry.bindings[leg.contract_id.0].venue_ticker
    &&& order.outcome == leg.side
    &&& order.action == OrderAction::Buy
    &&& order.quantity == leg.qty
    &&& order.time_in_force == TimeInForce::FillOrKill
    &&& quote::is_reach(
        store.books[leg.contract_id.0 as int],
        leg.side,
        leg.qty as int,
        order.limit_price as int,
    )
}

/// A leg becomes an order exactly where it can be ordered. Offers at or below the
/// limit hold the quantity, wherever the book holds it at all, and offers strictly
/// below hold fewer.
pub proof fn a_limit_is_the_least_price_that_fills(
    registry: RegistryView,
    store: StoreView,
    group: GroupId,
    leg: Leg,
    index: int,
    now_ms: u64,
)
    requires
        store.wf(),
    ensures
        match engine::planned_leg(registry, store, group, leg, index, now_ms) {
            Some(order) => orderable(registry, store, leg) && orders(registry, store, leg, order)
                && quote::offered_upto(
                store.books[leg.contract_id.0 as int],
                leg.side,
                order.limit_price - 1,
            ) < leg.qty && (leg.qty <= quote::offered_upto(
                store.books[leg.contract_id.0 as int],
                leg.side,
                100,
            ) ==> quote::offered_upto(
                store.books[leg.contract_id.0 as int],
                leg.side,
                order.limit_price as int,
            ) >= leg.qty),
            None => !orderable(registry, store, leg),
        },
{
    let at = leg.contract_id.0 as int;
    if registry.bindings.contains_key(leg.contract_id.0) && at < store.books.len() {
        let book = store.books[at];
        assert(book.wf());
        let want = leg.qty as int;
        let offers = costing::asks_for(book, leg.side);
        let kalshi = fees::KalshiFees { multiplier_numer: 1, multiplier_denom: 1 };
        quote::lemma_offers(&kalshi, leg.contract_id, book, leg.side, want);
        quote::lemma_upto_nonneg(book, leg.side, 100);
        if want > 0 {
            quote::lemma_walked_alike(&kalshi, leg.contract_id, offers, want, want, None);
            if let Some(order) = engine::planned_leg(registry, store, group, leg, index, now_ms) {
                let limit = order.limit_price as int;
                if quote::offered_upto(book, leg.side, limit) < want {
                    quote::lemma_flat(book, leg.side, limit, 100);
                }
                quote::lemma_upto_rises(book, leg.side, limit, 100);
                quote::lemma_upto_nonneg(book, leg.side, limit - 1);
            }
        } else {
            let ladder = costing::walked(offers, want);
            assert(costing::worst_price(ladder, 0, None) is None);
        }
    }
}

proof fn lemma_split(a: Seq<char>, b: Seq<char>, r: Seq<char>, s: Seq<char>)
    requires
        text::all_digits(a),
        text::all_digits(b),
        a + seq!['-'] + r == b + seq!['-'] + s,
    ensures
        a == b,
        r == s,
{
    let left = a + seq!['-'] + r;
    let right = b + seq!['-'] + s;
    if a.len() < b.len() {
        assert(left[a.len() as int] == '-');
        assert(right[a.len() as int] == b[a.len() as int]);
    } else if b.len() < a.len() {
        assert(right[b.len() as int] == '-');
        assert(left[b.len() as int] == a[b.len() as int]);
    }
    assert(a.len() == b.len());
    assert forall|i: int| 0 <= i < a.len() implies a[i] == b[i] by {
        assert(left[i] == right[i]);
    }
    assert(a =~= b);
    assert(left.len() == right.len());
    assert forall|i: int| 0 <= i < r.len() implies r[i] == s[i] by {
        assert(left[a.len() + 1 + i] == right[a.len() + 1 + i]);
    }
    assert(r =~= s);
}

/// The idempotency key of an order names its group, its instant and its leg, and
/// nothing else has the same key: a retry cannot be taken for another order.
pub proof fn no_two_orders_share_a_key(
    group: GroupId,
    now_ms: u64,
    index: nat,
    other_group: GroupId,
    other_ms: u64,
    other_index: nat,
)
    ensures
        engine::order_key(group, now_ms, index as int) == engine::order_key(
            other_group,
            other_ms,
            other_index as int,
        ) <==> (group == other_group && now_ms == other_ms && index == other_index),
{
    let a = engine::order_key(group, now_ms, index as int);
    let b = engine::order_key(other_group, other_ms, other_index as int);
    if a == b {
        reveal_strlit("sum100-");
        reveal_strlit("-");
        let (g, h) = (text::decimal(group.0 as nat), text::decimal(other_group.0 as nat));
        let (t, u) = (text::decimal(now_ms as nat), text::decimal(other_ms as nat));
        let (i, j) = (text::decimal(index), text::decimal(other_index));
        text::a_written_number_reads_back(group.0 as nat);
        text::a_written_number_reads_back(other_group.0 as nat);
        text::a_written_number_reads_back(now_ms as nat);
        text::a_written_number_reads_back(other_ms as nat);
        text::a_written_number_reads_back(index);
        text::a_written_number_reads_back(other_index);
        let dash = seq!['-'];
        assert("-"@ =~= dash);
        let head = "sum100-"@;
        assert(a =~= head + (g + dash + (t + dash + i)));
        assert(b =~= head + (h + dash + (u + dash + j)));
        assert(a.skip(head.len() as int) =~= g + dash + (t + dash + i));
        assert(b.skip(head.len() as int) =~= h + dash + (u + dash + j));
        lemma_split(g, h, t + dash + i, u + dash + j);
        lemma_split(t, u, i, j);
    }
}

// ---------------------------------------------------------------------------
// Admission
// ---------------------------------------------------------------------------

/// The event that a group stands under, by the binding of its first member.
pub open spec fn stands_under(registry: RegistryView, group: GroupId, event: EventId) -> bool {
    &&& group.0 < registry.groups.len()
    &&& registry.groups[group.0 as int].relation.members().len() > 0
    &&& registry.bindings.contains_key(registry.groups[group.0 as int].relation.members()[0].0)
    &&& registry.bindings[registry.groups[group.0 as int].relation.members()[0].0].event == event
}

/// Every venue that an opportunity needs is healthy and was heard from lately.
pub open spec fn all_heard(engine: EngineView, trade: OpportunityView, now_ms: u64) -> bool {
    forall|i: int|
        0 <= i < trade.legs.len() ==> health::laws::heard_lately(
            engine.health,
            (#[trigger] trade.legs[i]).venue,
            now_ms,
        )
}

/// Every leg can be ordered.
pub open spec fn all_orderable(engine: EngineView, trade: OpportunityView) -> bool {
    forall|i: int|
        0 <= i < trade.legs.len() ==> orderable(
            engine.registry,
            engine.store,
            #[trigger] trade.legs[i],
        )
}

/// A plan for a trade: the trade itself, its event, and an order for each leg.
pub open spec fn plans(
    engine: EngineView,
    trade: OpportunityView,
    event: EventId,
    plan: PlanView,
) -> bool {
    &&& plan.opportunity == trade
    &&& plan.event == event
    &&& plan.timeout_ms == engine.config.atomic_timeout_ms
    &&& plan.legs.len() == trade.legs.len()
    &&& forall|i: int|
        0 <= i < trade.legs.len() ==> orders(
            engine.registry,
            engine.store,
            trade.legs[i],
            #[trigger] plan.legs[i],
        )
    &&& forall|i: int, j: int|
        0 <= i < j < plan.legs.len() ==> (#[trigger] plan.legs[i]).client_order_id != (
        #[trigger] plan.legs[j]).client_order_id
}

proof fn lemma_planned(
    registry: RegistryView,
    store: StoreView,
    group: GroupId,
    legs: Seq<Leg>,
    n: int,
    now_ms: u64,
)
    requires
        0 <= n <= legs.len(),
        store.wf(),
    ensures
        match engine::planned_legs(registry, store, group, legs, n, now_ms) {
            Some(made) => made.len() == n && forall|i: int|
                0 <= i < n ==> orderable(registry, store, legs[i]) && orders(
                    registry,
                    store,
                    legs[i],
                    #[trigger] made[i],
                ) && made[i].client_order_id == engine::order_key(group, now_ms, i),
            None => exists|i: int| 0 <= i < n && !orderable(registry, store, #[trigger] legs[i]),
        },
    decreases n,
{
    if n > 0 {
        lemma_planned(registry, store, group, legs, n - 1, now_ms);
        a_limit_is_the_least_price_that_fills(registry, store, group, legs[n - 1], n - 1, now_ms);
    }
}

/// An opportunity is planned exactly where every gate lets it through, and is
/// otherwise counted under the first that does not: its venues, its event, the
/// cash and the day, the limits, and the orders of its legs.
pub proof fn an_opportunity_is_planned_exactly_where_it_may_be(
    engine: EngineView,
    trade: OpportunityView,
    event: EventId,
    now_ms: u64,
)
    requires
        engine.store.wf(),
        engine.health.venues.len() == 2,
    ensures
        ({
            let (after, made) = engine.admitted(seq![trade], now_ms);
            let before = engine.metrics;
            let funded = trade.capital_cents <= engine.portfolio.capital_available_cents
                && engine.portfolio.daily_loss_realized_cents
                < engine.portfolio.daily_loss_limit_cents;
            let limited = risk::refusal(
                engine.portfolio,
                engine.registry,
                event,
                risk::theme_of(engine.registry, event),
                trade.capital_cents as int,
                engine.config.risk,
            ) is Some;
            &&& !all_heard(engine, trade, now_ms) ==> made.len() == 0 && after.metrics
                == (EngineMetrics {
                blocked_unhealthy: crate::solver::types::bumped(before.blocked_unhealthy),
                ..before
            })
            &&& all_heard(engine, trade, now_ms) && stands_under(
                engine.registry,
                trade.group,
                event,
            ) ==> {
                &&& !funded ==> made.len() == 0 && after.metrics == (EngineMetrics {
                    blocked_no_capital: crate::solver::types::bumped(before.blocked_no_capital),
                    ..before
                })
                &&& funded && limited ==> made.len() == 0 && after.metrics == (EngineMetrics {
                    blocked_risk_limit: crate::solver::types::bumped(before.blocked_risk_limit),
                    ..before
                })
                &&& funded && !limited && !all_orderable(engine, trade) ==> made.len() == 0
                    && after.metrics == (EngineMetrics {
                    blocked_unbound_contract: crate::solver::types::bumped(
                        before.blocked_unbound_contract,
                    ),
                    ..before
                })
                &&& funded && !limited && all_orderable(engine, trade) ==> made.len() == 1
                    && plans(engine, trade, event, made[0]) && after.metrics == before
            }
            &&& all_heard(engine, trade, now_ms) && (forall|e: EventId|
                !stands_under(engine.registry, trade.group, e)) ==> made.len() == 0
                && after.metrics == (EngineMetrics {
                blocked_unbound_contract: crate::solver::types::bumped(
                    before.blocked_unbound_contract,
                ),
                ..before
            })
            &&& after.portfolio == engine.portfolio
            &&& after.store == engine.store
            &&& after.registry == engine.registry
            &&& after.solver == engine.solver
            &&& after.config == engine.config
        }),
{
    let one = seq![trade];
    assert(engine.judged(one, now_ms, 0) == (engine.metrics, Seq::<PlanView>::empty()));
    assert(one[0] == trade);
    let verdict = engine.verdict(trade, now_ms);
    assert forall|i: int| 0 <= i < trade.legs.len() implies engine.health.tradeable(
        (#[trigger] trade.legs[i]).venue,
        now_ms,
    ) == health::laws::heard_lately(engine.health, trade.legs[i].venue, now_ms) by {
        health::laws::a_venue_trades_while_it_is_heard_from(
            engine.health,
            trade.legs[i].venue,
            now_ms,
        );
    }
    assert(engine.reachable(trade, now_ms) == all_heard(engine, trade, now_ms)) by {
        if engine.reachable(trade, now_ms) {
            assert forall|i: int| 0 <= i < trade.legs.len() implies health::laws::heard_lately(
                engine.health,
                (#[trigger] trade.legs[i]).venue,
                now_ms,
            ) by {
                assert(engine.health.tradeable(trade.legs[i].venue, now_ms));
            }
        }
        if all_heard(engine, trade, now_ms) {
            assert forall|i: int| 0 <= i < trade.legs.len() implies engine.health.tradeable(
                (#[trigger] trade.legs[i]).venue,
                now_ms,
            ) by {}
        }
    }
    lemma_planned(
        engine.registry,
        engine.store,
        trade.group,
        trade.legs,
        trade.legs.len() as int,
        now_ms,
    );
    if let Some(found) = engine::event_of(engine.registry, trade.group) {
        assert(stands_under(engine.registry, trade.group, found));
    }
    if let Verdict::Planned(plan) = verdict {
        let made = engine.judged(one, now_ms, 1).1;
        assert(made[0] == plan);
        assert forall|i: int, j: int| 0 <= i < j < plan.legs.len() implies (
        #[trigger] plan.legs[i]).client_order_id != (#[trigger] plan.legs[j]).client_order_id by {
            no_two_orders_share_a_key(
                trade.group,
                now_ms,
                i as nat,
                trade.group,
                now_ms,
                j as nat,
            );
        }
        assert(all_orderable(engine, trade)) by {
            assert forall|i: int| 0 <= i < trade.legs.len() implies orderable(
                engine.registry,
                engine.store,
                #[trigger] trade.legs[i],
            ) by {
                assert(orders(engine.registry, engine.store, trade.legs[i], plan.legs[i]));
            }
        }
    }
}

proof fn lemma_judged_split(
    engine: EngineView,
    first: Seq<OpportunityView>,
    second: Seq<OpportunityView>,
    now_ms: u64,
    n: int,
)
    requires
        0 <= n <= second.len(),
    ensures
        ({
            let all = first + second;
            let half = engine.judged(first, now_ms, first.len() as int);
            let rest = engine.counting(half.0).judged(second, now_ms, n);
            engine.judged(all, now_ms, first.len() + n) == (rest.0, half.1 + rest.1)
        }),
    decreases n,
{
    let all = first + second;
    if n == 0 {
        lemma_judged_prefix(engine, all, first, now_ms, first.len() as int);
        let half = engine.judged(first, now_ms, first.len() as int);
        assert(half.1 + Seq::<PlanView>::empty() =~= half.1);
    } else {
        lemma_judged_split(engine, first, second, now_ms, n - 1);
        assert(all[first.len() + n - 1] == second[n - 1]);
        let half = engine.judged(first, now_ms, first.len() as int);
        let other = engine.counting(half.0);
        assert(engine.verdict(second[n - 1], now_ms) == other.verdict(second[n - 1], now_ms));
        let before = other.judged(second, now_ms, n - 1).1;
        let after = other.judged(second, now_ms, n).1;
        if let Verdict::Planned(plan) = engine.verdict(second[n - 1], now_ms) {
            assert((half.1 + before).push(plan) =~= half.1 + after);
        }
    }
}

proof fn lemma_judged_prefix(
    engine: EngineView,
    a: Seq<OpportunityView>,
    b: Seq<OpportunityView>,
    now_ms: u64,
    n: int,
)
    requires
        0 <= n <= a.len(),
        n <= b.len(),
        forall|i: int| 0 <= i < n ==> #[trigger] a[i] == b[i],
    ensures
        engine.judged(a, now_ms, n) == engine.judged(b, now_ms, n),
    decreases n,
{
    if n > 0 {
        lemma_judged_prefix(engine, a, b, now_ms, n - 1);
        assert(a[n - 1] == b[n - 1]);
    }
}

/// Opportunities are judged one by one, in order: judging two lists in turn makes
/// the plans and the counts that judging them as one list makes.
pub proof fn opportunities_are_judged_in_order(
    engine: EngineView,
    first: Seq<OpportunityView>,
    second: Seq<OpportunityView>,
    now_ms: u64,
)
    ensures
        ({
            let (half, some) = engine.admitted(first, now_ms);
            let (last, more) = engine.counting(half.metrics).admitted(second, now_ms);
            let (after, all) = engine.admitted(first + second, now_ms);
            all == some + more && after.metrics == last.metrics
        }),
{
    lemma_judged_split(engine, first, second, now_ms, second.len() as int);
    let half = engine.judged(first, now_ms, first.len() as int);
    let none = Seq::<PlanView>::empty();
    if first.len() == 0 {
        assert(first + second =~= second);
        assert(half.1 =~= none);
        assert(engine.counting(engine.metrics) =~= engine);
        assert(none + engine.admitted(second, now_ms).1 =~= engine.admitted(second, now_ms).1);
    }
    if second.len() == 0 {
        assert(first + second =~= first);
        assert(half.1 + none =~= half.1);
        assert(engine.admitted(first, now_ms).1 + none =~= engine.admitted(first, now_ms).1);
    }
}

// ---------------------------------------------------------------------------
// Settlement of a trade
// ---------------------------------------------------------------------------

/// What the fills of a trade cost: premium and fee of each.
pub open spec fn fills_cost(fills: Seq<FillView>) -> int {
    tally::total(
        fills.len() as int,
        |k: int| fills[k].quantity_filled * fills[k].average_price + fills[k].fee_cents,
    )
}

proof fn lemma_fills(fills: Seq<FillView>, n: int)
    requires
        0 <= n <= fills.len(),
    ensures
        atomic::total_cost(fills, n) == tally::total(
            n,
            |k: int| fills[k].quantity_filled * fills[k].average_price + fills[k].fee_cents,
        ),
        engine::fees_paid(fills, n) == tally::total(n, |k: int| fills[k].fee_cents as int),
    decreases n,
{
    if n > 0 {
        lemma_fills(fills, n - 1);
    }
}

/// A trade that filled is one more open position, where the portfolio can take
/// it: a leg for each fill, at what the fills cost, fees included. Where it
/// cannot, nothing is held and somebody has to reconcile.
pub proof fn a_filled_trade_becomes_its_position(
    engine: EngineView,
    plan: PlanView,
    fills: Seq<FillView>,
    now_ms: u64,
)
    requires
        engine::fills_fit(fills),
        fees::fits(engine.portfolio.capital_available_cents - fills_cost(fills)),
    ensures
        ({
            let (after, signal) = engine.settled(plan, Ok(fills), now_ms);
            let held = engine.portfolio;
            let taken = held.daily_loss_realized_cents < held.daily_loss_limit_cents && fills_cost(
                fills,
            ) <= held.capital_available_cents;
            &&& after.health == engine.health && after.store == engine.store && after.registry
                == engine.registry && after.solver == engine.solver
            &&& !taken ==> after.portfolio == held && signal is None && after.metrics
                == (EngineMetrics {
                trades_needing_reconciliation: crate::solver::types::bumped(
                    engine.metrics.trades_needing_reconciliation,
                ),
                ..engine.metrics
            })
            &&& taken ==> {
                let position = after.portfolio.positions.last();
                &&& after.portfolio.positions.drop_last() == held.positions
                &&& after.portfolio.capital_available_cents == held.capital_available_cents
                    - fills_cost(fills)
                &&& after.portfolio == (PortfolioView {
                    capital_available_cents: after.portfolio.capital_available_cents,
                    positions: after.portfolio.positions,
                    ..held
                })
                &&& position.event_id == plan.event
                &&& position.group == plan.opportunity.group.0
                &&& position.cost_cents == fills_cost(fills)
                &&& position.fees_cents == tally::total(
                    fills.len() as int,
                    |k: int| fills[k].fee_cents as int,
                )
                &&& position.entry_time_ms == now_ms
                &&& !position.resolved
                &&& position.pnl_realized_cents == 0 && position.pnl_unrealized_cents == 0
                &&& position.legs.len() == fills.len()
                &&& forall|i: int|
                    0 <= i < fills.len() ==> {
                        let leg = #[trigger] position.legs[i];
                        &&& leg.contract_id == fills[i].contract_id
                        &&& leg.side == fills[i].outcome
                        &&& leg.quantity == fills[i].quantity_filled
                        &&& leg.average_entry_price == fills[i].average_price
                        &&& leg.order_ids == seq![fills[i].order_id]
                    }
                &&& after.metrics == (EngineMetrics {
                    trades_placed: crate::solver::types::bumped(engine.metrics.trades_placed),
                    signals_accepted: crate::solver::types::bumped(
                        engine.metrics.signals_accepted,
                    ),
                    ..engine.metrics
                })
                &&& signal matches Some(signal) && signal.filled_cost_cents == fills_cost(fills)
                    && signal.detected_at_ms == now_ms && signal.group
                    == plan.opportunity.group.0 && signal.qty == plan.opportunity.qty
                    && signal.capital_cents == plan.opportunity.capital_cents
                    && signal.fees_cents == plan.opportunity.fees_cents && signal.net_cents
                    == plan.opportunity.net_cents && signal.horizon_ms
                    == plan.opportunity.horizon_ms && signal.order_ids.len() == fills.len() && (
                forall|i: int|
                    0 <= i < fills.len() ==> #[trigger] signal.order_ids[i] == fills[i].order_id)
                    && signal.legs.len() == plan.opportunity.legs.len() && forall|i: int|
                    0 <= i < signal.legs.len() ==> {
                        let shown = #[trigger] signal.legs[i];
                        let leg = plan.opportunity.legs[i];
                        &&& shown.venue == leg.venue
                        &&& shown.contract == leg.contract_id.0
                        &&& shown.side == (if leg.side == Side::Yes {
                            "yes"@
                        } else {
                            "no"@
                        })
                        &&& shown.qty == leg.qty
                        &&& shown.cost_cents == leg.total_cost_cents
                        &&& shown.fee_cents == leg.fee_cents
                    }
            }
        }),
{
    let n = fills.len() as int;
    lemma_fills(fills, n);
    assert(fees::fits(atomic::total_cost(fills, n)));
    assert(fees::fits(engine::fees_paid(fills, n)));
    let position = engine::opened(plan, fills, now_ms);
    assert(engine.portfolio.positions.push(position).drop_last() =~= engine.portfolio.positions);
}

/// A trade that failed holds nothing and signals nothing. Where nothing filled it
/// is counted as that; where anything did or may have, as needing somebody to
/// reconcile it. It counts as one more error against each venue with a leg that
/// is not known to have filled, and against no other.
pub proof fn a_failed_trade_holds_nothing(
    engine: EngineView,
    plan: PlanView,
    error: atomic::ExecutionErrorView,
    now_ms: u64,
    venue: Venue,
)
    requires
        engine.health.venues.len() == 2,
    ensures
        ({
            let (after, signal) = engine.settled(plan, Err(error), now_ms);
            let missed = exists|i: int|
                0 <= i < plan.opportunity.legs.len() && (#[trigger] plan.opportunity.legs[i]).venue
                    == venue && !(error matches atomic::ExecutionErrorView::Legged { filled, .. }
                    && exists|k: int|
                    0 <= k < filled.len() && (#[trigger] filled[k]).contract_id
                        == plan.opportunity.legs[i].contract_id && filled[k].outcome
                        == plan.opportunity.legs[i].side);
            &&& signal is None
            &&& after.portfolio == engine.portfolio
            &&& after.store == engine.store
            &&& after.metrics == (if error is NoFills {
                EngineMetrics {
                    trades_no_fill: crate::solver::types::bumped(engine.metrics.trades_no_fill),
                    ..engine.metrics
                }
            } else {
                EngineMetrics {
                    trades_needing_reconciliation: crate::solver::types::bumped(
                        engine.metrics.trades_needing_reconciliation,
                    ),
                    ..engine.metrics
                }
            })
            &&& after.health.of(venue) == (if missed {
                engine.health.of(venue).failed()
            } else {
                engine.health.of(venue)
            })
        }),
{
    let fills = engine::known_fills(error);
    assert(error is NoFills ==> fills =~= Seq::empty());
    let missed = exists|i: int|
        0 <= i < plan.opportunity.legs.len() && (#[trigger] plan.opportunity.legs[i]).venue
            == venue && !(error matches atomic::ExecutionErrorView::Legged { filled, .. }
            && exists|k: int|
            0 <= k < filled.len() && (#[trigger] filled[k]).contract_id
                == plan.opportunity.legs[i].contract_id && filled[k].outcome
                == plan.opportunity.legs[i].side);
    if missed {
        let i = choose|i: int|
            0 <= i < plan.opportunity.legs.len() && (#[trigger] plan.opportunity.legs[i]).venue
                == venue && !(error matches atomic::ExecutionErrorView::Legged { filled, .. }
                && exists|k: int|
                0 <= k < filled.len() && (#[trigger] filled[k]).contract_id
                    == plan.opportunity.legs[i].contract_id && filled[k].outcome
                    == plan.opportunity.legs[i].side);
        assert(!engine::is_filled(plan.opportunity.legs[i], fills));
        assert(engine::missed_on(plan, fills, venue));
    }
    if engine::missed_on(plan, fills, venue) {
        let i = choose|i: int|
            0 <= i < plan.opportunity.legs.len() && (#[trigger] plan.opportunity.legs[i]).venue
                == venue && !engine::is_filled(plan.opportunity.legs[i], fills);
        assert(plan.opportunity.legs[i].venue == venue);
        assert(missed);
    }
}

/// A plan goes out unless its orders would be live and live orders, or orders of
/// a group that nobody wrote down, are not allowed. One that is held back for its
/// group is counted.
pub proof fn only_what_may_go_out_goes_out(engine: EngineView, plan: PlanView, live: bool)
    ensures
        ({
            let (after, out) = engine.released(seq![plan], live);
            let group = plan.opportunity.group.0;
            let guessed = group < engine.registry.groups.len()
                && engine.registry.groups[group as int].inferred;
            let held = live && guessed && !engine.config.allow_inferred_live_orders;
            &&& live && !engine.config.allow_live_orders ==> out.len() == 0 && after == engine
            &&& !(live && !engine.config.allow_live_orders) && held ==> out.len() == 0
                && after.metrics == (EngineMetrics {
                blocked_inferred_group: crate::solver::types::bumped(
                    engine.metrics.blocked_inferred_group,
                ),
                ..engine.metrics
            })
            &&& !(live && !engine.config.allow_live_orders) && !held ==> out.len() == 1 && out[0]
                == plan && after.metrics == engine.metrics
            &&& after == (EngineView { metrics: after.metrics, ..engine })
        }),
{
    let one = seq![plan];
    assert(one[0] == plan);
    assert(engine.releasing(one, live, 0) == (engine.metrics, Seq::<PlanView>::empty()));
}

/// One where a plan goes out.
pub open spec fn goes_out(engine: EngineView, plans: Seq<PlanView>, live: bool) -> spec_fn(
    int,
) -> int {
    |i: int|
        {
            let group = plans[i].opportunity.group.0;
            let guessed = group < engine.registry.groups.len()
                && engine.registry.groups[group as int].inferred;
            if live && guessed && !engine.config.allow_inferred_live_orders {
                0
            } else {
                1
            }
        }
}

proof fn lemma_releasing(engine: EngineView, plans: Seq<PlanView>, live: bool, n: int, i: int)
    requires
        0 <= i < n <= plans.len(),
    ensures
        ({
            let out = engine.releasing(plans, live, n).1;
            let at = tally::total(i, goes_out(engine, plans, live));
            &&& out.len() == tally::total(n, goes_out(engine, plans, live))
            &&& goes_out(engine, plans, live)(i) == 1 ==> 0 <= at < out.len() && out[at]
                == plans[i]
        }),
    decreases n,
{
    if n == 1 {
        assert(engine.releasing(plans, live, 0).1.len() == 0);
        assert(tally::total(0, goes_out(engine, plans, live)) == 0);
    } else {
        lemma_releasing(
            engine,
            plans,
            live,
            n - 1,
            if i < n - 1 {
                i
            } else {
                0
            },
        );
    }
}

/// Where live orders are allowed, or none would be live, the plans that may go
/// out do, all of them and in order.
pub proof fn plans_go_out_in_order(
    engine: EngineView,
    plans: Seq<PlanView>,
    live: bool,
    i: int,
)
    requires
        !live || engine.config.allow_live_orders,
        0 <= i < plans.len(),
    ensures
        ({
            let out = engine.released(plans, live).1;
            let at = tally::total(i, goes_out(engine, plans, live));
            &&& out.len() == tally::total(plans.len() as int, goes_out(engine, plans, live))
            &&& goes_out(engine, plans, live)(i) == 1 ==> 0 <= at < out.len() && out[at]
                == plans[i]
        }),
{
    lemma_releasing(engine, plans, live, plans.len() as int, i);
}

/// What an event does to the engine: the books take it, the record of its venue
/// hears it, the day turns if it is due, and a gap asks for the venue's books
/// anew. Nothing else moves.
pub proof fn an_event_reaches_what_it_is_about(
    engine: EngineView,
    event: EventView,
    now_ms: u64,
    venue: Venue,
)
    requires
        engine.store.venue_of(event) == Some(venue),
    ensures
        ({
            let after = engine.received(event, now_ms);
            let (store, applied) = engine.store.applied(event, now_ms);
            &&& after.store == store
            &&& after.health == engine.health.folded(event, venue, now_ms)
            &&& after.portfolio == engine.dated(now_ms)
            &&& after.resync_pending == (if applied is Gap {
                Some(venue)
            } else {
                engine.resync_pending
            })
            &&& after.registry == engine.registry && after.solver == engine.solver && after.fees
                == engine.fees && after.config == engine.config
            &&& crate::book::laws::one_more(
                engine.metrics.events_received,
                after.metrics.events_received,
            )
            &&& if applied is Gap {
                crate::book::laws::one_more(
                    engine.metrics.sequence_gaps,
                    after.metrics.sequence_gaps,
                )
            } else {
                after.metrics.sequence_gaps == engine.metrics.sequence_gaps
            }
        }),
{
}

/// A step evaluates the book that its event wrote against the books as they then
/// are, and hands out what comes of it ranked; where no book was written, nothing
/// is evaluated and nothing comes out.
pub proof fn a_step_evaluates_what_was_written(
    engine: EngineView,
    event: EventView,
    now_ms: u64,
    trade: OpportunityView,
)
    requires
        engine.registry.groups.len() <= 0x1_0000_0000,
        forall|i: int|
            0 <= i < engine.registry.groups.len() ==> (#[trigger] engine.registry.groups[i]).id
                == GroupId(i as u32),
        forall|i: int|
            0 <= i < solver::evaluated(
                engine.solver,
                &engine.fees,
                engine.registry.groups,
                book::dirtied(engine.store.applied(event, now_ms).1),
                engine.received(event, now_ms).quotes(),
                engine.config.solver,
                now_ms,
                engine.registry.groups.len() as int,
            ).1.len() ==> (#[trigger] solver::evaluated(
                engine.solver,
                &engine.fees,
                engine.registry.groups,
                book::dirtied(engine.store.applied(event, now_ms).1),
                engine.received(event, now_ms).quotes(),
                engine.config.solver,
                now_ms,
                engine.registry.groups.len() as int,
            ).1[i]).wf(),
    ensures
        ({
            let (after, out) = engine.stepped(event, now_ms);
            let (store, applied) = engine.store.applied(event, now_ms);
            let quotes = |contract: ContractId|
                if contract.0 < store.books.len() {
                    Some(store.books[contract.0 as int])
                } else {
                    None
                };
            let written = match applied {
                Applied::Snapshot(contract) => seq![contract],
                Applied::Delta(contract) => seq![contract],
                _ => Seq::empty(),
            };
            &&& out.contains(trade) <==> exists|g: int|
                0 <= g < engine.registry.groups.len() && emission::is_touched(
                    #[trigger] engine.registry.groups[g],
                    written,
                ) && emission::comes_to(
                    &engine.fees,
                    engine.registry.groups[g],
                    quotes,
                    engine.config.solver,
                    now_ms,
                    trade,
                )
            &&& after.store == store
            &&& after.portfolio == engine.dated(now_ms)
        }),
{
    broadcast use vstd::seq_lib::group_to_multiset_ensures;

    let (store, applied) = engine.store.applied(event, now_ms);
    let quotes = |contract: ContractId|
        if contract.0 < store.books.len() {
            Some(store.books[contract.0 as int])
        } else {
            None
        };
    let received = engine.received(event, now_ms);
    assert(received.quotes() =~= quotes);
    let dirty = book::dirtied(applied);
    let emitted = solver::evaluated(
        engine.solver,
        &engine.fees,
        engine.registry.groups,
        dirty,
        quotes,
        engine.config.solver,
        now_ms,
        engine.registry.groups.len() as int,
    ).1;
    emission::every_touched_group_is_evaluated_and_no_other(
        engine.solver,
        &engine.fees,
        engine.registry.groups,
        dirty,
        quotes,
        engine.config.solver,
        now_ms,
        trade,
    );
    if dirty.len() > 0 {
        let out = costing::ranked(emitted);
        costing::ranking_sorts_and_keeps_every_opportunity(emitted);
        assert(out.contains(trade) <==> out.to_multiset().count(trade) > 0);
        assert(emitted.contains(trade) <==> emitted.to_multiset().count(trade) > 0);
    } else {
        assert(!engine.stepped(event, now_ms).1.contains(trade));
    }
}

/// A contract is published with the best quotes of its book: the highest price at
/// which each outcome is bid for, and the lowest at which each is offered.
pub proof fn a_summary_quotes_the_book(store: StoreView, book: BookView, now_ms: u64, price: int)
    requires
        book.wf(),
    ensures
        ({
            let out = engine::summarized(store, book, now_ms);
            &&& out.contract == book.contract_id.0
            &&& out.venue == book.venue
            &&& out.seq == book.seq
            &&& book.contract_id.0 < store.names.len() ==> out.ticker
                == store.names[book.contract_id.0 as int].1
            &&& now_ms >= book.updated_at_ms ==> book.updated_at_ms + out.age_ms == now_ms
            &&& quote::is_best_bid(book, Side::Yes, price) ==> out.best_bid == Some(price as i64)
            &&& quote::is_best_bid(book, Side::No, price) ==> out.best_no_bid == Some(price as i64)
            &&& quote::is_best_ask(book, Side::Yes, price) ==> out.best_ask == Some(price as i64)
            &&& quote::is_best_ask(book, Side::No, price) ==> out.best_no_ask == Some(
                price as i64,
            )
            &&& out.best_bid is None <==> quote::no_bid(book, Side::Yes)
            &&& out.best_no_bid is None <==> quote::no_bid(book, Side::No)
        }),
{
    crate::book::laws::the_best_is_at_the_highest_resting_price(book);
    if let Some(best) = types::first_level(book.bids()) {
        assert(quote::bid_sizes(book, Side::Yes)[best.price as int] > 0);
        if quote::is_best_bid(book, Side::Yes, price) {
            assert(quote::bid_sizes(book, Side::Yes)[price] > 0);
            assert(book.yes[price] != 0);
        }
    }
    if let Some(best) = types::first_level(book.no_bids()) {
        assert(quote::bid_sizes(book, Side::No)[best.price as int] > 0);
        if quote::is_best_bid(book, Side::No, price) {
            assert(quote::bid_sizes(book, Side::No)[price] > 0);
            assert(book.no[price] != 0);
        }
    }
    if quote::is_best_bid(book, Side::Yes, price) {
        assert(book.yes[price] != 0);
    }
    if quote::is_best_bid(book, Side::No, price) {
        assert(book.no[price] != 0);
    }
    if quote::is_best_ask(book, Side::Yes, price) {
        assert(book.no[100 - price] > 0);
        let best = types::first_level(book.asks())->0;
        assert(quote::offered_at(book, Side::Yes, best.price as int) > 0);
    }
    if quote::is_best_ask(book, Side::No, price) {
        assert(book.yes[100 - price] > 0);
        let best = types::first_level(book.no_asks())->0;
        assert(quote::offered_at(book, Side::No, best.price as int) > 0);
    }
}

/// The first event at or after the reset clears the day's losses and sets the
/// next reset to the midnight after it; before that nothing of the portfolio
/// changes.
pub proof fn a_new_day_clears_the_losses(engine: EngineView, now_ms: u64, midnight: int)
    requires
        midnight % 86_400_000 == 0,
        midnight - 86_400_000 <= now_ms < midnight,
        midnight <= u64::MAX,
    ensures
        ({
            let after = engine.dated(now_ms);
            let due = now_ms >= engine.portfolio.daily_reset_at_ms;
            after == (if due {
                PortfolioView {
                    daily_loss_realized_cents: 0,
                    daily_reset_at_ms: midnight as u64,
                    ..engine.portfolio
                }
            } else {
                engine.portfolio
            })
        }),
{
    let day = 86_400_000int;
    let days = now_ms as int / day;
    let k = midnight / day;
    assert(midnight == k * day) by (nonlinear_arith)
        requires
            midnight % 86_400_000 == 0,
            k == midnight / 86_400_000,
            day == 86_400_000int,
    ;
    assert(days == k - 1) by (nonlinear_arith)
        requires
            midnight == k * day,
            midnight - day <= now_ms < midnight,
            days == now_ms as int / day,
            day == 86_400_000int,
    ;
}

} // verus!
