//! What the portfolio does, said of positions, bids and outcomes.
//!
//! - A leg is worth what the best bid for its own outcome would pay.
//! - A settled leg pays a dollar a contract where its outcome came true.
//! - A position is taken on exactly where the day is open and the cash is there,
//!   and what it costs is what leaves.
//! - What is locked, exposed, open and unrealized are sums over open positions.
use vstd::prelude::*;
use crate::fees;
use crate::portfolio;
use crate::portfolio::{PortfolioError, PortfolioView, PositionLegView, PositionView};
use crate::quote;
use crate::registry::EventId;
use crate::solver::costing::Quotes;
use crate::tally;
use crate::types::Side;

verus! {

/// Whether selling a leg now brings so much: its quantity at the best bid for the
/// outcome it holds, and nothing where there is no such bid or no book.
pub open spec fn sells_for(leg: PositionLegView, quotes: Quotes, value: int) -> bool {
    match quotes(leg.contract_id) {
        None => value == 0,
        Some(book) => {
            &&& quote::no_bid(book, leg.side) ==> value == 0
            &&& forall|price: int| #[trigger]
                quote::is_best_bid(book, leg.side, price) ==> value == leg.quantity * price
        },
    }
}

/// Every book has one slot per cent on each side.
pub open spec fn books_sound(quotes: Quotes, legs: Seq<PositionLegView>) -> bool {
    forall|i: int|
        0 <= i < legs.len() ==> (quotes((#[trigger] legs[i]).contract_id) matches Some(book)
            ==> book.yes.len() == 101 && book.no.len() == 101)
}

proof fn lemma_leg_value(leg: PositionLegView, quotes: Quotes, value: int)
    requires
        quotes(leg.contract_id) matches Some(book) ==> book.yes.len() == 101 && book.no.len()
            == 101,
    ensures
        sells_for(leg, quotes, value) <==> value == leg.liquidation(quotes),
{
    if let Some(book) = quotes(leg.contract_id) {
        quote::lemma_first(book, leg.side);
        match leg.exit(book) {
            Some(level) => {
                assert(quote::is_best_bid(book, leg.side, level.price as int));
                assert forall|price: int| #[trigger]
                    quote::is_best_bid(book, leg.side, price) implies price == level.price by {
                    quote::lemma_one_best(book, leg.side, price, level.price as int);
                }
                quote::lemma_one_best(
                    book,
                    leg.side,
                    level.price as int,
                    level.price as int,
                );
            },
            None => {
                assert forall|price: int| #[trigger]
                    quote::is_best_bid(book, leg.side, price) implies false by {
                    quote::lemma_one_best(book, leg.side, price, price);
                }
            },
        }
    }
}

proof fn lemma_value(
    legs: Seq<PositionLegView>,
    quotes: Quotes,
    values: Seq<int>,
    n: int,
)
    requires
        0 <= n <= legs.len(),
        values.len() == legs.len(),
        books_sound(quotes, legs),
        forall|k: int| 0 <= k < legs.len() ==> sells_for(#[trigger] legs[k], quotes, values[k]),
    ensures
        portfolio::value_of(legs, quotes, n) == tally::total(n, |k: int| values[k]),
    decreases n,
{
    if n > 0 {
        lemma_value(legs, quotes, values, n - 1);
        assert(sells_for(legs[n - 1], quotes, values[n - 1]));
        lemma_leg_value(legs[n - 1], quotes, values[n - 1]);
    }
}

/// Every leg sells for something.
pub proof fn a_leg_has_a_value(leg: PositionLegView, quotes: Quotes)
    requires
        quotes(leg.contract_id) matches Some(book) ==> book.yes.len() == 101 && book.no.len()
            == 101,
    ensures
        exists|value: int| sells_for(leg, quotes, value),
{
    lemma_leg_value(leg, quotes, leg.liquidation(quotes));
    assert(sells_for(leg, quotes, leg.liquidation(quotes)));
}

/// Marking to market values every open position at what its legs would sell for,
/// less what it cost, and touches nothing else.
pub proof fn a_mark_is_what_the_bids_would_pay(
    held: PortfolioView,
    quotes: Quotes,
    i: int,
    values: Seq<int>,
)
    requires
        0 <= i < held.positions.len(),
        held.marks(quotes),
        books_sound(quotes, held.positions[i].legs),
        values.len() == held.positions[i].legs.len(),
        forall|k: int|
            0 <= k < values.len() ==> sells_for(
                #[trigger] held.positions[i].legs[k],
                quotes,
                values[k],
            ),
    ensures
        ({
            let before = held.positions[i];
            let after = held.marked(quotes).positions[i];
            &&& !before.resolved ==> after.pnl_unrealized_cents == tally::total(
                values.len() as int,
                |k: int| values[k],
            ) - before.cost_cents
            &&& before.resolved ==> after == before
            &&& after == PositionView {
                pnl_unrealized_cents: after.pnl_unrealized_cents,
                ..before
            }
        }),
        held.marked(quotes).positions.len() == held.positions.len(),
        held.marked(quotes) == (PortfolioView {
            positions: held.marked(quotes).positions,
            ..held
        }),
{
    let position = held.positions[i];
    if !position.resolved {
        assert(position.marks(quotes));
        assert forall|k: int| 0 <= k < position.legs.len() implies sells_for(
            #[trigger] position.legs[k],
            quotes,
            values[k],
        ) by {
            assert(sells_for(held.positions[i].legs[k], quotes, values[k]));
        }
        lemma_value(position.legs, quotes, values, values.len() as int);
    }
}

/// What a leg pays in a resolution: a dollar a contract where the outcome it
/// holds came true.
pub open spec fn settles_for(leg: PositionLegView, resolved_yes: bool) -> int {
    match (leg.side, resolved_yes) {
        (Side::Yes, true) => 100 * leg.quantity,
        (Side::No, false) => 100 * leg.quantity,
        _ => 0,
    }
}

/// What a position pays in a resolution.
pub open spec fn pays(position: PositionView, resolved_yes: bool) -> int {
    tally::total(
        position.legs.len() as int,
        |k: int| settles_for(position.legs[k], resolved_yes),
    )
}

/// Whether a position is open on an event.
pub open spec fn open_on(position: PositionView, event: EventId) -> bool {
    !position.resolved && position.event_id == event
}

proof fn lemma_pays(position: PositionView, resolved_yes: bool, n: int)
    requires
        0 <= n <= position.legs.len(),
    ensures
        portfolio::payoff_of(position.legs, resolved_yes, n) == tally::total(
            n,
            |k: int| settles_for(position.legs[k], resolved_yes),
        ),
    decreases n,
{
    if n > 0 {
        lemma_pays(position, resolved_yes, n - 1);
    }
}

proof fn lemma_settlement(
    positions: Seq<PositionView>,
    event: EventId,
    resolved_yes: bool,
    n: int,
)
    requires
        0 <= n <= positions.len(),
    ensures
        ({
            let totals = portfolio::settlement(positions, event, resolved_yes, n);
            &&& totals.found == exists|i: int| 0 <= i < n && open_on(#[trigger] positions[i], event)
            &&& totals.payoff == tally::total(
                n,
                |i: int|
                    if open_on(positions[i], event) {
                        pays(positions[i], resolved_yes)
                    } else {
                        0
                    },
            )
            &&& totals.pnl == tally::total(
                n,
                |i: int|
                    if open_on(positions[i], event) {
                        pays(positions[i], resolved_yes) - positions[i].cost_cents
                    } else {
                        0
                    },
            )
            &&& totals.loss == tally::total(
                n,
                |i: int|
                    if open_on(positions[i], event) && pays(positions[i], resolved_yes)
                        < positions[i].cost_cents {
                        positions[i].cost_cents - pays(positions[i], resolved_yes)
                    } else {
                        0
                    },
            )
        }),
    decreases n,
{
    if n > 0 {
        lemma_settlement(positions, event, resolved_yes, n - 1);
        let position = positions[n - 1];
        lemma_pays(position, resolved_yes, position.legs.len() as int);
        if open_on(position, event) {
            assert(open_on(positions[n - 1], event));
        } else if exists|i: int| 0 <= i < n && open_on(#[trigger] positions[i], event) {
            let i = choose|i: int| 0 <= i < n && open_on(#[trigger] positions[i], event);
            assert(i < n - 1);
        }
    }
}

/// Settling an event pays out its open positions by the outcome: the cash grows
/// by what they pay, the realized profit by that less what they cost, and the
/// day's losses by what each of them lost. Positions that are settled already, or
/// on other events, stay as they are.
pub proof fn a_settled_event_pays_by_its_outcome(
    held: PortfolioView,
    event: EventId,
    resolved_yes: bool,
    i: int,
)
    requires
        held.settles(event, resolved_yes),
        0 <= i < held.positions.len(),
    ensures
        ({
            let n = held.positions.len() as int;
            let after = held.realized(event, resolved_yes);
            let before = held.positions[i];
            &&& after.positions.len() == n
            &&& after.positions[i] == (if open_on(before, event) {
                PositionView {
                    resolved: true,
                    pnl_realized_cents: (pays(before, resolved_yes) - before.cost_cents) as i64,
                    pnl_unrealized_cents: 0,
                    ..before
                }
            } else {
                before
            })
            &&& open_on(before, event) ==> after.positions[i].pnl_realized_cents == pays(
                before,
                resolved_yes,
            ) - before.cost_cents
            &&& after.capital_available_cents == held.capital_available_cents + tally::total(
                n,
                |k: int|
                    if open_on(held.positions[k], event) {
                        pays(held.positions[k], resolved_yes)
                    } else {
                        0
                    },
            )
            &&& after.pnl_realized_cents == held.pnl_realized_cents + tally::total(
                n,
                |k: int|
                    if open_on(held.positions[k], event) {
                        pays(held.positions[k], resolved_yes) - held.positions[k].cost_cents
                    } else {
                        0
                    },
            )
            &&& after.daily_loss_realized_cents == held.daily_loss_realized_cents + tally::total(
                n,
                |k: int|
                    if open_on(held.positions[k], event) && pays(held.positions[k], resolved_yes)
                        < held.positions[k].cost_cents {
                        held.positions[k].cost_cents - pays(held.positions[k], resolved_yes)
                    } else {
                        0
                    },
            )
            &&& after.daily_loss_limit_cents == held.daily_loss_limit_cents
            &&& after.daily_reset_at_ms == held.daily_reset_at_ms
        }),
{
    let n = held.positions.len() as int;
    lemma_settlement(held.positions, event, resolved_yes, n);
    let totals = portfolio::settlement(held.positions, event, resolved_yes, n);
    assert(fees::fits(totals.pnl));
    let before = held.positions[i];
    lemma_pays(before, resolved_yes, before.legs.len() as int);
    if open_on(before, event) {
        assert(held.positions[i].settles(resolved_yes));
    }
}

/// An event can be settled exactly where a position on it is open.
pub proof fn only_an_open_event_settles(held: PortfolioView, event: EventId, resolved_yes: bool)
    ensures
        held.settlement_of(event, resolved_yes).found <==> exists|i: int|
            0 <= i < held.positions.len() && open_on(#[trigger] held.positions[i], event),
        held.settlement_of(event, resolved_yes).pnl == tally::total(
            held.positions.len() as int,
            |k: int|
                if open_on(held.positions[k], event) {
                    pays(held.positions[k], resolved_yes) - held.positions[k].cost_cents
                } else {
                    0
                },
        ),
{
    lemma_settlement(held.positions, event, resolved_yes, held.positions.len() as int);
}

/// The profit of one position in a resolution is what its legs pay less what it
/// cost, and a leg pays on exactly one of the two outcomes.
pub proof fn a_leg_pays_on_one_outcome(position: PositionView, leg: PositionLegView)
    ensures
        position.pnl(true) == pays(position, true) - position.cost_cents,
        position.pnl(false) == pays(position, false) - position.cost_cents,
        settles_for(leg, true) + settles_for(leg, false) == 100 * leg.quantity,
        leg.side == Side::Yes ==> settles_for(leg, false) == 0,
        leg.side == Side::No ==> settles_for(leg, true) == 0,
        leg.premium() == leg.quantity * leg.average_entry_price,
{
    lemma_pays(position, true, position.legs.len() as int);
    lemma_pays(position, false, position.legs.len() as int);
}

/// A position is taken on exactly where the day's losses are under the limit and
/// the cash covers it; the cash that leaves is what it costs, and nothing else
/// changes. Where both stand in the way, the day is named.
pub proof fn a_position_is_taken_on_exactly_where_it_can_be(
    held: PortfolioView,
    position: PositionView,
)
    requires
        fees::fits(held.capital_available_cents - position.cost_cents),
    ensures
        match held.refusal(position) {
            None => held.daily_loss_realized_cents < held.daily_loss_limit_cents
                && position.cost_cents <= held.capital_available_cents,
            Some(PortfolioError::DailyLossExceeded { realized, limit }) => realized >= limit
                && realized == held.daily_loss_realized_cents && limit
                == held.daily_loss_limit_cents,
            Some(PortfolioError::InsufficientCapital { needed, available }) => needed > available
                && needed == position.cost_cents && available == held.capital_available_cents
                && held.daily_loss_realized_cents < held.daily_loss_limit_cents,
            Some(PortfolioError::UnknownEvent) => false,
        },
        held.holding(position).capital_available_cents == held.capital_available_cents
            - position.cost_cents,
        held.holding(position).positions.len() == held.positions.len() + 1,
        held.holding(position).positions.last() == position,
        held.holding(position).positions.drop_last() == held.positions,
        held.holding(position) == (PortfolioView {
            capital_available_cents: held.holding(position).capital_available_cents,
            positions: held.holding(position).positions,
            ..held
        }),
        held.day_open() == (held.daily_loss_realized_cents < held.daily_loss_limit_cents),
{
    assert(held.positions.push(position).drop_last() =~= held.positions);
}

/// The cost of the open positions, of all events or of one.
pub open spec fn open_cost(held: PortfolioView, on: spec_fn(EventId) -> bool) -> int {
    tally::total(
        held.positions.len() as int,
        |i: int|
            if !held.positions[i].resolved && on(held.positions[i].event_id) {
                held.positions[i].cost_cents as int
            } else {
                0
            },
    )
}

/// How many positions are open.
pub open spec fn open_number(held: PortfolioView) -> int {
    tally::total(
        held.positions.len() as int,
        |i: int|
            if held.positions[i].resolved {
                0int
            } else {
                1int
            },
    )
}

proof fn lemma_locked(
    positions: Seq<PositionView>,
    event: Option<EventId>,
    part: spec_fn(int) -> int,
    n: int,
)
    requires
        0 <= n <= positions.len(),
        forall|i: int|
            0 <= i < positions.len() ==> #[trigger] part(i) == (if !positions[i].resolved && (event
                is None || event == Some(positions[i].event_id)) {
                positions[i].cost_cents as int
            } else {
                0
            }),
    ensures
        portfolio::locked(positions, event, n) == tally::total(n, part),
    decreases n,
{
    if n > 0 {
        lemma_locked(positions, event, part, n - 1);
        assert(part(n - 1) == part(n - 1));
    }
}

proof fn lemma_open(positions: Seq<PositionView>, n: int)
    requires
        0 <= n <= positions.len(),
    ensures
        portfolio::open_among(positions, n) == tally::total(
            n,
            |i: int|
                if positions[i].resolved {
                    0int
                } else {
                    1int
                },
        ),
        portfolio::unrealized(positions, n) == tally::total(
            n,
            |i: int|
                if positions[i].resolved {
                    0
                } else {
                    positions[i].pnl_unrealized_cents as int
                },
        ),
    decreases n,
{
    if n > 0 {
        lemma_open(positions, n - 1);
    }
}

/// What is locked, exposed to an event, open, and unrealized are sums over the
/// open positions.
pub proof fn the_figures_are_sums_over_open_positions(held: PortfolioView, event: EventId)
    ensures
        held.capital_locked() == open_cost(held, |e: EventId| true),
        held.exposure(event) == open_cost(held, |e: EventId| e == event),
        held.open_count() == open_number(held),
        portfolio::unrealized(held.positions, held.positions.len() as int) == tally::total(
            held.positions.len() as int,
            |i: int|
                if held.positions[i].resolved {
                    0
                } else {
                    held.positions[i].pnl_unrealized_cents as int
                },
        ),
{
    let n = held.positions.len() as int;
    lemma_locked(
        held.positions,
        None,
        |i: int|
            if !held.positions[i].resolved && (|e: EventId| true)(held.positions[i].event_id) {
                held.positions[i].cost_cents as int
            } else {
                0
            },
        n,
    );
    lemma_locked(
        held.positions,
        Some(event),
        |i: int|
            if !held.positions[i].resolved && (|e: EventId| e == event)(
                held.positions[i].event_id,
            ) {
                held.positions[i].cost_cents as int
            } else {
                0
            },
        n,
    );
    lemma_open(held.positions, n);
}

/// A summary shows the portfolio's own figures.
pub proof fn a_summary_shows_the_figures(held: PortfolioView)
    requires
        portfolio::locked_fits(held.positions, None),
        portfolio::unrealized_fits(held.positions),
        held.positions.len() <= usize::MAX,
    ensures
        ({
            let shown = held.summarized();
            &&& shown.capital_available_cents == held.capital_available_cents
            &&& shown.capital_locked_cents == open_cost(held, |e: EventId| true)
            &&& shown.open_positions == open_number(held)
            &&& shown.pnl_realized_cents == held.pnl_realized_cents
            &&& shown.pnl_unrealized_cents == tally::total(
                held.positions.len() as int,
                |i: int|
                    if held.positions[i].resolved {
                        0
                    } else {
                        held.positions[i].pnl_unrealized_cents as int
                    },
            )
            &&& shown.daily_loss_cents == held.daily_loss_realized_cents
            &&& shown.daily_loss_limit_cents == held.daily_loss_limit_cents
        }),
{
    the_figures_are_sums_over_open_positions(held, EventId(0));
    let n = held.positions.len() as int;
    assert(fees::fits(portfolio::locked(held.positions, None, n)));
    assert(fees::fits(portfolio::unrealized(held.positions, n)));
    lemma_open_bound(held.positions, n);
}

pub proof fn lemma_open_bound(positions: Seq<PositionView>, n: int)
    requires
        0 <= n <= positions.len(),
    ensures
        0 <= portfolio::open_among(positions, n) <= n,
    decreases n,
{
    if n > 0 {
        lemma_open_bound(positions, n - 1);
    }
}

} // verus!
