//! What the limits decide, said of the open positions.
use vstd::prelude::*;
use crate::portfolio;
use crate::portfolio::laws;
use crate::portfolio::{PortfolioView, PositionView};
use crate::registry::{EventId, RegistryView};
use crate::risk;
use crate::risk::{RiskError, RiskLimits};

verus! {

/// Whether an event is under a theme.
pub open spec fn under_theme(registry: RegistryView, event: EventId, theme: Seq<char>) -> bool {
    event.0 < registry.events.len() && registry.events[event.0 as int].theme == Some(theme)
}

proof fn lemma_themed(
    positions: Seq<PositionView>,
    registry: RegistryView,
    theme: Seq<char>,
    part: spec_fn(int) -> int,
    n: int,
)
    requires
        0 <= n <= positions.len(),
        forall|i: int|
            0 <= i < positions.len() ==> #[trigger] part(i) == (if !positions[i].resolved
                && under_theme(registry, positions[i].event_id, theme) {
                positions[i].cost_cents as int
            } else {
                0
            }),
    ensures
        risk::themed(positions, registry, theme, n) == crate::tally::total(n, part),
    decreases n,
{
    if n > 0 {
        lemma_themed(positions, registry, theme, part, n - 1);
        assert(part(n - 1) == part(n - 1));
    }
}

/// One more position is refused exactly where it would leave too many open, too
/// much on its event, or too much on the events that share its theme, and the
/// first of these is named with what it would have come to.
pub proof fn a_trade_is_refused_exactly_for_a_limit(
    held: PortfolioView,
    registry: RegistryView,
    event: EventId,
    theme: Option<Seq<char>>,
    cost: int,
    limits: RiskLimits,
)
    requires
        risk::check_fits(held, registry, event, theme, cost),
        held.positions.len() <= usize::MAX,
    ensures
        ({
            let open = laws::open_number(held);
            let on_event = laws::open_cost(held, |e: EventId| e == event) + cost;
            let on_theme = laws::open_cost(held, |e: EventId| under_theme(registry, e, theme->0))
                + cost;
            let crowded = open + 1 > limits.max_concurrent_trades;
            let heavy = on_event > limits.max_per_event_cents;
            let themed = theme is Some && on_theme > limits.max_per_theme_cents;
            match risk::refusal(held, registry, event, theme, cost, limits) {
                None => !crowded && !heavy && !themed,
                Some(RiskError::ConcurrentTradeLimit { open: shown, limit }) => crowded && shown
                    == open && limit == limits.max_concurrent_trades,
                Some(RiskError::EventLimitExceeded { would_be, limit }) => !crowded && heavy
                    && would_be == on_event && limit == limits.max_per_event_cents,
                Some(RiskError::ThemeLimitExceeded { would_be, limit }) => !crowded && !heavy
                    && themed && would_be == on_theme && limit == limits.max_per_theme_cents,
            }
        }),
{
    let n = held.positions.len() as int;
    laws::the_figures_are_sums_over_open_positions(held, event);
    laws::lemma_open_bound(held.positions, n);
    assert(crate::fees::fits(portfolio::locked(held.positions, Some(event), n)));
    if let Some(shared) = theme {
        lemma_themed(
            held.positions,
            registry,
            shared,
            |i: int|
                if !held.positions[i].resolved && (|e: EventId| under_theme(
                    registry,
                    e,
                    theme->0,
                ))(held.positions[i].event_id) {
                    held.positions[i].cost_cents as int
                } else {
                    0
                },
            n,
        );
        assert(crate::fees::fits(cost + risk::themed(held.positions, registry, shared, n)));
    }
}

/// The theme of an event is the one that the registry gives it.
pub proof fn a_theme_is_the_registrys(registry: RegistryView, event: EventId, theme: Seq<char>)
    ensures
        risk::theme_of(registry, event) == Some(theme) <==> under_theme(registry, event, theme),
{
}

} // verus!
