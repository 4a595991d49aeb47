//! Position limits: the answer to "this trade is profitable, but should we?"
//!
//! The solver proves a trade cannot lose at settlement. That is not the same as
//! it being safe to put on. A guaranteed dollar is only guaranteed if the
//! contracts resolve the way the registry says they do, and the registry is a
//! human-maintained file. Concentration is therefore the real exposure: not to
//! price, but to one resolution rule being written down wrong.
//!
//! Limits are checked against capital *locked*, not against expected profit,
//! because the amount at stake if a group turns out to be mis-specified is the
//! whole position, not its edge.
use vstd::prelude::*;
use crate::fees;
use crate::portfolio;
use crate::portfolio::{Portfolio, PortfolioView, PositionView};
use crate::registry::{EventId, Registry, RegistryView};
use crate::text;
use crate::types::Cents;

pub mod laws;

verus! {

#[derive(Clone, Copy, Debug, PartialEq, Eq, Structural)]
pub struct RiskLimits {
    /// Most capital that may be locked in any one event.
    pub max_per_event_cents: Cents,
    /// Most capital across every event sharing a theme, such as all Fed
    /// decisions. Separate events resolving off one source fail together.
    pub max_per_theme_cents: Cents,
    pub max_concurrent_trades: usize,
}

impl Default for RiskLimits {
    fn default() -> (limits: Self)
        ensures
            limits == (RiskLimits {
                max_per_event_cents: 50_000,
                max_per_theme_cents: 100_000,
                max_concurrent_trades: 10,
            }),
    {
        RiskLimits {
            max_per_event_cents: 50_000,
            max_per_theme_cents: 100_000,
            max_concurrent_trades: 10,
        }
    }
}

#[allow(inconsistent_fields)]
#[derive(Clone, Copy, Debug, PartialEq, Eq, Structural)]
pub enum RiskError {
    EventLimitExceeded { would_be: Cents, limit: Cents },
    ThemeLimitExceeded { would_be: Cents, limit: Cents },
    ConcurrentTradeLimit { open: usize, limit: usize },
}

/// The name of a refusal, as the API publishes it.
pub open spec fn risk_error_name(error: RiskError) -> Seq<char> {
    match error {
        RiskError::EventLimitExceeded { .. } => "event_limit"@,
        RiskError::ThemeLimitExceeded { .. } => "theme_limit"@,
        RiskError::ConcurrentTradeLimit { .. } => "concurrent_trade_limit"@,
    }
}

/// The message of a refusal.
pub open spec fn risk_error_message(error: RiskError) -> Seq<char> {
    match error {
        RiskError::EventLimitExceeded { would_be, limit } => "event exposure would be "@
            + text::signed_decimal(would_be as int) + " cents, limit "@ + text::signed_decimal(
            limit as int,
        ),
        RiskError::ThemeLimitExceeded { would_be, limit } => "theme exposure would be "@
            + text::signed_decimal(would_be as int) + " cents, limit "@ + text::signed_decimal(
            limit as int,
        ),
        RiskError::ConcurrentTradeLimit { open, limit } => text::decimal(open as nat)
            + " open positions, limit "@ + text::decimal(limit as nat),
    }
}

impl RiskError {
    pub fn as_str(self) -> (name: &'static str)
        ensures
            name@ == risk_error_name(self),
    {
        match self {
            RiskError::EventLimitExceeded { .. } => "event_limit",
            RiskError::ThemeLimitExceeded { .. } => "theme_limit",
            RiskError::ConcurrentTradeLimit { .. } => "concurrent_trade_limit",
        }
    }

    /// What stood in the way, for a log line.
    pub fn message(&self) -> (out: String)
        ensures
            out@ == risk_error_message(*self),
    {
        match self {
            RiskError::EventLimitExceeded { would_be, limit } => {
                let mut out: String = String::from_str("event exposure would be ");
                text::push_i64(&mut out, *would_be);
                out.append(" cents, limit ");
                text::push_i64(&mut out, *limit);
                out
            },
            RiskError::ThemeLimitExceeded { would_be, limit } => {
                let mut out: String = String::from_str("theme exposure would be ");
                text::push_i64(&mut out, *would_be);
                out.append(" cents, limit ");
                text::push_i64(&mut out, *limit);
                out
            },
            RiskError::ConcurrentTradeLimit { open, limit } => {
                let mut out: String = String::from_str("");
                proof {
                    reveal_strlit("");
                    assert(out@ =~= Seq::<char>::empty());
                    assert(Seq::<char>::empty() + text::decimal(*open as nat) =~= text::decimal(
                        *open as nat,
                    ));
                }
                text::push_u64(&mut out, *open as u64);
                out.append(" open positions, limit ");
                text::push_u64(&mut out, *limit as u64);
                out
            },
        }
    }
}

/// The theme of an event, if the registry knows the event and it has one.
pub open spec fn theme_of(registry: RegistryView, event: EventId) -> Option<Seq<char>> {
    if event.0 < registry.events.len() {
        registry.events[event.0 as int].theme
    } else {
        None
    }
}

/// Capital locked under a theme by the open positions among the first `n`.
pub open spec fn themed(
    positions: Seq<PositionView>,
    registry: RegistryView,
    theme: Seq<char>,
    n: int,
) -> int
    decreases n,
{
    if n <= 0 {
        0
    } else {
        let position = positions[n - 1];
        themed(positions, registry, theme, n - 1) + if !position.resolved && theme_of(
            registry,
            position.event_id,
        ) == Some(theme) {
            position.cost_cents as int
        } else {
            0
        }
    }
}

/// Capital locked under a theme.
pub open spec fn theme_exposure(
    portfolio: PortfolioView,
    registry: RegistryView,
    theme: Seq<char>,
) -> int {
    themed(portfolio.positions, registry, theme, portfolio.positions.len() as int)
}

/// What stands in the way of one more position, if anything does.
pub open spec fn refusal(
    portfolio: PortfolioView,
    registry: RegistryView,
    event: EventId,
    theme: Option<Seq<char>>,
    cost: int,
    limits: RiskLimits,
) -> Option<RiskError> {
    if portfolio.open_count() >= limits.max_concurrent_trades {
        Some(
            RiskError::ConcurrentTradeLimit {
                open: portfolio.open_count() as usize,
                limit: limits.max_concurrent_trades,
            },
        )
    } else if portfolio.exposure(event) + cost > limits.max_per_event_cents {
        Some(
            RiskError::EventLimitExceeded {
                would_be: (portfolio.exposure(event) + cost) as i64,
                limit: limits.max_per_event_cents,
            },
        )
    } else if theme matches Some(shared) && theme_exposure(portfolio, registry, shared) + cost
        > limits.max_per_theme_cents {
        Some(
            RiskError::ThemeLimitExceeded {
                would_be: (theme_exposure(portfolio, registry, theme->0) + cost) as i64,
                limit: limits.max_per_theme_cents,
            },
        )
    } else {
        None
    }
}

/// Machine integers hold every running sum that a check makes.
pub open spec fn check_fits(
    portfolio: PortfolioView,
    registry: RegistryView,
    event: EventId,
    theme: Option<Seq<char>>,
    cost: int,
) -> bool {
    &&& portfolio::locked_fits(portfolio.positions, Some(event))
    &&& fees::fits(portfolio.exposure(event) + cost)
    &&& theme matches Some(shared) ==> forall|n: int|
        0 <= n <= portfolio.positions.len() ==> fees::fits(
            cost + #[trigger] themed(portfolio.positions, registry, shared, n),
        )
}

/// Decide whether one more position fits inside the limits.
///
/// Every check is "what would exposure become", not "what is it now", so a
/// single trade cannot step over a limit it was under before placing.
pub fn check(
    portfolio: &Portfolio,
    registry: &Registry,
    event: EventId,
    theme: Option<&str>,
    trade_cost_cents: Cents,
    limits: &RiskLimits,
) -> (result: Result<(), RiskError>)
    requires
        check_fits(
            portfolio@,
            registry@,
            event,
            (match theme {
                Some(theme) => Some(theme@),
                None => None,
            }),
            trade_cost_cents as int,
        ),
    ensures
        result == (match refusal(
            portfolio@,
            registry@,
            event,
            (match theme {
                Some(theme) => Some(theme@),
                None => None,
            }),
            trade_cost_cents as int,
            *limits,
        ) {
            Some(error) => Err::<(), RiskError>(error),
            None => Ok(()),
        }),
{
    let open: usize = portfolio.open_count();
    if open >= limits.max_concurrent_trades {
        return Err(
            RiskError::ConcurrentTradeLimit { open, limit: limits.max_concurrent_trades },
        );
    }
    let event_exposure: i64 = portfolio.exposure_to(event) + trade_cost_cents;
    if event_exposure > limits.max_per_event_cents {
        return Err(
            RiskError::EventLimitExceeded {
                would_be: event_exposure,
                limit: limits.max_per_event_cents,
            },
        );
    }
    // An event with no theme is only limited per event. Inventing a theme for
    // it would silently pool unrelated exposure under one budget.
    if let Some(theme) = theme {
        let shared: i64 = pooled(portfolio, registry, theme, trade_cost_cents);
        if shared > limits.max_per_theme_cents {
            return Err(
                RiskError::ThemeLimitExceeded {
                    would_be: shared,
                    limit: limits.max_per_theme_cents,
                },
            );
        }
    }
    Ok(())
}

/// Whether the registry puts an event under a theme.
fn shares_theme(registry: &Registry, event: EventId, theme: &str) -> (shares: bool)
    ensures
        shares == (theme_of(registry@, event) == Some(theme@)),
{
    match registry.event(event) {
        Some(held) => match &held.theme {
            Some(name) => text::same(name.as_str(), theme),
            None => false,
        },
        None => false,
    }
}

/// What a theme's exposure would become with one more trade.
fn pooled(
    portfolio: &Portfolio,
    registry: &Registry,
    theme: &str,
    trade_cost_cents: Cents,
) -> (cents: Cents)
    requires
        forall|n: int|
            0 <= n <= portfolio@.positions.len() ==> fees::fits(
                trade_cost_cents + #[trigger] themed(portfolio@.positions, registry@, theme@, n),
            ),
    ensures
        cents == theme_exposure(portfolio@, registry@, theme@) + trade_cost_cents,
{
    let ghost positions = portfolio@.positions;
    let mut cents: i64 = trade_cost_cents;
    let mut i: usize = 0;
    while i < portfolio.positions.len()
        invariant
            i <= portfolio.positions@.len(),
            positions == portfolio@.positions,
            forall|n: int|
                0 <= n <= positions.len() ==> fees::fits(
                    trade_cost_cents + #[trigger] themed(positions, registry@, theme@, n),
                ),
            cents == trade_cost_cents + themed(positions, registry@, theme@, i as int),
        decreases portfolio.positions@.len() - i,
    {
        proof {
            assert(positions[i as int] == portfolio.positions@[i as int]@);
            assert(fees::fits(
                trade_cost_cents + themed(positions, registry@, theme@, i + 1),
            ));
        }
        if !portfolio.positions[i].resolved && shares_theme(
            registry,
            portfolio.positions[i].event_id,
            theme,
        ) {
            cents = cents + portfolio.positions[i].cost_cents;
        }
        i = i + 1;
    }
    cents
}

/// What the API layer publishes about risk.
#[derive(Clone, Debug, PartialEq)]
pub struct RiskStatus {
    pub can_trade: bool,
    /// Why not, when `can_trade` is false. Empty means nothing is blocking.
    pub reasons: Vec<String>,
    pub open_positions: usize,
    pub limits: RiskLimits,
}

// ---------------------------------------------------------------------------
// Laws
// ---------------------------------------------------------------------------

/// A check fits in machine integers whenever the portfolio is well formed and
/// what is locked, together with the new trade, does.
pub proof fn lemma_check_fits(
    portfolio: PortfolioView,
    registry: RegistryView,
    event: EventId,
    theme: Option<Seq<char>>,
    cost: int,
)
    requires
        portfolio.wf(),
        0 <= cost,
        portfolio.capital_locked() + cost <= i64::MAX,
    ensures
        check_fits(portfolio, registry, event, theme, cost),
{
    portfolio::lemma_wf_fits(portfolio, Some(event));
    if let Some(shared) = theme {
        assert forall|n: int| 0 <= n <= portfolio.positions.len() implies fees::fits(
            cost + #[trigger] themed(portfolio.positions, registry, shared, n),
        ) by {
            lemma_themed_bounds(
                portfolio.positions,
                registry,
                shared,
                n,
                portfolio.positions.len() as int,
            );
        }
    }
}

proof fn lemma_themed_bounds(
    positions: Seq<PositionView>,
    registry: RegistryView,
    theme: Seq<char>,
    n: int,
    m: int,
)
    requires
        0 <= n <= m <= positions.len(),
        forall|i: int| 0 <= i < positions.len() ==> (#[trigger] positions[i]).cost_cents >= 0,
    ensures
        0 <= themed(positions, registry, theme, n) <= portfolio::locked(positions, None, m),
    decreases m,
{
    if m > 0 {
        assert(positions[m - 1].cost_cents >= 0);
        if n == m {
            lemma_themed_bounds(positions, registry, theme, n - 1, m - 1);
        } else {
            lemma_themed_bounds(positions, registry, theme, n, m - 1);
        }
    }
}

proof fn lemma_themed_prefix(
    a: Seq<PositionView>,
    b: Seq<PositionView>,
    registry: RegistryView,
    theme: Seq<char>,
    n: int,
)
    requires
        n <= a.len(),
        n <= b.len(),
        forall|i: int| 0 <= i < n ==> #[trigger] a[i] == b[i],
    ensures
        themed(a, registry, theme, n) == themed(b, registry, theme, n),
    decreases n,
{
    if n > 0 {
        lemma_themed_prefix(a, b, registry, theme, n - 1);
        assert(a[n - 1] == b[n - 1]);
    }
}

/// An accepted trade leaves every limit kept: once the position is held, the
/// event, its theme and the number of open positions are inside the limits.
pub proof fn an_accepted_trade_keeps_every_limit(
    portfolio: PortfolioView,
    registry: RegistryView,
    position: PositionView,
    limits: RiskLimits,
)
    requires
        !position.resolved,
        fees::fits(portfolio.capital_available_cents - position.cost_cents),
        portfolio.refusal(position) is None,
        refusal(
            portfolio,
            registry,
            position.event_id,
            theme_of(registry, position.event_id),
            position.cost_cents as int,
            limits,
        ) is None,
    ensures
        portfolio.holding(position).exposure(position.event_id) <= limits.max_per_event_cents,
        theme_of(registry, position.event_id) matches Some(theme) ==> theme_exposure(
            portfolio.holding(position),
            registry,
            theme,
        ) <= limits.max_per_theme_cents,
        portfolio.holding(position).open_count() <= limits.max_concurrent_trades,
{
    portfolio::entering_conserves_capital(portfolio, position);
    if let Some(theme) = theme_of(registry, position.event_id) {
        let held = portfolio.holding(position).positions;
        lemma_themed_prefix(
            portfolio.positions,
            held,
            registry,
            theme,
            portfolio.positions.len() as int,
        );
        assert(held[held.len() - 1] == position);
    }
}

/// Limits only ever loosen: raising one never turns an accepted trade away.
pub proof fn a_looser_limit_admits_as_much(
    portfolio: PortfolioView,
    registry: RegistryView,
    event: EventId,
    theme: Option<Seq<char>>,
    cost: int,
    tight: RiskLimits,
    loose: RiskLimits,
)
    requires
        tight.max_per_event_cents <= loose.max_per_event_cents,
        tight.max_per_theme_cents <= loose.max_per_theme_cents,
        tight.max_concurrent_trades <= loose.max_concurrent_trades,
        refusal(portfolio, registry, event, theme, cost, tight) is None,
    ensures
        refusal(portfolio, registry, event, theme, cost, loose) is None,
{
}

} // verus!
