//! The engine: apply a book update, mark the groups it dirtied, solve them,
//! hand the signals on, publish state.
//!
//! This is the only place the components meet. Feeds produce events, the book
//! store owns state, the registry says what relates to what, the solver decides
//! what is worth trading; none of them know about each other. The engine calls
//! them in a fixed order on every event, which is why the whole path is
//! single-owner and needs no locks: the work per update is microseconds, and
//! splitting it across tasks would add channel hops to parallelize nothing.
//!
//! Determinism is the property to protect. Given the same registry and the same
//! recorded stream, [`Engine::step`] must produce the same signals in the same
//! order as the live run did. Time comes in as a reading of the injected clock,
//! the dirty set is an ordered `Vec`, and the solver sorts its groups, so
//! nothing here depends on hash iteration order or wall time.
//!
//! # Deciding and spending are separate
//!
//! [`Engine::step`] is synchronous and touches no network: apply, solve, and
//! decide what *would* be traded. Placing the orders is somebody else's work;
//! the engine says which plans may go out ([`Engine::release`]) and records
//! what came back ([`Engine::settle`]). Keeping them apart means a slow venue
//! cannot delay the book keeping behind it.
//!
//! Between them sits admission, where a profitable trade gets refused for
//! reasons that have nothing to do with its edge: the venue is not healthy,
//! there is no capital, the position would concentrate too much in one event or
//! theme. Every refusal is counted and named.
use vstd::prelude::*;
use crate::book;
use crate::book::{Applied, BookStore, BooksAt, StoreView};
use crate::exec::atomic;
use crate::exec::atomic::{AtomicTrade, ExecutionError, ExecutionResult, DEFAULT_TIMEOUT_MS};
use crate::exec::{FillView, NewOrder, OrderAction, OrderFill, OrderView, TimeInForce};
use crate::feed::{EventView, FeedEvent};
use crate::fees;
use crate::fees::FeeModels;
use crate::health;
use crate::health::{HealthMonitor, HealthState, MonitorView, VenueHealth, DEFAULT_MAX_IDLE_MS};
use crate::metrics::{self, Metrics};
use crate::portfolio;
use crate::portfolio::{
    Portfolio, PortfolioSummary, PortfolioView, Position, PositionLeg, PositionLegView,
    PositionView,
};
use crate::registry::{EventId, GroupId, Registry, RegistryView};
use crate::risk;
use crate::risk::{RiskLimits, RiskStatus};
use crate::solver;
use crate::solver::costing;
use crate::solver::types::{Leg, Opportunity, OpportunityView, SolverConfig, SolverMetrics, Walk};
use crate::solver::{BookSource, Solver};
use crate::text;
use crate::types;
use crate::types::{Book, BookState, BookView, Cents, ContractId, Level, Side, Venue};
use crate::verify;

pub mod decisions;
pub mod laws;

verus! {

/// Everything the engine needs beyond its components.
#[derive(Clone, Copy, Debug, PartialEq, Eq, Structural)]
pub struct EngineConfig {
    pub solver: SolverConfig,
    pub risk: RiskLimits,
    pub max_idle_ms: u64,
    pub atomic_timeout_ms: u64,
    /// Whether a live order client may be used. Defaults to false, and the
    /// engine refuses a live client without it: forgetting a flag must not be
    /// the difference between a simulation and real money.
    pub allow_live_orders: bool,
    /// Whether an auto-discovered group may be traded with a live client.
    ///
    /// Separate from `allow_live_orders` because it is a different question. A
    /// hand-written group says a human read the resolution rules; an inferred
    /// one says the venue's metadata was read correctly. The solver prices every
    /// trade against its relation's own resolution states, so a relation that is
    /// wrong yields a confidently wrong guaranteed payoff — which is the worst
    /// possible input to something that can place orders.
    pub allow_inferred_live_orders: bool,
}

impl Default for EngineConfig {
    fn default() -> (config: Self)
        ensures
            config == (EngineConfig {
                solver: SolverConfig {
                    max_book_age_ms: 500,
                    min_net_edge_cents: 1,
                    min_annualized_return: types::Ratio { numer: 15, denom: 100 },
                    max_position_size: 500,
                },
                risk: RiskLimits {
                    max_per_event_cents: 50_000,
                    max_per_theme_cents: 100_000,
                    max_concurrent_trades: 10,
                },
                max_idle_ms: DEFAULT_MAX_IDLE_MS,
                atomic_timeout_ms: DEFAULT_TIMEOUT_MS,
                allow_live_orders: false,
                allow_inferred_live_orders: false,
            }),
    {
        EngineConfig {
            solver: SolverConfig::default(),
            risk: RiskLimits::default(),
            max_idle_ms: DEFAULT_MAX_IDLE_MS,
            atomic_timeout_ms: DEFAULT_TIMEOUT_MS,
            allow_live_orders: false,
            allow_inferred_live_orders: false,
        }
    }
}

// ---------------------------------------------------------------------------
// Signals
// ---------------------------------------------------------------------------

/// Where accepted signals go.
///
/// The engine only needs somewhere to put an opportunity that does not involve
/// knowing what happens to it next.
pub trait OpportunitySink: Send + Sized {
    /// What accepting a signal does to the sink.
    spec fn accepts(
        before: Self,
        after: Self,
        opportunity: OpportunityView,
        fills: Seq<FillView>,
        now_ms: u64,
    ) -> bool;

    fn accept(&mut self, opportunity: &Opportunity, fills: &[OrderFill], now_ms: u64)
        requires
            atomic::costs_fit(atomic::fills_view(fills@)),
        ensures
            Self::accepts(
                *old(self),
                *final(self),
                opportunity@,
                atomic::fills_view(fills@),
                now_ms,
            ),
    ;
}

/// One accepted signal, flattened for logging and for replay comparison.
#[derive(Debug, PartialEq)]
pub struct Signal {
    pub detected_at_ms: u64,
    pub group: u32,
    pub qty: i64,
    pub capital_cents: Cents,
    pub fees_cents: Cents,
    pub net_cents: Cents,
    /// Milliseconds until the locked capital comes back; with the net and the
    /// capital it gives the annualized return and the days to resolution.
    pub horizon_ms: u64,
    pub legs: Vec<SignalLeg>,
    /// Venue order ids backing this signal. Empty means the trade was decided
    /// but never placed, which is what a dry run looks like.
    pub order_ids: Vec<String>,
    /// What the fills actually cost, which is not always what was quoted.
    pub filled_cost_cents: Cents,
}

#[derive(Clone, Copy, Debug, PartialEq)]
pub struct SignalLeg {
    pub venue: Venue,
    pub contract: u32,
    /// The outcome bought. Every leg of an arbitrage is a purchase; selling an
    /// outcome on these venues is buying its complement.
    pub side: &'static str,
    pub qty: i64,
    pub cost_cents: Cents,
    pub fee_cents: Cents,
}

/// What a [`SignalLeg`] says.
#[verifier::ext_equal]
pub struct SignalLegView {
    pub venue: Venue,
    pub contract: u32,
    pub side: Seq<char>,
    pub qty: i64,
    pub cost_cents: Cents,
    pub fee_cents: Cents,
}

impl View for SignalLeg {
    type V = SignalLegView;

    open spec fn view(&self) -> SignalLegView {
        SignalLegView {
            venue: self.venue,
            contract: self.contract,
            side: self.side@,
            qty: self.qty,
            cost_cents: self.cost_cents,
            fee_cents: self.fee_cents,
        }
    }
}

/// What a [`Signal`] says.
#[verifier::ext_equal]
pub struct SignalView {
    pub detected_at_ms: u64,
    pub group: u32,
    pub qty: i64,
    pub capital_cents: Cents,
    pub fees_cents: Cents,
    pub net_cents: Cents,
    pub horizon_ms: u64,
    pub legs: Seq<SignalLegView>,
    pub order_ids: Seq<Seq<char>>,
    pub filled_cost_cents: Cents,
}

pub open spec fn signal_legs_view(legs: Seq<SignalLeg>) -> Seq<SignalLegView> {
    legs.map_values(|leg: SignalLeg| leg@)
}

impl View for Signal {
    type V = SignalView;

    open spec fn view(&self) -> SignalView {
        SignalView {
            detected_at_ms: self.detected_at_ms,
            group: self.group,
            qty: self.qty,
            capital_cents: self.capital_cents,
            fees_cents: self.fees_cents,
            net_cents: self.net_cents,
            horizon_ms: self.horizon_ms,
            legs: signal_legs_view(self.legs@),
            order_ids: text::views(self.order_ids@),
            filled_cost_cents: self.filled_cost_cents,
        }
    }
}

pub open spec fn signals_view(signals: Seq<Signal>) -> Seq<SignalView> {
    signals.map_values(|signal: Signal| signal@)
}

/// The name of an outcome.
pub open spec fn side_name(side: Side) -> Seq<char> {
    match side {
        Side::Yes => "yes"@,
        Side::No => "no"@,
    }
}

/// The legs of an opportunity as a signal publishes them.
pub open spec fn published_legs(legs: Seq<Leg>) -> Seq<SignalLegView> {
    legs.map_values(
        |leg: Leg|
            SignalLegView {
                venue: leg.venue,
                contract: leg.contract_id.0,
                side: side_name(leg.side),
                qty: leg.qty,
                cost_cents: leg.total_cost_cents,
                fee_cents: leg.fee_cents,
            },
    )
}

pub open spec fn ids_of(fills: Seq<FillView>) -> Seq<Seq<char>> {
    fills.map_values(|fill: FillView| fill.order_id)
}

/// The signal that an opportunity and its fills make.
pub open spec fn signalled(
    opportunity: OpportunityView,
    fills: Seq<FillView>,
    now_ms: u64,
) -> SignalView {
    SignalView {
        detected_at_ms: now_ms,
        group: opportunity.group.0,
        qty: opportunity.qty,
        capital_cents: opportunity.capital_cents,
        fees_cents: opportunity.fees_cents,
        net_cents: opportunity.net_cents,
        horizon_ms: opportunity.horizon_ms,
        legs: published_legs(opportunity.legs),
        order_ids: ids_of(fills),
        filled_cost_cents: atomic::total_cost(fills, fills.len() as int) as i64,
    }
}

fn signal_legs(opportunity: &Opportunity) -> (legs: Vec<SignalLeg>)
    ensures
        signal_legs_view(legs@) == published_legs(opportunity@.legs),
{
    let mut legs: Vec<SignalLeg> = Vec::new();
    let mut i: usize = 0;
    while i < opportunity.legs.len()
        invariant
            i <= opportunity.legs@.len(),
            legs@.len() == i,
            forall|k: int|
                0 <= k < i ==> (#[trigger] legs@[k])@ == published_legs(opportunity.legs@)[k],
        decreases opportunity.legs@.len() - i,
    {
        let leg: Leg = opportunity.legs[i];
        legs.push(
            SignalLeg {
                venue: leg.venue,
                contract: leg.contract_id.0,
                side: match leg.side {
                    Side::Yes => "yes",
                    Side::No => "no",
                },
                qty: leg.qty,
                cost_cents: leg.total_cost_cents,
                fee_cents: leg.fee_cents,
            },
        );
        i = i + 1;
    }
    assert(signal_legs_view(legs@) =~= published_legs(opportunity.legs@));
    legs
}

fn order_ids(fills: &[OrderFill]) -> (ids: Vec<String>)
    ensures
        text::views(ids@) == ids_of(atomic::fills_view(fills@)),
{
    let mut ids: Vec<String> = Vec::new();
    let mut i: usize = 0;
    while i < fills.len()
        invariant
            i <= fills@.len(),
            ids@.len() == i,
            forall|k: int| 0 <= k < i ==> (#[trigger] ids@[k])@ == fills@[k].order_id@,
        decreases fills@.len() - i,
    {
        ids.push(fills[i].order_id.as_str().to_owned());
        i = i + 1;
    }
    assert(text::views(ids@) =~= ids_of(atomic::fills_view(fills@)));
    ids
}

/// What a set of fills cost.
fn cost_of(fills: &[OrderFill]) -> (total: Cents)
    requires
        atomic::costs_fit(atomic::fills_view(fills@)),
    ensures
        total == atomic::total_cost(atomic::fills_view(fills@), fills@.len() as int),
{
    let ghost views = atomic::fills_view(fills@);
    let mut total: i64 = 0;
    let mut i: usize = 0;
    while i < fills.len()
        invariant
            i <= fills@.len(),
            views == atomic::fills_view(fills@),
            atomic::costs_fit(views),
            total == atomic::total_cost(views, i as int),
        decreases fills@.len() - i,
    {
        proof {
            assert(views[i as int] == fills@[i as int]@);
            assert(fees::fits(atomic::total_cost(views, i + 1)));
        }
        total = total + fills[i].cost_cents();
        i = i + 1;
    }
    total
}

impl Signal {
    /// The signal that an opportunity and its fills make.
    pub fn new(opportunity: &Opportunity, fills: &[OrderFill], now_ms: u64) -> (signal: Self)
        requires
            atomic::costs_fit(atomic::fills_view(fills@)),
        ensures
            signal@ == signalled(opportunity@, atomic::fills_view(fills@), now_ms),
    {
        Signal {
            detected_at_ms: now_ms,
            group: opportunity.group.0,
            qty: opportunity.qty,
            capital_cents: opportunity.capital_cents,
            fees_cents: opportunity.fees_cents,
            net_cents: opportunity.net_cents,
            horizon_ms: opportunity.horizon_ms,
            legs: signal_legs(opportunity),
            order_ids: order_ids(fills),
            filled_cost_cents: cost_of(fills),
        }
    }
}

impl Clone for Signal {
    fn clone(&self) -> (copy: Self)
        ensures
            copy@ == self@,
    {
        let mut legs: Vec<SignalLeg> = Vec::new();
        let mut i: usize = 0;
        while i < self.legs.len()
            invariant
                i <= self.legs@.len(),
                legs@ == self.legs@.subrange(0, i as int),
            decreases self.legs@.len() - i,
        {
            legs.push(self.legs[i]);
            i = i + 1;
            assert(legs@ =~= self.legs@.subrange(0, i as int));
        }
        assert(self.legs@.subrange(0, self.legs@.len() as int) =~= self.legs@);
        let copy = Signal {
            detected_at_ms: self.detected_at_ms,
            group: self.group,
            qty: self.qty,
            capital_cents: self.capital_cents,
            fees_cents: self.fees_cents,
            net_cents: self.net_cents,
            horizon_ms: self.horizon_ms,
            legs,
            order_ids: text::copies(self.order_ids.as_slice()),
            filled_cost_cents: self.filled_cost_cents,
        };
        copy
    }
}

/// Records every accepted signal in order: the thing replay determinism is
/// asserted over.
#[derive(Clone, Debug, PartialEq)]
pub struct SignalLog {
    pub signals: Vec<Signal>,
}

impl Default for SignalLog {
    fn default() -> (log: Self)
        ensures
            log.signals@.len() == 0,
    {
        SignalLog { signals: Vec::new() }
    }
}

impl OpportunitySink for SignalLog {
    open spec fn accepts(
        before: Self,
        after: Self,
        opportunity: OpportunityView,
        fills: Seq<FillView>,
        now_ms: u64,
    ) -> bool {
        signals_view(after.signals@) == signals_view(before.signals@).push(
            signalled(opportunity, fills, now_ms),
        )
    }

    fn accept(&mut self, opportunity: &Opportunity, fills: &[OrderFill], now_ms: u64) {
        let ghost before = self.signals@;
        let signal: Signal = Signal::new(opportunity, fills, now_ms);
        self.signals.push(signal);
        assert(signals_view(self.signals@) =~= signals_view(before).push(signal@));
    }
}

// ---------------------------------------------------------------------------
// State
// ---------------------------------------------------------------------------

#[derive(Clone, Copy, Debug, PartialEq, Eq, Structural)]
pub struct EngineMetrics {
    pub events_received: u64,
    pub books_updated: u64,
    pub contracts_marked_dirty: u64,
    pub groups_dirtied: u64,
    pub signals_accepted: u64,
    pub sequence_gaps: u64,
    pub resyncs_requested: u64,
    pub states_broadcast: u64,
    /// Admission refusals, by cause: a profitable trade the engine declined.
    pub blocked_unhealthy: u64,
    pub blocked_no_capital: u64,
    pub blocked_risk_limit: u64,
    pub blocked_unbound_contract: u64,
    /// Live orders withheld from a group nobody has confirmed by hand.
    pub blocked_inferred_group: u64,
    pub trades_placed: u64,
    pub trades_no_fill: u64,
    /// Legged or timed out: a position may exist that nobody planned.
    pub trades_needing_reconciliation: u64,
}

impl EngineMetrics {
    pub open spec fn zero() -> EngineMetrics {
        EngineMetrics {
            events_received: 0,
            books_updated: 0,
            contracts_marked_dirty: 0,
            groups_dirtied: 0,
            signals_accepted: 0,
            sequence_gaps: 0,
            resyncs_requested: 0,
            states_broadcast: 0,
            blocked_unhealthy: 0,
            blocked_no_capital: 0,
            blocked_risk_limit: 0,
            blocked_unbound_contract: 0,
            blocked_inferred_group: 0,
            trades_placed: 0,
            trades_no_fill: 0,
            trades_needing_reconciliation: 0,
        }
    }
}

impl Default for EngineMetrics {
    fn default() -> (metrics: Self)
        ensures
            metrics == EngineMetrics::zero(),
    {
        EngineMetrics {
            events_received: 0,
            books_updated: 0,
            contracts_marked_dirty: 0,
            groups_dirtied: 0,
            signals_accepted: 0,
            sequence_gaps: 0,
            resyncs_requested: 0,
            states_broadcast: 0,
            blocked_unhealthy: 0,
            blocked_no_capital: 0,
            blocked_risk_limit: 0,
            blocked_unbound_contract: 0,
            blocked_inferred_group: 0,
            trades_placed: 0,
            trades_no_fill: 0,
            trades_needing_reconciliation: 0,
        }
    }
}

/// A contract's book, compressed to what a dashboard actually shows.
///
/// Full ladders are deliberately not published. A broadcast happens on every
/// applied event, and copying a hundred levels per contract per delta would
/// cost more than the solve it follows.
#[derive(Clone, Debug, PartialEq)]
pub struct ContractSummary {
    pub contract: u32,
    pub venue: Venue,
    pub ticker: String,
    pub state: &'static str,
    pub seq: u64,
    pub best_bid: Option<Cents>,
    pub best_ask: Option<Cents>,
    pub best_no_bid: Option<Cents>,
    pub best_no_ask: Option<Cents>,
    pub age_ms: u64,
}

/// What a [`ContractSummary`] says.
#[verifier::ext_equal]
pub struct SummaryView {
    pub contract: u32,
    pub venue: Venue,
    pub ticker: Seq<char>,
    pub state: Seq<char>,
    pub seq: u64,
    pub best_bid: Option<Cents>,
    pub best_ask: Option<Cents>,
    pub best_no_bid: Option<Cents>,
    pub best_no_ask: Option<Cents>,
    pub age_ms: u64,
}

impl View for ContractSummary {
    type V = SummaryView;

    open spec fn view(&self) -> SummaryView {
        SummaryView {
            contract: self.contract,
            venue: self.venue,
            ticker: self.ticker@,
            state: self.state@,
            seq: self.seq,
            best_bid: self.best_bid,
            best_ask: self.best_ask,
            best_no_bid: self.best_no_bid,
            best_no_ask: self.best_no_ask,
            age_ms: self.age_ms,
        }
    }
}

pub open spec fn price_of(level: Option<Level>) -> Option<Cents> {
    match level {
        Some(level) => Some(level.price),
        None => None,
    }
}

/// One book of a store, summarized at an instant.
pub open spec fn summarized(store: StoreView, book: BookView, now_ms: u64) -> SummaryView {
    SummaryView {
        contract: book.contract_id.0,
        venue: book.venue,
        ticker: if book.contract_id.0 < store.names.len() {
            store.names[book.contract_id.0 as int].1
        } else {
            Seq::empty()
        },
        state: verify::state_name(book.state),
        seq: book.seq,
        best_bid: price_of(types::first_level(book.bids())),
        best_ask: price_of(types::first_level(book.asks())),
        best_no_bid: price_of(types::first_level(book.no_bids())),
        best_no_ask: price_of(types::first_level(book.no_asks())),
        age_ms: if now_ms > book.updated_at_ms {
            (now_ms - book.updated_at_ms) as u64
        } else {
            0
        },
    }
}

/// What the API layer publishes, after every applied update.
#[derive(Clone, Debug, PartialEq)]
pub struct EngineState {
    pub timestamp_ms: u64,
    pub contracts: Vec<ContractSummary>,
    pub opportunities: Vec<Signal>,
    pub engine: EngineMetrics,
    pub solver: SolverMetrics,
    pub portfolio: PortfolioSummary,
    pub health: HealthStatus,
    pub risk: RiskStatus,
}

#[derive(Clone, Copy, Debug, PartialEq)]
pub struct HealthStatus {
    pub kalshi_healthy: bool,
    pub kalshi_state: HealthState,
    pub last_message_age_ms: u64,
    /// What the feed counted, for a feed that counts.
    pub feed: Option<Metrics>,
}

/// A trade that passed every gate and is ready to place.
#[derive(Clone, Debug, PartialEq)]
pub struct PlannedTrade {
    pub opportunity: Opportunity,
    pub event: EventId,
    pub trade: AtomicTrade,
}

/// What a [`PlannedTrade`] says.
#[verifier::ext_equal]
pub struct PlanView {
    pub opportunity: OpportunityView,
    pub event: EventId,
    pub legs: Seq<OrderView>,
    pub timeout_ms: u64,
}

pub open spec fn orders_view(orders: Seq<NewOrder>) -> Seq<OrderView> {
    orders.map_values(|order: NewOrder| order@)
}

impl View for PlannedTrade {
    type V = PlanView;

    open spec fn view(&self) -> PlanView {
        PlanView {
            opportunity: self.opportunity@,
            event: self.event,
            legs: orders_view(self.trade.legs@),
            timeout_ms: self.trade.timeout_ms,
        }
    }
}

pub open spec fn plans_view(plans: Seq<PlannedTrade>) -> Seq<PlanView> {
    plans.map_values(|plan: PlannedTrade| plan@)
}

/// Generic over the sink rather than boxed: the caller keeps the concrete type,
/// so a replay can read its own signal log back without a lock in the hot path.
pub struct Engine<S: OpportunitySink> {
    registry: Registry,
    book_store: BookStore,
    solver: Solver,
    sink: S,
    fees: FeeModels,
    config: EngineConfig,
    /// The venue that a sequence gap was on, consumed by the run loop, which
    /// owns the feed.
    resync_pending: Option<Venue>,
    pub portfolio: Portfolio,
    pub health: HealthMonitor,
    pub metrics: EngineMetrics,
}

/// What an [`Engine`] holds, beside its sink.
#[verifier::ext_equal]
pub struct EngineView {
    pub registry: RegistryView,
    pub store: StoreView,
    pub solver: SolverMetrics,
    pub fees: FeeModels,
    pub config: EngineConfig,
    pub resync_pending: Option<Venue>,
    pub portfolio: PortfolioView,
    pub health: MonitorView,
    pub metrics: EngineMetrics,
}

impl<S: OpportunitySink> View for Engine<S> {
    type V = EngineView;

    closed spec fn view(&self) -> EngineView {
        EngineView {
            registry: self.registry@,
            store: self.book_store@,
            solver: self.solver.metrics,
            fees: self.fees,
            config: self.config,
            resync_pending: self.resync_pending,
            portfolio: self.portfolio@,
            health: self.health@,
            metrics: self.metrics,
        }
    }
}

/// The groups that a set of dirty contracts touches.
pub open spec fn touched_groups(registry: RegistryView, dirty: Seq<ContractId>) -> Set<i64> {
    Set::new(
        |q: i64| 0 <= q <= u32::MAX && solver::touched(registry.groups, dirty, q as int),
    )
}

/// The event of an opportunity: that of its group's first member.
///
/// Every member of a group is bound to the same event; the registry refuses to
/// load one that is not, so reading the first is enough.
pub open spec fn event_of(registry: RegistryView, group: GroupId) -> Option<EventId> {
    if group.0 < registry.groups.len() {
        let members = registry.groups[group.0 as int].relation.members();
        if members.len() > 0 && registry.bindings.contains_key(members[0].0) {
            Some(registry.bindings[members[0].0].event)
        } else {
            None
        }
    } else {
        None
    }
}

/// The idempotency key of one leg.
pub open spec fn order_key(group: GroupId, now_ms: u64, index: int) -> Seq<char> {
    "sum100-"@ + text::decimal(group.0 as nat) + "-"@ + text::decimal(now_ms as nat) + "-"@
        + text::decimal(index as nat)
}

/// The order that one leg becomes, if its contract is bound and its book has
/// anything to take.
///
/// The limit is the worst level the solver's walk actually consumed, not the
/// blended average: a limit at the average would have the venue refuse the
/// deeper half of the very fill that was costed.
pub open spec fn planned_leg(
    registry: RegistryView,
    store: StoreView,
    group: GroupId,
    leg: Leg,
    index: int,
    now_ms: u64,
) -> Option<OrderView> {
    if !registry.bindings.contains_key(leg.contract_id.0) {
        None
    } else {
        match store.get(leg.contract_id) {
            None => None,
            Some(book) => match costing::worst_price(
                costing::walked(costing::asks_for(book, leg.side), leg.qty as int),
                costing::max(leg.qty as int, 0),
                None,
            ) {
                None => None,
                Some(limit_price) => Some(
                    OrderView {
                        contract_id: leg.contract_id,
                        ticker: registry.bindings[leg.contract_id.0].venue_ticker,
                        outcome: leg.side,
                        action: OrderAction::Buy,
                        quantity: leg.qty,
                        limit_price,
                        time_in_force: TimeInForce::FillOrKill,
                        client_order_id: order_key(group, now_ms, index),
                    },
                ),
            },
        }
    }
}

/// The orders of the first `n` legs, or none where one of them has no order.
pub open spec fn planned_legs(
    registry: RegistryView,
    store: StoreView,
    group: GroupId,
    legs: Seq<Leg>,
    n: int,
    now_ms: u64,
) -> Option<Seq<OrderView>>
    decreases n,
{
    if n <= 0 {
        Some(Seq::empty())
    } else {
        match planned_legs(registry, store, group, legs, n - 1, now_ms) {
            None => None,
            Some(before) => match planned_leg(registry, store, group, legs[n - 1], n - 1, now_ms) {
                None => None,
                Some(order) => Some(before.push(order)),
            },
        }
    }
}

/// What admission says of one opportunity.
#[verifier::ext_equal]
pub enum Verdict {
    /// A venue that a leg needs is not healthy.
    Unhealthy,
    /// The opportunity has no event, or a leg has no order.
    Unbound,
    NoCapital,
    RiskLimit,
    Planned(PlanView),
}

impl EngineView {
    /// The store, the registry and the portfolio hold together, and machine
    /// integers hold every position the solver can propose.
    pub open spec fn fits(self) -> bool {
        &&& self.store.wf()
        &&& solver::groups_fit(&self.fees, self.registry.groups, self.config.solver)
    }

    pub open spec fn counting(self, metrics: EngineMetrics) -> EngineView {
        EngineView { metrics, ..self }
    }

    /// The health record after an event.
    pub open spec fn heard(self, event: EventView, now_ms: u64) -> MonitorView {
        match self.store.venue_of(event) {
            Some(venue) => self.health.folded(event, venue, now_ms),
            None => self.health,
        }
    }

    /// The portfolio after the calendar day has been looked at.
    pub open spec fn dated(self, now_ms: u64) -> PortfolioView {
        if now_ms >= self.portfolio.daily_reset_at_ms {
            PortfolioView {
                daily_loss_realized_cents: 0,
                daily_reset_at_ms: portfolio::midnight_after(now_ms) as u64,
                ..self.portfolio
            }
        } else {
            self.portfolio
        }
    }

    /// The books as the solver reads them.
    pub open spec fn quotes(self) -> costing::Quotes {
        |contract: ContractId| self.store.get(contract)
    }

    /// The engine after an event has been applied and before anything is
    /// solved.
    pub open spec fn received(self, event: EventView, now_ms: u64) -> EngineView {
        let (store, applied) = self.store.applied(event, now_ms);
        EngineView {
            store,
            health: self.heard(event, now_ms),
            portfolio: self.dated(now_ms),
            resync_pending: if applied is Gap {
                self.store.venue_of(event)
            } else {
                self.resync_pending
            },
            metrics: EngineMetrics {
                events_received: solver::types::bumped(self.metrics.events_received),
                sequence_gaps: if applied is Gap {
                    solver::types::bumped(self.metrics.sequence_gaps)
                } else {
                    self.metrics.sequence_gaps
                },
                ..self.metrics
            },
            ..self
        }
    }

    /// The engine after an event has been applied and solved, and what the
    /// solver found, best first.
    pub open spec fn stepped(self, event: EventView, now_ms: u64) -> (
        EngineView,
        Seq<OpportunityView>,
    ) {
        let dirty = book::dirtied(self.store.applied(event, now_ms).1);
        let received = self.received(event, now_ms);
        if dirty.len() == 0 {
            (received, Seq::empty())
        } else {
            let (solved, emitted) = solver::evaluated(
                self.solver,
                &self.fees,
                self.registry.groups,
                dirty,
                received.quotes(),
                self.config.solver,
                now_ms,
                self.registry.groups.len() as int,
            );
            (
                EngineView {
                    solver: solved,
                    metrics: EngineMetrics {
                        books_updated: solver::types::bumped(received.metrics.books_updated),
                        contracts_marked_dirty: metrics::raised(
                            received.metrics.contracts_marked_dirty,
                            dirty.len() as int,
                        ),
                        groups_dirtied: metrics::raised(
                            received.metrics.groups_dirtied,
                            touched_groups(self.registry, dirty).len() as int,
                        ),
                        ..received.metrics
                    },
                    ..received
                },
                costing::ranked(emitted),
            )
        }
    }

    /// Whether every venue that an opportunity needs may be traded.
    pub open spec fn reachable(self, opportunity: OpportunityView, now_ms: u64) -> bool {
        forall|i: int|
            0 <= i < opportunity.legs.len() ==> self.health.tradeable(
                (#[trigger] opportunity.legs[i]).venue,
                now_ms,
            )
    }

    /// What admission says of one opportunity. Health first, because a trade
    /// decided on a dead feed is priced off a fiction; then capital, then
    /// concentration.
    pub open spec fn verdict(self, opportunity: OpportunityView, now_ms: u64) -> Verdict {
        if !self.reachable(opportunity, now_ms) {
            Verdict::Unhealthy
        } else {
            match event_of(self.registry, opportunity.group) {
                None => Verdict::Unbound,
                Some(event) => if self.portfolio.capital_available_cents
                    < opportunity.capital_cents || !self.portfolio.day_open() {
                    Verdict::NoCapital
                } else if risk::refusal(
                    self.portfolio,
                    self.registry,
                    event,
                    risk::theme_of(self.registry, event),
                    opportunity.capital_cents as int,
                    self.config.risk,
                ) is Some {
                    Verdict::RiskLimit
                } else {
                    match planned_legs(
                        self.registry,
                        self.store,
                        opportunity.group,
                        opportunity.legs,
                        opportunity.legs.len() as int,
                        now_ms,
                    ) {
                        None => Verdict::Unbound,
                        Some(legs) => Verdict::Planned(
                            PlanView {
                                opportunity,
                                event,
                                legs,
                                timeout_ms: self.config.atomic_timeout_ms,
                            },
                        ),
                    }
                },
            }
        }
    }

    /// The counters and the plans after the first `n` opportunities.
    pub open spec fn judged(self, opportunities: Seq<OpportunityView>, now_ms: u64, n: int) -> (
        EngineMetrics,
        Seq<PlanView>,
    )
        decreases n,
    {
        if n <= 0 {
            (self.metrics, Seq::empty())
        } else {
            let (m, plans) = self.judged(opportunities, now_ms, n - 1);
            match self.verdict(opportunities[n - 1], now_ms) {
                Verdict::Unhealthy => (
                    EngineMetrics {
                        blocked_unhealthy: solver::types::bumped(m.blocked_unhealthy),
                        ..m
                    },
                    plans,
                ),
                Verdict::Unbound => (
                    EngineMetrics {
                        blocked_unbound_contract: solver::types::bumped(
                            m.blocked_unbound_contract,
                        ),
                        ..m
                    },
                    plans,
                ),
                Verdict::NoCapital => (
                    EngineMetrics {
                        blocked_no_capital: solver::types::bumped(m.blocked_no_capital),
                        ..m
                    },
                    plans,
                ),
                Verdict::RiskLimit => (
                    EngineMetrics {
                        blocked_risk_limit: solver::types::bumped(m.blocked_risk_limit),
                        ..m
                    },
                    plans,
                ),
                Verdict::Planned(plan) => (m, plans.push(plan)),
            }
        }
    }

    /// The engine after admission, and the plans that passed every gate.
    pub open spec fn admitted(self, opportunities: Seq<OpportunityView>, now_ms: u64) -> (
        EngineView,
        Seq<PlanView>,
    ) {
        if opportunities.len() == 0 {
            (self, Seq::empty())
        } else {
            let (metrics, plans) = self.judged(opportunities, now_ms, opportunities.len() as int);
            (
                EngineView {
                    metrics,
                    health: self.health.asked(Venue::Kalshi, now_ms).asked(
                        Venue::Polymarket,
                        now_ms,
                    ),
                    ..self
                },
                plans,
            )
        }
    }

    /// Whether a plan rests on a group that nobody has confirmed by hand.
    pub open spec fn inferred(self, plan: PlanView) -> bool {
        plan.opportunity.group.0 < self.registry.groups.len()
            && self.registry.groups[plan.opportunity.group.0 as int].inferred
    }

    /// Whether a plan is withheld from a client.
    pub open spec fn withheld(self, plan: PlanView, live: bool) -> bool {
        live && !self.config.allow_inferred_live_orders && self.inferred(plan)
    }

    /// The plans among the first `n` that may go out, and how many are
    /// withheld.
    pub open spec fn releasing(self, plans: Seq<PlanView>, live: bool, n: int) -> (
        EngineMetrics,
        Seq<PlanView>,
    )
        decreases n,
    {
        if n <= 0 {
            (self.metrics, Seq::empty())
        } else {
            let (m, out) = self.releasing(plans, live, n - 1);
            if self.withheld(plans[n - 1], live) {
                (
                    EngineMetrics {
                        blocked_inferred_group: solver::types::bumped(m.blocked_inferred_group),
                        ..m
                    },
                    out,
                )
            } else {
                (m, out.push(plans[n - 1]))
            }
        }
    }

    /// The plans that may go out to a client. A live client without the
    /// explicit opt-in gets none.
    pub open spec fn released(self, plans: Seq<PlanView>, live: bool) -> (
        EngineView,
        Seq<PlanView>,
    ) {
        if live && !self.config.allow_live_orders {
            (self, Seq::empty())
        } else {
            let (metrics, out) = self.releasing(plans, live, plans.len() as int);
            (self.counting(metrics), out)
        }
    }
}

/// What the fees of the first `n` fills come to.
pub open spec fn fees_paid(fills: Seq<FillView>, n: int) -> int
    decreases n,
{
    if n <= 0 {
        0
    } else {
        fees_paid(fills, n - 1) + fills[n - 1].fee_cents
    }
}

/// The position that a set of fills created.
///
/// Cost comes from the fills, not from the opportunity that predicted them:
/// what was actually paid is what is actually at risk.
pub open spec fn opened(plan: PlanView, fills: Seq<FillView>, now_ms: u64) -> PositionView {
    PositionView {
        event_id: plan.event,
        group: plan.opportunity.group.0,
        legs: fills.map_values(
            |fill: FillView|
                PositionLegView {
                    contract_id: fill.contract_id,
                    side: fill.outcome,
                    quantity: fill.quantity_filled,
                    average_entry_price: fill.average_price,
                    order_ids: seq![fill.order_id],
                },
        ),
        cost_cents: atomic::total_cost(fills, fills.len() as int) as i64,
        fees_cents: fees_paid(fills, fills.len() as int) as i64,
        entry_time_ms: now_ms,
        resolved: false,
        pnl_realized_cents: 0,
        pnl_unrealized_cents: 0,
    }
}

/// Machine integers hold what a set of fills adds up to.
pub open spec fn fills_fit(fills: Seq<FillView>) -> bool {
    &&& atomic::costs_fit(fills)
    &&& forall|n: int| 0 <= n <= fills.len() ==> fees::fits(#[trigger] fees_paid(fills, n))
}

/// What a trade came to, as the engine is told of it.
pub open spec fn outcome_view(outcome: Result<ExecutionResult, ExecutionError>) -> Result<
    Seq<FillView>,
    atomic::ExecutionErrorView,
> {
    match outcome {
        Ok(result) => Ok(atomic::fills_view(result.fills@)),
        Err(error) => Err(error@),
    }
}

/// Whether a leg is among the fills.
pub open spec fn is_filled(leg: Leg, fills: Seq<FillView>) -> bool {
    exists|k: int|
        0 <= k < fills.len() && (#[trigger] fills[k]).contract_id == leg.contract_id
            && fills[k].outcome == leg.side
}

/// Whether any leg of a plan was missed on a venue.
pub open spec fn missed_on(plan: PlanView, fills: Seq<FillView>, venue: Venue) -> bool {
    exists|i: int|
        0 <= i < plan.opportunity.legs.len() && (#[trigger] plan.opportunity.legs[i]).venue
            == venue && !is_filled(plan.opportunity.legs[i], fills)
}

/// The health record after a trade failed: it counts against the venues that
/// missed a leg, and a venue that filled all of its legs is not to blame.
pub open spec fn blamed(health: MonitorView, plan: PlanView, fills: Seq<FillView>) -> MonitorView {
    let first = if missed_on(plan, fills, Venue::Kalshi) {
        health.erred(Venue::Kalshi)
    } else {
        health
    };
    if missed_on(plan, fills, Venue::Polymarket) {
        first.erred(Venue::Polymarket)
    } else {
        first
    }
}

/// What a failed trade is known to have filled.
pub open spec fn known_fills(error: atomic::ExecutionErrorView) -> Seq<FillView> {
    match error {
        atomic::ExecutionErrorView::Legged { filled, .. } => filled,
        _ => Seq::empty(),
    }
}

impl EngineView {
    /// The engine after a trade came back, and the signal it made, if it is now
    /// a position.
    pub open spec fn settled(
        self,
        plan: PlanView,
        outcome: Result<Seq<FillView>, atomic::ExecutionErrorView>,
        now_ms: u64,
    ) -> (EngineView, Option<SignalView>) {
        match outcome {
            Ok(fills) => {
                let position = opened(plan, fills, now_ms);
                if self.portfolio.refusal(position) is Some {
                    (
                        self.counting(
                            EngineMetrics {
                                trades_needing_reconciliation: solver::types::bumped(
                                    self.metrics.trades_needing_reconciliation,
                                ),
                                ..self.metrics
                            },
                        ),
                        None,
                    )
                } else {
                    (
                        EngineView {
                            portfolio: self.portfolio.holding(position),
                            metrics: EngineMetrics {
                                trades_placed: solver::types::bumped(self.metrics.trades_placed),
                                signals_accepted: solver::types::bumped(
                                    self.metrics.signals_accepted,
                                ),
                                ..self.metrics
                            },
                            ..self
                        },
                        Some(signalled(plan.opportunity, fills, now_ms)),
                    )
                }
            },
            Err(atomic::ExecutionErrorView::NoFills { .. }) => (
                EngineView {
                    health: blamed(self.health, plan, Seq::empty()),
                    metrics: EngineMetrics {
                        trades_no_fill: solver::types::bumped(self.metrics.trades_no_fill),
                        ..self.metrics
                    },
                    ..self
                },
                None,
            ),
            Err(error) => (
                EngineView {
                    health: blamed(self.health, plan, known_fills(error)),
                    metrics: EngineMetrics {
                        trades_needing_reconciliation: solver::types::bumped(
                            self.metrics.trades_needing_reconciliation,
                        ),
                        ..self.metrics
                    },
                    ..self
                },
                None,
            ),
        }
    }
}

impl<S: OpportunitySink> Engine<S> {
    /// The registry's indexes agree with its tables.
    pub closed spec fn wf(&self) -> bool {
        self.registry.wf()
    }

    /// The sink as it stands.
    pub closed spec fn sunk(&self) -> S {
        self.sink
    }

    pub fn new(
        registry: Registry,
        book_store: BookStore,
        sink: S,
        fees: FeeModels,
        config: EngineConfig,
        portfolio: Portfolio,
    ) -> (engine: Self)
        ensures
            engine@ == (EngineView {
                registry: registry@,
                store: book_store@,
                solver: SolverMetrics::zero(),
                fees,
                config,
                resync_pending: None,
                portfolio: portfolio@,
                health: MonitorView::unproven(config.max_idle_ms),
                metrics: EngineMetrics::zero(),
            }),
            engine.sunk() == sink,
            registry.wf() ==> engine.wf(),
    {
        Engine {
            registry,
            book_store,
            solver: Solver::new(),
            sink,
            fees,
            config,
            resync_pending: None,
            portfolio,
            health: HealthMonitor::new(config.max_idle_ms),
            metrics: EngineMetrics::default(),
        }
    }

    pub fn registry(&self) -> (registry: &Registry)
        ensures
            registry@ == self@.registry,
            self.wf() ==> registry.wf(),
    {
        &self.registry
    }

    pub fn book_store(&self) -> (store: &BookStore)
        ensures
            store@ == self@.store,
    {
        &self.book_store
    }

    pub fn solver_metrics(&self) -> (metrics: &SolverMetrics)
        ensures
            *metrics == self@.solver,
    {
        &self.solver.metrics
    }

    pub fn sink(&self) -> (sink: &S)
        ensures
            *sink == self.sunk(),
    {
        &self.sink
    }

    /// Apply one event and solve whatever it dirtied.
    ///
    /// Synchronous and self-contained on purpose: the whole decision path is
    /// testable without a runtime, a socket, or a clock that moves. `now_ms` is
    /// the clock's reading.
    pub fn step(&mut self, event: &FeedEvent, now_ms: u64) -> (opportunities: Vec<Opportunity>)
        requires
            old(self).wf(),
            old(self)@.fits(),
            portfolio::midnight_after(now_ms) <= u64::MAX,
        ensures
            (
                final(self)@,
                solver::types::opportunities_view(opportunities@),
            ) == old(self)@.stepped(event@, now_ms),
            final(self).sunk() == old(self).sunk(),
            final(self).wf(),
            final(self)@.fits(),
            forall|i: int| 0 <= i < opportunities@.len() ==> (#[trigger] opportunities@[i])@.wf(),
    {
        let ghost before = self@;
        self.metrics.events_received = self.metrics.events_received.saturating_add(1);
        // Health folds in every event, including the ones that dirty nothing:
        // a disconnect is exactly the event that must stop trading.
        let source: Option<Venue> = self.book_store.venue_of(event);
        if let Some(venue) = source {
            self.health.apply_feed_event(event, venue, now_ms);
        }
        let _ = self.portfolio.reset_daily_if_needed(now_ms);
        let (applied, dirty): (Applied, Vec<ContractId>) = self.book_store.apply_and_mark(
            event,
            now_ms,
        );
        if let Applied::Gap { .. } = applied {
            self.metrics.sequence_gaps = self.metrics.sequence_gaps.saturating_add(1);
            // Do not repair the books. Ask for a fresh snapshot and evaluate
            // nothing until one lands: a book that is subtly wrong is the one
            // failure mode this system cannot tolerate.
            self.resync_pending = source;
        }
        assert(self@ =~= before.received(event@, now_ms));
        if dirty.len() == 0 {
            let none: Vec<Opportunity> = Vec::new();
            assert(solver::types::opportunities_view(none@) =~= Seq::<OpportunityView>::empty());
            return none;
        }
        self.metrics.books_updated = self.metrics.books_updated.saturating_add(1);
        self.metrics.contracts_marked_dirty = self.metrics.contracts_marked_dirty.saturating_add(
            dirty.len() as u64,
        );
        let groups: u64 = self.dirty_group_count(dirty.as_slice());
        self.metrics.groups_dirtied = self.metrics.groups_dirtied.saturating_add(groups);
        // The solver deduplicates and orders the groups itself, so a contract in
        // several groups, or several dirty contracts sharing one, still costs
        // exactly one evaluation per group per event.
        let books: BooksAt<'_> = self.book_store.at(now_ms);
        assert(books.quotes() =~= before.received(event@, now_ms).quotes());
        let opportunities: Vec<Opportunity> = self.solver.evaluate(
            &self.registry,
            &books,
            dirty.as_slice(),
            &self.fees,
            &self.config.solver,
        );
        assert(self@ =~= before.stepped(event@, now_ms).0);
        opportunities
    }

    /// How many groups a set of dirty contracts touches.
    fn dirty_group_count(&self, dirty: &[ContractId]) -> (count: u64)
        requires
            self.wf(),
        ensures
            count == touched_groups(self@.registry, dirty@).len(),
    {
        let ids: Vec<i64> = solver::touched_ids(&self.registry, dirty);
        proof {
            assert(ids@.no_duplicates());
            ids@.unique_seq_to_set();
            assert(ids@.to_set() =~= touched_groups(self@.registry, dirty@));
        }
        ids.len() as u64
    }

    /// The venue whose books need a fresh snapshot: named once after a gap. The
    /// caller owns the feed and must ask it to resync that venue and no other.
    pub fn take_resync(&mut self) -> (wanted: Option<Venue>)
        requires
            old(self).wf(),
        ensures
            wanted == old(self)@.resync_pending,
            final(self)@ == (if wanted is Some {
                EngineView {
                    resync_pending: None,
                    store: old(self)@.store.counting(
                        book::BookMetrics {
                            resync_requests: solver::types::bumped(
                                old(self)@.store.metrics.resync_requests,
                            ),
                            ..old(self)@.store.metrics
                        },
                    ),
                    metrics: EngineMetrics {
                        resyncs_requested: solver::types::bumped(
                            old(self)@.metrics.resyncs_requested,
                        ),
                        ..old(self)@.metrics
                    },
                    ..old(self)@
                }
            } else {
                old(self)@
            }),
            final(self).sunk() == old(self).sunk(),
            final(self).wf(),
            old(self)@.fits() ==> final(self)@.fits(),
    {
        let wanted: Option<Venue> = self.resync_pending;
        if wanted.is_none() {
            return None;
        }
        self.resync_pending = None;
        self.book_store.note_resync_request();
        self.metrics.resyncs_requested = self.metrics.resyncs_requested.saturating_add(1);
        wanted
    }

    /// Decide which profitable trades are allowed to happen, and price the legs.
    ///
    /// This is the gap between "the arithmetic says yes" and "we are willing to
    /// do it". Health first, because a trade decided on a dead feed is priced
    /// off a fiction; then capital, then concentration. A venue that is down
    /// stops only the trades that need it. Each refusal is counted so the reason
    /// a good signal was skipped is recoverable afterwards.
    pub fn approve(&mut self, opportunities: Vec<Opportunity>, now_ms: u64) -> (planned: Vec<
        PlannedTrade,
    >)
        requires
            old(self).wf(),
            old(self)@.store.wf(),
            old(self)@.portfolio.wf(),
            forall|i: int| 0 <= i < opportunities@.len() ==> (#[trigger] opportunities@[i])@.wf(),
        ensures
            (final(self)@, plans_view(planned@)) == old(self)@.admitted(
                solver::types::opportunities_view(opportunities@),
                now_ms,
            ),
            final(self).sunk() == old(self).sunk(),
            final(self).wf(),
    {
        let mut planned: Vec<PlannedTrade> = Vec::new();
        assert(plans_view(planned@) =~= Seq::<PlanView>::empty());
        if opportunities.len() == 0 {
            return planned;
        }
        let ghost before = self@;
        let ghost sunk = self.sunk();
        let ghost offered = opportunities@;
        let ghost views = solver::types::opportunities_view(offered);
        let kalshi: bool = self.health.can_trade(Venue::Kalshi, now_ms);
        let polymarket: bool = self.health.can_trade(Venue::Polymarket, now_ms);
        let ghost asked = before.health.asked(Venue::Kalshi, now_ms).asked(
            Venue::Polymarket,
            now_ms,
        );
        for opportunity in it: opportunities
            invariant
                it.seq() == offered,
                views == solver::types::opportunities_view(offered),
                self.wf(),
                self.sunk() == sunk,
                before.store.wf(),
                before.portfolio.wf(),
                kalshi == before.health.tradeable(Venue::Kalshi, now_ms),
                polymarket == before.health.tradeable(Venue::Polymarket, now_ms),
                forall|i: int| 0 <= i < offered.len() ==> (#[trigger] offered[i])@.wf(),
                self@ == (EngineView { metrics: self@.metrics, health: asked, ..before }),
                (self@.metrics, plans_view(planned@)) == before.judged(
                    views,
                    now_ms,
                    it.index() as int,
                ),
        {
            let ghost done = it.index() as int;
            let ghost held = planned@;
            assert(views[done] == opportunity@);
            assert(offered[done]@.wf());
            match self.judge(&opportunity, kalshi, polymarket, now_ms) {
                Judgement::Unhealthy => {
                    self.metrics.blocked_unhealthy = self.metrics.blocked_unhealthy.saturating_add(
                        1,
                    );
                },
                Judgement::Unbound => {
                    self.metrics.blocked_unbound_contract =
                    self.metrics.blocked_unbound_contract.saturating_add(1);
                },
                Judgement::NoCapital => {
                    self.metrics.blocked_no_capital =
                    self.metrics.blocked_no_capital.saturating_add(1);
                },
                Judgement::RiskLimit => {
                    self.metrics.blocked_risk_limit =
                    self.metrics.blocked_risk_limit.saturating_add(1);
                },
                Judgement::Planned(event, legs) => {
                    let plan = PlannedTrade {
                        opportunity,
                        event,
                        trade: AtomicTrade { legs, timeout_ms: self.config.atomic_timeout_ms },
                    };
                    planned.push(plan);
                    assert(plans_view(planned@) =~= plans_view(held).push(plan@));
                },
            }
        }
        planned
    }

    /// What admission says of one opportunity, given which venues may be
    /// traded.
    fn judge(
        &self,
        opportunity: &Opportunity,
        kalshi: bool,
        polymarket: bool,
        now_ms: u64,
    ) -> (judgement: Judgement)
        requires
            self.wf(),
            self@.store.wf(),
            self@.portfolio.wf(),
            opportunity@.wf(),
        ensures
            forall|health: MonitorView|
                kalshi == #[trigger] health.tradeable(Venue::Kalshi, now_ms) && polymarket
                    == health.tradeable(Venue::Polymarket, now_ms) ==> judgement.says(
                    (EngineView { health, ..self@ }).verdict(opportunity@, now_ms),
                    opportunity@,
                    self@.config.atomic_timeout_ms,
                ),
    {
        if !venues_up(opportunity.legs.as_slice(), kalshi, polymarket) {
            assert forall|health: MonitorView|
                kalshi == #[trigger] health.tradeable(Venue::Kalshi, now_ms) && polymarket
                    == health.tradeable(Venue::Polymarket, now_ms) implies !(EngineView {
                health,
                ..self@
            }).reachable(opportunity@, now_ms) by {
                let i = choose|i: int|
                    0 <= i < opportunity.legs@.len() && !venue_up(
                        (#[trigger] opportunity.legs@[i]).venue,
                        kalshi,
                        polymarket,
                    );
                assert(!health.tradeable(opportunity@.legs[i].venue, now_ms));
            }
            return Judgement::Unhealthy;
        }
        assert forall|health: MonitorView|
            kalshi == #[trigger] health.tradeable(Venue::Kalshi, now_ms) && polymarket
                == health.tradeable(Venue::Polymarket, now_ms) implies (EngineView {
            health,
            ..self@
        }).reachable(opportunity@, now_ms) by {
            assert forall|i: int| 0 <= i < opportunity@.legs.len() implies health.tradeable(
                (#[trigger] opportunity@.legs[i]).venue,
                now_ms,
            ) by {
                assert(venue_up(opportunity.legs@[i].venue, kalshi, polymarket));
            }
        }
        let event: EventId = match self.event_of(opportunity) {
            Some(event) => event,
            None => return Judgement::Unbound,
        };
        if !self.portfolio.can_afford(opportunity.capital_cents)
            || !self.portfolio.within_daily_loss_limit() {
            return Judgement::NoCapital;
        }
        let theme: Option<&str> = match self.registry.event(event) {
            Some(known) => match &known.theme {
                Some(theme) => Some(theme.as_str()),
                None => None,
            },
            None => None,
        };
        proof {
            risk::lemma_check_fits(
                self@.portfolio,
                self@.registry,
                event,
                risk::theme_of(self@.registry, event),
                opportunity.capital_cents as int,
            );
        }
        if risk::check(
            &self.portfolio,
            &self.registry,
            event,
            theme,
            opportunity.capital_cents,
            &self.config.risk,
        ).is_err() {
            return Judgement::RiskLimit;
        }
        match self.plan_legs(opportunity, now_ms) {
            Some(legs) => Judgement::Planned(event, legs),
            None => Judgement::Unbound,
        }
    }

    /// Which canonical event a signal belongs to, via its group's first member.
    fn event_of(&self, opportunity: &Opportunity) -> (event: Option<EventId>)
        requires
            self.wf(),
        ensures
            event == event_of(self@.registry, opportunity@.group),
    {
        let group = match self.registry.group(opportunity.group) {
            Some(group) => group,
            None => return None,
        };
        let members: &[ContractId] = group.members();
        if members.len() == 0 {
            return None;
        }
        match self.registry.binding(members[0]) {
            Some(binding) => Some(binding.event),
            None => None,
        }
    }

    /// Turn priced legs into orders the venue will accept.
    ///
    /// Every leg of an arbitrage is all-or-nothing; a partial turns a risk-free
    /// position into a directional one.
    fn plan_legs(&self, opportunity: &Opportunity, now_ms: u64) -> (orders: Option<Vec<NewOrder>>)
        requires
            self@.store.wf(),
            opportunity@.wf(),
        ensures
            ({
                let planned = planned_legs(
                    self@.registry,
                    self@.store,
                    opportunity@.group,
                    opportunity@.legs,
                    opportunity@.legs.len() as int,
                    now_ms,
                );
                match orders {
                    Some(orders) => planned == Some(orders_view(orders@)),
                    None => planned is None,
                }
            }),
    {
        let ghost registry = self@.registry;
        let ghost store = self@.store;
        let ghost legs = opportunity@.legs;
        let mut orders: Vec<NewOrder> = Vec::new();
        let mut i: usize = 0;
        assert(orders_view(orders@) =~= Seq::<OrderView>::empty());
        while i < opportunity.legs.len()
            invariant
                i <= opportunity.legs@.len(),
                registry == self@.registry,
                store == self@.store,
                legs == opportunity@.legs,
                store.wf(),
                opportunity@.wf(),
                planned_legs(
                    registry,
                    store,
                    opportunity@.group,
                    legs,
                    i as int,
                    now_ms,
                ) == Some(orders_view(orders@)),
            decreases opportunity.legs@.len() - i,
        {
            let leg: Leg = opportunity.legs[i];
            let ghost held = orders@;
            let order: Option<NewOrder> = self.plan_leg(opportunity.group, leg, i, now_ms);
            match order {
                None => {
                    proof {
                        lemma_unplanned(
                            registry,
                            store,
                            opportunity@.group,
                            legs,
                            i + 1,
                            legs.len() as int,
                            now_ms,
                        );
                    }
                    return None;
                },
                Some(order) => {
                    orders.push(order);
                    assert(orders_view(orders@) =~= orders_view(held).push(order@));
                },
            }
            i = i + 1;
        }
        Some(orders)
    }

    fn plan_leg(&self, group: GroupId, leg: Leg, index: usize, now_ms: u64) -> (order: Option<
        NewOrder,
    >)
        requires
            self@.store.wf(),
            leg.qty * 100 <= i64::MAX,
        ensures
            ({
                let planned = planned_leg(
                    self@.registry,
                    self@.store,
                    group,
                    leg,
                    index as int,
                    now_ms,
                );
                match order {
                    Some(order) => planned == Some(order@),
                    None => planned is None,
                }
            }),
    {
        let ticker: String = match self.registry.binding(leg.contract_id) {
            Some(binding) => binding.venue_ticker.as_str().to_owned(),
            None => return None,
        };
        let book: &Book = match self.book_store.get(leg.contract_id) {
            Some(book) => book,
            None => return None,
        };
        proof {
            assert(self@.store.books[leg.contract_id.0 as int].wf());
            types::lemma_offered(book@.no, 100);
            types::lemma_offered(book@.yes, 100);
            costing::lemma_walked(costing::asks_for(book@, leg.side), leg.qty as int);
        }
        let walk: Walk = costing::walk_depth_and_cost(book, leg.side, leg.qty);
        proof {
            costing::lemma_countdown_fits(walk.consumed@, costing::max(leg.qty as int, 0));
        }
        let limit_price: Cents = match costing::worst_price_cents(walk.consumed.as_slice(), leg.qty) {
            Some(price) => price,
            None => return None,
        };
        let mut client_order_id: String = String::from_str("sum100-");
        text::push_u64(&mut client_order_id, group.0 as u64);
        client_order_id.append("-");
        text::push_u64(&mut client_order_id, now_ms);
        client_order_id.append("-");
        text::push_u64(&mut client_order_id, index as u64);
        Some(
            NewOrder {
                contract_id: leg.contract_id,
                ticker,
                outcome: leg.side,
                action: OrderAction::Buy,
                quantity: leg.qty,
                limit_price,
                time_in_force: TimeInForce::FillOrKill,
                client_order_id,
            },
        )
    }

    /// Decide which plans may go out to an order client.
    ///
    /// A live client without the explicit opt-in is refused here rather than at
    /// construction, so the check sits on the path that spends money. A plan on
    /// an inferred group is withheld from a live client and counted.
    pub fn release(&mut self, planned: Vec<PlannedTrade>, live: bool) -> (released: Vec<
        PlannedTrade,
    >)
        requires
            old(self).wf(),
        ensures
            (final(self)@, plans_view(released@)) == old(self)@.released(
                plans_view(planned@),
                live,
            ),
            final(self).sunk() == old(self).sunk(),
            final(self).wf(),
    {
        let mut released: Vec<PlannedTrade> = Vec::new();
        assert(plans_view(released@) =~= Seq::<PlanView>::empty());
        if live && !self.config.allow_live_orders {
            return released;
        }
        let ghost before = self@;
        let ghost sunk = self.sunk();
        let ghost offered = planned@;
        let ghost views = plans_view(offered);
        for plan in it: planned
            invariant
                it.seq() == offered,
                views == plans_view(offered),
                self.wf(),
                self.sunk() == sunk,
                self@ == (EngineView { metrics: self@.metrics, ..before }),
                (self@.metrics, plans_view(released@)) == before.releasing(
                    views,
                    live,
                    it.index() as int,
                ),
        {
            let ghost held = released@;
            assert(views[it.index() as int] == plan@);
            let inferred: bool = match self.registry.group(plan.opportunity.group) {
                Some(group) => group.inferred,
                None => false,
            };
            if live && !self.config.allow_inferred_live_orders && inferred {
                self.metrics.blocked_inferred_group =
                self.metrics.blocked_inferred_group.saturating_add(1);
            } else {
                released.push(plan);
                assert(plans_view(released@) =~= plans_view(held).push(plan@));
            }
        }
        released
    }

    /// Record what a placed trade came back with.
    ///
    /// Fills become a position at what they cost. A position that the portfolio
    /// will not take is a book keeping failure on something already real, so it
    /// is counted for reconciliation rather than dropped. A trade that missed or
    /// left something unknown counts against the venues that missed a leg.
    pub fn settle(
        &mut self,
        plan: &PlannedTrade,
        outcome: Result<ExecutionResult, ExecutionError>,
        now_ms: u64,
    ) -> (signal: Option<Signal>)
        requires
            old(self).wf(),
            outcome matches Ok(result) ==> {
                let fills = atomic::fills_view(result.fills@);
                fills_fit(fills) && fees::fits(
                    old(self)@.portfolio.capital_available_cents - atomic::total_cost(
                        fills,
                        fills.len() as int,
                    ),
                )
            },
        ensures
            (final(self)@, match signal {
                Some(signal) => Some(signal@),
                None => None,
            }) == old(self)@.settled(plan@, outcome_view(outcome), now_ms),
            match (signal, outcome) {
                (Some(_), Ok(result)) => S::accepts(
                    old(self).sunk(),
                    final(self).sunk(),
                    plan@.opportunity,
                    atomic::fills_view(result.fills@),
                    now_ms,
                ),
                _ => final(self).sunk() == old(self).sunk(),
            },
            final(self).wf(),
    {
        let ghost before = self@;
        match outcome {
            Ok(result) => {
                let ghost fills = atomic::fills_view(result.fills@);
                let position: Position = position_from(plan, result.fills.as_slice(), now_ms);
                if self.portfolio.add_position(position).is_err() {
                    self.metrics.trades_needing_reconciliation =
                    self.metrics.trades_needing_reconciliation.saturating_add(1);
                    assert(self@ =~= before.settled(plan@, Ok(fills), now_ms).0);
                    return None;
                }
                self.metrics.trades_placed = self.metrics.trades_placed.saturating_add(1);
                self.metrics.signals_accepted = self.metrics.signals_accepted.saturating_add(1);
                self.sink.accept(&plan.opportunity, result.fills.as_slice(), now_ms);
                let signal: Signal = Signal::new(
                    &plan.opportunity,
                    result.fills.as_slice(),
                    now_ms,
                );
                assert(self@ =~= before.settled(plan@, Ok(fills), now_ms).0);
                Some(signal)
            },
            Err(error) => {
                let ghost said = error@;
                let fills: Vec<OrderFill> = match error {
                    ExecutionError::Legged { filled, .. } => {
                        // Something is live that nobody planned, and no further
                        // trading should paper over it.
                        self.metrics.trades_needing_reconciliation =
                        self.metrics.trades_needing_reconciliation.saturating_add(1);
                        filled
                    },
                    ExecutionError::NoFills { .. } => {
                        self.metrics.trades_no_fill = self.metrics.trades_no_fill.saturating_add(1);
                        Vec::new()
                    },
                    ExecutionError::Timeout { .. } => {
                        // Whether anything is live is not known.
                        self.metrics.trades_needing_reconciliation =
                        self.metrics.trades_needing_reconciliation.saturating_add(1);
                        Vec::new()
                    },
                };
                proof {
                    assert(said is Legged ==> known_fills(said) == atomic::fills_view(fills@));
                    assert(!(said is Legged) ==> atomic::fills_view(fills@) =~= Seq::<
                        FillView,
                    >::empty());
                }
                let legs: &[Leg] = plan.opportunity.legs.as_slice();
                if missed_venue(legs, fills.as_slice(), Venue::Kalshi) {
                    self.health.note_error(Venue::Kalshi);
                }
                if missed_venue(legs, fills.as_slice(), Venue::Polymarket) {
                    self.health.note_error(Venue::Polymarket);
                }
                assert(self@ =~= before.settled(plan@, Err(said), now_ms).0);
                None
            },
        }
    }

    /// Revalue open positions against the books as they stand now.
    pub fn mark_to_market(&mut self, now_ms: u64)
        requires
            old(self).wf(),
            old(self)@.portfolio.marks(old(self)@.quotes()),
        ensures
            final(self)@ == (EngineView {
                portfolio: old(self)@.portfolio.marked(old(self)@.quotes()),
                ..old(self)@
            }),
            final(self).sunk() == old(self).sunk(),
            final(self).wf(),
    {
        let books: BooksAt<'_> = self.book_store.at(now_ms);
        assert(books.quotes() =~= self@.quotes());
        self.portfolio.mark_to_market(&books);
    }

    /// Count a state that somebody received.
    pub fn note_broadcast(&mut self)
        requires
            old(self).wf(),
        ensures
            final(self)@ == old(self)@.counting(
                (EngineMetrics {
                    states_broadcast: solver::types::bumped(old(self)@.metrics.states_broadcast),
                    ..old(self)@.metrics
                }),
            ),
            final(self).sunk() == old(self).sunk(),
            final(self).wf(),
    {
        self.metrics.states_broadcast = self.metrics.states_broadcast.saturating_add(1);
    }

    /// Everything the API layer publishes, with the signals of the last event
    /// and what the feed counted.
    pub fn state(&self, latest: &[Signal], feed: Option<Metrics>, now_ms: u64) -> (state:
        EngineState)
        requires
            portfolio::locked_fits(self@.portfolio.positions, None),
            portfolio::unrealized_fits(self@.portfolio.positions),
        ensures
            state.timestamp_ms == now_ms,
            state.contracts@.map_values(|summary: ContractSummary| summary@)
                == self@.store.books.map_values(
                |book: BookView| summarized(self@.store, book, now_ms),
            ),
            signals_view(state.opportunities@) == signals_view(latest@),
            state.engine == self@.metrics,
            state.solver == self@.solver,
            state.portfolio == self@.portfolio.summarized(),
            state.health.kalshi_healthy == (self@.health.of(Venue::Kalshi).state
                == HealthState::Healthy),
            state.health.kalshi_state == self@.health.of(Venue::Kalshi).state,
            state.health.last_message_age_ms == self@.health.of(Venue::Kalshi).idle_for(now_ms),
            state.health.feed == feed,
            text::views(state.risk.reasons@) == self@.obstacles(),
            state.risk.can_trade == (self@.obstacles().len() == 0),
            state.risk.open_positions == self@.portfolio.open_count(),
            state.risk.limits == self@.config.risk,
    {
        let held: &[Book] = self.book_store.books();
        let mut contracts: Vec<ContractSummary> = Vec::new();
        let mut i: usize = 0;
        while i < held.len()
            invariant
                i <= held@.len(),
                contracts@.len() == i,
                forall|k: int|
                    0 <= k < i ==> (#[trigger] contracts@[k])@ == summarized(
                        self@.store,
                        held@[k]@,
                        now_ms,
                    ),
            decreases held@.len() - i,
        {
            contracts.push(self.summary(&held[i], now_ms));
            i = i + 1;
        }
        let mut opportunities: Vec<Signal> = Vec::new();
        let mut j: usize = 0;
        while j < latest.len()
            invariant
                j <= latest@.len(),
                opportunities@.len() == j,
                forall|k: int| 0 <= k < j ==> (#[trigger] opportunities@[k])@ == latest@[k]@,
            decreases latest@.len() - j,
        {
            opportunities.push(latest[j].clone());
            j = j + 1;
        }
        let kalshi: &VenueHealth = self.health.venue(Venue::Kalshi);
        let risk: RiskStatus = self.risk_status();
        let state = EngineState {
            timestamp_ms: now_ms,
            contracts,
            opportunities,
            engine: self.metrics,
            solver: self.solver.metrics,
            portfolio: self.portfolio.summary(),
            health: HealthStatus {
                kalshi_healthy: kalshi.is_healthy(),
                kalshi_state: kalshi.state,
                last_message_age_ms: kalshi.idle_ms(now_ms),
                feed,
            },
            risk,
        };
        proof {
            assert(state.contracts@.map_values(|summary: ContractSummary| summary@)
                =~= self@.store.books.map_values(
                |book: BookView| summarized(self@.store, book, now_ms),
            )) by {
                assert forall|k: int| 0 <= k < held@.len() implies self@.store.books[k]
                    == #[trigger] held@[k]@ by {
                    assert(book::books_view(held@)[k] == held@[k]@);
                }
            }
            assert(signals_view(state.opportunities@) =~= signals_view(latest@));
        }
        state
    }

    fn summary(&self, book: &Book, now_ms: u64) -> (summary: ContractSummary)
        ensures
            summary@ == summarized(self@.store, book@, now_ms),
    {
        let ticker: String = match self.book_store.contracts().resolve(book.contract_id) {
            Some(entry) => entry.1.as_str().to_owned(),
            None => {
                let none: String = String::new();
                assert(none@ =~= Seq::<char>::empty());
                none
            },
        };
        ContractSummary {
            contract: book.contract_id.0,
            venue: book.venue,
            ticker,
            state: match book.state {
                BookState::Uninitialized => "uninitialized",
                BookState::Resyncing => "resyncing",
                BookState::Live => "live",
            },
            seq: book.seq,
            best_bid: level_price(book.best_bid()),
            best_ask: level_price(book.best_ask()),
            best_no_bid: level_price(book.best_no_bid()),
            best_no_ask: level_price(book.best_no_ask()),
            age_ms: now_ms.saturating_sub(book.updated_at_ms),
        }
    }

    /// Why the engine would refuse to trade right now, if it would.
    ///
    /// Reported even when nothing is blocking, so a dashboard can show the
    /// railings rather than only their failures.
    fn risk_status(&self) -> (status: RiskStatus)
        ensures
            text::views(status.reasons@) == self@.obstacles(),
            status.can_trade == (self@.obstacles().len() == 0),
            status.open_positions == self@.portfolio.open_count(),
            status.limits == self@.config.risk,
    {
        let mut reasons: Vec<String> = Vec::new();
        let open: usize = self.portfolio.open_count();
        let kalshi: &VenueHealth = self.health.venue(Venue::Kalshi);
        if !kalshi.is_healthy() {
            let mut reason: String = String::from_str("kalshi ");
            reason.append(
                match kalshi.state {
                    HealthState::Healthy => "healthy",
                    HealthState::Stale => "stale",
                    HealthState::Erroring => "erroring",
                    HealthState::Disconnected => "disconnected",
                },
            );
            reasons.push(reason);
        }
        if !self.portfolio.within_daily_loss_limit() {
            reasons.push(String::from_str("daily loss limit reached"));
        }
        if open >= self.config.risk.max_concurrent_trades {
            reasons.push(String::from_str("concurrent trade limit"));
        }
        if self.portfolio.capital_available_cents <= 0 {
            reasons.push(String::from_str("no capital available"));
        }
        assert(text::views(reasons@) =~= self@.obstacles());
        RiskStatus {
            can_trade: reasons.len() == 0,
            reasons,
            open_positions: open,
            limits: self.config.risk,
        }
    }
}

/// A single reason, if it holds.
pub open spec fn reason(holds: bool, why: Seq<char>) -> Seq<Seq<char>> {
    if holds {
        seq![why]
    } else {
        Seq::empty()
    }
}

pub open spec fn health_name(state: HealthState) -> Seq<char> {
    match state {
        HealthState::Healthy => "healthy"@,
        HealthState::Stale => "stale"@,
        HealthState::Erroring => "erroring"@,
        HealthState::Disconnected => "disconnected"@,
    }
}

impl EngineView {
    /// Everything that stands in the way of trading, as it is published.
    pub open spec fn obstacles(self) -> Seq<Seq<char>> {
        let state = self.health.of(Venue::Kalshi).state;
        reason(state != HealthState::Healthy, "kalshi "@ + health_name(state)) + reason(
            !self.portfolio.day_open(),
            "daily loss limit reached"@,
        ) + reason(
            self.portfolio.open_count() >= self.config.risk.max_concurrent_trades,
            "concurrent trade limit"@,
        ) + reason(self.portfolio.capital_available_cents <= 0, "no capital available"@)
    }
}

/// What admission says of one opportunity.
enum Judgement {
    Unhealthy,
    Unbound,
    NoCapital,
    RiskLimit,
    Planned(EventId, Vec<NewOrder>),
}

impl Judgement {
    spec fn says(self, verdict: Verdict, opportunity: OpportunityView, timeout_ms: u64) -> bool {
        match self {
            Judgement::Unhealthy => verdict is Unhealthy,
            Judgement::Unbound => verdict is Unbound,
            Judgement::NoCapital => verdict is NoCapital,
            Judgement::RiskLimit => verdict is RiskLimit,
            Judgement::Planned(event, legs) => verdict == Verdict::Planned(
                PlanView { opportunity, event, legs: orders_view(legs@), timeout_ms },
            ),
        }
    }
}

spec fn venue_up(venue: Venue, kalshi: bool, polymarket: bool) -> bool {
    match venue {
        Venue::Kalshi => kalshi,
        Venue::Polymarket => polymarket,
    }
}

/// Whether every leg stands on a venue that may be traded.
fn venues_up(legs: &[Leg], kalshi: bool, polymarket: bool) -> (up: bool)
    ensures
        up == (forall|i: int|
            0 <= i < legs@.len() ==> venue_up((#[trigger] legs@[i]).venue, kalshi, polymarket)),
{
    let mut i: usize = 0;
    while i < legs.len()
        invariant
            i <= legs@.len(),
            forall|k: int|
                0 <= k < i ==> venue_up((#[trigger] legs@[k]).venue, kalshi, polymarket),
        decreases legs@.len() - i,
    {
        let up: bool = match legs[i].venue {
            Venue::Kalshi => kalshi,
            Venue::Polymarket => polymarket,
        };
        if !up {
            assert(!venue_up(legs@[i as int].venue, kalshi, polymarket));
            return false;
        }
        i = i + 1;
    }
    true
}

/// Whether a leg is among the fills.
fn filled(leg: &Leg, fills: &[OrderFill]) -> (found: bool)
    ensures
        found == is_filled(*leg, atomic::fills_view(fills@)),
{
    let ghost all = atomic::fills_view(fills@);
    let mut i: usize = 0;
    while i < fills.len()
        invariant
            i <= fills@.len(),
            all == atomic::fills_view(fills@),
            forall|k: int|
                0 <= k < i ==> !((#[trigger] all[k]).contract_id == leg.contract_id
                    && all[k].outcome == leg.side),
        decreases fills@.len() - i,
    {
        assert(all[i as int] == fills@[i as int]@);
        if fills[i].contract_id == leg.contract_id && fills[i].outcome == leg.side {
            return true;
        }
        i = i + 1;
    }
    false
}

/// Whether any leg was missed on a venue.
fn missed_venue(legs: &[Leg], fills: &[OrderFill], venue: Venue) -> (missed: bool)
    ensures
        missed == (exists|i: int|
            0 <= i < legs@.len() && (#[trigger] legs@[i]).venue == venue && !is_filled(
                legs@[i],
                atomic::fills_view(fills@),
            )),
{
    let mut i: usize = 0;
    while i < legs.len()
        invariant
            i <= legs@.len(),
            forall|k: int|
                0 <= k < i ==> (#[trigger] legs@[k]).venue != venue || is_filled(
                    legs@[k],
                    atomic::fills_view(fills@),
                ),
        decreases legs@.len() - i,
    {
        if legs[i].venue == venue && !filled(&legs[i], fills) {
            assert(legs@[i as int].venue == venue);
            return true;
        }
        i = i + 1;
    }
    false
}

fn level_price(level: Option<Level>) -> (price: Option<Cents>)
    ensures
        price == price_of(level),
{
    match level {
        Some(level) => Some(level.price),
        None => None,
    }
}

/// Build the position a set of fills created.
fn position_from(plan: &PlannedTrade, fills: &[OrderFill], now_ms: u64) -> (position: Position)
    requires
        fills_fit(atomic::fills_view(fills@)),
    ensures
        position@ == opened(plan@, atomic::fills_view(fills@), now_ms),
{
    let ghost views = atomic::fills_view(fills@);
    let mut legs: Vec<PositionLeg> = Vec::new();
    let mut paid: i64 = 0;
    let mut i: usize = 0;
    while i < fills.len()
        invariant
            i <= fills@.len(),
            views == atomic::fills_view(fills@),
            fills_fit(views),
            legs@.len() == i,
            paid == fees_paid(views, i as int),
            forall|k: int|
                0 <= k < i ==> (#[trigger] legs@[k])@ == opened(plan@, views, now_ms).legs[k],
        decreases fills@.len() - i,
    {
        proof {
            assert(views[i as int] == fills@[i as int]@);
            assert(fees::fits(fees_paid(views, i + 1)));
        }
        let fill: &OrderFill = &fills[i];
        let mut order_ids: Vec<String> = Vec::new();
        order_ids.push(fill.order_id.as_str().to_owned());
        assert(text::views(order_ids@) =~= seq![fill.order_id@]);
        paid = paid + fill.fee_cents;
        legs.push(
            PositionLeg {
                contract_id: fill.contract_id,
                side: fill.outcome,
                quantity: fill.quantity_filled,
                average_entry_price: fill.average_price,
                order_ids,
            },
        );
        i = i + 1;
    }
    let position = Position {
        event_id: plan.event,
        group: plan.opportunity.group.0,
        legs,
        cost_cents: cost_of(fills),
        fees_cents: paid,
        entry_time_ms: now_ms,
        resolved: false,
        pnl_realized_cents: 0,
        pnl_unrealized_cents: 0,
    };
    assert(position@.legs =~= opened(plan@, views, now_ms).legs);
    position
}

proof fn lemma_unplanned(
    registry: RegistryView,
    store: StoreView,
    group: GroupId,
    legs: Seq<Leg>,
    m: int,
    n: int,
    now_ms: u64,
)
    requires
        0 <= m <= n,
        planned_legs(registry, store, group, legs, m, now_ms) is None,
    ensures
        planned_legs(registry, store, group, legs, n, now_ms) is None,
    decreases n,
{
    if m < n {
        lemma_unplanned(registry, store, group, legs, m, n - 1, now_ms);
    }
}

} // verus!
