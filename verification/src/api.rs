//! Read-only boundary for the dashboard.
//!
//! The engine remains the sole owner of all calculations. This module only
//! projects an already-computed [`EngineState`] onto what the dashboard shows;
//! serving it at a bounded cadence is the program's work.
use vstd::prelude::*;
use crate::engine;
use crate::engine::{
    ContractSummary, EngineState, Signal, SignalLeg, SignalLegView, SignalView, SummaryView,
};
use crate::fees;
use crate::metrics::{Metrics, MetricsView};
use crate::text;
use crate::types::{Cents, Ratio, Venue};

pub mod laws;

verus! {

/// One leg as the dashboard shows it.
#[derive(Clone, Debug, PartialEq)]
pub struct DashboardLeg {
    pub contract_id: String,
    pub venue: Venue,
    pub side: &'static str,
    pub action: &'static str,
    pub best_ask: Cents,
    pub best_bid: Cents,
    pub size: i64,
    pub fee: Cents,
}

/// What a [`DashboardLeg`] says.
#[verifier::ext_equal]
pub struct DashboardLegView {
    pub contract_id: Seq<char>,
    pub venue: Venue,
    pub side: Seq<char>,
    pub action: Seq<char>,
    pub best_ask: Cents,
    pub best_bid: Cents,
    pub size: i64,
    pub fee: Cents,
}

impl View for DashboardLeg {
    type V = DashboardLegView;

    open spec fn view(&self) -> DashboardLegView {
        DashboardLegView {
            contract_id: self.contract_id@,
            venue: self.venue,
            side: self.side@,
            action: self.action@,
            best_ask: self.best_ask,
            best_bid: self.best_bid,
            size: self.size,
            fee: self.fee,
        }
    }
}

/// One accepted signal as the dashboard shows it, per contract.
#[derive(Clone, Debug, PartialEq)]
pub struct DashboardOpportunity {
    pub id: String,
    pub group_id: String,
    pub relation: &'static str,
    pub members: Vec<String>,
    pub legs: Vec<DashboardLeg>,
    pub edge_cents: Cents,
    pub cost_cents: Cents,
    pub fees_cents: Cents,
    /// Net, capital and horizon of the whole position, which give its
    /// annualized return and its days to resolution.
    pub net_cents: Cents,
    pub capital_cents: Cents,
    pub horizon_ms: u64,
    pub status: &'static str,
}

/// What a [`DashboardOpportunity`] says.
#[verifier::ext_equal]
pub struct DashboardOpportunityView {
    pub id: Seq<char>,
    pub group_id: Seq<char>,
    pub relation: Seq<char>,
    pub members: Seq<Seq<char>>,
    pub legs: Seq<DashboardLegView>,
    pub edge_cents: Cents,
    pub cost_cents: Cents,
    pub fees_cents: Cents,
    pub net_cents: Cents,
    pub capital_cents: Cents,
    pub horizon_ms: u64,
    pub status: Seq<char>,
}

pub open spec fn legs_view(legs: Seq<DashboardLeg>) -> Seq<DashboardLegView> {
    legs.map_values(|leg: DashboardLeg| leg@)
}

impl View for DashboardOpportunity {
    type V = DashboardOpportunityView;

    open spec fn view(&self) -> DashboardOpportunityView {
        DashboardOpportunityView {
            id: self.id@,
            group_id: self.group_id@,
            relation: self.relation@,
            members: text::views(self.members@),
            legs: legs_view(self.legs@),
            edge_cents: self.edge_cents,
            cost_cents: self.cost_cents,
            fees_cents: self.fees_cents,
            net_cents: self.net_cents,
            capital_cents: self.capital_cents,
            horizon_ms: self.horizon_ms,
            status: self.status@,
        }
    }
}

/// Latency percentiles, in milliseconds.
#[derive(Clone, Copy, Debug, PartialEq, Eq, Structural)]
pub struct DashboardLatency {
    pub p50: u64,
    pub p95: u64,
    pub p99: u64,
}

/// How the feed is doing.
#[derive(Clone, Copy, Debug, PartialEq, Eq, Structural)]
pub struct DashboardHealth {
    pub connected: bool,
    pub messages_received: u64,
    pub parse_errors: u64,
    pub sequence_gaps: u64,
    pub latency_ms: DashboardLatency,
    pub reconnections: u64,
}

/// One frame of the dashboard.
#[derive(Clone, Debug, PartialEq)]
pub struct DashboardState {
    pub timestamp_ms: u64,
    pub opportunities: Vec<DashboardOpportunity>,
    pub health: DashboardHealth,
}

/// The summary of a contract: the last one published under its number.
pub open spec fn book_for(contracts: Seq<SummaryView>, contract: u32) -> Option<SummaryView>
    decreases contracts.len(),
{
    if contracts.len() == 0 {
        None
    } else if contracts.last().contract == contract {
        Some(contracts.last())
    } else {
        book_for(contracts.drop_last(), contract)
    }
}

/// Top of book for the outcome that a leg buys: what it pays, and what it could
/// be sold back for.
pub open spec fn quoted(leg: SignalLegView, book: Option<SummaryView>) -> (
    Option<Cents>,
    Option<Cents>,
) {
    match book {
        None => (None, None),
        Some(book) => if leg.side == "no"@ {
            (book.best_no_ask, book.best_no_bid)
        } else {
            (book.best_ask, book.best_bid)
        },
    }
}

/// The number of contracts that a signal's totals are divided by.
pub open spec fn units(signal: SignalView) -> int {
    if signal.qty > 1 {
        signal.qty as int
    } else {
        1
    }
}

pub open spec fn shown_leg(
    leg: SignalLegView,
    units: int,
    contracts: Seq<SummaryView>,
) -> DashboardLegView {
    let (ask, bid) = quoted(leg, book_for(contracts, leg.contract));
    DashboardLegView {
        contract_id: text::decimal(leg.contract as nat),
        venue: leg.venue,
        side: leg.side,
        action: "buy"@,
        best_ask: match ask {
            Some(ask) => ask,
            None => fees::truncated_quotient(leg.cost_cents as int, units) as i64,
        },
        best_bid: match bid {
            Some(bid) => bid,
            None => 0,
        },
        size: leg.qty,
        fee: fees::truncated_quotient(leg.fee_cents as int, units) as i64,
    }
}

pub open spec fn shown(signal: SignalView, contracts: Seq<SummaryView>) -> DashboardOpportunityView {
    let group = "group-"@ + text::decimal(signal.group as nat);
    DashboardOpportunityView {
        id: group + "-"@ + text::decimal(signal.detected_at_ms as nat),
        group_id: group,
        relation: "constraint"@,
        members: signal.legs.map_values(
            |leg: SignalLegView| text::decimal(leg.contract as nat),
        ),
        legs: signal.legs.map_values(
            |leg: SignalLegView| shown_leg(leg, units(signal), contracts),
        ),
        edge_cents: fees::truncated_quotient(signal.net_cents as int, units(signal)) as i64,
        cost_cents: fees::truncated_quotient(signal.capital_cents as int, units(signal)) as i64,
        fees_cents: fees::truncated_quotient(signal.fees_cents as int, units(signal)) as i64,
        net_cents: signal.net_cents,
        capital_cents: signal.capital_cents,
        horizon_ms: signal.horizon_ms,
        status: "accepted"@,
    }
}

pub open spec fn summaries_view(contracts: Seq<ContractSummary>) -> Seq<SummaryView> {
    contracts.map_values(|summary: ContractSummary| summary@)
}

/// What a frame says of the feed. One that keeps no counters reports none.
pub open spec fn feed_health(
    connected: bool,
    sequence_gaps: u64,
    events_received: u64,
    feed: Option<Metrics>,
) -> DashboardHealth {
    let counted = match feed {
        Some(feed) => feed@,
        None => MetricsView::zero(),
    };
    DashboardHealth {
        connected,
        messages_received: match feed {
            Some(feed) => feed.messages_received,
            None => events_received,
        },
        parse_errors: counted.parse_errors,
        sequence_gaps,
        latency_ms: DashboardLatency {
            p50: counted.percentile_ms(Ratio { numer: 50, denom: 100 }),
            p95: counted.percentile_ms(Ratio { numer: 95, denom: 100 }),
            p99: counted.percentile_ms(Ratio { numer: 99, denom: 100 }),
        },
        reconnections: counted.reconnections,
    }
}

fn per_unit(cents: Cents, units: i64) -> (share: Cents)
    requires
        units >= 1,
    ensures
        share == fees::truncated_quotient(cents as int, units as int),
{
    proof {
        fees::lemma_truncated_fits(cents as int, units as int);
    }
    cents.checked_div(units).unwrap()
}

fn decimal(n: u64) -> (out: String)
    ensures
        out@ == text::decimal(n as nat),
{
    let mut out: String = String::new();
    text::push_u64(&mut out, n);
    assert(out@ =~= text::decimal(n as nat));
    out
}

/// Top of book for the outcome a leg buys, from the same snapshot the rest of
/// this frame is built from.
///
/// The ask is what the leg pays and the bid is what it could be sold back for,
/// so the pair is the spread the position was opened across. Neither is the
/// leg's blended fill price, which is already published as `cost_cents`: a
/// depth walk that consumed four levels has an average nobody was ever quoted.
fn top_of_book(leg: &SignalLeg, contracts: &[ContractSummary]) -> (quote: (
    Option<Cents>,
    Option<Cents>,
))
    ensures
        quote == quoted(leg@, book_for(summaries_view(contracts@), leg.contract)),
{
    let ghost views = summaries_view(contracts@);
    let mut i: usize = contracts.len();
    assert(views.subrange(0, i as int) =~= views);
    while i > 0
        invariant
            i <= contracts@.len(),
            views == summaries_view(contracts@),
            book_for(views, leg.contract) == book_for(views.subrange(0, i as int), leg.contract),
        decreases i,
    {
        proof {
            assert(views.subrange(0, i as int).drop_last() =~= views.subrange(0, i - 1));
            assert(views.subrange(0, i as int).last() == contracts@[i - 1]@);
        }
        if contracts[i - 1].contract == leg.contract {
            let book: &ContractSummary = &contracts[i - 1];
            return if text::same(leg.side, "no") {
                (book.best_no_ask, book.best_no_bid)
            } else {
                (book.best_ask, book.best_bid)
            };
        }
        i = i - 1;
    }
    (None, None)
}

fn show_leg(leg: &SignalLeg, units: i64, contracts: &[ContractSummary]) -> (shown: DashboardLeg)
    requires
        units >= 1,
    ensures
        shown@ == shown_leg(leg@, units as int, summaries_view(contracts@)),
{
    let (ask, bid): (Option<Cents>, Option<Cents>) = top_of_book(leg, contracts);
    DashboardLeg {
        contract_id: decimal(leg.contract as u64),
        venue: leg.venue,
        side: leg.side,
        action: "buy",
        // An empty side has no quote. The wire carries a number, so the
        // fallback is the price this leg was actually costed at rather than a
        // zero that would render as a free contract.
        best_ask: match ask {
            Some(ask) => ask,
            None => per_unit(leg.cost_cents, units),
        },
        best_bid: match bid {
            Some(bid) => bid,
            None => 0,
        },
        size: leg.qty,
        fee: per_unit(leg.fee_cents, units),
    }
}

fn show(signal: &Signal, contracts: &[ContractSummary]) -> (out: DashboardOpportunity)
    ensures
        out@ == shown(signal@, summaries_view(contracts@)),
{
    let units: i64 = if signal.qty > 1 {
        signal.qty
    } else {
        1
    };
    let mut members: Vec<String> = Vec::new();
    let mut legs: Vec<DashboardLeg> = Vec::new();
    let ghost views = summaries_view(contracts@);
    let mut i: usize = 0;
    while i < signal.legs.len()
        invariant
            i <= signal.legs@.len(),
            units == self::units(signal@),
            units >= 1,
            views == summaries_view(contracts@),
            members@.len() == i,
            legs@.len() == i,
            forall|k: int|
                0 <= k < i ==> (#[trigger] members@[k])@ == text::decimal(
                    signal.legs@[k].contract as nat,
                ),
            forall|k: int|
                0 <= k < i ==> (#[trigger] legs@[k])@ == shown_leg(
                    signal.legs@[k]@,
                    units as int,
                    views,
                ),
        decreases signal.legs@.len() - i,
    {
        members.push(decimal(signal.legs[i].contract as u64));
        legs.push(show_leg(&signal.legs[i], units, contracts));
        i = i + 1;
    }
    let mut group_id: String = String::from_str("group-");
    text::push_u64(&mut group_id, signal.group as u64);
    let mut id: String = group_id.as_str().to_owned();
    id.append("-");
    text::push_u64(&mut id, signal.detected_at_ms);
    let out = DashboardOpportunity {
        id,
        group_id,
        relation: "constraint",
        members,
        legs,
        edge_cents: per_unit(signal.net_cents, units),
        cost_cents: per_unit(signal.capital_cents, units),
        fees_cents: per_unit(signal.fees_cents, units),
        net_cents: signal.net_cents,
        capital_cents: signal.capital_cents,
        horizon_ms: signal.horizon_ms,
        status: "accepted",
    };
    proof {
        assert(out@.members =~= shown(signal@, views).members);
        assert(out@.legs =~= shown(signal@, views).legs);
    }
    out
}

/// Project engine state onto one frame of the dashboard.
///
/// A feed that keeps no counters reports none, and the dashboard's own contract
/// is finite numbers, so those fields fall back to zero. The `connected` flag
/// beside them is the real reading either way, which is the one that decides
/// whether any of this is worth believing. Frames off the socket are what the
/// dashboard labels "messages": a frame the parser rejected never became an
/// engine event, so the two counts differ, and the engine's is the fallback for
/// a feed that keeps none.
pub fn dashboard_state(state: &EngineState) -> (frame: DashboardState)
    requires
        state.health.feed matches Some(feed) ==> feed@.samples() <= u64::MAX,
    ensures
        frame.timestamp_ms == state.timestamp_ms,
        frame.opportunities@.map_values(|o: DashboardOpportunity| o@)
            == engine::signals_view(state.opportunities@).map_values(
            |signal: SignalView| shown(signal, summaries_view(state.contracts@)),
        ),
        frame.health == feed_health(
            state.health.kalshi_healthy,
            state.engine.sequence_gaps,
            state.engine.events_received,
            state.health.feed,
        ),
{
    let ghost views = summaries_view(state.contracts@);
    let mut opportunities: Vec<DashboardOpportunity> = Vec::new();
    let mut i: usize = 0;
    while i < state.opportunities.len()
        invariant
            i <= state.opportunities@.len(),
            views == summaries_view(state.contracts@),
            opportunities@.len() == i,
            forall|k: int|
                0 <= k < i ==> (#[trigger] opportunities@[k])@ == shown(
                    state.opportunities@[k]@,
                    views,
                ),
        decreases state.opportunities@.len() - i,
    {
        opportunities.push(show(&state.opportunities[i], state.contracts.as_slice()));
        i = i + 1;
    }
    proof {
        assert(opportunities@.map_values(|o: DashboardOpportunity| o@) =~= engine::signals_view(
            state.opportunities@,
        ).map_values(|signal: SignalView| shown(signal, views)));
    }
    let feed: Metrics = match state.health.feed {
        Some(feed) => feed,
        None => {
            let none: Metrics = Metrics::default();
            proof {
                crate::metrics::lemma_zero_samples();
            }
            none
        },
    };
    let messages_received: u64 = match state.health.feed {
        Some(feed) => feed.messages_received,
        None => state.engine.events_received,
    };
    DashboardState {
        timestamp_ms: state.timestamp_ms,
        opportunities,
        health: DashboardHealth {
            connected: state.health.kalshi_healthy,
            messages_received,
            parse_errors: feed.parse_errors,
            sequence_gaps: state.engine.sequence_gaps,
            latency_ms: DashboardLatency {
                p50: feed.latency_percentile_ms(Ratio { numer: 50, denom: 100 }),
                p95: feed.latency_percentile_ms(Ratio { numer: 95, denom: 100 }),
                p99: feed.latency_percentile_ms(Ratio { numer: 99, denom: 100 }),
            },
            reconnections: feed.reconnections,
        },
    }
}

// ---------------------------------------------------------------------------
// Laws
// ---------------------------------------------------------------------------

/// A leg is quoted on the side of the book it buys, and never at a price nobody
/// was asked: with a quote the ask is the book's, without one it is what the
/// leg was costed at.
pub proof fn a_leg_is_never_shown_as_free(
    leg: SignalLegView,
    units: int,
    contracts: Seq<SummaryView>,
)
    requires
        units >= 1,
    ensures
        ({
            let (ask, _) = quoted(leg, book_for(contracts, leg.contract));
            let out = shown_leg(leg, units, contracts);
            match ask {
                Some(ask) => out.best_ask == ask,
                None => out.best_ask == fees::truncated_quotient(leg.cost_cents as int, units),
            }
        }),
{
    fees::lemma_truncated_fits(leg.cost_cents as int, units);
}

} // verus!
