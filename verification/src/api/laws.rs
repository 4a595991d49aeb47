//! What the dashboard shows.
use vstd::prelude::*;
use crate::api;
use crate::api::DashboardHealth;
use crate::engine::{SignalLegView, SignalView, SummaryView};
use crate::metrics::Metrics;
use crate::text;

verus! {

/// A share of an amount: what it comes to for each of so many units, rounded
/// toward nothing.
pub open spec fn is_share(share: int, amount: int, units: int) -> bool {
    if amount >= 0 {
        share * units <= amount && (share + 1) * units > amount
    } else {
        share * units >= amount && (share - 1) * units < amount
    }
}

proof fn lemma_share(amount: i64, units: int)
    requires
        units >= 1,
    ensures
        is_share(crate::fees::truncated_quotient(amount as int, units), amount as int, units),
        crate::fees::fits(crate::fees::truncated_quotient(amount as int, units)),
{
    crate::fees::lemma_truncated_fits(amount as int, units);
    let a = amount as int;
    if a > 0 {
        let q = a / units;
        assert(q * units <= a && (q + 1) * units > a) by (nonlinear_arith)
            requires
                units >= 1,
                q == a / units,
        ;
    } else if a < 0 {
        let b = -a;
        let q = b / units;
        assert((-q) * units >= a && (-q - 1) * units < a) by (nonlinear_arith)
            requires
                units >= 1,
                b == -a,
                q == b / units,
        ;
    } else {
        assert(0 * units == 0 && 1 * units == units);
    }
}

/// An opportunity is shown with its totals as they are, and with its edge, cost
/// and fees for each unit of it.
pub proof fn an_opportunity_is_shown_by_the_unit(signal: SignalView, contracts: Seq<SummaryView>)
    requires
        signal.qty >= 1,
    ensures
        ({
            let out = api::shown(signal, contracts);
            &&& is_share(out.edge_cents as int, signal.net_cents as int, signal.qty as int)
            &&& is_share(out.cost_cents as int, signal.capital_cents as int, signal.qty as int)
            &&& is_share(out.fees_cents as int, signal.fees_cents as int, signal.qty as int)
            &&& out.net_cents == signal.net_cents
            &&& out.capital_cents == signal.capital_cents
            &&& out.horizon_ms == signal.horizon_ms
            &&& out.legs.len() == signal.legs.len()
            &&& out.members.len() == signal.legs.len()
            &&& forall|i: int|
                0 <= i < signal.legs.len() ==> #[trigger] out.members[i] == text::decimal(
                    signal.legs[i].contract as nat,
                )
        }),
{
    lemma_share(signal.net_cents, signal.qty as int);
    lemma_share(signal.capital_cents, signal.qty as int);
    lemma_share(signal.fees_cents, signal.qty as int);
}

/// The last summary of a contract.
pub open spec fn is_summary(contracts: Seq<SummaryView>, contract: u32, at: int) -> bool {
    &&& 0 <= at < contracts.len()
    &&& contracts[at].contract == contract
    &&& forall|k: int| at < k < contracts.len() ==> (#[trigger] contracts[k]).contract != contract
}

proof fn lemma_summary(contracts: Seq<SummaryView>, contract: u32, at: int)
    requires
        is_summary(contracts, contract, at),
    ensures
        api::book_for(contracts, contract) == Some(contracts[at]),
    decreases contracts.len(),
{
    if at < contracts.len() - 1 {
        assert(contracts[contracts.len() - 1].contract != contract);
        let front = contracts.drop_last();
        assert forall|k: int| at < k < front.len() implies (#[trigger] front[k]).contract
            != contract by {
            assert(front[k] == contracts[k]);
        }
        lemma_summary(front, contract, at);
    }
}

proof fn lemma_no_summary(contracts: Seq<SummaryView>, contract: u32)
    requires
        forall|k: int| 0 <= k < contracts.len() ==> (#[trigger] contracts[k]).contract != contract,
    ensures
        api::book_for(contracts, contract) is None,
    decreases contracts.len(),
{
    if contracts.len() > 0 {
        assert(contracts[contracts.len() - 1].contract != contract);
        let front = contracts.drop_last();
        assert forall|k: int| 0 <= k < front.len() implies (#[trigger] front[k]).contract
            != contract by {
            assert(front[k] == contracts[k]);
        }
        lemma_no_summary(front, contract);
    }
}

/// A leg is shown with the quotes of its own outcome in its own book, and where
/// nothing is offered there, at what it cost for each unit.
pub proof fn a_leg_is_shown_with_its_own_quotes(
    leg: SignalLegView,
    units: int,
    contracts: Seq<SummaryView>,
    at: int,
)
    requires
        units >= 1,
        is_summary(contracts, leg.contract, at),
        leg.side == "yes"@ || leg.side == "no"@,
    ensures
        ({
            let out = api::shown_leg(leg, units, contracts);
            let book = contracts[at];
            let (ask, bid) = if leg.side == "yes"@ {
                (book.best_ask, book.best_bid)
            } else {
                (book.best_no_ask, book.best_no_bid)
            };
            &&& out.contract_id == text::decimal(leg.contract as nat)
            &&& out.venue == leg.venue
            &&& out.side == leg.side
            &&& out.size == leg.qty
            &&& is_share(out.fee as int, leg.fee_cents as int, units)
            &&& ask is Some ==> Some(out.best_ask) == ask
            &&& ask is None ==> is_share(out.best_ask as int, leg.cost_cents as int, units)
            &&& bid is Some ==> Some(out.best_bid) == bid
            &&& bid is None ==> out.best_bid == 0
        }),
{
    reveal_strlit("yes");
    reveal_strlit("no");
    assert("yes"@.len() != "no"@.len());
    lemma_summary(contracts, leg.contract, at);
    lemma_share(leg.fee_cents, units);
    lemma_share(leg.cost_cents, units);
}

/// A leg whose book nobody summarised is shown at what it cost, with no bid.
pub proof fn a_leg_without_a_book_is_shown_at_cost(
    leg: SignalLegView,
    units: int,
    contracts: Seq<SummaryView>,
)
    requires
        units >= 1,
        forall|k: int|
            0 <= k < contracts.len() ==> (#[trigger] contracts[k]).contract != leg.contract,
    ensures
        is_share(
            api::shown_leg(leg, units, contracts).best_ask as int,
            leg.cost_cents as int,
            units,
        ),
        api::shown_leg(leg, units, contracts).best_bid == 0,
{
    lemma_no_summary(contracts, leg.contract);
    lemma_share(leg.cost_cents, units);
}

/// The feed's counters are shown as they are; without a feed the engine's count
/// of events stands for its messages.
pub proof fn the_feed_is_shown_as_counted(connected: bool, gaps: u64, events: u64, feed: Metrics)
    ensures
        ({
            let out: DashboardHealth = api::feed_health(connected, gaps, events, Some(feed));
            let bare: DashboardHealth = api::feed_health(connected, gaps, events, None);
            &&& out.connected == connected && bare.connected == connected
            &&& out.sequence_gaps == gaps && bare.sequence_gaps == gaps
            &&& out.messages_received == feed.messages_received
            &&& bare.messages_received == events
            &&& out.parse_errors == feed.parse_errors && bare.parse_errors == 0
            &&& out.reconnections == feed.reconnections && bare.reconnections == 0
        }),
{
}

} // verus!
