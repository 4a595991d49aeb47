//! Solver-internal types: what a violation candidate is, what a priced
//! opportunity is, why candidates get thrown away, and what the engine counts.
//!
//! Every monetary field is integer [`Cents`], and returns are exact fractions:
//! neither rounding nor a machine's arithmetic can turn a rejected trade into
//! an accepted one.
use vstd::prelude::*;
use crate::registry::GroupId;
use crate::types::{Cents, ContractId, Level, Ratio, Side, Venue};

verus! {

/// Minimum horizon used when annualizing, in milliseconds.
///
/// A contract resolving in the next few minutes would otherwise divide a real
/// edge by something near zero and dominate the ranking with a number that
/// cannot be realized: capital does not actually recycle three hundred times a
/// day. One hour is the floor, so a near-resolution trade ranks high but stays
/// on the same axis as everything else.
pub const MIN_HORIZON_MS: u64 = 3_600_000;

/// Milliseconds in a year of 365 days.
pub const MS_PER_YEAR: u64 = 31_536_000_000;

/// The engine's `[engine]` configuration block, in memory.
///
/// Every field carries a default, so a config that omits the block, or any key
/// in it, still starts.
#[derive(Clone, Copy, Debug, PartialEq, Eq, Structural)]
pub struct SolverConfig {
    /// Quotes older than this are stale and never produce a signal.
    pub max_book_age_ms: u64,
    /// Minimum net profit, in integer cents, for a candidate to be reported.
    pub min_net_edge_cents: Cents,
    /// Minimum annualized return on locked capital, as a ratio (15/100 = 15%).
    pub min_annualized_return: Ratio,
    /// Cap on contracts per leg.
    pub max_position_size: i64,
}

impl Default for SolverConfig {
    fn default() -> (config: Self)
        ensures
            config == (SolverConfig {
                max_book_age_ms: 500,
                min_net_edge_cents: 1,
                min_annualized_return: Ratio { numer: 15, denom: 100 },
                max_position_size: 500,
            }),
    {
        SolverConfig {
            max_book_age_ms: 500,
            min_net_edge_cents: 1,
            min_annualized_return: Ratio { numer: 15, denom: 100 },
            max_position_size: 500,
        }
    }
}

/// One leg of a trade before it has been sized or priced.
///
/// `side` is the outcome being **bought**, not the wire side a resting order
/// sits on. Buying [`Side::No`] consumes resting yes bids, because a yes buy at
/// P and a no buy at `100 - P` are the same match.
#[derive(Clone, Copy, Debug, PartialEq, Eq, Structural)]
pub struct CandidateLeg {
    pub venue: Venue,
    pub contract_id: ContractId,
    pub side: Side,
}

/// A constraint violation visible at top of book, before costing.
///
/// A candidate is not a signal. It says only that the best prices in the group
/// are mutually inconsistent, which is the cheap test. Depth, fees, freshness,
/// and the return threshold all still get to reject it.
#[derive(Clone, Debug, PartialEq)]
pub struct Candidate {
    pub group: GroupId,
    pub legs: Vec<CandidateLeg>,
    /// Sum of best ask prices across the legs, for the rejection log. The gap
    /// against 100 is what fees have to be paid out of.
    pub top_of_book_cost_cents: Cents,
}

/// What a [`Candidate`] says.
#[verifier::ext_equal]
pub struct CandidateView {
    pub group: GroupId,
    pub legs: Seq<CandidateLeg>,
    pub top_of_book_cost_cents: Cents,
}

impl View for Candidate {
    type V = CandidateView;

    open spec fn view(&self) -> CandidateView {
        CandidateView {
            group: self.group,
            legs: self.legs@,
            top_of_book_cost_cents: self.top_of_book_cost_cents,
        }
    }
}

pub open spec fn candidates_view(candidates: Seq<Candidate>) -> Seq<CandidateView> {
    candidates.map_values(|c: Candidate| c@)
}

/// Result of consuming resting liquidity on one side of one book.
///
/// `consumed` keeps the per-level breakdown rather than only a blended total,
/// because fees round up per level and because a rejected candidate is only
/// explainable if the level structure that killed it is still visible.
#[derive(Clone, Debug, PartialEq)]
pub struct Walk {
    /// Contracts actually obtainable, which may be less than requested.
    pub filled: i64,
    /// Total premium paid, as size times price summed across levels.
    pub total_cost_cents: Cents,
    /// Levels consumed, cheapest first; the last may be partial.
    pub consumed: Vec<Level>,
}

/// One venue-side fill that forms part of a combined position.
///
/// Legs are retained individually because execution is per venue and per
/// contract: the engine must be able to place, size, and later reconcile each
/// one on its own, and a post-mortem needs to know which leg moved.
#[derive(Clone, Copy, Debug, PartialEq, Eq, Structural)]
pub struct Leg {
    pub venue: Venue,
    pub contract_id: ContractId,
    /// The outcome bought on this leg.
    pub side: Side,
    /// Contracts bought on this leg.
    pub qty: i64,
    /// Premium paid on this leg.
    pub total_cost_cents: Cents,
    /// Taker fee charged on this leg, summed over the levels consumed.
    pub fee_cents: Cents,
}

/// A fully priced, fully sized violation that is profitable after costs.
///
/// Every field is the post-fee, post-depth truth rather than a headline number,
/// so downstream ranking and risk checks never re-derive costs and never
/// disagree with each other about what the trade is worth.
#[derive(Clone, Debug, PartialEq)]
pub struct Opportunity {
    pub group: GroupId,
    /// The individual fills that make up the position.
    pub legs: Vec<Leg>,
    /// Contracts held on every leg; the set only settles flat if legs match.
    pub qty: i64,
    /// Worst-case payoff over every resolution the relation permits. Not an
    /// assumption: computed by enumerating states in [`crate::registry`].
    pub guaranteed_payoff_cents: Cents,
    /// Cash locked until resolution, which is what the return is measured on.
    pub capital_cents: Cents,
    /// Guaranteed payoff minus premium, before fees.
    pub gross_cents: Cents,
    /// Total taker fees across all legs.
    pub fees_cents: Cents,
    /// Profit actually realized at resolution.
    pub net_cents: Cents,
    /// Milliseconds until the locked capital comes back, floored at
    /// [`MIN_HORIZON_MS`]. Net over capital, times a year over this, is the
    /// annualized return.
    pub horizon_ms: u64,
}

/// What an [`Opportunity`] says.
#[verifier::ext_equal]
pub struct OpportunityView {
    pub group: GroupId,
    pub legs: Seq<Leg>,
    pub qty: i64,
    pub guaranteed_payoff_cents: Cents,
    pub capital_cents: Cents,
    pub gross_cents: Cents,
    pub fees_cents: Cents,
    pub net_cents: Cents,
    pub horizon_ms: u64,
}

impl View for Opportunity {
    type V = OpportunityView;

    open spec fn view(&self) -> OpportunityView {
        OpportunityView {
            group: self.group,
            legs: self.legs@,
            qty: self.qty,
            guaranteed_payoff_cents: self.guaranteed_payoff_cents,
            capital_cents: self.capital_cents,
            gross_cents: self.gross_cents,
            fees_cents: self.fees_cents,
            net_cents: self.net_cents,
            horizon_ms: self.horizon_ms,
        }
    }
}

pub open spec fn opportunities_view(opportunities: Seq<Opportunity>) -> Seq<OpportunityView> {
    opportunities.map_values(|o: Opportunity| o@)
}

impl OpportunityView {
    /// A position that earns something on capital that comes back later, with
    /// the same number of contracts on every leg.
    pub open spec fn wf(self) -> bool {
        &&& self.net_cents > 0
        &&& self.capital_cents >= 0
        &&& self.horizon_ms >= MIN_HORIZON_MS
        &&& self.qty > 0
        &&& self.qty * 100 <= i64::MAX
        &&& forall|i: int| 0 <= i < self.legs.len() ==> (#[trigger] self.legs[i]).qty == self.qty
    }

    /// Whether the annualized return is below `minimum`, compared exactly.
    pub open spec fn returns_less_than(self, minimum: Ratio) -> bool {
        (self.net_cents * minimum.denom) * MS_PER_YEAR < (self.capital_cents * minimum.numer)
            * self.horizon_ms
    }

    /// The annualized return of this position, cross-multiplied against
    /// `other`'s: the larger product belongs to the larger return.
    pub open spec fn scaled_return(self, other: OpportunityView) -> int {
        (self.net_cents * other.capital_cents) * other.horizon_ms
    }
}

/// Why a group or candidate produced no signal.
///
/// The breakdown is the deliverable, not a debugging aid. The expected result on
/// live data is that fees reject the majority of candidates, and that claim is
/// only worth anything if every rejection is attributed to one concrete cause.
#[derive(Clone, Copy, Debug, PartialEq, Eq, Structural)]
pub enum RejectReason {
    /// A member book is not `Live`: gap, disconnect, or no snapshot yet.
    NotLive,
    /// Every book is live but at least one is older than `max_book_age_ms`.
    Stale,
    /// A member contract has no book in the store at all.
    MissingBook,
    /// A cross-venue pair a human has not confirmed settles identically.
    Unverified,
    /// At least one leg has no resting liquidity to take.
    NoDepth,
    /// Gross edge was positive but fees consumed all of it. The common case.
    FeesExceedGap,
    /// Profitable, but by less than `min_net_edge_cents`.
    BelowMinEdge,
    /// Profitable, but the return on locked capital is below the threshold.
    BelowMinReturn,
    /// The legs do not actually pay off in every resolution. A relation or fast
    /// path bug; the position is discarded and counted loudly.
    PayoffNotGuaranteed,
}

/// The name a rejection is counted and logged under.
pub open spec fn reject_name(reason: RejectReason) -> Seq<char> {
    match reason {
        RejectReason::NotLive => "not_live"@,
        RejectReason::Stale => "stale"@,
        RejectReason::MissingBook => "missing_book"@,
        RejectReason::Unverified => "unverified"@,
        RejectReason::NoDepth => "no_depth"@,
        RejectReason::FeesExceedGap => "fees_exceed_gap"@,
        RejectReason::BelowMinEdge => "below_min_edge"@,
        RejectReason::BelowMinReturn => "below_min_return"@,
        RejectReason::PayoffNotGuaranteed => "payoff_not_guaranteed"@,
    }
}

impl RejectReason {
    pub fn as_str(self) -> (name: &'static str)
        ensures
            name@ == reject_name(self),
    {
        match self {
            RejectReason::NotLive => "not_live",
            RejectReason::Stale => "stale",
            RejectReason::MissingBook => "missing_book",
            RejectReason::Unverified => "unverified",
            RejectReason::NoDepth => "no_depth",
            RejectReason::FeesExceedGap => "fees_exceed_gap",
            RejectReason::BelowMinEdge => "below_min_edge",
            RejectReason::BelowMinReturn => "below_min_return",
            RejectReason::PayoffNotGuaranteed => "payoff_not_guaranteed",
        }
    }
}

#[derive(Clone, Copy, Debug, PartialEq, Eq, Structural)]
pub struct SolverMetrics {
    pub groups_evaluated: u64,
    pub candidates_found: u64,
    pub opportunities_emitted: u64,
    pub rejected_not_live: u64,
    pub rejected_stale: u64,
    pub rejected_missing_book: u64,
    pub rejected_unverified: u64,
    pub rejected_no_depth: u64,
    pub rejected_fees_exceed_gap: u64,
    pub rejected_below_min_edge: u64,
    pub rejected_below_min_return: u64,
    pub rejected_payoff_not_guaranteed: u64,
}

/// One more, held at the largest count.
pub open spec fn bumped(count: u64) -> u64 {
    if count < u64::MAX {
        (count + 1) as u64
    } else {
        count
    }
}

impl Default for SolverMetrics {
    fn default() -> (metrics: Self)
        ensures
            metrics == SolverMetrics::zero(),
    {
        SolverMetrics {
            groups_evaluated: 0,
            candidates_found: 0,
            opportunities_emitted: 0,
            rejected_not_live: 0,
            rejected_stale: 0,
            rejected_missing_book: 0,
            rejected_unverified: 0,
            rejected_no_depth: 0,
            rejected_fees_exceed_gap: 0,
            rejected_below_min_edge: 0,
            rejected_below_min_return: 0,
            rejected_payoff_not_guaranteed: 0,
        }
    }
}

impl SolverMetrics {
    pub open spec fn zero() -> SolverMetrics {
        SolverMetrics {
            groups_evaluated: 0,
            candidates_found: 0,
            opportunities_emitted: 0,
            rejected_not_live: 0,
            rejected_stale: 0,
            rejected_missing_book: 0,
            rejected_unverified: 0,
            rejected_no_depth: 0,
            rejected_fees_exceed_gap: 0,
            rejected_below_min_edge: 0,
            rejected_below_min_return: 0,
            rejected_payoff_not_guaranteed: 0,
        }
    }

    /// The counters after one rejection: its own moves, no other does.
    pub open spec fn rejected(self, reason: RejectReason) -> SolverMetrics {
        match reason {
            RejectReason::NotLive => SolverMetrics {
                rejected_not_live: bumped(self.rejected_not_live),
                ..self
            },
            RejectReason::Stale => SolverMetrics {
                rejected_stale: bumped(self.rejected_stale),
                ..self
            },
            RejectReason::MissingBook => SolverMetrics {
                rejected_missing_book: bumped(self.rejected_missing_book),
                ..self
            },
            RejectReason::Unverified => SolverMetrics {
                rejected_unverified: bumped(self.rejected_unverified),
                ..self
            },
            RejectReason::NoDepth => SolverMetrics {
                rejected_no_depth: bumped(self.rejected_no_depth),
                ..self
            },
            RejectReason::FeesExceedGap => SolverMetrics {
                rejected_fees_exceed_gap: bumped(self.rejected_fees_exceed_gap),
                ..self
            },
            RejectReason::BelowMinEdge => SolverMetrics {
                rejected_below_min_edge: bumped(self.rejected_below_min_edge),
                ..self
            },
            RejectReason::BelowMinReturn => SolverMetrics {
                rejected_below_min_return: bumped(self.rejected_below_min_return),
                ..self
            },
            RejectReason::PayoffNotGuaranteed => SolverMetrics {
                rejected_payoff_not_guaranteed: bumped(self.rejected_payoff_not_guaranteed),
                ..self
            },
        }
    }

    pub open spec fn total(self) -> int {
        self.rejected_not_live + self.rejected_stale + self.rejected_missing_book
            + self.rejected_unverified + self.rejected_no_depth + self.rejected_fees_exceed_gap
            + self.rejected_below_min_edge + self.rejected_below_min_return
            + self.rejected_payoff_not_guaranteed
    }

    pub fn note_rejection(&mut self, reason: RejectReason)
        ensures
            *final(self) == old(self).rejected(reason),
    {
        match reason {
            RejectReason::NotLive => {
                self.rejected_not_live = self.rejected_not_live.saturating_add(1);
            },
            RejectReason::Stale => {
                self.rejected_stale = self.rejected_stale.saturating_add(1);
            },
            RejectReason::MissingBook => {
                self.rejected_missing_book = self.rejected_missing_book.saturating_add(1);
            },
            RejectReason::Unverified => {
                self.rejected_unverified = self.rejected_unverified.saturating_add(1);
            },
            RejectReason::NoDepth => {
                self.rejected_no_depth = self.rejected_no_depth.saturating_add(1);
            },
            RejectReason::FeesExceedGap => {
                self.rejected_fees_exceed_gap = self.rejected_fees_exceed_gap.saturating_add(1);
            },
            RejectReason::BelowMinEdge => {
                self.rejected_below_min_edge = self.rejected_below_min_edge.saturating_add(1);
            },
            RejectReason::BelowMinReturn => {
                self.rejected_below_min_return = self.rejected_below_min_return.saturating_add(1);
            },
            RejectReason::PayoffNotGuaranteed => {
                self.rejected_payoff_not_guaranteed =
                self.rejected_payoff_not_guaranteed.saturating_add(1);
            },
        }
    }

    /// Total rejections, for the "fees reject most candidates" breakdown.
    pub fn rejections(&self) -> (total: u64)
        requires
            self.total() <= u64::MAX,
        ensures
            total == self.total(),
    {
        self.rejected_not_live + self.rejected_stale + self.rejected_missing_book
            + self.rejected_unverified + self.rejected_no_depth + self.rejected_fees_exceed_gap
            + self.rejected_below_min_edge + self.rejected_below_min_return
            + self.rejected_payoff_not_guaranteed
    }
}

/// Every rejection is attributed to exactly one cause: the total grows by one
/// for each, as long as the counter it lands in is not full.
pub proof fn a_rejection_is_counted_once(metrics: SolverMetrics, reason: RejectReason)
    ensures
        metrics.rejected(reason).total() <= metrics.total() + 1,
        metrics.total() < u64::MAX ==> metrics.rejected(reason).total() == metrics.total() + 1,
{
}

} // verus!
