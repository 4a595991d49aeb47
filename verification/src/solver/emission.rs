//! What an evaluation emits: every opportunity of every group that a change
//! touched, best first, and nothing else.
use vstd::prelude::*;
use crate::fees::FeeModels;
use crate::registry;
use crate::registry::{GroupId, GroupView, RelationView};
use crate::solver;
use crate::solver::costing;
use crate::solver::laws;
use crate::solver::types::{
    CandidateView, OpportunityView, RejectReason, SolverConfig, SolverMetrics,
};
use crate::types::ContractId;

verus! {

/// The contracts that a relation speaks of, in the order in which it does.
pub proof fn a_relation_names_its_members(relation: RelationView, i: int)
    requires
        0 <= i < relation.members().len(),
    ensures
        match relation {
            RelationView::Complement { contract } => relation.members().len() == 1
                && relation.members()[0] == contract,
            RelationView::Exhaustive { members } => relation.members().len() == members.len()
                && relation.members()[i] == members[i],
            RelationView::Monotone { ordered } => relation.members().len() == ordered.len()
                && relation.members()[i] == ordered[i],
            RelationView::Implies { antecedent, consequent } => relation.members().len() == 2
                && relation.members()[0] == antecedent && relation.members()[1] == consequent,
            RelationView::Equivalent { a, b, .. } => relation.members().len() == 2
                && relation.members()[0] == a && relation.members()[1] == b,
        },
{
}

/// A group is found by each contract that it speaks of, and by no other.
pub proof fn a_group_is_found_by_its_members(
    groups: Seq<GroupView>,
    contract: ContractId,
    id: int,
)
    requires
        groups.len() <= 0x1_0000_0000,
        forall|i: int| 0 <= i < groups.len() ==> (#[trigger] groups[i]).id == GroupId(i as u32),
        0 <= id < groups.len(),
    ensures
        registry::groups_containing(groups, contract).contains(GroupId(id as u32)) <==> exists|
            m: int,
        |
            0 <= m < groups[id].relation.members().len() && #[trigger] groups[id].relation.members(
            )[m] == contract,
{
    laws::lemma_containing(groups, contract, id);
}

/// A group speaks of a contract that changed.
pub open spec fn is_touched(group: GroupView, dirty: Seq<ContractId>) -> bool {
    exists|m: int, d: int|
        0 <= m < group.relation.members().len() && 0 <= d < dirty.len()
            && #[trigger] group.relation.members()[m] == #[trigger] dirty[d]
}

proof fn lemma_touched(groups: Seq<GroupView>, dirty: Seq<ContractId>, id: int)
    requires
        groups.len() <= 0x1_0000_0000,
        forall|i: int| 0 <= i < groups.len() ==> (#[trigger] groups[i]).id == GroupId(i as u32),
        0 <= id < groups.len(),
    ensures
        solver::touched(groups, dirty, id) <==> is_touched(groups[id], dirty),
{
    laws::lemma_touched_holds(groups, dirty, id);
    let members = groups[id].relation.members();
    if laws::holds_dirty(groups[id], dirty) {
        let d = choose|d: int| 0 <= d < dirty.len() && members.contains(#[trigger] dirty[d]);
        let m = choose|m: int| 0 <= m < members.len() && members[m] == dirty[d];
        assert(members[m] == dirty[d]);
    }
    if is_touched(groups[id], dirty) {
        let (m, d) = choose|m: int, d: int|
            0 <= m < members.len() && 0 <= d < dirty.len() && #[trigger] members[m]
                == #[trigger] dirty[d];
        assert(members.contains(dirty[d]));
    }
}

/// A trade that a group comes to: one of its candidates, costed.
pub open spec fn comes_to(
    models: &FeeModels,
    group: GroupView,
    quotes: costing::Quotes,
    config: SolverConfig,
    now_ms: u64,
    trade: OpportunityView,
) -> bool {
    exists|found: CandidateView|
        (solver::candidates_of(group, quotes, config.max_book_age_ms, now_ms) matches Ok(
            candidates,
        ) && candidates.contains(found)) && #[trigger] costing::costed(
            models,
            group,
            found.legs,
            quotes,
            config,
            now_ms,
        ) == Ok::<OpportunityView, RejectReason>(trade)
}

proof fn lemma_costed_all(
    metrics: SolverMetrics,
    models: &FeeModels,
    group: GroupView,
    candidates: Seq<CandidateView>,
    quotes: costing::Quotes,
    config: SolverConfig,
    now_ms: u64,
    trade: OpportunityView,
)
    ensures
        ({
            let (after, emitted) = solver::costed_all(
                metrics,
                models,
                group,
                candidates,
                quotes,
                config,
                now_ms,
            );
            &&& emitted.contains(trade) <==> exists|c: int|
                0 <= c < candidates.len() && costing::costed(
                    models,
                    group,
                    (#[trigger] candidates[c]).legs,
                    quotes,
                    config,
                    now_ms,
                ) == Ok::<OpportunityView, RejectReason>(trade)
            &&& after.opportunities_emitted == costing::min(
                u64::MAX as int,
                metrics.opportunities_emitted + emitted.len(),
            )
            &&& after.candidates_found == costing::min(
                u64::MAX as int,
                metrics.candidates_found + candidates.len(),
            )
            &&& after.groups_evaluated == metrics.groups_evaluated
        }),
    decreases candidates.len(),
{
    if candidates.len() > 0 {
        let front = candidates.drop_last();
        let n = candidates.len() - 1;
        lemma_costed_all(metrics, models, group, front, quotes, config, now_ms, trade);
        let before = solver::costed_all(metrics, models, group, front, quotes, config, now_ms).1;
        let after = solver::costed_all(
            metrics,
            models,
            group,
            candidates,
            quotes,
            config,
            now_ms,
        ).1;
        let last = costing::costed(models, group, candidates[n].legs, quotes, config, now_ms);
        if before.contains(trade) {
            let c = choose|c: int|
                0 <= c < front.len() && costing::costed(
                    models,
                    group,
                    (#[trigger] front[c]).legs,
                    quotes,
                    config,
                    now_ms,
                ) == Ok::<OpportunityView, RejectReason>(trade);
            assert(candidates[c] == front[c]);
            let k = choose|k: int| 0 <= k < before.len() && before[k] == trade;
            assert(after[k] == trade);
        }
        if last == Ok::<OpportunityView, RejectReason>(trade) {
            assert(after[before.len() as int] == trade);
        }
        if after.contains(trade) {
            let k = choose|k: int| 0 <= k < after.len() && after[k] == trade;
            if k < before.len() {
                assert(before[k] == trade);
            } else {
                assert(candidates[n].legs == candidates.last().legs);
            }
        }
        if exists|c: int|
            0 <= c < candidates.len() && costing::costed(
                models,
                group,
                (#[trigger] candidates[c]).legs,
                quotes,
                config,
                now_ms,
            ) == Ok::<OpportunityView, RejectReason>(trade) {
            let c = choose|c: int|
                0 <= c < candidates.len() && costing::costed(
                    models,
                    group,
                    (#[trigger] candidates[c]).legs,
                    quotes,
                    config,
                    now_ms,
                ) == Ok::<OpportunityView, RejectReason>(trade);
            if c < n {
                assert(front[c] == candidates[c]);
            }
        }
    } else {
        assert(!solver::costed_all(
            metrics,
            models,
            group,
            candidates,
            quotes,
            config,
            now_ms,
        ).1.contains(trade));
    }
}

/// Evaluating one group emits each of its candidates that costing lets through,
/// and counts what it found, what it emitted, and why it emitted nothing of a
/// group that could not be evaluated.
pub proof fn a_group_emits_what_its_candidates_come_to(
    metrics: SolverMetrics,
    models: &FeeModels,
    group: GroupView,
    quotes: costing::Quotes,
    config: SolverConfig,
    now_ms: u64,
    trade: OpportunityView,
)
    ensures
        ({
            let (after, emitted) = solver::group_outcome(
                metrics,
                models,
                group,
                quotes,
                config,
                now_ms,
            );
            &&& emitted.contains(trade) <==> comes_to(
                models,
                group,
                quotes,
                config,
                now_ms,
                trade,
            )
            &&& after.groups_evaluated == costing::min(
                u64::MAX as int,
                metrics.groups_evaluated + 1,
            )
            &&& after.opportunities_emitted == costing::min(
                u64::MAX as int,
                metrics.opportunities_emitted + emitted.len(),
            )
            &&& solver::candidates_of(group, quotes, config.max_book_age_ms, now_ms) matches Err(
                reason,
            ) ==> emitted.len() == 0 && after == (SolverMetrics {
                groups_evaluated: after.groups_evaluated,
                ..metrics
            }).rejected(reason)
        }),
{
    let counted = SolverMetrics {
        groups_evaluated: solver::types::bumped(metrics.groups_evaluated),
        ..metrics
    };
    if let Ok(candidates) = solver::candidates_of(group, quotes, config.max_book_age_ms, now_ms) {
        lemma_costed_all(counted, models, group, candidates, quotes, config, now_ms, trade);
        if comes_to(models, group, quotes, config, now_ms, trade) {
            let found = choose|found: CandidateView|
                candidates.contains(found) && #[trigger] costing::costed(
                    models,
                    group,
                    found.legs,
                    quotes,
                    config,
                    now_ms,
                ) == Ok::<OpportunityView, RejectReason>(trade);
            let c = choose|c: int| 0 <= c < candidates.len() && candidates[c] == found;
            assert(costing::costed(models, group, candidates[c].legs, quotes, config, now_ms)
                == Ok::<OpportunityView, RejectReason>(trade));
        }
        if exists|c: int|
            0 <= c < candidates.len() && costing::costed(
                models,
                group,
                (#[trigger] candidates[c]).legs,
                quotes,
                config,
                now_ms,
            ) == Ok::<OpportunityView, RejectReason>(trade) {
            let c = choose|c: int|
                0 <= c < candidates.len() && costing::costed(
                    models,
                    group,
                    (#[trigger] candidates[c]).legs,
                    quotes,
                    config,
                    now_ms,
                ) == Ok::<OpportunityView, RejectReason>(trade);
            assert(candidates.contains(candidates[c]));
        }
    } else {
        assert(!solver::group_outcome(metrics, models, group, quotes, config, now_ms).1.contains(
            trade,
        ));
    }
}

proof fn lemma_evaluated(
    metrics: SolverMetrics,
    models: &FeeModels,
    groups: Seq<GroupView>,
    dirty: Seq<ContractId>,
    quotes: costing::Quotes,
    config: SolverConfig,
    now_ms: u64,
    n: int,
    trade: OpportunityView,
)
    requires
        groups.len() <= 0x1_0000_0000,
        forall|i: int| 0 <= i < groups.len() ==> (#[trigger] groups[i]).id == GroupId(i as u32),
        0 <= n <= groups.len(),
    ensures
        ({
            let (after, emitted) = solver::evaluated(
                metrics,
                models,
                groups,
                dirty,
                quotes,
                config,
                now_ms,
                n,
            );
            &&& emitted.contains(trade) <==> exists|g: int|
                0 <= g < n && is_touched(#[trigger] groups[g], dirty) && comes_to(
                    models,
                    groups[g],
                    quotes,
                    config,
                    now_ms,
                    trade,
                )
            &&& after.opportunities_emitted == costing::min(
                u64::MAX as int,
                metrics.opportunities_emitted + emitted.len(),
            )
        }),
    decreases n,
{
    if n > 0 {
        lemma_evaluated(
            metrics,
            models,
            groups,
            dirty,
            quotes,
            config,
            now_ms,
            n - 1,
            trade,
        );
        lemma_touched(groups, dirty, n - 1);
        let (before, emitted) = solver::evaluated(
            metrics,
            models,
            groups,
            dirty,
            quotes,
            config,
            now_ms,
            n - 1,
        );
        a_group_emits_what_its_candidates_come_to(
            before,
            models,
            groups[n - 1],
            quotes,
            config,
            now_ms,
            trade,
        );
        if solver::touched(groups, dirty, n - 1) {
            let more = solver::group_outcome(
                before,
                models,
                groups[n - 1],
                quotes,
                config,
                now_ms,
            ).1;
            let all = emitted + more;
            if emitted.contains(trade) {
                let k = choose|k: int| 0 <= k < emitted.len() && emitted[k] == trade;
                assert(all[k] == trade);
            }
            if more.contains(trade) {
                let k = choose|k: int| 0 <= k < more.len() && more[k] == trade;
                assert(all[emitted.len() + k] == trade);
                assert(is_touched(groups[n - 1], dirty));
            }
            if all.contains(trade) {
                let k = choose|k: int| 0 <= k < all.len() && all[k] == trade;
                if k < emitted.len() {
                    assert(emitted[k] == trade);
                } else {
                    assert(more[k - emitted.len()] == trade);
                }
            }
        }
    } else {
        assert(!solver::evaluated(
            metrics,
            models,
            groups,
            dirty,
            quotes,
            config,
            now_ms,
            n,
        ).1.contains(trade));
    }
}

/// An evaluation emits a trade exactly where a group that speaks of a changed
/// contract comes to it, and counts as many as it emits.
pub proof fn every_touched_group_is_evaluated_and_no_other(
    metrics: SolverMetrics,
    models: &FeeModels,
    groups: Seq<GroupView>,
    dirty: Seq<ContractId>,
    quotes: costing::Quotes,
    config: SolverConfig,
    now_ms: u64,
    trade: OpportunityView,
)
    requires
        groups.len() <= 0x1_0000_0000,
        forall|i: int| 0 <= i < groups.len() ==> (#[trigger] groups[i]).id == GroupId(i as u32),
    ensures
        ({
            let (after, emitted) = solver::evaluated(
                metrics,
                models,
                groups,
                dirty,
                quotes,
                config,
                now_ms,
                groups.len() as int,
            );
            &&& emitted.contains(trade) <==> exists|g: int|
                0 <= g < groups.len() && is_touched(#[trigger] groups[g], dirty) && comes_to(
                    models,
                    groups[g],
                    quotes,
                    config,
                    now_ms,
                    trade,
                )
            &&& metrics.opportunities_emitted + emitted.len() <= u64::MAX
                ==> after.opportunities_emitted == metrics.opportunities_emitted + emitted.len()
        }),
{
    lemma_evaluated(
        metrics,
        models,
        groups,
        dirty,
        quotes,
        config,
        now_ms,
        groups.len() as int,
        trade,
    );
}

/// Opportunities come by what they earn on their capital over the time that it is
/// locked up: the best first, among equals the one that earns more in all, and
/// among those the group that was written down first. None is lost.
pub proof fn the_best_return_comes_first(emitted: Seq<OpportunityView>, i: int, j: int)
    requires
        forall|k: int| 0 <= k < emitted.len() ==> (#[trigger] emitted[k]).wf(),
        0 <= i < j < costing::ranked(emitted).len(),
    ensures
        costing::ranked(emitted).to_multiset() == emitted.to_multiset(),
        ({
            let a = costing::ranked(emitted)[i];
            let b = costing::ranked(emitted)[j];
            let ahead = (a.net_cents * b.capital_cents) * b.horizon_ms;
            let behind = (b.net_cents * a.capital_cents) * a.horizon_ms;
            &&& ahead >= behind
            &&& ahead == behind ==> a.net_cents >= b.net_cents
            &&& ahead == behind && a.net_cents == b.net_cents ==> a.group.0 <= b.group.0
        }),
{
    costing::ranking_sorts_and_keeps_every_opportunity(emitted);
    let ranked = costing::ranked(emitted);
    assert(!costing::outranks(ranked[j], ranked[i]));
}

/// Each reason for refusing has a counter of its own.
pub proof fn a_rejection_is_counted_under_its_reason(metrics: SolverMetrics, reason: RejectReason)
    ensures
        ({
            let after = metrics.rejected(reason);
            let same = |was: u64, is: u64, own: bool|
                if own {
                    is == was + 1 || (was == u64::MAX && is == was)
                } else {
                    is == was
                };
            &&& same(
                metrics.rejected_not_live,
                after.rejected_not_live,
                reason == RejectReason::NotLive,
            )
            &&& same(metrics.rejected_stale, after.rejected_stale, reason == RejectReason::Stale)
            &&& same(
                metrics.rejected_missing_book,
                after.rejected_missing_book,
                reason == RejectReason::MissingBook,
            )
            &&& same(
                metrics.rejected_unverified,
                after.rejected_unverified,
                reason == RejectReason::Unverified,
            )
            &&& same(
                metrics.rejected_no_depth,
                after.rejected_no_depth,
                reason == RejectReason::NoDepth,
            )
            &&& same(
                metrics.rejected_fees_exceed_gap,
                after.rejected_fees_exceed_gap,
                reason == RejectReason::FeesExceedGap,
            )
            &&& same(
                metrics.rejected_below_min_edge,
                after.rejected_below_min_edge,
                reason == RejectReason::BelowMinEdge,
            )
            &&& same(
                metrics.rejected_below_min_return,
                after.rejected_below_min_return,
                reason == RejectReason::BelowMinReturn,
            )
            &&& same(
                metrics.rejected_payoff_not_guaranteed,
                after.rejected_payoff_not_guaranteed,
                reason == RejectReason::PayoffNotGuaranteed,
            )
            &&& after.groups_evaluated == metrics.groups_evaluated
            &&& after.candidates_found == metrics.candidates_found
            &&& after.opportunities_emitted == metrics.opportunities_emitted
        }),
{
}

} // verus!
