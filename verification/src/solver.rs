//! Coherence solver: find constraint violations that are still profitable after
//! depth, fees, and staleness have had their say.
//!
//! A set of mutually exclusive and exhaustive prediction market contracts must
//! settle with exactly one leg paying $1. If every leg can be bought for a
//! combined total below 100 cents, the set is incoherent and the difference is
//! locked in regardless of which outcome occurs. The same reasoning covers a
//! contract against its own negation, a threshold ladder against its own
//! ordering, and one event listed on two venues. This module turns those four
//! observations into executable, fee-aware, depth-aware signals.
//!
//! Data flows one way. The book store feeds the solver, the solver feeds the
//! executor, and nothing calls backwards. That is what makes replay reproduce
//! live behavior exactly and keeps concurrency a non-issue: the solver reads
//! books and never mutates anything but its own counters.
//!
//! # Structure
//!
//! - [`fast`] holds the four closed-form checks, which run on every dirty group.
//! - [`costing`] prices, sizes, and gates the handful of candidates they find.
//! - [`types`] defines candidates, opportunities, rejection reasons, and config.
//! - [`laws`] states what holds of every signal, whatever the books say.
use vstd::prelude::*;
use crate::fees::FeeModels;
use crate::registry::{ConstraintGroup, GroupId, GroupView, Registry, Relation, RelationView};
use crate::registry;
use crate::types::{Book, BookView, ContractId};

pub mod costing;
pub mod detection;
pub mod emission;
pub mod fast;
pub mod laws;
pub mod pricing;
pub mod types;

pub use crate::solver::types::{
    Candidate, CandidateLeg, CandidateView, Leg, Opportunity, OpportunityView, RejectReason,
    SolverConfig, SolverMetrics, Walk,
};

verus! {

/// Read-only access to the books the solver evaluates.
///
/// The solver knows about books, constraint groups, and venues, and nothing
/// else: not the executor, not the API, not the feed. This trait is that line.
/// The engine's book store implements it through [`crate::book::BooksAt`].
pub trait BookSource {
    /// The book of each contract.
    spec fn quotes(&self) -> spec_fn(ContractId) -> Option<BookView>;

    /// Engine time.
    spec fn time(&self) -> u64;

    fn book(&self, contract: ContractId) -> (found: Option<&Book>)
        ensures
            match found {
                Some(book) => self.quotes()(contract) == Some(book@),
                None => self.quotes()(contract) is None,
            },
    ;

    /// Engine time, taken from the same injected clock that stamps books, so
    /// the freshness gate decides identically live and under replay.
    fn now_ms(&self) -> (now: u64)
        ensures
            now == self.time(),
    ;
}

/// The books of a group's members, in the relation's order.
pub open spec fn member_books(quotes: costing::Quotes, members: Seq<ContractId>) -> Seq<BookView> {
    Seq::new(members.len(), |i: int| quotes(members[i])->0)
}

/// What a relation's fast path finds in its members' books.
pub open spec fn fast_path(group: GroupView, books: Seq<BookView>) -> Seq<CandidateView> {
    match group.relation {
        RelationView::Complement { .. } => if books.len() == 1 {
            fast::complement_candidates(group.id, books[0])
        } else {
            Seq::empty()
        },
        RelationView::Exhaustive { .. } => fast::exhaustive_candidates(group.id, books),
        RelationView::Monotone { .. } => fast::monotone_candidates(
            group.id,
            books,
            books.len() as int,
        ),
        // An implication is a two-rung ladder written the other way round: the
        // consequent is the weaker claim, so it leads the ladder.
        RelationView::Implies { .. } => if books.len() == 2 {
            fast::monotone_candidates(group.id, seq![books[1], books[0]], 2)
        } else {
            Seq::empty()
        },
        RelationView::Equivalent { .. } => if books.len() == 2 {
            fast::cross_candidates(group.id, books[0], books[1])
        } else {
            Seq::empty()
        },
    }
}

/// The candidates of one group, or why the group cannot be evaluated.
pub open spec fn candidates_of(
    group: GroupView,
    quotes: costing::Quotes,
    max_book_age_ms: u64,
    now_ms: u64,
) -> Result<Seq<CandidateView>, RejectReason> {
    let members = group.relation.members();
    if group.relation matches RelationView::Equivalent { verified, .. } && !verified {
        Err(RejectReason::Unverified)
    } else if exists|i: int| 0 <= i < members.len() && quotes(#[trigger] members[i]) is None {
        Err(RejectReason::MissingBook)
    } else {
        let books = member_books(quotes, members);
        match costing::gate(books, now_ms, max_book_age_ms) {
            Some(reason) => Err(reason),
            None => Ok(fast_path(group, books)),
        }
    }
}

/// What costing each candidate in turn does to the counters, and what it emits.
pub open spec fn costed_all(
    metrics: SolverMetrics,
    models: &FeeModels,
    group: GroupView,
    candidates: Seq<CandidateView>,
    quotes: costing::Quotes,
    config: SolverConfig,
    now_ms: u64,
) -> (SolverMetrics, Seq<OpportunityView>)
    decreases candidates.len(),
{
    if candidates.len() == 0 {
        (metrics, Seq::empty())
    } else {
        let (before, emitted) = costed_all(
            metrics,
            models,
            group,
            candidates.drop_last(),
            quotes,
            config,
            now_ms,
        );
        let seen = SolverMetrics {
            candidates_found: types::bumped(before.candidates_found),
            ..before
        };
        match costing::costed(models, group, candidates.last().legs, quotes, config, now_ms) {
            Ok(trade) => (
                SolverMetrics {
                    opportunities_emitted: types::bumped(seen.opportunities_emitted),
                    ..seen
                },
                emitted.push(trade),
            ),
            Err(reason) => (seen.rejected(reason), emitted),
        }
    }
}

/// What evaluating one group does to the counters, and what it emits.
pub open spec fn group_outcome(
    metrics: SolverMetrics,
    models: &FeeModels,
    group: GroupView,
    quotes: costing::Quotes,
    config: SolverConfig,
    now_ms: u64,
) -> (SolverMetrics, Seq<OpportunityView>) {
    let counted = SolverMetrics {
        groups_evaluated: types::bumped(metrics.groups_evaluated),
        ..metrics
    };
    match candidates_of(group, quotes, config.max_book_age_ms, now_ms) {
        Err(reason) => (counted.rejected(reason), Seq::empty()),
        Ok(candidates) => costed_all(counted, models, group, candidates, quotes, config, now_ms),
    }
}

/// Whether a dirty contract belongs to the group with this id.
pub open spec fn touched(groups: Seq<GroupView>, dirty: Seq<ContractId>, id: int) -> bool {
    exists|i: int|
        0 <= i < dirty.len() && registry::groups_containing(groups, #[trigger] dirty[i]).contains(
            GroupId(id as u32),
        )
}

/// What evaluating the touched groups among the first `n` does, in id order.
pub open spec fn evaluated(
    metrics: SolverMetrics,
    models: &FeeModels,
    groups: Seq<GroupView>,
    dirty: Seq<ContractId>,
    quotes: costing::Quotes,
    config: SolverConfig,
    now_ms: u64,
    n: int,
) -> (SolverMetrics, Seq<OpportunityView>)
    decreases n,
{
    if n <= 0 {
        (metrics, Seq::empty())
    } else {
        let (before, emitted) = evaluated(
            metrics,
            models,
            groups,
            dirty,
            quotes,
            config,
            now_ms,
            n - 1,
        );
        if n - 1 <= u32::MAX && touched(groups, dirty, n - 1) {
            let (after, more) = group_outcome(
                before,
                models,
                groups[n - 1],
                quotes,
                config,
                now_ms,
            );
            (after, emitted + more)
        } else {
            (before, emitted)
        }
    }
}

/// Machine integers hold every position that a group's fast path can propose.
pub open spec fn group_fits(models: &FeeModels, group: GroupView, config: SolverConfig) -> bool {
    costing::sizing_fits(
        models,
        config.max_position_size as int,
        costing::max(2, group.relation.members().len() as int),
    )
}

pub open spec fn groups_fit(
    models: &FeeModels,
    groups: Seq<GroupView>,
    config: SolverConfig,
) -> bool {
    forall|i: int| 0 <= i < groups.len() ==> group_fits(models, #[trigger] groups[i], config)
}

/// A candidate has as many legs as the group has members, or two.
proof fn lemma_fast_path_legs(group: GroupView, books: Seq<BookView>)
    ensures
        forall|i: int|
            0 <= i < fast_path(group, books).len() ==> (#[trigger] fast_path(
                group,
                books,
            )[i]).legs.len() <= costing::max(2, books.len() as int),
{
    match group.relation {
        RelationView::Monotone { .. } => {
            lemma_monotone_legs(group.id, books, books.len() as int);
        },
        RelationView::Implies { .. } => {
            if books.len() == 2 {
                lemma_monotone_legs(group.id, seq![books[1], books[0]], 2);
            }
        },
        _ => {},
    }
}

proof fn lemma_monotone_legs(id: GroupId, books: Seq<BookView>, n: int)
    ensures
        forall|i: int|
            0 <= i < fast::monotone_candidates(id, books, n).len() ==> (
            #[trigger] fast::monotone_candidates(id, books, n)[i]).legs.len() == 2,
    decreases n,
{
    if n >= 2 {
        lemma_monotone_legs(id, books, n - 1);
        let before = fast::monotone_candidates(id, books, n - 1);
        let all = fast::monotone_candidates(id, books, n);
        assert forall|i: int| 0 <= i < all.len() implies (#[trigger] all[i]).legs.len() == 2 by {
            if i < before.len() {
                assert(all[i] == before[i]);
            }
        }
    }
}

proof fn lemma_sizing_fewer(models: &FeeModels, most: int, legs: int, fewer: int)
    requires
        costing::sizing_fits(models, most, legs),
        0 <= fewer <= legs,
    ensures
        costing::sizing_fits(models, most, fewer),
{
    let b = costing::max(most, 0) * (100 + crate::fees::dearest_per_contract(models));
    assert(b >= 0) by (nonlinear_arith)
        requires
            b == costing::max(most, 0) * (100 + crate::fees::dearest_per_contract(models)),
            costing::max(most, 0) >= 0,
            crate::fees::dearest_per_contract(models) >= 0,
    ;
    assert(fewer * b <= legs * b) by (nonlinear_arith)
        requires
            0 <= fewer <= legs,
            b >= 0,
    ;
}

/// Nothing happens between one touched group and the next.
proof fn lemma_evaluated_skips(
    metrics: SolverMetrics,
    models: &FeeModels,
    groups: Seq<GroupView>,
    dirty: Seq<ContractId>,
    quotes: costing::Quotes,
    config: SolverConfig,
    now_ms: u64,
    from: int,
    to: int,
)
    requires
        0 <= from <= to,
        forall|k: int|
            from <= k < to && k <= u32::MAX ==> !#[trigger] touched(groups, dirty, k),
    ensures
        evaluated(metrics, models, groups, dirty, quotes, config, now_ms, to) == evaluated(
            metrics,
            models,
            groups,
            dirty,
            quotes,
            config,
            now_ms,
            from,
        ),
    decreases to,
{
    if from < to {
        lemma_evaluated_skips(
            metrics,
            models,
            groups,
            dirty,
            quotes,
            config,
            now_ms,
            from,
            to - 1,
        );
    }
}

pub struct Solver {
    pub metrics: SolverMetrics,
}

impl Default for Solver {
    fn default() -> (solver: Self)
        ensures
            solver.metrics == SolverMetrics::zero(),
    {
        Solver { metrics: SolverMetrics::default() }
    }
}

impl Solver {
    pub fn new() -> (solver: Self)
        ensures
            solver.metrics == SolverMetrics::zero(),
    {
        Solver::default()
    }

    /// Evaluate every constraint group touched by the dirty contracts.
    ///
    /// Groups are deduplicated and evaluated in group id order, and the returned
    /// opportunities are ranked by annualized return, so the same feed produces
    /// the same output in the same order on every run.
    pub fn evaluate<B: BookSource>(
        &mut self,
        registry: &Registry,
        books: &B,
        dirty: &[ContractId],
        fees: &FeeModels,
        config: &SolverConfig,
    ) -> (opportunities: Vec<Opportunity>)
        requires
            registry.wf(),
            groups_fit(fees, registry@.groups, *config),
        ensures
            ({
                let (metrics, emitted) = evaluated(
                    old(self).metrics,
                    fees,
                    registry@.groups,
                    dirty@,
                    books.quotes(),
                    *config,
                    books.time(),
                    registry@.groups.len() as int,
                );
                &&& final(self).metrics == metrics
                &&& types::opportunities_view(opportunities@) == costing::ranked(emitted)
            }),
            forall|i: int, j: int|
                0 <= i < j < opportunities@.len() ==> !costing::outranks(
                    (#[trigger] opportunities@[j])@,
                    (#[trigger] opportunities@[i])@,
                ),
            registry@.groups.len() <= 0x1_0000_0000 ==> final(self).metrics.groups_evaluated
                == costing::min(
                u64::MAX as int,
                old(self).metrics.groups_evaluated + laws::dirty_groups(
                    registry@.groups,
                    dirty@,
                ).len(),
            ),
            forall|i: int| 0 <= i < opportunities@.len() ==> (#[trigger] opportunities@[i])@.wf(),
    {
        let ghost groups = registry@.groups;
        let ids: Vec<i64> = touched_ids(registry, dirty);
        let mut opportunities: Vec<Opportunity> = Vec::new();
        let ghost start = self.metrics;
        let ghost quotes = books.quotes();
        let ghost now = books.time();
        let mut i: usize = 0;
        // Every group up to here has been evaluated or is not touched.
        let ghost mut reached: int = 0;
        assert(types::opportunities_view(opportunities@) =~= Seq::<OpportunityView>::empty());
        while i < ids.len()
            invariant
                i <= ids@.len(),
                registry.wf(),
                groups == registry@.groups,
                groups_fit(fees, groups, *config),
                quotes == books.quotes(),
                now == books.time(),
                costing::strictly_ascending(ids@),
                forall|q: i64| #[trigger]
                    ids@.contains(q) <==> (0 <= q <= u32::MAX && touched(groups, dirty@, q as int)),
                0 <= reached,
                reached == (if i == 0 {
                    0
                } else {
                    ids@[i - 1] + 1
                }),
                (self.metrics, types::opportunities_view(opportunities@)) == evaluated(
                    start,
                    fees,
                    groups,
                    dirty@,
                    quotes,
                    *config,
                    now,
                    costing::min(reached, groups.len() as int),
                ),
                forall|k: int|
                    0 <= k < opportunities@.len() ==> (#[trigger] opportunities@[k])@.wf(),
            decreases ids@.len() - i,
        {
            let id: i64 = ids[i];
            proof {
                assert(ids@.contains(ids@[i as int]));
                assert forall|k: int| reached <= k < id && k <= u32::MAX implies !#[trigger] touched(
                    groups,
                    dirty@,
                    k,
                ) by {
                    if touched(groups, dirty@, k) {
                        assert(ids@.contains(k as i64));
                        let a = choose|a: int| 0 <= a < ids@.len() && ids@[a] == k as i64;
                        if a < i {
                            assert(a == i - 1 || ids@[a] < ids@[i - 1]);
                        }
                    }
                }
                let upto = costing::min(id as int, groups.len() as int);
                if costing::min(reached, groups.len() as int) <= upto {
                    lemma_evaluated_skips(
                        start,
                        fees,
                        groups,
                        dirty@,
                        quotes,
                        *config,
                        now,
                        costing::min(reached, groups.len() as int),
                        upto,
                    );
                }
                assert(reached <= id) by {
                    if i > 0 {
                        assert(ids@[i - 1] < ids@[i as int]);
                    }
                }
            }
            match registry.group(GroupId(id as u32)) {
                Some(group) => {
                    assert(group_fits(fees, groups[id as int], *config));
                    let ghost before = types::opportunities_view(opportunities@);
                    let mut more: Vec<Opportunity> = self.evaluate_group(group, books, fees, config);
                    let ghost added = more@;
                    let ghost held = opportunities@;
                    opportunities.append(&mut more);
                    proof {
                        assert(opportunities@ =~= held + added);
                        assert(types::opportunities_view(opportunities@) =~= before
                            + types::opportunities_view(added));
                        assert forall|k: int| 0 <= k < opportunities@.len() implies (
                        #[trigger] opportunities@[k])@.wf() by {
                            if k >= held.len() {
                                assert(opportunities@[k] == added[k - held.len()]);
                            } else {
                                assert(opportunities@[k] == held[k]);
                            }
                        }
                    }
                },
                None => {},
            }
            proof {
                reached = id + 1;
            }
            i = i + 1;
        }
        proof {
            assert forall|k: int| reached <= k && k <= u32::MAX implies !#[trigger] touched(
                groups,
                dirty@,
                k,
            ) by {
                if touched(groups, dirty@, k) {
                    assert(ids@.contains(k as i64));
                    let a = choose|a: int| 0 <= a < ids@.len() && ids@[a] == k as i64;
                    assert(a == ids@.len() - 1 || ids@[a] < ids@[ids@.len() - 1]);
                }
            }
            lemma_evaluated_skips(
                start,
                fees,
                groups,
                dirty@,
                quotes,
                *config,
                now,
                costing::min(reached, groups.len() as int),
                groups.len() as int,
            );
        }
        let ghost emitted = types::opportunities_view(opportunities@);
        costing::rank(&mut opportunities);
        proof {
            assert forall|k: int| 0 <= k < emitted.len() implies (#[trigger] emitted[k]).wf() by {}
            costing::lemma_ranked_wf(emitted);
            costing::ranking_sorts_and_keeps_every_opportunity(emitted);
            assert forall|k: int| 0 <= k < opportunities@.len() implies (
            #[trigger] opportunities@[k])@.wf() by {
                assert(types::opportunities_view(opportunities@)[k] == opportunities@[k]@);
            }
            assert forall|i: int, j: int| 0 <= i < j < opportunities@.len() implies !costing::outranks(
                (#[trigger] opportunities@[j])@,
                (#[trigger] opportunities@[i])@,
            ) by {
                let shown = types::opportunities_view(opportunities@);
                assert(shown[i] == opportunities@[i]@ && shown[j] == opportunities@[j]@);
                assert(!costing::outranks(
                    costing::ranked(emitted)[j],
                    costing::ranked(emitted)[i],
                ));
            }
            if groups.len() <= 0x1_0000_0000 {
                laws::each_touched_group_is_counted_once(
                    registry,
                    start,
                    fees,
                    dirty@,
                    quotes,
                    *config,
                    now,
                );
            }
        }
        opportunities
    }

    /// Evaluate one group: gate it, run its fast path, then cost what it finds.
    pub fn evaluate_group<B: BookSource>(
        &mut self,
        group: &ConstraintGroup,
        books: &B,
        fees: &FeeModels,
        config: &SolverConfig,
    ) -> (opportunities: Vec<Opportunity>)
        requires
            group.wf(),
            group_fits(fees, group@, *config),
        ensures
            (final(self).metrics, types::opportunities_view(opportunities@)) == group_outcome(
                old(self).metrics,
                fees,
                group@,
                books.quotes(),
                *config,
                books.time(),
            ),
            forall|i: int| 0 <= i < opportunities@.len() ==> (#[trigger] opportunities@[i])@.wf(),
    {
        self.metrics.groups_evaluated = self.metrics.groups_evaluated.saturating_add(1);
        let mut opportunities: Vec<Opportunity> = Vec::new();
        let candidates: Vec<Candidate> = match find_candidates(group, books, config) {
            Ok(candidates) => candidates,
            Err(reason) => {
                self.metrics.note_rejection(reason);
                assert(types::opportunities_view(opportunities@) =~= Seq::<OpportunityView>::empty());
                return opportunities;
            },
        };
        let now_ms: u64 = books.now_ms();
        let ghost start = self.metrics;
        let ghost all = types::candidates_view(candidates@);
        let ghost quotes = books.quotes();
        let mut i: usize = 0;
        assert(all.subrange(0, 0) =~= Seq::<CandidateView>::empty());
        assert(types::opportunities_view(opportunities@) =~= Seq::<OpportunityView>::empty());
        while i < candidates.len()
            invariant
                i <= candidates@.len(),
                all == types::candidates_view(candidates@),
                quotes == books.quotes(),
                group.wf(),
                group_fits(fees, group@, *config),
                forall|k: int|
                    0 <= k < all.len() ==> (#[trigger] all[k]).legs.len() <= costing::max(
                        2,
                        group@.relation.members().len() as int,
                    ),
                (self.metrics, types::opportunities_view(opportunities@)) == costed_all(
                    start,
                    fees,
                    group@,
                    all.subrange(0, i as int),
                    quotes,
                    *config,
                    now_ms,
                ),
                forall|k: int|
                    0 <= k < opportunities@.len() ==> (#[trigger] opportunities@[k])@.wf(),
            decreases candidates@.len() - i,
        {
            let candidate: &Candidate = &candidates[i];
            proof {
                assert(all[i as int] == candidate@);
                lemma_sizing_fewer(
                    fees,
                    config.max_position_size as int,
                    costing::max(2, group@.relation.members().len() as int),
                    candidate.legs@.len() as int,
                );
                assert(all.subrange(0, i + 1).drop_last() =~= all.subrange(0, i as int));
                assert(all.subrange(0, i + 1).last() == candidate@);
            }
            self.metrics.candidates_found = self.metrics.candidates_found.saturating_add(1);
            let ghost before = opportunities@;
            match costing::cost_candidate(group, candidate, books, fees, config, now_ms) {
                Ok(opportunity) => {
                    self.metrics.opportunities_emitted =
                    self.metrics.opportunities_emitted.saturating_add(1);
                    opportunities.push(opportunity);
                    assert(types::opportunities_view(opportunities@) =~= types::opportunities_view(
                        before,
                    ).push(opportunity@));
                },
                Err(reason) => {
                    self.metrics.note_rejection(reason);
                },
            }
            i = i + 1;
        }
        assert(all.subrange(0, all.len() as int) =~= all);
        opportunities
    }
}

/// The ids of the groups that a dirty contract belongs to, ascending.
pub(crate) fn touched_ids(registry: &Registry, dirty: &[ContractId]) -> (ids: Vec<i64>)
    requires
        registry.wf(),
    ensures
        costing::strictly_ascending(ids@),
        forall|q: i64| #[trigger]
            ids@.contains(q) <==> (0 <= q <= u32::MAX && touched(
                registry@.groups,
                dirty@,
                q as int,
            )),
{
    let ghost groups = registry@.groups;
    let mut ids: Vec<i64> = Vec::new();
    let mut i: usize = 0;
    assert(dirty@.subrange(0, 0) =~= Seq::<ContractId>::empty());
    while i < dirty.len()
        invariant
            i <= dirty@.len(),
            registry.wf(),
            groups == registry@.groups,
            costing::strictly_ascending(ids@),
            forall|q: i64| #[trigger]
                ids@.contains(q) <==> (0 <= q <= u32::MAX && touched(
                    groups,
                    dirty@.subrange(0, i as int),
                    q as int,
                )),
        decreases dirty@.len() - i,
    {
        let contract: ContractId = dirty[i];
        let list: Vec<GroupId> = registry.groups_for(contract);
        let ghost seen = dirty@.subrange(0, i as int);
        let mut j: usize = 0;
        while j < list.len()
            invariant
                i < dirty@.len(),
                j <= list@.len(),
                list@ == registry::groups_containing(groups, contract),
                seen == dirty@.subrange(0, i as int),
                costing::strictly_ascending(ids@),
                forall|q: i64| #[trigger]
                    ids@.contains(q) <==> (0 <= q <= u32::MAX && (touched(groups, seen, q as int)
                        || list@.subrange(0, j as int).contains(GroupId(q as u32)))),
            decreases list@.len() - j,
        {
            let ghost before = ids@;
            let id: GroupId = list[j];
            costing::insert_point(&mut ids, id.0 as i64);
            proof {
                let done = list@.subrange(0, j as int);
                let next = list@.subrange(0, j + 1);
                assert(next =~= done.push(id));
                assert forall|q: i64| #[trigger]
                    ids@.contains(q) <==> (0 <= q <= u32::MAX && (touched(groups, seen, q as int)
                        || next.contains(GroupId(q as u32)))) by {
                    assert(before.contains(q) <==> (0 <= q <= u32::MAX && (touched(
                        groups,
                        seen,
                        q as int,
                    ) || done.contains(GroupId(q as u32)))));
                    if q == id.0 {
                        assert(next[j as int] == GroupId(q as u32));
                    }
                    if done.contains(GroupId(q as u32)) {
                        let k = choose|k: int| 0 <= k < done.len() && done[k] == GroupId(q as u32);
                        assert(next[k] == GroupId(q as u32));
                    }
                    if 0 <= q <= u32::MAX && next.contains(GroupId(q as u32)) && q != id.0 {
                        let k = choose|k: int| 0 <= k < next.len() && next[k] == GroupId(q as u32);
                        assert(done[k] == GroupId(q as u32));
                    }
                }
            }
            j = j + 1;
        }
        proof {
            assert(list@.subrange(0, list@.len() as int) =~= list@);
            let next = dirty@.subrange(0, i + 1);
            assert forall|q: i64| #[trigger]
                ids@.contains(q) <==> (0 <= q <= u32::MAX && touched(groups, next, q as int)) by {
                if touched(groups, seen, q as int) {
                    let k = choose|k: int|
                        0 <= k < seen.len() && registry::groups_containing(
                            groups,
                            #[trigger] seen[k],
                        ).contains(GroupId(q as u32));
                    assert(next[k] == seen[k]);
                }
                if list@.contains(GroupId(q as u32)) {
                    assert(next[i as int] == contract);
                }
                if touched(groups, next, q as int) {
                    let k = choose|k: int|
                        0 <= k < next.len() && registry::groups_containing(
                            groups,
                            #[trigger] next[k],
                        ).contains(GroupId(q as u32));
                    if k < i {
                        assert(seen[k] == next[k]);
                    }
                }
            }
        }
        i = i + 1;
    }
    assert(dirty@.subrange(0, dirty@.len() as int) =~= dirty@);
    ids
}

/// Gather the group's books, apply the freshness gate, and run its check.
fn find_candidates<B: BookSource>(
    group: &ConstraintGroup,
    books: &B,
    config: &SolverConfig,
) -> (result: Result<Vec<Candidate>, RejectReason>)
    requires
        group.wf(),
    ensures
        match result {
            Ok(candidates) => candidates_of(
                group@,
                books.quotes(),
                config.max_book_age_ms,
                books.time(),
            ) == Ok::<Seq<CandidateView>, RejectReason>(types::candidates_view(candidates@))
                && forall|k: int|
                0 <= k < candidates@.len() ==> (#[trigger] types::candidates_view(
                    candidates@,
                )[k]).legs.len() <= costing::max(2, group@.relation.members().len() as int),
            Err(reason) => candidates_of(
                group@,
                books.quotes(),
                config.max_book_age_ms,
                books.time(),
            ) == Err::<Seq<CandidateView>, RejectReason>(reason),
        },
{
    // A pair no human has confirmed settles identically is rejected before its
    // books are even read: there is nothing to check.
    match &group.relation {
        Relation::Equivalent { verified, .. } => {
            if !*verified {
                return Err(RejectReason::Unverified);
            }
        },
        _ => {},
    }
    let ghost quotes = books.quotes();
    let members: &[ContractId] = group.members();
    let mut found: Vec<&Book> = Vec::new();
    let mut i: usize = 0;
    while i < members.len()
        invariant
            i <= members@.len(),
            members@ == group@.relation.members(),
            quotes == books.quotes(),
            !(group@.relation matches RelationView::Equivalent { verified, .. } && !verified),
            found@.len() == i,
            forall|k: int| 0 <= k < i ==> quotes(#[trigger] members@[k]) == Some(found@[k]@),
        decreases members@.len() - i,
    {
        match books.book(members[i]) {
            Some(book) => {
                found.push(book);
            },
            None => {
                assert(quotes(group@.relation.members()[i as int]) is None);
                return Err(RejectReason::MissingBook);
            },
        }
        i = i + 1;
    }
    let ghost views = member_books(quotes, members@);
    assert(fast::books_view(found@) =~= views);
    let now_ms: u64 = books.now_ms();
    match costing::freshness_gate(found.as_slice(), now_ms, config.max_book_age_ms) {
        Ok(_) => {},
        Err(reason) => return Err(reason),
    }
    proof {
        lemma_fast_path_legs(group@, views);
    }
    let mut candidates: Vec<Candidate> = Vec::new();
    assert(types::candidates_view(candidates@) =~= Seq::<CandidateView>::empty());
    match &group.relation {
        Relation::Complement { .. } => {
            if found.len() == 1 {
                assert(views[0] == found@[0]@);
                fast::evaluate_complement(group.id, found[0], &mut candidates);
            }
        },
        Relation::Exhaustive { .. } => {
            fast::evaluate_exhaustive(group.id, found.as_slice(), &mut candidates);
        },
        Relation::Monotone { .. } => {
            fast::evaluate_monotonicity(group.id, found.as_slice(), &mut candidates);
        },
        // An implication is a two-rung ladder written the other way round: the
        // consequent is the weaker claim, so it leads the ladder.
        Relation::Implies { .. } => {
            if found.len() == 2 {
                let rungs: Vec<&Book> = vec![found[1], found[0]];
                assert(fast::books_view(rungs@) =~= seq![views[1], views[0]]);
                fast::evaluate_monotonicity(group.id, rungs.as_slice(), &mut candidates);
            }
        },
        Relation::Equivalent { .. } => {
            if found.len() == 2 {
                assert(views[0] == found@[0]@ && views[1] == found@[1]@);
                fast::evaluate_cross_venue(group.id, found[0], found[1], &mut candidates);
            }
        },
    }
    assert(types::candidates_view(candidates@) =~= fast_path(group@, views));
    Ok(candidates)
}

} // verus!
