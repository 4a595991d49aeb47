//! Costing: turn a top-of-book violation into a priced, sized, fee-aware trade.
//!
//! A candidate is a claim about the best prices in a group. Costing is where
//! that claim meets the rest of the order book, the venue's fee schedule, and
//! the clock. On live data this stage rejects the large majority of candidates,
//! almost always because fees exceed the gap, and that is the correct outcome
//! rather than a sign the detector is too eager.
//!
//! Every quantity here is integer [`Cents`], and every decision is exact.
use vstd::prelude::*;
use crate::fees::{FeeModel, FeeModels};
use crate::fees;
use crate::registry::{ConstraintGroup, GroupView, Relation};
use crate::registry;
use crate::solver::BookSource;
use crate::solver::types::{
    Candidate, CandidateLeg, Leg, Opportunity, OpportunityView, RejectReason, SolverConfig, Walk,
    MIN_HORIZON_MS, MS_PER_YEAR,
};
use crate::types::{Book, BookState, BookView, Cents, ContractId, Level, Side};
use crate::wide;

verus! {

/// A binary contract settles at exactly $1 or $0.
pub const PAYOFF_PER_CONTRACT_CENTS: Cents = 100;

// ---------------------------------------------------------------------------
// Model
// ---------------------------------------------------------------------------

/// The books a decision is made on, by contract.
pub type Quotes = spec_fn(ContractId) -> Option<BookView>;

pub open spec fn min(a: int, b: int) -> int {
    if a <= b {
        a
    } else {
        b
    }
}

pub open spec fn max(a: int, b: int) -> int {
    if a >= b {
        a
    } else {
        b
    }
}

/// The ladder that buying one outcome consumes, cheapest first.
pub open spec fn asks_for(book: BookView, side: Side) -> Seq<Level> {
    match side {
        Side::Yes => book.asks(),
        Side::No => book.no_asks(),
    }
}

/// The levels that buying up to `want` contracts consumes; the last may be
/// partial.
pub open spec fn walked(levels: Seq<Level>, want: int) -> Seq<Level>
    decreases levels.len(),
{
    if want <= 0 || levels.len() == 0 {
        Seq::empty()
    } else {
        let rest = levels.subrange(1, levels.len() as int);
        let take = min(want, levels[0].size as int);
        if take <= 0 {
            walked(rest, want)
        } else {
            seq![Level { price: levels[0].price, size: take as i64 }] + walked(rest, want - take)
        }
    }
}

/// Contracts resting in a ladder.
pub open spec fn depth(levels: Seq<Level>) -> int
    decreases levels.len(),
{
    if levels.len() == 0 {
        0
    } else {
        depth(levels.drop_last()) + levels.last().size
    }
}

/// What taking a whole ladder costs.
pub open spec fn price_of(levels: Seq<Level>) -> int
    decreases levels.len(),
{
    if levels.len() == 0 {
        0
    } else {
        price_of(levels.drop_last()) + levels.last().size * levels.last().price
    }
}

/// Premium paid to take `remaining` contracts, level by level.
pub open spec fn premium(ladder: Seq<Level>, remaining: int) -> int
    decreases ladder.len(),
{
    if ladder.len() == 0 || remaining == 0 {
        0
    } else {
        let take = min(remaining, ladder[0].size as int);
        take * ladder[0].price + premium(ladder.subrange(1, ladder.len() as int), remaining - take)
    }
}

/// Machine integers hold every product of a walk down a ladder, what is left to
/// take, and the running sum from `so_far` on.
pub open spec fn premiums_fit(ladder: Seq<Level>, remaining: int, so_far: int) -> bool
    decreases ladder.len(),
{
    if ladder.len() == 0 || remaining == 0 {
        true
    } else {
        let take = min(remaining, ladder[0].size as int);
        &&& fees::fits(remaining - take)
        &&& fees::fits(take * ladder[0].price)
        &&& fees::fits(so_far + take * ladder[0].price)
        &&& premiums_fit(
            ladder.subrange(1, ladder.len() as int),
            remaining - take,
            so_far + take * ladder[0].price,
        )
    }
}

/// Machine integers hold what is left to take all the way down a ladder.
pub open spec fn countdown_fits(ladder: Seq<Level>, remaining: int) -> bool
    decreases ladder.len(),
{
    if ladder.len() == 0 || remaining == 0 {
        true
    } else {
        let left = remaining - min(remaining, ladder[0].size as int);
        fees::fits(left) && countdown_fits(ladder.subrange(1, ladder.len() as int), left)
    }
}

/// Fees charged to take `remaining` contracts, one per level consumed.
pub open spec fn levied<F: FeeModel + ?Sized>(
    fees: &F,
    contract: ContractId,
    ladder: Seq<Level>,
    remaining: int,
) -> int
    decreases ladder.len(),
{
    if ladder.len() == 0 || remaining == 0 {
        0
    } else {
        let take = min(remaining, ladder[0].size as int);
        fees.fee(contract, ladder[0].price as int, take) + levied(
            fees,
            contract,
            ladder.subrange(1, ladder.len() as int),
            remaining - take,
        )
    }
}

/// Machine integers hold every fee, and their running sum from `so_far` on.
pub open spec fn levies_fit<F: FeeModel + ?Sized>(
    fees: &F,
    contract: ContractId,
    ladder: Seq<Level>,
    remaining: int,
    so_far: int,
) -> bool
    decreases ladder.len(),
{
    if ladder.len() == 0 || remaining == 0 {
        true
    } else {
        let take = min(remaining, ladder[0].size as int);
        let next = so_far + fees.fee(contract, ladder[0].price as int, take);
        &&& i64::MIN <= take
        &&& i64::MIN <= remaining - take <= i64::MAX
        &&& fees.chargeable(contract, ladder[0].price as int, take)
        &&& i64::MIN <= next <= i64::MAX
        &&& levies_fit(
            fees,
            contract,
            ladder.subrange(1, ladder.len() as int),
            remaining - take,
            next,
        )
    }
}

/// The worst price paid when taking `remaining` contracts.
pub open spec fn worst_price(ladder: Seq<Level>, remaining: int, so_far: Option<Cents>) -> Option<
    Cents,
>
    decreases ladder.len(),
{
    if ladder.len() == 0 || remaining == 0 {
        so_far
    } else {
        worst_price(
            ladder.subrange(1, ladder.len() as int),
            remaining - min(remaining, ladder[0].size as int),
            Some(ladder[0].price),
        )
    }
}

/// A ladder as a walk leaves it: prices inside the band, sizes positive.
pub open spec fn ladder_wf(ladder: Seq<Level>) -> bool {
    forall|i: int|
        0 <= i < ladder.len() ==> 0 <= (#[trigger] ladder[i]).price <= 100 && ladder[i].size > 0
}

/// Whether a leg pays when exactly the contracts in `state` resolve yes.
pub open spec fn pays(leg: CandidateLeg, state: Seq<ContractId>) -> bool {
    match leg.side {
        Side::Yes => state.contains(leg.contract_id),
        Side::No => !state.contains(leg.contract_id),
    }
}

/// What one unit of every leg pays in one state.
pub open spec fn payoff_in(legs: Seq<CandidateLeg>, state: Seq<ContractId>) -> int
    decreases legs.len(),
{
    if legs.len() == 0 {
        0
    } else {
        payoff_in(legs.drop_last(), state) + if pays(legs.last(), state) {
            PAYOFF_PER_CONTRACT_CENTS as int
        } else {
            0
        }
    }
}

/// The least that one unit of every leg pays over a list of states; zero where
/// there is no state.
pub open spec fn worst_payoff(states: Seq<Seq<ContractId>>, legs: Seq<CandidateLeg>) -> int
    decreases states.len(),
{
    if states.len() == 0 {
        0
    } else if states.len() == 1 {
        payoff_in(legs, states[0])
    } else {
        min(worst_payoff(states.drop_last(), legs), payoff_in(legs, states.last()))
    }
}

/// The ladders that the legs consume, each walked to `most` contracts.
pub open spec fn ladders_of(quotes: Quotes, legs: Seq<CandidateLeg>, most: int) -> Seq<Seq<Level>> {
    Seq::new(
        legs.len(),
        |i: int| walked(asks_for(quotes(legs[i].contract_id)->0, legs[i].side), most),
    )
}

/// Legs must be equal size or the position no longer settles flat, so the
/// thinnest one is the cap.
pub open spec fn thinnest(ladders: Seq<Seq<Level>>, most: int) -> int
    decreases ladders.len(),
{
    if ladders.len() == 0 {
        max(most, 0)
    } else {
        min(thinnest(ladders.drop_last(), most), depth(ladders.last()))
    }
}

/// Whether a quantity ends a level of some ladder.
pub open spec fn ends_a_level(ladders: Seq<Seq<Level>>, q: int) -> bool {
    exists|i: int, k: int|
        0 <= i < ladders.len() && 0 < k <= ladders[i].len() && q == depth(
            #[trigger] ladders[i].subrange(0, k),
        )
}

/// Quantities at which the price per contract turns: every level boundary under
/// the cap, and the cap itself.
pub open spec fn is_breakpoint(ladders: Seq<Seq<Level>>, cap: int, q: int) -> bool {
    0 < q && (q == cap || (q < cap && ends_a_level(ladders, q)))
}

/// Premium for `q` contracts on each of the first `n` legs.
pub open spec fn cost_at(ladders: Seq<Seq<Level>>, q: int, n: int) -> int
    decreases n,
{
    if n <= 0 {
        0
    } else {
        cost_at(ladders, q, n - 1) + premium(ladders[n - 1], q)
    }
}

/// The fee of one leg for `q` contracts, charged by the leg's own venue.
pub open spec fn leg_fee(models: &FeeModels, leg: CandidateLeg, ladder: Seq<Level>, q: int) -> int {
    levied(&models.venue_fees(leg.venue), leg.contract_id, ladder, q)
}

/// Fees for `q` contracts on each of the first `n` legs.
pub open spec fn fees_at(
    models: &FeeModels,
    legs: Seq<CandidateLeg>,
    ladders: Seq<Seq<Level>>,
    q: int,
    n: int,
) -> int
    decreases n,
{
    if n <= 0 {
        0
    } else {
        fees_at(models, legs, ladders, q, n - 1) + leg_fee(models, legs[n - 1], ladders[n - 1], q)
    }
}

/// Profit at a quantity: the guaranteed payoff, less premium and fees.
pub open spec fn net_at(
    models: &FeeModels,
    legs: Seq<CandidateLeg>,
    ladders: Seq<Seq<Level>>,
    payoff_per_unit: int,
    q: int,
) -> int {
    payoff_per_unit * q - cost_at(ladders, q, legs.len() as int) - fees_at(
        models,
        legs,
        ladders,
        q,
        legs.len() as int,
    )
}

/// The smallest quantity inside the cap with the largest profit.
pub open spec fn is_best(
    models: &FeeModels,
    legs: Seq<CandidateLeg>,
    ladders: Seq<Seq<Level>>,
    payoff_per_unit: int,
    cap: int,
    best: int,
) -> bool {
    &&& 1 <= best <= cap
    &&& forall|q: int|
        1 <= q <= cap ==> {
            let net = #[trigger] net_at(models, legs, ladders, payoff_per_unit, q);
            let best_net = net_at(models, legs, ladders, payoff_per_unit, best);
            net <= best_net && (q < best ==> net < best_net)
        }
}

/// The executable quantity: the one that maximizes profit, and the smaller of
/// two that earn the same.
pub open spec fn best_quantity(
    models: &FeeModels,
    legs: Seq<CandidateLeg>,
    ladders: Seq<Seq<Level>>,
    payoff_per_unit: int,
    cap: int,
) -> int {
    choose|best: int| is_best(models, legs, ladders, payoff_per_unit, cap, best)
}

/// How long capital is locked, floored at the minimum horizon.
pub open spec fn horizon(resolves_at_ms: u64, now_ms: u64) -> u64 {
    max(resolves_at_ms - now_ms, MIN_HORIZON_MS as int) as u64
}

/// The fills of a position of `q` contracts on every leg.
pub open spec fn filled_legs(
    models: &FeeModels,
    legs: Seq<CandidateLeg>,
    ladders: Seq<Seq<Level>>,
    q: int,
) -> Seq<Leg> {
    Seq::new(
        legs.len(),
        |i: int|
            Leg {
                venue: legs[i].venue,
                contract_id: legs[i].contract_id,
                side: legs[i].side,
                qty: q as i64,
                total_cost_cents: premium(ladders[i], q) as i64,
                fee_cents: leg_fee(models, legs[i], ladders[i], q) as i64,
            },
    )
}

/// The position of `q` contracts on every leg.
pub open spec fn position(
    models: &FeeModels,
    group: GroupView,
    legs: Seq<CandidateLeg>,
    ladders: Seq<Seq<Level>>,
    payoff_per_unit: int,
    q: int,
    now_ms: u64,
) -> OpportunityView {
    let cost = cost_at(ladders, q, legs.len() as int);
    let fee = fees_at(models, legs, ladders, q, legs.len() as int);
    OpportunityView {
        group: group.id,
        legs: filled_legs(models, legs, ladders, q),
        qty: q as i64,
        guaranteed_payoff_cents: (payoff_per_unit * q) as i64,
        capital_cents: (cost + fee) as i64,
        gross_cents: (payoff_per_unit * q - cost) as i64,
        fees_cents: fee as i64,
        net_cents: net_at(models, legs, ladders, payoff_per_unit, q) as i64,
        horizon_ms: horizon(group.resolves_at_ms, now_ms),
    }
}

/// The trade that a candidate is worth, or the one reason it is not.
pub open spec fn costed(
    models: &FeeModels,
    group: GroupView,
    legs: Seq<CandidateLeg>,
    quotes: Quotes,
    config: SolverConfig,
    now_ms: u64,
) -> Result<OpportunityView, RejectReason> {
    let payoff_per_unit = worst_payoff(group.relation.states(), legs);
    let ladders = ladders_of(quotes, legs, config.max_position_size as int);
    let cap = thinnest(ladders, config.max_position_size as int);
    let q = best_quantity(models, legs, ladders, payoff_per_unit, cap);
    let net = net_at(models, legs, ladders, payoff_per_unit, q);
    let trade = position(models, group, legs, ladders, payoff_per_unit, q, now_ms);
    if payoff_per_unit <= 0 {
        Err(RejectReason::PayoffNotGuaranteed)
    } else if exists|i: int|
        0 <= i < legs.len() && quotes((#[trigger] legs[i]).contract_id) is None {
        Err(RejectReason::MissingBook)
    } else if cap <= 0 {
        Err(RejectReason::NoDepth)
    } else if net <= 0 {
        Err(RejectReason::FeesExceedGap)
    } else if net < config.min_net_edge_cents {
        Err(RejectReason::BelowMinEdge)
    } else if trade.returns_less_than(config.min_annualized_return) {
        Err(RejectReason::BelowMinReturn)
    } else {
        Ok(trade)
    }
}

/// Machine integers hold every sum of a position of up to `most` contracts on
/// each of `legs` legs.
pub open spec fn sizing_fits(models: &FeeModels, most: int, legs: int) -> bool {
    &&& fees::charges_up_to(models, max(most, 0))
    &&& legs * 100 <= i64::MAX
    &&& legs * (max(most, 0) * (100 + fees::dearest_per_contract(models))) <= i64::MAX
    &&& max(most, 0) * (100 + fees::dearest_per_contract(models)) <= i64::MAX
}

// ---------------------------------------------------------------------------
// Freshness, the walk, and the sums over one ladder
// ---------------------------------------------------------------------------

/// Why a set of books cannot be traded on right now.
pub open spec fn gate(books: Seq<BookView>, now_ms: u64, max_age_ms: u64) -> Option<RejectReason> {
    if exists|i: int| 0 <= i < books.len() && (#[trigger] books[i]).state != BookState::Live {
        Some(RejectReason::NotLive)
    } else if exists|i: int|
        0 <= i < books.len() && !(#[trigger] books[i]).is_fresh(now_ms, max_age_ms) {
        Some(RejectReason::Stale)
    } else {
        None
    }
}

/// Every participating book must be `Live` and recently updated.
///
/// This runs before any check, not after, because the arithmetic of a
/// constraint only holds if every price is simultaneously true. Acting on one
/// quote that has already moved is how a risk-free position becomes a
/// directional loss, and a book that is not `Live` may have silently diverged
/// from the venue's state, which is worse than having no book at all.
pub fn freshness_gate(books: &[&Book], now_ms: u64, max_age_ms: u64) -> (result: Result<
    (),
    RejectReason,
>)
    ensures
        result == (match gate(crate::solver::fast::books_view(books@), now_ms, max_age_ms) {
            Some(reason) => Err::<(), RejectReason>(reason),
            None => Ok(()),
        }),
{
    let ghost all = crate::solver::fast::books_view(books@);
    let mut i: usize = 0;
    while i < books.len()
        invariant
            i <= books@.len(),
            all == crate::solver::fast::books_view(books@),
            forall|j: int| 0 <= j < i ==> (#[trigger] all[j]).state == BookState::Live,
        decreases books@.len() - i,
    {
        let book: &Book = books[i];
        assert(all[i as int] == book@);
        if book.state != BookState::Live {
            return Err(RejectReason::NotLive);
        }
        i = i + 1;
    }
    let mut i: usize = 0;
    while i < books.len()
        invariant
            i <= books@.len(),
            all == crate::solver::fast::books_view(books@),
            forall|j: int| 0 <= j < all.len() ==> (#[trigger] all[j]).state == BookState::Live,
            forall|j: int| 0 <= j < i ==> (#[trigger] all[j]).is_fresh(now_ms, max_age_ms),
        decreases books@.len() - i,
    {
        let book: &Book = books[i];
        assert(all[i as int] == book@);
        if !book.is_fresh(now_ms, max_age_ms) {
            return Err(RejectReason::Stale);
        }
        i = i + 1;
    }
    Ok(())
}

/// Walk one side of one book from the cheapest price upward, up to `want`.
///
/// The per-level breakdown is kept rather than a blended average because fees
/// round up per level, and because a rejection is only explainable afterwards if
/// the level structure that caused it is still visible.
pub fn walk_depth_and_cost(book: &Book, side: Side, want: i64) -> (walk: Walk)
    requires
        price_of(walked(asks_for(book@, side), want as int)) <= i64::MAX,
    ensures
        walk.consumed@ == walked(asks_for(book@, side), want as int),
        walk.filled == depth(walk.consumed@),
        walk.total_cost_cents == price_of(walk.consumed@),
        ladder_wf(walk.consumed@),
        0 <= walk.filled <= max(want as int, 0),
{
    let (consumed, filled, cost): (Vec<Level>, i64, i128) = walk_depth(book, side, want);
    Walk { filled, total_cost_cents: cost as i64, consumed }
}

/// The levels that a walk takes, how many contracts they hold, and what they
/// cost, whether or not 64 bits hold that.
pub(crate) fn walk_depth(book: &Book, side: Side, want: i64) -> (walk: (Vec<Level>, i64, i128))
    ensures
        walk.0@ == walked(asks_for(book@, side), want as int),
        walk.1 == depth(walk.0@),
        walk.2 == price_of(walk.0@),
        ladder_wf(walk.0@),
        0 <= walk.1 <= max(want as int, 0),
        walk.2 >= 0,
{
    proof {
        crate::types::lemma_offered(book@.no, 100);
        crate::types::lemma_offered(book@.yes, 100);
        lemma_walked(asks_for(book@, side), want as int);
    }
    let levels: Vec<Level> = match side {
        Side::Yes => book.asks(),
        Side::No => book.no_asks(),
    };
    walk_levels(levels.as_slice(), want)
}

fn walk_levels(levels: &[Level], want: i64) -> (walk: (Vec<Level>, i64, i128))
    requires
        ladder_wf(levels@),
    ensures
        walk.0@ == walked(levels@, want as int),
        walk.1 == depth(walk.0@),
        walk.2 == price_of(walk.0@),
        walk.2 >= 0,
{
    let mut filled: i64 = 0;
    let mut cost: i128 = 0;
    let mut consumed: Vec<Level> = Vec::new();
    if want <= 0 {
        return (consumed, filled, cost);
    }
    let mut i: usize = 0;
    assert(levels@.subrange(0, levels@.len() as int) =~= levels@);
    assert(consumed@ + walked(levels@, want as int) =~= walked(levels@, want as int));
    while i < levels.len() && filled < want
        invariant
            i <= levels@.len(),
            ladder_wf(levels@),
            0 <= filled <= want,
            filled == depth(consumed@),
            cost == price_of(consumed@),
            0 <= cost <= 100 * filled,
            consumed@ + walked(levels@.subrange(i as int, levels@.len() as int), want - filled)
                == walked(levels@, want as int),
        decreases levels@.len() - i,
    {
        let level: Level = levels[i];
        let remaining: i64 = want - filled;
        let take: i64 = if remaining <= level.size {
            remaining
        } else {
            level.size
        };
        let ghost left = levels@.subrange(i as int, levels@.len() as int);
        let ghost before = consumed@;
        let step = Level { price: level.price, size: take };
        let price: Cents = level.price;
        proof {
            assert(left[0] == level);
            assert(left.subrange(1, left.len() as int) =~= levels@.subrange(
                i + 1,
                levels@.len() as int,
            ));
            let tail = walked(levels@.subrange(i + 1, levels@.len() as int), remaining - take);
            assert(before + (seq![step] + tail) =~= before.push(step) + tail);
            assert(before.push(step).drop_last() =~= before);
            assert(0 <= take * price <= 100 * take) by (nonlinear_arith)
                requires
                    take >= 0,
                    0 <= price <= 100,
            ;
        }
        filled = filled + take;
        cost = cost + take as i128 * price as i128;
        consumed.push(step);
        i = i + 1;
    }
    proof {
        let left = levels@.subrange(i as int, levels@.len() as int);
        assert(walked(left, want - filled) =~= Seq::<Level>::empty());
        assert(consumed@ + Seq::<Level>::empty() =~= consumed@);
    }
    (consumed, filled, cost)
}

pub proof fn lemma_depth_concat(a: Seq<Level>, b: Seq<Level>)
    ensures
        depth(a + b) == depth(a) + depth(b),
    decreases b.len(),
{
    if b.len() == 0 {
        assert(a + b =~= a);
    } else {
        assert((a + b).drop_last() =~= a + b.drop_last());
        lemma_depth_concat(a, b.drop_last());
    }
}

pub proof fn lemma_price_concat(a: Seq<Level>, b: Seq<Level>)
    ensures
        price_of(a + b) == price_of(a) + price_of(b),
    decreases b.len(),
{
    if b.len() == 0 {
        assert(a + b =~= a);
    } else {
        assert((a + b).drop_last() =~= a + b.drop_last());
        lemma_price_concat(a, b.drop_last());
    }
}

/// A walk leaves a ladder of positive levels that holds no more than was asked
/// for, at a dollar a contract at most.
pub proof fn lemma_walked(levels: Seq<Level>, want: int)
    requires
        ladder_wf(levels),
    ensures
        ladder_wf(walked(levels, want)),
        0 <= depth(walked(levels, want)) <= max(want, 0),
        depth(walked(levels, want)) <= depth(levels),
        want > 0 && depth(walked(levels, want)) < want ==> walked(levels, want) == levels,
        0 <= price_of(walked(levels, want)) <= 100 * max(want, 0),
    decreases levels.len(),
{
    if levels.len() > 0 {
        let rest = levels.subrange(1, levels.len() as int);
        assert forall|k: int| 0 <= k < rest.len() implies 0 <= (#[trigger] rest[k]).price <= 100
            && rest[k].size > 0 by {
            assert(rest[k] == levels[k + 1]);
        }
        assert(levels =~= seq![levels[0]] + rest);
        lemma_depth_concat(seq![levels[0]], rest);
        assert(seq![levels[0]].drop_last() =~= Seq::<Level>::empty());
        assert(depth(seq![levels[0]]) == levels[0].size) by {
            assert(depth(seq![levels[0]].drop_last()) == 0);
        }
        lemma_walked(rest, 0);
        if want > 0 {
            let take = min(want, levels[0].size as int);
            let tail = walked(rest, want - take);
            lemma_walked(rest, want - take);
            let step = Level { price: levels[0].price, size: take as i64 };
            let w = walked(levels, want);
            assert(w == seq![step] + tail);
            lemma_depth_concat(seq![step], tail);
            lemma_price_concat(seq![step], tail);
            assert(seq![step].drop_last() =~= Seq::<Level>::empty());
            assert(depth(seq![step]) == take) by {
                assert(depth(seq![step].drop_last()) == 0);
            }
            assert(price_of(seq![step]) == take * step.price) by {
                assert(price_of(seq![step].drop_last()) == 0);
            }
            assert(0 <= take * step.price <= 100 * take) by (nonlinear_arith)
                requires
                    take >= 0,
                    0 <= step.price <= 100,
            ;
            assert forall|k: int| 0 <= k < w.len() implies 0 <= (#[trigger] w[k]).price <= 100
                && w[k].size > 0 by {
                if k > 0 {
                    assert(w[k] == tail[k - 1]);
                }
            }
            if depth(w) < want {
                assert(take == levels[0].size);
                if want - take > 0 {
                    assert(tail == rest);
                }
                assert(w =~= levels);
            }
            lemma_depth_nonneg(rest);
        } else {
            lemma_depth_nonneg(levels);
        }
    } else {
        assert(walked(levels, want) =~= levels);
    }
}

pub proof fn lemma_depth_nonneg(levels: Seq<Level>)
    requires
        ladder_wf(levels),
    ensures
        depth(levels) >= 0,
    decreases levels.len(),
{
    if levels.len() > 0 {
        assert forall|k: int| 0 <= k < levels.drop_last().len() implies 0 <= (
        #[trigger] levels.drop_last()[k]).price <= 100 && levels.drop_last()[k].size > 0 by {
            assert(levels.drop_last()[k] == levels[k]);
        }
        lemma_depth_nonneg(levels.drop_last());
        assert(levels.last() == levels[levels.len() - 1]);
    }
}

proof fn lemma_ladder_tail(ladder: Seq<Level>)
    requires
        ladder_wf(ladder),
        ladder.len() > 0,
    ensures
        ladder_wf(ladder.subrange(1, ladder.len() as int)),
{
    let rest = ladder.subrange(1, ladder.len() as int);
    assert forall|k: int| 0 <= k < rest.len() implies 0 <= (#[trigger] rest[k]).price <= 100
        && rest[k].size > 0 by {
        assert(rest[k] == ladder[k + 1]);
    }
}

/// A contract costs a dollar at most.
pub proof fn lemma_premium_bounds(ladder: Seq<Level>, remaining: int)
    requires
        ladder_wf(ladder),
        remaining >= 0,
    ensures
        0 <= premium(ladder, remaining) <= 100 * remaining,
    decreases ladder.len(),
{
    if ladder.len() > 0 && remaining != 0 {
        let take = min(remaining, ladder[0].size as int);
        let price = ladder[0].price as int;
        lemma_ladder_tail(ladder);
        lemma_premium_bounds(ladder.subrange(1, ladder.len() as int), remaining - take);
        assert(0 <= take * price <= 100 * take) by (nonlinear_arith)
            requires
                take >= 0,
                0 <= price <= 100,
        ;
    }
}

/// Taking part of a ladder costs no more than taking all of it.
pub proof fn lemma_premium_within(ladder: Seq<Level>, remaining: int)
    requires
        ladder_wf(ladder),
        remaining >= 0,
    ensures
        0 <= premium(ladder, remaining) <= price_of(ladder),
    decreases ladder.len(),
{
    if ladder.len() > 0 {
        let rest = ladder.subrange(1, ladder.len() as int);
        let first = seq![ladder[0]];
        let take = min(remaining, ladder[0].size as int);
        let size = ladder[0].size as int;
        let price = ladder[0].price as int;
        lemma_ladder_tail(ladder);
        lemma_premium_within(rest, remaining - take);
        assert(ladder =~= first + rest);
        lemma_price_concat(first, rest);
        assert(first.drop_last() =~= Seq::<Level>::empty());
        assert(price_of(first) == size * price) by {
            assert(price_of(first.drop_last()) == 0);
        }
        assert(0 <= take * price <= size * price) by (nonlinear_arith)
            requires
                0 <= take <= size,
                0 <= price,
        ;
    }
}

/// Where what is taken down a walked ladder fits, so does every step of it.
pub proof fn lemma_premiums_fit(ladder: Seq<Level>, remaining: int, so_far: int)
    requires
        ladder_wf(ladder),
        0 <= remaining <= i64::MAX,
        so_far >= 0,
        so_far + premium(ladder, remaining) <= i64::MAX,
    ensures
        premiums_fit(ladder, remaining, so_far),
        countdown_fits(ladder, remaining),
    decreases ladder.len(),
{
    if ladder.len() > 0 && remaining != 0 {
        let take = min(remaining, ladder[0].size as int);
        let price = ladder[0].price as int;
        let rest = ladder.subrange(1, ladder.len() as int);
        lemma_ladder_tail(ladder);
        lemma_premium_bounds(rest, remaining - take);
        assert(take * price >= 0) by (nonlinear_arith)
            requires
                take >= 0,
                price >= 0,
        ;
        lemma_premiums_fit(rest, remaining - take, so_far + take * price);
    }
}

/// What is left to take down a walked ladder never grows.
pub proof fn lemma_countdown_fits(ladder: Seq<Level>, remaining: int)
    requires
        ladder_wf(ladder),
        0 <= remaining <= i64::MAX,
    ensures
        countdown_fits(ladder, remaining),
    decreases ladder.len(),
{
    if ladder.len() > 0 && remaining != 0 {
        lemma_ladder_tail(ladder);
        lemma_countdown_fits(
            ladder.subrange(1, ladder.len() as int),
            remaining - min(remaining, ladder[0].size as int),
        );
    }
}

/// Premium paid to take `qty` contracts from an already-walked ladder.
pub fn total_cost_cents(ladder: &[Level], qty: i64) -> (cost: Cents)
    requires
        premiums_fit(ladder@, max(qty as int, 0), 0),
    ensures
        cost == premium(ladder@, max(qty as int, 0)),
{
    let mut remaining: i64 = if qty > 0 {
        qty
    } else {
        0
    };
    let mut cost: i64 = 0;
    let mut i: usize = 0;
    let ghost total = premium(ladder@, remaining as int);
    assert(ladder@.subrange(0, ladder@.len() as int) =~= ladder@);
    while i < ladder.len() && remaining != 0
        invariant
            i <= ladder@.len(),
            premiums_fit(
                ladder@.subrange(i as int, ladder@.len() as int),
                remaining as int,
                cost as int,
            ),
            cost + premium(ladder@.subrange(i as int, ladder@.len() as int), remaining as int)
                == total,
        decreases ladder@.len() - i,
    {
        let level: Level = ladder[i];
        let take: i64 = if remaining <= level.size {
            remaining
        } else {
            level.size
        };
        proof {
            let left = ladder@.subrange(i as int, ladder@.len() as int);
            assert(left[0] == level);
            assert(left.subrange(1, left.len() as int) =~= ladder@.subrange(
                i + 1,
                ladder@.len() as int,
            ));
        }
        cost = cost + take * level.price;
        remaining = remaining - take;
        i = i + 1;
    }
    cost
}

/// Taker fee to take `qty` contracts, rounded up once per level consumed.
///
/// Venue schedules round up per fill, so charging per level reproduces what the
/// exchange actually does and, where it differs, always overstates. Overstating
/// can only suppress a marginal signal; understating puts on a losing trade that
/// looked profitable. That asymmetry is the whole reason the rounding is here
/// rather than applied once to a blended average price.
pub fn apply_fees_per_level<F: FeeModel>(
    ladder: &[Level],
    contract: ContractId,
    qty: i64,
    fees: &F,
) -> (fee: Cents)
    requires
        levies_fit(fees, contract, ladder@, max(qty as int, 0), 0),
    ensures
        fee == levied(fees, contract, ladder@, max(qty as int, 0)),
{
    let mut remaining: i64 = if qty > 0 {
        qty
    } else {
        0
    };
    let mut fee: i64 = 0;
    let mut i: usize = 0;
    let ghost total = levied(fees, contract, ladder@, remaining as int);
    assert(ladder@.subrange(0, ladder@.len() as int) =~= ladder@);
    while i < ladder.len() && remaining != 0
        invariant
            i <= ladder@.len(),
            fee + levied(
                fees,
                contract,
                ladder@.subrange(i as int, ladder@.len() as int),
                remaining as int,
            ) == total,
            levies_fit(
                fees,
                contract,
                ladder@.subrange(i as int, ladder@.len() as int),
                remaining as int,
                fee as int,
            ),
        decreases ladder@.len() - i,
    {
        let level: Level = ladder[i];
        let take: i64 = if remaining <= level.size {
            remaining
        } else {
            level.size
        };
        proof {
            let left = ladder@.subrange(i as int, ladder@.len() as int);
            assert(left[0] == level);
            assert(left.subrange(1, left.len() as int) =~= ladder@.subrange(
                i + 1,
                ladder@.len() as int,
            ));
        }
        fee = fee + fees.taker_fee(contract, level.price, take);
        remaining = remaining - take;
        i = i + 1;
    }
    fee
}

/// Worst price paid when taking `qty` from a walked ladder.
///
/// This, not the blended average, is the limit price a leg must carry. A limit
/// at the average would have the venue refuse the deeper half of the very fill
/// the solver costed, turning a priced trade into a partial one.
pub fn worst_price_cents(ladder: &[Level], qty: i64) -> (worst: Option<Cents>)
    requires
        countdown_fits(ladder@, max(qty as int, 0)),
    ensures
        worst == worst_price(ladder@, max(qty as int, 0), None),
{
    let mut remaining: i64 = if qty > 0 {
        qty
    } else {
        0
    };
    let mut worst: Option<Cents> = None;
    let mut i: usize = 0;
    let ghost answer = worst_price(ladder@, remaining as int, None);
    assert(ladder@.subrange(0, ladder@.len() as int) =~= ladder@);
    while i < ladder.len() && remaining != 0
        invariant
            i <= ladder@.len(),
            countdown_fits(
                ladder@.subrange(i as int, ladder@.len() as int),
                remaining as int,
            ),
            worst_price(
                ladder@.subrange(i as int, ladder@.len() as int),
                remaining as int,
                worst,
            ) == answer,
        decreases ladder@.len() - i,
    {
        let level: Level = ladder[i];
        let take: i64 = if remaining <= level.size {
            remaining
        } else {
            level.size
        };
        proof {
            let left = ladder@.subrange(i as int, ladder@.len() as int);
            assert(left[0] == level);
            assert(left.subrange(1, left.len() as int) =~= ladder@.subrange(
                i + 1,
                ladder@.len() as int,
            ));
        }
        remaining = remaining - take;
        worst = Some(level.price);
        i = i + 1;
    }
    worst
}

/// Levels in which no price falls.
pub open spec fn ascending(ladder: Seq<Level>) -> bool {
    forall|i: int, j: int|
        0 <= i <= j < ladder.len() ==> (#[trigger] ladder[i]).price <= (#[trigger] ladder[j]).price
}

pub proof fn lemma_walked_ascending(levels: Seq<Level>, want: int)
    requires
        ladder_wf(levels),
        ascending(levels),
    ensures
        ascending(walked(levels, want)),
        walked(levels, want).len() > 0 ==> levels.len() > 0 && walked(
            levels,
            want,
        )[0].price == levels[0].price,
        forall|k: int|
            0 <= k < walked(levels, want).len() ==> levels[0].price <= (
            #[trigger] walked(levels, want)[k]).price,
    decreases levels.len(),
{
    if want > 0 && levels.len() > 0 {
        let rest = levels.subrange(1, levels.len() as int);
        let take = min(want, levels[0].size as int);
        let all = walked(levels, want);
        assert forall|i: int, j: int| 0 <= i <= j < rest.len() implies (#[trigger] rest[i]).price
            <= (#[trigger] rest[j]).price by {
            assert(rest[i] == levels[i + 1] && rest[j] == levels[j + 1]);
        }
        assert forall|k: int| 0 <= k < rest.len() implies 0 <= (#[trigger] rest[k]).price <= 100
            && rest[k].size > 0 by {
            assert(rest[k] == levels[k + 1]);
        }
        lemma_walked_ascending(rest, want - take);
        let tail = walked(rest, want - take);
        assert(all == seq![Level { price: levels[0].price, size: take as i64 }] + tail);
        assert forall|k: int| 0 <= k < all.len() implies levels[0].price <= (
        #[trigger] all[k]).price by {
            if k > 0 {
                assert(all[k] == tail[k - 1]);
                assert(rest[0].price <= tail[k - 1].price);
                assert(rest[0] == levels[1]);
            }
        }
        assert forall|i: int, j: int| 0 <= i <= j < all.len() implies (#[trigger] all[i]).price <= (
        #[trigger] all[j]).price by {
            if i > 0 {
                assert(all[i] == tail[i - 1] && all[j] == tail[j - 1]);
            }
        }
    }
}

/// Taking contracts costs no more each than the worst level it touches.
pub proof fn lemma_worst_bounds_premium(ladder: Seq<Level>, remaining: int, so_far: Option<i64>)
    requires
        ladder_wf(ladder),
        ascending(ladder),
        0 < remaining <= depth(ladder),
    ensures
        worst_price(ladder, remaining, so_far) matches Some(worst)
            && premium(ladder, remaining) <= remaining * worst && ladder[0].price
            <= worst,
    decreases ladder.len(),
{
    lemma_depth_nonneg(ladder);
    assert(ladder.len() > 0);
    let rest = ladder.subrange(1, ladder.len() as int);
    let take = min(remaining, ladder[0].size as int);
    let price = ladder[0].price as int;
    assert(ladder =~= seq![ladder[0]] + rest);
    lemma_depth_concat(seq![ladder[0]], rest);
    assert(seq![ladder[0]].drop_last() =~= Seq::<Level>::empty());
    assert(depth(seq![ladder[0]]) == ladder[0].size) by {
        assert(depth(seq![ladder[0]].drop_last()) == 0);
    }
    assert(ladder[0].size > 0);
    assert forall|k: int| 0 <= k < rest.len() implies 0 <= (#[trigger] rest[k]).price <= 100
        && rest[k].size > 0 by {
        assert(rest[k] == ladder[k + 1]);
    }
    assert forall|i: int, j: int| 0 <= i <= j < rest.len() implies (#[trigger] rest[i]).price <= (
    #[trigger] rest[j]).price by {
        assert(rest[i] == ladder[i + 1] && rest[j] == ladder[j + 1]);
    }
    if remaining == take {
        assert(worst_price(rest, 0, Some(ladder[0].price)) == Some(ladder[0].price));
        assert(premium(rest, 0) == 0);
    } else {
        lemma_worst_bounds_premium(rest, remaining - take, Some(ladder[0].price));
        let worst = worst_price(ladder, remaining, so_far)->0 as int;
        assert(rest[0] == ladder[1]);
        assert(price <= worst);
        assert(take * price + (remaining - take) * worst <= remaining * worst) by (nonlinear_arith)
            requires
                0 <= take,
                price <= worst,
        ;
    }
}

/// Taking a whole ladder ends at its last level.
pub proof fn lemma_worst_is_last(ladder: Seq<Level>, so_far: Option<Cents>)
    requires
        ladder_wf(ladder),
        ladder.len() > 0,
    ensures
        worst_price(ladder, depth(ladder), so_far) == Some(ladder.last().price),
        depth(ladder) > 0,
    decreases ladder.len(),
{
    let first = seq![ladder[0]];
    let rest = ladder.subrange(1, ladder.len() as int);
    assert(ladder =~= first + rest);
    lemma_depth_concat(first, rest);
    assert(first.drop_last() =~= Seq::<Level>::empty());
    assert(depth(first) == ladder[0].size) by {
        assert(depth(first.drop_last()) == 0);
    }
    lemma_ladder_tail(ladder);
    lemma_depth_nonneg(rest);
    if rest.len() > 0 {
        lemma_worst_is_last(rest, Some(ladder[0].price));
        assert(rest.last() == ladder.last());
    } else {
        assert(rest =~= Seq::<Level>::empty());
    }
}

/// Where every running sum of fees fits, so does the whole.
pub proof fn lemma_levied_fits<F: FeeModel>(
    fees: &F,
    contract: ContractId,
    ladder: Seq<Level>,
    remaining: int,
    so_far: int,
)
    requires
        levies_fit(fees, contract, ladder, remaining, so_far),
        fees::fits(so_far),
    ensures
        fees::fits(so_far + levied(fees, contract, ladder, remaining)),
    decreases ladder.len(),
{
    if ladder.len() > 0 && remaining != 0 {
        let take = min(remaining, ladder[0].size as int);
        lemma_levied_fits(
            fees,
            contract,
            ladder.subrange(1, ladder.len() as int),
            remaining - take,
            so_far + fees.fee(contract, ladder[0].price as int, take),
        );
    }
}

/// Fees on a walked ladder fit, and are bounded per contract.
pub proof fn lemma_levied_bounds(
    models: &FeeModels,
    venue: crate::types::Venue,
    contract: ContractId,
    ladder: Seq<Level>,
    remaining: int,
    most: int,
    so_far: int,
)
    requires
        ladder_wf(ladder),
        0 <= remaining <= most,
        fees::charges_up_to(models, most),
        so_far >= 0,
        so_far + remaining * fees::dearest_per_contract(models) <= i64::MAX,
        most <= i64::MAX,
    ensures
        levies_fit(&models.venue_fees(venue), contract, ladder, remaining, so_far),
        0 <= levied(&models.venue_fees(venue), contract, ladder, remaining) <= remaining
            * fees::dearest_per_contract(models),
    decreases ladder.len(),
{
    let k = fees::dearest_per_contract(models);
    assert(remaining * k >= 0) by (nonlinear_arith)
        requires
            remaining >= 0,
            k >= 0,
    ;
    if ladder.len() > 0 && remaining != 0 {
        let take = min(remaining, ladder[0].size as int);
        lemma_ladder_tail(ladder);
        fees::lemma_fee_bounded(models, venue, contract, ladder[0].price as int, take, most);
        let fee = models.venue_fees(venue).fee(contract, ladder[0].price as int, take);
        assert(take * k + (remaining - take) * k == remaining * k) by (nonlinear_arith);
        assert((remaining - take) * k >= 0) by (nonlinear_arith)
            requires
                remaining - take >= 0,
                k >= 0,
        ;
        lemma_levied_bounds(
            models,
            venue,
            contract,
            ladder.subrange(1, ladder.len() as int),
            remaining - take,
            most,
            so_far + fee,
        );
    }
}

// ---------------------------------------------------------------------------
// Payoff over every resolution
// ---------------------------------------------------------------------------

/// Worst-case payoff per unit over every resolution the relation permits.
///
/// This is the central safety check, and it is a computation rather than an
/// assumption. Each fast path believes it produces a position paying at least
/// $1 in every state; this enumerates the states and confirms it. A relation
/// whose worst case is zero produces no trade no matter how attractive the
/// prices look, because such a position is a directional bet, not an arbitrage.
pub fn min_payoff_per_unit(relation: &Relation, legs: &[CandidateLeg]) -> (payoff: Cents)
    requires
        legs@.len() * 100 <= i64::MAX,
    ensures
        payoff == worst_payoff(relation@.states(), legs@),
        0 <= payoff <= 100 * legs@.len(),
{
    let states: Vec<Vec<ContractId>> = relation.resolution_states();
    let ghost all = relation@.states();
    let mut worst: i64 = 0;
    let mut i: usize = 0;
    while i < states.len()
        invariant
            i <= states@.len(),
            all == registry::states_view(states@),
            legs@.len() * 100 <= i64::MAX,
            worst == worst_payoff(all.subrange(0, i as int), legs@),
            0 <= worst <= 100 * legs@.len(),
        decreases states@.len() - i,
    {
        let paid: i64 = payoff_of(legs, states[i].as_slice());
        proof {
            assert(all[i as int] == states@[i as int]@);
            assert(all.subrange(0, i + 1).drop_last() =~= all.subrange(0, i as int));
            assert(all.subrange(0, i + 1).last() == all[i as int]);
        }
        if i == 0 || paid < worst {
            worst = paid;
        }
        i = i + 1;
    }
    assert(all.subrange(0, all.len() as int) =~= all);
    worst
}

fn payoff_of(legs: &[CandidateLeg], state: &[ContractId]) -> (paid: i64)
    requires
        legs@.len() * 100 <= i64::MAX,
    ensures
        paid == payoff_in(legs@, state@),
        0 <= paid <= 100 * legs@.len(),
{
    let mut paid: i64 = 0;
    let mut i: usize = 0;
    while i < legs.len()
        invariant
            i <= legs@.len(),
            legs@.len() * 100 <= i64::MAX,
            paid == payoff_in(legs@.subrange(0, i as int), state@),
            0 <= paid <= 100 * i,
        decreases legs@.len() - i,
    {
        let leg: CandidateLeg = legs[i];
        let resolves_yes: bool = holds(state, leg.contract_id);
        let pays_off: bool = match leg.side {
            Side::Yes => resolves_yes,
            Side::No => !resolves_yes,
        };
        proof {
            assert(legs@.subrange(0, i + 1).drop_last() =~= legs@.subrange(0, i as int));
            assert(legs@.subrange(0, i + 1).last() == leg);
        }
        if pays_off {
            paid = paid + PAYOFF_PER_CONTRACT_CENTS;
        }
        i = i + 1;
    }
    assert(legs@.subrange(0, legs@.len() as int) =~= legs@);
    paid
}

fn holds(state: &[ContractId], contract: ContractId) -> (found: bool)
    ensures
        found == state@.contains(contract),
{
    let mut i: usize = 0;
    while i < state.len()
        invariant
            i <= state@.len(),
            forall|j: int| 0 <= j < i ==> state@[j] != contract,
        decreases state@.len() - i,
    {
        if state[i] == contract {
            return true;
        }
        i = i + 1;
    }
    false
}

// ---------------------------------------------------------------------------
// Where the price turns
// ---------------------------------------------------------------------------

pub open spec fn ladders_view(ladders: Seq<Vec<Level>>) -> Seq<Seq<Level>> {
    ladders.map_values(|l: Vec<Level>| l@)
}

pub open spec fn strictly_ascending(points: Seq<i64>) -> bool {
    forall|i: int, j: int|
        0 <= i < j < points.len() ==> #[trigger] points[i] < #[trigger] points[j]
}

/// Whether `q` ends one of the first `n` levels of a ladder.
spec fn ends_within(ladder: Seq<Level>, n: int, q: int) -> bool {
    exists|k: int| 0 < k <= n && q == depth(#[trigger] ladder.subrange(0, k))
}

/// Whether `q` ends a level of one of the first `n` ladders.
spec fn ends_in_first(ladders: Seq<Seq<Level>>, n: int, q: int) -> bool {
    exists|i: int|
        0 <= i < n && ends_within(#[trigger] ladders[i], ladders[i].len() as int, q)
}

proof fn lemma_ends(ladders: Seq<Seq<Level>>, q: int)
    ensures
        ends_in_first(ladders, ladders.len() as int, q) == ends_a_level(ladders, q),
{
    if ends_in_first(ladders, ladders.len() as int, q) {
        let i = choose|i: int|
            0 <= i < ladders.len() && ends_within(
                #[trigger] ladders[i],
                ladders[i].len() as int,
                q,
            );
        let k = choose|k: int|
            0 < k <= ladders[i].len() && q == depth(#[trigger] ladders[i].subrange(0, k));
        assert(q == depth(ladders[i].subrange(0, k)));
    }
    if ends_a_level(ladders, q) {
        let (i, k) = choose|i: int, k: int|
            0 <= i < ladders.len() && 0 < k <= ladders[i].len() && q == depth(
                #[trigger] ladders[i].subrange(0, k),
            );
        assert(ends_within(ladders[i], ladders[i].len() as int, q));
    }
}

/// A longer prefix of a ladder of positive levels holds more.
proof fn lemma_depth_prefix(ladder: Seq<Level>, j: int, k: int)
    requires
        ladder_wf(ladder),
        0 <= j <= k <= ladder.len(),
    ensures
        0 <= depth(ladder.subrange(0, j)) <= depth(ladder.subrange(0, k)) <= depth(ladder),
        j < k ==> depth(ladder.subrange(0, j)) < depth(ladder.subrange(0, k)),
    decreases ladder.len(),
{
    if j == ladder.len() {
        assert(ladder.subrange(0, j) =~= ladder);
        lemma_depth_nonneg(ladder);
    } else {
        let front = ladder.drop_last();
        assert forall|i: int| 0 <= i < front.len() implies 0 <= (#[trigger] front[i]).price <= 100
            && front[i].size > 0 by {
            assert(front[i] == ladder[i]);
        }
        assert(ladder.last() == ladder[ladder.len() - 1]);
        if k == ladder.len() {
            assert(ladder.subrange(0, k) =~= ladder);
            lemma_depth_prefix(front, j, front.len() as int);
            assert(front.subrange(0, j) =~= ladder.subrange(0, j));
            assert(front.subrange(0, front.len() as int) =~= front);
        } else {
            lemma_depth_prefix(front, j, k);
            assert(front.subrange(0, j) =~= ladder.subrange(0, j));
            assert(front.subrange(0, k) =~= ladder.subrange(0, k));
        }
    }
}

/// Put a quantity in its place among ascending ones, unless it is there.
pub(crate) fn insert_point(points: &mut Vec<i64>, q: i64)
    requires
        strictly_ascending(old(points)@),
    ensures
        strictly_ascending(final(points)@),
        forall|p: i64| #[trigger]
            final(points)@.contains(p) <==> (p == q || old(points)@.contains(p)),
{
    let mut i: usize = 0;
    while i < points.len() && points[i] < q
        invariant
            i <= points@.len(),
            points@ == old(points)@,
            strictly_ascending(points@),
            forall|j: int| 0 <= j < i ==> #[trigger] points@[j] < q,
        decreases points@.len() - i,
    {
        i = i + 1;
    }
    if i < points.len() && points[i] == q {
        assert(points@[i as int] == q);
        return;
    }
    points.insert(i, q);
    proof {
        let before = old(points)@;
        let after = points@;
        assert(after =~= before.insert(i as int, q));
        assert forall|p: i64| #[trigger] after.contains(p) <==> (p == q || before.contains(p)) by {
            if p == q {
                assert(after[i as int] == q);
            }
            if before.contains(p) {
                let k = choose|k: int| 0 <= k < before.len() && before[k] == p;
                if k < i {
                    assert(after[k] == p);
                } else {
                    assert(after[k + 1] == p);
                }
            }
            if after.contains(p) && p != q {
                let k = choose|k: int| 0 <= k < after.len() && after[k] == p;
                if k < i {
                    assert(before[k] == p);
                } else {
                    assert(before[k - 1] == p);
                }
            }
        }
        assert forall|a: int, b: int| 0 <= a < b < after.len() implies #[trigger] after[a]
            < #[trigger] after[b] by {
            let x = if a < i {
                before[a]
            } else if a == i {
                q
            } else {
                before[a - 1]
            };
            let y = if b < i {
                before[b]
            } else if b == i {
                q
            } else {
                before[b - 1]
            };
            assert(after[a] == x && after[b] == y);
        }
    }
}

/// Quantities at which the price per contract turns: every level boundary, plus
/// the cap itself.
///
/// The price per contract is constant within a level, so these are the sizes at
/// which some leg steps to a worse price. There are at most a hundred of them
/// per side.
pub fn size_breakpoints(ladders: &[Vec<Level>], cap: i64) -> (points: Vec<i64>)
    requires
        forall|i: int|
            0 <= i < ladders@.len() ==> ladder_wf((#[trigger] ladders@[i])@) && depth(ladders@[i]@)
                <= i64::MAX,
    ensures
        strictly_ascending(points@),
        forall|q: i64| #[trigger]
            points@.contains(q) <==> is_breakpoint(ladders_view(ladders@), cap as int, q as int),
{
    let ghost all = ladders_view(ladders@);
    let mut points: Vec<i64> = Vec::new();
    let mut i: usize = 0;
    while i < ladders.len()
        invariant
            i <= ladders@.len(),
            all == ladders_view(ladders@),
            forall|a: int|
                0 <= a < ladders@.len() ==> ladder_wf((#[trigger] ladders@[a])@) && depth(
                    ladders@[a]@,
                ) <= i64::MAX,
            strictly_ascending(points@),
            forall|q: i64| #[trigger]
                points@.contains(q) <==> (0 < q < cap && ends_in_first(all, i as int, q as int)),
        decreases ladders@.len() - i,
    {
        let ladder: &Vec<Level> = &ladders[i];
        let ghost levels = ladder@;
        assert(all[i as int] == levels);
        let mut cumulative: i64 = 0;
        let mut k: usize = 0;
        assert(levels.subrange(0, 0) =~= Seq::<Level>::empty());
        assert forall|q: i64| #[trigger]
            points@.contains(q) <==> (0 < q < cap && (ends_in_first(all, i as int, q as int)
                || ends_within(levels, 0, q as int))) by {}
        while k < ladder.len()
            invariant_except_break
                k <= levels.len(),
                cumulative == depth(levels.subrange(0, k as int)),
                forall|q: i64| #[trigger]
                    points@.contains(q) <==> (0 < q < cap && (ends_in_first(all, i as int, q as int)
                        || ends_within(levels, k as int, q as int))),
            invariant
                i < ladders@.len(),
                levels == ladder@,
                levels == ladders@[i as int]@,
                ladder_wf(levels),
                depth(levels) <= i64::MAX,
                strictly_ascending(points@),
            ensures
                forall|q: i64| #[trigger]
                    points@.contains(q) <==> (0 < q < cap && (ends_in_first(all, i as int, q as int)
                        || ends_within(levels, levels.len() as int, q as int))),
            decreases levels.len() - k,
        {
            let ghost before = points@;
            proof {
                lemma_depth_prefix(levels, k as int, k + 1);
                assert(levels.subrange(0, k + 1).drop_last() =~= levels.subrange(0, k as int));
                assert(levels.subrange(0, k + 1).last() == levels[k as int]);
            }
            cumulative = cumulative + ladder[k].size;
            if cumulative >= cap {
                proof {
                    assert forall|q: i64| #[trigger]
                        points@.contains(q) <==> (0 < q < cap && (ends_in_first(
                            all,
                            i as int,
                            q as int,
                        ) || ends_within(levels, levels.len() as int, q as int))) by {
                        if 0 < q < cap && ends_within(levels, levels.len() as int, q as int) {
                            let j = choose|j: int|
                                0 < j <= levels.len() && q == depth(
                                    #[trigger] levels.subrange(0, j),
                                );
                            if j > k {
                                lemma_depth_prefix(levels, k + 1, j);
                            }
                            assert(ends_within(levels, k as int, q as int));
                        }
                        if ends_within(levels, k as int, q as int) {
                            let j = choose|j: int|
                                0 < j <= k && q == depth(#[trigger] levels.subrange(0, j));
                            assert(q == depth(levels.subrange(0, j)));
                        }
                    }
                }
                break;
            }
            insert_point(&mut points, cumulative);
            proof {
                assert forall|q: i64| #[trigger]
                    points@.contains(q) <==> (0 < q < cap && (ends_in_first(all, i as int, q as int)
                        || ends_within(levels, k + 1, q as int))) by {
                    assert(before.contains(q) <==> (0 < q < cap && (ends_in_first(
                        all,
                        i as int,
                        q as int,
                    ) || ends_within(levels, k as int, q as int))));
                    if ends_within(levels, k as int, q as int) {
                        let j = choose|j: int|
                            0 < j <= k && q == depth(#[trigger] levels.subrange(0, j));
                        assert(q == depth(levels.subrange(0, j)));
                    }
                    if q == cumulative {
                        assert(q == depth(levels.subrange(0, k + 1)));
                    }
                    if ends_within(levels, k + 1, q as int) {
                        let j = choose|j: int|
                            0 < j <= k + 1 && q == depth(#[trigger] levels.subrange(0, j));
                        if j <= k {
                            assert(q == depth(levels.subrange(0, j)));
                        }
                    }
                }
            }
            k = k + 1;
        }
        proof {
            assert forall|q: i64| #[trigger]
                points@.contains(q) <==> (0 < q < cap && ends_in_first(all, i + 1, q as int)) by {
                if ends_in_first(all, i as int, q as int) {
                    let a = choose|a: int|
                        0 <= a < i && ends_within(
                            #[trigger] all[a],
                            all[a].len() as int,
                            q as int,
                        );
                    assert(ends_within(all[a], all[a].len() as int, q as int));
                }
                if ends_in_first(all, i + 1, q as int) {
                    let a = choose|a: int|
                        0 <= a < i + 1 && ends_within(
                            #[trigger] all[a],
                            all[a].len() as int,
                            q as int,
                        );
                    if a < i {
                        assert(ends_within(all[a], all[a].len() as int, q as int));
                    }
                }
                if ends_within(levels, levels.len() as int, q as int) {
                    assert(ends_within(all[i as int], all[i as int].len() as int, q as int));
                }
            }
        }
        i = i + 1;
    }
    if cap > 0 {
        insert_point(&mut points, cap);
    }
    proof {
        assert forall|q: i64| #[trigger]
            points@.contains(q) <==> is_breakpoint(all, cap as int, q as int) by {
            lemma_ends(all, q as int);
        }
    }
    points
}

// ---------------------------------------------------------------------------
// Pricing a candidate
// ---------------------------------------------------------------------------

/// Every sum of a position stays inside its bound.
pub proof fn lemma_position_bounds(
    models: &FeeModels,
    legs: Seq<CandidateLeg>,
    ladders: Seq<Seq<Level>>,
    q: int,
    most: int,
    n: int,
)
    requires
        0 <= n <= legs.len(),
        ladders.len() == legs.len(),
        forall|i: int| 0 <= i < ladders.len() ==> ladder_wf(#[trigger] ladders[i]),
        0 <= q <= most,
        most <= i64::MAX,
        fees::charges_up_to(models, most),
        most * fees::dearest_per_contract(models) <= i64::MAX,
    ensures
        0 <= cost_at(ladders, q, n) <= n * (100 * q),
        0 <= fees_at(models, legs, ladders, q, n) <= n * (q * fees::dearest_per_contract(models)),
    decreases n,
{
    if n > 0 {
        let k = fees::dearest_per_contract(models);
        lemma_position_bounds(models, legs, ladders, q, most, n - 1);
        assert(ladder_wf(ladders[n - 1]));
        lemma_premium_bounds(ladders[n - 1], q);
        assert(q * k <= most * k) by (nonlinear_arith)
            requires
                q <= most,
                k >= 0,
        ;
        lemma_levied_bounds(
            models,
            legs[n - 1].venue,
            legs[n - 1].contract_id,
            ladders[n - 1],
            q,
            most,
            0,
        );
        assert(n * (100 * q) == (n - 1) * (100 * q) + 100 * q) by (nonlinear_arith);
        assert(n * (q * k) == (n - 1) * (q * k) + q * k) by (nonlinear_arith);
    } else {
        assert(0 * (100 * q) == 0);
        assert(0 * (q * fees::dearest_per_contract(models)) == 0);
    }
}

/// The limits of [`sizing_fits`] cover every quantity up to the cap.
pub proof fn lemma_sizing(models: &FeeModels, most: int, legs: int, n: int, q: int)
    requires
        sizing_fits(models, most, legs),
        0 <= n <= legs,
        0 <= q <= max(most, 0),
    ensures
        max(most, 0) * 100 <= i64::MAX,
        max(most, 0) * fees::dearest_per_contract(models) <= i64::MAX,
        n * (100 * q) + n * (q * fees::dearest_per_contract(models)) <= i64::MAX,
        n * (100 * q) >= 0,
        n * (q * fees::dearest_per_contract(models)) >= 0,
        (100 * legs) * q <= i64::MAX,
{
    let m = max(most, 0);
    let k = fees::dearest_per_contract(models);
    assert(m * 100 <= m * (100 + k) && m * k <= m * (100 + k)) by (nonlinear_arith)
        requires
            m >= 0,
            k >= 0,
    ;
    assert(q * (100 + k) <= m * (100 + k)) by (nonlinear_arith)
        requires
            0 <= q <= m,
            k >= 0,
    ;
    let a = q * (100 + k);
    let b = m * (100 + k);
    assert(n * a <= legs * b) by (nonlinear_arith)
        requires
            0 <= n <= legs,
            0 <= a <= b,
    ;
    assert(n * a == n * (100 * q) + n * (q * k)) by (nonlinear_arith)
        requires
            a == q * (100 + k),
    ;
    assert(n * (100 * q) >= 0 && n * (q * k) >= 0) by (nonlinear_arith)
        requires
            n >= 0,
            q >= 0,
            k >= 0,
    ;
    assert((100 * legs) * q <= legs * b) by (nonlinear_arith)
        requires
            0 <= q <= m,
            b == m * (100 + k),
            k >= 0,
            legs >= 0,
    ;
}

/// Two best quantities are one.
proof fn lemma_best_unique(
    models: &FeeModels,
    legs: Seq<CandidateLeg>,
    ladders: Seq<Seq<Level>>,
    payoff_per_unit: int,
    cap: int,
    best: int,
)
    requires
        is_best(models, legs, ladders, payoff_per_unit, cap, best),
    ensures
        best_quantity(models, legs, ladders, payoff_per_unit, cap) == best,
{
    let other = best_quantity(models, legs, ladders, payoff_per_unit, cap);
    assert(is_best(models, legs, ladders, payoff_per_unit, cap, other));
    assert(net_at(models, legs, ladders, payoff_per_unit, other) <= net_at(
        models,
        legs,
        ladders,
        payoff_per_unit,
        best,
    ));
}

/// Premium and fees for `qty` contracts on every leg.
fn cost_and_fees(
    legs: &[CandidateLeg],
    ladders: &[Vec<Level>],
    models: &FeeModels,
    qty: i64,
    most: i64,
) -> (sums: (i64, i64))
    requires
        ladders@.len() == legs@.len(),
        forall|i: int| 0 <= i < ladders@.len() ==> ladder_wf((#[trigger] ladders@[i])@),
        0 <= qty <= max(most as int, 0),
        sizing_fits(models, most as int, legs@.len() as int),
    ensures
        sums.0 == cost_at(ladders_view(ladders@), qty as int, legs@.len() as int),
        sums.1 == fees_at(
            models,
            legs@,
            ladders_view(ladders@),
            qty as int,
            legs@.len() as int,
        ),
        sums.0 >= 0,
        sums.1 >= 0,
        sums.0 + sums.1 <= i64::MAX,
{
    let ghost views = ladders_view(ladders@);
    let ghost m: int = max(most as int, 0);
    let mut cost: i64 = 0;
    let mut fee: i64 = 0;
    let mut i: usize = 0;
    while i < legs.len()
        invariant
            i <= legs@.len(),
            ladders@.len() == legs@.len(),
            views == ladders_view(ladders@),
            m == max(most as int, 0),
            forall|k: int| 0 <= k < ladders@.len() ==> ladder_wf((#[trigger] ladders@[k])@),
            0 <= qty <= m,
            sizing_fits(models, most as int, legs@.len() as int),
            cost == cost_at(views, qty as int, i as int),
            fee == fees_at(models, legs@, views, qty as int, i as int),
            cost >= 0,
            fee >= 0,
            cost + fee <= i64::MAX,
        decreases legs@.len() - i,
    {
        let leg: CandidateLeg = legs[i];
        let ladder: &Vec<Level> = &ladders[i];
        proof {
            assert(views[i as int] == ladder@);
            assert forall|k: int| 0 <= k < views.len() implies ladder_wf(#[trigger] views[k]) by {
                assert(views[k] == ladders@[k]@);
            }
            lemma_sizing(models, most as int, legs@.len() as int, i + 1, qty as int);
            lemma_position_bounds(models, legs@, views, qty as int, m, i as int);
            lemma_position_bounds(models, legs@, views, qty as int, m, i + 1);
            lemma_premium_bounds(ladder@, qty as int);
            let k = fees::dearest_per_contract(models);
            assert(qty * k <= m * k) by (nonlinear_arith)
                requires
                    qty <= m,
                    k >= 0,
            ;
            lemma_levied_bounds(models, leg.venue, leg.contract_id, ladder@, qty as int, m, 0);
        }
        proof {
            lemma_premiums_fit(ladder@, qty as int, 0);
        }
        let premium_cents: i64 = total_cost_cents(ladder.as_slice(), qty);
        let fee_cents: i64 = apply_fees_per_level(
            ladder.as_slice(),
            leg.contract_id,
            qty,
            &models.for_venue(leg.venue),
        );
        cost = cost + premium_cents;
        fee = fee + fee_cents;
        i = i + 1;
    }
    (cost, fee)
}

/// The fills of a position of `qty` contracts on every leg.
fn fills_of(
    legs: &[CandidateLeg],
    ladders: &[Vec<Level>],
    models: &FeeModels,
    qty: i64,
    most: i64,
) -> (fills: Vec<Leg>)
    requires
        ladders@.len() == legs@.len(),
        forall|i: int| 0 <= i < ladders@.len() ==> ladder_wf((#[trigger] ladders@[i])@),
        0 <= qty <= max(most as int, 0),
        sizing_fits(models, most as int, legs@.len() as int),
    ensures
        fills@ == filled_legs(models, legs@, ladders_view(ladders@), qty as int),
{
    let ghost views = ladders_view(ladders@);
    let ghost m: int = max(most as int, 0);
    let mut fills: Vec<Leg> = Vec::new();
    let mut i: usize = 0;
    while i < legs.len()
        invariant
            i <= legs@.len(),
            ladders@.len() == legs@.len(),
            views == ladders_view(ladders@),
            m == max(most as int, 0),
            forall|k: int| 0 <= k < ladders@.len() ==> ladder_wf((#[trigger] ladders@[k])@),
            0 <= qty <= m,
            sizing_fits(models, most as int, legs@.len() as int),
            fills@.len() == i,
            forall|k: int|
                0 <= k < i ==> #[trigger] fills@[k] == filled_legs(
                    models,
                    legs@,
                    views,
                    qty as int,
                )[k],
        decreases legs@.len() - i,
    {
        let leg: CandidateLeg = legs[i];
        let ladder: &Vec<Level> = &ladders[i];
        proof {
            assert(views[i as int] == ladder@);
            lemma_sizing(models, most as int, legs@.len() as int, 0, qty as int);
            lemma_premium_bounds(ladder@, qty as int);
            let k = fees::dearest_per_contract(models);
            assert(qty * k <= m * k) by (nonlinear_arith)
                requires
                    qty <= m,
                    k >= 0,
            ;
            lemma_levied_bounds(models, leg.venue, leg.contract_id, ladder@, qty as int, m, 0);
        }
        proof {
            lemma_premiums_fit(ladder@, qty as int, 0);
        }
        let total_cost: i64 = total_cost_cents(ladder.as_slice(), qty);
        let fee_cents: i64 = apply_fees_per_level(
            ladder.as_slice(),
            leg.contract_id,
            qty,
            &models.for_venue(leg.venue),
        );
        fills.push(
            Leg {
                venue: leg.venue,
                contract_id: leg.contract_id,
                side: leg.side,
                qty,
                total_cost_cents: total_cost,
                fee_cents,
            },
        );
        i = i + 1;
    }
    assert(fills@ =~= filled_legs(models, legs@, views, qty as int));
    fills
}

/// The quantity that maximizes profit, and its premium and fees.
///
/// Every quantity is tried. Price per contract is constant within a level, but
/// each level's fee rounds up to a whole cent, so one more contract can cost more
/// than its edge: the end of a level may earn less than a size just before it.
fn best_size(
    legs: &[CandidateLeg],
    ladders: &[Vec<Level>],
    models: &FeeModels,
    payoff_per_unit: i64,
    cap: i64,
    most: i64,
) -> (best: (i64, i64, i64))
    requires
        ladders@.len() == legs@.len(),
        forall|i: int| 0 <= i < ladders@.len() ==> ladder_wf((#[trigger] ladders@[i])@),
        0 < cap <= max(most as int, 0),
        sizing_fits(models, most as int, legs@.len() as int),
        0 <= payoff_per_unit <= 100 * legs@.len(),
    ensures
        is_best(
            models,
            legs@,
            ladders_view(ladders@),
            payoff_per_unit as int,
            cap as int,
            best.0 as int,
        ),
        0 < best.0 <= cap,
        best.1 == cost_at(ladders_view(ladders@), best.0 as int, legs@.len() as int),
        best.2 == fees_at(
            models,
            legs@,
            ladders_view(ladders@),
            best.0 as int,
            legs@.len() as int,
        ),
        best.1 >= 0,
        best.2 >= 0,
        best.1 + best.2 <= i64::MAX,
{
    let ghost views = ladders_view(ladders@);
    let ghost payoff: int = payoff_per_unit as int;
    proof {
        lemma_sizing(models, most as int, legs@.len() as int, 0, 0);
    }
    let mut best: (i64, i64, i64) = (0, 0, 0);
    let mut best_net: i64 = 0;
    let mut qty: i64 = 1;
    while qty <= cap
        invariant
            1 <= qty <= cap + 1,
            ladders@.len() == legs@.len(),
            views == ladders_view(ladders@),
            payoff == payoff_per_unit,
            forall|k: int| 0 <= k < ladders@.len() ==> ladder_wf((#[trigger] ladders@[k])@),
            0 < cap <= max(most as int, 0),
            cap < i64::MAX,
            sizing_fits(models, most as int, legs@.len() as int),
            0 <= payoff_per_unit <= 100 * legs@.len(),
            qty > 1 ==> {
                &&& 1 <= best.0 < qty
                &&& best.1 == cost_at(views, best.0 as int, legs@.len() as int)
                &&& best.2 == fees_at(models, legs@, views, best.0 as int, legs@.len() as int)
                &&& best.1 >= 0
                &&& best.2 >= 0
                &&& best.1 + best.2 <= i64::MAX
                &&& best_net == net_at(models, legs@, views, payoff, best.0 as int)
            },
            forall|q: int|
                1 <= q < qty ==> {
                    let net = #[trigger] net_at(models, legs@, views, payoff, q);
                    net <= best_net && (q < best.0 ==> net < best_net)
                },
        decreases cap + 1 - qty,
    {
        proof {
            lemma_sizing(models, most as int, legs@.len() as int, 0, qty as int);
            assert(0 <= payoff * qty <= (100 * legs@.len()) * qty) by (nonlinear_arith)
                requires
                    0 <= payoff <= 100 * legs@.len(),
                    qty >= 0,
            ;
        }
        let (cost, fee) = cost_and_fees(legs, ladders, models, qty, most);
        let net: i64 = payoff_per_unit * qty - cost - fee;
        if qty == 1 || net > best_net {
            best = (qty, cost, fee);
            best_net = net;
        }
        qty = qty + 1;
    }
    best
}

/// Price a candidate against real depth, real fees, and the clock.
///
/// Returns the trade the engine would actually place, or the single concrete
/// reason it will not.
pub fn cost_candidate<B: BookSource>(
    group: &ConstraintGroup,
    candidate: &Candidate,
    books: &B,
    models: &FeeModels,
    config: &SolverConfig,
    now_ms: u64,
) -> (result: Result<Opportunity, RejectReason>)
    requires
        sizing_fits(
            models,
            config.max_position_size as int,
            candidate.legs@.len() as int,
        ),
    ensures
        match result {
            Ok(trade) => costed(
                models,
                group@,
                candidate.legs@,
                books.quotes(),
                *config,
                now_ms,
            ) == Ok::<OpportunityView, RejectReason>(trade@) && trade@.wf(),
            Err(reason) => costed(
                models,
                group@,
                candidate.legs@,
                books.quotes(),
                *config,
                now_ms,
            ) == Err::<OpportunityView, RejectReason>(reason),
        },
{
    let legs: &[CandidateLeg] = candidate.legs.as_slice();
    let ghost quotes = books.quotes();
    let most: i64 = config.max_position_size;
    let payoff_per_unit: i64 = min_payoff_per_unit(&group.relation, legs);
    if payoff_per_unit <= 0 {
        return Err(RejectReason::PayoffNotGuaranteed);
    }
    // Walk every leg once, to the position cap. Later quantities are prefixes of
    // these ladders, so depth is read from the book exactly one time per leg.

    let mut ladders: Vec<Vec<Level>> = Vec::new();
    let mut cap: i64 = if most > 0 {
        most
    } else {
        0
    };
    let mut i: usize = 0;
    while i < legs.len()
        invariant
            i <= legs@.len(),
            legs@ == candidate.legs@,
            quotes == books.quotes(),
            most == config.max_position_size,
            payoff_per_unit == worst_payoff(group@.relation.states(), legs@),
            payoff_per_unit > 0,
            sizing_fits(models, most as int, legs@.len() as int),
            ladders@.len() == i,
            forall|k: int|
                0 <= k < i ==> {
                    &&& quotes((#[trigger] legs@[k]).contract_id) is Some
                    &&& ladders@[k]@ == walked(
                        asks_for(quotes(legs@[k].contract_id)->0, legs@[k].side),
                        most as int,
                    )
                },
            forall|k: int|
                0 <= k < i ==> ladder_wf((#[trigger] ladders@[k])@) && depth(ladders@[k]@)
                    <= i64::MAX,
            cap == thinnest(ladders_view(ladders@), most as int),
            0 <= cap <= max(most as int, 0),
        decreases legs@.len() - i,
    {
        let leg: CandidateLeg = legs[i];
        match books.book(leg.contract_id) {
            Some(book) => {
                proof {
                    crate::types::lemma_offered(book@.no, 100);
                    crate::types::lemma_offered(book@.yes, 100);
                    lemma_walked(asks_for(book@, leg.side), most as int);
                    lemma_sizing(models, most as int, legs@.len() as int, 0, 0);
                }
                let walk: Walk = walk_depth_and_cost(book, leg.side, most);
                // Legs must be equal size or the position no longer settles
                // flat, so surplus depth on a deeper leg is unusable. The
                // thinnest leg is the cap.
                if walk.filled < cap {
                    cap = walk.filled;
                }
                let ghost before = ladders@;
                ladders.push(walk.consumed);
                proof {
                    assert(ladders_view(ladders@).drop_last() =~= ladders_view(before));
                    assert(ladders_view(ladders@).last() == walk.consumed@);
                }
            },
            None => {
                assert(quotes(legs@[i as int].contract_id) is None);
                return Err(RejectReason::MissingBook);
            },
        }
        i = i + 1;
    }
    let ghost views = ladders_of(quotes, legs@, most as int);
    assert(ladders_view(ladders@) =~= views);
    if cap <= 0 {
        return Err(RejectReason::NoDepth);
    }
    let (qty, total_cost, total_fees) = best_size(
        legs,
        ladders.as_slice(),
        models,
        payoff_per_unit,
        cap,
        most,
    );
    proof {
        lemma_best_unique(models, legs@, views, payoff_per_unit as int, cap as int, qty as int);
        lemma_sizing(models, most as int, legs@.len() as int, 0, qty as int);
        assert(0 <= payoff_per_unit * qty <= (100 * legs@.len()) * qty) by (nonlinear_arith)
            requires
                0 <= payoff_per_unit <= 100 * legs@.len(),
                qty >= 0,
        ;
    }
    let guaranteed_payoff_cents: i64 = payoff_per_unit * qty;
    let gross_cents: i64 = guaranteed_payoff_cents - total_cost;
    let net_cents: i64 = gross_cents - total_fees;
    if net_cents <= 0 {
        return Err(RejectReason::FeesExceedGap);
    }
    if net_cents < config.min_net_edge_cents {
        return Err(RejectReason::BelowMinEdge);
    }
    let capital_cents: i64 = total_cost + total_fees;
    let horizon_ms: u64 = horizon_to(group.resolves_at_ms, now_ms);
    if below_return(net_cents, capital_cents, horizon_ms, config) {
        return Err(RejectReason::BelowMinReturn);
    }
    let fills: Vec<Leg> = fills_of(legs, ladders.as_slice(), models, qty, most);
    let trade = Opportunity {
        group: group.id,
        legs: fills,
        qty,
        guaranteed_payoff_cents,
        capital_cents,
        gross_cents,
        fees_cents: total_fees,
        net_cents,
        horizon_ms,
    };
    assert(trade@ =~= position(
        models,
        group@,
        legs@,
        views,
        payoff_per_unit as int,
        qty as int,
        now_ms,
    ));
    Ok(trade)
}

/// Whether net over capital, scaled to a year, is under the threshold.
fn below_return(net_cents: i64, capital_cents: i64, horizon_ms: u64, config: &SolverConfig) -> (below:
    bool)
    requires
        net_cents >= 0,
        capital_cents >= 0,
    ensures
        below == ((net_cents * config.min_annualized_return.denom) * MS_PER_YEAR < (capital_cents
            * config.min_annualized_return.numer) * horizon_ms),
{
    let net: u128 = net_cents as u128;
    let capital: u128 = capital_cents as u128;
    let denom: u128 = config.min_annualized_return.denom as u128;
    let numer: u128 = config.min_annualized_return.numer as u128;
    assert(net * denom <= u128::MAX && capital * numer <= u128::MAX) by (nonlinear_arith)
        requires
            net <= 0x7fff_ffff_ffff_ffff,
            capital <= 0x7fff_ffff_ffff_ffff,
            denom <= 0xffff_ffff_ffff_ffff,
            numer <= 0xffff_ffff_ffff_ffff,
    ;
    wide::product_less(net * denom, MS_PER_YEAR, capital * numer, horizon_ms)
}

/// Milliseconds until the locked capital comes back, floored at
/// [`MIN_HORIZON_MS`].
pub fn horizon_to(resolves_at_ms: u64, now_ms: u64) -> (ms: u64)
    ensures
        ms == horizon(resolves_at_ms, now_ms),
        ms >= MIN_HORIZON_MS,
{
    let remaining: u64 = resolves_at_ms.saturating_sub(now_ms);
    if remaining < MIN_HORIZON_MS {
        MIN_HORIZON_MS
    } else {
        remaining
    }
}

// ---------------------------------------------------------------------------
// Ranking
// ---------------------------------------------------------------------------

/// Whether `a` ranks strictly above `b`: by annualized return on locked
/// capital, then by net profit, then by group id.
pub open spec fn outranks(a: OpportunityView, b: OpportunityView) -> bool {
    ||| a.scaled_return(b) > b.scaled_return(a)
    ||| a.scaled_return(b) == b.scaled_return(a) && a.net_cents > b.net_cents
    ||| a.scaled_return(b) == b.scaled_return(a) && a.net_cents == b.net_cents && a.group.0
        < b.group.0
}

/// `x` put behind every entry that it does not outrank.
pub open spec fn placed_in_rank(sorted: Seq<OpportunityView>, x: OpportunityView) -> Seq<
    OpportunityView,
>
    decreases sorted.len(),
{
    if sorted.len() > 0 && outranks(x, sorted.last()) {
        placed_in_rank(sorted.drop_last(), x).push(sorted.last())
    } else {
        sorted.push(x)
    }
}

/// The opportunities best first; equals keep the order they came in.
pub open spec fn ranked(opportunities: Seq<OpportunityView>) -> Seq<OpportunityView>
    decreases opportunities.len(),
{
    if opportunities.len() == 0 {
        Seq::empty()
    } else {
        placed_in_rank(ranked(opportunities.drop_last()), opportunities.last())
    }
}

fn ranks_above(a: &Opportunity, b: &Opportunity) -> (above: bool)
    ensures
        above == outranks(a@, b@),
{
    let a_net: i128 = a.net_cents as i128;
    let b_net: i128 = b.net_cents as i128;
    let a_capital: i128 = a.capital_cents as i128;
    let b_capital: i128 = b.capital_cents as i128;
    proof {
        lemma_cross_fits(a_net as int, b_capital as int);
        lemma_cross_fits(b_net as int, a_capital as int);
    }
    let ours: i128 = a_net * b_capital;
    let theirs: i128 = b_net * a_capital;
    if wide::signed_product_less(theirs, a.horizon_ms, ours, b.horizon_ms) {
        return true;
    }
    if wide::signed_product_less(ours, b.horizon_ms, theirs, a.horizon_ms) {
        return false;
    }
    a.net_cents > b.net_cents || (a.net_cents == b.net_cents && a.group.0 < b.group.0)
}

/// The product of two 64-bit amounts fits 128 bits.
proof fn lemma_cross_fits(x: int, y: int)
    requires
        i64::MIN <= x <= i64::MAX,
        i64::MIN <= y <= i64::MAX,
    ensures
        i128::MIN < x * y <= i128::MAX,
{
    assert(-0x4000_0000_0000_0000_0000_0000_0000_0000 <= x * y
        <= 0x4000_0000_0000_0000_0000_0000_0000_0000) by (nonlinear_arith)
        requires
            -0x8000_0000_0000_0000 <= x <= 0x7fff_ffff_ffff_ffff,
            -0x8000_0000_0000_0000 <= y <= 0x7fff_ffff_ffff_ffff,
    ;
}

proof fn lemma_placed_in_rank(sorted: Seq<OpportunityView>, x: OpportunityView, at: int)
    requires
        0 <= at <= sorted.len(),
        forall|k: int| at <= k < sorted.len() ==> outranks(x, #[trigger] sorted[k]),
        at > 0 ==> !outranks(x, sorted[at - 1]),
    ensures
        placed_in_rank(sorted, x) == sorted.insert(at, x),
    decreases sorted.len(),
{
    if at < sorted.len() {
        let front = sorted.drop_last();
        assert(sorted.last() == sorted[sorted.len() - 1]);
        lemma_placed_in_rank(front, x, at);
        assert(front.insert(at, x).push(sorted.last()) =~= sorted.insert(at, x));
    } else {
        if sorted.len() > 0 {
            assert(sorted.last() == sorted[at - 1]);
        }
        assert(sorted.push(x) =~= sorted.insert(at, x));
    }
}

proof fn lemma_ranked_len(opportunities: Seq<OpportunityView>)
    ensures
        ranked(opportunities).len() == opportunities.len(),
    decreases opportunities.len(),
{
    if opportunities.len() > 0 {
        lemma_ranked_len(opportunities.drop_last());
        lemma_placed_len(ranked(opportunities.drop_last()), opportunities.last());
    }
}

proof fn lemma_placed_len(sorted: Seq<OpportunityView>, x: OpportunityView)
    ensures
        placed_in_rank(sorted, x).len() == sorted.len() + 1,
    decreases sorted.len(),
{
    if sorted.len() > 0 && outranks(x, sorted.last()) {
        lemma_placed_len(sorted.drop_last(), x);
    }
}

pub proof fn lemma_ranked_wf(opportunities: Seq<OpportunityView>)
    requires
        forall|i: int| 0 <= i < opportunities.len() ==> (#[trigger] opportunities[i]).wf(),
    ensures
        ranked(opportunities).len() == opportunities.len(),
        forall|i: int| 0 <= i < opportunities.len() ==> (#[trigger] ranked(opportunities)[i]).wf(),
    decreases opportunities.len(),
{
    if opportunities.len() > 0 {
        let front = opportunities.drop_last();
        assert forall|i: int| 0 <= i < front.len() implies (#[trigger] front[i]).wf() by {
            assert(front[i] == opportunities[i]);
        }
        lemma_ranked_wf(front);
        assert(opportunities.last() == opportunities[opportunities.len() - 1]);
        lemma_placed_wf(ranked(front), opportunities.last());
    }
}

proof fn lemma_placed_wf(sorted: Seq<OpportunityView>, x: OpportunityView)
    requires
        x.wf(),
        forall|i: int| 0 <= i < sorted.len() ==> (#[trigger] sorted[i]).wf(),
    ensures
        placed_in_rank(sorted, x).len() == sorted.len() + 1,
        forall|i: int| 0 <= i <= sorted.len() ==> (#[trigger] placed_in_rank(sorted, x)[i]).wf(),
    decreases sorted.len(),
{
    if sorted.len() > 0 && outranks(x, sorted.last()) {
        let front = sorted.drop_last();
        assert forall|i: int| 0 <= i < front.len() implies (#[trigger] front[i]).wf() by {
            assert(front[i] == sorted[i]);
        }
        lemma_placed_wf(front, x);
        assert(sorted.last() == sorted[sorted.len() - 1]);
    }
}

/// Rank by annualized return on locked capital, best first.
///
/// Capital in a prediction market is trapped until the event resolves, so a one
/// cent edge locking $50 for eight months and a two cent edge locking $500 for a
/// day are not comparable on raw profit. Ties break on net profit and then on
/// group id, so the same input always produces the same order under replay.
pub fn rank(opportunities: &mut Vec<Opportunity>)
    ensures
        crate::solver::types::opportunities_view(final(opportunities)@) == ranked(
            crate::solver::types::opportunities_view(old(opportunities)@),
        ),
{
    let ghost all = crate::solver::types::opportunities_view(opportunities@);
    let ghost given = opportunities@;
    let mut done: usize = 0;
    assert(all.subrange(0, 0) =~= Seq::<OpportunityView>::empty());
    assert(crate::solver::types::opportunities_view(opportunities@.subrange(0, 0)) =~= ranked(
        all.subrange(0, 0),
    ));
    while done < opportunities.len()
        invariant
            done <= opportunities@.len(),
            opportunities@.len() == given.len(),
            all == crate::solver::types::opportunities_view(given),
            forall|k: int| done <= k < given.len() ==> #[trigger] opportunities@[k] == given[k],
            crate::solver::types::opportunities_view(opportunities@.subrange(0, done as int))
                == ranked(all.subrange(0, done as int)),
        decreases given.len() - done,
    {
        let ghost sorted = ranked(all.subrange(0, done as int));
        let ghost before = opportunities@;
        proof {
            lemma_ranked_len(all.subrange(0, done as int));
            assert forall|k: int| 0 <= k < done implies (#[trigger] before[k])@ == sorted[k] by {
                assert(crate::solver::types::opportunities_view(
                    before.subrange(0, done as int),
                )[k] == before.subrange(0, done as int)[k]@);
            }
            assert(before[done as int] == given[done as int]);
            assert(all[done as int] == given[done as int]@);
        }
        let ghost x = all[done as int];
        let mut at: usize = done;
        while at > 0 && ranks_above(&opportunities[done], &opportunities[at - 1])
            invariant
                at <= done,
                done < opportunities@.len(),
                opportunities@ == before,
                before[done as int]@ == x,
                sorted.len() == done,
                forall|k: int| 0 <= k < done ==> (#[trigger] before[k])@ == sorted[k],
                forall|k: int| at <= k < done ==> outranks(x, #[trigger] sorted[k]),
            ensures
                at <= done,
                opportunities@ == before,
                forall|k: int| at <= k < done ==> outranks(x, #[trigger] sorted[k]),
                at > 0 ==> !outranks(x, sorted[at - 1]),
            decreases at,
        {
            at = at - 1;
        }
        let moved: Opportunity = opportunities.remove(done);
        opportunities.insert(at, moved);
        proof {
            lemma_placed_in_rank(sorted, x, at as int);
            let next = all.subrange(0, done + 1);
            assert(next.drop_last() =~= all.subrange(0, done as int));
            assert(next.last() == x);
            let now = opportunities@;
            assert(now =~= before.remove(done as int).insert(at as int, before[done as int]));
            assert forall|k: int| done + 1 <= k < given.len() implies #[trigger] now[k]
                == given[k] by {
                assert(now[k] == before[k]);
            }
            assert(crate::solver::types::opportunities_view(now.subrange(0, done + 1))
                =~= sorted.insert(at as int, x)) by {
                let shown = crate::solver::types::opportunities_view(now.subrange(0, done + 1));
                assert forall|k: int| 0 <= k < done + 1 implies shown[k] == sorted.insert(
                    at as int,
                    x,
                )[k] by {
                    assert(shown[k] == now[k]@);
                    if k < at {
                        assert(now[k] == before[k]);
                    } else if k > at {
                        assert(now[k] == before[k - 1]);
                    }
                }
            }
        }
        done = done + 1;
    }
    assert(opportunities@.subrange(0, opportunities@.len() as int) =~= opportunities@);
    assert(all.subrange(0, all.len() as int) =~= all);
}

/// The annualized-return order is transitive, with capital of zero returning
/// without bound.
proof fn lemma_at_least_transitive(a: OpportunityView, b: OpportunityView, c: OpportunityView)
    requires
        a.wf(),
        b.wf(),
        c.wf(),
        a.scaled_return(b) >= b.scaled_return(a),
        b.scaled_return(c) >= c.scaled_return(b),
    ensures
        a.scaled_return(c) >= c.scaled_return(a),
        a.scaled_return(c) == c.scaled_return(a) ==> a.scaled_return(b) == b.scaled_return(a)
            && b.scaled_return(c) == c.scaled_return(b),
{
    let (an, bn, cn) = (a.net_cents as int, b.net_cents as int, c.net_cents as int);
    let ak = a.capital_cents * a.horizon_ms;
    let bk = b.capital_cents * b.horizon_ms;
    let ck = c.capital_cents * c.horizon_ms;
    assert(ak >= 0 && bk >= 0 && ck >= 0) by (nonlinear_arith)
        requires
            ak == a.capital_cents * a.horizon_ms,
            bk == b.capital_cents * b.horizon_ms,
            ck == c.capital_cents * c.horizon_ms,
            a.capital_cents >= 0,
            b.capital_cents >= 0,
            c.capital_cents >= 0,
    ;
    assert(a.scaled_return(b) == an * bk && b.scaled_return(a) == bn * ak && b.scaled_return(c)
        == bn * ck && c.scaled_return(b) == cn * bk && a.scaled_return(c) == an * ck
        && c.scaled_return(a) == cn * ak) by (nonlinear_arith)
        requires
            an == a.net_cents,
            bn == b.net_cents,
            cn == c.net_cents,
            ak == a.capital_cents * a.horizon_ms,
            bk == b.capital_cents * b.horizon_ms,
            ck == c.capital_cents * c.horizon_ms,
    ;
    if bk == 0 {
        assert(bn * ak == 0 && ak == 0) by (nonlinear_arith)
            requires
                an * bk >= bn * ak,
                bk == 0,
                bn > 0,
                ak >= 0,
        ;
        assert(an * bk == 0 && cn * ak == 0 && an * ck >= 0) by (nonlinear_arith)
            requires
                bk == 0,
                ak == 0,
                ck >= 0,
                an > 0,
        ;
        assert(an * ck == 0 ==> ck == 0) by (nonlinear_arith)
            requires
                an > 0,
                ck >= 0,
        ;
        assert(cn * bk == 0) by (nonlinear_arith)
            requires
                bk == 0,
        ;
        if an * ck == 0 {
            assert(bn * ck == 0) by (nonlinear_arith)
                requires
                    ck == 0,
            ;
        }
    } else {
        // Multiply both comparisons up to the common factor bn * bk.
        assert((an * ck) * (bn * bk) >= (cn * ak) * (bn * bk)) by (nonlinear_arith)
            requires
                an * bk >= bn * ak,
                bn * ck >= cn * bk,
                an > 0,
                bn > 0,
                cn > 0,
                ak >= 0,
                bk > 0,
                ck >= 0,
        {
            assert((an * ck) * (bn * bk) == (an * bk) * (bn * ck));
            assert((cn * ak) * (bn * bk) == (bn * ak) * (cn * bk));
            assert((an * bk) * (bn * ck) >= (bn * ak) * (bn * ck));
            assert((bn * ak) * (bn * ck) >= (bn * ak) * (cn * bk));
        }
        let m = bn * bk;
        assert(m > 0) by (nonlinear_arith)
            requires
                bn > 0,
                bk > 0,
                m == bn * bk,
        ;
        assert(an * ck >= cn * ak) by (nonlinear_arith)
            requires
                (an * ck) * m >= (cn * ak) * m,
                m > 0,
        ;
        if an * ck == cn * ak {
            if an * bk > bn * ak {
                assert((an * bk) * (bn * ck) == (an * ck) * m && (bn * ak) * (cn * bk) == (cn * ak)
                    * m) by (nonlinear_arith)
                    requires
                        m == bn * bk,
                ;
                assert((an * bk) * (cn * bk) > (bn * ak) * (cn * bk)) by (nonlinear_arith)
                    requires
                        an * bk > bn * ak,
                        cn > 0,
                        bk > 0,
                ;
                assert((an * bk) * (bn * ck) >= (an * bk) * (cn * bk)) by (nonlinear_arith)
                    requires
                        bn * ck >= cn * bk,
                        an > 0,
                        bk > 0,
                ;
            }
            if bn * ck > cn * bk {
                assert((an * bk) * (bn * ck) == (an * ck) * m && (bn * ak) * (cn * bk) == (cn * ak)
                    * m) by (nonlinear_arith)
                    requires
                        m == bn * bk,
                ;
                assert((an * bk) * (bn * ck) > (an * bk) * (cn * bk)) by (nonlinear_arith)
                    requires
                        bn * ck > cn * bk,
                        an > 0,
                        bk > 0,
                ;
                assert((an * bk) * (cn * bk) >= (bn * ak) * (cn * bk)) by (nonlinear_arith)
                    requires
                        an * bk >= bn * ak,
                        cn > 0,
                        bk > 0,
                ;
            }
        }
    }
}

/// Not being outranked is transitive.
proof fn lemma_rank_transitive(a: OpportunityView, b: OpportunityView, c: OpportunityView)
    requires
        a.wf(),
        b.wf(),
        c.wf(),
        !outranks(b, a),
        !outranks(c, b),
    ensures
        !outranks(c, a),
{
    lemma_at_least_transitive(a, b, c);
}

/// Ranking loses nothing, adds nothing, and leaves no opportunity below one
/// that it outranks.
pub proof fn ranking_sorts_and_keeps_every_opportunity(opportunities: Seq<OpportunityView>)
    requires
        forall|i: int| 0 <= i < opportunities.len() ==> (#[trigger] opportunities[i]).wf(),
    ensures
        ranked(opportunities).to_multiset() == opportunities.to_multiset(),
        forall|i: int, j: int|
            0 <= i < j < ranked(opportunities).len() ==> !outranks(
                #[trigger] ranked(opportunities)[j],
                #[trigger] ranked(opportunities)[i],
            ),
    decreases opportunities.len(),
{
    if opportunities.len() == 0 {
        assert(ranked(opportunities) =~= opportunities);
    } else {
        let front = opportunities.drop_last();
        let x = opportunities.last();
        assert forall|i: int| 0 <= i < front.len() implies (#[trigger] front[i]).wf() by {
            assert(front[i] == opportunities[i]);
        }
        assert(x == opportunities[opportunities.len() - 1]);
        ranking_sorts_and_keeps_every_opportunity(front);
        lemma_ranked_wf(front);
        lemma_placed_sorted(ranked(front), x);
        assert(front.push(x) =~= opportunities);
        vstd::seq_lib::to_multiset_build(front, x);
    }
}

proof fn lemma_placed_sorted(sorted: Seq<OpportunityView>, x: OpportunityView)
    requires
        x.wf(),
        forall|i: int| 0 <= i < sorted.len() ==> (#[trigger] sorted[i]).wf(),
        forall|i: int, j: int|
            0 <= i < j < sorted.len() ==> !outranks(#[trigger] sorted[j], #[trigger] sorted[i]),
    ensures
        placed_in_rank(sorted, x).to_multiset() == sorted.to_multiset().insert(x),
        placed_in_rank(sorted, x).len() == sorted.len() + 1,
        forall|i: int| 0 <= i <= sorted.len() ==> (#[trigger] placed_in_rank(sorted, x)[i]) == x
            || sorted.contains(placed_in_rank(sorted, x)[i]),
        forall|i: int, j: int|
            0 <= i < j <= sorted.len() ==> !outranks(
                #[trigger] placed_in_rank(sorted, x)[j],
                #[trigger] placed_in_rank(sorted, x)[i],
            ),
    decreases sorted.len(),
{
    broadcast use vstd::seq_lib::group_to_multiset_ensures;

    let out = placed_in_rank(sorted, x);
    if sorted.len() > 0 && outranks(x, sorted.last()) {
        let front = sorted.drop_last();
        let last = sorted.last();
        assert(last == sorted[sorted.len() - 1]);
        assert forall|i: int| 0 <= i < front.len() implies (#[trigger] front[i]).wf() by {
            assert(front[i] == sorted[i]);
        }
        assert forall|i: int, j: int| 0 <= i < j < front.len() implies !outranks(
            #[trigger] front[j],
            #[trigger] front[i],
        ) by {
            assert(front[i] == sorted[i] && front[j] == sorted[j]);
        }
        lemma_placed_sorted(front, x);
        let inner = placed_in_rank(front, x);
        assert(front.push(last) =~= sorted);
        assert(out.to_multiset() =~= sorted.to_multiset().insert(x));
        assert forall|i: int, j: int| 0 <= i < j <= sorted.len() implies !outranks(
            #[trigger] out[j],
            #[trigger] out[i],
        ) by {
            if j < sorted.len() {
                assert(out[i] == inner[i] && out[j] == inner[j]);
            } else {
                assert(out[j] == last && out[i] == inner[i]);
                if inner[i] == x {
                } else {
                    let k = choose|k: int| 0 <= k < front.len() && front[k] == inner[i];
                    assert(sorted[k] == inner[i]);
                    assert(sorted[sorted.len() - 1] == last);
                }
            }
        }
        assert forall|i: int| 0 <= i <= sorted.len() implies (#[trigger] out[i]) == x
            || sorted.contains(out[i]) by {
            if i < sorted.len() {
                assert(out[i] == inner[i]);
                if inner[i] != x {
                    let k = choose|k: int| 0 <= k < front.len() && front[k] == inner[i];
                    assert(sorted[k] == inner[i]);
                }
            } else {
                assert(sorted[sorted.len() - 1] == out[i]);
            }
        }
    } else {
        assert(out =~= sorted.push(x));
        assert forall|i: int, j: int| 0 <= i < j <= sorted.len() implies !outranks(
            #[trigger] out[j],
            #[trigger] out[i],
        ) by {
            if j == sorted.len() && i < sorted.len() {
                assert(out[j] == x && out[i] == sorted[i]);
                if i < sorted.len() - 1 {
                    assert(!outranks(sorted[sorted.len() - 1], sorted[i]));
                    lemma_rank_transitive(sorted[i], sorted[sorted.len() - 1], x);
                }
            }
        }
        assert forall|i: int| 0 <= i <= sorted.len() implies (#[trigger] out[i]) == x
            || sorted.contains(out[i]) by {
            if i < sorted.len() {
                assert(sorted[i] == out[i]);
            }
        }
    }
}

} // verus!
