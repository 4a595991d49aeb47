//! Whether machine integers hold what is about to be computed.
//!
//! Money is counted in 64-bit cents and messages in 64-bit counters. No honest
//! run comes near either limit; these tests are what a caller asks first, so
//! that a dishonest one stops instead of wrapping around.
use vstd::prelude::*;
use crate::engine;
use crate::exec::atomic::{self, ExecutionResult};
use crate::exec::paper::PaperOrderClient;
use crate::exec::{NewOrder, OrderFill};
use crate::fees::{self, FeeModel, FeeModels, KalshiFees, VenueFees};
use crate::metrics::{self, Metrics};
use crate::portfolio::{self, Portfolio, Position, PositionLeg};
use crate::registry::{ConstraintGroup, Registry};
use crate::solver;
use crate::solver::costing;
use crate::solver::types::{SolverConfig, SolverMetrics};
use crate::solver::BookSource;
use crate::types::{Book, Cents, ContractId, Level, Side};

verus! {

fn within(n: i128) -> (yes: bool)
    ensures
        yes == fees::fits(n as int),
{
    i64::MIN as i128 <= n && n <= i64::MAX as i128
}

// ---------------------------------------------------------------------------
// Sizing
// ---------------------------------------------------------------------------

/// What the dearest schedule charges a contract.
fn dearest(models: &FeeModels) -> (cents: i128)
    ensures
        cents == fees::dearest_per_contract(models),
        2 <= cents <= 2 * i64::MAX,
{
    if models.kalshi.multiplier_numer > 1 {
        2 * models.kalshi.multiplier_numer as i128
    } else {
        2
    }
}

/// Whether the fee of every trade of up to `most` contracts can be computed.
fn charges(models: &FeeModels, most: i64) -> (yes: bool)
    requires
        most >= 0,
    ensures
        yes == fees::charges_up_to(models, most as int),
{
    let numer: i64 = models.kalshi.multiplier_numer;
    let denom: i64 = models.kalshi.multiplier_denom;
    if numer < 0 || denom <= 0 {
        return false;
    }
    let k: i128 = dearest(models);
    proof {
        assert(0 <= most * numer <= i64::MAX * i64::MAX) by (nonlinear_arith)
            requires
                0 <= most <= i64::MAX,
                0 <= numer <= i64::MAX,
        ;
        assert(0 <= most * k <= i64::MAX * (2 * i64::MAX)) by (nonlinear_arith)
            requires
                0 <= most <= i64::MAX,
                0 <= k <= 2 * i64::MAX,
        ;
    }
    let product: i128 = most as i128 * numer as i128;
    within(2 * (10_000 * denom as i128)) && within(product) && within(2 * (17_500 * product))
        && within(17_500 * most as i128) && within(most as i128 * k)
}

/// Whether every sum of a position of up to `most` contracts on each of `legs`
/// legs can be computed.
fn sizing(models: &FeeModels, most: i64, legs: usize) -> (yes: bool)
    ensures
        yes == costing::sizing_fits(models, most as int, legs as int),
{
    let most: i64 = if most > 0 {
        most
    } else {
        0
    };
    if !charges(models, most) {
        return false;
    }
    let k: i128 = dearest(models);
    proof {
        assert(0 <= most * k <= i64::MAX * (2 * i64::MAX)) by (nonlinear_arith)
            requires
                0 <= most <= i64::MAX,
                0 <= k <= 2 * i64::MAX,
        ;
        assert(most * (100 + k) == most * 100 + most * k) by (nonlinear_arith);
    }
    let each: i128 = most as i128 * 100 + most as i128 * k;
    if !within(each) {
        return false;
    }
    proof {
        assert(0 <= legs * each <= u64::MAX * i64::MAX) by (nonlinear_arith)
            requires
                0 <= legs <= u64::MAX,
                0 <= each <= i64::MAX,
        ;
    }
    within(legs as i128 * 100) && within(legs as i128 * each)
}

/// Whether the solver can size every group of a registry.
pub fn can_size(registry: &Registry, models: &FeeModels, config: &SolverConfig) -> (yes: bool)
    requires
        registry.wf(),
    ensures
        yes == solver::groups_fit(models, registry@.groups, *config),
{
    let groups: &[ConstraintGroup] = registry.groups();
    let ghost views = registry@.groups;
    let mut i: usize = 0;
    while i < groups.len()
        invariant
            i <= groups@.len(),
            views == registry@.groups,
            groups@.map_values(|g: ConstraintGroup| g@) == views,
            forall|k: int| 0 <= k < groups@.len() ==> (#[trigger] groups@[k]).wf(),
            forall|k: int|
                0 <= k < i ==> solver::group_fits(models, #[trigger] views[k], *config),
        decreases groups@.len() - i,
    {
        assert(groups@[i as int].wf());
        assert(views[i as int] == groups@[i as int]@);
        let members: usize = groups[i].members().len();
        let legs: usize = if members > 2 {
            members
        } else {
            2
        };
        if !sizing(models, config.max_position_size, legs) {
            assert(!solver::group_fits(models, views[i as int], *config));
            return false;
        }
        i = i + 1;
    }
    true
}

/// Whether the next midnight can be told.
pub fn can_date(now_ms: u64) -> (yes: bool)
    ensures
        yes == (portfolio::midnight_after(now_ms) <= u64::MAX),
{
    let day: u128 = portfolio::DAY_MS as u128;
    (now_ms as u128 / day + 1) * day <= u64::MAX as u128
}

// ---------------------------------------------------------------------------
// Portfolios
// ---------------------------------------------------------------------------

/// Capital only ever adds up.
proof fn lemma_locked_grows(positions: Seq<portfolio::PositionView>, i: int, n: int)
    requires
        0 <= i <= n <= positions.len(),
        forall|k: int| 0 <= k < positions.len() ==> (#[trigger] positions[k]).cost_cents >= 0,
    ensures
        0 <= portfolio::locked(positions, None, i) <= portfolio::locked(positions, None, n),
    decreases n,
{
    if n > 0 {
        lemma_locked_grows(
            positions,
            if i < n {
                i
            } else {
                i - 1
            },
            n - 1,
        );
    }
}

/// Whether a portfolio holds together: nothing negative, and all of its capital
/// countable.
pub fn is_sound(portfolio: &Portfolio) -> (yes: bool)
    ensures
        yes == portfolio@.wf(),
{
    let ghost positions = portfolio@.positions;
    if portfolio.capital_available_cents < 0 {
        return false;
    }
    let mut j: usize = 0;
    while j < portfolio.positions.len()
        invariant
            j <= portfolio.positions@.len(),
            positions == portfolio@.positions,
            forall|k: int| 0 <= k < j ==> (#[trigger] positions[k]).cost_cents >= 0,
        decreases portfolio.positions@.len() - j,
    {
        assert(positions[j as int] == portfolio.positions@[j as int]@);
        if portfolio.positions[j].cost_cents < 0 {
            return false;
        }
        j = j + 1;
    }
    let mut total: i128 = portfolio.capital_available_cents as i128;
    let mut i: usize = 0;
    while i < portfolio.positions.len()
        invariant
            i <= portfolio.positions@.len(),
            positions == portfolio@.positions,
            forall|k: int| 0 <= k < positions.len() ==> (#[trigger] positions[k]).cost_cents >= 0,
            total == portfolio.capital_available_cents + portfolio::locked(
                positions,
                None,
                i as int,
            ),
            portfolio.capital_available_cents >= 0,
            0 <= total <= i64::MAX,
        decreases portfolio.positions@.len() - i,
    {
        assert(positions[i as int] == portfolio.positions@[i as int]@);
        let position: &Position = &portfolio.positions[i];
        if !position.resolved {
            total = total + position.cost_cents as i128;
        }
        if total > i64::MAX as i128 {
            proof {
                lemma_locked_grows(positions, i + 1, positions.len() as int);
            }
            return false;
        }
        i = i + 1;
    }
    true
}

/// Whether a portfolio can be summed up.
pub fn can_sum(portfolio: &Portfolio) -> (yes: bool)
    ensures
        yes == (portfolio::locked_fits(portfolio@.positions, None) && portfolio::unrealized_fits(
            portfolio@.positions,
        )),
{
    let ghost positions = portfolio@.positions;
    let mut locked: i64 = 0;
    let mut unrealized: i64 = 0;
    let mut i: usize = 0;
    while i < portfolio.positions.len()
        invariant
            i <= portfolio.positions@.len(),
            positions == portfolio@.positions,
            locked == portfolio::locked(positions, None, i as int),
            unrealized == portfolio::unrealized(positions, i as int),
            forall|n: int|
                0 <= n <= i ==> fees::fits(#[trigger] portfolio::locked(positions, None, n)),
            forall|n: int|
                0 <= n <= i ==> fees::fits(#[trigger] portfolio::unrealized(positions, n)),
        decreases portfolio.positions@.len() - i,
    {
        assert(positions[i as int] == portfolio.positions@[i as int]@);
        let position: &Position = &portfolio.positions[i];
        let mut more: i128 = locked as i128;
        let mut gain: i128 = unrealized as i128;
        if !position.resolved {
            more = more + position.cost_cents as i128;
            gain = gain + position.pnl_unrealized_cents as i128;
        }
        assert(more == portfolio::locked(positions, None, i + 1));
        assert(gain == portfolio::unrealized(positions, i + 1));
        if !within(more) || !within(gain) {
            return false;
        }
        locked = more as i64;
        unrealized = gain as i64;
        i = i + 1;
    }
    true
}

/// What a leg could be sold for.
fn liquidation<B: BookSource>(leg: &PositionLeg, books: &B) -> (value: i128)
    ensures
        value == leg@.liquidation(books.quotes()),
{
    let book: &Book = match books.book(leg.contract_id) {
        Some(book) => book,
        None => return 0,
    };
    let best: Option<Level> = match leg.side {
        Side::Yes => book.best_bid(),
        Side::No => book.best_no_bid(),
    };
    match best {
        Some(level) => {
            let quantity: i64 = leg.quantity;
            let price: Cents = level.price;
            proof {
                assert(i128::MIN <= quantity * price <= i128::MAX) by (nonlinear_arith)
                    requires
                        i64::MIN <= quantity <= i64::MAX,
                        i64::MIN <= price <= i64::MAX,
                ;
            }
            quantity as i128 * price as i128
        },
        None => 0,
    }
}

/// Whether a position can be marked.
fn position_marks<B: BookSource>(position: &Position, books: &B) -> (yes: bool)
    ensures
        yes == position@.marks(books.quotes()),
{
    let ghost legs = position@.legs;
    let ghost quotes = books.quotes();
    let mut value: i64 = 0;
    let mut i: usize = 0;
    while i < position.legs.len()
        invariant
            i <= position.legs@.len(),
            legs == position@.legs,
            quotes == books.quotes(),
            value == portfolio::value_of(legs, quotes, i as int),
            forall|k: int| 0 <= k < i ==> fees::fits((#[trigger] legs[k]).liquidation(quotes)),
            forall|n: int|
                0 <= n <= i ==> fees::fits(#[trigger] portfolio::value_of(legs, quotes, n)),
        decreases position.legs@.len() - i,
    {
        assert(legs[i as int] == position.legs@[i as int]@);
        let one: i128 = liquidation(&position.legs[i], books);
        if !within(one) {
            return false;
        }
        let next: i128 = value as i128 + one;
        assert(next == portfolio::value_of(legs, quotes, i + 1));
        if !within(next) {
            return false;
        }
        value = next as i64;
        i = i + 1;
    }
    within(value as i128 - position.cost_cents as i128)
}

/// Whether every open position can be marked against the books.
pub fn can_mark<B: BookSource>(portfolio: &Portfolio, books: &B) -> (yes: bool)
    ensures
        yes == portfolio@.marks(books.quotes()),
{
    let ghost positions = portfolio@.positions;
    let ghost quotes = books.quotes();
    let mut i: usize = 0;
    while i < portfolio.positions.len()
        invariant
            i <= portfolio.positions@.len(),
            positions == portfolio@.positions,
            quotes == books.quotes(),
            forall|k: int|
                0 <= k < i && !positions[k].resolved ==> (#[trigger] positions[k]).marks(quotes),
        decreases portfolio.positions@.len() - i,
    {
        assert(positions[i as int] == portfolio.positions@[i as int]@);
        if !portfolio.positions[i].resolved && !position_marks(&portfolio.positions[i], books) {
            return false;
        }
        i = i + 1;
    }
    true
}

// ---------------------------------------------------------------------------
// Orders and fills
// ---------------------------------------------------------------------------

/// Whether the Kalshi schedule can charge a trade.
fn kalshi_charges(schedule: &KalshiFees, contract: ContractId, price: Cents, qty: i64) -> (yes: bool)
    requires
        0 <= price <= 100,
    ensures
        yes == schedule.chargeable(contract, price as int, qty as int),
{
    let numer: i64 = schedule.multiplier_numer;
    let first: i128 = 7 * qty as i128;
    if !within(first) {
        return false;
    }
    proof {
        assert(-(100 * 0x1_0000_0000_0000_0000) <= first * price <= 100 * 0x1_0000_0000_0000_0000)
            by (nonlinear_arith)
            requires
                i64::MIN <= first <= i64::MAX,
                0 <= price <= 100,
        ;
    }
    let second: i128 = first * price as i128;
    if !within(second) {
        return false;
    }
    let rest: i128 = 100 - price as i128;
    proof {
        assert(-(100 * 0x1_0000_0000_0000_0000) <= second * rest <= 100 * 0x1_0000_0000_0000_0000)
            by (nonlinear_arith)
            requires
                i64::MIN <= second <= i64::MAX,
                0 <= rest <= 100,
        ;
    }
    let third: i128 = second * rest;
    if !within(third) {
        return false;
    }
    proof {
        assert(i64::MIN * i64::MAX <= third * numer <= i64::MIN * i64::MIN) by (nonlinear_arith)
            requires
                i64::MIN <= third <= i64::MAX,
                i64::MIN <= numer <= i64::MAX,
        ;
        assert(schedule.numerator(price as int, qty as int) == third * numer);
    }
    let whole: i128 = third * numer as i128;
    let denom: i128 = 10_000 * schedule.multiplier_denom as i128;
    if !within(whole) || !within(denom) || denom == 0 || !within(whole + denom) || !within(
        whole + denom - 1,
    ) {
        return false;
    }
    proof {
        lemma_quotient_fits(whole + denom - 1, denom as int);
    }
    true
}

/// A quotient is no larger than what is divided, save by one less than nothing.
proof fn lemma_quotient_fits(a: int, b: int)
    requires
        fees::fits(a),
        b >= 1 || b <= -2,
    ensures
        fees::fits(fees::truncated_quotient(a, b)),
{
    if b >= 1 {
        fees::lemma_truncated_fits(a, b);
    } else if a >= 0 {
        assert(0 <= a / (-b) <= a) by (nonlinear_arith)
            requires
                a >= 0,
                -b >= 2,
        ;
    } else {
        assert(0 <= (-a) / (-b) <= (-a) / 2) by (nonlinear_arith)
            requires
                a < 0,
                -b >= 2,
        ;
    }
}

/// Whether a venue's schedule can charge a trade. Polymarket's always can, at a
/// price that a book holds.
fn schedule_charges(schedule: &VenueFees<'_>, contract: ContractId, price: Cents, qty: i64) -> (yes:
    bool)
    requires
        0 <= price <= 100,
    ensures
        yes == schedule.chargeable(contract, price as int, qty as int),
{
    match schedule {
        VenueFees::Kalshi(fees) => kalshi_charges(fees, contract, price, qty),
        VenueFees::Polymarket(fees) => {
            proof {
                let rate = fees::basis_points(fees.category_spec(contract));
                let first = qty * rate;
                assert(-(700 * 0x1_0000_0000_0000_0000) <= first <= 700 * 0x1_0000_0000_0000_0000)
                    by (nonlinear_arith)
                    requires
                        first == qty * rate,
                        i64::MIN <= qty <= i64::MAX,
                        0 <= rate <= 700,
                ;
                let second = first * price;
                assert(-(70_000 * 0x1_0000_0000_0000_0000) <= second <= 70_000
                    * 0x1_0000_0000_0000_0000) by (nonlinear_arith)
                    requires
                        second == first * price,
                        -(700 * 0x1_0000_0000_0000_0000) <= first <= 700 * 0x1_0000_0000_0000_0000,
                        0 <= price <= 100,
                ;
                let third = second * (100 - price);
                assert(-(7_000_000 * 0x1_0000_0000_0000_0000) <= third <= 7_000_000
                    * 0x1_0000_0000_0000_0000) by (nonlinear_arith)
                    requires
                        third == second * (100 - price),
                        -(70_000 * 0x1_0000_0000_0000_0000) <= second <= 70_000
                            * 0x1_0000_0000_0000_0000,
                        0 <= price <= 100,
                ;
            }
            true
        },
    }
}

/// Whether every fee of a walked ladder, and their running sum, can be counted.
fn levies(schedule: &VenueFees<'_>, contract: ContractId, ladder: &[Level], qty: i64) -> (yes: bool)
    requires
        costing::ladder_wf(ladder@),
        qty >= 0,
    ensures
        yes == costing::levies_fit(schedule, contract, ladder@, qty as int, 0),
{
    let ghost asked = costing::levies_fit(schedule, contract, ladder@, qty as int, 0);
    let mut remaining: i64 = qty;
    let mut fee: i64 = 0;
    let mut i: usize = 0;
    assert(ladder@.subrange(0, ladder@.len() as int) =~= ladder@);
    while i < ladder.len() && remaining != 0
        invariant
            i <= ladder@.len(),
            costing::ladder_wf(ladder@),
            remaining >= 0,
            asked == costing::levies_fit(schedule, contract, ladder@, qty as int, 0),
            asked == costing::levies_fit(
                schedule,
                contract,
                ladder@.subrange(i as int, ladder@.len() as int),
                remaining as int,
                fee as int,
            ),
        decreases ladder@.len() - i,
    {
        let level: Level = ladder[i];
        let take: i64 = if remaining <= level.size {
            remaining
        } else {
            level.size
        };
        proof {
            let left = ladder@.subrange(i as int, ladder@.len() as int);
            assert(left[0] == level);
            assert(left.subrange(1, left.len() as int) =~= ladder@.subrange(
                i + 1,
                ladder@.len() as int,
            ));
        }
        if !schedule_charges(schedule, contract, level.price, take) {
            return false;
        }
        let next: i128 = fee as i128 + schedule.taker_fee(contract, level.price, take) as i128;
        if !within(next) {
            return false;
        }
        fee = next as i64;
        remaining = remaining - take;
        i = i + 1;
    }
    true
}

/// Whether a paper client can price an order against the book it holds.
pub fn can_place(models: &FeeModels, order: &NewOrder, client: &PaperOrderClient) -> (yes: bool)
    requires
        client@.fees == *models,
    ensures
        yes == client@.placeable(order@),
{
    let book: &Book = match client.book(order.contract_id) {
        Some(book) => book,
        None => return true,
    };
    let (consumed, filled, cost): (Vec<Level>, i64, i128) = costing::walk_depth(
        book,
        order.outcome,
        order.quantity,
    );
    if cost > i64::MAX as i128 {
        return false;
    }
    let taken: i64 = if order.quantity > 0 {
        filled
    } else {
        0
    };
    let schedule: VenueFees<'_> = models.for_venue(book.venue);
    levies(&schedule, book.contract_id, consumed.as_slice(), taken)
}

/// Whether the books can be kept on a trade that was filled, by a portfolio with
/// so much capital left.
pub fn can_settle(result: &ExecutionResult, capital_cents: Cents) -> (yes: bool)
    ensures
        yes == ({
            let fills = atomic::fills_view(result.fills@);
            engine::fills_fit(fills) && fees::fits(
                capital_cents - atomic::total_cost(fills, fills.len() as int),
            )
        }),
{
    let ghost fills = atomic::fills_view(result.fills@);
    let mut cost: i64 = 0;
    let mut paid: i64 = 0;
    let mut i: usize = 0;
    while i < result.fills.len()
        invariant
            i <= result.fills@.len(),
            fills == atomic::fills_view(result.fills@),
            cost == atomic::total_cost(fills, i as int),
            paid == engine::fees_paid(fills, i as int),
            forall|k: int| 0 <= k < i ==> (#[trigger] fills[k]).cost_fits(),
            forall|n: int| 0 <= n <= i ==> fees::fits(#[trigger] atomic::total_cost(fills, n)),
            forall|n: int| 0 <= n <= i ==> fees::fits(#[trigger] engine::fees_paid(fills, n)),
        decreases result.fills@.len() - i,
    {
        assert(fills[i as int] == result.fills@[i as int]@);
        let fill: &OrderFill = &result.fills[i];
        let quantity: i64 = fill.quantity_filled;
        let price: Cents = fill.average_price;
        proof {
            assert(i64::MIN * i64::MAX <= quantity * price <= i64::MIN * i64::MIN)
                by (nonlinear_arith)
                requires
                    i64::MIN <= quantity <= i64::MAX,
                    i64::MIN <= price <= i64::MAX,
            ;
        }
        let premium: i128 = quantity as i128 * price as i128;
        let whole: i128 = premium + fill.fee_cents as i128;
        if !within(premium) || !within(whole) {
            assert(!fills[i as int].cost_fits());
            return false;
        }
        let next: i128 = cost as i128 + whole;
        let charged: i128 = paid as i128 + fill.fee_cents as i128;
        assert(next == atomic::total_cost(fills, i + 1));
        assert(charged == engine::fees_paid(fills, i + 1));
        if !within(next) || !within(charged) {
            return false;
        }
        cost = next as i64;
        paid = charged as i64;
        i = i + 1;
    }
    within(capital_cents as i128 - cost as i128)
}

// ---------------------------------------------------------------------------
// Counters
// ---------------------------------------------------------------------------

/// Whether a parser's counters can take one more frame.
pub fn has_room(counted: &Metrics) -> (yes: bool)
    ensures
        yes == counted@.has_room(),
{
    let mut i: usize = 0;
    while i < 7
        invariant
            i <= 7,
            counted@.latency_buckets == counted.latency_buckets@,
            counted.latency_buckets@.len() == 7,
            forall|k: int| 0 <= k < i ==> #[trigger] counted@.latency_buckets[k] < u64::MAX,
        decreases 7 - i,
    {
        if counted.latency_buckets[i] == u64::MAX {
            return false;
        }
        i = i + 1;
    }
    counted.parse_errors < u64::MAX && counted.parse_attempts < u64::MAX
        && counted.unknown_messages < u64::MAX && counted.snapshot_sides_absent < u64::MAX - 1
        && counted.sub_cent_prices < u64::MAX && counted.clock_skew_samples < u64::MAX
}

/// Whether the latency samples of a feed can be counted.
pub fn can_rank(counted: &Metrics) -> (yes: bool)
    ensures
        yes == (counted@.samples() <= u64::MAX),
{
    let mut total: u128 = 0;
    let mut i: usize = 0;
    while i < 7
        invariant
            i <= 7,
            counted@.latency_buckets == counted.latency_buckets@,
            counted.latency_buckets@.len() == 7,
            total == metrics::samples_in(counted@.latency_buckets, i as int),
            total <= i * u64::MAX,
        decreases 7 - i,
    {
        total = total + counted.latency_buckets[i] as u128;
        i = i + 1;
    }
    total <= u64::MAX as u128
}

/// Whether the rejections of a solver can be summed up.
pub fn can_total(counted: &SolverMetrics) -> (yes: bool)
    ensures
        yes == (counted.total() <= u64::MAX),
{
    let total: u128 = counted.rejected_not_live as u128 + counted.rejected_stale as u128
        + counted.rejected_missing_book as u128 + counted.rejected_unverified as u128
        + counted.rejected_no_depth as u128 + counted.rejected_fees_exceed_gap as u128
        + counted.rejected_below_min_edge as u128 + counted.rejected_below_min_return as u128
        + counted.rejected_payoff_not_guaranteed as u128;
    total <= u64::MAX as u128
}

} // verus!
