//! Scan of one mutually exclusive and exhaustive set of books.
//!
//! Such a set must settle with exactly one leg paying $1. If every leg can be
//! bought for a combined total below 100 cents, the set is incoherent and the
//! difference is locked in regardless of which outcome occurs. This module turns
//! that observation into an executable, fee-aware, depth-aware signal, without
//! needing a registry.
//!
//! All money is integer [`Cents`].
use vstd::prelude::*;
use crate::fees;
use crate::fees::{FeeModel, FeeModels};
use crate::solver::costing;
use crate::types::{Book, BookView, Cents, ContractId, Level, Venue};

pub mod laws;

verus! {

/// Result of consuming resting ask liquidity in a single book.
///
/// Depth matters as much as the top-of-book price: an apparent edge that only
/// exists for 3 contracts is not a trade. Capturing `filled` separately from
/// the requested size lets the caller discover the real executable size before
/// committing to any leg.
#[derive(Clone, Copy, Debug, PartialEq, Eq, Structural)]
pub struct Walk {
    /// Contracts actually obtainable, which may be less than requested.
    pub filled: i64,
    /// Total premium paid, as size times price summed across levels.
    pub cost: Cents,
    /// Total taker fee, rounded up once per level consumed.
    pub fee: Cents,
}

/// One venue-side fill that forms part of a combined position.
///
/// Legs are retained individually because execution is per venue and per
/// contract: the engine must be able to place, size, and later reconcile each
/// one on its own, and a post-mortem needs to know which leg moved.
#[derive(Clone, Copy, Debug, PartialEq, Eq, Structural)]
pub struct Leg {
    /// Venue this leg executes on.
    pub venue: Venue,
    /// Venue-scoped contract identifier.
    pub contract_id: ContractId,
    /// Contracts bought on this leg.
    pub qty: i64,
    /// Premium paid on this leg.
    pub cost: Cents,
    /// Taker fee charged on this leg.
    pub fee: Cents,
}

/// A fully priced, fully sized incoherence that is profitable after costs.
///
/// Every field is the post-fee, post-depth truth rather than a headline number,
/// so downstream ranking and risk checks never have to re-derive costs and
/// never disagree with each other about what the trade is worth.
#[derive(Clone, Debug, PartialEq)]
pub struct Opportunity {
    /// The individual fills that make up the position.
    pub legs: Vec<Leg>,
    /// Contracts held on every leg; the set only settles flat if legs match.
    pub qty: i64,
    /// Cash locked until resolution, which is what the return is measured on.
    pub capital: Cents,
    /// Payoff minus premium, before fees.
    pub gross: Cents,
    /// Total taker fees across all legs.
    pub fees: Cents,
    /// Profit actually realized at resolution.
    pub net: Cents,
}

/// What an [`Opportunity`] says.
#[verifier::ext_equal]
pub struct OpportunityView {
    pub legs: Seq<Leg>,
    pub qty: i64,
    pub capital: Cents,
    pub gross: Cents,
    pub fees: Cents,
    pub net: Cents,
}

impl View for Opportunity {
    type V = OpportunityView;

    open spec fn view(&self) -> OpportunityView {
        OpportunityView {
            legs: self.legs@,
            qty: self.qty,
            capital: self.capital,
            gross: self.gross,
            fees: self.fees,
            net: self.net,
        }
    }
}

/// Contracts obtainable from one book.
pub open spec fn obtainable(book: BookView, want: int) -> int {
    costing::depth(costing::walked(book.asks(), want))
}

/// Premium for `q` contracts of one book.
pub open spec fn cost_of(book: BookView, q: int) -> int {
    costing::premium(book.asks(), costing::max(q, 0))
}

/// Fees for `q` contracts of one book.
pub open spec fn fee_of<F: FeeModel>(fees: &F, book: BookView, q: int) -> int {
    costing::levied(fees, book.contract_id, book.asks(), costing::max(q, 0))
}

/// Machine integers hold what walking one book computes.
pub open spec fn walk_fits<F: FeeModel>(fees: &F, book: BookView, q: int) -> bool {
    &&& cost_of(book, q) <= i64::MAX
    &&& costing::levies_fit(fees, book.contract_id, book.asks(), costing::max(q, 0), 0)
}

/// Walk the ask side from cheapest upward, buying up to `want` contracts.
///
/// Fees are accumulated per level rather than once on the blended average.
/// Venue fee schedules round up per fill, so per-level rounding reproduces what
/// the exchange actually charges and, where it differs, always overstates the
/// cost. Overstating cost can only suppress a marginal signal, never invent
/// one, which is the direction an arbitrage engine must err in.
pub fn walk_asks<F: FeeModel>(book: &Book, want: i64, fees: &F) -> (walk: Walk)
    requires
        walk_fits(fees, book@, want as int),
    ensures
        walk.filled == obtainable(book@, want as int),
        walk.cost == cost_of(book@, want as int),
        walk.fee == fee_of(fees, book@, want as int),
        0 <= walk.filled <= costing::max(want as int, 0),
{
    proof {
        crate::types::lemma_offered(book@.no, 100);
        costing::lemma_walked(book@.asks(), want as int);
    }
    let asks: Vec<Level> = book.asks();
    let filled: i64 = obtain(asks.as_slice(), want);
    proof {
        costing::lemma_premiums_fit(asks@, costing::max(want as int, 0), 0);
    }
    let cost: i64 = costing::total_cost_cents(asks.as_slice(), want);
    let fee: i64 = costing::apply_fees_per_level(asks.as_slice(), book.contract_id, want, fees);
    Walk { filled, cost, fee }
}

/// Contracts that buying up to `want` from a ladder takes.
fn obtain(ladder: &[Level], want: i64) -> (filled: i64)
    requires
        costing::ladder_wf(ladder@),
    ensures
        filled == costing::depth(costing::walked(ladder@, want as int)),
{
    let mut filled: i64 = 0;
    if want <= 0 {
        return filled;
    }
    let mut i: usize = 0;
    let ghost answer = costing::depth(costing::walked(ladder@, want as int));
    assert(ladder@.subrange(0, ladder@.len() as int) =~= ladder@);
    while i < ladder.len() && filled < want
        invariant
            i <= ladder@.len(),
            costing::ladder_wf(ladder@),
            0 <= filled <= want,
            filled + costing::depth(
                costing::walked(ladder@.subrange(i as int, ladder@.len() as int), want - filled),
            ) == answer,
        decreases ladder@.len() - i,
    {
        let remaining: i64 = want - filled;
        let take: i64 = if remaining <= ladder[i].size {
            remaining
        } else {
            ladder[i].size
        };
        proof {
            let left = ladder@.subrange(i as int, ladder@.len() as int);
            let rest = ladder@.subrange(i + 1, ladder@.len() as int);
            assert(left[0] == ladder@[i as int]);
            assert(left.subrange(1, left.len() as int) =~= rest);
            let step = Level { price: left[0].price, size: take };
            assert(seq![step].drop_last() =~= Seq::<Level>::empty());
            assert(costing::depth(Seq::<Level>::empty()) == 0);
            costing::lemma_depth_concat(seq![step], costing::walked(rest, remaining - take));
        }
        filled = filled + take;
        i = i + 1;
    }
    proof {
        let left = ladder@.subrange(i as int, ladder@.len() as int);
        assert(costing::walked(left, want - filled) =~= Seq::<Level>::empty());
    }
    filled
}

pub open spec fn books_view(books: Seq<Book>) -> Seq<BookView> {
    books.map_values(|book: Book| book@)
}

/// The thinnest leg among the first `n` books.
pub open spec fn common_size(books: Seq<BookView>, max_qty: int, n: int) -> int
    decreases n,
{
    if n <= 0 {
        max_qty
    } else {
        costing::min(common_size(books, max_qty, n - 1), obtainable(books[n - 1], max_qty))
    }
}

pub open spec fn set_cost(books: Seq<BookView>, q: int, n: int) -> int
    decreases n,
{
    if n <= 0 {
        0
    } else {
        set_cost(books, q, n - 1) + cost_of(books[n - 1], q)
    }
}

pub open spec fn set_fees<F: FeeModel>(fees: &F, books: Seq<BookView>, q: int, n: int) -> int
    decreases n,
{
    if n <= 0 {
        0
    } else {
        set_fees(fees, books, q, n - 1) + fee_of(fees, books[n - 1], q)
    }
}

pub open spec fn set_legs<F: FeeModel>(fees: &F, books: Seq<BookView>, q: int) -> Seq<Leg> {
    Seq::new(
        books.len(),
        |i: int|
            Leg {
                venue: books[i].venue,
                contract_id: books[i].contract_id,
                qty: q as i64,
                cost: cost_of(books[i], q) as i64,
                fee: fee_of(fees, books[i], q) as i64,
            },
    )
}

/// What buying the set is worth, or nothing.
pub open spec fn scanned<F: FeeModel>(
    fees: &F,
    books: Seq<BookView>,
    max_qty: int,
    now_ms: u64,
    max_age_ms: u64,
) -> Option<OpportunityView> {
    let n = books.len() as int;
    let q = common_size(books, max_qty, n);
    let cost = set_cost(books, q, n);
    let fee = set_fees(fees, books, q, n);
    let gross = q * 100 - cost;
    let net = gross - fee;
    if n < 2 || max_qty <= 0 {
        None
    } else if exists|i: int|
        0 <= i < n && !(#[trigger] books[i]).is_fresh(now_ms, max_age_ms) {
        None
    } else if q <= 0 || net <= 0 {
        None
    } else {
        Some(
            OpportunityView {
                legs: set_legs(fees, books, q),
                qty: q as i64,
                capital: (cost + fee) as i64,
                gross: gross as i64,
                fees: fee as i64,
                net: net as i64,
            },
        )
    }
}

/// Machine integers hold every walk and every running sum of the scan.
pub open spec fn scan_fits<F: FeeModel>(fees: &F, books: Seq<BookView>, max_qty: int) -> bool {
    &&& max_qty * 100 <= i64::MAX
    &&& forall|i: int, q: int|
        0 <= i < books.len() && 0 <= q <= max_qty ==> #[trigger] walk_fits(fees, books[i], q)
    &&& forall|n: int, q: int|
        0 <= n <= books.len() && 0 <= q <= max_qty ==> {
            &&& i64::MIN <= #[trigger] set_fees(fees, books, q, n) <= i64::MAX
            &&& set_cost(books, q, n) <= i64::MAX
            &&& i64::MIN <= set_cost(books, q, n) + set_fees(fees, books, q, n) <= i64::MAX
            &&& i64::MIN <= q * 100 - set_cost(books, q, n) - set_fees(fees, books, q, n)
                <= i64::MAX
        }
}

proof fn lemma_set_cost(books: Seq<BookView>, q: int, n: int)
    requires
        0 <= n <= books.len(),
        q >= 0,
        forall|i: int| 0 <= i < books.len() ==> (#[trigger] books[i]).no.len() == 101,
    ensures
        set_cost(books, q, n) >= 0,
    decreases n,
{
    if n > 0 {
        lemma_set_cost(books, q, n - 1);
        crate::types::lemma_offered(books[n - 1].no, 100);
        costing::lemma_premium_bounds(books[n - 1].asks(), q);
    }
}

/// Scan a mutually exclusive and exhaustive set for a risk-free underpricing.
///
/// Returns `Some` only when the whole set can be bought at a size that clears a
/// strictly positive net profit after real depth and real fees. Any doubt, too
/// few legs, a stale quote, insufficient depth, a non-positive net, produces
/// `None`, because a false negative costs an opportunity while a false positive
/// costs money.
pub fn scan_exhaustive_set<F: FeeModel>(
    books: &[Book],
    fees: &F,
    max_qty: i64,
    now_ms: u64,
    max_age_ms: u64,
) -> (found: Option<Opportunity>)
    requires
        scan_fits(fees, books_view(books@), max_qty as int),
    ensures
        match found {
            Some(trade) => scanned(
                fees,
                books_view(books@),
                max_qty as int,
                now_ms,
                max_age_ms,
            ) == Some(trade@),
            None => scanned(
                fees,
                books_view(books@),
                max_qty as int,
                now_ms,
                max_age_ms,
            ) is None,
        },
{
    let ghost all = books_view(books@);
    if books.len() < 2 || max_qty <= 0 {
        return None;
    }
    // A single stale leg invalidates the entire set: the arithmetic only holds
    // if every price is simultaneously live, and acting on a quote that has
    // already moved is how a "risk-free" position becomes a directional loss.

    let mut i: usize = 0;
    while i < books.len()
        invariant
            i <= books@.len(),
            all == books_view(books@),
            forall|k: int| 0 <= k < i ==> (#[trigger] all[k]).is_fresh(now_ms, max_age_ms),
        decreases books@.len() - i,
    {
        assert(all[i as int] == books@[i as int]@);
        if !books[i].is_fresh(now_ms, max_age_ms) {
            return None;
        }
        i = i + 1;
    }
    // Size the position to the thinnest leg. Legs must be equal size or the set
    // no longer settles flat, so surplus depth elsewhere is unusable.

    let mut qty: i64 = max_qty;
    let mut i: usize = 0;
    while i < books.len()
        invariant
            i <= books@.len(),
            all == books_view(books@),
            max_qty > 0,
            scan_fits(fees, all, max_qty as int),
            qty == common_size(all, max_qty as int, i as int),
            0 <= qty <= max_qty,
        decreases books@.len() - i,
    {
        assert(all[i as int] == books@[i as int]@);
        assert(walk_fits(fees, all[i as int], max_qty as int));
        let fill: i64 = walk_asks(&books[i], max_qty, fees).filled;
        if fill < qty {
            qty = fill;
        }
        i = i + 1;
    }
    if qty <= 0 {
        return None;
    }
    let mut legs: Vec<Leg> = Vec::new();
    let mut total_cost: i64 = 0;
    let mut total_fees: i64 = 0;
    let mut i: usize = 0;
    proof {
        assert forall|k: int| 0 <= k < all.len() implies (#[trigger] all[k]).no.len() == 101 by {
            assert(all[k] == books@[k]@);
        }
    }
    while i < books.len()
        invariant
            i <= books@.len(),
            all == books_view(books@),
            scan_fits(fees, all, max_qty as int),
            0 < qty <= max_qty,
            forall|k: int| 0 <= k < all.len() ==> (#[trigger] all[k]).no.len() == 101,
            total_cost == set_cost(all, qty as int, i as int),
            total_fees == set_fees(fees, all, qty as int, i as int),
            legs@.len() == i,
            forall|k: int|
                0 <= k < i ==> #[trigger] legs@[k] == set_legs(fees, all, qty as int)[k],
        decreases books@.len() - i,
    {
        let book: &Book = &books[i];
        proof {
            assert(all[i as int] == book@);
            assert(walk_fits(fees, all[i as int], qty as int));
            lemma_set_cost(all, qty as int, i as int);
            lemma_set_cost(all, qty as int, i + 1);
            assert(set_fees(fees, all, qty as int, i + 1) == total_fees + fee_of(
                fees,
                book@,
                qty as int,
            ));
        }
        let walk: Walk = walk_asks(book, qty, fees);
        total_cost = total_cost + walk.cost;
        total_fees = total_fees + walk.fee;
        legs.push(
            Leg {
                venue: book.venue,
                contract_id: book.contract_id,
                qty,
                cost: walk.cost,
                fee: walk.fee,
            },
        );
        i = i + 1;
    }
    proof {
        lemma_set_cost(all, qty as int, all.len() as int);
        assert(i64::MIN <= set_fees(fees, all, qty as int, all.len() as int) <= i64::MAX);
        assert(legs@ =~= set_legs(fees, all, qty as int));
    }
    // Exactly one outcome in an exhaustive set resolves yes, paying $1 per
    // contract, so the payoff is known with certainty up front.
    let payoff: i64 = qty * 100;
    let gross: i64 = payoff - total_cost;
    let net: i64 = gross - total_fees;
    if net <= 0 {
        return None;
    }
    Some(
        Opportunity {
            legs,
            qty,
            capital: total_cost + total_fees,
            gross,
            fees: total_fees,
            net,
        },
    )
}

proof fn lemma_set_bounds(
    models: &FeeModels,
    venue: Venue,
    books: Seq<BookView>,
    q: int,
    most: int,
    n: int,
)
    requires
        0 <= n <= books.len(),
        0 <= q <= most,
        most <= i64::MAX,
        fees::charges_up_to(models, most),
        most * fees::dearest_per_contract(models) <= i64::MAX,
        forall|i: int| 0 <= i < books.len() ==> (#[trigger] books[i]).no.len() == 101,
    ensures
        0 <= set_cost(books, q, n) <= n * (100 * q),
        0 <= set_fees(&models.venue_fees(venue), books, q, n) <= n * (q
            * fees::dearest_per_contract(models)),
    decreases n,
{
    let k = fees::dearest_per_contract(models);
    if n > 0 {
        lemma_set_bounds(models, venue, books, q, most, n - 1);
        let book = books[n - 1];
        crate::types::lemma_offered(book.no, 100);
        costing::lemma_premium_bounds(book.asks(), q);
        assert(q * k <= most * k) by (nonlinear_arith)
            requires
                q <= most,
                k >= 0,
        ;
        costing::lemma_levied_bounds(models, venue, book.contract_id, book.asks(), q, most, 0);
        assert(n * (100 * q) == (n - 1) * (100 * q) + 100 * q) by (nonlinear_arith);
        assert(n * (q * k) == (n - 1) * (q * k) + q * k) by (nonlinear_arith);
    } else {
        assert(0 * (100 * q) == 0);
        assert(0 * (q * k) == 0);
    }
}

/// One venue's schedule can scan any set whose largest position fits.
pub proof fn what_can_be_sized_can_be_scanned(models: &FeeModels, venue: Venue, books: Seq<BookView>, max_qty: int)
    requires
        costing::sizing_fits(models, max_qty, books.len() as int),
        forall|i: int| 0 <= i < books.len() ==> (#[trigger] books[i]).no.len() == 101,
    ensures
        scan_fits(&models.venue_fees(venue), books, max_qty),
{
    let fees_of = models.venue_fees(venue);
    let most = costing::max(max_qty, 0);
    let k = fees::dearest_per_contract(models);
    costing::lemma_sizing(models, max_qty, books.len() as int, 0, 0);
    assert forall|i: int, q: int| 0 <= i < books.len() && 0 <= q <= max_qty implies
        #[trigger] walk_fits(&fees_of, books[i], q) by {
        crate::types::lemma_offered(books[i].no, 100);
        costing::lemma_premium_bounds(books[i].asks(), q);
        assert(q * k <= most * k) by (nonlinear_arith)
            requires
                q <= most,
                k >= 0,
        ;
        costing::lemma_levied_bounds(
            models,
            venue,
            books[i].contract_id,
            books[i].asks(),
            q,
            most,
            0,
        );
    }
    assert forall|n: int, q: int| 0 <= n <= books.len() && 0 <= q <= max_qty implies {
        &&& i64::MIN <= #[trigger] set_fees(&fees_of, books, q, n) <= i64::MAX
        &&& set_cost(books, q, n) <= i64::MAX
        &&& i64::MIN <= set_cost(books, q, n) + set_fees(&fees_of, books, q, n) <= i64::MAX
        &&& i64::MIN <= q * 100 - set_cost(books, q, n) - set_fees(&fees_of, books, q, n)
            <= i64::MAX
    } by {
        lemma_set_bounds(models, venue, books, q, most, n);
        costing::lemma_sizing(models, max_qty, books.len() as int, n, q);
    }
}

} // verus!
