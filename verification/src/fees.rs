//! Venue fee schedules, in integer cents.
use vstd::prelude::*;
use std::collections::HashMap;
use crate::text;
use crate::types::{Cents, ContractId, Venue};

pub mod laws;

verus! {

/// Division that drops the fraction, which is what machine division does.
pub open spec fn truncated_quotient(a: int, b: int) -> int {
    if a == 0 {
        0
    } else if a > 0 && b > 0 {
        a / b
    } else if a < 0 && b < 0 {
        (-a) / (-b)
    } else if a < 0 {
        -((-a) / b)
    } else {
        -(a / (-b))
    }
}

/// A quotient by a positive divisor is no larger than what is divided.
pub proof fn lemma_truncated_fits(a: int, b: int)
    requires
        fits(a),
        b >= 1,
    ensures
        fits(truncated_quotient(a, b)),
{
    if a >= 0 {
        assert(0 <= a / b <= a) by (nonlinear_arith)
            requires
                a >= 0,
                b >= 1,
        ;
    } else {
        assert(0 <= (-a) / b <= -a) by (nonlinear_arith)
            requires
                a < 0,
                b >= 1,
        ;
    }
}

/// The smallest integer that is at least `n / d`.
pub open spec fn ceiling(n: int, d: int) -> int {
    -((-n) / d)
}

pub open spec fn fits(n: int) -> bool {
    i64::MIN <= n <= i64::MAX
}

pub trait FeeModel {
    /// What the venue charges.
    spec fn fee(&self, contract: ContractId, price: int, qty: int) -> int;

    /// Where the schedule's own arithmetic stays inside machine integers.
    spec fn chargeable(&self, contract: ContractId, price: int, qty: int) -> bool;

    /// Taker fee for `qty` contracts filled at `price`.
    ///
    /// The contract is passed because a venue may price the same trade
    /// differently per market: Polymarket sets a rate per market, so a model
    /// that saw only price and size could not charge the right one. Kalshi's
    /// schedule is uniform and ignores it.
    fn taker_fee(&self, contract: ContractId, price: Cents, qty: i64) -> (fee: Cents)
        requires
            self.chargeable(contract, price as int, qty as int),
        ensures
            fee == self.fee(contract, price as int, qty as int),
    ;
}

#[derive(Clone, Copy, Debug)]
pub struct KalshiFees {
    pub multiplier_numer: i64,
    pub multiplier_denom: i64,
}

impl KalshiFees {
    /// The exact fee is this over [`KalshiFees::denominator`].
    pub open spec fn numerator(self, price: int, qty: int) -> int {
        7 * qty * price * (100 - price) * self.multiplier_numer
    }

    pub open spec fn denominator(self) -> int {
        10_000 * self.multiplier_denom
    }

    /// A multiplier that scales the schedule rather than reversing it.
    pub open spec fn wf(self) -> bool {
        self.multiplier_numer >= 0 && self.multiplier_denom > 0
    }
}

impl Default for KalshiFees {
    fn default() -> (fees: Self)
        ensures
            fees.multiplier_numer == 1,
            fees.multiplier_denom == 1,
    {
        KalshiFees { multiplier_numer: 1, multiplier_denom: 1 }
    }
}

impl FeeModel for KalshiFees {
    open spec fn fee(&self, contract: ContractId, price: int, qty: int) -> int {
        truncated_quotient(
            self.numerator(price, qty) + self.denominator() - 1,
            self.denominator(),
        )
    }

    open spec fn chargeable(&self, contract: ContractId, price: int, qty: int) -> bool {
        &&& fits(7 * qty)
        &&& fits(7 * qty * price)
        &&& fits(100 - price)
        &&& fits(7 * qty * price * (100 - price))
        &&& fits(self.numerator(price, qty))
        &&& fits(self.denominator())
        &&& self.denominator() != 0
        &&& fits(self.numerator(price, qty) + self.denominator())
        &&& fits(self.numerator(price, qty) + self.denominator() - 1)
        &&& fits(self.fee(contract, price, qty))
    }

    /// Uniform across markets, so the contract is not consulted.
    fn taker_fee(&self, contract: ContractId, price: Cents, qty: i64) -> (fee: Cents) {
        let numer: i64 = 7 * qty * price * (100 - price) * self.multiplier_numer;
        let denom: i64 = 10_000 * self.multiplier_denom;
        let quotient: Option<i64> = (numer + denom - 1).checked_div(denom);
        quotient.unwrap()
    }
}

/// What the venue charges a taker, by market category.
///
/// Rates are the venue's published figures, held in basis points so the fee
/// stays integer arithmetic. Makers are never charged.
#[derive(Clone, Copy, Debug, PartialEq, Eq, Structural)]
pub enum FeeCategory {
    Crypto,
    Sports,
    PoliticsFinance,
    Zero,
}

/// The category that a `feeType` names; an unfamiliar one is the dearest.
pub open spec fn category_of(fee_type: Seq<char>) -> FeeCategory {
    if fee_type == "zero_fees"@ {
        FeeCategory::Zero
    } else if text::starts_with(fee_type, "crypto"@) {
        FeeCategory::Crypto
    } else if text::starts_with(fee_type, "sports"@) {
        FeeCategory::Sports
    } else if text::starts_with(fee_type, "politics"@) || text::starts_with(
        fee_type,
        "finance"@,
    ) {
        FeeCategory::PoliticsFinance
    } else {
        FeeCategory::Crypto
    }
}

/// The published taker rate in basis points.
pub open spec fn basis_points(category: FeeCategory) -> int {
    match category {
        FeeCategory::Crypto => 700,
        FeeCategory::Sports => 500,
        FeeCategory::PoliticsFinance => 400,
        FeeCategory::Zero => 0,
    }
}

impl FeeCategory {
    /// Map Gamma's `feeType` onto a category.
    ///
    /// An unrecognized value is treated as the most expensive category rather
    /// than as free. A new `feeType` is far more likely to be a category this
    /// list has not caught up with than a market that stopped charging, and
    /// guessing "free" is the one error that manufactures edge.
    pub fn from_fee_type(fee_type: &str) -> (category: Self)
        ensures
            category == category_of(fee_type@),
    {
        if text::same(fee_type, "zero_fees") {
            FeeCategory::Zero
        } else if text::has_prefix(fee_type, "crypto") {
            FeeCategory::Crypto
        } else if text::has_prefix(fee_type, "sports") {
            FeeCategory::Sports
        } else if text::has_prefix(fee_type, "politics") || text::has_prefix(fee_type, "finance") {
            FeeCategory::PoliticsFinance
        } else {
            FeeCategory::Crypto
        }
    }

    pub fn rate_bps(self) -> (rate: i64)
        ensures
            rate == basis_points(self),
            0 <= rate <= 700,
    {
        match self {
            FeeCategory::Crypto => 700,
            FeeCategory::Sports => 500,
            FeeCategory::PoliticsFinance => 400,
            FeeCategory::Zero => 0,
        }
    }
}

/// Polymarket's taker schedule: `size * rate * p * (1 - p)`, per market.
///
/// The rate is not uniform across the venue. Gamma reports it per market as
/// `feeType`, so this holds one category per contract and falls back to the
/// most expensive when a contract has not been registered.
///
/// That fallback is the whole safety argument. Charging too much costs a missed
/// opportunity; charging too little invents edge that is not there and puts real
/// money behind it. An unregistered contract is an unknown, and the safe reading
/// of an unknown fee is the highest one the venue charges.
#[derive(Clone)]
pub struct PolymarketFees {
    by_contract: HashMap<u32, FeeCategory>,
}

impl View for PolymarketFees {
    type V = Map<u32, FeeCategory>;

    closed spec fn view(&self) -> Map<u32, FeeCategory> {
        self.by_contract@
    }
}

impl PolymarketFees {
    pub open spec fn category_spec(&self, contract: ContractId) -> FeeCategory {
        if self@.contains_key(contract.0) {
            self@[contract.0]
        } else {
            FeeCategory::Crypto
        }
    }

    /// The exact fee is this over one million.
    pub open spec fn numerator(&self, contract: ContractId, price: int, qty: int) -> int {
        qty * basis_points(self.category_spec(contract)) * price * (100 - price)
    }

    /// Record the category a market charges, as discovery learns it.
    pub fn register(&mut self, contract: ContractId, fee_type: &str)
        ensures
            final(self)@ == old(self)@.insert(contract.0, category_of(fee_type@)),
    {
        self.register_category(contract, FeeCategory::from_fee_type(fee_type));
    }

    /// Record a category that was read elsewhere.
    pub fn register_category(&mut self, contract: ContractId, category: FeeCategory)
        ensures
            final(self)@ == old(self)@.insert(contract.0, category),
    {
        broadcast use vstd::std_specs::hash::group_hash_axioms;

        self.by_contract.insert(contract.0, category);
    }

    /// The category charged on this contract, or the conservative default.
    pub fn category(&self, contract: ContractId) -> (category: FeeCategory)
        ensures
            category == self.category_spec(contract),
    {
        broadcast use vstd::std_specs::hash::group_hash_axioms;

        match self.by_contract.get(&contract.0) {
            Some(category) => *category,
            None => FeeCategory::Crypto,
        }
    }

    pub fn is_registered(&self, contract: ContractId) -> (registered: bool)
        ensures
            registered == self@.contains_key(contract.0),
    {
        broadcast use vstd::std_specs::hash::group_hash_axioms;

        self.by_contract.contains_key(&contract.0)
    }
}

impl Default for PolymarketFees {
    fn default() -> (fees: Self)
        ensures
            fees@ == Map::<u32, FeeCategory>::empty(),
    {
        PolymarketFees { by_contract: HashMap::new() }
    }
}

impl FeeModel for PolymarketFees {
    open spec fn fee(&self, contract: ContractId, price: int, qty: int) -> int {
        let cents = ceiling(self.numerator(contract, price, qty), 1_000_000);
        if fits(cents) {
            cents
        } else {
            i64::MAX as int
        }
    }

    open spec fn chargeable(&self, contract: ContractId, price: int, qty: int) -> bool {
        &&& fits(100 - price)
        &&& i128::MIN <= qty * basis_points(self.category_spec(contract)) * price <= i128::MAX
        &&& i128::MIN < self.numerator(contract, price, qty) <= i128::MAX
    }

    /// `ceil(qty * rate * p * (1 - p))` in cents, with `p` the price in dollars.
    ///
    /// Written over integers, like the Kalshi schedule beside it: a binary
    /// fraction here would let two ways of reaching the same fill round
    /// differently, and splitting an order must never save money.
    fn taker_fee(&self, contract: ContractId, price: Cents, qty: i64) -> (fee: Cents) {
        let rate_bps: i64 = self.category(contract).rate_bps();
        proof {
            assert(i128::MIN <= qty * rate_bps <= i128::MAX) by (nonlinear_arith)
                requires
                    0 <= rate_bps <= 700,
                    i64::MIN <= qty <= i64::MAX,
            ;
        }
        // Dollars: qty * (bps / 10_000) * (price / 100) * ((100 - price) / 100).
        // Cents is a hundred times that, so the divisor loses one factor of 100.
        let numer: i128 = qty as i128 * rate_bps as i128 * price as i128 * (100 - price) as i128;
        let cents: i128 = round_up(numer, 1_000_000);
        if cents > i64::MAX as i128 || cents < i64::MIN as i128 {
            i64::MAX
        } else {
            cents as i64
        }
    }
}

/// The smallest integer that is at least `n / d`.
fn round_up(n: i128, d: i128) -> (q: i128)
    requires
        d > 1,
        n > i128::MIN,
    ensures
        q == ceiling(n as int, d as int),
{
    if n > 0 {
        let q: i128 = (n - 1) / d + 1;
        proof {
            let k: int = (n - 1) as int / d as int;
            assert((k + 1) * d >= n && k * d < n) by (nonlinear_arith)
                requires
                    d > 1,
                    k == (n - 1) as int / d as int,
            ;
            lemma_ceiling(n as int, d as int, q as int);
        }
        q
    } else {
        let q: i128 = -((-n) / d);
        q
    }
}

/// The ceiling is the only integer that covers the quotient by less than one.
pub proof fn lemma_ceiling(n: int, d: int, q: int)
    requires
        d > 0,
        q * d >= n,
        (q - 1) * d < n,
    ensures
        ceiling(n, d) == q,
{
    assert((-n) / d == -q) by (nonlinear_arith)
        requires
            d > 0,
            q * d >= n,
            (q - 1) * d < n,
    ;
}

/// The ceiling covers the quotient, by less than one.
pub proof fn lemma_ceiling_covers(n: int, d: int)
    requires
        d > 0,
    ensures
        ceiling(n, d) * d >= n,
        (ceiling(n, d) - 1) * d < n,
{
    let q = (-n) / d;
    assert(q * d <= -n && -n < (q + 1) * d) by (nonlinear_arith)
        requires
            d > 0,
            q == (-n) / d,
    ;
    assert((-q) * d == -(q * d)) by (nonlinear_arith);
    assert((-q - 1) * d == -((q + 1) * d)) by (nonlinear_arith);
}

/// The fee schedule for every venue the engine can trade, selected by [`Venue`].
///
/// A multi-venue position is only correctly costed if each leg is charged by its
/// own venue, so the solver never takes a single fee model; it takes this and
/// looks the leg's venue up.
#[derive(Clone)]
pub struct FeeModels {
    pub kalshi: KalshiFees,
    pub polymarket: PolymarketFees,
}

impl Default for FeeModels {
    fn default() -> (models: Self)
        ensures
            models.kalshi == (KalshiFees { multiplier_numer: 1, multiplier_denom: 1 }),
            models.polymarket@ == Map::<u32, FeeCategory>::empty(),
    {
        FeeModels { kalshi: KalshiFees::default(), polymarket: PolymarketFees::default() }
    }
}

/// One venue's schedule out of a [`FeeModels`].
pub enum VenueFees<'a> {
    Kalshi(&'a KalshiFees),
    Polymarket(&'a PolymarketFees),
}

impl<'a> FeeModel for VenueFees<'a> {
    open spec fn fee(&self, contract: ContractId, price: int, qty: int) -> int {
        match self {
            VenueFees::Kalshi(fees) => fees.fee(contract, price, qty),
            VenueFees::Polymarket(fees) => fees.fee(contract, price, qty),
        }
    }

    open spec fn chargeable(&self, contract: ContractId, price: int, qty: int) -> bool {
        match self {
            VenueFees::Kalshi(fees) => fees.chargeable(contract, price, qty),
            VenueFees::Polymarket(fees) => fees.chargeable(contract, price, qty),
        }
    }

    fn taker_fee(&self, contract: ContractId, price: Cents, qty: i64) -> (fee: Cents) {
        match self {
            VenueFees::Kalshi(fees) => fees.taker_fee(contract, price, qty),
            VenueFees::Polymarket(fees) => fees.taker_fee(contract, price, qty),
        }
    }
}

impl FeeModels {
    pub open spec fn venue_fees(&self, venue: Venue) -> VenueFees<'_> {
        match venue {
            Venue::Kalshi => VenueFees::Kalshi(&self.kalshi),
            Venue::Polymarket => VenueFees::Polymarket(&self.polymarket),
        }
    }

    pub fn for_venue(&self, venue: Venue) -> (fees: VenueFees<'_>)
        ensures
            fees == self.venue_fees(venue),
    {
        match venue {
            Venue::Kalshi => VenueFees::Kalshi(&self.kalshi),
            Venue::Polymarket => VenueFees::Polymarket(&self.polymarket),
        }
    }
}

// ---------------------------------------------------------------------------
// Laws
// ---------------------------------------------------------------------------

proof fn lemma_product_nonneg(a: int, b: int)
    requires
        a >= 0,
        b >= 0,
    ensures
        a * b >= 0,
{
    assert(a * b >= 0) by (nonlinear_arith)
        requires
            a >= 0,
            b >= 0,
    ;
}

/// A larger amount never rounds up to less.
proof fn lemma_ceiling_monotone(a: int, b: int, d: int)
    requires
        a <= b,
        d > 0,
    ensures
        ceiling(a, d) <= ceiling(b, d),
{
    lemma_ceiling_covers(a, d);
    lemma_ceiling_covers(b, d);
    let x = ceiling(a, d);
    let y = ceiling(b, d);
    assert(x <= y) by (nonlinear_arith)
        requires
            (x - 1) * d < a,
            y * d >= b,
            a <= b,
            d > 0,
    ;
}

/// Rounding up the parts is never less than rounding up the whole.
proof fn lemma_ceiling_subadditive(a: int, b: int, d: int)
    requires
        d > 0,
    ensures
        ceiling(a + b, d) <= ceiling(a, d) + ceiling(b, d),
{
    lemma_ceiling_covers(a, d);
    lemma_ceiling_covers(b, d);
    lemma_ceiling_covers(a + b, d);
    let x = ceiling(a, d);
    let y = ceiling(b, d);
    let z = ceiling(a + b, d);
    assert(z <= x + y) by (nonlinear_arith)
        requires
            (z - 1) * d < a + b,
            x * d >= a,
            y * d >= b,
            d > 0,
    ;
}

/// The Kalshi numerator as quantity times a rate that depends on price alone.
proof fn lemma_kalshi_numerator(fees: KalshiFees, price: int, qty: int)
    ensures
        fees.numerator(price, qty) == qty * fees.numerator(price, 1),
        fees.wf() && 0 <= price <= 100 ==> 0 <= fees.numerator(price, 1)
            <= 17_500 * fees.multiplier_numer,
{
    let m = fees.multiplier_numer as int;
    assert(7 * qty * price * (100 - price) * m == qty * (7 * 1 * price * (100 - price) * m))
        by (nonlinear_arith);
    if fees.wf() && 0 <= price <= 100 {
        assert(0 <= price * (100 - price) <= 2_500) by (nonlinear_arith)
            requires
                0 <= price <= 100,
        ;
        let c = price * (100 - price);
        assert(7 * 1 * price * (100 - price) * m == 7 * c * m) by (nonlinear_arith)
            requires
                c == price * (100 - price),
        ;
        assert(0 <= 7 * c * m <= 17_500 * m) by (nonlinear_arith)
            requires
                0 <= c <= 2_500,
                m >= 0,
        ;
    }
}

/// The Kalshi fee is the smallest whole cent that covers the exact schedule.
pub proof fn kalshi_fee_is_the_smallest_covering_cent(
    fees: KalshiFees,
    contract: ContractId,
    price: int,
    qty: int,
)
    requires
        fees.wf(),
        0 <= price <= 100,
        qty >= 0,
    ensures
        fees.fee(contract, price, qty) == ceiling(
            fees.numerator(price, qty),
            fees.denominator(),
        ),
        fees.fee(contract, price, qty) * fees.denominator() >= fees.numerator(price, qty),
        fees.fee(contract, price, qty) * fees.denominator() - fees.numerator(price, qty)
            < fees.denominator(),
        fees.fee(contract, price, qty) >= 0,
{
    let n = fees.numerator(price, qty);
    let d = fees.denominator();
    lemma_kalshi_numerator(fees, price, qty);
    lemma_product_nonneg(qty, fees.numerator(price, 1));
    let q = (n + d - 1) / d;
    assert(q * d >= n && (q - 1) * d < n && q >= 0) by (nonlinear_arith)
        requires
            q == (n + d - 1) / d,
            n >= 0,
            d > 0,
    ;
    lemma_ceiling(n, d, q);
    assert((q - 1) * d == q * d - d) by (nonlinear_arith);
}

/// The schedule charges the two sides of a match alike: a fee at a price is the
/// fee at its complement.
pub proof fn fee_is_symmetric_in_price(
    models: &FeeModels,
    venue: Venue,
    contract: ContractId,
    price: int,
    qty: int,
)
    ensures
        models.venue_fees(venue).fee(contract, price, qty) == models.venue_fees(venue).fee(
            contract,
            100 - price,
            qty,
        ),
{
    let m = models.kalshi.multiplier_numer as int;
    assert(7 * qty * price * (100 - price) * m == 7 * qty * (100 - price) * (100 - (100 - price))
        * m) by (nonlinear_arith);
    let r = basis_points(models.polymarket.category_spec(contract));
    assert(qty * r * price * (100 - price) == qty * r * (100 - price) * (100 - (100 - price)))
        by (nonlinear_arith);
}

proof fn lemma_polymarket_numerator(
    fees: &PolymarketFees,
    contract: ContractId,
    price: int,
    qty: int,
)
    ensures
        fees.numerator(contract, price, qty) == qty * fees.numerator(contract, price, 1),
        0 <= price <= 100 ==> 0 <= fees.numerator(contract, price, 1) <= 1_750_000,
{
    let r = basis_points(fees.category_spec(contract));
    assert(qty * r * price * (100 - price) == qty * (1 * r * price * (100 - price)))
        by (nonlinear_arith);
    if 0 <= price <= 100 {
        let c = price * (100 - price);
        assert(0 <= c <= 2_500) by (nonlinear_arith)
            requires
                0 <= price <= 100,
                c == price * (100 - price),
        ;
        assert(1 * r * price * (100 - price) == r * c) by (nonlinear_arith)
            requires
                c == price * (100 - price),
        ;
        assert(0 <= r * c <= 1_750_000) by (nonlinear_arith)
            requires
                0 <= c <= 2_500,
                0 <= r <= 700,
        ;
    }
}

/// Every schedule's fee, seen as one rounding of `qty` times a fixed rate.
pub proof fn lemma_fee_shape(
    models: &FeeModels,
    venue: Venue,
    contract: ContractId,
    price: int,
    qty: int,
) -> (rate: (int, int))
    requires
        models.kalshi.wf(),
        0 <= price <= 100,
        qty >= 0,
    ensures
        rate.0 >= 0,
        rate.1 > 0,
        rate == fee_rate(models, venue, contract, price),
        ceiling(qty * rate.0, rate.1) >= 0,
        models.venue_fees(venue).fee(contract, price, qty) == (if venue == Venue::Polymarket
            && ceiling(qty * rate.0, rate.1) > i64::MAX {
            i64::MAX as int
        } else {
            ceiling(qty * rate.0, rate.1)
        }),
{
    let rate = fee_rate(models, venue, contract, price);
    match venue {
        Venue::Kalshi => {
            lemma_kalshi_numerator(models.kalshi, price, qty);
            kalshi_fee_is_the_smallest_covering_cent(models.kalshi, contract, price, qty);
        },
        Venue::Polymarket => {
            lemma_polymarket_numerator(&models.polymarket, contract, price, qty);
            lemma_product_nonneg(qty, rate.0);
            lemma_ceiling_monotone(0, qty * rate.0, rate.1);
            assert(ceiling(0, rate.1) == 0);
        },
    }
    rate
}

/// The exact fee per contract at a price, as a fraction.
pub open spec fn fee_rate(models: &FeeModels, venue: Venue, contract: ContractId, price: int) -> (
    int,
    int,
) {
    match venue {
        Venue::Kalshi => (models.kalshi.numerator(price, 1), models.kalshi.denominator()),
        Venue::Polymarket => (models.polymarket.numerator(contract, price, 1), 1_000_000),
    }
}

/// Fees never fall with quantity.
pub proof fn fees_never_fall_with_quantity(
    models: &FeeModels,
    venue: Venue,
    contract: ContractId,
    price: int,
    qty: int,
    more: int,
)
    requires
        models.kalshi.wf(),
        0 <= price <= 100,
        0 <= qty <= more,
    ensures
        0 <= models.venue_fees(venue).fee(contract, price, qty) <= models.venue_fees(venue).fee(
            contract,
            price,
            more,
        ),
{
    let a = lemma_fee_shape(models, venue, contract, price, qty);
    let b = lemma_fee_shape(models, venue, contract, price, more);
    assert(qty * a.0 <= more * a.0) by (nonlinear_arith)
        requires
            0 <= qty <= more,
            a.0 >= 0,
    ;
    lemma_ceiling_monotone(qty * a.0, more * a.0, a.1);
}

/// Splitting an order never beats batching it.
pub proof fn splitting_an_order_never_saves(
    models: &FeeModels,
    venue: Venue,
    contract: ContractId,
    price: int,
    first: int,
    second: int,
)
    requires
        models.kalshi.wf(),
        0 <= price <= 100,
        first >= 0,
        second >= 0,
    ensures
        models.venue_fees(venue).fee(contract, price, first + second) <= models.venue_fees(
            venue,
        ).fee(contract, price, first) + models.venue_fees(venue).fee(contract, price, second),
{
    let a = lemma_fee_shape(models, venue, contract, price, first);
    let b = lemma_fee_shape(models, venue, contract, price, second);
    let c = lemma_fee_shape(models, venue, contract, price, first + second);
    assert((first + second) * a.0 == first * a.0 + second * a.0) by (nonlinear_arith);
    lemma_ceiling_subadditive(first * a.0, second * a.0, a.1);
}

/// Not knowing a market's category never makes a trade cheaper than knowing it.
pub proof fn an_unregistered_market_is_charged_the_dearest(
    unknown: &PolymarketFees,
    known: &PolymarketFees,
    contract: ContractId,
    price: int,
    qty: int,
)
    requires
        !unknown@.contains_key(contract.0),
        0 <= price <= 100,
        qty >= 0,
    ensures
        known.fee(contract, price, qty) <= unknown.fee(contract, price, qty),
{
    let r = basis_points(known.category_spec(contract));
    let c = price * (100 - price);
    assert(c >= 0) by (nonlinear_arith)
        requires
            0 <= price <= 100,
            c == price * (100 - price),
    ;
    lemma_product_nonneg(qty, c);
    assert(qty * r * price * (100 - price) == r * (qty * c)) by (nonlinear_arith)
        requires
            c == price * (100 - price),
    ;
    assert(qty * 700 * price * (100 - price) == 700 * (qty * c)) by (nonlinear_arith)
        requires
            c == price * (100 - price),
    ;
    let n = qty * c;
    assert(0 <= r * n <= 700 * n) by (nonlinear_arith)
        requires
            n >= 0,
            0 <= r <= 700,
    ;
    lemma_ceiling_monotone(r * n, 700 * n, 1_000_000);
    lemma_ceiling_monotone(0, r * n, 1_000_000);
    assert(ceiling(0, 1_000_000) == 0);
}

/// No schedule charges more than this many cents a contract.
pub open spec fn dearest_per_contract(models: &FeeModels) -> int {
    if models.kalshi.multiplier_numer > 1 {
        2 * models.kalshi.multiplier_numer
    } else {
        2
    }
}

/// Machine integers hold the fee of every trade of up to `most` contracts.
pub open spec fn charges_up_to(models: &FeeModels, most: int) -> bool {
    &&& models.kalshi.wf()
    &&& fits(2 * models.kalshi.denominator())
    &&& fits(2 * (17_500 * (most * models.kalshi.multiplier_numer)))
    &&& fits(17_500 * most)
    &&& fits(most * dearest_per_contract(models))
}

/// Up to that size every fee can be computed, and is bounded per contract.
pub proof fn lemma_fee_bounded(
    models: &FeeModels,
    venue: Venue,
    contract: ContractId,
    price: int,
    qty: int,
    most: int,
)
    requires
        charges_up_to(models, most),
        0 <= price <= 100,
        0 <= qty <= most,
    ensures
        models.venue_fees(venue).chargeable(contract, price, qty),
        0 <= models.venue_fees(venue).fee(contract, price, qty) <= qty * dearest_per_contract(
            models,
        ),
{
    let rate = lemma_fee_shape(models, venue, contract, price, qty);
    let k = dearest_per_contract(models);
    let m = models.kalshi.multiplier_numer as int;
    assert(rate.0 <= k * rate.1) by {
        match venue {
            Venue::Kalshi => {
                lemma_kalshi_numerator(models.kalshi, price, qty);
                let d = models.kalshi.multiplier_denom as int;
                assert(17_500 * m <= k * (10_000 * d)) by (nonlinear_arith)
                    requires
                        d >= 1,
                        m >= 0,
                        k >= 2 * m,
                        k >= 0,
                ;
            },
            Venue::Polymarket => {
                lemma_polymarket_numerator(&models.polymarket, contract, price, qty);
                assert(1_750_000 <= k * 1_000_000);
            },
        }
    }
    assert(qty * rate.0 <= (qty * k) * rate.1) by (nonlinear_arith)
        requires
            rate.0 <= k * rate.1,
            qty >= 0,
    ;
    let bound = qty * k;
    assert(ceiling(bound * rate.1, rate.1) == bound) by {
        assert((bound - 1) * rate.1 < bound * rate.1) by (nonlinear_arith)
            requires
                rate.1 > 0,
        ;
        lemma_ceiling(bound * rate.1, rate.1, bound);
    }
    lemma_ceiling_monotone(qty * rate.0, bound * rate.1, rate.1);
    assert(bound <= most * k) by (nonlinear_arith)
        requires
            bound == qty * k,
            qty <= most,
            k >= 0,
    ;
    assert(0 <= qty * m <= most * m) by (nonlinear_arith)
        requires
            0 <= qty <= most,
            m >= 0,
    ;
    match venue {
        Venue::Kalshi => {
            lemma_kalshi_chargeable(models.kalshi, contract, price, qty, most);
        },
        Venue::Polymarket => {
            let r = basis_points(models.polymarket.category_spec(contract));
            assert(0 <= qty * r * price <= 700 * most * 100) by (nonlinear_arith)
                requires
                    0 <= qty <= most,
                    0 <= r <= 700,
                    0 <= price <= 100,
            ;
            assert(0 <= (qty * r * price) * (100 - price) <= 700 * most * 10_000)
                by (nonlinear_arith)
                requires
                    0 <= qty * r * price <= 700 * most * 100,
                    0 <= price <= 100,
            ;
        },
    }
}

proof fn lemma_kalshi_chargeable(
    fees: KalshiFees,
    contract: ContractId,
    price: int,
    qty: int,
    most: int,
)
    requires
        fees.wf(),
        fits(2 * fees.denominator()),
        fits(2 * (17_500 * (most * fees.multiplier_numer))),
        fits(17_500 * most),
        0 <= price <= 100,
        0 <= qty <= most,
        0 <= fees.fee(contract, price, qty) <= i64::MAX,
    ensures
        fees.chargeable(contract, price, qty),
{
    let m = fees.multiplier_numer as int;
    let c = price * (100 - price);
    assert(0 <= c <= 2_500) by (nonlinear_arith)
        requires
            0 <= price <= 100,
            c == price * (100 - price),
    ;
    assert(0 <= 7 * qty * price <= 700 * most) by (nonlinear_arith)
        requires
            0 <= qty <= most,
            0 <= price <= 100,
    ;
    assert(7 * qty * price * (100 - price) == 7 * (qty * c)) by (nonlinear_arith)
        requires
            c == price * (100 - price),
    ;
    assert(0 <= qty * c <= 2_500 * qty) by (nonlinear_arith)
        requires
            0 <= c <= 2_500,
            qty >= 0,
    ;
    if m == 0 {
        assert(7 * qty * price * (100 - price) * m == 0) by (nonlinear_arith)
            requires
                m == 0,
        ;
    } else {
        assert(most <= most * m) by (nonlinear_arith)
            requires
                most >= 0,
                m >= 1,
        ;
        assert(0 <= 7 * (qty * c) * m <= 17_500 * (most * m)) by (nonlinear_arith)
            requires
                0 <= qty * c <= 2_500 * qty,
                0 <= qty <= most,
                m >= 1,
        ;
    }
}

} // verus!
