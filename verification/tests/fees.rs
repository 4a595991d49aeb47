use sum100::fees::{FeeCategory, FeeModel, FeeModels, KalshiFees, PolymarketFees};
use sum100::types::{ContractId, Venue};

/// Kalshi's published taker schedule is ceil(0.07 * C * P * (1 - P)) with P
/// in dollars. These four points pin the integer arithmetic to the schedule
/// exactly, including the round-up, since an off-by-one cent in the fee is
/// enough to flip a marginal set from profitable to loss-making.
#[test]
fn kalshi_taker_fee_matches_published_schedule() {
    let fees = KalshiFees::default();
    assert_eq!(fees.taker_fee(ContractId(0), 4, 100), 27);
    assert_eq!(fees.taker_fee(ContractId(0), 62, 100), 165);
    assert_eq!(fees.taker_fee(ContractId(0), 29, 100), 145);
    assert_eq!(fees.taker_fee(ContractId(0), 3, 100), 21);
}

/// The venue's published formula is `C * rate * p * (1 - p)` in USDC, so a
/// hundred Crypto contracts at fifty cents cost `100 * 0.07 * 0.25` of a
/// dollar: 1.75, or 175 cents.
#[test]
fn polymarket_taker_fee_matches_the_published_formula() {
    let mut fees = PolymarketFees::default();
    fees.register(ContractId(0), "crypto_fees_v2");
    fees.register(ContractId(1), "sports_fees_v3");
    fees.register(ContractId(2), "politics_fees");
    fees.register(ContractId(3), "zero_fees");

    assert_eq!(fees.taker_fee(ContractId(0), 50, 100), 175);
    assert_eq!(fees.taker_fee(ContractId(1), 50, 100), 125);
    assert_eq!(fees.taker_fee(ContractId(2), 50, 100), 100);
    assert_eq!(fees.taker_fee(ContractId(3), 50, 100), 0);

    // The curve peaks at the midpoint and vanishes at both ends, which is
    // what makes a near-certain outcome cheap to take.
    assert_eq!(fees.taker_fee(ContractId(0), 10, 100), 63);
    assert_eq!(fees.taker_fee(ContractId(0), 90, 100), 63);
    assert_eq!(fees.taker_fee(ContractId(0), 0, 100), 0);
    assert_eq!(fees.taker_fee(ContractId(0), 100, 100), 0);
}

/// A market nobody registered is charged the most expensive category, not
/// nothing. Charging too much costs an opportunity; charging too little
/// puts money behind edge that does not exist.
#[test]
fn an_unregistered_market_is_charged_the_dearest_rate() {
    let fees = PolymarketFees::default();
    assert!(!fees.is_registered(ContractId(7)));
    assert_eq!(fees.category(ContractId(7)), FeeCategory::Crypto);
    assert_eq!(fees.taker_fee(ContractId(7), 50, 100), 175);

    // And an unfamiliar feeType is read the same way: a category this list
    // has not caught up with, rather than a market that stopped charging.
    let mut later = PolymarketFees::default();
    later.register(ContractId(7), "some_new_fees_v9");
    assert_eq!(later.category(ContractId(7)), FeeCategory::Crypto);
}

/// Registration is per market, so two contracts on one venue can be charged
/// differently in the same trade.
#[test]
fn rates_are_held_per_market_not_per_venue() {
    let mut fees = PolymarketFees::default();
    fees.register(ContractId(0), "zero_fees");
    fees.register(ContractId(1), "crypto_fees_v2");
    assert_eq!(fees.taker_fee(ContractId(0), 50, 100), 0);
    assert_eq!(fees.taker_fee(ContractId(1), 50, 100), 175);
}

/// The same property the Kalshi schedule holds: splitting a fill can never
/// cost less than taking it at once, or the solver could be talked into a
/// cheaper fee than it will actually be charged.
#[test]
fn polymarket_fees_never_fall_and_splitting_never_saves() {
    let mut fees = PolymarketFees::default();
    fees.register(ContractId(0), "crypto_fees_v2");
    for price in 0..=100 {
        let mut previous = fees.taker_fee(ContractId(0), price, 0);
        for qty in 0..40 {
            let whole = fees.taker_fee(ContractId(0), price, qty);
            assert!(whole >= previous, "fee fell at p={price} q={qty}");
            previous = whole;
            for split in 0..=qty {
                let parts = fees.taker_fee(ContractId(0), price, split)
                    + fees.taker_fee(ContractId(0), price, qty - split);
                assert!(parts >= whole, "splitting saved at p={price} q={qty}");
            }
        }
    }
}

/// Verify the defining inequalities of the ceiling, independently of the
/// implementation's add-denominator-minus-one division. This catches both
/// understating the fee and charging an unnecessary extra cent.
#[test]
fn every_tick_is_the_smallest_cent_covering_the_exact_fee() {
    for price in 1..=99 {
        for qty in [0, 1, 2, 7, 99, 100, 101, 499, 500] {
            for (numer, denom) in [(1, 1), (1, 2), (3, 2), (2, 1)] {
                let model = KalshiFees {
                    multiplier_numer: numer,
                    multiplier_denom: denom,
                };
                let fee = model.taker_fee(ContractId(0), price, qty);
                let exact_numerator = 7i128
                    * i128::from(qty)
                    * i128::from(price)
                    * i128::from(100 - price)
                    * i128::from(numer);
                let denominator = 10_000i128 * i128::from(denom);
                let charged = i128::from(fee) * denominator;
                assert!(
                    charged >= exact_numerator,
                    "undercharge at p={price}, q={qty}"
                );
                assert!(
                    charged - exact_numerator < denominator,
                    "excess cent at p={price}, q={qty}"
                );
                assert_eq!(fee, model.taker_fee(ContractId(0), 100 - price, qty));
            }
        }
    }
    assert_eq!(KalshiFees::default().taker_fee(ContractId(0), 0, 100), 0);
    assert_eq!(KalshiFees::default().taker_fee(ContractId(0), 100, 100), 0);
}

#[test]
fn each_venue_charges_by_its_own_schedule() {
    let models = FeeModels::default();
    // 0.07 * 100 * 0.62 * 0.38 = 1.6492 dollars on either schedule here, but
    // Kalshi rounds the schedule and Polymarket the unregistered default.
    assert_eq!(
        models.for_venue(Venue::Kalshi).taker_fee(ContractId(0), 62, 100),
        165
    );
    assert_eq!(
        models.for_venue(Venue::Polymarket).taker_fee(ContractId(0), 62, 100),
        165
    );
    assert_eq!(FeeCategory::from_fee_type("sports_x").rate_bps(), 500);
    assert_eq!(FeeCategory::from_fee_type("finance_x").rate_bps(), 400);
}
