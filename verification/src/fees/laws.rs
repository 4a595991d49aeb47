//! What the venues charge, as their schedules print it.
use vstd::prelude::*;
use crate::fees;
use crate::fees::{FeeCategory, FeeModel, FeeModels, KalshiFees, PolymarketFees};
use crate::types::{ContractId, Venue};

verus! {

/// Kalshi charges seven per cent of the variance of the trade, times the
/// multiplier, rounded up to the next cent: as many cents as cover that and not
/// one more.
pub proof fn kalshi_charges_seven_per_cent_of_the_variance(
    fees: KalshiFees,
    contract: ContractId,
    price: int,
    qty: int,
)
    requires
        fees.multiplier_numer >= 0,
        fees.multiplier_denom > 0,
        0 <= price <= 100,
        qty >= 0,
    ensures
        ({
            let fee = fees.fee(contract, price, qty);
            let owed = 7 * qty * price * (100 - price) * fees.multiplier_numer;
            let unit = 10_000 * fees.multiplier_denom;
            &&& fee * unit >= owed
            &&& (fee - 1) * unit < owed
        }),
{
    fees::kalshi_fee_is_the_smallest_covering_cent(fees, contract, price, qty);
    let fee = fees.fee(contract, price, qty);
    let unit = 10_000 * fees.multiplier_denom;
    assert((fee - 1) * unit == fee * unit - unit) by (nonlinear_arith);
}

/// The rate of a Polymarket category, in basis points of the variance.
pub open spec fn is_rate(category: FeeCategory, rate: int) -> bool {
    match category {
        FeeCategory::Crypto => rate == 700,
        FeeCategory::Sports => rate == 500,
        FeeCategory::PoliticsFinance => rate == 400,
        FeeCategory::Zero => rate == 0,
    }
}

/// Polymarket charges the rate of the market's category, as crypto where the
/// category is not known, rounded up to the next cent.
pub proof fn polymarket_charges_the_rate_of_the_category(
    fees: &PolymarketFees,
    contract: ContractId,
    price: int,
    qty: int,
    rate: int,
)
    requires
        0 <= price <= 100,
        qty >= 0,
        is_rate(
            if fees@.contains_key(contract.0) {
                fees@[contract.0]
            } else {
                FeeCategory::Crypto
            },
            rate,
        ),
    ensures
        ({
            let fee = fees.fee(contract, price, qty);
            let owed = qty * rate * price * (100 - price);
            &&& (fee - 1) * 1_000_000 < owed
            &&& fee * 1_000_000 >= owed || fee == i64::MAX
            &&& fee <= i64::MAX
        }),
{
    let owed = qty * rate * price * (100 - price);
    assert(owed >= 0) by (nonlinear_arith)
        requires
            owed == qty * rate * price * (100 - price),
            qty >= 0,
            rate >= 0,
            0 <= price <= 100,
    ;
    fees::lemma_ceiling_covers(owed, 1_000_000);
}

/// Each venue charges by its own schedule.
pub proof fn a_venue_charges_its_own_schedule(
    models: &FeeModels,
    contract: ContractId,
    price: int,
    qty: int,
)
    ensures
        models.venue_fees(Venue::Kalshi).fee(contract, price, qty) == models.kalshi.fee(
            contract,
            price,
            qty,
        ),
        models.venue_fees(Venue::Polymarket).fee(contract, price, qty) == models.polymarket.fee(
            contract,
            price,
            qty,
        ),
{
}

/// A fee type that begins with a word.
pub open spec fn begins(fee_type: Seq<char>, word: Seq<char>) -> bool {
    fee_type.len() >= word.len() && forall|i: int|
        0 <= i < word.len() ==> #[trigger] fee_type[i] == word[i]
}

proof fn lemma_begins(fee_type: Seq<char>, word: Seq<char>)
    ensures
        begins(fee_type, word) == crate::text::starts_with(fee_type, word),
{
    if begins(fee_type, word) {
        assert(fee_type.subrange(0, word.len() as int) =~= word);
    }
    if crate::text::starts_with(fee_type, word) {
        assert forall|i: int| 0 <= i < word.len() implies #[trigger] fee_type[i] == word[i] by {
            assert(fee_type.subrange(0, word.len() as int)[i] == fee_type[i]);
        }
    }
}

/// A fee type is free only under its full name, belongs to sports, politics or
/// finance by how it begins, and is crypto in every other case.
pub proof fn a_fee_type_names_its_category(fee_type: Seq<char>)
    ensures
        ({
            let category = fees::category_of(fee_type);
            &&& category == FeeCategory::Zero <==> fee_type == "zero_fees"@
            &&& category == FeeCategory::Sports <==> begins(fee_type, "sports"@)
            &&& category == FeeCategory::PoliticsFinance <==> begins(fee_type, "politics"@)
                || begins(fee_type, "finance"@)
        }),
{
    lemma_begins(fee_type, "crypto"@);
    lemma_begins(fee_type, "sports"@);
    lemma_begins(fee_type, "politics"@);
    lemma_begins(fee_type, "finance"@);
    reveal_strlit("zero_fees");
    reveal_strlit("crypto");
    reveal_strlit("sports");
    reveal_strlit("politics");
    reveal_strlit("finance");
    if fee_type.len() > 0 {
        if begins(fee_type, "crypto"@) {
            assert(fee_type[0] == "crypto"@[0]);
        }
        if begins(fee_type, "sports"@) {
            assert(fee_type[0] == "sports"@[0]);
        }
        if begins(fee_type, "politics"@) {
            assert(fee_type[0] == "politics"@[0]);
        }
        if begins(fee_type, "finance"@) {
            assert(fee_type[0] == "finance"@[0]);
        }
        if fee_type == "zero_fees"@ {
            assert(fee_type[0] == "zero_fees"@[0]);
        }
    }
}

} // verus!
