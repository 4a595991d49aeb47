//! Order placement.
//!
//! # This is the only module that can lose money
//!
//! Everything upstream is arithmetic on a copy of the venue's book. Being wrong
//! there costs a missed opportunity. Being wrong here costs cash, so the
//! defaults are chosen accordingly: [`paper::PaperOrderClient`] is what runs
//! unless a human passes an explicit flag, and the arbitrage legs go out
//! fill-or-kill so the venue itself refuses to leave a half-built position.
//!
//! # Why fill-or-kill
//!
//! An arbitrage is one position, not two trades. Buying one leg and missing the
//! other converts a risk-free trade into a naked directional bet at a price
//! nobody chose. The usual answer — "cancel the other order" — does not work:
//! a *filled* order cannot be cancelled, only unwound by trading back out
//! across the spread. Fill-or-kill pushes that problem to the venue, which can
//! actually enforce it atomically. When a leg does escape anyway,
//! [`atomic::ExecutionError::Legged`] says so in those words and hands back the
//! fills that need unwinding, rather than reporting a tidy cancellation that
//! did not happen.
use vstd::prelude::*;
use crate::fees;
use crate::text;
use crate::types::{Cents, ContractId, Side};

pub mod atomic;
pub mod kalshi;
pub mod laws;
pub mod paper;

verus! {

/// Buying or selling an outcome.
///
/// Every leg the solver produces is a `Buy`: on these venues, selling the yes
/// outcome is the same trade as buying the no outcome, and the solver expresses
/// all four fast paths that way. `Sell` exists for unwinding a legged position.
#[derive(Clone, Copy, Debug, PartialEq, Eq, Structural)]
pub enum OrderAction {
    Buy,
    Sell,
}

/// How long an order may live before the venue kills it.
#[derive(Clone, Copy, Debug, PartialEq, Eq, Structural)]
pub enum TimeInForce {
    /// All of it, immediately, or none of it. The only safe choice for a leg of
    /// a multi-leg position.
    FillOrKill,
    /// Take what is available now, kill the rest. Leaves a partial position.
    ImmediateOrCancel,
}

#[derive(Clone, Debug, PartialEq)]
pub struct NewOrder {
    pub contract_id: ContractId,
    /// The venue's own identifier, needed because the venue has never heard of
    /// a [`ContractId`].
    pub ticker: String,
    /// Which outcome is being traded.
    pub outcome: Side,
    pub action: OrderAction,
    pub quantity: i64,
    /// Worst acceptable price per contract. A leg that would fill worse than
    /// the price the solver costed is not the trade that was approved.
    pub limit_price: Cents,
    pub time_in_force: TimeInForce,
    /// Idempotency key, so a retry after a timeout cannot double-place.
    pub client_order_id: String,
}

/// What a [`NewOrder`] asks.
#[verifier::ext_equal]
pub struct OrderView {
    pub contract_id: ContractId,
    pub ticker: Seq<char>,
    pub outcome: Side,
    pub action: OrderAction,
    pub quantity: i64,
    pub limit_price: Cents,
    pub time_in_force: TimeInForce,
    pub client_order_id: Seq<char>,
}

impl View for NewOrder {
    type V = OrderView;

    open spec fn view(&self) -> OrderView {
        OrderView {
            contract_id: self.contract_id,
            ticker: self.ticker@,
            outcome: self.outcome,
            action: self.action,
            quantity: self.quantity,
            limit_price: self.limit_price,
            time_in_force: self.time_in_force,
            client_order_id: self.client_order_id@,
        }
    }
}

#[derive(Debug, PartialEq)]
pub struct OrderFill {
    pub order_id: String,
    pub contract_id: ContractId,
    pub outcome: Side,
    pub action: OrderAction,
    pub quantity_filled: i64,
    pub average_price: Cents,
    pub fee_cents: Cents,
    pub timestamp_ms: u64,
}

/// What an [`OrderFill`] says.
#[verifier::ext_equal]
pub struct FillView {
    pub order_id: Seq<char>,
    pub contract_id: ContractId,
    pub outcome: Side,
    pub action: OrderAction,
    pub quantity_filled: i64,
    pub average_price: Cents,
    pub fee_cents: Cents,
    pub timestamp_ms: u64,
}

impl View for OrderFill {
    type V = FillView;

    open spec fn view(&self) -> FillView {
        FillView {
            order_id: self.order_id@,
            contract_id: self.contract_id,
            outcome: self.outcome,
            action: self.action,
            quantity_filled: self.quantity_filled,
            average_price: self.average_price,
            fee_cents: self.fee_cents,
            timestamp_ms: self.timestamp_ms,
        }
    }
}

impl FillView {
    /// Premium and fee together.
    pub open spec fn cost(self) -> int {
        self.quantity_filled * self.average_price + self.fee_cents
    }

    /// Machine integers hold the cost of this fill.
    pub open spec fn cost_fits(self) -> bool {
        fees::fits(self.quantity_filled * self.average_price) && fees::fits(self.cost())
    }
}

impl OrderFill {
    pub fn cost_cents(&self) -> (cost: Cents)
        requires
            self@.cost_fits(),
        ensures
            cost == self@.cost(),
    {
        self.quantity_filled * self.average_price + self.fee_cents
    }
}

impl Clone for OrderFill {
    fn clone(&self) -> (copy: Self)
        ensures
            copy@ == self@,
    {
        OrderFill {
            order_id: self.order_id.as_str().to_owned(),
            contract_id: self.contract_id,
            outcome: self.outcome,
            action: self.action,
            quantity_filled: self.quantity_filled,
            average_price: self.average_price,
            fee_cents: self.fee_cents,
            timestamp_ms: self.timestamp_ms,
        }
    }
}

#[derive(Clone, Debug, PartialEq)]
pub enum OrderError {
    /// The venue rejected the order outright.
    Rejected(String),
    /// Not enough resting size to fill the whole order, and the order was
    /// fill-or-kill, so nothing was done.
    Unfillable { wanted: i64, available: i64 },
    /// Network or transport failure. The order's fate is unknown.
    Transport(String),
}

/// What an [`OrderError`] says.
#[verifier::ext_equal]
pub enum OrderErrorView {
    Rejected(Seq<char>),
    Unfillable { wanted: i64, available: i64 },
    Transport(Seq<char>),
}

impl View for OrderError {
    type V = OrderErrorView;

    open spec fn view(&self) -> OrderErrorView {
        match self {
            OrderError::Rejected(why) => OrderErrorView::Rejected(why@),
            OrderError::Unfillable { wanted, available } => OrderErrorView::Unfillable {
                wanted: *wanted,
                available: *available,
            },
            OrderError::Transport(why) => OrderErrorView::Transport(why@),
        }
    }
}

/// The message of an [`OrderError`].
pub open spec fn order_error_message(error: OrderErrorView) -> Seq<char> {
    match error {
        OrderErrorView::Rejected(why) => "venue rejected the order: "@ + why,
        OrderErrorView::Unfillable { wanted, available } => "wanted "@ + text::signed_decimal(
            wanted as int,
        ) + " contracts, "@ + text::signed_decimal(available as int) + " available"@,
        OrderErrorView::Transport(why) => "transport failure, order state unknown: "@ + why,
    }
}

impl OrderError {
    /// What went wrong, for a log line.
    pub fn message(&self) -> (out: String)
        ensures
            out@ == order_error_message(self@),
    {
        match self {
            OrderError::Rejected(why) => {
                let mut out: String = String::from_str("venue rejected the order: ");
                out.append(why.as_str());
                out
            },
            OrderError::Unfillable { wanted, available } => {
                let mut out: String = String::from_str("wanted ");
                text::push_i64(&mut out, *wanted);
                out.append(" contracts, ");
                text::push_i64(&mut out, *available);
                out.append(" available");
                out
            },
            OrderError::Transport(why) => {
                let mut out: String = String::from_str("transport failure, order state unknown: ");
                out.append(why.as_str());
                out
            },
        }
    }
}

} // verus!
