//! What is said to Kalshi when an order is placed, and what its answer means.
//!
//! Building a request is not enough to trade: [`crate::engine`] refuses a live
//! client unless the operator passed the explicit opt-in flag, and the shipped
//! configuration is paper mode. Both gates exist because the cost of
//! accidentally going live is unbounded and the cost of accidentally staying on
//! paper is a rerun.
use vstd::prelude::*;
use serde_json::Value;
use crate::exec::{
    FillView, NewOrder, OrderAction, OrderError, OrderErrorView, OrderFill, OrderView, TimeInForce,
};
use crate::fees;
use crate::json::shape;
use crate::json::shape::{Shape, ShapeView};
use crate::json::{self, Json};
use crate::text;
use crate::types::{Cents, Side};

verus! {

pub const ORDERS_PATH: &'static str = "/trade-api/v2/portfolio/orders";

/// The body of an order placement.
#[derive(Clone, Debug, PartialEq)]
pub struct OrderRequest<'a> {
    pub ticker: &'a str,
    pub client_order_id: &'a str,
    /// Kalshi's own vocabulary: `action` is buy or sell, `side` is yes or no.
    pub action: &'a str,
    pub side: &'a str,
    pub count: i64,
    pub order_type: &'a str,
    pub time_in_force: &'a str,
    /// Kalshi prices the side you are trading, in whole cents.
    pub yes_price: Option<Cents>,
    pub no_price: Option<Cents>,
}

/// What an [`OrderRequest`] says.
#[verifier::ext_equal]
pub struct RequestView {
    pub ticker: Seq<char>,
    pub client_order_id: Seq<char>,
    pub action: Seq<char>,
    pub side: Seq<char>,
    pub count: i64,
    pub order_type: Seq<char>,
    pub time_in_force: Seq<char>,
    pub yes_price: Option<Cents>,
    pub no_price: Option<Cents>,
}

impl<'a> View for OrderRequest<'a> {
    type V = RequestView;

    open spec fn view(&self) -> RequestView {
        RequestView {
            ticker: self.ticker@,
            client_order_id: self.client_order_id@,
            action: self.action@,
            side: self.side@,
            count: self.count,
            order_type: self.order_type@,
            time_in_force: self.time_in_force@,
            yes_price: self.yes_price,
            no_price: self.no_price,
        }
    }
}

/// An order in Kalshi's vocabulary.
pub open spec fn requested(order: OrderView, tif: Seq<char>) -> RequestView {
    RequestView {
        ticker: order.ticker,
        client_order_id: order.client_order_id,
        action: match order.action {
            OrderAction::Buy => "buy"@,
            OrderAction::Sell => "sell"@,
        },
        side: match order.outcome {
            Side::Yes => "yes"@,
            Side::No => "no"@,
        },
        count: order.quantity,
        order_type: "limit"@,
        time_in_force: tif,
        yes_price: if order.outcome == Side::Yes {
            Some(order.limit_price)
        } else {
            None
        },
        no_price: if order.outcome == Side::No {
            Some(order.limit_price)
        } else {
            None
        },
    }
}

/// Translate an engine order into Kalshi's request vocabulary.
///
/// Kalshi prices whichever side you name, so a yes order carries `yes_price`
/// and a no order carries `no_price`. Sending both, or the wrong one, is a
/// silently different trade.
pub fn to_request<'a>(order: &'a NewOrder, tif: &'a str) -> (request: OrderRequest<'a>)
    ensures
        request@ == requested(order@, tif@),
{
    let (yes_price, no_price): (Option<Cents>, Option<Cents>) = match order.outcome {
        Side::Yes => (Some(order.limit_price), None),
        Side::No => (None, Some(order.limit_price)),
    };
    OrderRequest {
        ticker: order.ticker.as_str(),
        client_order_id: order.client_order_id.as_str(),
        action: match order.action {
            OrderAction::Buy => "buy",
            OrderAction::Sell => "sell",
        },
        side: match order.outcome {
            Side::Yes => "yes",
            Side::No => "no",
        },
        count: order.quantity,
        order_type: "limit",
        time_in_force: tif,
        yes_price,
        no_price,
    }
}

pub open spec fn tif_name(tif: TimeInForce) -> Seq<char> {
    match tif {
        TimeInForce::FillOrKill => "fill_or_kill"@,
        TimeInForce::ImmediateOrCancel => "immediate_or_cancel"@,
    }
}

pub fn tif_str(tif: TimeInForce) -> (name: &'static str)
    ensures
        name@ == tif_name(tif),
{
    match tif {
        TimeInForce::FillOrKill => "fill_or_kill",
        TimeInForce::ImmediateOrCancel => "immediate_or_cancel",
    }
}

/// What the venue says of an order it took.
#[derive(Clone, Debug, PartialEq)]
pub struct OrderBody {
    pub order_id: String,
    /// Kept for the rejection log; a fill-or-kill that took nothing comes back
    /// as "canceled", which is the difference between a miss and an outage.
    pub status: String,
    /// Contracts actually taken. Absent on a resting order, which for a
    /// fill-or-kill response means nothing was done.
    pub taker_fill_count: i64,
    /// Total premium in cents, as the venue computed it.
    pub taker_fill_cost: Cents,
    pub taker_fees: Cents,
}

/// What an [`OrderBody`] says.
#[verifier::ext_equal]
pub struct BodyView {
    pub order_id: Seq<char>,
    pub status: Seq<char>,
    pub taker_fill_count: i64,
    pub taker_fill_cost: Cents,
    pub taker_fees: Cents,
}

impl View for OrderBody {
    type V = BodyView;

    open spec fn view(&self) -> BodyView {
        BodyView {
            order_id: self.order_id@,
            status: self.status@,
            taker_fill_count: self.taker_fill_count,
            taker_fill_cost: self.taker_fill_cost,
            taker_fees: self.taker_fees,
        }
    }
}

/// The order that a JSON value describes.
pub open spec fn order_in(value: Json) -> Option<BodyView> {
    if !json::is_record(value, 1, 5) {
        None
    } else {
        match (
            json::text_of(json::field_of(value, 0, "order_id"@)),
            json::defaulted_text(json::field_of(value, 1, "status"@)),
            json::defaulted_signed(json::field_of(value, 2, "taker_fill_count"@)),
            json::defaulted_signed(json::field_of(value, 3, "taker_fill_cost"@)),
            json::defaulted_signed(json::field_of(value, 4, "taker_fees"@)),
        ) {
            (
                Some(order_id),
                Some(status),
                Some(taker_fill_count),
                Some(taker_fill_cost),
                Some(taker_fees),
            ) => Some(
                BodyView { order_id, status, taker_fill_count, taker_fill_cost, taker_fees },
            ),
            _ => None,
        }
    }
}

/// What is read of an answer: the order, and what is read of it.
pub open spec fn response_shape() -> ShapeView {
    ShapeView::Record {
        names: seq!["order"@],
        shapes: seq![
            shape::flat(
                seq![
                    "order_id"@,
                    "status"@,
                    "taker_fill_count"@,
                    "taker_fill_cost"@,
                    "taker_fees"@,
                ],
            ),
        ],
    }
}

fn answer_shape() -> (shape: Shape)
    ensures
        shape.wf(),
        shape@ == response_shape(),
{
    let fields: Vec<String> = vec![
        "order_id".to_owned(),
        "status".to_owned(),
        "taker_fill_count".to_owned(),
        "taker_fill_cost".to_owned(),
        "taker_fees".to_owned(),
    ];
    assert(text::views(fields@) =~= seq![
        "order_id"@,
        "status"@,
        "taker_fill_count"@,
        "taker_fill_cost"@,
        "taker_fees"@,
    ]);
    let names: Vec<String> = vec!["order".to_owned()];
    let shapes: Vec<Shape> = vec![shape::flat_record(fields)];
    let response = Shape::Record { names, shapes };
    assert(response@->names =~= response_shape()->names);
    assert(response@->shapes =~= response_shape()->shapes);
    response
}

/// The order that the text of an answer describes.
pub open spec fn response_in(text: Seq<char>) -> Option<BodyView> {
    match shape::shaped(text, response_shape()) {
        Some(value) => if json::is_record(value, 1, 1) {
            match json::field_of(value, 0, "order"@) {
                Some(order) => order_in(order),
                None => None,
            }
        } else {
            None
        },
        None => None,
    }
}

fn read_order(value: &Value) -> (body: Option<OrderBody>)
    ensures
        match body {
            Some(body) => order_in(json::json(*value)) == Some(body@),
            None => order_in(json::json(*value)) is None,
        },
{
    if !json::record(value, 1, 5) {
        return None;
    }
    let order_id: String = match json::text_field(value, 0, "order_id") {
        Some(text) => text.to_owned(),
        None => {
            return None;
        },
    };
    let status: String = match json::defaulted_text_field(value, 1, "status") {
        Some(text) => text,
        None => {
            return None;
        },
    };
    let taker_fill_count: i64 = match json::defaulted_signed_field(value, 2, "taker_fill_count") {
        Some(n) => n,
        None => {
            return None;
        },
    };
    let taker_fill_cost: Cents = match json::defaulted_signed_field(value, 3, "taker_fill_cost") {
        Some(n) => n,
        None => {
            return None;
        },
    };
    let taker_fees: Cents = match json::defaulted_signed_field(value, 4, "taker_fees") {
        Some(n) => n,
        None => {
            return None;
        },
    };
    Some(OrderBody { order_id, status, taker_fill_count, taker_fill_cost, taker_fees })
}

/// The order that the text of an answer describes, if it can be read.
pub fn read_response(text: &str) -> (body: Option<OrderBody>)
    ensures
        match body {
            Some(body) => response_in(text@) == Some(body@),
            None => response_in(text@) is None,
        },
{
    let value: Value = match shape::read_shaped(text, &answer_shape()) {
        Some(value) => value,
        None => {
            return None;
        },
    };
    if !json::record(&value, 1, 1) {
        return None;
    }
    match json::field(&value, 0, "order") {
        Some(order) => read_order(order),
        None => None,
    }
}

/// What the venue's answer to an order comes to.
pub open spec fn acknowledged(order: OrderView, body: OrderBody, now_ms: u64) -> Result<
    FillView,
    OrderErrorView,
> {
    if body.taker_fill_count < order.quantity && (order.time_in_force == TimeInForce::FillOrKill
        || body.taker_fill_count <= 0) {
        Err(
            OrderErrorView::Unfillable {
                wanted: order.quantity,
                available: body.taker_fill_count,
            },
        )
    } else {
        Ok(
            FillView {
                order_id: body.order_id@,
                contract_id: order.contract_id,
                outcome: order.outcome,
                action: order.action,
                quantity_filled: body.taker_fill_count,
                average_price: fees::truncated_quotient(
                    body.taker_fill_cost as int,
                    if body.taker_fill_count > 1 {
                        body.taker_fill_count as int
                    } else {
                        1
                    },
                ) as i64,
                fee_cents: body.taker_fees,
                timestamp_ms: now_ms,
            },
        )
    }
}

/// Read the venue's answer to an order.
///
/// Fill-or-kill means the venue did nothing where it took less than was asked.
/// Reporting a partial fill it did not make would corrupt the position record.
/// An immediate-or-cancel order takes what is there, and what it took is real.
/// The venue's own cost is authoritative over any local estimate.
pub fn acknowledge(order: &NewOrder, body: OrderBody, now_ms: u64) -> (result: Result<
    OrderFill,
    OrderError,
>)
    ensures
        match result {
            Ok(fill) => acknowledged(order@, body, now_ms) == Ok::<FillView, OrderErrorView>(
                fill@,
            ),
            Err(error) => acknowledged(order@, body, now_ms) == Err::<FillView, OrderErrorView>(
                error@,
            ),
        },
{
    let filled: i64 = body.taker_fill_count;
    if filled < order.quantity && (order.time_in_force == TimeInForce::FillOrKill || filled <= 0) {
        return Err(OrderError::Unfillable { wanted: order.quantity, available: filled });
    }
    let contracts: i64 = if filled > 1 {
        filled
    } else {
        1
    };
    proof {
        fees::lemma_truncated_fits(body.taker_fill_cost as int, contracts as int);
    }
    let average: i64 = body.taker_fill_cost.checked_div(contracts).unwrap();
    Ok(
        OrderFill {
            order_id: body.order_id,
            contract_id: order.contract_id,
            outcome: order.outcome,
            action: order.action,
            quantity_filled: filled,
            average_price: average,
            fee_cents: body.taker_fees,
            timestamp_ms: now_ms,
        },
    )
}

/// Why an order was not taken, by the code of the HTTP answer.
pub open spec fn refusal(code: u16, status: Seq<char>, detail: Seq<char>) -> Option<
    OrderErrorView,
> {
    if 200 <= code <= 299 {
        None
    } else if 400 <= code <= 499 {
        Some(OrderErrorView::Rejected(status + ": "@ + detail))
    } else {
        Some(OrderErrorView::Transport(status + ": "@ + detail))
    }
}

/// Read the code of the HTTP answer to an order. `status` is how the code is
/// shown and `detail` the body that came with it.
///
/// A rejection is a clean no-op; a 5xx is not, because the order may have been
/// accepted before the failure.
pub fn refuse(code: u16, status: &str, detail: &str) -> (error: Option<OrderError>)
    ensures
        match error {
            Some(error) => refusal(code, status@, detail@) == Some(error@),
            None => refusal(code, status@, detail@) is None,
        },
{
    if 200 <= code && code <= 299 {
        return None;
    }
    let mut why: String = status.to_owned();
    why.append(": ");
    why.append(detail);
    if 400 <= code && code <= 499 {
        Some(OrderError::Rejected(why))
    } else {
        Some(OrderError::Transport(why))
    }
}

/// Where an order is cancelled.
pub fn cancel_path(order_id: &str) -> (path: String)
    ensures
        path@ == ORDERS_PATH@ + "/"@ + order_id@,
{
    let mut path: String = String::from_str(ORDERS_PATH);
    path.append("/");
    path.append(order_id);
    path
}

/// Read the code of the HTTP answer to a cancellation.
pub fn refuse_cancel(code: u16, status: &str, order_id: &str) -> (error: Option<OrderError>)
    ensures
        match error {
            Some(error) => !(200 <= code <= 299) && error@ == OrderErrorView::Rejected(
                "cancel "@ + order_id@ + ": "@ + status@,
            ),
            None => 200 <= code <= 299,
        },
{
    if 200 <= code && code <= 299 {
        return None;
    }
    let mut why: String = String::from_str("cancel ");
    why.append(order_id);
    why.append(": ");
    why.append(status);
    Some(OrderError::Rejected(why))
}

// ---------------------------------------------------------------------------
// Laws
// ---------------------------------------------------------------------------

/// Exactly one side of an order is priced, and it is the side being traded.
pub proof fn only_the_traded_side_is_priced(order: OrderView, tif: Seq<char>)
    ensures
        requested(order, tif).yes_price is Some != requested(order, tif).no_price is Some,
        order.outcome == Side::Yes ==> requested(order, tif).yes_price == Some(order.limit_price),
        order.outcome == Side::No ==> requested(order, tif).no_price == Some(order.limit_price),
{
}

/// A fill-or-kill fill is never reported of fewer contracts than were asked for.
pub proof fn a_short_answer_is_no_fill(order: OrderView, body: OrderBody, now_ms: u64)
    requires
        order.time_in_force == TimeInForce::FillOrKill,
    ensures
        acknowledged(order, body, now_ms) matches Ok(fill) ==> fill.quantity_filled
            >= order.quantity,
{
}

/// What an immediate-or-cancel order took is never lost: it is reported filled
/// wherever anything was taken, by as much as was taken.
pub proof fn a_partial_fill_is_kept(order: OrderView, body: OrderBody, now_ms: u64)
    requires
        order.time_in_force == TimeInForce::ImmediateOrCancel,
        body.taker_fill_count > 0,
    ensures
        acknowledged(order, body, now_ms) matches Ok(fill) && fill.quantity_filled
            == body.taker_fill_count,
{
}

} // verus!
