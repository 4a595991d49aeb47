use sum100::exec::atomic::{AtomicTrade, ExecutionError, ExecutionResult, DEFAULT_TIMEOUT_MS};
use sum100::exec::kalshi::{
    acknowledge, cancel_path, read_response, refuse, refuse_cancel, tif_str, to_request,
};
use sum100::exec::paper::{contract_of, marketable_price, PaperOrderClient};
use sum100::exec::{NewOrder, OrderAction, OrderError, OrderFill, TimeInForce};
use sum100::fees::FeeModels;
use sum100::types::{Book, Cents, ContractId, Level, Side, Venue};

// ---------------------------------------------------------------- several legs

fn order(contract: u32, quantity: i64, price: i64) -> NewOrder {
    NewOrder {
        contract_id: ContractId(contract),
        ticker: format!("T{contract}"),
        outcome: Side::Yes,
        action: OrderAction::Buy,
        quantity,
        limit_price: price,
        time_in_force: TimeInForce::FillOrKill,
        client_order_id: format!("client-{contract}"),
    }
}

/// What each leg is told to do.
#[derive(Clone, Copy)]
enum Behavior {
    Fills,
    Fails,
}

/// The answers a scripted venue gives to the legs of a trade, in their order.
fn answers(trade: &AtomicTrade, behavior: &[Behavior]) -> Vec<Result<OrderFill, OrderError>> {
    trade
        .legs
        .iter()
        .zip(behavior)
        .map(|(order, behavior)| match behavior {
            Behavior::Fills => Ok(OrderFill {
                order_id: format!("venue-{}", order.contract_id.0),
                contract_id: order.contract_id,
                outcome: order.outcome,
                action: order.action,
                quantity_filled: order.quantity,
                average_price: order.limit_price,
                fee_cents: 0,
                timestamp_ms: 1_000,
            }),
            Behavior::Fails => Err(OrderError::Unfillable {
                wanted: order.quantity,
                available: 0,
            }),
        })
        .collect()
}

fn execute(trade: &AtomicTrade, behavior: &[Behavior]) -> Result<ExecutionResult, ExecutionError> {
    trade.conclude(Some(answers(trade, behavior)))
}

#[test]
fn both_legs_go_out_at_once_not_one_after_the_other() {
    let trade = AtomicTrade::new(vec![order(0, 100, 45), order(1, 100, 50)]);
    let result = execute(&trade, &[Behavior::Fills, Behavior::Fills]).unwrap();

    assert_eq!(result.fills.len(), 2);
    assert_eq!(result.total_cost_cents(), 100 * 45 + 100 * 50);
    // Nothing in a leg depends on what another came to: all of them are known
    // before any is sent.
    assert_eq!(trade.legs.len(), 2);
    assert_eq!(trade.timeout_ms, DEFAULT_TIMEOUT_MS);
}

#[test]
fn a_filled_leg_beside_a_failed_one_is_reported_as_legged() {
    let trade = AtomicTrade::new(vec![order(0, 100, 45), order(1, 100, 50)]);
    let error = execute(&trade, &[Behavior::Fills, Behavior::Fails]).unwrap_err();

    match error {
        ExecutionError::Legged { filled, failed } => {
            assert_eq!(filled.len(), 1);
            assert_eq!(filled[0].contract_id, ContractId(0));
            assert_eq!(failed.len(), 1);
        }
        other => panic!("expected Legged, got {other:?}"),
    }
}

#[test]
fn every_leg_failing_leaves_no_exposure() {
    let trade = AtomicTrade::new(vec![order(0, 100, 45), order(1, 100, 50)]);
    match execute(&trade, &[Behavior::Fails, Behavior::Fails]).unwrap_err() {
        ExecutionError::NoFills { failed } => assert_eq!(failed.len(), 2),
        other => panic!("expected NoFills, got {other:?}"),
    }
}

#[test]
fn a_stalled_leg_closes_the_window_and_reports_unknown_state() {
    let mut trade = AtomicTrade::new(vec![order(0, 100, 45), order(1, 100, 50)]);
    trade.timeout_ms = 25;
    match trade.conclude(None).unwrap_err() {
        // Not "no fills": leg 0 may well have filled at the venue.
        ExecutionError::Timeout { elapsed_ms } => assert_eq!(elapsed_ms, 25),
        other => panic!("expected Timeout, got {other:?}"),
    }
}

#[test]
fn a_trade_with_no_legs_does_nothing_rather_than_erroring() {
    let result = execute(&AtomicTrade::new(Vec::new()), &[]).unwrap();
    assert!(result.fills.is_empty());
    assert_eq!(result.total_cost_cents(), 0);
}

// ---------------------------------------------------------------------- Kalshi

fn kalshi_order(outcome: Side) -> NewOrder {
    NewOrder {
        contract_id: ContractId(0),
        ticker: "KXFED-26SEP-C25".into(),
        outcome,
        action: OrderAction::Buy,
        quantity: 100,
        limit_price: 45,
        time_in_force: TimeInForce::FillOrKill,
        client_order_id: "sum100-1".into(),
    }
}

/// The request body is the contract with the venue; a wrong field here is a
/// different trade placed with real money.
#[test]
fn the_request_body_names_the_side_being_priced() {
    let order = kalshi_order(Side::Yes);
    let yes = to_request(&order, "fill_or_kill");
    assert_eq!(yes.side, "yes");
    assert_eq!(yes.action, "buy");
    assert_eq!(yes.count, 100);
    assert_eq!(yes.order_type, "limit");
    assert_eq!(yes.time_in_force, "fill_or_kill");
    assert_eq!(yes.yes_price, Some(45));
    assert!(yes.no_price.is_none(), "only one side is priced");

    let order = kalshi_order(Side::No);
    let no = to_request(&order, "fill_or_kill");
    assert_eq!(no.side, "no");
    assert_eq!(no.no_price, Some(45));
    assert!(no.yes_price.is_none());
}

#[test]
fn a_fill_or_kill_response_with_nothing_taken_is_not_a_fill() {
    let body = read_response(
        r#"{"order":{"order_id":"abc","status":"canceled","taker_fill_count":0}}"#,
    )
    .unwrap();
    assert_eq!(body.taker_fill_count, 0);
    assert_eq!(body.status, "canceled");
    assert_eq!(body.taker_fees, 0);
    assert_eq!(
        acknowledge(&kalshi_order(Side::Yes), body, 1_000),
        Err(OrderError::Unfillable {
            wanted: 100,
            available: 0
        })
    );
}

#[test]
fn a_full_response_is_a_fill_at_the_venues_own_cost() {
    let body = read_response(
        r#"{"order":{"order_id":"abc","taker_fill_count":100,"taker_fill_cost":4450,"taker_fees":172}}"#,
    )
    .unwrap();
    let fill = acknowledge(&kalshi_order(Side::Yes), body, 1_000).unwrap();
    assert_eq!(fill.order_id, "abc");
    assert_eq!(fill.quantity_filled, 100);
    assert_eq!(fill.average_price, 44);
    assert_eq!(fill.fee_cents, 172);
    assert_eq!(fill.timestamp_ms, 1_000);
}

#[test]
fn an_answer_that_cannot_be_read_is_none() {
    assert!(read_response("").is_none());
    assert!(read_response("{}").is_none());
    assert!(read_response(r#"{"order":{"status":"x"}}"#).is_none());
    assert!(read_response(r#"{"order":{"order_id":"a","taker_fees":1.5}}"#).is_none());
    // A debt is an integer too.
    assert_eq!(
        read_response(r#"{"order":{"order_id":"a","taker_fees":-3}}"#)
            .unwrap()
            .taker_fees,
        -3
    );
}

#[test]
fn a_refusal_is_clean_and_a_server_error_is_not() {
    assert_eq!(refuse(200, "200 OK", ""), None);
    assert_eq!(
        refuse(400, "400 Bad Request", "no"),
        Some(OrderError::Rejected("400 Bad Request: no".into()))
    );
    assert_eq!(
        refuse(503, "503 Service Unavailable", ""),
        Some(OrderError::Transport("503 Service Unavailable: ".into()))
    );
    assert_eq!(refuse_cancel(204, "204 No Content", "a"), None);
    assert_eq!(
        refuse_cancel(404, "404 Not Found", "a"),
        Some(OrderError::Rejected("cancel a: 404 Not Found".into()))
    );
    assert_eq!(cancel_path("a"), "/trade-api/v2/portfolio/orders/a");
    assert_eq!(tif_str(TimeInForce::ImmediateOrCancel), "immediate_or_cancel");
}

// ----------------------------------------------------------------------- paper

fn book_with(asks: &[(Cents, i64)]) -> Book {
    let mut book = Book::new(Venue::Kalshi, ContractId(0));
    let no_bids: Vec<Level> = asks
        .iter()
        .map(|(price, size)| Level {
            price: 100 - price,
            size: *size,
        })
        .collect();
    book.apply_snapshot(&[], &no_bids, 1, 1_000).unwrap();
    book
}

fn buy(quantity: i64, limit: Cents, tif: TimeInForce) -> NewOrder {
    NewOrder {
        contract_id: ContractId(0),
        ticker: "T".into(),
        outcome: Side::Yes,
        action: OrderAction::Buy,
        quantity,
        limit_price: limit,
        time_in_force: tif,
        client_order_id: "c1".into(),
    }
}

#[test]
fn a_paper_fill_walks_depth_instead_of_taking_top_of_book() {
    let mut client = PaperOrderClient::new(FeeModels::default());
    client.observe(&[book_with(&[(40, 10), (45, 100)])], 2_000);

    let fill = client
        .place_order(&buy(50, 50, TimeInForce::FillOrKill))
        .unwrap();
    // 10 at 40 plus 40 at 45 is 2200, not 50 x 40 = 2000.
    assert_eq!(fill.quantity_filled, 50);
    assert_eq!(fill.average_price, 44);
    assert_eq!(fill.cost_cents(), 44 * 50 + fill.fee_cents);
    assert!(fill.fee_cents > 0, "the real schedule is charged");
    assert_eq!(fill.timestamp_ms, 2_000);
    assert_eq!(contract_of(&fill), ContractId(0));
}

#[test]
fn fill_or_kill_refuses_rather_than_leaving_half_a_position() {
    let mut client = PaperOrderClient::new(FeeModels::default());
    client.observe(&[book_with(&[(40, 10)])], 2_000);

    assert_eq!(
        client.place_order(&buy(50, 50, TimeInForce::FillOrKill)),
        Err(OrderError::Unfillable {
            wanted: 50,
            available: 10,
        })
    );
    // Immediate-or-cancel accepts the partial, which is why arbitrage legs
    // never use it.
    let partial = client
        .place_order(&buy(50, 50, TimeInForce::ImmediateOrCancel))
        .unwrap();
    assert_eq!(partial.quantity_filled, 10);
}

#[test]
fn a_book_that_moved_past_the_limit_is_a_miss_not_a_worse_fill() {
    let mut client = PaperOrderClient::new(FeeModels::default());
    client.observe(&[book_with(&[(60, 100)])], 2_000);
    let error = client
        .place_order(&buy(50, 45, TimeInForce::FillOrKill))
        .unwrap_err();
    assert!(matches!(error, OrderError::Rejected(_)), "{error:?}");

    // A contract with no book at all is rejected, never silently filled.
    client.observe(&[], 2_000);
    assert!(matches!(
        client.place_order(&buy(1, 99, TimeInForce::FillOrKill)),
        Err(OrderError::Rejected(_))
    ));
}

#[test]
fn paper_mode_never_claims_to_be_live() {
    let client = PaperOrderClient::new(FeeModels::default());
    assert!(!client.is_live());
    assert!(client.cancel_order("paper-1").is_ok());
}

#[test]
fn a_price_is_quoted_only_for_what_the_book_can_fill() {
    let book = book_with(&[(40, 10), (45, 100)]);
    assert_eq!(marketable_price(&book, Side::Yes, 50), Some(44));
    assert_eq!(marketable_price(&book, Side::Yes, 111), None);
    assert_eq!(marketable_price(&book, Side::Yes, 0), None);
}

#[test]
fn no_contract_is_filled_past_the_limit() {
    let mut client = PaperOrderClient::new(FeeModels::default());
    client.observe(&[book_with(&[(40, 10), (45, 40)])], 2_000);
    // The average would be 44, but forty of the fifty are offered at 45.
    assert_eq!(
        client.place_order(&buy(50, 44, TimeInForce::FillOrKill)),
        Err(OrderError::Rejected("price 45 exceeds limit 44".into()))
    );
    assert_eq!(
        client
            .place_order(&buy(50, 45, TimeInForce::FillOrKill))
            .unwrap()
            .quantity_filled,
        50
    );
}

#[test]
fn a_partial_answer_is_kept_unless_it_was_all_or_nothing() {
    let partial = r#"{"order":{"order_id":"abc","taker_fill_count":10,"taker_fill_cost":450}}"#;
    let mut order = kalshi_order(Side::Yes);
    order.quantity = 50;
    assert_eq!(
        acknowledge(&order, read_response(partial).unwrap(), 1_000),
        Err(OrderError::Unfillable {
            wanted: 50,
            available: 10
        })
    );
    order.time_in_force = TimeInForce::ImmediateOrCancel;
    let fill = acknowledge(&order, read_response(partial).unwrap(), 1_000).unwrap();
    assert_eq!(fill.quantity_filled, 10);
    assert_eq!(fill.average_price, 45);
    // Nothing taken is a miss, whatever the order asked for.
    let nothing = r#"{"order":{"order_id":"abc","taker_fill_count":0}}"#;
    assert_eq!(
        acknowledge(&order, read_response(nothing).unwrap(), 1_000),
        Err(OrderError::Unfillable {
            wanted: 50,
            available: 0
        })
    );
}

#[test]
fn an_answer_takes_what_it_knows_once() {
    let fees = |text: &str| read_response(text).map(|body| body.taker_fees);
    assert_eq!(
        fees(r#"{"x":1e999,"order":{"order_id":"a","y":1e999,"taker_fees":3}}"#),
        Some(3)
    );
    assert_eq!(
        fees(r#"{"order":{"order_id":"a","taker_fees":3,"taker_fees":3}}"#),
        None
    );
    assert_eq!(
        fees(r#"{"order":{"order_id":"a"},"order":{"order_id":"a"}}"#),
        None
    );
    assert_eq!(fees(r#"[["a","x",1,2,3]]"#), Some(3));
}
