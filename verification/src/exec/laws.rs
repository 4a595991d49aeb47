//! What an order comes to, on paper and at a venue, and what a trade comes to.
use vstd::prelude::*;
use crate::exec::atomic;
use crate::exec::atomic::{Answer, ExecutionErrorView};
use crate::exec::kalshi;
use crate::exec::paper;
use crate::exec::paper::PaperView;
use crate::exec::{OrderAction, OrderErrorView, OrderView, TimeInForce};
use crate::fees;
use crate::quote;
use crate::solver::costing;
use crate::tally;
use crate::text;
use crate::types::{BookView, ContractId, Side};

verus! {

// ---------------------------------------------------------------------------
// On paper
// ---------------------------------------------------------------------------

/// The first book of a contract.
pub open spec fn is_its_book(books: Seq<BookView>, contract: ContractId, at: int) -> bool {
    &&& 0 <= at < books.len()
    &&& books[at].contract_id == contract
    &&& forall|i: int| 0 <= i < at ==> (#[trigger] books[i]).contract_id != contract
}

proof fn lemma_its_book(books: Seq<BookView>, contract: ContractId, at: int)
    requires
        is_its_book(books, contract, at),
    ensures
        paper::book_of(books, contract) == Some(books[at]),
    decreases at,
{
    if at > 0 {
        let rest = books.subrange(1, books.len() as int);
        assert(books[0].contract_id != contract);
        assert forall|i: int| 0 <= i < at - 1 implies (#[trigger] rest[i]).contract_id
            != contract by {
            assert(rest[i] == books[i + 1]);
        }
        lemma_its_book(rest, contract, at - 1);
        assert(rest[at - 1] == books[at]);
    }
}

proof fn lemma_no_book(books: Seq<BookView>, contract: ContractId)
    requires
        forall|i: int| 0 <= i < books.len() ==> (#[trigger] books[i]).contract_id != contract,
    ensures
        paper::book_of(books, contract) is None,
    decreases books.len(),
{
    if books.len() > 0 {
        let rest = books.subrange(1, books.len() as int);
        assert forall|i: int| 0 <= i < rest.len() implies (#[trigger] rest[i]).contract_id
            != contract by {
            assert(rest[i] == books[i + 1]);
        }
        lemma_no_book(rest, contract);
    }
}

/// How much of an order a book can fill.
pub open spec fn fillable(book: BookView, order: OrderView) -> int {
    let offered = quote::offered_upto(book, order.outcome, 100);
    if offered < order.quantity {
        offered
    } else {
        order.quantity as int
    }
}

proof fn lemma_paper(client: PaperView, book: BookView, order: OrderView)
    requires
        book.wf(),
        order.quantity > 0,
    ensures
        ({
            let levels = paper::consumed(book, order);
            let q = fillable(book, order);
            &&& costing::depth(levels) == q
            &&& paper::taken(book, order) == q
            &&& q >= 0
            &&& costing::premium(levels, q) == quote::cost_upto(book, order.outcome, q, 100)
            &&& costing::levied(
                &client.fees.venue_fees(book.venue),
                book.contract_id,
                levels,
                q,
            ) == quote::fee_upto(
                &client.fees.venue_fees(book.venue),
                book.contract_id,
                book,
                order.outcome,
                q,
                100,
            )
            &&& match paper::worst(book, order) {
                Some(price) => quote::is_reach(book, order.outcome, q, price as int),
                None => q == 0,
            }
        }),
{
    let want = order.quantity as int;
    let q = fillable(book, order);
    let offers = costing::asks_for(book, order.outcome);
    let charges = client.fees.venue_fees(book.venue);
    quote::lemma_upto_nonneg(book, order.outcome, 100);
    quote::lemma_offers(&charges, book.contract_id, book, order.outcome, q);
    costing::lemma_walked(offers, want);
    let levels = paper::consumed(book, order);
    assert(costing::depth(levels) == q) by {
        if costing::depth(levels) < want {
            assert(levels == offers);
        }
    }
    quote::lemma_walked_alike(&charges, book.contract_id, offers, want, q, None);
}

/// A paper order to buy fills as much as the book offers: at most what it asks
/// for, at the average of what the cheapest contracts cost, rounded down, for the
/// fees of the levels it takes. It is unfillable where the book offers nothing,
/// or too little for an order that is all or nothing, and is rejected where its
/// last contract would cost more than the limit.
pub proof fn a_paper_order_fills_what_the_book_offers(client: PaperView, order: OrderView, at: int)
    requires
        client.wf(),
        client.placeable(order),
        is_its_book(client.books, order.contract_id, at),
        order.action == OrderAction::Buy,
        order.quantity > 0,
    ensures
        ({
            let book = client.books[at];
            let offered = quote::offered_upto(book, order.outcome, 100);
            let q = fillable(book, order);
            let cost = quote::cost_upto(book, order.outcome, q, 100);
            let short = offered == 0 || (offered < order.quantity && order.time_in_force
                == TimeInForce::FillOrKill);
            let dear = exists|p: int|
                #[trigger] quote::is_reach(book, order.outcome, q, p) && p > order.limit_price;
            match client.answer(order) {
                Ok(fill) => {
                    &&& !short && !dear
                    &&& fill.contract_id == order.contract_id
                    &&& fill.outcome == order.outcome
                    &&& fill.action == OrderAction::Buy
                    &&& fill.quantity_filled == q
                    &&& fill.average_price * q <= cost
                    &&& (fill.average_price + 1) * q > cost
                    &&& fill.fee_cents == quote::fee_upto(
                        &client.fees.venue_fees(book.venue),
                        order.contract_id,
                        book,
                        order.outcome,
                        q,
                        100,
                    )
                    &&& fill.timestamp_ms == client.now_ms
                    &&& fill.order_id == "paper-"@ + text::decimal(client.next_order_id as nat)
                },
                Err(OrderErrorView::Unfillable { wanted, available }) => short && wanted
                    == order.quantity && available == offered,
                Err(_) => !short && dear,
            }
        }),
{
    let book = client.books[at];
    lemma_its_book(client.books, order.contract_id, at);
    assert(book.wf());
    let q = fillable(book, order);
    lemma_paper(client, book, order);
    let levels = paper::consumed(book, order);
    let offers = costing::asks_for(book, order.outcome);
    quote::lemma_upto_nonneg(book, order.outcome, 100);
    let cost = quote::cost_upto(book, order.outcome, q, 100);
    quote::lemma_offers(
        &client.fees.venue_fees(book.venue),
        book.contract_id,
        book,
        order.outcome,
        q,
    );
    costing::lemma_walked(offers, order.quantity as int);
    costing::lemma_levied_fits(
        &client.fees.venue_fees(book.venue),
        book.contract_id,
        levels,
        costing::max(q, 0),
        0,
    );
    costing::lemma_premium_bounds(levels, q);
    costing::lemma_premium_within(levels, q);
    if q > 0 {
        let average = paper::average(book, order);
        assert(average == cost / q);
        assert(average * q <= cost && (average + 1) * q > cost) by (nonlinear_arith)
            requires
                q > 0,
                average == cost / q,
        ;
        costing::lemma_walked_ascending(offers, order.quantity as int);
        costing::lemma_worst_bounds_premium(levels, q, None);
        if let Some(price) = paper::worst(book, order) {
            let p = price as int;
            assert(quote::is_reach(book, order.outcome, q, p));
            assert forall|other: int| #[trigger] quote::is_reach(book, order.outcome, q, other)
                implies other == p by {
                lemma_one_reach(book, order.outcome, q, p, other);
            }
            assert(average <= p) by (nonlinear_arith)
                requires
                    average * q <= cost,
                    cost <= q * p,
                    q > 0,
            ;
        }
    }
}

proof fn lemma_one_reach(book: BookView, side: Side, qty: int, a: int, b: int)
    requires
        quote::is_reach(book, side, qty, a),
        quote::is_reach(book, side, qty, b),
    ensures
        a == b,
{
    if a < b {
        quote::lemma_upto_rises(book, side, a, b - 1);
        assert(quote::offered_at(book, side, b) > 0);
    } else if b < a {
        quote::lemma_upto_rises(book, side, b, a - 1);
        assert(quote::offered_at(book, side, a) > 0);
    }
}

/// A sale is refused on paper, and so is an order on a contract without a book.
pub proof fn paper_takes_only_purchases_it_can_price(client: PaperView, order: OrderView)
    ensures
        order.action == OrderAction::Sell ==> client.answer(order) matches Err(
            OrderErrorView::Rejected(_),
        ),
        (forall|i: int|
            0 <= i < client.books.len() ==> (#[trigger] client.books[i]).contract_id
                != order.contract_id) ==> client.answer(order) matches Err(
            OrderErrorView::Rejected(_),
        ),
{
    if forall|i: int|
        0 <= i < client.books.len() ==> (#[trigger] client.books[i]).contract_id
            != order.contract_id {
        lemma_no_book(client.books, order.contract_id);
    }
}

/// What filled is remembered, under an identifier that no later order gets, and
/// what did not leaves no trace.
pub proof fn every_paper_fill_is_remembered(client: PaperView, order: OrderView)
    ensures
        match client.answer(order) {
            Ok(fill) => {
                let after = client.placing(order);
                &&& after.filled.len() == client.filled.len() + 1
                &&& after.filled.last() == fill
                &&& after.filled.drop_last() == client.filled
                &&& client.next_order_id < u64::MAX ==> after.next_order_id
                    == client.next_order_id + 1
                &&& after.books == client.books && after.fees == client.fees && after.now_ms
                    == client.now_ms
            },
            Err(_) => client.placing(order) == client,
        },
{
    if let Ok(fill) = client.answer(order) {
        assert(client.filled.push(fill).drop_last() =~= client.filled);
    }
}

/// A quantity has a price now exactly where the book offers all of it, and the
/// price is the average of the cheapest, rounded down.
pub proof fn a_quantity_has_a_price_where_it_is_offered(
    book: BookView,
    outcome: Side,
    quantity: i64,
)
    requires
        book.wf(),
        costing::price_of(
            costing::walked(costing::asks_for(book, outcome), quantity as int),
        ) <= i64::MAX,
    ensures
        ({
            let offered = quote::offered_upto(book, outcome, 100);
            let cost = quote::cost_upto(book, outcome, quantity as int, 100);
            match paper::price_now(book, outcome, quantity) {
                Some(price) => 0 < quantity <= offered && price * quantity <= cost && (price + 1)
                    * quantity > cost,
                None => quantity <= 0 || offered < quantity,
            }
        }),
{
    if quantity > 0 {
        let q = quantity as int;
        let offers = costing::asks_for(book, outcome);
        let ladder = costing::walked(offers, q);
        let charges = fees::KalshiFees { multiplier_numer: 1, multiplier_denom: 1 };
        quote::lemma_offers(&charges, book.contract_id, book, outcome, q);
        quote::lemma_walked_alike(&charges, book.contract_id, offers, q, q, None);
        costing::lemma_walked(offers, q);
        if costing::depth(ladder) < q {
            assert(ladder == offers);
        }
        let cost = quote::cost_upto(book, outcome, q, 100);
        costing::lemma_premium_bounds(ladder, q);
        costing::lemma_premium_within(ladder, q);
        let average = cost / q;
        assert(average * q <= cost && (average + 1) * q > cost) by (nonlinear_arith)
            requires
                q > 0,
                average == cost / q,
        ;
        assert(0 <= average <= cost) by (nonlinear_arith)
            requires
                q > 0,
                cost >= 0,
                average == cost / q,
        ;
    }
}

// ---------------------------------------------------------------------------
// At the venue
// ---------------------------------------------------------------------------

/// A request asks for what the order does, by the venue's words for it.
pub proof fn a_request_asks_for_the_order(order: OrderView)
    ensures
        ({
            let request = kalshi::requested(order, kalshi::tif_name(order.time_in_force));
            &&& request.ticker == order.ticker
            &&& request.client_order_id == order.client_order_id
            &&& request.count == order.quantity
            &&& request.order_type == "limit"@
            &&& order.action == OrderAction::Buy ==> request.action == "buy"@
            &&& order.action == OrderAction::Sell ==> request.action == "sell"@
            &&& order.outcome == Side::Yes ==> request.side == "yes"@ && request.yes_price == Some(
                order.limit_price,
            ) && request.no_price is None
            &&& order.outcome == Side::No ==> request.side == "no"@ && request.no_price == Some(
                order.limit_price,
            ) && request.yes_price is None
            &&& order.time_in_force == TimeInForce::FillOrKill ==> request.time_in_force
                == "fill_or_kill"@
            &&& order.time_in_force == TimeInForce::ImmediateOrCancel ==> request.time_in_force
                == "immediate_or_cancel"@
        }),
{
}

/// What the venue says was filled is what was filled: at the average that it
/// charged, rounded toward nothing, for the fees that it took. Nothing filled, or
/// too little of an order that is all or nothing, is no fill.
pub proof fn an_acknowledgement_is_taken_at_its_word(
    order: OrderView,
    body: kalshi::OrderBody,
    now_ms: u64,
)
    requires
        order.quantity > 0,
        body.taker_fill_cost >= 0,
    ensures
        ({
            let count = body.taker_fill_count;
            let short = count <= 0 || (count < order.quantity && order.time_in_force
                == TimeInForce::FillOrKill);
            match kalshi::acknowledged(order, body, now_ms) {
                Ok(fill) => {
                    &&& !short
                    &&& fill.order_id == body.order_id@
                    &&& fill.contract_id == order.contract_id
                    &&& fill.outcome == order.outcome
                    &&& fill.action == order.action
                    &&& fill.quantity_filled == count
                    &&& fill.average_price * count <= body.taker_fill_cost
                    &&& (fill.average_price + 1) * count > body.taker_fill_cost
                    &&& fill.fee_cents == body.taker_fees
                    &&& fill.timestamp_ms == now_ms
                },
                Err(error) => short && error == (OrderErrorView::Unfillable {
                    wanted: order.quantity,
                    available: count,
                }),
            }
        }),
{
    let count = body.taker_fill_count as int;
    let cost = body.taker_fill_cost as int;
    if count > 0 {
        let average = cost / count;
        assert(average * count <= cost && (average + 1) * count > cost && 0 <= average <= cost)
            by (nonlinear_arith)
            requires
                count > 0,
                cost >= 0,
                average == cost / count,
        ;
        assert(fees::truncated_quotient(cost, count) == average) by (nonlinear_arith)
            requires
                count > 0,
                cost >= 0,
                average == cost / count,
                fees::truncated_quotient(cost, count) == (if cost == 0 {
                    0
                } else {
                    cost / count
                }),
        ;
    }
}

/// A request that the venue did not take was its fault or ours: a refusal in the
/// four hundreds is final, and anything else outside the two hundreds may be
/// tried again.
pub proof fn a_status_says_whose_fault(code: u16, status: Seq<char>, detail: Seq<char>)
    ensures
        match kalshi::refusal(code, status, detail) {
            None => 200 <= code < 300,
            Some(OrderErrorView::Rejected(_)) => 400 <= code < 500,
            Some(OrderErrorView::Transport(_)) => code < 200 || 300 <= code < 400 || code >= 500,
            Some(_) => false,
        },
{
}

// ---------------------------------------------------------------------------
// A trade of several legs
// ---------------------------------------------------------------------------

/// One where an answer is a fill.
pub open spec fn fill_flag(answers: Seq<Answer>) -> spec_fn(int) -> int {
    |i: int|
        if answers[i] is Ok {
            1
        } else {
            0
        }
}

/// One where an answer is a failure.
pub open spec fn failure_flag(answers: Seq<Answer>) -> spec_fn(int) -> int {
    |i: int|
        if answers[i] is Ok {
            0
        } else {
            1
        }
}

proof fn lemma_total_prefix(answers: Seq<Answer>, n: int)
    requires
        0 <= n < answers.len(),
    ensures
        tally::total(n, fill_flag(answers)) == tally::total(n, fill_flag(answers.drop_last())),
        tally::total(n, failure_flag(answers)) == tally::total(
            n,
            failure_flag(answers.drop_last()),
        ),
{
    tally::lemma_same(n, fill_flag(answers), fill_flag(answers.drop_last()));
    tally::lemma_same(n, failure_flag(answers), failure_flag(answers.drop_last()));
}

proof fn lemma_sorted_out(answers: Seq<Answer>, i: int)
    requires
        0 <= i < answers.len(),
    ensures
        atomic::filled_of(answers).len() == tally::total(
            answers.len() as int,
            fill_flag(answers),
        ),
        atomic::failed_of(answers).len() == tally::total(
            answers.len() as int,
            failure_flag(answers),
        ),
        match answers[i] {
            Ok(fill) => {
                let at = tally::total(i, fill_flag(answers));
                0 <= at < atomic::filled_of(answers).len() && atomic::filled_of(answers)[at]
                    == fill@
            },
            Err(error) => {
                let at = tally::total(i, failure_flag(answers));
                0 <= at < atomic::failed_of(answers).len() && atomic::failed_of(answers)[at]
                    == error@
            },
        },
    decreases answers.len(),
{
    let before = answers.drop_last();
    let n = answers.len() - 1;
    lemma_total_prefix(answers, i);
    lemma_total_prefix(answers, n);
    if n > 0 {
        lemma_sorted_out(before, if i < n {
            i
        } else {
            0
        });
    }
    if n == 0 {
        assert(atomic::filled_of(before) =~= Seq::empty());
        assert(atomic::failed_of(before) =~= Seq::empty());
        assert(tally::total(0, fill_flag(answers)) == 0);
        assert(tally::total(0, failure_flag(answers)) == 0);
    }
}

/// A trade went on cleanly exactly where every leg filled, filled nothing exactly
/// where every leg failed, and is legged in between. Every fill and every failure
/// is handed back, in the order of the legs.
pub proof fn a_trade_is_what_its_legs_answered(
    legs: nat,
    timeout_ms: u64,
    answers: Seq<Answer>,
    i: int,
)
    requires
        legs > 0,
        0 <= i < answers.len(),
    ensures
        ({
            let fills = tally::total(i, fill_flag(answers));
            let failures = tally::total(i, failure_flag(answers));
            match atomic::conclusion(legs, timeout_ms, Some(answers)) {
                Ok(filled) => filled.len() == answers.len() && (answers[i] matches Ok(fill)
                    && filled[i] == fill@),
                Err(ExecutionErrorView::NoFills { failed }) => failed.len() == answers.len() && (
                answers[i] matches Err(error) && failed[i] == error@),
                Err(ExecutionErrorView::Legged { filled, failed }) => {
                    &&& filled.len() > 0 && failed.len() > 0
                    &&& filled.len() + failed.len() == answers.len()
                    &&& match answers[i] {
                        Ok(fill) => 0 <= fills < filled.len() && filled[fills] == fill@,
                        Err(error) => 0 <= failures < failed.len() && failed[failures] == error@,
                    }
                },
                Err(ExecutionErrorView::Timeout { .. }) => false,
            }
        }),
{
    lemma_sorted_out(answers, i);
    lemma_flags(answers, i);
    lemma_flags(answers, answers.len() as int);
    if atomic::failed_of(answers).len() == 0 {
        lemma_none_before(failure_flag(answers), i, answers.len() as int);
    }
    if atomic::filled_of(answers).len() == 0 {
        lemma_none_before(fill_flag(answers), i, answers.len() as int);
    }
}

proof fn lemma_flags(answers: Seq<Answer>, n: int)
    requires
        0 <= n <= answers.len(),
    ensures
        tally::total(n, fill_flag(answers)) + tally::total(n, failure_flag(answers)) == n,
    decreases n,
{
    if n > 0 {
        lemma_flags(answers, n - 1);
    }
}

proof fn lemma_none_before(flag: spec_fn(int) -> int, i: int, n: int)
    requires
        0 <= i <= n,
        forall|k: int| #[trigger] flag(k) >= 0,
        tally::total(n, flag) == 0,
    ensures
        tally::total(i, flag) == 0,
    decreases n,
{
    lemma_total_nonneg(flag, n - 1);
    lemma_total_nonneg(flag, i);
    if i < n {
        assert(flag(n - 1) >= 0);
        lemma_none_before(flag, i, n - 1);
    }
}

proof fn lemma_total_nonneg(flag: spec_fn(int) -> int, n: int)
    requires
        forall|k: int| #[trigger] flag(k) >= 0,
    ensures
        tally::total(n, flag) >= 0,
    decreases n,
{
    if n > 0 {
        lemma_total_nonneg(flag, n - 1);
        assert(flag(n - 1) >= 0);
    }
}

/// A trade without legs is done, and one whose window closed is unknown after
/// exactly that long.
pub proof fn a_closed_window_says_nothing(legs: nat, timeout_ms: u64)
    ensures
        legs == 0 ==> (atomic::conclusion(legs, timeout_ms, None) matches Ok(fills) && fills.len()
            == 0),
        legs > 0 ==> (atomic::conclusion(legs, timeout_ms, None) matches Err(
            ExecutionErrorView::Timeout { elapsed_ms },
        ) && elapsed_ms == timeout_ms),
{
}

} // verus!
