//! Simulated fills against a real book.
//!
//! Paper mode exists to answer one question honestly: if this had been live,
//! what would have happened? That means filling the way the venue would — by
//! walking resting depth level by level and charging the real fee schedule —
//! not by assuming the whole order goes off at top of book. Filling a
//! 500-contract order at the best price would flatter every result the engine
//! ever reports, and in exactly the direction that makes a bad strategy look
//! good.
//!
//! The book snapshot is refreshed by the engine before each trade, so a paper
//! fill is priced off the same state the solver decided on.
use vstd::prelude::*;
use crate::book;
use crate::exec::atomic;
use crate::exec::{
    FillView, NewOrder, OrderAction, OrderError, OrderErrorView, OrderFill, OrderView, TimeInForce,
};
use crate::fees;
use crate::fees::{FeeModels, VenueFees};
use crate::solver::costing;
use crate::solver::types::Walk;
use crate::text;
use crate::types;
use crate::types::{Book, BookView, Cents, ContractId, Level, Side};

verus! {

pub struct PaperOrderClient {
    /// Books as of the moment the engine decided to trade.
    books: Vec<Book>,
    fees: FeeModels,
    next_order_id: u64,
    now_ms: u64,
    /// Every fill this client has simulated, for the trade log.
    pub filled: Vec<OrderFill>,
}

/// What a [`PaperOrderClient`] holds.
#[verifier::ext_equal]
pub struct PaperView {
    pub books: Seq<BookView>,
    pub fees: FeeModels,
    pub next_order_id: u64,
    pub now_ms: u64,
    pub filled: Seq<FillView>,
}

impl View for PaperOrderClient {
    type V = PaperView;

    closed spec fn view(&self) -> PaperView {
        PaperView {
            books: book::books_view(self.books@),
            fees: self.fees,
            next_order_id: self.next_order_id,
            now_ms: self.now_ms,
            filled: atomic::fills_view(self.filled@),
        }
    }
}

/// The first book of a contract.
pub open spec fn book_of(books: Seq<BookView>, contract: ContractId) -> Option<BookView>
    decreases books.len(),
{
    if books.len() == 0 {
        None
    } else if books[0].contract_id == contract {
        Some(books[0])
    } else {
        book_of(books.subrange(1, books.len() as int), contract)
    }
}

/// The levels that an order would consume.
pub open spec fn consumed(book: BookView, order: OrderView) -> Seq<Level> {
    costing::walked(costing::asks_for(book, order.outcome), order.quantity as int)
}

/// How many contracts an order would take.
pub open spec fn taken(book: BookView, order: OrderView) -> int {
    costing::min(costing::depth(consumed(book, order)), order.quantity as int)
}

/// What an order would pay per contract, in whole cents.
pub open spec fn average(book: BookView, order: OrderView) -> int {
    let quantity = taken(book, order);
    costing::premium(consumed(book, order), costing::max(quantity, 0)) / costing::max(quantity, 1)
}

/// The worst price that an order would pay, if it takes anything.
pub open spec fn worst(book: BookView, order: OrderView) -> Option<Cents> {
    costing::worst_price(consumed(book, order), costing::max(taken(book, order), 0), None)
}

/// What filling an order against a book comes to. A limit is the worst price
/// that is acceptable for any one contract: a fill that would go past it, even
/// where it averages out inside, is a miss.
pub open spec fn simulated(
    book: BookView,
    order: OrderView,
    models: &FeeModels,
    order_id: Seq<char>,
    now_ms: u64,
) -> Result<FillView, OrderErrorView> {
    let available = costing::depth(consumed(book, order));
    if order.action == OrderAction::Sell {
        Err(
            OrderErrorView::Rejected(
                "paper mode does not simulate sells; unwinding is phase 7"@,
            ),
        )
    } else if available < order.quantity && (order.time_in_force == TimeInForce::FillOrKill
        || available == 0) {
        Err(OrderErrorView::Unfillable { wanted: order.quantity, available: available as i64 })
    } else if average(book, order) > order.limit_price {
        Err(
            OrderErrorView::Rejected(
                "average "@ + text::signed_decimal(average(book, order)) + " exceeds limit "@
                    + text::signed_decimal(order.limit_price as int),
            ),
        )
    } else if worst(book, order) matches Some(price) && price > order.limit_price {
        Err(
            OrderErrorView::Rejected(
                "price "@ + text::signed_decimal(worst(book, order)->0 as int) + " exceeds limit "@
                    + text::signed_decimal(order.limit_price as int),
            ),
        )
    } else {
        Ok(
            FillView {
                order_id,
                contract_id: order.contract_id,
                outcome: order.outcome,
                action: order.action,
                quantity_filled: taken(book, order) as i64,
                average_price: average(book, order) as i64,
                fee_cents: costing::levied(
                    &models.venue_fees(book.venue),
                    book.contract_id,
                    consumed(book, order),
                    costing::max(taken(book, order), 0),
                ) as i64,
                timestamp_ms: now_ms,
            },
        )
    }
}

/// The number after an order number; it starts over where machine integers end.
pub open spec fn after(id: u64) -> u64 {
    if id < u64::MAX {
        (id + 1) as u64
    } else {
        0
    }
}

impl PaperView {
    /// Every book has its price slots.
    pub open spec fn wf(self) -> bool {
        forall|i: int| 0 <= i < self.books.len() ==> (#[trigger] self.books[i]).wf()
    }

    /// What placing an order comes to.
    pub open spec fn answer(self, order: OrderView) -> Result<FillView, OrderErrorView> {
        match book_of(self.books, order.contract_id) {
            None => Err(
                OrderErrorView::Rejected(
                    "no book for contract "@ + text::decimal(order.contract_id.0 as nat),
                ),
            ),
            Some(book) => simulated(
                book,
                order,
                &self.fees,
                "paper-"@ + text::decimal(self.next_order_id as nat),
                self.now_ms,
            ),
        }
    }

    /// Only a fill changes anything: it takes a number and goes into the log.
    pub open spec fn placing(self, order: OrderView) -> PaperView {
        match self.answer(order) {
            Ok(fill) => PaperView {
                next_order_id: after(self.next_order_id),
                filled: self.filled.push(fill),
                ..self
            },
            Err(_) => self,
        }
    }

    /// Machine integers hold what simulating an order computes.
    pub open spec fn placeable(self, order: OrderView) -> bool {
        book_of(self.books, order.contract_id) matches Some(book) ==> {
            &&& costing::price_of(consumed(book, order)) <= i64::MAX
            &&& costing::levies_fit(
                &self.fees.venue_fees(book.venue),
                book.contract_id,
                consumed(book, order),
                costing::max(taken(book, order), 0),
                0,
            )
        }
    }
}

impl PaperOrderClient {
    pub fn new(fees: FeeModels) -> (client: Self)
        ensures
            client@ == (PaperView {
                books: Seq::empty(),
                fees,
                next_order_id: 1,
                now_ms: 0,
                filled: Seq::empty(),
            }),
    {
        let client = PaperOrderClient {
            books: Vec::new(),
            fees,
            next_order_id: 1,
            now_ms: 0,
            filled: Vec::new(),
        };
        assert(client@.books =~= Seq::<BookView>::empty());
        assert(client@.filled =~= Seq::<FillView>::empty());
        client
    }

    /// Point the simulator at the current books and clock.
    pub fn observe(&mut self, books: &[Book], now_ms: u64)
        ensures
            final(self)@ == (PaperView { books: book::books_view(books@), now_ms, ..old(self)@ }),
    {
        let mut held: Vec<Book> = Vec::new();
        let mut i: usize = 0;
        while i < books.len()
            invariant
                i <= books@.len(),
                held@ == books@.subrange(0, i as int),
            decreases books@.len() - i,
        {
            held.push(books[i].clone());
            i = i + 1;
            assert(held@ =~= books@.subrange(0, i as int));
        }
        assert(books@.subrange(0, books@.len() as int) =~= books@);
        self.books = held;
        self.now_ms = now_ms;
    }

    /// Where the first book of a contract stands.
    fn find(&self, contract: ContractId) -> (slot: Option<usize>)
        ensures
            match slot {
                Some(i) => i < self.books@.len() && book_of(self@.books, contract) == Some(
                    self.books@[i as int]@,
                ),
                None => book_of(self@.books, contract) is None,
            },
    {
        let ghost books = self@.books;
        let mut i: usize = 0;
        assert(books.subrange(0, books.len() as int) =~= books);
        while i < self.books.len()
            invariant
                i <= self.books@.len(),
                books == self@.books,
                book_of(books, contract) == book_of(
                    books.subrange(i as int, books.len() as int),
                    contract,
                ),
            decreases self.books@.len() - i,
        {
            proof {
                let rest = books.subrange(i as int, books.len() as int);
                assert(rest[0] == self.books@[i as int]@);
                assert(rest.subrange(1, rest.len() as int) =~= books.subrange(
                    i + 1,
                    books.len() as int,
                ));
            }
            if self.books[i].contract_id == contract {
                return Some(i);
            }
            i = i + 1;
        }
        None
    }

    /// The first book of a contract.
    pub(crate) fn book(&self, contract: ContractId) -> (found: Option<&Book>)
        ensures
            match found {
                Some(book) => book_of(self@.books, contract) == Some(book@),
                None => book_of(self@.books, contract) is None,
            },
    {
        match self.find(contract) {
            Some(slot) => Some(&self.books[slot]),
            None => None,
        }
    }

    fn fill(&self, order: &NewOrder) -> (result: Result<OrderFill, OrderError>)
        requires
            self@.placeable(order@),
        ensures
            match result {
                Ok(fill) => self@.answer(order@) == Ok::<FillView, OrderErrorView>(fill@),
                Err(error) => self@.answer(order@) == Err::<FillView, OrderErrorView>(error@),
            },
    {
        let slot: usize = match self.find(order.contract_id) {
            Some(slot) => slot,
            None => {
                let mut why: String = String::from_str("no book for contract ");
                text::push_u64(&mut why, order.contract_id.0 as u64);
                return Err(OrderError::Rejected(why));
            },
        };
        let book: &Book = &self.books[slot];
        // Selling is only reached when unwinding a legged position. Refusing is
        // better than simulating a path the engine does not take.
        if order.action == OrderAction::Sell {
            return Err(
                OrderError::Rejected(
                    String::from_str("paper mode does not simulate sells; unwinding is phase 7"),
                ),
            );
        }
        let walk: Walk = costing::walk_depth_and_cost(book, order.outcome, order.quantity);
        if walk.filled < order.quantity {
            // Fill-or-kill is the whole point: a partial would leave the
            // position unbalanced, which is the thing the executor exists to
            // avoid.
            if order.time_in_force == TimeInForce::FillOrKill {
                return Err(
                    OrderError::Unfillable { wanted: order.quantity, available: walk.filled },
                );
            }
            if walk.filled == 0 {
                return Err(OrderError::Unfillable { wanted: order.quantity, available: 0 });
            }
        }
        let quantity: i64 = if walk.filled < order.quantity {
            walk.filled
        } else {
            order.quantity
        };
        proof {
            lemma_premium_fits(walk.consumed@, quantity as int);
        }
        proof {
            costing::lemma_premiums_fit(walk.consumed@, costing::max(quantity as int, 0), 0);
        }
        let cost: i64 = costing::total_cost_cents(walk.consumed.as_slice(), quantity);
        // The solver costed this trade at a limit price. A book that moved
        // against it between decision and placement is a miss, not a fill at a
        // worse price.
        let contracts: u64 = if quantity > 1 {
            quantity as u64
        } else {
            1
        };
        let average: i64 = (cost as u64 / contracts) as i64;
        if average > order.limit_price {
            let mut why: String = String::from_str("average ");
            text::push_i64(&mut why, average);
            why.append(" exceeds limit ");
            text::push_i64(&mut why, order.limit_price);
            return Err(OrderError::Rejected(why));
        }
        proof {
            costing::lemma_countdown_fits(walk.consumed@, costing::max(quantity as int, 0));
        }
        if let Some(price) = costing::worst_price_cents(walk.consumed.as_slice(), quantity) {
            if price > order.limit_price {
                let mut why: String = String::from_str("price ");
                text::push_i64(&mut why, price);
                why.append(" exceeds limit ");
                text::push_i64(&mut why, order.limit_price);
                return Err(OrderError::Rejected(why));
            }
        }
        let schedule: VenueFees<'_> = self.fees.for_venue(book.venue);
        let fee: i64 = costing::apply_fees_per_level(
            walk.consumed.as_slice(),
            book.contract_id,
            quantity,
            &schedule,
        );
        let mut order_id: String = String::from_str("paper-");
        text::push_u64(&mut order_id, self.next_order_id);
        Ok(
            OrderFill {
                order_id,
                contract_id: order.contract_id,
                outcome: order.outcome,
                action: order.action,
                quantity_filled: quantity,
                average_price: average,
                fee_cents: fee,
                timestamp_ms: self.now_ms,
            },
        )
    }

    /// Fill an order against the books last observed, and log the fill.
    pub fn place_order(&mut self, order: &NewOrder) -> (result: Result<OrderFill, OrderError>)
        requires
            old(self)@.placeable(order@),
        ensures
            match result {
                Ok(fill) => old(self)@.answer(order@) == Ok::<FillView, OrderErrorView>(fill@),
                Err(error) => old(self)@.answer(order@) == Err::<FillView, OrderErrorView>(error@),
            },
            final(self)@ == old(self)@.placing(order@),
    {
        let fill: OrderFill = match self.fill(order) {
            Ok(fill) => fill,
            Err(error) => return Err(error),
        };
        let ghost logged = self@.filled;
        self.next_order_id = self.next_order_id.wrapping_add(1);
        self.filled.push(fill.clone());
        assert(self@.filled =~= logged.push(fill@));
        Ok(fill)
    }

    /// Nothing rests in paper mode: every order fills or dies immediately.
    pub fn cancel_order(&self, _order_id: &str) -> (result: Result<(), OrderError>)
        ensures
            result is Ok,
    {
        Ok(())
    }

    /// Whether this client can move real money.
    pub fn is_live(&self) -> (live: bool)
        ensures
            !live,
    {
        false
    }
}

/// What taking a whole ladder costs bounds what taking part of it does.
proof fn lemma_premium_fits(ladder: Seq<Level>, quantity: int)
    requires
        costing::ladder_wf(ladder),
        quantity <= costing::depth(ladder),
        costing::price_of(ladder) <= i64::MAX,
    ensures
        0 <= costing::premium(ladder, costing::max(quantity, 0)) <= i64::MAX,
{
    costing::lemma_premium_within(ladder, costing::max(quantity, 0));
}

/// The price per contract that buying `quantity` would pay right now.
pub open spec fn price_now(book: BookView, outcome: Side, quantity: i64) -> Option<Cents> {
    let ladder = costing::walked(costing::asks_for(book, outcome), quantity as int);
    if costing::depth(ladder) == quantity && quantity > 0 {
        Some((costing::premium(ladder, quantity as int) / quantity as int) as i64)
    } else {
        None
    }
}

/// Price per contract if `quantity` were bought right now, for display.
pub fn marketable_price(book: &Book, outcome: Side, quantity: i64) -> (price: Option<Cents>)
    requires
        costing::price_of(
            costing::walked(costing::asks_for(book@, outcome), quantity as int),
        ) <= i64::MAX,
    ensures
        price == price_now(book@, outcome, quantity),
{
    let walk: Walk = costing::walk_depth_and_cost(book, outcome, quantity);
    if walk.filled == quantity && quantity > 0 {
        proof {
            lemma_premium_fits(walk.consumed@, quantity as int);
        }
        proof {
            costing::lemma_premiums_fit(walk.consumed@, quantity as int, 0);
        }
        let cost: i64 = costing::total_cost_cents(walk.consumed.as_slice(), quantity);
        Some((cost as u64 / quantity as u64) as i64)
    } else {
        None
    }
}

/// Helper for tests and the trade log: which book a fill belongs to.
pub fn contract_of(fill: &OrderFill) -> (contract: ContractId)
    ensures
        contract == fill.contract_id,
{
    fill.contract_id
}

// ---------------------------------------------------------------------------
// Laws
// ---------------------------------------------------------------------------

proof fn lemma_book_of(books: Seq<BookView>, contract: ContractId)
    requires
        forall|i: int| 0 <= i < books.len() ==> (#[trigger] books[i]).wf(),
    ensures
        book_of(books, contract) matches Some(book) ==> book.wf() && book.contract_id == contract,
    decreases books.len(),
{
    if books.len() > 0 && books[0].contract_id != contract {
        let rest = books.subrange(1, books.len() as int);
        assert forall|i: int| 0 <= i < rest.len() implies (#[trigger] rest[i]).wf() by {
            assert(rest[i] == books[i + 1]);
        }
        lemma_book_of(rest, contract);
    }
}

/// Where the schedules can charge `most` contracts, any order of up to that many can
/// be placed, whatever the books hold.
pub proof fn a_sizable_order_can_be_placed(client: PaperView, order: OrderView, most: int)
    requires
        client.wf(),
        order.quantity <= most,
        most * 100 <= i64::MAX,
        fees::charges_up_to(&client.fees, most),
    ensures
        client.placeable(order),
{
    if let Some(book) = book_of(client.books, order.contract_id) {
        lemma_book_of(client.books, order.contract_id);
        let asks = costing::asks_for(book, order.outcome);
        types::lemma_offered(book.no, 100);
        types::lemma_offered(book.yes, 100);
        costing::lemma_walked(asks, order.quantity as int);
        let ladder = consumed(book, order);
        let q = costing::max(taken(book, order), 0);
        let k = fees::dearest_per_contract(&client.fees);
        if most >= 0 {
            assert(0 + q * k <= most * k) by (nonlinear_arith)
                requires
                    q <= most,
                    k >= 0,
            ;
            costing::lemma_levied_bounds(
                &client.fees,
                book.venue,
                book.contract_id,
                ladder,
                q,
                most,
                0,
            );
        } else {
            assert(ladder =~= Seq::<Level>::empty());
        }
    }
}

/// A fill-or-kill order is all or nothing: what is filled is what was asked,
/// at no worse than the limit, on the contract and outcome that were named.
pub proof fn fill_or_kill_is_all_or_nothing(client: PaperView, order: OrderView)
    requires
        client.wf(),
        client.placeable(order),
        order.time_in_force == TimeInForce::FillOrKill,
    ensures
        match client.answer(order) {
            Ok(fill) => {
                &&& fill.quantity_filled == order.quantity
                &&& fill.average_price <= order.limit_price
                &&& fill.contract_id == order.contract_id
                &&& fill.outcome == order.outcome
                &&& fill.action == OrderAction::Buy
                &&& fill.timestamp_ms == client.now_ms
            },
            Err(_) => client.placing(order) == client,
        },
{
    if let Some(book) = book_of(client.books, order.contract_id) {
        lemma_book_of(client.books, order.contract_id);
        let asks = costing::asks_for(book, order.outcome);
        types::lemma_offered(book.no, 100);
        types::lemma_offered(book.yes, 100);
        costing::lemma_walked(asks, order.quantity as int);
        let quantity = taken(book, order);
        if quantity <= costing::depth(consumed(book, order)) {
            lemma_premium_fits(consumed(book, order), quantity);
        }
        let cost = costing::premium(consumed(book, order), costing::max(quantity, 0));
        let contracts = costing::max(quantity, 1);
        assert(0 <= cost / contracts <= cost) by (nonlinear_arith)
            requires
                0 <= cost,
                1 <= contracts,
        ;
    }
}

/// Every contract of a fill was taken from a level priced at or below the limit,
/// and the fill holds every contract of the levels it took and none besides.
pub proof fn every_contract_is_filled_inside_the_limit(client: PaperView, order: OrderView)
    requires
        client.wf(),
        client.placeable(order),
        order.quantity > 0,
    ensures
        client.answer(order) matches Ok(fill) ==> {
            let book = book_of(client.books, order.contract_id)->0;
            let levels = consumed(book, order);
            &&& book_of(client.books, order.contract_id) is Some
            &&& 1 <= fill.quantity_filled <= order.quantity
            &&& fill.quantity_filled == costing::depth(levels)
            &&& forall|i: int|
                0 <= i < levels.len() ==> (#[trigger] levels[i]).price <= order.limit_price
            &&& fill.fee_cents == costing::levied(
                &client.fees.venue_fees(book.venue),
                book.contract_id,
                levels,
                costing::depth(levels),
            )
        },
{
    if let Some(book) = book_of(client.books, order.contract_id) {
        lemma_book_of(client.books, order.contract_id);
        let asks = costing::asks_for(book, order.outcome);
        types::lemma_offered(book.no, 100);
        types::lemma_offered(book.yes, 100);
        costing::lemma_walked(asks, order.quantity as int);
        costing::lemma_walked_ascending(asks, order.quantity as int);
        let levels = consumed(book, order);
        costing::lemma_depth_nonneg(levels);
        if levels.len() > 0 {
            costing::lemma_worst_is_last(levels, None);
            costing::lemma_levied_fits(
                &client.fees.venue_fees(book.venue),
                book.contract_id,
                levels,
                costing::depth(levels),
                0,
            );
        }
    }
}

} // verus!
