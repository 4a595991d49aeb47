//! Positions, capital, and profit and loss.
//!
//! Capital is the scarce resource. A prediction market position is money locked
//! until the event settles, so the portfolio's job is to know, at every instant,
//! how much is committed, to what, and what it is currently worth.
//!
//! Every quantity is integer [`Cents`]. Marking to market is deliberately
//! pessimistic: a position is valued at what it could be *sold* for right now,
//! which is the bid, not the mid and not the ask. Valuing at the mid would book
//! an unrealized profit that the spread would take back on exit.
use vstd::prelude::*;
use crate::fees;
use crate::registry::EventId;
use crate::solver::costing::Quotes;
use crate::solver::BookSource;
use crate::text;
use crate::types;
use crate::types::{Book, BookView, Cents, ContractId, Level, Side};

pub mod laws;

verus! {

#[derive(Clone, Debug, PartialEq)]
pub struct PositionLeg {
    pub contract_id: ContractId,
    /// The outcome held. Both legs of an arbitrage are long positions in
    /// opposing outcomes; nothing here is short.
    pub side: Side,
    pub quantity: i64,
    pub average_entry_price: Cents,
    pub order_ids: Vec<String>,
}

/// What a [`PositionLeg`] says.
#[verifier::ext_equal]
pub struct PositionLegView {
    pub contract_id: ContractId,
    pub side: Side,
    pub quantity: i64,
    pub average_entry_price: Cents,
    pub order_ids: Seq<Seq<char>>,
}

impl View for PositionLeg {
    type V = PositionLegView;

    open spec fn view(&self) -> PositionLegView {
        PositionLegView {
            contract_id: self.contract_id,
            side: self.side,
            quantity: self.quantity,
            average_entry_price: self.average_entry_price,
            order_ids: text::views(self.order_ids@),
        }
    }
}

impl PositionLegView {
    /// Premium paid for this leg, excluding fees.
    pub open spec fn premium(self) -> int {
        self.quantity * self.average_entry_price
    }

    /// What this leg pays if the event resolves one way.
    pub open spec fn payoff(self, resolved_yes: bool) -> int {
        if (self.side == Side::Yes) == resolved_yes {
            self.quantity * 100
        } else {
            0
        }
    }

    /// The bid that this leg would be sold into.
    pub open spec fn exit(self, book: BookView) -> Option<Level> {
        match self.side {
            Side::Yes => types::first_level(book.bids()),
            Side::No => types::first_level(book.no_bids()),
        }
    }

    /// What this leg could be sold for: at the bid, and at nothing where there
    /// is no bid or no book.
    pub open spec fn liquidation(self, quotes: Quotes) -> int {
        match quotes(self.contract_id) {
            None => 0,
            Some(book) => match self.exit(book) {
                Some(level) => self.quantity * level.price,
                None => 0,
            },
        }
    }
}

impl PositionLeg {
    /// Premium paid for this leg, excluding fees.
    pub fn cost_cents(&self) -> (cost: Cents)
        requires
            fees::fits(self@.premium()),
        ensures
            cost == self@.premium(),
    {
        self.quantity * self.average_entry_price
    }

    /// What this leg pays if the event resolves yes.
    fn payoff_cents(&self, resolved_yes: bool) -> (payoff: Cents)
        requires
            fees::fits(self@.payoff(resolved_yes)),
        ensures
            payoff == self@.payoff(resolved_yes),
    {
        let pays: bool = match self.side {
            Side::Yes => resolved_yes,
            Side::No => !resolved_yes,
        };
        if pays {
            self.quantity * 100
        } else {
            0
        }
    }

    /// What this leg could be liquidated for right now, at the bid.
    fn liquidation_cents<B: BookSource>(&self, books: &B) -> (value: Cents)
        requires
            fees::fits(self@.liquidation(books.quotes())),
        ensures
            value == self@.liquidation(books.quotes()),
    {
        let book: &Book = match books.book(self.contract_id) {
            Some(book) => book,
            None => return 0,
        };
        let best: Option<Level> = match self.side {
            // Selling a yes means hitting the resting yes bid; selling a no
            // means hitting the resting no bid.
            Side::Yes => book.best_bid(),
            Side::No => book.best_no_bid(),
        };
        match best {
            Some(level) => self.quantity * level.price,
            // No bid at all means no exit at any price, so the honest mark is
            // zero rather than the last trade or the other side's quote.
            None => 0,
        }
    }
}

#[derive(Clone, Debug, PartialEq)]
pub struct Position {
    pub event_id: EventId,
    pub group: u32,
    pub legs: Vec<PositionLeg>,
    /// Capital locked: premium plus the fees paid to enter.
    pub cost_cents: Cents,
    /// Fees paid on entry, already included in `cost_cents`.
    pub fees_cents: Cents,
    pub entry_time_ms: u64,
    pub resolved: bool,
    pub pnl_realized_cents: Cents,
    pub pnl_unrealized_cents: Cents,
}

/// What a [`Position`] says.
#[verifier::ext_equal]
pub struct PositionView {
    pub event_id: EventId,
    pub group: u32,
    pub legs: Seq<PositionLegView>,
    pub cost_cents: Cents,
    pub fees_cents: Cents,
    pub entry_time_ms: u64,
    pub resolved: bool,
    pub pnl_realized_cents: Cents,
    pub pnl_unrealized_cents: Cents,
}

pub open spec fn legs_view(legs: Seq<PositionLeg>) -> Seq<PositionLegView> {
    legs.map_values(|leg: PositionLeg| leg@)
}

impl View for Position {
    type V = PositionView;

    open spec fn view(&self) -> PositionView {
        PositionView {
            event_id: self.event_id,
            group: self.group,
            legs: legs_view(self.legs@),
            cost_cents: self.cost_cents,
            fees_cents: self.fees_cents,
            entry_time_ms: self.entry_time_ms,
            resolved: self.resolved,
            pnl_realized_cents: self.pnl_realized_cents,
            pnl_unrealized_cents: self.pnl_unrealized_cents,
        }
    }
}

/// What the first `n` legs pay in a resolution.
pub open spec fn payoff_of(legs: Seq<PositionLegView>, resolved_yes: bool, n: int) -> int
    decreases n,
{
    if n <= 0 {
        0
    } else {
        payoff_of(legs, resolved_yes, n - 1) + legs[n - 1].payoff(resolved_yes)
    }
}

/// What the first `n` legs could be sold for.
pub open spec fn value_of(legs: Seq<PositionLegView>, quotes: Quotes, n: int) -> int
    decreases n,
{
    if n <= 0 {
        0
    } else {
        value_of(legs, quotes, n - 1) + legs[n - 1].liquidation(quotes)
    }
}

impl PositionView {
    /// Payoff in a resolution, minus what it cost to get in.
    pub open spec fn pnl(self, resolved_yes: bool) -> int {
        payoff_of(self.legs, resolved_yes, self.legs.len() as int) - self.cost_cents
    }

    /// Machine integers hold the settlement of this position.
    pub open spec fn settles(self, resolved_yes: bool) -> bool {
        &&& forall|i: int|
            0 <= i < self.legs.len() ==> fees::fits(
                (#[trigger] self.legs[i]).payoff(resolved_yes),
            )
        &&& forall|n: int|
            0 <= n <= self.legs.len() ==> fees::fits(
                #[trigger] payoff_of(self.legs, resolved_yes, n),
            )
        &&& fees::fits(self.pnl(resolved_yes))
        &&& self.pnl(resolved_yes) > i64::MIN
    }

    /// What selling every leg now would bring, minus the cost.
    pub open spec fn mark(self, quotes: Quotes) -> int {
        value_of(self.legs, quotes, self.legs.len() as int) - self.cost_cents
    }

    /// Machine integers hold the mark of this position.
    pub open spec fn marks(self, quotes: Quotes) -> bool {
        &&& forall|i: int|
            0 <= i < self.legs.len() ==> fees::fits(
                (#[trigger] self.legs[i]).liquidation(quotes),
            )
        &&& forall|n: int|
            0 <= n <= self.legs.len() ==> fees::fits(#[trigger] value_of(self.legs, quotes, n))
        &&& fees::fits(self.mark(quotes))
    }

    pub open spec fn settled(self, resolved_yes: bool) -> PositionView {
        PositionView {
            resolved: true,
            pnl_realized_cents: self.pnl(resolved_yes) as i64,
            pnl_unrealized_cents: 0,
            ..self
        }
    }
}

impl Position {
    /// Payoff in a given resolution, minus what it cost to get in.
    pub fn pnl_at_resolution(&self, resolved_yes: bool) -> (pnl: Cents)
        requires
            self@.settles(resolved_yes),
        ensures
            pnl == self@.pnl(resolved_yes),
    {
        let ghost legs = self@.legs;
        let mut payoff: i64 = 0;
        let mut i: usize = 0;
        while i < self.legs.len()
            invariant
                i <= self.legs@.len(),
                legs == self@.legs,
                self@.settles(resolved_yes),
                payoff == payoff_of(legs, resolved_yes, i as int),
            decreases self.legs@.len() - i,
        {
            proof {
                assert(legs[i as int] == self.legs@[i as int]@);
                assert(fees::fits(payoff_of(legs, resolved_yes, i + 1)));
            }
            payoff = payoff + self.legs[i].payoff_cents(resolved_yes);
            i = i + 1;
        }
        payoff - self.cost_cents
    }

    /// What selling every leg now would bring, minus the cost.
    fn mark_cents<B: BookSource>(&self, books: &B) -> (mark: Cents)
        requires
            self@.marks(books.quotes()),
        ensures
            mark == self@.mark(books.quotes()),
    {
        let ghost legs = self@.legs;
        let ghost quotes = books.quotes();
        let mut value: i64 = 0;
        let mut i: usize = 0;
        while i < self.legs.len()
            invariant
                i <= self.legs@.len(),
                legs == self@.legs,
                quotes == books.quotes(),
                self@.marks(quotes),
                value == value_of(legs, quotes, i as int),
            decreases self.legs@.len() - i,
        {
            proof {
                assert(legs[i as int] == self.legs@[i as int]@);
                assert(fees::fits(value_of(legs, quotes, i + 1)));
            }
            value = value + self.legs[i].liquidation_cents(books);
            i = i + 1;
        }
        value - self.cost_cents
    }
}

#[derive(Clone, Copy, Debug, PartialEq, Eq, Structural)]
pub enum PortfolioError {
    /// Not enough uncommitted capital to pay for the position.
    InsufficientCapital { needed: Cents, available: Cents },
    /// Today's realized losses have reached the limit; the day is closed.
    DailyLossExceeded { realized: Cents, limit: Cents },
    /// The event is not in the portfolio.
    UnknownEvent,
}

/// The message of a [`PortfolioError`].
pub open spec fn portfolio_error_message(error: PortfolioError) -> Seq<char> {
    match error {
        PortfolioError::InsufficientCapital { needed, available } => "position needs "@
            + text::signed_decimal(needed as int) + " cents, "@ + text::signed_decimal(
            available as int,
        ) + " available"@,
        PortfolioError::DailyLossExceeded { realized, limit } => "daily loss "@
            + text::signed_decimal(realized as int) + " cents has reached the "@
            + text::signed_decimal(limit as int) + " limit"@,
        PortfolioError::UnknownEvent => "event is not held"@,
    }
}

impl PortfolioError {
    /// What went wrong, for a log line.
    pub fn message(&self) -> (out: String)
        ensures
            out@ == portfolio_error_message(*self),
    {
        match self {
            PortfolioError::InsufficientCapital { needed, available } => {
                let mut out: String = String::from_str("position needs ");
                text::push_i64(&mut out, *needed);
                out.append(" cents, ");
                text::push_i64(&mut out, *available);
                out.append(" available");
                out
            },
            PortfolioError::DailyLossExceeded { realized, limit } => {
                let mut out: String = String::from_str("daily loss ");
                text::push_i64(&mut out, *realized);
                out.append(" cents has reached the ");
                text::push_i64(&mut out, *limit);
                out.append(" limit");
                out
            },
            PortfolioError::UnknownEvent => String::from_str("event is not held"),
        }
    }
}

/// A day's worth of realized loss and the capital behind it.
#[derive(Clone, Debug, PartialEq)]
pub struct Portfolio {
    /// Cash not currently committed to a position.
    pub capital_available_cents: Cents,
    pub positions: Vec<Position>,
    pub daily_loss_limit_cents: Cents,
    /// Realized losses today, as a positive number. Profits do not offset it:
    /// the limit exists to stop a bad day, and letting a win earlier in the
    /// session buy back room to lose is how a bad day becomes a worse one.
    pub daily_loss_realized_cents: Cents,
    /// Next UTC midnight, in epoch milliseconds.
    pub daily_reset_at_ms: u64,
    pub pnl_realized_cents: Cents,
}

/// What a [`Portfolio`] holds.
#[verifier::ext_equal]
pub struct PortfolioView {
    pub capital_available_cents: Cents,
    pub positions: Seq<PositionView>,
    pub daily_loss_limit_cents: Cents,
    pub daily_loss_realized_cents: Cents,
    pub daily_reset_at_ms: u64,
    pub pnl_realized_cents: Cents,
}

pub open spec fn positions_view(positions: Seq<Position>) -> Seq<PositionView> {
    positions.map_values(|position: Position| position@)
}

impl View for Portfolio {
    type V = PortfolioView;

    open spec fn view(&self) -> PortfolioView {
        PortfolioView {
            capital_available_cents: self.capital_available_cents,
            positions: positions_view(self.positions@),
            daily_loss_limit_cents: self.daily_loss_limit_cents,
            daily_loss_realized_cents: self.daily_loss_realized_cents,
            daily_reset_at_ms: self.daily_reset_at_ms,
            pnl_realized_cents: self.pnl_realized_cents,
        }
    }
}

/// Milliseconds in a day.
pub const DAY_MS: u64 = 86_400_000;

/// The next UTC midnight strictly after an instant.
pub open spec fn midnight_after(now_ms: u64) -> int {
    (now_ms as int / DAY_MS as int + 1) * DAY_MS
}

/// Capital locked in open positions among the first `n`, on one event or on
/// all of them.
pub open spec fn locked(positions: Seq<PositionView>, event: Option<EventId>, n: int) -> int
    decreases n,
{
    if n <= 0 {
        0
    } else {
        let position = positions[n - 1];
        locked(positions, event, n - 1) + if !position.resolved && (event is None
            || event == Some(position.event_id)) {
            position.cost_cents as int
        } else {
            0
        }
    }
}

/// Open positions among the first `n`.
pub open spec fn open_among(positions: Seq<PositionView>, n: int) -> int
    decreases n,
{
    if n <= 0 {
        0
    } else {
        open_among(positions, n - 1) + if !positions[n - 1].resolved {
            1int
        } else {
            0
        }
    }
}

/// Unrealized profit of the open positions among the first `n`.
pub open spec fn unrealized(positions: Seq<PositionView>, n: int) -> int
    decreases n,
{
    if n <= 0 {
        0
    } else {
        unrealized(positions, n - 1) + if !positions[n - 1].resolved {
            positions[n - 1].pnl_unrealized_cents as int
        } else {
            0
        }
    }
}

/// What settling one event brings, over the first `n` positions.
pub open spec fn settlement(
    positions: Seq<PositionView>,
    event: EventId,
    resolved_yes: bool,
    n: int,
) -> Settlement
    decreases n,
{
    if n <= 0 {
        Settlement { found: false, payoff: 0, pnl: 0, loss: 0 }
    } else {
        let before = settlement(positions, event, resolved_yes, n - 1);
        let position = positions[n - 1];
        if position.resolved || position.event_id != event {
            before
        } else {
            let pnl = position.pnl(resolved_yes);
            Settlement {
                found: true,
                payoff: before.payoff + position.cost_cents + pnl,
                pnl: before.pnl + pnl,
                loss: before.loss + if pnl < 0 {
                    -pnl
                } else {
                    0
                },
            }
        }
    }
}

/// The running totals of a settlement.
pub struct Settlement {
    pub found: bool,
    /// Cash that comes back.
    pub payoff: int,
    /// Profit, signed.
    pub pnl: int,
    /// Losses, as a positive number; profits do not offset them.
    pub loss: int,
}

/// The positions after one event settles.
pub open spec fn settled_positions(
    positions: Seq<PositionView>,
    event: EventId,
    resolved_yes: bool,
) -> Seq<PositionView> {
    positions.map_values(
        |position: PositionView|
            if !position.resolved && position.event_id == event {
                position.settled(resolved_yes)
            } else {
                position
            },
    )
}

impl PortfolioView {
    /// Costs are never negative, and cash plus what is locked fits a machine
    /// integer.
    pub open spec fn wf(self) -> bool {
        &&& self.capital_available_cents >= 0
        &&& forall|i: int|
            0 <= i < self.positions.len() ==> (#[trigger] self.positions[i]).cost_cents >= 0
        &&& self.capital_available_cents + self.capital_locked() <= i64::MAX
    }

    pub open spec fn capital_locked(self) -> int {
        locked(self.positions, None, self.positions.len() as int)
    }

    pub open spec fn exposure(self, event: EventId) -> int {
        locked(self.positions, Some(event), self.positions.len() as int)
    }

    pub open spec fn open_count(self) -> int {
        open_among(self.positions, self.positions.len() as int)
    }

    pub open spec fn day_open(self) -> bool {
        self.daily_loss_realized_cents < self.daily_loss_limit_cents
    }

    /// Why a position cannot be taken on.
    pub open spec fn refusal(self, position: PositionView) -> Option<PortfolioError> {
        if !self.day_open() {
            Some(
                PortfolioError::DailyLossExceeded {
                    realized: self.daily_loss_realized_cents,
                    limit: self.daily_loss_limit_cents,
                },
            )
        } else if self.capital_available_cents < position.cost_cents {
            Some(
                PortfolioError::InsufficientCapital {
                    needed: position.cost_cents,
                    available: self.capital_available_cents,
                },
            )
        } else {
            None
        }
    }

    pub open spec fn holding(self, position: PositionView) -> PortfolioView {
        PortfolioView {
            capital_available_cents: (self.capital_available_cents - position.cost_cents) as i64,
            positions: self.positions.push(position),
            ..self
        }
    }

    pub open spec fn settlement_of(self, event: EventId, resolved_yes: bool) -> Settlement {
        settlement(self.positions, event, resolved_yes, self.positions.len() as int)
    }

    pub open spec fn realized(self, event: EventId, resolved_yes: bool) -> PortfolioView {
        let totals = self.settlement_of(event, resolved_yes);
        PortfolioView {
            capital_available_cents: (self.capital_available_cents + totals.payoff) as i64,
            positions: settled_positions(self.positions, event, resolved_yes),
            daily_loss_realized_cents: (self.daily_loss_realized_cents + totals.loss) as i64,
            pnl_realized_cents: (self.pnl_realized_cents + totals.pnl) as i64,
            ..self
        }
    }

    /// Machine integers hold every running total of a settlement.
    pub open spec fn settles(self, event: EventId, resolved_yes: bool) -> bool {
        &&& forall|i: int|
            0 <= i < self.positions.len() && !self.positions[i].resolved
                && self.positions[i].event_id == event ==> (#[trigger] self.positions[i]).settles(
                resolved_yes,
            )
        &&& forall|n: int|
            0 <= n <= self.positions.len() ==> {
                let totals = #[trigger] settlement(self.positions, event, resolved_yes, n);
                &&& fees::fits(totals.pnl)
                &&& fees::fits(self.capital_available_cents + totals.payoff)
                &&& fees::fits(self.pnl_realized_cents + totals.pnl)
                &&& fees::fits(self.daily_loss_realized_cents + totals.loss)
            }
    }

    pub open spec fn marked(self, quotes: Quotes) -> PortfolioView {
        PortfolioView {
            positions: self.positions.map_values(
                |position: PositionView|
                    if position.resolved {
                        position
                    } else {
                        PositionView {
                            pnl_unrealized_cents: position.mark(quotes) as i64,
                            ..position
                        }
                    },
            ),
            ..self
        }
    }

    /// Machine integers hold the mark of every open position.
    pub open spec fn marks(self, quotes: Quotes) -> bool {
        forall|i: int|
            0 <= i < self.positions.len() && !self.positions[i].resolved ==> (
            #[trigger] self.positions[i]).marks(quotes)
    }
}

/// Machine integers hold every running sum of locked capital.
pub open spec fn locked_fits(positions: Seq<PositionView>, event: Option<EventId>) -> bool {
    forall|n: int| 0 <= n <= positions.len() ==> fees::fits(#[trigger] locked(positions, event, n))
}

/// Machine integers hold every running sum of unrealized profit.
pub open spec fn unrealized_fits(positions: Seq<PositionView>) -> bool {
    forall|n: int| 0 <= n <= positions.len() ==> fees::fits(#[trigger] unrealized(positions, n))
}

/// The next UTC midnight strictly after `now_ms`.
///
/// Calendar midnight, not "24 hours from whenever the process started": a loss
/// limit that resets at a different wall-clock time on every restart is not a
/// daily limit, and two restarts in one day would hand out two fresh budgets.
pub fn next_utc_midnight_ms(now_ms: u64) -> (midnight: u64)
    requires
        midnight_after(now_ms) <= u64::MAX,
    ensures
        midnight == midnight_after(now_ms),
{
    (now_ms / DAY_MS + 1) * DAY_MS
}

impl Portfolio {
    pub fn new(
        starting_capital_cents: Cents,
        daily_loss_limit_cents: Cents,
        now_ms: u64,
    ) -> (portfolio: Self)
        requires
            midnight_after(now_ms) <= u64::MAX,
        ensures
            portfolio@ == (PortfolioView {
                capital_available_cents: starting_capital_cents,
                positions: Seq::empty(),
                daily_loss_limit_cents,
                daily_loss_realized_cents: 0,
                daily_reset_at_ms: midnight_after(now_ms) as u64,
                pnl_realized_cents: 0,
            }),
            starting_capital_cents >= 0 ==> portfolio@.wf(),
    {
        let portfolio = Portfolio {
            capital_available_cents: starting_capital_cents,
            positions: Vec::new(),
            daily_loss_limit_cents,
            daily_loss_realized_cents: 0,
            daily_reset_at_ms: next_utc_midnight_ms(now_ms),
            pnl_realized_cents: 0,
        };
        assert(portfolio@.positions =~= Seq::<PositionView>::empty());
        portfolio
    }

    pub fn can_afford(&self, cost_cents: Cents) -> (affordable: bool)
        ensures
            affordable == (self@.capital_available_cents >= cost_cents),
    {
        self.capital_available_cents >= cost_cents
    }

    /// Whether the day is still open for new risk.
    pub fn within_daily_loss_limit(&self) -> (open: bool)
        ensures
            open == self@.day_open(),
    {
        self.daily_loss_realized_cents < self.daily_loss_limit_cents
    }

    /// Commit capital and take on a position.
    ///
    /// Capital moves out of `capital_available_cents` here and comes back only
    /// at resolution. The two checks are the last gate before money is at risk,
    /// so they are enforced on the way in rather than assumed by the caller.
    pub fn add_position(&mut self, position: Position) -> (result: Result<(), PortfolioError>)
        requires
            fees::fits(old(self)@.capital_available_cents - position@.cost_cents),
        ensures
            match old(self)@.refusal(position@) {
                Some(error) => result == Err::<(), PortfolioError>(error) && final(self)@ == old(
                    self,
                )@,
                None => result is Ok && final(self)@ == old(self)@.holding(position@),
            },
            old(self)@.wf() && position@.cost_cents >= 0 ==> final(self)@.wf(),
    {
        if !self.within_daily_loss_limit() {
            return Err(
                PortfolioError::DailyLossExceeded {
                    realized: self.daily_loss_realized_cents,
                    limit: self.daily_loss_limit_cents,
                },
            );
        }
        if !self.can_afford(position.cost_cents) {
            return Err(
                PortfolioError::InsufficientCapital {
                    needed: position.cost_cents,
                    available: self.capital_available_cents,
                },
            );
        }
        let ghost taken = position@;
        self.capital_available_cents = self.capital_available_cents - position.cost_cents;
        self.positions.push(position);
        proof {
            assert(self@ =~= old(self)@.holding(taken));
            if old(self)@.wf() && taken.cost_cents >= 0 {
                lemma_locked_push(old(self)@.positions, taken, None);
                assert forall|i: int| 0 <= i < self@.positions.len() implies (
                #[trigger] self@.positions[i]).cost_cents >= 0 by {
                    if i < old(self)@.positions.len() {
                        assert(self@.positions[i] == old(self)@.positions[i]);
                    }
                }
            }
        }
        Ok(())
    }

    /// Exposure to one event, as capital currently locked in it.
    pub fn exposure_to(&self, event: EventId) -> (cents: Cents)
        requires
            locked_fits(self@.positions, Some(event)),
        ensures
            cents == self@.exposure(event),
    {
        self.locked_in(Some(event))
    }

    /// Capital locked in open positions, on one event or on all of them.
    fn locked_in(&self, event: Option<EventId>) -> (cents: Cents)
        requires
            locked_fits(self@.positions, event),
        ensures
            cents == locked(self@.positions, event, self@.positions.len() as int),
    {
        let ghost positions = self@.positions;
        let mut cents: i64 = 0;
        let mut i: usize = 0;
        while i < self.positions.len()
            invariant
                i <= self.positions@.len(),
                positions == self@.positions,
                locked_fits(positions, event),
                cents == locked(positions, event, i as int),
            decreases self.positions@.len() - i,
        {
            proof {
                assert(positions[i as int] == self.positions@[i as int]@);
                assert(fees::fits(locked(positions, event, i + 1)));
            }
            let wanted: bool = match event {
                None => true,
                Some(id) => self.positions[i].event_id == id,
            };
            if !self.positions[i].resolved && wanted {
                cents = cents + self.positions[i].cost_cents;
            }
            i = i + 1;
        }
        cents
    }

    /// The positions that have not settled.
    pub fn open_positions(&self) -> (open: Vec<&Position>)
        ensures
            open@.map_values(|position: &Position| position@) == self@.positions.filter(
                |position: PositionView| !position.resolved,
            ),
    {
        let ghost positions = self@.positions;
        let ghost unsettled = |position: PositionView| !position.resolved;
        let mut open: Vec<&Position> = Vec::new();
        let mut i: usize = 0;
        proof {
            reveal(Seq::filter);
            assert(positions.subrange(0, 0).filter(unsettled) =~= Seq::<PositionView>::empty());
            assert(open@.map_values(|position: &Position| position@) =~= Seq::<
                PositionView,
            >::empty());
        }
        while i < self.positions.len()
            invariant
                i <= self.positions@.len(),
                positions == self@.positions,
                unsettled == (|position: PositionView| !position.resolved),
                open@.map_values(|position: &Position| position@) == positions.subrange(
                    0,
                    i as int,
                ).filter(unsettled),
            decreases self.positions@.len() - i,
        {
            let ghost before = open@;
            proof {
                reveal(Seq::filter);
                assert(positions.subrange(0, i + 1).drop_last() =~= positions.subrange(
                    0,
                    i as int,
                ));
                assert(positions.subrange(0, i + 1).last() == self.positions@[i as int]@);
            }
            if !self.positions[i].resolved {
                open.push(&self.positions[i]);
                assert(open@.map_values(|position: &Position| position@) =~= before.map_values(
                    |position: &Position| position@,
                ).push(self.positions@[i as int]@));
            }
            i = i + 1;
        }
        assert(positions.subrange(0, positions.len() as int) =~= positions);
        open
    }

    pub fn open_count(&self) -> (count: usize)
        ensures
            count == self@.open_count(),
    {
        let ghost positions = self@.positions;
        let mut count: usize = 0;
        let mut i: usize = 0;
        while i < self.positions.len()
            invariant
                i <= self.positions@.len(),
                positions == self@.positions,
                count <= i,
                count == open_among(positions, i as int),
            decreases self.positions@.len() - i,
        {
            assert(positions[i as int] == self.positions@[i as int]@);
            if !self.positions[i].resolved {
                count = count + 1;
            }
            i = i + 1;
        }
        count
    }

    pub fn pnl_unrealized_cents(&self) -> (pnl: Cents)
        requires
            unrealized_fits(self@.positions),
        ensures
            pnl == unrealized(self@.positions, self@.positions.len() as int),
    {
        let ghost positions = self@.positions;
        let mut pnl: i64 = 0;
        let mut i: usize = 0;
        while i < self.positions.len()
            invariant
                i <= self.positions@.len(),
                positions == self@.positions,
                unrealized_fits(positions),
                pnl == unrealized(positions, i as int),
            decreases self.positions@.len() - i,
        {
            proof {
                assert(positions[i as int] == self.positions@[i as int]@);
                assert(fees::fits(unrealized(positions, i + 1)));
            }
            if !self.positions[i].resolved {
                pnl = pnl + self.positions[i].pnl_unrealized_cents;
            }
            i = i + 1;
        }
        pnl
    }

    /// Revalue open positions against current books, at the bid.
    ///
    /// A leg whose book is missing is marked at zero, which understates the
    /// position rather than inventing a value for something the engine cannot
    /// currently see.
    pub fn mark_to_market<B: BookSource>(&mut self, books: &B)
        requires
            old(self)@.marks(books.quotes()),
        ensures
            final(self)@ == old(self)@.marked(books.quotes()),
    {
        let ghost before = *self;
        let ghost quotes = books.quotes();
        let mut i: usize = 0;
        while i < self.positions.len()
            invariant
                i <= self.positions@.len(),
                quotes == books.quotes(),
                before@.marks(quotes),
                self.positions@.len() == before.positions@.len(),
                self.capital_available_cents == before.capital_available_cents,
                self.daily_loss_limit_cents == before.daily_loss_limit_cents,
                self.daily_loss_realized_cents == before.daily_loss_realized_cents,
                self.daily_reset_at_ms == before.daily_reset_at_ms,
                self.pnl_realized_cents == before.pnl_realized_cents,
                forall|k: int|
                    0 <= k < i ==> (#[trigger] self.positions@[k])@ == before@.marked(
                        quotes,
                    ).positions[k],
                forall|k: int|
                    i <= k < self.positions@.len() ==> (#[trigger] self.positions@[k])
                        == before.positions@[k],
            decreases self.positions@.len() - i,
        {
            assert(before@.positions[i as int] == before.positions@[i as int]@);
            if !self.positions[i].resolved {
                let mark: i64 = self.positions[i].mark_cents(books);
                self.positions[i].pnl_unrealized_cents = mark;
            }
            i = i + 1;
        }
        assert(self@.positions =~= before@.marked(quotes).positions);
    }

    /// Settle every open position on an event and return the realized profit.
    ///
    /// Capital comes back as the payoff, not as the original cost: that is what
    /// actually lands in the account when the venue settles.
    pub fn realize(&mut self, event: EventId, resolved_yes: bool) -> (result: Result<
        Cents,
        PortfolioError,
    >)
        requires
            old(self)@.settles(event, resolved_yes),
        ensures
            match result {
                Ok(total) => {
                    &&& old(self)@.settlement_of(event, resolved_yes).found
                    &&& total == old(self)@.settlement_of(event, resolved_yes).pnl
                    &&& final(self)@ == old(self)@.realized(event, resolved_yes)
                },
                Err(error) => {
                    &&& error == PortfolioError::UnknownEvent
                    &&& !old(self)@.settlement_of(event, resolved_yes).found
                    &&& final(self)@ == old(self)@
                },
            },
    {
        let ghost before = *self;
        let ghost positions = before@.positions;
        let mut total: i64 = 0;
        let mut found: bool = false;
        let mut i: usize = 0;
        while i < self.positions.len()
            invariant
                i <= self.positions@.len(),
                positions == before@.positions,
                before@.settles(event, resolved_yes),
                self.positions@.len() == before.positions@.len(),
                self.daily_loss_limit_cents == before.daily_loss_limit_cents,
                self.daily_reset_at_ms == before.daily_reset_at_ms,
                ({
                    let totals = settlement(positions, event, resolved_yes, i as int);
                    &&& found == totals.found
                    &&& total == totals.pnl
                    &&& self.capital_available_cents == before.capital_available_cents
                        + totals.payoff
                    &&& self.pnl_realized_cents == before.pnl_realized_cents + totals.pnl
                    &&& self.daily_loss_realized_cents == before.daily_loss_realized_cents
                        + totals.loss
                    &&& !found ==> totals.payoff == 0 && totals.loss == 0 && totals.pnl == 0
                }),
                forall|k: int|
                    0 <= k < i ==> (#[trigger] self.positions@[k])@ == settled_positions(
                        positions,
                        event,
                        resolved_yes,
                    )[k],
                forall|k: int|
                    i <= k < self.positions@.len() ==> (#[trigger] self.positions@[k])
                        == before.positions@[k],
                !found ==> forall|k: int|
                    0 <= k < i ==> settled_positions(positions, event, resolved_yes)[k]
                        == #[trigger] positions[k],
            decreases self.positions@.len() - i,
        {
            proof {
                assert(positions[i as int] == before.positions@[i as int]@);
                let next = settlement(positions, event, resolved_yes, i + 1);
                assert(fees::fits(next.pnl));
            }
            if !self.positions[i].resolved && self.positions[i].event_id == event {
                assert(positions[i as int].settles(resolved_yes));
                found = true;
                let pnl: i64 = self.positions[i].pnl_at_resolution(resolved_yes);
                proof {
                    let legs = positions[i as int].legs;
                    assert(fees::fits(payoff_of(legs, resolved_yes, legs.len() as int)));
                }
                let payoff: i64 = self.positions[i].cost_cents + pnl;
                self.positions[i].resolved = true;
                self.positions[i].pnl_realized_cents = pnl;
                self.positions[i].pnl_unrealized_cents = 0;
                self.capital_available_cents = self.capital_available_cents + payoff;
                self.pnl_realized_cents = self.pnl_realized_cents + pnl;
                if pnl < 0 {
                    self.daily_loss_realized_cents = self.daily_loss_realized_cents + (-pnl);
                }
                total = total + pnl;
            }
            i = i + 1;
        }
        if !found {
            assert(self@.positions =~= positions);
            assert(self@ =~= before@);
            return Err(PortfolioError::UnknownEvent);
        }
        assert(self@.positions =~= settled_positions(positions, event, resolved_yes));
        Ok(total)
    }

    /// Clear the day's loss budget once the calendar day has turned over.
    pub fn reset_daily_if_needed(&mut self, now_ms: u64) -> (reset: bool)
        requires
            midnight_after(now_ms) <= u64::MAX,
        ensures
            reset == (now_ms >= old(self)@.daily_reset_at_ms),
            final(self)@ == (if reset {
                PortfolioView {
                    daily_loss_realized_cents: 0,
                    daily_reset_at_ms: midnight_after(now_ms) as u64,
                    ..old(self)@
                }
            } else {
                old(self)@
            }),
    {
        if now_ms < self.daily_reset_at_ms {
            return false;
        }
        self.daily_loss_realized_cents = 0;
        self.daily_reset_at_ms = next_utc_midnight_ms(now_ms);
        true
    }

    pub fn summary(&self) -> (summary: PortfolioSummary)
        requires
            locked_fits(self@.positions, None),
            unrealized_fits(self@.positions),
        ensures
            summary == self@.summarized(),
    {
        PortfolioSummary {
            capital_available_cents: self.capital_available_cents,
            capital_locked_cents: self.locked_in(None),
            open_positions: self.open_count(),
            pnl_realized_cents: self.pnl_realized_cents,
            pnl_unrealized_cents: self.pnl_unrealized_cents(),
            daily_loss_cents: self.daily_loss_realized_cents,
            daily_loss_limit_cents: self.daily_loss_limit_cents,
        }
    }
}

impl PortfolioView {
    pub open spec fn summarized(self) -> PortfolioSummary {
        PortfolioSummary {
            capital_available_cents: self.capital_available_cents,
            capital_locked_cents: self.capital_locked() as i64,
            open_positions: self.open_count() as usize,
            pnl_realized_cents: self.pnl_realized_cents,
            pnl_unrealized_cents: unrealized(
                self.positions,
                self.positions.len() as int,
            ) as i64,
            daily_loss_cents: self.daily_loss_realized_cents,
            daily_loss_limit_cents: self.daily_loss_limit_cents,
        }
    }
}

/// What the API layer publishes about the portfolio.
#[derive(Clone, Copy, Debug, PartialEq, Eq, Structural)]
pub struct PortfolioSummary {
    pub capital_available_cents: Cents,
    pub capital_locked_cents: Cents,
    pub open_positions: usize,
    pub pnl_realized_cents: Cents,
    pub pnl_unrealized_cents: Cents,
    pub daily_loss_cents: Cents,
    pub daily_loss_limit_cents: Cents,
}

// ---------------------------------------------------------------------------
// Laws
// ---------------------------------------------------------------------------

proof fn lemma_locked_prefix(
    a: Seq<PositionView>,
    b: Seq<PositionView>,
    event: Option<EventId>,
    n: int,
)
    requires
        n <= a.len(),
        n <= b.len(),
        forall|i: int| 0 <= i < n ==> #[trigger] a[i] == b[i],
    ensures
        locked(a, event, n) == locked(b, event, n),
        open_among(a, n) == open_among(b, n),
    decreases n,
{
    if n > 0 {
        lemma_locked_prefix(a, b, event, n - 1);
        assert(a[n - 1] == b[n - 1]);
    }
}

proof fn lemma_locked_push(
    positions: Seq<PositionView>,
    position: PositionView,
    event: Option<EventId>,
)
    ensures
        locked(positions.push(position), event, (positions.len() + 1) as int) == locked(
            positions,
            event,
            positions.len() as int,
        ) + (if !position.resolved && (event is None || event == Some(position.event_id)) {
            position.cost_cents as int
        } else {
            0
        }),
        open_among(positions.push(position), (positions.len() + 1) as int) == open_among(
            positions,
            positions.len() as int,
        ) + (if !position.resolved {
            1int
        } else {
            0
        }),
{
    lemma_locked_prefix(positions, positions.push(position), event, positions.len() as int);
}

/// In a well-formed portfolio every sum of locked capital fits: exposure is a
/// part of what is locked, and what is locked is part of the whole.
pub proof fn lemma_wf_fits(portfolio: PortfolioView, event: Option<EventId>)
    requires
        portfolio.wf(),
    ensures
        locked_fits(portfolio.positions, event),
        0 <= locked(portfolio.positions, event, portfolio.positions.len() as int)
            <= portfolio.capital_locked(),
{
    assert forall|n: int| 0 <= n <= portfolio.positions.len() implies fees::fits(
        #[trigger] locked(portfolio.positions, event, n),
    ) by {
        lemma_locked_bounds(portfolio.positions, event, n, portfolio.positions.len() as int);
    }
    lemma_locked_bounds(
        portfolio.positions,
        event,
        portfolio.positions.len() as int,
        portfolio.positions.len() as int,
    );
}

proof fn lemma_locked_bounds(positions: Seq<PositionView>, event: Option<EventId>, n: int, m: int)
    requires
        0 <= n <= m <= positions.len(),
        forall|i: int| 0 <= i < positions.len() ==> (#[trigger] positions[i]).cost_cents >= 0,
    ensures
        0 <= locked(positions, event, n) <= locked(positions, None, m),
    decreases m,
{
    if m > 0 {
        assert(positions[m - 1].cost_cents >= 0);
        if n == m {
            lemma_locked_bounds(positions, event, n - 1, m - 1);
        } else {
            lemma_locked_bounds(positions, event, n, m - 1);
        }
    }
}

/// Taking on a position moves capital from available to locked and creates
/// none, and a refused position changes nothing.
pub proof fn entering_conserves_capital(portfolio: PortfolioView, position: PositionView)
    requires
        fees::fits(portfolio.capital_available_cents - position.cost_cents),
        !position.resolved,
        portfolio.refusal(position) is None,
    ensures
        portfolio.holding(position).capital_available_cents + portfolio.holding(
            position,
        ).capital_locked() == portfolio.capital_available_cents + portfolio.capital_locked(),
        portfolio.holding(position).exposure(position.event_id) == portfolio.exposure(
            position.event_id,
        ) + position.cost_cents,
        portfolio.holding(position).open_count() == portfolio.open_count() + 1,
        portfolio.holding(position).capital_available_cents >= 0,
{
    lemma_locked_push(portfolio.positions, position, None);
    lemma_locked_push(portfolio.positions, position, Some(position.event_id));
}

proof fn lemma_settlement_locked(
    positions: Seq<PositionView>,
    event: EventId,
    resolved_yes: bool,
    n: int,
)
    requires
        0 <= n <= positions.len(),
    ensures
        ({
            let totals = settlement(positions, event, resolved_yes, n);
            let after = settled_positions(positions, event, resolved_yes);
            &&& totals.payoff - totals.pnl == locked(positions, Some(event), n)
            &&& locked(after, None, n) == locked(positions, None, n) - locked(
                positions,
                Some(event),
                n,
            )
            &&& locked(after, Some(event), n) == 0
            &&& totals.loss >= 0
        }),
    decreases n,
{
    if n > 0 {
        lemma_settlement_locked(positions, event, resolved_yes, n - 1);
    }
}

/// Settling an event frees exactly the capital that was locked in it: cash,
/// what is locked, and realized profit stay in balance, nothing of the event
/// stays open, and a win never lowers the day's losses.
pub proof fn settling_conserves_capital(
    portfolio: PortfolioView,
    event: EventId,
    resolved_yes: bool,
)
    requires
        portfolio.settles(event, resolved_yes),
    ensures
        ({
            let after = portfolio.realized(event, resolved_yes);
            &&& after.capital_available_cents + after.capital_locked() - after.pnl_realized_cents
                == portfolio.capital_available_cents + portfolio.capital_locked()
                - portfolio.pnl_realized_cents
            &&& after.exposure(event) == 0
            &&& after.daily_loss_realized_cents >= portfolio.daily_loss_realized_cents
        }),
{
    let n = portfolio.positions.len() as int;
    lemma_settlement_locked(portfolio.positions, event, resolved_yes, n);
    let totals = settlement(portfolio.positions, event, resolved_yes, n);
    assert(fees::fits(totals.pnl));
}

/// A settled event cannot be settled again.
pub proof fn an_event_settles_once(portfolio: PortfolioView, event: EventId, a: bool, b: bool)
    ensures
        !portfolio.realized(event, a).settlement_of(event, b).found,
{
    lemma_settled_once(
        portfolio.positions,
        event,
        a,
        b,
        portfolio.positions.len() as int,
    );
}

proof fn lemma_settled_once(positions: Seq<PositionView>, event: EventId, a: bool, b: bool, n: int)
    requires
        0 <= n <= positions.len(),
    ensures
        !settlement(settled_positions(positions, event, a), event, b, n).found,
    decreases n,
{
    if n > 0 {
        lemma_settled_once(positions, event, a, b, n - 1);
    }
}

/// The reset lands on a UTC day boundary, after now and within a day of it.
pub proof fn the_reset_is_the_next_calendar_midnight(now_ms: u64)
    ensures
        midnight_after(now_ms) % (DAY_MS as int) == 0,
        now_ms < midnight_after(now_ms) <= now_ms + DAY_MS,
{
    let days = now_ms as int / DAY_MS as int;
    assert((days + 1) * DAY_MS == days * DAY_MS + DAY_MS) by (nonlinear_arith);
    assert(((days + 1) * DAY_MS) % (DAY_MS as int) == 0) by {
        vstd::arithmetic::div_mod::lemma_mod_multiples_basic(days + 1, DAY_MS as int);
    }
}

} // verus!
