//! The vocabulary every other module speaks: venues, cents, price levels,
//! order books, interned contract identifiers, and the two doorways through
//! which venue decimal strings become exact integers.
use vstd::prelude::*;
use vstd::hash_map::StringHashMap;
use vstd::slice::slice_subrange;
use crate::text;

pub mod laws;

verus! {

pub type Cents = i64;

/// A prediction-market venue.
#[derive(Clone, Copy, Debug, PartialEq, Eq, Structural, Hash)]
pub enum Venue {
    Kalshi,
    Polymarket,
}

/// A non-negative fraction.
#[derive(Clone, Copy, Debug, PartialEq, Eq, Structural)]
pub struct Ratio {
    pub numer: u64,
    pub denom: u64,
}

/// Slots in every per-venue array in the engine.
pub const VENUE_COUNT: usize = 2;

/// The slot of a venue in every per-venue array.
pub open spec fn venue_slot(venue: Venue) -> int {
    match venue {
        Venue::Kalshi => 0,
        Venue::Polymarket => 1,
    }
}

/// The name of a venue, as files and the dashboard write it.
pub open spec fn venue_name(venue: Venue) -> Seq<char> {
    match venue {
        Venue::Kalshi => "kalshi"@,
        Venue::Polymarket => "polymarket"@,
    }
}

impl Venue {
    /// Every venue, in the order identifiers are interned and reported.
    ///
    /// The registry interns all Kalshi members before any Polymarket one, and
    /// this order has to agree with it: contract ids are positional, so a
    /// different order silently renumbers every book.
    pub const ALL: [Venue; 2] = [Venue::Kalshi, Venue::Polymarket];

    /// Dense index for per-venue arrays. Deliberately next to [`Venue::ALL`] so
    /// a new venue cannot be added without being given a slot in both.
    pub fn index(self) -> (slot: usize)
        ensures
            slot == venue_slot(self),
            slot < VENUE_COUNT,
    {
        match self {
            Venue::Kalshi => 0,
            Venue::Polymarket => 1,
        }
    }

    pub fn name(self) -> (name: &'static str)
        ensures
            name@ == venue_name(self),
    {
        match self {
            Venue::Kalshi => "kalshi",
            Venue::Polymarket => "polymarket",
        }
    }
}

#[derive(Clone, Copy, Debug, PartialEq, Eq, Structural)]
pub struct Level {
    pub price: Cents,
    pub size: i64,
}

/// Whether a book is trustworthy for solver evaluation.
///
/// The solver refuses any group containing a book that is not `Live`. A
/// sequence gap or disconnect moves the book to `Resyncing` until a fresh
/// snapshot arrives; there is no attempt to repair intermediate state.
#[derive(Clone, Copy, Debug, PartialEq, Eq, Structural, Hash)]
pub enum BookState {
    /// Subscribed, no snapshot yet.
    Uninitialized,
    /// Gap or disconnect; awaiting a fresh snapshot.
    Resyncing,
    /// Snapshot applied, deltas in sequence.
    Live,
}

/// Which side of the book a resting order sits on, in the venue's own terms.
///
/// A resting `No` order at price P is economically identical to a resting `Yes`
/// order at `100 - P`, because the two contracts are complements that together
/// always pay exactly one dollar. The feed layer preserves whichever side the
/// venue actually sent and performs no conversion.
#[derive(Clone, Copy, Debug, PartialEq, Eq, Structural)]
pub enum Side {
    Yes,
    No,
}

/// Which ladder of one token a level sits on, for a venue that quotes a token
/// with bids and asks.
#[derive(Clone, Copy, Debug, PartialEq, Eq, Structural)]
pub enum TokenSide {
    Bid,
    Ask,
}

/// Interned identifier; ticker strings stay outside downstream hot paths.
#[derive(Clone, Copy, Debug, PartialEq, Eq, Structural, Hash)]
pub struct ContractId(pub u32);

#[derive(Clone, Copy, Debug, PartialEq, Eq, Structural)]
pub enum BookApplyError {
    PriceOutOfRange(Cents),
    NegativeSnapshotSize(i64),
}

/// The message of a [`BookApplyError`].
pub open spec fn book_apply_message(error: BookApplyError) -> Seq<char> {
    match error {
        BookApplyError::PriceOutOfRange(p) => "book price "@ + text::signed_decimal(p as int)
            + " outside 0..=100"@,
        BookApplyError::NegativeSnapshotSize(s) => "snapshot size "@ + text::signed_decimal(
            s as int,
        ) + " is negative"@,
    }
}

impl BookApplyError {
    /// What went wrong, for a log line.
    pub fn message(&self) -> (out: String)
        ensures
            out@ == book_apply_message(*self),
    {
        match self {
            BookApplyError::PriceOutOfRange(p) => {
                let mut out: String = String::from_str("book price ");
                text::push_i64(&mut out, *p);
                out.append(" outside 0..=100");
                out
            },
            BookApplyError::NegativeSnapshotSize(s) => {
                let mut out: String = String::from_str("snapshot size ");
                text::push_i64(&mut out, *s);
                out.append(" is negative");
                out
            },
        }
    }
}

// ---------------------------------------------------------------------------
// Books
// ---------------------------------------------------------------------------

/// In-memory order book for one contract.
///
/// Kalshi sends two one-sided bid books (`yes` and `no`). A resting no bid at
/// price P is economically a yes ask at `100 - P`. Prices are integer cents in
/// `0..=100`, so each side is a dense size-by-price array: delta application is
/// a single index, and memory is bounded by construction.
#[derive(Debug, PartialEq)]
pub struct Book {
    pub venue: Venue,
    pub contract_id: ContractId,
    pub state: BookState,
    pub seq: u64,
    pub updated_at_ms: u64,
    /// Resting yes bid size by price (cents 0..=100).
    pub yes: [i64; 101],
    /// Resting no bid size by price (cents 0..=100).
    pub no: [i64; 101],
}

impl Clone for Book {
    fn clone(&self) -> (copy: Self)
        ensures
            copy == *self,
    {
        Book {
            venue: self.venue,
            contract_id: self.contract_id,
            state: self.state,
            seq: self.seq,
            updated_at_ms: self.updated_at_ms,
            yes: self.yes,
            no: self.no,
        }
    }
}

/// What a [`Book`] holds.
#[verifier::ext_equal]
pub struct BookView {
    pub venue: Venue,
    pub contract_id: ContractId,
    pub state: BookState,
    pub seq: u64,
    pub updated_at_ms: u64,
    pub yes: Seq<i64>,
    pub no: Seq<i64>,
}

impl View for Book {
    type V = BookView;

    open spec fn view(&self) -> BookView {
        BookView {
            venue: self.venue,
            contract_id: self.contract_id,
            state: self.state,
            seq: self.seq,
            updated_at_ms: self.updated_at_ms,
            yes: self.yes@,
            no: self.no@,
        }
    }
}

/// Bids at `top` cents and below, highest price first, empty levels skipped.
pub open spec fn resting(sizes: Seq<i64>, top: int) -> Seq<Level>
    decreases top + 1,
{
    if top < 0 {
        Seq::empty()
    } else if sizes[top] > 0 {
        seq![Level { price: top as i64, size: sizes[top] }] + resting(sizes, top - 1)
    } else {
        resting(sizes, top - 1)
    }
}

/// The same liquidity read from the other outcome: a bid at P offers the
/// complement at `100 - P`, so the cheapest offer comes first.
pub open spec fn offered(sizes: Seq<i64>, top: int) -> Seq<Level>
    decreases top + 1,
{
    if top < 0 {
        Seq::empty()
    } else if sizes[top] > 0 {
        seq![Level { price: (100 - top) as i64, size: sizes[top] }] + offered(sizes, top - 1)
    } else {
        offered(sizes, top - 1)
    }
}

pub open spec fn first_level(ladder: Seq<Level>) -> Option<Level> {
    if ladder.len() > 0 {
        Some(ladder[0])
    } else {
        None
    }
}

pub open spec fn price_in_range(price: int) -> bool {
    0 <= price <= 100
}

pub open spec fn no_sizes() -> Seq<i64> {
    Seq::new(101, |i: int| 0i64)
}

/// The sizes after writing each level in turn, or the first level that cannot
/// be written. A later row at a price replaces an earlier one.
pub open spec fn placed(levels: Seq<Level>) -> Result<Seq<i64>, BookApplyError>
    decreases levels.len(),
{
    if levels.len() == 0 {
        Ok(no_sizes())
    } else {
        match placed(levels.drop_last()) {
            Err(error) => Err(error),
            Ok(sizes) => {
                let level = levels.last();
                if level.size < 0 {
                    Err(BookApplyError::NegativeSnapshotSize(level.size))
                } else if !price_in_range(level.price as int) {
                    Err(BookApplyError::PriceOutOfRange(level.price))
                } else {
                    Ok(sizes.update(level.price as int, level.size))
                }
            },
        }
    }
}

/// How many levels hold nothing.
pub open spec fn empty_levels(levels: Seq<Level>) -> nat
    decreases levels.len(),
{
    if levels.len() == 0 {
        0
    } else {
        empty_levels(levels.drop_last()) + if levels.last().size == 0 {
            1nat
        } else {
            0nat
        }
    }
}

/// A size after a signed change, held inside what an `i64` can hold.
pub open spec fn saturated(size: int) -> int {
    if size > i64::MAX {
        i64::MAX as int
    } else if size < i64::MIN {
        i64::MIN as int
    } else {
        size
    }
}

pub open spec fn at_least_zero(size: int) -> int {
    if size < 0 {
        0
    } else {
        size
    }
}

impl BookView {
    pub open spec fn fresh(venue: Venue, contract_id: ContractId) -> BookView {
        BookView {
            venue,
            contract_id,
            state: BookState::Uninitialized,
            seq: 0,
            updated_at_ms: 0,
            yes: no_sizes(),
            no: no_sizes(),
        }
    }

    pub open spec fn is_fresh(self, now_ms: u64, max_age_ms: u64) -> bool {
        self.state == BookState::Live && now_ms - self.updated_at_ms <= max_age_ms
    }

    pub open spec fn bids(self) -> Seq<Level> {
        resting(self.yes, 100)
    }

    pub open spec fn no_bids(self) -> Seq<Level> {
        resting(self.no, 100)
    }

    pub open spec fn asks(self) -> Seq<Level> {
        offered(self.no, 100)
    }

    pub open spec fn no_asks(self) -> Seq<Level> {
        offered(self.yes, 100)
    }

    pub open spec fn crossed(self) -> bool {
        match (first_level(self.bids()), first_level(self.no_bids())) {
            (Some(yes), Some(no)) => yes.price + no.price > 100,
            _ => false,
        }
    }

    pub open spec fn resyncing(self) -> BookView {
        BookView { state: BookState::Resyncing, ..self }
    }

    /// Absolute state from a venue snapshot.
    pub open spec fn snapshot(
        self,
        yes: Seq<Level>,
        no: Seq<Level>,
        seq: u64,
        ts_ms: u64,
    ) -> Result<BookView, BookApplyError> {
        match placed(yes) {
            Err(error) => Err(error),
            Ok(yes_sizes) => match placed(no) {
                Err(error) => Err(error),
                Ok(no_sizes) => Ok(
                    BookView {
                        state: BookState::Live,
                        seq,
                        updated_at_ms: ts_ms,
                        yes: yes_sizes,
                        no: no_sizes,
                        ..self
                    },
                ),
            },
        }
    }

    /// The size at `price` before a change is clamped.
    pub open spec fn unclamped(self, side: Side, price: int, size_delta: i64) -> int {
        match side {
            Side::Yes => saturated(self.yes[price] + size_delta),
            Side::No => saturated(self.no[price] + size_delta),
        }
    }

    /// A signed size change at one price, clamped at zero.
    pub open spec fn delta(
        self,
        side: Side,
        price: int,
        size_delta: i64,
        seq: u64,
        ts_ms: u64,
    ) -> BookView {
        let size = at_least_zero(self.unclamped(side, price, size_delta)) as i64;
        match side {
            Side::Yes => BookView {
                seq,
                updated_at_ms: ts_ms,
                yes: self.yes.update(price, size),
                ..self
            },
            Side::No => BookView {
                seq,
                updated_at_ms: ts_ms,
                no: self.no.update(price, size),
                ..self
            },
        }
    }

    /// One level restated outright: a bid for this outcome, or an ask stored as
    /// a bid on its complement.
    pub open spec fn level_set(self, side: TokenSide, price: int, size: i64, ts_ms: u64) -> BookView {
        match side {
            TokenSide::Bid => BookView {
                updated_at_ms: ts_ms,
                yes: self.yes.update(price, size),
                ..self
            },
            TokenSide::Ask => BookView {
                updated_at_ms: ts_ms,
                no: self.no.update(100 - price, size),
                ..self
            },
        }
    }

    /// Both sides hold one slot per cent, and no level is negative.
    pub open spec fn wf(self) -> bool {
        &&& self.yes.len() == 101
        &&& self.no.len() == 101
        &&& forall|i: int| 0 <= i <= 100 ==> #[trigger] self.yes[i] >= 0
        &&& forall|i: int| 0 <= i <= 100 ==> #[trigger] self.no[i] >= 0
    }
}

pub proof fn lemma_placed(levels: Seq<Level>)
    ensures
        placed(levels) matches Ok(sizes) ==> sizes.len() == 101 && forall|i: int|
            0 <= i <= 100 ==> #[trigger] sizes[i] >= 0,
    decreases levels.len(),
{
    if levels.len() > 0 {
        lemma_placed(levels.drop_last());
    }
}

impl Book {
    pub fn new(venue: Venue, contract_id: ContractId) -> (book: Self)
        ensures
            book@ == BookView::fresh(venue, contract_id),
            book@.wf(),
    {
        let book = Book {
            venue,
            contract_id,
            state: BookState::Uninitialized,
            seq: 0,
            updated_at_ms: 0,
            yes: [0i64; 101],
            no: [0i64; 101],
        };
        assert(book@ =~= BookView::fresh(venue, contract_id));
        book
    }

    pub fn is_fresh(&self, now_ms: u64, max_age_ms: u64) -> (fresh: bool)
        ensures
            fresh == self@.is_fresh(now_ms, max_age_ms),
    {
        self.state == BookState::Live && now_ms.saturating_sub(self.updated_at_ms) <= max_age_ms
    }

    /// Replace both sides from a venue snapshot. Absolute state, always applied.
    ///
    /// Returns the number of levels whose floored size was already zero (they
    /// still occupy a wire slot but contribute no executable depth).
    pub fn apply_snapshot(
        &mut self,
        yes: &[Level],
        no: &[Level],
        seq: u64,
        ts_ms: u64,
    ) -> (result: Result<u128, BookApplyError>)
        ensures
            match old(self)@.snapshot(yes@, no@, seq, ts_ms) {
                Ok(next) => (result matches Ok(empty) && empty == empty_levels(yes@)
                    + empty_levels(no@)) && final(self)@ == next && final(self)@.wf(),
                Err(error) => result == Err::<u128, BookApplyError>(error) && final(self)@ == old(
                    self,
                )@,
            },
    {
        let mut yes_arr = [0i64; 101];
        let mut no_arr = [0i64; 101];
        assert(yes_arr@ =~= no_sizes());
        assert(no_arr@ =~= no_sizes());
        let empty_yes: usize = match Self::set_levels(&mut yes_arr, yes) {
            Err(error) => return Err(error),
            Ok(empty) => empty,
        };
        let empty_no: usize = match Self::set_levels(&mut no_arr, no) {
            Err(error) => return Err(error),
            Ok(empty) => empty,
        };
        self.yes = yes_arr;
        self.no = no_arr;
        self.seq = seq;
        self.updated_at_ms = ts_ms;
        self.state = BookState::Live;
        proof {
            lemma_placed(yes@);
            lemma_placed(no@);
        }
        Ok(empty_yes as u128 + empty_no as u128)
    }

    /// Apply a signed size change on one wire side at one price.
    ///
    /// Floor drift can drive a level negative when a fractional snapshot size
    /// floored to zero and a later fractional remove floors to -1. Clamp to
    /// zero and report the clamp; do not resync, because understating depth is
    /// the safe direction.
    pub fn apply_delta(
        &mut self,
        side: Side,
        price: Cents,
        size_delta: i64,
        seq: u64,
        ts_ms: u64,
    ) -> (result: Result<bool, BookApplyError>)
        ensures
            price_in_range(price as int) ==> {
                &&& result == Ok::<bool, BookApplyError>(
                    old(self)@.unclamped(side, price as int, size_delta) < 0,
                )
                &&& final(self)@ == old(self)@.delta(side, price as int, size_delta, seq, ts_ms)
            },
            !price_in_range(price as int) ==> {
                &&& result == Err::<bool, BookApplyError>(BookApplyError::PriceOutOfRange(price))
                &&& final(self)@ == old(self)@
            },
            old(self)@.wf() ==> final(self)@.wf(),
    {
        let idx: usize = match Self::price_index(price) {
            Ok(idx) => idx,
            Err(error) => return Err(error),
        };
        let held: i64 = match side {
            Side::Yes => self.yes[idx],
            Side::No => self.no[idx],
        };
        let next: i64 = saturating_sum(held, size_delta);
        let clamped = next < 0;
        let kept: i64 = if clamped {
            0
        } else {
            next
        };
        match side {
            Side::Yes => {
                self.yes[idx] = kept;
            },
            Side::No => {
                self.no[idx] = kept;
            },
        }
        self.seq = seq;
        self.updated_at_ms = ts_ms;
        assert(self@ =~= old(self)@.delta(side, price as int, size_delta, seq, ts_ms));
        Ok(clamped)
    }

    /// Replace the size resting at one price of one ladder.
    ///
    /// The size is absolute, so nothing accumulates and nothing is clamped; a
    /// negative size is refused as it is in a snapshot. No sequence number
    /// belongs to such an update.
    pub fn set_level(
        &mut self,
        side: TokenSide,
        price: Cents,
        size: i64,
        ts_ms: u64,
    ) -> (result: Result<(), BookApplyError>)
        ensures
            size < 0 ==> {
                &&& result == Err::<(), BookApplyError>(BookApplyError::NegativeSnapshotSize(size))
                &&& final(self)@ == old(self)@
            },
            size >= 0 && !price_in_range(price as int) ==> {
                &&& result == Err::<(), BookApplyError>(BookApplyError::PriceOutOfRange(price))
                &&& final(self)@ == old(self)@
            },
            size >= 0 && price_in_range(price as int) ==> {
                &&& result is Ok
                &&& final(self)@ == old(self)@.level_set(side, price as int, size, ts_ms)
            },
            old(self)@.wf() ==> final(self)@.wf(),
    {
        if size < 0 {
            return Err(BookApplyError::NegativeSnapshotSize(size));
        }
        let idx: usize = match Self::price_index(price) {
            Ok(idx) => idx,
            Err(error) => return Err(error),
        };
        match side {
            TokenSide::Bid => {
                self.yes[idx] = size;
            },
            TokenSide::Ask => {
                self.no[100 - idx] = size;
            },
        }
        self.updated_at_ms = ts_ms;
        assert(self@ =~= old(self)@.level_set(side, price as int, size, ts_ms));
        Ok(())
    }

    /// Yes bids, highest price first, skipping empty levels.
    pub fn bids(&self) -> (levels: Vec<Level>)
        ensures
            levels@ == self@.bids(),
    {
        Self::resting_levels(&self.yes)
    }

    /// Yes asks derived from no bids: price = 100 - no_price, ascending.
    pub fn asks(&self) -> (levels: Vec<Level>)
        ensures
            levels@ == self@.asks(),
    {
        Self::offered_levels(&self.no)
    }

    /// No asks derived from yes bids: price = 100 - yes_price, ascending.
    ///
    /// Buying the no outcome means taking a resting yes bid, because on Kalshi a
    /// yes buy at P and a no buy at `100 - P` are the same match. The complement
    /// fast path needs this ladder for its second leg, and it is deliberately the
    /// mirror of [`Book::asks`] rather than a separate notion of liquidity.
    pub fn no_asks(&self) -> (levels: Vec<Level>)
        ensures
            levels@ == self@.no_asks(),
    {
        Self::offered_levels(&self.yes)
    }

    pub fn best_bid(&self) -> (best: Option<Level>)
        ensures
            best == first_level(self@.bids()),
    {
        Self::best_resting(&self.yes)
    }

    pub fn best_ask(&self) -> (best: Option<Level>)
        ensures
            best == first_level(self@.asks()),
    {
        Self::best_offer(&self.no)
    }

    /// Cheapest price at which the no outcome can be bought.
    pub fn best_no_ask(&self) -> (best: Option<Level>)
        ensures
            best == first_level(self@.no_asks()),
    {
        Self::best_offer(&self.yes)
    }

    /// Best resting no bid (highest no price), if any.
    pub fn best_no_bid(&self) -> (best: Option<Level>)
        ensures
            best == first_level(self@.no_bids()),
    {
        Self::best_resting(&self.no)
    }

    /// True when best yes bid plus best no bid exceeds 100 cents (crossed book).
    pub fn is_crossed(&self) -> (crossed: bool)
        ensures
            crossed == self@.crossed(),
    {
        match (self.best_bid(), self.best_no_bid()) {
            (Some(yes), Some(no)) => {
                proof {
                    lemma_resting(self@.yes, 100);
                    lemma_resting(self@.no, 100);
                }
                yes.price + no.price > 100
            },
            _ => false,
        }
    }

    pub fn mark_resyncing(&mut self)
        ensures
            final(self)@ == old(self)@.resyncing(),
    {
        self.state = BookState::Resyncing;
    }

    pub fn yes_size_at(&self, price: Cents) -> (size: Option<i64>)
        ensures
            size == (if price_in_range(price as int) {
                Some(self@.yes[price as int])
            } else {
                None
            }),
    {
        match Self::price_index(price) {
            Ok(idx) => Some(self.yes[idx]),
            Err(_) => None,
        }
    }

    pub fn no_size_at(&self, price: Cents) -> (size: Option<i64>)
        ensures
            size == (if price_in_range(price as int) {
                Some(self@.no[price as int])
            } else {
                None
            }),
    {
        match Self::price_index(price) {
            Ok(idx) => Some(self.no[idx]),
            Err(_) => None,
        }
    }

    fn price_index(price: Cents) -> (result: Result<usize, BookApplyError>)
        ensures
            match result {
                Ok(idx) => price_in_range(price as int) && idx == price,
                Err(error) => !price_in_range(price as int) && error
                    == BookApplyError::PriceOutOfRange(price),
            },
    {
        if price < 0 || price > 100 {
            return Err(BookApplyError::PriceOutOfRange(price));
        }
        Ok(price as usize)
    }

    /// Write each level in turn into an empty side. Several rows at one price:
    /// the last write wins, and sizes do not accumulate. Counts the levels that
    /// hold nothing.
    fn set_levels(arr: &mut [i64; 101], levels: &[Level]) -> (result: Result<usize, BookApplyError>)
        requires
            old(arr)@ == no_sizes(),
        ensures
            match placed(levels@) {
                Ok(sizes) => (result matches Ok(empty) && empty == empty_levels(levels@))
                    && final(arr)@ == sizes,
                Err(error) => result == Err::<usize, BookApplyError>(error),
            },
    {
        let mut empty: usize = 0;
        let mut i: usize = 0;
        while i < levels.len()
            invariant
                i <= levels@.len(),
                empty <= i,
                empty == empty_levels(levels@.subrange(0, i as int)),
                placed(levels@.subrange(0, i as int)) == Ok::<Seq<i64>, BookApplyError>(arr@),
            decreases levels@.len() - i,
        {
            let level: Level = levels[i];
            assert(levels@.subrange(0, i + 1).drop_last() =~= levels@.subrange(0, i as int));
            if level.size < 0 {
                let error = BookApplyError::NegativeSnapshotSize(level.size);
                proof {
                    lemma_placed_prefix(levels@, i + 1, error);
                }
                return Err(error);
            }
            match Self::price_index(level.price) {
                Ok(idx) => {
                    arr[idx] = level.size;
                },
                Err(error) => {
                    proof {
                        lemma_placed_prefix(levels@, i + 1, error);
                    }
                    return Err(error);
                },
            }
            if level.size == 0 {
                empty = empty + 1;
            }
            i = i + 1;
        }
        assert(levels@.subrange(0, levels@.len() as int) =~= levels@);
        Ok(empty)
    }

    fn resting_levels(sizes: &[i64; 101]) -> (levels: Vec<Level>)
        ensures
            levels@ == resting(sizes@, 100),
    {
        let mut levels: Vec<Level> = Vec::new();
        let mut left: usize = 101;
        assert(levels@ + resting(sizes@, 100) =~= resting(sizes@, 100));
        while left > 0
            invariant
                left <= 101,
                levels@ + resting(sizes@, left - 1) == resting(sizes@, 100),
            decreases left,
        {
            let i: usize = left - 1;
            let size: i64 = sizes[i];
            let ghost before = levels@;
            if size > 0 {
                levels.push(Level { price: i as i64, size });
            }
            assert(levels@ + resting(sizes@, i - 1) =~= before + resting(sizes@, i as int));
            left = i;
        }
        assert(levels@ + resting(sizes@, -1) =~= levels@);
        levels
    }

    fn offered_levels(sizes: &[i64; 101]) -> (levels: Vec<Level>)
        ensures
            levels@ == offered(sizes@, 100),
    {
        let mut levels: Vec<Level> = Vec::new();
        let mut left: usize = 101;
        assert(levels@ + offered(sizes@, 100) =~= offered(sizes@, 100));
        while left > 0
            invariant
                left <= 101,
                levels@ + offered(sizes@, left - 1) == offered(sizes@, 100),
            decreases left,
        {
            let i: usize = left - 1;
            let size: i64 = sizes[i];
            let ghost before = levels@;
            if size > 0 {
                levels.push(Level { price: 100 - i as i64, size });
            }
            assert(levels@ + offered(sizes@, i - 1) =~= before + offered(sizes@, i as int));
            left = i;
        }
        assert(levels@ + offered(sizes@, -1) =~= levels@);
        levels
    }

    fn best_resting(sizes: &[i64; 101]) -> (best: Option<Level>)
        ensures
            best == first_level(resting(sizes@, 100)),
    {
        let mut left: usize = 101;
        while left > 0
            invariant
                left <= 101,
                resting(sizes@, left - 1) == resting(sizes@, 100),
            decreases left,
        {
            let i: usize = left - 1;
            let size: i64 = sizes[i];
            if size > 0 {
                return Some(Level { price: i as i64, size });
            }
            left = i;
        }
        None
    }

    fn best_offer(sizes: &[i64; 101]) -> (best: Option<Level>)
        ensures
            best == first_level(offered(sizes@, 100)),
    {
        let mut left: usize = 101;
        while left > 0
            invariant
                left <= 101,
                offered(sizes@, left - 1) == offered(sizes@, 100),
            decreases left,
        {
            let i: usize = left - 1;
            let size: i64 = sizes[i];
            if size > 0 {
                return Some(Level { price: 100 - i as i64, size });
            }
            left = i;
        }
        None
    }
}

/// The sum of two sizes, held inside what an `i64` can hold.
fn saturating_sum(a: i64, b: i64) -> (sum: i64)
    ensures
        sum == saturated(a + b),
{
    let sum: i128 = a as i128 + b as i128;
    if sum > i64::MAX as i128 {
        i64::MAX
    } else if sum < i64::MIN as i128 {
        i64::MIN
    } else {
        sum as i64
    }
}

/// Every resting level has a price inside the band and a positive size.
pub proof fn lemma_resting(sizes: Seq<i64>, top: int)
    requires
        sizes.len() == 101,
        top <= 100,
    ensures
        forall|k: int| 0 <= k < resting(sizes, top).len() ==> {
            let level = #[trigger] resting(sizes, top)[k];
            0 <= level.price <= top && level.size > 0 && level.size == sizes[level.price as int]
        },
    decreases top + 1,
{
    if top >= 0 {
        lemma_resting(sizes, top - 1);
        assert forall|k: int| 0 <= k < resting(sizes, top).len() implies {
            let level = #[trigger] resting(sizes, top)[k];
            0 <= level.price <= top && level.size > 0 && level.size == sizes[level.price as int]
        } by {
            if sizes[top] > 0 && k > 0 {
                assert(resting(sizes, top)[k] == resting(sizes, top - 1)[k - 1]);
            }
        }
    }
}

/// Every offer has a price inside the band and a positive size, and offers
/// stand in strictly ascending price order.
pub proof fn lemma_offered(sizes: Seq<i64>, top: int)
    requires
        sizes.len() == 101,
        top <= 100,
    ensures
        forall|k: int| 0 <= k < offered(sizes, top).len() ==> {
            let level = #[trigger] offered(sizes, top)[k];
            100 - top <= level.price <= 100 && level.size > 0 && level.size == sizes[100
                - level.price]
        },
        forall|j: int, k: int|
            0 <= j < k < offered(sizes, top).len() ==> (#[trigger] offered(sizes, top)[j]).price
                < (#[trigger] offered(sizes, top)[k]).price,
    decreases top + 1,
{
    if top >= 0 {
        lemma_offered(sizes, top - 1);
        assert forall|k: int| 0 <= k < offered(sizes, top).len() implies {
            let level = #[trigger] offered(sizes, top)[k];
            100 - top <= level.price <= 100 && level.size > 0 && level.size == sizes[100
                - level.price]
        } by {
            if sizes[top] > 0 && k > 0 {
                assert(offered(sizes, top)[k] == offered(sizes, top - 1)[k - 1]);
            }
        }
        assert forall|j: int, k: int| 0 <= j < k < offered(sizes, top).len() implies (
        #[trigger] offered(sizes, top)[j]).price < (#[trigger] offered(sizes, top)[k]).price by {
            if sizes[top] > 0 {
                assert(offered(sizes, top)[k] == offered(sizes, top - 1)[k - 1]);
                if j > 0 {
                    assert(offered(sizes, top)[j] == offered(sizes, top - 1)[j - 1]);
                }
            }
        }
    }
}

/// Offers are the resting bids read at the complement price, level for level.
pub proof fn lemma_offered_mirrors_resting(sizes: Seq<i64>, top: int)
    requires
        sizes.len() == 101,
        top <= 100,
    ensures
        offered(sizes, top).len() == resting(sizes, top).len(),
        forall|k: int| 0 <= k < resting(sizes, top).len() ==> {
            &&& (#[trigger] offered(sizes, top)[k]).price == 100 - resting(sizes, top)[k].price
            &&& offered(sizes, top)[k].size == resting(sizes, top)[k].size
        },
    decreases top + 1,
{
    if top >= 0 {
        lemma_offered_mirrors_resting(sizes, top - 1);
        assert forall|k: int| 0 <= k < resting(sizes, top).len() implies {
            &&& (#[trigger] offered(sizes, top)[k]).price == 100 - resting(sizes, top)[k].price
            &&& offered(sizes, top)[k].size == resting(sizes, top)[k].size
        } by {
            if sizes[top] > 0 && k > 0 {
                assert(offered(sizes, top)[k] == offered(sizes, top - 1)[k - 1]);
                assert(resting(sizes, top)[k] == resting(sizes, top - 1)[k - 1]);
            }
        }
    }
}

/// Once a level cannot be written, no later level changes the outcome.
proof fn lemma_placed_prefix(levels: Seq<Level>, n: int, error: BookApplyError)
    requires
        0 < n <= levels.len(),
        placed(levels.subrange(0, n)) == Err::<Seq<i64>, BookApplyError>(error),
    ensures
        placed(levels) == Err::<Seq<i64>, BookApplyError>(error),
    decreases levels.len(),
{
    if n == levels.len() {
        assert(levels.subrange(0, n) =~= levels);
    } else {
        assert(levels.drop_last().subrange(0, n) =~= levels.subrange(0, n));
        lemma_placed_prefix(levels.drop_last(), n, error);
    }
}

// ---------------------------------------------------------------------------
// Decimal strings
// ---------------------------------------------------------------------------

/// Why a price string could not be converted to exact integer cents.
#[derive(Clone, Copy, Debug, PartialEq, Eq, Structural)]
pub enum PriceParseError {
    /// Input was empty or whitespace only.
    Empty,
    /// Input was not a plain decimal number.
    Malformed,
    /// Input carried precision finer than one cent, such as "0.005".
    ///
    /// This is an error rather than a rounding decision on purpose. A sub-cent
    /// price means the venue changed its tick structure, and silently rounding
    /// would let a changed contract specification flow into the solver looking
    /// like a normal quote.
    SubCent,
    /// Value fell outside the 0 to 100 cent range a binary contract can occupy.
    OutOfRange,
}

/// The message of a [`PriceParseError`].
pub open spec fn price_parse_message(error: PriceParseError) -> Seq<char> {
    match error {
        PriceParseError::Empty => "price string was empty"@,
        PriceParseError::Malformed => "price string was not a plain decimal"@,
        PriceParseError::SubCent => "price string had sub-cent precision"@,
        PriceParseError::OutOfRange => "price was outside 0 to 100 cents"@,
    }
}

impl PriceParseError {
    /// What went wrong, for a log line.
    pub fn message(&self) -> (out: &'static str)
        ensures
            out@ == price_parse_message(*self),
    {
        match self {
            PriceParseError::Empty => "price string was empty",
            PriceParseError::Malformed => "price string was not a plain decimal",
            PriceParseError::SubCent => "price string had sub-cent precision",
            PriceParseError::OutOfRange => "price was outside 0 to 100 cents",
        }
    }
}

/// The first two digits of a fraction, padded with zeros, as hundredths.
pub open spec fn hundredths(fraction: Seq<char>) -> int {
    (if fraction.len() > 0 {
        text::digit_value(fraction[0]) * 10
    } else {
        0
    }) + (if fraction.len() > 1 {
        text::digit_value(fraction[1])
    } else {
        0
    })
}

/// Whether a fraction says anything past its first two digits.
pub open spec fn finer_than_hundredths(fraction: Seq<char>) -> bool {
    exists|i: int| 2 <= i < fraction.len() && #[trigger] fraction[i] != '0'
}

/// The price that a decimal-dollar string writes, in cents.
pub open spec fn price_cents(s: Seq<char>) -> Result<int, PriceParseError> {
    let t = text::trimmed(s);
    if t.len() == 0 {
        Err(PriceParseError::Empty)
    } else {
        let (whole, fraction) = match text::split_once(t, '.') {
            Some(parts) => parts,
            None => (t, Seq::empty()),
        };
        if whole.len() == 0 || !text::all_digits(whole) || !text::all_digits(fraction) || (
        t.contains('.') && fraction.len() == 0) || text::number(whole) > i64::MAX {
            Err(PriceParseError::Malformed)
        } else if finer_than_hundredths(fraction) {
            Err(PriceParseError::SubCent)
        } else {
            let total = text::number(whole) * 100 + hundredths(fraction);
            if total > 100 {
                Err(PriceParseError::OutOfRange)
            } else {
                Ok(total)
            }
        }
    }
}

/// Whether any character past the first two is not a zero.
fn finer(fraction: &[char]) -> (r: bool)
    ensures
        r == finer_than_hundredths(fraction@),
{
    let mut i: usize = 2;
    while i < fraction.len()
        invariant
            2 <= i,
            forall|j: int| 2 <= j < i && j < fraction@.len() ==> #[trigger] fraction@[j] == '0',
        decreases fraction@.len() - i,
    {
        if fraction[i] != '0' {
            return true;
        }
        i = i + 1;
    }
    false
}

/// The first two digits of a fraction as hundredths.
fn two_digits(fraction: &[char]) -> (n: u64)
    requires
        text::all_digits(fraction@),
    ensures
        n == hundredths(fraction@),
        n <= 99,
{
    let mut n: u64 = 0;
    if fraction.len() > 0 {
        assert(text::is_digit(fraction@[0]));
        n = (fraction[0] as u32 - '0' as u32) as u64 * 10;
    }
    if fraction.len() > 1 {
        assert(text::is_digit(fraction@[1]));
        n = n + (fraction[1] as u32 - '0' as u32) as u64;
    }
    n
}

/// A price that a string writes lies inside the band of a binary contract.
pub proof fn lemma_price_cents(s: Seq<char>)
    ensures
        price_cents(s) matches Ok(cents) ==> 0 <= cents <= 100,
{
    let t = text::trimmed(s);
    if price_cents(s) is Ok {
        let (whole, fraction) = match text::split_once(t, '.') {
            Some(parts) => parts,
            None => (t, Seq::empty()),
        };
        text::lemma_number_bounds(whole);
        assert(hundredths(fraction) >= 0) by {
            if fraction.len() > 0 {
                assert(text::is_digit(fraction[0]));
            }
            if fraction.len() > 1 {
                assert(text::is_digit(fraction[1]));
            }
        }
    }
}

/// Convert a venue decimal-dollar string such as "0.0800" into exact integer
/// [`Cents`].
///
/// Kalshi puts prices on the wire as decimal strings in dollars, never as
/// integer cents, so this function is the single doorway between the venue's
/// representation and the engine's. Every price in the system passes through
/// here, which is why it refuses rather than approximates: precision finer than
/// one cent is an error, and no binary fraction appears anywhere on the way.
pub fn parse_price_cents(s: &str) -> (result: Result<Cents, PriceParseError>)
    ensures
        match result {
            Ok(cents) => price_cents(s@) == Ok::<int, PriceParseError>(cents as int)
                && price_in_range(cents as int),
            Err(error) => price_cents(s@) == Err::<int, PriceParseError>(error),
        },
{
    let all: Vec<char> = text::chars(s);
    let t: &[char] = text::trim(all.as_slice());
    if t.len() == 0 {
        return Err(PriceParseError::Empty);
    }
    let point: usize = text::find(t, '.');
    proof {
        text::lemma_first_index(t@, '.');
    }
    let dotted: bool = point < t.len();
    let whole: &[char] = slice_subrange(t, 0, point);
    let fraction: &[char] = if dotted {
        slice_subrange(t, point + 1, t.len())
    } else {
        slice_subrange(t, t.len(), t.len())
    };
    proof {
        if !dotted {
            assert(whole@ =~= t@);
            assert(fraction@ =~= Seq::<char>::empty());
        }
    }
    if whole.len() == 0 || !text::digits(whole) {
        return Err(PriceParseError::Malformed);
    }
    if !text::digits(fraction) {
        return Err(PriceParseError::Malformed);
    }
    // "0." with nothing after the point is malformed, not zero.
    if dotted && fraction.len() == 0 {
        return Err(PriceParseError::Malformed);
    }
    let dollars: u128 = match text::parse_number(whole, i64::MAX as u128) {
        Some(dollars) => dollars,
        None => return Err(PriceParseError::Malformed),
    };
    if finer(fraction) {
        return Err(PriceParseError::SubCent);
    }
    let cents: u64 = two_digits(fraction);
    let total: u128 = dollars * 100 + cents as u128;
    // A binary contract settles at zero or one dollar, so a price outside that
    // band is a venue schema change rather than a quote.
    if total > 100 {
        return Err(PriceParseError::OutOfRange);
    }
    Ok(total as i64)
}

/// Why a size string could not be converted to whole contracts.
#[derive(Clone, Copy, Debug, PartialEq, Eq, Structural)]
pub enum SizeParseError {
    /// A point with nothing after it.
    EmptyFraction,
    /// Not a plain fixed-point number.
    Malformed,
    /// Precision finer than a hundredth of a contract.
    SubHundredth,
    /// More contracts than an `i64` holds.
    Overflow,
    /// The counter of discarded hundredths is full.
    CounterOverflow,
}

/// The message of a [`SizeParseError`].
pub open spec fn size_parse_message(error: SizeParseError) -> Seq<char> {
    match error {
        SizeParseError::EmptyFraction => "empty size fraction"@,
        SizeParseError::Malformed => "malformed fixed-point size"@,
        SizeParseError::SubHundredth => "size has sub-hundredth precision"@,
        SizeParseError::Overflow => "size overflow"@,
        SizeParseError::CounterOverflow => "discarded-size counter overflow"@,
    }
}

impl SizeParseError {
    /// What went wrong, for a log line.
    pub fn message(&self) -> (out: &'static str)
        ensures
            out@ == size_parse_message(*self),
    {
        match self {
            SizeParseError::EmptyFraction => "empty size fraction",
            SizeParseError::Malformed => "malformed fixed-point size",
            SizeParseError::SubHundredth => "size has sub-hundredth precision",
            SizeParseError::Overflow => "size overflow",
            SizeParseError::CounterOverflow => "discarded-size counter overflow",
        }
    }
}

/// The size that a fixed-point string writes, in hundredths of a contract.
pub open spec fn size_hundredths(s: Seq<char>) -> Result<int, SizeParseError> {
    let negative = s.len() > 0 && s[0] == '-';
    let unsigned = if negative {
        s.subrange(1, s.len() as int)
    } else {
        s
    };
    let (whole, fraction) = match text::split_once(unsigned, '.') {
        Some(parts) => parts,
        None => (unsigned, Seq::empty()),
    };
    if unsigned.contains('.') && fraction.len() == 0 {
        Err(SizeParseError::EmptyFraction)
    } else if whole.len() == 0 || !text::all_digits(whole) || !text::all_digits(fraction) {
        Err(SizeParseError::Malformed)
    } else if finer_than_hundredths(fraction) {
        Err(SizeParseError::SubHundredth)
    } else {
        let magnitude = text::number(whole) * 100 + hundredths(fraction);
        Ok(if negative {
            -magnitude
        } else {
            magnitude
        })
    }
}

/// The whole contracts in a size string: the mathematical floor.
pub open spec fn size_contracts(s: Seq<char>) -> Result<int, SizeParseError> {
    match size_hundredths(s) {
        Err(error) => Err(error),
        Ok(h) => if i64::MIN <= h / 100 <= i64::MAX {
            Ok(h / 100)
        } else {
            Err(SizeParseError::Overflow)
        },
    }
}

/// What flooring a size string throws away, in hundredths of a contract.
pub open spec fn size_discarded(s: Seq<char>) -> int {
    match size_hundredths(s) {
        Err(_) => 0,
        Ok(h) => h % 100,
    }
}

/// Floor fixed-point sizes to whole contracts without floats. Understating
/// snapshot depth suppresses marginal signals instead of inventing liquidity.
/// Signed changes use mathematical floor too: -1.20 becomes -2 (not -1).
/// Repeated fractional deltas can accumulate conservative drift; the book store
/// clamps levels at zero rather than assume floor(snapshot)+sum(floor(delta))
/// is exact, and a fresh snapshot after resync restores absolute state.
/// The counter measures x-floor(x) in hundredths, not unique lost book depth.
/// Nonzero precision beyond hundredths is rejected rather than lost.
pub fn parse_size_contracts(s: &str, discarded_hundredths: &mut u64) -> (result: Result<
    i64,
    SizeParseError,
>)
    ensures
        match result {
            Ok(size) => size_contracts(s@) == Ok::<int, SizeParseError>(size as int)
                && *final(discarded_hundredths) == *old(discarded_hundredths) + size_discarded(s@),
            Err(error) => {
                &&& *final(discarded_hundredths) == *old(discarded_hundredths)
                &&& match size_contracts(s@) {
                    Err(cause) => error == cause,
                    Ok(_) => error == SizeParseError::CounterOverflow && *old(discarded_hundredths)
                        + size_discarded(s@) > u64::MAX,
                }
            },
        },
{
    let all: Vec<char> = text::chars(s);
    let negative: bool = all.len() > 0 && all[0] == '-';
    let unsigned: &[char] = if negative {
        slice_subrange(all.as_slice(), 1, all.len())
    } else {
        all.as_slice()
    };
    let point: usize = text::find(unsigned, '.');
    proof {
        text::lemma_first_index(unsigned@, '.');
    }
    let dotted: bool = point < unsigned.len();
    let whole: &[char] = slice_subrange(unsigned, 0, point);
    let fraction: &[char] = if dotted {
        slice_subrange(unsigned, point + 1, unsigned.len())
    } else {
        slice_subrange(unsigned, unsigned.len(), unsigned.len())
    };
    proof {
        if !dotted {
            assert(whole@ =~= unsigned@);
            assert(fraction@ =~= Seq::<char>::empty());
        }
    }
    if dotted && fraction.len() == 0 {
        return Err(SizeParseError::EmptyFraction);
    }
    if whole.len() == 0 || !text::digits(whole) || !text::digits(fraction) {
        return Err(SizeParseError::Malformed);
    }
    if finer(fraction) {
        return Err(SizeParseError::SubHundredth);
    }
    let cents: u64 = two_digits(fraction);
    let limit: u128 = 9_223_372_036_854_775_808;
    let w: u128 = match text::parse_number(whole, limit) {
        Some(w) => w,
        None => {
            return Err(SizeParseError::Overflow);
        },
    };
    let ghost h: int = if negative {
        -(w * 100 + cents)
    } else {
        w * 100 + cents
    };
    assert(size_hundredths(s@) == Ok::<int, SizeParseError>(h));
    let borrow: i128 = if cents != 0 {
        1
    } else {
        0
    };
    let value: i128 = if negative {
        -(w as i128) - borrow
    } else {
        w as i128
    };
    assert(value == h / 100);
    if value > i64::MAX as i128 || value < i64::MIN as i128 {
        return Err(SizeParseError::Overflow);
    }
    let discarded: u64 = if negative && cents != 0 {
        100 - cents
    } else {
        cents
    };
    assert(discarded == h % 100);
    match discarded_hundredths.checked_add(discarded) {
        Some(total) => {
            *discarded_hundredths = total;
            Ok(value as i64)
        },
        None => Err(SizeParseError::CounterOverflow),
    }
}

// ---------------------------------------------------------------------------
// Interning
// ---------------------------------------------------------------------------

/// A venue and the venue's own name for one market on it.
pub type Instrument = (Venue, Seq<char>);

/// The identifier of an instrument: its place in interning order.
pub open spec fn lookup(names: Seq<Instrument>, venue: Venue, ticker: Seq<char>) -> Option<
    ContractId,
> {
    if names.contains((venue, ticker)) {
        Some(ContractId(names.index_of((venue, ticker)) as u32))
    } else {
        None
    }
}

/// The names after interning one more instrument.
pub open spec fn interned(names: Seq<Instrument>, venue: Venue, ticker: Seq<char>) -> Seq<
    Instrument,
> {
    if names.contains((venue, ticker)) {
        names
    } else {
        names.push((venue, ticker))
    }
}

/// Every identifier an interner has handed out is already in use.
#[derive(Clone, Copy, Debug, PartialEq, Eq, Structural)]
pub struct InternError;

/// The instruments of a run, numbered in the order they were first named.
pub struct Contracts {
    kalshi: StringHashMap<u32>,
    polymarket: StringHashMap<u32>,
    tickers: Vec<(Venue, String)>,
}

impl View for Contracts {
    type V = Seq<Instrument>;

    closed spec fn view(&self) -> Seq<Instrument> {
        self.tickers@.map_values(|t: (Venue, String)| (t.0, t.1@))
    }
}

/// One venue's index agrees with the list of names.
spec fn indexes(index: Map<Seq<char>, u32>, names: Seq<Instrument>, venue: Venue) -> bool {
    &&& forall|t: Seq<char>| #[trigger]
        index.contains_key(t) ==> index[t] < names.len() && names[index[t] as int] == (venue, t)
    &&& forall|i: int|
        0 <= i < names.len() && (#[trigger] names[i]).0 == venue ==> index.contains_key(names[i].1)
            && index[names[i].1] == i
}

impl Contracts {
    #[verifier::type_invariant]
    spec fn wf(self) -> bool {
        &&& self@.len() <= 0x1_0000_0000
        &&& indexes(self.kalshi@, self@, Venue::Kalshi)
        &&& indexes(self.polymarket@, self@, Venue::Polymarket)
    }

    /// No instrument has two identifiers, and every identifier fits its type.
    pub(crate) fn distinct(&self)
        ensures
            self@.no_duplicates(),
            self@.len() <= 0x1_0000_0000,
    {
        proof {
            use_type_invariant(self);
            lemma_indexes_distinct(self.kalshi@, self.polymarket@, self@);
        }
    }

    /// Number `ticker`, or report the number it already has.
    pub fn intern(&mut self, venue: Venue, ticker: &str) -> (result: Result<ContractId, InternError>)
        ensures
            match result {
                Ok(id) => final(self)@ == interned(old(self)@, venue, ticker@) && lookup(
                    final(self)@,
                    venue,
                    ticker@,
                ) == Some(id) && id.0 < final(self)@.len() && final(self)@[id.0 as int] == (
                    venue,
                    ticker@,
                ),
                Err(_) => final(self)@ == old(self)@ && !old(self)@.contains((venue, ticker@)) && old(
                    self,
                )@.len() > u32::MAX,
            },
            final(self)@.no_duplicates(),
            final(self)@.len() <= 0x1_0000_0000,
    {
        self.distinct();
        match self.get(venue, ticker) {
            Some(id) => {
                return Ok(id);
            },
            None => {},
        }
        let mut taken: Contracts = Contracts::default();
        std::mem::swap(self, &mut taken);
        proof {
            use_type_invariant(&taken);
        }
        let ghost names = taken@;
        let Contracts { mut kalshi, mut polymarket, mut tickers } = taken;
        if tickers.len() > u32::MAX as usize {
            *self = Contracts { kalshi, polymarket, tickers };
            return Err(InternError);
        }
        let id: u32 = tickers.len() as u32;
        match venue {
            Venue::Kalshi => kalshi.insert(ticker.to_owned(), id),
            Venue::Polymarket => polymarket.insert(ticker.to_owned(), id),
        }
        tickers.push((venue, ticker.to_owned()));
        proof {
            let view = tickers@.map_values(|t: (Venue, String)| (t.0, t.1@));
            assert(view =~= names.push((venue, ticker@)));
            assert forall|t: Seq<char>| #[trigger] kalshi@.contains_key(t) implies kalshi@[t]
                < view.len() && view[kalshi@[t] as int] == (Venue::Kalshi, t) by {}
            assert forall|t: Seq<char>| #[trigger] polymarket@.contains_key(t) implies polymarket@[t]
                < view.len() && view[polymarket@[t] as int] == (Venue::Polymarket, t) by {}
            assert(indexes(kalshi@, view, Venue::Kalshi));
            assert(indexes(polymarket@, view, Venue::Polymarket));
        }
        *self = Contracts { kalshi, polymarket, tickers };
        assert(self@ == interned(names, venue, ticker@));
        self.distinct();
        proof {
            lemma_lookup(self@, venue, ticker@, id as int);
        }
        Ok(ContractId(id))
    }

    pub fn get(&self, venue: Venue, ticker: &str) -> (id: Option<ContractId>)
        ensures
            id == lookup(self@, venue, ticker@),
            id matches Some(found) ==> found.0 < self@.len() && self@[found.0 as int] == (
                venue,
                ticker@,
            ),
    {
        self.distinct();
        proof {
            use_type_invariant(self);
        }
        let found: Option<&u32> = match venue {
            Venue::Kalshi => self.kalshi.get(ticker),
            Venue::Polymarket => self.polymarket.get(ticker),
        };
        match found {
            Some(id) => {
                proof {
                    lemma_lookup(self@, venue, ticker@, *id as int);
                }
                Some(ContractId(*id))
            },
            None => {
                assert(!self@.contains((venue, ticker@)));
                None
            },
        }
    }

    pub fn resolve(&self, id: ContractId) -> (found: Option<&(Venue, String)>)
        ensures
            match found {
                Some(entry) => id.0 < self@.len() && (entry.0, entry.1@) == self@[id.0 as int],
                None => id.0 >= self@.len(),
            },
    {
        if (id.0 as usize) < self.tickers.len() {
            Some(&self.tickers[id.0 as usize])
        } else {
            None
        }
    }

    /// How many identifiers have been handed out.
    pub fn len(&self) -> (n: usize)
        ensures
            n == self@.len(),
    {
        self.tickers.len()
    }
}

impl Default for Contracts {
    fn default() -> (contracts: Self)
        ensures
            contracts@ == Seq::<Instrument>::empty(),
    {
        let kalshi: StringHashMap<u32> = StringHashMap::new();
        let polymarket: StringHashMap<u32> = StringHashMap::new();
        let tickers: Vec<(Venue, String)> = Vec::new();
        assert(tickers@.map_values(|t: (Venue, String)| (t.0, t.1@)) =~= Seq::<Instrument>::empty());
        Contracts { kalshi, polymarket, tickers }
    }
}

proof fn lemma_indexes_distinct(
    kalshi: Map<Seq<char>, u32>,
    polymarket: Map<Seq<char>, u32>,
    names: Seq<Instrument>,
)
    requires
        indexes(kalshi, names, Venue::Kalshi),
        indexes(polymarket, names, Venue::Polymarket),
    ensures
        names.no_duplicates(),
{
    assert forall|i: int, j: int|
        0 <= i < names.len() && 0 <= j < names.len() && i != j implies names[i] != names[j] by {
        match names[i].0 {
            Venue::Kalshi => {},
            Venue::Polymarket => {},
        }
    }
}

/// In a list without duplicates, an instrument's identifier is where it stands.
pub proof fn lemma_lookup(names: Seq<Instrument>, venue: Venue, ticker: Seq<char>, i: int)
    requires
        names.no_duplicates(),
        0 <= i < names.len(),
        names[i] == (venue, ticker),
    ensures
        lookup(names, venue, ticker) == Some(ContractId(i as u32)),
{
    assert(names.contains((venue, ticker)));
}

} // verus!
