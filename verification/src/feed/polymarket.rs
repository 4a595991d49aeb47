//! Polymarket CLOB market-channel parsing.
//!
//! The wire shape here is not Kalshi's, and the differences are the whole
//! reason this is a separate parser rather than a flag on the other one.
//!
//! - A `book` arrives as a JSON *array*, one entry per subscribed token; every
//!   other message is a JSON object. The discriminator is `event_type`.
//! - A `price_change` nests its updates under `price_changes`, so one frame
//!   carries several level updates, for several tokens.
//! - A level update states the **new absolute size** at that price. It is not a
//!   signed change, which is what [`crate::feed::kalshi`] receives, and applying
//!   one as though it were would corrupt the book on the first update.
//! - The server answers the client's `PING` with a bare `PONG` text frame that
//!   is not JSON at all, and it must not be counted as a payload the parser
//!   failed to understand.
//!
//! # One contract per token
//!
//! A Polymarket market has two tokens, and the venue reports both sides of the
//! same resting order twice: an ask at `p` on the yes token is a bid at
//! `100 - p` on the no token, at identical size. One token therefore carries the
//! whole market, and its two ladders map onto the two halves of
//! [`crate::types::Book`] exactly as Kalshi's do — which is why a 0.01-tick
//! Polymarket market needs no change to the book representation.
//!
//! # Prices and sizes are exact
//!
//! Both arrive as decimal strings and are converted with the same helpers the
//! Kalshi path uses, so there is one definition of a cent in this codebase.
//! A price finer than a cent is rejected rather than rounded: it means the
//! market's tick structure is not one this book can represent, and rounding it
//! would put a quote nobody made in front of the solver.
use serde_json::Value;
use vstd::prelude::*;
use crate::book;
use crate::feed;
use crate::feed::{EventView, FeedEvent, Refusal, Row};
use crate::fees;
use crate::json;
use crate::json::shape;
use crate::json::shape::{Shape, ShapeView};
use crate::json::Json;
use crate::metrics::{self, Metrics, MetricsView};
use crate::text;
use crate::types;
use crate::types::{
    parse_size_contracts, Cents, ContractId, Contracts, Instrument, InternError, Level, Venue,
};

pub use crate::types::TokenSide;

verus! {

#[derive(Clone, Debug, PartialEq)]
pub struct BookSnapshot {
    pub contract: ContractId,
    /// The venue's own timestamp, in epoch milliseconds.
    pub venue_ts_ms: u64,
    /// The venue's integrity digest for this book.
    pub hash: String,
    pub bids: Vec<Level>,
    pub asks: Vec<Level>,
}

/// What a [`BookSnapshot`] says.
#[verifier::ext_equal]
pub struct BookSnapshotView {
    pub contract: ContractId,
    pub venue_ts_ms: u64,
    pub hash: Seq<char>,
    pub bids: Seq<Level>,
    pub asks: Seq<Level>,
}

impl View for BookSnapshot {
    type V = BookSnapshotView;

    open spec fn view(&self) -> BookSnapshotView {
        BookSnapshotView {
            contract: self.contract,
            venue_ts_ms: self.venue_ts_ms,
            hash: self.hash@,
            bids: self.bids@,
            asks: self.asks@,
        }
    }
}

/// One price level replaced outright.
#[derive(Clone, Debug, PartialEq)]
pub struct LevelSet {
    pub contract: ContractId,
    pub side: TokenSide,
    pub price: Cents,
    /// The new size resting at this price, not a change to it.
    pub size: i64,
    pub hash: String,
}

/// What a [`LevelSet`] says.
#[verifier::ext_equal]
pub struct LevelSetView {
    pub contract: ContractId,
    pub side: TokenSide,
    pub price: Cents,
    pub size: i64,
    pub hash: Seq<char>,
}

impl View for LevelSet {
    type V = LevelSetView;

    open spec fn view(&self) -> LevelSetView {
        LevelSetView {
            contract: self.contract,
            side: self.side,
            price: self.price,
            size: self.size,
            hash: self.hash@,
        }
    }
}

#[derive(Clone, Debug, PartialEq)]
pub enum Parsed {
    /// One entry per subscribed token.
    Books(Vec<BookSnapshot>),
    Levels { venue_ts_ms: u64, changes: Vec<LevelSet> },
}

/// What a [`Parsed`] says.
#[verifier::ext_equal]
pub enum ParsedView {
    Books(Seq<BookSnapshotView>),
    Levels { venue_ts_ms: u64, changes: Seq<LevelSetView> },
}

pub open spec fn books_view(books: Seq<BookSnapshot>) -> Seq<BookSnapshotView> {
    books.map_values(|book: BookSnapshot| book@)
}

pub open spec fn changes_view(changes: Seq<LevelSet>) -> Seq<LevelSetView> {
    changes.map_values(|change: LevelSet| change@)
}

impl View for Parsed {
    type V = ParsedView;

    open spec fn view(&self) -> ParsedView {
        match self {
            Parsed::Books(books) => ParsedView::Books(books_view(books@)),
            Parsed::Levels { venue_ts_ms, changes } => ParsedView::Levels {
                venue_ts_ms: *venue_ts_ms,
                changes: changes_view(changes@),
            },
        }
    }
}

pub open spec fn parsed_view(parsed: Option<Parsed>) -> Option<ParsedView> {
    match parsed {
        Some(parsed) => Some(parsed@),
        None => None,
    }
}

/// An ask stored as a bid on the complement.
pub open spec fn mirrored(asks: Seq<Level>) -> Seq<Level> {
    asks.map_values(|level: Level| Level { price: (100 - level.price) as i64, size: level.size })
}

/// Whether an event is the snapshot of a book, under a number.
pub open spec fn snapshots(event: EventView, book: BookSnapshotView, seq: u64) -> bool {
    event == EventView::Snapshot {
        contract: book.contract,
        yes: book.bids,
        no: mirrored(book.asks),
        seq,
        venue_ts_ms: Some(book.venue_ts_ms),
    }
}

/// Whether an event is the snapshot of a book, under a number that a function
/// gives its contract.
pub open spec fn numbered<F: Fn(ContractId) -> u64>(
    snapshot_seq: F,
    event: EventView,
    book: BookSnapshotView,
) -> bool {
    match event {
        EventView::Snapshot { seq, .. } => snapshots(event, book, seq) && call_ensures(
            snapshot_seq,
            (book.contract,),
            seq,
        ),
        _ => false,
    }
}

/// The event of one level restated.
pub open spec fn restated(change: LevelSetView, venue_ts_ms: u64) -> EventView {
    EventView::LevelSet {
        contract: change.contract,
        side: change.side,
        price: change.price,
        size: change.size,
        venue_ts_ms,
    }
}

fn mirror(asks: &Vec<Level>) -> (no: Vec<Level>)
    requires
        forall|i: int| 0 <= i < asks@.len() ==> fees::fits(100 - (#[trigger] asks@[i]).price),
    ensures
        no@ == mirrored(asks@),
{
    let mut no: Vec<Level> = Vec::new();
    let mut i: usize = 0;
    while i < asks.len()
        invariant
            i <= asks@.len(),
            forall|k: int| 0 <= k < asks@.len() ==> fees::fits(100 - (#[trigger] asks@[k]).price),
            no@ == mirrored(asks@).subrange(0, i as int),
        decreases asks@.len() - i,
    {
        let level: Level = asks[i];
        no.push(Level { price: 100 - level.price, size: level.size });
        i = i + 1;
        assert(no@ =~= mirrored(asks@).subrange(0, i as int));
    }
    assert(mirrored(asks@).subrange(0, asks@.len() as int) =~= mirrored(asks@));
    no
}

impl Parsed {
    /// Flatten into the events the book store applies.
    ///
    /// One frame becomes several events, because the venue batches every token
    /// it has news for into one message. A snapshot needs a sequence number the
    /// venue does not supply, so the caller provides one: it is a local count of
    /// snapshots for that book, used to satisfy the book store's rebase and
    /// never to detect a gap, which this venue gives no way to do.
    pub fn into_events<F: Fn(ContractId) -> u64>(self, snapshot_seq: F) -> (events: Vec<FeedEvent>)
        requires
            forall|contract: ContractId| #[trigger] call_requires(snapshot_seq, (contract,)),
            self matches Parsed::Books(books) ==> forall|i: int, j: int|
                0 <= i < books@.len() && 0 <= j < books@[i].asks@.len() ==> fees::fits(
                    100 - (#[trigger] books@[i].asks@[j]).price,
                ),
        ensures
            match self@ {
                ParsedView::Books(books) => events@.len() == books.len() && forall|i: int|
                    0 <= i < books.len() ==> numbered(
                        snapshot_seq,
                        (#[trigger] events@[i])@,
                        books[i],
                    ),
                ParsedView::Levels { venue_ts_ms, changes } => events@.map_values(
                    |event: FeedEvent| event@,
                ) == changes.map_values(|change: LevelSetView| restated(change, venue_ts_ms)),
            },
    {
        let mut events: Vec<FeedEvent> = Vec::new();
        match self {
            Parsed::Books(books) => {
                let ghost all = books@;
                for book in it: books
                    invariant
                        it.seq() == all,
                        forall|contract: ContractId| #[trigger]
                            call_requires(snapshot_seq, (contract,)),
                        forall|i: int, j: int|
                            0 <= i < all.len() && 0 <= j < all[i].asks@.len() ==> fees::fits(
                                100 - (#[trigger] all[i].asks@[j]).price,
                            ),
                        events@.len() == it.index(),
                        forall|i: int|
                            0 <= i < it.index() ==> numbered(
                                snapshot_seq,
                                (#[trigger] events@[i])@,
                                all[i]@,
                            ),
                {
                    let ghost at = it.index() as int;
                    assert(all[at] == book);
                    let seq: u64 = snapshot_seq(book.contract);
                    let no: Vec<Level> = mirror(&book.asks);
                    let ghost view = book@;
                    events.push(
                        FeedEvent::Snapshot {
                            contract: book.contract,
                            yes: book.bids,
                            no,
                            seq,
                            venue_ts_ms: Some(book.venue_ts_ms),
                        },
                    );
                    assert(numbered(snapshot_seq, events@[at]@, view));
                }
            },
            Parsed::Levels { venue_ts_ms, changes } => {
                let ghost all = changes@;
                let mut i: usize = 0;
                while i < changes.len()
                    invariant
                        i <= changes@.len(),
                        all == changes@,
                        events@.len() == i,
                        forall|k: int|
                            0 <= k < i ==> (#[trigger] events@[k])@ == restated(
                                all[k]@,
                                venue_ts_ms,
                            ),
                    decreases changes@.len() - i,
                {
                    let change: &LevelSet = &changes[i];
                    events.push(
                        FeedEvent::LevelSet {
                            contract: change.contract,
                            side: change.side,
                            price: change.price,
                            size: change.size,
                            venue_ts_ms,
                        },
                    );
                    i = i + 1;
                }
                assert(events@.map_values(|event: FeedEvent| event@) =~= changes_view(
                    all,
                ).map_values(|change: LevelSetView| restated(change, venue_ts_ms)));
            },
        }
        events
    }
}

// ---------------------------------------------------------------------------
// The wire
// ---------------------------------------------------------------------------

/// The text of a field that may be left out, and is then empty.
pub open spec fn defaulted(field: Option<Json>) -> Option<Seq<char>> {
    match field {
        None => Some(Seq::empty()),
        Some(Json::Text(text)) => Some(text),
        Some(_) => None,
    }
}

/// One level as the venue writes it: price and size.
pub open spec fn level_row(level: Json) -> Option<Row> {
    match (
        json::text_of(json::field_of(level, 0, "price"@)),
        json::text_of(json::field_of(level, 1, "size"@)),
    ) {
        (Some(price), Some(size)) => if json::is_record(level, 2, 2) {
            Some((price, size))
        } else {
            None
        },
        _ => None,
    }
}

/// The rows of one side of a book, which is empty where it is left out.
pub open spec fn level_rows(side: Option<Json>) -> Option<Seq<Row>> {
    match side {
        None => Some(Seq::empty()),
        Some(Json::List(levels)) => if forall|i: int|
            0 <= i < levels.len() ==> level_row(#[trigger] levels[i]) is Some {
            Some(levels.map_values(|level: Json| level_row(level)->0))
        } else {
            None
        },
        Some(_) => None,
    }
}

/// A book as the venue writes it.
#[verifier::ext_equal]
pub struct RawBookView {
    pub asset_id: Seq<char>,
    pub timestamp: Seq<char>,
    pub hash: Seq<char>,
    pub bids: Seq<Row>,
    pub asks: Seq<Row>,
}

pub open spec fn raw_book(book: Json) -> Option<RawBookView> {
    match (
        json::text_of(json::field_of(book, 0, "asset_id"@)),
        json::text_of(json::field_of(book, 1, "timestamp"@)),
        defaulted(json::field_of(book, 2, "hash"@)),
        level_rows(json::field_of(book, 3, "bids"@)),
        level_rows(json::field_of(book, 4, "asks"@)),
    ) {
        (Some(asset_id), Some(timestamp), Some(hash), Some(bids), Some(asks)) => if json::is_record(
            book,
            2,
            5,
        ) {
            Some(RawBookView { asset_id, timestamp, hash, bids, asks })
        } else {
            None
        },
        _ => None,
    }
}

/// A level update as the venue writes it.
#[verifier::ext_equal]
pub struct RawChangeView {
    pub asset_id: Seq<char>,
    pub price: Seq<char>,
    pub size: Seq<char>,
    pub side: Seq<char>,
    pub hash: Seq<char>,
}

pub open spec fn raw_change(change: Json) -> Option<RawChangeView> {
    match (
        json::text_of(json::field_of(change, 0, "asset_id"@)),
        json::text_of(json::field_of(change, 1, "price"@)),
        json::text_of(json::field_of(change, 2, "size"@)),
        json::text_of(json::field_of(change, 3, "side"@)),
        defaulted(json::field_of(change, 4, "hash"@)),
    ) {
        (Some(asset_id), Some(price), Some(size), Some(side), Some(hash)) => if json::is_record(
            change,
            4,
            5,
        ) {
            Some(RawChangeView { asset_id, price, size, side, hash })
        } else {
            None
        },
        _ => None,
    }
}

/// What one book comes to, and the hundredths of a contract counted as thrown
/// away. A token that is not subscribed is skipped, not refused.
pub open spec fn book_of(names: Seq<Instrument>, raw: RawBookView, discarded: u64) -> (
    u64,
    Result<Option<BookSnapshotView>, Refusal>,
) {
    match types::lookup(names, Venue::Polymarket, raw.asset_id) {
        None => (discarded, Ok(None)),
        Some(contract) => match text::unsigned(raw.timestamp, u64::MAX as int) {
            None => (discarded, Err(Refusal::Malformed)),
            Some(ms) => match feed::sized(raw.bids, raw.bids.len() as int, true, 0) {
                Err(refusal) => (discarded, Err(refusal)),
                Ok((bids, some)) => match feed::sized(
                    raw.asks,
                    raw.asks.len() as int,
                    true,
                    some,
                ) {
                    Err(refusal) => (discarded, Err(refusal)),
                    Ok((asks, total)) => (
                        metrics::raised(discarded, total),
                        Ok(
                            Some(
                                BookSnapshotView {
                                    contract,
                                    venue_ts_ms: ms as u64,
                                    hash: raw.hash,
                                    bids,
                                    asks,
                                },
                            ),
                        ),
                    ),
                },
            },
        },
    }
}

/// What the first `n` books come to.
pub open spec fn books_of(names: Seq<Instrument>, raw: Seq<RawBookView>, n: int, discarded: u64) -> (
    u64,
    Result<Seq<BookSnapshotView>, Refusal>,
)
    decreases n,
{
    if n <= 0 {
        (discarded, Ok(Seq::empty()))
    } else {
        match books_of(names, raw, n - 1, discarded) {
            (count, Err(refusal)) => (count, Err(refusal)),
            (count, Ok(books)) => match book_of(names, raw[n - 1], count) {
                (count, Err(refusal)) => (count, Err(refusal)),
                (count, Ok(None)) => (count, Ok(books)),
                (count, Ok(Some(book))) => (count, Ok(books.push(book))),
            },
        }
    }
}

pub open spec fn side_named(side: Seq<char>) -> Option<TokenSide> {
    if side == "BUY"@ {
        Some(TokenSide::Bid)
    } else if side == "SELL"@ {
        Some(TokenSide::Ask)
    } else {
        None
    }
}

/// What one level update comes to.
pub open spec fn change_of(names: Seq<Instrument>, raw: RawChangeView, discarded: u64) -> (
    u64,
    Result<Option<LevelSetView>, Refusal>,
) {
    match types::lookup(names, Venue::Polymarket, raw.asset_id) {
        None => (discarded, Ok(None)),
        Some(contract) => match side_named(raw.side) {
            None => (discarded, Err(Refusal::Malformed)),
            Some(side) => match feed::priced(raw.price) {
                Err(refusal) => (discarded, Err(refusal)),
                Ok(price) => match types::size_contracts(raw.size) {
                    Err(_) => (discarded, Err(Refusal::Malformed)),
                    Ok(size) => (
                        metrics::raised(discarded, types::size_discarded(raw.size)),
                        Ok(
                            Some(
                                LevelSetView {
                                    contract,
                                    side,
                                    price,
                                    size: size as i64,
                                    hash: raw.hash,
                                },
                            ),
                        ),
                    ),
                },
            },
        },
    }
}

/// What the first `n` level updates come to.
pub open spec fn changes_of(
    names: Seq<Instrument>,
    raw: Seq<RawChangeView>,
    n: int,
    discarded: u64,
) -> (u64, Result<Seq<LevelSetView>, Refusal>)
    decreases n,
{
    if n <= 0 {
        (discarded, Ok(Seq::empty()))
    } else {
        match changes_of(names, raw, n - 1, discarded) {
            (count, Err(refusal)) => (count, Err(refusal)),
            (count, Ok(changes)) => match change_of(names, raw[n - 1], count) {
                (count, Err(refusal)) => (count, Err(refusal)),
                (count, Ok(None)) => (count, Ok(changes)),
                (count, Ok(Some(change))) => (count, Ok(changes.push(change))),
            },
        }
    }
}

/// What reading a frame comes to: the hundredths counted as thrown away, and
/// what the frame says.
#[verifier::ext_equal]
pub enum Reading {
    Books(Seq<BookSnapshotView>),
    Levels(u64, Seq<LevelSetView>),
    Nothing,
    Unknown,
    Refused(Refusal),
}

/// A frame that is a list of books.
pub open spec fn list_frame(names: Seq<Instrument>, items: Seq<Json>, discarded: u64) -> (
    u64,
    Reading,
) {
    if exists|i: int| 0 <= i < items.len() && raw_book(#[trigger] items[i]) is None {
        (discarded, Reading::Refused(Refusal::Malformed))
    } else {
        let raw = items.map_values(|item: Json| raw_book(item)->0);
        match books_of(names, raw, raw.len() as int, discarded) {
            (count, Err(refusal)) => (count, Reading::Refused(refusal)),
            (count, Ok(books)) => (count, Reading::Books(books)),
        }
    }
}

/// A frame that updates levels.
pub open spec fn change_frame(names: Seq<Instrument>, frame: Json, discarded: u64) -> (
    u64,
    Reading,
) {
    match (
        json::member_of(frame, "price_changes"@),
        json::text_of(json::member_of(frame, "timestamp"@)),
    ) {
        (Some(Json::List(items)), Some(timestamp)) => if exists|i: int|
            0 <= i < items.len() && raw_change(#[trigger] items[i]) is None {
            (discarded, Reading::Refused(Refusal::Malformed))
        } else {
            match text::unsigned(timestamp, u64::MAX as int) {
                None => (discarded, Reading::Refused(Refusal::Malformed)),
                Some(ms) => {
                    let raw = items.map_values(|item: Json| raw_change(item)->0);
                    match changes_of(names, raw, raw.len() as int, discarded) {
                        (count, Err(refusal)) => (count, Reading::Refused(refusal)),
                        (count, Ok(changes)) => (count, Reading::Levels(ms as u64, changes)),
                    }
                },
            }
        },
        _ => (discarded, Reading::Refused(Refusal::Malformed)),
    }
}

/// What one frame comes to. A frame whose text opens with a bracket is a list
/// of books; `None` is one that is not JSON at all.
pub open spec fn frame_of(
    names: Seq<Instrument>,
    bracketed: bool,
    frame: Option<Json>,
    discarded: u64,
) -> (u64, Reading) {
    match frame {
        None => (discarded, Reading::Refused(Refusal::Malformed)),
        Some(frame) => if bracketed {
            match frame {
                Json::List(items) => list_frame(names, items, discarded),
                _ => (discarded, Reading::Refused(Refusal::Malformed)),
            }
        } else {
            match json::text_of(json::member_of(frame, "event_type"@)) {
                None => (discarded, Reading::Refused(Refusal::Malformed)),
                Some(kind) => if kind == "book"@ {
                    list_frame(names, seq![frame], discarded)
                } else if kind == "price_change"@ {
                    change_frame(names, frame, discarded)
                } else if kind == "last_trade_price"@ || kind == "tick_size_change"@ {
                    (discarded, Reading::Nothing)
                } else {
                    (discarded, Reading::Unknown)
                },
            }
        },
    }
}

/// The counters and the result after a frame has been read.
pub open spec fn counted(metrics: MetricsView, count: u64, reading: Reading, receipt: u64) -> (
    MetricsView,
    Option<ParsedView>,
) {
    let read = MetricsView { discarded_size_hundredths: count, ..metrics };
    match reading {
        Reading::Nothing => (read, None),
        Reading::Unknown => (
            MetricsView { unknown_messages: (read.unknown_messages + 1) as u64, ..read },
            None,
        ),
        Reading::Refused(Refusal::Malformed) => (
            MetricsView { parse_errors: (read.parse_errors + 1) as u64, ..read },
            None,
        ),
        Reading::Refused(Refusal::SubCent) => (
            MetricsView { sub_cent_prices: (read.sub_cent_prices + 1) as u64, ..read },
            None,
        ),
        Reading::Books(books) => (
            read,
            if books.len() == 0 {
                None
            } else {
                Some(ParsedView::Books(books))
            },
        ),
        Reading::Levels(venue_ts_ms, changes) => (
            read.observed(receipt, venue_ts_ms),
            if changes.len() == 0 {
                None
            } else {
                Some(ParsedView::Levels { venue_ts_ms, changes })
            },
        ),
    }
}

/// A heartbeat, or nothing at all: text that is no payload.
pub open spec fn is_heartbeat(trimmed: Seq<char>) -> bool {
    text::lowered(trimmed) == "pong"@ || text::lowered(trimmed) == "ping"@ || trimmed.len() == 0
}

/// What is read of the levels of one side of a book.
pub open spec fn side_shape() -> ShapeView {
    ShapeView::List(Box::new(shape::flat(seq!["price"@, "size"@])))
}

/// What is read of a book in a list.
pub open spec fn book_shape() -> ShapeView {
    ShapeView::Record {
        names: seq!["asset_id"@, "timestamp"@, "hash"@, "bids"@, "asks"@],
        shapes: seq![
            ShapeView::Any,
            ShapeView::Any,
            ShapeView::Any,
            side_shape(),
            side_shape(),
        ],
    }
}

/// What is read of a frame for its type.
pub open spec fn typed_shape() -> ShapeView {
    shape::flat(seq!["event_type"@])
}

/// What is read of a frame that is one book.
pub open spec fn book_frame_shape() -> ShapeView {
    ShapeView::Record {
        names: seq!["event_type"@, "asset_id"@, "timestamp"@, "hash"@, "bids"@, "asks"@],
        shapes: seq![
            ShapeView::Any,
            ShapeView::Any,
            ShapeView::Any,
            ShapeView::Any,
            side_shape(),
            side_shape(),
        ],
    }
}

/// What is read of a frame that restates levels, and of each of them.
pub open spec fn change_frame_shape() -> ShapeView {
    ShapeView::Record {
        names: seq!["event_type"@, "price_changes"@, "timestamp"@],
        shapes: seq![
            ShapeView::Any,
            ShapeView::List(
                Box::new(shape::flat(seq!["asset_id"@, "price"@, "size"@, "side"@, "hash"@])),
            ),
            ShapeView::Any,
        ],
    }
}

/// The frame that a trimmed text writes, if it writes one: a list of books where
/// it opens with a bracket, and otherwise what is read of a frame of its type.
pub open spec fn frame_in(trimmed: Seq<char>) -> Option<Json> {
    if shape::opens(trimmed, '[') {
        shape::shaped(trimmed, ShapeView::List(Box::new(book_shape())))
    } else {
        match shape::shaped(trimmed, typed_shape()) {
            None => None,
            Some(frame) => match json::text_of(json::member_of(frame, "event_type"@)) {
                None => Some(frame),
                Some(kind) => if kind == "book"@ {
                    shape::shaped(trimmed, book_frame_shape())
                } else if kind == "price_change"@ {
                    shape::shaped(trimmed, change_frame_shape())
                } else {
                    Some(frame)
                },
            },
        }
    }
}

fn one_side() -> (side: Shape)
    ensures
        side.wf(),
        side@ == side_shape(),
{
    let names: Vec<String> = vec!["price".to_owned(), "size".to_owned()];
    assert(text::views(names@) =~= seq!["price"@, "size"@]);
    Shape::List(Box::new(shape::flat_record(names)))
}

fn book_list() -> (books: Shape)
    ensures
        books.wf(),
        books@ == ShapeView::List(Box::new(book_shape())),
{
    let names: Vec<String> = vec![
        "asset_id".to_owned(),
        "timestamp".to_owned(),
        "hash".to_owned(),
        "bids".to_owned(),
        "asks".to_owned(),
    ];
    let shapes: Vec<Shape> = vec![Shape::Any, Shape::Any, Shape::Any, one_side(), one_side()];
    let book = Shape::Record { names, shapes };
    proof {
        reveal_with_fuel(Shape::view, 2);
        reveal_with_fuel(Shape::wf, 2);
        assert(book@->names =~= book_shape()->names);
        assert(book@->shapes =~= book_shape()->shapes);
        assert(book.wf());
    }
    Shape::List(Box::new(book))
}

fn book_frame() -> (frame: Shape)
    ensures
        frame.wf(),
        frame@ == book_frame_shape(),
{
    let names: Vec<String> = vec![
        "event_type".to_owned(),
        "asset_id".to_owned(),
        "timestamp".to_owned(),
        "hash".to_owned(),
        "bids".to_owned(),
        "asks".to_owned(),
    ];
    let shapes: Vec<Shape> = vec![
        Shape::Any,
        Shape::Any,
        Shape::Any,
        Shape::Any,
        one_side(),
        one_side(),
    ];
    let frame = Shape::Record { names, shapes };
    proof {
        reveal_with_fuel(Shape::view, 2);
        reveal_with_fuel(Shape::wf, 2);
        assert(frame@->names =~= book_frame_shape()->names);
        assert(frame@->shapes =~= book_frame_shape()->shapes);
    }
    frame
}

fn change_frame_fields() -> (frame: Shape)
    ensures
        frame.wf(),
        frame@ == change_frame_shape(),
{
    let fields: Vec<String> = vec![
        "asset_id".to_owned(),
        "price".to_owned(),
        "size".to_owned(),
        "side".to_owned(),
        "hash".to_owned(),
    ];
    assert(text::views(fields@) =~= seq!["asset_id"@, "price"@, "size"@, "side"@, "hash"@]);
    let names: Vec<String> = vec![
        "event_type".to_owned(),
        "price_changes".to_owned(),
        "timestamp".to_owned(),
    ];
    let changes = Shape::List(Box::new(shape::flat_record(fields)));
    let shapes: Vec<Shape> = vec![Shape::Any, changes, Shape::Any];
    let frame = Shape::Record { names, shapes };
    proof {
        reveal_with_fuel(Shape::view, 2);
        reveal_with_fuel(Shape::wf, 2);
        assert(frame@->names =~= change_frame_shape()->names);
        assert(frame@->shapes =~= change_frame_shape()->shapes);
    }
    frame
}

/// The frame that a trimmed text writes, if it writes one.
fn read_text(trimmed: &str) -> (frame: Option<Value>)
    ensures
        match frame {
            Some(frame) => frame_in(trimmed@) == Some(json::json(frame)),
            None => frame_in(trimmed@) is None,
        },
{
    if !trimmed.is_empty() && trimmed.get_char(0) == '[' {
        return shape::read_shaped(trimmed, &book_list());
    }
    let names: Vec<String> = vec!["event_type".to_owned()];
    assert(text::views(names@) =~= seq!["event_type"@]);
    let frame: Value = match shape::read_shaped(trimmed, &shape::flat_record(names)) {
        Some(frame) => frame,
        None => return None,
    };
    let kind: Option<&str> = match json::member(&frame, "event_type") {
        Some(value) => json::string(value),
        None => None,
    };
    match kind {
        Some(kind) => if text::same(kind, "book") {
            shape::read_shaped(trimmed, &book_frame())
        } else if text::same(kind, "price_change") {
            shape::read_shaped(trimmed, &change_frame_fields())
        } else {
            Some(frame)
        },
        None => Some(frame),
    }
}

/// The counters and the result after one frame, given what its trimmed text is
/// as JSON.
pub open spec fn heard(
    metrics: MetricsView,
    names: Seq<Instrument>,
    trimmed: Seq<char>,
    frame: Option<Json>,
    receipt: u64,
) -> (MetricsView, Option<ParsedView>) {
    let tried = MetricsView { parse_attempts: (metrics.parse_attempts + 1) as u64, ..metrics };
    if is_heartbeat(trimmed) {
        (tried, None)
    } else {
        let (count, reading) = frame_of(
            names,
            trimmed[0] == '[',
            frame,
            tried.discarded_size_hundredths,
        );
        counted(tried, count, reading, receipt)
    }
}

/// Exactly what [`Reading`] says, with the values in hand.
enum Read {
    Books(Vec<BookSnapshot>),
    Levels(u64, Vec<LevelSet>),
    Nothing,
    Unknown,
    Refused(Refusal),
}

impl Read {
    spec fn is(self, reading: Reading) -> bool {
        match self {
            Read::Books(books) => reading == Reading::Books(books_view(books@)),
            Read::Levels(ms, changes) => reading == Reading::Levels(ms, changes_view(changes@)),
            Read::Nothing => reading is Nothing,
            Read::Unknown => reading is Unknown,
            Read::Refused(refusal) => reading == Reading::Refused(refusal),
        }
    }
}

/// A book as the venue writes it.
struct RawBook {
    asset_id: String,
    timestamp: String,
    hash: String,
    bids: Vec<(String, String)>,
    asks: Vec<(String, String)>,
}

impl View for RawBook {
    type V = RawBookView;

    closed spec fn view(&self) -> RawBookView {
        RawBookView {
            asset_id: self.asset_id@,
            timestamp: self.timestamp@,
            hash: self.hash@,
            bids: feed::rows_view(self.bids@),
            asks: feed::rows_view(self.asks@),
        }
    }
}

/// A level update as the venue writes it.
struct RawChange {
    asset_id: String,
    price: String,
    size: String,
    side: String,
    hash: String,
}

impl View for RawChange {
    type V = RawChangeView;

    closed spec fn view(&self) -> RawChangeView {
        RawChangeView {
            asset_id: self.asset_id@,
            price: self.price@,
            size: self.size@,
            side: self.side@,
            hash: self.hash@,
        }
    }
}

pub struct Parser {
    pub contracts: Contracts,
    pub metrics: Metrics,
    /// The venue whose wire format this parser speaks. Read rather than
    /// re-asserted by callers, matching [`crate::feed::kalshi::Parser`].
    pub venue: Venue,
}

impl Parser {
    pub fn new(tokens: &[String]) -> (result: Result<Self, InternError>)
        ensures
            match result {
                Ok(parser) => {
                    &&& parser.contracts@ == book::interned_all(
                        book::listed(Venue::Polymarket, tokens@),
                    )
                    &&& parser.metrics@ == MetricsView::zero()
                    &&& parser.venue == Venue::Polymarket
                },
                Err(_) => book::interned_all(book::listed(Venue::Polymarket, tokens@)).len()
                    > 0x1_0000_0000,
            },
    {
        match book::intern_all(Venue::Polymarket, tokens) {
            Ok(contracts) => Ok(
                Parser { contracts, metrics: Metrics::default(), venue: Venue::Polymarket },
            ),
            Err(error) => Err(error),
        }
    }

    /// Parse one frame. `None` means the frame carried no book information,
    /// which covers heartbeats and the message types this feed ignores.
    pub fn parse(&mut self, raw: &str, receipt: u64) -> (parsed: Option<Parsed>)
        requires
            old(self).metrics@.has_room(),
        ensures
            (final(self).metrics@, parsed_view(parsed)) == heard(
                old(self).metrics@,
                old(self).contracts@,
                text::trimmed(raw@),
                frame_in(text::trimmed(raw@)),
                receipt,
            ),
            final(self).contracts == old(self).contracts,
            final(self).venue == old(self).venue,
    {
        let all: Vec<char> = text::chars(raw);
        let trimmed: String = text::collect(text::trim(all.as_slice()));
        match read_text(trimmed.as_str()) {
            Some(frame) => self.hear(trimmed.as_str(), Some(&frame), receipt),
            None => self.hear(trimmed.as_str(), None, receipt),
        }
    }

    /// Read one frame whose trimmed text has been parsed as JSON; `None` is one
    /// that could not be.
    pub fn hear(&mut self, trimmed: &str, frame: Option<&Value>, receipt: u64) -> (parsed: Option<
        Parsed,
    >)
        requires
            old(self).metrics@.has_room(),
        ensures
            (final(self).metrics@, parsed_view(parsed)) == heard(
                old(self).metrics@,
                old(self).contracts@,
                trimmed@,
                (match frame {
                    Some(frame) => Some(json::json(*frame)),
                    None => None,
                }),
                receipt,
            ),
            final(self).contracts == old(self).contracts,
            final(self).venue == old(self).venue,
    {
        self.metrics.parse_attempts = self.metrics.parse_attempts + 1;
        let letters: Vec<char> = text::chars(trimmed);
        // The heartbeat reply is a bare token, not JSON. Treating it as a
        // malformed payload would report a permanent parse-error rate on a
        // perfectly healthy feed.
        if text::same_but_case(letters.as_slice(), "pong") || text::same_but_case(
            letters.as_slice(),
            "ping",
        ) || letters.len() == 0 {
            return None;
        }
        let mut count: u64 = self.metrics.discarded_size_hundredths;
        let read: Read = self.read_frame(letters[0] == '[', frame, &mut count);
        self.metrics.discarded_size_hundredths = count;
        match read {
            Read::Nothing => None,
            Read::Unknown => {
                self.metrics.unknown_messages = self.metrics.unknown_messages + 1;
                None
            },
            Read::Refused(Refusal::Malformed) => {
                self.metrics.parse_errors = self.metrics.parse_errors + 1;
                None
            },
            Read::Refused(Refusal::SubCent) => {
                self.metrics.sub_cent_prices = self.metrics.sub_cent_prices + 1;
                None
            },
            Read::Books(books) => if books.len() == 0 {
                None
            } else {
                Some(Parsed::Books(books))
            },
            Read::Levels(venue_ts_ms, changes) => {
                self.metrics.observe_latency(receipt, venue_ts_ms);
                if changes.len() == 0 {
                    None
                } else {
                    Some(Parsed::Levels { venue_ts_ms, changes })
                }
            },
        }
    }

    /// A book arrives as an array and everything else as an object, so the
    /// container is part of the discriminator.
    fn read_frame(&self, bracketed: bool, frame: Option<&Value>, count: &mut u64) -> (read: Read)
        ensures
            ({
                let outcome = frame_of(
                    self.contracts@,
                    bracketed,
                    (match frame {
                        Some(frame) => Some(json::json(*frame)),
                        None => None,
                    }),
                    *old(count),
                );
                *final(count) == outcome.0 && read.is(outcome.1)
            }),
    {
        let frame: &Value = match frame {
            Some(frame) => frame,
            None => return Read::Refused(Refusal::Malformed),
        };
        if bracketed {
            let items: &Vec<Value> = match json::list(frame) {
                Some(items) => items,
                None => return Read::Refused(Refusal::Malformed),
            };
            return match read_books(items) {
                Some(books) => self.take_books(books, count),
                None => Read::Refused(Refusal::Malformed),
            };
        }
        let kind: &str = match json::member(frame, "event_type") {
            Some(value) => match json::string(value) {
                Some(kind) => kind,
                None => return Read::Refused(Refusal::Malformed),
            },
            None => return Read::Refused(Refusal::Malformed),
        };
        if text::same(kind, "book") {
            let ghost single = seq![json::json(*frame)];
            match read_book(frame) {
                Some(book) => {
                    let mut books: Vec<RawBook> = Vec::new();
                    books.push(book);
                    proof {
                        assert(single[0] == json::json(*frame));
                        assert forall|i: int| 0 <= i < single.len() implies raw_book(
                            #[trigger] single[i],
                        ) is Some by {}
                        assert(raw_books_view(books@) =~= single.map_values(
                            |item: Json| raw_book(item)->0,
                        ));
                    }
                    self.take_books(books, count)
                },
                None => {
                    assert(raw_book(single[0]) is None);
                    Read::Refused(Refusal::Malformed)
                },
            }
        } else if text::same(kind, "price_change") {
            self.read_changes(frame, count)
        } else if text::same(kind, "last_trade_price") || text::same(kind, "tick_size_change") {
            // Known, and deliberately not book state. A trade print says a trade
            // happened, not that resting liquidity moved, and a tick change
            // only matters for markets this engine already refuses to carry.
            Read::Nothing
        } else {
            Read::Unknown
        }
    }

    fn take_books(&self, raw: Vec<RawBook>, count: &mut u64) -> (read: Read)
        ensures
            ({
                let outcome = books_of(
                    self.contracts@,
                    raw_books_view(raw@),
                    raw@.len() as int,
                    *old(count),
                );
                *final(count) == outcome.0 && match outcome.1 {
                    Ok(books) => read.is(Reading::Books(books)),
                    Err(refusal) => read.is(Reading::Refused(refusal)),
                }
            }),
    {
        let ghost all = raw_books_view(raw@);
        let ghost names = self.contracts@;
        let mut books: Vec<BookSnapshot> = Vec::new();
        let mut i: usize = 0;
        assert(books_view(books@) =~= Seq::<BookSnapshotView>::empty());
        while i < raw.len()
            invariant
                i <= raw@.len(),
                all == raw_books_view(raw@),
                names == self.contracts@,
                books_of(names, all, i as int, *old(count)) == (
                    *count,
                    Ok::<Seq<BookSnapshotView>, Refusal>(books_view(books@)),
                ),
            decreases raw@.len() - i,
        {
            assert(all[i as int] == raw@[i as int]@);
            let ghost held = books@;
            match self.book(&raw[i], count) {
                Ok(Some(book)) => {
                    books.push(book);
                    assert(books_view(books@) =~= books_view(held).push(book@));
                },
                Ok(None) => {},
                Err(refusal) => {
                    proof {
                        lemma_books_refused(names, all, i + 1, all.len() as int, *old(count));
                    }
                    return Read::Refused(refusal);
                },
            }
            i = i + 1;
        }
        Read::Books(books)
    }

    /// `None` when the token is not one this parser carries. A book frame names
    /// every token of the market, and only one of them need be subscribed, so
    /// the others are skipped on the same terms as in a level update.
    fn book(&self, raw: &RawBook, count: &mut u64) -> (result: Result<Option<BookSnapshot>, Refusal>)
        ensures
            ({
                let outcome = book_of(self.contracts@, raw@, *old(count));
                *final(count) == outcome.0 && match result {
                    Ok(Some(book)) => outcome.1 == Ok::<Option<BookSnapshotView>, Refusal>(
                        Some(book@),
                    ),
                    Ok(None) => outcome.1 == Ok::<Option<BookSnapshotView>, Refusal>(None),
                    Err(refusal) => outcome.1 == Err::<Option<BookSnapshotView>, Refusal>(refusal),
                }
            }),
    {
        let contract: ContractId = match self.contracts.get(
            Venue::Polymarket,
            raw.asset_id.as_str(),
        ) {
            Some(contract) => contract,
            None => return Ok(None),
        };
        let venue_ts_ms: u64 = match text::parse_u64(raw.timestamp.as_str()) {
            Some(ms) => ms,
            None => return Err(Refusal::Malformed),
        };
        let mut discarded: u64 = 0;
        let bids: Vec<Level> = match feed::ladder(&raw.bids, true, &mut discarded) {
            Ok(bids) => bids,
            Err(refusal) => return Err(refusal),
        };
        let asks: Vec<Level> = match feed::ladder(&raw.asks, true, &mut discarded) {
            Ok(asks) => asks,
            Err(refusal) => return Err(refusal),
        };
        *count = (*count).saturating_add(discarded);
        Ok(
            Some(
                BookSnapshot {
                    contract,
                    venue_ts_ms,
                    hash: raw.hash.as_str().to_owned(),
                    bids,
                    asks,
                },
            ),
        )
    }

    fn read_changes(&self, frame: &Value, count: &mut u64) -> (read: Read)
        ensures
            ({
                let outcome = change_frame(self.contracts@, json::json(*frame), *old(count));
                *final(count) == outcome.0 && read.is(outcome.1)
            }),
    {
        let items: &Vec<Value> = match json::member(frame, "price_changes") {
            Some(value) => match json::list(value) {
                Some(items) => items,
                None => return Read::Refused(Refusal::Malformed),
            },
            None => return Read::Refused(Refusal::Malformed),
        };
        let timestamp: &str = match json::member(frame, "timestamp") {
            Some(value) => match json::string(value) {
                Some(timestamp) => timestamp,
                None => return Read::Refused(Refusal::Malformed),
            },
            None => return Read::Refused(Refusal::Malformed),
        };
        let raw: Vec<RawChange> = match read_raw_changes(items) {
            Some(raw) => raw,
            None => return Read::Refused(Refusal::Malformed),
        };
        let venue_ts_ms: u64 = match text::parse_u64(timestamp) {
            Some(ms) => ms,
            None => return Read::Refused(Refusal::Malformed),
        };
        self.take_changes(raw, venue_ts_ms, count)
    }

    fn take_changes(&self, raw: Vec<RawChange>, venue_ts_ms: u64, count: &mut u64) -> (read: Read)
        ensures
            ({
                let outcome = changes_of(
                    self.contracts@,
                    raw_changes_view(raw@),
                    raw@.len() as int,
                    *old(count),
                );
                *final(count) == outcome.0 && match outcome.1 {
                    Ok(changes) => read.is(Reading::Levels(venue_ts_ms, changes)),
                    Err(refusal) => read.is(Reading::Refused(refusal)),
                }
            }),
    {
        let ghost all = raw_changes_view(raw@);
        let ghost names = self.contracts@;
        let mut changes: Vec<LevelSet> = Vec::new();
        let mut i: usize = 0;
        assert(changes_view(changes@) =~= Seq::<LevelSetView>::empty());
        while i < raw.len()
            invariant
                i <= raw@.len(),
                all == raw_changes_view(raw@),
                names == self.contracts@,
                changes_of(names, all, i as int, *old(count)) == (
                    *count,
                    Ok::<Seq<LevelSetView>, Refusal>(changes_view(changes@)),
                ),
            decreases raw@.len() - i,
        {
            assert(all[i as int] == raw@[i as int]@);
            let ghost held = changes@;
            match self.change(&raw[i], count) {
                Ok(Some(change)) => {
                    changes.push(change);
                    assert(changes_view(changes@) =~= changes_view(held).push(change@));
                },
                Ok(None) => {},
                Err(refusal) => {
                    proof {
                        lemma_changes_refused(names, all, i + 1, all.len() as int, *old(count));
                    }
                    return Read::Refused(refusal);
                },
            }
            i = i + 1;
        }
        Read::Levels(venue_ts_ms, changes)
    }

    /// A change for a token this parser did not subscribe to is not an error:
    /// one market's frame names both its tokens, and only one of them need be
    /// subscribed.
    fn change(&self, raw: &RawChange, count: &mut u64) -> (result: Result<Option<LevelSet>, Refusal>)
        ensures
            ({
                let outcome = change_of(self.contracts@, raw@, *old(count));
                *final(count) == outcome.0 && match result {
                    Ok(Some(change)) => outcome.1 == Ok::<Option<LevelSetView>, Refusal>(
                        Some(change@),
                    ),
                    Ok(None) => outcome.1 == Ok::<Option<LevelSetView>, Refusal>(None),
                    Err(refusal) => outcome.1 == Err::<Option<LevelSetView>, Refusal>(refusal),
                }
            }),
    {
        let contract: ContractId = match self.contracts.get(
            Venue::Polymarket,
            raw.asset_id.as_str(),
        ) {
            Some(contract) => contract,
            None => return Ok(None),
        };
        let side: TokenSide = if text::same(raw.side.as_str(), "BUY") {
            TokenSide::Bid
        } else if text::same(raw.side.as_str(), "SELL") {
            TokenSide::Ask
        } else {
            return Err(Refusal::Malformed);
        };
        let price: Cents = match feed::price(raw.price.as_str()) {
            Ok(price) => price,
            Err(refusal) => return Err(refusal),
        };
        let mut discarded: u64 = 0;
        let size: i64 = match parse_size_contracts(raw.size.as_str(), &mut discarded) {
            Ok(size) => size,
            Err(_) => return Err(Refusal::Malformed),
        };
        *count = (*count).saturating_add(discarded);
        Ok(
            Some(
                LevelSet {
                    contract,
                    side,
                    price,
                    size,
                    hash: raw.hash.as_str().to_owned(),
                },
            ),
        )
    }
}

spec fn raw_books_view(books: Seq<RawBook>) -> Seq<RawBookView> {
    books.map_values(|book: RawBook| book@)
}

spec fn raw_changes_view(changes: Seq<RawChange>) -> Seq<RawChangeView> {
    changes.map_values(|change: RawChange| change@)
}

fn read_default(value: Option<&Value>) -> (text: Option<String>)
    ensures
        ({
            let held = match value {
                Some(value) => Some(json::json(*value)),
                None => None,
            };
            match text {
                Some(text) => defaulted(held) == Some(text@),
                None => defaulted(held) is None,
            }
        }),
{
    match value {
        None => {
            let none: String = String::new();
            assert(none@ =~= Seq::<char>::empty());
            Some(none)
        },
        Some(value) => match json::string(value) {
            Some(text) => Some(text.to_owned()),
            None => None,
        },
    }
}

fn read_level(level: &Value) -> (row: Option<(String, String)>)
    ensures
        match row {
            Some(row) => level_row(json::json(*level)) == Some((row.0@, row.1@)),
            None => level_row(json::json(*level)) is None,
        },
{
    match (json::text_field(level, 0, "price"), json::text_field(level, 1, "size")) {
        (Some(price), Some(size)) => if json::record(level, 2, 2) {
            Some((price.to_owned(), size.to_owned()))
        } else {
            None
        },
        _ => None,
    }
}

fn read_levels(side: Option<&Value>) -> (rows: Option<Vec<(String, String)>>)
    ensures
        ({
            let held = match side {
                Some(side) => Some(json::json(*side)),
                None => None,
            };
            match rows {
                Some(rows) => level_rows(held) == Some(feed::rows_view(rows@)),
                None => level_rows(held) is None,
            }
        }),
{
    let mut rows: Vec<(String, String)> = Vec::new();
    assert(feed::rows_view(rows@) =~= Seq::<Row>::empty());
    let present: &Value = match side {
        Some(present) => present,
        None => return Some(rows),
    };
    let items: &Vec<Value> = match json::list(present) {
        Some(items) => items,
        None => return None,
    };
    let ghost all = items@.map_values(|item: Value| json::json(item));
    let mut i: usize = 0;
    while i < items.len()
        invariant
            i <= items@.len(),
            all == items@.map_values(|item: Value| json::json(item)),
            side == Some(present),
            json::json(*present) == Json::List(all),
            rows@.len() == i,
            forall|k: int|
                0 <= k < i ==> level_row(#[trigger] all[k]) == Some((rows@[k].0@, rows@[k].1@)),
        decreases items@.len() - i,
    {
        assert(all[i as int] == json::json(items@[i as int]));
        match read_level(&items[i]) {
            Some(row) => rows.push(row),
            None => {
                assert(level_row(all[i as int]) is None);
                return None;
            },
        }
        i = i + 1;
    }
    proof {
        assert forall|k: int| 0 <= k < all.len() implies level_row(#[trigger] all[k]) is Some by {}
        assert(all.map_values(|level: Json| level_row(level)->0) =~= feed::rows_view(rows@));
    }
    Some(rows)
}

fn read_book(book: &Value) -> (raw: Option<RawBook>)
    ensures
        match raw {
            Some(raw) => raw_book(json::json(*book)) == Some(raw@),
            None => raw_book(json::json(*book)) is None,
        },
{
    let asset_id: String = match json::text_field(book, 0, "asset_id") {
        Some(text) => text.to_owned(),
        None => return None,
    };
    let timestamp: String = match json::text_field(book, 1, "timestamp") {
        Some(text) => text.to_owned(),
        None => return None,
    };
    let hash: String = match read_default(json::field(book, 2, "hash")) {
        Some(text) => text,
        None => return None,
    };
    let bids: Vec<(String, String)> = match read_levels(json::field(book, 3, "bids")) {
        Some(rows) => rows,
        None => return None,
    };
    let asks: Vec<(String, String)> = match read_levels(json::field(book, 4, "asks")) {
        Some(rows) => rows,
        None => return None,
    };
    if !json::record(book, 2, 5) {
        return None;
    }
    Some(RawBook { asset_id, timestamp, hash, bids, asks })
}

fn read_books(items: &Vec<Value>) -> (books: Option<Vec<RawBook>>)
    ensures
        ({
            let all = items@.map_values(|item: Value| json::json(item));
            match books {
                Some(books) => (forall|i: int|
                    0 <= i < all.len() ==> raw_book(#[trigger] all[i]) is Some)
                    && raw_books_view(books@) == all.map_values(|item: Json| raw_book(item)->0),
                None => exists|i: int| 0 <= i < all.len() && raw_book(#[trigger] all[i]) is None,
            }
        }),
{
    let ghost all = items@.map_values(|item: Value| json::json(item));
    let mut books: Vec<RawBook> = Vec::new();
    let mut i: usize = 0;
    while i < items.len()
        invariant
            i <= items@.len(),
            all == items@.map_values(|item: Value| json::json(item)),
            books@.len() == i,
            forall|k: int| 0 <= k < i ==> raw_book(#[trigger] all[k]) == Some(books@[k]@),
        decreases items@.len() - i,
    {
        assert(all[i as int] == json::json(items@[i as int]));
        match read_book(&items[i]) {
            Some(book) => books.push(book),
            None => {
                assert(raw_book(all[i as int]) is None);
                return None;
            },
        }
        i = i + 1;
    }
    proof {
        assert forall|k: int| 0 <= k < all.len() implies raw_book(#[trigger] all[k]) is Some by {}
        assert(raw_books_view(books@) =~= all.map_values(|item: Json| raw_book(item)->0));
    }
    Some(books)
}

fn read_raw_change(change: &Value) -> (raw: Option<RawChange>)
    ensures
        match raw {
            Some(raw) => raw_change(json::json(*change)) == Some(raw@),
            None => raw_change(json::json(*change)) is None,
        },
{
    let (asset_id, price, size, side): (&str, &str, &str, &str) = match (
        json::text_field(change, 0, "asset_id"),
        json::text_field(change, 1, "price"),
        json::text_field(change, 2, "size"),
        json::text_field(change, 3, "side"),
    ) {
        (Some(asset_id), Some(price), Some(size), Some(side)) => (asset_id, price, size, side),
        _ => return None,
    };
    let hash: String = match read_default(json::field(change, 4, "hash")) {
        Some(text) => text,
        None => return None,
    };
    if !json::record(change, 4, 5) {
        return None;
    }
    Some(
        RawChange {
            asset_id: asset_id.to_owned(),
            price: price.to_owned(),
            size: size.to_owned(),
            side: side.to_owned(),
            hash,
        },
    )
}

fn read_raw_changes(items: &Vec<Value>) -> (changes: Option<Vec<RawChange>>)
    ensures
        ({
            let all = items@.map_values(|item: Value| json::json(item));
            match changes {
                Some(changes) => (forall|i: int|
                    0 <= i < all.len() ==> raw_change(#[trigger] all[i]) is Some)
                    && raw_changes_view(changes@) == all.map_values(
                    |item: Json| raw_change(item)->0,
                ),
                None => exists|i: int| 0 <= i < all.len() && raw_change(#[trigger] all[i]) is None,
            }
        }),
{
    let ghost all = items@.map_values(|item: Value| json::json(item));
    let mut changes: Vec<RawChange> = Vec::new();
    let mut i: usize = 0;
    while i < items.len()
        invariant
            i <= items@.len(),
            all == items@.map_values(|item: Value| json::json(item)),
            changes@.len() == i,
            forall|k: int| 0 <= k < i ==> raw_change(#[trigger] all[k]) == Some(changes@[k]@),
        decreases items@.len() - i,
    {
        assert(all[i as int] == json::json(items@[i as int]));
        match read_raw_change(&items[i]) {
            Some(change) => changes.push(change),
            None => {
                assert(raw_change(all[i as int]) is None);
                return None;
            },
        }
        i = i + 1;
    }
    proof {
        assert forall|k: int| 0 <= k < all.len() implies raw_change(
            #[trigger] all[k],
        ) is Some by {}
        assert(raw_changes_view(changes@) =~= all.map_values(|item: Json| raw_change(item)->0));
    }
    Some(changes)
}

proof fn lemma_books_refused(
    names: Seq<Instrument>,
    raw: Seq<RawBookView>,
    m: int,
    n: int,
    discarded: u64,
)
    requires
        0 <= m <= n,
        books_of(names, raw, m, discarded).1 is Err,
    ensures
        books_of(names, raw, n, discarded) == books_of(names, raw, m, discarded),
    decreases n,
{
    if m < n {
        lemma_books_refused(names, raw, m, n - 1, discarded);
    }
}

proof fn lemma_changes_refused(
    names: Seq<Instrument>,
    raw: Seq<RawChangeView>,
    m: int,
    n: int,
    discarded: u64,
)
    requires
        0 <= m <= n,
        changes_of(names, raw, m, discarded).1 is Err,
    ensures
        changes_of(names, raw, n, discarded) == changes_of(names, raw, m, discarded),
    decreases n,
{
    if m < n {
        lemma_changes_refused(names, raw, m, n - 1, discarded);
    }
}

// ---------------------------------------------------------------------------
// Laws
// ---------------------------------------------------------------------------

/// A heartbeat is never counted as a payload that was not understood, whatever
/// its case.
pub proof fn a_heartbeat_is_no_error(
    metrics: MetricsView,
    names: Seq<Instrument>,
    trimmed: Seq<char>,
    frame: Option<Json>,
    receipt: u64,
)
    requires
        is_heartbeat(trimmed),
    ensures
        ({
            let (after, parsed) = heard(metrics, names, trimmed, frame, receipt);
            parsed is None && after.parse_errors == metrics.parse_errors && after.unknown_messages
                == metrics.unknown_messages && after.sub_cent_prices == metrics.sub_cent_prices
        }),
{
}

/// Both halves of a book carry the same order: an ask at `p` is stored as a bid
/// at `100 - p` on the complement, at the same size, and mirroring twice is the
/// identity.
pub proof fn mirroring_twice_is_the_identity(asks: Seq<Level>)
    requires
        forall|i: int| 0 <= i < asks.len() ==> 0 <= (#[trigger] asks[i]).price <= 100,
    ensures
        mirrored(mirrored(asks)) == asks,
{
    assert(mirrored(mirrored(asks)) =~= asks);
}

/// A book that was read can be flattened: every price has a complement.
pub proof fn a_read_book_has_a_complement(names: Seq<Instrument>, raw: RawBookView, discarded: u64)
    ensures
        book_of(names, raw, discarded).1 matches Ok(Some(book)) ==> (forall|i: int|
            0 <= i < book.asks.len() ==> 0 <= (#[trigger] book.asks[i]).price <= 100) && (forall|
            i: int,
        |
            0 <= i < book.bids.len() ==> 0 <= (#[trigger] book.bids[i]).price <= 100),
{
    feed::lemma_sized(raw.bids, raw.bids.len() as int, true, 0);
    if let Ok((_, some)) = feed::sized(raw.bids, raw.bids.len() as int, true, 0) {
        feed::lemma_sized(raw.asks, raw.asks.len() as int, true, some);
    }
}

} // verus!
