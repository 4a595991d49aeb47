//! Kalshi's wire: what its frames say, how its sockets are signed for, and when
//! a dropped one is dialled again.
use rsa::pkcs1::DecodeRsaPrivateKey;
use rsa::pkcs8::DecodePrivateKey;
use rsa::pss::SigningKey;
use rsa::signature::{RandomizedSigner, SignatureEncoding};
use rsa::RsaPrivateKey;
use serde_json::Value;
use sha2::Sha256;
use vstd::prelude::*;
use base64::Engine;
use crate::book;
use crate::feed;
use crate::feed::{EventView, FeedEvent, Refusal, Row};
use crate::json;
use crate::json::shape;
use crate::json::shape::{Shape, ShapeView};
use crate::json::Json;
use crate::metrics::{self, Metrics, MetricsView};
use crate::record::{Control, ControlView};
use crate::text;
use crate::timestamp;
use crate::timestamp::Timestamp;
use crate::types;
use crate::types::{
    parse_size_contracts, Cents, ContractId, Contracts, Instrument, InternError, Level, Side, Venue,
};

verus! {

pub const WS_PATH: &'static str = "/trade-api/ws/v2";

#[derive(Clone, Copy, Debug, PartialEq, Eq, Structural)]
pub enum Environment {
    Demo,
    Production,
}

impl Default for Environment {
    fn default() -> (env: Self)
        ensures
            env == Environment::Demo,
    {
        Environment::Demo
    }
}

impl Environment {
    pub fn ws_url(self) -> (url: &'static str)
        ensures
            url@ == (match self {
                Environment::Demo => "wss://external-api-ws.demo.kalshi.co/trade-api/ws/v2"@,
                Environment::Production => "wss://external-api-ws.kalshi.com/trade-api/ws/v2"@,
            }),
    {
        match self {
            Environment::Demo => "wss://external-api-ws.demo.kalshi.co/trade-api/ws/v2",
            Environment::Production => "wss://external-api-ws.kalshi.com/trade-api/ws/v2",
        }
    }

    pub fn rest_url(self) -> (url: &'static str)
        ensures
            url@ == (match self {
                Environment::Demo => "https://external-api.demo.kalshi.co/trade-api/v2"@,
                Environment::Production => "https://external-api.kalshi.com/trade-api/v2"@,
            }),
    {
        match self {
            Environment::Demo => "https://external-api.demo.kalshi.co/trade-api/v2",
            Environment::Production => "https://external-api.kalshi.com/trade-api/v2",
        }
    }

    pub fn name(self) -> (name: &'static str)
        ensures
            name@ == environment_name(self),
    {
        match self {
            Environment::Demo => "demo",
            Environment::Production => "production",
        }
    }
}

pub open spec fn environment_name(env: Environment) -> Seq<char> {
    match env {
        Environment::Demo => "demo"@,
        Environment::Production => "production"@,
    }
}

// ---------------------------------------------------------------------------
// Frames
// ---------------------------------------------------------------------------

/// A row of a ladder: a pair of strings, price and size.
pub open spec fn row_of(row: Json) -> Option<Row> {
    match row {
        Json::List(items) => if items.len() == 2 {
            match (items[0], items[1]) {
                (Json::Text(price), Json::Text(size)) => Some((price, size)),
                _ => None,
            }
        } else {
            None
        },
        _ => None,
    }
}

/// The rows of one side of a snapshot. A side that is left out, or null, has no
/// resting levels.
pub open spec fn rows_of(side: Option<Json>) -> Option<Seq<Row>> {
    match side {
        None => Some(Seq::empty()),
        Some(Json::Null) => Some(Seq::empty()),
        Some(Json::List(items)) => if forall|i: int|
            0 <= i < items.len() ==> row_of(#[trigger] items[i]) is Some {
            Some(items.map_values(|row: Json| row_of(row)->0))
        } else {
            None
        },
        Some(_) => None,
    }
}

/// One side of a snapshot as levels, and the hundredths thrown away.
pub open spec fn side_of(side: Option<Json>, from: int) -> Result<(Seq<Level>, int), Refusal> {
    match rows_of(side) {
        None => Err(Refusal::Malformed),
        Some(rows) => feed::sized(rows, rows.len() as int, false, from),
    }
}

/// What reading a frame comes to, beside the counters.
#[verifier::ext_equal]
pub enum Reading {
    /// An event, the hundredths of a contract thrown away, and how many
    /// snapshot sides were left out.
    Event(EventView, int, int),
    /// A frame that carries no book information.
    Nothing,
    /// A type of message that is not known.
    Unknown,
    Refused(Refusal),
}

/// How many sides of a snapshot were left out.
pub open spec fn absent_sides(msg: Json) -> int {
    (if json::member_of(msg, "yes_dollars_fp"@) is None {
        1int
    } else {
        0
    }) + (if json::member_of(msg, "no_dollars_fp"@) is None {
        1int
    } else {
        0
    })
}

pub open spec fn snapshot_of(names: Seq<Instrument>, msg: Json, seq: Option<u64>) -> Reading {
    let ts_ms = json::optional_unsigned(json::member_of(msg, "ts_ms"@));
    match json::text_of(json::member_of(msg, "market_ticker"@)) {
        None => Reading::Refused(Refusal::Malformed),
        Some(ticker) => if ts_ms is Err {
            Reading::Refused(Refusal::Malformed)
        } else {
            match types::lookup(names, Venue::Kalshi, ticker) {
                None => Reading::Refused(Refusal::Malformed),
                Some(contract) => match side_of(json::member_of(msg, "yes_dollars_fp"@), 0) {
                    Err(refusal) => Reading::Refused(refusal),
                    Ok((yes, some)) => match side_of(json::member_of(msg, "no_dollars_fp"@), some) {
                        Err(refusal) => Reading::Refused(refusal),
                        Ok((no, discarded)) => match seq {
                            None => Reading::Refused(Refusal::Malformed),
                            Some(seq) => Reading::Event(
                                EventView::Snapshot {
                                    contract,
                                    yes,
                                    no,
                                    seq,
                                    venue_ts_ms: ts_ms->Ok_0,
                                },
                                discarded,
                                absent_sides(msg),
                            ),
                        },
                    },
                },
            }
        },
    }
}

/// When the venue says a delta happened: its own count, or its RFC 3339 text.
pub open spec fn delta_time(msg: Json) -> Option<u64> {
    match (
        json::optional_unsigned(json::field_of(msg, 4, "ts_ms"@)),
        json::optional_text(json::field_of(msg, 5, "ts"@)),
    ) {
        (Ok(Some(ms)), Ok(_)) => Some(ms),
        (Ok(None), Ok(Some(text))) => match timestamp::instant(text) {
            Some(at) => if 0 <= at.ms() <= u64::MAX {
                Some(at.ms() as u64)
            } else {
                None
            },
            None => None,
        },
        _ => None,
    }
}

pub open spec fn side_named(name: Seq<char>) -> Option<Side> {
    if name == "yes"@ {
        Some(Side::Yes)
    } else if name == "no"@ {
        Some(Side::No)
    } else {
        None
    }
}

pub open spec fn delta_of(names: Seq<Instrument>, msg: Json, seq: Option<u64>) -> Reading {
    match (
        json::text_of(json::field_of(msg, 0, "market_ticker"@)),
        json::text_of(json::field_of(msg, 1, "price_dollars"@)),
        json::text_of(json::field_of(msg, 2, "delta_fp"@)),
        json::text_of(json::field_of(msg, 3, "side"@)),
    ) {
        (Some(ticker), Some(price), Some(size), Some(side)) => if !json::is_record(msg, 6, 6) {
            Reading::Refused(Refusal::Malformed)
        } else {
            match (delta_time(msg), types::lookup(names, Venue::Kalshi, ticker), side_named(side)) {
                (Some(venue_ts_ms), Some(contract), Some(side)) => match feed::priced(price) {
                    Err(refusal) => Reading::Refused(refusal),
                    Ok(price) => match (types::size_contracts(size), seq) {
                        (Ok(size_delta), Some(seq)) => Reading::Event(
                            EventView::Delta {
                                contract,
                                side,
                                price,
                                size_delta: size_delta as i64,
                                seq,
                                venue_ts_ms,
                            },
                            types::size_discarded(size),
                            0,
                        ),
                        _ => Reading::Refused(Refusal::Malformed),
                    },
                },
                _ => Reading::Refused(Refusal::Malformed),
            }
        },
        _ => Reading::Refused(Refusal::Malformed),
    }
}

/// What is read of a frame: its type, its number and its message.
pub open spec fn envelope() -> ShapeView {
    shape::flat(seq!["type"@, "seq"@, "msg"@])
}

/// The frame that a text writes, if it writes one.
pub open spec fn frame_in(text: Seq<char>) -> Option<Json> {
    shape::shaped(text, envelope())
}

/// The frame that a text writes, if it writes one.
fn read_envelope(raw: &str) -> (frame: Option<Value>)
    ensures
        match frame {
            Some(frame) => frame_in(raw@) == Some(json::json(frame)),
            None => frame_in(raw@) is None,
        },
{
    let names: Vec<String> = vec!["type".to_owned(), "seq".to_owned(), "msg".to_owned()];
    assert(text::views(names@) =~= seq!["type"@, "seq"@, "msg"@]);
    let fields: Shape = shape::flat_record(names);
    shape::read_shaped(raw, &fields)
}

/// What one frame comes to.
pub open spec fn frame_of(names: Seq<Instrument>, frame: Json) -> Reading {
    let seq = json::optional_unsigned(json::field_of(frame, 1, "seq"@));
    let msg = match json::field_of(frame, 2, "msg"@) {
        Some(msg) => msg,
        None => Json::Null,
    };
    match json::text_of(json::field_of(frame, 0, "type"@)) {
        None => Reading::Refused(Refusal::Malformed),
        Some(kind) => if seq is Err || !json::is_record(frame, 2, 3) {
            Reading::Refused(Refusal::Malformed)
        } else if kind == "orderbook_snapshot"@ {
            snapshot_of(names, msg, seq->Ok_0)
        } else if kind == "orderbook_delta"@ {
            delta_of(names, msg, seq->Ok_0)
        } else if kind == "subscribed"@ || kind == "unsubscribed"@ {
            Reading::Nothing
        } else if kind == "error"@ {
            Reading::Refused(Refusal::Malformed)
        } else {
            Reading::Unknown
        },
    }
}

/// The counters and the event after a frame. `None` is a text that writes none.
pub open spec fn heard(
    metrics: MetricsView,
    names: Seq<Instrument>,
    frame: Option<Json>,
    receipt: u64,
) -> (MetricsView, Option<EventView>) {
    let tried = MetricsView { parse_attempts: (metrics.parse_attempts + 1) as u64, ..metrics };
    let reading = match frame {
        None => Reading::Refused(Refusal::Malformed),
        Some(frame) => frame_of(names, frame),
    };
    match reading {
        Reading::Nothing => (tried, None),
        Reading::Unknown => (
            MetricsView { unknown_messages: (tried.unknown_messages + 1) as u64, ..tried },
            None,
        ),
        Reading::Refused(Refusal::Malformed) => (
            MetricsView { parse_errors: (tried.parse_errors + 1) as u64, ..tried },
            None,
        ),
        Reading::Refused(Refusal::SubCent) => (
            MetricsView { sub_cent_prices: (tried.sub_cent_prices + 1) as u64, ..tried },
            None,
        ),
        Reading::Event(event, discarded, absent) => {
            let counted = MetricsView {
                discarded_size_hundredths: metrics::raised(tried.discarded_size_hundredths, discarded),
                snapshot_sides_absent: (tried.snapshot_sides_absent + absent) as u64,
                ..tried
            };
            (
                match event {
                    EventView::Delta { venue_ts_ms, .. } => counted.observed(receipt, venue_ts_ms),
                    _ => counted,
                },
                Some(event),
            )
        },
    }
}

pub open spec fn event_view(event: Option<FeedEvent>) -> Option<EventView> {
    match event {
        Some(event) => Some(event@),
        None => None,
    }
}

/// Exactly what [`Reading`] says, with the event in hand.
enum Read {
    Event(FeedEvent, u64, u64),
    Nothing,
    Unknown,
    Refused(Refusal),
}

impl Read {
    spec fn is(self, reading: Reading) -> bool {
        match self {
            Read::Event(event, discarded, absent) => reading == Reading::Event(
                event@,
                discarded as int,
                absent as int,
            ) && absent <= 2,
            Read::Nothing => reading is Nothing,
            Read::Unknown => reading is Unknown,
            Read::Refused(refusal) => reading == Reading::Refused(refusal),
        }
    }
}

pub struct Parser {
    pub contracts: Contracts,
    pub metrics: Metrics,
    /// The venue whose wire format this parser speaks, so that callers read it
    /// rather than assert it again.
    pub venue: Venue,
}

impl Parser {
    pub fn new(tickers: &[String]) -> (result: Result<Self, InternError>)
        ensures
            match result {
                Ok(parser) => {
                    &&& parser.contracts@ == book::interned_all(
                        book::listed(Venue::Kalshi, tickers@),
                    )
                    &&& parser.metrics@ == MetricsView::zero()
                    &&& parser.venue == Venue::Kalshi
                },
                Err(_) => book::interned_all(book::listed(Venue::Kalshi, tickers@)).len()
                    > 0x1_0000_0000,
            },
    {
        match book::intern_all(Venue::Kalshi, tickers) {
            Ok(contracts) => Ok(
                Parser { contracts, metrics: Metrics::default(), venue: Venue::Kalshi },
            ),
            Err(error) => Err(error),
        }
    }

    /// Parse one frame. `None` means the frame carried no book information, or
    /// was refused and counted.
    pub fn parse(&mut self, raw: &str, receipt: u64) -> (event: Option<FeedEvent>)
        requires
            old(self).metrics@.has_room(),
        ensures
            (final(self).metrics@, event_view(event)) == heard(
                old(self).metrics@,
                old(self).contracts@,
                frame_in(raw@),
                receipt,
            ),
            final(self).contracts == old(self).contracts,
            final(self).venue == old(self).venue,
    {
        match read_envelope(raw) {
            Some(frame) => self.hear(Some(&frame), receipt),
            None => self.hear(None, receipt),
        }
    }

    /// Read one frame that has been parsed as JSON; `None` is one that could
    /// not be.
    pub fn hear(&mut self, frame: Option<&Value>, receipt: u64) -> (event: Option<FeedEvent>)
        requires
            old(self).metrics@.has_room(),
        ensures
            (final(self).metrics@, event_view(event)) == heard(
                old(self).metrics@,
                old(self).contracts@,
                (match frame {
                    Some(frame) => Some(json::json(*frame)),
                    None => None,
                }),
                receipt,
            ),
            final(self).contracts == old(self).contracts,
            final(self).venue == old(self).venue,
    {
        self.metrics.parse_attempts = self.metrics.parse_attempts + 1;
        let read: Read = match frame {
            Some(frame) => self.read_frame(frame),
            None => Read::Refused(Refusal::Malformed),
        };
        match read {
            Read::Nothing => None,
            Read::Unknown => {
                self.metrics.unknown_messages = self.metrics.unknown_messages + 1;
                None
            },
            Read::Refused(Refusal::Malformed) => {
                self.metrics.parse_errors = self.metrics.parse_errors + 1;
                None
            },
            Read::Refused(Refusal::SubCent) => {
                self.metrics.sub_cent_prices = self.metrics.sub_cent_prices + 1;
                None
            },
            Read::Event(event, discarded, absent) => {
                self.metrics.discarded_size_hundredths =
                self.metrics.discarded_size_hundredths.saturating_add(discarded);
                self.metrics.snapshot_sides_absent = self.metrics.snapshot_sides_absent + absent;
                if let FeedEvent::Delta { venue_ts_ms, .. } = &event {
                    self.metrics.observe_latency(receipt, *venue_ts_ms);
                }
                Some(event)
            },
        }
    }

    fn read_frame(&self, frame: &Value) -> (read: Read)
        ensures
            read.is(frame_of(self.contracts@, json::json(*frame))),
    {
        let kind: &str = match json::text_field(frame, 0, "type") {
            Some(kind) => kind,
            None => return Read::Refused(Refusal::Malformed),
        };
        let seq: Option<u64> = match json::optional_unsigned_field(frame, 1, "seq") {
            Ok(seq) => seq,
            Err(()) => return Read::Refused(Refusal::Malformed),
        };
        if !json::record(frame, 2, 3) {
            return Read::Refused(Refusal::Malformed);
        }
        let msg: Option<&Value> = json::field(frame, 2, "msg");
        if text::same(kind, "orderbook_snapshot") {
            match msg {
                Some(msg) => self.read_snapshot(msg, seq),
                None => Read::Refused(Refusal::Malformed),
            }
        } else if text::same(kind, "orderbook_delta") {
            match msg {
                Some(msg) => self.read_delta(msg, seq),
                None => Read::Refused(Refusal::Malformed),
            }
        } else if text::same(kind, "subscribed") || text::same(kind, "unsubscribed") {
            Read::Nothing
        } else if text::same(kind, "error") {
            Read::Refused(Refusal::Malformed)
        } else {
            Read::Unknown
        }
    }

    fn read_snapshot(&self, msg: &Value, seq: Option<u64>) -> (read: Read)
        ensures
            read.is(snapshot_of(self.contracts@, json::json(*msg), seq)),
    {
        let ticker: &str = match json::member(msg, "market_ticker") {
            Some(value) => match json::string(value) {
                Some(ticker) => ticker,
                None => return Read::Refused(Refusal::Malformed),
            },
            None => return Read::Refused(Refusal::Malformed),
        };
        let venue_ts_ms: Option<u64> = match json::member(msg, "ts_ms") {
            None => None,
            Some(value) => if json::null(value) {
                None
            } else {
                match json::unsigned(value) {
                    Some(ms) => Some(ms),
                    None => return Read::Refused(Refusal::Malformed),
                }
            },
        };
        let contract: ContractId = match self.contracts.get(Venue::Kalshi, ticker) {
            Some(contract) => contract,
            None => return Read::Refused(Refusal::Malformed),
        };
        let mut discarded: u64 = 0;
        let yes_side: Option<&Value> = json::member(msg, "yes_dollars_fp");
        let no_side: Option<&Value> = json::member(msg, "no_dollars_fp");
        let yes: Vec<Level> = match read_side(yes_side, &mut discarded) {
            Ok(levels) => levels,
            Err(refusal) => return Read::Refused(refusal),
        };
        let no: Vec<Level> = match read_side(no_side, &mut discarded) {
            Ok(levels) => levels,
            Err(refusal) => return Read::Refused(refusal),
        };
        let mut absent: u64 = 0;
        if yes_side.is_none() {
            absent = absent + 1;
        }
        if no_side.is_none() {
            absent = absent + 1;
        }
        match seq {
            Some(seq) => Read::Event(
                FeedEvent::Snapshot { contract, yes, no, seq, venue_ts_ms },
                discarded,
                absent,
            ),
            None => Read::Refused(Refusal::Malformed),
        }
    }

    fn read_delta(&self, msg: &Value, seq: Option<u64>) -> (read: Read)
        ensures
            read.is(delta_of(self.contracts@, json::json(*msg), seq)),
    {
        let (ticker, price, size, side): (&str, &str, &str, &str) = match (
            json::text_field(msg, 0, "market_ticker"),
            json::text_field(msg, 1, "price_dollars"),
            json::text_field(msg, 2, "delta_fp"),
            json::text_field(msg, 3, "side"),
        ) {
            (Some(ticker), Some(price), Some(size), Some(side)) => (ticker, price, size, side),
            _ => return Read::Refused(Refusal::Malformed),
        };
        if !json::record(msg, 6, 6) {
            return Read::Refused(Refusal::Malformed);
        }
        let venue_ts_ms: u64 = match read_time(msg) {
            Some(ms) => ms,
            None => return Read::Refused(Refusal::Malformed),
        };
        let contract: ContractId = match self.contracts.get(Venue::Kalshi, ticker) {
            Some(contract) => contract,
            None => return Read::Refused(Refusal::Malformed),
        };
        let side: Side = if text::same(side, "yes") {
            Side::Yes
        } else if text::same(side, "no") {
            Side::No
        } else {
            return Read::Refused(Refusal::Malformed);
        };
        let price: Cents = match feed::price(price) {
            Ok(price) => price,
            Err(refusal) => return Read::Refused(refusal),
        };
        let mut discarded: u64 = 0;
        let size_delta: i64 = match parse_size_contracts(size, &mut discarded) {
            Ok(size_delta) => size_delta,
            Err(_) => return Read::Refused(Refusal::Malformed),
        };
        match seq {
            Some(seq) => Read::Event(
                FeedEvent::Delta { contract, side, price, size_delta, seq, venue_ts_ms },
                discarded,
                0,
            ),
            None => Read::Refused(Refusal::Malformed),
        }
    }
}

fn read_time(msg: &Value) -> (ms: Option<u64>)
    ensures
        ms == delta_time(json::json(*msg)),
{
    let count: Option<u64> = match json::optional_unsigned_field(msg, 4, "ts_ms") {
        Ok(count) => count,
        Err(()) => return None,
    };
    let written: Option<&str> = match json::optional_text_field(msg, 5, "ts") {
        Ok(written) => written,
        Err(()) => return None,
    };
    match (count, written) {
        (Some(ms), _) => Some(ms),
        (None, Some(written)) => match Timestamp::parse(written) {
            Some(at) => at.unsigned_millis(),
            None => None,
        },
        (None, None) => None,
    }
}

/// The rows of one side of a snapshot.
fn read_rows(side: Option<&Value>) -> (rows: Option<Vec<(String, String)>>)
    ensures
        ({
            let held = match side {
                Some(side) => Some(json::json(*side)),
                None => None,
            };
            match rows {
                Some(rows) => rows_of(held) == Some(feed::rows_view(rows@)),
                None => rows_of(held) is None,
            }
        }),
{
    let mut rows: Vec<(String, String)> = Vec::new();
    assert(feed::rows_view(rows@) =~= Seq::<Row>::empty());
    let present: &Value = match side {
        Some(present) => present,
        None => return Some(rows),
    };
    if json::null(present) {
        return Some(rows);
    }
    let items: &Vec<Value> = match json::list(present) {
        Some(items) => items,
        None => return None,
    };
    let ghost all = items@.map_values(|item: Value| json::json(item));
    let mut i: usize = 0;
    while i < items.len()
        invariant
            i <= items@.len(),
            all == items@.map_values(|item: Value| json::json(item)),
            side == Some(present),
            json::json(*present) == Json::List(all),
            rows@.len() == i,
            forall|k: int|
                0 <= k < i ==> row_of(#[trigger] all[k]) == Some((rows@[k].0@, rows@[k].1@)),
        decreases items@.len() - i,
    {
        assert(all[i as int] == json::json(items@[i as int]));
        match read_row(&items[i]) {
            Some(row) => rows.push(row),
            None => {
                assert(row_of(all[i as int]) is None);
                return None;
            },
        }
        i = i + 1;
    }
    proof {
        assert forall|k: int| 0 <= k < all.len() implies row_of(#[trigger] all[k]) is Some by {}
        assert(all.map_values(|row: Json| row_of(row)->0) =~= feed::rows_view(rows@));
    }
    Some(rows)
}

fn read_row(row: &Value) -> (pair: Option<(String, String)>)
    ensures
        match pair {
            Some(pair) => row_of(json::json(*row)) == Some((pair.0@, pair.1@)),
            None => row_of(json::json(*row)) is None,
        },
{
    let items: &Vec<Value> = match json::list(row) {
        Some(items) => items,
        None => return None,
    };
    if items.len() != 2 {
        return None;
    }
    match (json::string(&items[0]), json::string(&items[1])) {
        (Some(price), Some(size)) => Some((price.to_owned(), size.to_owned())),
        _ => None,
    }
}

/// One side of a snapshot as levels.
fn read_side(side: Option<&Value>, discarded: &mut u64) -> (result: Result<Vec<Level>, Refusal>)
    ensures
        ({
            let held = match side {
                Some(side) => Some(json::json(*side)),
                None => None,
            };
            match result {
                Ok(levels) => side_of(held, *old(discarded) as int) == Ok::<
                    (Seq<Level>, int),
                    Refusal,
                >((levels@, *final(discarded) as int)),
                Err(refusal) => side_of(held, *old(discarded) as int) == Err::<
                    (Seq<Level>, int),
                    Refusal,
                >(refusal),
            }
        }),
{
    match read_rows(side) {
        Some(rows) => feed::ladder(&rows, false, discarded),
        None => Err(Refusal::Malformed),
    }
}

// ---------------------------------------------------------------------------
// Signing
// ---------------------------------------------------------------------------

#[verifier::external_type_specification]
#[verifier::external_body]
pub struct ExRsaPrivateKey(rsa::RsaPrivateKey);

/// The key that `rsa`'s `RsaPrivateKey::from_pkcs1_pem` reads from a text.
pub uninterp spec fn pkcs1_key(pem: Seq<char>) -> Option<RsaPrivateKey>;

/// The key that `rsa`'s `RsaPrivateKey::from_pkcs8_pem` reads from a text.
pub uninterp spec fn pkcs8_key(pem: Seq<char>) -> Option<RsaPrivateKey>;

/// Whether `rsa`'s `RsaPrivateKey::validate` finds nothing wrong with a key.
pub uninterp spec fn sound_key(key: RsaPrivateKey) -> bool;

/// The text that the standard alphabet of the `base64` crate writes for bytes.
pub uninterp spec fn base64_text(bytes: Seq<u8>) -> Seq<char>;

/// `RsaPrivateKey::from_pkcs1_pem`: a function of the text alone.
#[verifier::external_body]
fn read_pkcs1(pem: &str) -> (key: Option<RsaPrivateKey>)
    ensures
        key == pkcs1_key(pem@),
{
    RsaPrivateKey::from_pkcs1_pem(pem).ok()
}

/// `RsaPrivateKey::from_pkcs8_pem`: a function of the text alone.
#[verifier::external_body]
fn read_pkcs8(pem: &str) -> (key: Option<RsaPrivateKey>)
    ensures
        key == pkcs8_key(pem@),
{
    RsaPrivateKey::from_pkcs8_pem(pem).ok()
}

/// `RsaPrivateKey::validate`: a function of the key alone.
#[verifier::external_body]
fn validated(key: &RsaPrivateKey) -> (sound: bool)
    ensures
        sound == sound_key(*key),
{
    key.validate().is_ok()
}

/// Whether `rsa`'s `pss::VerifyingKey` with SHA-256, made of the public half of a
/// key, accepts bytes as a signature over a message.
pub uninterp spec fn verifies(key: RsaPrivateKey, message: Seq<char>, bytes: Seq<u8>) -> bool;

/// An RSA-PSS signature with SHA-256, by `rsa`'s `SigningKey` and the operating
/// system's entropy. The salt is drawn anew for each signature, so which bytes
/// come out is not claimed, nor that there are any; those that do are accepted
/// for this message by the public half of this key. Nothing comes out where the
/// key cannot sign; an operating system without entropy is a panic.
#[verifier::external_body]
fn signature(key: &RsaPrivateKey, message: &str) -> (bytes: Option<Vec<u8>>)
    ensures
        bytes matches Some(bytes) ==> verifies(*key, message@, bytes@),
{
    SigningKey::<Sha256>::new(key.clone())
        .try_sign_with_rng(&mut rsa::rand_core::OsRng, message.as_bytes())
        .map(|signature| signature.to_bytes().to_vec())
        .ok()
}

/// `base64`'s standard engine, padded: a function of the bytes alone.
#[verifier::external_body]
pub(crate) fn encoded(bytes: &[u8]) -> (out: String)
    ensures
        out@ == base64_text(bytes@),
{
    base64::engine::general_purpose::STANDARD.encode(bytes)
}

/// What is signed for a request: the time, the method, and the path without its
/// query.
pub open spec fn signed_text(ts: i64, method: Seq<char>, path: Seq<char>) -> Seq<char> {
    text::signed_decimal(ts as int) + method + path.subrange(0, text::first_index(path, '?'))
}

/// The message that a request's signature covers.
pub fn signing_message(ts: i64, method: &str, path: &str) -> (message: String)
    ensures
        message@ == signed_text(ts, method@, path@),
{
    let all: Vec<char> = text::chars(path);
    let end: usize = text::find(all.as_slice(), '?');
    let bare: String = text::collect(vstd::slice::slice_subrange(all.as_slice(), 0, end));
    let mut message: String = String::new();
    text::push_i64(&mut message, ts);
    assert(message@ =~= text::signed_decimal(ts as int));
    message.append(method);
    message.append(bare.as_str());
    message
}

/// The base64 of a signature that covers a request.
pub open spec fn is_signature(
    key: RsaPrivateKey,
    ts: i64,
    method: Seq<char>,
    path: Seq<char>,
    text: Seq<char>,
) -> bool {
    exists|bytes: Seq<u8>|
        text == #[trigger] base64_text(bytes) && verifies(
            key,
            signed_text(ts, method, path),
            bytes,
        )
}

/// Sign a request: the base64 of a signature over [`signing_message`], or
/// nothing where the key cannot sign. An operating system without entropy is a
/// panic.
///
/// The signature is randomized: which bytes come out is not stated, only that
/// the venue, which holds the public half of the key, accepts them.
pub fn sign(key: &RsaPrivateKey, ts: i64, method: &str, path: &str) -> (signed: Option<String>)
    ensures
        signed matches Some(out) ==> is_signature(*key, ts, method@, path@, out@),
{
    let message: String = signing_message(ts, method, path);
    signed_header(signature(key, message.as_str()))
}

/// What a request carries for a signature: its base64, and nothing where there
/// is none.
pub fn signed_header(signature: Option<Vec<u8>>) -> (header: Option<String>)
    ensures
        match header {
            Some(header) => signature matches Some(bytes) && header@ == base64_text(bytes@),
            None => signature is None,
        },
{
    match signature {
        Some(bytes) => Some(encoded(bytes.as_slice())),
        None => None,
    }
}

/// Why a key cannot be traded with.
#[derive(Clone, Copy, Debug, PartialEq, Eq, Structural)]
pub enum CredentialError {
    EmptyKeyId,
    UnreadableKey,
    InvalidKey,
    /// The key could not sign, for its length.
    CannotSign,
}

impl CredentialError {
    pub fn message(&self) -> (out: &'static str)
        ensures
            out@ == (match self {
                CredentialError::EmptyKeyId => "KALSHI_KEY_ID is empty"@,
                CredentialError::UnreadableKey => "key must be PKCS#1 or PKCS#8 RSA PEM"@,
                CredentialError::InvalidKey => "invalid RSA key"@,
                CredentialError::CannotSign => "the key cannot sign"@,
            }),
    {
        match self {
            CredentialError::EmptyKeyId => "KALSHI_KEY_ID is empty",
            CredentialError::UnreadableKey => "key must be PKCS#1 or PKCS#8 RSA PEM",
            CredentialError::InvalidKey => "invalid RSA key",
            CredentialError::CannotSign => "the key cannot sign",
        }
    }
}

pub struct Credentials {
    key_id: String,
    key: RsaPrivateKey,
}

/// The key in a PEM text, whichever of the two encodings it has.
pub open spec fn key_in(pem: Seq<char>) -> Option<RsaPrivateKey> {
    match pkcs1_key(pem) {
        Some(key) => Some(key),
        None => pkcs8_key(pem),
    }
}

/// What is wrong with a key id and a PEM text, before anything is signed.
pub open spec fn credential_fault(key_id: Seq<char>, pem: Seq<char>) -> Option<CredentialError> {
    if key_id.len() == 0 {
        Some(CredentialError::EmptyKeyId)
    } else {
        match key_in(pem) {
            None => Some(CredentialError::UnreadableKey),
            Some(key) => if !sound_key(key) {
                Some(CredentialError::InvalidKey)
            } else {
                None
            },
        }
    }
}

impl Credentials {
    /// The key id.
    pub closed spec fn id(&self) -> Seq<char> {
        self.key_id@
    }

    /// The signing key.
    pub closed spec fn signing_key(&self) -> RsaPrivateKey {
        self.key
    }

    /// Read a key, and exercise signing at once, so that a key too short shows at
    /// startup as an error, and an operating system without entropy as a panic.
    /// Which sound keys can sign is `rsa`'s to say.
    pub fn new(key_id: String, pem: &str) -> (result: Result<Self, CredentialError>)
        ensures
            match result {
                Ok(credentials) => credential_fault(key_id@, pem@) is None && credentials.id()
                    == key_id@ && Some(credentials.signing_key()) == key_in(pem@),
                Err(CredentialError::CannotSign) => credential_fault(key_id@, pem@) is None,
                Err(error) => credential_fault(key_id@, pem@) == Some(error),
            },
    {
        let id: Vec<char> = text::chars(key_id.as_str());
        if id.len() == 0 {
            return Err(CredentialError::EmptyKeyId);
        }
        let key: RsaPrivateKey = match read_pkcs1(pem) {
            Some(key) => key,
            None => match read_pkcs8(pem) {
                Some(key) => key,
                None => return Err(CredentialError::UnreadableKey),
            },
        };
        if !validated(&key) {
            return Err(CredentialError::InvalidKey);
        }
        match sign(&key, 0, "GET", WS_PATH) {
            Some(_) => Ok(Credentials { key_id, key }),
            None => Err(CredentialError::CannotSign),
        }
    }

    pub fn key_id(&self) -> (id: &str)
        ensures
            id@ == self.id(),
    {
        self.key_id.as_str()
    }

    /// Sign a request with this key.
    pub fn sign(&self, ts: i64, method: &str, path: &str) -> (signed: Option<String>)
        ensures
            signed matches Some(out) ==> is_signature(
                self.signing_key(),
                ts,
                method@,
                path@,
                out@,
            ),
    {
        sign(&self.key, ts, method, path)
    }
}

// ---------------------------------------------------------------------------
// The socket
// ---------------------------------------------------------------------------

/// The message that subscribes to channels of markets.
pub open spec fn subscription_text(tickers: Seq<Seq<char>>, channels: Seq<Seq<char>>) -> Seq<char> {
    "{\"cmd\":\"subscribe\",\"id\":1,\"params\":{\"channels\":["@ + json::json_list(
        channels,
        channels.len() as int,
    ) + "],\"market_tickers\":["@ + json::json_list(tickers, tickers.len() as int) + "]}}"@
}

/// The message that subscribes to channels of markets.
pub fn subscription(tickers: &[String], channels: &[String]) -> (out: String)
    ensures
        out@ == subscription_text(text::views(tickers@), text::views(channels@)),
{
    let mut out: String = String::from_str(
        "{\"cmd\":\"subscribe\",\"id\":1,\"params\":{\"channels\":[",
    );
    out.append(json::list_json(channels).as_str());
    out.append("],\"market_tickers\":[");
    out.append(json::list_json(tickers).as_str());
    out.append("]}}");
    out
}

/// How long to wait before dialling again, without jitter: doubling from a
/// quarter of a second, at most thirty seconds.
pub open spec fn base_ms(attempt: u32) -> int {
    let doublings = if attempt < 7 {
        attempt as nat
    } else {
        7
    };
    let base = 250 * vstd::arithmetic::power2::pow2(doublings);
    if base < 30_000 {
        base as int
    } else {
        30_000
    }
}

/// How long to wait before dialling again: up to a quarter of jitter on top of
/// the base, never over thirty seconds.
pub open spec fn backoff(attempt: u32, jitter: u64) -> int {
    let wait = base_ms(attempt) + jitter as int % (base_ms(attempt) / 4 + 1);
    if wait < 30_000 {
        wait
    } else {
        30_000
    }
}

/// How long to wait before dialling again, with the jitter that was drawn.
pub fn backoff_ms(attempt: u32, jitter: u64) -> (ms: u64)
    ensures
        ms == backoff(attempt, jitter),
        250 <= ms <= 30_000,
{
    let base: u64 = match attempt {
        0 => 250,
        1 => 500,
        2 => 1_000,
        3 => 2_000,
        4 => 4_000,
        5 => 8_000,
        6 => 16_000,
        _ => 30_000,
    };
    proof {
        vstd::arithmetic::power2::lemma2_to64();
        assert(base == base_ms(attempt));
    }
    let wait: u64 = base + jitter % (base / 4 + 1);
    if wait < 30_000 {
        wait
    } else {
        30_000
    }
}

/// At least one ticker, and none of them blank.
pub open spec fn usable(tickers: Seq<Seq<char>>) -> bool {
    tickers.len() > 0 && forall|i: int|
        0 <= i < tickers.len() ==> text::trimmed(#[trigger] tickers[i]).len() > 0
}

/// Whether a list of tickers can be subscribed to.
pub fn usable_tickers(tickers: &[String]) -> (yes: bool)
    ensures
        yes == usable(text::views(tickers@)),
{
    let ghost all = text::views(tickers@);
    let mut i: usize = 0;
    while i < tickers.len()
        invariant
            i <= tickers@.len(),
            all == text::views(tickers@),
            forall|k: int| 0 <= k < i ==> text::trimmed(#[trigger] all[k]).len() > 0,
        decreases tickers@.len() - i,
    {
        assert(all[i as int] == tickers@[i as int]@);
        let letters: Vec<char> = text::chars(tickers[i].as_str());
        if text::trim(letters.as_slice()).len() == 0 {
            return false;
        }
        i = i + 1;
    }
    tickers.len() > 0
}

/// A WebSocket frame.
#[derive(Clone, Debug, PartialEq)]
pub enum Frame {
    Text(String),
    Binary(Vec<u8>),
    Ping(Vec<u8>),
    Pong(Vec<u8>),
    /// A close, with the code and the reason where it gave them.
    Close(Option<(u16, String)>),
}

/// The payload of a close: the code, most significant byte first, and the
/// reason.
pub open spec fn close_payload(close: Option<(u16, String)>) -> Seq<u8> {
    match close {
        None => Seq::empty(),
        Some((code, reason)) => seq![(code / 256) as u8, (code % 256) as u8]
            + vstd::utf8::encode_utf8(reason@),
    }
}

/// How a frame is recorded: the name of its encoding, and the payload in it.
pub open spec fn recorded(frame: Frame) -> (Seq<char>, Seq<char>) {
    match frame {
        Frame::Text(text) => ("text"@, text@),
        Frame::Binary(bytes) => ("binary_base64"@, base64_text(bytes@)),
        Frame::Ping(bytes) => ("ping_base64"@, base64_text(bytes@)),
        Frame::Pong(bytes) => ("pong_base64"@, base64_text(bytes@)),
        Frame::Close(close) => ("close_base64"@, base64_text(close_payload(close))),
    }
}

impl Frame {
    /// The name of the frame's encoding, and its payload in that encoding.
    pub fn recorded(&self) -> (out: (&'static str, String))
        ensures
            (out.0@, out.1@) == recorded(*self),
    {
        match self {
            Frame::Text(text) => ("text", text.as_str().to_owned()),
            Frame::Binary(bytes) => ("binary_base64", encoded(bytes.as_slice())),
            Frame::Ping(bytes) => ("ping_base64", encoded(bytes.as_slice())),
            Frame::Pong(bytes) => ("pong_base64", encoded(bytes.as_slice())),
            Frame::Close(close) => {
                let mut payload: Vec<u8> = Vec::new();
                if let Some((code, reason)) = close {
                    payload.push((*code / 256) as u8);
                    payload.push((*code % 256) as u8);
                    let ghost head = payload@;
                    let mut rest: Vec<u8> = vstd::slice::slice_to_vec(reason.as_str().as_bytes());
                    payload.append(&mut rest);
                    assert(head =~= seq![(*code / 256) as u8, (*code % 256) as u8]);
                }
                assert(payload@ =~= close_payload(*close));
                ("close_base64", encoded(payload.as_slice()))
            },
        }
    }
}

/// Where a connection stands.
#[derive(Clone, Copy, Debug, PartialEq, Eq, Structural)]
pub struct Link {
    /// Failed attempts since the venue last acknowledged a subscription.
    pub attempt: u32,
    /// Whether a first connection has already been tried.
    pub reconnect: bool,
    /// Whether the venue acknowledged the subscription on this socket.
    pub acknowledged: bool,
}

/// What the feed does about a change to its connection, in order: write the
/// control envelope, then tell the engine.
#[derive(Clone, Debug, PartialEq)]
pub struct LinkStep {
    pub control: Option<Control>,
    pub events: Vec<FeedEvent>,
}

pub open spec fn one_more(attempt: u32) -> u32 {
    if attempt < u32::MAX {
        (attempt + 1) as u32
    } else {
        attempt
    }
}

impl Link {
    pub open spec fn fresh() -> Link {
        Link { attempt: 0, reconnect: false, acknowledged: false }
    }

    pub fn new() -> (link: Self)
        ensures
            link == Link::fresh(),
    {
        Link { attempt: 0, reconnect: false, acknowledged: false }
    }

    /// How long to wait before dialling: nothing the first time.
    pub fn delay_ms(&self, jitter: u64) -> (ms: u64)
        ensures
            ms == (if self.reconnect {
                backoff(self.attempt, jitter)
            } else {
                0
            }),
    {
        if self.reconnect {
            backoff_ms(self.attempt, jitter)
        } else {
            0
        }
    }

    /// A dial that failed. The engine is told the first time only: it already
    /// knows that a socket which was dropped is gone.
    pub fn failed(&mut self, reason: &str) -> (step: LinkStep)
        ensures
            *final(self) == (Link {
                attempt: if old(self).reconnect {
                    one_more(old(self).attempt)
                } else {
                    old(self).attempt
                },
                reconnect: true,
                ..*old(self)
            }),
            old(self).reconnect ==> step.control is None && step.events@.len() == 0,
            !old(self).reconnect ==> step.says_disconnected(reason@),
    {
        let first: bool = !self.reconnect;
        if self.reconnect {
            self.attempt = self.attempt.saturating_add(1);
        }
        self.reconnect = true;
        if first {
            disconnected(reason)
        } else {
            LinkStep { control: None, events: Vec::new() }
        }
    }

    /// A handshake that succeeded. It emits no event: the venue has not sent a
    /// book yet.
    pub fn connected(&mut self) -> (step: LinkStep)
        ensures
            *final(self) == (Link { acknowledged: false, ..*old(self) }),
            step.events@.len() == 0,
            step.control == (if old(self).reconnect {
                Some(Control::Reconnected { attempt: old(self).attempt })
            } else {
                None
            }),
    {
        self.acknowledged = false;
        LinkStep {
            control: if self.reconnect {
                Some(Control::Reconnected { attempt: self.attempt })
            } else {
                None
            },
            events: Vec::new(),
        }
    }

    /// Whether a text frame acknowledges the subscription, for the first time
    /// on this socket.
    pub fn acknowledges(&self, frame: Option<&Value>) -> (yes: bool)
        ensures
            yes == (!self.acknowledged && (frame matches Some(frame) && acknowledgement(
                json::json(*frame),
            ))),
    {
        match frame {
            Some(frame) => !self.acknowledged && is_acknowledgement(frame),
            None => false,
        }
    }

    /// The venue acknowledged the subscription. Every contract is reported
    /// resubscribed where the socket is not the first one.
    pub fn acknowledge(&mut self, tickers: &[String], contracts: &Contracts) -> (step: LinkStep)
        ensures
            *final(self) == (Link { attempt: 0, acknowledged: true, ..*old(self) }),
            !old(self).reconnect ==> step.control is None && step.events@.len() == 0,
            old(self).reconnect ==> (step.control matches Some(Control::Resubscribed {
                tickers: named,
            }) && text::views(named@) == text::views(tickers@)) && events_view(step.events@)
                == resubscriptions(contracts@, text::views(tickers@)),
    {
        let again: bool = self.reconnect;
        self.acknowledged = true;
        self.attempt = 0;
        if !again {
            return LinkStep { control: None, events: Vec::new() };
        }
        LinkStep {
            control: Some(Control::Resubscribed { tickers: text::copies(tickers) }),
            events: resubscribed(tickers, contracts),
        }
    }

    /// The socket is gone. An attempt that was never acknowledged counts as a
    /// failed one.
    pub fn dropped(&mut self, reason: &str) -> (step: LinkStep)
        ensures
            *final(self) == (Link {
                attempt: if old(self).acknowledged {
                    old(self).attempt
                } else {
                    one_more(old(self).attempt)
                },
                reconnect: true,
                ..*old(self)
            }),
            step.says_disconnected(reason@),
    {
        if !self.acknowledged {
            self.attempt = self.attempt.saturating_add(1);
        }
        self.reconnect = true;
        disconnected(reason)
    }
}

/// What a frame comes to: where the connection then stands, what the counters
/// show, the control envelope that is written, the events that are told, and
/// whether the socket is dropped.
#[verifier::ext_equal]
pub struct HeardView {
    pub link: Link,
    pub metrics: MetricsView,
    pub control: Option<ControlView>,
    pub events: Seq<EventView>,
    pub dropped: bool,
}

/// Whether a text frame reports an error.
pub open spec fn error_frame(frame: Option<Json>) -> bool {
    frame matches Some(frame) && json::text_of(json::member_of(frame, "type"@)) == Some("error"@)
}

impl Link {
    /// What a frame on this connection comes to.
    pub open spec fn hearing(
        self,
        metrics: MetricsView,
        names: Seq<Instrument>,
        tickers: Seq<Seq<char>>,
        frame: Frame,
        received_at_ms: u64,
    ) -> HeardView {
        let counted = MetricsView {
            messages_received: metrics::raised(metrics.messages_received, 1),
            ..metrics
        };
        match frame {
            Frame::Text(text) => {
                let value = json::parsed_json(text@);
                let (after, event) = heard(counted, names, frame_in(text@), received_at_ms);
                // A frame that carries an event acknowledges nothing.
                let answered = !self.acknowledged && event is None && (value matches Some(value)
                    && acknowledgement(value));
                let again = answered && self.reconnect;
                HeardView {
                    link: if answered {
                        Link { attempt: 0, acknowledged: true, ..self }
                    } else {
                        self
                    },
                    metrics: MetricsView {
                        reconnections: if again {
                            metrics::raised(after.reconnections, 1)
                        } else {
                            after.reconnections
                        },
                        ..after
                    },
                    control: if again {
                        Some(ControlView::Resubscribed { tickers })
                    } else {
                        None
                    },
                    events: (if again {
                        resubscriptions(names, tickers)
                    } else {
                        Seq::empty()
                    }) + (match event {
                        Some(event) => seq![event],
                        None => Seq::empty(),
                    }),
                    dropped: error_frame(value),
                }
            },
            _ => HeardView {
                link: self,
                metrics: counted,
                control: None,
                events: Seq::empty(),
                dropped: frame is Close,
            },
        }
    }

    /// A frame arrived, and has been recorded: what the feed does about it.
    ///
    /// Recording comes first, before any parser, so that a frame nobody
    /// understood is in the file all the same.
    pub fn hear(
        &mut self,
        parser: &mut Parser,
        tickers: &[String],
        frame: &Frame,
        received_at_ms: u64,
    ) -> (heard: Heard)
        requires
            old(parser).metrics@.has_room(),
        ensures
            ({
                let heard_view = old(self).hearing(
                    old(parser).metrics@,
                    old(parser).contracts@,
                    text::views(tickers@),
                    *frame,
                    received_at_ms,
                );
                &&& *final(self) == heard_view.link
                &&& final(parser).metrics@ == heard_view.metrics
                &&& (match heard.step.control {
                    Some(control) => Some(control@),
                    None => None,
                }) == heard_view.control
                &&& events_view(heard.step.events@) == heard_view.events
                &&& heard.dropped == heard_view.dropped
            }),
            final(parser).contracts == old(parser).contracts,
            final(parser).venue == old(parser).venue,
    {
        parser.metrics.messages_received = parser.metrics.messages_received.saturating_add(1);
        let nothing = LinkStep { control: None, events: Vec::new() };
        assert(events_view(nothing.events@) =~= Seq::<EventView>::empty());
        match frame {
            Frame::Text(text) => {
                let value: Option<Value> = read_control(text.as_str());
                let event: Option<FeedEvent> = parser.parse(text.as_str(), received_at_ms);
                let mut step: LinkStep = nothing;
                if event.is_none() && self.acknowledges(value.as_ref()) {
                    if self.reconnect {
                        parser.metrics.reconnections = parser.metrics.reconnections.saturating_add(
                            1,
                        );
                    }
                    step = self.acknowledge(tickers, &parser.contracts);
                }
                let ghost before = step.events@;
                match event {
                    Some(event) => {
                        step.events.push(event);
                        assert(events_view(step.events@) =~= events_view(before) + seq![event@]);
                    },
                    None => {
                        assert(events_view(step.events@) =~= events_view(before) + Seq::<
                            EventView,
                        >::empty());
                    },
                }
                Heard { step, dropped: is_error(value.as_ref()) }
            },
            Frame::Close(_) => Heard { step: nothing, dropped: true },
            _ => Heard { step: nothing, dropped: false },
        }
    }
}

/// What the feed does about a frame.
#[derive(Clone, Debug, PartialEq)]
pub struct Heard {
    pub step: LinkStep,
    /// Whether the socket is dropped.
    pub dropped: bool,
}

impl LinkStep {
    /// The step that reports a lost socket.
    pub open spec fn says_disconnected(self, reason: Seq<char>) -> bool {
        &&& self.control matches Some(Control::Disconnected { reason: why }) && why@ == reason
        &&& events_view(self.events@) == seq![EventView::Disconnected { venue: Venue::Kalshi }]
    }
}

pub open spec fn events_view(events: Seq<FeedEvent>) -> Seq<EventView> {
    events.map_values(|event: FeedEvent| event@)
}

/// One resubscription for each ticker that has a contract, in order.
pub open spec fn resubscriptions(names: Seq<Instrument>, tickers: Seq<Seq<char>>) -> Seq<EventView>
    decreases tickers.len(),
{
    if tickers.len() == 0 {
        Seq::empty()
    } else {
        let before = resubscriptions(names, tickers.drop_last());
        match types::lookup(names, Venue::Kalshi, tickers.last()) {
            Some(contract) => before.push(EventView::Resubscribed { contract }),
            None => before,
        }
    }
}

fn resubscribed(tickers: &[String], contracts: &Contracts) -> (events: Vec<FeedEvent>)
    ensures
        events_view(events@) == resubscriptions(contracts@, text::views(tickers@)),
{
    let ghost all = text::views(tickers@);
    let mut events: Vec<FeedEvent> = Vec::new();
    let mut i: usize = 0;
    assert(all.subrange(0, 0) =~= Seq::<Seq<char>>::empty());
    assert(events_view(events@) =~= Seq::<EventView>::empty());
    while i < tickers.len()
        invariant
            i <= tickers@.len(),
            all == text::views(tickers@),
            events_view(events@) == resubscriptions(contracts@, all.subrange(0, i as int)),
        decreases tickers@.len() - i,
    {
        proof {
            assert(all.subrange(0, i + 1).drop_last() =~= all.subrange(0, i as int));
            assert(all.subrange(0, i + 1).last() == tickers@[i as int]@);
        }
        let ghost before = events@;
        if let Some(contract) = contracts.get(Venue::Kalshi, tickers[i].as_str()) {
            events.push(FeedEvent::Resubscribed { contract });
            assert(events_view(events@) =~= events_view(before).push(
                EventView::Resubscribed { contract },
            ));
        }
        i = i + 1;
    }
    assert(all.subrange(0, all.len() as int) =~= all);
    events
}

fn disconnected(reason: &str) -> (step: LinkStep)
    ensures
        step.says_disconnected(reason@),
{
    let mut events: Vec<FeedEvent> = Vec::new();
    events.push(FeedEvent::Disconnected { venue: Venue::Kalshi });
    assert(events_view(events@) =~= seq![EventView::Disconnected { venue: Venue::Kalshi }]);
    LinkStep {
        control: Some(Control::Disconnected { reason: reason.to_owned() }),
        events,
    }
}

/// The venue's acknowledgement of the order book subscription.
pub open spec fn acknowledgement(frame: Json) -> bool {
    &&& json::text_of(json::member_of(frame, "type"@)) == Some("subscribed"@)
    &&& json::member_of(frame, "id"@) matches Some(id) && json::unsigned_of(id) == Some(1u64)
    &&& json::member_of(frame, "msg"@) matches Some(msg) && json::text_of(
        json::member_of(msg, "channel"@),
    ) == Some("orderbook_delta"@)
}

fn says(value: &Value, key: &str, want: &str) -> (yes: bool)
    ensures
        yes == (json::text_of(json::member_of(json::json(*value), key@)) == Some(want@)),
{
    match json::member(value, key) {
        Some(inner) => match json::string(inner) {
            Some(text) => text::same(text, want),
            None => false,
        },
        None => false,
    }
}

fn is_acknowledgement(frame: &Value) -> (yes: bool)
    ensures
        yes == acknowledgement(json::json(*frame)),
{
    if !says(frame, "type", "subscribed") {
        return false;
    }
    match json::member(frame, "id") {
        Some(id) => match json::unsigned(id) {
            Some(n) => if n != 1 {
                return false;
            },
            None => return false,
        },
        None => return false,
    }
    match json::member(frame, "msg") {
        Some(msg) => says(msg, "channel", "orderbook_delta"),
        None => false,
    }
}

/// Whether a text frame is the venue reporting an error, on which the socket is
/// dropped.
pub fn is_error(frame: Option<&Value>) -> (yes: bool)
    ensures
        yes == (frame matches Some(frame) && json::text_of(
            json::member_of(json::json(*frame), "type"@),
        ) == Some("error"@)),
{
    match frame {
        Some(frame) => says(frame, "type", "error"),
        None => false,
    }
}

/// A text frame as JSON, if it is JSON.
pub fn read_control(raw: &str) -> (frame: Option<Value>)
    ensures
        match frame {
            Some(frame) => json::parsed_json(raw@) == Some(json::json(frame)),
            None => json::parsed_json(raw@) is None,
        },
{
    match json::read(raw) {
        Ok(frame) => Some(frame),
        Err(_) => None,
    }
}

// ---------------------------------------------------------------------------
// Laws
// ---------------------------------------------------------------------------

/// A frame is an event or a count: one that is refused leaves no event and is
/// counted once, a finer tick apart from a malformed payload.
pub proof fn a_refused_frame_is_counted_once(
    metrics: MetricsView,
    names: Seq<Instrument>,
    frame: Json,
    receipt: u64,
)
    requires
        metrics.has_room(),
        frame_of(names, frame) is Refused,
    ensures
        ({
            let (after, event) = heard(metrics, names, Some(frame), receipt);
            &&& event is None
            &&& after.parse_attempts == metrics.parse_attempts + 1
            &&& after.parse_errors + after.sub_cent_prices == metrics.parse_errors
                + metrics.sub_cent_prices + 1
            &&& (after.sub_cent_prices > metrics.sub_cent_prices) == (frame_of(names, frame)
                == Reading::Refused(Refusal::SubCent))
        }),
{
}

/// An event names a contract that was subscribed to.
pub proof fn an_event_is_about_a_subscribed_contract(names: Seq<Instrument>, frame: Json)
    ensures
        frame_of(names, frame) matches Reading::Event(event, _, _) ==> exists|ticker: Seq<char>|
            match event {
                EventView::Snapshot { contract, .. } => #[trigger] types::lookup(
                    names,
                    Venue::Kalshi,
                    ticker,
                ) == Some(contract),
                EventView::Delta { contract, .. } => types::lookup(
                    names,
                    Venue::Kalshi,
                    ticker,
                ) == Some(contract),
                _ => false,
            },
{
    if frame_of(names, frame) is Event {
        let msg = match json::field_of(frame, 2, "msg"@) {
            Some(msg) => msg,
            None => Json::Null,
        };
        if frame_of(names, frame)->Event_0 is Snapshot {
            let ticker = json::text_of(json::member_of(msg, "market_ticker"@))->0;
            assert(types::lookup(names, Venue::Kalshi, ticker) is Some);
        } else {
            let ticker = json::text_of(json::field_of(msg, 0, "market_ticker"@))->0;
            assert(types::lookup(names, Venue::Kalshi, ticker) is Some);
        }
    }
}

/// Every price an event carries lies inside the band of a binary contract, so
/// the book store has a slot for it.
pub proof fn every_price_has_a_slot(names: Seq<Instrument>, frame: Json)
    ensures
        match frame_of(names, frame) {
            Reading::Event(EventView::Snapshot { yes, no, .. }, _, _) => (forall|i: int|
                0 <= i < yes.len() ==> 0 <= (#[trigger] yes[i]).price <= 100) && (forall|i: int|
                0 <= i < no.len() ==> 0 <= (#[trigger] no[i]).price <= 100),
            Reading::Event(EventView::Delta { price, .. }, _, _) => 0 <= price <= 100,
            _ => true,
        },
{
    let msg = match json::field_of(frame, 2, "msg"@) {
        Some(msg) => msg,
        None => Json::Null,
    };
    let yes = rows_of(json::member_of(msg, "yes_dollars_fp"@));
    let no = rows_of(json::member_of(msg, "no_dollars_fp"@));
    if let Some(rows) = yes {
        feed::lemma_sized(rows, rows.len() as int, false, 0);
        if let Ok((_, some)) = feed::sized(rows, rows.len() as int, false, 0) {
            if let Some(others) = no {
                feed::lemma_sized(others, others.len() as int, false, some);
            }
        }
    }
    if let Some(price) = json::text_of(json::field_of(msg, 1, "price_dollars"@)) {
        types::lemma_price_cents(price);
    }
}

/// The frame that acknowledges a subscription carries no event, and is counted
/// the same whether the reconnection it completes is counted before or after.
pub proof fn an_acknowledgement_is_no_event(
    metrics: MetricsView,
    names: Seq<Instrument>,
    frame: Json,
    receipt: u64,
    reconnections: u64,
)
    requires
        acknowledgement(frame),
    ensures
        heard(metrics, names, Some(frame), receipt).1 is None,
        heard(
            (MetricsView { reconnections, ..metrics }),
            names,
            Some(frame),
            receipt,
        ) == (
            (MetricsView { reconnections, ..heard(metrics, names, Some(frame), receipt).0 }),
            None::<EventView>,
        ),
{
    reveal_strlit("subscribed");
    reveal_strlit("orderbook_snapshot");
    reveal_strlit("orderbook_delta");
    assert("subscribed"@.len() == 10 && "orderbook_snapshot"@.len() == 18
        && "orderbook_delta"@.len() == 15);
}

} // verus!
