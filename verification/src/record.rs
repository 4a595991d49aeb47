//! Receipt envelopes preserve raw payloads independently of the venue parser.
//! Each flush closes a gzip member so the durable prefix is readable after a
//! crash. Readers must support concatenated members.
//!
//! Feed lifecycle events that never arrive as venue bytes (disconnect,
//! reconnect, resubscribe) are written into the same stream as `kind:
//! "control"` envelopes so replay takes the same resync path the live run did.
//! The tag is the envelope `kind`, never the payload content; files recorded
//! before control envelopes existed parse unchanged and simply contain none.
//!
//! What goes into an envelope and which file it belongs to is decided here;
//! the program compresses and writes it.
use serde_json::Value;
use vstd::prelude::*;
use crate::json;
use crate::json::shape;
use crate::json::shape::ShapeView;
use crate::json::{Json, Member, Written};
use crate::text;
use crate::types;
use crate::types::Venue;

verus! {

#[derive(Clone, Debug, PartialEq)]
pub struct Record {
    pub received_at_ms: u64,
    pub sequence: u64,
    pub kind: String,
    /// Text is JSON-escaped as a string, never deserialized and written anew.
    /// Non-text WebSocket payloads use base64; kind identifies the encoding.
    pub raw: String,
}

/// What a [`Record`] holds.
#[verifier::ext_equal]
pub struct RecordView {
    pub received_at_ms: u64,
    pub sequence: u64,
    pub kind: Seq<char>,
    pub raw: Seq<char>,
}

impl View for Record {
    type V = RecordView;

    open spec fn view(&self) -> RecordView {
        RecordView {
            received_at_ms: self.received_at_ms,
            sequence: self.sequence,
            kind: self.kind@,
            raw: self.raw@,
        }
    }
}

/// Envelope kind reserved for [`Control`]; no WebSocket frame uses it.
pub const CONTROL_KIND: &'static str = "control";

/// Feed lifecycle event, JSON-encoded into the envelope `raw` string.
#[derive(Clone, Debug, PartialEq)]
pub enum Control {
    /// Once per feed process, before the first connection attempt. Marks
    /// session boundaries inside a daily file that several runs appended to.
    SessionStarted { environment: String, tickers: Vec<String> },
    /// Written immediately before the feed emits `FeedEvent::Disconnected`.
    Disconnected { reason: String },
    /// A later handshake succeeded; emits no feed event.
    Reconnected { attempt: u32 },
    /// Written immediately before the feed emits `FeedEvent::Resubscribed`
    /// for each ticker, in this order.
    Resubscribed { tickers: Vec<String> },
}

/// What a [`Control`] says.
#[verifier::ext_equal]
pub enum ControlView {
    SessionStarted { environment: Seq<char>, tickers: Seq<Seq<char>> },
    Disconnected { reason: Seq<char> },
    Reconnected { attempt: u32 },
    Resubscribed { tickers: Seq<Seq<char>> },
}

impl View for Control {
    type V = ControlView;

    open spec fn view(&self) -> ControlView {
        match self {
            Control::SessionStarted { environment, tickers } => ControlView::SessionStarted {
                environment: environment@,
                tickers: text::views(tickers@),
            },
            Control::Disconnected { reason } => ControlView::Disconnected { reason: reason@ },
            Control::Reconnected { attempt } => ControlView::Reconnected { attempt: *attempt },
            Control::Resubscribed { tickers } => ControlView::Resubscribed {
                tickers: text::views(tickers@),
            },
        }
    }
}

/// A list of strings.
pub open spec fn strings_of(field: Option<Json>) -> Option<Seq<Seq<char>>> {
    match field {
        Some(Json::List(items)) => if forall|i: int|
            0 <= i < items.len() ==> (#[trigger] items[i]) is Text {
            Some(items.map_values(|item: Json| item->Text_0))
        } else {
            None
        },
        _ => None,
    }
}

/// The lifecycle event that a payload writes: a record whose first field names
/// the event.
pub open spec fn control_of(value: Json) -> Option<ControlView> {
    match json::text_of(json::field_of(value, 0, "event"@)) {
        None => None,
        Some(event) => if event == "session_started"@ {
            match (
                json::text_of(json::field_of(value, 1, "environment"@)),
                strings_of(json::field_of(value, 2, "tickers"@)),
            ) {
                (Some(environment), Some(tickers)) => if json::is_record(value, 3, 3) {
                    Some(ControlView::SessionStarted { environment, tickers })
                } else {
                    None
                },
                _ => None,
            }
        } else if event == "disconnected"@ {
            match json::text_of(json::field_of(value, 1, "reason"@)) {
                Some(reason) => if json::is_record(value, 2, 2) {
                    Some(ControlView::Disconnected { reason })
                } else {
                    None
                },
                None => None,
            }
        } else if event == "reconnected"@ {
            match json::field_of(value, 1, "attempt"@) {
                Some(attempt) => match json::unsigned_of(attempt) {
                    Some(attempt) => if attempt <= u32::MAX && json::is_record(value, 2, 2) {
                        Some(ControlView::Reconnected { attempt: attempt as u32 })
                    } else {
                        None
                    },
                    None => None,
                },
                None => None,
            }
        } else if event == "resubscribed"@ {
            match strings_of(json::field_of(value, 1, "tickers"@)) {
                Some(tickers) => if json::is_record(value, 2, 2) {
                    Some(ControlView::Resubscribed { tickers })
                } else {
                    None
                },
                None => None,
            }
        } else {
            None
        },
    }
}

/// The fields of a lifecycle event, by its name.
pub open spec fn control_fields(event: Seq<char>) -> Option<Seq<Seq<char>>> {
    if event == "session_started"@ {
        Some(seq!["event"@, "environment"@, "tickers"@])
    } else if event == "disconnected"@ {
        Some(seq!["event"@, "reason"@])
    } else if event == "reconnected"@ {
        Some(seq!["event"@, "attempt"@])
    } else if event == "resubscribed"@ {
        Some(seq!["event"@, "tickers"@])
    } else {
        None
    }
}

/// The lifecycle event that a text writes. Its name decides which of its members
/// count, so the whole text has to be readable.
pub open spec fn control_written(text: Seq<char>) -> Option<ControlView> {
    match json::parsed_json(text) {
        Some(value) => match json::text_of(json::field_of(value, 0, "event"@)) {
            Some(event) => match control_fields(event) {
                Some(names) => match shape::shaped(text, shape::flat(names)) {
                    Some(control) => control_of(control),
                    None => None,
                },
                None => None,
            },
            None => None,
        },
        None => None,
    }
}

/// The members that a lifecycle event is written with.
pub open spec fn control_members(control: ControlView) -> Seq<Member> {
    match control {
        ControlView::SessionStarted { environment, tickers } => seq![
            Member { key: "event"@, value: Written::Text("session_started"@) },
            Member { key: "environment"@, value: Written::Text(environment) },
            Member { key: "tickers"@, value: Written::Texts(tickers) },
        ],
        ControlView::Disconnected { reason } => seq![
            Member { key: "event"@, value: Written::Text("disconnected"@) },
            Member { key: "reason"@, value: Written::Text(reason) },
        ],
        ControlView::Reconnected { attempt } => seq![
            Member { key: "event"@, value: Written::Text("reconnected"@) },
            Member { key: "attempt"@, value: Written::Number(attempt as u64) },
        ],
        ControlView::Resubscribed { tickers } => seq![
            Member { key: "event"@, value: Written::Text("resubscribed"@) },
            Member { key: "tickers"@, value: Written::Texts(tickers) },
        ],
    }
}

/// What a lifecycle event is written as.
pub open spec fn control_text(control: ControlView) -> Seq<char> {
    json::object_text(control_members(control))
}

/// What is written is what it was.
proof fn lemma_control_of(control: ControlView)
    ensures
        control_of(json::object_of(control_members(control))) == Some(control),
        ({
            let event = json::text_of(
                json::field_of(json::object_of(control_members(control)), 0, "event"@),
            );
            event is Some && control_fields(event->0) is Some && shape::fits(
                control_members(control),
                shape::flat(control_fields(event->0)->0),
            )
        }),
{
    let members = control_members(control);
    reveal_strlit("event");
    reveal_strlit("environment");
    reveal_strlit("tickers");
    reveal_strlit("reason");
    reveal_strlit("attempt");
    reveal_strlit("session_started");
    reveal_strlit("disconnected");
    reveal_strlit("reconnected");
    reveal_strlit("resubscribed");
    reveal_with_fuel(json::members_of, 4);
    reveal_with_fuel(shape::place_of, 4);
    match control {
        ControlView::SessionStarted { environment, tickers } => {
            lemma_strings_of(tickers);
            let held = json::members_of(members, 3);
            assert("event"@.len() != "environment"@.len());
            assert("event"@.len() != "tickers"@.len());
            assert("environment"@.len() != "tickers"@.len());
            assert(members.len() == 3);
            assert(held["event"@] == Json::Text("session_started"@));
            assert(held["environment"@] == Json::Text(environment));
            assert(held["tickers"@] == json::value_of(Written::Texts(tickers)));
            let value = json::object_of(members);
            assert(json::field_of(value, 0, "event"@) == Some(Json::Text("session_started"@)));
            assert(json::field_of(value, 1, "environment"@) == Some(Json::Text(environment)));
            assert(strings_of(json::field_of(value, 2, "tickers"@)) == Some(tickers));
            assert(control_of(value) == Some(control));
            let names = control_fields("session_started"@)->0;
            assert(names == seq!["event"@, "environment"@, "tickers"@]);
            assert(shape::place_of(names, "environment"@, 0) == Some(1int));
            assert(shape::place_of(names, "tickers"@, 0) == Some(2int));
        },
        ControlView::Disconnected { .. } => {
            assert("disconnected"@.len() != "session_started"@.len());
            assert("event"@.len() != "reason"@.len());
            let value = json::object_of(members);
            assert(members.len() == 2);
            assert(json::field_of(value, 0, "event"@) == Some(Json::Text("disconnected"@)));
            assert(control_of(value) == Some(control));
        },
        ControlView::Reconnected { .. } => {
            assert("reconnected"@.len() != "session_started"@.len());
            assert("reconnected"@.len() != "disconnected"@.len());
            assert("event"@.len() != "attempt"@.len());
            let value = json::object_of(members);
            assert(members.len() == 2);
            assert(json::field_of(value, 0, "event"@) == Some(Json::Text("reconnected"@)));
            assert(control_of(value) == Some(control));
        },
        ControlView::Resubscribed { tickers } => {
            lemma_strings_of(tickers);
            assert("resubscribed"@.len() != "session_started"@.len());
            assert("resubscribed"@[0] != "disconnected"@[0]);
            assert("resubscribed"@.len() != "reconnected"@.len());
            assert("event"@.len() != "tickers"@.len());
            let value = json::object_of(members);
            assert(members.len() == 2);
            assert(json::field_of(value, 0, "event"@) == Some(Json::Text("resubscribed"@)));
            assert(strings_of(json::field_of(value, 1, "tickers"@)) == Some(tickers));
            assert(control_of(value) == Some(control));
        },
    }
}

proof fn lemma_strings_of(texts: Seq<Seq<char>>)
    ensures
        strings_of(Some(json::value_of(Written::Texts(texts)))) == Some(texts),
{
    let items = texts.map_values(|text: Seq<char>| Json::Text(text));
    assert(items.map_values(|item: Json| item->Text_0) =~= texts);
}

fn read_strings(field: Option<&Value>) -> (strings: Option<Vec<String>>)
    ensures
        ({
            let held = match field {
                Some(field) => Some(json::json(*field)),
                None => None,
            };
            match strings {
                Some(strings) => strings_of(held) == Some(text::views(strings@)),
                None => strings_of(held) is None,
            }
        }),
{
    let present: &Value = match field {
        Some(present) => present,
        None => return None,
    };
    let items: &Vec<Value> = match json::list(present) {
        Some(items) => items,
        None => return None,
    };
    let ghost all = items@.map_values(|item: Value| json::json(item));
    let mut strings: Vec<String> = Vec::new();
    let mut i: usize = 0;
    while i < items.len()
        invariant
            i <= items@.len(),
            all == items@.map_values(|item: Value| json::json(item)),
            field == Some(present),
            json::json(*present) == Json::List(all),
            strings@.len() == i,
            forall|k: int| 0 <= k < i ==> #[trigger] all[k] == Json::Text(strings@[k]@),
        decreases items@.len() - i,
    {
        assert(all[i as int] == json::json(items@[i as int]));
        match json::string(&items[i]) {
            Some(text) => strings.push(text.to_owned()),
            None => {
                assert(!(all[i as int] is Text));
                return None;
            },
        }
        i = i + 1;
    }
    proof {
        assert forall|k: int| 0 <= k < all.len() implies (#[trigger] all[k]) is Text by {}
        assert(all.map_values(|item: Json| item->Text_0) =~= text::views(strings@));
    }
    Some(strings)
}

fn written_number(n: u64) -> (out: String)
    ensures
        out@ == text::decimal(n as nat),
{
    let mut out: String = String::new();
    text::push_u64(&mut out, n);
    assert(out@ =~= text::decimal(n as nat));
    out
}

/// A list of texts in JSON.
fn texts_json(texts: &[String]) -> (out: String)
    ensures
        out@ == json::value_text(Written::Texts(text::views(texts@))),
{
    let mut out: String = "[".to_owned();
    out.append(json::list_json(texts).as_str());
    out.append("]");
    out
}

impl Control {
    /// The payload of this event's envelope.
    pub fn to_json(&self) -> (out: String)
        ensures
            out@ == control_text(self@),
    {
        let ghost members = control_members(self@);
        let mut out: String = "{".to_owned();
        assert(out@ =~= "{"@ + json::members_text(members, 0));
        match self {
            Control::SessionStarted { environment, tickers } => {
                let name: String = json::quote("session_started");
                json::write_member(&mut out, "event", name.as_str(), Ghost(members), Ghost(0));
                let value: String = json::quote(environment.as_str());
                json::write_member(
                    &mut out,
                    "environment",
                    value.as_str(),
                    Ghost(members),
                    Ghost(1),
                );
                let list: String = texts_json(tickers.as_slice());
                json::write_member(&mut out, "tickers", list.as_str(), Ghost(members), Ghost(2));
            },
            Control::Disconnected { reason } => {
                let name: String = json::quote("disconnected");
                json::write_member(&mut out, "event", name.as_str(), Ghost(members), Ghost(0));
                let value: String = json::quote(reason.as_str());
                json::write_member(&mut out, "reason", value.as_str(), Ghost(members), Ghost(1));
            },
            Control::Reconnected { attempt } => {
                let name: String = json::quote("reconnected");
                json::write_member(&mut out, "event", name.as_str(), Ghost(members), Ghost(0));
                let value: String = written_number(*attempt as u64);
                json::write_member(&mut out, "attempt", value.as_str(), Ghost(members), Ghost(1));
            },
            Control::Resubscribed { tickers } => {
                let name: String = json::quote("resubscribed");
                json::write_member(&mut out, "event", name.as_str(), Ghost(members), Ghost(0));
                let list: String = texts_json(tickers.as_slice());
                json::write_member(&mut out, "tickers", list.as_str(), Ghost(members), Ghost(1));
            },
        }
        out.append("}");
        out
    }

    /// The lifecycle event that a JSON value is, if it is one.
    pub fn from_json(value: &Value) -> (control: Option<Control>)
        ensures
            match control {
                Some(control) => control_of(json::json(*value)) == Some(control@),
                None => control_of(json::json(*value)) is None,
            },
    {
        let event: &str = match json::text_field(value, 0, "event") {
            Some(event) => event,
            None => return None,
        };
        if text::same(event, "session_started") {
            let environment: String = match json::text_field(value, 1, "environment") {
                Some(environment) => environment.to_owned(),
                None => return None,
            };
            let tickers: Vec<String> = match read_strings(json::field(value, 2, "tickers")) {
                Some(tickers) => tickers,
                None => return None,
            };
            if json::record(value, 3, 3) {
                Some(Control::SessionStarted { environment, tickers })
            } else {
                None
            }
        } else if text::same(event, "disconnected") {
            match json::text_field(value, 1, "reason") {
                Some(reason) => if json::record(value, 2, 2) {
                    Some(Control::Disconnected { reason: reason.to_owned() })
                } else {
                    None
                },
                None => None,
            }
        } else if text::same(event, "reconnected") {
            let attempt: u64 = match json::field(value, 1, "attempt") {
                Some(attempt) => match json::unsigned(attempt) {
                    Some(attempt) => attempt,
                    None => return None,
                },
                None => return None,
            };
            if attempt <= u32::MAX as u64 && json::record(value, 2, 2) {
                Some(Control::Reconnected { attempt: attempt as u32 })
            } else {
                None
            }
        } else if text::same(event, "resubscribed") {
            match read_strings(json::field(value, 1, "tickers")) {
                Some(tickers) => if json::record(value, 2, 2) {
                    Some(Control::Resubscribed { tickers })
                } else {
                    None
                },
                None => None,
            }
        } else {
            None
        }
    }
}

/// Why an envelope was refused.
#[derive(Clone, Copy, Debug, PartialEq, Eq, Structural)]
pub enum RecordError {
    /// A control envelope whose payload is no lifecycle event: its sequence.
    MalformedControl { sequence: u64 },
    /// A venue payload under the kind reserved for control envelopes.
    ReservedKind,
    InvalidTimestamp,
    SequenceOverflow,
    /// A line of a recording that holds nothing.
    BlankLine,
    /// A line of a recording that is no envelope.
    MalformedLine,
}

pub open spec fn record_error_message(error: RecordError) -> Seq<char> {
    match error {
        RecordError::MalformedControl { sequence } => "malformed control envelope "@
            + text::decimal(sequence as nat),
        RecordError::ReservedKind => "control envelopes must use write_control"@,
        RecordError::InvalidTimestamp => "invalid receipt timestamp"@,
        RecordError::SequenceOverflow => "record sequence overflow"@,
        RecordError::BlankLine => "blank line in recording"@,
        RecordError::MalformedLine => "malformed line in recording"@,
    }
}

impl RecordError {
    pub fn message(&self) -> (out: String)
        ensures
            out@ == record_error_message(*self),
    {
        match self {
            RecordError::MalformedControl { sequence } => {
                let mut out: String = String::from_str("malformed control envelope ");
                text::push_u64(&mut out, *sequence);
                out
            },
            RecordError::ReservedKind => String::from_str(
                "control envelopes must use write_control",
            ),
            RecordError::InvalidTimestamp => String::from_str("invalid receipt timestamp"),
            RecordError::SequenceOverflow => String::from_str("record sequence overflow"),
            RecordError::BlankLine => String::from_str("blank line in recording"),
            RecordError::MalformedLine => String::from_str("malformed line in recording"),
        }
    }
}

/// What a control envelope holds: nothing for a venue payload, and an error
/// where a control payload is none.
pub open spec fn control_in(record: RecordView) -> Result<Option<ControlView>, RecordError> {
    if record.kind != CONTROL_KIND@ {
        Ok(None)
    } else {
        match control_written(record.raw) {
            Some(control) => Ok(Some(control)),
            None => Err(RecordError::MalformedControl { sequence: record.sequence }),
        }
    }
}

/// The members that an envelope is written with.
pub open spec fn line_members(record: RecordView) -> Seq<Member> {
    seq![
        Member { key: "received_at_ms"@, value: Written::Number(record.received_at_ms) },
        Member { key: "sequence"@, value: Written::Number(record.sequence) },
        Member { key: "kind"@, value: Written::Text(record.kind) },
        Member { key: "raw"@, value: Written::Text(record.raw) },
    ]
}

/// The line that an envelope is written as, without the line feed at its end.
pub open spec fn line_text(record: RecordView) -> Seq<char> {
    json::object_text(line_members(record))
}

/// The number of a field that must be there.
pub open spec fn number_of(field: Option<Json>) -> Option<u64> {
    match field {
        Some(value) => json::unsigned_of(value),
        None => None,
    }
}

/// The envelope that a value is, if it is one.
pub open spec fn record_of(value: Json) -> Option<RecordView> {
    match (
        number_of(json::field_of(value, 0, "received_at_ms"@)),
        number_of(json::field_of(value, 1, "sequence"@)),
        json::text_of(json::field_of(value, 2, "kind"@)),
        json::text_of(json::field_of(value, 3, "raw"@)),
    ) {
        (Some(received_at_ms), Some(sequence), Some(kind), Some(raw)) => if json::is_record(
            value,
            4,
            4,
        ) {
            Some(RecordView { received_at_ms, sequence, kind, raw })
        } else {
            None
        },
        _ => None,
    }
}

/// The fields of an envelope.
pub open spec fn line_shape() -> ShapeView {
    shape::flat(seq!["received_at_ms"@, "sequence"@, "kind"@, "raw"@])
}

/// The envelope that a line holds.
pub open spec fn record_in(line: Seq<char>) -> Result<RecordView, RecordError> {
    if line.len() == 0 {
        Err(RecordError::BlankLine)
    } else {
        match shape::shaped(line, line_shape()) {
            Some(value) => match record_of(value) {
                Some(record) => Ok(record),
                None => Err(RecordError::MalformedLine),
            },
            None => Err(RecordError::MalformedLine),
        }
    }
}

/// What is written is what it was.
proof fn lemma_record_of(record: RecordView)
    ensures
        record_of(json::object_of(line_members(record))) == Some(record),
        line_text(record).len() > 0,
        shape::fits(line_members(record), line_shape()),
{
    reveal_strlit("received_at_ms");
    reveal_strlit("sequence");
    reveal_strlit("kind");
    reveal_strlit("raw");
    reveal_strlit("{");
    reveal_with_fuel(json::members_of, 5);
    let members = line_members(record);
    let held = json::members_of(members, 4);
    assert(members.len() == 4);
    assert("received_at_ms"@.len() == 14 && "sequence"@.len() == 8 && "kind"@.len() == 4
        && "raw"@.len() == 3);
    assert(held["received_at_ms"@] == json::value_of(members[0].value));
    assert(held["sequence"@] == json::value_of(members[1].value));
    assert(held["kind"@] == json::value_of(members[2].value));
    assert(held["raw"@] == json::value_of(members[3].value));
    reveal_with_fuel(shape::place_of, 5);
}

fn number_field(value: &Value, place: usize, key: &str) -> (n: Option<u64>)
    ensures
        n == number_of(json::field_of(json::json(*value), place as int, key@)),
{
    match json::field(value, place, key) {
        Some(inner) => json::unsigned(inner),
        None => None,
    }
}

impl Record {
    /// The line that this envelope is written as, without the line feed at its
    /// end.
    pub fn line(&self) -> (out: String)
        ensures
            out@ == line_text(self@),
    {
        let ghost members = line_members(self@);
        let mut out: String = "{".to_owned();
        assert(out@ =~= "{"@ + json::members_text(members, 0));
        let at: String = written_number(self.received_at_ms);
        json::write_member(&mut out, "received_at_ms", at.as_str(), Ghost(members), Ghost(0));
        let sequence: String = written_number(self.sequence);
        json::write_member(&mut out, "sequence", sequence.as_str(), Ghost(members), Ghost(1));
        let kind: String = json::quote(self.kind.as_str());
        json::write_member(&mut out, "kind", kind.as_str(), Ghost(members), Ghost(2));
        let raw: String = json::quote(self.raw.as_str());
        json::write_member(&mut out, "raw", raw.as_str(), Ghost(members), Ghost(3));
        out.append("}");
        out
    }

    /// The envelope that a line of a recording holds.
    pub fn parse(line: &str) -> (result: Result<Record, RecordError>)
        ensures
            match result {
                Ok(record) => record_in(line@) == Ok::<RecordView, RecordError>(record@),
                Err(error) => record_in(line@) == Err::<RecordView, RecordError>(error),
            },
            // What was written is what is read.
            forall|written: RecordView|
                line@ == #[trigger] line_text(written) ==> (result matches Ok(record) && record@
                    == written),
    {
        proof {
            assert forall|written: RecordView|
                line@ == #[trigger] line_text(written) implies record_of(
                json::object_of(line_members(written)),
            ) == Some(written) && line@.len() > 0 && shape::fits(
                line_members(written),
                line_shape(),
            ) by {
                lemma_record_of(written);
            }
        }
        if line.unicode_len() == 0 {
            return Err(RecordError::BlankLine);
        }
        let names: Vec<String> = vec![
            "received_at_ms".to_owned(),
            "sequence".to_owned(),
            "kind".to_owned(),
            "raw".to_owned(),
        ];
        assert(text::views(names@) =~= seq!["received_at_ms"@, "sequence"@, "kind"@, "raw"@]);
        let value: Value = match shape::read_shaped(line, &shape::flat_record(names)) {
            Some(value) => value,
            None => return Err(RecordError::MalformedLine),
        };
        let received_at_ms: Option<u64> = number_field(&value, 0, "received_at_ms");
        let sequence: Option<u64> = number_field(&value, 1, "sequence");
        let kind: Option<&str> = json::text_field(&value, 2, "kind");
        let raw: Option<&str> = json::text_field(&value, 3, "raw");
        match (received_at_ms, sequence, kind, raw) {
            (Some(received_at_ms), Some(sequence), Some(kind), Some(raw)) => if json::record(
                &value,
                4,
                4,
            ) {
                Ok(
                    Record {
                        received_at_ms,
                        sequence,
                        kind: kind.to_owned(),
                        raw: raw.to_owned(),
                    },
                )
            } else {
                Err(RecordError::MalformedLine)
            },
            _ => Err(RecordError::MalformedLine),
        }
    }

    /// `Some` for a control envelope, `None` for a venue payload.
    pub fn control(&self) -> (result: Result<Option<Control>, RecordError>)
        ensures
            match result {
                Ok(Some(control)) => control_in(self@) == Ok::<Option<ControlView>, RecordError>(
                    Some(control@),
                ),
                Ok(None) => control_in(self@) == Ok::<Option<ControlView>, RecordError>(None),
                Err(error) => control_in(self@) == Err::<Option<ControlView>, RecordError>(error),
            },
            // What was written is what is read.
            forall|written: ControlView|
                self.kind@ == CONTROL_KIND@ && self.raw@ == #[trigger] control_text(written) ==> (
                result matches Ok(Some(control)) && control@ == written),
    {
        proof {
            assert forall|written: ControlView|
                self.raw@ == #[trigger] control_text(written) implies control_of(
                json::object_of(control_members(written)),
            ) == Some(written) by {
                lemma_control_of(written);
            }
        }
        if !text::same(self.kind.as_str(), CONTROL_KIND) {
            return Ok(None);
        }
        match read_written(self.raw.as_str()) {
            Some(control) => Ok(Some(control)),
            None => Err(RecordError::MalformedControl { sequence: self.sequence }),
        }
    }
}

/// The lifecycle event that a text writes, if it writes one.
fn read_written(raw: &str) -> (control: Option<Control>)
    ensures
        match control {
            Some(control) => control_written(raw@) == Some(control@),
            None => control_written(raw@) is None,
        },
        forall|written: ControlView|
            raw@ == #[trigger] control_text(written) ==> (control matches Some(control) && control@
                == written),
{
    proof {
        assert forall|written: ControlView| raw@ == #[trigger] control_text(written) implies ({
            let value = json::object_of(control_members(written));
            let event = json::text_of(json::field_of(value, 0, "event"@));
            &&& control_of(value) == Some(written)
            &&& event is Some && control_fields(event->0) is Some && shape::fits(
                control_members(written),
                shape::flat(control_fields(event->0)->0),
            )
        }) by {
            lemma_control_of(written);
        }
    }
    let value: Value = match json::read(raw) {
        Ok(value) => value,
        Err(_) => return None,
    };
    let event: &str = match json::text_field(&value, 0, "event") {
        Some(event) => event,
        None => return None,
    };
    let names: Vec<String> = match field_names(event) {
        Some(names) => names,
        None => return None,
    };
    match shape::read_shaped(raw, &shape::flat_record(names)) {
        Some(control) => Control::from_json(&control),
        None => None,
    }
}

/// The fields of a lifecycle event, by its name.
fn field_names(event: &str) -> (names: Option<Vec<String>>)
    ensures
        match names {
            Some(names) => control_fields(event@) == Some(text::views(names@)),
            None => control_fields(event@) is None,
        },
{
    let names: Vec<String> = if text::same(event, "session_started") {
        vec!["event".to_owned(), "environment".to_owned(), "tickers".to_owned()]
    } else if text::same(event, "disconnected") {
        vec!["event".to_owned(), "reason".to_owned()]
    } else if text::same(event, "reconnected") {
        vec!["event".to_owned(), "attempt".to_owned()]
    } else if text::same(event, "resubscribed") {
        vec!["event".to_owned(), "tickers".to_owned()]
    } else {
        return None;
    };
    assert(control_fields(event@)->0 =~= text::views(names@));
    Some(names)
}

// ---------------------------------------------------------------------------
// Writing
// ---------------------------------------------------------------------------

/// The UTC day of an instant in milliseconds, as `chrono` formats it under
/// `%Y-%m-%d`; nothing where the instant is outside what `chrono` can hold.
pub uninterp spec fn calendar_day(ms: i64) -> Option<Seq<char>>;

/// `chrono::DateTime::from_timestamp_millis`, formatted as a day: a function of
/// the instant alone.
#[verifier::external_body]
fn utc_day(ms: i64) -> (day: Option<String>)
    ensures
        match day {
            Some(day) => calendar_day(ms) == Some(day@),
            None => calendar_day(ms) is None,
        },
{
    let time = chrono::DateTime::from_timestamp_millis(ms)?;
    Some(time.format("%Y-%m-%d").to_string())
}

/// Where a recording stands: the day of the open file and the last sequence
/// number written.
#[derive(Clone, Debug, PartialEq)]
pub struct Journal {
    venue: Venue,
    day: Option<String>,
    sequence: u64,
}

/// What a [`Journal`] holds.
#[verifier::ext_equal]
pub struct JournalView {
    pub venue: Venue,
    pub day: Option<Seq<char>>,
    pub sequence: u64,
}

impl View for Journal {
    type V = JournalView;

    closed spec fn view(&self) -> JournalView {
        JournalView {
            venue: self.venue,
            day: match self.day {
                Some(day) => Some(day@),
                None => None,
            },
            sequence: self.sequence,
        }
    }
}

/// The day a receipt time falls on.
pub open spec fn day_of(received_at_ms: u64) -> Result<Seq<char>, RecordError> {
    if received_at_ms > i64::MAX {
        Err(RecordError::InvalidTimestamp)
    } else {
        match calendar_day(received_at_ms as i64) {
            Some(day) => Ok(day),
            None => Err(RecordError::InvalidTimestamp),
        }
    }
}

/// A payload as it is recorded: text loses a single trailing line feed.
pub open spec fn recorded_raw(kind: Seq<char>, raw: Seq<char>) -> Seq<char> {
    if kind == "text"@ && raw.len() > 0 && raw.last() == '\n' {
        raw.drop_last()
    } else {
        raw
    }
}

impl JournalView {
    /// The envelope that comes next.
    pub open spec fn enveloped(self, received_at_ms: u64, kind: Seq<char>, raw: Seq<char>) -> Result<
        RecordView,
        RecordError,
    > {
        if self.sequence == u64::MAX {
            Err(RecordError::SequenceOverflow)
        } else {
            Ok(
                RecordView {
                    received_at_ms,
                    sequence: (self.sequence + 1) as u64,
                    kind,
                    raw: recorded_raw(kind, raw),
                },
            )
        }
    }
}

impl Journal {
    pub fn new(venue: Venue) -> (journal: Self)
        ensures
            journal@ == (JournalView { venue, day: None, sequence: 0 }),
    {
        Journal { venue, day: None, sequence: 0 }
    }

    /// The name of the file that locks a directory for a venue. The venue names
    /// both the daily file and the lock, so two venues can record into one
    /// directory at once and a file says which venue wrote it.
    pub fn lock_name(&self) -> (name: String)
        ensures
            name@ == "."@ + types::venue_name(self@.venue) + ".lock"@,
    {
        let mut name: String = String::from_str(".");
        name.append(self.venue.name());
        name.append(".lock");
        name
    }

    /// The name of a day's file.
    pub fn file_name(&self, day: &str) -> (name: String)
        ensures
            name@ == types::venue_name(self@.venue) + "-"@ + day@ + ".ndjson.gz"@,
    {
        let mut name: String = self.venue.name().to_owned();
        name.append("-");
        name.append(day);
        name.append(".ndjson.gz");
        name
    }

    /// The day that must be opened before something received now is written,
    /// if it is not the one that is open.
    pub fn due(&self, received_at_ms: u64) -> (result: Result<Option<String>, RecordError>)
        ensures
            match result {
                Ok(Some(day)) => day_of(received_at_ms) == Ok::<Seq<char>, RecordError>(day@)
                    && self@.day != Some(day@),
                Ok(None) => self@.day is Some && day_of(received_at_ms) == Ok::<
                    Seq<char>,
                    RecordError,
                >(self@.day->0),
                Err(error) => day_of(received_at_ms) == Err::<Seq<char>, RecordError>(error),
            },
    {
        if received_at_ms > i64::MAX as u64 {
            return Err(RecordError::InvalidTimestamp);
        }
        let day: String = match utc_day(received_at_ms as i64) {
            Some(day) => day,
            None => return Err(RecordError::InvalidTimestamp),
        };
        match &self.day {
            Some(open) => if text::same(open.as_str(), day.as_str()) {
                Ok(None)
            } else {
                Ok(Some(day))
            },
            None => Ok(Some(day)),
        }
    }

    /// Resume above a sequence number that a day's file already holds.
    pub fn resume(&mut self, sequence: u64)
        ensures
            final(self)@ == (JournalView {
                sequence: if sequence > old(self)@.sequence {
                    sequence
                } else {
                    old(self)@.sequence
                },
                ..old(self)@
            }),
    {
        if sequence > self.sequence {
            self.sequence = sequence;
        }
    }

    /// A day's file is open.
    pub fn open(&mut self, day: String)
        ensures
            final(self)@ == (JournalView { day: Some(day@), ..old(self)@ }),
    {
        self.day = Some(day);
    }

    /// The next envelope for a venue payload. `kind` names the WebSocket frame
    /// encoding.
    pub fn payload(&mut self, received_at_ms: u64, kind: &str, raw: &str) -> (result: Result<
        Record,
        RecordError,
    >)
        ensures
            match result {
                Ok(record) => kind@ != CONTROL_KIND@ && old(self)@.enveloped(
                    received_at_ms,
                    kind@,
                    raw@,
                ) == Ok::<RecordView, RecordError>(record@) && final(self)@ == (JournalView {
                    sequence: record@.sequence,
                    ..old(self)@
                }),
                Err(error) => final(self)@ == old(self)@ && error == (if kind@ == CONTROL_KIND@ {
                    RecordError::ReservedKind
                } else {
                    RecordError::SequenceOverflow
                }) && (kind@ == CONTROL_KIND@ || old(self)@.sequence == u64::MAX),
            },
    {
        if text::same(kind, CONTROL_KIND) {
            return Err(RecordError::ReservedKind);
        }
        self.envelope(received_at_ms, kind, raw)
    }

    /// The next envelope for a lifecycle event.
    pub fn control(&mut self, received_at_ms: u64, control: &Control) -> (result: Result<
        Record,
        RecordError,
    >)
        ensures
            match result {
                Ok(record) => old(self)@.enveloped(
                    received_at_ms,
                    CONTROL_KIND@,
                    control_text(control@),
                ) == Ok::<RecordView, RecordError>(record@) && final(self)@ == (JournalView {
                    sequence: record@.sequence,
                    ..old(self)@
                }),
                Err(error) => final(self)@ == old(self)@ && error == RecordError::SequenceOverflow
                    && old(self)@.sequence == u64::MAX,
            },
    {
        self.envelope(received_at_ms, CONTROL_KIND, control.to_json().as_str())
    }

    fn envelope(&mut self, received_at_ms: u64, kind: &str, raw: &str) -> (result: Result<
        Record,
        RecordError,
    >)
        ensures
            match result {
                Ok(record) => old(self)@.enveloped(received_at_ms, kind@, raw@) == Ok::<
                    RecordView,
                    RecordError,
                >(record@) && final(self)@ == (JournalView {
                    sequence: record@.sequence,
                    ..old(self)@
                }),
                Err(error) => final(self)@ == old(self)@ && error == RecordError::SequenceOverflow
                    && old(self)@.sequence == u64::MAX,
            },
    {
        if self.sequence == u64::MAX {
            return Err(RecordError::SequenceOverflow);
        }
        self.sequence = self.sequence + 1;
        let all: Vec<char> = text::chars(raw);
        let kept: String = if text::same(kind, "text") && all.len() > 0 && all[all.len() - 1]
            == '\n' {
            let out: String = text::collect(
                vstd::slice::slice_subrange(all.as_slice(), 0, all.len() - 1),
            );
            assert(out@ =~= raw@.drop_last());
            out
        } else {
            raw.to_owned()
        };
        Ok(
            Record {
                received_at_ms,
                sequence: self.sequence,
                kind: kind.to_owned(),
                raw: kept,
            },
        )
    }
}

// ---------------------------------------------------------------------------
// Laws
// ---------------------------------------------------------------------------

/// A venue payload is never mistaken for a lifecycle event, whatever it holds:
/// the tag is the envelope's kind.
pub proof fn only_the_kind_makes_a_control_envelope(
    journal: JournalView,
    received_at_ms: u64,
    kind: Seq<char>,
    raw: Seq<char>,
)
    requires
        kind != CONTROL_KIND@,
    ensures
        journal.enveloped(received_at_ms, kind, raw) matches Ok(record) ==> control_in(record)
            == Ok::<Option<ControlView>, RecordError>(None),
{
}

/// A payload that does not end in a line feed, or is not text, is recorded
/// whole.
pub proof fn recording_loses_at_most_one_line_feed(kind: Seq<char>, raw: Seq<char>)
    ensures
        recorded_raw(kind, raw) == raw || recorded_raw(kind, raw).push('\n') == raw,
        raw.len() == 0 || raw.last() != '\n' ==> recorded_raw(kind, raw) == raw,
{
    if recorded_raw(kind, raw) != raw {
        assert(raw.drop_last().push('\n') =~= raw);
    }
}

/// Sequence numbers only ever rise, one envelope after another and across a
/// restart that resumes above what a file already holds.
pub proof fn sequences_rise(
    journal: JournalView,
    received_at_ms: u64,
    kind: Seq<char>,
    raw: Seq<char>,
    held: u64,
)
    ensures
        ({
            let resumed = JournalView {
                sequence: if held > journal.sequence {
                    held
                } else {
                    journal.sequence
                },
                ..journal
            };
            resumed.enveloped(received_at_ms, kind, raw) matches Ok(record) ==> record.sequence
                > journal.sequence && record.sequence > held
        }),
{
}

} // verus!
