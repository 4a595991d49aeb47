//! A recorded daily file, played back. Each venue payload goes through the same
//! [`Parser::parse`] call the live feed makes, with the recorded receipt time;
//! control envelopes reproduce `Disconnected` and `Resubscribed` exactly where
//! the live feed emitted them. No credentials, no network.
//!
//! A daily file can hold several process runs. Each run begins with a
//! `session_started` control envelope; records before the first marker (files
//! recorded before markers existed) form one unmarked session.
//!
//! Which records are played and what each of them says is decided here; the
//! program reads the file and keeps the pace.
use vstd::prelude::*;
use crate::book;
use crate::feed::kalshi;
use crate::feed::kalshi::Parser;
use crate::feed::{EventView, FeedEvent};
use crate::metrics::{Metrics, MetricsView};
use crate::record;
use crate::record::{Control, ControlView, Record, RecordError, RecordView};
use crate::text;
use crate::types;
use crate::types::{Instrument, Venue};

pub mod laws;

verus! {

#[derive(Clone, Copy, Debug, PartialEq, Eq, Structural)]
pub enum Pace {
    /// Sleep recorded inter-arrival gaps, for latency measurement.
    Realtime,
    /// No sleeping, for regression runs.
    Max,
}

impl Default for Pace {
    fn default() -> (pace: Self)
        ensures
            pace == Pace::Max,
    {
        Pace::Max
    }
}

/// How far into a replay a record is due, in milliseconds after the first, if
/// the replay keeps a pace at all.
///
/// Anchoring on the first record avoids accumulating sleep overshoot. The time
/// never reaches an event or the replay clock.
pub fn due_ms(pace: Pace, first_ms: u64, received_at_ms: u64) -> (due: Option<u64>)
    ensures
        due == (if pace == Pace::Max {
            None
        } else if received_at_ms > first_ms {
            Some((received_at_ms - first_ms) as u64)
        } else {
            Some(0u64)
        }),
{
    if pace == Pace::Max {
        None
    } else {
        Some(received_at_ms.saturating_sub(first_ms))
    }
}

#[derive(Clone, Debug, PartialEq)]
pub struct ReplayOptions {
    /// Required for an unmarked session; must match the marker otherwise.
    pub tickers: Option<Vec<String>>,
    pub pace: Pace,
    /// 1-based session index; required when the file holds several.
    pub session: Option<usize>,
}

impl Default for ReplayOptions {
    fn default() -> (options: Self)
        ensures
            options.tickers is None,
            options.pace == Pace::Max,
            options.session is None,
    {
        ReplayOptions { tickers: None, pace: Pace::Max, session: None }
    }
}

// ---------------------------------------------------------------------------
// Sessions
// ---------------------------------------------------------------------------

#[derive(Clone, Debug, PartialEq)]
pub struct SessionInfo {
    pub index: usize,
    /// `None` for records written before session markers existed.
    pub environment: Option<String>,
    pub tickers: Option<Vec<String>>,
    pub first_received_at_ms: u64,
    pub records: u64,
}

/// What a [`SessionInfo`] says.
#[verifier::ext_equal]
pub struct SessionView {
    pub index: int,
    pub environment: Option<Seq<char>>,
    pub tickers: Option<Seq<Seq<char>>>,
    pub first_received_at_ms: u64,
    pub records: u64,
}

pub open spec fn text_view(text: Option<String>) -> Option<Seq<char>> {
    match text {
        Some(text) => Some(text@),
        None => None,
    }
}

pub open spec fn list_view(list: Option<Vec<String>>) -> Option<Seq<Seq<char>>> {
    match list {
        Some(list) => Some(text::views(list@)),
        None => None,
    }
}

impl View for SessionInfo {
    type V = SessionView;

    open spec fn view(&self) -> SessionView {
        SessionView {
            index: self.index as int,
            environment: text_view(self.environment),
            tickers: list_view(self.tickers),
            first_received_at_ms: self.first_received_at_ms,
            records: self.records,
        }
    }
}

pub open spec fn sessions_view(sessions: Seq<SessionInfo>) -> Seq<SessionView> {
    sessions.map_values(|session: SessionInfo| session@)
}

/// The sessions with a new one opened, where a record opens one: at a marker,
/// and at the first record of the file.
pub open spec fn opened(
    sessions: Seq<SessionView>,
    control: Option<ControlView>,
    received_at_ms: u64,
) -> Seq<SessionView> {
    let fresh = SessionView {
        index: (sessions.len() + 1) as int,
        environment: None,
        tickers: None,
        first_received_at_ms: received_at_ms,
        records: 0,
    };
    match control {
        Some(ControlView::SessionStarted { environment, tickers }) => sessions.push(
            SessionView { environment: Some(environment), tickers: Some(tickers), ..fresh },
        ),
        _ => if sessions.len() == 0 {
            sessions.push(fresh)
        } else {
            sessions
        },
    }
}

/// The sessions after one more record.
pub open spec fn noted(sessions: Seq<SessionView>, record: RecordView) -> Result<
    Seq<SessionView>,
    RecordError,
> {
    match record::control_in(record) {
        Err(error) => Err(error),
        Ok(control) => {
            let open = opened(sessions, control, record.received_at_ms);
            let last = open.last();
            Ok(open.drop_last().push(SessionView { records: (last.records + 1) as u64, ..last }))
        },
    }
}

pub open spec fn control_view(control: Option<Control>) -> Option<ControlView> {
    match control {
        Some(control) => Some(control@),
        None => None,
    }
}

/// Count one more record towards the sessions of a file.
///
/// Noting every record of a file also proves that the whole of it decodes
/// before replay yields anything.
pub fn note(sessions: &mut Vec<SessionInfo>, record: &Record) -> (result: Result<(), RecordError>)
    requires
        old(sessions)@.len() < usize::MAX,
        forall|i: int| 0 <= i < old(sessions)@.len() ==> (#[trigger] old(sessions)@[i]).records
            < u64::MAX,
    ensures
        match result {
            Ok(()) => noted(sessions_view(old(sessions)@), record@) == Ok::<
                Seq<SessionView>,
                RecordError,
            >(sessions_view(final(sessions)@)),
            Err(error) => noted(sessions_view(old(sessions)@), record@) == Err::<
                Seq<SessionView>,
                RecordError,
            >(error) && final(sessions)@ == old(sessions)@,
        },
{
    let ghost before = sessions_view(sessions@);
    let control: Option<Control> = match record.control() {
        Ok(control) => control,
        Err(error) => return Err(error),
    };
    let ghost seen = control_view(control);
    let index: usize = sessions.len() + 1;
    match control {
        Some(Control::SessionStarted { environment, tickers }) => {
            sessions.push(
                SessionInfo {
                    index,
                    environment: Some(environment),
                    tickers: Some(tickers),
                    first_received_at_ms: record.received_at_ms,
                    records: 0,
                },
            );
        },
        _ => if sessions.len() == 0 {
            sessions.push(
                SessionInfo {
                    index,
                    environment: None,
                    tickers: None,
                    first_received_at_ms: record.received_at_ms,
                    records: 0,
                },
            );
        },
    }
    assert(sessions_view(sessions@) =~= opened(before, seen, record.received_at_ms));
    let last: usize = sessions.len() - 1;
    let ghost held = sessions@;
    sessions[last].records = sessions[last].records + 1;
    proof {
        let open = sessions_view(held);
        assert(open.last() == held[last as int]@);
        assert(sessions_view(sessions@) =~= open.drop_last().push(
            SessionView { records: (open.last().records + 1) as u64, ..open.last() },
        ));
    }
    Ok(())
}

pub open spec fn records_view(records: Seq<Record>) -> Seq<RecordView> {
    records.map_values(|record: Record| record@)
}

/// The sessions of the records of a file, or why one of them does not decode.
pub open spec fn sessions_of(records: Seq<RecordView>) -> Result<Seq<SessionView>, RecordError>
    decreases records.len(),
{
    if records.len() == 0 {
        Ok(Seq::empty())
    } else {
        match sessions_of(records.drop_last()) {
            Ok(before) => noted(before, records.last()),
            Err(error) => Err(error),
        }
    }
}

proof fn lemma_sessions_stop(records: Seq<RecordView>, n: int, error: RecordError)
    requires
        0 <= n <= records.len(),
        sessions_of(records.subrange(0, n)) == Err::<Seq<SessionView>, RecordError>(error),
    ensures
        sessions_of(records) == Err::<Seq<SessionView>, RecordError>(error),
    decreases records.len(),
{
    if n == records.len() {
        assert(records.subrange(0, n) =~= records);
    } else {
        assert(records.drop_last().subrange(0, n) =~= records.subrange(0, n));
        lemma_sessions_stop(records.drop_last(), n, error);
    }
}

/// Session boundaries in file order.
pub fn sessions(records: &[Record]) -> (result: Result<Vec<SessionInfo>, RecordError>)
    ensures
        match result {
            Ok(sessions) => sessions_of(records_view(records@)) == Ok::<
                Seq<SessionView>,
                RecordError,
            >(sessions_view(sessions@)),
            Err(error) => sessions_of(records_view(records@)) == Err::<
                Seq<SessionView>,
                RecordError,
            >(error),
        },
{
    let ghost all = records_view(records@);
    let mut sessions: Vec<SessionInfo> = Vec::new();
    let mut i: usize = 0;
    assert(sessions_view(sessions@) =~= Seq::<SessionView>::empty());
    while i < records.len()
        invariant
            i <= records@.len(),
            all == records_view(records@),
            sessions@.len() <= i,
            forall|k: int|
                0 <= k < sessions@.len() ==> (#[trigger] sessions@[k]).records <= i,
            sessions_of(all.subrange(0, i as int)) == Ok::<Seq<SessionView>, RecordError>(
                sessions_view(sessions@),
            ),
        decreases records@.len() - i,
    {
        let ghost before = sessions@;
        let ghost next = all.subrange(0, i + 1);
        proof {
            assert(next.drop_last() =~= all.subrange(0, i as int));
            assert(next.last() == records@[i as int]@);
        }
        match note(&mut sessions, &records[i]) {
            Ok(()) => {},
            Err(error) => {
                proof {
                    lemma_sessions_stop(all, i + 1, error);
                }
                return Err(error);
            },
        }
        proof {
            let views = sessions_view(sessions@);
            let held = sessions_view(before);
            let control = record::control_in(next.last())->Ok_0;
            let open = opened(held, control, next.last().received_at_ms);
            let last = open.last();
            assert(noted(held, next.last()) == Ok::<Seq<SessionView>, RecordError>(views));
            assert(views == open.drop_last().push(
                SessionView { records: (last.records + 1) as u64, ..last },
            ));
            assert(open.len() > 0) by {
                assert(control matches Some(ControlView::SessionStarted { .. }) || held.len() > 0
                    || open.len() == held.len() + 1);
            }
            assert(views.len() == sessions@.len());
            assert forall|k: int| 0 <= k < open.len() implies (
            #[trigger] open[k]).records <= i by {
                if k < held.len() {
                    assert(held[k].records == before[k].records);
                }
            }
            assert forall|k: int| 0 <= k < sessions@.len() implies (
            #[trigger] sessions@[k]).records <= i + 1 by {
                assert(views[k].records == sessions@[k].records);
                assert(open[k].records <= i);
            }
            assert(views.len() == sessions@.len());
        }
        i = i + 1;
    }
    assert(all.subrange(0, all.len() as int) =~= all);
    Ok(sessions)
}

/// Why a file cannot be replayed, or stopped being.
#[derive(Clone, Debug, PartialEq)]
pub enum ReplayError {
    NoRecords,
    SessionOutOfRange { index: usize, sessions: usize },
    /// The file holds several sessions and none was chosen: how many, and what
    /// they are.
    SeveralSessions { sessions: usize, listing: String },
    TickersDiffer { given: Vec<String>, recorded: Vec<String> },
    Unmarked { session: usize },
    NoTickers,
    TooManyTickers,
    Envelope(RecordError),
    UnknownResubscription { sequence: u64, ticker: String },
    UnknownKind { sequence: u64, kind: String },
}

/// What a [`ReplayError`] says.
#[verifier::ext_equal]
pub enum ReplayErrorView {
    NoRecords,
    SessionOutOfRange { index: int, sessions: int },
    SeveralSessions { sessions: int, listing: Seq<char> },
    TickersDiffer { given: Seq<Seq<char>>, recorded: Seq<Seq<char>> },
    Unmarked { session: int },
    NoTickers,
    TooManyTickers,
    Envelope(RecordError),
    UnknownResubscription { sequence: u64, ticker: Seq<char> },
    UnknownKind { sequence: u64, kind: Seq<char> },
}

impl View for ReplayError {
    type V = ReplayErrorView;

    open spec fn view(&self) -> ReplayErrorView {
        match self {
            ReplayError::NoRecords => ReplayErrorView::NoRecords,
            ReplayError::SessionOutOfRange { index, sessions } =>
                ReplayErrorView::SessionOutOfRange {
                    index: *index as int,
                    sessions: *sessions as int,
                },
            ReplayError::SeveralSessions { sessions, listing } =>
                ReplayErrorView::SeveralSessions { sessions: *sessions as int, listing: listing@ },
            ReplayError::TickersDiffer { given, recorded } => ReplayErrorView::TickersDiffer {
                given: text::views(given@),
                recorded: text::views(recorded@),
            },
            ReplayError::Unmarked { session } => ReplayErrorView::Unmarked {
                session: *session as int,
            },
            ReplayError::NoTickers => ReplayErrorView::NoTickers,
            ReplayError::TooManyTickers => ReplayErrorView::TooManyTickers,
            ReplayError::Envelope(error) => ReplayErrorView::Envelope(*error),
            ReplayError::UnknownResubscription { sequence, ticker } =>
                ReplayErrorView::UnknownResubscription { sequence: *sequence, ticker: ticker@ },
            ReplayError::UnknownKind { sequence, kind } => ReplayErrorView::UnknownKind {
                sequence: *sequence,
                kind: kind@,
            },
        }
    }
}

/// The `Debug` format of a list of strings.
pub open spec fn debug_list(strings: Seq<Seq<char>>) -> Seq<char> {
    "["@ + debug_items(strings, strings.len() as int) + "]"@
}

pub open spec fn debug_items(strings: Seq<Seq<char>>, n: int) -> Seq<char>
    decreases n,
{
    if n <= 0 {
        Seq::empty()
    } else {
        debug_items(strings, n - 1) + (if n > 1 {
            ", "@
        } else {
            ""@
        }) + text::debug_text(strings[n - 1])
    }
}

fn push_debug_list(out: &mut String, strings: &[String])
    ensures
        final(out)@ == old(out)@ + debug_list(text::views(strings@)),
{
    let ghost all = text::views(strings@);
    let ghost start = out@;
    let mut items: String = String::new();
    let mut i: usize = 0;
    assert(items@ =~= debug_items(all, 0));
    while i < strings.len()
        invariant
            i <= strings@.len(),
            all == text::views(strings@),
            items@ == debug_items(all, i as int),
        decreases strings@.len() - i,
    {
        if i > 0 {
            items.append(", ");
        } else {
            items.append("");
        }
        assert(all[i as int] == strings@[i as int]@);
        items.append(text::quoted(strings[i].as_str()).as_str());
        i = i + 1;
    }
    out.append("[");
    out.append(items.as_str());
    out.append("]");
    assert(out@ =~= start + debug_list(all));
}

/// One session as a listing shows it.
pub open spec fn session_line(session: SessionView) -> Seq<char> {
    "  "@ + text::decimal(session.index as nat) + ": "@ + text::decimal(session.records as nat)
        + " records from "@ + text::decimal(session.first_received_at_ms as nat) + (
    match session.tickers {
        Some(tickers) => " ms, "@ + (match session.environment {
            Some(environment) => environment,
            None => "?"@,
        }) + " "@ + debug_list(tickers),
        None => " ms, unmarked (recorded before session markers)"@,
    })
}

/// The first `n` sessions as a listing shows them, a line each.
pub open spec fn listing(sessions: Seq<SessionView>, n: int) -> Seq<char>
    decreases n,
{
    if n <= 0 {
        Seq::empty()
    } else {
        listing(sessions, n - 1) + (if n > 1 {
            "\n"@
        } else {
            ""@
        }) + session_line(sessions[n - 1])
    }
}

/// A listing of sessions, a line each.
pub fn describe(sessions: &[SessionInfo]) -> (out: String)
    ensures
        out@ == listing(sessions_view(sessions@), sessions@.len() as int),
{
    let ghost all = sessions_view(sessions@);
    let mut out: String = String::new();
    let mut i: usize = 0;
    assert(out@ =~= listing(all, 0));
    while i < sessions.len()
        invariant
            i <= sessions@.len(),
            all == sessions_view(sessions@),
            out@ == listing(all, i as int),
        decreases sessions@.len() - i,
    {
        let session: &SessionInfo = &sessions[i];
        assert(all[i as int] == session@);
        let ghost before = out@;
        if i > 0 {
            out.append("\n");
        } else {
            out.append("");
        }
        let ghost broken = out@;
        let mut line: String = String::from_str("  ");
        text::push_u64(&mut line, session.index as u64);
        line.append(": ");
        text::push_u64(&mut line, session.records);
        line.append(" records from ");
        text::push_u64(&mut line, session.first_received_at_ms);
        let ghost head = line@;
        match &session.tickers {
            Some(tickers) => {
                let mut rest: String = String::from_str(" ms, ");
                match &session.environment {
                    Some(environment) => rest.append(environment.as_str()),
                    None => rest.append("?"),
                }
                rest.append(" ");
                push_debug_list(&mut rest, tickers.as_slice());
                line.append(rest.as_str());
            },
            None => {
                line.append(" ms, unmarked (recorded before session markers)");
            },
        }
        assert(line@ =~= session_line(all[i as int]));
        out.append(line.as_str());
        i = i + 1;
    }
    out
}

impl ReplayError {
    /// What went wrong, of a file.
    pub fn message(&self, path: &str) -> (out: String)
        ensures
            out@ == replay_error_message(self@, path@),
    {
        match self {
            ReplayError::NoRecords => {
                let mut out: String = path.to_owned();
                out.append(" contains no records");
                out
            },
            ReplayError::SessionOutOfRange { index, sessions } => {
                let mut out: String = String::from_str("session ");
                text::push_u64(&mut out, *index as u64);
                out.append(" out of range; ");
                out.append(path);
                out.append(" has ");
                text::push_u64(&mut out, *sessions as u64);
                out.append(" session(s)");
                out
            },
            ReplayError::SeveralSessions { sessions, listing } => {
                let mut out: String = path.to_owned();
                out.append(" holds ");
                text::push_u64(&mut out, *sessions as u64);
                out.append(" sessions; choose one with --session:\n");
                out.append(listing.as_str());
                out
            },
            ReplayError::TickersDiffer { given, recorded } => {
                let mut out: String = String::from_str("--tickers ");
                push_debug_list(&mut out, given.as_slice());
                out.append(" differ from the recorded session tickers ");
                push_debug_list(&mut out, recorded.as_slice());
                out
            },
            ReplayError::Unmarked { session } => {
                let mut out: String = String::from_str("session ");
                text::push_u64(&mut out, *session as u64);
                out.append(" predates session markers; pass --tickers as recorded");
                out
            },
            ReplayError::NoTickers => String::from_str("at least one nonempty ticker is required"),
            ReplayError::TooManyTickers => String::from_str("too many tickers"),
            ReplayError::Envelope(error) => error.message(),
            ReplayError::UnknownResubscription { sequence, ticker } => {
                let mut out: String = String::from_str("record ");
                text::push_u64(&mut out, *sequence);
                out.append(": resubscribed unknown ");
                out.append(ticker.as_str());
                out
            },
            ReplayError::UnknownKind { sequence, kind } => {
                let mut out: String = String::from_str("record ");
                text::push_u64(&mut out, *sequence);
                out.append(": unknown envelope kind ");
                out.append(text::quoted(kind.as_str()).as_str());
                out
            },
        }
    }
}

/// The message of a [`ReplayError`] of a file.
pub open spec fn replay_error_message(error: ReplayErrorView, path: Seq<char>) -> Seq<char> {
    match error {
        ReplayErrorView::NoRecords => path + " contains no records"@,
        ReplayErrorView::SessionOutOfRange { index, sessions } => "session "@ + text::decimal(
            index as nat,
        ) + " out of range; "@ + path + " has "@ + text::decimal(sessions as nat)
            + " session(s)"@,
        ReplayErrorView::SeveralSessions { sessions, listing } => path + " holds "@ + text::decimal(
            sessions as nat,
        ) + " sessions; choose one with --session:\n"@ + listing,
        ReplayErrorView::TickersDiffer { given, recorded } => "--tickers "@ + debug_list(given)
            + " differ from the recorded session tickers "@ + debug_list(recorded),
        ReplayErrorView::Unmarked { session } => "session "@ + text::decimal(session as nat)
            + " predates session markers; pass --tickers as recorded"@,
        ReplayErrorView::NoTickers => "at least one nonempty ticker is required"@,
        ReplayErrorView::TooManyTickers => "too many tickers"@,
        ReplayErrorView::Envelope(error) => record::record_error_message(error),
        ReplayErrorView::UnknownResubscription { sequence, ticker } => "record "@ + text::decimal(
            sequence as nat,
        ) + ": resubscribed unknown "@ + ticker,
        ReplayErrorView::UnknownKind { sequence, kind } => "record "@ + text::decimal(
            sequence as nat,
        ) + ": unknown envelope kind "@ + text::debug_text(kind),
    }
}

/// The session to play, counted from one.
pub open spec fn chosen(sessions: Seq<SessionView>, wanted: Option<usize>) -> Result<
    int,
    ReplayErrorView,
> {
    if sessions.len() == 0 {
        Err(ReplayErrorView::NoRecords)
    } else {
        match wanted {
            Some(index) => if 1 <= index <= sessions.len() {
                Ok(index as int)
            } else {
                Err(
                    ReplayErrorView::SessionOutOfRange {
                        index: index as int,
                        sessions: sessions.len() as int,
                    },
                )
            },
            None => if sessions.len() == 1 {
                Ok(1)
            } else {
                Err(
                    ReplayErrorView::SeveralSessions {
                        sessions: sessions.len() as int,
                        listing: listing(sessions, sessions.len() as int),
                    },
                )
            },
        }
    }
}

/// The tickers to play: those given, those recorded, and where both are there
/// the two must name the same markets.
pub open spec fn agreed(
    given: Option<Seq<Seq<char>>>,
    recorded: Option<Seq<Seq<char>>>,
    session: int,
) -> Result<Seq<Seq<char>>, ReplayErrorView> {
    let tickers = match (given, recorded) {
        (Some(given), Some(recorded)) => if given.to_set() == recorded.to_set() {
            Ok(given)
        } else {
            Err(ReplayErrorView::TickersDiffer { given, recorded })
        },
        (Some(given), None) => Ok(given),
        (None, Some(recorded)) => Ok(recorded),
        (None, None) => Err(ReplayErrorView::Unmarked { session }),
    };
    match tickers {
        Err(error) => Err(error),
        Ok(tickers) => if kalshi::usable(tickers) {
            Ok(tickers)
        } else {
            Err(ReplayErrorView::NoTickers)
        },
    }
}

/// The session and the tickers of a replay.
pub open spec fn selection(
    sessions: Seq<SessionView>,
    given: Option<Seq<Seq<char>>>,
    wanted: Option<usize>,
) -> Result<(int, Seq<Seq<char>>), ReplayErrorView> {
    match chosen(sessions, wanted) {
        Err(error) => Err(error),
        Ok(session) => match agreed(given, sessions[session - 1].tickers, session) {
            Err(error) => Err(error),
            Ok(tickers) => Ok((session, tickers)),
        },
    }
}

/// Whether every string of one list is in another.
fn all_in(these: &[String], those: &[String]) -> (yes: bool)
    ensures
        yes == text::views(these@).to_set().subset_of(text::views(those@).to_set()),
{
    let ghost a = text::views(these@);
    let ghost b = text::views(those@);
    let mut i: usize = 0;
    while i < these.len()
        invariant
            i <= these@.len(),
            a == text::views(these@),
            b == text::views(those@),
            forall|k: int| 0 <= k < i ==> b.contains(#[trigger] a[k]),
        decreases these@.len() - i,
    {
        assert(a[i as int] == these@[i as int]@);
        if !text::holds(those, these[i].as_str()) {
            assert(a.to_set().contains(a[i as int]) && !b.to_set().contains(a[i as int]));
            return false;
        }
        i = i + 1;
    }
    assert forall|x: Seq<char>| a.to_set().contains(x) implies b.to_set().contains(x) by {
        let k = choose|k: int| 0 <= k < a.len() && a[k] == x;
        assert(b.contains(a[k]));
    }
    true
}

/// The session a replay plays and the tickers it plays it for.
#[derive(Clone, Debug, PartialEq)]
pub struct Selection {
    pub session: usize,
    pub tickers: Vec<String>,
}

/// Choose the session and the tickers of a replay.
pub fn select(sessions: &[SessionInfo], options: &ReplayOptions) -> (result: Result<
    Selection,
    ReplayError,
>)
    ensures
        ({
            let outcome = selection(
                sessions_view(sessions@),
                list_view(options.tickers),
                options.session,
            );
            match result {
                Ok(chosen) => outcome == Ok::<(int, Seq<Seq<char>>), ReplayErrorView>(
                    (chosen.session as int, text::views(chosen.tickers@)),
                ) && 1 <= chosen.session <= sessions@.len(),
                Err(error) => outcome == Err::<(int, Seq<Seq<char>>), ReplayErrorView>(error@),
            }
        }),
{
    let ghost all = sessions_view(sessions@);
    if sessions.len() == 0 {
        return Err(ReplayError::NoRecords);
    }
    let session: usize = match options.session {
        Some(index) => if 1 <= index && index <= sessions.len() {
            index
        } else {
            return Err(ReplayError::SessionOutOfRange { index, sessions: sessions.len() });
        },
        None => if sessions.len() == 1 {
            1
        } else {
            return Err(
                ReplayError::SeveralSessions {
                    sessions: sessions.len(),
                    listing: describe(sessions),
                },
            );
        },
    };
    assert(all[session - 1] == sessions@[session - 1]@);
    let tickers: Vec<String> = match (&options.tickers, &sessions[session - 1].tickers) {
        (Some(given), Some(recorded)) => {
            if !(all_in(given.as_slice(), recorded.as_slice()) && all_in(
                recorded.as_slice(),
                given.as_slice(),
            )) {
                return Err(
                    ReplayError::TickersDiffer {
                        given: text::copies(given.as_slice()),
                        recorded: text::copies(recorded.as_slice()),
                    },
                );
            }
            assert(text::views(given@).to_set() =~= text::views(recorded@).to_set());
            text::copies(given.as_slice())
        },
        (Some(given), None) => text::copies(given.as_slice()),
        (None, Some(recorded)) => text::copies(recorded.as_slice()),
        (None, None) => return Err(ReplayError::Unmarked { session }),
    };
    if !kalshi::usable_tickers(tickers.as_slice()) {
        return Err(ReplayError::NoTickers);
    }
    Ok(Selection { session, tickers })
}

// ---------------------------------------------------------------------------
// Playing
// ---------------------------------------------------------------------------

/// What one record of a file comes to.
#[derive(Clone, Debug, PartialEq)]
pub enum Played {
    /// The record is of an earlier session.
    Skipped,
    /// The record is of a later session: the replay is over.
    Finished,
    /// The events of the record, in order.
    Events(Vec<FeedEvent>),
}

/// What a [`Played`] says.
#[verifier::ext_equal]
pub enum PlayedView {
    Skipped,
    Finished,
    Events(Seq<EventView>),
}

impl View for Played {
    type V = PlayedView;

    open spec fn view(&self) -> PlayedView {
        match self {
            Played::Skipped => PlayedView::Skipped,
            Played::Finished => PlayedView::Finished,
            Played::Events(events) => PlayedView::Events(kalshi::events_view(events@)),
        }
    }
}

pub struct ReplayFeed {
    parser: Parser,
    tickers: Vec<String>,
    selected: usize,
    /// Session of the most recently read record; 0 before the first record.
    current: usize,
}

/// What a [`ReplayFeed`] holds.
#[verifier::ext_equal]
pub struct ReplayView {
    pub names: Seq<Instrument>,
    pub metrics: MetricsView,
    pub venue: Venue,
    pub tickers: Seq<Seq<char>>,
    pub selected: int,
    pub current: int,
}

impl View for ReplayFeed {
    type V = ReplayView;

    closed spec fn view(&self) -> ReplayView {
        ReplayView {
            names: self.parser.contracts@,
            metrics: self.parser.metrics@,
            venue: self.parser.venue,
            tickers: text::views(self.tickers@),
            selected: self.selected as int,
            current: self.current as int,
        }
    }
}

/// The contract of the first ticker that has none, if there is one.
pub open spec fn unknown_ticker(names: Seq<Instrument>, venue: Venue, tickers: Seq<Seq<char>>) -> Option<
    Seq<char>,
>
    decreases tickers.len(),
{
    if tickers.len() == 0 {
        None
    } else {
        match unknown_ticker(names, venue, tickers.drop_last()) {
            Some(ticker) => Some(ticker),
            None => if types::lookup(names, venue, tickers.last()) is None {
                Some(tickers.last())
            } else {
                None
            },
        }
    }
}

/// One resubscription for each ticker, in order.
pub open spec fn resubscriptions(names: Seq<Instrument>, venue: Venue, tickers: Seq<Seq<char>>) -> Seq<
    EventView,
> {
    tickers.map_values(
        |ticker: Seq<char>|
            EventView::Resubscribed { contract: types::lookup(names, venue, ticker)->0 },
    )
}

/// A kind that the live feed records and never parses.
pub open spec fn is_silent(kind: Seq<char>) -> bool {
    kind == "binary_base64"@ || kind == "ping_base64"@ || kind == "pong_base64"@ || kind
        == "close_base64"@
}

impl ReplayView {
    /// No counter that a record raises is full.
    pub open spec fn has_room(self) -> bool {
        &&& self.metrics.has_room()
        &&& self.metrics.messages_received < u64::MAX
        &&& self.metrics.reconnections < u64::MAX
    }

    /// What a lifecycle event comes to.
    pub open spec fn lifecycle(self, control: ControlView, sequence: u64) -> (
        ReplayView,
        Result<Seq<EventView>, ReplayErrorView>,
    ) {
        match control {
            ControlView::SessionStarted { .. } => (self, Ok(Seq::empty())),
            ControlView::Reconnected { .. } => (self, Ok(Seq::empty())),
            ControlView::Disconnected { .. } => (
                self,
                Ok(seq![EventView::Disconnected { venue: self.venue }]),
            ),
            ControlView::Resubscribed { tickers } => {
                // The live feed counts one reconnection per envelope it writes
                // here, so counting one per envelope read reproduces its figure.
                let counted = ReplayView {
                    metrics: MetricsView {
                        reconnections: (self.metrics.reconnections + 1) as u64,
                        ..self.metrics
                    },
                    ..self
                };
                (
                    counted,
                    match unknown_ticker(self.names, self.venue, tickers) {
                        Some(ticker) => Err(
                            ReplayErrorView::UnknownResubscription { sequence, ticker },
                        ),
                        None => Ok(resubscriptions(self.names, self.venue, tickers)),
                    },
                )
            },
        }
    }

    /// What a venue payload comes to.
    pub open spec fn payload(self, record: RecordView) -> (
        ReplayView,
        Result<Seq<EventView>, ReplayErrorView>,
    ) {
        let counted = MetricsView {
            messages_received: (self.metrics.messages_received + 1) as u64,
            ..self.metrics
        };
        if record.kind == "text"@ {
            let (metrics, event) = kalshi::heard(
                counted,
                self.names,
                kalshi::frame_in(record.raw),
                record.received_at_ms,
            );
            (
                ReplayView { metrics, ..self },
                Ok(
                    match event {
                        Some(event) => seq![event],
                        None => Seq::empty(),
                    },
                ),
            )
        } else {
            (
                ReplayView { metrics: counted, ..self },
                if is_silent(record.kind) {
                    Ok(Seq::empty())
                } else {
                    Err(
                        ReplayErrorView::UnknownKind {
                            sequence: record.sequence,
                            kind: record.kind,
                        },
                    )
                },
            )
        }
    }

    /// What one record comes to.
    pub open spec fn played(self, record: RecordView) -> (
        ReplayView,
        Result<PlayedView, ReplayErrorView>,
    ) {
        match record::control_in(record) {
            Err(error) => (self, Err(ReplayErrorView::Envelope(error))),
            Ok(control) => {
                let opens = self.current == 0 || (control matches Some(marker)
                    && marker is SessionStarted);
                let at = ReplayView {
                    current: if opens {
                        self.current + 1
                    } else {
                        self.current
                    },
                    ..self
                };
                if at.current < at.selected {
                    (at, Ok(PlayedView::Skipped))
                } else if at.current > at.selected {
                    (at, Ok(PlayedView::Finished))
                } else {
                    let (after, events) = match control {
                        Some(control) => at.lifecycle(control, record.sequence),
                        None => at.payload(record),
                    };
                    (
                        after,
                        match events {
                            Ok(events) => Ok(PlayedView::Events(events)),
                            Err(error) => Err(error),
                        },
                    )
                }
            },
        }
    }
}

impl ReplayFeed {
    /// Play a session of a file for a list of tickers.
    pub fn new(selection: Selection) -> (result: Result<Self, ReplayError>)
        ensures
            match result {
                Ok(feed) => feed@ == (ReplayView {
                    names: book::interned_all(
                        book::listed(Venue::Kalshi, selection.tickers@),
                    ),
                    metrics: MetricsView::zero(),
                    venue: Venue::Kalshi,
                    tickers: text::views(selection.tickers@),
                    selected: selection.session as int,
                    current: 0,
                }),
                Err(error) => error@ == ReplayErrorView::TooManyTickers && book::interned_all(
                    book::listed(Venue::Kalshi, selection.tickers@),
                ).len() > 0x1_0000_0000,
            },
    {
        let parser: Parser = match Parser::new(selection.tickers.as_slice()) {
            Ok(parser) => parser,
            Err(_) => return Err(ReplayError::TooManyTickers),
        };
        Ok(
            ReplayFeed {
                parser,
                tickers: selection.tickers,
                selected: selection.session,
                current: 0,
            },
        )
    }

    /// Tickers in parser interning order; build the book store from these.
    pub fn tickers(&self) -> (tickers: &[String])
        ensures
            text::views(tickers@) == self@.tickers,
    {
        self.tickers.as_slice()
    }

    /// The venue this recording came from, which is the one its parser speaks.
    pub fn venue(&self) -> (venue: Venue)
        ensures
            venue == self@.venue,
    {
        self.parser.venue
    }

    /// The parser's counters. They are a function of the recorded bytes, so a
    /// dashboard driven by a replay shows exactly what the live run showed.
    pub fn metrics(&self) -> (metrics: Metrics)
        ensures
            metrics@ == self@.metrics,
    {
        self.parser.metrics
    }

    /// Play one record.
    pub fn play(&mut self, record: &Record) -> (result: Result<Played, ReplayError>)
        requires
            old(self)@.has_room(),
            old(self)@.current < usize::MAX,
        ensures
            ({
                let outcome = old(self)@.played(record@);
                final(self)@ == outcome.0 && match result {
                    Ok(played) => outcome.1 == Ok::<PlayedView, ReplayErrorView>(played@),
                    Err(error) => outcome.1 == Err::<PlayedView, ReplayErrorView>(error@),
                }
            }),
    {
        let control: Option<Control> = match record.control() {
            Ok(control) => control,
            Err(error) => return Err(ReplayError::Envelope(error)),
        };
        let marker: bool = match &control {
            Some(Control::SessionStarted { .. }) => true,
            _ => false,
        };
        if marker || self.current == 0 {
            self.current = self.current + 1;
        }
        if self.current < self.selected {
            return Ok(Played::Skipped);
        }
        if self.current > self.selected {
            return Ok(Played::Finished);
        }
        let events: Result<Vec<FeedEvent>, ReplayError> = match control {
            Some(control) => self.play_control(control, record.sequence),
            None => self.play_payload(record),
        };
        match events {
            Ok(events) => Ok(Played::Events(events)),
            Err(error) => Err(error),
        }
    }

    fn play_control(&mut self, control: Control, sequence: u64) -> (result: Result<
        Vec<FeedEvent>,
        ReplayError,
    >)
        requires
            old(self)@.has_room(),
        ensures
            ({
                let outcome = old(self)@.lifecycle(control@, sequence);
                final(self)@ == outcome.0 && match result {
                    Ok(events) => outcome.1 == Ok::<Seq<EventView>, ReplayErrorView>(
                        kalshi::events_view(events@),
                    ),
                    Err(error) => outcome.1 == Err::<Seq<EventView>, ReplayErrorView>(error@),
                }
            }),
    {
        let mut events: Vec<FeedEvent> = Vec::new();
        assert(kalshi::events_view(events@) =~= Seq::<EventView>::empty());
        match control {
            Control::SessionStarted { .. } => Ok(events),
            Control::Reconnected { .. } => Ok(events),
            Control::Disconnected { .. } => {
                events.push(FeedEvent::Disconnected { venue: self.parser.venue });
                assert(kalshi::events_view(events@) =~= seq![
                    EventView::Disconnected { venue: self@.venue },
                ]);
                Ok(events)
            },
            Control::Resubscribed { tickers } => {
                self.parser.metrics.reconnections = self.parser.metrics.reconnections + 1;
                self.resubscribe(tickers.as_slice(), sequence)
            },
        }
    }

    fn resubscribe(&self, tickers: &[String], sequence: u64) -> (result: Result<
        Vec<FeedEvent>,
        ReplayError,
    >)
        ensures
            ({
                let all = text::views(tickers@);
                match result {
                    Ok(events) => unknown_ticker(self@.names, self@.venue, all) is None
                        && kalshi::events_view(events@) == resubscriptions(
                        self@.names,
                        self@.venue,
                        all,
                    ),
                    Err(error) => unknown_ticker(self@.names, self@.venue, all) matches Some(ticker)
                        && error@ == ReplayErrorView::UnknownResubscription { sequence, ticker },
                }
            }),
    {
        let ghost all = text::views(tickers@);
        let ghost names = self@.names;
        let venue: Venue = self.parser.venue;
        let mut events: Vec<FeedEvent> = Vec::new();
        let mut i: usize = 0;
        assert(all.subrange(0, 0) =~= Seq::<Seq<char>>::empty());
        while i < tickers.len()
            invariant
                i <= tickers@.len(),
                all == text::views(tickers@),
                names == self@.names,
                venue == self@.venue,
                unknown_ticker(names, venue, all.subrange(0, i as int)) is None,
                events@.len() == i,
                forall|k: int|
                    0 <= k < i ==> (#[trigger] events@[k])@ == resubscriptions(
                        names,
                        venue,
                        all,
                    )[k],
            decreases tickers@.len() - i,
        {
            proof {
                assert(all.subrange(0, i + 1).drop_last() =~= all.subrange(0, i as int));
                assert(all.subrange(0, i + 1).last() == tickers@[i as int]@);
            }
            match self.parser.contracts.get(venue, tickers[i].as_str()) {
                Some(contract) => events.push(FeedEvent::Resubscribed { contract }),
                None => {
                    proof {
                        lemma_unknown_stays(names, venue, all, i + 1);
                    }
                    return Err(
                        ReplayError::UnknownResubscription {
                            sequence,
                            ticker: tickers[i].as_str().to_owned(),
                        },
                    );
                },
            }
            i = i + 1;
        }
        assert(all.subrange(0, all.len() as int) =~= all);
        assert(kalshi::events_view(events@) =~= resubscriptions(names, venue, all));
        Ok(events)
    }

    fn play_payload(&mut self, record: &Record) -> (result: Result<Vec<FeedEvent>, ReplayError>)
        requires
            old(self)@.has_room(),
        ensures
            ({
                let outcome = old(self)@.payload(record@);
                final(self)@ == outcome.0 && match result {
                    Ok(events) => outcome.1 == Ok::<Seq<EventView>, ReplayErrorView>(
                        kalshi::events_view(events@),
                    ),
                    Err(error) => outcome.1 == Err::<Seq<EventView>, ReplayErrorView>(error@),
                }
            }),
    {
        let mut events: Vec<FeedEvent> = Vec::new();
        assert(kalshi::events_view(events@) =~= Seq::<EventView>::empty());
        self.parser.metrics.messages_received = self.parser.metrics.messages_received + 1;
        let kind: &str = record.kind.as_str();
        if text::same(kind, "text") {
            // Identical call to the live feed: raw text plus receipt time.
            if let Some(event) = self.parser.parse(record.raw.as_str(), record.received_at_ms) {
                events.push(event);
                assert(kalshi::events_view(events@) =~= seq![event@]);
            }
            Ok(events)
        } else if text::same(kind, "binary_base64") || text::same(kind, "ping_base64")
            || text::same(kind, "pong_base64") || text::same(kind, "close_base64") {
            // The live feed records these but never parses them.
            Ok(events)
        } else {
            Err(
                ReplayError::UnknownKind {
                    sequence: record.sequence,
                    kind: kind.to_owned(),
                },
            )
        }
    }
}

proof fn lemma_unknown_stays(names: Seq<Instrument>, venue: Venue, tickers: Seq<Seq<char>>, n: int)
    requires
        0 <= n <= tickers.len(),
        unknown_ticker(names, venue, tickers.subrange(0, n)) is Some,
    ensures
        unknown_ticker(names, venue, tickers) == unknown_ticker(
            names,
            venue,
            tickers.subrange(0, n),
        ),
    decreases tickers.len(),
{
    if n == tickers.len() {
        assert(tickers.subrange(0, n) =~= tickers);
    } else {
        assert(tickers.drop_last().subrange(0, n) =~= tickers.subrange(0, n));
        lemma_unknown_stays(names, venue, tickers.drop_last(), n);
    }
}

// ---------------------------------------------------------------------------
// Laws
// ---------------------------------------------------------------------------

/// A frame that was recorded is replayed as it was heard: the same counters and
/// the same event, given the same receipt time.
pub proof fn a_recorded_frame_replays_as_it_was_heard(
    feed: ReplayView,
    journal: record::JournalView,
    raw: Seq<char>,
    received_at_ms: u64,
)
    requires
        raw.len() == 0 || raw.last() != '\n',
        feed.current == feed.selected,
        feed.current > 0,
        journal.enveloped(received_at_ms, "text"@, raw) is Ok,
    ensures
        ({
            let envelope = journal.enveloped(received_at_ms, "text"@, raw)->Ok_0;
            let (after, played) = feed.played(envelope);
            let (metrics, event) = kalshi::heard(
                MetricsView {
                    messages_received: (feed.metrics.messages_received + 1) as u64,
                    ..feed.metrics
                },
                feed.names,
                kalshi::frame_in(raw),
                received_at_ms,
            );
            after.metrics == metrics && played == Ok::<PlayedView, ReplayErrorView>(
                PlayedView::Events(
                    match event {
                        Some(event) => seq![event],
                        None => Seq::empty(),
                    },
                ),
            )
        }),
{
    reveal_strlit("text");
    reveal_strlit("control");
    assert("text"@.len() != "control"@.len());
}

/// What a record is played as, and then what the lifecycle event that was
/// written behind it is played as, if one was: the events, and the counters.
pub open spec fn replayed(
    feed: ReplayView,
    envelope: RecordView,
    control: Option<ControlView>,
) -> Option<(MetricsView, Seq<EventView>)> {
    match feed.played(envelope) {
        (after, Ok(PlayedView::Events(events))) => match control {
            None => Some((after.metrics, events)),
            Some(control) => match after.lifecycle(control, envelope.sequence) {
                (last, Ok(more)) => Some((last.metrics, events + more)),
                _ => None,
            },
        },
        _ => None,
    }
}

/// A frame that the live feed heard, in whatever state its connection was, is
/// told by the replay of what was recorded of it exactly as it was told live,
/// and leaves the same counters.
pub proof fn a_replay_tells_what_the_live_feed_told(
    feed: ReplayView,
    link: kalshi::Link,
    journal: record::JournalView,
    frame: kalshi::Frame,
    tickers: Seq<Seq<char>>,
    received_at_ms: u64,
)
    requires
        feed.venue == Venue::Kalshi,
        feed.current == feed.selected,
        feed.current > 0,
        feed.has_room(),
        forall|i: int|
            0 <= i < tickers.len() ==> types::lookup(
                feed.names,
                Venue::Kalshi,
                #[trigger] tickers[i],
            ) is Some,
        kalshi::recorded(frame).1.len() == 0 || kalshi::recorded(frame).1.last() != '\n',
        journal.enveloped(
            received_at_ms,
            kalshi::recorded(frame).0,
            kalshi::recorded(frame).1,
        ) is Ok,
    ensures
        ({
            let live = link.hearing(feed.metrics, feed.names, tickers, frame, received_at_ms);
            let envelope = journal.enveloped(
                received_at_ms,
                kalshi::recorded(frame).0,
                kalshi::recorded(frame).1,
            )->Ok_0;
            replayed(feed, envelope, live.control) == Some((live.metrics, live.events))
        }),
{
    reveal_strlit("text");
    reveal_strlit("binary_base64");
    reveal_strlit("ping_base64");
    reveal_strlit("pong_base64");
    reveal_strlit("close_base64");
    reveal_strlit("control");
    assert("text"@.len() == 4 && "control"@.len() == 7 && "binary_base64"@.len() == 13);
    assert("ping_base64"@.len() == 11 && "pong_base64"@.len() == 11 && "close_base64"@.len() == 12);
    let (kind, raw) = kalshi::recorded(frame);
    let envelope = journal.enveloped(received_at_ms, kind, raw)->Ok_0;
    let live = link.hearing(feed.metrics, feed.names, tickers, frame, received_at_ms);
    assert(envelope.raw == raw);
    lemma_all_known(feed.names, tickers);
    assert(Seq::<EventView>::empty() + live.events =~= live.events);
}

/// The lifecycle events that the live feed emitted come out of the control
/// envelopes it wrote: a disconnect where it disconnected, and a resubscription
/// for every ticker, in order.
pub proof fn lifecycle_events_replay_where_they_happened(
    feed: ReplayView,
    reason: Seq<char>,
    tickers: Seq<Seq<char>>,
    sequence: u64,
)
    requires
        feed.venue == Venue::Kalshi,
        forall|i: int|
            0 <= i < tickers.len() ==> types::lookup(
                feed.names,
                Venue::Kalshi,
                #[trigger] tickers[i],
            ) is Some,
    ensures
        feed.lifecycle(ControlView::Disconnected { reason }, sequence).1 == Ok::<
            Seq<EventView>,
            ReplayErrorView,
        >(seq![EventView::Disconnected { venue: Venue::Kalshi }]),
        feed.lifecycle(ControlView::Resubscribed { tickers }, sequence).1 == Ok::<
            Seq<EventView>,
            ReplayErrorView,
        >(kalshi::resubscriptions(feed.names, tickers)),
{
    lemma_all_known(feed.names, tickers);
}

proof fn lemma_all_known(names: Seq<Instrument>, tickers: Seq<Seq<char>>)
    requires
        forall|i: int|
            0 <= i < tickers.len() ==> types::lookup(
                names,
                Venue::Kalshi,
                #[trigger] tickers[i],
            ) is Some,
    ensures
        unknown_ticker(names, Venue::Kalshi, tickers) is None,
        resubscriptions(names, Venue::Kalshi, tickers) == kalshi::resubscriptions(names, tickers),
    decreases tickers.len(),
{
    let ours = resubscriptions(names, Venue::Kalshi, tickers);
    if tickers.len() > 0 {
        let front = tickers.drop_last();
        assert forall|i: int| 0 <= i < front.len() implies types::lookup(
            names,
            Venue::Kalshi,
            #[trigger] front[i],
        ) is Some by {
            assert(front[i] == tickers[i]);
        }
        lemma_all_known(names, front);
        assert(types::lookup(names, Venue::Kalshi, tickers[tickers.len() - 1]) is Some);
        assert(ours =~= resubscriptions(names, Venue::Kalshi, front).push(
            EventView::Resubscribed {
                contract: types::lookup(names, Venue::Kalshi, tickers.last())->0,
            },
        ));
    } else {
        assert(ours =~= Seq::<EventView>::empty());
    }
}

/// Only the chosen session is played: records before it are skipped, and a
/// later marker ends the replay.
pub proof fn only_the_chosen_session_is_played(feed: ReplayView, record: RecordView)
    ensures
        ({
            let (after, played) = feed.played(record);
            &&& after.selected == feed.selected
            &&& played matches Ok(PlayedView::Events(_)) ==> after.current == feed.selected
            &&& after.current >= feed.current
        }),
{
}

} // verus!
