//! Deterministic fingerprint of a run: final book state per contract plus the
//! gap log. Timestamps are excluded by construction, so a live `dump` and a
//! `replay` of its recording produce byte-identical digests.
use sha2::{Digest, Sha256};
use vstd::prelude::*;
use crate::book::{Applied, BookMetrics, BookStore, StoreView};
use crate::feed::{EventView, FeedEvent};
use crate::solver;
use crate::text;
use crate::types;
use crate::types::{Book, BookState, BookView, ContractId, Instrument};

pub mod laws;

verus! {

pub const DIGEST_HEADER: &'static str = "# sum100 state digest v1 (timestamps excluded)";

// ---------------------------------------------------------------------------
// The gap log
// ---------------------------------------------------------------------------

/// Ordered record of every event that changes resync state. Entries carry the
/// 1-based position of the triggering event in the feed stream, never a time.
#[derive(Clone, Debug, PartialEq)]
pub struct GapLog {
    events_seen: u64,
    entries: Vec<String>,
}

/// What a [`GapLog`] holds.
#[verifier::ext_equal]
pub struct LogView {
    pub events_seen: u64,
    pub entries: Seq<Seq<char>>,
}

impl View for GapLog {
    type V = LogView;

    closed spec fn view(&self) -> LogView {
        LogView { events_seen: self.events_seen, entries: text::views(self.entries@) }
    }
}

/// The venue's name for a contract, or a question mark for an unknown one.
pub open spec fn ticker_of(names: Seq<Instrument>, contract: ContractId) -> Seq<char> {
    if contract.0 < names.len() {
        names[contract.0 as int].1
    } else {
        "?"@
    }
}

/// The line that an event leaves in the log, if it changes resync state.
pub open spec fn entry_for(
    store: StoreView,
    event: EventView,
    applied: Applied,
    position: u64,
) -> Option<Seq<char>> {
    let at = text::decimal(position as nat);
    match (applied, event) {
        (Applied::Gap { expected, got }, EventView::Delta { contract, .. }) => Some(
            at + " gap "@ + ticker_of(store.names, contract) + " expected="@ + text::decimal(
                expected as nat,
            ) + " got="@ + text::decimal(got as nat),
        ),
        (Applied::Invalidated, EventView::Disconnected { venue }) => Some(
            at + " disconnected "@ + types::venue_name(venue),
        ),
        (Applied::Invalidated, EventView::Resubscribed { contract }) => Some(
            at + " resubscribed "@ + ticker_of(store.names, contract),
        ),
        (Applied::Snapshot(_), EventView::Snapshot { contract, seq, .. }) => match store.get(
            contract,
        ) {
            Some(book) => if book.state == BookState::Resyncing {
                Some(
                    at + " resynced "@ + ticker_of(store.names, contract) + " seq="@
                        + text::decimal(seq as nat),
                )
            } else {
                None
            },
            None => None,
        },
        _ => None,
    }
}

impl LogView {
    pub open spec fn empty() -> LogView {
        LogView { events_seen: 0, entries: Seq::empty() }
    }

    /// The log after an event met a store.
    pub open spec fn logging(self, store: StoreView, event: EventView, applied: Applied) -> LogView {
        let position = (self.events_seen + 1) as u64;
        LogView {
            events_seen: position,
            entries: match entry_for(store, event, applied, position) {
                Some(entry) => self.entries.push(entry),
                None => self.entries,
            },
        }
    }

    /// The store, the log and the outcome after one event.
    pub open spec fn applied(
        self,
        store: StoreView,
        event: EventView,
        now_ms: u64,
    ) -> (StoreView, LogView, Applied) {
        let (next, outcome) = store.applied(event, now_ms);
        let counted = if outcome is Gap {
            next.counting(
                BookMetrics {
                    resync_requests: solver::types::bumped(next.metrics.resync_requests),
                    ..next.metrics
                },
            )
        } else {
            next
        };
        (counted, self.logging(store, event, outcome), outcome)
    }
}

impl GapLog {
    pub fn new() -> (log: Self)
        ensures
            log@ == LogView::empty(),
    {
        let log = GapLog { events_seen: 0, entries: Vec::new() };
        assert(log@.entries =~= Seq::<Seq<char>>::empty());
        log
    }

    /// The single event-application step shared by the live and replay
    /// drivers. On [`Applied::Gap`] the resync request is counted here; a live
    /// driver must additionally ask its feed to reconnect.
    pub fn apply(&mut self, store: &mut BookStore, event: &FeedEvent, now_ms: u64) -> (applied:
        Applied)
        requires
            old(store)@.wf(),
            old(self)@.events_seen < u64::MAX,
        ensures
            (final(store)@, final(self)@, applied) == old(self)@.applied(
                old(store)@,
                event@,
                now_ms,
            ),
            final(store)@.wf(),
    {
        let ghost before = store@;
        let ghost logged = self@;
        self.events_seen = self.events_seen + 1;
        let position: u64 = self.events_seen;
        let was_resyncing: bool = match event {
            FeedEvent::Snapshot { contract, .. } => match store.get(*contract) {
                Some(book) => book.state == BookState::Resyncing,
                None => false,
            },
            _ => false,
        };
        let applied: Applied = store.apply(event, now_ms);
        proof {
            lemma_names_kept(before, event@, now_ms);
        }
        let entry: Option<String> = match (applied, event) {
            (Applied::Gap { expected, got }, FeedEvent::Delta { contract, .. }) => {
                store.note_resync_request();
                let mut line: String = at_position(position, " gap ");
                line.append(ticker(store, *contract));
                line.append(" expected=");
                text::push_u64(&mut line, expected);
                line.append(" got=");
                text::push_u64(&mut line, got);
                Some(line)
            },
            (Applied::Invalidated, FeedEvent::Disconnected { venue }) => {
                let mut line: String = at_position(position, " disconnected ");
                line.append(venue.name());
                Some(line)
            },
            (Applied::Invalidated, FeedEvent::Resubscribed { contract }) => {
                let mut line: String = at_position(position, " resubscribed ");
                line.append(ticker(store, *contract));
                Some(line)
            },
            (Applied::Snapshot(_), FeedEvent::Snapshot { contract, seq, .. }) => if was_resyncing {
                let mut line: String = at_position(position, " resynced ");
                line.append(ticker(store, *contract));
                line.append(" seq=");
                text::push_u64(&mut line, *seq);
                Some(line)
            } else {
                None
            },
            _ => None,
        };
        if let Some(line) = entry {
            self.entries.push(line);
        }
        assert(self@ =~= logged.logging(before, event@, applied));
        applied
    }

    pub fn entries(&self) -> (entries: &[String])
        ensures
            text::views(entries@) == self@.entries,
    {
        self.entries.as_slice()
    }

    pub fn events_seen(&self) -> (n: u64)
        ensures
            n == self@.events_seen,
    {
        self.events_seen
    }
}

impl Default for GapLog {
    fn default() -> (log: Self)
        ensures
            log@ == LogView::empty(),
    {
        GapLog::new()
    }
}

/// A line that opens with a position in the feed.
fn at_position(position: u64, what: &str) -> (line: String)
    ensures
        line@ == text::decimal(position as nat) + what@,
{
    let mut line: String = String::new();
    text::push_u64(&mut line, position);
    assert(line@ =~= text::decimal(position as nat));
    line.append(what);
    line
}

fn ticker(store: &BookStore, contract: ContractId) -> (name: &str)
    ensures
        name@ == ticker_of(store@.names, contract),
{
    match store.contracts().resolve(contract) {
        Some(entry) => entry.1.as_str(),
        None => "?",
    }
}

// ---------------------------------------------------------------------------
// The digest
// ---------------------------------------------------------------------------

/// The SHA-256 digest of a run of bytes.
pub uninterp spec fn sha256(bytes: Seq<u8>) -> Seq<u8>;

/// `sha2::Sha256::digest`: a function of the bytes alone, 32 bytes long.
#[verifier::external_body]
fn digest_of(bytes: &[u8]) -> (digest: Vec<u8>)
    ensures
        digest@ == sha256(bytes@),
        digest@.len() == 32,
{
    Sha256::digest(bytes).to_vec()
}

/// The SHA-256 of a text, in hexadecimal.
pub open spec fn fingerprint(s: Seq<char>) -> Seq<char> {
    text::hex(sha256(vstd::utf8::encode_utf8(s)))
}

fn sha256_hex(s: &str) -> (out: String)
    ensures
        out@ == fingerprint(s@),
        is_hash(out@),
{
    let digest: Vec<u8> = digest_of(s.as_bytes());
    proof {
        text::lemma_hex(digest@);
    }
    text::to_hex(digest.as_slice())
}

pub open spec fn state_name(state: BookState) -> Seq<char> {
    match state {
        BookState::Uninitialized => "uninitialized"@,
        BookState::Resyncing => "resyncing"@,
        BookState::Live => "live"@,
    }
}

/// The sizes below `n` cents that are not zero, as `price:size`, with commas
/// between them.
pub open spec fn side_text(sizes: Seq<i64>, n: int) -> Seq<char>
    decreases n,
{
    if n <= 0 {
        Seq::empty()
    } else {
        let before = side_text(sizes, n - 1);
        let size = sizes[n - 1];
        if size == 0 {
            before
        } else {
            before + (if before.len() == 0 {
                Seq::empty()
            } else {
                ","@
            }) + text::decimal((n - 1) as nat) + ":"@ + text::signed_decimal(size as int)
        }
    }
}

/// Canonical text of a book.
pub open spec fn book_text(book: BookView, ticker: Seq<char>) -> Seq<char> {
    "ticker="@ + ticker + " state="@ + state_name(book.state) + " seq="@ + text::decimal(
        book.seq as nat,
    ) + " yes="@ + side_text(book.yes, 101) + " no="@ + side_text(book.no, 101)
}

fn side(sizes: &[i64; 101]) -> (out: String)
    ensures
        out@ == side_text(sizes@, 101),
{
    let mut out: String = String::new();
    let mut first: bool = true;
    let mut price: usize = 0;
    while price < 101
        invariant
            price <= 101,
            out@ == side_text(sizes@, price as int),
            first == (out@.len() == 0),
        decreases 101 - price,
    {
        let size: i64 = sizes[price];
        if size != 0 {
            let ghost before = out@;
            if !first {
                out.append(",");
            } else {
                assert(before + Seq::<char>::empty() =~= before);
            }
            text::push_u64(&mut out, price as u64);
            out.append(":");
            text::push_i64(&mut out, size);
            proof {
                lemma_decimal_nonempty(price as nat);
            }
            first = false;
        }
        price = price + 1;
    }
    out
}

/// Canonical text of one book: wire sides, sequence, and state. Excludes
/// `updated_at_ms`. Only nonzero levels appear; the dense arrays are otherwise
/// zero, so this is the complete state.
pub fn canonical_book(book: &Book, ticker: &str) -> (out: String)
    ensures
        out@ == book_text(book@, ticker@),
{
    let mut out: String = String::from_str("ticker=");
    out.append(ticker);
    out.append(" state=");
    out.append(
        match book.state {
            BookState::Uninitialized => "uninitialized",
            BookState::Resyncing => "resyncing",
            BookState::Live => "live",
        },
    );
    out.append(" seq=");
    text::push_u64(&mut out, book.seq);
    out.append(" yes=");
    out.append(side(&book.yes).as_str());
    out.append(" no=");
    out.append(side(&book.no).as_str());
    out
}

#[derive(Clone, Debug, PartialEq)]
pub struct StateDigest {
    /// (ticker, sha256 of canonical book), in store order.
    pub books: Vec<(String, String)>,
    /// sha256 over gap log entries, each terminated by LF.
    pub gaps: String,
    pub gap_entries: Vec<String>,
    /// Book-store counters. Deterministic but informational: not verified.
    pub metrics: String,
}

/// What a [`StateDigest`] says.
#[verifier::ext_equal]
pub struct DigestView {
    pub books: Seq<(Seq<char>, Seq<char>)>,
    pub gaps: Seq<char>,
    pub gap_entries: Seq<Seq<char>>,
    pub metrics: Seq<char>,
}

pub open spec fn pairs(books: Seq<(String, String)>) -> Seq<(Seq<char>, Seq<char>)> {
    books.map_values(|pair: (String, String)| (pair.0@, pair.1@))
}

impl View for StateDigest {
    type V = DigestView;

    open spec fn view(&self) -> DigestView {
        DigestView {
            books: pairs(self.books@),
            gaps: self.gaps@,
            gap_entries: text::views(self.gap_entries@),
            metrics: self.metrics@,
        }
    }
}

/// The name and the fingerprint of a book.
pub open spec fn book_line(names: Seq<Instrument>, book: BookView) -> (Seq<char>, Seq<char>) {
    let ticker = ticker_of(names, book.contract_id);
    (ticker, fingerprint(book_text(book, ticker)))
}

/// The lines, each ended by a line feed.
pub open spec fn lines_text(entries: Seq<Seq<char>>) -> Seq<char>
    decreases entries.len(),
{
    if entries.len() == 0 {
        Seq::empty()
    } else {
        lines_text(entries.drop_last()) + entries.last() + seq!['\n']
    }
}

pub open spec fn metrics_text(events: u64, m: BookMetrics) -> Seq<char> {
    "events="@ + text::decimal(events as nat) + " snapshots_applied="@ + text::decimal(
        m.snapshots_applied as nat,
    ) + " deltas_applied="@ + text::decimal(m.deltas_applied as nat)
        + " deltas_skipped_not_live="@ + text::decimal(m.deltas_skipped_not_live as nat)
        + " sequence_gaps="@ + text::decimal(m.sequence_gaps as nat) + " resync_requests="@
        + text::decimal(m.resync_requests as nat) + " negative_level_clamps="@ + text::decimal(
        m.negative_level_clamps as nat,
    ) + " crossed_books_observed="@ + text::decimal(m.crossed_books_observed as nat)
}

/// The digest of a run.
pub open spec fn digested(store: StoreView, log: LogView) -> DigestView {
    DigestView {
        books: store.books.map_values(|book: BookView| book_line(store.names, book)),
        gaps: fingerprint(lines_text(log.entries)),
        gap_entries: log.entries,
        metrics: metrics_text(log.events_seen, store.metrics),
    }
}

impl DigestView {
    /// The `book` lines, each ended by a line feed.
    pub open spec fn book_lines(self) -> Seq<Seq<char>> {
        self.books.map_values(|pair: (Seq<char>, Seq<char>)| "book "@ + pair.0 + " "@ + pair.1)
    }

    pub open spec fn gap_lines(self) -> Seq<Seq<char>> {
        self.gap_entries.map_values(|entry: Seq<char>| "gap "@ + entry)
    }

    /// Every line of the rendered digest, in order.
    pub open spec fn all_lines(self) -> Seq<Seq<char>> {
        seq![DIGEST_HEADER@] + self.book_lines() + seq!["gaps "@ + self.gaps] + self.gap_lines()
            + seq!["metrics "@ + self.metrics]
    }

    pub open spec fn rendered(self) -> Seq<char> {
        lines_text(self.all_lines())
    }
}

fn push_line(out: &mut String, head: &str, tail: &str)
    ensures
        final(out)@ == old(out)@ + (head@ + tail@) + seq!['\n'],
{
    out.append(head);
    out.append(tail);
    out.push('\n');
    assert(out@ =~= old(out)@ + (head@ + tail@) + seq!['\n']);
}

fn metrics_line(events: u64, m: &BookMetrics) -> (out: String)
    ensures
        out@ == metrics_text(events, *m),
{
    let mut out: String = String::from_str("events=");
    text::push_u64(&mut out, events);
    out.append(" snapshots_applied=");
    text::push_u64(&mut out, m.snapshots_applied);
    out.append(" deltas_applied=");
    text::push_u64(&mut out, m.deltas_applied);
    out.append(" deltas_skipped_not_live=");
    text::push_u64(&mut out, m.deltas_skipped_not_live);
    out.append(" sequence_gaps=");
    text::push_u64(&mut out, m.sequence_gaps);
    out.append(" resync_requests=");
    text::push_u64(&mut out, m.resync_requests);
    out.append(" negative_level_clamps=");
    text::push_u64(&mut out, m.negative_level_clamps);
    out.append(" crossed_books_observed=");
    text::push_u64(&mut out, m.crossed_books_observed);
    out
}

impl StateDigest {
    pub fn new(store: &BookStore, log: &GapLog) -> (digest: Self)
        ensures
            digest@ == digested(store@, log@),
    {
        let mut books: Vec<(String, String)> = Vec::new();
        let held: &[Book] = store.books();
        let ghost names = store@.names;
        let mut i: usize = 0;
        while i < held.len()
            invariant
                i <= held@.len(),
                names == store@.names,
                books@.len() == i,
                forall|k: int|
                    0 <= k < i ==> (#[trigger] books@[k]).0@ == book_line(names, held@[k]@).0
                        && books@[k].1@ == book_line(names, held@[k]@).1,
            decreases held@.len() - i,
        {
            let name: &str = ticker(store, held[i].contract_id);
            let hash: String = sha256_hex(canonical_book(&held[i], name).as_str());
            books.push((name.to_owned(), hash));
            i = i + 1;
        }
        let entries: &[String] = log.entries();
        let mut gap_text: String = String::new();
        let mut gap_entries: Vec<String> = Vec::new();
        let ghost views = text::views(entries@);
        let mut j: usize = 0;
        assert(views.subrange(0, 0) =~= Seq::<Seq<char>>::empty());
        while j < entries.len()
            invariant
                j <= entries@.len(),
                views == text::views(entries@),
                gap_text@ == lines_text(views.subrange(0, j as int)),
                gap_entries@.len() == j,
                forall|k: int| 0 <= k < j ==> (#[trigger] gap_entries@[k])@ == views[k],
            decreases entries@.len() - j,
        {
            proof {
                let next = views.subrange(0, j + 1);
                assert(next.drop_last() =~= views.subrange(0, j as int));
                assert(next.last() == entries@[j as int]@);
            }
            gap_text.append(entries[j].as_str());
            gap_text.push('\n');
            assert(gap_text@ =~= lines_text(views.subrange(0, j + 1)));
            gap_entries.push(entries[j].as_str().to_owned());
            j = j + 1;
        }
        let digest = StateDigest {
            books,
            gaps: sha256_hex(gap_text.as_str()),
            gap_entries,
            metrics: metrics_line(log.events_seen(), &store.counters()),
        };
        proof {
            assert(views.subrange(0, views.len() as int) =~= views);
            assert(digest@.books =~= digested(store@, log@).books) by {
                assert forall|k: int| 0 <= k < digest@.books.len() implies #[trigger] digest@.books[k]
                    == digested(store@, log@).books[k] by {
                    assert(store@.books[k] == held@[k]@);
                    assert(digest@.books[k] == (books@[k].0@, books@[k].1@));
                }
            }
            assert(digest@.gap_entries =~= log@.entries);
        }
        digest
    }

    /// Line format read back by [`Expected::parse`].
    pub fn render(&self) -> (out: String)
        ensures
            out@ == self@.rendered(),
    {
        let ghost books = self@.book_lines();
        let ghost gaps = self@.gap_lines();
        let ghost header = seq![DIGEST_HEADER@];
        let mut out: String = String::new();
        push_line(&mut out, DIGEST_HEADER, "");
        proof {
            reveal_strlit("");
            assert(DIGEST_HEADER@ + ""@ =~= DIGEST_HEADER@);
            assert(header.drop_last() =~= Seq::<Seq<char>>::empty());
            assert(lines_text(header.drop_last()) =~= Seq::<char>::empty());
            assert(lines_text(header) == lines_text(header.drop_last()) + header.last() + seq![
                '\n',
            ]);
            assert(out@ =~= lines_text(header));
            assert(header + books.subrange(0, 0) =~= header);
        }
        let mut i: usize = 0;
        while i < self.books.len()
            invariant
                i <= self.books@.len(),
                header == seq![DIGEST_HEADER@],
                books == self@.book_lines(),
                out@ == lines_text(header + books.subrange(0, i as int)),
            decreases self.books@.len() - i,
        {
            let mut line: String = String::from_str("book ");
            line.append(self.books[i].0.as_str());
            line.append(" ");
            push_line(&mut out, line.as_str(), self.books[i].1.as_str());
            proof {
                let next = header + books.subrange(0, i + 1);
                assert(next.drop_last() =~= header + books.subrange(0, i as int));
                assert(self@.books[i as int] == (
                    self.books@[i as int].0@,
                    self.books@[i as int].1@,
                ));
                assert(next.last() == books[i as int]);
                assert(out@ =~= lines_text(next));
            }
            i = i + 1;
        }
        let ghost first = header + books + seq!["gaps "@ + self@.gaps];
        push_line(&mut out, "gaps ", self.gaps.as_str());
        proof {
            assert(books.subrange(0, books.len() as int) =~= books);
            assert(first.drop_last() =~= header + books);
            assert(out@ =~= lines_text(first));
            assert(first + gaps.subrange(0, 0) =~= first);
        }
        let mut j: usize = 0;
        while j < self.gap_entries.len()
            invariant
                j <= self.gap_entries@.len(),
                gaps == self@.gap_lines(),
                out@ == lines_text(first + gaps.subrange(0, j as int)),
            decreases self.gap_entries@.len() - j,
        {
            push_line(&mut out, "gap ", self.gap_entries[j].as_str());
            proof {
                let next = first + gaps.subrange(0, j + 1);
                assert(next.drop_last() =~= first + gaps.subrange(0, j as int));
                assert(self@.gap_entries[j as int] == self.gap_entries@[j as int]@);
                assert(next.last() == gaps[j as int]);
                assert(out@ =~= lines_text(next));
            }
            j = j + 1;
        }
        push_line(&mut out, "metrics ", self.metrics.as_str());
        proof {
            let all = self@.all_lines();
            assert(gaps.subrange(0, gaps.len() as int) =~= gaps);
            assert(all.drop_last() =~= first + gaps);
            assert(out@ =~= lines_text(all));
        }
        out
    }
}

// ---------------------------------------------------------------------------
// Expectations
// ---------------------------------------------------------------------------

/// Why an expectation was refused.
#[derive(Clone, Debug, PartialEq)]
pub enum ExpectError {
    /// A line of a digest is none that a digest has: its number, counted from
    /// one, and the line.
    MalformedLine { number: usize, line: String },
    /// Not a 64-digit sha256 value.
    BadHash { hash: String },
    DuplicateBook { ticker: String },
    DuplicateGaps,
    /// A command-line pair without an equals sign.
    NoEquals,
}

/// What an [`ExpectError`] says.
#[verifier::ext_equal]
pub enum ExpectErrorView {
    MalformedLine { number: int, line: Seq<char> },
    BadHash { hash: Seq<char> },
    DuplicateBook { ticker: Seq<char> },
    DuplicateGaps,
    NoEquals,
}

impl View for ExpectError {
    type V = ExpectErrorView;

    open spec fn view(&self) -> ExpectErrorView {
        match self {
            ExpectError::MalformedLine { number, line } => ExpectErrorView::MalformedLine {
                number: *number as int,
                line: line@,
            },
            ExpectError::BadHash { hash } => ExpectErrorView::BadHash { hash: hash@ },
            ExpectError::DuplicateBook { ticker } => ExpectErrorView::DuplicateBook {
                ticker: ticker@,
            },
            ExpectError::DuplicateGaps => ExpectErrorView::DuplicateGaps,
            ExpectError::NoEquals => ExpectErrorView::NoEquals,
        }
    }
}

/// The message of an [`ExpectError`].
pub open spec fn expect_error_message(error: ExpectErrorView) -> Seq<char> {
    match error {
        ExpectErrorView::MalformedLine { number, line } => "digest line "@ + text::decimal(
            number as nat,
        ) + " is malformed: "@ + text::debug_text(line),
        ExpectErrorView::BadHash { hash } => "expected a 64-digit sha256 hex value, got "@
            + text::debug_text(hash),
        ExpectErrorView::DuplicateBook { ticker } => "duplicate expectation for "@ + ticker,
        ExpectErrorView::DuplicateGaps => "duplicate gap log expectation"@,
        ExpectErrorView::NoEquals => "--expect-book takes TICKER=SHA256"@,
    }
}

impl ExpectError {
    pub fn message(&self) -> (out: String)
        ensures
            out@ == expect_error_message(self@),
    {
        match self {
            ExpectError::MalformedLine { number, line } => {
                let mut out: String = String::from_str("digest line ");
                text::push_u64(&mut out, *number as u64);
                out.append(" is malformed: ");
                out.append(text::quoted(line.as_str()).as_str());
                out
            },
            ExpectError::BadHash { hash } => {
                let mut out: String = String::from_str("expected a 64-digit sha256 hex value, got ");
                out.append(text::quoted(hash.as_str()).as_str());
                out
            },
            ExpectError::DuplicateBook { ticker } => {
                let mut out: String = String::from_str("duplicate expectation for ");
                out.append(ticker.as_str());
                out
            },
            ExpectError::DuplicateGaps => String::from_str("duplicate gap log expectation"),
            ExpectError::NoEquals => String::from_str("--expect-book takes TICKER=SHA256"),
        }
    }
}

/// Expected hashes for `replay --verify`.
#[derive(Clone, Debug, PartialEq)]
pub struct Expected {
    /// Ticker and hash, in the order of the tickers, no ticker twice.
    books: Vec<(String, String)>,
    gaps: Option<String>,
}

/// What an [`Expected`] holds.
#[verifier::ext_equal]
pub struct ExpectedView {
    pub books: Seq<(Seq<char>, Seq<char>)>,
    pub gaps: Option<Seq<char>>,
}

impl View for Expected {
    type V = ExpectedView;

    closed spec fn view(&self) -> ExpectedView {
        ExpectedView {
            books: pairs(self.books@),
            gaps: match self.gaps {
                Some(gaps) => Some(gaps@),
                None => None,
            },
        }
    }
}

/// Tickers stand in order, no ticker twice.
pub open spec fn ordered(books: Seq<(Seq<char>, Seq<char>)>) -> bool {
    forall|i: int, j: int|
        0 <= i < j < books.len() ==> text::precedes(
            (#[trigger] books[i]).0,
            (#[trigger] books[j]).0,
        )
}

/// The hash expected of a ticker.
pub open spec fn wanted(books: Seq<(Seq<char>, Seq<char>)>, ticker: Seq<char>) -> Option<Seq<char>>
    decreases books.len(),
{
    if books.len() == 0 {
        None
    } else if books.last().0 == ticker {
        Some(books.last().1)
    } else {
        wanted(books.drop_last(), ticker)
    }
}

/// The list with a ticker's hash put in its place.
pub open spec fn inserted(
    books: Seq<(Seq<char>, Seq<char>)>,
    ticker: Seq<char>,
    hash: Seq<char>,
) -> Seq<(Seq<char>, Seq<char>)>
    decreases books.len(),
{
    if books.len() == 0 {
        seq![(ticker, hash)]
    } else if books.last().0 == ticker {
        books.drop_last().push((ticker, hash))
    } else if text::precedes(books.last().0, ticker) {
        books.push((ticker, hash))
    } else {
        inserted(books.drop_last(), ticker, hash).push(books.last())
    }
}

/// A sha256 value in small hexadecimal digits.
pub open spec fn is_hash(s: Seq<char>) -> bool {
    &&& s.len() == 64
    &&& forall|i: int|
        0 <= i < s.len() ==> text::is_hex_digit(#[trigger] s[i]) && text::lower(s[i]) == s[i]
            && !text::is_space(s[i])
}

/// The hash that a text gives, or the text that is none.
pub open spec fn normalized(s: Seq<char>) -> Result<Seq<char>, ExpectErrorView> {
    let hash = text::lowered(text::trimmed(s));
    if hash.len() == 64 && (forall|i: int|
        0 <= i < hash.len() ==> text::is_hex_digit(#[trigger] hash[i])) {
        Ok(hash)
    } else {
        Err(ExpectErrorView::BadHash { hash })
    }
}

fn normalize_hash(hash: &str) -> (result: Result<String, ExpectError>)
    ensures
        match result {
            Ok(out) => normalized(hash@) == Ok::<Seq<char>, ExpectErrorView>(out@),
            Err(error) => normalized(hash@) == Err::<Seq<char>, ExpectErrorView>(error@),
        },
{
    let all: Vec<char> = text::chars(hash);
    let out: String = text::lowercase(text::trim(all.as_slice()));
    let small: Vec<char> = text::chars(out.as_str());
    if small.len() == 64 && text::hex_digits(small.as_slice()) {
        Ok(out)
    } else {
        Err(ExpectError::BadHash { hash: out })
    }
}

impl ExpectedView {
    pub open spec fn empty() -> ExpectedView {
        ExpectedView { books: Seq::empty(), gaps: None }
    }

    pub open spec fn wf(self) -> bool {
        ordered(self.books)
    }

    /// A book's expectation added. A second one for the same ticker takes the
    /// place of the first and is reported.
    pub open spec fn with_book(self, ticker: Seq<char>, hash: Seq<char>) -> (
        ExpectedView,
        Option<ExpectErrorView>,
    ) {
        match normalized(hash) {
            Err(error) => (self, Some(error)),
            Ok(hash) => (
                ExpectedView { books: inserted(self.books, ticker, hash), ..self },
                if wanted(self.books, ticker) is Some {
                    Some(ExpectErrorView::DuplicateBook { ticker })
                } else {
                    None
                },
            ),
        }
    }

    pub open spec fn with_gaps(self, hash: Seq<char>) -> (ExpectedView, Option<ExpectErrorView>) {
        if self.gaps is Some {
            (self, Some(ExpectErrorView::DuplicateGaps))
        } else {
            match normalized(hash) {
                Err(error) => (self, Some(error)),
                Ok(hash) => (ExpectedView { gaps: Some(hash), ..self }, None),
            }
        }
    }

    /// What one line of a digest adds. `gap`, `metrics`, comments, and blank
    /// lines add nothing.
    pub open spec fn with_line(self, line: Seq<char>, number: int) -> (
        ExpectedView,
        Option<ExpectErrorView>,
    ) {
        let fields = text::words(line);
        if fields.len() == 0 || (fields[0].len() > 0 && fields[0][0] == '#') || fields[0]
            == "gap"@ || fields[0] == "metrics"@ {
            (self, None)
        } else if fields.len() == 3 && fields[0] == "book"@ {
            self.with_book(fields[1], fields[2])
        } else if fields.len() == 2 && fields[0] == "gaps"@ {
            self.with_gaps(fields[1])
        } else {
            (self, Some(ExpectErrorView::MalformedLine { number, line }))
        }
    }
}

/// What the first `n` lines of a digest expect, or the first of them that is
/// refused.
pub open spec fn read_lines(lines: Seq<Seq<char>>, n: int) -> Result<ExpectedView, ExpectErrorView>
    decreases n,
{
    if n <= 0 {
        Ok(ExpectedView::empty())
    } else {
        match read_lines(lines, n - 1) {
            Err(error) => Err(error),
            Ok(expected) => match expected.with_line(lines[n - 1], n) {
                (next, None) => Ok(next),
                (_, Some(error)) => Err(error),
            },
        }
    }
}

/// What a rendered digest expects.
pub open spec fn parsed(s: Seq<char>) -> Result<ExpectedView, ExpectErrorView> {
    read_lines(text::lines(s), text::lines(s).len() as int)
}

/// What one book of a replay fails, if anything.
pub open spec fn book_failure(
    books: Seq<(Seq<char>, Seq<char>)>,
    actual: (Seq<char>, Seq<char>),
) -> Seq<Seq<char>> {
    match wanted(books, actual.0) {
        Some(want) => if want == actual.1 {
            Seq::empty()
        } else {
            seq!["book "@ + actual.0 + ": expected "@ + want + ", got "@ + actual.1]
        },
        None => seq!["book "@ + actual.0 + ": no expected value supplied"@],
    }
}

pub open spec fn replayed(actual: Seq<(Seq<char>, Seq<char>)>, ticker: Seq<char>) -> bool {
    exists|i: int| 0 <= i < actual.len() && (#[trigger] actual[i]).0 == ticker
}

pub open spec fn missing_failure(
    actual: Seq<(Seq<char>, Seq<char>)>,
    ticker: Seq<char>,
) -> Seq<Seq<char>> {
    if replayed(actual, ticker) {
        Seq::empty()
    } else {
        seq!["book "@ + ticker + ": expected but not in replay"@]
    }
}

pub open spec fn gaps_failure(want: Option<Seq<char>>, got: Seq<char>) -> Seq<Seq<char>> {
    match want {
        Some(want) => if want == got {
            Seq::empty()
        } else {
            seq!["gaps: expected "@ + want + ", got "@ + got]
        },
        None => seq!["gaps: no expected value supplied"@],
    }
}

/// What the first `n` books of a replay fail, in order.
pub open spec fn book_failures(
    books: Seq<(Seq<char>, Seq<char>)>,
    actual: Seq<(Seq<char>, Seq<char>)>,
    n: int,
) -> Seq<Seq<char>>
    decreases n,
{
    if n <= 0 {
        Seq::empty()
    } else {
        book_failures(books, actual, n - 1) + book_failure(books, actual[n - 1])
    }
}

/// The first `n` expectations that nothing in the replay answers, in order.
pub open spec fn missing_failures(
    books: Seq<(Seq<char>, Seq<char>)>,
    actual: Seq<(Seq<char>, Seq<char>)>,
    n: int,
) -> Seq<Seq<char>>
    decreases n,
{
    if n <= 0 {
        Seq::empty()
    } else {
        missing_failures(books, actual, n - 1) + missing_failure(actual, books[n - 1].0)
    }
}

/// Everything in which a replay falls short of what is expected of it.
pub open spec fn failures(expected: ExpectedView, actual: DigestView) -> Seq<Seq<char>> {
    book_failures(expected.books, actual.books, actual.books.len() as int) + missing_failures(
        expected.books,
        actual.books,
        expected.books.len() as int,
    ) + gaps_failure(expected.gaps, actual.gaps)
}

impl Expected {
    pub fn new() -> (expected: Self)
        ensures
            expected@ == ExpectedView::empty(),
            expected@.wf(),
    {
        let expected = Expected { books: Vec::new(), gaps: None };
        assert(expected@.books =~= Seq::<(Seq<char>, Seq<char>)>::empty());
        expected
    }

    /// Read `book` and `gaps` lines from a rendered digest. `gap`, `metrics`,
    /// comments, and blank lines are ignored.
    pub fn parse(digest: &str) -> (result: Result<Self, ExpectError>)
        ensures
            match result {
                Ok(expected) => parsed(digest@) == Ok::<ExpectedView, ExpectErrorView>(expected@)
                    && expected@.wf(),
                Err(error) => parsed(digest@) == Err::<ExpectedView, ExpectErrorView>(error@),
            },
    {
        let lines: Vec<String> = text::split_lines(digest);
        let ghost all = text::lines(digest@);
        let mut expected: Expected = Expected::new();
        let mut i: usize = 0;
        while i < lines.len()
            invariant
                i <= lines@.len(),
                all == text::lines(digest@),
                all == text::views(lines@),
                read_lines(all, i as int) == Ok::<ExpectedView, ExpectErrorView>(expected@),
                expected@.wf(),
            decreases lines@.len() - i,
        {
            assert(all[i as int] == lines@[i as int]@);
            match expected.add_line(lines[i].as_str(), i + 1) {
                Ok(()) => {},
                Err(error) => {
                    proof {
                        lemma_first_refusal(all, i + 1, all.len() as int);
                    }
                    return Err(error);
                },
            }
            i = i + 1;
        }
        Ok(expected)
    }

    fn add_line(&mut self, line: &str, number: usize) -> (result: Result<(), ExpectError>)
        requires
            old(self)@.wf(),
        ensures
            (final(self)@, match result {
                Ok(()) => None,
                Err(error) => Some(error@),
            }) == old(self)@.with_line(line@, number as int),
            final(self)@.wf(),
    {
        let fields: Vec<String> = text::split_words(line);
        let ghost words = text::words(line@);
        assert(words == text::views(fields@));
        if fields.len() == 0 {
            return Ok(());
        }
        assert(words[0] == fields@[0]@);
        let first: &str = fields[0].as_str();
        let head: Vec<char> = text::chars(first);
        if (head.len() > 0 && head[0] == '#') || text::same(first, "gap") || text::same(
            first,
            "metrics",
        ) {
            return Ok(());
        }
        if fields.len() == 3 && text::same(first, "book") {
            assert(words[1] == fields@[1]@ && words[2] == fields@[2]@);
            return self.add_book(fields[1].as_str(), fields[2].as_str());
        }
        if fields.len() == 2 && text::same(first, "gaps") {
            assert(words[1] == fields@[1]@);
            return self.set_gaps(fields[1].as_str());
        }
        Err(ExpectError::MalformedLine { number, line: line.to_owned() })
    }

    pub fn add_book(&mut self, ticker: &str, hash: &str) -> (result: Result<(), ExpectError>)
        requires
            old(self)@.wf(),
        ensures
            (final(self)@, match result {
                Ok(()) => None,
                Err(error) => Some(error@),
            }) == old(self)@.with_book(ticker@, hash@),
            final(self)@.wf(),
    {
        let hash: String = match normalize_hash(hash) {
            Ok(hash) => hash,
            Err(error) => return Err(error),
        };
        let ghost before = self@.books;
        let ghost value = hash@;
        proof {
            lemma_inserted(before, ticker@, value);
        }
        let mut i: usize = self.books.len();
        assert(before.subrange(0, i as int) =~= before);
        assert(before.subrange(i as int, before.len() as int) =~= Seq::<
            (Seq<char>, Seq<char>),
        >::empty());
        while i > 0 && !text::same(self.books[i - 1].0.as_str(), ticker) && !text::str_less(
            self.books[i - 1].0.as_str(),
            ticker,
        )
            invariant
                i <= self.books@.len(),
                before == self@.books,
                before == pairs(self.books@),
                self.gaps == old(self).gaps,
                self.books == old(self).books,
                inserted(before, ticker@, value) == inserted(
                    before.subrange(0, i as int),
                    ticker@,
                    value,
                ) + before.subrange(i as int, before.len() as int),
                wanted(before, ticker@) == wanted(before.subrange(0, i as int), ticker@),
            decreases i,
        {
            proof {
                let front = before.subrange(0, i as int);
                assert(front.drop_last() =~= before.subrange(0, i - 1));
                assert(front.last() == (self.books@[i - 1].0@, self.books@[i - 1].1@));
                let rest = before.subrange(i as int, before.len() as int);
                let more = before.subrange(i - 1, before.len() as int);
                assert(seq![front.last()] + rest =~= more);
                let mid = inserted(front.drop_last(), ticker@, value);
                assert(mid.push(front.last()) + rest =~= mid + more);
            }
            i = i - 1;
        }
        let ghost front = before.subrange(0, i as int);
        let ghost rest = before.subrange(i as int, before.len() as int);
        if i > 0 && text::same(self.books[i - 1].0.as_str(), ticker) {
            assert(front.last() == (self.books@[i - 1].0@, self.books@[i - 1].1@));
            let name: String = ticker.to_owned();
            self.books[i - 1] = (name, hash);
            proof {
                assert(self@.books =~= front.drop_last().push((ticker@, value)) + rest);
            }
            Err(ExpectError::DuplicateBook { ticker: ticker.to_owned() })
        } else {
            proof {
                if i > 0 {
                    assert(front.last() == (self.books@[i - 1].0@, self.books@[i - 1].1@));
                    assert(text::precedes(front.last().0, ticker@));
                    lemma_not_wanted(front, ticker@);
                } else {
                    assert(front =~= Seq::<(Seq<char>, Seq<char>)>::empty());
                }
            }
            self.books.insert(i, (ticker.to_owned(), hash));
            proof {
                assert(self@.books =~= front.push((ticker@, value)) + rest);
                if i == 0 {
                    assert(front.push((ticker@, value)) =~= seq![(ticker@, value)]);
                }
            }
            Ok(())
        }
    }

    /// Parse a command-line `TICKER=SHA256` pair.
    pub fn add_book_arg(&mut self, arg: &str) -> (result: Result<(), ExpectError>)
        requires
            old(self)@.wf(),
        ensures
            ({
                let at = text::last_index(arg@, '=');
                (final(self)@, match result {
                    Ok(()) => None,
                    Err(error) => Some(error@),
                }) == (if at < 0 {
                    (old(self)@, Some(ExpectErrorView::NoEquals))
                } else {
                    old(self)@.with_book(
                        arg@.subrange(0, at),
                        arg@.subrange(at + 1, arg@.len() as int),
                    )
                })
            }),
            final(self)@.wf(),
    {
        let all: Vec<char> = text::chars(arg);
        let at: usize = match text::find_last(all.as_slice(), '=') {
            Some(at) => at,
            None => return Err(ExpectError::NoEquals),
        };
        let ticker: String = text::collect(vstd::slice::slice_subrange(all.as_slice(), 0, at));
        let hash: String = text::collect(
            vstd::slice::slice_subrange(all.as_slice(), at + 1, all.len()),
        );
        self.add_book(ticker.as_str(), hash.as_str())
    }

    pub fn set_gaps(&mut self, hash: &str) -> (result: Result<(), ExpectError>)
        requires
            old(self)@.wf(),
        ensures
            (final(self)@, match result {
                Ok(()) => None,
                Err(error) => Some(error@),
            }) == old(self)@.with_gaps(hash@),
            final(self)@.wf(),
    {
        if self.gaps.is_some() {
            return Err(ExpectError::DuplicateGaps);
        }
        match normalize_hash(hash) {
            Ok(hash) => {
                self.gaps = Some(hash);
                Ok(())
            },
            Err(error) => Err(error),
        }
    }

    /// Every replayed contract and the gap log must be covered and match.
    pub fn check(&self, actual: &StateDigest) -> (out: Vec<String>)
        ensures
            text::views(out@) == failures(self@, actual@),
    {
        let ghost books = self@.books;
        let ghost others = actual@.books;
        let mut out: Vec<String> = Vec::new();
        assert(text::views(out@) =~= Seq::<Seq<char>>::empty());
        let mut i: usize = 0;
        while i < actual.books.len()
            invariant
                i <= actual.books@.len(),
                books == self@.books,
                others == actual@.books,
                text::views(out@) == book_failures(books, others, i as int),
            decreases actual.books@.len() - i,
        {
            let ticker: &str = actual.books[i].0.as_str();
            let hash: &str = actual.books[i].1.as_str();
            let ghost before = text::views(out@);
            assert(others[i as int] == (ticker@, hash@));
            match self.expectation(ticker) {
                Some(want) => if !text::same(want, hash) {
                    let mut line: String = String::from_str("book ");
                    line.append(ticker);
                    line.append(": expected ");
                    line.append(want);
                    line.append(", got ");
                    line.append(hash);
                    out.push(line);
                },
                None => {
                    let mut line: String = String::from_str("book ");
                    line.append(ticker);
                    line.append(": no expected value supplied");
                    out.push(line);
                },
            }
            assert(text::views(out@) =~= before + book_failure(books, others[i as int]));
            i = i + 1;
        }
        let ghost shown = text::views(out@);
        let mut j: usize = 0;
        assert(shown + missing_failures(books, others, 0) =~= shown);
        while j < self.books.len()
            invariant
                j <= self.books@.len(),
                books == self@.books,
                others == actual@.books,
                text::views(out@) == shown + missing_failures(books, others, j as int),
            decreases self.books@.len() - j,
        {
            let ticker: &str = self.books[j].0.as_str();
            let ghost before = text::views(out@);
            assert(books[j as int] == (self.books@[j as int].0@, self.books@[j as int].1@));
            if !holds(actual.books.as_slice(), ticker) {
                let mut line: String = String::from_str("book ");
                line.append(ticker);
                line.append(": expected but not in replay");
                out.push(line);
            }
            assert(text::views(out@) =~= before + missing_failure(others, books[j as int].0));
            j = j + 1;
            assert(text::views(out@) =~= shown + missing_failures(books, others, j as int));
        }
        let ghost before = text::views(out@);
        match &self.gaps {
            Some(want) => if !text::same(want.as_str(), actual.gaps.as_str()) {
                let mut line: String = String::from_str("gaps: expected ");
                line.append(want.as_str());
                line.append(", got ");
                line.append(actual.gaps.as_str());
                out.push(line);
            },
            None => {
                out.push(String::from_str("gaps: no expected value supplied"));
            },
        }
        assert(text::views(out@) =~= before + gaps_failure(self@.gaps, actual@.gaps));
        out
    }

    /// The hash expected of a ticker.
    fn expectation(&self, ticker: &str) -> (want: Option<&str>)
        ensures
            match want {
                Some(hash) => wanted(self@.books, ticker@) == Some(hash@),
                None => wanted(self@.books, ticker@) is None,
            },
    {
        let ghost books = self@.books;
        let mut i: usize = self.books.len();
        assert(books.subrange(0, i as int) =~= books);
        while i > 0
            invariant
                i <= self.books@.len(),
                books == self@.books,
                wanted(books, ticker@) == wanted(books.subrange(0, i as int), ticker@),
            decreases i,
        {
            proof {
                assert(books.subrange(0, i as int).drop_last() =~= books.subrange(0, i - 1));
                assert(books.subrange(0, i as int).last() == (
                    self.books@[i - 1].0@,
                    self.books@[i - 1].1@,
                ));
            }
            if text::same(self.books[i - 1].0.as_str(), ticker) {
                return Some(self.books[i - 1].1.as_str());
            }
            i = i - 1;
        }
        None
    }
}

impl Default for Expected {
    fn default() -> (expected: Self)
        ensures
            expected@ == ExpectedView::empty(),
            expected@.wf(),
    {
        Expected::new()
    }
}

/// Whether a ticker is among the books of a digest.
fn holds(books: &[(String, String)], ticker: &str) -> (found: bool)
    ensures
        found == replayed(pairs(books@), ticker@),
{
    let mut i: usize = 0;
    while i < books.len()
        invariant
            i <= books@.len(),
            forall|k: int| 0 <= k < i ==> (#[trigger] pairs(books@)[k]).0 != ticker@,
        decreases books@.len() - i,
    {
        assert(pairs(books@)[i as int] == (books@[i as int].0@, books@[i as int].1@));
        if text::same(books[i].0.as_str(), ticker) {
            return true;
        }
        i = i + 1;
    }
    false
}

// ---------------------------------------------------------------------------
// Lemmas
// ---------------------------------------------------------------------------

proof fn lemma_decimal_nonempty(n: nat)
    ensures
        text::decimal(n).len() > 0,
{
}

proof fn lemma_names_kept(store: StoreView, event: EventView, now_ms: u64)
    ensures
        store.applied(event, now_ms).0.names == store.names,
{
}

proof fn lemma_first_refusal(lines: Seq<Seq<char>>, m: int, n: int)
    requires
        0 <= m <= n,
        read_lines(lines, m) is Err,
    ensures
        read_lines(lines, n) == read_lines(lines, m),
    decreases n,
{
    if m < n {
        lemma_first_refusal(lines, m, n - 1);
    }
}

/// A ticker after all the others is not among them.
proof fn lemma_not_wanted(books: Seq<(Seq<char>, Seq<char>)>, ticker: Seq<char>)
    requires
        ordered(books),
        books.len() > 0 ==> text::precedes(books.last().0, ticker),
    ensures
        wanted(books, ticker) is None,
    decreases books.len(),
{
    if books.len() > 0 {
        if books.last().0 == ticker {
            text::lemma_precedes_asymmetric(ticker, ticker);
        }
        if books.len() > 1 {
            let last = books[books.len() - 1];
            let prior = books[books.len() - 2];
            assert(text::precedes(prior.0, last.0));
            text::lemma_precedes_transitive(prior.0, last.0, ticker);
        }
        assert(ordered(books.drop_last()));
        lemma_not_wanted(books.drop_last(), ticker);
    }
}

/// Putting a hash in its place keeps the order and answers for its ticker
/// alone.
pub proof fn lemma_inserted(
    books: Seq<(Seq<char>, Seq<char>)>,
    ticker: Seq<char>,
    hash: Seq<char>,
)
    requires
        ordered(books),
    ensures
        ordered(inserted(books, ticker, hash)),
        wanted(inserted(books, ticker, hash), ticker) == Some(hash),
        forall|other: Seq<char>|
            other != ticker ==> #[trigger] wanted(inserted(books, ticker, hash), other) == wanted(
                books,
                other,
            ),
        forall|i: int|
            0 <= i < inserted(books, ticker, hash).len() ==> (#[trigger] inserted(
                books,
                ticker,
                hash,
            )[i]).0 == ticker || (exists|j: int|
                0 <= j < books.len() && (#[trigger] books[j]).0 == inserted(
                    books,
                    ticker,
                    hash,
                )[i].0),
    decreases books.len(),
{
    let after = inserted(books, ticker, hash);
    if books.len() == 0 {
        assert(after.drop_last() =~= books);
    } else {
        let front = books.drop_last();
        assert(ordered(front));
        if books.last().0 == ticker {
            assert(after.drop_last() =~= front);
            assert forall|i: int, j: int| 0 <= i < j < after.len() implies text::precedes(
                (#[trigger] after[i]).0,
                (#[trigger] after[j]).0,
            ) by {
                assert(books[i].0 == after[i].0 && books[j].0 == after[j].0);
            }
            assert forall|i: int| 0 <= i < after.len() implies (#[trigger] after[i]).0 == ticker
                || (exists|j: int| 0 <= j < books.len() && (#[trigger] books[j]).0 == after[i].0) by {
                assert(books[i].0 == after[i].0);
            }
        } else if text::precedes(books.last().0, ticker) {
            assert(after.drop_last() =~= books);
            assert forall|i: int, j: int| 0 <= i < j < after.len() implies text::precedes(
                (#[trigger] after[i]).0,
                (#[trigger] after[j]).0,
            ) by {
                assert(books[i] == after[i]);
                if j < books.len() {
                    assert(books[j] == after[j]);
                } else if i < books.len() - 1 {
                    assert(text::precedes(books[i].0, books[books.len() - 1].0));
                    text::lemma_precedes_transitive(books[i].0, books.last().0, ticker);
                }
            }
            assert forall|i: int| 0 <= i < after.len() implies (#[trigger] after[i]).0 == ticker
                || (exists|j: int| 0 <= j < books.len() && (#[trigger] books[j]).0 == after[i].0) by {
                if i < books.len() {
                    assert(books[i].0 == after[i].0);
                }
            }
        } else {
            lemma_inserted(front, ticker, hash);
            let inner = inserted(front, ticker, hash);
            let last = books.last();
            text::lemma_precedes_total(last.0, ticker);
            assert(after.drop_last() =~= inner);
            assert forall|other: Seq<char>| other != ticker implies #[trigger] wanted(after, other)
                == wanted(books, other) by {
                assert(wanted(inner, other) == wanted(front, other));
            }
            assert forall|i: int, j: int| 0 <= i < j < after.len() implies text::precedes(
                (#[trigger] after[i]).0,
                (#[trigger] after[j]).0,
            ) by {
                assert(inner[i] == after[i]);
                if j < inner.len() {
                    assert(inner[j] == after[j]);
                } else if inner[i].0 != ticker {
                    let k = choose|k: int|
                        0 <= k < front.len() && (#[trigger] front[k]).0 == inner[i].0;
                    assert(front[k] == books[k]);
                    assert(text::precedes(books[k].0, books[books.len() - 1].0));
                }
            }
            assert forall|i: int| 0 <= i < after.len() implies (#[trigger] after[i]).0 == ticker
                || (exists|j: int| 0 <= j < books.len() && (#[trigger] books[j]).0 == after[i].0) by {
                if i < inner.len() {
                    assert(inner[i] == after[i]);
                    if inner[i].0 != ticker {
                        let k = choose|k: int|
                            0 <= k < front.len() && (#[trigger] front[k]).0 == inner[i].0;
                        assert(front[k] == books[k]);
                    }
                } else {
                    assert(books[books.len() - 1].0 == after[i].0);
                }
            }
        }
    }
}

// ---------------------------------------------------------------------------
// Laws
// ---------------------------------------------------------------------------

/// The same book apart from the time it was last touched.
pub open spec fn same_but_time(a: BookView, b: BookView) -> bool {
    a =~= (BookView { updated_at_ms: a.updated_at_ms, ..b })
}

/// Two stores that differ in nothing but when their books were touched.
pub open spec fn agree(a: StoreView, b: StoreView) -> bool {
    &&& a.names == b.names
    &&& a.expected == b.expected
    &&& a.metrics == b.metrics
    &&& a.books.len() == b.books.len()
    &&& forall|i: int|
        0 <= i < a.books.len() ==> same_but_time(#[trigger] a.books[i], b.books[i])
}

/// Two events that differ in nothing but the venue's timestamps.
pub open spec fn alike(a: EventView, b: EventView) -> bool {
    match (a, b) {
        (
            EventView::Snapshot { contract, yes, no, seq, .. },
            EventView::Snapshot { contract: c, yes: y, no: n, seq: q, .. },
        ) => contract == c && yes == y && no == n && seq == q,
        (
            EventView::Delta { contract, side, price, size_delta, seq, .. },
            EventView::Delta { contract: c, side: s, price: p, size_delta: d, seq: q, .. },
        ) => contract == c && side == s && price == p && size_delta == d && seq == q,
        (
            EventView::LevelSet { contract, side, price, size, .. },
            EventView::LevelSet { contract: c, side: s, price: p, size: z, .. },
        ) => contract == c && side == s && price == p && size == z,
        _ => a == b,
    }
}

/// The store and the log after the first `n` events of a run.
pub open spec fn run(
    store: StoreView,
    log: LogView,
    events: Seq<(EventView, u64)>,
    n: int,
) -> (StoreView, LogView)
    decreases n,
{
    if n <= 0 {
        (store, log)
    } else {
        let (before, logged) = run(store, log, events, n - 1);
        let (event, now_ms) = events[n - 1];
        let (after, next, _) = logged.applied(before, event, now_ms);
        (after, next)
    }
}

proof fn lemma_crossed_ignores_time(a: BookView, b: BookView)
    requires
        same_but_time(a, b),
    ensures
        a.crossed() == b.crossed(),
        forall|ticker: Seq<char>| #[trigger] book_text(a, ticker) == book_text(b, ticker),
{
}

/// One event, received at two times by two stores that agree, leaves them in
/// agreement, with the same outcome and the same line in the log.
pub proof fn time_never_decides_an_outcome(
    a: StoreView,
    b: StoreView,
    log: LogView,
    x: EventView,
    y: EventView,
    s: u64,
    t: u64,
)
    requires
        agree(a, b),
        alike(x, y),
    ensures
        agree(log.applied(a, x, s).0, log.applied(b, y, t).0),
        log.applied(a, x, s).1 == log.applied(b, y, t).1,
        log.applied(a, x, s).2 == log.applied(b, y, t).2,
{
    match x {
        EventView::Snapshot { contract, yes, no, seq, .. } => {
            if let (Some(p), Some(q)) = (a.own(contract), b.own(contract)) {
                assert(same_but_time(a.books[contract.0 as int], b.books[contract.0 as int]));
                if let (Ok(u), Ok(v)) = (p.snapshot(yes, no, seq, s), q.snapshot(yes, no, seq, t)) {
                    lemma_crossed_ignores_time(u, v);
                }
            }
            if contract.0 < a.books.len() {
                assert(same_but_time(a.books[contract.0 as int], b.books[contract.0 as int]));
            }
        },
        EventView::Delta { contract, side, price, size_delta, seq, .. } => {
            if contract.0 < a.books.len() {
                let p = a.books[contract.0 as int];
                let q = b.books[contract.0 as int];
                assert(same_but_time(p, q));
                if types::price_in_range(price as int) {
                    let u = p.delta(side, price as int, size_delta, seq, s);
                    let v = q.delta(side, price as int, size_delta, seq, t);
                    lemma_crossed_ignores_time(u, v);
                }
            }
        },
        EventView::LevelSet { contract, side, price, size, .. } => {
            if contract.0 < a.books.len() {
                let p = a.books[contract.0 as int];
                let q = b.books[contract.0 as int];
                assert(same_but_time(p, q));
                let u = p.level_set(side, price as int, size, s);
                let v = q.level_set(side, price as int, size, t);
                lemma_crossed_ignores_time(u, v);
            }
        },
        EventView::Disconnected { .. } => {},
        EventView::Resubscribed { contract } => {
            if contract.0 < a.books.len() {
                assert(same_but_time(a.books[contract.0 as int], b.books[contract.0 as int]));
            }
        },
    }
}

proof fn lemma_runs_agree(
    store: StoreView,
    log: LogView,
    live: Seq<(EventView, u64)>,
    replay: Seq<(EventView, u64)>,
    n: int,
)
    requires
        0 <= n <= live.len(),
        live.len() == replay.len(),
        forall|i: int| 0 <= i < live.len() ==> alike((#[trigger] live[i]).0, replay[i].0),
    ensures
        agree(run(store, log, live, n).0, run(store, log, replay, n).0),
        run(store, log, live, n).1 == run(store, log, replay, n).1,
    decreases n,
{
    if n > 0 {
        lemma_runs_agree(store, log, live, replay, n - 1);
        let (a, logged) = run(store, log, live, n - 1);
        let b = run(store, log, replay, n - 1).0;
        assert(alike(live[n - 1].0, replay[n - 1].0));
        time_never_decides_an_outcome(
            a,
            b,
            logged,
            live[n - 1].0,
            replay[n - 1].0,
            live[n - 1].1,
            replay[n - 1].1,
        );
    }
}

/// A run and its replay have the same digest: the same events give the same
/// books, counters and gap log whatever the clocks said.
pub proof fn a_replay_has_the_digest_of_the_run(
    store: StoreView,
    log: LogView,
    live: Seq<(EventView, u64)>,
    replay: Seq<(EventView, u64)>,
)
    requires
        live.len() == replay.len(),
        forall|i: int| 0 <= i < live.len() ==> alike((#[trigger] live[i]).0, replay[i].0),
    ensures
        ({
            let n = live.len() as int;
            let (a, x) = run(store, log, live, n);
            let (b, y) = run(store, log, replay, n);
            digested(a, x) == digested(b, y)
        }),
{
    let n = live.len() as int;
    lemma_runs_agree(store, log, live, replay, n);
    let (a, x) = run(store, log, live, n);
    let (b, y) = run(store, log, replay, n);
    assert forall|i: int| 0 <= i < a.books.len() implies #[trigger] digested(a, x).books[i]
        == digested(b, y).books[i] by {
        assert(same_but_time(a.books[i], b.books[i]));
        lemma_crossed_ignores_time(a.books[i], b.books[i]);
    }
    assert(digested(a, x).books =~= digested(b, y).books);
}

/// A digest that renders to lines its own reader can tell apart: tickers
/// without white space, none twice, hashes in hexadecimal, and no line feed
/// inside a line.
pub open spec fn readable(digest: DigestView) -> bool {
    &&& forall|i: int|
        0 <= i < digest.books.len() ==> is_word((#[trigger] digest.books[i]).0) && is_hash(
            digest.books[i].1,
        )
    &&& forall|i: int, j: int|
        0 <= i < j < digest.books.len() ==> (#[trigger] digest.books[i]).0 != (
        #[trigger] digest.books[j]).0
    &&& is_hash(digest.gaps)
    &&& forall|i: int|
        0 <= i < digest.gap_entries.len() ==> !(#[trigger] digest.gap_entries[i]).contains('\n')
    &&& !digest.metrics.contains('\n')
}

pub open spec fn is_word(s: Seq<char>) -> bool {
    s.len() > 0 && forall|i: int| 0 <= i < s.len() ==> !text::is_space(#[trigger] s[i])
}

/// The lines of a text that was put together from lines.
proof fn lemma_lines_back(entries: Seq<Seq<char>>, rest: Seq<char>)
    requires
        forall|i: int| 0 <= i < entries.len() ==> !(#[trigger] entries[i]).contains('\n'),
    ensures
        text::lines(lines_text(entries) + rest) == entries.map_values(
            |line: Seq<char>| text::without_return(line),
        ) + text::lines(rest),
    decreases entries.len(),
{
    let bare = |line: Seq<char>| text::without_return(line);
    if entries.len() == 0 {
        assert(lines_text(entries) + rest =~= rest);
        assert(entries.map_values(bare) + text::lines(rest) =~= text::lines(rest));
    } else {
        let front = entries.drop_last();
        let last = entries.last();
        let more = last.push('\n') + rest;
        assert forall|i: int| 0 <= i < front.len() implies !(#[trigger] front[i]).contains('\n') by {
            assert(front[i] == entries[i]);
        }
        lemma_lines_back(front, more);
        assert(lines_text(entries) + rest =~= lines_text(front) + more);
        text::lemma_lines_split(last, rest);
        assert(entries.map_values(bare) =~= front.map_values(bare).push(
            text::without_return(last),
        ));
        assert(front.map_values(bare) + (seq![text::without_return(last)] + text::lines(rest))
            =~= entries.map_values(bare) + text::lines(rest));
    }
}

proof fn lemma_first_word(head: Seq<char>, rest: Seq<char>)
    requires
        is_word(head),
    ensures
        text::words(head.push(' ') + rest) == seq![head] + text::words(rest),
{
    text::lemma_words_split(head, ' ', rest);
    text::lemma_one_word(head);
}

proof fn lemma_normalized(hash: Seq<char>)
    requires
        is_hash(hash),
    ensures
        normalized(hash) == Ok::<Seq<char>, ExpectErrorView>(hash),
{
    assert(!text::is_space(hash[0]) && !text::is_space(hash[63]));
    text::lemma_trimmed(hash);
    assert(text::lowered(hash) =~= hash);
}

/// Where every line but the first adds what a digest's line adds, reading
/// lines is reading them one by one.
proof fn lemma_book_line(expected: ExpectedView, ticker: Seq<char>, hash: Seq<char>, number: int)
    requires
        is_word(ticker),
        is_hash(hash),
    ensures
        ({
            let line = "book "@ + ticker + " "@ + hash;
            text::without_return(line) == line && expected.with_line(line, number)
                == expected.with_book(ticker, hash)
        }),
{
    reveal_strlit("book ");
    reveal_strlit("book");
    reveal_strlit(" ");
    reveal_strlit("gap");
    reveal_strlit("metrics");
    let line = "book "@ + ticker + " "@ + hash;
    let tail = ticker.push(' ') + hash;
    assert(line =~= "book"@.push(' ') + tail);
    lemma_first_word("book"@, tail);
    lemma_first_word(ticker, hash);
    assert(is_word(hash));
    text::lemma_one_word(hash);
    assert(text::words(line) =~= seq!["book"@, ticker, hash]);
    assert(line.last() == hash[63]);
    assert("book"@[0] != "gap"@[0] && "book"@[0] != "metrics"@[0]);
}

proof fn lemma_gaps_line(expected: ExpectedView, hash: Seq<char>, number: int)
    requires
        is_hash(hash),
    ensures
        ({
            let line = "gaps "@ + hash;
            text::without_return(line) == line && expected.with_line(line, number)
                == expected.with_gaps(hash)
        }),
{
    reveal_strlit("gaps ");
    reveal_strlit("gaps");
    reveal_strlit("book");
    reveal_strlit("gap");
    reveal_strlit("metrics");
    let line = "gaps "@ + hash;
    assert(line =~= "gaps"@.push(' ') + hash);
    lemma_first_word("gaps"@, hash);
    assert(is_word(hash));
    text::lemma_one_word(hash);
    assert(text::words(line) =~= seq!["gaps"@, hash]);
    assert(line.last() == hash[63]);
    assert("gaps"@.len() != "gap"@.len());
    assert("gaps"@[0] != "metrics"@[0]);
}

proof fn lemma_idle_line(expected: ExpectedView, head: Seq<char>, rest: Seq<char>, number: int)
    requires
        head == "gap"@ || head == "metrics"@,
    ensures
        expected.with_line(text::without_return(head.push(' ') + rest), number) == (
            expected,
            None::<ExpectErrorView>,
        ),
{
    reveal_strlit("gap");
    reveal_strlit("metrics");
    let line = head.push(' ') + rest;
    if rest.len() > 0 && rest.last() == '\r' {
        assert(text::without_return(line) =~= head.push(' ') + rest.drop_last());
        lemma_first_word(head, rest.drop_last());
    } else {
        if rest.len() == 0 {
            assert(line.last() == ' ');
        }
        lemma_first_word(head, rest);
    }
}

proof fn lemma_header_line(expected: ExpectedView, number: int)
    ensures
        text::without_return(DIGEST_HEADER@) == DIGEST_HEADER@,
        !DIGEST_HEADER@.contains('\n'),
        expected.with_line(DIGEST_HEADER@, number) == (expected, None::<ExpectErrorView>),
{
    reveal_strlit("# sum100 state digest v1 (timestamps excluded)");
    let rest = DIGEST_HEADER@.subrange(2, DIGEST_HEADER@.len() as int);
    let head = seq!['#'];
    assert(DIGEST_HEADER@ =~= head.push(' ') + rest);
    lemma_first_word(head, rest);
    assert(text::words(DIGEST_HEADER@)[0] == head);
}

/// The books of a digest after the first `n` of its `book` lines.
proof fn lemma_books_read(digest: DigestView, lines: Seq<Seq<char>>, n: int)
    requires
        readable(digest),
        0 <= n <= digest.books.len(),
        digest.books.len() < lines.len(),
        lines[0] == DIGEST_HEADER@,
        forall|i: int|
            0 <= i < digest.books.len() ==> #[trigger] lines[i + 1] == "book "@ + digest.books[i].0
                + " "@ + digest.books[i].1,
    ensures
        read_lines(lines, n + 1) matches Ok(expected) && {
            &&& expected.gaps is None
            &&& ordered(expected.books)
            &&& forall|i: int|
                0 <= i < n ==> wanted(expected.books, (#[trigger] digest.books[i]).0) == Some(
                    digest.books[i].1,
                )
            &&& forall|k: int|
                0 <= k < expected.books.len() ==> exists|i: int|
                    0 <= i < n && (#[trigger] digest.books[i]).0 == (
                    #[trigger] expected.books[k]).0
        },
    decreases n,
{
    if n == 0 {
        lemma_header_line(ExpectedView::empty(), 1);
        assert(read_lines(lines, 0) == Ok::<ExpectedView, ExpectErrorView>(ExpectedView::empty()));
        assert(read_lines(lines, 1) == Ok::<ExpectedView, ExpectErrorView>(ExpectedView::empty()));
    } else {
        lemma_books_read(digest, lines, n - 1);
        let before = read_lines(lines, n)->Ok_0;
        let (ticker, hash) = digest.books[n - 1];
        assert(lines[(n - 1) + 1] == "book "@ + ticker + " "@ + hash);
        lemma_book_line(before, ticker, hash, n + 1);
        lemma_normalized(hash);
        if wanted(before.books, ticker) is Some {
            lemma_wanted_stands(before.books, ticker);
            let k = choose|k: int|
                0 <= k < before.books.len() && (#[trigger] before.books[k]).0 == ticker;
            let i = choose|i: int|
                0 <= i < n - 1 && (#[trigger] digest.books[i]).0 == before.books[k].0;
            assert(digest.books[i].0 != digest.books[n - 1].0);
        }
        lemma_inserted(before.books, ticker, hash);
        let after = ExpectedView { books: inserted(before.books, ticker, hash), ..before };
        assert(read_lines(lines, n + 1) == Ok::<ExpectedView, ExpectErrorView>(after));
        assert forall|i: int| 0 <= i < n implies wanted(
            after.books,
            (#[trigger] digest.books[i]).0,
        ) == Some(digest.books[i].1) by {
            if i < n - 1 {
                assert(digest.books[i].0 != digest.books[n - 1].0);
                assert(wanted(after.books, digest.books[i].0) == wanted(
                    before.books,
                    digest.books[i].0,
                ));
            }
        }
        assert forall|k: int| 0 <= k < after.books.len() implies exists|i: int|
            0 <= i < n && (#[trigger] digest.books[i]).0 == (#[trigger] after.books[k]).0 by {
            if after.books[k].0 == ticker {
                assert(digest.books[n - 1].0 == after.books[k].0);
            } else {
                let j = choose|j: int|
                    0 <= j < before.books.len() && (#[trigger] before.books[j]).0
                        == after.books[k].0;
                let i = choose|i: int|
                    0 <= i < n - 1 && (#[trigger] digest.books[i]).0 == before.books[j].0;
                assert(digest.books[i].0 == after.books[k].0);
            }
        }
    }
}

proof fn lemma_wanted_stands(books: Seq<(Seq<char>, Seq<char>)>, ticker: Seq<char>)
    requires
        wanted(books, ticker) is Some,
    ensures
        exists|k: int| 0 <= k < books.len() && (#[trigger] books[k]).0 == ticker,
    decreases books.len(),
{
    if books.last().0 == ticker {
        assert(books[books.len() - 1].0 == ticker);
    } else {
        lemma_wanted_stands(books.drop_last(), ticker);
        let k = choose|k: int|
            0 <= k < books.drop_last().len() && (#[trigger] books.drop_last()[k]).0 == ticker;
        assert(books[k].0 == ticker);
    }
}

/// Lines that add nothing leave what was expected as it was.
proof fn lemma_idle_lines(lines: Seq<Seq<char>>, m: int, n: int)
    requires
        0 <= m <= n <= lines.len(),
        read_lines(lines, m) is Ok,
        forall|i: int, expected: ExpectedView|
            m <= i < n ==> #[trigger] expected.with_line(lines[i], i + 1) == (
                expected,
                None::<ExpectErrorView>,
            ),
    ensures
        read_lines(lines, n) == read_lines(lines, m),
    decreases n,
{
    if m < n {
        lemma_idle_lines(lines, m, n - 1);
        let expected = read_lines(lines, m)->Ok_0;
        assert(expected.with_line(lines[n - 1], (n - 1) + 1) == (
            expected,
            None::<ExpectErrorView>,
        ));
    }
}

proof fn lemma_no_failures(expected: ExpectedView, actual: DigestView, n: int, m: int)
    requires
        0 <= n <= actual.books.len(),
        0 <= m <= expected.books.len(),
        forall|i: int|
            0 <= i < n ==> wanted(expected.books, (#[trigger] actual.books[i]).0) == Some(
                actual.books[i].1,
            ),
        forall|k: int|
            0 <= k < m ==> replayed(actual.books, (#[trigger] expected.books[k]).0),
    ensures
        book_failures(expected.books, actual.books, n) == Seq::<Seq<char>>::empty(),
        missing_failures(expected.books, actual.books, m) == Seq::<Seq<char>>::empty(),
    decreases n + m,
{
    let none = Seq::<Seq<char>>::empty();
    assert(none + none =~= none);
    if n > 0 {
        lemma_no_failures(expected, actual, n - 1, 0);
        assert(wanted(expected.books, actual.books[n - 1].0) == Some(actual.books[n - 1].1));
    }
    if m > 0 {
        if n > 0 {
            lemma_no_failures(expected, actual, 0, m);
        } else {
            lemma_no_failures(expected, actual, 0, m - 1);
            assert(replayed(actual.books, expected.books[m - 1].0));
        }
    }
}

/// What a digest renders, its reader takes back, and the digest passes its own
/// check: rendering loses nothing that a replay is held to.
pub proof fn a_rendered_digest_accepts_its_own_run(digest: DigestView)
    requires
        readable(digest),
    ensures
        parsed(digest.rendered()) matches Ok(expected) && failures(expected, digest) == Seq::<
            Seq<char>,
        >::empty(),
{
    let all = digest.all_lines();
    let bare = |line: Seq<char>| text::without_return(line);
    let nb = digest.books.len() as int;
    let ng = digest.gap_entries.len() as int;
    reveal_strlit("book ");
    reveal_strlit(" ");
    reveal_strlit("gaps ");
    reveal_strlit("gap ");
    reveal_strlit("gap");
    reveal_strlit("metrics ");
    reveal_strlit("metrics");
    lemma_header_line(ExpectedView::empty(), 1);
    assert("gap "@ =~= "gap"@.push(' '));
    assert("metrics "@ =~= "metrics"@.push(' '));
    assert forall|i: int| 0 <= i < all.len() implies !(#[trigger] all[i]).contains('\n') by {
        lemma_line_is_whole(digest, i);
    }
    lemma_lines_back(all, Seq::empty());
    assert(lines_text(all) + Seq::<char>::empty() =~= digest.rendered());
    let lines = all.map_values(bare);
    assert(text::lines(digest.rendered()) =~= lines);
    assert forall|i: int| 0 <= i < nb implies #[trigger] lines[i + 1] == "book "@
        + digest.books[i].0 + " "@ + digest.books[i].1 by {
        assert(all[i + 1] == digest.book_lines()[i]);
        lemma_book_line(ExpectedView::empty(), digest.books[i].0, digest.books[i].1, 0);
    }
    assert(all[0] == DIGEST_HEADER@);
    lemma_books_read(digest, lines, nb);
    let booked = read_lines(lines, nb + 1)->Ok_0;
    assert(all[nb + 1] == "gaps "@ + digest.gaps);
    lemma_gaps_line(booked, digest.gaps, nb + 2);
    lemma_normalized(digest.gaps);
    let expected = ExpectedView { gaps: Some(digest.gaps), ..booked };
    assert(read_lines(lines, nb + 2) == Ok::<ExpectedView, ExpectErrorView>(expected));
    assert forall|i: int, held: ExpectedView|
        nb + 2 <= i < lines.len() implies #[trigger] held.with_line(lines[i], i + 1) == (
        held,
        None::<ExpectErrorView>,
    ) by {
        if i < nb + 2 + ng {
            let entry = digest.gap_entries[i - nb - 2];
            assert(all[i] == digest.gap_lines()[i - nb - 2]);
            assert(all[i] =~= "gap"@.push(' ') + entry);
            lemma_idle_line(held, "gap"@, entry, i + 1);
        } else {
            assert(all[i] =~= "metrics"@.push(' ') + digest.metrics);
            lemma_idle_line(held, "metrics"@, digest.metrics, i + 1);
        }
    }
    lemma_idle_lines(lines, nb + 2, lines.len() as int);
    assert forall|k: int| 0 <= k < expected.books.len() implies replayed(
        digest.books,
        (#[trigger] expected.books[k]).0,
    ) by {
        let i = choose|i: int|
            0 <= i < nb && (#[trigger] digest.books[i]).0 == expected.books[k].0;
        assert(digest.books[i].0 == expected.books[k].0);
    }
    lemma_no_failures(expected, digest, nb, expected.books.len() as int);
    let none = Seq::<Seq<char>>::empty();
    assert(none + none =~= none);
}

proof fn lemma_line_is_whole(digest: DigestView, i: int)
    requires
        readable(digest),
        0 <= i < digest.all_lines().len(),
    ensures
        !digest.all_lines()[i].contains('\n'),
{
    let all = digest.all_lines();
    let nb = digest.books.len() as int;
    let ng = digest.gap_entries.len() as int;
    reveal_strlit("book ");
    reveal_strlit(" ");
    reveal_strlit("gaps ");
    reveal_strlit("gap ");
    reveal_strlit("metrics ");
    lemma_header_line(ExpectedView::empty(), 1);
    if i == 0 {
        assert(all[0] == DIGEST_HEADER@);
    } else if i <= nb {
        assert(all[i] == digest.book_lines()[i - 1]);
        let (ticker, hash) = digest.books[i - 1];
        assert(is_word(ticker) && is_hash(hash));
        let line = "book "@ + ticker + " "@ + hash;
        assert forall|k: int| 0 <= k < line.len() implies line[k] != '\n' by {
            if 5 <= k < 5 + ticker.len() {
                assert(line[k] == ticker[k - 5]);
            } else if k >= 6 + ticker.len() {
                assert(line[k] == hash[k - 6 - ticker.len()]);
            }
        }
    } else if i == nb + 1 {
        let line = "gaps "@ + digest.gaps;
        assert(all[i] == line);
        assert forall|k: int| 0 <= k < line.len() implies line[k] != '\n' by {
            if k >= 5 {
                assert(line[k] == digest.gaps[k - 5]);
            }
        }
    } else if i < nb + 2 + ng {
        let entry = digest.gap_entries[i - nb - 2];
        let line = "gap "@ + entry;
        assert(all[i] == digest.gap_lines()[i - nb - 2]);
        assert forall|k: int| 0 <= k < line.len() implies line[k] != '\n' by {
            if k >= 4 {
                assert(line[k] == entry[k - 4]);
                assert(entry.contains(entry[k - 4]));
            }
        }
    } else {
        let line = "metrics "@ + digest.metrics;
        assert(all[i] == line);
        assert forall|k: int| 0 <= k < line.len() implies line[k] != '\n' by {
            if k >= 8 {
                assert(line[k] == digest.metrics[k - 8]);
                assert(digest.metrics.contains(digest.metrics[k - 8]));
            }
        }
    }
}

} // verus!
