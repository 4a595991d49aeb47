//! What a run prints: tables, summaries, and the registry in its own file
//! format. Everything here is text; nothing here decides anything.
use vstd::prelude::*;
use crate::book::{self, BookMetrics, BookStore, StoreView};
use crate::discovery::inference::{InferenceReport, InferredGroup, InferredKind, InferredView};
use crate::discovery::validation;
use crate::discovery::{self, Universe, UniverseView};
use crate::engine::EngineMetrics;
use crate::portfolio::PortfolioSummary;
use crate::registry::{self, CanonicalEvent, ConstraintGroup, EventId, EventView, GroupView};
use crate::registry::{Registry, RegistryView, Relation, RelationView};
use crate::solver::types::SolverMetrics;
use crate::text;
use crate::types::{self, Book, BookState, BookView, ContractId, Instrument, Level, Venue};

pub mod laws;

verus! {

// ---------------------------------------------------------------------------
// Columns
// ---------------------------------------------------------------------------

/// A run of spaces.
pub open spec fn spaces(n: int) -> Seq<char> {
    Seq::new(
        if n > 0 {
            n as nat
        } else {
            0
        },
        |i: int| ' ',
    )
}

/// A text filled up to a width on its right.
pub open spec fn left(s: Seq<char>, width: int) -> Seq<char> {
    s + spaces(width - s.len())
}

/// A text filled up to a width on its left.
pub open spec fn right(s: Seq<char>, width: int) -> Seq<char> {
    spaces(width - s.len()) + s
}

fn push_spaces(out: &mut String, n: usize)
    ensures
        final(out)@ == old(out)@ + spaces(n as int),
{
    let ghost before = out@;
    let mut i: usize = 0;
    assert(out@ =~= before + spaces(0));
    proof {
        reveal_strlit(" ");
    }
    while i < n
        invariant
            i <= n,
            out@ == before + spaces(i as int),
            before == old(out)@,
            " "@ == seq![' '],
        decreases n - i,
    {
        out.append(" ");
        assert(spaces(i + 1) =~= spaces(i as int) + seq![' ']);
        assert(out@ =~= before + spaces(i + 1));
        i = i + 1;
    }
}

/// Add a text, filled up to a width on its right.
fn push_left(out: &mut String, s: &str, width: usize)
    ensures
        final(out)@ == old(out)@ + left(s@, width as int),
{
    let n: usize = s.unicode_len();
    let ghost before = out@;
    out.append(s);
    if n < width {
        push_spaces(out, width - n);
    }
    assert(out@ =~= before + left(s@, width as int));
}

/// Add a text, filled up to a width on its left.
fn push_right(out: &mut String, s: &str, width: usize)
    ensures
        final(out)@ == old(out)@ + right(s@, width as int),
{
    let n: usize = s.unicode_len();
    let ghost before = out@;
    if n < width {
        push_spaces(out, width - n);
    }
    out.append(s);
    assert(out@ =~= before + right(s@, width as int));
}

fn unsigned_text(n: u64) -> (out: String)
    ensures
        out@ == text::decimal(n as nat),
{
    let mut out: String = String::new();
    text::push_u64(&mut out, n);
    assert(out@ =~= text::decimal(n as nat));
    out
}

fn signed_text(n: i64) -> (out: String)
    ensures
        out@ == text::signed_decimal(n as int),
{
    let mut out: String = String::new();
    text::push_i64(&mut out, n);
    assert(out@ =~= text::signed_decimal(n as int));
    out
}

// ---------------------------------------------------------------------------
// Books
// ---------------------------------------------------------------------------

/// One row of the book table.
pub struct Cells {
    pub ticker: Seq<char>,
    pub state: Seq<char>,
    pub seq: Seq<char>,
    pub yes_bid: Seq<char>,
    pub yes_ask: Seq<char>,
    pub no_bid: Seq<char>,
    pub no_ask: Seq<char>,
    pub age: Seq<char>,
}

/// A row as it stands on its line.
pub open spec fn row(cells: Cells) -> Seq<char> {
    left(cells.ticker, 32) + " "@ + left(cells.state, 14) + " "@ + right(cells.seq, 8) + " "@
        + right(cells.yes_bid, 12) + " "@ + right(cells.yes_ask, 12) + " "@ + right(
        cells.no_bid,
        12,
    ) + " "@ + right(cells.no_ask, 12) + " "@ + right(cells.age, 8)
}

/// What heads the columns.
pub open spec fn heading() -> Cells {
    Cells {
        ticker: "ticker"@,
        state: "state"@,
        seq: "seq"@,
        yes_bid: "yes_bid"@,
        yes_ask: "yes_ask"@,
        no_bid: "no_bid"@,
        no_ask: "no_ask"@,
        age: "age_ms"@,
    }
}

/// A price and a size, or a dash.
pub open spec fn level_text(level: Option<(int, int)>) -> Seq<char> {
    match level {
        Some((price, size)) => text::signed_decimal(price) + "x"@ + text::signed_decimal(size),
        None => "-"@,
    }
}

/// A level as a price and a size.
pub open spec fn quoted(level: Option<Level>) -> Option<(int, int)> {
    match level {
        Some(level) => Some((level.price as int, level.size as int)),
        None => None,
    }
}

pub open spec fn state_name(state: BookState) -> Seq<char> {
    match state {
        BookState::Uninitialized => "uninitialized"@,
        BookState::Resyncing => "resyncing"@,
        BookState::Live => "live"@,
    }
}

/// How long ago a book last moved; nothing where it never did.
pub open spec fn age_of(book: BookView, now_ms: u64) -> int {
    if book.updated_at_ms == 0 || now_ms < book.updated_at_ms {
        0
    } else {
        now_ms - book.updated_at_ms
    }
}

/// What a book's row says. A yes bid at `p` is a no ask at `100 - p`.
pub open spec fn book_cells(book: BookView, ticker: Seq<char>, now_ms: u64) -> Cells {
    let bid = quoted(types::first_level(book.bids()));
    Cells {
        ticker,
        state: state_name(book.state),
        seq: text::decimal(book.seq as nat),
        yes_bid: level_text(bid),
        yes_ask: level_text(quoted(types::first_level(book.asks()))),
        no_bid: level_text(quoted(types::first_level(book.no_bids()))),
        no_ask: level_text(
            match bid {
                Some((price, size)) => Some((100 - price, size)),
                None => None,
            },
        ),
        age: text::decimal(age_of(book, now_ms) as nat),
    }
}

/// The rows of the first `n` books, each under its ticker.
pub open spec fn book_rows(books: Seq<BookView>, names: Seq<Instrument>, now_ms: u64, n: int) -> Seq<
    Seq<char>,
>
    decreases n,
{
    if n <= 0 {
        Seq::empty()
    } else {
        let before = book_rows(books, names, now_ms, n - 1);
        let book = books[n - 1];
        if book.contract_id.0 < names.len() {
            before.push(row(book_cells(book, names[book.contract_id.0 as int].1, now_ms)))
        } else {
            before
        }
    }
}

fn row_text(
    ticker: &str,
    state: &str,
    seq: &str,
    quotes: (&str, &str, &str, &str),
    age: &str,
) -> (out: String)
    ensures
        out@ == row(
            (Cells {
                ticker: ticker@,
                state: state@,
                seq: seq@,
                yes_bid: quotes.0@,
                yes_ask: quotes.1@,
                no_bid: quotes.2@,
                no_ask: quotes.3@,
                age: age@,
            }),
        ),
{
    let mut out: String = String::new();
    push_left(&mut out, ticker, 32);
    assert(out@ =~= left(ticker@, 32));
    out.append(" ");
    push_left(&mut out, state, 14);
    out.append(" ");
    push_right(&mut out, seq, 8);
    out.append(" ");
    push_right(&mut out, quotes.0, 12);
    out.append(" ");
    push_right(&mut out, quotes.1, 12);
    out.append(" ");
    push_right(&mut out, quotes.2, 12);
    out.append(" ");
    push_right(&mut out, quotes.3, 12);
    out.append(" ");
    push_right(&mut out, age, 8);
    out
}

fn quote_text(level: Option<Level>) -> (out: String)
    ensures
        out@ == level_text(quoted(level)),
{
    match level {
        Some(level) => pair_text(level.price, level.size),
        None => "-".to_owned(),
    }
}

fn pair_text(price: i64, size: i64) -> (out: String)
    ensures
        out@ == level_text(Some((price as int, size as int))),
{
    let mut out: String = signed_text(price);
    out.append("x");
    text::push_i64(&mut out, size);
    out
}

fn book_line(book: &Book, ticker: &str, now_ms: u64) -> (out: String)
    requires
        book@.wf(),
    ensures
        out@ == row(book_cells(book@, ticker@, now_ms)),
{
    let state: &str = match book.state {
        BookState::Uninitialized => "uninitialized",
        BookState::Resyncing => "resyncing",
        BookState::Live => "live",
    };
    let seq: String = unsigned_text(book.seq);
    let best: Option<Level> = book.best_bid();
    let yes_bid: String = quote_text(best);
    let yes_ask: String = quote_text(book.best_ask());
    let no_bid: String = quote_text(book.best_no_bid());
    proof {
        types::lemma_resting(book@.yes, 100);
    }
    let no_ask: String = match best {
        Some(level) => pair_text(100 - level.price, level.size),
        None => "-".to_owned(),
    };
    let age: u64 = if book.updated_at_ms == 0 {
        0
    } else {
        now_ms.saturating_sub(book.updated_at_ms)
    };
    let age_text: String = unsigned_text(age);
    row_text(
        ticker,
        state,
        seq.as_str(),
        (yes_bid.as_str(), yes_ask.as_str(), no_bid.as_str(), no_ask.as_str()),
        age_text.as_str(),
    )
}

/// The best quotes of every book, for a visual check against the venue's page:
/// a heading, and a line to a book.
pub fn book_table(store: &BookStore, now_ms: u64) -> (lines: Vec<String>)
    requires
        store@.wf(),
    ensures
        text::views(lines@) == seq![row(heading())] + book_rows(
            store@.books,
            store@.names,
            now_ms,
            store@.books.len() as int,
        ),
{
    let mut lines: Vec<String> = Vec::new();
    lines.push(
        row_text("ticker", "state", "seq", ("yes_bid", "yes_ask", "no_bid", "no_ask"), "age_ms"),
    );
    let ghost all = store@.books;
    let books: &[Book] = store.books();
    let mut i: usize = 0;
    assert(text::views(lines@) =~= seq![row(heading())] + book_rows(all, store@.names, now_ms, 0));
    while i < books.len()
        invariant
            i <= books@.len(),
            all == store@.books,
            all == book::books_view(books@),
            store@.wf(),
            text::views(lines@) == seq![row(heading())] + book_rows(
                all,
                store@.names,
                now_ms,
                i as int,
            ),
        decreases books@.len() - i,
    {
        let book: &Book = &books[i];
        assert(all[i as int] == book@);
        match store.contracts().resolve(book.contract_id) {
            Some(found) => {
                let ghost before = lines@;
                let line: String = book_line(book, found.1.as_str(), now_ms);
                lines.push(line);
                assert(text::views(lines@) =~= text::views(before).push(line@));
                assert(seq![row(heading())] + book_rows(all, store@.names, now_ms, i + 1) =~= (seq![
                    row(heading()),
                ] + book_rows(all, store@.names, now_ms, i as int)).push(line@));
            },
            None => {},
        }
        i = i + 1;
    }
    lines
}

// ---------------------------------------------------------------------------
// The registry
// ---------------------------------------------------------------------------

/// The name of a relation in the registry file.
pub open spec fn relation_name(relation: RelationView) -> Seq<char> {
    match relation {
        RelationView::Complement { .. } => "complement"@,
        RelationView::Exhaustive { .. } => "exhaustive"@,
        RelationView::Monotone { .. } => "monotone"@,
        RelationView::Implies { .. } => "implies"@,
        RelationView::Equivalent { .. } => "equivalent"@,
    }
}

fn name_of(relation: &Relation) -> (name: &'static str)
    ensures
        name@ == relation_name(relation@),
{
    match relation {
        Relation::Complement { .. } => "complement",
        Relation::Exhaustive { .. } => "exhaustive",
        Relation::Monotone { .. } => "monotone",
        Relation::Implies { .. } => "implies",
        Relation::Equivalent { .. } => "equivalent",
    }
}

/// How many of the groups have a relation of this name.
pub open spec fn related(groups: Seq<GroupView>, name: Seq<char>) -> nat
    decreases groups.len(),
{
    if groups.len() == 0 {
        0
    } else {
        related(groups.drop_last(), name) + (if relation_name(groups.last().relation) == name {
            1nat
        } else {
            0nat
        })
    }
}

fn count_related(registry: &Registry, name: &str) -> (count: usize)
    requires
        registry.wf(),
    ensures
        count == related(registry@.groups, name@),
{
    let groups: &[ConstraintGroup] = registry.groups();
    let ghost all = registry@.groups;
    let mut count: usize = 0;
    let mut i: usize = 0;
    assert(all.subrange(0, 0) =~= Seq::<GroupView>::empty());
    while i < groups.len()
        invariant
            i <= groups@.len(),
            all == groups@.map_values(|g: ConstraintGroup| g@),
            count <= i,
            count == related(all.subrange(0, i as int), name@),
        decreases groups@.len() - i,
    {
        proof {
            let next = all.subrange(0, i + 1);
            assert(next.drop_last() =~= all.subrange(0, i as int));
            assert(next.last() == groups@[i as int]@);
        }
        if text::same(name_of(&groups[i].relation), name) {
            count = count + 1;
        }
        i = i + 1;
    }
    assert(all.subrange(0, all.len() as int) =~= all);
    count
}

/// One event of the summary.
pub open spec fn event_line(event: EventView) -> Seq<char> {
    "  "@ + left(event.key, 24) + " resolves "@ + event.resolves_at.shown() + "  "@
        + event.description
}

/// What the registry defines, line by line.
pub open spec fn registry_lines(registry: RegistryView) -> Seq<Seq<char>> {
    seq!["events     "@ + text::decimal(registry.events.len() as nat)]
        + registry.events.map_values(|e: EventView| event_line(e)) + seq![
        "groups     "@ + text::decimal(registry.groups.len() as nat) + " (complement "@
            + text::decimal(related(registry.groups, "complement"@)) + ", exhaustive "@
            + text::decimal(related(registry.groups, "exhaustive"@)) + ", monotone "@
            + text::decimal(related(registry.groups, "monotone"@)) + ", implies "@
            + text::decimal(related(registry.groups, "implies"@)) + ", equivalent "@
            + text::decimal(related(registry.groups, "equivalent"@)) + ")"@,
        "contracts  kalshi "@ + text::decimal(
            registry::tickers_of(registry.names, Venue::Kalshi).len(),
        ) + ", polymarket "@ + text::decimal(
            registry::tickers_of(registry.names, Venue::Polymarket).len(),
        ),
    ]
}

/// What the registry defines, line by line.
pub fn registry_summary(registry: &Registry) -> (lines: Vec<String>)
    requires
        registry.wf(),
    ensures
        text::views(lines@) == registry_lines(registry@),
{
    let events: &[CanonicalEvent] = registry.events();
    let ghost all = registry@.events;
    let mut lines: Vec<String> = Vec::new();
    let mut first: String = "events     ".to_owned();
    text::push_u64(&mut first, events.len() as u64);
    let ghost head = first@;
    lines.push(first);
    let mut i: usize = 0;
    while i < events.len()
        invariant
            i <= events@.len(),
            all == events@.map_values(|e: CanonicalEvent| e@),
            lines@.len() == i + 1,
            lines@[0]@ == head,
            forall|k: int| 0 <= k < i ==> (#[trigger] lines@[k + 1])@ == event_line(all[k]),
        decreases events@.len() - i,
    {
        let event: &CanonicalEvent = &events[i];
        assert(all[i as int] == event@);
        let mut line: String = "  ".to_owned();
        push_left(&mut line, event.key.as_str(), 24);
        line.append(" resolves ");
        let shown: String = event.resolves_at.to_rfc3339();
        line.append(shown.as_str());
        line.append("  ");
        line.append(event.description.as_str());
        let ghost before = lines@;
        lines.push(line);
        assert forall|k: int| 0 <= k < i + 1 implies (#[trigger] lines@[k + 1])@ == event_line(
            all[k],
        ) by {
            if k < i {
                assert(lines@[k + 1] == before[k + 1]);
            }
        }
        i = i + 1;
    }
    let mut groups: String = "groups     ".to_owned();
    text::push_u64(&mut groups, registry.groups().len() as u64);
    groups.append(" (complement ");
    text::push_u64(&mut groups, count_related(registry, "complement") as u64);
    groups.append(", exhaustive ");
    text::push_u64(&mut groups, count_related(registry, "exhaustive") as u64);
    groups.append(", monotone ");
    text::push_u64(&mut groups, count_related(registry, "monotone") as u64);
    groups.append(", implies ");
    text::push_u64(&mut groups, count_related(registry, "implies") as u64);
    groups.append(", equivalent ");
    text::push_u64(&mut groups, count_related(registry, "equivalent") as u64);
    groups.append(")");
    let ghost middle = groups@;
    lines.push(groups);
    let mut contracts: String = "contracts  kalshi ".to_owned();
    text::push_u64(&mut contracts, registry.tickers(Venue::Kalshi).len() as u64);
    contracts.append(", polymarket ");
    text::push_u64(&mut contracts, registry.tickers(Venue::Polymarket).len() as u64);
    let ghost tail = contracts@;
    lines.push(contracts);
    proof {
        let listed = all.map_values(|e: EventView| event_line(e));
        assert(registry_lines(registry@) =~= seq![head] + listed + seq![middle, tail]);
        assert forall|k: int| 0 <= k < lines@.len() implies (#[trigger] lines@[k])@ == (seq![head]
            + listed + seq![middle, tail])[k] by {
            if 0 < k <= all.len() {
                assert(lines@[(k - 1) + 1]@ == event_line(all[k - 1]));
            }
        }
        assert(text::views(lines@) =~= seq![head] + listed + seq![middle, tail]);
    }
    lines
}

// ---------------------------------------------------------------------------
// The registry as a file
// ---------------------------------------------------------------------------

/// The ticker a contract is bound to; nothing of one that is bound to none.
pub open spec fn ticker_of(registry: RegistryView, contract: ContractId) -> Seq<char> {
    if registry.bindings.contains_key(contract.0) {
        registry.bindings[contract.0].venue_ticker
    } else {
        Seq::empty()
    }
}

/// One member of a group, as the file writes it.
pub open spec fn member_text(registry: RegistryView, contract: ContractId) -> Seq<char> {
    "  { venue = \"kalshi\", ticker = \""@ + ticker_of(registry, contract) + "\" },\n"@
}

/// The members of a group, as the file writes them.
pub open spec fn members_text(registry: RegistryView, members: Seq<ContractId>) -> Seq<char>
    decreases members.len(),
{
    if members.len() == 0 {
        Seq::empty()
    } else {
        members_text(registry, members.drop_last()) + member_text(registry, members.last())
    }
}

/// A group, as the file writes it.
pub open spec fn group_text(registry: RegistryView, group: GroupView) -> Seq<char> {
    "\n[[event.group]]\ntype = \""@ + relation_name(group.relation) + "\"\nmembers = [\n"@
        + members_text(registry, group.relation.members()) + "]\n"@
}

/// A group stands under the event of its first member.
pub open spec fn stands_under(registry: RegistryView, group: GroupView, event: EventId) -> bool {
    let members = group.relation.members();
    members.len() > 0 && registry.bindings.contains_key(members[0].0)
        && registry.bindings[members[0].0].event == event
}

/// The groups under an event, as the file writes them.
pub open spec fn groups_text(
    registry: RegistryView,
    groups: Seq<GroupView>,
    event: EventId,
) -> Seq<char>
    decreases groups.len(),
{
    if groups.len() == 0 {
        Seq::empty()
    } else {
        let before = groups_text(registry, groups.drop_last(), event);
        if stands_under(registry, groups.last(), event) {
            before + group_text(registry, groups.last())
        } else {
            before
        }
    }
}

/// Whether any group stands under an event.
pub open spec fn has_groups(registry: RegistryView, event: EventId) -> bool {
    exists|i: int|
        0 <= i < registry.groups.len() && stands_under(
            registry,
            #[trigger] registry.groups[i],
            event,
        )
}

/// A text in which no double quote is left.
pub open spec fn unquoted(s: Seq<char>) -> Seq<char> {
    s.map_values(
        |c: char|
            if c == '"' {
                '\''
            } else {
                c
            },
    )
}

/// An event and its groups, as the file writes them; nothing of an event that
/// has none.
pub open spec fn event_text(registry: RegistryView, event: EventView) -> Seq<char> {
    if has_groups(registry, event.id) {
        "\n[[event]]\nid = \""@ + event.key + "\"\ndescription = \""@ + unquoted(event.description)
            + "\"\nresolves_at = \""@ + event.resolves_at.shown() + "\"\nresolution_source = \""@
            + event.resolution_source + "\"\n"@ + (match event.theme {
            Some(theme) => "theme = \""@ + theme + "\"\n"@,
            None => Seq::empty(),
        }) + groups_text(registry, registry.groups, event.id)
    } else {
        Seq::empty()
    }
}

/// What a rendered registry starts with.
pub open spec fn preamble() -> Seq<char> {
    "# Inferred from Kalshi metadata by `sum100 registry discover`.\n"@
        + "# Read it, promote what you trust into config/registry.toml, and delete\n"@
        + "# the rest. The engine does not load this file; it uses --auto-discover.\n"@
}

/// The first `n` events, as the file writes them.
pub open spec fn events_text(registry: RegistryView, n: int) -> Seq<char>
    decreases n,
{
    if n <= 0 {
        preamble()
    } else {
        events_text(registry, n - 1) + event_text(registry, registry.events[n - 1])
    }
}

/// Whether a group stands under an event.
fn under(registry: &Registry, group: &ConstraintGroup, event: EventId) -> (yes: bool)
    requires
        group.wf(),
    ensures
        yes == stands_under(registry@, group@, event),
{
    if group.members.len() == 0 {
        return false;
    }
    match registry.binding(group.members[0]) {
        Some(binding) => binding.event == event,
        None => false,
    }
}

fn push_group_text(out: &mut String, registry: &Registry, group: &ConstraintGroup)
    requires
        group.wf(),
    ensures
        final(out)@ == old(out)@ + group_text(registry@, group@),
{
    let ghost start = out@;
    out.append("\n[[event.group]]\ntype = \"");
    out.append(name_of(&group.relation));
    out.append("\"\nmembers = [\n");
    let ghost before = out@;
    let ghost all = group@.relation.members();
    let mut i: usize = 0;
    assert(all.subrange(0, 0) =~= Seq::<ContractId>::empty());
    assert(before + Seq::<char>::empty() =~= before);
    while i < group.members.len()
        invariant
            i <= group.members@.len(),
            all == group.members@,
            start == old(out)@,
            out@ == before + members_text(registry@, all.subrange(0, i as int)),
        decreases group.members@.len() - i,
    {
        let contract: ContractId = group.members[i];
        proof {
            let next = all.subrange(0, i + 1);
            assert(next.drop_last() =~= all.subrange(0, i as int));
            assert(next.last() == contract);
        }
        let ghost held = out@;
        out.append("  { venue = \"kalshi\", ticker = \"");
        match registry.binding(contract) {
            Some(binding) => out.append(binding.venue_ticker.as_str()),
            None => {
                assert(out@ + Seq::<char>::empty() =~= out@);
            },
        }
        out.append("\" },\n");
        assert(out@ =~= held + member_text(registry@, contract));
        assert(out@ =~= before + members_text(registry@, all.subrange(0, i + 1)));
        i = i + 1;
    }
    assert(all.subrange(0, all.len() as int) =~= all);
    out.append("]\n");
    assert(out@ =~= start + group_text(registry@, group@));
}

fn push_unquoted(out: &mut String, s: &str)
    ensures
        final(out)@ == old(out)@ + unquoted(s@),
{
    let letters: Vec<char> = text::chars(s);
    let mut kept: Vec<char> = Vec::new();
    let mut i: usize = 0;
    while i < letters.len()
        invariant
            i <= letters@.len(),
            kept@.len() == i,
            forall|k: int|
                0 <= k < i ==> #[trigger] kept@[k] == (if letters@[k] == '"' {
                    '\''
                } else {
                    letters@[k]
                }),
        decreases letters@.len() - i,
    {
        if letters[i] == '"' {
            kept.push('\'');
        } else {
            kept.push(letters[i]);
        }
        i = i + 1;
    }
    assert(kept@ =~= unquoted(s@));
    let plain: String = text::collect(kept.as_slice());
    out.append(plain.as_str());
}

fn push_event_text(out: &mut String, registry: &Registry, event: &CanonicalEvent)
    requires
        registry.wf(),
    ensures
        final(out)@ == old(out)@ + event_text(registry@, event@),
{
    let groups: &[ConstraintGroup] = registry.groups();
    let ghost all = registry@.groups;
    let ghost id = event.id;
    let mut body: String = String::new();
    let mut any: bool = false;
    let mut i: usize = 0;
    assert(all.subrange(0, 0) =~= Seq::<GroupView>::empty());
    assert(body@ =~= Seq::<char>::empty());
    while i < groups.len()
        invariant
            i <= groups@.len(),
            all == registry@.groups,
            all == groups@.map_values(|g: ConstraintGroup| g@),
            forall|k: int| 0 <= k < groups@.len() ==> (#[trigger] groups@[k]).wf(),
            id == event.id,
            body@ == groups_text(registry@, all.subrange(0, i as int), id),
            any == (exists|k: int|
                0 <= k < i && stands_under(registry@, #[trigger] all[k], id)),
        decreases groups@.len() - i,
    {
        let group: &ConstraintGroup = &groups[i];
        proof {
            let next = all.subrange(0, i + 1);
            assert(next.drop_last() =~= all.subrange(0, i as int));
            assert(next.last() == group@);
            assert(all[i as int] == group@);
        }
        if under(registry, group, event.id) {
            any = true;
            push_group_text(&mut body, registry, group);
        }
        i = i + 1;
    }
    assert(all.subrange(0, all.len() as int) =~= all);
    let ghost start = out@;
    if !any {
        assert(start + Seq::<char>::empty() =~= start);
        return;
    }
    assert(has_groups(registry@, id));
    out.append("\n[[event]]\nid = \"");
    out.append(event.key.as_str());
    out.append("\"\ndescription = \"");
    push_unquoted(out, event.description.as_str());
    out.append("\"\nresolves_at = \"");
    let shown: String = event.resolves_at.to_rfc3339();
    out.append(shown.as_str());
    out.append("\"\nresolution_source = \"");
    out.append(event.resolution_source.as_str());
    out.append("\"\n");
    let ghost before = out@;
    let ghost head = "\n[[event]]\nid = \""@ + event@.key + "\"\ndescription = \""@ + unquoted(
        event@.description,
    ) + "\"\nresolves_at = \""@ + event@.resolves_at.shown() + "\"\nresolution_source = \""@
        + event@.resolution_source + "\"\n"@;
    assert(before =~= start + head);
    let ghost mut theme_line = Seq::<char>::empty();
    match &event.theme {
        Some(theme) => {
            out.append("theme = \"");
            out.append(theme.as_str());
            out.append("\"\n");
            proof {
                theme_line = "theme = \""@ + theme@ + "\"\n"@;
            }
            assert(out@ =~= before + theme_line);
        },
        None => {
            assert(out@ =~= before + theme_line);
        },
    }
    out.append(body.as_str());
    assert(event_text(registry@, event@) == head + theme_line + body@);
    assert(out@ =~= start + (head + theme_line + body@));
}

/// Render an inferred registry in the file loader's own TOML shape.
///
/// This is for reading and for promoting groups by hand, not for the engine:
/// nothing loads it back automatically, because a file that silently became the
/// source of truth would hide the fact that a machine wrote it.
pub fn render_registry_toml(registry: &Registry) -> (out: String)
    requires
        registry.wf(),
    ensures
        out@ == events_text(registry@, registry@.events.len() as int),
{
    let mut out: String =
        "# Inferred from Kalshi metadata by `sum100 registry discover`.\n".to_owned();
    out.append("# Read it, promote what you trust into config/registry.toml, and delete\n");
    out.append("# the rest. The engine does not load this file; it uses --auto-discover.\n");
    let events: &[CanonicalEvent] = registry.events();
    let ghost all = registry@.events;
    let mut i: usize = 0;
    while i < events.len()
        invariant
            i <= events@.len(),
            registry.wf(),
            all == registry@.events,
            all == events@.map_values(|e: CanonicalEvent| e@),
            out@ == events_text(registry@, i as int),
        decreases events@.len() - i,
    {
        assert(all[i as int] == events@[i as int]@);
        push_event_text(&mut out, registry, &events[i]);
        i = i + 1;
    }
    out
}

// ---------------------------------------------------------------------------
// Discovery
// ---------------------------------------------------------------------------

/// One of the groups that a discovery found.
#[derive(Clone, Debug)]
pub struct SampleGroup {
    pub event_id: String,
    pub event_title: String,
    pub relation: String,
    pub members: Vec<String>,
}

/// What a discovery found, for both humans and scripts. The complete registry
/// stays in memory; the output carries a bounded sample so a full Kalshi
/// universe does not turn one command into a multi-megabyte log line.
#[derive(Clone, Debug)]
pub struct DiscoveryOutput {
    pub events: usize,
    pub markets: usize,
    pub constraint_groups: usize,
    pub binary_events: usize,
    pub binary_complements: usize,
    pub exhaustive_sets: usize,
    pub ladders: usize,
    pub other_events: usize,
    pub registry_events: usize,
    pub kalshi_contracts: usize,
    pub inferred_groups: usize,
    pub sample_groups: Vec<SampleGroup>,
}

/// What a sample says of a group.
pub open spec fn samples(sample: SampleGroup, universe: UniverseView, group: InferredView) -> bool {
    &&& sample.event_id@ == group.event_ticker
    &&& sample.event_title@ == (match discovery::event_at(universe.events, group.event_ticker) {
        Some(event) => event.title,
        None => Seq::empty(),
    })
    &&& sample.relation@ == text::lowered(validation::kind_name(group.relation_kind))
    &&& text::views(sample.members@) == group.tickers
}

/// The largest sample of groups.
pub const SAMPLE: usize = 10;

/// What is left of a number, never less than nothing.
pub open spec fn less_at_most(a: int, b: int) -> int {
    if a > b {
        a - b
    } else {
        0
    }
}

fn kind_text(kind: InferredKind) -> (name: &'static str)
    ensures
        name@ == text::lowered(validation::kind_name(kind)),
{
    proof {
        reveal_strlit("Complement");
        reveal_strlit("complement");
        reveal_strlit("Exhaustive");
        reveal_strlit("exhaustive");
        reveal_strlit("Monotone");
        reveal_strlit("monotone");
        assert("complement"@ =~= text::lowered("Complement"@));
        assert("exhaustive"@ =~= text::lowered("Exhaustive"@));
        assert("monotone"@ =~= text::lowered("Monotone"@));
    }
    match kind {
        InferredKind::Complement => "complement",
        InferredKind::Exhaustive => "exhaustive",
        InferredKind::Monotone => "monotone",
    }
}

/// What a discovery found.
pub fn discovery_output(
    universe: &Universe,
    groups: &[InferredGroup],
    report: &InferenceReport,
    registry: &Registry,
) -> (output: DiscoveryOutput)
    requires
        registry.wf(),
    ensures
        output.events == report.events,
        output.markets == report.markets,
        output.constraint_groups == groups@.len(),
        output.binary_events == report.binary_events,
        output.binary_complements == report.complements,
        output.exhaustive_sets == report.exhaustive_sets,
        output.ladders == report.ladders,
        output.other_events == less_at_most(
            less_at_most(report.events as int, report.binary_events as int),
            report.ladders as int,
        ),
        output.registry_events == registry@.events.len(),
        output.kalshi_contracts == registry::tickers_of(registry@.names, Venue::Kalshi).len(),
        output.inferred_groups == registry@.groups.filter(|g: GroupView| g.inferred).len(),
        output.sample_groups@.len() == (if groups@.len() > SAMPLE {
            SAMPLE as int
        } else {
            groups@.len() as int
        }),
        forall|i: int|
            0 <= i < output.sample_groups@.len() ==> samples(
                #[trigger] output.sample_groups@[i],
                universe@,
                groups@[i]@,
            ),
{
    let mut sample_groups: Vec<SampleGroup> = Vec::new();
    let mut i: usize = 0;
    while i < groups.len() && i < SAMPLE
        invariant
            i <= groups@.len(),
            i <= SAMPLE,
            sample_groups@.len() == i,
            forall|k: int|
                0 <= k < i ==> samples(#[trigger] sample_groups@[k], universe@, groups@[k]@),
        decreases groups@.len() - i,
    {
        let group: &InferredGroup = &groups[i];
        let event_title: String = match universe.event(group.event_ticker.as_str()) {
            Some(event) => event.title.as_str().to_owned(),
            None => String::new(),
        };
        let sample = SampleGroup {
            event_id: group.event_ticker.as_str().to_owned(),
            event_title,
            relation: kind_text(group.relation_kind).to_owned(),
            members: text::copies(group.tickers.as_slice()),
        };
        assert(samples(sample, universe@, group@));
        sample_groups.push(sample);
        i = i + 1;
    }
    let plain: usize = report.events.saturating_sub(report.binary_events);
    DiscoveryOutput {
        events: report.events,
        markets: report.markets,
        constraint_groups: groups.len(),
        binary_events: report.binary_events,
        binary_complements: report.complements,
        exhaustive_sets: report.exhaustive_sets,
        ladders: report.ladders,
        other_events: plain.saturating_sub(report.ladders),
        registry_events: registry.events().len(),
        kalshi_contracts: registry.tickers(Venue::Kalshi).len(),
        inferred_groups: registry.inferred_count(),
        sample_groups,
    }
}

// ---------------------------------------------------------------------------
// A run
// ---------------------------------------------------------------------------

/// Lines with one more for a count that is not zero.
pub open spec fn counted(lines: Seq<Seq<char>>, label: Seq<char>, count: u64) -> Seq<Seq<char>> {
    if count > 0 {
        lines.push(left(label, 22) + " "@ + text::decimal(count as nat))
    } else {
        lines
    }
}

/// What the engine did: what it saw, and what the solver made of it.
pub open spec fn activity_lines(
    engine: EngineMetrics,
    solver: SolverMetrics,
    store: StoreView,
    received: u64,
    lagged: u64,
) -> Seq<Seq<char>> {
    let lines = Seq::<Seq<char>>::empty().push(""@);
    let lines = lines.push("events received      "@ + text::decimal(engine.events_received as nat));
    let lines = lines.push("books updated        "@ + text::decimal(engine.books_updated as nat));
    let lines = lines.push("groups dirtied       "@ + text::decimal(engine.groups_dirtied as nat));
    let lines = lines.push("groups evaluated     "@ + text::decimal(solver.groups_evaluated as nat));
    let lines = lines.push("candidates found     "@ + text::decimal(solver.candidates_found as nat));
    let lines = lines.push("signals accepted     "@ + text::decimal(solver.opportunities_emitted as nat));
    let lines = lines.push("sequence gaps        "@ + text::decimal(engine.sequence_gaps as nat));
    let lines = lines.push(
        "states broadcast     "@ + text::decimal(received as nat) + " (lagged "@ + text::decimal(
            lagged as nat,
        ) + ")"@,
    );
    let lines = lines.push(
        "books                "@ + text::decimal(book::count_in(store.books, BookState::Live) as nat)
            + " live, "@ + text::decimal(book::count_in(store.books, BookState::Resyncing) as nat)
            + " resyncing, "@ + text::decimal(
            book::count_in(store.books, BookState::Uninitialized) as nat,
        ) + " uninitialized"@,
    );
    lines.push(
        "  snapshots "@ + text::decimal(store.metrics.snapshots_applied as nat) + ", deltas "@
            + text::decimal(store.metrics.deltas_applied as nat) + ", skipped "@ + text::decimal(
            store.metrics.deltas_skipped_not_live as nat,
        ) + ", crossed seen "@ + text::decimal(store.metrics.crossed_books_observed as nat),
    )
}

/// What became of the trades.
pub open spec fn trade_lines(lines: Seq<Seq<char>>, engine: EngineMetrics) -> Seq<Seq<char>> {
    let lines = lines.push(""@);
    let lines = lines.push("trades placed        "@ + text::decimal(engine.trades_placed as nat));
    let lines = lines.push("trades missed        "@ + text::decimal(engine.trades_no_fill as nat));
    let lines = if engine.trades_needing_reconciliation > 0 {
        lines.push(
            "NEEDS RECONCILIATION "@ + text::decimal(engine.trades_needing_reconciliation as nat)
                + " (legged or timed out; a position may be live)"@,
        )
    } else {
        lines
    };
    let lines = counted(lines, "  venue unhealthy"@, engine.blocked_unhealthy);
    let lines = counted(lines, "  no capital"@, engine.blocked_no_capital);
    let lines = counted(lines, "  risk limit"@, engine.blocked_risk_limit);
    let lines = counted(lines, "  unbound contract"@, engine.blocked_unbound_contract);
    lines
}

/// Where the money stands.
pub open spec fn capital_lines(lines: Seq<Seq<char>>, portfolio: PortfolioSummary) -> Seq<Seq<char>> {
    let lines = lines.push(""@);
    let lines = lines.push(
        "capital              "@ + text::signed_decimal(portfolio.capital_available_cents as int)
            + " available, "@ + text::signed_decimal(portfolio.capital_locked_cents as int)
            + " locked"@,
    );
    let lines = lines.push(
        "open positions       "@ + text::decimal(portfolio.open_positions as nat),
    );
    let lines = lines.push(
        "pnl                  "@ + text::signed_decimal(portfolio.pnl_realized_cents as int)
            + " realized, "@ + text::signed_decimal(portfolio.pnl_unrealized_cents as int)
            + " unrealized"@,
    );
    lines.push(
        "daily loss           "@ + text::signed_decimal(portfolio.daily_loss_cents as int) + " of "@
            + text::signed_decimal(portfolio.daily_loss_limit_cents as int),
    )
}

/// Why candidates were turned down.
pub open spec fn rejection_lines(lines: Seq<Seq<char>>, solver: SolverMetrics) -> Seq<Seq<char>> {
    let lines = lines.push(""@);
    let lines = lines.push("rejections           "@ + text::decimal(solver.total() as nat));
    let lines = counted(lines, "  not live"@, solver.rejected_not_live);
    let lines = counted(lines, "  stale"@, solver.rejected_stale);
    let lines = counted(lines, "  missing book"@, solver.rejected_missing_book);
    let lines = counted(lines, "  unverified"@, solver.rejected_unverified);
    let lines = counted(lines, "  no depth"@, solver.rejected_no_depth);
    let lines = counted(lines, "  fees exceed gap"@, solver.rejected_fees_exceed_gap);
    let lines = counted(lines, "  below min edge"@, solver.rejected_below_min_edge);
    let lines = counted(lines, "  below min return"@, solver.rejected_below_min_return);
    let lines = counted(lines, "  payoff not guaranteed"@, solver.rejected_payoff_not_guaranteed);
    lines
}

/// What a run did, line by line.
pub open spec fn scan_lines(
    engine: EngineMetrics,
    solver: SolverMetrics,
    store: StoreView,
    portfolio: PortfolioSummary,
    received: u64,
    lagged: u64,
) -> Seq<Seq<char>> {
    rejection_lines(
        capital_lines(
            trade_lines(activity_lines(engine, solver, store, received, lagged), engine),
            portfolio,
        ),
        solver,
    )
}

fn push_line(lines: &mut Vec<String>, line: String)
    ensures
        text::views(final(lines)@) == text::views(old(lines)@).push(line@),
{
    lines.push(line);
    assert(text::views(lines@) =~= text::views(old(lines)@).push(line@));
}

/// Add a label and a count.
fn push_count(lines: &mut Vec<String>, label: &str, count: u64)
    ensures
        text::views(final(lines)@) == text::views(old(lines)@).push(
            label@ + text::decimal(count as nat),
        ),
{
    let mut line: String = label.to_owned();
    text::push_u64(&mut line, count);
    push_line(lines, line);
}

/// Add a label and a count that is not zero.
fn push_counted(lines: &mut Vec<String>, label: &str, count: u64)
    ensures
        text::views(final(lines)@) == counted(text::views(old(lines)@), label@, count),
{
    if count > 0 {
        let mut line: String = String::new();
        push_left(&mut line, label, 22);
        assert(line@ =~= left(label@, 22));
        line.append(" ");
        text::push_u64(&mut line, count);
        push_line(lines, line);
    }
}

fn activity(
    engine: &EngineMetrics,
    solver: &SolverMetrics,
    store: &BookStore,
    received: u64,
    lagged: u64,
) -> (lines: Vec<String>)
    ensures
        text::views(lines@) == activity_lines(*engine, *solver, store@, received, lagged),
{
    let mut lines: Vec<String> = Vec::new();
    assert(text::views(lines@) =~= Seq::<Seq<char>>::empty());
    push_line(&mut lines, "".to_owned());
    push_count(&mut lines, "events received      ", engine.events_received);
    push_count(&mut lines, "books updated        ", engine.books_updated);
    push_count(&mut lines, "groups dirtied       ", engine.groups_dirtied);
    push_count(&mut lines, "groups evaluated     ", solver.groups_evaluated);
    push_count(&mut lines, "candidates found     ", solver.candidates_found);
    push_count(&mut lines, "signals accepted     ", solver.opportunities_emitted);
    push_count(&mut lines, "sequence gaps        ", engine.sequence_gaps);
    let mut states: String = "states broadcast     ".to_owned();
    text::push_u64(&mut states, received);
    states.append(" (lagged ");
    text::push_u64(&mut states, lagged);
    states.append(")");
    push_line(&mut lines, states);
    let (uninitialized, resyncing, live): (u64, u64, u64) = BookMetrics::books_by_state(store);
    let mut books: String = "books                ".to_owned();
    text::push_u64(&mut books, live);
    books.append(" live, ");
    text::push_u64(&mut books, resyncing);
    books.append(" resyncing, ");
    text::push_u64(&mut books, uninitialized);
    books.append(" uninitialized");
    push_line(&mut lines, books);
    let metrics: BookMetrics = store.counters();
    let mut applied: String = "  snapshots ".to_owned();
    text::push_u64(&mut applied, metrics.snapshots_applied);
    applied.append(", deltas ");
    text::push_u64(&mut applied, metrics.deltas_applied);
    applied.append(", skipped ");
    text::push_u64(&mut applied, metrics.deltas_skipped_not_live);
    applied.append(", crossed seen ");
    text::push_u64(&mut applied, metrics.crossed_books_observed);
    push_line(&mut lines, applied);
    lines
}

fn push_trades(lines: &mut Vec<String>, engine: &EngineMetrics)
    ensures
        text::views(final(lines)@) == trade_lines(text::views(old(lines)@), *engine),
{
    push_line(lines, "".to_owned());
    push_count(lines, "trades placed        ", engine.trades_placed);
    push_count(lines, "trades missed        ", engine.trades_no_fill);
    if engine.trades_needing_reconciliation > 0 {
        let mut line: String = "NEEDS RECONCILIATION ".to_owned();
        text::push_u64(&mut line, engine.trades_needing_reconciliation);
        line.append(" (legged or timed out; a position may be live)");
        push_line(lines, line);
    }
    push_counted(lines, "  venue unhealthy", engine.blocked_unhealthy);
    push_counted(lines, "  no capital", engine.blocked_no_capital);
    push_counted(lines, "  risk limit", engine.blocked_risk_limit);
    push_counted(lines, "  unbound contract", engine.blocked_unbound_contract);
}

fn push_capital(lines: &mut Vec<String>, portfolio: &PortfolioSummary)
    ensures
        text::views(final(lines)@) == capital_lines(text::views(old(lines)@), *portfolio),
{
    push_line(lines, "".to_owned());
    let mut capital: String = "capital              ".to_owned();
    text::push_i64(&mut capital, portfolio.capital_available_cents);
    capital.append(" available, ");
    text::push_i64(&mut capital, portfolio.capital_locked_cents);
    capital.append(" locked");
    push_line(lines, capital);
    push_count(lines, "open positions       ", portfolio.open_positions as u64);
    let mut pnl: String = "pnl                  ".to_owned();
    text::push_i64(&mut pnl, portfolio.pnl_realized_cents);
    pnl.append(" realized, ");
    text::push_i64(&mut pnl, portfolio.pnl_unrealized_cents);
    pnl.append(" unrealized");
    push_line(lines, pnl);
    let mut loss: String = "daily loss           ".to_owned();
    text::push_i64(&mut loss, portfolio.daily_loss_cents);
    loss.append(" of ");
    text::push_i64(&mut loss, portfolio.daily_loss_limit_cents);
    push_line(lines, loss);
}

fn push_rejections(lines: &mut Vec<String>, solver: &SolverMetrics)
    requires
        solver.total() <= u64::MAX,
    ensures
        text::views(final(lines)@) == rejection_lines(text::views(old(lines)@), *solver),
{
    push_line(lines, "".to_owned());
    push_count(lines, "rejections           ", solver.rejections());
    push_counted(lines, "  not live", solver.rejected_not_live);
    push_counted(lines, "  stale", solver.rejected_stale);
    push_counted(lines, "  missing book", solver.rejected_missing_book);
    push_counted(lines, "  unverified", solver.rejected_unverified);
    push_counted(lines, "  no depth", solver.rejected_no_depth);
    push_counted(lines, "  fees exceed gap", solver.rejected_fees_exceed_gap);
    push_counted(lines, "  below min edge", solver.rejected_below_min_edge);
    push_counted(lines, "  below min return", solver.rejected_below_min_return);
    push_counted(lines, "  payoff not guaranteed", solver.rejected_payoff_not_guaranteed);
}

/// What a run did, line by line.
pub fn scan_report(
    engine: &EngineMetrics,
    solver: &SolverMetrics,
    store: &BookStore,
    portfolio: &PortfolioSummary,
    received: u64,
    lagged: u64,
) -> (lines: Vec<String>)
    requires
        solver.total() <= u64::MAX,
    ensures
        text::views(lines@) == scan_lines(*engine, *solver, store@, *portfolio, received, lagged),
{
    let mut lines: Vec<String> = activity(engine, solver, store, received, lagged);
    push_trades(&mut lines, engine);
    push_capital(&mut lines, portfolio);
    push_rejections(&mut lines, solver);
    lines
}

} // verus!
