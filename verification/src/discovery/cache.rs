//! How much of the venue to take, and when a stored picture of it will do.
use vstd::prelude::*;
use super::{MarketView, RawEvent, RawEventView, RawMarket, Universe, UniverseView};
use crate::discovery;
use crate::feed::rest::{Event, Market};
use crate::order;
use crate::text;

verus! {

/// How much of the venue to take.
#[derive(Clone, Debug, PartialEq)]
pub struct DiscoveryScope {
    /// Venue status filter. Empty takes everything.
    pub status: String,
    /// One series, such as `KXBTCD`. `None` walks the whole venue, which on
    /// Kalshi is over twelve thousand open markets.
    pub series: Option<String>,
    /// Bound on pagination, so a discovery run cannot become a crawl.
    pub max_pages: usize,
}

/// What a [`DiscoveryScope`] says.
#[verifier::ext_equal]
pub struct ScopeView {
    pub status: Seq<char>,
    pub series: Option<Seq<char>>,
    pub max_pages: usize,
}

impl View for DiscoveryScope {
    type V = ScopeView;

    open spec fn view(&self) -> ScopeView {
        ScopeView {
            status: self.status@,
            series: text::optional(self.series),
            max_pages: self.max_pages,
        }
    }
}

/// Every open market. 100 pages covers the current Kalshi universe at the
/// venue's page sizes while retaining a hard stop if the API ever returns a
/// pathological cursor chain.
pub open spec fn whole_venue() -> ScopeView {
    ScopeView { status: "open"@, series: None, max_pages: 100 }
}

impl Default for DiscoveryScope {
    fn default() -> (scope: Self)
        ensures
            scope@ == whole_venue(),
    {
        DiscoveryScope { status: "open".to_owned(), series: None, max_pages: 100 }
    }
}

/// Whether a scope takes a market of this status.
///
/// The series endpoint does not take the status filter, so the same filter is
/// applied to what came back: a scoped cache cannot accidentally hold closed
/// markets.
pub open spec fn takes(scope: ScopeView, status: Seq<char>) -> bool {
    scope.status.len() == 0 || status == scope.status
}

/// The markets that a scope takes.
pub open spec fn taken(scope: ScopeView, markets: Seq<RawMarket>) -> Seq<MarketView> {
    discovery::markets_view(markets).filter(|m: MarketView| takes(scope, m.status))
}

/// What the venue lists, as the reduced form.
pub open spec fn raw_markets(markets: Seq<Market>) -> Seq<RawMarket> {
    markets.map_values(|m: Market| discovery::reduced_market(m))
}

pub open spec fn raw_events(events: Seq<Event>) -> Seq<RawEvent> {
    events.map_values(|e: Event| discovery::reduced_event(e))
}

/// Events in the order of their tickers.
pub open spec fn by_event_ticker(events: Seq<RawEventView>) -> Seq<RawEventView> {
    order::arranged(
        events,
        |a: RawEventView, b: RawEventView| order::text_later(a.event_ticker, b.event_ticker),
    )
}

/// What a fetch leaves: the markets in scope and every event, in the order of
/// their tickers. Deterministic order in, deterministic contract ids out.
pub open spec fn assembled(
    scope: ScopeView,
    markets: Seq<Market>,
    events: Seq<Event>,
    now_ms: u64,
) -> UniverseView {
    UniverseView {
        fetched_at_ms: now_ms,
        markets: discovery::by_ticker(taken(scope, raw_markets(markets))),
        events: by_event_ticker(discovery::events_view(raw_events(events))),
    }
}

/// The universe that a fetch of markets and events leaves.
pub fn assemble(
    scope: &DiscoveryScope,
    markets: Vec<Market>,
    events: Vec<Event>,
    now_ms: u64,
) -> (universe: Universe)
    ensures
        universe@ == assembled(scope@, markets@, events@, now_ms),
{
    let ghost listed = raw_markets(markets@);
    let ghost given = markets@;
    let mut kept: Vec<RawMarket> = Vec::new();
    let ghost wanted = |m: MarketView| takes(scope@, m.status);
    proof {
        reveal(Seq::filter);
        assert(discovery::markets_view(listed.subrange(0, 0)) =~= Seq::<MarketView>::empty());
        assert(discovery::markets_view(kept@) =~= Seq::<MarketView>::empty());
    }
    for market in it: markets
        invariant
            it.seq() == given,
            listed == raw_markets(given),
            wanted == (|m: MarketView| takes(scope@, m.status)),
            discovery::markets_view(kept@) == taken(
                scope@,
                listed.subrange(0, it.index() as int),
            ),
    {
        let ghost done = listed.subrange(0, it.index() as int);
        let raw: RawMarket = RawMarket::from(market);
        proof {
            assert(raw == listed[it.index() as int]);
            let next = listed.subrange(0, it.index() + 1);
            assert(discovery::markets_view(next) =~= discovery::markets_view(done).push(raw@));
            discovery::markets_view(done).lemma_filter_push(raw@, wanted);
        }
        if scope.status.as_str().unicode_len() == 0 || text::same(
            raw.status.as_str(),
            scope.status.as_str(),
        ) {
            let ghost before = kept@;
            kept.push(raw);
            assert(discovery::markets_view(kept@) =~= discovery::markets_view(before).push(raw@));
        }
    }
    assert(listed.subrange(0, listed.len() as int) =~= listed);
    let ghost all_events = raw_events(events@);
    let ghost given_events = events@;
    let mut found: Vec<RawEvent> = Vec::new();
    for event in it: events
        invariant
            it.seq() == given_events,
            all_events == raw_events(given_events),
            found@ == all_events.subrange(0, it.index() as int),
    {
        let raw: RawEvent = RawEvent::from(event);
        assert(raw == all_events[it.index() as int]);
        found.push(raw);
        assert(found@ =~= all_events.subrange(0, it.index() + 1));
    }
    assert(all_events.subrange(0, all_events.len() as int) =~= all_events);
    Universe {
        fetched_at_ms: now_ms,
        markets: sort_markets(kept.as_slice()),
        events: sort_events(found.as_slice()),
    }
}

/// Markets in the order of their tickers.
fn sort_markets(markets: &[RawMarket]) -> (sorted: Vec<RawMarket>)
    ensures
        discovery::markets_view(sorted@) == discovery::by_ticker(discovery::markets_view(markets@)),
{
    let turn: Vec<&RawMarket> = discovery::ordered_markets(markets);
    let ghost ranked = discovery::refs_view(turn@);
    let mut sorted: Vec<RawMarket> = Vec::new();
    let mut j: usize = 0;
    while j < turn.len()
        invariant
            j <= turn@.len(),
            sorted@.len() == j,
            forall|k: int| 0 <= k < j ==> (#[trigger] sorted@[k])@ == turn@[k]@,
        decreases turn@.len() - j,
    {
        sorted.push(turn[j].clone());
        j = j + 1;
    }
    assert(discovery::markets_view(sorted@) =~= ranked);
    sorted
}

/// The events of a list, in the order of their tickers.
pub(crate) fn ordered_events(events: &[RawEvent]) -> (ordered: Vec<&RawEvent>)
    ensures
        ordered@.map_values(|e: &RawEvent| e@) == by_event_ticker(
            discovery::events_view(events@),
        ),
{
    let ghost all = discovery::events_view(events@);
    let ghost ticker = |e: RawEventView| e.event_ticker;
    let mut tickers: Vec<&str> = Vec::new();
    let mut i: usize = 0;
    while i < events.len()
        invariant
            i <= events@.len(),
            tickers@.len() == i,
            forall|k: int| 0 <= k < i ==> (#[trigger] tickers@[k])@ == events@[k].event_ticker@,
        decreases events@.len() - i,
    {
        tickers.push(events[i].event_ticker.as_str());
        i = i + 1;
    }
    let turn: Vec<usize> = order::text_order(tickers.as_slice());
    proof {
        assert(tickers@.map_values(|key: &str| key@) =~= all.map_values(ticker));
        order::lemma_text_places(all, ticker);
        let one = |a: RawEventView, b: RawEventView|
            order::text_later(a.event_ticker, b.event_ticker);
        let two = |a: RawEventView, b: RawEventView| order::text_later(ticker(a), ticker(b));
        assert(one =~= two);
    }
    let mut ordered: Vec<&RawEvent> = Vec::new();
    let mut j: usize = 0;
    while j < turn.len()
        invariant
            j <= turn@.len(),
            turn@.len() == events@.len(),
            ordered@.len() == j,
            forall|k: int| 0 <= k < turn@.len() ==> (#[trigger] turn@[k]) < events@.len(),
            forall|k: int| 0 <= k < j ==> (#[trigger] ordered@[k])@ == events@[turn@[k] as int]@,
        decreases turn@.len() - j,
    {
        ordered.push(&events[turn[j]]);
        j = j + 1;
    }
    assert(ordered@.map_values(|e: &RawEvent| e@) =~= turn@.map_values(|p: usize| all[p as int]));
    ordered
}

/// Events in the order of their tickers.
fn sort_events(events: &[RawEvent]) -> (sorted: Vec<RawEvent>)
    ensures
        discovery::events_view(sorted@) == by_event_ticker(discovery::events_view(events@)),
{
    let turn: Vec<&RawEvent> = ordered_events(events);
    let ghost ranked = turn@.map_values(|e: &RawEvent| e@);
    let mut sorted: Vec<RawEvent> = Vec::new();
    let mut j: usize = 0;
    while j < turn.len()
        invariant
            j <= turn@.len(),
            sorted@.len() == j,
            forall|k: int| 0 <= k < j ==> (#[trigger] sorted@[k])@ == turn@[k]@,
        decreases turn@.len() - j,
    {
        sorted.push(turn[j].clone());
        j = j + 1;
    }
    assert(discovery::events_view(sorted@) =~= ranked);
    sorted
}

/// Whether a picture taken at `fetched_at_ms` will still do.
pub open spec fn fresh(fetched_at_ms: u64, max_age_secs: u64, now_ms: u64) -> bool {
    let age = if now_ms > fetched_at_ms {
        now_ms - fetched_at_ms
    } else {
        0
    };
    let limit = max_age_secs * 1000;
    age < (if limit > u64::MAX {
        u64::MAX as int
    } else {
        limit
    })
}

/// Whether a stored picture will still do.
///
/// Age is measured against the snapshot's own recorded fetch time and the
/// injected clock, not the file's modification time: a copied or restored file
/// would otherwise look newly fetched.
pub fn is_fresh(fetched_at_ms: u64, max_age_secs: u64, now_ms: u64) -> (yes: bool)
    ensures
        yes == fresh(fetched_at_ms, max_age_secs, now_ms),
{
    let limit: u64 = match max_age_secs.checked_mul(1000) {
        Some(limit) => limit,
        None => u64::MAX,
    };
    now_ms.saturating_sub(fetched_at_ms) < limit
}

/// A character as it stands in a file name.
pub open spec fn path_char(c: char) -> char {
    if text::is_digit(c) || 'a' <= c <= 'z' || 'A' <= c <= 'Z' || c == '-' || c == '_' {
        c
    } else {
        '_'
    }
}

/// A text as a part of a file name.
pub open spec fn path_part(part: Seq<char>) -> Seq<char> {
    part.map_values(|c: char| path_char(c))
}

/// The file that holds the picture of a scope.
///
/// A cache must not be shared by a whole-universe run and a series-scoped run.
/// Otherwise a recent BTC-only snapshot could silently become the answer to a
/// later full-universe startup.
pub open spec fn cache_name(scope: ScopeView) -> Seq<char> {
    if scope == whole_venue() {
        "kalshi_markets.json.gz"@
    } else {
        let status = if scope.status.len() == 0 {
            "all"@
        } else {
            scope.status
        };
        let series = match scope.series {
            Some(series) => series,
            None => "all"@,
        };
        "kalshi_markets-"@ + path_part(status) + "-"@ + path_part(series) + "-"@ + text::decimal(
            scope.max_pages as nat,
        ) + ".json.gz"@
    }
}

/// The name of the file that holds the picture of a scope.
pub fn file_name(scope: &DiscoveryScope) -> (name: String)
    ensures
        name@ == cache_name(scope@),
{
    let whole: bool = match &scope.series {
        Some(_) => false,
        None => scope.max_pages == 100 && text::same(scope.status.as_str(), "open"),
    };
    assert(whole == (scope@ == whole_venue()));
    if whole {
        return "kalshi_markets.json.gz".to_owned();
    }
    let status: &str = if scope.status.as_str().unicode_len() == 0 {
        "all"
    } else {
        scope.status.as_str()
    };
    let series: &str = match &scope.series {
        Some(series) => series.as_str(),
        None => "all",
    };
    let mut name: String = "kalshi_markets-".to_owned();
    let status_part: String = sanitize_path_part(status);
    name.append(status_part.as_str());
    name.append("-");
    let series_part: String = sanitize_path_part(series);
    name.append(series_part.as_str());
    name.append("-");
    text::push_u64(&mut name, scope.max_pages as u64);
    name.append(".json.gz");
    name
}

/// A text as a part of a file name.
fn sanitize_path_part(part: &str) -> (out: String)
    ensures
        out@ == path_part(part@),
{
    let letters: Vec<char> = text::chars(part);
    let mut kept: Vec<char> = Vec::new();
    let mut i: usize = 0;
    while i < letters.len()
        invariant
            i <= letters@.len(),
            kept@.len() == i,
            forall|k: int| 0 <= k < i ==> #[trigger] kept@[k] == path_char(letters@[k]),
        decreases letters@.len() - i,
    {
        let c: char = letters[i];
        let plain: bool = ('0' <= c && c <= '9') || ('a' <= c && c <= 'z') || ('A' <= c && c <= 'Z')
            || c == '-' || c == '_';
        if plain {
            kept.push(c);
        } else {
            kept.push('_');
        }
        i = i + 1;
    }
    assert(kept@ =~= path_part(part@));
    text::collect(kept.as_slice())
}

/// The picture of any other scope is never taken for that of the whole venue.
pub proof fn a_scoped_cache_is_not_the_whole_venues(scope: ScopeView)
    requires
        scope != whole_venue(),
    ensures
        cache_name(scope) != cache_name(whole_venue()),
{
    reveal_strlit("kalshi_markets.json.gz");
    reveal_strlit("kalshi_markets-");
    assert(cache_name(whole_venue())[14] == '.');
    assert(cache_name(scope)[14] == '-');
}

} // verus!
