//! Build the constraint graph from the venue instead of from a file.
//!
//! # What the venue actually tells us
//!
//! Kalshi does not list a "yes market" and a "no market". Every market is one
//! binary contract carrying both outcomes, so the complement relation is a
//! property of a single ticker, not a pair of them. The two structures worth
//! inferring come from metadata the venue publishes directly:
//!
//! - `event.mutually_exclusive` is the venue's own word that exactly one market
//!   under an event resolves yes. That is an exhaustive set, stated rather than
//!   guessed.
//! - `market.strike_type == "greater"` with a `floor_strike` is a threshold
//!   rung. A run of them under one non-exclusive event is a ladder, ordered by
//!   ascending threshold: "above 71,600" is at least as likely as "above
//!   71,700".
//!
//! Nothing else is inferred. Events whose markets carry `custom` strikes are
//! left alone, because the only honest reading of a custom strike is that the
//! venue declined to describe the structure and a guess would be a guess.
//!
//! # Why inferred groups are marked
//!
//! An inferred relation that is wrong does not produce silence, it produces a
//! confident arbitrage signal: the solver prices every trade against the
//! relation's own resolution states, so a wrong relation yields a wrong
//! guaranteed payoff. Every group built from what stands here carries
//! `inferred = true`, and the engine refuses to trade one with a live client
//! unless a human has explicitly allowed it.
use vstd::prelude::*;
use vstd::hash_map::StringHashMap;
use crate::feed::rest::{Event, Market};
use crate::order;
use crate::text;

pub mod cache;
pub mod inference;
pub mod laws;
pub mod listing;
pub mod polymarket;
pub mod validation;

pub use self::cache::DiscoveryScope;
pub use self::inference::{event_close_times, infer_groups, to_relation};
pub use self::inference::{InferenceReport, InferredGroup, InferredKind};
pub use self::polymarket::{polymarket_complement_groups, register_polymarket_fees, PolymarketMarket};
pub use self::validation::{validate_discovered_universe, DiscoveryValidation};

verus! {

/// One venue listing, reduced to what inference and the registry need.
#[derive(Debug, PartialEq)]
pub struct RawMarket {
    pub ticker: String,
    pub event_ticker: String,
    pub title: String,
    /// "greater", "less", "custom", or absent.
    pub strike_type: Option<String>,
    /// The place of the threshold among thresholds, as on
    /// [`Market`](crate::feed::rest::Market).
    pub floor_strike: Option<i64>,
    pub cap_strike: Option<i64>,
    pub status: String,
    /// When trading stops, RFC3339. This is what ranking measures against.
    pub close_time: Option<String>,
}

/// What a [`RawMarket`] says.
#[verifier::ext_equal]
pub struct MarketView {
    pub ticker: Seq<char>,
    pub event_ticker: Seq<char>,
    pub title: Seq<char>,
    pub strike_type: Option<Seq<char>>,
    pub floor_strike: Option<i64>,
    pub cap_strike: Option<i64>,
    pub status: Seq<char>,
    pub close_time: Option<Seq<char>>,
}

impl View for RawMarket {
    type V = MarketView;

    open spec fn view(&self) -> MarketView {
        MarketView {
            ticker: self.ticker@,
            event_ticker: self.event_ticker@,
            title: self.title@,
            strike_type: text::optional(self.strike_type),
            floor_strike: self.floor_strike,
            cap_strike: self.cap_strike,
            status: self.status@,
            close_time: text::optional(self.close_time),
        }
    }
}

/// One venue event, reduced the same way.
#[derive(Debug, PartialEq)]
pub struct RawEvent {
    pub event_ticker: String,
    pub series_ticker: String,
    pub title: String,
    pub mutually_exclusive: bool,
}

/// What a [`RawEvent`] says.
#[verifier::ext_equal]
pub struct RawEventView {
    pub event_ticker: Seq<char>,
    pub series_ticker: Seq<char>,
    pub title: Seq<char>,
    pub mutually_exclusive: bool,
}

impl View for RawEvent {
    type V = RawEventView;

    open spec fn view(&self) -> RawEventView {
        RawEventView {
            event_ticker: self.event_ticker@,
            series_ticker: self.series_ticker@,
            title: self.title@,
            mutually_exclusive: self.mutually_exclusive,
        }
    }
}

impl Clone for RawMarket {
    fn clone(&self) -> (copy: Self)
        ensures
            copy@ == self@,
    {
        RawMarket {
            ticker: self.ticker.as_str().to_owned(),
            event_ticker: self.event_ticker.as_str().to_owned(),
            title: self.title.as_str().to_owned(),
            strike_type: text::copied(&self.strike_type),
            floor_strike: self.floor_strike,
            cap_strike: self.cap_strike,
            status: self.status.as_str().to_owned(),
            close_time: text::copied(&self.close_time),
        }
    }
}

impl Clone for RawEvent {
    fn clone(&self) -> (copy: Self)
        ensures
            copy@ == self@,
    {
        RawEvent {
            event_ticker: self.event_ticker.as_str().to_owned(),
            series_ticker: self.series_ticker.as_str().to_owned(),
            title: self.title.as_str().to_owned(),
            mutually_exclusive: self.mutually_exclusive,
        }
    }
}

/// A market reduced to what is kept of it. A market without a close time closes
/// when it expires.
pub open spec fn reduced_market(market: Market) -> RawMarket {
    RawMarket {
        ticker: market.ticker,
        event_ticker: market.event_ticker,
        title: market.title,
        strike_type: market.strike_type,
        floor_strike: market.floor_strike,
        cap_strike: market.cap_strike,
        status: market.status,
        close_time: if market.close_time is Some {
            market.close_time
        } else {
            market.expiration_time
        },
    }
}

/// An event reduced to what is kept of it.
pub open spec fn reduced_event(event: Event) -> RawEvent {
    RawEvent {
        event_ticker: event.event_ticker,
        series_ticker: event.series_ticker,
        title: event.title,
        mutually_exclusive: event.mutually_exclusive,
    }
}

impl From<Market> for RawMarket {
    fn from(market: Market) -> (raw: Self) {
        RawMarket {
            ticker: market.ticker,
            event_ticker: market.event_ticker,
            title: market.title,
            strike_type: market.strike_type,
            floor_strike: market.floor_strike,
            cap_strike: market.cap_strike,
            status: market.status,
            close_time: match market.close_time {
                Some(close) => Some(close),
                None => market.expiration_time,
            },
        }
    }
}

impl vstd::std_specs::convert::FromSpecImpl<Market> for RawMarket {
    open spec fn obeys_from_spec() -> bool {
        true
    }

    open spec fn from_spec(market: Market) -> RawMarket {
        reduced_market(market)
    }
}

impl From<Event> for RawEvent {
    fn from(event: Event) -> (raw: Self) {
        RawEvent {
            event_ticker: event.event_ticker,
            series_ticker: event.series_ticker,
            title: event.title,
            mutually_exclusive: event.mutually_exclusive,
        }
    }
}

impl vstd::std_specs::convert::FromSpecImpl<Event> for RawEvent {
    open spec fn obeys_from_spec() -> bool {
        true
    }

    open spec fn from_spec(event: Event) -> RawEvent {
        reduced_event(event)
    }
}

/// A point-in-time picture of the venue.
#[derive(Clone, Debug, PartialEq)]
pub struct Universe {
    /// Engine time when this was fetched, for the cache age check. Taken from
    /// the injected clock, never from the filesystem's idea of modification
    /// time, so replay and tests get the same answer every run.
    pub fetched_at_ms: u64,
    pub markets: Vec<RawMarket>,
    pub events: Vec<RawEvent>,
}

/// What a [`Universe`] holds.
#[verifier::ext_equal]
pub struct UniverseView {
    pub fetched_at_ms: u64,
    pub markets: Seq<MarketView>,
    pub events: Seq<RawEventView>,
}

pub open spec fn markets_view(markets: Seq<RawMarket>) -> Seq<MarketView> {
    markets.map_values(|m: RawMarket| m@)
}

pub open spec fn events_view(events: Seq<RawEvent>) -> Seq<RawEventView> {
    events.map_values(|e: RawEvent| e@)
}

impl View for Universe {
    type V = UniverseView;

    open spec fn view(&self) -> UniverseView {
        UniverseView {
            fetched_at_ms: self.fetched_at_ms,
            markets: markets_view(self.markets@),
            events: events_view(self.events@),
        }
    }
}

/// The events the markets belong to, in the order in which they first occur.
pub open spec fn event_keys(markets: Seq<MarketView>) -> Seq<Seq<char>>
    decreases markets.len(),
{
    if markets.len() == 0 {
        Seq::empty()
    } else {
        let before = event_keys(markets.drop_last());
        if before.contains(markets.last().event_ticker) {
            before
        } else {
            before.push(markets.last().event_ticker)
        }
    }
}

/// The markets of one event, as they stand.
pub open spec fn of_event(markets: Seq<MarketView>, event: Seq<char>) -> Seq<MarketView> {
    markets.filter(|m: MarketView| m.event_ticker == event)
}

/// Markets in the order of their tickers.
pub open spec fn by_ticker(markets: Seq<MarketView>) -> Seq<MarketView> {
    order::arranged(markets, |a: MarketView, b: MarketView| order::text_later(a.ticker, b.ticker))
}

/// Texts in order.
pub open spec fn in_text_order(texts: Seq<Seq<char>>) -> Seq<Seq<char>> {
    order::arranged(texts, |a: Seq<char>, b: Seq<char>| order::text_later(a, b))
}

/// One event's ticker and its markets.
pub type Listing = (Seq<char>, Seq<MarketView>);

/// The events in order, each with its markets in order.
pub open spec fn grouped(markets: Seq<MarketView>) -> Seq<Listing> {
    in_text_order(event_keys(markets)).map_values(
        |key: Seq<char>| (key, by_ticker(of_event(markets, key))),
    )
}

/// What a list of borrowed markets says.
pub open spec fn refs_view(markets: Seq<&RawMarket>) -> Seq<MarketView> {
    markets.map_values(|m: &RawMarket| m@)
}

pub open spec fn listings_view(listings: Seq<(&str, Vec<&RawMarket>)>) -> Seq<Listing> {
    listings.map_values(|l: (&str, Vec<&RawMarket>)| (l.0@, refs_view(l.1@)))
}

/// The first event under a ticker.
pub open spec fn event_at(events: Seq<RawEventView>, ticker: Seq<char>) -> Option<RawEventView>
    decreases events.len(),
{
    if events.len() == 0 {
        None
    } else if events[0].event_ticker == ticker {
        Some(events[0])
    } else {
        event_at(events.drop_first(), ticker)
    }
}

/// Whether the venue says that exactly one market of the event resolves yes.
pub open spec fn is_exclusive(events: Seq<RawEventView>, ticker: Seq<char>) -> bool {
    event_at(events, ticker) matches Some(event) && event.mutually_exclusive
}

/// What markets at some places of a list say.
spec fn picked(markets: Seq<MarketView>, places: Seq<usize>) -> Seq<MarketView> {
    places.map_values(|p: usize| markets[p as int])
}

impl Universe {
    /// Markets grouped by event, each list sorted by ticker.
    ///
    /// Sorting is what makes discovery deterministic: contract ids are
    /// positional, so two runs that saw the same venue must intern in the same
    /// order or every id shifts.
    pub fn by_event(&self) -> (listings: Vec<(&str, Vec<&RawMarket>)>)
        ensures
            listings_view(listings@) == grouped(self@.markets),
    {
        let ghost all = self@.markets;
        let n: usize = self.markets.len();
        let mut keys: Vec<&str> = Vec::new();
        let mut slots: StringHashMap<usize> = StringHashMap::new();
        let mut buckets: Vec<Vec<usize>> = Vec::new();
        let ghost key_view = |key: &str| key@;
        assert(all.subrange(0, 0) =~= Seq::<MarketView>::empty());
        assert(keys@.map_values(key_view) =~= Seq::<Seq<char>>::empty());
        let mut i: usize = 0;
        while i < n
            invariant
                i <= n,
                n == self.markets@.len(),
                all == self@.markets,
                key_view == (|key: &str| key@),
                keys@.map_values(key_view) == event_keys(all.subrange(0, i as int)),
                keys@.len() <= i,
                buckets@.len() == keys@.len(),
                forall|s: int|
                    0 <= s < keys@.len() ==> picked(all, (#[trigger] buckets@[s])@) == of_event(
                        all.subrange(0, i as int),
                        keys@[s]@,
                    ),
                forall|s: int, k: int|
                    0 <= s < keys@.len() && 0 <= k < buckets@[s]@.len() ==> (
                    #[trigger] buckets@[s]@[k]) < i,
                forall|key: Seq<char>| #[trigger]
                    slots@.contains_key(key) ==> slots@[key] < keys@.len()
                        && keys@[slots@[key] as int]@ == key,
                forall|s: int| 0 <= s < keys@.len() ==> slots@.contains_key(#[trigger] keys@[s]@)
                    && slots@[keys@[s]@] == s,
            decreases n - i,
        {
            let ghost prefix = all.subrange(0, i as int);
            let ghost next = all.subrange(0, i + 1);
            let key: &str = self.markets[i].event_ticker.as_str();
            proof {
                assert(next.drop_last() =~= prefix);
                assert(next =~= prefix.push(all[i as int]));
                assert(all[i as int].event_ticker == key@);
                assert forall|event: Seq<char>| #[trigger]
                    of_event(next, event) == (if event == key@ {
                        of_event(prefix, event).push(all[i as int])
                    } else {
                        of_event(prefix, event)
                    }) by {
                    prefix.lemma_filter_push(
                        all[i as int],
                        |m: MarketView| m.event_ticker == event,
                    );
                }
            }
            let ghost old_keys = keys@;
            let ghost old_buckets = buckets@;
            match slots.get(key) {
                Some(slot) => {
                    let slot: usize = *slot;
                    proof {
                        assert(keys@.map_values(key_view)[slot as int] == key@);
                        assert(event_keys(prefix).contains(key@));
                    }
                    buckets[slot].push(i);
                    proof {
                        assert(picked(all, old_buckets[slot as int]@.push(i)) =~= picked(
                            all,
                            old_buckets[slot as int]@,
                        ).push(all[i as int]));
                        assert forall|s: int| 0 <= s < keys@.len() implies picked(
                            all,
                            (#[trigger] buckets@[s])@,
                        ) == of_event(next, keys@[s]@) by {
                            if s != slot {
                                assert(buckets@[s] == old_buckets[s]);
                                assert(keys@[s]@ != key@);
                            }
                        }
                        assert forall|s: int, k: int|
                            0 <= s < keys@.len() && 0 <= k < buckets@[s]@.len() implies (
                        #[trigger] buckets@[s]@[k]) < i + 1 by {
                            if s == slot {
                                if k < old_buckets[s]@.len() {
                                    assert(buckets@[s]@[k] == old_buckets[s]@[k]);
                                }
                            } else {
                                assert(buckets@[s] == old_buckets[s]);
                                assert(old_buckets[s]@[k] < i);
                            }
                        }
                    }
                },
                None => {
                    proof {
                        if event_keys(prefix).contains(key@) {
                            let s = choose|s: int|
                                0 <= s < old_keys.len() && old_keys.map_values(key_view)[s] == key@;
                            assert(slots@.contains_key(old_keys[s]@));
                        }
                    }
                    let slot: usize = keys.len();
                    keys.push(key);
                    slots.insert(String::from_str(key), slot);
                    let bucket: Vec<usize> = vec![i];
                    assert(bucket@ =~= seq![i]);
                    buckets.push(bucket);
                    proof {
                        assert(keys@.map_values(key_view) =~= old_keys.map_values(key_view).push(
                            key@,
                        ));
                        lemma_absent_event(prefix, key@);
                        assert(picked(all, seq![i]) =~= Seq::<MarketView>::empty().push(
                            all[i as int],
                        ));
                        assert forall|s: int| 0 <= s < keys@.len() implies picked(
                            all,
                            (#[trigger] buckets@[s])@,
                        ) == of_event(next, keys@[s]@) by {
                            if s < old_keys.len() {
                                assert(buckets@[s] == old_buckets[s]);
                                assert(keys@[s] == old_keys[s]);
                                assert(slots@.contains_key(old_keys[s]@));
                                assert(old_keys[s]@ != key@);
                            }
                        }
                        assert forall|s: int, k: int|
                            0 <= s < keys@.len() && 0 <= k < buckets@[s]@.len() implies (
                        #[trigger] buckets@[s]@[k]) < i + 1 by {
                            if s < old_keys.len() {
                                assert(buckets@[s] == old_buckets[s]);
                                assert(old_buckets[s]@[k] < i);
                            }
                        }
                    }
                },
            }
            i = i + 1;
        }
        assert(all.subrange(0, n as int) =~= all);
        let turn: Vec<usize> = order::text_order(keys.as_slice());
        let ghost texts = keys@.map_values(key_view);
        let ghost sorted = in_text_order(texts);
        proof {
            let same = |key: Seq<char>| key;
            assert(texts.map_values(same) =~= texts);
            order::lemma_text_places(texts, same);
            let one = |a: Seq<char>, b: Seq<char>| order::text_later(a, b);
            let two = |a: Seq<char>, b: Seq<char>| order::text_later(same(a), same(b));
            assert(one =~= two);
            assert(turn@.map_values(|p: usize| texts[p as int]) == sorted);
        }
        let mut listings: Vec<(&str, Vec<&RawMarket>)> = Vec::new();
        let mut t: usize = 0;
        while t < turn.len()
            invariant
                t <= turn@.len(),
                n == self.markets@.len(),
                all == self@.markets,
                turn@.len() == keys@.len(),
                buckets@.len() == keys@.len(),
                texts == keys@.map_values(|key: &str| key@),
                forall|k: int| 0 <= k < turn@.len() ==> (#[trigger] turn@[k]) < keys@.len(),
                sorted == turn@.map_values(|p: usize| texts[p as int]),
                forall|s: int|
                    0 <= s < keys@.len() ==> picked(all, (#[trigger] buckets@[s])@) == of_event(
                        all,
                        keys@[s]@,
                    ),
                forall|s: int, k: int|
                    0 <= s < keys@.len() && 0 <= k < buckets@[s]@.len() ==> (
                    #[trigger] buckets@[s]@[k]) < n,
                listings@.len() == t,
                forall|k: int|
                    0 <= k < t ==> (#[trigger] listings@[k]).0@ == sorted[k] && refs_view(
                        listings@[k].1@,
                    ) == by_ticker(of_event(all, sorted[k])),
            decreases turn@.len() - t,
        {
            let slot: usize = turn[t];
            assert(sorted[t as int] == keys@[slot as int]@);
            assert(picked(all, buckets@[slot as int]@) == of_event(all, keys@[slot as int]@));
            assert forall|k: int| 0 <= k < buckets@[slot as int]@.len() implies (
            #[trigger] buckets@[slot as int]@[k]) < n by {}
            let listed: Vec<&RawMarket> = in_order(self.markets.as_slice(), buckets[slot].as_slice());
            listings.push((keys[slot], listed));
            t = t + 1;
        }
        assert(listings_view(listings@) =~= grouped(all));
        listings
    }

    pub fn event(&self, ticker: &str) -> (found: Option<&RawEvent>)
        ensures
            match found {
                Some(event) => event_at(self@.events, ticker@) == Some(event@),
                None => event_at(self@.events, ticker@) is None,
            },
    {
        let ghost all = self@.events;
        let mut i: usize = 0;
        assert(all.subrange(0, all.len() as int) =~= all);
        while i < self.events.len()
            invariant
                i <= self.events@.len(),
                all == self@.events,
                event_at(all, ticker@) == event_at(
                    all.subrange(i as int, all.len() as int),
                    ticker@,
                ),
            decreases self.events@.len() - i,
        {
            let ghost rest = all.subrange(i as int, all.len() as int);
            assert(rest.drop_first() =~= all.subrange(i + 1, all.len() as int));
            assert(rest[0] == self.events@[i as int]@);
            if text::same(self.events[i].event_ticker.as_str(), ticker) {
                return Some(&self.events[i]);
            }
            i = i + 1;
        }
        None
    }
}

/// The markets of a list, in the order of their tickers.
pub(crate) fn ordered_markets(markets: &[RawMarket]) -> (ordered: Vec<&RawMarket>)
    ensures
        refs_view(ordered@) == by_ticker(markets_view(markets@)),
{
    let mut places: Vec<usize> = Vec::new();
    let mut i: usize = 0;
    while i < markets.len()
        invariant
            i <= markets@.len(),
            places@.len() == i,
            forall|k: int| 0 <= k < i ==> #[trigger] places@[k] == k,
        decreases markets@.len() - i,
    {
        places.push(i);
        i = i + 1;
    }
    assert(picked(markets_view(markets@), places@) =~= markets_view(markets@));
    in_order(markets, places.as_slice())
}

/// The markets at some places of a list, in the order of their tickers.
fn in_order<'a>(markets: &'a [RawMarket], places: &[usize]) -> (listed: Vec<&'a RawMarket>)
    requires
        forall|k: int| 0 <= k < places@.len() ==> (#[trigger] places@[k]) < markets@.len(),
    ensures
        refs_view(listed@) == by_ticker(picked(markets_view(markets@), places@)),
{
    let ghost all = markets_view(markets@);
    let ghost chosen = picked(all, places@);
    let ghost ticker = |m: MarketView| m.ticker;
    let mut tickers: Vec<&str> = Vec::new();
    let mut i: usize = 0;
    while i < places.len()
        invariant
            i <= places@.len(),
            tickers@.len() == i,
            all == markets_view(markets@),
            chosen == picked(all, places@),
            forall|k: int| 0 <= k < places@.len() ==> (#[trigger] places@[k]) < markets@.len(),
            forall|k: int| 0 <= k < i ==> (#[trigger] tickers@[k])@ == chosen[k].ticker,
        decreases places@.len() - i,
    {
        assert(places@[i as int] < markets@.len());
        tickers.push(markets[places[i]].ticker.as_str());
        i = i + 1;
    }
    let turn: Vec<usize> = order::text_order(tickers.as_slice());
    proof {
        assert(tickers@.map_values(|key: &str| key@) =~= chosen.map_values(ticker));
        order::lemma_text_places(chosen, ticker);
        let one = |a: MarketView, b: MarketView| order::text_later(a.ticker, b.ticker);
        let two = |a: MarketView, b: MarketView| order::text_later(ticker(a), ticker(b));
        assert(one =~= two);
    }
    let mut listed: Vec<&RawMarket> = Vec::new();
    let mut j: usize = 0;
    while j < turn.len()
        invariant
            j <= turn@.len(),
            turn@.len() == places@.len(),
            listed@.len() == j,
            all == markets_view(markets@),
            chosen == picked(all, places@),
            forall|k: int| 0 <= k < turn@.len() ==> (#[trigger] turn@[k]) < places@.len(),
            forall|k: int| 0 <= k < places@.len() ==> (#[trigger] places@[k]) < markets@.len(),
            forall|k: int| 0 <= k < j ==> (#[trigger] listed@[k])@ == chosen[turn@[k] as int],
        decreases turn@.len() - j,
    {
        let place: usize = places[turn[j]];
        listed.push(&markets[place]);
        j = j + 1;
    }
    assert(refs_view(listed@) =~= turn@.map_values(|p: usize| chosen[p as int]));
    listed
}

/// No market belongs to an event that none of them names.
proof fn lemma_absent_event(markets: Seq<MarketView>, event: Seq<char>)
    requires
        !event_keys(markets).contains(event),
    ensures
        of_event(markets, event) == Seq::<MarketView>::empty(),
    decreases markets.len(),
{
    reveal(Seq::filter);
    if markets.len() > 0 {
        let before = event_keys(markets.drop_last());
        let last = markets.last().event_ticker;
        if before.contains(event) {
            let i = choose|i: int| 0 <= i < before.len() && before[i] == event;
            assert(before.push(last)[i] == event);
        }
        if last == event && !before.contains(last) {
            assert(before.push(last)[before.len() as int] == event);
        }
        lemma_absent_event(markets.drop_last(), event);
    }
}

} // verus!
