//! What holds of everything that is inferred.
use vstd::prelude::*;
use super::inference::{InferenceReport, InferredKind, InferredView, Structure};
use super::{Listing, MarketView, RawEventView, UniverseView};
use crate::discovery;
use crate::discovery::inference;
use crate::discovery::validation;
use crate::order;
use crate::text;
use crate::timestamp;

verus! {

/// No two markets go by one ticker.
pub open spec fn distinct_tickers(markets: Seq<MarketView>) -> bool {
    forall|i: int, j: int|
        0 <= i < j < markets.len() ==> (#[trigger] markets[i]).ticker != (
        #[trigger] markets[j]).ticker
}

/// Events under one ticker agree on whether its markets exclude each other.
pub open spec fn agreeing_events(events: Seq<RawEventView>) -> bool {
    forall|i: int, j: int|
        0 <= i < j < events.len() && (#[trigger] events[i]).event_ticker == (
        #[trigger] events[j]).event_ticker ==> events[i].mutually_exclusive
            == events[j].mutually_exclusive
}

// ---------------------------------------------------------------------------
// Wire order
// ---------------------------------------------------------------------------

proof fn lemma_event_keys(markets: Seq<MarketView>)
    ensures
        discovery::event_keys(markets).no_duplicates(),
        forall|i: int|
            0 <= i < markets.len() ==> discovery::event_keys(markets).contains(
                (#[trigger] markets[i]).event_ticker,
            ),
        forall|k: Seq<char>| #[trigger]
            discovery::event_keys(markets).contains(k) ==> exists|i: int|
                0 <= i < markets.len() && (#[trigger] markets[i]).event_ticker == k,
    decreases markets.len(),
{
    if markets.len() > 0 {
        let front = markets.drop_last();
        lemma_event_keys(front);
        let before = discovery::event_keys(front);
        let all = discovery::event_keys(markets);
        let last = markets.last().event_ticker;
        if !before.contains(last) {
            assert(all[before.len() as int] == last);
        }
        assert forall|i: int| 0 <= i < markets.len() implies all.contains(
            (#[trigger] markets[i]).event_ticker,
        ) by {
            if i < front.len() {
                assert(front[i] == markets[i]);
                assert(before.contains(front[i].event_ticker));
                let k = choose|k: int|
                    0 <= k < before.len() && before[k] == markets[i].event_ticker;
                assert(all[k] == before[k]);
            }
        }
        assert forall|k: Seq<char>| #[trigger] all.contains(k) implies exists|i: int|
            0 <= i < markets.len() && (#[trigger] markets[i]).event_ticker == k by {
            if before.contains(k) {
                let i = choose|i: int|
                    0 <= i < front.len() && (#[trigger] front[i]).event_ticker == k;
                assert(markets[i] == front[i]);
            } else {
                let j = choose|j: int| 0 <= j < all.len() && all[j] == k;
                if j < before.len() {
                    assert(before[j] == k);
                }
                assert(k == last);
                assert(markets[markets.len() - 1].event_ticker == k);
            }
        }
        if !before.contains(last) {
            assert forall|i: int, j: int| 0 <= i < all.len() && 0 <= j < all.len() && i
                != j implies all[i] != all[j] by {
                if i < before.len() {
                    assert(all[i] == before[i]);
                    assert(before.contains(before[i]));
                }
                if j < before.len() {
                    assert(all[j] == before[j]);
                    assert(before.contains(before[j]));
                }
            }
        }
    }
}

/// Two lists with the same things in them, none of them twice.
proof fn lemma_same_multiset<T>(a: Seq<T>, b: Seq<T>)
    requires
        a.no_duplicates(),
        b.no_duplicates(),
        forall|x: T| #[trigger] a.contains(x) <==> b.contains(x),
    ensures
        a.to_multiset() == b.to_multiset(),
{
    broadcast use vstd::seq_lib::group_to_multiset_ensures;

    a.lemma_multiset_has_no_duplicates();
    b.lemma_multiset_has_no_duplicates();
    assert forall|x: T| #[trigger] a.to_multiset().count(x) == b.to_multiset().count(x) by {
        assert(a.contains(x) <==> a.to_multiset().count(x) > 0);
        assert(b.contains(x) <==> b.to_multiset().count(x) > 0);
        if a.contains(x) {
            assert(a.to_multiset().contains(x));
            assert(b.to_multiset().contains(x));
        }
    }
    assert(a.to_multiset() =~= b.to_multiset());
}

proof fn lemma_filter_count<T>(s: Seq<T>, pred: spec_fn(T) -> bool, x: T)
    ensures
        s.filter(pred).to_multiset().count(x) == (if pred(x) {
            s.to_multiset().count(x)
        } else {
            0
        }),
    decreases s.len(),
{
    broadcast use vstd::seq_lib::group_to_multiset_ensures;

    reveal(Seq::filter);
    if s.len() > 0 {
        let front = s.drop_last();
        lemma_filter_count(front, pred, x);
        assert(front.push(s.last()) =~= s);
        vstd::seq_lib::to_multiset_build(front, s.last());
        if pred(s.last()) {
            vstd::seq_lib::to_multiset_build(front.filter(pred), s.last());
        }
    }
}

proof fn lemma_filter_multiset<T>(a: Seq<T>, b: Seq<T>, pred: spec_fn(T) -> bool)
    requires
        a.to_multiset() == b.to_multiset(),
    ensures
        a.filter(pred).to_multiset() == b.filter(pred).to_multiset(),
{
    assert forall|x: T| #[trigger] a.filter(pred).to_multiset().count(x) == b.filter(
        pred,
    ).to_multiset().count(x) by {
        lemma_filter_count(a, pred, x);
        lemma_filter_count(b, pred, x);
    }
    assert(a.filter(pred).to_multiset() =~= b.filter(pred).to_multiset());
}

/// Tickers put markets in order.
pub proof fn lemma_ticker_order()
    ensures
        order::is_order(|a: MarketView, b: MarketView| order::text_later(a.ticker, b.ticker)),
{
    let outer = |a: Seq<char>, b: Seq<char>| order::text_later(a, b);
    let later = |a: MarketView, b: MarketView| order::text_later(a.ticker, b.ticker);
    order::lemma_text_order();
    assert forall|a: MarketView, b: MarketView| #[trigger] later(a, b) implies !later(b, a) by {
        assert(outer(a.ticker, b.ticker));
    }
    assert forall|a: MarketView, b: MarketView, c: MarketView| #[trigger]
        later(a, b) && #[trigger] later(b, c) implies later(a, c) by {
        assert(outer(a.ticker, b.ticker) && outer(b.ticker, c.ticker));
        assert(outer(a.ticker, c.ticker));
    }
    assert forall|a: MarketView, b: MarketView, c: MarketView|
        !(#[trigger] later(a, b)) && !(#[trigger] later(b, c)) implies !later(a, c) by {
        assert(!outer(a.ticker, b.ticker) && !outer(b.ticker, c.ticker));
        assert(!outer(a.ticker, c.ticker));
    }
}

/// A market stands among those of an event exactly if it belongs to it.
proof fn lemma_of_event(markets: Seq<MarketView>, event: Seq<char>)
    ensures
        forall|m: MarketView| #[trigger]
            discovery::of_event(markets, event).contains(m) <==> markets.contains(m)
                && m.event_ticker == event,
{
    broadcast use vstd::seq_lib::group_to_multiset_ensures;

    let pred = |m: MarketView| m.event_ticker == event;
    assert forall|m: MarketView| #[trigger]
        discovery::of_event(markets, event).contains(m) <==> markets.contains(m) && m.event_ticker
            == event by {
        lemma_filter_count(markets, pred, m);
        let some = markets.filter(pred);
        assert(some.contains(m) <==> some.to_multiset().count(m) > 0);
        assert(markets.contains(m) <==> markets.to_multiset().count(m) > 0);
    }
}

/// With distinct tickers, the markets of one event stand in one order only.
proof fn lemma_event_markets(a: Seq<MarketView>, b: Seq<MarketView>, event: Seq<char>)
    requires
        a.to_multiset() == b.to_multiset(),
        distinct_tickers(a),
    ensures
        discovery::by_ticker(discovery::of_event(a, event)) == discovery::by_ticker(
            discovery::of_event(b, event),
        ),
{
    broadcast use vstd::seq_lib::group_to_multiset_ensures;

    let pred = |m: MarketView| m.event_ticker == event;
    let later = |a: MarketView, b: MarketView| order::text_later(a.ticker, b.ticker);
    let some = discovery::of_event(a, event);
    lemma_filter_multiset(a, b, pred);
    lemma_ticker_order();
    lemma_of_event(a, event);
    assert(a.no_duplicates());
    a.lemma_multiset_has_no_duplicates();
    assert(some.no_duplicates()) by {
        assert forall|x: MarketView| #[trigger]
            some.to_multiset().contains(x) implies some.to_multiset().count(x) == 1 by {
            lemma_filter_count(a, pred, x);
            assert(a.to_multiset().contains(x));
        }
        some.lemma_multiset_has_no_duplicates_conv();
    }
    assert forall|x: MarketView, y: MarketView|
        some.contains(x) && some.contains(y) && x != y implies #[trigger] later(x, y) || later(
        y,
        x,
    ) by {
        assert(a.contains(x) && a.contains(y));
        let i = choose|i: int| 0 <= i < a.len() && a[i] == x;
        let j = choose|j: int| 0 <= j < a.len() && a[j] == y;
        assert(x.ticker != y.ticker);
        text::lemma_precedes_total(x.ticker, y.ticker);
    }
    order::lemma_arranged_same(some, discovery::of_event(b, event), later);
}

/// With distinct tickers, the events and their markets stand in one order only.
proof fn lemma_grouped_same(a: Seq<MarketView>, b: Seq<MarketView>)
    requires
        a.to_multiset() == b.to_multiset(),
        distinct_tickers(a),
    ensures
        discovery::grouped(a) == discovery::grouped(b),
{
    broadcast use vstd::seq_lib::group_to_multiset_ensures;

    let later = |a: Seq<char>, b: Seq<char>| order::text_later(a, b);
    let keys = discovery::event_keys(a);
    let others = discovery::event_keys(b);
    lemma_event_keys(a);
    lemma_event_keys(b);
    assert forall|k: Seq<char>| #[trigger] keys.contains(k) <==> others.contains(k) by {
        if keys.contains(k) {
            let i = choose|i: int| 0 <= i < a.len() && (#[trigger] a[i]).event_ticker == k;
            assert(a.contains(a[i]));
            assert(b.to_multiset().count(a[i]) > 0);
            assert(b.contains(a[i]));
            let j = choose|j: int| 0 <= j < b.len() && b[j] == a[i];
            assert(others.contains(b[j].event_ticker));
        }
        if others.contains(k) {
            let i = choose|i: int| 0 <= i < b.len() && (#[trigger] b[i]).event_ticker == k;
            assert(b.contains(b[i]));
            assert(a.to_multiset().count(b[i]) > 0);
            assert(a.contains(b[i]));
            let j = choose|j: int| 0 <= j < a.len() && a[j] == b[i];
            assert(keys.contains(a[j].event_ticker));
        }
    }
    lemma_same_multiset(keys, others);
    order::lemma_text_order();
    order::lemma_arranged_same(keys, others, later);
    let sorted = discovery::in_text_order(keys);
    assert forall|i: int| 0 <= i < sorted.len() implies #[trigger] discovery::grouped(a)[i]
        == discovery::grouped(b)[i] by {
        lemma_event_markets(a, b, sorted[i]);
    }
    assert(discovery::grouped(a) =~= discovery::grouped(b));
}

/// The event found under a ticker is one of those that go by it.
proof fn lemma_event_at(events: Seq<RawEventView>, ticker: Seq<char>)
    ensures
        match discovery::event_at(events, ticker) {
            Some(e) => events.contains(e) && e.event_ticker == ticker,
            None => forall|e: RawEventView| #[trigger]
                events.contains(e) ==> e.event_ticker != ticker,
        },
    decreases events.len(),
{
    if events.len() > 0 {
        let rest = events.drop_first();
        lemma_event_at(rest, ticker);
        assert(events.contains(events[0]));
        if events[0].event_ticker != ticker {
            match discovery::event_at(rest, ticker) {
                Some(e) => {
                    let i = choose|i: int| 0 <= i < rest.len() && rest[i] == e;
                    assert(events[i + 1] == e);
                },
                None => {
                    assert forall|e: RawEventView| #[trigger]
                        events.contains(e) implies e.event_ticker != ticker by {
                        let i = choose|i: int| 0 <= i < events.len() && events[i] == e;
                        if i > 0 {
                            assert(rest[i - 1] == e);
                            assert(rest.contains(e));
                        }
                    }
                },
            }
        }
    }
}

proof fn lemma_exclusive_same(a: Seq<RawEventView>, b: Seq<RawEventView>, ticker: Seq<char>)
    requires
        a.to_multiset() == b.to_multiset(),
        agreeing_events(a),
    ensures
        discovery::is_exclusive(a, ticker) == discovery::is_exclusive(b, ticker),
{
    broadcast use vstd::seq_lib::group_to_multiset_ensures;

    lemma_event_at(a, ticker);
    lemma_event_at(b, ticker);
    assert forall|e: RawEventView| #[trigger] a.contains(e) <==> #[trigger] b.contains(e) by {
        assert(a.contains(e) <==> a.to_multiset().count(e) > 0);
        assert(b.contains(e) <==> b.to_multiset().count(e) > 0);
    }
    match (discovery::event_at(a, ticker), discovery::event_at(b, ticker)) {
        (Some(e), Some(f)) => {
            assert(a.contains(f));
            let i = choose|i: int| 0 <= i < a.len() && a[i] == e;
            let j = choose|j: int| 0 <= j < a.len() && a[j] == f;
            if i < j {
                assert(a[i].mutually_exclusive == a[j].mutually_exclusive);
            } else if j < i {
                assert(a[j].mutually_exclusive == a[i].mutually_exclusive);
            }
        },
        (Some(e), None) => {
            assert(b.contains(e));
        },
        (None, Some(f)) => {
            assert(a.contains(f));
        },
        (None, None) => {},
    }
}

proof fn lemma_groups_same(
    a: Seq<RawEventView>,
    b: Seq<RawEventView>,
    listings: Seq<Listing>,
)
    requires
        a.to_multiset() == b.to_multiset(),
        agreeing_events(a),
    ensures
        inference::groups_of(a, listings) == inference::groups_of(b, listings),
        inference::binaries(a, listings) == inference::binaries(b, listings),
        inference::undescribed(a, listings) == inference::undescribed(b, listings),
    decreases listings.len(),
{
    reveal(Seq::filter);
    if listings.len() > 0 {
        lemma_groups_same(a, b, listings.drop_last());
        lemma_exclusive_same(a, b, listings.last().0);
    }
}

/// The order in which the venue lists its markets and its events decides
/// nothing, neither of the groups nor of the report. Contract ids are positional,
/// so two runs of the same venue must produce the same groups in the same order
/// or every id shifts underneath the book store. An event may be listed more than
/// once, as long as its listings agree or the events keep their order.
pub proof fn inference_ignores_wire_order(a: UniverseView, b: UniverseView)
    requires
        a.markets.to_multiset() == b.markets.to_multiset(),
        a.events.to_multiset() == b.events.to_multiset(),
        distinct_tickers(a.markets),
        a.events == b.events || agreeing_events(a.events),
    ensures
        inference::inferred(a) == inference::inferred(b),
        forall|report: InferenceReport| #[trigger]
            inference::reports(report, a) <==> inference::reports(report, b),
{
    broadcast use vstd::seq_lib::group_to_multiset_ensures;

    assert(a.markets.len() == a.markets.to_multiset().len());
    assert(b.markets.len() == b.markets.to_multiset().len());
    lemma_grouped_same(a.markets, b.markets);
    if a.events != b.events {
        lemma_groups_same(a.events, b.events, discovery::grouped(a.markets));
    }
}

// ---------------------------------------------------------------------------
// Structures
// ---------------------------------------------------------------------------

/// Where a group of a list of events comes from.
proof fn lemma_group_source(events: Seq<RawEventView>, listings: Seq<Listing>, group: InferredView)
    ensures
        inference::groups_of(events, listings).contains(group) <==> exists|i: int|
            0 <= i < listings.len() && inference::event_groups(
                events,
                #[trigger] listings[i],
            ).contains(group),
    decreases listings.len(),
{
    if listings.len() > 0 {
        let front = listings.drop_last();
        lemma_group_source(events, front, group);
        let before = inference::groups_of(events, front);
        let last = inference::event_groups(events, listings.last());
        let all = before + last;
        if all.contains(group) {
            let k = choose|k: int| 0 <= k < all.len() && all[k] == group;
            if k < before.len() {
                assert(before[k] == group);
                let i = choose|i: int|
                    0 <= i < front.len() && inference::event_groups(
                        events,
                        #[trigger] front[i],
                    ).contains(group);
                assert(front[i] == listings[i]);
                assert(inference::event_groups(events, listings[i]).contains(group));
            } else {
                assert(last[k - before.len()] == group);
                assert(inference::event_groups(events, listings[listings.len() - 1]).contains(
                    group,
                ));
            }
        }
        if exists|i: int|
            0 <= i < listings.len() && inference::event_groups(
                events,
                #[trigger] listings[i],
            ).contains(group) {
            let i = choose|i: int|
                0 <= i < listings.len() && inference::event_groups(
                    events,
                    #[trigger] listings[i],
                ).contains(group);
            if i < front.len() {
                assert(front[i] == listings[i]);
                assert(before.contains(group));
                let k = choose|k: int| 0 <= k < before.len() && before[k] == group;
                assert(all[k] == group);
            } else {
                let k = choose|k: int| 0 <= k < last.len() && last[k] == group;
                assert(all[before.len() + k] == group);
            }
        }
    } else {
        assert(!inference::groups_of(events, listings).contains(group));
    }
}

/// What a group of one event is.
proof fn lemma_event_group(events: Seq<RawEventView>, listing: Listing, group: InferredView)
    requires
        inference::event_groups(events, listing).contains(group),
    ensures
        group.event_ticker == listing.0,
        group.relation_kind is Exhaustive ==> listing.1.len() >= 2 && discovery::is_exclusive(
            events,
            listing.0,
        ) && group.tickers == inference::tickers(listing.1),
        group.relation_kind is Monotone ==> listing.1.len() >= 2 && !discovery::is_exclusive(
            events,
            listing.0,
        ) && inference::ladder(listing.1) == Some(group.tickers),
        group.relation_kind is Complement ==> exists|m: int|
            0 <= m < listing.1.len() && group.tickers == seq![(#[trigger] listing.1[m]).ticker],
{
    let single = inference::complements(listing);
    let all = inference::event_groups(events, listing);
    let k = choose|k: int| 0 <= k < all.len() && all[k] == group;
    if k < single.len() {
        assert(all[k] == single[k]);
        assert(group.tickers == seq![listing.1[k].ticker]);
    }
}

/// A mutually exclusive event is a partition and never a ladder, and a partition
/// is only ever read off an event that the venue calls mutually exclusive.
pub proof fn exclusivity_decides(universe: UniverseView, group: InferredView)
    requires
        inference::inferred(universe).contains(group),
    ensures
        group.relation_kind is Monotone ==> !discovery::is_exclusive(
            universe.events,
            group.event_ticker,
        ),
        group.relation_kind is Exhaustive ==> discovery::is_exclusive(
            universe.events,
            group.event_ticker,
        ),
{
    let listings = discovery::grouped(universe.markets);
    lemma_group_source(universe.events, listings, group);
    let i = choose|i: int|
        0 <= i < listings.len() && inference::event_groups(
            universe.events,
            #[trigger] listings[i],
        ).contains(group);
    lemma_event_group(universe.events, listings[i], group);
}

/// Where an event's markets stand among the listings.
proof fn lemma_listing_of(markets: Seq<MarketView>, event: Seq<char>) -> (i: int)
    requires
        discovery::event_keys(markets).contains(event),
    ensures
        0 <= i < discovery::grouped(markets).len(),
        discovery::grouped(markets)[i] == (
            event,
            discovery::by_ticker(discovery::of_event(markets, event)),
        ),
{
    broadcast use vstd::seq_lib::group_to_multiset_ensures;

    let keys = discovery::event_keys(markets);
    let later = |a: Seq<char>, b: Seq<char>| order::text_later(a, b);
    order::lemma_text_order();
    order::lemma_arranged(keys, later);
    let sorted = discovery::in_text_order(keys);
    assert(keys.to_multiset().count(event) > 0);
    assert(sorted.to_multiset().count(event) > 0);
    assert(sorted.contains(event));
    choose|i: int| 0 <= i < sorted.len() && sorted[i] == event
}

/// Sorting keeps every market.
proof fn lemma_by_ticker(markets: Seq<MarketView>)
    ensures
        discovery::by_ticker(markets).to_multiset() == markets.to_multiset(),
        forall|m: MarketView| #[trigger]
            discovery::by_ticker(markets).contains(m) <==> markets.contains(m),
{
    broadcast use vstd::seq_lib::group_to_multiset_ensures;

    lemma_ticker_order();
    order::lemma_arranged(
        markets,
        |a: MarketView, b: MarketView| order::text_later(a.ticker, b.ticker),
    );
    let sorted = discovery::by_ticker(markets);
    assert forall|m: MarketView| #[trigger] sorted.contains(m) <==> markets.contains(m) by {
        assert(sorted.contains(m) <==> sorted.to_multiset().count(m) > 0);
        assert(markets.contains(m) <==> markets.to_multiset().count(m) > 0);
    }
}

/// Every market owes a dollar across its own two outcomes, whatever else its
/// event turns out to be.
pub proof fn every_market_is_its_own_complement(universe: UniverseView, i: int)
    requires
        0 <= i < universe.markets.len(),
    ensures
        inference::inferred(universe).contains(
            InferredView {
                relation_kind: InferredKind::Complement,
                tickers: seq![universe.markets[i].ticker],
                event_ticker: universe.markets[i].event_ticker,
            },
        ),
{
    let market = universe.markets[i];
    let event = market.event_ticker;
    let group = InferredView {
        relation_kind: InferredKind::Complement,
        tickers: seq![market.ticker],
        event_ticker: event,
    };
    lemma_event_keys(universe.markets);
    let l = lemma_listing_of(universe.markets, event);
    let listings = discovery::grouped(universe.markets);
    let listing = listings[l];
    lemma_of_event(universe.markets, event);
    assert(universe.markets.contains(market));
    assert(discovery::of_event(universe.markets, event).contains(market));
    lemma_by_ticker(discovery::of_event(universe.markets, event));
    assert(listing.1.contains(market));
    let m = choose|m: int| 0 <= m < listing.1.len() && listing.1[m] == market;
    assert(inference::complements(listing)[m] == group);
    assert(inference::event_groups(universe.events, listing)[m] == group);
    assert(inference::event_groups(universe.events, listings[l]).contains(group));
    lemma_group_source(universe.events, listings, group);
}

/// The rungs of a ladder rise strictly, weakest claim first, and they are the
/// markets of its event, each once.
pub proof fn a_ladder_rises(markets: Seq<MarketView>, ordered: Seq<Seq<char>>)
    requires
        inference::ladder(markets) == Some(ordered),
        markets.len() <= usize::MAX,
    ensures
        ({
            let keys = inference::rungs(markets, markets[0].strike_type->0)->0;
            let places = order::number_places(keys);
            &&& places.to_multiset() == order::places(markets.len() as int).to_multiset()
            &&& ordered == places.map_values(|p: usize| markets[p as int].ticker)
            &&& forall|i: int, j: int|
                0 <= i < j < places.len() ==> keys[(#[trigger] places[i]) as int] < keys[(
                #[trigger] places[j]) as int]
        }),
{
    broadcast use vstd::seq_lib::group_to_multiset_ensures;

    let keys = inference::rungs(markets, markets[0].strike_type->0)->0;
    let places = order::number_places(keys);
    let all = order::places(markets.len() as int);
    let later = |a: usize, b: usize| keys[a as int] > keys[b as int];
    assert(order::is_order(later));
    order::lemma_arranged(all, later);
    assert(all.no_duplicates());
    all.lemma_multiset_has_no_duplicates();
    places.lemma_multiset_has_no_duplicates_conv();
    order::lemma_arranged_from(all, later);
    assert forall|i: int, j: int| 0 <= i < j < places.len() implies keys[(
    #[trigger] places[i]) as int] < keys[(#[trigger] places[j]) as int] by {
        assert(!later(places[i], places[j]));
        assert(places[i] != places[j]);
        assert(all.contains(places[i]) && all.contains(places[j]));
        assert(places[i] < keys.len() && places[j] < keys.len());
    }
}

/// Every event is accounted for exactly once: it is binary, a partition, a
/// ladder, or left alone.
pub proof fn every_event_is_accounted_for(events: Seq<RawEventView>, listings: Seq<Listing>)
    ensures
        inference::binaries(events, listings) + inference::of_kind(
            inference::groups_of(events, listings),
            InferredKind::Exhaustive,
        ) + inference::of_kind(
            inference::groups_of(events, listings),
            InferredKind::Monotone,
        ) + inference::undescribed(events, listings) == listings.len(),
    decreases listings.len(),
{
    reveal(Seq::filter);
    if listings.len() > 0 {
        let front = listings.drop_last();
        let last = listings.last();
        every_event_is_accounted_for(events, front);
        assert(front.push(last) =~= listings);
        front.lemma_filter_push(last, |l: Listing| inference::structure(events, l) is Binary);
        front.lemma_filter_push(last, |l: Listing| inference::structure(events, l) is Undescribed);
        let before = inference::groups_of(events, front);
        let single = inference::complements(last);
        lemma_kinds(before, single, InferredKind::Exhaustive);
        lemma_kinds(before, single, InferredKind::Monotone);
        match inference::structure(events, last) {
            Structure::Exhaustive { members } => {
                let group = InferredView {
                    relation_kind: InferredKind::Exhaustive,
                    tickers: members,
                    event_ticker: last.0,
                };
                lemma_one_more_group(before + single, group);
                assert(before + single.push(group) =~= (before + single).push(group));
            },
            Structure::Ladder { ordered } => {
                let group = InferredView {
                    relation_kind: InferredKind::Monotone,
                    tickers: ordered,
                    event_ticker: last.0,
                };
                lemma_one_more_group(before + single, group);
                assert(before + single.push(group) =~= (before + single).push(group));
            },
            _ => {},
        }
    }
}

proof fn lemma_one_more_group(groups: Seq<InferredView>, group: InferredView)
    ensures
        inference::of_kind(groups.push(group), InferredKind::Exhaustive) == inference::of_kind(
            groups,
            InferredKind::Exhaustive,
        ) + (if group.relation_kind is Exhaustive {
            1nat
        } else {
            0nat
        }),
        inference::of_kind(groups.push(group), InferredKind::Monotone) == inference::of_kind(
            groups,
            InferredKind::Monotone,
        ) + (if group.relation_kind is Monotone {
            1nat
        } else {
            0nat
        }),
{
    groups.lemma_filter_push(
        group,
        |g: InferredView| g.relation_kind == InferredKind::Exhaustive,
    );
    groups.lemma_filter_push(group, |g: InferredView| g.relation_kind == InferredKind::Monotone);
}

proof fn lemma_kinds(before: Seq<InferredView>, single: Seq<InferredView>, kind: InferredKind)
    requires
        !(kind is Complement),
        forall|i: int| 0 <= i < single.len() ==> (#[trigger] single[i]).relation_kind is Complement,
    ensures
        inference::of_kind(before + single, kind) == inference::of_kind(before, kind),
    decreases single.len(),
{
    if single.len() == 0 {
        assert(before + single =~= before);
    } else {
        let front = single.drop_last();
        assert forall|i: int| 0 <= i < front.len() implies (#[trigger] front[i]).relation_kind
            is Complement by {
            assert(front[i] == single[i]);
        }
        lemma_kinds(before, front, kind);
        let last = single[single.len() - 1];
        (before + front).lemma_filter_push(last, |g: InferredView| g.relation_kind == kind);
        assert((before + front).push(last) =~= before + single);
    }
}

// ---------------------------------------------------------------------------
// How many groups
// ---------------------------------------------------------------------------

/// Which event's which group stands at a place.
proof fn lemma_place(events: Seq<RawEventView>, listings: Seq<Listing>, k: int) -> (at: (int, int))
    requires
        0 <= k < inference::groups_of(events, listings).len(),
    ensures
        0 <= at.0 < listings.len(),
        0 <= at.1 < inference::event_groups(events, listings[at.0]).len(),
        inference::groups_of(events, listings)[k] == inference::event_groups(
            events,
            listings[at.0],
        )[at.1],
        k == inference::groups_of(events, listings.subrange(0, at.0)).len() + at.1,
    decreases listings.len(),
{
    let front = listings.drop_last();
    let before = inference::groups_of(events, front);
    if k < before.len() {
        let at = lemma_place(events, front, k);
        assert(front.subrange(0, at.0) =~= listings.subrange(0, at.0));
        at
    } else {
        assert(listings.subrange(0, listings.len() - 1) =~= front);
        (listings.len() - 1, k - before.len())
    }
}

/// The events stand once each.
proof fn lemma_listed_once(markets: Seq<MarketView>, i: int, j: int)
    requires
        0 <= i < discovery::grouped(markets).len(),
        0 <= j < discovery::grouped(markets).len(),
        discovery::grouped(markets)[i].0 == discovery::grouped(markets)[j].0,
    ensures
        i == j,
{
    let keys = discovery::event_keys(markets);
    let sorted = discovery::in_text_order(keys);
    lemma_event_keys(markets);
    order::lemma_text_order();
    order::lemma_arranged(keys, |a: Seq<char>, b: Seq<char>| order::text_later(a, b));
    keys.lemma_multiset_has_no_duplicates();
    sorted.lemma_multiset_has_no_duplicates_conv();
    assert(sorted[i] == sorted[j]);
}

/// With distinct tickers, a market stands once among the listings.
proof fn lemma_market_listed_once(markets: Seq<MarketView>, a: (int, int), b: (int, int))
    requires
        distinct_tickers(markets),
        0 <= a.0 < discovery::grouped(markets).len(),
        0 <= b.0 < discovery::grouped(markets).len(),
        0 <= a.1 < discovery::grouped(markets)[a.0].1.len(),
        0 <= b.1 < discovery::grouped(markets)[b.0].1.len(),
        discovery::grouped(markets)[a.0].1[a.1].ticker == discovery::grouped(
            markets,
        )[b.0].1[b.1].ticker,
    ensures
        a == b,
{
    let listings = discovery::grouped(markets);
    let first = listings[a.0];
    let second = listings[b.0];
    lemma_of_event(markets, first.0);
    lemma_of_event(markets, second.0);
    lemma_by_ticker(discovery::of_event(markets, first.0));
    lemma_by_ticker(discovery::of_event(markets, second.0));
    assert(first.1.contains(first.1[a.1]));
    assert(second.1.contains(second.1[b.1]));
    assert(discovery::of_event(markets, first.0).contains(first.1[a.1]));
    assert(discovery::of_event(markets, second.0).contains(second.1[b.1]));
    let i = choose|i: int| 0 <= i < markets.len() && markets[i] == first.1[a.1];
    let j = choose|j: int| 0 <= j < markets.len() && markets[j] == second.1[b.1];
    assert(markets[i].ticker == markets[j].ticker);
    assert(i == j);
    lemma_listed_once(markets, a.0, b.0);
    let some = discovery::of_event(markets, first.0);
    assert(markets.no_duplicates());
    markets.lemma_multiset_has_no_duplicates();
    assert forall|x: MarketView| #[trigger]
        first.1.to_multiset().contains(x) implies first.1.to_multiset().count(x) == 1 by {
        lemma_filter_count(markets, |m: MarketView| m.event_ticker == first.0, x);
        assert(markets.to_multiset().contains(x));
    }
    first.1.lemma_multiset_has_no_duplicates_conv();
}

/// A market has exactly one complement group.
pub proof fn a_market_has_one_complement(universe: UniverseView, i: int)
    requires
        distinct_tickers(universe.markets),
        0 <= i < universe.markets.len(),
    ensures
        ({
            let groups = inference::inferred(universe);
            let own = InferredView {
                relation_kind: InferredKind::Complement,
                tickers: seq![universe.markets[i].ticker],
                event_ticker: universe.markets[i].event_ticker,
            };
            exists|k: int|
                0 <= k < groups.len() && #[trigger] groups[k] == own && forall|j: int|
                    0 <= j < groups.len() && (#[trigger] groups[j]).relation_kind is Complement
                        && groups[j].tickers.contains(universe.markets[i].ticker) ==> j == k
        }),
{
    let groups = inference::inferred(universe);
    let listings = discovery::grouped(universe.markets);
    let ticker = universe.markets[i].ticker;
    let own = InferredView {
        relation_kind: InferredKind::Complement,
        tickers: seq![ticker],
        event_ticker: universe.markets[i].event_ticker,
    };
    every_market_is_its_own_complement(universe, i);
    let k = choose|k: int| 0 <= k < groups.len() && groups[k] == own;
    assert(own.tickers[0] == ticker);
    let at = lemma_place(universe.events, listings, k);
    lemma_single(universe.events, listings[at.0], at.1, ticker);
    assert forall|j: int|
        0 <= j < groups.len() && (#[trigger] groups[j]).relation_kind is Complement
            && groups[j].tickers.contains(ticker) implies j == k by {
        let other = lemma_place(universe.events, listings, j);
        lemma_single(universe.events, listings[other.0], other.1, ticker);
        lemma_market_listed_once(universe.markets, at, other);
    }
}

/// A complement group of an event names the market at its place.
proof fn lemma_single(events: Seq<RawEventView>, listing: Listing, p: int, ticker: Seq<char>)
    requires
        0 <= p < inference::event_groups(events, listing).len(),
        inference::event_groups(events, listing)[p].relation_kind is Complement,
        inference::event_groups(events, listing)[p].tickers.contains(ticker),
    ensures
        p < listing.1.len(),
        listing.1[p].ticker == ticker,
{
    let single = inference::complements(listing);
    let all = inference::event_groups(events, listing);
    assert(p < single.len());
    assert(all[p] == single[p]);
    assert(all[p].tickers == seq![listing.1[p].ticker]);
}

/// An event has at most one group beyond its markets' own, and none with a
/// single market. With two markets or more, that group is a partition if and
/// only if the venue calls the event mutually exclusive.
pub proof fn an_event_has_at_most_one_further_group(universe: UniverseView, event: Seq<char>)
    ensures
        ({
            let groups = inference::inferred(universe);
            &&& forall|j: int, k: int|
                0 <= j < groups.len() && 0 <= k < groups.len() && !((
                #[trigger] groups[j]).relation_kind is Complement) && !((
                #[trigger] groups[k]).relation_kind is Complement) && groups[j].event_ticker
                    == event && groups[k].event_ticker == event ==> j == k
            &&& forall|k: int|
                0 <= k < groups.len() && !((#[trigger] groups[k]).relation_kind is Complement)
                    && groups[k].event_ticker == event ==> discovery::of_event(
                    universe.markets,
                    event,
                ).len() >= 2
            &&& discovery::of_event(universe.markets, event).len() >= 2 ==> ((exists|k: int|
                0 <= k < groups.len() && (#[trigger] groups[k]).relation_kind is Exhaustive
                    && groups[k].event_ticker == event) <==> discovery::is_exclusive(
                universe.events,
                event,
            ))
        }),
{
    let groups = inference::inferred(universe);
    let markets = universe.markets;
    let events = universe.events;
    let listings = discovery::grouped(markets);
    let some = discovery::of_event(markets, event);
    lemma_by_ticker(some);
    assert(discovery::by_ticker(some).len() == some.len()) by {
        broadcast use vstd::seq_lib::group_to_multiset_ensures;

        assert(discovery::by_ticker(some).to_multiset().len() == some.to_multiset().len());
    }
    assert forall|j: int, k: int|
        0 <= j < groups.len() && 0 <= k < groups.len() && !((
        #[trigger] groups[j]).relation_kind is Complement) && !((
        #[trigger] groups[k]).relation_kind is Complement) && groups[j].event_ticker == event
            && groups[k].event_ticker == event implies j == k by {
        let a = lemma_place(events, listings, j);
        let b = lemma_place(events, listings, k);
        lemma_further(events, listings[a.0], a.1);
        lemma_further(events, listings[b.0], b.1);
        lemma_listed_once(markets, a.0, b.0);
    }
    assert forall|k: int|
        0 <= k < groups.len() && !((#[trigger] groups[k]).relation_kind is Complement)
            && groups[k].event_ticker == event implies some.len() >= 2 by {
        let a = lemma_place(events, listings, k);
        lemma_further(events, listings[a.0], a.1);
    }
    if some.len() >= 2 {
        if discovery::is_exclusive(events, event) {
            lemma_of_event(markets, event);
            assert(some.contains(some[0]));
            let i = choose|i: int| 0 <= i < markets.len() && markets[i] == some[0];
            lemma_event_keys(markets);
            assert(discovery::event_keys(markets).contains(markets[i].event_ticker));
            let l = lemma_listing_of(markets, event);
            let group = InferredView {
                relation_kind: InferredKind::Exhaustive,
                tickers: inference::tickers(listings[l].1),
                event_ticker: event,
            };
            let all = inference::event_groups(events, listings[l]);
            assert(all[all.len() - 1] == group);
            assert(inference::event_groups(events, listings[l]).contains(group));
            lemma_group_source(events, listings, group);
            let k = choose|k: int| 0 <= k < groups.len() && groups[k] == group;
            assert(groups[k].relation_kind is Exhaustive && groups[k].event_ticker == event);
        }
        if exists|k: int|
            0 <= k < groups.len() && (#[trigger] groups[k]).relation_kind is Exhaustive
                && groups[k].event_ticker == event {
            let k = choose|k: int|
                0 <= k < groups.len() && (#[trigger] groups[k]).relation_kind is Exhaustive
                    && groups[k].event_ticker == event;
            assert(groups.contains(groups[k]));
            exclusivity_decides(universe, groups[k]);
        }
    }
}

/// The group of an event that is no complement stands after all that are.
proof fn lemma_further(events: Seq<RawEventView>, listing: Listing, p: int)
    requires
        0 <= p < inference::event_groups(events, listing).len(),
        !(inference::event_groups(events, listing)[p].relation_kind is Complement),
    ensures
        p == listing.1.len() >= 2,
        inference::event_groups(events, listing)[p].event_ticker == listing.0,
{
    let single = inference::complements(listing);
    let all = inference::event_groups(events, listing);
    if p < single.len() {
        assert(all[p] == single[p]);
    }
}

// ---------------------------------------------------------------------------
// Close times
// ---------------------------------------------------------------------------

/// Where every close time of an event names an instant, the event closes no
/// later than any of its markets, and at the close of one of them.
pub proof fn an_event_closes_with_its_first_market(
    markets: Seq<MarketView>,
    event: Seq<char>,
    i: int,
)
    requires
        forall|k: int|
            0 <= k < markets.len() && (#[trigger] markets[k]).event_ticker == event
                && markets[k].close_time is Some ==> timestamp::instant(markets[k].close_time->0)
                is Some,
        0 <= i < markets.len(),
        markets[i].event_ticker == event,
        markets[i].close_time is Some,
    ensures
        inference::close_times(markets).contains_key(event),
        exists|k: int|
            0 <= k < markets.len() && (#[trigger] markets[k]).event_ticker == event
                && markets[k].close_time == Some(inference::close_times(markets)[event]),
        !timestamp::instant(markets[i].close_time->0)->0.before(
            timestamp::instant(inference::close_times(markets)[event])->0,
        ),
    decreases markets.len(),
{
    let front = markets.drop_last();
    let last = markets.last();
    let before = inference::close_times(front);
    let after = inference::close_times(markets);
    assert(markets[markets.len() - 1] == last);
    assert forall|k: int|
        0 <= k < front.len() && (#[trigger] front[k]).event_ticker == event
            && front[k].close_time is Some implies timestamp::instant(front[k].close_time->0)
        is Some by {
        assert(markets[k] == front[k]);
    }
    lemma_close_times_of(front, event);
    if before.contains_key(event) {
        let k = choose|k: int|
            0 <= k < front.len() && (#[trigger] front[k]).event_ticker == event
                && front[k].close_time == Some(before[event]);
        assert(markets[k] == front[k]);
        an_event_closes_with_its_first_market(front, event, k);
    }
    if i < front.len() {
        assert(front[i] == markets[i]);
        an_event_closes_with_its_first_market(front, event, i);
    }
    if last.event_ticker == event && last.close_time is Some {
        assert(timestamp::instant(markets[markets.len() - 1].close_time->0) is Some);
        if after[event] == last.close_time->0 {
            assert(markets[markets.len() - 1].close_time == Some(after[event]));
        }
    }
}

proof fn lemma_close_times_of(markets: Seq<MarketView>, event: Seq<char>)
    ensures
        inference::close_times(markets).contains_key(event) ==> exists|k: int|
            0 <= k < markets.len() && (#[trigger] markets[k]).event_ticker == event
                && markets[k].close_time == Some(inference::close_times(markets)[event]),
    decreases markets.len(),
{
    if markets.len() > 0 {
        let front = markets.drop_last();
        lemma_close_times_of(front, event);
        if inference::close_times(markets).contains_key(event) {
            assert(markets[markets.len() - 1] == markets.last());
            let before = inference::close_times(front);
            if before.contains_key(event) {
                let k = choose|k: int|
                    0 <= k < front.len() && (#[trigger] front[k]).event_ticker == event
                        && front[k].close_time == Some(before[event]);
                assert(markets[k] == front[k]);
            }
        }
    }
}

// ---------------------------------------------------------------------------
// Validation
// ---------------------------------------------------------------------------

/// With distinct tickers, a market is found under its ticker.
proof fn lemma_market_named(markets: Seq<MarketView>, market: MarketView)
    requires
        distinct_tickers(markets),
        markets.contains(market),
    ensures
        validation::market_named(markets, market.ticker) == Some(market),
    decreases markets.len(),
{
    let i = choose|i: int| 0 <= i < markets.len() && markets[i] == market;
    if i < markets.len() - 1 {
        let front = markets.drop_last();
        assert(distinct_tickers(front)) by {
            assert forall|a: int, b: int| 0 <= a < b < front.len() implies (
            #[trigger] front[a]).ticker != (#[trigger] front[b]).ticker by {
                assert(front[a] == markets[a] && front[b] == markets[b]);
            }
        }
        assert(front[i] == market);
        lemma_market_named(front, market);
        assert(markets[i].ticker != markets[markets.len() - 1].ticker);
    }
}

/// The markets of a listing are the universe's, and belong to its event.
proof fn lemma_listing_members(markets: Seq<MarketView>, l: int)
    requires
        0 <= l < discovery::grouped(markets).len(),
    ensures
        forall|m: MarketView| #[trigger]
            discovery::grouped(markets)[l].1.contains(m) ==> markets.contains(m) && m.event_ticker
                == discovery::grouped(markets)[l].0,
{
    let listing = discovery::grouped(markets)[l];
    lemma_of_event(markets, listing.0);
    lemma_by_ticker(discovery::of_event(markets, listing.0));
    assert forall|m: MarketView| #[trigger] listing.1.contains(m) implies markets.contains(m)
        && m.event_ticker == listing.0 by {
        assert(discovery::of_event(markets, listing.0).contains(m));
    }
}

/// A group whose members are found, in order, has them for members.
proof fn lemma_found(universe: UniverseView, group: InferredView, members: Seq<MarketView>)
    requires
        distinct_tickers(universe.markets),
        group.tickers == inference::tickers(members),
        members.len() > 0,
        forall|k: int|
            0 <= k < members.len() ==> universe.markets.contains(#[trigger] members[k])
                && members[k].event_ticker == group.event_ticker,
    ensures
        group.tickers.len() > 0,
        validation::all_present(universe, group),
        validation::members_of(universe, group) == members,
        validation::all_native(members, group.event_ticker),
{
    assert forall|k: int| 0 <= k < members.len() implies validation::market_named(
        universe.markets,
        #[trigger] group.tickers[k],
    ) == Some(members[k]) by {
        assert(universe.markets.contains(members[k]));
        lemma_market_named(universe.markets, members[k]);
    }
    assert(validation::members_of(universe, group) =~= members);
}

/// A ladder in its own order is still a sound one.
proof fn lemma_ladder_sound(markets: Seq<MarketView>, ordered: Seq<Seq<char>>) -> (members: Seq<
    MarketView,
>)
    requires
        inference::ladder(markets) == Some(ordered),
        markets.len() <= usize::MAX,
    ensures
        ordered == inference::tickers(members),
        members.len() == markets.len(),
        forall|k: int| 0 <= k < members.len() ==> markets.contains(#[trigger] members[k]),
        validation::ladder_fault(members) is None,
{
    let kind = markets[0].strike_type->0;
    let keys = inference::rungs(markets, kind)->0;
    let places = order::number_places(keys);
    let all = order::places(markets.len() as int);
    let later = |a: usize, b: usize| keys[a as int] > keys[b as int];
    a_ladder_rises(markets, ordered);
    order::lemma_arranged_from(all, later);
    let members = places.map_values(|p: usize| markets[p as int]);
    assert forall|k: int| 0 <= k < places.len() implies (#[trigger] places[k]) < markets.len() by {
        assert(all.contains(places[k]));
    }
    assert(ordered =~= inference::tickers(members));
    assert forall|k: int| 0 <= k < members.len() implies markets.contains(#[trigger] members[k]) by {
        assert(places[k] < markets.len());
        assert(markets[places[k] as int] == members[k]);
    }
    assert forall|k: int| 0 <= k < members.len() implies (#[trigger] members[k]).strike_type
        == Some(kind) by {
        assert(places[k] < markets.len());
        assert(markets[places[k] as int].strike_type == Some(kind));
    }
    assert(inference::all_of_kind(members, kind));
    assert(members[0].strike_type == Some(kind));
    if kind == "greater"@ {
        assert forall|k: int| 0 <= k < members.len() implies (#[trigger] members[k]).floor_strike
            is Some by {
            assert(markets[places[k] as int].floor_strike is Some);
        }
    } else {
        assert forall|k: int| 0 <= k < members.len() implies (#[trigger] members[k]).cap_strike
            is Some by {
            assert(markets[places[k] as int].cap_strike is Some);
        }
    }
    let sorted = inference::rungs(members, kind)->0;
    assert forall|i: int, j: int| 0 <= i < sorted.len() && 0 <= j < sorted.len() && i
        != j implies sorted[i] != sorted[j] by {
        assert(sorted[i] == keys[places[i] as int]);
        assert(sorted[j] == keys[places[j] as int]);
    }
    assert(sorted.no_duplicates());
    members
}

/// Nothing that is inferred is faulted.
proof fn lemma_inferred_sound(universe: UniverseView, group: InferredView)
    requires
        distinct_tickers(universe.markets),
        universe.markets.len() <= usize::MAX,
        inference::inferred(universe).contains(group),
    ensures
        validation::structural_faults(universe, group) == Seq::<Seq<char>>::empty(),
        validation::rung_faults(universe, group) == Seq::<Seq<char>>::empty(),
{
    broadcast use vstd::seq_lib::group_to_multiset_ensures;

    let listings = discovery::grouped(universe.markets);
    lemma_group_source(universe.events, listings, group);
    let l = choose|i: int|
        0 <= i < listings.len() && inference::event_groups(
            universe.events,
            #[trigger] listings[i],
        ).contains(group);
    let listing = listings[l];
    lemma_event_group(universe.events, listing, group);
    lemma_listing_members(universe.markets, l);
    match group.relation_kind {
        InferredKind::Complement => {
            let m = choose|m: int|
                0 <= m < listing.1.len() && group.tickers == seq![
                    (#[trigger] listing.1[m]).ticker,
                ];
            let members = seq![listing.1[m]];
            assert(listing.1.contains(listing.1[m]));
            assert(group.tickers =~= inference::tickers(members));
            lemma_found(universe, group, members);
        },
        InferredKind::Exhaustive => {
            assert forall|k: int| 0 <= k < listing.1.len() implies universe.markets.contains(
                #[trigger] listing.1[k],
            ) && listing.1[k].event_ticker == group.event_ticker by {
                assert(listing.1.contains(listing.1[k]));
            }
            lemma_found(universe, group, listing.1);
        },
        InferredKind::Monotone => {
            lemma_listing_len(universe.markets, l);
            let members = lemma_ladder_sound(listing.1, group.tickers);
            assert forall|k: int| 0 <= k < members.len() implies universe.markets.contains(
                #[trigger] members[k],
            ) && members[k].event_ticker == group.event_ticker by {
                assert(listing.1.contains(members[k]));
            }
            lemma_found(universe, group, members);
        },
    }
}

/// An event has no more markets than there are.
proof fn lemma_listing_len(markets: Seq<MarketView>, l: int)
    requires
        0 <= l < discovery::grouped(markets).len(),
    ensures
        discovery::grouped(markets)[l].1.len() <= markets.len(),
{
    let event = discovery::grouped(markets)[l].0;
    let some = discovery::of_event(markets, event);
    lemma_ticker_order();
    order::lemma_arranged(
        some,
        |a: MarketView, b: MarketView| order::text_later(a.ticker, b.ticker),
    );
    markets.lemma_filter_len(|m: MarketView| m.event_ticker == event);
}

proof fn lemma_all_sound(universe: UniverseView, n: int)
    requires
        distinct_tickers(universe.markets),
        universe.markets.len() <= usize::MAX,
        0 <= n <= inference::inferred(universe).len(),
    ensures
        validation::all_structural(universe, inference::inferred(universe).subrange(0, n)) == Seq::<
            Seq<char>,
        >::empty(),
        validation::all_rungs(universe, inference::inferred(universe).subrange(0, n)) == Seq::<
            Seq<char>,
        >::empty(),
    decreases n,
{
    let all = inference::inferred(universe);
    if n > 0 {
        lemma_all_sound(universe, n - 1);
        assert(all.subrange(0, n).drop_last() =~= all.subrange(0, n - 1));
        assert(all.contains(all[n - 1]));
        lemma_inferred_sound(universe, all[n - 1]);
        assert(Seq::<Seq<char>>::empty() + Seq::<Seq<char>>::empty() =~= Seq::<Seq<char>>::empty());
    }
}

/// A universe in which no ticker stands twice is never faulted for its groups:
/// what inference names, validation finds sound.
pub proof fn what_is_inferred_is_sound(universe: UniverseView)
    requires
        distinct_tickers(universe.markets),
        universe.markets.len() <= usize::MAX,
    ensures
        validation::all_structural(universe, inference::inferred(universe)) == Seq::<
            Seq<char>,
        >::empty(),
        validation::all_rungs(universe, inference::inferred(universe)) == Seq::<Seq<char>>::empty(),
{
    let all = inference::inferred(universe);
    lemma_all_sound(universe, all.len() as int);
    assert(all.subrange(0, all.len() as int) =~= all);
}

// ---------------------------------------------------------------------------
// Groups, by the markets they name
// ---------------------------------------------------------------------------

/// A market of an event, under a ticker.
pub open spec fn lists(market: MarketView, event: Seq<char>, ticker: Seq<char>) -> bool {
    market.event_ticker == event && market.ticker == ticker
}

proof fn lemma_event_exclusive(events: Seq<RawEventView>, ticker: Seq<char>)
    ensures
        discovery::is_exclusive(events, ticker) <==> exists|k: int|
            0 <= k < events.len() && (#[trigger] events[k]).event_ticker == ticker
                && events[k].mutually_exclusive && forall|j: int|
                0 <= j < k ==> (#[trigger] events[j]).event_ticker != ticker,
    decreases events.len(),
{
    if events.len() > 0 {
        let rest = events.drop_first();
        lemma_event_exclusive(rest, ticker);
        if events[0].event_ticker != ticker {
            if discovery::is_exclusive(rest, ticker) {
                let k = choose|k: int|
                    0 <= k < rest.len() && (#[trigger] rest[k]).event_ticker == ticker
                        && rest[k].mutually_exclusive && forall|j: int|
                        0 <= j < k ==> (#[trigger] rest[j]).event_ticker != ticker;
                assert(events[k + 1] == rest[k]);
                assert forall|j: int| 0 <= j < k + 1 implies (#[trigger] events[j]).event_ticker
                    != ticker by {
                    if j > 0 {
                        assert(events[j] == rest[j - 1]);
                    }
                }
            }
            if exists|k: int|
                0 <= k < events.len() && (#[trigger] events[k]).event_ticker == ticker
                    && events[k].mutually_exclusive && forall|j: int|
                    0 <= j < k ==> (#[trigger] events[j]).event_ticker != ticker {
                let k = choose|k: int|
                    0 <= k < events.len() && (#[trigger] events[k]).event_ticker == ticker
                        && events[k].mutually_exclusive && forall|j: int|
                        0 <= j < k ==> (#[trigger] events[j]).event_ticker != ticker;
                assert(rest[k - 1] == events[k]);
                assert forall|j: int| 0 <= j < k - 1 implies (#[trigger] rest[j]).event_ticker
                    != ticker by {
                    assert(rest[j] == events[j + 1]);
                }
            }
        }
    }
}

proof fn lemma_listing_tickers(markets: Seq<MarketView>, l: int, ticker: Seq<char>)
    requires
        0 <= l < discovery::grouped(markets).len(),
    ensures
        ({
            let listing = discovery::grouped(markets)[l];
            (exists|m: int|
                0 <= m < listing.1.len() && (#[trigger] listing.1[m]).ticker == ticker) <==> (
            exists|i: int| 0 <= i < markets.len() && lists(#[trigger] markets[i], listing.0, ticker))
        }),
{
    let listing = discovery::grouped(markets)[l];
    lemma_of_event(markets, listing.0);
    lemma_by_ticker(discovery::of_event(markets, listing.0));
    if exists|m: int| 0 <= m < listing.1.len() && (#[trigger] listing.1[m]).ticker == ticker {
        let m = choose|m: int|
            0 <= m < listing.1.len() && (#[trigger] listing.1[m]).ticker == ticker;
        assert(listing.1.contains(listing.1[m]));
        assert(discovery::of_event(markets, listing.0).contains(listing.1[m]));
        let i = choose|i: int| 0 <= i < markets.len() && markets[i] == listing.1[m];
        assert(lists(markets[i], listing.0, ticker));
    }
    if exists|i: int| 0 <= i < markets.len() && lists(#[trigger] markets[i], listing.0, ticker) {
        let i = choose|i: int|
            0 <= i < markets.len() && lists(#[trigger] markets[i], listing.0, ticker);
        assert(markets.contains(markets[i]));
        assert(discovery::of_event(markets, listing.0).contains(markets[i]));
        assert(listing.1.contains(markets[i]));
        let m = choose|m: int| 0 <= m < listing.1.len() && listing.1[m] == markets[i];
        assert(listing.1[m].ticker == ticker);
    }
}

/// A partition names every market of its event and no other, and is read only off
/// an event that the venue calls mutually exclusive.
pub proof fn a_partition_holds_every_market_of_its_event(
    universe: UniverseView,
    group: InferredView,
    ticker: Seq<char>,
)
    requires
        inference::inferred(universe).contains(group),
        group.relation_kind is Exhaustive,
    ensures
        group.tickers.contains(ticker) <==> exists|i: int|
            0 <= i < universe.markets.len() && lists(
                #[trigger] universe.markets[i],
                group.event_ticker,
                ticker,
            ),
        exists|k: int|
            0 <= k < universe.events.len() && (#[trigger] universe.events[k]).event_ticker
                == group.event_ticker && universe.events[k].mutually_exclusive,
{
    let listings = discovery::grouped(universe.markets);
    lemma_group_source(universe.events, listings, group);
    let l = choose|i: int|
        0 <= i < listings.len() && inference::event_groups(
            universe.events,
            #[trigger] listings[i],
        ).contains(group);
    let listing = listings[l];
    lemma_event_group(universe.events, listing, group);
    lemma_event_exclusive(universe.events, group.event_ticker);
    lemma_listing_tickers(universe.markets, l, ticker);
    let named = inference::tickers(listing.1);
    if named.contains(ticker) {
        let m = choose|m: int| 0 <= m < named.len() && named[m] == ticker;
        assert(listing.1[m].ticker == ticker);
    }
    if exists|m: int| 0 <= m < listing.1.len() && (#[trigger] listing.1[m]).ticker == ticker {
        let m = choose|m: int|
            0 <= m < listing.1.len() && (#[trigger] listing.1[m]).ticker == ticker;
        assert(named[m] == ticker);
    }
}

/// One market claims less than another: it wants a lower floor passed, or a
/// higher cap kept under.
pub open spec fn claims_less(a: MarketView, b: MarketView) -> bool {
    ||| a.strike_type == Some("greater"@) && b.strike_type == Some("greater"@) && (
    a.floor_strike matches Some(low) && b.floor_strike matches Some(high) && low < high)
    ||| a.strike_type == Some("less"@) && b.strike_type == Some("less"@) && (
    a.cap_strike matches Some(high) && b.cap_strike matches Some(low) && high > low)
}

/// The markets of a ladder stand by what they claim, the weakest claim first, and
/// all of them are its event's.
pub proof fn a_ladder_stands_by_strike(
    universe: UniverseView,
    group: InferredView,
    i: int,
    j: int,
)
    requires
        universe.markets.len() <= usize::MAX,
        inference::inferred(universe).contains(group),
        group.relation_kind is Monotone,
        0 <= i < j < group.tickers.len(),
    ensures
        exists|a: int, b: int|
            0 <= a < universe.markets.len() && 0 <= b < universe.markets.len() && lists(
                universe.markets[a],
                group.event_ticker,
                group.tickers[i],
            ) && lists(universe.markets[b], group.event_ticker, group.tickers[j])
                && #[trigger] claims_less(universe.markets[a], universe.markets[b]),
        !(exists|k: int|
            0 <= k < universe.events.len() && (#[trigger] universe.events[k]).event_ticker
                == group.event_ticker && universe.events[k].mutually_exclusive && forall|e: int|
                0 <= e < k ==> (#[trigger] universe.events[e]).event_ticker
                    != group.event_ticker),
{
    let markets = universe.markets;
    let listings = discovery::grouped(markets);
    lemma_group_source(universe.events, listings, group);
    let l = choose|i: int|
        0 <= i < listings.len() && inference::event_groups(
            universe.events,
            #[trigger] listings[i],
        ).contains(group);
    let listing = listings[l];
    lemma_event_group(universe.events, listing, group);
    lemma_event_exclusive(universe.events, group.event_ticker);
    lemma_listing_len(markets, l);
    let own = listing.1;
    a_ladder_rises(own, group.tickers);
    let kind = own[0].strike_type->0;
    let keys = inference::rungs(own, kind)->0;
    let places = order::number_places(keys);
    let all = order::places(own.len() as int);
    order::lemma_arranged_from(all, |a: usize, b: usize| keys[a as int] > keys[b as int]);
    assert(all.contains(places[i]) && all.contains(places[j]));
    let (p, q) = (places[i] as int, places[j] as int);
    assert(keys[p] < keys[q]);
    lemma_listing_members(markets, l);
    assert(own.contains(own[p]) && own.contains(own[q]));
    assert(own[p].strike_type == Some(kind) && own[q].strike_type == Some(kind));
    let a = choose|a: int| 0 <= a < markets.len() && markets[a] == own[p];
    let b = choose|b: int| 0 <= b < markets.len() && markets[b] == own[q];
    assert(group.tickers[i] == own[p].ticker);
    assert(group.tickers[j] == own[q].ticker);
    assert(claims_less(markets[a], markets[b]));
}

/// A ladder names every market of its event.
pub proof fn a_ladder_holds_every_market_of_its_event(
    universe: UniverseView,
    group: InferredView,
    ticker: Seq<char>,
)
    requires
        universe.markets.len() <= usize::MAX,
        inference::inferred(universe).contains(group),
        group.relation_kind is Monotone,
    ensures
        group.tickers.contains(ticker) <==> exists|i: int|
            0 <= i < universe.markets.len() && lists(
                #[trigger] universe.markets[i],
                group.event_ticker,
                ticker,
            ),
{
    broadcast use vstd::seq_lib::group_to_multiset_ensures;

    let markets = universe.markets;
    let listings = discovery::grouped(markets);
    lemma_group_source(universe.events, listings, group);
    let l = choose|i: int|
        0 <= i < listings.len() && inference::event_groups(
            universe.events,
            #[trigger] listings[i],
        ).contains(group);
    let listing = listings[l];
    lemma_event_group(universe.events, listing, group);
    lemma_listing_len(markets, l);
    lemma_listing_tickers(markets, l, ticker);
    let own = listing.1;
    a_ladder_rises(own, group.tickers);
    let keys = inference::rungs(own, own[0].strike_type->0)->0;
    let places = order::number_places(keys);
    let all = order::places(own.len() as int);
    order::lemma_arranged_from(all, |a: usize, b: usize| keys[a as int] > keys[b as int]);
    if group.tickers.contains(ticker) {
        let k = choose|k: int| 0 <= k < group.tickers.len() && group.tickers[k] == ticker;
        assert(all.contains(places[k]));
        assert(own[places[k] as int].ticker == ticker);
    }
    if exists|m: int| 0 <= m < own.len() && (#[trigger] own[m]).ticker == ticker {
        let m = choose|m: int| 0 <= m < own.len() && (#[trigger] own[m]).ticker == ticker;
        assert(all[m] == m as usize);
        assert(all.contains(m as usize));
        assert(all.to_multiset().count(m as usize) > 0);
        assert(places.to_multiset().count(m as usize) > 0);
        assert(places.contains(m as usize));
        let k = choose|k: int| 0 <= k < places.len() && places[k] == m as usize;
        assert(group.tickers[k] == ticker);
    }
}

/// An event of several markets that the venue does not call exclusive is a ladder
/// where all of them ask to pass different floors, or to keep under different
/// caps.
pub proof fn strikes_make_a_ladder(universe: UniverseView, event: Seq<char>, a: int, b: int)
    requires
        distinct_tickers(universe.markets),
        universe.markets.len() <= usize::MAX,
        0 <= a < b < universe.markets.len(),
        universe.markets[a].event_ticker == event,
        universe.markets[b].event_ticker == event,
        forall|k: int|
            0 <= k < universe.events.len() && (#[trigger] universe.events[k]).event_ticker == event
                ==> !universe.events[k].mutually_exclusive,
        forall|i: int, j: int|
            #![trigger universe.markets[i], universe.markets[j]]
            0 <= i < universe.markets.len() && 0 <= j < universe.markets.len() && i != j
                && universe.markets[i].event_ticker == event && universe.markets[j].event_ticker
                == event ==> claims_less(universe.markets[i], universe.markets[j]) || claims_less(
                universe.markets[j],
                universe.markets[i],
            ),
    ensures
        exists|g: int|
            0 <= g < inference::inferred(universe).len() && (#[trigger] inference::inferred(
                universe,
            )[g]).relation_kind is Monotone && inference::inferred(universe)[g].event_ticker
                == event,
{
    let markets = universe.markets;
    lemma_event_keys(markets);
    let l = lemma_listing_of(markets, event);
    let listings = discovery::grouped(markets);
    let own = listings[l].1;
    lemma_event_exclusive(universe.events, event);
    lemma_listing_members(markets, l);
    let (first, second) = (markets[a], markets[b]);
    lemma_of_event(markets, event);
    lemma_by_ticker(discovery::of_event(markets, event));
    assert(markets.contains(first) && markets.contains(second));
    assert(discovery::of_event(markets, event).contains(first));
    assert(discovery::of_event(markets, event).contains(second));
    assert(own.contains(first) && own.contains(second));
    let pa = choose|p: int| 0 <= p < own.len() && own[p] == first;
    let pb = choose|p: int| 0 <= p < own.len() && own[p] == second;
    assert(first.ticker != second.ticker);
    assert(own.len() >= 2);
    assert forall|p: int, q: int| 0 <= p < own.len() && 0 <= q < own.len() && p != q implies
        #[trigger] claims_less(own[p], own[q]) || claims_less(own[q], own[p]) by {
        assert(own.contains(own[p]) && own.contains(own[q]));
        let i = choose|i: int| 0 <= i < markets.len() && markets[i] == own[p];
        let j = choose|j: int| 0 <= j < markets.len() && markets[j] == own[q];
        if i == j {
            lemma_market_listed_once(markets, (l, p), (l, q));
        }
        assert(claims_less(markets[i], markets[j]) || claims_less(markets[j], markets[i]));
    }
    let kind = own[0].strike_type->0;
    assert(claims_less(own[0], own[1]) || claims_less(own[1], own[0]));
    reveal_strlit("greater");
    reveal_strlit("less");
    assert("greater"@.len() != "less"@.len());
    assert(inference::all_of_kind(own, kind)) by {
        assert forall|p: int| 0 <= p < own.len() implies (#[trigger] own[p]).strike_type == Some(
            kind,
        ) by {
            if p > 0 {
                assert(claims_less(own[0], own[p]) || claims_less(own[p], own[0]));
            }
        }
    }
    assert forall|p: int| 0 <= p < own.len() implies (kind == "greater"@ ==> (
    #[trigger] own[p]).floor_strike is Some) && (kind == "less"@ ==> own[p].cap_strike is Some) by {
        let q: int = if p == 0 {
            1
        } else {
            0
        };
        assert(claims_less(own[p], own[q]) || claims_less(own[q], own[p]));
    }
    let keys = inference::rungs(own, kind)->0;
    assert(inference::rungs(own, kind) is Some);
    assert forall|p: int, q: int| 0 <= p < keys.len() && 0 <= q < keys.len() && p != q implies
        keys[p] != keys[q] by {
        assert(claims_less(own[p], own[q]) || claims_less(own[q], own[p]));
    }
    assert(keys.no_duplicates());
    let ordered = inference::ladder(own)->0;
    let group = InferredView {
        relation_kind: InferredKind::Monotone,
        tickers: ordered,
        event_ticker: event,
    };
    let groups = inference::event_groups(universe.events, listings[l]);
    assert(groups.last() == group);
    assert(groups.contains(group));
    lemma_group_source(universe.events, listings, group);
    let all = inference::inferred(universe);
    assert(all.contains(group));
    let g = choose|g: int| 0 <= g < all.len() && all[g] == group;
    assert(all[g].relation_kind is Monotone);
}

} // verus!
