//! What is kept of the venues' listings, and what is found wrong with them.
use vstd::prelude::*;
use crate::discovery;
use crate::discovery::cache;
use crate::discovery::inference::{InferredKind, InferredView};
use crate::discovery::polymarket;
use crate::discovery::polymarket::{GammaView, PolymarketView, WalkView};
use crate::discovery::validation;
use crate::discovery::{MarketView, UniverseView};
use crate::fees;
use crate::fees::FeeCategory;
use crate::json;
use crate::json::Json;
use crate::order;
use crate::text;
use crate::timestamp;
use crate::types;
use crate::types::{Instrument, Venue};

verus! {

// ---------------------------------------------------------------------------
// Polymarket
// ---------------------------------------------------------------------------

/// A listed market is kept exactly where it is open, takes orders, names its tick
/// and names two tokens, and the first of them is Yes.
pub proof fn an_open_market_is_kept(raw: GammaView, yes: Seq<char>, no: Seq<char>)
    ensures
        ({
            let tokens = match raw.clob_token_ids {
                Some(encoded) => json::parsed_json(encoded),
                None => None,
            };
            let named = tokens == Some(Json::List(seq![Json::Text(yes), Json::Text(no)]));
            let kept = polymarket::gamma_market(raw);
            &&& named && !raw.closed && raw.accepting_orders && raw.cent_tick is Some ==> (
            kept matches Some(market) && market.yes_token == yes && market.no_token == no
                && market.question == raw.question && Some(market.cent_tick) == raw.cent_tick
                && market.fee_type == raw.fee_type && market.fees_enabled == raw.fees_enabled
                && market.ends_at == raw.end_date)
            &&& raw.closed || !raw.accepting_orders || raw.cent_tick is None || tokens is None
                ==> kept is None
            &&& (kept is Some && kept->0.yes_token == yes && kept->0.no_token == no) ==> named
        }),
{
    if let Some(encoded) = raw.clob_token_ids {
        if let Some(Json::List(items)) = json::parsed_json(encoded) {
            let pair = seq![Json::Text(yes), Json::Text(no)];
            if items.len() == 2 && items[0] == Json::Text(yes) && items[1] == Json::Text(no) {
                assert(items =~= pair);
            }
            if items == pair {
                assert(items[0] == Json::Text(yes) && items[1] == Json::Text(no));
            }
        }
    }
}

/// What a market is charged: nothing where fees are off, by its fee type where it
/// has one, and as crypto where it has none.
pub proof fn a_market_is_charged_by_its_fee_type(market: PolymarketView)
    ensures
        !market.fees_enabled ==> market.fee_category() == FeeCategory::Zero,
        market.fees_enabled && market.fee_type is None ==> market.fee_category()
            == FeeCategory::Crypto,
        market.fees_enabled ==> (market.fee_type matches Some(fee_type) ==> market.fee_category()
            == fees::category_of(fee_type)),
{
}

/// Every listed market is charged by its own fee type, the last listing of a
/// contract deciding, and no other contract's charge changes.
pub proof fn a_contract_is_charged_by_its_last_listing(
    markets: Seq<PolymarketView>,
    names: Seq<Instrument>,
    before: Map<u32, FeeCategory>,
    contract: u32,
)
    ensures
        ({
            let after = polymarket::registered_fees(markets, names, before);
            ||| exists|i: int|
                0 <= i < markets.len() && types::lookup(
                    names,
                    Venue::Polymarket,
                    (#[trigger] markets[i]).yes_token,
                ) == Some(types::ContractId(contract)) && after.contains_key(contract)
                    && after[contract] == markets[i].fee_category() && forall|k: int|
                    i < k < markets.len() ==> types::lookup(
                        names,
                        Venue::Polymarket,
                        (#[trigger] markets[k]).yes_token,
                    ) != Some(types::ContractId(contract))
            ||| after.contains_key(contract) == before.contains_key(contract) && (
            before.contains_key(contract) ==> after[contract] == before[contract]) && forall|
                i: int,
            |
                0 <= i < markets.len() ==> types::lookup(
                    names,
                    Venue::Polymarket,
                    (#[trigger] markets[i]).yes_token,
                ) != Some(types::ContractId(contract))
        }),
    decreases markets.len(),
{
    if markets.len() > 0 {
        let front = markets.drop_last();
        let n = markets.len() - 1;
        a_contract_is_charged_by_its_last_listing(front, names, before, contract);
        let middle = polymarket::registered_fees(front, names, before);
        let own = types::ContractId(contract);
        assert(markets[n] == markets.last());
        if types::lookup(names, Venue::Polymarket, markets[n].yes_token) != Some(own) {
            if exists|i: int|
                0 <= i < front.len() && types::lookup(
                    names,
                    Venue::Polymarket,
                    (#[trigger] front[i]).yes_token,
                ) == Some(own) && middle.contains_key(contract) && middle[contract]
                    == front[i].fee_category() && forall|k: int|
                    i < k < front.len() ==> types::lookup(
                        names,
                        Venue::Polymarket,
                        (#[trigger] front[k]).yes_token,
                    ) != Some(own) {
                let i = choose|i: int|
                    0 <= i < front.len() && types::lookup(
                        names,
                        Venue::Polymarket,
                        (#[trigger] front[i]).yes_token,
                    ) == Some(own) && middle.contains_key(contract) && middle[contract]
                        == front[i].fee_category() && forall|k: int|
                        i < k < front.len() ==> types::lookup(
                            names,
                            Venue::Polymarket,
                            (#[trigger] front[k]).yes_token,
                        ) != Some(own);
                assert(markets[i] == front[i]);
                assert forall|k: int| i < k < markets.len() implies types::lookup(
                    names,
                    Venue::Polymarket,
                    (#[trigger] markets[k]).yes_token,
                ) != Some(own) by {
                    if k < n {
                        assert(markets[k] == front[k]);
                    }
                }
            } else {
                assert forall|i: int| 0 <= i < markets.len() implies types::lookup(
                    names,
                    Venue::Polymarket,
                    (#[trigger] markets[i]).yes_token,
                ) != Some(own) by {
                    if i < n {
                        assert(markets[i] == front[i]);
                    }
                }
            }
        }
    }
}

/// A walk through the pages keeps the markets that trade in whole cents, and goes
/// on while it wants more and the last page had any.
pub proof fn a_walk_keeps_what_trades_in_cents(
    before: WalkView,
    page: Seq<PolymarketView>,
    market: PolymarketView,
)
    ensures
        ({
            let after = before.after(page);
            &&& after.found.contains(market) <==> before.found.contains(market) || (
            page.contains(market) && market.cent_tick)
            &&& after.found.len() >= before.found.len()
            &&& forall|i: int|
                0 <= i < before.found.len() ==> #[trigger] after.found[i] == before.found[i]
            &&& after.goes_on() <==> after.found.len() < before.max_markets && page.len() > 0
        }),
{
    let pred = |m: PolymarketView| m.cent_tick;
    let kept = page.filter(pred);
    let after = before.after(page);
    lemma_filter_keeps(page, pred, market);
    if before.found.contains(market) {
        let i = choose|i: int| 0 <= i < before.found.len() && before.found[i] == market;
        assert(after.found[i] == market);
    }
    if kept.contains(market) {
        let i = choose|i: int| 0 <= i < kept.len() && kept[i] == market;
        assert(after.found[before.found.len() + i] == market);
    }
    if after.found.contains(market) {
        let i = choose|i: int| 0 <= i < after.found.len() && after.found[i] == market;
        if i < before.found.len() {
            assert(before.found[i] == market);
        } else {
            assert(kept[i - before.found.len()] == market);
        }
    }
}

proof fn lemma_filter_keeps<T>(s: Seq<T>, pred: spec_fn(T) -> bool, x: T)
    ensures
        s.filter(pred).contains(x) <==> s.contains(x) && pred(x),
    decreases s.len(),
{
    reveal(Seq::filter);
    if s.len() > 0 {
        let front = s.drop_last();
        lemma_filter_keeps(front, pred, x);
        let before = front.filter(pred);
        let after = s.filter(pred);
        assert(s.last() == s[s.len() - 1]);
        if before.contains(x) {
            let i = choose|i: int| 0 <= i < before.len() && before[i] == x;
            assert(after[i] == x);
            let k = choose|k: int| 0 <= k < front.len() && front[k] == x;
            assert(s[k] == x);
        }
        if s.last() == x && pred(x) {
            assert(after[before.len() as int] == x);
        }
        if after.contains(x) {
            let i = choose|i: int| 0 <= i < after.len() && after[i] == x;
            if i < before.len() {
                assert(before[i] == x);
            }
        }
        if s.contains(x) && pred(x) && s.last() != x {
            let k = choose|k: int| 0 <= k < s.len() && s[k] == x;
            assert(front[k] == x);
        }
    }
}

// ---------------------------------------------------------------------------
// The cache
// ---------------------------------------------------------------------------

/// What was fetched is fresh while fewer milliseconds have passed than allowed.
pub proof fn a_cache_is_fresh_while_it_is_young(fetched_at_ms: u64, max_age_secs: u64, now_ms: u64)
    requires
        max_age_secs * 1000 <= u64::MAX,
    ensures
        cache::fresh(fetched_at_ms, max_age_secs, now_ms) <==> max_age_secs > 0 && now_ms
            < fetched_at_ms + max_age_secs * 1000,
{
}

/// What is assembled holds each fetched market whose status the scope takes, and
/// each fetched event, and nothing else.
pub proof fn an_assembly_holds_what_the_scope_takes(
    scope: cache::ScopeView,
    markets: Seq<crate::feed::rest::Market>,
    events: Seq<crate::feed::rest::Event>,
    now_ms: u64,
    market: MarketView,
)
    ensures
        ({
            let made = cache::assembled(scope, markets, events, now_ms);
            let listed = discovery::markets_view(cache::raw_markets(markets));
            &&& made.fetched_at_ms == now_ms
            &&& made.markets.contains(market) <==> listed.contains(market) && (scope.status.len()
                == 0 || market.status == scope.status)
            &&& made.events.len() == events.len()
        }),
{
    broadcast use vstd::seq_lib::group_to_multiset_ensures;

    let listed = discovery::markets_view(cache::raw_markets(markets));
    let pred = |m: MarketView| cache::takes(scope, m.status);
    let kept = listed.filter(pred);
    lemma_filter_keeps(listed, pred, market);
    let later = |a: MarketView, b: MarketView| order::text_later(a.ticker, b.ticker);
    crate::discovery::laws::lemma_ticker_order();
    order::lemma_arranged(kept, later);
    let sorted = discovery::by_ticker(kept);
    assert(sorted.contains(market) <==> sorted.to_multiset().count(market) > 0);
    assert(kept.contains(market) <==> kept.to_multiset().count(market) > 0);
    lemma_arranged_len(
        discovery::events_view(cache::raw_events(events)),
        |a: crate::discovery::RawEventView, b: crate::discovery::RawEventView|
            order::text_later(a.event_ticker, b.event_ticker),
    );
}

proof fn lemma_arranged_len<T>(list: Seq<T>, later: order::Later<T>)
    ensures
        order::arranged(list, later).len() == list.len(),
    decreases list.len(),
{
    if list.len() > 0 {
        lemma_arranged_len(list.drop_last(), later);
        lemma_placed_len(order::arranged(list.drop_last(), later), list.last(), later);
    }
}

proof fn lemma_placed_len<T>(list: Seq<T>, x: T, later: order::Later<T>)
    ensures
        order::placed(list, x, later).len() == list.len() + 1,
    decreases list.len(),
{
    if list.len() > 0 && later(list.last(), x) {
        lemma_placed_len(list.drop_last(), x, later);
    }
}

// ---------------------------------------------------------------------------
// Validation
// ---------------------------------------------------------------------------

/// A market can be traded exactly where its status says so and it closes later.
pub proof fn a_live_market_closes_later(market: MarketView, now_ms: u64)
    ensures
        validation::is_live(market, now_ms) <==> {
            let status = text::lowered(market.status);
            &&& status == "open"@ || status == "active"@ || status == "initialized"@ || status
                == "paused"@
            &&& market.close_time is Some
            &&& timestamp::instant(market.close_time->0) is Some
            &&& now_ms < timestamp::instant(market.close_time->0)->0.epoch_ms()
        },
{
}

/// The market that was listed last under a ticker.
pub open spec fn is_listed_last(markets: Seq<MarketView>, ticker: Seq<char>, i: int) -> bool {
    0 <= i < markets.len() && markets[i].ticker == ticker && forall|k: int|
        i < k < markets.len() ==> (#[trigger] markets[k]).ticker != ticker
}

proof fn lemma_named(markets: Seq<MarketView>, ticker: Seq<char>) -> (i: int)
    ensures
        match validation::market_named(markets, ticker) {
            Some(market) => is_listed_last(markets, ticker, i) && markets[i] == market,
            None => forall|k: int|
                0 <= k < markets.len() ==> (#[trigger] markets[k]).ticker != ticker,
        },
    decreases markets.len(),
{
    if markets.len() == 0 {
        0
    } else if markets.last().ticker == ticker {
        markets.len() - 1
    } else {
        let front = markets.drop_last();
        let i = lemma_named(front, ticker);
        assert forall|k: int| 0 <= k < front.len() implies #[trigger] markets[k] == front[k] by {}
        i
    }
}

/// A ticker is listed.
pub open spec fn is_listed(markets: Seq<MarketView>, ticker: Seq<char>) -> bool {
    exists|i: int| is_listed_last(markets, ticker, i)
}

/// Every ticker of a group is listed.
pub open spec fn all_listed(universe: UniverseView, group: InferredView) -> bool {
    forall|k: int|
        0 <= k < group.tickers.len() ==> is_listed(universe.markets, #[trigger] group.tickers[k])
}

/// Every ticker of a group is listed under its event.
pub open spec fn all_own(universe: UniverseView, group: InferredView) -> bool {
    forall|k: int, i: int|
        0 <= k < group.tickers.len() && #[trigger] is_listed_last(
            universe.markets,
            group.tickers[k],
            i,
        ) ==> universe.markets[i].event_ticker == group.event_ticker
}

proof fn lemma_all_listed(universe: UniverseView, group: InferredView)
    ensures
        validation::all_present(universe, group) <==> all_listed(universe, group),
{
    let markets = universe.markets;
    if validation::all_present(universe, group) {
        assert forall|k: int| 0 <= k < group.tickers.len() implies is_listed(
            markets,
            #[trigger] group.tickers[k],
        ) by {
            let i = lemma_named(markets, group.tickers[k]);
            assert(validation::market_named(markets, group.tickers[k]) is Some);
            assert(is_listed_last(markets, group.tickers[k], i));
        }
    }
    if all_listed(universe, group) {
        assert forall|k: int| 0 <= k < group.tickers.len() implies validation::market_named(
            markets,
            #[trigger] group.tickers[k],
        ) is Some by {
            assert(is_listed(markets, group.tickers[k]));
            let i = choose|i: int| is_listed_last(markets, group.tickers[k], i);
            let _ = lemma_named(markets, group.tickers[k]);
            assert(markets[i].ticker == group.tickers[k]);
        }
    }
}

proof fn lemma_all_own(universe: UniverseView, group: InferredView)
    requires
        validation::all_present(universe, group),
    ensures
        validation::all_native(validation::members_of(universe, group), group.event_ticker)
            <==> all_own(universe, group),
{
    let markets = universe.markets;
    let event = group.event_ticker;
    let members = validation::members_of(universe, group);
    if validation::all_native(members, event) {
        assert forall|k: int, i: int| 0 <= k < group.tickers.len() && #[trigger] is_listed_last(
            markets,
            group.tickers[k],
            i,
        ) implies markets[i].event_ticker == event by {
            let last = lemma_named(markets, group.tickers[k]);
            assert(validation::market_named(markets, group.tickers[k]) is Some);
            if last < i {
                assert(markets[i].ticker != group.tickers[k]);
            } else if i < last {
                assert(markets[last].ticker != group.tickers[k]);
            }
            assert(members[k].event_ticker == event);
        }
    }
    if all_own(universe, group) {
        assert forall|k: int| 0 <= k < members.len() implies (#[trigger] members[k]).event_ticker
            == event by {
            let last = lemma_named(markets, group.tickers[k]);
            assert(validation::market_named(markets, group.tickers[k]) is Some);
            assert(is_listed_last(markets, group.tickers[k], last));
        }
    }
}

/// A group is sound exactly where it has members, all of them are listed and
/// belong to its event, and a partition has two at least and an event that the
/// venue calls exclusive.
pub proof fn a_sound_group_stands_on_its_event(universe: UniverseView, group: InferredView)
    ensures
        validation::structural_faults(universe, group).len() == 0 <==> group.tickers.len() > 0
            && all_listed(universe, group) && all_own(universe, group) && (group.relation_kind
            == InferredKind::Exhaustive ==> group.tickers.len() >= 2 && discovery::is_exclusive(
            universe.events,
            group.event_ticker,
        )),
{
    lemma_all_listed(universe, group);
    if validation::all_present(universe, group) {
        lemma_all_own(universe, group);
    }
}

} // verus!
