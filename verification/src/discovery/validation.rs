//! Checking a discovered snapshot before it is handed to the engine.
//!
//! Discovery is intentionally conservative: a stale or structurally ambiguous
//! market is reported instead of being turned into a tradeable relation by
//! accident.
use vstd::prelude::*;
use vstd::hash_map::StringHashMap;
use super::inference::{infer_groups, of_one_kind, rung_places, tied, InferredGroup, InferredKind};
use super::inference::{InferenceReport, InferredView};
use super::{MarketView, RawMarket, Universe, UniverseView};
use crate::discovery;
use crate::discovery::inference;
use crate::text;
use crate::timestamp::{self, Timestamp};

verus! {

/// Results of checking a discovered snapshot.
#[derive(Clone, Debug, PartialEq, Eq)]
pub struct DiscoveryValidation {
    pub markets: usize,
    pub events: usize,
    pub groups: usize,
    pub live_markets: usize,
    pub structural_errors: Vec<String>,
    pub closed_markets: Vec<String>,
    pub ladder_errors: Vec<String>,
}

impl DiscoveryValidation {
    pub fn is_valid(&self) -> (valid: bool)
        ensures
            valid == (self.structural_errors@.len() == 0 && self.closed_markets@.len() == 0
                && self.ladder_errors@.len() == 0),
    {
        self.structural_errors.len() == 0 && self.closed_markets.len() == 0
            && self.ladder_errors.len() == 0
    }
}

/// Whether a market can still be traded: the venue has it open in some form,
/// and its close time names an instant that is still to come.
pub open spec fn is_live(market: MarketView, now_ms: u64) -> bool {
    let status = text::lowered(market.status);
    &&& status == "open"@ || status == "active"@ || status == "initialized"@ || status == "paused"@
    &&& market.close_time matches Some(close)
    &&& timestamp::instant(close) matches Some(at)
    &&& at.epoch_ms() > now_ms
}

/// The market that a ticker names: the last of that name.
pub open spec fn market_named(markets: Seq<MarketView>, ticker: Seq<char>) -> Option<MarketView>
    decreases markets.len(),
{
    if markets.len() == 0 {
        None
    } else if markets.last().ticker == ticker {
        Some(markets.last())
    } else {
        market_named(markets.drop_last(), ticker)
    }
}

/// What is wrong with the rungs of a ladder.
pub open spec fn ladder_fault(markets: Seq<MarketView>) -> Option<Seq<char>> {
    if markets.len() == 0 || markets[0].strike_type is None {
        None
    } else {
        let kind = markets[0].strike_type->0;
        if !inference::all_of_kind(markets, kind) {
            Some("strike types are mixed"@)
        } else if kind != "greater"@ && kind != "less"@ {
            Some("unsupported strike type "@ + text::debug_text(kind))
        } else {
            match inference::rungs(markets, kind) {
                None => Some("a rung has no strike"@),
                Some(keys) => if keys.no_duplicates() {
                    None
                } else {
                    Some("two rungs have the same strike"@)
                },
            }
        }
    }
}

/// The name of a kind.
pub open spec fn kind_name(kind: InferredKind) -> Seq<char> {
    match kind {
        InferredKind::Complement => "Complement"@,
        InferredKind::Exhaustive => "Exhaustive"@,
        InferredKind::Monotone => "Monotone"@,
    }
}

/// Every ticker of a group names a market.
pub open spec fn all_present(universe: UniverseView, group: InferredView) -> bool {
    forall|i: int|
        0 <= i < group.tickers.len() ==> market_named(
            universe.markets,
            #[trigger] group.tickers[i],
        ) is Some
}

/// The markets that a group's tickers name.
pub open spec fn members_of(universe: UniverseView, group: InferredView) -> Seq<MarketView> {
    group.tickers.map_values(|t: Seq<char>| market_named(universe.markets, t)->0)
}

/// Every market of a group belongs to its event.
pub open spec fn all_native(members: Seq<MarketView>, event: Seq<char>) -> bool {
    forall|i: int| 0 <= i < members.len() ==> (#[trigger] members[i]).event_ticker == event
}

/// What is wrong with the shape of a group.
pub open spec fn structural_faults(universe: UniverseView, group: InferredView) -> Seq<Seq<char>> {
    let event = group.event_ticker;
    if group.tickers.len() == 0 {
        seq![event + " group has no members"@]
    } else if !all_present(universe, group) {
        seq![
            event + " "@ + kind_name(group.relation_kind)
                + " group references a market not present in the snapshot"@,
        ]
    } else {
        let foreign = if all_native(members_of(universe, group), event) {
            Seq::empty()
        } else {
            seq![event + " group contains a market from another event"@]
        };
        if group.relation_kind is Exhaustive && (group.tickers.len() < 2
            || !discovery::is_exclusive(universe.events, event)) {
            foreign.push(
                event + " exhaustive group is not backed by a mutually exclusive event"@,
            )
        } else {
            foreign
        }
    }
}

/// What is wrong with the rungs of a group.
pub open spec fn rung_faults(universe: UniverseView, group: InferredView) -> Seq<Seq<char>> {
    if group.tickers.len() > 0 && all_present(universe, group) && group.relation_kind is Monotone {
        match ladder_fault(members_of(universe, group)) {
            Some(fault) => seq![group.event_ticker + " ladder: "@ + fault],
            None => Seq::empty(),
        }
    } else {
        Seq::empty()
    }
}

/// What is wrong with the shape of the groups.
pub open spec fn all_structural(universe: UniverseView, groups: Seq<InferredView>) -> Seq<Seq<char>>
    decreases groups.len(),
{
    if groups.len() == 0 {
        Seq::empty()
    } else {
        all_structural(universe, groups.drop_last()) + structural_faults(universe, groups.last())
    }
}

/// What is wrong with the rungs of the groups.
pub open spec fn all_rungs(universe: UniverseView, groups: Seq<InferredView>) -> Seq<Seq<char>>
    decreases groups.len(),
{
    if groups.len() == 0 {
        Seq::empty()
    } else {
        all_rungs(universe, groups.drop_last()) + rung_faults(universe, groups.last())
    }
}

/// A validation says what holds of some groups over a universe.
pub open spec fn validates(
    result: DiscoveryValidation,
    universe: UniverseView,
    groups: Seq<InferredView>,
    now_ms: u64,
) -> bool {
    let live = |m: MarketView| is_live(m, now_ms);
    let closed = |m: MarketView| !is_live(m, now_ms);
    &&& result.markets == universe.markets.len()
    &&& result.events == discovery::grouped(universe.markets).len()
    &&& result.groups == groups.len()
    &&& result.live_markets == universe.markets.filter(live).len()
    &&& text::views(result.closed_markets@) == inference::tickers(universe.markets.filter(closed))
    &&& text::views(result.structural_errors@) == all_structural(universe, groups)
    &&& text::views(result.ladder_errors@) == all_rungs(universe, groups)
}

/// Validate the portions of Kalshi metadata that inference relies on.
///
/// This deliberately does not require every market to have a second market in
/// its event: Kalshi's normal binary market is one listing with two outcomes,
/// and its complement relation is therefore represented by one contract. The
/// event-level exhaustive and ladder checks cover multi-market structures.
pub fn validate_discovered_universe(universe: &Universe, now_ms: u64) -> (result:
    DiscoveryValidation)
    ensures
        validates(result, universe@, inference::inferred(universe@), now_ms),
{
    let (groups, report): (Vec<InferredGroup>, InferenceReport) = infer_groups(universe);
    validate_groups(universe, groups.as_slice(), report.events, now_ms)
}

/// Check groups against the universe they are about.
pub(crate) fn validate_groups(
    universe: &Universe,
    groups: &[InferredGroup],
    events: usize,
    now_ms: u64,
) -> (result: DiscoveryValidation)
    requires
        events == discovery::grouped(universe@.markets).len(),
    ensures
        validates(result, universe@, inference::inferred_view(groups@), now_ms),
{
    let ghost all = universe@.markets;
    let ghost live = |m: MarketView| is_live(m, now_ms);
    let ghost closed = |m: MarketView| !is_live(m, now_ms);
    let mut live_markets: usize = 0;
    let mut closed_markets: Vec<String> = Vec::new();
    let mut places: StringHashMap<usize> = StringHashMap::new();
    let mut i: usize = 0;
    proof {
        assert(all.subrange(0, 0) =~= Seq::<MarketView>::empty());
        lemma_filter_nothing(live);
        lemma_filter_nothing(closed);
        assert(text::views(closed_markets@) =~= Seq::<Seq<char>>::empty());
        assert(inference::tickers(Seq::empty()) =~= Seq::<Seq<char>>::empty());
    }
    while i < universe.markets.len()
        invariant
            i <= universe.markets@.len(),
            all == universe@.markets,
            live == (|m: MarketView| is_live(m, now_ms)),
            closed == (|m: MarketView| !is_live(m, now_ms)),
            live_markets <= i,
            live_markets == all.subrange(0, i as int).filter(live).len(),
            text::views(closed_markets@) == inference::tickers(
                all.subrange(0, i as int).filter(closed),
            ),
            places_upto(places@, all, i as int),
        decreases universe.markets@.len() - i,
    {
        let market: &RawMarket = &universe.markets[i];
        let ghost done = all.subrange(0, i as int);
        let ghost next = all.subrange(0, i + 1);
        proof {
            assert(next =~= done.push(market@));
            assert(next.drop_last() =~= done);
            done.lemma_filter_push(market@, live);
            done.lemma_filter_push(market@, closed);
        }
        if can_trade(market, now_ms) {
            live_markets = live_markets + 1;
        } else {
            let ghost before = closed_markets@;
            closed_markets.push(market.ticker.as_str().to_owned());
            proof {
                assert(text::views(closed_markets@) =~= text::views(before).push(market@.ticker));
                assert(inference::tickers(done.filter(closed).push(market@)) =~= inference::tickers(
                    done.filter(closed),
                ).push(market@.ticker));
            }
        }
        let ghost known = places@;
        places.insert(market.ticker.as_str().to_owned(), i);
        proof {
            assert forall|ticker: Seq<char>| #[trigger] leads(places@, all, i + 1, ticker) by {
                assert(leads(known, all, i as int, ticker));
                assert(next.last() == market@);
            }
        }
        i = i + 1;
    }
    assert(all.subrange(0, all.len() as int) =~= all);
    let ghost given = inference::inferred_view(groups@);
    let mut structural_errors: Vec<String> = Vec::new();
    let mut ladder_errors: Vec<String> = Vec::new();
    let mut g: usize = 0;
    proof {
        assert(given.subrange(0, 0) =~= Seq::<InferredView>::empty());
        assert(text::views(structural_errors@) =~= Seq::<Seq<char>>::empty());
    }
    while g < groups.len()
        invariant
            g <= groups@.len(),
            given == inference::inferred_view(groups@),
            all == universe@.markets,
            places_upto(places@, all, all.len() as int),
            text::views(structural_errors@) == all_structural(
                universe@,
                given.subrange(0, g as int),
            ),
            text::views(ladder_errors@) == all_rungs(universe@, given.subrange(0, g as int)),
        decreases groups@.len() - g,
    {
        let group: &InferredGroup = &groups[g];
        proof {
            let next = given.subrange(0, g + 1);
            assert(next.drop_last() =~= given.subrange(0, g as int));
            assert(next.last() == group@);
        }
        check_group(universe, &places, group, &mut structural_errors, &mut ladder_errors);
        g = g + 1;
    }
    assert(given.subrange(0, given.len() as int) =~= given);
    DiscoveryValidation {
        markets: universe.markets.len(),
        events,
        groups: groups.len(),
        live_markets,
        structural_errors,
        closed_markets,
        ladder_errors,
    }
}

proof fn lemma_filter_nothing(pred: spec_fn(MarketView) -> bool)
    ensures
        Seq::<MarketView>::empty().filter(pred) == Seq::<MarketView>::empty(),
{
    reveal(Seq::filter);
}

/// The index leads from a ticker to the last market of that name among the
/// first `n`.
spec fn places_upto(places: Map<Seq<char>, usize>, markets: Seq<MarketView>, n: int) -> bool {
    forall|ticker: Seq<char>| #[trigger] leads(places, markets, n, ticker)
}

spec fn leads(
    places: Map<Seq<char>, usize>,
    markets: Seq<MarketView>,
    n: int,
    ticker: Seq<char>,
) -> bool {
    match market_named(markets.subrange(0, n), ticker) {
        Some(market) => places.contains_key(ticker) && places[ticker] < n && markets[places[ticker]
            as int] == market,
        None => !places.contains_key(ticker),
    }
}

/// Whether a market can still be traded.
fn can_trade(market: &RawMarket, now_ms: u64) -> (yes: bool)
    ensures
        yes == is_live(market@, now_ms),
{
    let letters: Vec<char> = text::chars(market.status.as_str());
    let status: String = text::lowercase(letters.as_slice());
    let open: bool = text::same(status.as_str(), "open") || text::same(status.as_str(), "active")
        || text::same(status.as_str(), "initialized") || text::same(status.as_str(), "paused");
    if !open {
        return false;
    }
    match &market.close_time {
        Some(close) => match Timestamp::parse(close.as_str()) {
            Some(at) => at.epoch_millis() > now_ms,
            None => false,
        },
        None => false,
    }
}

/// Add what is wrong with one group to the lists.
fn check_group(
    universe: &Universe,
    places: &StringHashMap<usize>,
    group: &InferredGroup,
    structural: &mut Vec<String>,
    ladders: &mut Vec<String>,
)
    requires
        places_upto(places@, universe@.markets, universe@.markets.len() as int),
    ensures
        text::views(final(structural)@) == text::views(old(structural)@) + structural_faults(
            universe@,
            group@,
        ),
        text::views(final(ladders)@) == text::views(old(ladders)@) + rung_faults(universe@, group@),
{
    let ghost all = universe@.markets;
    let ghost wanted = group@.tickers;
    let ghost before = text::views(structural@);
    let ghost rungs_before = text::views(ladders@);
    let event: &str = group.event_ticker.as_str();
    assert(rungs_before + Seq::<Seq<char>>::empty() =~= rungs_before);
    if group.tickers.len() == 0 {
        say(structural, event, " group has no members", "", "");
        return;
    }
    let mut members: Vec<&RawMarket> = Vec::new();
    let mut native: bool = true;
    let mut i: usize = 0;
    assert(all.subrange(0, all.len() as int) =~= all);
    while i < group.tickers.len()
        invariant
            i <= group.tickers@.len(),
            all == universe@.markets,
            all.subrange(0, all.len() as int) == all,
            wanted == text::views(group.tickers@),
            group@.tickers == wanted,
            event@ == group@.event_ticker,
            places_upto(places@, all, all.len() as int),
            members@.len() == i,
            forall|k: int|
                0 <= k < i ==> market_named(all, #[trigger] wanted[k]) == Some(members@[k]@),
            native == (forall|k: int| 0 <= k < i ==> (#[trigger] members@[k])@.event_ticker == event@),
            group.tickers@.len() > 0,
            text::views(structural@) == before,
            text::views(ladders@) == rungs_before,
            before == text::views(old(structural)@),
            rungs_before == text::views(old(ladders)@),
            rungs_before + Seq::<Seq<char>>::empty() == rungs_before,
        decreases group.tickers@.len() - i,
    {
        assert(wanted[i as int] == group.tickers@[i as int]@);
        assert(leads(places@, all, all.len() as int, wanted[i as int]));
        match places.get(group.tickers[i].as_str()) {
            Some(place) => {
                let market: &RawMarket = &universe.markets[*place];
                let here: bool = text::same(market.event_ticker.as_str(), event);
                let ghost known = members@;
                members.push(market);
                assert(forall|k: int| 0 <= k < i ==> #[trigger] members@[k] == known[k]);
                assert(members@[i as int]@ == market@);
                proof {
                    if !native {
                        let k = choose|k: int|
                            0 <= k < i && (#[trigger] known[k])@.event_ticker != event@;
                        assert(members@[k]@.event_ticker != event@);
                    } else if !here {
                        assert(members@[i as int]@.event_ticker != event@);
                    }
                }
                native = native && here;
            },
            None => {
                assert(!all_present(universe@, group@));
                let name: &str = name_of(group.relation_kind);
                say(
                    structural,
                    event,
                    " ",
                    name,
                    " group references a market not present in the snapshot",
                );
                assert(event@ + " "@ + kind_name(group.relation_kind)
                    + " group references a market not present in the snapshot"@
                    =~= structural_faults(universe@, group@)[0]);
                return;
            },
        }
        i = i + 1;
    }
    assert(all_present(universe@, group@));
    let ghost found = members_of(universe@, group@);
    assert(discovery::refs_view(members@) =~= found);
    proof {
        if native {
            assert(all_native(found, event@));
        } else {
            let k = choose|k: int|
                0 <= k < members@.len() && (#[trigger] members@[k])@.event_ticker != event@;
            assert(found[k].event_ticker != event@);
        }
    }
    if !native {
        say(structural, event, " group contains a market from another event", "", "");
    }
    match group.relation_kind {
        InferredKind::Complement => {},
        InferredKind::Exhaustive => {
            let exclusive: bool = match universe.event(event) {
                Some(event) => event.mutually_exclusive,
                None => false,
            };
            if group.tickers.len() < 2 || !exclusive {
                say(
                    structural,
                    event,
                    " exhaustive group is not backed by a mutually exclusive event",
                    "",
                    "",
                );
            }
        },
        InferredKind::Monotone => {
            match validate_ladder_members(members.as_slice()) {
                Some(fault) => {
                    say(ladders, event, " ladder: ", fault.as_str(), "");
                },
                None => {},
            }
        },
    }
    assert(text::views(structural@) =~= before + structural_faults(universe@, group@));
    assert(text::views(ladders@) =~= rungs_before + rung_faults(universe@, group@));
}

/// Add a line made of four parts.
fn say(lines: &mut Vec<String>, a: &str, b: &str, c: &str, d: &str)
    ensures
        text::views(final(lines)@) == text::views(old(lines)@).push(a@ + b@ + c@ + d@),
        c@ == ""@ && d@ == ""@ ==> text::views(final(lines)@) == text::views(old(lines)@).push(
            a@ + b@,
        ),
        d@ == ""@ ==> text::views(final(lines)@) == text::views(old(lines)@).push(a@ + b@ + c@),
{
    let mut line: String = a.to_owned();
    line.append(b);
    line.append(c);
    line.append(d);
    proof {
        reveal_strlit("");
        if d@ == ""@ {
            assert(a@ + b@ + c@ + d@ =~= a@ + b@ + c@);
        }
        if c@ == ""@ && d@ == ""@ {
            assert(a@ + b@ + c@ + d@ =~= a@ + b@);
        }
    }
    lines.push(line);
    assert(text::views(lines@) =~= text::views(old(lines)@).push(a@ + b@ + c@ + d@));
}

/// The name of a kind.
fn name_of(kind: InferredKind) -> (name: &'static str)
    ensures
        name@ == kind_name(kind),
{
    match kind {
        InferredKind::Complement => "Complement",
        InferredKind::Exhaustive => "Exhaustive",
        InferredKind::Monotone => "Monotone",
    }
}

/// What is wrong with the rungs of a ladder.
fn validate_ladder_members(markets: &[&RawMarket]) -> (fault: Option<String>)
    ensures
        match fault {
            Some(fault) => ladder_fault(discovery::refs_view(markets@)) == Some(fault@),
            None => ladder_fault(discovery::refs_view(markets@)) is None,
        },
{
    let ghost all = discovery::refs_view(markets@);
    if markets.len() == 0 {
        return None;
    }
    let kind: &str = match &markets[0].strike_type {
        Some(kind) => kind.as_str(),
        None => {
            assert(all[0].strike_type is None);
            return None;
        },
    };
    assert(all[0].strike_type == Some(kind@));
    if !of_one_kind(markets, kind) {
        return Some("strike types are mixed".to_owned());
    }
    if !text::same(kind, "greater") && !text::same(kind, "less") {
        let mut fault: String = "unsupported strike type ".to_owned();
        let shown: String = text::quoted(kind);
        fault.append(shown.as_str());
        return Some(fault);
    }
    match rung_places(markets, kind) {
        None => Some("a rung has no strike".to_owned()),
        Some(keys) => if tied(keys.as_slice()) {
            Some("two rungs have the same strike".to_owned())
        } else {
            None
        },
    }
}

} // verus!
