//! Building the constraint graph from a venue snapshot instead of a file.
//!
//! Interning follows the snapshot's sorted ticker order, so two runs that saw
//! the same venue assign the same [`ContractId`]s, the same discipline the file
//! loader keeps, for the same reason.
//!
//! Every group produced here is marked `inferred`. An event whose close time
//! the venue did not publish is skipped rather than given a guessed horizon:
//! ranking would otherwise be arithmetic on a number nobody knows.
use vstd::prelude::*;
use vstd::hash_map::StringHashMap;
use super::{BindingView, ContractBinding, EventId, EventView};
use super::{Registry, RegistryView, Relation, RelationView};
use crate::discovery;
use crate::discovery::cache;
use crate::discovery::inference;
use crate::discovery::inference::{InferredGroup, InferredView};
use crate::discovery::polymarket;
use crate::discovery::polymarket::{PolymarketMarket, PolymarketView};
use crate::discovery::{event_close_times, infer_groups, to_relation};
use crate::discovery::{MarketView, RawEvent, RawEventView, RawMarket, Universe, UniverseView};
use crate::registry;
use crate::registry::load;
use crate::text;
use crate::timestamp::{self, Timestamp};
use crate::types::{self, ContractId, Side, Venue};

verus! {

/// The event that a venue event stands for. Series is the natural theme: every
/// market under one series settles off the same source and fails together.
pub open spec fn canonical(raw: RawEventView, resolves_at: Timestamp) -> EventView {
    EventView {
        id: EventId(0),
        key: raw.event_ticker,
        description: raw.title,
        resolves_at,
        resolution_source: "kalshi:"@ + raw.series_ticker,
        theme: if raw.series_ticker.len() == 0 {
            None
        } else {
            Some(raw.series_ticker)
        },
        resolution_rules_hash: 0,
    }
}

/// A registry with one more venue event, where its close time is known.
pub open spec fn with_raw_event(
    registry: RegistryView,
    closes: Map<Seq<char>, Seq<char>>,
    raw: RawEventView,
) -> Result<RegistryView, Seq<char>> {
    if !closes.contains_key(raw.event_ticker) {
        Ok(registry)
    } else {
        match timestamp::instant(closes[raw.event_ticker]) {
            None => Ok(registry),
            Some(at) => if registry.events.len() > u32::MAX {
                Err(load::out_of_numbers())
            } else if registry::event_named(registry.events, raw.event_ticker) is Some {
                Err("duplicate event ticker "@ + text::debug_text(raw.event_ticker))
            } else {
                Ok(registry.with_event(canonical(raw, at)))
            },
        }
    }
}

/// A registry with more venue events.
pub open spec fn with_raw_events(
    registry: RegistryView,
    closes: Map<Seq<char>, Seq<char>>,
    events: Seq<RawEventView>,
) -> Result<RegistryView, Seq<char>>
    decreases events.len(),
{
    if events.len() == 0 {
        Ok(registry)
    } else {
        match with_raw_events(registry, closes, events.drop_last()) {
            Err(reason) => Err(reason),
            Ok(before) => with_raw_event(before, closes, events.last()),
        }
    }
}

/// A registry with one more market, bound to its event where that is known. A
/// single venue's own listing is the event by definition; verification is a
/// cross-venue question.
pub open spec fn with_market(registry: RegistryView, market: MarketView) -> Result<
    RegistryView,
    Seq<char>,
> {
    match registry::event_named(registry.events, market.event_ticker) {
        Some(event) if !registry.names.contains((Venue::Kalshi, market.ticker)) => if registry.names.len()
            > u32::MAX {
            Err(load::out_of_numbers())
        } else {
            Ok(
                registry.with_name(Venue::Kalshi, market.ticker).with_binding(
                    BindingView {
                        contract_id: ContractId(registry.names.len() as u32),
                        venue: Venue::Kalshi,
                        venue_ticker: market.ticker,
                        event: EventId(event as u32),
                        side: Side::Yes,
                        verified: true,
                    },
                ),
            )
        },
        _ => Ok(registry),
    }
}

/// A registry with more markets.
pub open spec fn with_markets(registry: RegistryView, markets: Seq<MarketView>) -> Result<
    RegistryView,
    Seq<char>,
>
    decreases markets.len(),
{
    if markets.len() == 0 {
        Ok(registry)
    } else {
        match with_markets(registry, markets.drop_last()) {
            Err(reason) => Err(reason),
            Ok(before) => with_market(before, markets.last()),
        }
    }
}

/// A registry with one more inferred group, where its contracts and its event
/// are known and its shape is sound.
pub open spec fn with_inferred(registry: RegistryView, group: InferredView) -> RegistryView {
    match (
        inference::relation_of(registry.names, Venue::Kalshi, group),
        registry::event_named(registry.events, group.event_ticker),
    ) {
        (Some(relation), Some(event)) => if registry::relation_fault(
            relation,
            registry::group_id_at(registry.groups.len() as int),
        ) is None {
            registry.with_group(relation, registry.events[event].resolves_at.epoch_ms(), true)
        } else {
            registry
        },
        _ => registry,
    }
}

/// A registry with more inferred groups.
pub open spec fn with_all_inferred(registry: RegistryView, groups: Seq<InferredView>) -> RegistryView
    decreases groups.len(),
{
    if groups.len() == 0 {
        registry
    } else {
        with_inferred(with_all_inferred(registry, groups.drop_last()), groups.last())
    }
}

/// The registry that a universe describes, or what is wrong with it: events
/// first, so a group can be bound to one as it is created, then the markets in
/// the order of their tickers, then the groups.
pub open spec fn discovered(universe: UniverseView) -> Result<RegistryView, Seq<char>> {
    match with_raw_events(
        RegistryView::empty(),
        inference::close_times(universe.markets),
        cache::by_event_ticker(universe.events),
    ) {
        Err(reason) => Err(reason),
        Ok(listed) => match with_markets(listed, discovery::by_ticker(universe.markets)) {
            Err(reason) => Err(reason),
            Ok(bound) => {
                let full = with_all_inferred(bound, inference::inferred(universe));
                match load::partition_fault(full) {
                    Some(reason) => Err(reason),
                    None => Ok(full),
                }
            },
        },
    }
}

proof fn lemma_raw_events_prefix(
    registry: RegistryView,
    closes: Map<Seq<char>, Seq<char>>,
    events: Seq<RawEventView>,
    n: int,
    reason: Seq<char>,
)
    requires
        0 < n <= events.len(),
        with_raw_events(registry, closes, events.subrange(0, n)) == Err::<RegistryView, Seq<char>>(
            reason,
        ),
    ensures
        with_raw_events(registry, closes, events) == Err::<RegistryView, Seq<char>>(reason),
    decreases events.len(),
{
    if n == events.len() {
        assert(events.subrange(0, n) =~= events);
    } else {
        assert(events.drop_last().subrange(0, n) =~= events.subrange(0, n));
        lemma_raw_events_prefix(registry, closes, events.drop_last(), n, reason);
    }
}

proof fn lemma_markets_prefix(
    registry: RegistryView,
    markets: Seq<MarketView>,
    n: int,
    reason: Seq<char>,
)
    requires
        0 < n <= markets.len(),
        with_markets(registry, markets.subrange(0, n)) == Err::<RegistryView, Seq<char>>(reason),
    ensures
        with_markets(registry, markets) == Err::<RegistryView, Seq<char>>(reason),
    decreases markets.len(),
{
    if n == markets.len() {
        assert(markets.subrange(0, n) =~= markets);
    } else {
        assert(markets.drop_last().subrange(0, n) =~= markets.subrange(0, n));
        lemma_markets_prefix(registry, markets.drop_last(), n, reason);
    }
}

impl Registry {
    /// File one venue event, where its close time is known.
    fn add_raw_event(&mut self, closes: &StringHashMap<String>, raw: &RawEvent) -> (result: Result<
        (),
        String,
    >)
        requires
            old(self).wf(),
        ensures
            final(self).wf(),
            match result {
                Ok(_) => with_raw_event(
                    old(self)@,
                    closes@.map_values(|close: String| close@),
                    raw@,
                ) == Ok::<RegistryView, Seq<char>>(final(self)@),
                Err(reason) => with_raw_event(
                    old(self)@,
                    closes@.map_values(|close: String| close@),
                    raw@,
                ) == Err::<RegistryView, Seq<char>>(reason@),
            },
    {
        let ghost times = closes@.map_values(|close: String| close@);
        let close: &str = match closes.get(raw.event_ticker.as_str()) {
            Some(close) => close.as_str(),
            None => {
                return Ok(());
            },
        };
        assert(times[raw@.event_ticker] == close@);
        let resolves_at: Timestamp = match Timestamp::parse(close) {
            Some(at) => at,
            None => {
                return Ok(());
            },
        };
        if self.events().len() > u32::MAX as usize {
            return Err("out of range integral type conversion attempted".to_owned());
        }
        if self.event_by_key(raw.event_ticker.as_str()).is_some() {
            let shown: String = text::quoted(raw.event_ticker.as_str());
            let mut out: String = "duplicate event ticker ".to_owned();
            out.append(shown.as_str());
            return Err(out);
        }
        let mut source: String = "kalshi:".to_owned();
        source.append(raw.series_ticker.as_str());
        let theme: Option<String> = if raw.series_ticker.as_str().unicode_len() == 0 {
            None
        } else {
            Some(raw.series_ticker.as_str().to_owned())
        };
        let ghost before = self@;
        match self.push_event(
            raw.event_ticker.as_str(),
            raw.title.as_str(),
            resolves_at,
            source,
            theme,
            0,
        ) {
            Some(_) => {
                assert(self@ =~= before.with_event(canonical(raw@, resolves_at)));
                Ok(())
            },
            None => Err("out of range integral type conversion attempted".to_owned()),
        }
    }

    /// Number one market and bind it to its event, where that is known.
    fn add_market(&mut self, market: &RawMarket) -> (result: Result<(), String>)
        requires
            old(self).wf(),
        ensures
            final(self).wf(),
            match result {
                Ok(_) => with_market(old(self)@, market@) == Ok::<RegistryView, Seq<char>>(
                    final(self)@,
                ),
                Err(reason) => with_market(old(self)@, market@) == Err::<RegistryView, Seq<char>>(
                    reason@,
                ),
            },
    {
        let ticker: &str = market.ticker.as_str();
        if self.contracts().get(Venue::Kalshi, ticker).is_some() {
            return Ok(());
        }
        let event: EventId = match self.event_number(market.event_ticker.as_str()) {
            Some(event) => event,
            None => {
                return Ok(());
            },
        };
        let ghost before = self@;
        match self.intern(Venue::Kalshi, ticker) {
            Ok(contract) => {
                proof {
                    let i = before.names.len() as int;
                    assert(self@.names[i] == (Venue::Kalshi, ticker@));
                    types::lemma_lookup(self@.names, Venue::Kalshi, ticker@, i);
                }
                self.bind(
                    ContractBinding {
                        contract_id: contract,
                        venue: Venue::Kalshi,
                        venue_ticker: ticker.to_owned(),
                        event,
                        side: Side::Yes,
                        verified: true,
                    },
                );
                Ok(())
            },
            Err(_) => Err("out of range integral type conversion attempted".to_owned()),
        }
    }

    /// File one inferred group, where its contracts and its event are known.
    fn add_inferred(&mut self, group: &InferredGroup)
        requires
            old(self).wf(),
        ensures
            final(self).wf(),
            final(self)@ == with_inferred(old(self)@, group@),
    {
        let relation: Relation = match to_relation(self.contracts(), Venue::Kalshi, group) {
            Some(relation) => relation,
            None => {
                return;
            },
        };
        let resolves_at_ms: u64 = match self.event_by_key(group.event_ticker.as_str()) {
            Some(event) => event.resolves_at.epoch_millis(),
            None => {
                return;
            },
        };
        match self.push_group(relation, resolves_at_ms, true) {
            Ok(_) => {},
            Err(_) => {},
        }
    }

    /// Build the constraint graph from a venue snapshot instead of a file.
    pub fn from_universe(universe: &Universe) -> (result: Result<Self, String>)
        ensures
            match discovered(universe@) {
                Ok(view) => result matches Ok(registry) && registry@ == view && registry.wf(),
                Err(reason) => result matches Err(said) && said@ == reason,
            },
    {
        let closes: StringHashMap<String> = event_close_times(universe);
        let ghost times = inference::close_times(universe@.markets);
        let mut registry: Registry = Registry::default();
        let events: Vec<&RawEvent> = cache::ordered_events(universe.events.as_slice());
        let ghost sorted = cache::by_event_ticker(universe@.events);
        let mut i: usize = 0;
        assert(sorted.subrange(0, 0) =~= Seq::<RawEventView>::empty());
        while i < events.len()
            invariant
                i <= events@.len(),
                sorted == cache::by_event_ticker(universe@.events),
                sorted == events@.map_values(|e: &RawEvent| e@),
                times == inference::close_times(universe@.markets),
                times == closes@.map_values(|close: String| close@),
                registry.wf(),
                with_raw_events(RegistryView::empty(), times, sorted.subrange(0, i as int)) == Ok::<
                    RegistryView,
                    Seq<char>,
                >(registry@),
            decreases events@.len() - i,
        {
            proof {
                let next = sorted.subrange(0, i + 1);
                assert(next.drop_last() =~= sorted.subrange(0, i as int));
                assert(next.last() == events@[i as int]@);
            }
            match registry.add_raw_event(&closes, events[i]) {
                Ok(_) => {},
                Err(reason) => {
                    proof {
                        lemma_raw_events_prefix(
                            RegistryView::empty(),
                            times,
                            sorted,
                            i + 1,
                            reason@,
                        );
                    }
                    return Err(reason);
                },
            }
            i = i + 1;
        }
        assert(sorted.subrange(0, sorted.len() as int) =~= sorted);
        let ghost listed = registry@;
        let markets: Vec<&RawMarket> = discovery::ordered_markets(universe.markets.as_slice());
        let ghost ranked = discovery::by_ticker(universe@.markets);
        let mut j: usize = 0;
        assert(ranked.subrange(0, 0) =~= Seq::<MarketView>::empty());
        while j < markets.len()
            invariant
                j <= markets@.len(),
                with_raw_events(
                    RegistryView::empty(),
                    inference::close_times(universe@.markets),
                    cache::by_event_ticker(universe@.events),
                ) == Ok::<RegistryView, Seq<char>>(listed),
                ranked == discovery::by_ticker(universe@.markets),
                ranked == discovery::refs_view(markets@),
                registry.wf(),
                with_markets(listed, ranked.subrange(0, j as int)) == Ok::<RegistryView, Seq<char>>(
                    registry@,
                ),
            decreases markets@.len() - j,
        {
            proof {
                let next = ranked.subrange(0, j + 1);
                assert(next.drop_last() =~= ranked.subrange(0, j as int));
                assert(next.last() == markets@[j as int]@);
            }
            match registry.add_market(markets[j]) {
                Ok(_) => {},
                Err(reason) => {
                    proof {
                        lemma_markets_prefix(listed, ranked, j + 1, reason@);
                    }
                    return Err(reason);
                },
            }
            j = j + 1;
        }
        assert(ranked.subrange(0, ranked.len() as int) =~= ranked);
        let ghost bound = registry@;
        let (groups, _) = infer_groups(universe);
        let ghost all = inference::inferred(universe@);
        let mut g: usize = 0;
        assert(all.subrange(0, 0) =~= Seq::<InferredView>::empty());
        while g < groups.len()
            invariant
                g <= groups@.len(),
                all == inference::inferred_view(groups@),
                registry.wf(),
                registry@ == with_all_inferred(bound, all.subrange(0, g as int)),
            decreases groups@.len() - g,
        {
            proof {
                let next = all.subrange(0, g + 1);
                assert(next.drop_last() =~= all.subrange(0, g as int));
                assert(next.last() == groups@[g as int]@);
            }
            registry.add_inferred(&groups[g]);
            g = g + 1;
        }
        assert(all.subrange(0, all.len() as int) =~= all);
        match registry.check_no_conflicting_partitions() {
            Some(reason) => Err(reason),
            None => Ok(registry),
        }
    }
}

// ---------------------------------------------------------------------------
// Polymarket
// ---------------------------------------------------------------------------

/// When a Polymarket market settles, where the venue says.
pub open spec fn ends_at(market: PolymarketView) -> Option<Timestamp> {
    match market.ends_at {
        Some(text) => timestamp::instant(text),
        None => None,
    }
}

/// The event that a Polymarket market stands for.
pub open spec fn polymarket_event(market: PolymarketView, resolves_at: Timestamp) -> EventView {
    EventView {
        id: EventId(0),
        key: market.yes_token,
        description: market.question,
        resolves_at,
        resolution_source: "polymarket"@,
        theme: None,
        resolution_rules_hash: 0,
    }
}

/// Whether a Polymarket market is added: it has a horizon, and nothing goes by
/// its token yet.
pub open spec fn is_new(registry: RegistryView, market: PolymarketView) -> bool {
    &&& ends_at(market) is Some
    &&& !registry.names.contains((Venue::Polymarket, market.yes_token))
    &&& registry::event_named(registry.events, market.yes_token) is None
}

/// A registry with one more Polymarket market: an event of its own, its
/// contract, and the complement of its two outcomes.
pub open spec fn with_polymarket(registry: RegistryView, market: PolymarketView) -> RegistryView {
    let at = ends_at(market)->0;
    let contract = ContractId(registry.names.len() as u32);
    let event = EventId(registry.events.len() as u32);
    registry.with_event(polymarket_event(market, at)).with_name(
        Venue::Polymarket,
        market.yes_token,
    ).with_binding(
        BindingView {
            contract_id: contract,
            venue: Venue::Polymarket,
            venue_ticker: market.yes_token,
            event,
            side: Side::Yes,
            verified: true,
        },
    ).with_group(RelationView::Complement { contract }, at.epoch_ms(), true)
}

/// Whether a registry has no number left for the event or the contract of a
/// market that is to be added.
pub open spec fn is_full(registry: RegistryView) -> bool {
    registry.events.len() > u32::MAX || registry.names.len() > u32::MAX
}

/// What a full registry is left as by a market that was to be added: as it was,
/// or, where only contracts have run out of numbers, with the market's event.
pub open spec fn left_by(registry: RegistryView, market: PolymarketView) -> RegistryView {
    if registry.events.len() > u32::MAX {
        registry
    } else {
        registry.with_event(polymarket_event(market, ends_at(market)->0))
    }
}

/// A registry with more Polymarket markets, and how many there were to add.
pub open spec fn extended(registry: RegistryView, markets: Seq<PolymarketView>) -> Result<
    (RegistryView, nat),
    Seq<char>,
>
    decreases markets.len(),
{
    if markets.len() == 0 {
        Ok((registry, 0))
    } else {
        match extended(registry, markets.drop_last()) {
            Err(reason) => Err(reason),
            Ok((before, added)) => if !is_new(before, markets.last()) {
                Ok((before, added))
            } else if is_full(before) {
                Err(load::out_of_numbers())
            } else {
                Ok((with_polymarket(before, markets.last()), added + 1))
            },
        }
    }
}

/// The numbers run out at the market at place `n`: those before it are folded
/// in, it is new, and `after` is what it leaves.
pub open spec fn stops_at(
    registry: RegistryView,
    markets: Seq<PolymarketView>,
    n: int,
    after: RegistryView,
) -> bool {
    extended(registry, markets.subrange(0, n)) matches Ok((before, _)) && is_new(before, markets[n])
        && is_full(before) && after == left_by(before, markets[n])
}

proof fn lemma_extended_prefix(
    registry: RegistryView,
    markets: Seq<PolymarketView>,
    n: int,
    reason: Seq<char>,
)
    requires
        0 < n <= markets.len(),
        extended(registry, markets.subrange(0, n)) == Err::<(RegistryView, nat), Seq<char>>(reason),
    ensures
        extended(registry, markets) == Err::<(RegistryView, nat), Seq<char>>(reason),
    decreases markets.len(),
{
    if n == markets.len() {
        assert(markets.subrange(0, n) =~= markets);
    } else {
        assert(markets.drop_last().subrange(0, n) =~= markets.subrange(0, n));
        lemma_extended_prefix(registry, markets.drop_last(), n, reason);
    }
}

impl Registry {
    /// Fold Polymarket markets into the registry. Returns how many were added.
    ///
    /// Runs before the book store is built, because extending the registry is
    /// what assigns their contract ids. A market without a horizon is skipped,
    /// as is one whose token is known already. Where the numbers run out, every
    /// market before the one that found none has been folded in.
    pub fn extend_with_polymarket(&mut self, markets: &[PolymarketMarket]) -> (result: Result<
        usize,
        String,
    >)
        requires
            old(self).wf(),
        ensures
            final(self).wf(),
            match extended(old(self)@, polymarket::polymarkets_view(markets@)) {
                Ok((view, added)) => result matches Ok(count) && count == added && final(self)@
                    == view,
                Err(reason) => result matches Err(said) && said@ == reason && exists|n: int|
                    0 <= n < markets@.len() && #[trigger] stops_at(
                        old(self)@,
                        polymarket::polymarkets_view(markets@),
                        n,
                        final(self)@,
                    ),
            },
    {
        let ghost all = polymarket::polymarkets_view(markets@);
        let ghost start = self@;
        let mut added: usize = 0;
        let mut i: usize = 0;
        assert(all.subrange(0, 0) =~= Seq::<PolymarketView>::empty());
        while i < markets.len()
            invariant
                i <= markets@.len(),
                all == polymarket::polymarkets_view(markets@),
                start == old(self)@,
                self.wf(),
                added <= i,
                extended(start, all.subrange(0, i as int)) == Ok::<(RegistryView, nat), Seq<char>>(
                    (self@, added as nat),
                ),
            decreases markets@.len() - i,
        {
            let market: &PolymarketMarket = &markets[i];
            proof {
                let next = all.subrange(0, i + 1);
                assert(next.drop_last() =~= all.subrange(0, i as int));
                assert(next.last() == market@);
            }
            match self.add_polymarket(market) {
                Ok(new) => {
                    if new {
                        added = added + 1;
                    }
                },
                Err(reason) => {
                    proof {
                        lemma_extended_prefix(start, all, i + 1, reason@);
                        assert(stops_at(start, all, i as int, self@));
                    }
                    return Err(reason);
                },
            }
            i = i + 1;
        }
        assert(all.subrange(0, all.len() as int) =~= all);
        Ok(added)
    }

    /// Add one Polymarket market, where it is new and has a horizon.
    fn add_polymarket(&mut self, market: &PolymarketMarket) -> (result: Result<bool, String>)
        requires
            old(self).wf(),
        ensures
            final(self).wf(),
            if !is_new(old(self)@, market@) {
                result == Ok::<bool, String>(false) && final(self)@ == old(self)@
            } else if is_full(old(self)@) {
                result matches Err(said) && said@ == load::out_of_numbers() && final(self)@
                    == left_by(old(self)@, market@)
            } else {
                result == Ok::<bool, String>(true) && final(self)@ == with_polymarket(
                    old(self)@,
                    market@,
                )
            },
    {
        let token: &str = market.yes_token.as_str();
        let resolves_at: Timestamp = match &market.ends_at {
            Some(text) => match Timestamp::parse(text.as_str()) {
                Some(at) => at,
                None => {
                    return Ok(false);
                },
            },
            None => {
                return Ok(false);
            },
        };
        if self.contracts().get(Venue::Polymarket, token).is_some() || self.event_by_key(
            token,
        ).is_some() {
            return Ok(false);
        }
        assert(is_new(self@, market@));
        let ghost before = self@;
        let event: EventId = match self.push_event(
            token,
            market.question.as_str(),
            resolves_at,
            "polymarket".to_owned(),
            None,
            0,
        ) {
            Some(event) => event,
            None => {
                return Err("out of range integral type conversion attempted".to_owned());
            },
        };
        assert(self@ =~= before.with_event(polymarket_event(market@, resolves_at)));
        let contract: ContractId = match self.intern(Venue::Polymarket, token) {
            Ok(contract) => contract,
            Err(_) => {
                return Err("out of range integral type conversion attempted".to_owned());
            },
        };
        proof {
            let i = before.names.len() as int;
            assert(self@.names[i] == (Venue::Polymarket, token@));
            types::lemma_lookup(self@.names, Venue::Polymarket, token@, i);
        }
        self.bind(
            ContractBinding {
                contract_id: contract,
                venue: Venue::Polymarket,
                venue_ticker: token.to_owned(),
                event,
                side: Side::Yes,
                verified: true,
            },
        );
        let relation = Relation::Complement { contract };
        proof {
            let members = relation@.members();
            assert(members =~= seq![contract]);
            reveal_with_fuel(registry::first_repeat, 2);
            assert(members.subrange(0, 0) =~= Seq::<ContractId>::empty());
        }
        match self.push_group(relation, resolves_at.epoch_millis(), true) {
            Ok(_) => {},
            Err(_) => {},
        }
        Ok(true)
    }
}

} // verus!
