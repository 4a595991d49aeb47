//! What holds of every registry, however it was built.
use vstd::prelude::*;
use super::file::{EventEntryView, GroupEntryView, MemberView};
use super::load::Listed;
use super::{EventId, GroupId, GroupView, RegistryView};
use crate::book;
use crate::discovery;
use crate::discovery::inference::InferredView;
use crate::discovery::polymarket::PolymarketView;
use crate::discovery::{MarketView, RawEventView, UniverseView};
use crate::registry;
use crate::registry::discovered;
use crate::registry::load;
use crate::timestamp;
use crate::types::{self, ContractId, Instrument, Venue};

verus! {

/// Every name once, and every Kalshi name before any Polymarket one.
pub open spec fn in_venue_order(names: Seq<Instrument>) -> bool {
    &&& names.no_duplicates()
    &&& forall|i: int, j: int|
        0 <= i < j < names.len() && (#[trigger] names[j]).0 is Kalshi ==> (#[trigger] names[i]).0
            is Kalshi
}

/// One venue's tickers, as instruments.
pub open spec fn instruments_of(names: Seq<Instrument>, venue: Venue) -> Seq<Instrument> {
    registry::tickers_of(names, venue).map_values(|t: Seq<char>| (venue, t))
}

// ---------------------------------------------------------------------------
// Numbers
// ---------------------------------------------------------------------------

proof fn lemma_bound_keeps(
    registry: RegistryView,
    event: EventId,
    key: Seq<char>,
    verified: Option<bool>,
    members: Seq<MemberView>,
)
    ensures
        load::all_bound(registry, event, key, verified, members) matches Ok((after, ids))
            ==> after.names == registry.names && after.events == registry.events && after.groups
            == registry.groups,
    decreases members.len(),
{
    if members.len() > 0 {
        lemma_bound_keeps(registry, event, key, verified, members.drop_last());
    }
}

proof fn lemma_groups_keep(
    registry: RegistryView,
    event: EventId,
    key: Seq<char>,
    groups: Seq<GroupEntryView>,
    ms: u64,
)
    ensures
        load::all_grouped(registry, event, key, groups, ms) matches Ok(after) ==> after.names
            == registry.names && after.events == registry.events,
    decreases groups.len(),
{
    if groups.len() > 0 {
        lemma_groups_keep(registry, event, key, groups.drop_last(), ms);
        if let Ok(before) = load::all_grouped(registry, event, key, groups.drop_last(), ms) {
            lemma_bound_keeps(before, event, key, groups.last().verified, groups.last().members);
        }
    }
}

proof fn lemma_entries_keep(registry: RegistryView, entries: Seq<EventEntryView>)
    ensures
        load::with_entries(registry, entries) matches Ok(after) ==> after.names == registry.names,
    decreases entries.len(),
{
    if entries.len() > 0 {
        lemma_entries_keep(registry, entries.drop_last());
        if let Ok(before) = load::with_entries(registry, entries.drop_last()) {
            let entry = entries.last();
            if let Some(at) = timestamp::instant(entry.resolves_at) {
                let id = EventId(before.events.len() as u32);
                let filed = before.with_event(
                    registry::EventView {
                        id,
                        key: entry.id,
                        description: entry.description,
                        resolves_at: at,
                        resolution_source: entry.resolution_source,
                        theme: entry.theme,
                        resolution_rules_hash: entry.resolution_rules_hash,
                    },
                );
                lemma_groups_keep(filed, id, entry.id, entry.groups, at.epoch_ms());
            }
        }
    }
}

proof fn lemma_interned_order(names: Seq<Instrument>, venue: Venue, key: Seq<char>)
    requires
        in_venue_order(names),
        venue is Polymarket || forall|i: int|
            0 <= i < names.len() ==> (#[trigger] names[i]).0 is Kalshi,
    ensures
        in_venue_order(types::interned(names, venue, key)),
{
    let after = types::interned(names, venue, key);
    if !names.contains((venue, key)) {
        assert forall|i: int, j: int| 0 <= i < after.len() && 0 <= j < after.len() && i
            != j implies after[i] != after[j] by {
            if i < names.len() {
                assert(names[i] == after[i]);
                assert(names.contains(names[i]));
            }
            if j < names.len() {
                assert(names[j] == after[j]);
                assert(names.contains(names[j]));
            }
        }
        assert forall|i: int, j: int|
            0 <= i < j < after.len() && (#[trigger] after[j]).0 is Kalshi implies (
        #[trigger] after[i]).0 is Kalshi by {
            assert(after[i] == names[i]);
            if j < names.len() {
                assert(after[j] == names[j]);
            }
        }
    }
}

proof fn lemma_named_order(registry: RegistryView, members: Seq<Listed>, venue: Venue)
    requires
        in_venue_order(registry.names),
        venue is Polymarket || forall|i: int|
            0 <= i < registry.names.len() ==> (#[trigger] registry.names[i]).0 is Kalshi,
    ensures
        load::named(registry, members, venue) matches Ok(after) ==> in_venue_order(after.names) && (
        venue is Kalshi ==> forall|i: int|
            0 <= i < after.names.len() ==> (#[trigger] after.names[i]).0 is Kalshi),
    decreases members.len(),
{
    if members.len() > 0 {
        lemma_named_order(registry, members.drop_last(), venue);
        if let Ok(before) = load::named(registry, members.drop_last(), venue) {
            if let Ok((_, key, _)) = load::resolved(members.last().1) {
                lemma_interned_order(before.names, venue, key);
            }
        }
    }
}

/// A registry file numbers every Kalshi contract before any Polymarket one.
pub proof fn a_file_numbers_kalshi_first(entries: Seq<EventEntryView>, registry: RegistryView)
    requires
        load::loaded(entries) == Ok::<RegistryView, Seq<char>>(registry),
    ensures
        in_venue_order(registry.names),
{
    let members = load::members_of_file(entries);
    let empty = RegistryView::empty();
    assert(in_venue_order(empty.names));
    lemma_named_order(empty, members, Venue::Kalshi);
    let first = load::named(empty, members, Venue::Kalshi)->Ok_0;
    lemma_named_order(first, members, Venue::Polymarket);
    let named = load::all_named(entries)->Ok_0;
    lemma_entries_keep(named, entries);
}

proof fn lemma_raw_events_keep(
    registry: RegistryView,
    closes: Map<Seq<char>, Seq<char>>,
    events: Seq<RawEventView>,
)
    ensures
        discovered::with_raw_events(registry, closes, events) matches Ok(after) ==> after.names
            == registry.names && after.groups == registry.groups,
    decreases events.len(),
{
    if events.len() > 0 {
        lemma_raw_events_keep(registry, closes, events.drop_last());
    }
}

proof fn lemma_markets_order(registry: RegistryView, markets: Seq<MarketView>)
    requires
        in_venue_order(registry.names),
        forall|i: int| 0 <= i < registry.names.len() ==> (#[trigger] registry.names[i]).0 is Kalshi,
    ensures
        discovered::with_markets(registry, markets) matches Ok(after) ==> in_venue_order(
            after.names,
        ) && after.groups == registry.groups && forall|i: int|
            0 <= i < after.names.len() ==> (#[trigger] after.names[i]).0 is Kalshi,
    decreases markets.len(),
{
    if markets.len() > 0 {
        lemma_markets_order(registry, markets.drop_last());
        if let Ok(before) = discovered::with_markets(registry, markets.drop_last()) {
            lemma_interned_order(before.names, Venue::Kalshi, markets.last().ticker);
        }
    }
}

proof fn lemma_inferred_keep(registry: RegistryView, groups: Seq<InferredView>)
    ensures
        discovered::with_all_inferred(registry, groups).names == registry.names,
    decreases groups.len(),
{
    if groups.len() > 0 {
        lemma_inferred_keep(registry, groups.drop_last());
    }
}

/// A universe numbers nothing but Kalshi contracts, each once.
pub proof fn a_universe_numbers_kalshi_only(universe: UniverseView, registry: RegistryView)
    requires
        discovered::discovered(universe) == Ok::<RegistryView, Seq<char>>(registry),
    ensures
        in_venue_order(registry.names),
        registry::tickers_of(registry.names, Venue::Polymarket) == Seq::<Seq<char>>::empty(),
{
    let closes = discovery::inference::close_times(universe.markets);
    let events = discovery::cache::by_event_ticker(universe.events);
    let empty = RegistryView::empty();
    lemma_raw_events_keep(empty, closes, events);
    let listed = discovered::with_raw_events(empty, closes, events)->Ok_0;
    let markets = discovery::by_ticker(universe.markets);
    lemma_markets_order(listed, markets);
    let bound = discovered::with_markets(listed, markets)->Ok_0;
    lemma_inferred_keep(bound, discovery::inference::inferred(universe));
    lemma_no_other(registry.names);
}

proof fn lemma_no_other(names: Seq<Instrument>)
    requires
        forall|i: int| 0 <= i < names.len() ==> (#[trigger] names[i]).0 is Kalshi,
    ensures
        registry::tickers_of(names, Venue::Polymarket) == Seq::<Seq<char>>::empty(),
    decreases names.len(),
{
    if names.len() > 0 {
        assert(names[names.len() - 1].0 is Kalshi);
        assert forall|i: int| 0 <= i < names.drop_last().len() implies (
        #[trigger] names.drop_last()[i]).0 is Kalshi by {
            assert(names[i].0 is Kalshi);
        }
        lemma_no_other(names.drop_last());
    }
}

/// Folding Polymarket's catalogue in leaves every number as it was, and numbers
/// the new contracts behind them.
pub proof fn extending_moves_no_number(
    registry: RegistryView,
    markets: Seq<PolymarketView>,
    after: RegistryView,
    added: nat,
)
    requires
        in_venue_order(registry.names),
        discovered::extended(registry, markets) == Ok::<(RegistryView, nat), Seq<char>>(
            (after, added),
        ),
    ensures
        in_venue_order(after.names),
        registry.names.is_prefix_of(after.names),
        after.names.len() == registry.names.len() + added,
    decreases markets.len(),
{
    if markets.len() > 0 {
        let (before, fewer) = discovered::extended(registry, markets.drop_last())->Ok_0;
        extending_moves_no_number(registry, markets.drop_last(), before, fewer);
        let market = markets.last();
        if discovered::is_new(before, market) {
            lemma_interned_order(before.names, Venue::Polymarket, market.yes_token);
            assert(registry.names =~= after.names.subrange(0, registry.names.len() as int));
        }
    }
}

proof fn lemma_tickers_split(names: Seq<Instrument>)
    requires
        in_venue_order(names),
    ensures
        instruments_of(names, Venue::Kalshi) + instruments_of(names, Venue::Polymarket) == names,
        instruments_of(names, Venue::Kalshi).is_prefix_of(names),
    decreases names.len(),
{
    let kalshi = instruments_of(names, Venue::Kalshi);
    let polymarket = instruments_of(names, Venue::Polymarket);
    if names.len() > 0 {
        let front = names.drop_last();
        let last = names.last();
        assert(in_venue_order(front)) by {
            assert forall|i: int, j: int|
                0 <= i < j < front.len() && (#[trigger] front[j]).0 is Kalshi implies (
            #[trigger] front[i]).0 is Kalshi by {
                assert(front[i] == names[i] && front[j] == names[j]);
            }
            assert forall|i: int, j: int| 0 <= i < front.len() && 0 <= j < front.len() && i
                != j implies front[i] != front[j] by {
                assert(front[i] == names[i] && front[j] == names[j]);
            }
        }
        lemma_tickers_split(front);
        let k = instruments_of(front, Venue::Kalshi);
        let p = instruments_of(front, Venue::Polymarket);
        match last.0 {
            Venue::Kalshi => {
                assert forall|i: int| 0 <= i < front.len() implies (#[trigger] front[i]).0
                    is Kalshi by {
                    assert(names[names.len() - 1].0 is Kalshi);
                    assert(names[i] == front[i]);
                }
                lemma_no_other(front);
                assert(p =~= Seq::<Instrument>::empty());
                assert(k =~= front);
                assert(kalshi =~= k.push(last));
                assert(polymarket =~= p);
                assert(kalshi + polymarket =~= names);
            },
            Venue::Polymarket => {
                assert(kalshi =~= k);
                assert(polymarket =~= p.push(last));
                assert(kalshi + polymarket =~= (k + p).push(last));
                assert((k + p).push(last) =~= names);
            },
        }
    } else {
        assert(kalshi + polymarket =~= names);
    }
    assert(kalshi =~= names.subrange(0, kalshi.len() as int));
}

proof fn lemma_interned_all_distinct(instruments: Seq<Instrument>)
    requires
        instruments.no_duplicates(),
    ensures
        book::interned_all(instruments) == instruments,
    decreases instruments.len(),
{
    if instruments.len() > 0 {
        let front = instruments.drop_last();
        assert(front.no_duplicates());
        lemma_interned_all_distinct(front);
        assert(!front.contains(instruments.last())) by {
            if front.contains(instruments.last()) {
                let i = choose|i: int| 0 <= i < front.len() && front[i] == instruments.last();
                assert(instruments[i] == instruments[instruments.len() - 1]);
            }
        }
        assert(front.push(instruments.last()) =~= instruments);
    } else {
        assert(book::interned_all(instruments) =~= instruments);
    }
}

/// A store or a parser that numbers the registry's tickers, Kalshi before
/// Polymarket, hands out the registry's numbers; one that numbers the Kalshi
/// tickers alone agrees on all of those.
pub proof fn everyone_numbers_alike(names: Seq<Instrument>)
    requires
        in_venue_order(names),
    ensures
        book::interned_all(
            instruments_of(names, Venue::Kalshi) + instruments_of(names, Venue::Polymarket),
        ) == names,
        book::interned_all(instruments_of(names, Venue::Kalshi)).is_prefix_of(names),
{
    lemma_tickers_split(names);
    lemma_interned_all_distinct(names);
    let kalshi = instruments_of(names, Venue::Kalshi);
    assert(kalshi.no_duplicates()) by {
        assert forall|i: int, j: int| 0 <= i < kalshi.len() && 0 <= j < kalshi.len() && i
            != j implies kalshi[i] != kalshi[j] by {
            assert(kalshi[i] == names[i] && kalshi[j] == names[j]);
        }
    }
    lemma_interned_all_distinct(kalshi);
}

// ---------------------------------------------------------------------------
// Partitions
// ---------------------------------------------------------------------------

proof fn lemma_marked(seen: Map<u32, GroupId>, members: Seq<ContractId>, group: GroupId)
    ensures
        load::marked(seen, members, group) matches Ok(after) ==> {
            &&& seen.dom().subset_of(after.dom())
            &&& forall|i: int|
                0 <= i < members.len() ==> !seen.contains_key((#[trigger] members[i]).0)
                    && after.contains_key(members[i].0)
        },
    decreases members.len(),
{
    if members.len() > 0 {
        lemma_marked(seen, members.drop_last(), group);
        if let Ok(after) = load::marked(seen, members, group) {
            let before = load::marked(seen, members.drop_last(), group)->Ok_0;
            assert forall|i: int| 0 <= i < members.len() implies !seen.contains_key(
                (#[trigger] members[i]).0,
            ) && after.contains_key(members[i].0) by {
                if i < members.len() - 1 {
                    assert(members.drop_last()[i] == members[i]);
                } else if seen.contains_key(members[i].0) {
                    assert(before.dom().contains(members[i].0));
                }
            }
        }
    }
}

proof fn lemma_partitioned(groups: Seq<registry::GroupView>)
    ensures
        load::partitioned(groups) matches Ok(seen) ==> {
            &&& forall|i: int, c: ContractId|
                0 <= i < groups.len() && (#[trigger] groups[i]).relation is Exhaustive
                    && #[trigger] groups[i].relation.members().contains(c) ==> seen.contains_key(c.0)
            &&& forall|i: int, j: int, c: ContractId|
                0 <= i < j < groups.len() && (#[trigger] groups[i]).relation is Exhaustive && (
                #[trigger] groups[j]).relation is Exhaustive
                    && groups[i].relation.members().contains(c)
                    ==> !(#[trigger] groups[j].relation.members().contains(c))
        },
    decreases groups.len(),
{
    if groups.len() > 0 {
        let front = groups.drop_last();
        lemma_partitioned(front);
        if let Ok(seen) = load::partitioned(groups) {
            let before = load::partitioned(front)->Ok_0;
            let last = groups.last();
            let members = last.relation.members();
            if last.relation is Exhaustive {
                lemma_marked(before, members, last.id);
            }
            assert forall|i: int, c: ContractId|
                0 <= i < groups.len() && (#[trigger] groups[i]).relation is Exhaustive
                    && #[trigger] groups[i].relation.members().contains(
                    c,
                ) implies seen.contains_key(c.0) by {
                if i < front.len() {
                    assert(front[i] == groups[i]);
                    assert(front[i].relation.members().contains(c));
                    assert(before.contains_key(c.0));
                    if last.relation is Exhaustive {
                        assert(before.dom().contains(c.0));
                        assert(seen.dom().contains(c.0));
                    }
                } else {
                    let k = choose|k: int| 0 <= k < members.len() && members[k] == c;
                    assert(seen.contains_key(members[k].0));
                }
            }
            assert forall|i: int, j: int, c: ContractId|
                0 <= i < j < groups.len() && (#[trigger] groups[i]).relation is Exhaustive && (
                #[trigger] groups[j]).relation is Exhaustive
                    && groups[i].relation.members().contains(c) implies !(
            #[trigger] groups[j].relation.members().contains(c)) by {
                assert(front[i] == groups[i]);
                if j < front.len() {
                    assert(front[j] == groups[j]);
                    if front[j].relation.members().contains(c) {
                        assert(!front[j].relation.members().contains(c));
                    }
                } else {
                    assert(front[i].relation.members().contains(c));
                    assert(before.contains_key(c.0));
                    if members.contains(c) {
                        let k = choose|k: int| 0 <= k < members.len() && members[k] == c;
                        assert(!before.contains_key(members[k].0));
                    }
                }
            }
        }
    }
}

/// No contract stands in two exhaustive sets of a registry that was accepted.
pub proof fn no_contract_is_in_two_partitions(
    registry: RegistryView,
    i: int,
    j: int,
    contract: ContractId,
)
    requires
        load::partition_fault(registry) is None,
        0 <= i < j < registry.groups.len(),
        registry.groups[i].relation is Exhaustive,
        registry.groups[j].relation is Exhaustive,
    ensures
        !(registry.groups[i].relation.members().contains(contract)
            && registry.groups[j].relation.members().contains(contract)),
{
    lemma_partitioned(registry.groups);
}

// ---------------------------------------------------------------------------
// Horizons
// ---------------------------------------------------------------------------

/// Every group has one event: all of its contracts are bound to that event, and
/// the group resolves when the event does.
pub open spec fn on_time(registry: RegistryView) -> bool {
    forall|g: int|
        0 <= g < registry.groups.len() ==> has_one_event(registry, #[trigger] registry.groups[g])
}

/// There is an event that a group stands under.
pub open spec fn has_one_event(registry: RegistryView, group: GroupView) -> bool {
    exists|event: EventId| stands_under(registry, group, event)
}

/// All contracts of a group are bound to an event, and the group resolves when
/// that event does.
pub open spec fn stands_under(registry: RegistryView, group: GroupView, event: EventId) -> bool {
    &&& event.0 < registry.events.len()
    &&& registry.events[event.0 as int].resolves_at.epoch_ms() == group.resolves_at_ms
    &&& forall|c: ContractId| #[trigger]
        group.relation.members().contains(c) ==> registry.bindings.contains_key(c.0)
            && registry.bindings[c.0].event == event
}

proof fn lemma_still_under(
    before: RegistryView,
    after: RegistryView,
    group: GroupView,
    event: EventId,
)
    requires
        stands_under(before, group, event),
        binds_more(before, after),
        before.events.len() <= after.events.len(),
        forall|i: int| 0 <= i < before.events.len() ==> #[trigger] after.events[i] == before.events[i],
    ensures
        stands_under(after, group, event),
{
    assert(after.events[event.0 as int] == before.events[event.0 as int]);
    assert forall|c: ContractId| #[trigger]
        group.relation.members().contains(c) implies after.bindings.contains_key(c.0)
        && after.bindings[c.0].event == event by {
        assert(before.bindings.contains_key(c.0));
    }
}

/// Nothing that was bound is bound anew.
spec fn binds_more(before: RegistryView, after: RegistryView) -> bool {
    forall|c: u32| #[trigger]
        before.bindings.contains_key(c) ==> after.bindings.contains_key(c) && after.bindings[c]
            == before.bindings[c]
}

proof fn lemma_all_bound(
    registry: RegistryView,
    event: EventId,
    key: Seq<char>,
    verified: Option<bool>,
    members: Seq<MemberView>,
)
    ensures
        load::all_bound(registry, event, key, verified, members) matches Ok((after, ids)) ==> {
            &&& after.events == registry.events
            &&& after.groups == registry.groups
            &&& binds_more(registry, after)
            &&& forall|i: int|
                0 <= i < ids.len() ==> after.bindings.contains_key((#[trigger] ids[i]).0)
                    && after.bindings[ids[i].0].event == event
        },
    decreases members.len(),
{
    if members.len() > 0 {
        lemma_all_bound(registry, event, key, verified, members.drop_last());
        if let Ok((after, ids)) = load::all_bound(registry, event, key, verified, members) {
            let (before, some) = load::all_bound(
                registry,
                event,
                key,
                verified,
                members.drop_last(),
            )->Ok_0;
            assert(binds_more(before, after));
            assert forall|i: int| 0 <= i < ids.len() implies after.bindings.contains_key(
                (#[trigger] ids[i]).0,
            ) && after.bindings[ids[i].0].event == event by {
                if i < some.len() {
                    assert(some[i] == ids[i]);
                    assert(before.bindings.contains_key(some[i].0));
                }
            }
        }
    }
}

proof fn lemma_stated_members(group: GroupEntryView, ids: Seq<ContractId>)
    ensures
        load::stated(group, ids) matches Ok(relation) ==> forall|c: ContractId| #[trigger]
            relation.members().contains(c) ==> ids.contains(c),
{
    if let Ok(relation) = load::stated(group, ids) {
        assert forall|c: ContractId| #[trigger] relation.members().contains(c) implies ids.contains(
            c,
        ) by {
            let members = relation.members();
            let i = choose|i: int| 0 <= i < members.len() && members[i] == c;
            assert(ids[i] == c);
        }
    }
}

proof fn lemma_groups_on_time(
    registry: RegistryView,
    event: EventId,
    key: Seq<char>,
    groups: Seq<GroupEntryView>,
    ms: u64,
)
    requires
        on_time(registry),
        event.0 < registry.events.len(),
        registry.events[event.0 as int].resolves_at.epoch_ms() == ms,
    ensures
        load::all_grouped(registry, event, key, groups, ms) matches Ok(after) ==> on_time(after)
            && after.events == registry.events,
    decreases groups.len(),
{
    if groups.len() > 0 {
        lemma_groups_on_time(registry, event, key, groups.drop_last(), ms);
        if let Ok(after) = load::all_grouped(registry, event, key, groups, ms) {
            let before = load::all_grouped(registry, event, key, groups.drop_last(), ms)->Ok_0;
            let group = groups.last();
            lemma_all_bound(before, event, key, group.verified, group.members);
            let (filed, ids) = load::all_bound(
                before,
                event,
                key,
                group.verified,
                group.members,
            )->Ok_0;
            lemma_stated_members(group, ids);
            assert forall|g: int| 0 <= g < after.groups.len() implies has_one_event(
                after,
                #[trigger] after.groups[g],
            ) by {
                if g < before.groups.len() {
                    assert(after.groups[g] == before.groups[g]);
                    assert(has_one_event(before, before.groups[g]));
                    let under = choose|event: EventId|
                        stands_under(before, before.groups[g], event);
                    lemma_still_under(before, after, before.groups[g], under);
                } else {
                    assert forall|c: ContractId| #[trigger]
                        after.groups[g].relation.members().contains(
                            c,
                        ) implies after.bindings.contains_key(c.0) && after.bindings[c.0].event
                        == event by {
                        let i = choose|i: int| 0 <= i < ids.len() && ids[i] == c;
                        assert(filed.bindings.contains_key(ids[i].0));
                    }
                    assert(stands_under(after, after.groups[g], event));
                }
            }
        }
    }
}

proof fn lemma_entries_on_time(registry: RegistryView, entries: Seq<EventEntryView>)
    requires
        on_time(registry),
    ensures
        load::with_entries(registry, entries) matches Ok(after) ==> on_time(after),
    decreases entries.len(),
{
    if entries.len() > 0 {
        lemma_entries_on_time(registry, entries.drop_last());
        if let Ok(after) = load::with_entries(registry, entries) {
            let before = load::with_entries(registry, entries.drop_last())->Ok_0;
            let entry = entries.last();
            let at = timestamp::instant(entry.resolves_at)->0;
            let id = EventId(before.events.len() as u32);
            let filed = before.with_event(
                registry::EventView {
                    id,
                    key: entry.id,
                    description: entry.description,
                    resolves_at: at,
                    resolution_source: entry.resolution_source,
                    theme: entry.theme,
                    resolution_rules_hash: entry.resolution_rules_hash,
                },
            );
            assert(on_time(filed)) by {
                assert forall|g: int| 0 <= g < filed.groups.len() implies has_one_event(
                    filed,
                    #[trigger] filed.groups[g],
                ) by {
                    assert(filed.groups[g] == before.groups[g]);
                    assert(has_one_event(before, before.groups[g]));
                    let under = choose|event: EventId|
                        stands_under(before, before.groups[g], event);
                    lemma_still_under(before, filed, before.groups[g], under);
                }
            }
            lemma_groups_on_time(filed, id, entry.id, entry.groups, at.epoch_ms());
        }
    }
}

proof fn lemma_named_groups(registry: RegistryView, members: Seq<Listed>, venue: Venue)
    ensures
        load::named(registry, members, venue) matches Ok(after) ==> after.groups == registry.groups,
    decreases members.len(),
{
    if members.len() > 0 {
        lemma_named_groups(registry, members.drop_last(), venue);
    }
}

/// In a registry read from a file, the contracts of a group are all bound to one
/// and the same event, the one that the group stands under, and the group
/// resolves when that event does. A contract is therefore never ranked against somebody else's horizon.
pub proof fn a_group_resolves_with_its_event(
    entries: Seq<EventEntryView>,
    registry: RegistryView,
)
    requires
        load::loaded(entries) == Ok::<RegistryView, Seq<char>>(registry),
    ensures
        on_time(registry),
{
    let members = load::members_of_file(entries);
    let empty = RegistryView::empty();
    lemma_named_groups(empty, members, Venue::Kalshi);
    let first = load::named(empty, members, Venue::Kalshi)->Ok_0;
    lemma_named_groups(first, members, Venue::Polymarket);
    let named = load::all_named(entries)->Ok_0;
    lemma_entries_on_time(named, entries);
}

// ---------------------------------------------------------------------------
// Provenance
// ---------------------------------------------------------------------------

/// Every group is marked as inferred, or none is.
pub open spec fn all_marked(registry: RegistryView, inferred: bool) -> bool {
    forall|g: int|
        0 <= g < registry.groups.len() ==> (#[trigger] registry.groups[g]).inferred == inferred
}

proof fn lemma_groups_unmarked(
    registry: RegistryView,
    event: EventId,
    key: Seq<char>,
    groups: Seq<GroupEntryView>,
    ms: u64,
)
    requires
        all_marked(registry, false),
    ensures
        load::all_grouped(registry, event, key, groups, ms) matches Ok(after) ==> all_marked(
            after,
            false,
        ),
    decreases groups.len(),
{
    if groups.len() > 0 {
        lemma_groups_unmarked(registry, event, key, groups.drop_last(), ms);
        if let Ok(before) = load::all_grouped(registry, event, key, groups.drop_last(), ms) {
            lemma_all_bound(before, event, key, groups.last().verified, groups.last().members);
        }
    }
}

proof fn lemma_entries_unmarked(registry: RegistryView, entries: Seq<EventEntryView>)
    requires
        all_marked(registry, false),
    ensures
        load::with_entries(registry, entries) matches Ok(after) ==> all_marked(after, false),
    decreases entries.len(),
{
    if entries.len() > 0 {
        lemma_entries_unmarked(registry, entries.drop_last());
        if let Ok(after) = load::with_entries(registry, entries) {
            let before = load::with_entries(registry, entries.drop_last())->Ok_0;
            let entry = entries.last();
            let at = timestamp::instant(entry.resolves_at)->0;
            let id = EventId(before.events.len() as u32);
            let filed = before.with_event(
                registry::EventView {
                    id,
                    key: entry.id,
                    description: entry.description,
                    resolves_at: at,
                    resolution_source: entry.resolution_source,
                    theme: entry.theme,
                    resolution_rules_hash: entry.resolution_rules_hash,
                },
            );
            assert(filed.groups == before.groups);
            lemma_groups_unmarked(filed, id, entry.id, entry.groups, at.epoch_ms());
        }
    }
}

/// A group that a human wrote down is not marked as inferred.
pub proof fn a_written_group_is_not_inferred(entries: Seq<EventEntryView>, registry: RegistryView)
    requires
        load::loaded(entries) == Ok::<RegistryView, Seq<char>>(registry),
    ensures
        all_marked(registry, false),
{
    let members = load::members_of_file(entries);
    let empty = RegistryView::empty();
    lemma_named_groups(empty, members, Venue::Kalshi);
    let first = load::named(empty, members, Venue::Kalshi)->Ok_0;
    lemma_named_groups(first, members, Venue::Polymarket);
    let named = load::all_named(entries)->Ok_0;
    lemma_entries_unmarked(named, entries);
}

proof fn lemma_inferred_marked(registry: RegistryView, groups: Seq<InferredView>)
    requires
        all_marked(registry, true),
    ensures
        all_marked(discovered::with_all_inferred(registry, groups), true),
    decreases groups.len(),
{
    if groups.len() > 0 {
        lemma_inferred_marked(registry, groups.drop_last());
    }
}

/// A group read off venue metadata is marked as inferred, without exception.
pub proof fn a_discovered_group_is_inferred(universe: UniverseView, registry: RegistryView)
    requires
        discovered::discovered(universe) == Ok::<RegistryView, Seq<char>>(registry),
    ensures
        all_marked(registry, true),
{
    let closes = discovery::inference::close_times(universe.markets);
    let events = discovery::cache::by_event_ticker(universe.events);
    let empty = RegistryView::empty();
    lemma_raw_events_keep(empty, closes, events);
    let listed = discovered::with_raw_events(empty, closes, events)->Ok_0;
    let markets = discovery::by_ticker(universe.markets);
    lemma_markets_order(listed, markets);
    let bound = discovered::with_markets(listed, markets)->Ok_0;
    assert(bound.groups == empty.groups);
    lemma_inferred_marked(bound, discovery::inference::inferred(universe));
}

} // verus!
