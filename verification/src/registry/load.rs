//! Building the constraint graph from the registry file. No network, no clock.
//!
//! Every mistake in the file is a configuration mistake, and the only useful
//! moment to discover one is before the engine starts trading on it, so loading
//! either builds the whole graph or says what is wrong.
use vstd::prelude::*;
use vstd::hash_set::StringHashSet;
use std::collections::HashMap;
use super::file::{read_file, EventEntry, GroupEntry, MemberRef};
use super::file::{EventEntryView, GroupEntryView, MemberView};
use super::{BindingView, ContractBinding, EventId, EventView, GroupId, GroupView};
use super::{Registry, RegistryView, Relation, RelationView};
use crate::registry;
use crate::registry::file;
use crate::text;
use crate::timestamp::{self, Timestamp};
use crate::types::{self, ContractId, Side, Venue};

verus! {

/// A member made plain: the venue, its identifier there, and the outcome bound.
pub type Resolved = (Venue, Seq<char>, Side);

/// What a member names, or what is wrong with it.
///
/// Kalshi identifies a market by ticker, Polymarket by token. One or the other,
/// never both, so a member cannot name two different markets.
pub open spec fn resolved(member: MemberView) -> Result<Resolved, Seq<char>> {
    if member.venue != "kalshi"@ && member.venue != "polymarket"@ {
        Err("unknown venue "@ + text::debug_text(member.venue) + "; expected kalshi or polymarket"@)
    } else {
        let venue = if member.venue == "kalshi"@ {
            Venue::Kalshi
        } else {
            Venue::Polymarket
        };
        match (member.ticker, member.token) {
            (Some(_), Some(_)) => Err("member has both ticker and token"@),
            (None, None) => Err("member has neither ticker nor token"@),
            (Some(key), None) | (None, Some(key)) => if text::trimmed(key).len() == 0 {
                Err("member identifier is empty"@)
            } else {
                match member.side {
                    None => Ok((venue, key, Side::Yes)),
                    Some(side) => if side == "yes"@ {
                        Ok((venue, key, Side::Yes))
                    } else if side == "no"@ {
                        Ok((venue, key, Side::No))
                    } else {
                        Err("unknown side "@ + text::debug_text(side) + "; expected yes or no"@)
                    },
                }
            },
        }
    }
}

/// Two texts and what stands between them.
fn joined(a: &str, b: &str, c: &str) -> (out: String)
    ensures
        out@ == a@ + b@ + c@,
{
    let mut out: String = a.to_owned();
    out.append(b);
    out.append(c);
    out
}

impl MemberRef {
    /// Normalize a member to the venue, its identifier, and the outcome bound.
    pub fn resolve(&self) -> (result: Result<(Venue, String, Side), String>)
        ensures
            match result {
                Ok((venue, key, side)) => resolved(self@) == Ok::<Resolved, Seq<char>>(
                    (venue, key@, side),
                ),
                Err(reason) => resolved(self@) == Err::<Resolved, Seq<char>>(reason@),
            },
    {
        let venue: Venue = if text::same(self.venue.as_str(), "kalshi") {
            Venue::Kalshi
        } else if text::same(self.venue.as_str(), "polymarket") {
            Venue::Polymarket
        } else {
            let shown: String = text::quoted(self.venue.as_str());
            return Err(
                joined("unknown venue ", shown.as_str(), "; expected kalshi or polymarket"),
            );
        };
        let key: &str = match (&self.ticker, &self.token) {
            (Some(ticker), None) => ticker.as_str(),
            (None, Some(token)) => token.as_str(),
            (Some(_), Some(_)) => {
                return Err("member has both ticker and token".to_owned());
            },
            (None, None) => {
                return Err("member has neither ticker nor token".to_owned());
            },
        };
        let letters: Vec<char> = text::chars(key);
        if text::trim(letters.as_slice()).len() == 0 {
            return Err("member identifier is empty".to_owned());
        }
        let side: Side = match &self.side {
            None => Side::Yes,
            Some(side) => if text::same(side.as_str(), "yes") {
                Side::Yes
            } else if text::same(side.as_str(), "no") {
                Side::No
            } else {
                let shown: String = text::quoted(side.as_str());
                return Err(joined("unknown side ", shown.as_str(), "; expected yes or no"));
            },
        };
        Ok((venue, key.to_owned(), side))
    }
}

// ---------------------------------------------------------------------------
// Strikes
// ---------------------------------------------------------------------------

/// What stands behind the last hyphen of a ticker, without a leading `T`.
pub open spec fn strike_text(ticker: Seq<char>) -> Seq<char> {
    let tail = ticker.subrange(text::last_index(ticker, '-') + 1, ticker.len() as int);
    if tail.len() > 0 && tail[0] == 'T' {
        tail.drop_first()
    } else {
        tail
    }
}

/// The strike that a venue ticker names, in hundredths.
pub open spec fn strike(ticker: Seq<char>) -> Option<i64> {
    let tail = strike_text(ticker);
    let (whole, fraction) = match text::split_once(tail, '.') {
        Some(parts) => parts,
        None => (tail, Seq::empty()),
    };
    if whole.len() == 0 || !text::all_digits(whole) || !text::all_digits(fraction) {
        None
    } else {
        let value = text::number(whole) * 100 + types::hundredths(fraction);
        if value <= i64::MAX {
            Some(value as i64)
        } else {
            None
        }
    }
}

/// Read a strike out of a venue ticker as integer hundredths.
///
/// `KXBTCD-26SEP1417-T73999.99` yields 7399999. Anything that is not a plain
/// decimal after an optional `T` yields `None`, which means "cannot check",
/// not "zero": a Fed ladder rung like `KXFED-26SEP-C50` has no strike to read.
pub fn strike_hundredths(ticker: &str) -> (value: Option<i64>)
    ensures
        value == strike(ticker@),
{
    let all: Vec<char> = text::chars(ticker);
    let n: usize = all.len();
    let start: usize = match text::find_last(all.as_slice(), '-') {
        Some(at) => at + 1,
        None => 0,
    };
    let tail: &[char] = vstd::slice::slice_subrange(all.as_slice(), start, n);
    let tail: &[char] = if tail.len() > 0 && tail[0] == 'T' {
        vstd::slice::slice_subrange(tail, 1, tail.len())
    } else {
        tail
    };
    assert(tail@ =~= strike_text(ticker@));
    let dot: usize = text::find(tail, '.');
    let whole: &[char] = vstd::slice::slice_subrange(tail, 0, dot);
    let fraction: &[char] = if dot < tail.len() {
        vstd::slice::slice_subrange(tail, dot + 1, tail.len())
    } else {
        vstd::slice::slice_subrange(tail, dot, tail.len())
    };
    proof {
        text::lemma_first_index(tail@, '.');
        if dot == tail@.len() {
            assert(whole@ =~= tail@);
            assert(fraction@ =~= Seq::<char>::empty());
        }
    }
    if whole.len() == 0 || !text::digits(whole) || !text::digits(fraction) {
        return None;
    }
    proof {
        text::lemma_number_bounds(whole@);
    }
    let count: u128 = match text::parse_number(whole, i64::MAX as u128) {
        Some(count) => count,
        None => {
            proof {
                assert forall|i: int| 0 <= i < fraction@.len() implies 0 <= text::digit_value(
                    #[trigger] fraction@[i],
                ) <= 9 by {
                    assert(text::is_digit(fraction@[i]));
                }
            }
            return None;
        },
    };
    let mut value: u128 = count * 100;
    if fraction.len() > 0 {
        assert(text::is_digit(fraction@[0]));
        value = value + (fraction[0] as u32 - '0' as u32) as u128 * 10;
    }
    if fraction.len() > 1 {
        assert(text::is_digit(fraction@[1]));
        value = value + (fraction[1] as u32 - '0' as u32) as u128;
    }
    if value <= i64::MAX as u128 {
        Some(value as i64)
    } else {
        None
    }
}

// ---------------------------------------------------------------------------
// Names
// ---------------------------------------------------------------------------

/// A member, and the event under which it stands.
pub type Listed = (Seq<char>, MemberView);

/// The members of some groups, in order.
pub open spec fn members_of_groups(event: Seq<char>, groups: Seq<GroupEntryView>) -> Seq<Listed>
    decreases groups.len(),
{
    if groups.len() == 0 {
        Seq::empty()
    } else {
        members_of_groups(event, groups.drop_last()) + groups.last().members.map_values(
            |m: MemberView| (event, m),
        )
    }
}

/// The members of the file, in order.
pub open spec fn members_of_file(entries: Seq<EventEntryView>) -> Seq<Listed>
    decreases entries.len(),
{
    if entries.len() == 0 {
        Seq::empty()
    } else {
        members_of_file(entries.drop_last()) + members_of_groups(
            entries.last().id,
            entries.last().groups,
        )
    }
}

/// What is wrong inside an event.
pub open spec fn within(event: Seq<char>, reason: Seq<char>) -> Seq<char> {
    "event "@ + event + ": "@ + reason
}

/// More events, or more contracts, than there are numbers for.
pub open spec fn out_of_numbers() -> Seq<char> {
    "out of range integral type conversion attempted"@
}

/// The names after interning the members of one venue, in order.
pub open spec fn named(registry: RegistryView, members: Seq<Listed>, venue: Venue) -> Result<
    RegistryView,
    Seq<char>,
>
    decreases members.len(),
{
    if members.len() == 0 {
        Ok(registry)
    } else {
        match named(registry, members.drop_last(), venue) {
            Err(reason) => Err(reason),
            Ok(before) => match resolved(members.last().1) {
                Err(reason) => Err(within(members.last().0, reason)),
                Ok((at, key, _)) => if at != venue || before.names.contains((venue, key)) {
                    Ok(before)
                } else if before.names.len() > u32::MAX {
                    Err(out_of_numbers())
                } else {
                    Ok(before.with_name(venue, key))
                },
            },
        }
    }
}

/// Every name of the file, the Kalshi ones before any Polymarket one, so that a
/// Kalshi-only book store built from the Kalshi tickers assigns these numbers.
pub open spec fn all_named(entries: Seq<EventEntryView>) -> Result<RegistryView, Seq<char>> {
    match named(RegistryView::empty(), members_of_file(entries), Venue::Kalshi) {
        Err(reason) => Err(reason),
        Ok(registry) => named(registry, members_of_file(entries), Venue::Polymarket),
    }
}

/// What a list of borrowed members says.
pub open spec fn listed_view(members: Seq<(&str, &MemberRef)>) -> Seq<Listed> {
    members.map_values(|m: (&str, &MemberRef)| (m.0@, m.1@))
}

/// The members of the file, in order.
fn list_members(entries: &[EventEntry]) -> (members: Vec<(&str, &MemberRef)>)
    ensures
        listed_view(members@) == members_of_file(file::entries_view(entries@)),
{
    let ghost all = file::entries_view(entries@);
    let mut members: Vec<(&str, &MemberRef)> = Vec::new();
    let mut e: usize = 0;
    assert(all.subrange(0, 0) =~= Seq::<EventEntryView>::empty());
    assert(listed_view(members@) =~= Seq::<Listed>::empty());
    while e < entries.len()
        invariant
            e <= entries@.len(),
            all == file::entries_view(entries@),
            listed_view(members@) == members_of_file(all.subrange(0, e as int)),
        decreases entries@.len() - e,
    {
        let entry: &EventEntry = &entries[e];
        let id: &str = entry.id.as_str();
        let ghost before = listed_view(members@);
        let ghost groups = entry@.groups;
        proof {
            assert(all.subrange(0, e + 1).drop_last() =~= all.subrange(0, e as int));
            assert(all.subrange(0, e + 1).last() == entry@);
            assert(groups.subrange(0, 0) =~= Seq::<GroupEntryView>::empty());
            assert(before + Seq::<Listed>::empty() =~= before);
        }
        let mut g: usize = 0;
        while g < entry.groups.len()
            invariant
                g <= entry.groups@.len(),
                groups == file::groups_view(entry.groups@),
                listed_view(members@) == before + members_of_groups(
                    id@,
                    groups.subrange(0, g as int),
                ),
            decreases entry.groups@.len() - g,
        {
            let group: &GroupEntry = &entry.groups[g];
            let ghost held = listed_view(members@);
            let ghost inner = group@.members;
            let ghost mine = inner.map_values(|m: MemberView| (id@, m));
            proof {
                assert(groups.subrange(0, g + 1).drop_last() =~= groups.subrange(0, g as int));
                assert(groups.subrange(0, g + 1).last() == group@);
                assert(mine.subrange(0, 0) =~= Seq::<Listed>::empty());
                assert(held + Seq::<Listed>::empty() =~= held);
            }
            let mut m: usize = 0;
            while m < group.members.len()
                invariant
                    m <= group.members@.len(),
                    inner == file::members_view(group.members@),
                    mine == inner.map_values(|m: MemberView| (id@, m)),
                    listed_view(members@) == held + mine.subrange(0, m as int),
                decreases group.members@.len() - m,
            {
                let ghost old = members@;
                let member: &MemberRef = &group.members[m];
                members.push((id, member));
                proof {
                    assert(mine[m as int] == (id@, member@));
                    assert(listed_view(members@) =~= listed_view(old).push((id@, member@)));
                    assert(held + mine.subrange(0, m + 1) =~= (held + mine.subrange(
                        0,
                        m as int,
                    )).push((id@, member@)));
                }
                m = m + 1;
            }
            proof {
                assert(mine.subrange(0, mine.len() as int) =~= mine);
                assert(held + mine =~= before + (members_of_groups(
                    id@,
                    groups.subrange(0, g as int),
                ) + mine));
            }
            g = g + 1;
        }
        assert(groups.subrange(0, groups.len() as int) =~= groups);
        e = e + 1;
    }
    assert(all.subrange(0, all.len() as int) =~= all);
    members
}

/// What is wrong inside an event.
fn say_within(event: &str, reason: &str) -> (out: String)
    ensures
        out@ == within(event@, reason@),
{
    let mut out: String = "event ".to_owned();
    out.append(event);
    out.append(": ");
    out.append(reason);
    out
}

proof fn lemma_named_prefix(
    registry: RegistryView,
    members: Seq<Listed>,
    venue: Venue,
    n: int,
    reason: Seq<char>,
)
    requires
        0 < n <= members.len(),
        named(registry, members.subrange(0, n), venue) == Err::<RegistryView, Seq<char>>(reason),
    ensures
        named(registry, members, venue) == Err::<RegistryView, Seq<char>>(reason),
    decreases members.len(),
{
    if n == members.len() {
        assert(members.subrange(0, n) =~= members);
    } else {
        assert(members.drop_last().subrange(0, n) =~= members.subrange(0, n));
        lemma_named_prefix(registry, members.drop_last(), venue, n, reason);
    }
}

impl Registry {
    /// Number the members of one venue, in order.
    fn name_members(&mut self, members: &[(&str, &MemberRef)], venue: Venue) -> (result: Result<
        (),
        String,
    >)
        requires
            old(self).wf(),
        ensures
            final(self).wf(),
            match result {
                Ok(_) => named(old(self)@, listed_view(members@), venue) == Ok::<
                    RegistryView,
                    Seq<char>,
                >(final(self)@),
                Err(reason) => named(old(self)@, listed_view(members@), venue) == Err::<
                    RegistryView,
                    Seq<char>,
                >(reason@),
            },
    {
        let ghost all = listed_view(members@);
        let ghost start = self@;
        let mut i: usize = 0;
        assert(all.subrange(0, 0) =~= Seq::<Listed>::empty());
        while i < members.len()
            invariant
                i <= members@.len(),
                all == listed_view(members@),
                start == old(self)@,
                self.wf(),
                named(start, all.subrange(0, i as int), venue) == Ok::<RegistryView, Seq<char>>(
                    self@,
                ),
            decreases members@.len() - i,
        {
            let event: &str = members[i].0;
            let member: &MemberRef = members[i].1;
            let ghost next = all.subrange(0, i + 1);
            proof {
                assert(next.drop_last() =~= all.subrange(0, i as int));
                assert(next.last() == (event@, member@));
            }
            match member.resolve() {
                Err(reason) => {
                    let said: String = say_within(event, reason.as_str());
                    proof {
                        lemma_named_prefix(start, all, venue, i + 1, said@);
                    }
                    return Err(said);
                },
                Ok((at, key, _)) => {
                    if at == venue && self.contracts().get(venue, key.as_str()).is_none() {
                        match self.intern(venue, key.as_str()) {
                            Ok(_) => {},
                            Err(_) => {
                                let said: String =
                                    "out of range integral type conversion attempted".to_owned();
                                proof {
                                    lemma_named_prefix(start, all, venue, i + 1, said@);
                                }
                                return Err(said);
                            },
                        }
                    }
                },
            }
            i = i + 1;
        }
        assert(all.subrange(0, all.len() as int) =~= all);
        Ok(())
    }
}


// ---------------------------------------------------------------------------
// Groups
// ---------------------------------------------------------------------------

/// The contract of a member, bound to an event.
///
/// A contract bound to two different events has an ambiguous resolution time,
/// so ranking it would be guesswork. Only a cross-venue pair carries
/// verification; a single venue's own listing is the event by definition.
pub open spec fn bound(
    registry: RegistryView,
    event: EventId,
    event_key: Seq<char>,
    verified: Option<bool>,
    member: MemberView,
) -> Result<(RegistryView, ContractId), Seq<char>> {
    match resolved(member) {
        Err(reason) => Err(reason),
        Ok((venue, key, side)) => match types::lookup(registry.names, venue, key) {
            None => Err("member was not interned"@),
            Some(contract) => if registry.bindings.contains_key(contract.0) {
                let existing = registry.bindings[contract.0].event;
                if existing == event {
                    Ok((registry, contract))
                } else {
                    Err(
                        "contract "@ + text::debug_text(key) + " appears under two events: "@
                            + text::debug_text(registry.events[existing.0 as int].key) + " and "@
                            + text::debug_text(event_key),
                    )
                }
            } else {
                Ok(
                    (
                        registry.with_binding(
                            BindingView {
                                contract_id: contract,
                                venue,
                                venue_ticker: key,
                                event,
                                side,
                                verified: match verified {
                                    Some(verified) => verified,
                                    None => true,
                                },
                            },
                        ),
                        contract,
                    ),
                )
            },
        },
    }
}

/// The contracts of some members, each bound to an event.
pub open spec fn all_bound(
    registry: RegistryView,
    event: EventId,
    event_key: Seq<char>,
    verified: Option<bool>,
    members: Seq<MemberView>,
) -> Result<(RegistryView, Seq<ContractId>), Seq<char>>
    decreases members.len(),
{
    if members.len() == 0 {
        Ok((registry, Seq::empty()))
    } else {
        match all_bound(registry, event, event_key, verified, members.drop_last()) {
            Err(reason) => Err(reason),
            Ok((before, ids)) => match bound(
                before,
                event,
                event_key,
                verified,
                members.last(),
            ) {
                Err(reason) => Err(reason),
                Ok((after, id)) => Ok((after, ids.push(id))),
            },
        }
    }
}

/// The identifier of a member.
pub open spec fn key_of(member: MemberView) -> Seq<char> {
    match resolved(member) {
        Ok((_, key, _)) => key,
        Err(_) => Seq::empty(),
    }
}

/// Whether a strike can be read out of every member.
pub open spec fn all_struck(members: Seq<MemberView>) -> bool {
    forall|i: int| 0 <= i < members.len() ==> strike(key_of(#[trigger] members[i])) is Some
}

/// Whether a rung is followed by one that is no higher.
pub open spec fn falls_at(members: Seq<MemberView>, i: int) -> bool {
    strike(key_of(members[i]))->0 >= strike(key_of(members[i + 1]))->0
}

/// Where a ladder of `n` rungs first fails to rise.
pub open spec fn first_fall(members: Seq<MemberView>, n: int) -> Option<int>
    decreases n,
{
    if n < 2 {
        None
    } else {
        match first_fall(members, n - 1) {
            Some(i) => Some(i),
            None => if falls_at(members, n - 2) {
                Some(n - 2)
            } else {
                None
            },
        }
    }
}

/// What is wrong with the order of a ladder.
///
/// A ladder must be written weakest claim first, so its strikes ascend. Written
/// the other way round, every adjacent pair looks inverted and the solver would
/// emit a trade for each one. Tickers whose strike cannot be read are left alone
/// rather than guessed at.
pub open spec fn order_fault(members: Seq<MemberView>) -> Option<Seq<char>> {
    if all_struck(members) {
        match first_fall(members, members.len() as int) {
            Some(i) => Some(
                "monotone ladder is not ascending by strike: "@ + key_of(members[i]) + " then "@
                    + key_of(members[i + 1]),
            ),
            None => None,
        }
    } else {
        None
    }
}

/// The relation that a group of the file states between its contracts.
pub open spec fn stated(group: GroupEntryView, ids: Seq<ContractId>) -> Result<
    RelationView,
    Seq<char>,
> {
    let kind = group.kind;
    if kind != "equivalent"@ && group.verified is Some {
        Err("group type "@ + text::debug_text(kind) + " does not take a verified flag"@)
    } else if kind == "complement"@ {
        if ids.len() == 1 {
            Ok(RelationView::Complement { contract: ids[0] })
        } else {
            Err("complement takes exactly one member"@)
        }
    } else if kind == "exhaustive"@ {
        Ok(RelationView::Exhaustive { members: ids })
    } else if kind == "monotone"@ {
        match order_fault(group.members) {
            Some(reason) => Err(reason),
            None => Ok(RelationView::Monotone { ordered: ids }),
        }
    } else if kind == "implies"@ {
        if ids.len() == 2 {
            Ok(RelationView::Implies { antecedent: ids[0], consequent: ids[1] })
        } else {
            Err("implies takes exactly two members, antecedent first"@)
        }
    } else if kind == "equivalent"@ {
        if ids.len() == 2 {
            match group.verified {
                Some(verified) => Ok(RelationView::Equivalent { a: ids[0], b: ids[1], verified }),
                None => Err("equivalent groups must state verified = true or verified = false"@),
            }
        } else {
            Err("equivalent takes exactly two members"@)
        }
    } else {
        Err(
            "unknown group type "@ + text::debug_text(kind)
                + "; expected complement, exhaustive, monotone, implies, or equivalent"@,
        )
    }
}

/// A registry with one more group of the file.
pub open spec fn grouped(
    registry: RegistryView,
    event: EventId,
    event_key: Seq<char>,
    group: GroupEntryView,
    resolves_at_ms: u64,
) -> Result<RegistryView, Seq<char>> {
    match all_bound(registry, event, event_key, group.verified, group.members) {
        Err(reason) => Err(reason),
        Ok((after, ids)) => match stated(group, ids) {
            Err(reason) => Err(reason),
            Ok(relation) => match registry::relation_fault(
                relation,
                registry::group_id_at(after.groups.len() as int),
            ) {
                Some(fault) => Err(registry::registry_error_message(fault)),
                None => Ok(after.with_group(relation, resolves_at_ms, false)),
            },
        },
    }
}

proof fn lemma_bound_prefix(
    registry: RegistryView,
    event: EventId,
    event_key: Seq<char>,
    verified: Option<bool>,
    members: Seq<MemberView>,
    n: int,
    reason: Seq<char>,
)
    requires
        0 < n <= members.len(),
        all_bound(registry, event, event_key, verified, members.subrange(0, n)) == Err::<
            (RegistryView, Seq<ContractId>),
            Seq<char>,
        >(reason),
    ensures
        all_bound(registry, event, event_key, verified, members) == Err::<
            (RegistryView, Seq<ContractId>),
            Seq<char>,
        >(reason),
    decreases members.len(),
{
    if n == members.len() {
        assert(members.subrange(0, n) =~= members);
    } else {
        assert(members.drop_last().subrange(0, n) =~= members.subrange(0, n));
        lemma_bound_prefix(registry, event, event_key, verified, members.drop_last(), n, reason);
    }
}

proof fn lemma_fall_prefix(members: Seq<MemberView>, n: int, m: int)
    requires
        0 <= n <= m,
        first_fall(members, n) is Some,
    ensures
        first_fall(members, m) == first_fall(members, n),
    decreases m,
{
    if n < m {
        lemma_fall_prefix(members, n, m - 1);
    }
}

impl Registry {
    /// Bind one member's contract to an event.
    fn bind_member(
        &mut self,
        event: EventId,
        event_key: &str,
        verified: Option<bool>,
        member: &MemberRef,
    ) -> (result: Result<ContractId, String>)
        requires
            old(self).wf(),
            event.0 < old(self)@.events.len(),
        ensures
            final(self).wf(),
            final(self)@.events == old(self)@.events,
            match result {
                Ok(id) => bound(old(self)@, event, event_key@, verified, member@) == Ok::<
                    (RegistryView, ContractId),
                    Seq<char>,
                >((final(self)@, id)),
                Err(reason) => bound(old(self)@, event, event_key@, verified, member@) == Err::<
                    (RegistryView, ContractId),
                    Seq<char>,
                >(reason@),
            },
    {
        let (venue, key, side): (Venue, String, Side) = match member.resolve() {
            Ok(resolved) => resolved,
            Err(reason) => {
                return Err(reason);
            },
        };
        let contract: ContractId = match self.contracts().get(venue, key.as_str()) {
            Some(contract) => contract,
            None => {
                return Err("member was not interned".to_owned());
            },
        };
        match self.bound_event(contract) {
            Some((existing, other)) => {
                if existing == event {
                    return Ok(contract);
                }
                let mut out: String = "contract ".to_owned();
                let shown: String = text::quoted(key.as_str());
                out.append(shown.as_str());
                out.append(" appears under two events: ");
                let first: String = text::quoted(other);
                out.append(first.as_str());
                out.append(" and ");
                let second: String = text::quoted(event_key);
                out.append(second.as_str());
                return Err(out);
            },
            None => {},
        }
        let sure: bool = match verified {
            Some(verified) => verified,
            None => true,
        };
        self.bind(
            ContractBinding {
                contract_id: contract,
                venue,
                venue_ticker: key,
                event,
                side,
                verified: sure,
            },
        );
        Ok(contract)
    }

    /// What is wrong with the order of a ladder.
    fn check_ladder_order(group: &GroupEntry) -> (fault: Option<String>)
        requires
            forall|i: int|
                0 <= i < group.members@.len() ==> resolved((#[trigger] group.members@[i])@) is Ok,
        ensures
            match fault {
                Some(reason) => order_fault(group@.members) == Some(reason@),
                None => order_fault(group@.members) is None,
            },
    {
        let ghost all = group@.members;
        let mut keys: Vec<String> = Vec::new();
        let mut strikes: Vec<i64> = Vec::new();
        let mut i: usize = 0;
        while i < group.members.len()
            invariant
                i <= group.members@.len(),
                all == file::members_view(group.members@),
                forall|i: int|
                    0 <= i < group.members@.len() ==> resolved((#[trigger] group.members@[i])@)
                        is Ok,
                keys@.len() == i,
                strikes@.len() == i,
                forall|k: int|
                    0 <= k < i ==> (#[trigger] keys@[k])@ == key_of(all[k]) && strike(
                        key_of(all[k]),
                    ) == Some(strikes@[k]),
            decreases group.members@.len() - i,
        {
            let member: &MemberRef = &group.members[i];
            assert(all[i as int] == member@);
            match member.resolve() {
                Ok((_, key, _)) => {
                    match strike_hundredths(key.as_str()) {
                        Some(strike) => {
                            strikes.push(strike);
                            keys.push(key);
                        },
                        None => {
                            assert(strike(key_of(all[i as int])) is None);
                            return None;
                        },
                    }
                },
                Err(_) => {
                    assert(resolved(group.members@[i as int]@) is Ok);
                    return None;
                },
            }
            i = i + 1;
        }
        assert(all_struck(all)) by {
            assert forall|k: int| 0 <= k < all.len() implies strike(
                key_of(#[trigger] all[k]),
            ) is Some by {
                assert(keys@[k]@ == key_of(all[k]));
            }
        }
        let mut n: usize = 1;
        while n < strikes.len()
            invariant
                1 <= n,
                n <= strikes@.len() || strikes@.len() == 0,
                all.len() == strikes@.len(),
                keys@.len() == strikes@.len(),
                all == file::members_view(group.members@),
                all == group@.members,
                all_struck(all),
                forall|k: int|
                    0 <= k < all.len() ==> (#[trigger] keys@[k])@ == key_of(all[k]) && strike(
                        key_of(all[k]),
                    ) == Some(strikes@[k]),
                first_fall(all, n as int) is None,
            decreases strikes@.len() - n,
        {
            assert(keys@[n - 1]@ == key_of(all[n - 1]));
            assert(keys@[n as int]@ == key_of(all[n as int]));
            if strikes[n - 1] >= strikes[n] {
                assert(falls_at(all, n - 1));
                assert(first_fall(all, n + 1) == Some(n - 1));
                proof {
                    lemma_fall_prefix(all, n + 1, all.len() as int);
                }
                let mut out: String = "monotone ladder is not ascending by strike: ".to_owned();
                out.append(keys[n - 1].as_str());
                out.append(" then ");
                out.append(keys[n].as_str());
                return Some(out);
            }
            n = n + 1;
        }
        None
    }

    /// Bind the members of a group of the file and file the group.
    fn add_group(
        &mut self,
        event: EventId,
        event_key: &str,
        entry: &GroupEntry,
        resolves_at_ms: u64,
    ) -> (result: Result<(), String>)
        requires
            old(self).wf(),
            event.0 < old(self)@.events.len(),
        ensures
            final(self).wf(),
            final(self)@.events == old(self)@.events,
            match result {
                Ok(_) => grouped(old(self)@, event, event_key@, entry@, resolves_at_ms) == Ok::<
                    RegistryView,
                    Seq<char>,
                >(final(self)@),
                Err(reason) => grouped(old(self)@, event, event_key@, entry@, resolves_at_ms)
                    == Err::<RegistryView, Seq<char>>(reason@),
            },
    {
        let ghost start = self@;
        let ghost all = entry@.members;
        let mut ids: Vec<ContractId> = Vec::new();
        let mut i: usize = 0;
        assert(all.subrange(0, 0) =~= Seq::<MemberView>::empty());
        while i < entry.members.len()
            invariant
                i <= entry.members@.len(),
                all == file::members_view(entry.members@),
                all == entry@.members,
                start == old(self)@,
                self.wf(),
                self@.events == start.events,
                event.0 < start.events.len(),
                all_bound(start, event, event_key@, entry.verified, all.subrange(0, i as int))
                    == Ok::<(RegistryView, Seq<ContractId>), Seq<char>>((self@, ids@)),
                forall|k: int|
                    0 <= k < i ==> resolved((#[trigger] entry.members@[k])@) is Ok,
            decreases entry.members@.len() - i,
        {
            let ghost next = all.subrange(0, i + 1);
            proof {
                assert(next.drop_last() =~= all.subrange(0, i as int));
                assert(next.last() == entry.members@[i as int]@);
            }
            match self.bind_member(event, event_key, entry.verified, &entry.members[i]) {
                Ok(id) => ids.push(id),
                Err(reason) => {
                    proof {
                        lemma_bound_prefix(
                            start,
                            event,
                            event_key@,
                            entry.verified,
                            all,
                            i + 1,
                            reason@,
                        );
                    }
                    return Err(reason);
                },
            }
            i = i + 1;
        }
        assert(all.subrange(0, all.len() as int) =~= all);
        match relation_stated(entry, ids) {
            Ok(relation) => match self.push_group(relation, resolves_at_ms, false) {
                Ok(_) => Ok(()),
                Err(fault) => Err(fault.message()),
            },
            Err(reason) => Err(reason),
        }
    }
}

/// The relation that a group of the file states between its contracts.
fn relation_stated(entry: &GroupEntry, ids: Vec<ContractId>) -> (result: Result<Relation, String>)
    requires
        forall|k: int|
            0 <= k < entry.members@.len() ==> resolved((#[trigger] entry.members@[k])@) is Ok,
    ensures
        match result {
            Ok(relation) => stated(entry@, ids@) == Ok::<RelationView, Seq<char>>(relation@),
            Err(reason) => stated(entry@, ids@) == Err::<RelationView, Seq<char>>(reason@),
        },
{
    let kind: &str = entry.kind.as_str();
    let equivalent: bool = text::same(kind, "equivalent");
    if !equivalent && entry.verified.is_some() {
        let shown: String = text::quoted(kind);
        return Err(joined("group type ", shown.as_str(), " does not take a verified flag"));
    }
    if text::same(kind, "complement") {
        if ids.len() != 1 {
            return Err("complement takes exactly one member".to_owned());
        }
        return Ok(Relation::Complement { contract: ids[0] });
    }
    if text::same(kind, "exhaustive") {
        return Ok(Relation::Exhaustive { members: ids });
    }
    if text::same(kind, "monotone") {
        match Registry::check_ladder_order(entry) {
            Some(reason) => {
                return Err(reason);
            },
            None => {
                return Ok(Relation::Monotone { ordered: ids });
            },
        }
    }
    if text::same(kind, "implies") {
        if ids.len() != 2 {
            return Err("implies takes exactly two members, antecedent first".to_owned());
        }
        return Ok(Relation::Implies { antecedent: ids[0], consequent: ids[1] });
    }
    if equivalent {
        if ids.len() != 2 {
            return Err("equivalent takes exactly two members".to_owned());
        }
        return match entry.verified {
            Some(verified) => Ok(Relation::Equivalent { a: ids[0], b: ids[1], verified }),
            None => Err(
                "equivalent groups must state verified = true or verified = false".to_owned(),
            ),
        };
    }
    let shown: String = text::quoted(kind);
    Err(
        joined(
            "unknown group type ",
            shown.as_str(),
            "; expected complement, exhaustive, monotone, implies, or equivalent",
        ),
    )
}

// ---------------------------------------------------------------------------
// Events
// ---------------------------------------------------------------------------

/// A registry with more groups of one event.
pub open spec fn all_grouped(
    registry: RegistryView,
    event: EventId,
    event_key: Seq<char>,
    groups: Seq<GroupEntryView>,
    resolves_at_ms: u64,
) -> Result<RegistryView, Seq<char>>
    decreases groups.len(),
{
    if groups.len() == 0 {
        Ok(registry)
    } else {
        match all_grouped(registry, event, event_key, groups.drop_last(), resolves_at_ms) {
            Err(reason) => Err(reason),
            Ok(before) => match grouped(before, event, event_key, groups.last(), resolves_at_ms) {
                Err(reason) => Err(within(event_key, reason)),
                Ok(after) => Ok(after),
            },
        }
    }
}

/// A registry with one more event of the file, and its groups.
pub open spec fn with_entry(registry: RegistryView, entry: EventEntryView) -> Result<
    RegistryView,
    Seq<char>,
> {
    if registry.events.len() > u32::MAX {
        Err(out_of_numbers())
    } else if registry::event_named(registry.events, entry.id) is Some {
        Err("duplicate event id "@ + text::debug_text(entry.id))
    } else {
        match timestamp::instant(entry.resolves_at) {
            None => Err(
                within(
                    entry.id,
                    "resolves_at "@ + text::debug_text(entry.resolves_at) + " is not RFC3339"@,
                ),
            ),
            Some(resolves_at) => {
                let id = EventId(registry.events.len() as u32);
                let filed = registry.with_event(
                    EventView {
                        id,
                        key: entry.id,
                        description: entry.description,
                        resolves_at,
                        resolution_source: entry.resolution_source,
                        theme: entry.theme,
                        resolution_rules_hash: entry.resolution_rules_hash,
                    },
                );
                all_grouped(filed, id, entry.id, entry.groups, resolves_at.epoch_ms())
            },
        }
    }
}

/// A registry with more events of the file.
pub open spec fn with_entries(registry: RegistryView, entries: Seq<EventEntryView>) -> Result<
    RegistryView,
    Seq<char>,
>
    decreases entries.len(),
{
    if entries.len() == 0 {
        Ok(registry)
    } else {
        match with_entries(registry, entries.drop_last()) {
            Err(reason) => Err(reason),
            Ok(before) => with_entry(before, entries.last()),
        }
    }
}

proof fn lemma_grouped_prefix(
    registry: RegistryView,
    event: EventId,
    event_key: Seq<char>,
    groups: Seq<GroupEntryView>,
    resolves_at_ms: u64,
    n: int,
    reason: Seq<char>,
)
    requires
        0 < n <= groups.len(),
        all_grouped(registry, event, event_key, groups.subrange(0, n), resolves_at_ms) == Err::<
            RegistryView,
            Seq<char>,
        >(reason),
    ensures
        all_grouped(registry, event, event_key, groups, resolves_at_ms) == Err::<
            RegistryView,
            Seq<char>,
        >(reason),
    decreases groups.len(),
{
    if n == groups.len() {
        assert(groups.subrange(0, n) =~= groups);
    } else {
        assert(groups.drop_last().subrange(0, n) =~= groups.subrange(0, n));
        lemma_grouped_prefix(
            registry,
            event,
            event_key,
            groups.drop_last(),
            resolves_at_ms,
            n,
            reason,
        );
    }
}

proof fn lemma_entries_prefix(
    registry: RegistryView,
    entries: Seq<EventEntryView>,
    n: int,
    reason: Seq<char>,
)
    requires
        0 < n <= entries.len(),
        with_entries(registry, entries.subrange(0, n)) == Err::<RegistryView, Seq<char>>(reason),
    ensures
        with_entries(registry, entries) == Err::<RegistryView, Seq<char>>(reason),
    decreases entries.len(),
{
    if n == entries.len() {
        assert(entries.subrange(0, n) =~= entries);
    } else {
        assert(entries.drop_last().subrange(0, n) =~= entries.subrange(0, n));
        lemma_entries_prefix(registry, entries.drop_last(), n, reason);
    }
}

impl Registry {
    /// File the groups of one event.
    fn add_groups(
        &mut self,
        event: EventId,
        event_key: &str,
        groups: &[GroupEntry],
        resolves_at_ms: u64,
    ) -> (result: Result<(), String>)
        requires
            old(self).wf(),
            event.0 < old(self)@.events.len(),
        ensures
            final(self).wf(),
            match result {
                Ok(_) => all_grouped(
                    old(self)@,
                    event,
                    event_key@,
                    file::groups_view(groups@),
                    resolves_at_ms,
                ) == Ok::<RegistryView, Seq<char>>(final(self)@),
                Err(reason) => all_grouped(
                    old(self)@,
                    event,
                    event_key@,
                    file::groups_view(groups@),
                    resolves_at_ms,
                ) == Err::<RegistryView, Seq<char>>(reason@),
            },
    {
        let ghost start = self@;
        let ghost all = file::groups_view(groups@);
        let mut g: usize = 0;
        assert(all.subrange(0, 0) =~= Seq::<GroupEntryView>::empty());
        while g < groups.len()
            invariant
                g <= groups@.len(),
                all == file::groups_view(groups@),
                start == old(self)@,
                self.wf(),
                self@.events == start.events,
                event.0 < start.events.len(),
                all_grouped(start, event, event_key@, all.subrange(0, g as int), resolves_at_ms)
                    == Ok::<RegistryView, Seq<char>>(self@),
            decreases groups@.len() - g,
        {
            let ghost next = all.subrange(0, g + 1);
            proof {
                assert(next.drop_last() =~= all.subrange(0, g as int));
                assert(next.last() == groups@[g as int]@);
            }
            match self.add_group(event, event_key, &groups[g], resolves_at_ms) {
                Ok(_) => {},
                Err(reason) => {
                    let said: String = say_within(event_key, reason.as_str());
                    proof {
                        lemma_grouped_prefix(
                            start,
                            event,
                            event_key@,
                            all,
                            resolves_at_ms,
                            g + 1,
                            said@,
                        );
                    }
                    return Err(said);
                },
            }
            g = g + 1;
        }
        assert(all.subrange(0, all.len() as int) =~= all);
        Ok(())
    }

    /// File one event of the file, and its groups.
    fn add_entry(&mut self, entry: &EventEntry) -> (result: Result<(), String>)
        requires
            old(self).wf(),
        ensures
            final(self).wf(),
            match result {
                Ok(_) => with_entry(old(self)@, entry@) == Ok::<RegistryView, Seq<char>>(
                    final(self)@,
                ),
                Err(reason) => with_entry(old(self)@, entry@) == Err::<RegistryView, Seq<char>>(
                    reason@,
                ),
            },
    {
        if self.events().len() > u32::MAX as usize {
            return Err("out of range integral type conversion attempted".to_owned());
        }
        if self.event_by_key(entry.id.as_str()).is_some() {
            let shown: String = text::quoted(entry.id.as_str());
            let mut out: String = "duplicate event id ".to_owned();
            out.append(shown.as_str());
            return Err(out);
        }
        let resolves_at: Timestamp = match Timestamp::parse(entry.resolves_at.as_str()) {
            Some(at) => at,
            None => {
                let shown: String = text::quoted(entry.resolves_at.as_str());
                let reason: String = joined("resolves_at ", shown.as_str(), " is not RFC3339");
                return Err(say_within(entry.id.as_str(), reason.as_str()));
            },
        };
        match self.push_event(
            entry.id.as_str(),
            entry.description.as_str(),
            resolves_at,
            entry.resolution_source.as_str().to_owned(),
            text::copied(&entry.theme),
            entry.resolution_rules_hash,
        ) {
            Some(id) => self.add_groups(
                id,
                entry.id.as_str(),
                entry.groups.as_slice(),
                resolves_at.epoch_millis(),
            ),
            None => Err("out of range integral type conversion attempted".to_owned()),
        }
    }
}

// ---------------------------------------------------------------------------
// Partitions
// ---------------------------------------------------------------------------

/// A contract that stands in two exhaustive sets, and the two.
pub type Conflict = (ContractId, GroupId, GroupId);

/// Which set each contract stands in, after the members of one more.
pub open spec fn marked(
    seen: Map<u32, GroupId>,
    members: Seq<ContractId>,
    group: GroupId,
) -> Result<Map<u32, GroupId>, Conflict>
    decreases members.len(),
{
    if members.len() == 0 {
        Ok(seen)
    } else {
        match marked(seen, members.drop_last(), group) {
            Err(conflict) => Err(conflict),
            Ok(before) => if before.contains_key(members.last().0) {
                Err((members.last(), before[members.last().0], group))
            } else {
                Ok(before.insert(members.last().0, group))
            },
        }
    }
}

/// Which exhaustive set each contract stands in, or the first that stands in
/// two.
pub open spec fn partitioned(groups: Seq<GroupView>) -> Result<Map<u32, GroupId>, Conflict>
    decreases groups.len(),
{
    if groups.len() == 0 {
        Ok(Map::empty())
    } else {
        match partitioned(groups.drop_last()) {
            Err(conflict) => Err(conflict),
            Ok(before) => match groups.last().relation {
                RelationView::Exhaustive { members } => marked(before, members, groups.last().id),
                _ => Ok(before),
            },
        }
    }
}

/// What is wrong with the exhaustive sets.
///
/// Two sets sharing a contract are almost always a copy-paste error, and they
/// would double-count that contract's depth across groups.
pub open spec fn partition_fault(registry: RegistryView) -> Option<Seq<char>> {
    match partitioned(registry.groups) {
        Ok(_) => None,
        Err((contract, first, second)) => Some(
            "contract "@ + text::debug_text(
                if registry.bindings.contains_key(contract.0) {
                    registry.bindings[contract.0].venue_ticker
                } else {
                    "?"@
                },
            ) + " is in two exhaustive sets, groups "@ + text::decimal(first.0 as nat) + " and "@
                + text::decimal(second.0 as nat),
        ),
    }
}

proof fn lemma_marked_prefix(
    seen: Map<u32, GroupId>,
    members: Seq<ContractId>,
    group: GroupId,
    n: int,
)
    requires
        0 < n <= members.len(),
        marked(seen, members.subrange(0, n), group) is Err,
    ensures
        marked(seen, members, group) == marked(seen, members.subrange(0, n), group),
    decreases members.len(),
{
    if n == members.len() {
        assert(members.subrange(0, n) =~= members);
    } else {
        assert(members.drop_last().subrange(0, n) =~= members.subrange(0, n));
        lemma_marked_prefix(seen, members.drop_last(), group, n);
    }
}

proof fn lemma_partitioned_prefix(groups: Seq<GroupView>, n: int)
    requires
        0 < n <= groups.len(),
        partitioned(groups.subrange(0, n)) is Err,
    ensures
        partitioned(groups) == partitioned(groups.subrange(0, n)),
    decreases groups.len(),
{
    if n == groups.len() {
        assert(groups.subrange(0, n) =~= groups);
    } else {
        assert(groups.drop_last().subrange(0, n) =~= groups.subrange(0, n));
        lemma_partitioned_prefix(groups.drop_last(), n);
    }
}

impl Registry {
    /// What is wrong with the exhaustive sets.
    pub(crate) fn check_no_conflicting_partitions(&self) -> (fault: Option<String>)
        requires
            self.wf(),
        ensures
            match fault {
                Some(reason) => partition_fault(self@) == Some(reason@),
                None => partition_fault(self@) is None,
            },
    {
        broadcast use vstd::std_specs::hash::group_hash_axioms;

        let ghost all = self@.groups;
        let groups = self.groups();
        let mut seen: HashMap<u32, GroupId> = HashMap::new();
        let mut g: usize = 0;
        assert(all.subrange(0, 0) =~= Seq::<GroupView>::empty());
        assert(seen@ =~= Map::<u32, GroupId>::empty());
        while g < groups.len()
            invariant
                g <= groups@.len(),
                all == self@.groups,
                all == groups@.map_values(|g: super::ConstraintGroup| g@),
                partitioned(all.subrange(0, g as int)) == Ok::<Map<u32, GroupId>, Conflict>(seen@),
            decreases groups@.len() - g,
        {
            broadcast use vstd::std_specs::hash::group_hash_axioms;

            let ghost next = all.subrange(0, g + 1);
            proof {
                assert(next.drop_last() =~= all.subrange(0, g as int));
                assert(next.last() == groups@[g as int]@);
            }
            let id: GroupId = groups[g].id;
            let ghost start = seen@;
            match &groups[g].relation {
                Relation::Exhaustive { members } => {
                    let mut m: usize = 0;
                    assert(members@.subrange(0, 0) =~= Seq::<ContractId>::empty());
                    assert(next.last().relation == RelationView::Exhaustive { members: members@ });
                    while m < members.len()
                        invariant
                            m <= members@.len(),
                            g < groups@.len(),
                            all == self@.groups,
                            all.len() == groups@.len(),
                            next == all.subrange(0, g + 1),
                            next.drop_last() == all.subrange(0, g as int),
                            next.last().relation == (RelationView::Exhaustive { members: members@ }),
                            next.last().id == id,
                            partitioned(all.subrange(0, g as int)) == Ok::<
                                Map<u32, GroupId>,
                                Conflict,
                            >(start),
                            marked(start, members@.subrange(0, m as int), id) == Ok::<
                                Map<u32, GroupId>,
                                Conflict,
                            >(seen@),
                        decreases members@.len() - m,
                    {
                        broadcast use vstd::std_specs::hash::group_hash_axioms;

                        let contract: ContractId = members[m];
                        proof {
                            let more = members@.subrange(0, m + 1);
                            assert(more.drop_last() =~= members@.subrange(0, m as int));
                            assert(more.last() == contract);
                        }
                        match seen.get(&contract.0) {
                            Some(previous) => {
                                let previous: GroupId = *previous;
                                proof {
                                    lemma_marked_prefix(start, members@, id, m + 1);
                                    lemma_partitioned_prefix(all, g + 1);
                                }
                                return Some(self.say_conflict(contract, previous, id));
                            },
                            None => {},
                        }
                        seen.insert(contract.0, id);
                        m = m + 1;
                    }
                    assert(members@.subrange(0, members@.len() as int) =~= members@);
                },
                _ => {},
            }
            g = g + 1;
        }
        assert(all.subrange(0, all.len() as int) =~= all);
        None
    }

    /// What is said of a contract in two exhaustive sets.
    fn say_conflict(&self, contract: ContractId, first: GroupId, second: GroupId) -> (out: String)
        ensures
            out@ == "contract "@ + text::debug_text(
                if self@.bindings.contains_key(contract.0) {
                    self@.bindings[contract.0].venue_ticker
                } else {
                    "?"@
                },
            ) + " is in two exhaustive sets, groups "@ + text::decimal(first.0 as nat) + " and "@
                + text::decimal(second.0 as nat),
    {
        let ticker: &str = match self.binding(contract) {
            Some(binding) => binding.venue_ticker.as_str(),
            None => "?",
        };
        let shown: String = text::quoted(ticker);
        let mut out: String = joined(
            "contract ",
            shown.as_str(),
            " is in two exhaustive sets, groups ",
        );
        text::push_u64(&mut out, first.0 as u64);
        out.append(" and ");
        text::push_u64(&mut out, second.0 as u64);
        out
    }
}

// ---------------------------------------------------------------------------
// The file
// ---------------------------------------------------------------------------

/// The registry that the entries of a file build, or what is wrong with them.
pub open spec fn loaded(entries: Seq<EventEntryView>) -> Result<RegistryView, Seq<char>> {
    if entries.len() == 0 {
        Err("registry defines no events"@)
    } else {
        match all_named(entries) {
            Err(reason) => Err(reason),
            Ok(registry) => match with_entries(registry, entries) {
                Err(reason) => Err(reason),
                Ok(registry) => match partition_fault(registry) {
                    Some(reason) => Err(reason),
                    None => Ok(registry),
                },
            },
        }
    }
}

impl Registry {
    /// Load the constraint graph from the text of a registry file.
    pub fn parse(text: &str) -> (result: Result<Self, String>)
        ensures
            match file::file_in(text@) {
                Err(reason) => result matches Err(said) && said@ == reason,
                Ok(entries) => match loaded(entries) {
                    Ok(view) => result matches Ok(registry) && registry@ == view && registry.wf(),
                    Err(reason) => result matches Err(said) && said@ == reason,
                },
            },
    {
        match read_file(text) {
            Ok(entries) => Registry::from_entries(entries.as_slice()),
            Err(reason) => Err(reason),
        }
    }

    /// Build the constraint graph from the entries of a registry file.
    pub fn from_entries(entries: &[EventEntry]) -> (result: Result<Self, String>)
        ensures
            match loaded(file::entries_view(entries@)) {
                Ok(view) => result matches Ok(registry) && registry@ == view && registry.wf(),
                Err(reason) => result matches Err(said) && said@ == reason,
            },
    {
        let ghost all = file::entries_view(entries@);
        if entries.len() == 0 {
            return Err("registry defines no events".to_owned());
        }
        let mut registry: Registry = Registry::default();
        let members: Vec<(&str, &MemberRef)> = list_members(entries);
        match registry.name_members(members.as_slice(), Venue::Kalshi) {
            Ok(_) => {},
            Err(reason) => {
                return Err(reason);
            },
        }
        match registry.name_members(members.as_slice(), Venue::Polymarket) {
            Ok(_) => {},
            Err(reason) => {
                return Err(reason);
            },
        }
        let ghost start = registry@;
        let mut e: usize = 0;
        assert(all.subrange(0, 0) =~= Seq::<EventEntryView>::empty());
        while e < entries.len()
            invariant
                e <= entries@.len(),
                all == file::entries_view(entries@),
                all.len() > 0,
                all_named(all) == Ok::<RegistryView, Seq<char>>(start),
                registry.wf(),
                with_entries(start, all.subrange(0, e as int)) == Ok::<RegistryView, Seq<char>>(
                    registry@,
                ),
            decreases entries@.len() - e,
        {
            let ghost next = all.subrange(0, e + 1);
            proof {
                assert(next.drop_last() =~= all.subrange(0, e as int));
                assert(next.last() == entries@[e as int]@);
            }
            match registry.add_entry(&entries[e]) {
                Ok(_) => {},
                Err(reason) => {
                    proof {
                        lemma_entries_prefix(start, all, e + 1, reason@);
                    }
                    return Err(reason);
                },
            }
            e = e + 1;
        }
        assert(all.subrange(0, all.len() as int) =~= all);
        match registry.check_no_conflicting_partitions() {
            Some(reason) => Err(reason),
            None => Ok(registry),
        }
    }
}

// ---------------------------------------------------------------------------
// Against the venue
// ---------------------------------------------------------------------------

/// Membership test for whatever collection the caller fetched metadata into.
pub trait Contains {
    spec fn lists(&self, ticker: Seq<char>) -> bool;

    fn contains_ticker(&self, ticker: &str) -> (yes: bool)
        ensures
            yes == self.lists(ticker@),
    ;
}

impl Contains for StringHashSet {
    open spec fn lists(&self, ticker: Seq<char>) -> bool {
        self@.contains(ticker)
    }

    fn contains_ticker(&self, ticker: &str) -> (yes: bool) {
        self.contains(ticker)
    }
}

impl Contains for [String] {
    open spec fn lists(&self, ticker: Seq<char>) -> bool {
        text::views(self@).contains(ticker)
    }

    fn contains_ticker(&self, ticker: &str) -> (yes: bool) {
        text::holds(self, ticker)
    }
}

impl Registry {
    /// Names in the registry that the venue does not list, for one venue.
    ///
    /// Separate from loading because it needs metadata the caller fetched.
    /// A missing ticker is a configuration error, not a runtime one: the engine
    /// would subscribe to a market that does not exist and wait forever for a
    /// snapshot that never arrives.
    pub fn validate_against_markets<S: Contains + ?Sized>(
        &self,
        venue: Venue,
        available: &S,
    ) -> (missing: Vec<&str>)
        requires
            self.wf(),
        ensures
            missing@.map_values(|t: &str| t@) == registry::tickers_of(self@.names, venue).filter(
                |t: Seq<char>| !available.lists(t),
            ),
    {
        let tickers: &[String] = self.tickers(venue);
        let ghost all = text::views(tickers@);
        let ghost absent = |t: Seq<char>| !available.lists(t);
        let ghost say = |t: &str| t@;
        let mut missing: Vec<&str> = Vec::new();
        let mut i: usize = 0;
        proof {
            reveal(Seq::filter);
            assert(all.subrange(0, 0) =~= Seq::<Seq<char>>::empty());
            assert(missing@.map_values(say) =~= Seq::<Seq<char>>::empty());
        }
        while i < tickers.len()
            invariant
                i <= tickers@.len(),
                all == text::views(tickers@),
                absent == (|t: Seq<char>| !available.lists(t)),
                say == (|t: &str| t@),
                missing@.map_values(say) == all.subrange(0, i as int).filter(absent),
            decreases tickers@.len() - i,
        {
            let ticker: &str = tickers[i].as_str();
            proof {
                let done = all.subrange(0, i as int);
                assert(all.subrange(0, i + 1) =~= done.push(ticker@));
                done.lemma_filter_push(ticker@, absent);
            }
            if !available.contains_ticker(ticker) {
                let ghost before = missing@;
                missing.push(ticker);
                assert(missing@.map_values(say) =~= before.map_values(say).push(ticker@));
            }
            i = i + 1;
        }
        assert(all.subrange(0, all.len() as int) =~= all);
        missing
    }
}

} // verus!
