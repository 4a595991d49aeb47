//! What a registry file writes down, and what a venue lists, as the registry
//! holds it.
use vstd::prelude::*;
use crate::discovery::inference;
use crate::discovery::inference::{InferredKind, InferredView};
use crate::discovery::polymarket::PolymarketView;
use crate::discovery::MarketView;
use crate::registry;
use crate::registry::discovered;
use crate::registry::file::{EventEntryView, GroupEntryView, MemberView};
use crate::registry::load;
use crate::registry::{
    EventId, EventView, GroupId, GroupView, RegistryError, RegistryView, RelationView,
};
use crate::text;
use crate::timestamp;
use crate::types;
use crate::types::laws::fixed;
use crate::types::{ContractId, Instrument, Side, Venue};

verus! {

// ---------------------------------------------------------------------------
// Members
// ---------------------------------------------------------------------------

/// A member that names an instrument: one of the two venues, one identifier that
/// is not blank, and an outcome, Yes where none is written.
pub open spec fn names_instrument(
    member: MemberView,
    venue: Venue,
    key: Seq<char>,
    side: Side,
) -> bool {
    &&& match venue {
        Venue::Kalshi => member.venue == "kalshi"@,
        Venue::Polymarket => member.venue == "polymarket"@,
    }
    &&& member.ticker == Some(key) && member.token is None || member.token == Some(key)
        && member.ticker is None
    &&& text::trimmed(key).len() > 0
    &&& match side {
        Side::Yes => member.side is None || member.side == Some("yes"@),
        Side::No => member.side == Some("no"@),
    }
}

proof fn lemma_words()
    ensures
        "kalshi"@ != "polymarket"@,
        "yes"@ != "no"@,
{
    reveal_strlit("kalshi");
    reveal_strlit("polymarket");
    reveal_strlit("yes");
    reveal_strlit("no");
    assert("kalshi"@.len() != "polymarket"@.len());
    assert("yes"@.len() != "no"@.len());
}

/// A member is read as the instrument that it names, and refused where it names
/// none.
pub proof fn a_member_is_the_instrument_it_names(
    member: MemberView,
    venue: Venue,
    key: Seq<char>,
    side: Side,
)
    ensures
        load::resolved(member) == Ok::<load::Resolved, Seq<char>>((venue, key, side))
            <==> names_instrument(member, venue, key, side),
{
    lemma_words();
}

/// The strike in a ticker is the number behind its last dash, in hundredths, with
/// or without a T before it.
pub proof fn a_strike_is_read_off_the_ticker(
    head: Seq<char>,
    lettered: bool,
    whole: nat,
    tenths: int,
    hundredths: int,
    rest: Seq<char>,
)
    requires
        0 <= tenths <= 9,
        0 <= hundredths <= 9,
        text::all_digits(rest),
        100 * whole + 10 * tenths + hundredths <= i64::MAX,
    ensures
        load::strike(
            head + (if lettered {
                seq!['-', 'T']
            } else {
                seq!['-']
            }) + fixed(whole, tenths, hundredths, rest),
        ) == Some((100 * whole + 10 * tenths + hundredths) as i64),
{
    let tail = fixed(whole, tenths, hundredths, rest);
    let mark = if lettered {
        seq!['-', 'T']
    } else {
        seq!['-']
    };
    let ticker = head + mark + tail;
    let behind = if lettered {
        seq!['T'] + tail
    } else {
        tail
    };
    types::laws::lemma_fixed(whole, tenths, hundredths, rest);
    text::a_written_number_reads_back(whole);
    let front = text::decimal(whole);
    let at = head.len() as int;
    assert(ticker[at] == '-');
    assert forall|j: int| at < j < ticker.len() implies #[trigger] ticker[j] != '-' by {
        let k = j - at - mark.len();
        if k >= 0 {
            assert(ticker[j] == tail[k]);
            if k < front.len() {
                assert(tail[k] == front[k]);
                assert(text::is_digit(front[k]));
            } else if k >= front.len() + 3 {
                assert(tail[k] == rest[k - front.len() - 3]);
                assert(text::is_digit(rest[k - front.len() - 3]));
            } else {
                text::lemma_digit_char(tenths);
                text::lemma_digit_char(hundredths);
            }
        }
    }
    lemma_last_index(ticker, '-', at);
    assert(ticker.subrange(at + 1, ticker.len() as int) =~= behind);
    assert(tail[0] == front[0]);
    assert(text::is_digit(front[0]));
    if lettered {
        assert(behind.drop_first() =~= tail);
    }
}

proof fn lemma_last_index(s: Seq<char>, c: char, at: int)
    requires
        0 <= at < s.len(),
        s[at] == c,
        forall|j: int| at < j < s.len() ==> #[trigger] s[j] != c,
    ensures
        text::last_index(s, c) == at,
    decreases s.len(),
{
    if at < s.len() - 1 {
        assert(s[s.len() - 1] != c);
        let front = s.drop_last();
        assert forall|j: int| at < j < front.len() implies #[trigger] front[j] != c by {
            assert(front[j] == s[j]);
        }
        lemma_last_index(front, c, at);
    }
}

// ---------------------------------------------------------------------------
// Groups
// ---------------------------------------------------------------------------

proof fn lemma_kinds()
    ensures
        "complement"@ != "exhaustive"@,
        "complement"@ != "monotone"@,
        "complement"@ != "implies"@,
        "complement"@ != "equivalent"@,
        "exhaustive"@ != "monotone"@,
        "exhaustive"@ != "implies"@,
        "exhaustive"@ != "equivalent"@,
        "monotone"@ != "implies"@,
        "monotone"@ != "equivalent"@,
        "implies"@ != "equivalent"@,
{
    reveal_strlit("complement");
    reveal_strlit("exhaustive");
    reveal_strlit("monotone");
    reveal_strlit("implies");
    reveal_strlit("equivalent");
    assert("complement"@[0] == 'c' && "exhaustive"@[0] == 'e' && "monotone"@[0] == 'm'
        && "implies"@[0] == 'i' && "equivalent"@[0] == 'e');
    assert("exhaustive"@[1] == 'x' && "equivalent"@[1] == 'q');
}

/// The strikes of two neighbours do not rise.
pub open spec fn sinks(members: Seq<MemberView>, i: int) -> bool {
    load::strike(load::key_of(members[i]))->0 >= load::strike(load::key_of(members[i + 1]))->0
}

/// Two neighbours whose strikes do not rise, in a ladder whose strikes can all be
/// read.
pub open spec fn misordered(members: Seq<MemberView>) -> bool {
    &&& forall|i: int|
        0 <= i < members.len() ==> load::strike(load::key_of(#[trigger] members[i])) is Some
    &&& exists|i: int| 0 <= i < members.len() - 1 && #[trigger] sinks(members, i)
}

proof fn lemma_fall(members: Seq<MemberView>, n: int)
    requires
        n <= members.len(),
    ensures
        load::first_fall(members, n) is Some <==> exists|i: int|
            0 <= i < n - 1 && #[trigger] sinks(members, i),
    decreases n,
{
    if n >= 2 {
        lemma_fall(members, n - 1);
        assert(load::falls_at(members, n - 2) == sinks(members, n - 2));
    }
}

/// A group relates its members as its kind says, in the order in which they are
/// written: what an implication starts from comes first, and a ladder's weakest
/// claim. Only an equivalence says whether somebody verified it, and it has to.
pub proof fn a_group_relates_its_members_as_written(group: GroupEntryView, ids: Seq<ContractId>)
    ensures
        match load::stated(group, ids) {
            Ok(RelationView::Complement { contract }) => group.kind == "complement"@ && ids.len()
                == 1 && ids[0] == contract && group.verified is None,
            Ok(RelationView::Exhaustive { members }) => group.kind == "exhaustive"@ && members
                == ids && group.verified is None,
            Ok(RelationView::Monotone { ordered }) => group.kind == "monotone"@ && ordered == ids
                && group.verified is None && !misordered(group.members),
            Ok(RelationView::Implies { antecedent, consequent }) => group.kind == "implies"@
                && ids.len() == 2 && antecedent == ids[0] && consequent == ids[1]
                && group.verified is None,
            Ok(RelationView::Equivalent { a, b, verified }) => group.kind == "equivalent"@
                && ids.len() == 2 && a == ids[0] && b == ids[1] && group.verified == Some(
                verified,
            ),
            Err(_) => {
                ||| group.kind == "complement"@ && (ids.len() != 1 || group.verified is Some)
                ||| group.kind == "exhaustive"@ && group.verified is Some
                ||| group.kind == "monotone"@ && (misordered(group.members) || group.verified
                    is Some)
                ||| group.kind == "implies"@ && (ids.len() != 2 || group.verified is Some)
                ||| group.kind == "equivalent"@ && (ids.len() != 2 || group.verified is None)
                ||| group.kind != "complement"@ && group.kind != "exhaustive"@ && group.kind
                    != "monotone"@ && group.kind != "implies"@ && group.kind != "equivalent"@
            },
        },
{
    lemma_kinds();
    lemma_fall(group.members, group.members.len() as int);
}

proof fn lemma_repeat(members: Seq<ContractId>, n: int)
    requires
        0 <= n <= members.len(),
    ensures
        match registry::first_repeat(members, n) {
            Some(contract) => exists|i: int, j: int|
                0 <= i < j < n && #[trigger] members[i] == contract && #[trigger] members[j]
                    == contract,
            None => forall|i: int, j: int|
                0 <= i < j < n ==> #[trigger] members[i] != #[trigger] members[j],
        },
    decreases n,
{
    if n > 0 {
        lemma_repeat(members, n - 1);
        let before = members.subrange(0, n - 1);
        if before.contains(members[n - 1]) {
            let i = choose|i: int| 0 <= i < before.len() && before[i] == members[n - 1];
            assert(members[i] == members[n - 1]);
        } else {
            assert forall|i: int| 0 <= i < n - 1 implies #[trigger] members[i] != members[n
                - 1] by {
                assert(before[i] == members[i]);
                assert(before.contains(before[i]));
            }
        }
    }
}

/// A relation makes a group exactly where it relates two contracts at least, or
/// is a complement, and names none twice.
pub proof fn a_group_names_nobody_twice(relation: RelationView, id: GroupId)
    ensures
        ({
            let members = relation.members();
            let few = members.len() < 2 && !(relation is Complement);
            let distinct = forall|i: int, j: int|
                0 <= i < j < members.len() ==> #[trigger] members[i] != #[trigger] members[j];
            match registry::relation_fault(relation, id) {
                None => !few && distinct,
                Some(RegistryError::TooFewMembers { group, .. }) => few && group == id,
                Some(RegistryError::DuplicateMember { group, contract }) => !few && group == id
                    && exists|i: int, j: int|
                    0 <= i < j < members.len() && #[trigger] members[i] == contract
                        && #[trigger] members[j] == contract,
            }
        }),
{
    lemma_repeat(relation.members(), relation.members().len() as int);
}

/// A contract is bound to its event under its own name.
pub open spec fn is_bound(
    registry: RegistryView,
    contract: ContractId,
    event: EventId,
) -> bool {
    registry.bindings.contains_key(contract.0) && registry.bindings[contract.0].event == event
}

proof fn lemma_bound(
    before: RegistryView,
    event: EventId,
    key: Seq<char>,
    verified: Option<bool>,
    members: Seq<MemberView>,
)
    ensures
        load::all_bound(before, event, key, verified, members) matches Ok((after, ids)) ==> {
            &&& ids.len() == members.len()
            &&& after.names == before.names && after.events == before.events && after.groups
                == before.groups
            &&& forall|i: int|
                0 <= i < members.len() ==> (load::resolved(#[trigger] members[i]) matches Ok(
                    (venue, name, _),
                ) && types::lookup(before.names, venue, name) == Some(ids[i])) && is_bound(
                    after,
                    ids[i],
                    event,
                )
            &&& forall|c: u32| #[trigger]
                before.bindings.contains_key(c) ==> after.bindings.contains_key(c)
                    && after.bindings[c] == before.bindings[c]
            &&& forall|c: u32| #[trigger]
                after.bindings.contains_key(c) && !before.bindings.contains_key(c) ==> {
                    let made = after.bindings[c];
                    &&& made.contract_id.0 == c
                    &&& made.event == event
                    &&& made.verified == (verified != Some(false))
                    &&& types::lookup(before.names, made.venue, made.venue_ticker) == Some(
                        made.contract_id,
                    )
                }
        },
    decreases members.len(),
{
    if members.len() > 0 {
        let front = members.drop_last();
        lemma_bound(before, event, key, verified, front);
        if let Ok((after, ids)) = load::all_bound(before, event, key, verified, members) {
            let (middle, some) = load::all_bound(before, event, key, verified, front)->Ok_0;
            assert forall|i: int| 0 <= i < members.len() implies (load::resolved(
                #[trigger] members[i],
            ) matches Ok((venue, name, _)) && types::lookup(before.names, venue, name) == Some(
                ids[i],
            )) && is_bound(after, ids[i], event) by {
                if i < front.len() {
                    assert(front[i] == members[i]);
                    assert(ids[i] == some[i]);
                    assert(is_bound(middle, some[i], event));
                }
            }
            assert forall|c: u32| #[trigger] before.bindings.contains_key(c) implies
                after.bindings.contains_key(c) && after.bindings[c] == before.bindings[c] by {
                assert(middle.bindings.contains_key(c));
            }
        }
    }
}

/// A written group is filed last, under the next number, as what it states of the
/// contracts that its members name: each found under its own name and bound to
/// the event, and none bound before is bound anew.
pub proof fn a_written_group_is_filed(
    before: RegistryView,
    event: EventId,
    key: Seq<char>,
    group: GroupEntryView,
    resolves_at_ms: u64,
)
    requires
        before.groups.len() <= u32::MAX,
    ensures
        load::grouped(before, event, key, group, resolves_at_ms) matches Ok(after) ==> {
            let filed = after.groups.last();
            &&& after.groups.len() == before.groups.len() + 1
            &&& after.groups.drop_last() == before.groups
            &&& filed.id.0 == before.groups.len()
            &&& filed.resolves_at_ms == resolves_at_ms
            &&& !filed.inferred
            &&& after.names == before.names && after.events == before.events
            &&& filed.relation.members().len() == group.members.len()
            &&& forall|i: int|
                0 <= i < group.members.len() ==> (load::resolved(
                    #[trigger] group.members[i],
                ) matches Ok((venue, name, _)) && types::lookup(before.names, venue, name) == Some(
                    filed.relation.members()[i],
                )) && is_bound(after, filed.relation.members()[i], event)
            &&& load::stated(group, filed.relation.members()) == Ok::<RelationView, Seq<char>>(
                filed.relation,
            )
            &&& forall|c: u32| #[trigger]
                before.bindings.contains_key(c) ==> after.bindings.contains_key(c)
                    && after.bindings[c] == before.bindings[c]
            &&& forall|c: u32| #[trigger]
                after.bindings.contains_key(c) && !before.bindings.contains_key(c) ==> {
                    let made = after.bindings[c];
                    &&& made.contract_id.0 == c
                    &&& made.event == event
                    &&& made.verified == (group.verified != Some(false))
                    &&& types::lookup(before.names, made.venue, made.venue_ticker) == Some(
                        made.contract_id,
                    )
                }
        },
{
    lemma_bound(before, event, key, group.verified, group.members);
    if let Ok(after) = load::grouped(before, event, key, group, resolves_at_ms) {
        let (bound, ids) = load::all_bound(
            before,
            event,
            key,
            group.verified,
            group.members,
        )->Ok_0;
        let relation = load::stated(group, ids)->Ok_0;
        a_group_relates_its_members_as_written(group, ids);
        assert(relation.members() =~= ids);
        assert(after.groups.drop_last() =~= before.groups);
    }
}

/// An entry becomes the next event, as it is written, at the instant that it
/// names, and is refused where the event is there already.
pub proof fn an_entry_becomes_its_event(before: RegistryView, entry: EventEntryView)
    requires
        entry.groups.len() == 0,
    ensures
        match load::with_entry(before, entry) {
            Ok(after) => {
                let made = after.events.last();
                &&& after.events.len() == before.events.len() + 1
                &&& after.events.drop_last() == before.events
                &&& made.id.0 == before.events.len()
                &&& made.key == entry.id
                &&& made.description == entry.description
                &&& Some(made.resolves_at) == timestamp::instant(entry.resolves_at)
                &&& made.resolution_source == entry.resolution_source
                &&& made.theme == entry.theme
                &&& made.resolution_rules_hash == entry.resolution_rules_hash
                &&& forall|i: int|
                    0 <= i < before.events.len() ==> (#[trigger] before.events[i]).key != entry.id
                &&& after.names == before.names && after.bindings == before.bindings
                    && after.groups == before.groups
            },
            Err(_) => before.events.len() > u32::MAX || timestamp::instant(entry.resolves_at)
                is None || exists|i: int|
                0 <= i < before.events.len() && (#[trigger] before.events[i]).key == entry.id,
        },
{
    lemma_event_key(before.events, entry.id);
    if let Ok(after) = load::with_entry(before, entry) {
        assert(after.events.drop_last() =~= before.events);
    }
}

proof fn lemma_event_key(events: Seq<EventView>, key: Seq<char>)
    ensures
        match registry::event_named(events, key) {
            Some(i) => 0 <= i < events.len() && events[i].key == key,
            None => forall|i: int| 0 <= i < events.len() ==> (#[trigger] events[i]).key != key,
        },
    decreases events.len(),
{
    if events.len() > 0 {
        lemma_event_key(events.drop_last(), key);
        assert forall|i: int| 0 <= i < events.drop_last().len() implies #[trigger] events[i]
            == events.drop_last()[i] by {}
    }
}

// ---------------------------------------------------------------------------
// Partitions
// ---------------------------------------------------------------------------

/// A contract belongs to one of the partitions among the first `n` groups.
pub open spec fn is_partitioned(groups: Seq<GroupView>, n: int, contract: u32) -> bool {
    exists|g: int, m: int|
        0 <= g < n && groups[g].relation is Exhaustive && 0 <= m
            < groups[g].relation.members().len() && (#[trigger] groups[g].relation.members()[m]).0
            == contract
}

proof fn lemma_marked(seen: Map<u32, GroupId>, members: Seq<ContractId>, group: GroupId)
    requires
        forall|i: int, j: int|
            0 <= i < j < members.len() ==> #[trigger] members[i] != #[trigger] members[j],
        forall|i: int|
            0 <= i < members.len() ==> !seen.contains_key((#[trigger] members[i]).0),
    ensures
        load::marked(seen, members, group) matches Ok(after) && forall|c: u32| #[trigger]
            after.contains_key(c) <==> seen.contains_key(c) || exists|i: int|
                0 <= i < members.len() && (#[trigger] members[i]).0 == c,
    decreases members.len(),
{
    if members.len() > 0 {
        let front = members.drop_last();
        let n = members.len() - 1;
        assert forall|i: int, j: int| 0 <= i < j < front.len() implies #[trigger] front[i]
            != #[trigger] front[j] by {
            assert(front[i] == members[i] && front[j] == members[j]);
        }
        assert forall|i: int| 0 <= i < front.len() implies !seen.contains_key(
            (#[trigger] front[i]).0,
        ) by {
            assert(front[i] == members[i]);
        }
        lemma_marked(seen, front, group);
        let before = load::marked(seen, front, group)->Ok_0;
        assert(!before.contains_key(members[n].0)) by {
            if before.contains_key(members[n].0) {
                let i = choose|i: int| 0 <= i < front.len() && (#[trigger] front[i]).0 == members[n].0;
                assert(members[i] == members[n]);
            }
        }
        let after = load::marked(seen, members, group)->Ok_0;
        assert forall|c: u32| #[trigger] after.contains_key(c) <==> seen.contains_key(c) || exists|
            i: int,
        |
            0 <= i < members.len() && (#[trigger] members[i]).0 == c by {
            if before.contains_key(c) && !seen.contains_key(c) {
                let i = choose|i: int| 0 <= i < front.len() && (#[trigger] front[i]).0 == c;
                assert(members[i].0 == c);
            }
            if c == members[n].0 {
                assert(members[n].0 == c);
            }
            if exists|i: int| 0 <= i < members.len() && (#[trigger] members[i]).0 == c {
                let i = choose|i: int| 0 <= i < members.len() && (#[trigger] members[i]).0 == c;
                if i < n {
                    assert(front[i].0 == c);
                }
            }
        }
    }
}

proof fn lemma_partitioned(groups: Seq<GroupView>, n: int)
    requires
        0 <= n <= groups.len(),
        forall|g: int, i: int, j: int|
            0 <= g < groups.len() && groups[g].relation is Exhaustive && 0 <= i < j
                < groups[g].relation.members().len() ==> #[trigger] groups[g].relation.members()[i]
                != #[trigger] groups[g].relation.members()[j],
        forall|g: int, h: int, i: int, j: int|
            0 <= g < h < groups.len() && groups[g].relation is Exhaustive && groups[h].relation
                is Exhaustive && 0 <= i < groups[g].relation.members().len() && 0 <= j
                < groups[h].relation.members().len() ==> #[trigger] groups[g].relation.members()[i]
                != #[trigger] groups[h].relation.members()[j],
    ensures
        load::partitioned(groups.subrange(0, n)) matches Ok(seen) && forall|c: u32| #[trigger]
            seen.contains_key(c) <==> is_partitioned(groups, n, c),
    decreases n,
{
    let some = groups.subrange(0, n);
    if n > 0 {
        lemma_partitioned(groups, n - 1);
        assert(some.drop_last() =~= groups.subrange(0, n - 1));
        let before = load::partitioned(groups.subrange(0, n - 1))->Ok_0;
        let last = groups[n - 1];
        assert(some.last() == last);
        if let RelationView::Exhaustive { members } = last.relation {
            assert(members == last.relation.members());
            assert forall|i: int, j: int| 0 <= i < j < members.len() implies #[trigger] members[i]
                != #[trigger] members[j] by {
                assert(groups[n - 1].relation.members()[i] != groups[n - 1].relation.members()[j]);
            }
            assert forall|i: int| 0 <= i < members.len() implies !before.contains_key(
                (#[trigger] members[i]).0,
            ) by {
                if before.contains_key(members[i].0) {
                    let (g, m) = choose|g: int, m: int|
                        0 <= g < n - 1 && groups[g].relation is Exhaustive && 0 <= m
                            < groups[g].relation.members().len() && (
                        #[trigger] groups[g].relation.members()[m]).0 == members[i].0;
                    assert(groups[g].relation.members()[m] != groups[n - 1].relation.members()[i]);
                }
            }
            lemma_marked(before, members, last.id);
        }
        let seen = load::partitioned(some)->Ok_0;
        assert forall|c: u32| #[trigger] seen.contains_key(c) <==> is_partitioned(groups, n, c) by {
            if is_partitioned(groups, n - 1, c) {
                let (g, m) = choose|g: int, m: int|
                    0 <= g < n - 1 && groups[g].relation is Exhaustive && 0 <= m
                        < groups[g].relation.members().len() && (
                    #[trigger] groups[g].relation.members()[m]).0 == c;
                assert(groups[g].relation.members()[m].0 == c);
            }
            if let RelationView::Exhaustive { members } = last.relation {
                if exists|i: int| 0 <= i < members.len() && (#[trigger] members[i]).0 == c {
                    let i = choose|i: int|
                        0 <= i < members.len() && (#[trigger] members[i]).0 == c;
                    assert(groups[n - 1].relation.members()[i].0 == c);
                }
            }
            if is_partitioned(groups, n, c) {
                let (g, m) = choose|g: int, m: int|
                    0 <= g < n && groups[g].relation is Exhaustive && 0 <= m
                        < groups[g].relation.members().len() && (
                    #[trigger] groups[g].relation.members()[m]).0 == c;
                if g < n - 1 {
                    assert(is_partitioned(groups, n - 1, c));
                } else {
                    assert(last.relation->Exhaustive_members[m].0 == c);
                }
            }
        }
    } else {
        assert(some =~= Seq::<GroupView>::empty());
    }
}

/// Partitions that share no contract are no conflict.
pub proof fn partitions_that_share_nothing_agree(registry: RegistryView)
    requires
        forall|g: int, i: int, j: int|
            0 <= g < registry.groups.len() && registry.groups[g].relation is Exhaustive && 0 <= i
                < j < registry.groups[g].relation.members().len()
                ==> #[trigger] registry.groups[g].relation.members()[i]
                != #[trigger] registry.groups[g].relation.members()[j],
        forall|g: int, h: int, i: int, j: int|
            0 <= g < h < registry.groups.len() && registry.groups[g].relation is Exhaustive
                && registry.groups[h].relation is Exhaustive && 0 <= i
                < registry.groups[g].relation.members().len() && 0 <= j
                < registry.groups[h].relation.members().len()
                ==> #[trigger] registry.groups[g].relation.members()[i]
                != #[trigger] registry.groups[h].relation.members()[j],
    ensures
        load::partition_fault(registry) is None,
{
    let n = registry.groups.len() as int;
    lemma_partitioned(registry.groups, n);
    assert(registry.groups.subrange(0, n) =~= registry.groups);
}

// ---------------------------------------------------------------------------
// What was discovered
// ---------------------------------------------------------------------------

/// An inferred group becomes the relation of its kind between the contracts that
/// its tickers are numbered as, in order.
pub proof fn an_inferred_group_relates_its_tickers(
    names: Seq<Instrument>,
    venue: Venue,
    group: InferredView,
    i: int,
)
    requires
        names.no_duplicates(),
        names.len() <= 0x1_0000_0000,
        0 <= i < group.tickers.len(),
    ensures
        match inference::relation_of(names, venue, group) {
            Some(relation) => {
                &&& match relation {
                    RelationView::Complement { .. } => group.relation_kind
                        == InferredKind::Complement,
                    RelationView::Exhaustive { .. } => group.relation_kind
                        == InferredKind::Exhaustive,
                    RelationView::Monotone { .. } => group.relation_kind == InferredKind::Monotone,
                    _ => false,
                }
                &&& i == 0 || !(relation is Complement) ==> {
                    let id = relation.members()[i].0;
                    id < names.len() && names[id as int] == (venue, group.tickers[i])
                }
                &&& !(relation is Complement) ==> relation.members().len() == group.tickers.len()
            },
            None => exists|k: int|
                0 <= k < group.tickers.len() && !names.contains(
                    (venue, #[trigger] group.tickers[k]),
                ),
        },
{
    types::laws::a_number_is_its_instruments_place(names, venue, group.tickers[i]);
    if let Some(ids) = inference::contract_ids(names, venue, group.tickers) {
        assert(types::lookup(names, venue, group.tickers[i]) is Some);
        assert(ids[i] == types::lookup(names, venue, group.tickers[i])->0);
    }
}

/// A market is listed under its event, as its Yes outcome and under its own
/// ticker, and where its event is not listed it is passed over.
pub proof fn a_market_is_bound_to_its_event(before: RegistryView, market: MarketView)
    requires
        before.names.len() <= u32::MAX,
        before.events.len() <= u32::MAX,
        !before.names.contains((Venue::Kalshi, market.ticker)),
    ensures
        ({
            let known = exists|e: int|
                0 <= e < before.events.len() && (#[trigger] before.events[e]).key
                    == market.event_ticker;
            &&& discovered::with_market(before, market) matches Ok(after)
            &&& !known ==> after == before
            &&& known ==> {
                let id = before.names.len() as u32;
                let made = after.bindings[id];
                &&& after.names == before.names.push((Venue::Kalshi, market.ticker))
                &&& after.bindings.contains_key(id)
                &&& made.contract_id.0 == id
                &&& made.venue == Venue::Kalshi
                &&& made.venue_ticker == market.ticker
                &&& made.side == Side::Yes
                &&& made.verified
                &&& made.event.0 < before.events.len()
                &&& before.events[made.event.0 as int].key == market.event_ticker
                &&& after.events == before.events && after.groups == before.groups
                &&& forall|c: u32|
                    c != id ==> (#[trigger] after.bindings.contains_key(c)
                        == before.bindings.contains_key(c) && after.bindings[c]
                        == before.bindings[c])
            }
        }),
{
    lemma_event_key(before.events, market.event_ticker);
}

/// A Polymarket market that is new becomes an event of its own, a contract and
/// the complement of that contract, all ending when the market does.
pub proof fn a_polymarket_market_stands_alone(before: RegistryView, market: PolymarketView)
    requires
        discovered::is_new(before, market),
        !discovered::is_full(before),
        before.groups.len() <= u32::MAX,
    ensures
        ({
            let after = discovered::with_polymarket(before, market);
            let id = before.names.len() as u32;
            let ends = timestamp::instant(market.ends_at->0)->0;
            &&& after.events.len() == before.events.len() + 1
            &&& after.events.last().key == market.yes_token
            &&& after.events.last().description == market.question
            &&& after.events.last().resolves_at == ends
            &&& after.events.last().id.0 == before.events.len()
            &&& after.names == before.names.push((Venue::Polymarket, market.yes_token))
            &&& after.bindings.contains_key(id)
            &&& after.bindings[id].venue == Venue::Polymarket
            &&& after.bindings[id].venue_ticker == market.yes_token
            &&& after.bindings[id].event.0 == before.events.len()
            &&& after.bindings[id].side == Side::Yes
            &&& after.groups.len() == before.groups.len() + 1
            &&& after.groups.last().relation == (RelationView::Complement {
                contract: ContractId(id),
            })
            &&& after.groups.last().resolves_at_ms == ends.epoch_ms()
            &&& after.groups.last().inferred
            &&& after.groups.last().id.0 == before.groups.len()
        }),
{
}

} // verus!
