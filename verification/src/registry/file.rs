//! The registry file, exactly as written. Unknown keys are rejected so a
//! misspelled `verifed = true` fails at startup instead of quietly leaving a
//! cross-venue pair unverified.
use vstd::prelude::*;
use toml::Value;
use crate::document::{self, Toml};
use crate::text;

verus! {

/// One event of the file.
#[derive(Clone, Debug, PartialEq)]
pub struct EventEntry {
    pub id: String,
    pub description: String,
    pub resolves_at: String,
    pub resolution_source: String,
    pub theme: Option<String>,
    pub resolution_rules_hash: u64,
    pub groups: Vec<GroupEntry>,
}

/// One group of an event.
#[derive(Clone, Debug, PartialEq)]
pub struct GroupEntry {
    pub kind: String,
    /// Required on `equivalent` and rejected everywhere else: a cross-venue pair
    /// must state its verification status rather than inherit a default.
    pub verified: Option<bool>,
    pub members: Vec<MemberRef>,
}

/// One member of a group.
#[derive(Clone, Debug, PartialEq)]
pub struct MemberRef {
    pub venue: String,
    pub ticker: Option<String>,
    pub token: Option<String>,
    pub side: Option<String>,
}

/// What a [`MemberRef`] says.
#[verifier::ext_equal]
pub struct MemberView {
    pub venue: Seq<char>,
    pub ticker: Option<Seq<char>>,
    pub token: Option<Seq<char>>,
    pub side: Option<Seq<char>>,
}

/// What a [`GroupEntry`] says.
#[verifier::ext_equal]
pub struct GroupEntryView {
    pub kind: Seq<char>,
    pub verified: Option<bool>,
    pub members: Seq<MemberView>,
}

/// What an [`EventEntry`] says.
#[verifier::ext_equal]
pub struct EventEntryView {
    pub id: Seq<char>,
    pub description: Seq<char>,
    pub resolves_at: Seq<char>,
    pub resolution_source: Seq<char>,
    pub theme: Option<Seq<char>>,
    pub resolution_rules_hash: u64,
    pub groups: Seq<GroupEntryView>,
}

impl View for MemberRef {
    type V = MemberView;

    open spec fn view(&self) -> MemberView {
        MemberView {
            venue: self.venue@,
            ticker: text::optional(self.ticker),
            token: text::optional(self.token),
            side: text::optional(self.side),
        }
    }
}

pub open spec fn members_view(members: Seq<MemberRef>) -> Seq<MemberView> {
    members.map_values(|m: MemberRef| m@)
}

impl View for GroupEntry {
    type V = GroupEntryView;

    open spec fn view(&self) -> GroupEntryView {
        GroupEntryView {
            kind: self.kind@,
            verified: self.verified,
            members: members_view(self.members@),
        }
    }
}

pub open spec fn groups_view(groups: Seq<GroupEntry>) -> Seq<GroupEntryView> {
    groups.map_values(|g: GroupEntry| g@)
}

impl View for EventEntry {
    type V = EventEntryView;

    open spec fn view(&self) -> EventEntryView {
        EventEntryView {
            id: self.id@,
            description: self.description@,
            resolves_at: self.resolves_at@,
            resolution_source: self.resolution_source@,
            theme: text::optional(self.theme),
            resolution_rules_hash: self.resolution_rules_hash,
            groups: groups_view(self.groups@),
        }
    }
}

pub open spec fn entries_view(entries: Seq<EventEntry>) -> Seq<EventEntryView> {
    entries.map_values(|e: EventEntry| e@)
}

/// The keys of a member.
pub open spec fn member_keys() -> Seq<Seq<char>> {
    seq!["venue"@, "ticker"@, "token"@, "side"@]
}

/// The keys of a group.
pub open spec fn group_keys() -> Seq<Seq<char>> {
    seq!["type"@, "verified"@, "members"@]
}

/// The keys of an event.
pub open spec fn event_entry_keys() -> Seq<Seq<char>> {
    seq![
        "id"@,
        "description"@,
        "resolves_at"@,
        "resolution_source"@,
        "theme"@,
        "resolution_rules_hash"@,
        "group"@,
    ]
}

/// The keys of the file.
pub open spec fn file_keys() -> Seq<Seq<char>> {
    seq!["event"@]
}

/// The member that a value writes, or what is wrong with it.
pub open spec fn member_in(value: Toml) -> Result<MemberView, Seq<char>> {
    if !document::is_record(value) {
        Err(document::mistyped("members"@, "a table"@))
    } else {
        match document::unknown_in(value, member_keys()) {
            Some(reason) => Err(reason),
            None => match document::text_in(value, 0, "venue"@) {
                Err(reason) => Err(reason),
                Ok(venue) => match document::optional_text_in(value, 1, "ticker"@, false) {
                    Err(reason) => Err(reason),
                    Ok(ticker) => match document::optional_text_in(value, 2, "token"@, false) {
                        Err(reason) => Err(reason),
                        Ok(token) => match document::optional_text_in(value, 3, "side"@, false) {
                            Err(reason) => Err(reason),
                            Ok(side) => Ok(MemberView { venue, ticker, token, side }),
                        },
                    },
                },
            },
        }
    }
}

/// The members that a list of values writes.
pub open spec fn members_in(items: Seq<Toml>) -> Result<Seq<MemberView>, Seq<char>>
    decreases items.len(),
{
    if items.len() == 0 {
        Ok(Seq::empty())
    } else {
        match members_in(items.drop_last()) {
            Err(reason) => Err(reason),
            Ok(before) => match member_in(items.last()) {
                Err(reason) => Err(reason),
                Ok(member) => Ok(before.push(member)),
            },
        }
    }
}

/// The verification a group states.
pub open spec fn verified_in(value: Toml) -> Result<Option<bool>, Seq<char>> {
    match document::field_of(value, 1, "verified"@) {
        None => if document::may_lack(value, false) {
            Ok(None)
        } else {
            Err(document::missing("verified"@))
        },
        Some(Toml::Bool(verified)) => Ok(Some(verified)),
        Some(_) => Err(document::mistyped("verified"@, "a boolean"@)),
    }
}

/// The group that a value writes, or what is wrong with it.
pub open spec fn group_in(value: Toml) -> Result<GroupEntryView, Seq<char>> {
    if !document::is_record(value) {
        Err(document::mistyped("group"@, "a table"@))
    } else {
        match document::unknown_in(value, group_keys()) {
            Some(reason) => Err(reason),
            None => match document::text_in(value, 0, "type"@) {
                Err(reason) => Err(reason),
                Ok(kind) => match verified_in(value) {
                    Err(reason) => Err(reason),
                    Ok(verified) => match document::field_of(value, 2, "members"@) {
                        None => Err(document::missing("members"@)),
                        Some(Toml::List(items)) => match members_in(items) {
                            Err(reason) => Err(reason),
                            Ok(members) => Ok(GroupEntryView { kind, verified, members }),
                        },
                        Some(_) => Err(document::mistyped("members"@, "an array"@)),
                    },
                },
            },
        }
    }
}

/// The groups that a list of values writes.
pub open spec fn groups_in(items: Seq<Toml>) -> Result<Seq<GroupEntryView>, Seq<char>>
    decreases items.len(),
{
    if items.len() == 0 {
        Ok(Seq::empty())
    } else {
        match groups_in(items.drop_last()) {
            Err(reason) => Err(reason),
            Ok(before) => match group_in(items.last()) {
                Err(reason) => Err(reason),
                Ok(group) => Ok(before.push(group)),
            },
        }
    }
}

/// The version of the resolution rules that an event states.
pub open spec fn hash_in(value: Toml) -> Result<u64, Seq<char>> {
    match document::field_of(value, 5, "resolution_rules_hash"@) {
        None => Ok(0),
        Some(Toml::Integer(n)) => if n >= 0 {
            Ok(n as u64)
        } else {
            Err(document::mistyped("resolution_rules_hash"@, "an unsigned integer"@))
        },
        Some(_) => Err(document::mistyped("resolution_rules_hash"@, "an unsigned integer"@)),
    }
}

/// The groups that an event states.
pub open spec fn event_groups_in(value: Toml) -> Result<Seq<GroupEntryView>, Seq<char>> {
    match document::field_of(value, 6, "group"@) {
        None => Ok(Seq::empty()),
        Some(Toml::List(items)) => groups_in(items),
        Some(_) => Err(document::mistyped("group"@, "an array"@)),
    }
}

/// The event that a value writes, or what is wrong with it.
pub open spec fn event_in(value: Toml) -> Result<EventEntryView, Seq<char>> {
    if !document::is_record(value) {
        Err(document::mistyped("event"@, "a table"@))
    } else {
        match document::unknown_in(value, event_entry_keys()) {
            Some(reason) => Err(reason),
            None => match document::text_in(value, 0, "id"@) {
                Err(reason) => Err(reason),
                Ok(id) => match document::text_in(value, 1, "description"@) {
                    Err(reason) => Err(reason),
                    Ok(description) => match document::text_in(value, 2, "resolves_at"@) {
                        Err(reason) => Err(reason),
                        Ok(resolves_at) => match document::text_in(
                            value,
                            3,
                            "resolution_source"@,
                        ) {
                            Err(reason) => Err(reason),
                            Ok(resolution_source) => match document::optional_text_in(
                                value,
                                4,
                                "theme"@,
                                true,
                            ) {
                                Err(reason) => Err(reason),
                                Ok(theme) => match hash_in(value) {
                                    Err(reason) => Err(reason),
                                    Ok(resolution_rules_hash) => match event_groups_in(value) {
                                        Err(reason) => Err(reason),
                                        Ok(groups) => Ok(
                                            EventEntryView {
                                                id,
                                                description,
                                                resolves_at,
                                                resolution_source,
                                                theme,
                                                resolution_rules_hash,
                                                groups,
                                            },
                                        ),
                                    },
                                },
                            },
                        },
                    },
                },
            },
        }
    }
}

/// The events that a list of values writes.
pub open spec fn events_in(items: Seq<Toml>) -> Result<Seq<EventEntryView>, Seq<char>>
    decreases items.len(),
{
    if items.len() == 0 {
        Ok(Seq::empty())
    } else {
        match events_in(items.drop_last()) {
            Err(reason) => Err(reason),
            Ok(before) => match event_in(items.last()) {
                Err(reason) => Err(reason),
                Ok(event) => Ok(before.push(event)),
            },
        }
    }
}

/// The events that a file lists, or what is wrong with it.
pub open spec fn file_in(text: Seq<char>) -> Result<Seq<EventEntryView>, Seq<char>> {
    match document::parsed_toml(text) {
        Err(reason) => Err(reason),
        Ok(value) => if !document::is_record(value) {
            Err(document::mistyped("registry"@, "a table"@))
        } else {
            match document::unknown_in(value, file_keys()) {
                Some(reason) => Err(reason),
                None => match document::field_of(value, 0, "event"@) {
                    None => Ok(Seq::empty()),
                    Some(Toml::List(items)) => events_in(items),
                    Some(_) => Err(document::mistyped("event"@, "an array"@)),
                },
            }
        },
    }
}

/// What TOML values hold.
pub open spec fn tomls(items: Seq<Value>) -> Seq<Toml> {
    items.map_values(|item: Value| document::toml(item))
}

fn read_member(value: &Value) -> (result: Result<MemberRef, String>)
    ensures
        match result {
            Ok(member) => member_in(document::toml(*value)) == Ok::<MemberView, Seq<char>>(member@),
            Err(reason) => member_in(document::toml(*value)) == Err::<MemberView, Seq<char>>(
                reason@,
            ),
        },
{
    if !document::record(value) {
        return Err(document::say_mistyped("members", "a table"));
    }
    let known = ["venue", "ticker", "token", "side"];
    assert(known@.map_values(|k: &str| k@) =~= member_keys());
    match document::unknown_field(value, known.as_slice()) {
        Some(reason) => {
            return Err(reason);
        },
        None => {},
    }
    let venue: String = match document::text_field(value, 0, "venue") {
        Ok(text) => text.to_owned(),
        Err(reason) => {
            return Err(reason);
        },
    };
    let ticker: Option<String> = match document::optional_text_field(value, 1, "ticker", false) {
        Ok(text) => text,
        Err(reason) => {
            return Err(reason);
        },
    };
    let token: Option<String> = match document::optional_text_field(value, 2, "token", false) {
        Ok(text) => text,
        Err(reason) => {
            return Err(reason);
        },
    };
    let side: Option<String> = match document::optional_text_field(value, 3, "side", false) {
        Ok(text) => text,
        Err(reason) => {
            return Err(reason);
        },
    };
    Ok(MemberRef { venue, ticker, token, side })
}

fn read_members(items: &[Value]) -> (result: Result<Vec<MemberRef>, String>)
    ensures
        match result {
            Ok(members) => members_in(tomls(items@)) == Ok::<Seq<MemberView>, Seq<char>>(
                members_view(members@),
            ),
            Err(reason) => members_in(tomls(items@)) == Err::<Seq<MemberView>, Seq<char>>(reason@),
        },
{
    let ghost all = tomls(items@);
    let mut members: Vec<MemberRef> = Vec::new();
    let mut i: usize = 0;
    assert(all.subrange(0, 0) =~= Seq::<Toml>::empty());
    assert(members_view(members@) =~= Seq::<MemberView>::empty());
    while i < items.len()
        invariant
            i <= items@.len(),
            all == tomls(items@),
            members_in(all.subrange(0, i as int)) == Ok::<Seq<MemberView>, Seq<char>>(
                members_view(members@),
            ),
        decreases items@.len() - i,
    {
        proof {
            let next = all.subrange(0, i + 1);
            assert(next.drop_last() =~= all.subrange(0, i as int));
            assert(next.last() == document::toml(items@[i as int]));
        }
        match read_member(&items[i]) {
            Ok(member) => {
                let ghost before = members@;
                members.push(member);
                assert(members_view(members@) =~= members_view(before).push(member@));
            },
            Err(reason) => {
                proof {
                    lemma_members_prefix(all, i + 1, reason@);
                }
                return Err(reason);
            },
        }
        i = i + 1;
    }
    assert(all.subrange(0, all.len() as int) =~= all);
    Ok(members)
}

proof fn lemma_members_prefix(items: Seq<Toml>, n: int, reason: Seq<char>)
    requires
        0 < n <= items.len(),
        members_in(items.subrange(0, n)) == Err::<Seq<MemberView>, Seq<char>>(reason),
    ensures
        members_in(items) == Err::<Seq<MemberView>, Seq<char>>(reason),
    decreases items.len(),
{
    if n == items.len() {
        assert(items.subrange(0, n) =~= items);
    } else {
        assert(items.drop_last().subrange(0, n) =~= items.subrange(0, n));
        lemma_members_prefix(items.drop_last(), n, reason);
    }
}

fn read_verified(value: &Value) -> (result: Result<Option<bool>, String>)
    requires
        document::is_record(document::toml(*value)),
    ensures
        match result {
            Ok(verified) => verified_in(document::toml(*value)) == Ok::<Option<bool>, Seq<char>>(
                verified,
            ),
            Err(reason) => verified_in(document::toml(*value)) == Err::<Option<bool>, Seq<char>>(
                reason@,
            ),
        },
{
    match document::field(value, 1, "verified") {
        None => if document::list(value).is_none() {
            Ok(None)
        } else {
            Err(document::say_missing("verified"))
        },
        Some(inner) => match document::boolean(inner) {
            Some(verified) => Ok(Some(verified)),
            None => Err(document::say_mistyped("verified", "a boolean")),
        },
    }
}

fn read_group(value: &Value) -> (result: Result<GroupEntry, String>)
    ensures
        match result {
            Ok(group) => group_in(document::toml(*value)) == Ok::<GroupEntryView, Seq<char>>(group@),
            Err(reason) => group_in(document::toml(*value)) == Err::<GroupEntryView, Seq<char>>(
                reason@,
            ),
        },
{
    if !document::record(value) {
        return Err(document::say_mistyped("group", "a table"));
    }
    let known = ["type", "verified", "members"];
    assert(known@.map_values(|k: &str| k@) =~= group_keys());
    match document::unknown_field(value, known.as_slice()) {
        Some(reason) => {
            return Err(reason);
        },
        None => {},
    }
    let kind: String = match document::text_field(value, 0, "type") {
        Ok(text) => text.to_owned(),
        Err(reason) => {
            return Err(reason);
        },
    };
    let verified: Option<bool> = match read_verified(value) {
        Ok(verified) => verified,
        Err(reason) => {
            return Err(reason);
        },
    };
    let items: &Vec<Value> = match document::field(value, 2, "members") {
        None => {
            return Err(document::say_missing("members"));
        },
        Some(inner) => match document::list(inner) {
            Some(items) => items,
            None => {
                return Err(document::say_mistyped("members", "an array"));
            },
        },
    };
    match read_members(items.as_slice()) {
        Ok(members) => Ok(GroupEntry { kind, verified, members }),
        Err(reason) => Err(reason),
    }
}

fn read_groups(items: &[Value]) -> (result: Result<Vec<GroupEntry>, String>)
    ensures
        match result {
            Ok(groups) => groups_in(tomls(items@)) == Ok::<Seq<GroupEntryView>, Seq<char>>(
                groups_view(groups@),
            ),
            Err(reason) => groups_in(tomls(items@)) == Err::<Seq<GroupEntryView>, Seq<char>>(
                reason@,
            ),
        },
{
    let ghost all = tomls(items@);
    let mut groups: Vec<GroupEntry> = Vec::new();
    let mut i: usize = 0;
    assert(all.subrange(0, 0) =~= Seq::<Toml>::empty());
    assert(groups_view(groups@) =~= Seq::<GroupEntryView>::empty());
    while i < items.len()
        invariant
            i <= items@.len(),
            all == tomls(items@),
            groups_in(all.subrange(0, i as int)) == Ok::<Seq<GroupEntryView>, Seq<char>>(
                groups_view(groups@),
            ),
        decreases items@.len() - i,
    {
        proof {
            let next = all.subrange(0, i + 1);
            assert(next.drop_last() =~= all.subrange(0, i as int));
            assert(next.last() == document::toml(items@[i as int]));
        }
        match read_group(&items[i]) {
            Ok(group) => {
                let ghost before = groups@;
                groups.push(group);
                assert(groups_view(groups@) =~= groups_view(before).push(group@));
            },
            Err(reason) => {
                proof {
                    lemma_groups_prefix(all, i + 1, reason@);
                }
                return Err(reason);
            },
        }
        i = i + 1;
    }
    assert(all.subrange(0, all.len() as int) =~= all);
    Ok(groups)
}

proof fn lemma_groups_prefix(items: Seq<Toml>, n: int, reason: Seq<char>)
    requires
        0 < n <= items.len(),
        groups_in(items.subrange(0, n)) == Err::<Seq<GroupEntryView>, Seq<char>>(reason),
    ensures
        groups_in(items) == Err::<Seq<GroupEntryView>, Seq<char>>(reason),
    decreases items.len(),
{
    if n == items.len() {
        assert(items.subrange(0, n) =~= items);
    } else {
        assert(items.drop_last().subrange(0, n) =~= items.subrange(0, n));
        lemma_groups_prefix(items.drop_last(), n, reason);
    }
}

fn read_hash(value: &Value) -> (result: Result<u64, String>)
    ensures
        match result {
            Ok(hash) => hash_in(document::toml(*value)) == Ok::<u64, Seq<char>>(hash),
            Err(reason) => hash_in(document::toml(*value)) == Err::<u64, Seq<char>>(reason@),
        },
{
    match document::field(value, 5, "resolution_rules_hash") {
        None => Ok(0),
        Some(inner) => match document::integer(inner) {
            Some(n) => if n >= 0 {
                Ok(n as u64)
            } else {
                Err(document::say_mistyped("resolution_rules_hash", "an unsigned integer"))
            },
            None => Err(document::say_mistyped("resolution_rules_hash", "an unsigned integer")),
        },
    }
}

fn read_event_groups(value: &Value) -> (result: Result<Vec<GroupEntry>, String>)
    ensures
        match result {
            Ok(groups) => event_groups_in(document::toml(*value)) == Ok::<
                Seq<GroupEntryView>,
                Seq<char>,
            >(groups_view(groups@)),
            Err(reason) => event_groups_in(document::toml(*value)) == Err::<
                Seq<GroupEntryView>,
                Seq<char>,
            >(reason@),
        },
{
    match document::field(value, 6, "group") {
        None => {
            let groups: Vec<GroupEntry> = Vec::new();
            assert(groups_view(groups@) =~= Seq::<GroupEntryView>::empty());
            Ok(groups)
        },
        Some(inner) => match document::list(inner) {
            Some(items) => read_groups(items.as_slice()),
            None => Err(document::say_mistyped("group", "an array")),
        },
    }
}

/// A text that has to be there, as a string of its own.
fn owned_text(value: &Value, place: usize, key: &str) -> (text: Result<String, String>)
    ensures
        match text {
            Ok(text) => document::text_in(document::toml(*value), place as int, key@) == Ok::<
                Seq<char>,
                Seq<char>,
            >(text@),
            Err(reason) => document::text_in(document::toml(*value), place as int, key@) == Err::<
                Seq<char>,
                Seq<char>,
            >(reason@),
        },
{
    match document::text_field(value, place, key) {
        Ok(text) => Ok(text.to_owned()),
        Err(reason) => Err(reason),
    }
}

fn read_event(value: &Value) -> (result: Result<EventEntry, String>)
    ensures
        match result {
            Ok(event) => event_in(document::toml(*value)) == Ok::<EventEntryView, Seq<char>>(event@),
            Err(reason) => event_in(document::toml(*value)) == Err::<EventEntryView, Seq<char>>(
                reason@,
            ),
        },
{
    if !document::record(value) {
        return Err(document::say_mistyped("event", "a table"));
    }
    let known = [
        "id",
        "description",
        "resolves_at",
        "resolution_source",
        "theme",
        "resolution_rules_hash",
        "group",
    ];
    assert(known@.map_values(|k: &str| k@) =~= event_entry_keys());
    match document::unknown_field(value, known.as_slice()) {
        Some(reason) => {
            return Err(reason);
        },
        None => {},
    }
    let id: String = match owned_text(value, 0, "id") {
        Ok(text) => text,
        Err(reason) => {
            return Err(reason);
        },
    };
    let description: String = match owned_text(value, 1, "description") {
        Ok(text) => text,
        Err(reason) => {
            return Err(reason);
        },
    };
    let resolves_at: String = match owned_text(value, 2, "resolves_at") {
        Ok(text) => text,
        Err(reason) => {
            return Err(reason);
        },
    };
    let resolution_source: String = match owned_text(value, 3, "resolution_source") {
        Ok(text) => text,
        Err(reason) => {
            return Err(reason);
        },
    };
    let theme: Option<String> = match document::optional_text_field(value, 4, "theme", true) {
        Ok(text) => text,
        Err(reason) => {
            return Err(reason);
        },
    };
    let resolution_rules_hash: u64 = match read_hash(value) {
        Ok(hash) => hash,
        Err(reason) => {
            return Err(reason);
        },
    };
    match read_event_groups(value) {
        Ok(groups) => Ok(
            EventEntry {
                id,
                description,
                resolves_at,
                resolution_source,
                theme,
                resolution_rules_hash,
                groups,
            },
        ),
        Err(reason) => Err(reason),
    }
}

fn read_events(items: &[Value]) -> (result: Result<Vec<EventEntry>, String>)
    ensures
        match result {
            Ok(events) => events_in(tomls(items@)) == Ok::<Seq<EventEntryView>, Seq<char>>(
                entries_view(events@),
            ),
            Err(reason) => events_in(tomls(items@)) == Err::<Seq<EventEntryView>, Seq<char>>(
                reason@,
            ),
        },
{
    let ghost all = tomls(items@);
    let mut events: Vec<EventEntry> = Vec::new();
    let mut i: usize = 0;
    assert(all.subrange(0, 0) =~= Seq::<Toml>::empty());
    assert(entries_view(events@) =~= Seq::<EventEntryView>::empty());
    while i < items.len()
        invariant
            i <= items@.len(),
            all == tomls(items@),
            events_in(all.subrange(0, i as int)) == Ok::<Seq<EventEntryView>, Seq<char>>(
                entries_view(events@),
            ),
        decreases items@.len() - i,
    {
        proof {
            let next = all.subrange(0, i + 1);
            assert(next.drop_last() =~= all.subrange(0, i as int));
            assert(next.last() == document::toml(items@[i as int]));
        }
        match read_event(&items[i]) {
            Ok(event) => {
                let ghost before = events@;
                events.push(event);
                assert(entries_view(events@) =~= entries_view(before).push(event@));
            },
            Err(reason) => {
                proof {
                    lemma_events_prefix(all, i + 1, reason@);
                }
                return Err(reason);
            },
        }
        i = i + 1;
    }
    assert(all.subrange(0, all.len() as int) =~= all);
    Ok(events)
}

proof fn lemma_events_prefix(items: Seq<Toml>, n: int, reason: Seq<char>)
    requires
        0 < n <= items.len(),
        events_in(items.subrange(0, n)) == Err::<Seq<EventEntryView>, Seq<char>>(reason),
    ensures
        events_in(items) == Err::<Seq<EventEntryView>, Seq<char>>(reason),
    decreases items.len(),
{
    if n == items.len() {
        assert(items.subrange(0, n) =~= items);
    } else {
        assert(items.drop_last().subrange(0, n) =~= items.subrange(0, n));
        lemma_events_prefix(items.drop_last(), n, reason);
    }
}

/// The events that a registry file lists, or what is wrong with it.
pub fn read_file(text: &str) -> (result: Result<Vec<EventEntry>, String>)
    ensures
        match result {
            Ok(events) => file_in(text@) == Ok::<Seq<EventEntryView>, Seq<char>>(
                entries_view(events@),
            ),
            Err(reason) => file_in(text@) == Err::<Seq<EventEntryView>, Seq<char>>(reason@),
        },
{
    let value: Value = match document::read(text) {
        Ok(value) => value,
        Err(reason) => {
            return Err(reason);
        },
    };
    if !document::record(&value) {
        return Err(document::say_mistyped("registry", "a table"));
    }
    let known = ["event"];
    assert(known@.map_values(|k: &str| k@) =~= file_keys());
    match document::unknown_field(&value, known.as_slice()) {
        Some(reason) => {
            return Err(reason);
        },
        None => {},
    }
    match document::field(&value, 0, "event") {
        None => {
            let events: Vec<EventEntry> = Vec::new();
            assert(entries_view(events@) =~= Seq::<EventEntryView>::empty());
            Ok(events)
        },
        Some(inner) => match document::list(inner) {
            Some(items) => read_events(items.as_slice()),
            None => Err(document::say_mistyped("event", "an array")),
        },
    }
}

} // verus!
