//! Constraint registry: which contracts are logically related, and how.
//!
//! This module owns three things the solver cannot work without: the shape of a
//! constraint group, the *meaning* of each relation expressed as the set of
//! resolutions it permits, and the reverse index from a contract to the groups
//! containing it.
//!
//! The reverse index exists because dirty marking must be cheap. A price update
//! touches one or two groups out of thousands, and finding them has to be a
//! hash lookup rather than a scan, so the index is built once at load time.
//!
//! # Contract ids are positional, and that couples three things
//!
//! Interning assigns ids in call order, and the parsers and the book store
//! intern from a ticker list. For their ids to agree with the registry's, all
//! three must see the same list in the same order, which is why
//! [`Registry::tickers`] exists and why the loader interns every Kalshi member
//! before any Polymarket one.
use vstd::prelude::*;
use vstd::hash_map::StringHashMap;
use vstd::slice::{slice_subrange, slice_to_vec};
use std::collections::HashMap;
use crate::text;
use crate::timestamp::Timestamp;
use crate::types::{self, ContractId, Contracts, Instrument, InternError, Side, Venue};

pub mod discovered;
pub mod file;
pub mod laws;
pub mod load;
pub mod written;

verus! {

/// Registry-scoped group identifier. The solver sorts by it and so produces the
/// same output order on every replay of the same input.
#[derive(Clone, Copy, Debug, PartialEq, Eq, Structural, Hash, PartialOrd, Ord)]
pub struct GroupId(pub u32);

/// One way the world can resolve, as the set of member contracts paying $1.
///
/// Anything not in the set pays nothing. This is the entire semantic content of
/// a [`Relation`]: two relations that permit the same resolutions are the same
/// constraint, and a trade is risk-free exactly when its payoff is acceptable
/// under every state in this list.
pub type ResolutionState = Vec<ContractId>;

/// A logical relationship between contracts that constrains their prices.
///
/// [`Relation::Monotone`] is a generalization of [`Relation::Implies`], not a
/// separate idea: a ladder of `n` rungs is `n - 1` chained implications, and
/// expressing it as one group means a rung appears once rather than twice and
/// the solver evaluates the whole ladder on a single dirty mark.
#[derive(Clone, Debug, PartialEq)]
pub enum Relation {
    /// A binary contract and its own negation: yes and no sum to exactly $1.
    Complement { contract: ContractId },
    /// Mutually exclusive and exhaustive outcomes: exactly one pays $1.
    Exhaustive { members: Vec<ContractId> },
    /// A threshold ladder, ordered from the weakest claim to the strongest.
    ///
    /// Each rung's yes event contains the next rung's, so probabilities must be
    /// non-increasing along the vector. "BTC above 70k" comes before "BTC above
    /// 80k".
    Monotone { ordered: Vec<ContractId> },
    /// `antecedent` resolving yes forces `consequent` to resolve yes.
    Implies { antecedent: ContractId, consequent: ContractId },
    /// The same real-world event listed on two venues.
    ///
    /// `verified` stays false until a human has confirmed both contracts settle
    /// on the same source, at the same time, with the same tie handling. An
    /// unverified pair never produces a signal: a cross-venue trade on two
    /// contracts that turn out to differ is not an arbitrage, it is a naked
    /// directional position taken by accident.
    Equivalent { a: ContractId, b: ContractId, verified: bool },
}

/// What a [`Relation`] says.
pub enum RelationView {
    Complement { contract: ContractId },
    Exhaustive { members: Seq<ContractId> },
    Monotone { ordered: Seq<ContractId> },
    Implies { antecedent: ContractId, consequent: ContractId },
    Equivalent { a: ContractId, b: ContractId, verified: bool },
}

impl View for Relation {
    type V = RelationView;

    open spec fn view(&self) -> RelationView {
        match self {
            Relation::Complement { contract } => RelationView::Complement { contract: *contract },
            Relation::Exhaustive { members } => RelationView::Exhaustive { members: members@ },
            Relation::Monotone { ordered } => RelationView::Monotone { ordered: ordered@ },
            Relation::Implies { antecedent, consequent } => RelationView::Implies {
                antecedent: *antecedent,
                consequent: *consequent,
            },
            Relation::Equivalent { a, b, verified } => RelationView::Equivalent {
                a: *a,
                b: *b,
                verified: *verified,
            },
        }
    }
}

impl RelationView {
    /// Every contract this relation constrains, in the relation's own order.
    pub open spec fn members(self) -> Seq<ContractId> {
        match self {
            RelationView::Complement { contract } => seq![contract],
            RelationView::Exhaustive { members } => members,
            RelationView::Monotone { ordered } => ordered,
            RelationView::Implies { antecedent, consequent } => seq![antecedent, consequent],
            RelationView::Equivalent { a, b, .. } => seq![a, b],
        }
    }

    /// Every resolution the relation permits, each as the contracts paying $1.
    pub open spec fn states(self) -> Seq<Seq<ContractId>> {
        match self {
            RelationView::Complement { contract } => seq![seq![contract], Seq::empty()],
            RelationView::Exhaustive { members } => Seq::new(
                members.len(),
                |i: int| seq![members[i]],
            ),
            RelationView::Monotone { ordered } => Seq::new(
                ordered.len() + 1,
                |cut: int| ordered.subrange(0, cut),
            ),
            RelationView::Implies { antecedent, consequent } => seq![
                Seq::empty(),
                seq![consequent],
                seq![consequent, antecedent],
            ],
            RelationView::Equivalent { a, b, .. } => seq![seq![a, b], Seq::empty()],
        }
    }
}

/// The contents of a list of resolution states.
pub open spec fn states_view(states: Seq<Vec<ContractId>>) -> Seq<Seq<ContractId>> {
    states.map_values(|s: Vec<ContractId>| s@)
}

impl Relation {
    /// Every contract this relation constrains, in the relation's own order.
    pub fn members(&self) -> (members: Vec<ContractId>)
        ensures
            members@ == self@.members(),
    {
        match self {
            Relation::Complement { contract } => vec![*contract],
            Relation::Exhaustive { members } => slice_to_vec(members.as_slice()),
            Relation::Monotone { ordered } => slice_to_vec(ordered.as_slice()),
            Relation::Implies { antecedent, consequent } => vec![*antecedent, *consequent],
            Relation::Equivalent { a, b, .. } => vec![*a, *b],
        }
    }

    /// Enumerate every resolution the relation permits.
    ///
    /// This is what makes the payoff guarantee checkable rather than asserted.
    /// The solver prices a trade against the worst state in this list, so a
    /// relation that is wrong here produces a position that looks risk-free and
    /// is not, which is why the relation semantics live in one place and every
    /// fast path is priced through them instead of hardcoding "payoff is 100".
    pub fn resolution_states(&self) -> (states: Vec<ResolutionState>)
        ensures
            states_view(states@) == self@.states(),
    {
        match self {
            Relation::Complement { contract } => {
                let states = vec![vec![*contract], Vec::new()];
                assert(states_view(states@) =~~= self@.states());
                states
            },
            Relation::Exhaustive { members } => {
                let mut states: Vec<ResolutionState> = Vec::new();
                let mut i: usize = 0;
                while i < members.len()
                    invariant
                        i <= members@.len(),
                        states@.len() == i,
                        forall|j: int|
                            0 <= j < i ==> (#[trigger] states@[j])@ == seq![members@[j]],
                    decreases members@.len() - i,
                {
                    let state: ResolutionState = vec![members[i]];
                    assert(state@ =~= seq![members@[i as int]]);
                    states.push(state);
                    i = i + 1;
                }
                assert(states_view(states@) =~~= self@.states());
                states
            },
            // A ladder admits exactly one state per cut point: the first k rungs
            // resolve yes and the rest no. Any other combination would break the
            // containment that defines the ladder.
            Relation::Monotone { ordered } => {
                let mut states: Vec<ResolutionState> = Vec::new();
                let mut cut: usize = 0;
                while cut < ordered.len()
                    invariant
                        cut <= ordered@.len(),
                        states@.len() == cut,
                        forall|j: int|
                            0 <= j < cut ==> (#[trigger] states@[j])@ == ordered@.subrange(0, j),
                    decreases ordered@.len() - cut,
                {
                    let rungs: &[ContractId] = slice_subrange(ordered.as_slice(), 0, cut);
                    states.push(slice_to_vec(rungs));
                    cut = cut + 1;
                }
                states.push(slice_to_vec(ordered.as_slice()));
                assert(ordered@.subrange(0, ordered@.len() as int) =~= ordered@);
                assert(states_view(states@) =~~= self@.states());
                states
            },
            Relation::Implies { antecedent, consequent } => {
                let states = vec![Vec::new(), vec![*consequent], vec![*consequent, *antecedent]];
                assert(states_view(states@) =~~= self@.states());
                states
            },
            Relation::Equivalent { a, b, .. } => {
                let states = vec![vec![*a, *b], Vec::new()];
                assert(states_view(states@) =~~= self@.states());
                states
            },
        }
    }
}

/// A two-rung ladder permits exactly the resolutions of the implication it
/// encodes: the stronger rung implies the weaker one.
pub proof fn a_two_rung_ladder_is_an_implication(weak: ContractId, strong: ContractId)
    ensures
        (RelationView::Monotone { ordered: seq![weak, strong] }).states() =~~= (
        RelationView::Implies { antecedent: strong, consequent: weak }).states(),
{
    let ordered = seq![weak, strong];
    assert(ordered.subrange(0, 0) =~= Seq::<ContractId>::empty());
    assert(ordered.subrange(0, 1) =~= seq![weak]);
    assert(ordered.subrange(0, 2) =~= seq![weak, strong]);
}

/// A relation plus the identity and timing the solver needs to rank it.
#[derive(Clone, Debug, PartialEq)]
pub struct ConstraintGroup {
    pub id: GroupId,
    pub relation: Relation,
    /// Derived from `relation` at construction; never set independently, so the
    /// two cannot drift apart.
    pub members: Vec<ContractId>,
    /// When the underlying event settles and the locked capital comes back.
    /// Ranking is meaningless without it, so it is required rather than optional.
    pub resolves_at_ms: u64,
    /// True when this group was read off venue metadata rather than written by
    /// a human. An inferred relation that is wrong does not go quiet, it emits
    /// a confident arbitrage, so the engine refuses to trade one with a live
    /// order client unless that is explicitly allowed.
    pub inferred: bool,
}

/// What a [`ConstraintGroup`] says.
pub struct GroupView {
    pub id: GroupId,
    pub relation: RelationView,
    pub resolves_at_ms: u64,
    pub inferred: bool,
}

impl View for ConstraintGroup {
    type V = GroupView;

    open spec fn view(&self) -> GroupView {
        GroupView {
            id: self.id,
            relation: self.relation@,
            resolves_at_ms: self.resolves_at_ms,
            inferred: self.inferred,
        }
    }
}

impl ConstraintGroup {
    /// The stored members are the relation's.
    pub open spec fn wf(self) -> bool {
        self.members@ == self.relation@.members()
    }

    pub fn members(&self) -> (members: &[ContractId])
        ensures
            members@ == self.members@,
    {
        self.members.as_slice()
    }
}

#[derive(Clone, Copy, Debug, PartialEq, Eq, Structural)]
pub enum RegistryError {
    /// A set, ladder, or pair that does not have enough distinct members to
    /// constrain anything.
    TooFewMembers { group: GroupId, got: usize },
    /// The same contract listed twice in one group. Almost always a config typo,
    /// and it would silently double-count depth on one book.
    DuplicateMember { group: GroupId, contract: ContractId },
}

/// The message of a [`RegistryError`].
pub open spec fn registry_error_message(error: RegistryError) -> Seq<char> {
    match error {
        RegistryError::TooFewMembers { group, got } => "group "@ + text::decimal(group.0 as nat)
            + " has only "@ + text::decimal(got as nat) + " member(s)"@,
        RegistryError::DuplicateMember { group, contract } => "group "@ + text::decimal(
            group.0 as nat,
        ) + " lists contract "@ + text::decimal(contract.0 as nat) + " twice"@,
    }
}

impl RegistryError {
    /// What went wrong, for a log line.
    pub fn message(&self) -> (out: String)
        ensures
            out@ == registry_error_message(*self),
    {
        let mut out: String = String::from_str("group ");
        match self {
            RegistryError::TooFewMembers { group, got } => {
                text::push_u64(&mut out, group.0 as u64);
                out.append(" has only ");
                text::push_u64(&mut out, *got as u64);
                out.append(" member(s)");
            },
            RegistryError::DuplicateMember { group, contract } => {
                text::push_u64(&mut out, group.0 as u64);
                out.append(" lists contract ");
                text::push_u64(&mut out, contract.0 as u64);
                out.append(" twice");
            },
        }
        out
    }
}

/// Interned event identifier. Like [`ContractId`], the integer is positional and
/// the human-readable key lives on the record it names.
#[derive(Clone, Copy, Debug, PartialEq, Eq, Structural, Hash, PartialOrd, Ord)]
pub struct EventId(pub u32);

/// One real-world question, independent of how any venue lists it.
///
/// `resolves_at` is what makes ranking possible: capital in a prediction market
/// is trapped until the event settles, so a trade's tenor is as much a part of
/// its value as its edge.
#[derive(Clone, Debug, PartialEq)]
pub struct CanonicalEvent {
    pub id: EventId,
    /// The `id` string from the file, kept for logs and error messages.
    pub key: String,
    pub description: String,
    pub resolves_at: Timestamp,
    pub resolution_source: String,
    /// Optional grouping for risk limits: every Fed decision shares a theme
    /// because they share a resolution source and would fail together.
    pub theme: Option<String>,
    /// A change here means "the venue rewrote the rules, re-verify the pair".
    pub resolution_rules_hash: u64,
}

/// What a [`CanonicalEvent`] says.
pub struct EventView {
    pub id: EventId,
    pub key: Seq<char>,
    pub description: Seq<char>,
    pub resolves_at: Timestamp,
    pub resolution_source: Seq<char>,
    pub theme: Option<Seq<char>>,
    pub resolution_rules_hash: u64,
}

impl View for CanonicalEvent {
    type V = EventView;

    open spec fn view(&self) -> EventView {
        EventView {
            id: self.id,
            key: self.key@,
            description: self.description@,
            resolves_at: self.resolves_at,
            resolution_source: self.resolution_source@,
            theme: match self.theme {
                Some(theme) => Some(theme@),
                None => None,
            },
            resolution_rules_hash: self.resolution_rules_hash,
        }
    }
}

/// One venue listing bound to a canonical event.
#[derive(Clone, Debug, PartialEq)]
pub struct ContractBinding {
    pub contract_id: ContractId,
    pub venue: Venue,
    /// The venue's own identifier: a Kalshi ticker or a Polymarket token.
    pub venue_ticker: String,
    pub event: EventId,
    /// Which outcome of the venue listing corresponds to the event resolving
    /// yes. Defaults to yes; a venue that lists only the negation sets no.
    pub side: Side,
    /// False until a human has confirmed this listing settles on the same
    /// source, at the same time, with the same tie handling as the event.
    pub verified: bool,
}

/// What a [`ContractBinding`] says.
pub struct BindingView {
    pub contract_id: ContractId,
    pub venue: Venue,
    pub venue_ticker: Seq<char>,
    pub event: EventId,
    pub side: Side,
    pub verified: bool,
}

impl View for ContractBinding {
    type V = BindingView;

    open spec fn view(&self) -> BindingView {
        BindingView {
            contract_id: self.contract_id,
            venue: self.venue,
            venue_ticker: self.venue_ticker@,
            event: self.event,
            side: self.side,
            verified: self.verified,
        }
    }
}

/// Constraint groups, the contract-to-group reverse index, and the identity
/// tables the groups are built from.
pub struct Registry {
    events: Vec<CanonicalEvent>,
    event_by_key: StringHashMap<u32>,
    bindings: HashMap<u32, ContractBinding>,
    contracts: Contracts,
    groups: Vec<ConstraintGroup>,
    by_contract: HashMap<u32, Vec<GroupId>>,
    /// Interned tickers per venue, in id order.
    kalshi_tickers: Vec<String>,
    polymarket_tickers: Vec<String>,
}

/// What a [`Registry`] holds.
#[verifier::ext_equal]
pub struct RegistryView {
    pub events: Seq<EventView>,
    pub names: Seq<Instrument>,
    pub bindings: Map<u32, BindingView>,
    pub groups: Seq<GroupView>,
}

impl View for Registry {
    type V = RegistryView;

    closed spec fn view(&self) -> RegistryView {
        RegistryView {
            events: self.events@.map_values(|e: CanonicalEvent| e@),
            names: self.contracts@,
            bindings: self.bindings@.map_values(|b: ContractBinding| b@),
            groups: self.groups@.map_values(|g: ConstraintGroup| g@),
        }
    }
}

/// The identifier of the group at a place in the list.
pub open spec fn group_id_at(i: int) -> GroupId {
    if i <= u32::MAX {
        GroupId(i as u32)
    } else {
        GroupId(u32::MAX)
    }
}

/// The groups that contain a contract, in group order.
pub open spec fn groups_containing(groups: Seq<GroupView>, contract: ContractId) -> Seq<GroupId>
    decreases groups.len(),
{
    if groups.len() == 0 {
        Seq::empty()
    } else {
        let before = groups_containing(groups.drop_last(), contract);
        if groups.last().relation.members().contains(contract) {
            before.push(groups.last().id)
        } else {
            before
        }
    }
}

/// The tickers interned for one venue, in id order.
pub open spec fn tickers_of(names: Seq<Instrument>, venue: Venue) -> Seq<Seq<char>>
    decreases names.len(),
{
    if names.len() == 0 {
        Seq::empty()
    } else {
        let before = tickers_of(names.drop_last(), venue);
        if names.last().0 == venue {
            before.push(names.last().1)
        } else {
            before
        }
    }
}

/// The last event under a key.
pub open spec fn event_named(events: Seq<EventView>, key: Seq<char>) -> Option<int>
    decreases events.len(),
{
    if events.len() == 0 {
        None
    } else if events.last().key == key {
        Some(events.len() - 1)
    } else {
        event_named(events.drop_last(), key)
    }
}

/// The first contract that stands twice among the first `n` members.
pub open spec fn first_repeat(members: Seq<ContractId>, n: int) -> Option<ContractId>
    decreases n,
{
    if n <= 0 {
        None
    } else {
        match first_repeat(members, n - 1) {
            Some(contract) => Some(contract),
            None => if members.subrange(0, n - 1).contains(members[n - 1]) {
                Some(members[n - 1])
            } else {
                None
            },
        }
    }
}

/// Why a relation cannot become the group `id`.
pub open spec fn relation_fault(relation: RelationView, id: GroupId) -> Option<RegistryError> {
    let members = relation.members();
    if members.len() < 2 && !(relation is Complement) {
        Some(RegistryError::TooFewMembers { group: id, got: members.len() as usize })
    } else {
        match first_repeat(members, members.len() as int) {
            Some(contract) => Some(RegistryError::DuplicateMember { group: id, contract }),
            None => None,
        }
    }
}

impl RegistryView {
    pub open spec fn empty() -> RegistryView {
        RegistryView {
            events: Seq::empty(),
            names: Seq::empty(),
            bindings: Map::empty(),
            groups: Seq::empty(),
        }
    }

    pub open spec fn with_group(
        self,
        relation: RelationView,
        resolves_at_ms: u64,
        inferred: bool,
    ) -> RegistryView {
        RegistryView {
            groups: self.groups.push(
                GroupView {
                    id: group_id_at(self.groups.len() as int),
                    relation,
                    resolves_at_ms,
                    inferred,
                },
            ),
            ..self
        }
    }
}

impl RegistryView {
    /// One more name, if it is a new one.
    pub open spec fn with_name(self, venue: Venue, key: Seq<char>) -> RegistryView {
        RegistryView { names: types::interned(self.names, venue, key), ..self }
    }

    /// One more event, numbered by its place.
    pub open spec fn with_event(self, event: EventView) -> RegistryView {
        RegistryView {
            events: self.events.push(EventView { id: EventId(self.events.len() as u32), ..event }),
            ..self
        }
    }

    /// A contract bound to an event.
    pub open spec fn with_binding(self, binding: BindingView) -> RegistryView {
        RegistryView { bindings: self.bindings.insert(binding.contract_id.0, binding), ..self }
    }
}

/// The groups that a list of relations builds, or the first that cannot be.
pub open spec fn built(relations: Seq<(RelationView, u64)>) -> Result<RegistryView, RegistryError>
    decreases relations.len(),
{
    if relations.len() == 0 {
        Ok(RegistryView::empty())
    } else {
        match built(relations.drop_last()) {
            Err(error) => Err(error),
            Ok(registry) => match relation_fault(
                relations.last().0,
                group_id_at(registry.groups.len() as int),
            ) {
                Some(error) => Err(error),
                None => Ok(registry.with_group(relations.last().0, relations.last().1, false)),
            },
        }
    }
}

pub open spec fn relations_view(relations: Seq<(Relation, u64)>) -> Seq<(RelationView, u64)> {
    relations.map_values(|r: (Relation, u64)| (r.0@, r.1))
}

impl Registry {
    /// Every index agrees with the table it was built from.
    pub closed spec fn wf(&self) -> bool {
        &&& self@.events.len() <= 0x1_0000_0000
        &&& forall|i: int| 0 <= i < self@.events.len() ==> (#[trigger] self@.events[i]).id == EventId(
            i as u32,
        )
        &&& forall|key: Seq<char>| #[trigger] self.event_by_key@.contains_key(key) <==> event_named(
            self@.events,
            key,
        ) is Some
        &&& forall|key: Seq<char>| #[trigger]
            self.event_by_key@.contains_key(key) ==> Some(self.event_by_key@[key] as int)
                == event_named(self@.events, key)
        &&& forall|i: int| 0 <= i < self.groups@.len() ==> (#[trigger] self.groups@[i]).wf()
        &&& forall|i: int|
            0 <= i < self.groups@.len() ==> (#[trigger] self.groups@[i]).id == group_id_at(i)
        &&& forall|c: u32|
            self.indexed(c) == #[trigger] groups_containing(self@.groups, ContractId(c))
        &&& forall|c: u32| #[trigger]
            self@.bindings.contains_key(c) ==> c < self@.names.len() && self@.bindings[c].contract_id
                == ContractId(c)
        &&& forall|c: u32| #[trigger]
            self@.bindings.contains_key(c) ==> self@.bindings[c].event.0 < self@.events.len()
        &&& text::views(self.kalshi_tickers@) == tickers_of(self@.names, Venue::Kalshi)
        &&& text::views(self.polymarket_tickers@) == tickers_of(self@.names, Venue::Polymarket)
    }

    /// A group's id is its place.
    pub proof fn lemma_group_ids(&self)
        requires
            self.wf(),
        ensures
            forall|i: int|
                0 <= i < self@.groups.len() ==> (#[trigger] self@.groups[i]).id == group_id_at(i),
    {
        assert forall|i: int| 0 <= i < self@.groups.len() implies (#[trigger] self@.groups[i]).id
            == group_id_at(i) by {
            assert(self@.groups[i] == self.groups@[i]@);
        }
    }

    spec fn indexed(&self, c: u32) -> Seq<GroupId> {
        if self.by_contract@.contains_key(c) {
            self.by_contract@[c]@
        } else {
            Seq::empty()
        }
    }
}

/// The bindings of the contracts below `n`, in id order.
pub open spec fn bindings_below(bindings: Map<u32, BindingView>, n: int) -> Seq<BindingView>
    decreases n,
{
    if n <= 0 {
        Seq::empty()
    } else if bindings.contains_key((n - 1) as u32) {
        bindings_below(bindings, n - 1).push(bindings[(n - 1) as u32])
    } else {
        bindings_below(bindings, n - 1)
    }
}

impl Default for Registry {
    fn default() -> (registry: Self)
        ensures
            registry.wf(),
            registry@ == RegistryView::empty(),
    {
        broadcast use vstd::std_specs::hash::group_hash_axioms;

        let registry = Registry {
            events: Vec::new(),
            event_by_key: StringHashMap::new(),
            bindings: HashMap::new(),
            contracts: Contracts::default(),
            groups: Vec::new(),
            by_contract: HashMap::new(),
            kalshi_tickers: Vec::new(),
            polymarket_tickers: Vec::new(),
        };
        assert(registry@ =~= RegistryView::empty());
        assert(text::views(registry.kalshi_tickers@) =~= Seq::<Seq<char>>::empty());
        assert(text::views(registry.polymarket_tickers@) =~= Seq::<Seq<char>>::empty());
        registry
    }
}

impl Registry {
    /// Build a registry from relations, assigning [`GroupId`]s in input order.
    ///
    /// Validation happens here rather than at query time because a malformed
    /// group is a configuration mistake, and the only useful moment to discover
    /// it is before the engine starts trading on it.
    pub fn new(relations: Vec<(Relation, u64)>) -> (result: Result<Self, RegistryError>)
        ensures
            match result {
                Ok(registry) => built(relations_view(relations@)) == Ok::<
                    RegistryView,
                    RegistryError,
                >(registry@) && registry.wf(),
                Err(error) => built(relations_view(relations@)) == Err::<
                    RegistryView,
                    RegistryError,
                >(error),
            },
    {
        let ghost all = relations_view(relations@);
        let mut registry = Registry::default();
        let ghost given = relations@;
        assert(all.subrange(0, 0) =~= Seq::<(RelationView, u64)>::empty());
        for entry in it: relations
            invariant
                it.seq() == given,
                all == relations_view(given),
                registry.wf(),
                built(all.subrange(0, it.index() as int)) == Ok::<RegistryView, RegistryError>(
                    registry@,
                ),
        {
            let ghost done: int = it.index() as int;
            let (relation, resolves_at_ms) = entry;
            assert(all.subrange(0, done + 1).drop_last() =~= all.subrange(0, done));
            assert(all.subrange(0, done + 1).last() == (relation@, resolves_at_ms));
            match registry.push_group(relation, resolves_at_ms, false) {
                Ok(_) => {},
                Err(error) => {
                    proof {
                        lemma_built_prefix(all, done + 1, error);
                    }
                    return Err(error);
                },
            }
        }
        assert(all.subrange(0, all.len() as int) =~= all);
        Ok(registry)
    }

    /// Validate one relation's shape and file it into the groups and the index.
    pub(crate) fn push_group(
        &mut self,
        relation: Relation,
        resolves_at_ms: u64,
        inferred: bool,
    ) -> (result: Result<GroupId, RegistryError>)
        requires
            old(self).wf(),
        ensures
            final(self).wf(),
            match relation_fault(relation@, group_id_at(old(self)@.groups.len() as int)) {
                Some(error) => result == Err::<GroupId, RegistryError>(error) && final(self)@ == old(
                    self,
                )@,
                None => result == Ok::<GroupId, RegistryError>(
                    group_id_at(old(self)@.groups.len() as int),
                ) && final(self)@ == old(self)@.with_group(relation@, resolves_at_ms, inferred),
            },
    {
        broadcast use vstd::std_specs::hash::group_hash_axioms;

        let count: usize = self.groups.len();
        let id: GroupId = if count <= u32::MAX as usize {
            GroupId(count as u32)
        } else {
            GroupId(u32::MAX)
        };
        let members: Vec<ContractId> = relation.members();
        let complement: bool = match &relation {
            Relation::Complement { .. } => true,
            _ => false,
        };
        if members.len() < 2 && !complement {
            return Err(RegistryError::TooFewMembers { group: id, got: members.len() });
        }
        match repeated(members.as_slice()) {
            Some(contract) => {
                return Err(RegistryError::DuplicateMember { group: id, contract });
            },
            None => {},
        }
        proof {
            lemma_no_repeat(members@, members@.len() as int);
        }
        let ghost before = *self;
        let mut i: usize = 0;
        while i < members.len()
            invariant
                i <= members@.len(),
                members@.no_duplicates(),
                self.events == before.events,
                self.event_by_key == before.event_by_key,
                self.bindings == before.bindings,
                self.contracts == before.contracts,
                self.groups == before.groups,
                self.kalshi_tickers == before.kalshi_tickers,
                self.polymarket_tickers == before.polymarket_tickers,
                forall|c: u32|
                    #[trigger] self.indexed(c) == (if members@.subrange(0, i as int).contains(
                        ContractId(c),
                    ) {
                        before.indexed(c).push(id)
                    } else {
                        before.indexed(c)
                    }),
            decreases members@.len() - i,
        {
            broadcast use vstd::std_specs::hash::group_hash_axioms;

            let contract: ContractId = members[i];
            let ghost held = *self;
            let mut list: Vec<GroupId> = match self.by_contract.remove(&contract.0) {
                Some(list) => list,
                None => Vec::new(),
            };
            assert(list@ == held.indexed(contract.0));
            list.push(id);
            self.by_contract.insert(contract.0, list);
            proof {
                let done = members@.subrange(0, i as int);
                let next = members@.subrange(0, i + 1);
                assert(next =~= done.push(contract));
                assert forall|c: u32| #[trigger]
                    self.indexed(c) == (if next.contains(ContractId(c)) {
                        before.indexed(c).push(id)
                    } else {
                        before.indexed(c)
                    }) by {
                    assert(held.indexed(c) == (if done.contains(ContractId(c)) {
                        before.indexed(c).push(id)
                    } else {
                        before.indexed(c)
                    }));
                    if c == contract.0 {
                        assert(next[i as int] == contract);
                        assert(!done.contains(contract)) by {
                            if done.contains(contract) {
                                let k = choose|k: int| 0 <= k < done.len() && done[k] == contract;
                                assert(members@[k] == members@[i as int]);
                            }
                        }
                        assert(self.indexed(c) == before.indexed(c).push(id));
                    } else {
                        assert(self.indexed(c) == held.indexed(c));
                        if next.contains(ContractId(c)) {
                            let k = choose|k: int| 0 <= k < next.len() && next[k] == ContractId(c);
                            assert(done[k] == ContractId(c));
                        }
                        if done.contains(ContractId(c)) {
                            let k = choose|k: int| 0 <= k < done.len() && done[k] == ContractId(c);
                            assert(next[k] == ContractId(c));
                        }
                    }
                }
            }
            i = i + 1;
        }
        assert(members@.subrange(0, members@.len() as int) =~= members@);
        let ghost group_view = GroupView { id, relation: relation@, resolves_at_ms, inferred };
        let ghost filed = *self;
        self.groups.push(
            ConstraintGroup { id, relation, members, resolves_at_ms, inferred },
        );
        proof {
            assert(self@.groups =~= before@.groups.push(group_view));
            assert(self@ =~= before@.with_group(relation@, resolves_at_ms, inferred));
            assert(self@.groups.drop_last() =~= before@.groups);
            assert forall|c: u32| self.indexed(c) == #[trigger] groups_containing(
                self@.groups,
                ContractId(c),
            ) by {
                assert(self.indexed(c) == filed.indexed(c));
                assert(before.indexed(c) == groups_containing(before@.groups, ContractId(c)));
            }
        }
        Ok(id)
    }

    /// Number a name, and list it among its venue's.
    pub(crate) fn intern(&mut self, venue: Venue, key: &str) -> (result: Result<
        ContractId,
        InternError,
    >)
        requires
            old(self).wf(),
        ensures
            final(self).wf(),
            final(self)@.names.no_duplicates(),
            final(self)@.names.len() <= 0x1_0000_0000,
            match result {
                Ok(id) => final(self)@ == old(self)@.with_name(venue, key@) && types::lookup(
                    final(self)@.names,
                    venue,
                    key@,
                ) == Some(id) && id.0 < final(self)@.names.len(),
                Err(_) => final(self)@ == old(self)@ && !old(self)@.names.contains((venue, key@))
                    && old(self)@.names.len() > u32::MAX,
            },
    {
        let ghost before = *self;
        let known: bool = self.contracts.get(venue, key).is_some();
        let result: Result<ContractId, InternError> = self.contracts.intern(venue, key);
        if result.is_ok() && !known {
            match venue {
                Venue::Kalshi => {
                    self.kalshi_tickers.push(key.to_owned());
                    assert(text::views(self.kalshi_tickers@) =~= text::views(
                        before.kalshi_tickers@,
                    ).push(key@));
                },
                Venue::Polymarket => {
                    self.polymarket_tickers.push(key.to_owned());
                    assert(text::views(self.polymarket_tickers@) =~= text::views(
                        before.polymarket_tickers@,
                    ).push(key@));
                },
            }
            assert(self@.names == before@.names.push((venue, key@)));
            assert(self@.names.drop_last() =~= before@.names);
        }
        proof {
            assert(self@.events == before@.events);
            assert(self@.bindings == before@.bindings);
            assert(self@.groups == before@.groups);
            assert forall|c: u32| self.indexed(c) == #[trigger] groups_containing(
                self@.groups,
                ContractId(c),
            ) by {
                assert(before.indexed(c) == groups_containing(before@.groups, ContractId(c)));
            }
            if result.is_ok() {
                assert(self@ =~= before@.with_name(venue, key@));
            } else {
                assert(self@ =~= before@);
            }
        }
        result
    }

    /// File an event under the next number and its key.
    pub(crate) fn push_event(
        &mut self,
        key: &str,
        description: &str,
        resolves_at: Timestamp,
        resolution_source: String,
        theme: Option<String>,
        resolution_rules_hash: u64,
    ) -> (id: Option<EventId>)
        requires
            old(self).wf(),
        ensures
            final(self).wf(),
            match id {
                Some(id) => id == EventId(old(self)@.events.len() as u32) && old(
                    self,
                )@.events.len() <= u32::MAX && final(self)@ == old(self)@.with_event(
                    EventView {
                        id,
                        key: key@,
                        description: description@,
                        resolves_at,
                        resolution_source: resolution_source@,
                        theme: match theme {
                            Some(theme) => Some(theme@),
                            None => None,
                        },
                        resolution_rules_hash,
                    },
                ),
                None => old(self)@.events.len() > u32::MAX && final(self)@ == old(self)@,
            },
    {
        let count: usize = self.events.len();
        if count > u32::MAX as usize {
            return None;
        }
        let id: EventId = EventId(count as u32);
        let ghost before = *self;
        let event = CanonicalEvent {
            id,
            key: key.to_owned(),
            description: description.to_owned(),
            resolves_at,
            resolution_source,
            theme,
            resolution_rules_hash,
        };
        let ghost said = event@;
        self.events.push(event);
        self.event_by_key.insert(key.to_owned(), id.0);
        proof {
            assert(self@.events =~= before@.events.push(said));
            assert(self@ =~= before@.with_event(said));
            assert(self@.events.drop_last() =~= before@.events);
            assert forall|k: Seq<char>| #[trigger]
                self.event_by_key@.contains_key(k) <==> event_named(self@.events, k) is Some by {
                assert(before.event_by_key@.contains_key(k) <==> event_named(
                    before@.events,
                    k,
                ) is Some);
            }
            assert forall|k: Seq<char>| #[trigger] self.event_by_key@.contains_key(k) implies Some(
                self.event_by_key@[k] as int,
            ) == event_named(self@.events, k) by {
                if k != key@ {
                    assert(before.event_by_key@.contains_key(k));
                }
            }
            assert forall|c: u32| self.indexed(c) == #[trigger] groups_containing(
                self@.groups,
                ContractId(c),
            ) by {
                assert(before.indexed(c) == groups_containing(before@.groups, ContractId(c)));
            }
        }
        Some(id)
    }

    /// Bind a contract to an event.
    pub(crate) fn bind(&mut self, binding: ContractBinding)
        requires
            old(self).wf(),
            binding.contract_id.0 < old(self)@.names.len(),
            binding.event.0 < old(self)@.events.len(),
        ensures
            final(self).wf(),
            final(self)@ == old(self)@.with_binding(binding@),
    {
        broadcast use vstd::std_specs::hash::group_hash_axioms;

        let ghost before = *self;
        let ghost said = binding@;
        let contract: u32 = binding.contract_id.0;
        self.bindings.insert(contract, binding);
        proof {
            assert(self@.bindings =~= before@.bindings.insert(contract, said));
            assert(self@ =~= before@.with_binding(said));
            assert forall|c: u32| self.indexed(c) == #[trigger] groups_containing(
                self@.groups,
                ContractId(c),
            ) by {
                assert(before.indexed(c) == groups_containing(before@.groups, ContractId(c)));
            }
        }
    }

    pub fn groups(&self) -> (groups: &[ConstraintGroup])
        requires
            self.wf(),
        ensures
            groups@.map_values(|g: ConstraintGroup| g@) == self@.groups,
            forall|i: int| 0 <= i < groups@.len() ==> (#[trigger] groups@[i]).wf(),
    {
        self.groups.as_slice()
    }

    pub fn group(&self, id: GroupId) -> (found: Option<&ConstraintGroup>)
        requires
            self.wf(),
        ensures
            match found {
                Some(group) => id.0 < self@.groups.len() && group@ == self@.groups[id.0 as int]
                    && group.wf(),
                None => id.0 >= self@.groups.len(),
            },
    {
        if (id.0 as usize) < self.groups.len() {
            let group: &ConstraintGroup = &self.groups[id.0 as usize];
            assert(self.groups@[id.0 as int].wf());
            Some(group)
        } else {
            None
        }
    }

    /// Groups containing this contract. The reverse index that makes dirty
    /// marking a hash lookup instead of a scan over every group.
    pub fn groups_for(&self, contract: ContractId) -> (ids: Vec<GroupId>)
        requires
            self.wf(),
        ensures
            ids@ == groups_containing(self@.groups, contract),
    {
        broadcast use vstd::std_specs::hash::group_hash_axioms;

        assert(self.indexed(contract.0) == groups_containing(
            self@.groups,
            ContractId(contract.0),
        ));
        match self.by_contract.get(&contract.0) {
            Some(ids) => slice_to_vec(ids.as_slice()),
            None => Vec::new(),
        }
    }

    pub fn events(&self) -> (events: &[CanonicalEvent])
        ensures
            events@.map_values(|e: CanonicalEvent| e@) == self@.events,
    {
        self.events.as_slice()
    }

    pub fn event(&self, id: EventId) -> (found: Option<&CanonicalEvent>)
        ensures
            match found {
                Some(event) => id.0 < self@.events.len() && event@ == self@.events[id.0 as int],
                None => id.0 >= self@.events.len(),
            },
    {
        if (id.0 as usize) < self.events.len() {
            Some(&self.events[id.0 as usize])
        } else {
            None
        }
    }

    pub fn event_by_key(&self, key: &str) -> (found: Option<&CanonicalEvent>)
        requires
            self.wf(),
        ensures
            match found {
                Some(event) => event_named(self@.events, key@) matches Some(i) && 0 <= i
                    < self@.events.len() && event@ == self@.events[i],
                None => event_named(self@.events, key@) is None,
            },
    {
        match self.event_by_key.get(key) {
            Some(id) => {
                proof {
                    lemma_event_named(self@.events, key@);
                }
                self.event(EventId(*id))
            },
            None => None,
        }
    }

    /// The number of the event under a key.
    pub(crate) fn event_number(&self, key: &str) -> (found: Option<EventId>)
        requires
            self.wf(),
        ensures
            match found {
                Some(id) => event_named(self@.events, key@) == Some(id.0 as int) && id.0
                    < self@.events.len(),
                None => event_named(self@.events, key@) is None,
            },
    {
        match self.event_by_key.get(key) {
            Some(id) => {
                proof {
                    lemma_event_named(self@.events, key@);
                }
                Some(EventId(*id))
            },
            None => None,
        }
    }

    pub fn binding(&self, contract: ContractId) -> (found: Option<&ContractBinding>)
        ensures
            match found {
                Some(binding) => self@.bindings.contains_key(contract.0) && binding@
                    == self@.bindings[contract.0],
                None => !self@.bindings.contains_key(contract.0),
            },
    {
        broadcast use vstd::std_specs::hash::group_hash_axioms;

        self.bindings.get(&contract.0)
    }

    /// The event a contract is bound to, and the event's key.
    pub(crate) fn bound_event(&self, contract: ContractId) -> (found: Option<(EventId, &str)>)
        requires
            self.wf(),
        ensures
            match found {
                Some((event, key)) => self@.bindings.contains_key(contract.0)
                    && self@.bindings[contract.0].event == event && event.0 < self@.events.len()
                    && self@.events[event.0 as int].key == key@,
                None => !self@.bindings.contains_key(contract.0),
            },
    {
        match self.binding(contract) {
            Some(binding) => {
                assert(self@.bindings.contains_key(contract.0));
                let event: EventId = binding.event;
                let key: &str = self.events[event.0 as usize].key.as_str();
                assert(self@.events[event.0 as int].key == key@);
                Some((event, key))
            },
            None => None,
        }
    }

    /// Every binding, in contract order.
    pub fn bindings(&self) -> (bindings: Vec<&ContractBinding>)
        requires
            self.wf(),
        ensures
            bindings@.map_values(|b: &ContractBinding| b@) == bindings_below(
                self@.bindings,
                self@.names.len() as int,
            ),
    {
        broadcast use vstd::std_specs::hash::group_hash_axioms;

        self.contracts.distinct();
        let mut bindings: Vec<&ContractBinding> = Vec::new();
        let count: usize = self.contracts.len();
        let mut i: usize = 0;
        assert(bindings@.map_values(|b: &ContractBinding| b@) =~= Seq::<BindingView>::empty());
        while i < count
            invariant
                i <= count,
                count == self@.names.len(),
                count <= 0x1_0000_0000,
                bindings@.map_values(|b: &ContractBinding| b@) == bindings_below(
                    self@.bindings,
                    i as int,
                ),
            decreases count - i,
        {
            let ghost before = bindings@;
            match self.binding(ContractId(i as u32)) {
                Some(binding) => {
                    bindings.push(binding);
                    assert(bindings@.map_values(|b: &ContractBinding| b@) =~= before.map_values(
                        |b: &ContractBinding| b@,
                    ).push(binding@));
                },
                None => {},
            }
            i = i + 1;
        }
        bindings
    }

    pub fn contracts(&self) -> (contracts: &Contracts)
        ensures
            contracts@ == self@.names,
    {
        &self.contracts
    }

    /// Tickers for one venue, in the order their [`ContractId`]s were assigned.
    ///
    /// Hand this list to the parser and the book store. Passing anything else,
    /// including the same tickers in another order, silently shifts every id.
    pub fn tickers(&self, venue: Venue) -> (tickers: &[String])
        requires
            self.wf(),
        ensures
            text::views(tickers@) == tickers_of(self@.names, venue),
    {
        match venue {
            Venue::Kalshi => self.kalshi_tickers.as_slice(),
            Venue::Polymarket => self.polymarket_tickers.as_slice(),
        }
    }

    /// Groups nobody has confirmed by hand.
    pub fn inferred_count(&self) -> (count: usize)
        ensures
            count == self@.groups.filter(|g: GroupView| g.inferred).len(),
    {
        let mut count: usize = 0;
        let mut i: usize = 0;
        let ghost all = self@.groups;
        assert(all.subrange(0, 0).filter(|g: GroupView| g.inferred) =~= Seq::<GroupView>::empty());
        while i < self.groups.len()
            invariant
                i <= self.groups@.len(),
                all == self.groups@.map_values(|g: ConstraintGroup| g@),
                count <= i,
                count == all.subrange(0, i as int).filter(|g: GroupView| g.inferred).len(),
            decreases self.groups@.len() - i,
        {
            proof {
                assert(all.subrange(0, i + 1) =~= all.subrange(0, i as int).push(all[i as int]));
                reveal(Seq::filter);
                assert(all.subrange(0, i + 1).drop_last() =~= all.subrange(0, i as int));
            }
            if self.groups[i].inferred {
                count = count + 1;
            }
            i = i + 1;
        }
        assert(all.subrange(0, all.len() as int) =~= all);
        count
    }
}

/// The first contract that stands twice.
fn repeated(members: &[ContractId]) -> (found: Option<ContractId>)
    ensures
        found == first_repeat(members@, members@.len() as int),
{
    let mut i: usize = 0;
    while i < members.len()
        invariant
            i <= members@.len(),
            first_repeat(members@, i as int) is None,
        decreases members@.len() - i,
    {
        let contract: ContractId = members[i];
        let mut j: usize = 0;
        while j < i
            invariant
                j <= i < members@.len(),
                contract == members@[i as int],
                first_repeat(members@, i as int) is None,
                forall|k: int| 0 <= k < j ==> members@[k] != contract,
            decreases i - j,
        {
            if members[j] == contract {
                proof {
                    assert(members@.subrange(0, i as int)[j as int] == contract);
                    assert(first_repeat(members@, i + 1) == Some(contract));
                    lemma_first_repeat_prefix(members@, i + 1, members@.len() as int);
                }
                return Some(contract);
            }
            j = j + 1;
        }
        assert(!members@.subrange(0, i as int).contains(contract)) by {
            if members@.subrange(0, i as int).contains(contract) {
                let k = choose|k: int|
                    0 <= k < i && members@.subrange(0, i as int)[k] == contract;
                assert(members@[k] == contract);
            }
        }
        i = i + 1;
    }
    None
}

proof fn lemma_first_repeat_prefix(members: Seq<ContractId>, i: int, n: int)
    requires
        0 <= i <= n,
        first_repeat(members, i) is Some,
    ensures
        first_repeat(members, n) == first_repeat(members, i),
    decreases n,
{
    if i < n {
        lemma_first_repeat_prefix(members, i, n - 1);
    }
}

/// A list in which no contract repeats holds no duplicates.
proof fn lemma_no_repeat(members: Seq<ContractId>, n: int)
    requires
        0 <= n <= members.len(),
        first_repeat(members, n) is None,
    ensures
        members.subrange(0, n).no_duplicates(),
        n == members.len() ==> members.no_duplicates(),
    decreases n,
{
    if n > 0 {
        lemma_no_repeat(members, n - 1);
        let front = members.subrange(0, n - 1);
        let all = members.subrange(0, n);
        assert(!front.contains(members[n - 1]));
        assert forall|i: int, j: int| 0 <= i < n && 0 <= j < n && i != j implies all[i] != all[j] by {
            if i < n - 1 && j < n - 1 {
                assert(front[i] == all[i] && front[j] == all[j]);
            } else if i < n - 1 {
                assert(front[i] == all[i]);
            } else {
                assert(front[j] == all[j]);
            }
        }
    }
    if n == members.len() {
        assert(members.subrange(0, n) =~= members);
    }
}

proof fn lemma_built_prefix(relations: Seq<(RelationView, u64)>, n: int, error: RegistryError)
    requires
        0 < n <= relations.len(),
        built(relations.subrange(0, n)) == Err::<RegistryView, RegistryError>(error),
    ensures
        built(relations) == Err::<RegistryView, RegistryError>(error),
    decreases relations.len(),
{
    if n == relations.len() {
        assert(relations.subrange(0, n) =~= relations);
    } else {
        assert(relations.drop_last().subrange(0, n) =~= relations.subrange(0, n));
        lemma_built_prefix(relations.drop_last(), n, error);
    }
}

pub proof fn lemma_event_named(events: Seq<EventView>, key: Seq<char>)
    ensures
        event_named(events, key) matches Some(i) ==> 0 <= i < events.len() && events[i].key == key,
    decreases events.len(),
{
    if events.len() > 0 {
        lemma_event_named(events.drop_last(), key);
    }
}

} // verus!
