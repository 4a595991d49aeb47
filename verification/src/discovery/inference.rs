//! What the venue's metadata says about its own markets: complements,
//! exhaustive sets, and threshold ladders.
use vstd::prelude::*;
use vstd::hash_map::StringHashMap;
use super::{Listing, MarketView, RawEventView, RawMarket, Universe, UniverseView};
use crate::discovery;
use crate::order;
use crate::registry::{Relation, RelationView};
use crate::text;
use crate::timestamp::{self, Timestamp};
use crate::types::{self, ContractId, Contracts, Instrument, Venue};

verus! {

/// What inference produced, and what it declined to touch.
#[derive(Clone, Copy, Debug, Default, PartialEq, Eq, Structural)]
pub struct InferenceReport {
    pub markets: usize,
    pub events: usize,
    /// Events represented by one Kalshi binary market (the usual Yes/No pair).
    pub binary_events: usize,
    pub complements: usize,
    pub exhaustive_sets: usize,
    pub ladders: usize,
    /// Multi-market events whose structure the venue did not describe.
    pub events_not_inferable: usize,
}

#[derive(Clone, Copy, Debug, PartialEq, Eq, Structural)]
pub enum InferredKind {
    Complement,
    Exhaustive,
    Monotone,
}

/// A relation plus the tickers it relates, before interning.
#[derive(Clone, Debug, PartialEq)]
pub struct InferredGroup {
    pub relation_kind: InferredKind,
    pub tickers: Vec<String>,
    pub event_ticker: String,
}

/// What an [`InferredGroup`] says.
#[verifier::ext_equal]
pub struct InferredView {
    pub relation_kind: InferredKind,
    pub tickers: Seq<Seq<char>>,
    pub event_ticker: Seq<char>,
}

impl View for InferredGroup {
    type V = InferredView;

    open spec fn view(&self) -> InferredView {
        InferredView {
            relation_kind: self.relation_kind,
            tickers: text::views(self.tickers@),
            event_ticker: self.event_ticker@,
        }
    }
}

pub open spec fn inferred_view(groups: Seq<InferredGroup>) -> Seq<InferredView> {
    groups.map_values(|g: InferredGroup| g@)
}

/// The tickers of a list of markets.
pub open spec fn tickers(markets: Seq<MarketView>) -> Seq<Seq<char>> {
    markets.map_values(|m: MarketView| m.ticker)
}

/// Where each market stands on the ladder of its kind, the weakest claim
/// lowest, if each of them has a place.
///
/// "greater" rungs ascend by threshold, because a lower bar is easier to clear.
/// "less" rungs run the other way: "below 80,000" is more likely than "below
/// 70,000".
pub open spec fn rungs(markets: Seq<MarketView>, kind: Seq<char>) -> Option<Seq<i128>> {
    if kind == "greater"@ {
        if forall|i: int| 0 <= i < markets.len() ==> (#[trigger] markets[i]).floor_strike is Some {
            Some(markets.map_values(|m: MarketView| m.floor_strike->0 as i128))
        } else {
            None
        }
    } else if kind == "less"@ {
        if forall|i: int| 0 <= i < markets.len() ==> (#[trigger] markets[i]).cap_strike is Some {
            Some(markets.map_values(|m: MarketView| (-(m.cap_strike->0 as int)) as i128))
        } else {
            None
        }
    } else {
        None
    }
}

/// Every market has this strike type.
pub open spec fn all_of_kind(markets: Seq<MarketView>, kind: Seq<char>) -> bool {
    forall|i: int| 0 <= i < markets.len() ==> (#[trigger] markets[i]).strike_type == Some(kind)
}

/// The tickers of a threshold ladder, weakest claim first, if that is what the
/// markets are: one described kind, a threshold each, and no two alike.
pub open spec fn ladder(markets: Seq<MarketView>) -> Option<Seq<Seq<char>>> {
    if markets.len() == 0 || markets[0].strike_type is None {
        None
    } else {
        let kind = markets[0].strike_type->0;
        if !all_of_kind(markets, kind) {
            None
        } else {
            match rungs(markets, kind) {
                Some(keys) => if keys.no_duplicates() {
                    Some(order::number_places(keys).map_values(|p: usize| markets[p as int].ticker))
                } else {
                    None
                },
                None => None,
            }
        }
    }
}

/// What the markets of one event are to each other.
pub enum Structure {
    /// One market, so nothing beyond its own two outcomes.
    Binary,
    Exhaustive { members: Seq<Seq<char>> },
    Ladder { ordered: Seq<Seq<char>> },
    /// The venue did not say.
    Undescribed,
}

/// A mutually exclusive event is a partition, not a ladder: reading its
/// brackets as nested claims would invert the relation and make every adjacent
/// pair look crossed.
pub open spec fn structure(events: Seq<RawEventView>, listing: Listing) -> Structure {
    if listing.1.len() < 2 {
        Structure::Binary
    } else if discovery::is_exclusive(events, listing.0) {
        Structure::Exhaustive { members: tickers(listing.1) }
    } else {
        match ladder(listing.1) {
            Some(ordered) => Structure::Ladder { ordered },
            None => Structure::Undescribed,
        }
    }
}

/// Every binary market owes a dollar across its own two outcomes, whatever else
/// its event turns out to be.
pub open spec fn complements(listing: Listing) -> Seq<InferredView> {
    listing.1.map_values(
        |m: MarketView|
            InferredView {
                relation_kind: InferredKind::Complement,
                tickers: seq![m.ticker],
                event_ticker: listing.0,
            },
    )
}

/// The groups of one event.
pub open spec fn event_groups(events: Seq<RawEventView>, listing: Listing) -> Seq<InferredView> {
    let single = complements(listing);
    match structure(events, listing) {
        Structure::Exhaustive { members } => single.push(
            InferredView {
                relation_kind: InferredKind::Exhaustive,
                tickers: members,
                event_ticker: listing.0,
            },
        ),
        Structure::Ladder { ordered } => single.push(
            InferredView {
                relation_kind: InferredKind::Monotone,
                tickers: ordered,
                event_ticker: listing.0,
            },
        ),
        _ => single,
    }
}

/// The groups of a list of events, event by event.
pub open spec fn groups_of(events: Seq<RawEventView>, listings: Seq<Listing>) -> Seq<InferredView>
    decreases listings.len(),
{
    if listings.len() == 0 {
        Seq::empty()
    } else {
        groups_of(events, listings.drop_last()) + event_groups(events, listings.last())
    }
}

/// The groups a universe describes.
pub open spec fn inferred(universe: UniverseView) -> Seq<InferredView> {
    groups_of(universe.events, discovery::grouped(universe.markets))
}

/// How many of the groups are of a kind.
pub open spec fn of_kind(groups: Seq<InferredView>, kind: InferredKind) -> nat {
    groups.filter(|g: InferredView| g.relation_kind == kind).len()
}

/// How many events consist of one market.
pub open spec fn binaries(events: Seq<RawEventView>, listings: Seq<Listing>) -> nat {
    listings.filter(|l: Listing| structure(events, l) is Binary).len()
}

/// How many events the venue did not describe.
pub open spec fn undescribed(events: Seq<RawEventView>, listings: Seq<Listing>) -> nat {
    listings.filter(|l: Listing| structure(events, l) is Undescribed).len()
}

/// A report counts the groups and the events of a universe.
pub open spec fn reports(report: InferenceReport, universe: UniverseView) -> bool {
    let listings = discovery::grouped(universe.markets);
    &&& report.markets == universe.markets.len()
    &&& report.events == listings.len()
    &&& report.binary_events == binaries(universe.events, listings)
    &&& report.complements == of_kind(inferred(universe), InferredKind::Complement)
    &&& report.exhaustive_sets == of_kind(inferred(universe), InferredKind::Exhaustive)
    &&& report.ladders == of_kind(inferred(universe), InferredKind::Monotone)
    &&& report.events_not_inferable == undescribed(universe.events, listings)
}

/// What an event's markets turned out to be.
enum Found {
    Binary,
    Exhaustive(Vec<String>),
    Ladder(Vec<String>),
    Undescribed,
}

impl Found {
    spec fn says(self) -> Structure {
        match self {
            Found::Binary => Structure::Binary,
            Found::Exhaustive(members) => Structure::Exhaustive { members: text::views(members@) },
            Found::Ladder(ordered) => Structure::Ladder { ordered: text::views(ordered@) },
            Found::Undescribed => Structure::Undescribed,
        }
    }
}

/// What the markets of one event are to each other.
fn describe(universe: &Universe, event: &str, markets: &[&RawMarket]) -> (found: Found)
    ensures
        found.says() == structure(universe@.events, (event@, discovery::refs_view(markets@))),
{
    if markets.len() < 2 {
        return Found::Binary;
    }
    let exclusive: bool = match universe.event(event) {
        Some(event) => event.mutually_exclusive,
        None => false,
    };
    if exclusive {
        let mut members: Vec<String> = Vec::new();
        let mut k: usize = 0;
        while k < markets.len()
            invariant
                k <= markets@.len(),
                members@.len() == k,
                forall|m: int| 0 <= m < k ==> (#[trigger] members@[m])@ == markets@[m].ticker@,
            decreases markets@.len() - k,
        {
            members.push(markets[k].ticker.as_str().to_owned());
            k = k + 1;
        }
        assert(text::views(members@) =~= tickers(discovery::refs_view(markets@)));
        return Found::Exhaustive(members);
    }
    match ladder_order(markets) {
        Some(ordered) => Found::Ladder(ordered),
        None => Found::Undescribed,
    }
}

/// The complement of every market of one event.
fn singles(event: &str, markets: &[&RawMarket]) -> (groups: Vec<InferredGroup>)
    ensures
        inferred_view(groups@) == complements((event@, discovery::refs_view(markets@))),
        groups@.len() == markets@.len(),
{
    let mut groups: Vec<InferredGroup> = Vec::new();
    let mut j: usize = 0;
    while j < markets.len()
        invariant
            j <= markets@.len(),
            groups@.len() == j,
            forall|k: int|
                0 <= k < j ==> (#[trigger] groups@[k])@ == (InferredView {
                    relation_kind: InferredKind::Complement,
                    tickers: seq![markets@[k].ticker@],
                    event_ticker: event@,
                }),
        decreases markets@.len() - j,
    {
        let ticker: String = markets[j].ticker.as_str().to_owned();
        let group = InferredGroup {
            relation_kind: InferredKind::Complement,
            tickers: vec![ticker],
            event_ticker: event.to_owned(),
        };
        assert(text::views(group.tickers@) =~= seq![markets@[j as int].ticker@]);
        groups.push(group);
        j = j + 1;
    }
    assert(inferred_view(groups@) =~= complements((event@, discovery::refs_view(markets@))));
    groups
}

/// How many groups of each kind there are, and no others.
spec fn counted(groups: Seq<InferredView>, report: InferenceReport) -> bool {
    &&& report.complements == of_kind(groups, InferredKind::Complement)
    &&& report.exhaustive_sets == of_kind(groups, InferredKind::Exhaustive)
    &&& report.ladders == of_kind(groups, InferredKind::Monotone)
    &&& report.complements + report.exhaustive_sets + report.ladders == groups.len()
}

/// Read the constraint structure the venue already published.
pub fn infer_groups(universe: &Universe) -> (found: (Vec<InferredGroup>, InferenceReport))
    ensures
        inferred_view(found.0@) == inferred(universe@),
        reports(found.1, universe@),
{
    let listings: Vec<(&str, Vec<&RawMarket>)> = universe.by_event();
    let ghost all = discovery::grouped(universe@.markets);
    let ghost events = universe@.events;
    let mut groups: Vec<InferredGroup> = Vec::new();
    let mut report = InferenceReport {
        markets: universe.markets.len(),
        events: listings.len(),
        binary_events: 0,
        complements: 0,
        exhaustive_sets: 0,
        ladders: 0,
        events_not_inferable: 0,
    };
    proof {
        assert(all.subrange(0, 0) =~= Seq::<Listing>::empty());
        assert(inferred_view(groups@) =~= Seq::<InferredView>::empty());
        lemma_nothing_counted(events);
    }
    let mut i: usize = 0;
    while i < listings.len()
        invariant
            i <= listings@.len(),
            all == discovery::listings_view(listings@),
            events == universe@.events,
            inferred_view(groups@) == groups_of(events, all.subrange(0, i as int)),
            report.markets == universe@.markets.len(),
            report.events == all.len(),
            report.binary_events == binaries(events, all.subrange(0, i as int)),
            report.events_not_inferable == undescribed(events, all.subrange(0, i as int)),
            report.binary_events <= i,
            report.events_not_inferable <= i,
            counted(inferred_view(groups@), report),
        decreases listings@.len() - i,
    {
        let ghost done = all.subrange(0, i as int);
        let ghost next = all.subrange(0, i + 1);
        let ghost listing = all[i as int];
        proof {
            assert(next.drop_last() =~= done);
            assert(next =~= done.push(listing));
            lemma_one_event_more(events, done, listing);
        }
        let event: &str = listings[i].0;
        let markets: &[&RawMarket] = listings[i].1.as_slice();
        assert(listing == (event@, discovery::refs_view(markets@)));
        let ghost before = inferred_view(groups@);
        let mut single: Vec<InferredGroup> = singles(event, markets);
        let ghost singled = complements(listing);
        let ghost held = groups@;
        proof {
            lemma_complements_counted(before, listing);
        }
        let room: usize = single.len();
        groups.append(&mut single);
        let total: usize = groups.len();
        assert(inferred_view(groups@) =~= before + singled);
        report.complements = report.complements + room;
        let ghost base = before + singled;
        match describe(universe, event, markets) {
            Found::Binary => {
                report.binary_events = report.binary_events + 1;
            },
            Found::Exhaustive(members) => {
                let group = InferredGroup {
                    relation_kind: InferredKind::Exhaustive,
                    tickers: members,
                    event_ticker: event.to_owned(),
                };
                proof {
                    lemma_one_more(base, group@);
                    assert(inferred_view(groups@.push(group)) =~= base.push(group@));
                    assert(before + singled.push(group@) =~= base.push(group@));
                }
                groups.push(group);
                let total: usize = groups.len();
                report.exhaustive_sets = report.exhaustive_sets + 1;
            },
            Found::Ladder(ordered) => {
                let group = InferredGroup {
                    relation_kind: InferredKind::Monotone,
                    tickers: ordered,
                    event_ticker: event.to_owned(),
                };
                proof {
                    lemma_one_more(base, group@);
                    assert(inferred_view(groups@.push(group)) =~= base.push(group@));
                    assert(before + singled.push(group@) =~= base.push(group@));
                }
                groups.push(group);
                let total: usize = groups.len();
                report.ladders = report.ladders + 1;
            },
            Found::Undescribed => {
                report.events_not_inferable = report.events_not_inferable + 1;
            },
        }
        i = i + 1;
    }
    assert(all.subrange(0, all.len() as int) =~= all);
    (groups, report)
}

proof fn lemma_nothing_counted(events: Seq<RawEventView>)
    ensures
        binaries(events, Seq::empty()) == 0,
        undescribed(events, Seq::empty()) == 0,
        forall|kind: InferredKind| #[trigger] of_kind(Seq::empty(), kind) == 0,
{
    reveal(Seq::filter);
}

/// One more event counts where its structure says.
proof fn lemma_one_event_more(events: Seq<RawEventView>, done: Seq<Listing>, listing: Listing)
    ensures
        binaries(events, done.push(listing)) == binaries(events, done) + (if structure(
            events,
            listing,
        ) is Binary {
            1nat
        } else {
            0nat
        }),
        undescribed(events, done.push(listing)) == undescribed(events, done) + (if structure(
            events,
            listing,
        ) is Undescribed {
            1nat
        } else {
            0nat
        }),
{
    done.lemma_filter_push(listing, |l: Listing| structure(events, l) is Binary);
    done.lemma_filter_push(listing, |l: Listing| structure(events, l) is Undescribed);
}

/// One more group is one more of its kind.
proof fn lemma_one_more(groups: Seq<InferredView>, group: InferredView)
    ensures
        forall|kind: InferredKind| #[trigger]
            of_kind(groups.push(group), kind) == of_kind(groups, kind) + (if group.relation_kind
                == kind {
                1nat
            } else {
                0nat
            }),
{
    assert forall|kind: InferredKind| #[trigger]
        of_kind(groups.push(group), kind) == of_kind(groups, kind) + (if group.relation_kind
            == kind {
            1nat
        } else {
            0nat
        }) by {
        groups.lemma_filter_push(group, |g: InferredView| g.relation_kind == kind);
    }
}

/// The complements of an event are complements, one to a market.
proof fn lemma_complements_counted(groups: Seq<InferredView>, listing: Listing)
    ensures
        forall|kind: InferredKind| #[trigger]
            of_kind(groups + complements(listing), kind) == of_kind(groups, kind) + (if kind
                is Complement {
                listing.1.len()
            } else {
                0nat
            }),
        (groups + complements(listing)).len() == groups.len() + listing.1.len(),
    decreases listing.1.len(),
{
    let all = complements(listing);
    if listing.1.len() == 0 {
        assert(groups + all =~= groups);
    } else {
        let fewer = (listing.0, listing.1.drop_last());
        lemma_complements_counted(groups, fewer);
        lemma_one_more(groups + complements(fewer), all.last());
        assert((groups + complements(fewer)).push(all.last()) =~= groups + all);
    }
}

/// Order a threshold ladder weakest claim first, if that is what this is.
///
/// Anything mixed, unthresholded, or tied is not a ladder this function is
/// willing to name.
fn ladder_order(markets: &[&RawMarket]) -> (ordered: Option<Vec<String>>)
    ensures
        match ordered {
            Some(tickers) => ladder(discovery::refs_view(markets@)) == Some(text::views(tickers@)),
            None => ladder(discovery::refs_view(markets@)) is None,
        },
{
    let ghost all = discovery::refs_view(markets@);
    if markets.len() == 0 {
        return None;
    }
    let kind: &str = match &markets[0].strike_type {
        Some(kind) => kind.as_str(),
        None => {
            assert(all[0].strike_type is None);
            return None;
        },
    };
    assert(all[0].strike_type == Some(kind@));
    if !of_one_kind(markets, kind) {
        return None;
    }
    let keys: Vec<i128> = match rung_places(markets, kind) {
        Some(keys) => keys,
        None => {
            return None;
        },
    };
    if tied(keys.as_slice()) {
        return None;
    }
    let turn: Vec<usize> = order::number_order(keys.as_slice());
    let mut ordered: Vec<String> = Vec::new();
    let mut i: usize = 0;
    while i < turn.len()
        invariant
            i <= turn@.len(),
            turn@.len() == markets@.len(),
            all == discovery::refs_view(markets@),
            forall|k: int| 0 <= k < turn@.len() ==> (#[trigger] turn@[k]) < markets@.len(),
            ordered@.len() == i,
            forall|k: int| 0 <= k < i ==> (#[trigger] ordered@[k])@ == all[turn@[k] as int].ticker,
        decreases turn@.len() - i,
    {
        ordered.push(markets[turn[i]].ticker.as_str().to_owned());
        i = i + 1;
    }
    assert(text::views(ordered@) =~= turn@.map_values(|p: usize| all[p as int].ticker));
    Some(ordered)
}

/// Whether every market has this strike type.
pub(crate) fn of_one_kind(markets: &[&RawMarket], kind: &str) -> (yes: bool)
    ensures
        yes == all_of_kind(discovery::refs_view(markets@), kind@),
{
    let ghost all = discovery::refs_view(markets@);
    let mut i: usize = 0;
    while i < markets.len()
        invariant
            i <= markets@.len(),
            all == discovery::refs_view(markets@),
            forall|k: int| 0 <= k < i ==> (#[trigger] all[k]).strike_type == Some(kind@),
        decreases markets@.len() - i,
    {
        let same: bool = match &markets[i].strike_type {
            Some(other) => text::same(other.as_str(), kind),
            None => false,
        };
        assert(all[i as int] == markets@[i as int]@);
        if !same {
            return false;
        }
        i = i + 1;
    }
    true
}

/// Where each market stands on the ladder of its kind, if each has a place.
pub(crate) fn rung_places(markets: &[&RawMarket], kind: &str) -> (keys: Option<Vec<i128>>)
    ensures
        match keys {
            Some(keys) => rungs(discovery::refs_view(markets@), kind@) == Some(keys@),
            None => rungs(discovery::refs_view(markets@), kind@) is None,
        },
        keys matches Some(keys) ==> keys@.len() == markets@.len(),
{
    let ghost all = discovery::refs_view(markets@);
    let greater: bool = text::same(kind, "greater");
    if !greater && !text::same(kind, "less") {
        return None;
    }
    let mut keys: Vec<i128> = Vec::new();
    let mut i: usize = 0;
    while i < markets.len()
        invariant
            i <= markets@.len(),
            all == discovery::refs_view(markets@),
            greater == (kind@ == "greater"@),
            greater || kind@ == "less"@,
            keys@.len() == i,
            greater ==> forall|k: int|
                0 <= k < i ==> (#[trigger] all[k]).floor_strike is Some && keys@[k]
                    == all[k].floor_strike->0,
            !greater ==> forall|k: int|
                0 <= k < i ==> (#[trigger] all[k]).cap_strike is Some && keys@[k]
                    == -all[k].cap_strike->0,
        decreases markets@.len() - i,
    {
        assert(all[i as int] == markets@[i as int]@);
        if greater {
            match markets[i].floor_strike {
                Some(strike) => keys.push(strike as i128),
                None => {
                    return None;
                },
            }
        } else {
            match markets[i].cap_strike {
                Some(strike) => keys.push(-(strike as i128)),
                None => {
                    return None;
                },
            }
        }
        i = i + 1;
    }
    if greater {
        assert(keys@ =~= all.map_values(|m: MarketView| m.floor_strike->0 as i128));
    } else {
        assert(keys@ =~= all.map_values(|m: MarketView| (-(m.cap_strike->0 as int)) as i128));
    }
    Some(keys)
}

/// Whether two of the numbers are equal.
pub(crate) fn tied(keys: &[i128]) -> (yes: bool)
    ensures
        yes == !keys@.no_duplicates(),
{
    let mut i: usize = 0;
    while i < keys.len()
        invariant
            i <= keys@.len(),
            forall|a: int, b: int| 0 <= a < b < i ==> keys@[a] != keys@[b],
        decreases keys@.len() - i,
    {
        let mut j: usize = 0;
        while j < i
            invariant
                j <= i < keys@.len(),
                forall|a: int| 0 <= a < j ==> keys@[a] != keys@[i as int],
            decreases i - j,
        {
            if keys[j] == keys[i] {
                return true;
            }
            j = j + 1;
        }
        i = i + 1;
    }
    false
}

/// The identifiers of a list of tickers, if every one of them is interned.
pub open spec fn contract_ids(
    names: Seq<Instrument>,
    venue: Venue,
    tickers: Seq<Seq<char>>,
) -> Option<Seq<ContractId>> {
    if forall|i: int|
        0 <= i < tickers.len() ==> types::lookup(names, venue, #[trigger] tickers[i]) is Some {
        Some(tickers.map_values(|t: Seq<char>| types::lookup(names, venue, t)->0))
    } else {
        None
    }
}

/// The relation an inferred group stands for.
pub open spec fn relation_of(
    names: Seq<Instrument>,
    venue: Venue,
    group: InferredView,
) -> Option<RelationView> {
    match contract_ids(names, venue, group.tickers) {
        Some(ids) => match group.relation_kind {
            InferredKind::Complement => if ids.len() > 0 {
                Some(RelationView::Complement { contract: ids[0] })
            } else {
                None
            },
            InferredKind::Exhaustive => Some(RelationView::Exhaustive { members: ids }),
            InferredKind::Monotone => Some(RelationView::Monotone { ordered: ids }),
        },
        None => None,
    }
}

/// Look up the tickers an inferred group names, and turn it into a [`Relation`].
///
/// Returns `None` when a ticker is missing from the contract table, which means
/// the market was filtered out of the universe after inference ran.
pub fn to_relation(contracts: &Contracts, venue: Venue, group: &InferredGroup) -> (relation: Option<
    Relation,
>)
    ensures
        match relation {
            Some(relation) => relation_of(contracts@, venue, group@) == Some(relation@),
            None => relation_of(contracts@, venue, group@) is None,
        },
{
    let ghost wanted = group@.tickers;
    let mut ids: Vec<ContractId> = Vec::new();
    let mut i: usize = 0;
    while i < group.tickers.len()
        invariant
            i <= group.tickers@.len(),
            wanted == text::views(group.tickers@),
            ids@.len() == i,
            forall|k: int|
                0 <= k < i ==> types::lookup(contracts@, venue, #[trigger] wanted[k]) == Some(
                    ids@[k],
                ),
        decreases group.tickers@.len() - i,
    {
        assert(wanted[i as int] == group.tickers@[i as int]@);
        match contracts.get(venue, group.tickers[i].as_str()) {
            Some(id) => ids.push(id),
            None => {
                return None;
            },
        }
        i = i + 1;
    }
    assert(ids@ =~= wanted.map_values(|t: Seq<char>| types::lookup(contracts@, venue, t)->0));
    match group.relation_kind {
        InferredKind::Complement => if ids.len() > 0 {
            Some(Relation::Complement { contract: ids[0] })
        } else {
            None
        },
        InferredKind::Exhaustive => Some(Relation::Exhaustive { members: ids }),
        InferredKind::Monotone => Some(Relation::Monotone { ordered: ids }),
    }
}

/// Whether one close time is before another: as instants where both name one,
/// else as texts.
pub open spec fn closes_before(a: Seq<char>, b: Seq<char>) -> bool {
    match (timestamp::instant(a), timestamp::instant(b)) {
        (Some(left), Some(right)) => left.before(right),
        _ => text::precedes(a, b),
    }
}

/// Close times per event: the earliest close in an event is when its capital
/// starts coming back.
pub open spec fn close_times(markets: Seq<MarketView>) -> Map<Seq<char>, Seq<char>>
    decreases markets.len(),
{
    if markets.len() == 0 {
        Map::empty()
    } else {
        let before = close_times(markets.drop_last());
        let event = markets.last().event_ticker;
        match markets.last().close_time {
            Some(close) => if before.contains_key(event) && !closes_before(close, before[event]) {
                before
            } else {
                before.insert(event, close)
            },
            None => before,
        }
    }
}

/// Close times per event, for the resolution horizon ranking needs.
pub fn event_close_times(universe: &Universe) -> (closes: StringHashMap<String>)
    ensures
        closes@.map_values(|close: String| close@) == close_times(universe@.markets),
{
    let ghost all = universe@.markets;
    let ghost say = |close: String| close@;
    let mut closes: StringHashMap<String> = StringHashMap::new();
    let mut i: usize = 0;
    assert(all.subrange(0, 0) =~= Seq::<MarketView>::empty());
    assert(closes@.map_values(say) =~= Map::<Seq<char>, Seq<char>>::empty());
    while i < universe.markets.len()
        invariant
            i <= universe.markets@.len(),
            all == universe@.markets,
            say == (|close: String| close@),
            closes@.map_values(say) == close_times(all.subrange(0, i as int)),
        decreases universe.markets@.len() - i,
    {
        let market: &RawMarket = &universe.markets[i];
        let ghost next = all.subrange(0, i + 1);
        let ghost held = closes@;
        proof {
            assert(next.drop_last() =~= all.subrange(0, i as int));
            assert(next.last() == market@);
        }
        match &market.close_time {
            Some(close) => {
                let event: &str = market.event_ticker.as_str();
                let earlier: bool = match closes.get(event) {
                    Some(known) => {
                        assert(closes@.map_values(say)[event@] == known@);
                        is_earlier(close.as_str(), known.as_str())
                    },
                    None => true,
                };
                if earlier {
                    let time: String = close.as_str().to_owned();
                    closes.insert(event.to_owned(), time);
                    assert(closes@.map_values(say) =~= held.map_values(say).insert(
                        event@,
                        close@,
                    ));
                }
            },
            None => {},
        }
        i = i + 1;
    }
    assert(all.subrange(0, all.len() as int) =~= all);
    closes
}

/// Whether one close time is before another.
fn is_earlier(a: &str, b: &str) -> (earlier: bool)
    ensures
        earlier == closes_before(a@, b@),
{
    match (Timestamp::parse(a), Timestamp::parse(b)) {
        (Some(left), Some(right)) => left.is_before(right),
        _ => text::str_less(a, b),
    }
}

} // verus!
