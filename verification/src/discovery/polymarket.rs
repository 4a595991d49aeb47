//! What Polymarket's catalogue says of its markets.
use vstd::prelude::*;
use super::inference::{InferredGroup, InferredKind, InferredView};
use crate::discovery;
use crate::discovery::inference;
use crate::fees::{self, FeeCategory, PolymarketFees};
use crate::json::{self, Json};
use crate::text;
use crate::types::{self, Contracts, Instrument, Venue};

verus! {

/// A Polymarket market as discovery sees it.
///
/// One market is one engine contract, identified by its yes token. The no token
/// is the same order book mirrored (an ask at `p` on one side is a bid at
/// `100 - p` on the other, at the same size), so carrying both would double
/// every book and produce a "group" that is coherent by construction and can
/// never signal.
#[derive(Clone, Debug, PartialEq)]
pub struct PolymarketMarket {
    pub yes_token: String,
    pub no_token: String,
    pub question: String,
    /// Whether the market's prices move in whole cents.
    pub cent_tick: bool,
    /// Gamma's `feeType`, absent when the market has no schedule attached.
    pub fee_type: Option<String>,
    pub fees_enabled: bool,
    /// ISO 8601, as the venue publishes it.
    pub ends_at: Option<String>,
}

/// What a [`PolymarketMarket`] says.
#[verifier::ext_equal]
pub struct PolymarketView {
    pub yes_token: Seq<char>,
    pub no_token: Seq<char>,
    pub question: Seq<char>,
    pub cent_tick: bool,
    pub fee_type: Option<Seq<char>>,
    pub fees_enabled: bool,
    pub ends_at: Option<Seq<char>>,
}

impl View for PolymarketMarket {
    type V = PolymarketView;

    open spec fn view(&self) -> PolymarketView {
        PolymarketView {
            yes_token: self.yes_token@,
            no_token: self.no_token@,
            question: self.question@,
            cent_tick: self.cent_tick,
            fee_type: text::optional(self.fee_type),
            fees_enabled: self.fees_enabled,
            ends_at: text::optional(self.ends_at),
        }
    }
}

impl PolymarketView {
    /// What this market charges a taker.
    pub open spec fn fee_category(self) -> FeeCategory {
        if !self.fees_enabled {
            FeeCategory::Zero
        } else {
            match self.fee_type {
                Some(fee_type) => fees::category_of(fee_type),
                None => FeeCategory::Crypto,
            }
        }
    }
}

pub open spec fn polymarkets_view(markets: Seq<PolymarketMarket>) -> Seq<PolymarketView> {
    markets.map_values(|m: PolymarketMarket| m@)
}

impl PolymarketMarket {
    /// What this market charges a taker.
    ///
    /// `feesEnabled` is authoritative for *whether* there is a fee; `feeType`
    /// only says which schedule. A market with fees on but no named schedule is
    /// an unknown, and an unknown fee is read as the dearest one rather than as
    /// free, on the same reasoning as [`FeeCategory::from_fee_type`].
    pub fn fee_category(&self) -> (category: FeeCategory)
        ensures
            category == self@.fee_category(),
    {
        if !self.fees_enabled {
            return FeeCategory::Zero;
        }
        match &self.fee_type {
            Some(fee_type) => FeeCategory::from_fee_type(fee_type.as_str()),
            None => FeeCategory::Crypto,
        }
    }

    /// Whether this engine can represent the market's prices.
    ///
    /// A finer tick cannot be held in a book indexed by whole cents, and
    /// rounding one into range would quote a price nobody made.
    pub fn tick_is_representable(&self) -> (yes: bool)
        ensures
            yes == self@.cent_tick,
    {
        self.cent_tick
    }
}

/// A catalogue entry as Gamma writes it.
#[derive(Clone, Debug)]
pub struct GammaMarket {
    pub question: String,
    /// Both tokens, as a JSON array inside a string.
    pub clob_token_ids: Option<String>,
    /// Whether the smallest price step is a whole cent, where one is stated.
    pub cent_tick: Option<bool>,
    pub fee_type: Option<String>,
    pub fees_enabled: bool,
    pub closed: bool,
    pub accepting_orders: bool,
    pub end_date: Option<String>,
}

/// What a [`GammaMarket`] says.
#[verifier::ext_equal]
pub struct GammaView {
    pub question: Seq<char>,
    pub clob_token_ids: Option<Seq<char>>,
    pub cent_tick: Option<bool>,
    pub fee_type: Option<Seq<char>>,
    pub fees_enabled: bool,
    pub closed: bool,
    pub accepting_orders: bool,
    pub end_date: Option<Seq<char>>,
}

impl View for GammaMarket {
    type V = GammaView;

    open spec fn view(&self) -> GammaView {
        GammaView {
            question: self.question@,
            clob_token_ids: text::optional(self.clob_token_ids),
            cent_tick: self.cent_tick,
            fee_type: text::optional(self.fee_type),
            fees_enabled: self.fees_enabled,
            closed: self.closed,
            accepting_orders: self.accepting_orders,
            end_date: text::optional(self.end_date),
        }
    }
}

/// The two tokens that a JSON value lists.
pub open spec fn token_pair(value: Option<Json>) -> Option<(Seq<char>, Seq<char>)> {
    match value {
        Some(Json::List(items)) => if items.len() == 2 && items[0] is Text && items[1] is Text {
            Some((items[0]->Text_0, items[1]->Text_0))
        } else {
            None
        },
        _ => None,
    }
}

/// The tradeable market that a catalogue entry describes: open, with exactly
/// two tokens and a stated tick.
pub open spec fn gamma_market(raw: GammaView) -> Option<PolymarketView> {
    if raw.closed || !raw.accepting_orders || raw.clob_token_ids is None {
        None
    } else {
        match (token_pair(json::parsed_json(raw.clob_token_ids->0)), raw.cent_tick) {
            (Some((yes_token, no_token)), Some(cent_tick)) => Some(
                PolymarketView {
                    yes_token,
                    no_token,
                    question: raw.question,
                    cent_tick,
                    fee_type: raw.fee_type,
                    fees_enabled: raw.fees_enabled,
                    ends_at: raw.end_date,
                },
            ),
            _ => None,
        }
    }
}

/// Both tokens of a market, out of the JSON text that lists them.
fn read_tokens(encoded: &str) -> (tokens: Option<(String, String)>)
    ensures
        match tokens {
            Some((yes_token, no_token)) => token_pair(json::parsed_json(encoded@)) == Some(
                (yes_token@, no_token@),
            ),
            None => token_pair(json::parsed_json(encoded@)) is None,
        },
{
    let value: serde_json::Value = match json::read(encoded) {
        Ok(value) => value,
        Err(_) => {
            return None;
        },
    };
    let items: &Vec<serde_json::Value> = match json::list(&value) {
        Some(items) => items,
        None => {
            return None;
        },
    };
    if items.len() != 2 {
        return None;
    }
    match (json::string(&items[0]), json::string(&items[1])) {
        (Some(yes_token), Some(no_token)) => Some((yes_token.to_owned(), no_token.to_owned())),
        _ => None,
    }
}

/// The tradeable market that a catalogue entry describes, if it is one.
///
/// The catalogue is large and partly historical, and one entry missing a field
/// is not a reason to discover nothing, so such an entry is passed over.
pub fn market(raw: &GammaMarket) -> (found: Option<PolymarketMarket>)
    ensures
        match found {
            Some(market) => gamma_market(raw@) == Some(market@),
            None => gamma_market(raw@) is None,
        },
{
    if raw.closed || !raw.accepting_orders {
        return None;
    }
    let encoded: &str = match &raw.clob_token_ids {
        Some(encoded) => encoded.as_str(),
        None => {
            return None;
        },
    };
    match (read_tokens(encoded), raw.cent_tick) {
        (Some((yes_token, no_token)), Some(cent_tick)) => Some(
            PolymarketMarket {
                yes_token,
                no_token,
                question: raw.question.as_str().to_owned(),
                cent_tick,
                fee_type: text::copied(&raw.fee_type),
                fees_enabled: raw.fees_enabled,
                ends_at: text::copied(&raw.end_date),
            },
        ),
        _ => None,
    }
}

/// How many catalogue entries are asked for at once.
pub const PAGE: usize = 100;

/// Walking the catalogue, most active first.
///
/// Stops at `max_markets` rather than walking the whole venue: the catalogue
/// runs to thousands, and subscribing to all of them is a feed-capacity decision
/// rather than a discovery one.
pub struct Walk {
    found: Vec<PolymarketMarket>,
    max_markets: usize,
    exhausted: bool,
}

/// Where a [`Walk`] stands.
#[verifier::ext_equal]
pub struct WalkView {
    pub found: Seq<PolymarketView>,
    pub max_markets: usize,
    pub exhausted: bool,
}

impl View for Walk {
    type V = WalkView;

    closed spec fn view(&self) -> WalkView {
        WalkView {
            found: polymarkets_view(self.found@),
            max_markets: self.max_markets,
            exhausted: self.exhausted,
        }
    }
}

impl WalkView {
    /// Whether another page is asked for.
    pub open spec fn goes_on(self) -> bool {
        self.found.len() < self.max_markets && !self.exhausted
    }

    /// The walk after a page: an empty one ends it, and of any other the markets
    /// with a representable tick are kept.
    pub open spec fn after(self, page: Seq<PolymarketView>) -> WalkView {
        WalkView {
            found: self.found + page.filter(|m: PolymarketView| m.cent_tick),
            exhausted: page.len() == 0,
            ..self
        }
    }
}

impl Walk {
    pub fn new(max_markets: usize) -> (walk: Self)
        ensures
            walk@ == (WalkView { found: Seq::empty(), max_markets, exhausted: false }),
    {
        let walk = Walk { found: Vec::new(), max_markets, exhausted: false };
        assert(walk@.found =~= Seq::<PolymarketView>::empty());
        walk
    }

    /// Whether another page is to be asked for.
    pub fn wants_more(&self) -> (yes: bool)
        ensures
            yes == self@.goes_on(),
    {
        self.found.len() < self.max_markets && !self.exhausted
    }

    /// Take a page of tradeable markets.
    pub fn take(&mut self, page: Vec<PolymarketMarket>)
        ensures
            final(self)@ == old(self)@.after(polymarkets_view(page@)),
    {
        let ghost given = page@;
        let ghost all = polymarkets_view(page@);
        let ghost fits = |m: PolymarketView| m.cent_tick;
        let ghost before = *self;
        self.exhausted = page.len() == 0;
        proof {
            reveal(Seq::filter);
            assert(all.subrange(0, 0) =~= Seq::<PolymarketView>::empty());
            assert(self@.found =~= before@.found + all.subrange(0, 0).filter(fits));
        }
        for market in it: page
            invariant
                it.seq() == given,
                all == polymarkets_view(given),
                fits == (|m: PolymarketView| m.cent_tick),
                self@.found == before@.found + all.subrange(0, it.index() as int).filter(fits),
                self.max_markets == before.max_markets,
                self.exhausted == (given.len() == 0),
                before == *old(self),
        {
            let ghost done = all.subrange(0, it.index() as int);
            let ghost here = market@;
            proof {
                assert(all.subrange(0, it.index() + 1) =~= done.push(here));
                done.lemma_filter_push(here, fits);
            }
            if market.tick_is_representable() {
                let ghost held = self.found@;
                self.found.push(market);
                assert(polymarkets_view(self.found@) =~= polymarkets_view(held).push(here));
                assert(self@.found =~= before@.found + done.filter(fits).push(here));
            }
        }
        assert(all.subrange(0, all.len() as int) =~= all);
    }

    /// What was found, no more than was asked for.
    pub fn finish(self) -> (found: Vec<PolymarketMarket>)
        ensures
            polymarkets_view(found@) == (if self@.found.len() > self@.max_markets {
                self@.found.subrange(0, self@.max_markets as int)
            } else {
                self@.found
            }),
    {
        let Walk { mut found, max_markets, exhausted: _ } = self;
        found.truncate(max_markets);
        assert(polymarkets_view(found@) =~= (if self@.found.len() > self@.max_markets {
            self@.found.subrange(0, self@.max_markets as int)
        } else {
            self@.found
        }));
        found
    }
}

/// One complement group per market.
pub open spec fn complement_of(market: PolymarketView) -> InferredView {
    InferredView {
        relation_kind: InferredKind::Complement,
        tickers: seq![market.yes_token],
        event_ticker: market.yes_token,
    }
}

/// One complement group per market: a binary market owes a dollar across its
/// own two outcomes, which holds whatever else the market turns out to be.
///
/// Not an exhaustive pair over the two tokens. Those are the same book seen
/// from both sides, so such a group sums to exactly a dollar by construction
/// and could never report an incoherence.
pub fn polymarket_complement_groups(markets: &[PolymarketMarket]) -> (groups: Vec<InferredGroup>)
    ensures
        inference::inferred_view(groups@) == polymarkets_view(markets@).map_values(
            |m: PolymarketView| complement_of(m),
        ),
{
    let mut groups: Vec<InferredGroup> = Vec::new();
    let mut i: usize = 0;
    while i < markets.len()
        invariant
            i <= markets@.len(),
            groups@.len() == i,
            forall|k: int| 0 <= k < i ==> (#[trigger] groups@[k])@ == complement_of(markets@[k]@),
        decreases markets@.len() - i,
    {
        let token: &str = markets[i].yes_token.as_str();
        let group = InferredGroup {
            relation_kind: InferredKind::Complement,
            tickers: vec![token.to_owned()],
            event_ticker: token.to_owned(),
        };
        assert(text::views(group.tickers@) =~= seq![token@]);
        groups.push(group);
        i = i + 1;
    }
    assert(inference::inferred_view(groups@) =~= polymarkets_view(markets@).map_values(
        |m: PolymarketView| complement_of(m),
    ));
    groups
}

/// Whether a market's token is interned.
pub open spec fn is_listed(names: Seq<Instrument>, market: PolymarketView) -> bool {
    types::lookup(names, Venue::Polymarket, market.yes_token) is Some
}

/// The fees after registering a list of markets, a later one over an earlier.
pub open spec fn registered_fees(
    markets: Seq<PolymarketView>,
    names: Seq<Instrument>,
    fees: Map<u32, FeeCategory>,
) -> Map<u32, FeeCategory>
    decreases markets.len(),
{
    if markets.len() == 0 {
        fees
    } else {
        let before = registered_fees(markets.drop_last(), names, fees);
        match types::lookup(names, Venue::Polymarket, markets.last().yes_token) {
            Some(contract) => before.insert(contract.0, markets.last().fee_category()),
            None => before,
        }
    }
}

/// Record what each market charges, against the contract its token interned to.
///
/// Returns how many were registered. A market whose token this engine has not
/// interned is skipped, and keeps paying the conservative default until it is.
pub fn register_polymarket_fees(
    markets: &[PolymarketMarket],
    contracts: &Contracts,
    fees: &mut PolymarketFees,
) -> (registered: usize)
    ensures
        final(fees)@ == registered_fees(polymarkets_view(markets@), contracts@, old(fees)@),
        registered == polymarkets_view(markets@).filter(
            |m: PolymarketView| is_listed(contracts@, m),
        ).len(),
{
    let ghost all = polymarkets_view(markets@);
    let ghost listed = |m: PolymarketView| is_listed(contracts@, m);
    let mut registered: usize = 0;
    let mut i: usize = 0;
    proof {
        reveal(Seq::filter);
        assert(all.subrange(0, 0) =~= Seq::<PolymarketView>::empty());
    }
    while i < markets.len()
        invariant
            i <= markets@.len(),
            all == polymarkets_view(markets@),
            listed == (|m: PolymarketView| is_listed(contracts@, m)),
            registered <= i,
            registered == all.subrange(0, i as int).filter(listed).len(),
            fees@ == registered_fees(all.subrange(0, i as int), contracts@, old(fees)@),
        decreases markets@.len() - i,
    {
        let market: &PolymarketMarket = &markets[i];
        proof {
            let done = all.subrange(0, i as int);
            assert(all.subrange(0, i + 1) =~= done.push(market@));
            assert(all.subrange(0, i + 1).drop_last() =~= done);
            done.lemma_filter_push(market@, listed);
        }
        match contracts.get(Venue::Polymarket, market.yes_token.as_str()) {
            Some(contract) => {
                fees.register_category(contract, market.fee_category());
                registered = registered + 1;
            },
            None => {},
        }
        i = i + 1;
    }
    assert(all.subrange(0, all.len() as int) =~= all);
    registered
}

/// A market that charges an unnamed fee is charged the dearest one.
pub proof fn an_unknown_fee_is_the_dearest(market: PolymarketView)
    requires
        market.fees_enabled,
        market.fee_type is None,
    ensures
        forall|other: FeeCategory| #[trigger]
            fees::basis_points(other) <= fees::basis_points(market.fee_category()),
{
}

} // verus!
