//! What a venue feed delivers, in the engine's own terms.
use vstd::prelude::*;
use crate::text;
use crate::types;
use crate::types::{
    parse_price_cents, parse_size_contracts, Cents, ContractId, Level, PriceParseError, Side,
    TokenSide, Venue,
};

pub mod kalshi;
pub mod laws;
pub mod link;
pub mod merged;
pub mod polymarket;
pub mod replay;
pub mod rest;

verus! {

#[allow(inconsistent_fields)]
#[derive(Clone, Debug, PartialEq)]
pub enum FeedEvent {
    /// Both arrays contain resting bids in the named outcome. No complement
    /// conversion or book state lives in the feed.
    Snapshot {
        contract: ContractId,
        yes: Vec<Level>,
        no: Vec<Level>,
        seq: u64,
        /// The venue's own timestamp, if the payload has one (Kalshi snapshots
        /// currently do not). Never local receipt time, which comes from the
        /// injected clock. Kept for clock-skew tracking; nothing reads it yet.
        venue_ts_ms: Option<u64>,
    },
    Delta {
        contract: ContractId,
        side: Side,
        price: Cents,
        size_delta: i64,
        seq: u64,
        /// The venue's own timestamp; required on Kalshi deltas.
        venue_ts_ms: u64,
    },
    /// One price level restated outright, for a venue that publishes the size
    /// now resting at a price rather than the change to it.
    ///
    /// Carries no sequence number because the venues that send this do not
    /// number their streams. A counter minted here on receipt could never
    /// disagree with itself, so it would detect no gap it was not itself
    /// inventing; continuity for such a feed has to come from re-requesting the
    /// book, not from a number this process made up.
    LevelSet {
        contract: ContractId,
        side: TokenSide,
        price: Cents,
        /// The size now resting at this price, not a change to it.
        size: i64,
        venue_ts_ms: u64,
    },
    Disconnected { venue: Venue },
    Resubscribed { contract: ContractId },
}

/// What a [`FeedEvent`] says.
#[allow(inconsistent_fields)]
pub enum EventView {
    Snapshot {
        contract: ContractId,
        yes: Seq<Level>,
        no: Seq<Level>,
        seq: u64,
        venue_ts_ms: Option<u64>,
    },
    Delta {
        contract: ContractId,
        side: Side,
        price: Cents,
        size_delta: i64,
        seq: u64,
        venue_ts_ms: u64,
    },
    LevelSet {
        contract: ContractId,
        side: TokenSide,
        price: Cents,
        size: i64,
        venue_ts_ms: u64,
    },
    Disconnected { venue: Venue },
    Resubscribed { contract: ContractId },
}

impl View for FeedEvent {
    type V = EventView;

    open spec fn view(&self) -> EventView {
        match self {
            FeedEvent::Snapshot { contract, yes, no, seq, venue_ts_ms } => EventView::Snapshot {
                contract: *contract,
                yes: yes@,
                no: no@,
                seq: *seq,
                venue_ts_ms: *venue_ts_ms,
            },
            FeedEvent::Delta { contract, side, price, size_delta, seq, venue_ts_ms } =>
                EventView::Delta {
                    contract: *contract,
                    side: *side,
                    price: *price,
                    size_delta: *size_delta,
                    seq: *seq,
                    venue_ts_ms: *venue_ts_ms,
                },
            FeedEvent::LevelSet { contract, side, price, size, venue_ts_ms } =>
                EventView::LevelSet {
                    contract: *contract,
                    side: *side,
                    price: *price,
                    size: *size,
                    venue_ts_ms: *venue_ts_ms,
                },
            FeedEvent::Disconnected { venue } => EventView::Disconnected { venue: *venue },
            FeedEvent::Resubscribed { contract } => EventView::Resubscribed {
                contract: *contract,
            },
        }
    }
}

/// Why a venue payload produced nothing.
#[derive(Clone, Copy, Debug, PartialEq, Eq, Structural)]
pub enum Refusal {
    /// A price finer than one cent: understood perfectly, and one the
    /// whole-cent book has no slot for.
    SubCent,
    /// Anything else that was not what the venue documents.
    Malformed,
}

/// The price that a payload writes.
pub open spec fn priced(price: Seq<char>) -> Result<i64, Refusal> {
    match types::price_cents(price) {
        Ok(cents) => Ok(cents as i64),
        Err(PriceParseError::SubCent) => Err(Refusal::SubCent),
        Err(_) => Err(Refusal::Malformed),
    }
}

/// Price and size as a payload writes them.
pub type Row = (Seq<char>, Seq<char>);

/// The levels of the first `n` rows, and the hundredths of a contract thrown
/// away so far from `from` on. Where sizes are unsigned, a minus sign refuses.
pub open spec fn sized(rows: Seq<Row>, n: int, signed: bool, from: int) -> Result<
    (Seq<Level>, int),
    Refusal,
>
    decreases n,
{
    if n <= 0 {
        Ok((Seq::empty(), from))
    } else {
        match sized(rows, n - 1, signed, from) {
            Err(refusal) => Err(refusal),
            Ok((levels, discarded)) => {
                let (price, size) = rows[n - 1];
                if !signed && size.len() > 0 && size[0] == '-' {
                    Err(Refusal::Malformed)
                } else {
                    match priced(price) {
                        Err(refusal) => Err(refusal),
                        Ok(price) => match types::size_contracts(size) {
                            Err(_) => Err(Refusal::Malformed),
                            Ok(contracts) => {
                                let total = discarded + types::size_discarded(size);
                                if total > u64::MAX {
                                    Err(Refusal::Malformed)
                                } else {
                                    Ok(
                                        (
                                            levels.push(Level { price, size: contracts as i64 }),
                                            total,
                                        ),
                                    )
                                }
                            },
                        },
                    }
                }
            },
        }
    }
}

/// Convert a price, telling a finer tick from a malformed one.
pub(crate) fn price(written: &str) -> (result: Result<Cents, Refusal>)
    ensures
        result == priced(written@),
        result matches Ok(cents) ==> 0 <= cents <= 100,
{
    match parse_price_cents(written) {
        Ok(cents) => Ok(cents),
        Err(PriceParseError::SubCent) => Err(Refusal::SubCent),
        Err(_) => Err(Refusal::Malformed),
    }
}

/// What a list of rows says.
pub open spec fn rows_view(rows: Seq<(String, String)>) -> Seq<Row> {
    rows.map_values(|row: (String, String)| (row.0@, row.1@))
}

/// Convert a side of a book, adding what the sizes throw away to `discarded`.
pub(crate) fn ladder(
    rows: &Vec<(String, String)>,
    signed: bool,
    discarded: &mut u64,
) -> (result: Result<Vec<Level>, Refusal>)
    ensures
        match result {
            Ok(levels) => sized(
                rows_view(rows@),
                rows@.len() as int,
                signed,
                *old(discarded) as int,
            ) == Ok::<(Seq<Level>, int), Refusal>((levels@, *final(discarded) as int)),
            Err(refusal) => sized(
                rows_view(rows@),
                rows@.len() as int,
                signed,
                *old(discarded) as int,
            ) == Err::<(Seq<Level>, int), Refusal>(refusal),
        },
{
    let ghost all = rows_view(rows@);
    let ghost from = *discarded as int;
    let mut levels: Vec<Level> = Vec::new();
    let mut i: usize = 0;
    while i < rows.len()
        invariant
            i <= rows@.len(),
            all == rows_view(rows@),
            from == *old(discarded),
            sized(all, i as int, signed, from) == Ok::<(Seq<Level>, int), Refusal>(
                (levels@, *discarded as int),
            ),
        decreases rows@.len() - i,
    {
        assert(all[i as int] == (rows@[i as int].0@, rows@[i as int].1@));
        let size: &str = rows[i].1.as_str();
        let head: Vec<char> = text::chars(size);
        if !signed && head.len() > 0 && head[0] == '-' {
            proof {
                lemma_first_refusal(all, i + 1, all.len() as int, signed, from);
            }
            return Err(Refusal::Malformed);
        }
        let cents: Cents = match price(rows[i].0.as_str()) {
            Ok(cents) => cents,
            Err(refusal) => {
                proof {
                    lemma_first_refusal(all, i + 1, all.len() as int, signed, from);
                }
                return Err(refusal);
            },
        };
        match parse_size_contracts(size, discarded) {
            Ok(contracts) => {
                levels.push(Level { price: cents, size: contracts });
            },
            Err(_) => {
                proof {
                    lemma_first_refusal(all, i + 1, all.len() as int, signed, from);
                }
                return Err(Refusal::Malformed);
            },
        }
        i = i + 1;
    }
    Ok(levels)
}

proof fn lemma_first_refusal(rows: Seq<Row>, m: int, n: int, signed: bool, from: int)
    requires
        0 <= m <= n,
        sized(rows, m, signed, from) is Err,
    ensures
        sized(rows, n, signed, from) == sized(rows, m, signed, from),
    decreases n,
{
    if m < n {
        lemma_first_refusal(rows, m, n - 1, signed, from);
    }
}

/// Converted levels lie inside the price band.
pub proof fn lemma_sized(rows: Seq<Row>, n: int, signed: bool, from: int)
    requires
        0 <= n <= rows.len(),
        0 <= from,
    ensures
        sized(rows, n, signed, from) matches Ok((levels, discarded)) ==> levels.len() == n
            && discarded >= from && forall|i: int|
            0 <= i < n ==> 0 <= (#[trigger] levels[i]).price <= 100,
    decreases n,
{
    if n > 0 {
        lemma_sized(rows, n - 1, signed, from);
        types::lemma_price_cents(rows[n - 1].0);
    }
}

} // verus!
