//! What the venues' frames say, member by member.
use vstd::prelude::*;
use crate::feed;
use crate::feed::kalshi;
use crate::feed::polymarket;
use crate::feed::polymarket::{BookSnapshotView, LevelSetView, RawBookView, RawChangeView};
use crate::feed::{EventView, Refusal, Row};
use crate::json;
use crate::json::Json;
use crate::metrics::MetricsView;
use crate::tally;
use crate::text;
use crate::types;
use crate::types::{Instrument, Level, Side, TokenSide, Venue};

verus! {

// ---------------------------------------------------------------------------
// Ladders
// ---------------------------------------------------------------------------

/// A level says what a row says.
pub open spec fn says(row: Row, level: Level) -> bool {
    &&& types::price_cents(row.0) matches Ok(cents) && cents == level.price
    &&& types::size_contracts(row.1) matches Ok(size) && size == level.size
}

/// A row that can be read, with a size that has no sign where none is allowed.
pub open spec fn readable(row: Row, signed: bool) -> bool {
    &&& types::price_cents(row.0) is Ok
    &&& types::size_contracts(row.1) is Ok
    &&& signed || row.1.len() == 0 || row.1[0] != '-'
}

/// A ladder is read row by row: each level says what its row says, and what was
/// rounded off is added up. It is refused exactly where a row cannot be read, or
/// the rounding overflows its counter.
pub proof fn a_ladder_says_what_its_rows_say(rows: Seq<Row>, n: int, signed: bool, from: int)
    requires
        0 <= n <= rows.len(),
        0 <= from,
    ensures
        match feed::sized(rows, n, signed, from) {
            Ok((levels, discarded)) => {
                &&& levels.len() == n
                &&& forall|i: int|
                    0 <= i < n ==> says(#[trigger] rows[i], levels[i]) && readable(rows[i], signed)
                &&& discarded == from + tally::total(n, |i: int| types::size_discarded(rows[i].1))
            },
            Err(_) => (exists|i: int| 0 <= i < n && !readable(#[trigger] rows[i], signed)) || from
                + tally::total(n, |i: int| types::size_discarded(rows[i].1)) > u64::MAX,
        },
    decreases n,
{
    let parts = |i: int| types::size_discarded(rows[i].1);
    assert(parts =~= (|i: int| types::size_discarded(rows[i].1)));
    if n > 0 {
        a_ladder_says_what_its_rows_say(rows, n - 1, signed, from);
        types::lemma_price_cents(rows[n - 1].0);
        assert(parts(n - 1) == types::size_discarded(rows[n - 1].1));
        assert(parts(n - 1) >= 0);
        assert(tally::total(n, parts) == tally::total(n - 1, parts) + parts(n - 1));
        match feed::sized(rows, n - 1, signed, from) {
            Ok((levels, discarded)) => {
                if let Ok((after, total)) = feed::sized(rows, n, signed, from) {
                    assert forall|i: int| 0 <= i < n implies says(#[trigger] rows[i], after[i])
                        && readable(rows[i], signed) by {
                        if i < n - 1 {
                            assert(after[i] == levels[i]);
                        }
                    }
                } else if readable(rows[n - 1], signed) {
                    assert(from + tally::total(n, parts) > u64::MAX);
                } else {
                    assert(!readable(rows[n - 1], signed));
                }
            },
            Err(_) => {
                if exists|i: int| 0 <= i < n - 1 && !readable(#[trigger] rows[i], signed) {
                    let i = choose|i: int| 0 <= i < n - 1 && !readable(#[trigger] rows[i], signed);
                    assert(!readable(rows[i], signed));
                }
            },
        }
    }
}

/// A price that is finer than a cent is refused as that, and any other that
/// cannot be read as malformed.
pub proof fn a_price_is_refused_for_cause(price: Seq<char>)
    ensures
        match feed::priced(price) {
            Ok(cents) => types::price_cents(price) matches Ok(read) && read == cents,
            Err(Refusal::SubCent) => types::price_cents(price) matches Err(
                types::PriceParseError::SubCent,
            ),
            Err(Refusal::Malformed) => types::price_cents(price) is Err && !(types::price_cents(
                price,
            ) matches Err(types::PriceParseError::SubCent)),
        },
{
    types::lemma_price_cents(price);
}

// ---------------------------------------------------------------------------
// Kalshi
// ---------------------------------------------------------------------------

/// A frame that holds a message of a kind.
pub open spec fn carries(frame: Json, kind: Seq<char>, seq: u64, msg: Json) -> bool {
    frame matches Json::Object(members) && members.contains_key("type"@) && members["type"@]
        == Json::Text(kind) && members.contains_key("seq"@) && members["seq"@] == Json::Number(
        Some(seq as int),
    ) && members.contains_key("msg"@) && members["msg"@] == msg
}

/// A member that holds a text.
pub open spec fn holds_text(message: Json, key: Seq<char>, value: Seq<char>) -> bool {
    message matches Json::Object(members) && members.contains_key(key) && members[key]
        == Json::Text(value)
}

/// A delta frame becomes the delta that it writes down: the market's contract,
/// the named side, the price to the cent, the whole contracts, the number of the
/// frame and the time of the message.
pub proof fn a_delta_frame_becomes_its_delta(
    names: Seq<Instrument>,
    frame: Json,
    msg: Json,
    seq: u64,
    ticker: Seq<char>,
    price: Seq<char>,
    size: Seq<char>,
    side: Side,
    ms: u64,
    place: int,
)
    requires
        names.no_duplicates(),
        names.len() <= 0x1_0000_0000,
        0 <= place < names.len(),
        names[place] == (Venue::Kalshi, ticker),
        carries(frame, "orderbook_delta"@, seq, msg),
        holds_text(msg, "market_ticker"@, ticker),
        holds_text(msg, "price_dollars"@, price),
        holds_text(msg, "delta_fp"@, size),
        holds_text(
            msg,
            "side"@,
            if side == Side::Yes {
                "yes"@
            } else {
                "no"@
            },
        ),
        msg matches Json::Object(members) && members.contains_key("ts_ms"@) && members["ts_ms"@]
            == Json::Number(Some(ms as int)) && !members.contains_key("ts"@),
        types::price_cents(price) is Ok,
        types::size_contracts(size) is Ok,
    ensures
        ({
            &&& kalshi::frame_of(names, frame) matches kalshi::Reading::Event(
                EventView::Delta {
                    contract,
                    side: moved,
                    price: at,
                    size_delta,
                    seq: number,
                    venue_ts_ms,
                },
                discarded,
                absent,
            )
            &&& contract.0 == place
            &&& moved == side
            &&& types::price_cents(price) matches Ok(cents) && cents == at
            &&& types::size_contracts(size) matches Ok(contracts) && contracts == size_delta
            &&& number == seq
            &&& venue_ts_ms == ms
            &&& discarded == types::size_discarded(size)
            &&& absent == 0
        }),
{
    types::lemma_lookup(names, Venue::Kalshi, ticker, place);
    types::lemma_price_cents(price);
    reveal_strlit("orderbook_snapshot");
    reveal_strlit("orderbook_delta");
    reveal_strlit("yes");
    reveal_strlit("no");
    assert("orderbook_snapshot"@.len() != "orderbook_delta"@.len());
    assert("yes"@.len() != "no"@.len());
}

/// A side of a snapshot that is a list of pairs.
pub open spec fn holds_rows(message: Json, key: Seq<char>, rows: Seq<Row>) -> bool {
    message matches Json::Object(members) && members.contains_key(key) && (members[key] matches
        Json::List(items) && items.len() == rows.len() && forall|i: int|
        0 <= i < items.len() ==> #[trigger] items[i] == Json::List(
            seq![Json::Text(rows[i].0), Json::Text(rows[i].1)],
        ))
}

proof fn lemma_rows(message: Json, key: Seq<char>, rows: Seq<Row>)
    requires
        holds_rows(message, key, rows),
    ensures
        kalshi::rows_of(json::member_of(message, key)) == Some(rows),
{
    let items = json::member_of(message, key)->0->List_0;
    assert forall|i: int| 0 <= i < items.len() implies kalshi::row_of(#[trigger] items[i]) == Some(
        rows[i],
    ) by {
        let pair = seq![Json::Text(rows[i].0), Json::Text(rows[i].1)];
        assert(items[i] == Json::List(pair));
        assert(pair[0] == Json::Text(rows[i].0) && pair[1] == Json::Text(rows[i].1));
    }
    assert(items.map_values(|row: Json| kalshi::row_of(row)->0) =~= rows);
}

/// A snapshot frame becomes the snapshot that it writes down: what rests for Yes
/// on the Yes side, and what rests for No on the other.
pub proof fn a_snapshot_frame_becomes_its_snapshot(
    names: Seq<Instrument>,
    frame: Json,
    msg: Json,
    seq: u64,
    ticker: Seq<char>,
    yes: Seq<Row>,
    no: Seq<Row>,
    place: int,
)
    requires
        names.no_duplicates(),
        names.len() <= 0x1_0000_0000,
        0 <= place < names.len(),
        names[place] == (Venue::Kalshi, ticker),
        carries(frame, "orderbook_snapshot"@, seq, msg),
        holds_text(msg, "market_ticker"@, ticker),
        holds_rows(msg, "yes_dollars_fp"@, yes),
        holds_rows(msg, "no_dollars_fp"@, no),
        msg matches Json::Object(members) && !members.contains_key("ts_ms"@),
    ensures
        match kalshi::frame_of(names, frame) {
            kalshi::Reading::Event(
                EventView::Snapshot { contract, yes: for_yes, no: for_no, seq: number, venue_ts_ms },
                _,
                absent,
            ) => {
                &&& contract.0 == place
                &&& number == seq
                &&& venue_ts_ms is None
                &&& absent == 0
                &&& for_yes.len() == yes.len()
                &&& forall|i: int| 0 <= i < yes.len() ==> says(#[trigger] yes[i], for_yes[i])
                &&& for_no.len() == no.len()
                &&& forall|i: int| 0 <= i < no.len() ==> says(#[trigger] no[i], for_no[i])
            },
            kalshi::Reading::Refused(_) => (exists|i: int|
                0 <= i < yes.len() && !readable(#[trigger] yes[i], false)) || (exists|i: int|
                0 <= i < no.len() && !readable(#[trigger] no[i], false)) || tally::total(
                yes.len() as int,
                |i: int| types::size_discarded(yes[i].1),
            ) + tally::total(no.len() as int, |i: int| types::size_discarded(no[i].1))
                > u64::MAX,
            _ => false,
        },
{
    types::lemma_lookup(names, Venue::Kalshi, ticker, place);
    lemma_rows(msg, "yes_dollars_fp"@, yes);
    lemma_rows(msg, "no_dollars_fp"@, no);
    a_ladder_says_what_its_rows_say(yes, yes.len() as int, false, 0);
    lemma_rounding(yes, yes.len() as int);
    lemma_rounding(no, no.len() as int);
    if let Ok((_, some)) = feed::sized(yes, yes.len() as int, false, 0) {
        a_ladder_says_what_its_rows_say(no, no.len() as int, false, some);
    }
}

proof fn lemma_rounding(rows: Seq<Row>, n: int)
    ensures
        tally::total(n, |i: int| types::size_discarded(rows[i].1)) >= 0,
    decreases n,
{
    if n > 0 {
        lemma_rounding(rows, n - 1);
    }
}

/// Frames of other kinds say nothing of a book: an acknowledgement is no event,
/// an error is refused, and anything else is unknown.
pub proof fn other_frames_say_nothing_of_a_book(
    names: Seq<Instrument>,
    frame: Json,
    msg: Json,
    seq: u64,
    kind: Seq<char>,
)
    requires
        carries(frame, kind, seq, msg),
        kind != "orderbook_snapshot"@,
        kind != "orderbook_delta"@,
    ensures
        match kalshi::frame_of(names, frame) {
            kalshi::Reading::Nothing => kind == "subscribed"@ || kind == "unsubscribed"@,
            kalshi::Reading::Refused(refusal) => kind == "error"@ && refusal == Refusal::Malformed,
            kalshi::Reading::Unknown => kind != "subscribed"@ && kind != "unsubscribed"@ && kind
                != "error"@,
            kalshi::Reading::Event(..) => false,
        },
{
    reveal_strlit("subscribed");
    reveal_strlit("unsubscribed");
    reveal_strlit("error");
    assert("subscribed"@.len() == 10 && "unsubscribed"@.len() == 12 && "error"@.len() == 5);
}

/// Every frame is counted as tried, and what it came to is counted once: as an
/// event, as unknown, as finer than a cent or as malformed.
pub proof fn a_frame_is_counted_for_what_it_came_to(
    metrics: MetricsView,
    names: Seq<Instrument>,
    frame: Json,
    receipt: u64,
)
    requires
        metrics.has_room(),
    ensures
        ({
            let (after, event) = kalshi::heard(metrics, names, Some(frame), receipt);
            &&& after.parse_attempts == metrics.parse_attempts + 1
            &&& match kalshi::frame_of(names, frame) {
                kalshi::Reading::Event(said, discarded, absent) => {
                    &&& event == Some(said)
                    &&& after.parse_errors == metrics.parse_errors
                    &&& after.unknown_messages == metrics.unknown_messages
                    &&& after.sub_cent_prices == metrics.sub_cent_prices
                    &&& 0 <= metrics.discarded_size_hundredths + discarded <= u64::MAX
                        ==> after.discarded_size_hundredths == metrics.discarded_size_hundredths
                        + discarded
                },
                kalshi::Reading::Nothing => event is None && after == (MetricsView {
                    parse_attempts: after.parse_attempts,
                    ..metrics
                }),
                kalshi::Reading::Unknown => event is None && after.unknown_messages
                    == metrics.unknown_messages + 1 && after.parse_errors == metrics.parse_errors
                    && after.sub_cent_prices == metrics.sub_cent_prices,
                kalshi::Reading::Refused(Refusal::Malformed) => event is None
                    && after.parse_errors == metrics.parse_errors + 1 && after.unknown_messages
                    == metrics.unknown_messages && after.sub_cent_prices
                    == metrics.sub_cent_prices,
                kalshi::Reading::Refused(Refusal::SubCent) => event is None
                    && after.sub_cent_prices == metrics.sub_cent_prices + 1
                    && after.unknown_messages == metrics.unknown_messages && after.parse_errors
                    == metrics.parse_errors,
            }
        }),
{
}

/// A request is signed over its time, its method and its path, and what follows a
/// question mark is no part of the path.
pub proof fn a_query_is_not_signed(ts: i64, method: Seq<char>, path: Seq<char>, query: Seq<char>)
    requires
        !path.contains('?'),
    ensures
        kalshi::signed_text(ts, method, path) == text::signed_decimal(ts as int) + method + path,
        kalshi::signed_text(ts, method, path + seq!['?'] + query) == kalshi::signed_text(
            ts,
            method,
            path,
        ),
{
    let whole = path + seq!['?'] + query;
    text::lemma_first_index(path, '?');
    assert(path.subrange(0, path.len() as int) =~= path);
    assert forall|j: int| 0 <= j < path.len() implies #[trigger] whole[j] != '?' by {
        assert(whole[j] == path[j]);
        assert(path.contains(path[j]));
    }
    assert(whole[path.len() as int] == '?');
    text::lemma_first_index_unique(whole, '?', path.len() as int);
    assert(whole.subrange(0, path.len() as int) =~= path);
}

/// Retries wait twice as long each time, from a quarter of a second up to half a
/// minute, and jitter adds at most a quarter.
pub proof fn retries_back_off(attempt: u32, jitter: u64)
    requires
        attempt < u32::MAX,
    ensures
        kalshi::base_ms(0) == 250,
        attempt < 7 ==> kalshi::base_ms((attempt + 1) as u32) == (if 2 * kalshi::base_ms(attempt)
            < 30_000 {
            2 * kalshi::base_ms(attempt)
        } else {
            30_000
        }),
        attempt >= 7 ==> kalshi::base_ms(attempt) == 30_000,
        ({
            let base = kalshi::base_ms(attempt);
            let wait = kalshi::backoff(attempt, jitter);
            &&& 250 <= base <= wait <= 30_000
            &&& 4 * wait <= 5 * base
            &&& jitter == 0 ==> wait == base
        }),
{
    vstd::arithmetic::power2::lemma2_to64();
    let base = kalshi::base_ms(attempt);
    let spread = base / 4 + 1;
    assert(0 <= (jitter as int) % spread < spread) by (nonlinear_arith)
        requires
            spread > 0,
    ;
    if jitter == 0 {
        assert(0int % spread == 0) by (nonlinear_arith)
            requires
                spread > 0,
        ;
    }
}

// ---------------------------------------------------------------------------
// Polymarket
// ---------------------------------------------------------------------------

/// A change names its side by the trade that made it: a purchase rests as a bid,
/// a sale as an offer.
pub proof fn a_change_becomes_the_level_it_sets(
    names: Seq<Instrument>,
    raw: RawChangeView,
    discarded: u64,
    place: int,
)
    requires
        names.no_duplicates(),
        names.len() <= 0x1_0000_0000,
        0 <= place < names.len(),
        names[place] == (Venue::Polymarket, raw.asset_id),
    ensures
        match polymarket::change_of(names, raw, discarded).1 {
            Ok(Some(set)) => {
                &&& set.contract.0 == place
                &&& raw.side == "BUY"@ && set.side == TokenSide::Bid || raw.side == "SELL"@
                    && set.side == TokenSide::Ask
                &&& types::price_cents(raw.price) matches Ok(cents) && cents == set.price
                &&& types::size_contracts(raw.size) matches Ok(size) && size == set.size
                &&& set.hash == raw.hash
            },
            Ok(None) => false,
            Err(_) => raw.side != "BUY"@ && raw.side != "SELL"@ || types::price_cents(raw.price)
                is Err || types::size_contracts(raw.size) is Err,
        },
{
    types::lemma_lookup(names, Venue::Polymarket, raw.asset_id, place);
    types::lemma_price_cents(raw.price);
    reveal_strlit("BUY");
    reveal_strlit("SELL");
    assert("BUY"@.len() != "SELL"@.len());
}

/// A book becomes the bids and the offers that it lists.
pub proof fn a_book_becomes_what_it_lists(
    names: Seq<Instrument>,
    raw: RawBookView,
    discarded: u64,
    place: int,
)
    requires
        names.no_duplicates(),
        names.len() <= 0x1_0000_0000,
        0 <= place < names.len(),
        names[place] == (Venue::Polymarket, raw.asset_id),
    ensures
        polymarket::book_of(names, raw, discarded).1 matches Ok(found) ==> {
            &&& found matches Some(book)
            &&& book.contract.0 == place
            &&& text::unsigned(raw.timestamp, u64::MAX as int) == Some(book.venue_ts_ms as int)
            &&& book.bids.len() == raw.bids.len()
            &&& forall|i: int|
                0 <= i < raw.bids.len() ==> says(#[trigger] raw.bids[i], book.bids[i])
            &&& book.asks.len() == raw.asks.len()
            &&& forall|i: int|
                0 <= i < raw.asks.len() ==> says(#[trigger] raw.asks[i], book.asks[i])
        },
        polymarket::book_of(names, raw, discarded).1 is Err ==> (text::unsigned(
            raw.timestamp,
            u64::MAX as int,
        ) is None || (exists|i: int|
            0 <= i < raw.bids.len() && !readable(#[trigger] raw.bids[i], true)) || (exists|i: int|
            0 <= i < raw.asks.len() && !readable(#[trigger] raw.asks[i], true)) || tally::total(
            raw.bids.len() as int,
            |i: int| types::size_discarded(raw.bids[i].1),
        ) + tally::total(
            raw.asks.len() as int,
            |i: int| types::size_discarded(raw.asks[i].1),
        ) > u64::MAX),
{
    types::lemma_lookup(names, Venue::Polymarket, raw.asset_id, place);
    let written = raw.timestamp;
    let digits = if written.len() > 0 && written[0] == '+' {
        written.subrange(1, written.len() as int)
    } else {
        written
    };
    if text::all_digits(digits) {
        text::lemma_number_bounds(digits);
    }
    a_ladder_says_what_its_rows_say(raw.bids, raw.bids.len() as int, true, 0);
    lemma_rounding(raw.bids, raw.bids.len() as int);
    lemma_rounding(raw.asks, raw.asks.len() as int);
    if let Ok((_, some)) = feed::sized(raw.bids, raw.bids.len() as int, true, 0) {
        a_ladder_says_what_its_rows_say(raw.asks, raw.asks.len() as int, true, some);
    }
}

/// A market that nobody subscribed to is passed over, whatever its frame says.
pub proof fn an_unknown_market_is_passed_over(
    names: Seq<Instrument>,
    book: RawBookView,
    change: RawChangeView,
    discarded: u64,
)
    requires
        forall|i: int| 0 <= i < names.len() ==> #[trigger] names[i] != (
            Venue::Polymarket,
            book.asset_id,
        ),
        forall|i: int| 0 <= i < names.len() ==> #[trigger] names[i] != (
            Venue::Polymarket,
            change.asset_id,
        ),
    ensures
        polymarket::book_of(names, book, discarded).1 matches Ok(None),
        polymarket::book_of(names, book, discarded).0 == discarded,
        polymarket::change_of(names, change, discarded).1 matches Ok(None),
        polymarket::change_of(names, change, discarded).0 == discarded,
{
}

/// A book is flattened to bids for both outcomes: its bids rest for Yes, and each
/// of its offers rests for No at what is left of the dollar, at the same size.
pub proof fn an_offer_rests_for_the_other_outcome(
    event: EventView,
    book: BookSnapshotView,
    number: u64,
    i: int,
)
    requires
        polymarket::snapshots(event, book, number),
        forall|k: int| 0 <= k < book.asks.len() ==> 0 <= (#[trigger] book.asks[k]).price <= 100,
        0 <= i < book.asks.len(),
    ensures
        ({
            &&& event matches EventView::Snapshot { contract, yes, no, seq, venue_ts_ms }
            &&& contract == book.contract
            &&& yes == book.bids
            &&& no.len() == book.asks.len()
            &&& no[i].price + book.asks[i].price == 100
            &&& no[i].size == book.asks[i].size
            &&& seq == number
            &&& venue_ts_ms == Some(book.venue_ts_ms)
        }),
{
}

/// A set level is passed on as it was read.
pub proof fn a_set_level_is_passed_on(set: LevelSetView, heard: u64)
    ensures
        polymarket::restated(set, heard) matches EventView::LevelSet {
            contract,
            side,
            price,
            size,
            venue_ts_ms,
        } && contract == set.contract && side == set.side && price == set.price && size == set.size
            && venue_ts_ms == heard,
{
}

} // verus!
