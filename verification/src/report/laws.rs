//! What the tables show.
use vstd::prelude::*;
use crate::book::laws::rests;
use crate::registry::GroupView;
use crate::report;
use crate::tally;
use crate::text;
use crate::types;
use crate::types::{BookView, Level};

verus! {

/// A price and a size, as a table shows them.
pub open spec fn shows(cell: Seq<char>, price: int, size: int) -> bool {
    cell == text::signed_decimal(price) + "x"@ + text::signed_decimal(size)
}

/// The best level that rests in sizes by price.
pub open spec fn is_best(sizes: Seq<i64>, level: Level) -> bool {
    rests(sizes, level) && forall|p: int| level.price < p <= 100 ==> #[trigger] sizes[p] == 0
}

/// Nothing rests.
pub open spec fn is_bare(sizes: Seq<i64>) -> bool {
    forall|p: int| 0 <= p <= 100 ==> #[trigger] sizes[p] == 0
}

/// A row shows the best bid for each outcome, and beside it the offer that it is
/// of the other: the same size at what is left of the dollar. It shows nothing
/// where nothing rests, and how long ago the book was written.
pub proof fn a_row_shows_the_best_quotes(
    book: BookView,
    ticker: Seq<char>,
    now_ms: u64,
    yes: Level,
    no: Level,
)
    requires
        book.wf(),
    ensures
        ({
            let cells = report::book_cells(book, ticker, now_ms);
            &&& cells.ticker == ticker
            &&& cells.seq == text::decimal(book.seq as nat)
            &&& is_best(book.yes, yes) ==> shows(cells.yes_bid, yes.price as int, yes.size as int)
                && shows(cells.no_ask, 100 - yes.price, yes.size as int)
            &&& is_best(book.no, no) ==> shows(cells.no_bid, no.price as int, no.size as int)
                && shows(cells.yes_ask, 100 - no.price, no.size as int)
            &&& is_bare(book.yes) ==> cells.yes_bid == "-"@ && cells.no_ask == "-"@
            &&& is_bare(book.no) ==> cells.no_bid == "-"@ && cells.yes_ask == "-"@
            &&& book.updated_at_ms > 0 && now_ms >= book.updated_at_ms ==> cells.age
                == text::decimal((now_ms - book.updated_at_ms) as nat)
        }),
{
    crate::book::laws::the_best_is_at_the_highest_resting_price(book);
    if is_best(book.yes, yes) {
        let best = types::first_level(book.bids())->0;
        assert(book.yes[yes.price as int] != 0);
        assert(book.yes[best.price as int] != 0);
        assert(best.price == yes.price);
    }
    if is_best(book.no, no) {
        let best = types::first_level(book.no_bids())->0;
        let offer = types::first_level(book.asks())->0;
        assert(book.no[no.price as int] != 0);
        assert(book.no[best.price as int] != 0);
        assert(book.no[100 - offer.price] != 0);
        assert(best.price == no.price);
        assert(offer.price == 100 - no.price);
    }
    if is_bare(book.yes) {
        if let Some(best) = types::first_level(book.bids()) {
            assert(book.yes[best.price as int] == 0);
        }
    }
    if is_bare(book.no) {
        if let Some(best) = types::first_level(book.no_bids()) {
            assert(book.no[best.price as int] == 0);
        }
        if let Some(offer) = types::first_level(book.asks()) {
            assert(book.no[100 - offer.price] == 0);
        }
    }
}

/// Groups are counted by what they are called.
pub proof fn groups_are_counted_by_name(groups: Seq<GroupView>, name: Seq<char>)
    ensures
        report::related(groups, name) == tally::total(
            groups.len() as int,
            |i: int|
                if report::relation_name(groups[i].relation) == name {
                    1
                } else {
                    0
                },
        ),
    decreases groups.len(),
{
    let flag = |i: int|
        if report::relation_name(groups[i].relation) == name {
            1int
        } else {
            0int
        };
    if groups.len() > 0 {
        let before = groups.drop_last();
        groups_are_counted_by_name(before, name);
        let earlier = |i: int|
            if report::relation_name(before[i].relation) == name {
                1int
            } else {
                0int
            };
        tally::lemma_same(before.len() as int, earlier, flag);
    }
    assert(flag =~= (|i: int|
        if report::relation_name(groups[i].relation) == name {
            1int
        } else {
            0int
        }));
}

} // verus!
