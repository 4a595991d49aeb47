//! What a digest tells apart, and what a check lets pass.
use vstd::prelude::*;
use crate::book::StoreView;
use crate::feed::EventView;
use crate::text;
use crate::types::{BookState, BookView};
use crate::verify;
use crate::verify::{DigestView, ExpectedView};

verus! {

// ---------------------------------------------------------------------------
// Books
// ---------------------------------------------------------------------------

/// Two texts that agree up to a character which neither holds before it agree on
/// both sides of it.
proof fn lemma_cut(a: Seq<char>, r: Seq<char>, b: Seq<char>, s: Seq<char>, c: char)
    requires
        forall|i: int| 0 <= i < a.len() ==> #[trigger] a[i] != c,
        forall|i: int| 0 <= i < b.len() ==> #[trigger] b[i] != c,
        a + seq![c] + r == b + seq![c] + s,
    ensures
        a == b,
        r == s,
{
    let left = a + seq![c] + r;
    let right = b + seq![c] + s;
    if a.len() < b.len() {
        assert(left[a.len() as int] == c);
        assert(right[a.len() as int] == b[a.len() as int]);
    } else if b.len() < a.len() {
        assert(right[b.len() as int] == c);
        assert(left[b.len() as int] == a[b.len() as int]);
    }
    assert forall|i: int| 0 <= i < a.len() implies a[i] == b[i] by {
        assert(left[i] == right[i]);
    }
    assert(a =~= b);
    assert(left.len() == right.len());
    assert forall|i: int| 0 <= i < r.len() implies r[i] == s[i] by {
        assert(left[a.len() + 1 + i] == right[a.len() + 1 + i]);
    }
    assert(r =~= s);
}

/// Two texts that begin alike and are the same go on alike.
proof fn lemma_strip(head: Seq<char>, x: Seq<char>, y: Seq<char>)
    requires
        head + x == head + y,
    ensures
        x == y,
{
    assert((head + x).skip(head.len() as int) =~= x);
    assert((head + y).skip(head.len() as int) =~= y);
}

/// Two texts that agree behind a character which neither holds after it agree on
/// both sides of it.
proof fn lemma_cut_back(a: Seq<char>, r: Seq<char>, b: Seq<char>, s: Seq<char>, c: char)
    requires
        forall|i: int| 0 <= i < r.len() ==> #[trigger] r[i] != c,
        forall|i: int| 0 <= i < s.len() ==> #[trigger] s[i] != c,
        a + seq![c] + r == b + seq![c] + s,
    ensures
        a == b,
        r == s,
{
    let left = a + seq![c] + r;
    let right = b + seq![c] + s;
    assert(left.len() == right.len());
    if a.len() < b.len() {
        assert(right[b.len() as int] == c);
        assert(left[b.len() as int] == r[b.len() - a.len() - 1]);
    } else if b.len() < a.len() {
        assert(left[a.len() as int] == c);
        assert(right[a.len() as int] == s[a.len() - b.len() - 1]);
    }
    assert forall|i: int| 0 <= i < a.len() implies a[i] == b[i] by {
        assert(left[i] == right[i]);
    }
    assert(a =~= b);
    assert forall|i: int| 0 <= i < r.len() implies r[i] == s[i] by {
        assert(left[a.len() + 1 + i] == right[a.len() + 1 + i]);
    }
    assert(r =~= s);
}

/// Texts made of digits and a sign.
pub open spec fn is_numeral(s: Seq<char>) -> bool {
    forall|i: int| 0 <= i < s.len() ==> text::is_digit(#[trigger] s[i]) || s[i] == '-'
}

proof fn lemma_signed(n: int)
    ensures
        is_numeral(text::signed_decimal(n)),
        text::signed_decimal(n).len() > 0,
{
    if n < 0 {
        text::a_written_number_reads_back((-n) as nat);
        let digits = text::decimal((-n) as nat);
        let s = seq!['-'] + digits;
        assert forall|i: int| 0 <= i < s.len() implies text::is_digit(#[trigger] s[i]) || s[i]
            == '-' by {
            if i > 0 {
                assert(s[i] == digits[i - 1]);
            }
        }
    } else {
        text::a_written_number_reads_back(n as nat);
    }
}

proof fn lemma_signed_apart(a: int, b: int)
    requires
        text::signed_decimal(a) == text::signed_decimal(b),
    ensures
        a == b,
{
    let (x, y) = (text::signed_decimal(a), text::signed_decimal(b));
    text::a_written_number_reads_back((if a < 0 {
        -a
    } else {
        a
    }) as nat);
    text::a_written_number_reads_back((if b < 0 {
        -b
    } else {
        b
    }) as nat);
    if a < 0 {
        let digits = text::decimal((-a) as nat);
        assert(x[0] == '-');
        if b >= 0 {
            assert(text::is_digit(y[0]));
        } else {
            let others = text::decimal((-b) as nat);
            assert(x.skip(1) =~= digits);
            assert(y.skip(1) =~= others);
        }
    } else if b < 0 {
        assert(y[0] == '-');
        assert(text::is_digit(x[0]));
    }
}

/// Where a side's text ends: with its last price and size, or nowhere.
proof fn lemma_side_ends(sizes: Seq<i64>, n: int)
    requires
        0 <= n <= sizes.len(),
    ensures
        ({
            let side = verify::side_text(sizes, n);
            &&& forall|i: int| 0 <= i < side.len() ==> #[trigger] side[i] != ' '
            &&& side.len() == 0 ==> forall|p: int| 0 <= p < n ==> #[trigger] sizes[p] == 0
            &&& side.len() > 0 ==> exists|p: int|
                0 <= p < n && #[trigger] sizes[p] != 0 && side == verify::side_text(sizes, p)
                    + separator(verify::side_text(sizes, p)) + text::decimal(p as nat) + seq![':']
                    + text::signed_decimal(sizes[p] as int) && forall|q: int|
                    p < q < n ==> #[trigger] sizes[q] == 0
        }),
    decreases n,
{
    reveal_strlit(",");
    reveal_strlit(":");
    if n > 0 {
        lemma_side_ends(sizes, n - 1);
        let before = verify::side_text(sizes, n - 1);
        let side = verify::side_text(sizes, n);
        assert(":"@ =~= seq![':']);
        assert(","@ =~= seq![',']);
        if sizes[n - 1] != 0 {
            lemma_signed(sizes[n - 1] as int);
            text::a_written_number_reads_back((n - 1) as nat);
            let price = text::decimal((n - 1) as nat);
            let size = text::signed_decimal(sizes[n - 1] as int);
            assert(side =~= before + separator(before) + price + seq![':'] + size);
            assert forall|i: int| 0 <= i < side.len() implies #[trigger] side[i] != ' ' by {
                let k = before.len() + separator(before).len();
                if i < before.len() {
                    assert(side[i] == before[i]);
                } else if i < k {
                } else if i < k + price.len() {
                    assert(side[i] == price[i - k]);
                } else if i > k + price.len() {
                    assert(side[i] == size[i - k - price.len() - 1]);
                }
            }
        } else {
            assert(side == before);
            if side.len() > 0 {
                let p = choose|p: int|
                    0 <= p < n - 1 && #[trigger] sizes[p] != 0 && side == verify::side_text(
                        sizes,
                        p,
                    ) + separator(verify::side_text(sizes, p)) + text::decimal(p as nat)
                        + seq![':'] + text::signed_decimal(sizes[p] as int) && forall|q: int|
                        p < q < n - 1 ==> #[trigger] sizes[q] == 0;
                assert(sizes[p] != 0);
            }
        }
    }
}

/// What stands between a side's entries.
pub open spec fn separator(before: Seq<char>) -> Seq<char> {
    if before.len() == 0 {
        Seq::empty()
    } else {
        seq![',']
    }
}

/// Two sides with the same text hold the same sizes.
proof fn lemma_side_apart(a: Seq<i64>, b: Seq<i64>, m: int, n: int)
    requires
        0 <= m <= a.len(),
        0 <= n <= b.len(),
        verify::side_text(a, m) == verify::side_text(b, n),
    ensures
        forall|p: int|
            0 <= p < m && 0 <= p < n ==> #[trigger] a[p] == b[p],
        forall|p: int| n <= p < m ==> #[trigger] a[p] == 0,
        forall|p: int| m <= p < n ==> #[trigger] b[p] == 0,
    decreases m,
{
    lemma_side_ends(a, m);
    lemma_side_ends(b, n);
    let side = verify::side_text(a, m);
    if side.len() > 0 {
        let p = choose|p: int|
            0 <= p < m && #[trigger] a[p] != 0 && side == verify::side_text(a, p) + separator(
                verify::side_text(a, p),
            ) + text::decimal(p as nat) + seq![':'] + text::signed_decimal(a[p] as int)
                && forall|q: int| p < q < m ==> #[trigger] a[q] == 0;
        let q = choose|q: int|
            0 <= q < n && #[trigger] b[q] != 0 && side == verify::side_text(b, q) + separator(
                verify::side_text(b, q),
            ) + text::decimal(q as nat) + seq![':'] + text::signed_decimal(b[q] as int)
                && forall|k: int| q < k < n ==> #[trigger] b[k] == 0;
        let (ha, hb) = (verify::side_text(a, p), verify::side_text(b, q));
        let (pa, pb) = (text::decimal(p as nat), text::decimal(q as nat));
        let (sa, sb) = (text::signed_decimal(a[p] as int), text::signed_decimal(b[q] as int));
        lemma_signed(a[p] as int);
        lemma_signed(b[q] as int);
        text::a_written_number_reads_back(p as nat);
        text::a_written_number_reads_back(q as nat);
        let (fa, fb) = (ha + separator(ha) + pa, hb + separator(hb) + pb);
        assert forall|i: int| 0 <= i < sa.len() implies #[trigger] sa[i] != ':' by {}
        assert forall|i: int| 0 <= i < sb.len() implies #[trigger] sb[i] != ':' by {}
        lemma_cut_back(fa, sa, fb, sb, ':');
        lemma_signed_apart(a[p] as int, b[q] as int);
        assert forall|i: int| 0 <= i < pa.len() implies #[trigger] pa[i] != ',' by {
            assert(text::is_digit(pa[i]));
        }
        assert forall|i: int| 0 <= i < pb.len() implies #[trigger] pb[i] != ',' by {
            assert(text::is_digit(pb[i]));
        }
        if ha.len() == 0 {
            assert(fa =~= pa);
            if hb.len() > 0 {
                assert(fb[hb.len() as int] == ',');
                assert(pa[hb.len() as int] == ',');
            } else {
                assert(fb =~= pb);
            }
        } else {
            if hb.len() == 0 {
                assert(fb =~= pb);
                assert(fa[ha.len() as int] == ',');
                assert(pb[ha.len() as int] == ',');
            } else {
                assert(fa =~= ha + seq![','] + pa);
                assert(fb =~= hb + seq![','] + pb);
                lemma_cut_back(ha, pa, hb, pb, ',');
            }
        }
        assert(pa == pb);
        assert(p == q);
        assert(ha == hb);
        lemma_side_apart(a, b, p, q);
    }
}

proof fn lemma_state_words(a: BookState, b: BookState)
    ensures
        verify::state_name(a) == verify::state_name(b) ==> a == b,
        forall|i: int|
            0 <= i < verify::state_name(a).len() ==> #[trigger] verify::state_name(a)[i] != ' ',
{
    reveal_strlit("uninitialized");
    reveal_strlit("resyncing");
    reveal_strlit("live");
    assert("uninitialized"@.len() == 13 && "resyncing"@.len() == 9 && "live"@.len() == 4);
    assert forall|i: int| 0 <= i < 13 implies #[trigger] "uninitialized"@[i] != ' ' by {}
    assert forall|i: int| 0 <= i < 9 implies #[trigger] "resyncing"@[i] != ' ' by {}
    assert forall|i: int| 0 <= i < 4 implies #[trigger] "live"@[i] != ' ' by {}
}

/// What follows the state in the text of a book.
spec fn tail_of(book: BookView) -> Seq<char> {
    seq!['s', 'e', 'q', '='] + (text::decimal(book.seq as nat) + seq![' '] + sides_of(book))
}

/// What follows the number in the text of a book.
spec fn sides_of(book: BookView) -> Seq<char> {
    seq!['y', 'e', 's', '='] + (verify::side_text(book.yes, 101) + seq![' '] + other_of(book))
}

/// What follows the Yes side in the text of a book.
spec fn other_of(book: BookView) -> Seq<char> {
    seq!['n', 'o', '='] + verify::side_text(book.no, 101)
}

proof fn lemma_parts(book: BookView, ticker: Seq<char>)
    ensures
        verify::book_text(book, ticker) == ("ticker="@ + ticker + " state="@) + (
        verify::state_name(book.state) + seq![' '] + tail_of(book)),
{
    reveal_strlit(" seq=");
    reveal_strlit(" yes=");
    reveal_strlit(" no=");
    assert(" seq="@ =~= seq![' '] + seq!['s', 'e', 'q', '=']);
    assert(" yes="@ =~= seq![' '] + seq!['y', 'e', 's', '=']);
    assert(" no="@ =~= seq![' '] + seq!['n', 'o', '=']);
    let head = "ticker="@ + ticker + " state="@;
    let name = verify::state_name(book.state);
    let number = text::decimal(book.seq as nat);
    let (yes, no) = (verify::side_text(book.yes, 101), verify::side_text(book.no, 101));
    let s3 = " no="@ + no;
    assert(s3 =~= seq![' '] + other_of(book));
    let s2 = " yes="@ + (yes + s3);
    assert(yes + s3 =~= yes + seq![' '] + other_of(book));
    assert(s2 =~= seq![' '] + sides_of(book));
    let s1 = " seq="@ + (number + s2);
    assert(number + s2 =~= number + seq![' '] + sides_of(book));
    assert(s1 =~= seq![' '] + tail_of(book));
    assert(name + s1 =~= name + seq![' '] + tail_of(book));
    assert(verify::book_text(book, ticker) =~= head + (name + s1));
}

proof fn lemma_digits_hold_no_space(n: nat)
    ensures
        forall|i: int|
            0 <= i < text::decimal(n).len() ==> #[trigger] text::decimal(n)[i] != ' ',
{
    text::a_written_number_reads_back(n);
    assert forall|i: int| 0 <= i < text::decimal(n).len() implies #[trigger] text::decimal(n)[i]
        != ' ' by {
        assert(text::is_digit(text::decimal(n)[i]));
    }
}

/// The canonical text of a book tells it from every other: books with the same
/// text are in the same state, at the same number, and hold the same sizes on
/// both sides. When they were written is no part of it.
pub proof fn a_canonical_text_tells_books_apart(a: BookView, b: BookView, ticker: Seq<char>)
    requires
        a.wf(),
        b.wf(),
    ensures
        verify::book_text(a, ticker) == verify::book_text(b, ticker) <==> a.state == b.state
            && a.seq == b.seq && a.yes == b.yes && a.no == b.no,
{
    if verify::book_text(a, ticker) == verify::book_text(b, ticker) {
        let head = "ticker="@ + ticker + " state="@;
        let (na, nb) = (verify::state_name(a.state), verify::state_name(b.state));
        let (qa, qb) = (text::decimal(a.seq as nat), text::decimal(b.seq as nat));
        let (ya, yb) = (verify::side_text(a.yes, 101), verify::side_text(b.yes, 101));
        let (oa, ob) = (verify::side_text(a.no, 101), verify::side_text(b.no, 101));
        lemma_parts(a, ticker);
        lemma_parts(b, ticker);
        lemma_strip(head, na + seq![' '] + tail_of(a), nb + seq![' '] + tail_of(b));
        lemma_state_words(a.state, b.state);
        lemma_state_words(b.state, a.state);
        lemma_cut(na, tail_of(a), nb, tail_of(b), ' ');
        lemma_strip(
            seq!['s', 'e', 'q', '='],
            qa + seq![' '] + sides_of(a),
            qb + seq![' '] + sides_of(b),
        );
        lemma_digits_hold_no_space(a.seq as nat);
        lemma_digits_hold_no_space(b.seq as nat);
        lemma_cut(qa, sides_of(a), qb, sides_of(b), ' ');
        text::a_written_number_reads_back(a.seq as nat);
        text::a_written_number_reads_back(b.seq as nat);
        lemma_strip(
            seq!['y', 'e', 's', '='],
            ya + seq![' '] + other_of(a),
            yb + seq![' '] + other_of(b),
        );
        lemma_side_ends(a.yes, 101);
        lemma_side_ends(b.yes, 101);
        lemma_cut(ya, other_of(a), yb, other_of(b), ' ');
        lemma_strip(seq!['n', 'o', '='], oa, ob);
        lemma_side_apart(a.yes, b.yes, 101, 101);
        lemma_side_apart(a.no, b.no, 101, 101);
        assert(a.yes =~= b.yes);
        assert(a.no =~= b.no);
    }
}

// ---------------------------------------------------------------------------
// The log
// ---------------------------------------------------------------------------

/// What is worth a line in the log: a gap, a lost connection, a renewed
/// subscription, and a snapshot that ends a resync. Every event is counted.
pub proof fn the_log_notes_what_broke_and_what_healed(
    log: verify::LogView,
    store: StoreView,
    event: EventView,
    now_ms: u64,
)
    requires
        store.wf(),
        log.events_seen < u64::MAX,
    ensures
        ({
            let (after, next, outcome) = log.applied(store, event, now_ms);
            let healed = event matches EventView::Snapshot { contract, .. } && outcome is Snapshot
                && store.books[contract.0 as int].state == BookState::Resyncing;
            let noted = outcome is Gap || healed || (outcome is Invalidated && (event
                is Disconnected || event is Resubscribed));
            &&& next.events_seen == log.events_seen + 1
            &&& next.entries.len() == log.entries.len() + (if noted {
                1int
            } else {
                0int
            })
            &&& forall|i: int|
                0 <= i < log.entries.len() ==> #[trigger] next.entries[i] == log.entries[i]
            &&& after.books == store.applied(event, now_ms).0.books
            &&& outcome == store.applied(event, now_ms).1
            &&& outcome is Gap ==> crate::book::laws::one_more(
                store.metrics.resync_requests,
                after.metrics.resync_requests,
            )
            &&& !(outcome is Gap) ==> after.metrics.resync_requests
                == store.metrics.resync_requests
        }),
{
}

// ---------------------------------------------------------------------------
// Checks
// ---------------------------------------------------------------------------

/// The fingerprint wanted of a ticker: the last one listed.
pub open spec fn is_wanted(
    books: Seq<(Seq<char>, Seq<char>)>,
    ticker: Seq<char>,
    hash: Seq<char>,
) -> bool {
    exists|i: int|
        0 <= i < books.len() && #[trigger] books[i] == (ticker, hash) && forall|k: int|
            i < k < books.len() ==> (#[trigger] books[k]).0 != ticker
}

proof fn lemma_wanted(books: Seq<(Seq<char>, Seq<char>)>, ticker: Seq<char>)
    ensures
        match verify::wanted(books, ticker) {
            Some(hash) => is_wanted(books, ticker, hash),
            None => forall|k: int| 0 <= k < books.len() ==> (#[trigger] books[k]).0 != ticker,
        },
    decreases books.len(),
{
    if books.len() > 0 {
        let front = books.drop_last();
        let n = books.len() - 1;
        assert(books[n] == books.last());
        if books.last().0 == ticker {
            assert(books[n] == (ticker, books.last().1));
        } else {
            lemma_wanted(front, ticker);
            if let Some(hash) = verify::wanted(front, ticker) {
                let i = choose|i: int|
                    0 <= i < front.len() && #[trigger] front[i] == (ticker, hash) && forall|k: int|
                        i < k < front.len() ==> (#[trigger] front[k]).0 != ticker;
                assert(books[i] == front[i]);
                assert forall|k: int| i < k < books.len() implies (#[trigger] books[k]).0
                    != ticker by {
                    if k < n {
                        assert(books[k] == front[k]);
                    }
                }
            } else {
                assert forall|k: int| 0 <= k < books.len() implies (#[trigger] books[k]).0
                    != ticker by {
                    if k < n {
                        assert(books[k] == front[k]);
                    }
                }
            }
        }
    }
}

proof fn lemma_one_wanted(
    books: Seq<(Seq<char>, Seq<char>)>,
    ticker: Seq<char>,
    a: Seq<char>,
    b: Seq<char>,
)
    requires
        is_wanted(books, ticker, a),
        is_wanted(books, ticker, b),
    ensures
        a == b,
{
    let i = choose|i: int|
        0 <= i < books.len() && #[trigger] books[i] == (ticker, a) && forall|k: int|
            i < k < books.len() ==> (#[trigger] books[k]).0 != ticker;
    let j = choose|j: int|
        0 <= j < books.len() && #[trigger] books[j] == (ticker, b) && forall|k: int|
            j < k < books.len() ==> (#[trigger] books[k]).0 != ticker;
    assert(books[i].0 == ticker && books[j].0 == ticker);
}

proof fn lemma_book_failures(
    books: Seq<(Seq<char>, Seq<char>)>,
    actual: Seq<(Seq<char>, Seq<char>)>,
    n: int,
)
    requires
        0 <= n <= actual.len(),
    ensures
        verify::book_failures(books, actual, n).len() == 0 <==> forall|i: int|
            0 <= i < n ==> is_wanted(books, (#[trigger] actual[i]).0, actual[i].1),
    decreases n,
{
    if n > 0 {
        lemma_book_failures(books, actual, n - 1);
        let last = actual[n - 1];
        lemma_wanted(books, last.0);
        assert(verify::book_failure(books, last).len() == 0 <==> is_wanted(books, last.0, last.1))
            by {
            if let Some(hash) = verify::wanted(books, last.0) {
                if is_wanted(books, last.0, last.1) {
                    lemma_one_wanted(books, last.0, hash, last.1);
                }
            } else if is_wanted(books, last.0, last.1) {
                let i = choose|i: int|
                    0 <= i < books.len() && #[trigger] books[i] == (last.0, last.1) && forall|
                        k: int,
                    |
                        i < k < books.len() ==> (#[trigger] books[k]).0 != last.0;
                assert(books[i].0 == last.0);
            }
        }
    }
}

proof fn lemma_missing_failures(
    books: Seq<(Seq<char>, Seq<char>)>,
    actual: Seq<(Seq<char>, Seq<char>)>,
    n: int,
)
    requires
        0 <= n <= books.len(),
    ensures
        verify::missing_failures(books, actual, n).len() == 0 <==> forall|i: int|
            0 <= i < n ==> verify::replayed(actual, (#[trigger] books[i]).0),
    decreases n,
{
    if n > 0 {
        lemma_missing_failures(books, actual, n - 1);
    }
}

/// A run passes its check exactly where every book has the fingerprint that is
/// wanted of it, every book that is wanted is there, and the log has its
/// fingerprint too.
pub proof fn a_check_passes_exactly_what_agrees(expected: ExpectedView, actual: DigestView)
    ensures
        verify::failures(expected, actual).len() == 0 <==> {
            &&& forall|i: int|
                0 <= i < actual.books.len() ==> is_wanted(
                    expected.books,
                    (#[trigger] actual.books[i]).0,
                    actual.books[i].1,
                )
            &&& forall|i: int|
                0 <= i < expected.books.len() ==> exists|k: int|
                    0 <= k < actual.books.len() && (#[trigger] actual.books[k]).0 == (
                    #[trigger] expected.books[i]).0
            &&& expected.gaps == Some(actual.gaps)
        },
{
    lemma_book_failures(expected.books, actual.books, actual.books.len() as int);
    lemma_missing_failures(expected.books, actual.books, expected.books.len() as int);
    let (e, a) = (expected.books, actual.books);
    let there = forall|i: int|
        0 <= i < e.len() ==> exists|k: int|
            0 <= k < a.len() && (#[trigger] a[k]).0 == (#[trigger] e[i]).0;
    let found = forall|i: int| 0 <= i < e.len() ==> verify::replayed(a, (#[trigger] e[i]).0);
    if found {
        assert forall|i: int| 0 <= i < e.len() implies exists|k: int|
            0 <= k < a.len() && (#[trigger] a[k]).0 == (#[trigger] e[i]).0 by {
            assert(verify::replayed(a, e[i].0));
        }
    }
    if there {
        assert forall|i: int| 0 <= i < e.len() implies verify::replayed(a, (#[trigger] e[i]).0) by {
            let name = e[i].0;
            let k = choose|k: int| 0 <= k < a.len() && (#[trigger] a[k]).0 == e[i].0;
            assert(a[k].0 == name);
        }
    }
}

} // verus!
