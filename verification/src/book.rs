//! Book store: apply feed events to in-memory books with sequence continuity.
//!
//! Sequence numbers are scoped to the venue subscription, not per contract. A
//! gap on any ticker invalidates every live book *on that venue*, and no book
//! on any other: two venues number their own subscriptions from their own
//! handshakes, so treating the streams as one would read every alternating
//! message as a discontinuity. The store never calls back into the feed; on
//! [`Applied::Gap`] the driver must request a resync.
//!
//! Books stay in one flat vector indexed by [`ContractId`], which is what makes
//! a lookup a single index. Only the sequence expectation and the blast radius
//! of an invalidation are per venue; each [`Book`] already carries the venue it
//! belongs to.
//!
//! `updated_at_ms` comes from the engine clock (local time live, recorded
//! receipt time under replay), never from the venue timestamp on the event.
use vstd::prelude::*;
use crate::feed::{EventView, FeedEvent};
use crate::solver::BookSource;
use crate::types::{
    Book, BookState, BookView, Cents, ContractId, Contracts, Instrument, InternError, Level, Side,
    TokenSide, Venue, VENUE_COUNT,
};
use crate::types;
use crate::solver;

pub mod laws;

verus! {

/// Outcome of applying one [`FeedEvent`].
#[derive(Clone, Copy, Debug, PartialEq, Eq, Structural)]
pub enum Applied {
    Snapshot(ContractId),
    Delta(ContractId),
    /// Delta arrived while the book was not [`BookState::Live`].
    Skipped,
    /// Subscription sequence discontinuity; driver must request resync.
    Gap { expected: u64, got: u64 },
    UnknownContract,
    /// Disconnect or resubscribe invalidated books awaiting a fresh snapshot.
    Invalidated,
}

#[derive(Clone, Copy, Debug, PartialEq, Eq, Structural)]
pub struct BookMetrics {
    pub snapshots_applied: u64,
    pub deltas_applied: u64,
    pub deltas_skipped_not_live: u64,
    pub sequence_gaps: u64,
    pub resync_requests: u64,
    pub negative_level_clamps: u64,
    pub crossed_books_observed: u64,
}

impl BookMetrics {
    pub open spec fn zero() -> BookMetrics {
        BookMetrics {
            snapshots_applied: 0,
            deltas_applied: 0,
            deltas_skipped_not_live: 0,
            sequence_gaps: 0,
            resync_requests: 0,
            negative_level_clamps: 0,
            crossed_books_observed: 0,
        }
    }

    /// Books by state: uninitialized, resyncing, live.
    pub fn books_by_state(store: &BookStore) -> (counts: (u64, u64, u64))
        ensures
            counts.0 == count_in(store@.books, BookState::Uninitialized),
            counts.1 == count_in(store@.books, BookState::Resyncing),
            counts.2 == count_in(store@.books, BookState::Live),
    {
        let mut uninitialized: u64 = 0;
        let mut resyncing: u64 = 0;
        let mut live: u64 = 0;
        let ghost all = store@.books;
        let mut i: usize = 0;
        assert(all.subrange(0, 0) =~= Seq::<BookView>::empty());
        while i < store.books.len()
            invariant
                i <= store.books@.len(),
                all == books_view(store.books@),
                uninitialized == count_in(all.subrange(0, i as int), BookState::Uninitialized),
                resyncing == count_in(all.subrange(0, i as int), BookState::Resyncing),
                live == count_in(all.subrange(0, i as int), BookState::Live),
                uninitialized + resyncing + live == i,
            decreases store.books@.len() - i,
        {
            proof {
                assert(all.subrange(0, i + 1).drop_last() =~= all.subrange(0, i as int));
                assert(all.subrange(0, i + 1).last() == store.books@[i as int]@);
            }
            match store.books[i].state {
                BookState::Uninitialized => {
                    uninitialized = uninitialized + 1;
                },
                BookState::Resyncing => {
                    resyncing = resyncing + 1;
                },
                BookState::Live => {
                    live = live + 1;
                },
            }
            i = i + 1;
        }
        assert(all.subrange(0, all.len() as int) =~= all);
        (uninitialized, resyncing, live)
    }
}

impl Default for BookMetrics {
    fn default() -> (metrics: Self)
        ensures
            metrics == BookMetrics::zero(),
    {
        BookMetrics {
            snapshots_applied: 0,
            deltas_applied: 0,
            deltas_skipped_not_live: 0,
            sequence_gaps: 0,
            resync_requests: 0,
            negative_level_clamps: 0,
            crossed_books_observed: 0,
        }
    }
}

/// How many books are in a state.
pub open spec fn count_in(books: Seq<BookView>, state: BookState) -> int
    decreases books.len(),
{
    if books.len() == 0 {
        0
    } else {
        count_in(books.drop_last(), state) + if books.last().state == state {
            1int
        } else {
            0
        }
    }
}

pub struct BookStore {
    books: Vec<Book>,
    contracts: Contracts,
    /// Next expected subscription sequence after the last accepted message, per
    /// venue. Indexed by [`Venue::index`].
    expected_seq: [Option<u64>; 2],
    pub metrics: BookMetrics,
}

/// What a [`BookStore`] holds.
#[verifier::ext_equal]
pub struct StoreView {
    pub books: Seq<BookView>,
    pub names: Seq<Instrument>,
    pub expected: Seq<Option<u64>>,
    pub metrics: BookMetrics,
}

pub open spec fn books_view(books: Seq<Book>) -> Seq<BookView> {
    books.map_values(|book: Book| book@)
}

impl View for BookStore {
    type V = StoreView;

    closed spec fn view(&self) -> StoreView {
        StoreView {
            books: books_view(self.books@),
            names: self.contracts@,
            expected: self.expected_seq@,
            metrics: self.metrics,
        }
    }
}

/// The number after a sequence number.
pub open spec fn after(seq: u64) -> u64 {
    if seq < u64::MAX {
        (seq + 1) as u64
    } else {
        seq
    }
}

impl StoreView {
    /// Both venues have an expectation slot, and every book its price slots.
    pub open spec fn wf(self) -> bool {
        &&& self.expected.len() == VENUE_COUNT
        &&& forall|i: int| 0 <= i < self.books.len() ==> (#[trigger] self.books[i]).wf()
    }

    pub open spec fn get(self, id: ContractId) -> Option<BookView> {
        if id.0 < self.books.len() {
            Some(self.books[id.0 as int])
        } else {
            None
        }
    }

    /// The book under a contract's own number.
    pub open spec fn own(self, id: ContractId) -> Option<BookView> {
        match self.get(id) {
            Some(book) => if book.contract_id == id {
                Some(book)
            } else {
                None
            },
            None => None,
        }
    }

    pub open spec fn expectation(self, venue: Venue) -> Option<u64> {
        self.expected[types::venue_slot(venue)]
    }

    pub open spec fn expecting(self, venue: Venue, seq: Option<u64>) -> StoreView {
        StoreView { expected: self.expected.update(types::venue_slot(venue), seq), ..self }
    }

    pub open spec fn with_book(self, id: ContractId, book: BookView) -> StoreView {
        StoreView { books: self.books.update(id.0 as int, book), ..self }
    }

    pub open spec fn counting(self, metrics: BookMetrics) -> StoreView {
        StoreView { metrics, ..self }
    }

    /// This venue's live books demoted, every other book as it was.
    pub open spec fn demoted(self, venue: Venue) -> StoreView {
        StoreView {
            books: self.books.map_values(
                |book: BookView|
                    if book.venue == venue && book.state == BookState::Live {
                        book.resyncing()
                    } else {
                        book
                    },
            ),
            ..self
        }
    }

    /// Every book behind a venue's socket demoted, live or not.
    pub open spec fn invalidated(self, venue: Venue) -> StoreView {
        StoreView {
            books: self.books.map_values(
                |book: BookView|
                    if book.venue == venue {
                        book.resyncing()
                    } else {
                        book
                    },
            ),
            ..self
        }.expecting(venue, None)
    }

    pub open spec fn skipped(self) -> StoreView {
        self.counting(
            BookMetrics {
                deltas_skipped_not_live: solver::types::bumped(
                    self.metrics.deltas_skipped_not_live,
                ),
                ..self.metrics
            },
        )
    }

    /// A crossed book stays live and is counted.
    pub open spec fn noting_cross(self, book: BookView) -> StoreView {
        if book.crossed() {
            self.counting(
                BookMetrics {
                    crossed_books_observed: solver::types::bumped(
                        self.metrics.crossed_books_observed,
                    ),
                    ..self.metrics
                },
            )
        } else {
            self
        }
    }

    /// A snapshot is absolute: it rebases this venue's expectation.
    pub open spec fn snapshot(
        self,
        contract: ContractId,
        yes: Seq<Level>,
        no: Seq<Level>,
        seq: u64,
        now_ms: u64,
    ) -> (StoreView, Applied) {
        match self.own(contract) {
            None => (self, Applied::UnknownContract),
            Some(book) => match book.snapshot(yes, no, seq, now_ms) {
                Err(_) => (self, Applied::Skipped),
                Ok(next) => (
                    self.with_book(contract, next).expecting(
                        book.venue,
                        Some(after(seq)),
                    ).counting(
                        BookMetrics {
                            snapshots_applied: solver::types::bumped(
                                self.metrics.snapshots_applied,
                            ),
                            ..self.metrics
                        },
                    ).noting_cross(next),
                    Applied::Snapshot(contract),
                ),
            },
        }
    }

    /// A delta applies only to a live book, and only in sequence.
    pub open spec fn delta(
        self,
        contract: ContractId,
        side: Side,
        price: Cents,
        size_delta: i64,
        seq: u64,
        now_ms: u64,
    ) -> (StoreView, Applied) {
        match self.own(contract) {
            None => (self, Applied::UnknownContract),
            Some(book) => if book.state != BookState::Live {
                (self.skipped(), Applied::Skipped)
            } else {
                match self.expectation(book.venue) {
                    None => (self.skipped(), Applied::Skipped),
                    Some(expected) => if seq != expected {
                        (
                            self.counting(
                                BookMetrics {
                                    sequence_gaps: solver::types::bumped(
                                        self.metrics.sequence_gaps,
                                    ),
                                    ..self.metrics
                                },
                            ).demoted(book.venue).expecting(book.venue, None),
                            Applied::Gap { expected, got: seq },
                        )
                    } else if !types::price_in_range(price as int) {
                        (self, Applied::Skipped)
                    } else {
                        let next = book.delta(side, price as int, size_delta, seq, now_ms);
                        let clamped = book.unclamped(side, price as int, size_delta) < 0;
                        (
                            self.with_book(contract, next).expecting(
                                book.venue,
                                Some(after(seq)),
                            ).counting(
                                BookMetrics {
                                    deltas_applied: solver::types::bumped(
                                        self.metrics.deltas_applied,
                                    ),
                                    negative_level_clamps: if clamped {
                                        solver::types::bumped(self.metrics.negative_level_clamps)
                                    } else {
                                        self.metrics.negative_level_clamps
                                    },
                                    ..self.metrics
                                },
                            ).noting_cross(next),
                            Applied::Delta(contract),
                        )
                    },
                }
            },
        }
    }

    /// A level restated outright applies to a live book; no sequence number
    /// belongs to it, so no expectation moves.
    pub open spec fn level_set(
        self,
        contract: ContractId,
        side: TokenSide,
        price: Cents,
        size: i64,
        now_ms: u64,
    ) -> (StoreView, Applied) {
        match self.own(contract) {
            None => (self, Applied::UnknownContract),
            Some(book) => if book.state != BookState::Live {
                (self.skipped(), Applied::Skipped)
            } else if size < 0 || !types::price_in_range(price as int) {
                (self, Applied::Skipped)
            } else {
                let next = book.level_set(side, price as int, size, now_ms);
                (
                    self.with_book(contract, next).counting(
                        BookMetrics {
                            deltas_applied: solver::types::bumped(self.metrics.deltas_applied),
                            ..self.metrics
                        },
                    ).noting_cross(next),
                    Applied::Delta(contract),
                )
            },
        }
    }

    /// The store after one event, and what happened.
    pub open spec fn applied(self, event: EventView, now_ms: u64) -> (StoreView, Applied) {
        match event {
            EventView::Snapshot { contract, yes, no, seq, .. } => self.snapshot(
                contract,
                yes,
                no,
                seq,
                now_ms,
            ),
            EventView::Delta { contract, side, price, size_delta, seq, .. } => self.delta(
                contract,
                side,
                price,
                size_delta,
                seq,
                now_ms,
            ),
            EventView::LevelSet { contract, side, price, size, .. } => self.level_set(
                contract,
                side,
                price,
                size,
                now_ms,
            ),
            EventView::Disconnected { venue } => (self.invalidated(venue), Applied::Invalidated),
            EventView::Resubscribed { contract } => match self.get(contract) {
                None => (self, Applied::UnknownContract),
                Some(book) => (
                    self.expecting(book.venue, None).demoted(book.venue),
                    Applied::Invalidated,
                ),
            },
        }
    }

    /// Which venue an event belongs to.
    pub open spec fn venue_of(self, event: EventView) -> Option<Venue> {
        match event {
            EventView::Disconnected { venue } => Some(venue),
            EventView::Snapshot { contract, .. } => self.venue_at(contract),
            EventView::Delta { contract, .. } => self.venue_at(contract),
            EventView::LevelSet { contract, .. } => self.venue_at(contract),
            EventView::Resubscribed { contract } => self.venue_at(contract),
        }
    }

    pub open spec fn venue_at(self, contract: ContractId) -> Option<Venue> {
        match self.get(contract) {
            Some(book) => Some(book.venue),
            None => None,
        }
    }

    pub open spec fn holds_venue(self, venue: Venue) -> bool {
        exists|i: int| 0 <= i < self.books.len() && (#[trigger] self.books[i]).venue == venue
    }
}

/// The contracts that the solver must re-evaluate after an outcome.
pub open spec fn dirtied(applied: Applied) -> Seq<ContractId> {
    match applied {
        Applied::Snapshot(contract) => seq![contract],
        Applied::Delta(contract) => seq![contract],
        _ => Seq::empty(),
    }
}

/// Names after interning a list of instruments in order.
pub open spec fn interned_all(instruments: Seq<Instrument>) -> Seq<Instrument>
    decreases instruments.len(),
{
    if instruments.len() == 0 {
        Seq::empty()
    } else {
        types::interned(
            interned_all(instruments.drop_last()),
            instruments.last().0,
            instruments.last().1,
        )
    }
}

/// The instruments of one venue's ticker list.
pub open spec fn listed(venue: Venue, tickers: Seq<String>) -> Seq<Instrument> {
    tickers.map_values(|t: String| (venue, t@))
}

/// The instruments of several subscriptions, in order.
pub open spec fn subscribed(subscriptions: Seq<(Venue, &[String])>) -> Seq<Instrument>
    decreases subscriptions.len(),
{
    if subscriptions.len() == 0 {
        Seq::empty()
    } else {
        subscribed(subscriptions.drop_last()) + listed(
            subscriptions.last().0,
            subscriptions.last().1@,
        )
    }
}

/// One fresh book per instrument, each under the number it has among `names`.
pub open spec fn fresh_books(instruments: Seq<Instrument>, names: Seq<Instrument>) -> Seq<
    BookView,
> {
    Seq::new(
        instruments.len(),
        |i: int|
            BookView::fresh(
                instruments[i].0,
                types::lookup(names, instruments[i].0, instruments[i].1)->0,
            ),
    )
}

/// A store over a list of instruments, before any event.
pub open spec fn opened(instruments: Seq<Instrument>) -> StoreView {
    StoreView {
        books: fresh_books(instruments, interned_all(instruments)),
        names: interned_all(instruments),
        expected: seq![None, None],
        metrics: BookMetrics::zero(),
    }
}

/// Interning more keeps every number already handed out.
proof fn lemma_interned_grows(names: Seq<Instrument>, venue: Venue, ticker: Seq<char>)
    requires
        names.no_duplicates(),
    ensures
        types::interned(names, venue, ticker).no_duplicates(),
        names.len() <= types::interned(names, venue, ticker).len(),
        forall|v: Venue, t: Seq<char>|
            names.contains((v, t)) ==> #[trigger] types::lookup(
                types::interned(names, venue, ticker),
                v,
                t,
            ) == types::lookup(names, v, t) && types::interned(names, venue, ticker).contains((v, t)),
        types::interned(names, venue, ticker).contains((venue, ticker)),
{
    let next = types::interned(names, venue, ticker);
    if !names.contains((venue, ticker)) {
        assert(next[names.len() as int] == (venue, ticker));
    }
    assert forall|v: Venue, t: Seq<char>| names.contains((v, t)) implies #[trigger] types::lookup(
        next,
        v,
        t,
    ) == types::lookup(names, v, t) && next.contains((v, t)) by {
        let i = choose|i: int| 0 <= i < names.len() && names[i] == (v, t);
        assert(next[i] == (v, t));
        types::lemma_lookup(names, v, t, i);
        types::lemma_lookup(next, v, t, i);
    }
}

proof fn lemma_interned_all(instruments: Seq<Instrument>)
    ensures
        interned_all(instruments).no_duplicates(),
        interned_all(instruments).len() <= instruments.len(),
        forall|i: int|
            0 <= i < instruments.len() ==> interned_all(instruments).contains(
                #[trigger] instruments[i],
            ),
    decreases instruments.len(),
{
    if instruments.len() > 0 {
        let front = instruments.drop_last();
        lemma_interned_all(front);
        lemma_interned_grows(
            interned_all(front),
            instruments.last().0,
            instruments.last().1,
        );
        assert forall|i: int| 0 <= i < instruments.len() implies interned_all(
            instruments,
        ).contains(#[trigger] instruments[i]) by {
            if i < front.len() {
                assert(front[i] == instruments[i]);
                assert(interned_all(front).contains((instruments[i].0, instruments[i].1)));
                let l = types::lookup(
                    interned_all(instruments),
                    instruments[i].0,
                    instruments[i].1,
                );
            } else {
                assert(instruments[i] == instruments.last());
                assert(interned_all(instruments).contains(
                    (instruments.last().0, instruments.last().1),
                ));
            }
        }
    }
}

/// A list without repeats interns to itself.
pub proof fn lemma_interned_distinct(instruments: Seq<Instrument>)
    requires
        instruments.no_duplicates(),
    ensures
        interned_all(instruments) == instruments,
    decreases instruments.len(),
{
    if instruments.len() > 0 {
        let front = instruments.drop_last();
        assert(front.no_duplicates());
        lemma_interned_distinct(front);
        let last = instruments.last();
        assert(!front.contains(last)) by {
            if front.contains(last) {
                let i = choose|i: int| 0 <= i < front.len() && front[i] == last;
                assert(instruments[i] == instruments[instruments.len() - 1]);
            }
        }
        assert((last.0, last.1) == last);
        assert(front.push(last) =~= instruments);
    } else {
        assert(interned_all(instruments) =~= instruments);
    }
}

/// Intern one venue's tickers in order.
pub(crate) fn intern_all(venue: Venue, tickers: &[String]) -> (result: Result<
    Contracts,
    InternError,
>)
    ensures
        match result {
            Ok(contracts) => contracts@ == interned_all(listed(venue, tickers@)),
            Err(_) => interned_all(listed(venue, tickers@)).len() > 0x1_0000_0000,
        },
{
    let ghost all = listed(venue, tickers@);
    let mut contracts: Contracts = Contracts::default();
    let mut i: usize = 0;
    assert(all.subrange(0, 0) =~= Seq::<Instrument>::empty());
    assert(contracts@ =~= interned_all(all.subrange(0, 0)));
    while i < tickers.len()
        invariant
            i <= tickers@.len(),
            all == listed(venue, tickers@),
            contracts@ == interned_all(all.subrange(0, i as int)),
        decreases tickers@.len() - i,
    {
        proof {
            assert(all.subrange(0, i + 1).drop_last() =~= all.subrange(0, i as int));
            assert(all.subrange(0, i + 1).last() == (venue, tickers@[i as int]@));
            lemma_interned_prefix(all, i + 1);
        }
        match contracts.intern(venue, tickers[i].as_str()) {
            Ok(_) => {},
            Err(error) => return Err(error),
        }
        i = i + 1;
    }
    assert(all.subrange(0, all.len() as int) =~= all);
    Ok(contracts)
}

impl BookStore {
    /// Intern tickers in the same order as the venue's parser.
    pub fn new(venue: Venue, tickers: &[String]) -> (result: Result<Self, InternError>)
        ensures
            match result {
                Ok(store) => store@ == opened(listed(venue, tickers@)) && store@.wf(),
                Err(_) => interned_all(listed(venue, tickers@)).len() > 0x1_0000_0000,
            },
    {
        let subscriptions: Vec<(Venue, &[String])> = vec![(venue, tickers)];
        proof {
            assert(subscriptions@.drop_last() =~= Seq::<(Venue, &[String])>::empty());
            assert(subscribed(subscriptions@.drop_last()) =~= Seq::<Instrument>::empty());
            assert(subscribed(subscriptions@) =~= listed(venue, tickers@));
        }
        BookStore::multi_venue(subscriptions.as_slice())
    }

    /// Build a store spanning several venues.
    ///
    /// Subscriptions are interned in the order given, and the caller must pass
    /// them in the registry's order (every Kalshi member before any Polymarket
    /// one). Contract ids are positional, so a store interned in a different
    /// order from the registry that feeds it points every book at the wrong
    /// contract, which is why this takes an ordered slice rather than a map.
    pub fn multi_venue(subscriptions: &[(Venue, &[String])]) -> (result: Result<Self, InternError>)
        ensures
            match result {
                Ok(store) => store@ == opened(subscribed(subscriptions@)) && store@.wf(),
                Err(_) => interned_all(subscribed(subscriptions@)).len() > 0x1_0000_0000,
            },
    {
        let mut contracts: Contracts = Contracts::default();
        let mut books: Vec<Book> = Vec::new();
        let ghost mut done: Seq<Instrument> = Seq::empty();
        let ghost all = subscribed(subscriptions@);
        let mut i: usize = 0;
        assert(subscriptions@.subrange(0, 0) =~= Seq::<(Venue, &[String])>::empty());
        assert(contracts@ =~= interned_all(done));
        assert(books_view(books@) =~= fresh_books(done, contracts@));
        while i < subscriptions.len()
            invariant
                i <= subscriptions@.len(),
                all == subscribed(subscriptions@),
                done == subscribed(subscriptions@.subrange(0, i as int)),
                contracts@ == interned_all(done),
                contracts@.no_duplicates(),
                books_view(books@) == fresh_books(done, contracts@),
                forall|k: int| 0 <= k < books@.len() ==> (#[trigger] books@[k])@.wf(),
            decreases subscriptions@.len() - i,
        {
            let venue: Venue = subscriptions[i].0;
            let tickers: &[String] = subscriptions[i].1;
            let ghost base = done;
            let ghost part = listed(venue, tickers@);
            let mut j: usize = 0;
            assert(base + part.subrange(0, 0) =~= base);
            while j < tickers.len()
                invariant
                    i < subscriptions@.len(),
                    j <= tickers@.len(),
                    all == subscribed(subscriptions@),
                    base == subscribed(subscriptions@.subrange(0, i as int)),
                    part == listed(venue, tickers@),
                    (venue, tickers) == subscriptions@[i as int],
                    done == base + part.subrange(0, j as int),
                    contracts@ == interned_all(done),
                    contracts@.no_duplicates(),
                    books_view(books@) == fresh_books(done, contracts@),
                    forall|k: int| 0 <= k < books@.len() ==> (#[trigger] books@[k])@.wf(),
                decreases tickers@.len() - j,
            {
                let ticker: &String = &tickers[j];
                let ghost before = contracts@;
                let ghost next = done.push((venue, ticker@));
                proof {
                    lemma_interned_grows(before, venue, ticker@);
                    assert(next.drop_last() =~= done);
                    assert(part[j as int] == (venue, ticker@));
                    assert(base + part.subrange(0, j + 1) =~= next);
                }
                match contracts.intern(venue, ticker.as_str()) {
                    Ok(id) => {
                        let ghost held = books@;
                        books.push(Book::new(venue, id));
                        proof {
                            lemma_interned_all(done);
                            let shown = books_view(books@);
                            assert(books_view(held).len() == done.len());
                            assert(shown =~= books_view(held).push(BookView::fresh(venue, id)));
                            let wanted = fresh_books(next, contracts@);
                            assert forall|k: int| 0 <= k < next.len() implies shown[k]
                                == wanted[k] by {
                                if k < done.len() {
                                    assert(next[k] == done[k]);
                                    assert(before.contains(done[k]));
                                    assert(before.contains((done[k].0, done[k].1)));
                                    assert(shown[k] == fresh_books(done, before)[k]);
                                    assert(types::lookup(contracts@, done[k].0, done[k].1)
                                        == types::lookup(before, done[k].0, done[k].1));
                                }
                            }
                            assert(shown =~= wanted);
                            done = next;
                        }
                    },
                    Err(error) => {
                        proof {
                            assert(interned_all(next).len() == before.len() + 1);
                            lemma_subscribed_prefix(subscriptions@, i as int, j + 1);
                            lemma_interned_prefix(all, next.len() as int);
                        }
                        return Err(error);
                    },
                }
                j = j + 1;
            }
            proof {
                assert(part.subrange(0, part.len() as int) =~= part);
                assert(subscriptions@.subrange(0, i + 1).drop_last() =~= subscriptions@.subrange(
                    0,
                    i as int,
                ));
                assert(subscriptions@.subrange(0, i + 1).last() == subscriptions@[i as int]);
            }
            i = i + 1;
        }
        assert(subscriptions@.subrange(0, subscriptions@.len() as int) =~= subscriptions@);
        let store = BookStore {
            books,
            contracts,
            expected_seq: [None, None],
            metrics: BookMetrics::default(),
        };
        proof {
            assert(store@.books =~= fresh_books(all, interned_all(all)));
            assert(store@.expected =~= seq![None, None]);
            assert(store@ =~= opened(all));
            assert forall|k: int| 0 <= k < store@.books.len() implies (
            #[trigger] store@.books[k]).wf() by {
                assert(store@.books[k] == store.books@[k]@);
            }
        }
        Ok(store)
    }

    /// Which venue an event belongs to.
    ///
    /// [`FeedEvent`] only names a venue on `Disconnected`; everything else
    /// carries a [`ContractId`], which is venue-scoped by construction. Reading
    /// it back off the book is therefore the authoritative answer, and it is
    /// `None` exactly when the contract is not one this store subscribes to.
    pub fn venue_of(&self, event: &FeedEvent) -> (venue: Option<Venue>)
        ensures
            venue == self@.venue_of(event@),
    {
        match event {
            FeedEvent::Disconnected { venue } => Some(*venue),
            FeedEvent::Snapshot { contract, .. } => self.venue_at(*contract),
            FeedEvent::Delta { contract, .. } => self.venue_at(*contract),
            FeedEvent::LevelSet { contract, .. } => self.venue_at(*contract),
            FeedEvent::Resubscribed { contract } => self.venue_at(*contract),
        }
    }

    fn venue_at(&self, contract: ContractId) -> (venue: Option<Venue>)
        ensures
            venue == self@.venue_at(contract),
    {
        match self.get(contract) {
            Some(book) => Some(book.venue),
            None => None,
        }
    }

    /// Venues this store holds at least one book for.
    pub fn venues(&self) -> (venues: Vec<Venue>)
        ensures
            venues@ == (if self@.holds_venue(Venue::Kalshi) {
                seq![Venue::Kalshi]
            } else {
                Seq::empty()
            }) + (if self@.holds_venue(Venue::Polymarket) {
                seq![Venue::Polymarket]
            } else {
                Seq::empty()
            }),
    {
        let mut venues: Vec<Venue> = Vec::new();
        if self.holds(Venue::Kalshi) {
            venues.push(Venue::Kalshi);
        }
        if self.holds(Venue::Polymarket) {
            venues.push(Venue::Polymarket);
        }
        assert(venues@ =~= (if self@.holds_venue(Venue::Kalshi) {
            seq![Venue::Kalshi]
        } else {
            Seq::empty()
        }) + (if self@.holds_venue(Venue::Polymarket) {
            seq![Venue::Polymarket]
        } else {
            Seq::empty()
        }));
        venues
    }

    fn holds(&self, venue: Venue) -> (found: bool)
        ensures
            found == self@.holds_venue(venue),
    {
        let mut i: usize = 0;
        while i < self.books.len()
            invariant
                i <= self.books@.len(),
                forall|k: int| 0 <= k < i ==> (#[trigger] self.books@[k])@.venue != venue,
            decreases self.books@.len() - i,
        {
            if self.books[i].venue == venue {
                assert(self@.books[i as int].venue == venue);
                return true;
            }
            i = i + 1;
        }
        assert forall|k: int| 0 <= k < self@.books.len() implies (#[trigger] self@.books[k]).venue
            != venue by {
            assert(self@.books[k] == self.books@[k]@);
        }
        false
    }

    pub fn contracts(&self) -> (contracts: &Contracts)
        ensures
            contracts@ == self@.names,
    {
        &self.contracts
    }

    pub fn books(&self) -> (books: &[Book])
        ensures
            books_view(books@) == self@.books,
    {
        self.books.as_slice()
    }

    pub fn get(&self, id: ContractId) -> (found: Option<&Book>)
        ensures
            match found {
                Some(book) => self@.get(id) == Some(book@),
                None => self@.get(id) is None,
            },
    {
        if (id.0 as usize) < self.books.len() {
            Some(&self.books[id.0 as usize])
        } else {
            None
        }
    }

    pub fn expected_seq(&self, venue: Venue) -> (seq: Option<u64>)
        ensures
            seq == self@.expectation(venue),
    {
        self.expected_seq[venue.index()]
    }

    /// The counters as they stand.
    pub fn counters(&self) -> (metrics: BookMetrics)
        ensures
            metrics == self@.metrics,
    {
        self.metrics
    }

    pub fn note_resync_request(&mut self)
        ensures
            final(self)@ == old(self)@.counting(
                (BookMetrics {
                    resync_requests: solver::types::bumped(old(self)@.metrics.resync_requests),
                    ..old(self)@.metrics
                }),
            ),
    {
        self.metrics.resync_requests = self.metrics.resync_requests.saturating_add(1);
    }

    /// Apply an event and report which contracts the solver must re-evaluate.
    ///
    /// The dirty set is a `Vec`, not a set or an iterator, so the engine walks
    /// it in a fixed order and replay produces the same evaluation sequence as
    /// the live run did.
    ///
    /// Nothing is marked dirty when the outcome left no book `Live`. A gap or a
    /// disconnect moves every book to `Resyncing`, and the solver refuses a
    /// group containing one, so handing those contracts over would be work whose
    /// only possible result is a `not_live` rejection per group.
    pub fn apply_and_mark(&mut self, event: &FeedEvent, now_ms: u64) -> (marked: (
        Applied,
        Vec<ContractId>,
    ))
        requires
            old(self)@.wf(),
        ensures
            (final(self)@, marked.0) == old(self)@.applied(event@, now_ms),
            marked.1@ == dirtied(marked.0),
            final(self)@.wf(),
    {
        let applied: Applied = self.apply(event, now_ms);
        let dirty: Vec<ContractId> = match applied {
            Applied::Snapshot(contract) => vec![contract],
            Applied::Delta(contract) => vec![contract],
            _ => Vec::new(),
        };
        assert(dirty@ =~= dirtied(applied));
        (applied, dirty)
    }

    /// Apply one event. `now_ms` is the engine clock's reading, which stamps
    /// the book it touches.
    pub fn apply(&mut self, event: &FeedEvent, now_ms: u64) -> (applied: Applied)
        requires
            old(self)@.wf(),
        ensures
            (final(self)@, applied) == old(self)@.applied(event@, now_ms),
            final(self)@.wf(),
    {
        match event {
            FeedEvent::Snapshot { contract, yes, no, seq, .. } => self.apply_snapshot(
                *contract,
                yes.as_slice(),
                no.as_slice(),
                *seq,
                now_ms,
            ),
            FeedEvent::Delta { contract, side, price, size_delta, seq, .. } => self.apply_delta(
                *contract,
                *side,
                *price,
                *size_delta,
                *seq,
                now_ms,
            ),
            FeedEvent::LevelSet { contract, side, price, size, .. } => self.apply_level_set(
                *contract,
                *side,
                *price,
                *size,
                now_ms,
            ),
            FeedEvent::Disconnected { venue } => {
                self.invalidate_venue(*venue);
                Applied::Invalidated
            },
            FeedEvent::Resubscribed { contract } => {
                let venue: Venue = match self.venue_at(*contract) {
                    Some(venue) => venue,
                    None => return Applied::UnknownContract,
                };
                // Subscription seq resets with a new handshake; clear expectation
                // so the next snapshot rebases without reporting a false gap.
                self.expected_seq[venue.index()] = None;
                let ghost cleared = self@;
                assert(cleared =~= old(self)@.expecting(venue, None));
                self.mark_venue_resyncing(venue);
                Applied::Invalidated
            },
        }
    }

    /// Where a contract's own book stands.
    fn own_slot(&self, contract: ContractId) -> (slot: Option<usize>)
        ensures
            match slot {
                Some(i) => i == contract.0 && i < self.books@.len() && self@.own(contract) == Some(
                    self.books@[i as int]@,
                ),
                None => self@.own(contract) is None,
            },
    {
        let i: usize = contract.0 as usize;
        if i < self.books.len() && self.books[i].contract_id == contract {
            Some(i)
        } else {
            None
        }
    }

    fn note_if_crossed(&mut self, i: usize)
        requires
            i < old(self).books@.len(),
        ensures
            final(self)@ == old(self)@.noting_cross(old(self)@.books[i as int]),
    {
        if self.books[i].is_crossed() {
            self.metrics.crossed_books_observed =
            self.metrics.crossed_books_observed.saturating_add(1);
        }
    }

    fn apply_snapshot(
        &mut self,
        contract: ContractId,
        yes: &[Level],
        no: &[Level],
        seq: u64,
        ts_ms: u64,
    ) -> (applied: Applied)
        requires
            old(self)@.wf(),
        ensures
            (final(self)@, applied) == old(self)@.snapshot(contract, yes@, no@, seq, ts_ms),
            final(self)@.wf(),
    {
        let i: usize = match self.own_slot(contract) {
            Some(i) => i,
            None => return Applied::UnknownContract,
        };
        let venue: Venue = self.books[i].venue;
        let ghost book = self.books@[i as int]@;
        match self.books[i].apply_snapshot(yes, no, seq, ts_ms) {
            Ok(_) => {},
            Err(_) => {
                proof {
                    assert(self@.books =~= old(self)@.books);
                    assert(self@ =~= old(self)@);
                }
                return Applied::Skipped;
            },
        }
        // Snapshot is absolute: always rebase this venue's expectation.
        self.expected_seq[venue.index()] = Some(seq.saturating_add(1));
        self.metrics.snapshots_applied = self.metrics.snapshots_applied.saturating_add(1);
        proof {
            let next = self.books@[i as int]@;
            assert(self@.books =~= old(self)@.books.update(i as int, next));
            assert(self@ =~= old(self)@.with_book(contract, next).expecting(
                venue,
                Some(after(seq)),
            ).counting(
                BookMetrics {
                    snapshots_applied: solver::types::bumped(old(self)@.metrics.snapshots_applied),
                    ..old(self)@.metrics
                },
            ));
        }
        self.note_if_crossed(i);
        Applied::Snapshot(contract)
    }

    fn apply_delta(
        &mut self,
        contract: ContractId,
        side: Side,
        price: Cents,
        size_delta: i64,
        seq: u64,
        ts_ms: u64,
    ) -> (applied: Applied)
        requires
            old(self)@.wf(),
        ensures
            (final(self)@, applied) == old(self)@.delta(
                contract,
                side,
                price,
                size_delta,
                seq,
                ts_ms,
            ),
            final(self)@.wf(),
    {
        let i: usize = match self.own_slot(contract) {
            Some(i) => i,
            None => return Applied::UnknownContract,
        };
        if self.books[i].state != BookState::Live {
            self.metrics.deltas_skipped_not_live =
            self.metrics.deltas_skipped_not_live.saturating_add(1);
            return Applied::Skipped;
        }
        let venue: Venue = self.books[i].venue;
        match self.expected_seq[venue.index()] {
            Some(expected) => {
                if seq != expected {
                    self.metrics.sequence_gaps = self.metrics.sequence_gaps.saturating_add(1);
                    // Only this venue loses its books. The other venue's sequence
                    // came from a different handshake and is still intact.
                    self.mark_venue_resyncing(venue);
                    self.expected_seq[venue.index()] = None;
                    proof {
                        let counted = old(self)@.counting(
                            BookMetrics {
                                sequence_gaps: solver::types::bumped(
                                    old(self)@.metrics.sequence_gaps,
                                ),
                                ..old(self)@.metrics
                            },
                        );
                        assert(self@ =~= counted.demoted(venue).expecting(venue, None));
                    }
                    return Applied::Gap { expected, got: seq };
                }
            },
            None => {
                // No snapshot yet on this subscription: not live either.
                self.metrics.deltas_skipped_not_live =
                self.metrics.deltas_skipped_not_live.saturating_add(1);
                return Applied::Skipped;
            },
        }
        let ghost book = self.books@[i as int]@;
        assert(book.wf()) by {
            assert(self@.books[i as int].wf());
        }
        match self.books[i].apply_delta(side, price, size_delta, seq, ts_ms) {
            Ok(clamped) => {
                if clamped {
                    self.metrics.negative_level_clamps =
                    self.metrics.negative_level_clamps.saturating_add(1);
                }
                self.expected_seq[venue.index()] = Some(seq.saturating_add(1));
                self.metrics.deltas_applied = self.metrics.deltas_applied.saturating_add(1);
                proof {
                    let next = self.books@[i as int]@;
                    assert(self@.books =~= old(self)@.books.update(i as int, next));
                    assert(self@.expected =~= old(self)@.expected.update(
                        types::venue_slot(venue),
                        Some(after(seq)),
                    ));
                }
                self.note_if_crossed(i);
                Applied::Delta(contract)
            },
            Err(_) => {
                proof {
                    assert(self@.books =~= old(self)@.books);
                    assert(self@ =~= old(self)@);
                }
                Applied::Skipped
            },
        }
    }

    fn apply_level_set(
        &mut self,
        contract: ContractId,
        side: TokenSide,
        price: Cents,
        size: i64,
        ts_ms: u64,
    ) -> (applied: Applied)
        requires
            old(self)@.wf(),
        ensures
            (final(self)@, applied) == old(self)@.level_set(contract, side, price, size, ts_ms),
            final(self)@.wf(),
    {
        let i: usize = match self.own_slot(contract) {
            Some(i) => i,
            None => return Applied::UnknownContract,
        };
        if self.books[i].state != BookState::Live {
            self.metrics.deltas_skipped_not_live =
            self.metrics.deltas_skipped_not_live.saturating_add(1);
            return Applied::Skipped;
        }
        assert(self@.books[i as int].wf());
        match self.books[i].set_level(side, price, size, ts_ms) {
            Ok(_) => {
                self.metrics.deltas_applied = self.metrics.deltas_applied.saturating_add(1);
                proof {
                    let next = self.books@[i as int]@;
                    assert(self@.books =~= old(self)@.books.update(i as int, next));
                }
                self.note_if_crossed(i);
                Applied::Delta(contract)
            },
            Err(_) => {
                proof {
                    assert(self@.books =~= old(self)@.books);
                    assert(self@ =~= old(self)@);
                }
                Applied::Skipped
            },
        }
    }

    /// Demote this venue's live books, leaving every other venue untouched.
    fn mark_venue_resyncing(&mut self, venue: Venue)
        requires
            old(self)@.wf(),
        ensures
            final(self)@ == old(self)@.demoted(venue),
            final(self)@.wf(),
    {
        let ghost before = *self;
        let mut i: usize = 0;
        while i < self.books.len()
            invariant
                i <= self.books@.len(),
                before@.wf(),
                self.books@.len() == before.books@.len(),
                self.contracts == before.contracts,
                self.expected_seq == before.expected_seq,
                self.metrics == before.metrics,
                forall|k: int|
                    0 <= k < i ==> (#[trigger] self.books@[k])@ == before@.demoted(venue).books[k],
                forall|k: int|
                    i <= k < self.books@.len() ==> (#[trigger] self.books@[k]) == before.books@[k],
            decreases self.books@.len() - i,
        {
            assert(before@.books[i as int] == before.books@[i as int]@);
            if self.books[i].venue == venue && self.books[i].state == BookState::Live {
                self.books[i].mark_resyncing();
            }
            i = i + 1;
        }
        proof {
            assert(self@.books =~= before@.demoted(venue).books);
            assert(self@ =~= before@.demoted(venue));
            assert forall|k: int| 0 <= k < self@.books.len() implies (
            #[trigger] self@.books[k]).wf() by {
                assert(before@.books[k].wf());
            }
        }
    }

    /// A disconnect takes down every book behind that socket, live or not, and
    /// clears the expectation so the next snapshot rebases.
    fn invalidate_venue(&mut self, venue: Venue)
        requires
            old(self)@.wf(),
        ensures
            final(self)@ == old(self)@.invalidated(venue),
            final(self)@.wf(),
    {
        let ghost before = *self;
        let mut i: usize = 0;
        while i < self.books.len()
            invariant
                i <= self.books@.len(),
                before@.wf(),
                self.books@.len() == before.books@.len(),
                self.contracts == before.contracts,
                self.expected_seq == before.expected_seq,
                self.metrics == before.metrics,
                forall|k: int|
                    0 <= k < i ==> (#[trigger] self.books@[k])@ == before@.invalidated(
                        venue,
                    ).books[k],
                forall|k: int|
                    i <= k < self.books@.len() ==> (#[trigger] self.books@[k]) == before.books@[k],
            decreases self.books@.len() - i,
        {
            assert(before@.books[i as int] == before.books@[i as int]@);
            if self.books[i].venue == venue {
                self.books[i].mark_resyncing();
            }
            i = i + 1;
        }
        self.expected_seq[venue.index()] = None;
        proof {
            assert(self@.books =~= before@.invalidated(venue).books);
            assert(self@.expected =~= before@.expected.update(types::venue_slot(venue), None));
            assert(self@ =~= before@.invalidated(venue));
            assert forall|k: int| 0 <= k < self@.books.len() implies (
            #[trigger] self@.books[k]).wf() by {
                assert(before@.books[k].wf());
            }
        }
    }

    /// The store as the solver reads it at one instant.
    pub fn at(&self, now_ms: u64) -> (books: BooksAt<'_>)
        ensures
            books.store == self,
            books.now_ms == now_ms,
    {
        BooksAt { store: self, now_ms }
    }
}

proof fn lemma_subscribed_prefix(subscriptions: Seq<(Venue, &[String])>, i: int, j: int)
    requires
        0 <= i < subscriptions.len(),
        0 <= j <= subscriptions[i].1@.len(),
    ensures
        ({
            let part = listed(subscriptions[i].0, subscriptions[i].1@);
            let head = subscribed(subscriptions.subrange(0, i)) + part.subrange(0, j);
            head.len() <= subscribed(subscriptions).len() && subscribed(subscriptions).subrange(
                0,
                head.len() as int,
            ) == head
        }),
    decreases subscriptions.len(),
{
    let part = listed(subscriptions[i].0, subscriptions[i].1@);
    let head = subscribed(subscriptions.subrange(0, i)) + part.subrange(0, j);
    if i == subscriptions.len() - 1 {
        assert(subscriptions.subrange(0, i) =~= subscriptions.drop_last());
        assert(subscribed(subscriptions).subrange(0, head.len() as int) =~= head);
    } else {
        let front = subscriptions.drop_last();
        lemma_subscribed_prefix(front, i, j);
        assert(front.subrange(0, i) =~= subscriptions.subrange(0, i));
        assert(front[i] == subscriptions[i]);
        assert(subscribed(subscriptions).subrange(0, head.len() as int) =~= subscribed(
            front,
        ).subrange(0, head.len() as int));
    }
}

/// Interning more instruments never leaves fewer names.
proof fn lemma_interned_prefix(instruments: Seq<Instrument>, n: int)
    requires
        0 <= n <= instruments.len(),
    ensures
        interned_all(instruments.subrange(0, n)).len() <= interned_all(instruments).len(),
    decreases instruments.len(),
{
    if n == instruments.len() {
        assert(instruments.subrange(0, n) =~= instruments);
    } else {
        let front = instruments.drop_last();
        lemma_interned_prefix(front, n);
        assert(front.subrange(0, n) =~= instruments.subrange(0, n));
    }
}

/// The books of a store and the engine time they are read at.
///
/// Time comes from the same injected clock that stamps `updated_at_ms`, so the
/// freshness gate compares two readings of one clock. Reading wall time in the
/// solver instead would make replay disagree with the live run it replays.
pub struct BooksAt<'a> {
    pub store: &'a BookStore,
    pub now_ms: u64,
}

impl<'a> BookSource for BooksAt<'a> {
    open spec fn quotes(&self) -> spec_fn(ContractId) -> Option<BookView> {
        |contract: ContractId| self.store@.get(contract)
    }

    open spec fn time(&self) -> u64 {
        self.now_ms
    }

    fn book(&self, contract: ContractId) -> (found: Option<&Book>) {
        self.store.get(contract)
    }

    fn now_ms(&self) -> (now: u64) {
        self.now_ms
    }
}

// ---------------------------------------------------------------------------
// Laws
// ---------------------------------------------------------------------------

/// An event touches only its own venue: no book of any other venue changes, and
/// no other venue's sequence expectation moves.
pub proof fn an_event_touches_only_its_own_venue(
    store: StoreView,
    event: EventView,
    now_ms: u64,
    venue: Venue,
)
    requires
        store.wf(),
        store.venue_of(event) != Some(venue),
    ensures
        store.applied(event, now_ms).0.expectation(venue) == store.expectation(venue),
        store.applied(event, now_ms).0.books.len() == store.books.len(),
        forall|i: int|
            0 <= i < store.books.len() && (#[trigger] store.books[i]).venue == venue
                ==> store.applied(event, now_ms).0.books[i] == store.books[i],
{
}

/// No event ever adds or drops a book, or changes which contract and venue a
/// book belongs to.
pub proof fn an_event_keeps_every_book_identity(
    store: StoreView,
    event: EventView,
    now_ms: u64,
)
    requires
        store.wf(),
    ensures
        store.applied(event, now_ms).0.names == store.names,
        store.applied(event, now_ms).0.books.len() == store.books.len(),
        forall|i: int|
            0 <= i < store.books.len() ==> {
                let after = #[trigger] store.applied(event, now_ms).0.books[i];
                after.contract_id == store.books[i].contract_id && after.venue
                    == store.books[i].venue
            },
{
}

/// Only a live book is ever handed to the solver: what an outcome marks dirty
/// is live, and was stamped with the engine's own time.
pub proof fn what_is_dirty_is_live(store: StoreView, event: EventView, now_ms: u64, c: ContractId)
    requires
        store.wf(),
        dirtied(store.applied(event, now_ms).1).contains(c),
    ensures
        store.applied(event, now_ms).0.get(c) matches Some(book) && book.state == BookState::Live
            && book.updated_at_ms == now_ms && book.contract_id == c,
{
    let applied = store.applied(event, now_ms).1;
    assert(dirtied(applied)[0] == c);
}

/// A book that is not live becomes live only through a snapshot of its own
/// contract: there is no repair and no interpolation.
pub proof fn only_a_snapshot_revives_a_book(
    store: StoreView,
    event: EventView,
    now_ms: u64,
    i: int,
)
    requires
        store.wf(),
        0 <= i < store.books.len(),
        store.books[i].state != BookState::Live,
        store.applied(event, now_ms).0.books[i].state == BookState::Live,
    ensures
        event matches EventView::Snapshot { contract, .. } && contract.0 == i,
        store.applied(event, now_ms).1 matches Applied::Snapshot(_),
{
}

/// A snapshot is absolute: the book after it does not depend on what the book
/// held before.
pub proof fn a_snapshot_forgets_the_past(
    a: BookView,
    b: BookView,
    yes: Seq<Level>,
    no: Seq<Level>,
    seq: u64,
    ts_ms: u64,
)
    requires
        a.venue == b.venue,
        a.contract_id == b.contract_id,
    ensures
        a.snapshot(yes, no, seq, ts_ms) == b.snapshot(yes, no, seq, ts_ms),
{
}

/// After a gap every live book of the venue awaits a fresh snapshot, and no
/// delta of that venue applies until one has arrived.
pub proof fn a_gap_silences_its_venue(
    store: StoreView,
    event: EventView,
    now_ms: u64,
    contract: ContractId,
    side: Side,
    price: Cents,
    size_delta: i64,
    seq: u64,
    later_ms: u64,
)
    requires
        store.wf(),
        store.applied(event, now_ms).1 is Gap,
        store.venue_at(contract) is Some,
        store.venue_at(contract) == store.venue_of(event),
    ensures
        ({
            let after = store.applied(event, now_ms).0;
            let (later, outcome) = after.delta(
                contract,
                side,
                price,
                size_delta,
                seq,
                later_ms,
            );
            &&& after.get(contract)->0.state != BookState::Live
            &&& later.books == after.books
            &&& outcome == Applied::Skipped || outcome == Applied::UnknownContract
        }),
{
}

/// Distinct instruments are numbered by where they stand in the list, and the
/// book at each number is that instrument's own.
pub proof fn ids_are_positional(instruments: Seq<Instrument>, i: int)
    requires
        instruments.no_duplicates(),
        instruments.len() <= 0x1_0000_0000,
        0 <= i < instruments.len(),
    ensures
        opened(instruments).names == instruments,
        opened(instruments).own(ContractId(i as u32)) == Some(
            BookView::fresh(instruments[i].0, ContractId(i as u32)),
        ),
        types::lookup(instruments, instruments[i].0, instruments[i].1) == Some(
            ContractId(i as u32),
        ),
{
    lemma_interned_distinct(instruments);
    types::lemma_lookup(instruments, instruments[i].0, instruments[i].1, i);
}

} // verus!
