//! Timestamp-ordered replay of normalized events through an order book.
use vstd::prelude::*;
use crate::market_events::MarketEvent;
use crate::orderbook::{
    apply_lobster_delta_spec, apply_spec, hash_levels, snapshot_hash, snapshot_spec, snapshot_view,
    BookError, OrderBook, Snapshot, FNV_OFFSET,
};
use crate::sides::BookView;

verus! {

/// Apply `events` in order, stopping at the first that fails; the book is
/// left as it was before the failing event.
pub open spec fn replay_spec(b: BookView, events: Seq<MarketEvent>) -> (Result<(), BookError>, BookView)
    decreases events.len(),
{
    if events.len() == 0 {
        (Ok(()), b)
    } else {
        let (r, b1) = apply_spec(b, events[0]);
        if r is Err {
            (r, b1)
        } else {
            replay_spec(b1, events.drop_first())
        }
    }
}

/// As `replay_spec`, for LOBSTER deltas.
pub open spec fn replay_lobster_spec(b: BookView, events: Seq<MarketEvent>) -> (
    Result<(), BookError>,
    BookView,
)
    decreases events.len(),
{
    if events.len() == 0 {
        (Ok(()), b)
    } else {
        let (r, b1) = apply_lobster_delta_spec(b, events[0]);
        if r is Err {
            (r, b1)
        } else {
            replay_lobster_spec(b1, events.drop_first())
        }
    }
}

/// The book after the first `k` events, each applied in turn.
pub open spec fn applied_prefix(b: BookView, events: Seq<MarketEvent>, k: nat) -> BookView
    decreases k,
{
    if k == 0 {
        b
    } else {
        apply_spec(applied_prefix(b, events, (k - 1) as nat), events[k - 1]).1
    }
}

/// Each of the first `k` events is accepted by the book it meets.
pub open spec fn prefix_accepted(b: BookView, events: Seq<MarketEvent>, k: nat) -> bool {
    forall|j: int| 0 <= j < k ==> (#[trigger] apply_spec(applied_prefix(b, events, j as nat), events[j])).0 is Ok
}

/// As `applied_prefix`, for LOBSTER deltas.
pub open spec fn delta_prefix(b: BookView, events: Seq<MarketEvent>, k: nat) -> BookView
    decreases k,
{
    if k == 0 {
        b
    } else {
        apply_lobster_delta_spec(delta_prefix(b, events, (k - 1) as nat), events[k - 1]).1
    }
}

/// As `prefix_accepted`, for LOBSTER deltas.
pub open spec fn delta_prefix_accepted(b: BookView, events: Seq<MarketEvent>, k: nat) -> bool {
    forall|j: int|
        0 <= j < k ==> (#[trigger] apply_lobster_delta_spec(delta_prefix(b, events, j as nat), events[j])).0 is Ok
}

proof fn lemma_replay_skip(b: BookView, events: Seq<MarketEvent>, k: nat)
    requires
        k <= events.len(),
        prefix_accepted(b, events, k),
    ensures
        replay_spec(b, events) == replay_spec(applied_prefix(b, events, k), events.skip(k as int)),
    decreases k,
{
    if k == 0 {
        assert(events.skip(0) =~= events);
    } else {
        let k1 = (k - 1) as nat;
        assert(prefix_accepted(b, events, k1));
        lemma_replay_skip(b, events, k1);
        let rest = events.skip(k1 as int);
        assert(rest[0] == events[k1 as int]);
        assert(apply_spec(applied_prefix(b, events, k1), events[k1 as int]).0 is Ok);
        assert(rest.drop_first() =~= events.skip(k as int));
    }
}

proof fn lemma_delta_replay_skip(b: BookView, events: Seq<MarketEvent>, k: nat)
    requires
        k <= events.len(),
        delta_prefix_accepted(b, events, k),
    ensures
        replay_lobster_spec(b, events) == replay_lobster_spec(delta_prefix(b, events, k), events.skip(k as int)),
    decreases k,
{
    if k == 0 {
        assert(events.skip(0) =~= events);
    } else {
        let k1 = (k - 1) as nat;
        assert(delta_prefix_accepted(b, events, k1));
        lemma_delta_replay_skip(b, events, k1);
        let rest = events.skip(k1 as int);
        assert(rest[0] == events[k1 as int]);
        assert(apply_lobster_delta_spec(delta_prefix(b, events, k1), events[k1 as int]).0 is Ok);
        assert(rest.drop_first() =~= events.skip(k as int));
    }
}

/// Replay stops at the first rejected event: when every event is accepted
/// it succeeds with the book after all of them; when the first `k` are
/// accepted and event `k` is rejected it fails with that event's error and
/// keeps exactly the book after the first `k`.
pub proof fn lemma_replay_first_error(b: BookView, events: Seq<MarketEvent>, k: nat)
    requires
        k <= events.len(),
        prefix_accepted(b, events, k),
    ensures
        k == events.len() ==> replay_spec(b, events) == (Ok::<(), BookError>(()), applied_prefix(b, events, k)),
        k < events.len() && apply_spec(applied_prefix(b, events, k), events[k as int]).0 is Err
            ==> replay_spec(b, events) == (
            apply_spec(applied_prefix(b, events, k), events[k as int]).0,
            applied_prefix(b, events, k),
        ),
{
    lemma_replay_skip(b, events, k);
    if k < events.len() {
        assert(events.skip(k as int)[0] == events[k as int]);
    }
}

/// As `lemma_replay_first_error`, for LOBSTER deltas.
pub proof fn lemma_lobster_replay_first_error(b: BookView, events: Seq<MarketEvent>, k: nat)
    requires
        k <= events.len(),
        delta_prefix_accepted(b, events, k),
    ensures
        k == events.len() ==> replay_lobster_spec(b, events) == (
            Ok::<(), BookError>(()),
            delta_prefix(b, events, k),
        ),
        k < events.len() && apply_lobster_delta_spec(delta_prefix(b, events, k), events[k as int]).0 is Err
            ==> replay_lobster_spec(b, events) == (
            apply_lobster_delta_spec(delta_prefix(b, events, k), events[k as int]).0,
            delta_prefix(b, events, k),
        ),
{
    lemma_delta_replay_skip(b, events, k);
    if k < events.len() {
        assert(events.skip(k as int)[0] == events[k as int]);
    }
}

/// Replay is deterministic: the same events replayed on the same book end
/// in the same result and the same book.
pub proof fn lemma_replay_deterministic(b1: BookView, b2: BookView, events: Seq<MarketEvent>)
    requires
        b1 == b2,
    ensures
        replay_spec(b1, events) == replay_spec(b2, events),
        replay_lobster_spec(b1, events) == replay_lobster_spec(b2, events),
{
}

/// Hash of the `levels`-deep snapshot after replaying `events` on an empty
/// book, or the first replay error.
pub open spec fn replay_hash_spec(events: Seq<MarketEvent>, levels: nat) -> Result<u64, BookError> {
    let (r, b) = replay_spec(BookView::empty(), events);
    match r {
        Err(e) => Err(e),
        Ok(_) => Ok(hash_levels(FNV_OFFSET, snapshot_spec(b, levels).0 + snapshot_spec(b, levels).1)),
    }
}

#[derive(Debug, Clone)]
pub struct ReplayEngine {
    book: OrderBook,
}

impl View for ReplayEngine {
    type V = BookView;

    closed spec fn view(&self) -> BookView {
        self.book@
    }
}

impl ReplayEngine {
    pub closed spec fn wf(&self) -> bool {
        self.book.wf()
    }

    pub fn new() -> (r: Self)
        ensures
            r.wf(),
            r@ == BookView::empty(),
    {
        ReplayEngine { book: OrderBook::new() }
    }

    pub fn with_book(book: OrderBook) -> (r: Self)
        requires
            book.wf(),
        ensures
            r.wf(),
            r@ == book@,
    {
        ReplayEngine { book }
    }

    pub fn replay(&mut self, events: &[MarketEvent]) -> (r: Result<(), BookError>)
        requires
            old(self).wf(),
        ensures
            final(self).wf(),
            (r, final(self)@) == replay_spec(old(self)@, events@),
    {
        let ghost b0 = self@;
        let mut j: usize = 0;
        assert(events@.subrange(0, events@.len() as int) =~= events@);
        while j < events.len()
            invariant
                self.wf(),
                b0 == old(self)@,
                j <= events@.len(),
                replay_spec(b0, events@) == replay_spec(self@, events@.subrange(j as int, events@.len() as int)),
            decreases events@.len() - j,
        {
            let ghost rest = events@.subrange(j as int, events@.len() as int);
            assert(rest[0] == events@[j as int]);
            assert(rest.drop_first() =~= events@.subrange(j + 1, events@.len() as int));
            let ghost prev = self@;
            let r = self.book.apply(&events[j]);
            if r.is_err() {
                assert(replay_spec(prev, rest) == (r, self@));
                return r;
            }
            j = j + 1;
        }
        Ok(())
    }

    pub fn replay_lobster_deltas(&mut self, events: &[MarketEvent]) -> (r: Result<(), BookError>)
        requires
            old(self).wf(),
        ensures
            final(self).wf(),
            (r, final(self)@) == replay_lobster_spec(old(self)@, events@),
    {
        let ghost b0 = self@;
        let mut j: usize = 0;
        assert(events@.subrange(0, events@.len() as int) =~= events@);
        while j < events.len()
            invariant
                self.wf(),
                b0 == old(self)@,
                j <= events@.len(),
                replay_lobster_spec(b0, events@) == replay_lobster_spec(
                    self@,
                    events@.subrange(j as int, events@.len() as int),
                ),
            decreases events@.len() - j,
        {
            let ghost rest = events@.subrange(j as int, events@.len() as int);
            assert(rest[0] == events@[j as int]);
            assert(rest.drop_first() =~= events@.subrange(j + 1, events@.len() as int));
            let ghost prev = self@;
            let r = self.book.apply_lobster_delta(&events[j]);
            if r.is_err() {
                assert(replay_lobster_spec(prev, rest) == (r, self@));
                return r;
            }
            j = j + 1;
        }
        Ok(())
    }

    pub fn apply_lobster_delta(&mut self, event: &MarketEvent) -> (r: Result<(), BookError>)
        requires
            old(self).wf(),
        ensures
            final(self).wf(),
            (r, final(self)@) == apply_lobster_delta_spec(old(self)@, *event),
    {
        self.book.apply_lobster_delta(event)
    }

    pub fn snapshot(&self, levels: usize) -> (r: Snapshot)
        requires
            self.wf(),
        ensures
            (r.asks@, r.bids@) == snapshot_spec(self@, levels as nat),
            r.asks@.len() == levels && r.bids@.len() == levels,
    {
        self.book.snapshot(levels)
    }

    pub fn into_book(self) -> (r: OrderBook)
        requires
            self.wf(),
        ensures
            r.wf(),
            r@ == self@,
    {
        self.book
    }
}

/// Replay `events` on an empty book and hash the resulting snapshot.
pub fn deterministic_replay_hash(events: &[MarketEvent], levels: usize) -> (r: Result<u64, BookError>)
    ensures
        r == replay_hash_spec(events@, levels as nat),
{
    let mut engine = ReplayEngine::new();
    match engine.replay(events) {
        Err(e) => Err(e),
        Ok(()) => Ok(engine.snapshot(levels).stable_hash()),
    }
}

impl Default for ReplayEngine {
    fn default() -> (r: Self)
        ensures
            r.wf(),
            r@ == BookView::empty(),
    {
        Self::new()
    }
}

/// The replay hash is the stable hash of the snapshot, `levels` deep on
/// each side, of the book that replaying `events` on an empty book leaves;
/// when the replay fails, its error is returned instead.
pub proof fn lemma_replay_hash_of_snapshot(events: Seq<MarketEvent>, levels: nat)
    ensures
        ({
            let (r, b) = replay_spec(BookView::empty(), events);
            &&& r is Ok ==> replay_hash_spec(events, levels) == Ok::<u64, BookError>(
                snapshot_hash(snapshot_view(b, levels)),
            )
            &&& r matches Err(e) ==> replay_hash_spec(events, levels) == Err::<u64, BookError>(e)
            &&& snapshot_view(b, levels).asks.len() == levels
            &&& snapshot_view(b, levels).bids.len() == levels
        }),
{
}

} // verus!
