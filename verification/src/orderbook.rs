//! Deterministic replay order book: price levels with FIFO queues, driven by
//! normalized market events.
use vstd::prelude::*;
use crate::ladder::{
    find_level, has_level, ladder_reduce, ladder_view, level_at, queue_total, sat, side_has, total,
    LevelView, PriceLevel, RestingOrder,
};
use crate::market_events::{MarketEvent, OrderId, Price, Quantity, Side};
use crate::sides::{
    index_ok, lemma_take_index, lemma_take_positions, pos_ok, side_has_witness, take_fwd, BookSides,
    BookView,
};
use crate::text::{decimal, push_decimal, push_signed, push_str, signed_decimal};

verus! {

/// Price shown for an empty ask slot of a snapshot.
pub const EMPTY_ASK_PRICE: Price = 9_999_999_999;

/// Price shown for an empty bid slot of a snapshot.
pub const EMPTY_BID_PRICE: Price = -9_999_999_999;

/// Aggregated visible quantity at one price.
#[derive(Debug, Clone, Copy, PartialEq, Eq, Structural)]
pub struct Level {
    pub price: Price,
    pub qty: Quantity,
}

/// Visible book: asks best (lowest) first, bids best (highest) first.
#[derive(Debug, Clone, PartialEq, Eq)]
pub struct Snapshot {
    pub asks: Vec<Level>,
    pub bids: Vec<Level>,
}

/// Mathematical view of a snapshot.
pub struct SnapshotView {
    pub asks: Seq<Level>,
    pub bids: Seq<Level>,
}

impl View for Snapshot {
    type V = SnapshotView;

    open spec fn view(&self) -> SnapshotView {
        SnapshotView { asks: self.asks@, bids: self.bids@ }
    }
}

/// Copy of a level list.
fn copy_levels(s: &Vec<Level>) -> (r: Vec<Level>)
    ensures
        r@ == s@,
{
    let mut r: Vec<Level> = Vec::new();
    let mut j: usize = 0;
    while j < s.len()
        invariant
            j <= s@.len(),
            r@ =~= s@.take(j as int),
        decreases s@.len() - j,
    {
        r.push(s[j]);
        j = j + 1;
    }
    assert(s@.take(s@.len() as int) =~= s@);
    r
}

/// Level lists are equal.
fn levels_equal(a: &Vec<Level>, b: &Vec<Level>) -> (r: bool)
    ensures
        r == (a@ == b@),
{
    if a.len() != b.len() {
        return false;
    }
    let mut j: usize = 0;
    while j < a.len()
        invariant
            a@.len() == b@.len(),
            j <= a@.len(),
            forall|k: int| 0 <= k < j ==> a@[k] == b@[k],
        decreases a@.len() - j,
    {
        if a[j] != b[j] {
            return false;
        }
        j = j + 1;
    }
    assert(a@ =~= b@);
    true
}

impl Snapshot {
    /// A copy with the same levels.
    pub fn duplicate(&self) -> (r: Snapshot)
        ensures
            r@ == self@,
    {
        Snapshot { asks: copy_levels(&self.asks), bids: copy_levels(&self.bids) }
    }

    /// Both snapshots show the same levels.
    pub fn same_as(&self, other: &Snapshot) -> (r: bool)
        ensures
            r == (self@ == other@),
    {
        levels_equal(&self.asks, &other.asks) && levels_equal(&self.bids, &other.bids)
    }
}

/// `s` cut or padded to exactly `n` levels, padding with `(empty, 0)`.
pub open spec fn pad_levels(s: Seq<Level>, n: nat, empty: Price) -> Seq<Level> {
    Seq::new(n, |j: int| if j < s.len() { s[j] } else { Level { price: empty, qty: 0 } })
}

pub const FNV_OFFSET: u64 = 0xcbf2_9ce4_8422_2325;

pub const FNV_PRIME: u64 = 0x1000_0000_01b3;

/// One FNV-style mixing step over a level.
pub open spec fn hash_step(h: u64, l: Level) -> u64 {
    let h1 = (h ^ (l.price as u64)).wrapping_mul(FNV_PRIME);
    (h1 ^ (l.qty as u64)).wrapping_mul(FNV_PRIME)
}

/// The stable hash of a snapshot: every ask level, then every bid level,
/// mixed in from the FNV offset.
pub open spec fn snapshot_hash(s: SnapshotView) -> u64 {
    hash_levels(FNV_OFFSET, s.asks + s.bids)
}

pub open spec fn hash_levels(h: u64, s: Seq<Level>) -> u64
    decreases s.len(),
{
    if s.len() == 0 {
        h
    } else {
        hash_step(hash_levels(h, s.drop_last()), s.last())
    }
}

/// Copy `n` levels of `s`, padding past its end with `(empty, 0)`.
fn padded_copy(s: &Vec<Level>, n: usize, empty: Price) -> (r: Vec<Level>)
    ensures
        r@ == pad_levels(s@, n as nat, empty),
{
    let mut r: Vec<Level> = Vec::new();
    let mut j: usize = 0;
    while j < n
        invariant
            j <= n,
            r@ =~= pad_levels(s@, n as nat, empty).take(j as int),
        decreases n - j,
    {
        if j < s.len() {
            r.push(s[j]);
        } else {
            r.push(Level { price: empty, qty: 0 });
        }
        j = j + 1;
    }
    assert(pad_levels(s@, n as nat, empty).take(n as int) =~= pad_levels(s@, n as nat, empty));
    r
}

impl Snapshot {
    /// The first `levels` levels of each side, padded with empty levels.
    pub fn top_n(&self, levels: usize) -> (r: Self)
        ensures
            r.asks@ == pad_levels(self.asks@, levels as nat, EMPTY_ASK_PRICE),
            r.bids@ == pad_levels(self.bids@, levels as nat, EMPTY_BID_PRICE),
    {
        let asks = padded_copy(&self.asks, levels, EMPTY_ASK_PRICE);
        let bids = padded_copy(&self.bids, levels, EMPTY_BID_PRICE);
        Snapshot { asks, bids }
    }

    /// FNV-1a-style hash of every ask then every bid level.
    pub fn stable_hash(&self) -> (r: u64)
        ensures
            r == hash_levels(FNV_OFFSET, self.asks@ + self.bids@),
            r == snapshot_hash(self@),
    {
        let mut hash: u64 = FNV_OFFSET;
        let ghost all = self.asks@ + self.bids@;
        let mut j: usize = 0;
        while j < self.asks.len()
            invariant
                all == self.asks@ + self.bids@,
                j <= self.asks.len(),
                hash == hash_levels(FNV_OFFSET, all.take(j as int)),
            decreases self.asks.len() - j,
        {
            let level = self.asks[j];
            hash = hash ^ (level.price as u64);
            hash = hash.wrapping_mul(FNV_PRIME);
            hash = hash ^ (level.qty as u64);
            hash = hash.wrapping_mul(FNV_PRIME);
            assert(all.take(j + 1).drop_last() =~= all.take(j as int));
            j = j + 1;
        }
        let mut j: usize = 0;
        while j < self.bids.len()
            invariant
                all == self.asks@ + self.bids@,
                j <= self.bids.len(),
                hash == hash_levels(FNV_OFFSET, all.take(self.asks@.len() + j)),
            decreases self.bids.len() - j,
        {
            let level = self.bids[j];
            hash = hash ^ (level.price as u64);
            hash = hash.wrapping_mul(FNV_PRIME);
            hash = hash ^ (level.qty as u64);
            hash = hash.wrapping_mul(FNV_PRIME);
            assert(all.take(self.asks@.len() + j + 1).drop_last() =~= all.take(self.asks@.len() + j));
            j = j + 1;
        }
        assert(all.take(all.len() as int) =~= all);
        hash
    }
}


/// Price and saturated total quantity of a level.
pub open spec fn level_summary(l: LevelView) -> Level {
    Level { price: l.price, qty: sat(total(l.orders)) }
}

pub open spec fn ladder_summaries(ls: Seq<LevelView>) -> Seq<Level> {
    ls.map_values(|l: LevelView| level_summary(l))
}

/// Summaries of the first `n` levels (fewer if the ladder is shorter).
pub fn ladder_levels(levels: &Vec<PriceLevel>, n: usize) -> (r: Vec<Level>)
    ensures
        r@ == ladder_summaries(ladder_view(levels@)).take(
            if n < levels@.len() { n as int } else { levels@.len() as int },
        ),
{
    let ghost all = ladder_summaries(ladder_view(levels@));
    let mut r: Vec<Level> = Vec::new();
    let mut j: usize = 0;
    while j < n && j < levels.len()
        invariant
            all == ladder_summaries(ladder_view(levels@)),
            j <= levels@.len(),
            j <= n,
            r@ =~= all.take(j as int),
        decreases levels@.len() - j,
    {
        let qty = queue_total(&levels[j].orders);
        r.push(Level { price: levels[j].price, qty });
        j = j + 1;
    }
    r
}

/// Why an event could not be applied to the book.
#[derive(Debug, Clone, PartialEq, Eq, Structural)]
pub enum BookError {
    DuplicateOrder(OrderId),
    UnknownOrder(OrderId),
    InvalidQuantity,
    CancelExceedsResting { order_id: OrderId, resting: Quantity, requested: Quantity },
    ExecutionExceedsResting { order_id: OrderId, resting: Quantity, requested: Quantity },
    CrossedBook { bid: Price, ask: Price },
}

/// Human-readable text of a book error.
pub open spec fn book_error_text(e: BookError) -> Seq<char> {
    match e {
        BookError::DuplicateOrder(id) => "duplicate order id "@ + decimal(id as nat),
        BookError::UnknownOrder(id) => "unknown order id "@ + decimal(id as nat),
        BookError::InvalidQuantity => "quantity must be positive"@,
        BookError::CancelExceedsResting { order_id, resting, requested } => "cancel for order "@
            + decimal(order_id as nat) + " exceeds resting qty: requested "@ + decimal(
            requested as nat,
        ) + ", resting "@ + decimal(resting as nat),
        BookError::ExecutionExceedsResting { order_id, resting, requested } => "execution for order "@
            + decimal(order_id as nat) + " exceeds resting qty: requested "@ + decimal(
            requested as nat,
        ) + ", resting "@ + decimal(resting as nat),
        BookError::CrossedBook { bid, ask } => "crossed book: bid "@ + signed_decimal(bid as int)
            + " >= ask "@ + signed_decimal(ask as int),
    }
}

impl BookError {
    /// The error's message.
    pub fn to_string(&self) -> (r: String)
        ensures
            r@ == book_error_text(*self),
    {
        let mut s = String::new();
        match *self {
            BookError::DuplicateOrder(id) => {
                push_str(&mut s, "duplicate order id ");
                push_decimal(&mut s, id);
            },
            BookError::UnknownOrder(id) => {
                push_str(&mut s, "unknown order id ");
                push_decimal(&mut s, id);
            },
            BookError::InvalidQuantity => {
                push_str(&mut s, "quantity must be positive");
            },
            BookError::CancelExceedsResting { order_id, resting, requested } => {
                push_str(&mut s, "cancel for order ");
                push_decimal(&mut s, order_id);
                push_str(&mut s, " exceeds resting qty: requested ");
                push_decimal(&mut s, requested as u64);
                push_str(&mut s, ", resting ");
                push_decimal(&mut s, resting as u64);
            },
            BookError::ExecutionExceedsResting { order_id, resting, requested } => {
                push_str(&mut s, "execution for order ");
                push_decimal(&mut s, order_id);
                push_str(&mut s, " exceeds resting qty: requested ");
                push_decimal(&mut s, requested as u64);
                push_str(&mut s, ", resting ");
                push_decimal(&mut s, resting as u64);
            },
            BookError::CrossedBook { bid, ask } => {
                push_str(&mut s, "crossed book: bid ");
                push_signed(&mut s, bid);
                push_str(&mut s, " >= ask ");
                push_signed(&mut s, ask);
            },
        }
        assert(s@ =~= book_error_text(*self));
        s
    }
}

/// The error an order at `price` on `side` would meet for crossing the book.
pub open spec fn crossing(b: BookView, side: Side, price: Price) -> Option<BookError> {
    match side {
        Side::Buy => if b.asks.len() > 0 && price >= b.asks[0].price {
            Some(BookError::CrossedBook { bid: price, ask: b.asks[0].price })
        } else {
            None
        },
        Side::Sell => if b.bids.len() > 0 && b.bids[0].price >= price {
            Some(BookError::CrossedBook { bid: b.bids[0].price, ask: price })
        } else {
            None
        },
    }
}

pub open spec fn add_limit_spec(b: BookView, id: OrderId, side: Side, price: Price, qty: Quantity) -> (
    Result<(), BookError>,
    BookView,
) {
    if qty == 0 {
        (Err(BookError::InvalidQuantity), b)
    } else if b.has(id) {
        (Err(BookError::DuplicateOrder(id)), b)
    } else {
        match crossing(b, side, price) {
            Some(e) => (Err(e), b),
            None => (Ok(()), b.insert(side, price, RestingOrder { id, qty })),
        }
    }
}

pub open spec fn partial_cancel_spec(b: BookView, id: OrderId, qty: Quantity) -> (
    Result<(), BookError>,
    BookView,
) {
    if qty == 0 {
        (Err(BookError::InvalidQuantity), b)
    } else if !b.has(id) {
        (Err(BookError::UnknownOrder(id)), b)
    } else if qty > b.order_qty(id) {
        (
            Err(
                BookError::CancelExceedsResting {
                    order_id: id,
                    resting: b.order_qty(id),
                    requested: qty,
                },
            ),
            b,
        )
    } else {
        (Ok(()), b.reduce_order(id, qty))
    }
}

pub open spec fn full_delete_spec(b: BookView, id: OrderId) -> (Result<(), BookError>, BookView) {
    if !b.has(id) {
        (Err(BookError::UnknownOrder(id)), b)
    } else {
        (Ok(()), b.reduce_order(id, b.order_qty(id)))
    }
}

pub open spec fn visible_execution_spec(
    b: BookView,
    id: OrderId,
    side: Side,
    price: Price,
    qty: Quantity,
) -> (Result<(), BookError>, BookView) {
    if qty == 0 {
        (Err(BookError::InvalidQuantity), b)
    } else if !b.has(id) {
        (Err(BookError::UnknownOrder(id)), b)
    } else if qty > b.order_qty(id) {
        (
            Err(
                BookError::ExecutionExceedsResting {
                    order_id: id,
                    resting: b.order_qty(id),
                    requested: qty,
                },
            ),
            b,
        )
    } else if b.order_side(id) != side || b.order_price(id) != price {
        (Err(BookError::UnknownOrder(id)), b)
    } else {
        (Ok(()), b.reduce_order(id, qty))
    }
}

/// Anonymous reduction of the level at `price`, oldest orders first.
pub open spec fn reduce_aggregate_spec(b: BookView, side: Side, price: Price, qty: Quantity) -> (
    Result<(), BookError>,
    BookView,
) {
    if qty == 0 {
        (Err(BookError::InvalidQuantity), b)
    } else if !has_level(b.side(side), price) {
        (Err(BookError::ExecutionExceedsResting { order_id: 0, resting: 0, requested: qty }), b)
    } else {
        let i = level_at(b.side(side), price);
        let t = total(b.side(side)[i].orders);
        if qty > t {
            (
                Err(
                    BookError::ExecutionExceedsResting {
                        order_id: 0,
                        resting: t as u32,
                        requested: qty,
                    },
                ),
                b,
            )
        } else {
            (Ok(()), b.consume_level(side, i, qty as nat))
        }
    }
}

pub open spec fn apply_spec(b: BookView, e: MarketEvent) -> (Result<(), BookError>, BookView) {
    match e {
        MarketEvent::AddLimit { order_id, side, price, qty, .. } => add_limit_spec(
            b,
            order_id,
            side,
            price,
            qty,
        ),
        MarketEvent::PartialCancel { order_id, qty, .. } => partial_cancel_spec(b, order_id, qty),
        MarketEvent::FullDelete { order_id, .. } => full_delete_spec(b, order_id),
        MarketEvent::VisibleExecution { order_id, qty, price, side, .. } => visible_execution_spec(
            b,
            order_id,
            side,
            price,
            qty,
        ),
        MarketEvent::HiddenExecution { .. } => (Ok(()), b),
        MarketEvent::TradingHalt { .. } => (Ok(()), b),
    }
}

/// LOBSTER deltas may name orders that were placed before the sample
/// started; those reduce the level anonymously.
pub open spec fn apply_lobster_delta_spec(b: BookView, e: MarketEvent) -> (
    Result<(), BookError>,
    BookView,
) {
    match e {
        MarketEvent::PartialCancel { order_id, qty, side, price, .. } => if b.has(order_id) {
            partial_cancel_spec(b, order_id, qty)
        } else {
            reduce_aggregate_spec(b, side, price, qty)
        },
        MarketEvent::FullDelete { order_id, side, price, qty, .. } => if b.has(order_id) {
            full_delete_spec(b, order_id)
        } else {
            reduce_aggregate_spec(b, side, price, qty)
        },
        MarketEvent::VisibleExecution { order_id, qty, price, side, .. } => if b.has(order_id) {
            visible_execution_spec(b, order_id, side, price, qty)
        } else {
            reduce_aggregate_spec(b, side, price, qty)
        },
        MarketEvent::HiddenExecution { .. } => (Ok(()), b),
        MarketEvent::TradingHalt { .. } => (Ok(()), b),
        MarketEvent::AddLimit { .. } => apply_spec(b, e),
    }
}

/// The snapshot of the first `n` levels of each side.
pub open spec fn snapshot_view(b: BookView, n: nat) -> SnapshotView {
    SnapshotView { asks: snapshot_spec(b, n).0, bids: snapshot_spec(b, n).1 }
}

/// Both sides of a snapshot of the first `n` levels.
pub open spec fn snapshot_spec(b: BookView, n: nat) -> (Seq<Level>, Seq<Level>) {
    (
        pad_levels(ladder_summaries(b.asks), n, EMPTY_ASK_PRICE),
        pad_levels(ladder_summaries(b.bids), n, EMPTY_BID_PRICE),
    )
}

/// The book seeded with one synthetic order per visible level of `levels`,
/// ids counting down from `next`; empty slots are skipped.
pub open spec fn seed_levels(b: BookView, next: int, levels: Seq<Level>, side: Side, empty: Price) -> (
    BookView,
    int,
)
    decreases levels.len(),
{
    if levels.len() == 0 {
        (b, next)
    } else {
        let (b1, n1) = seed_levels(b, next, levels.drop_last(), side, empty);
        let l = levels.last();
        if l.qty > 0 && l.price != empty {
            (b1.insert(side, l.price, RestingOrder { id: n1 as u64, qty: l.qty }), n1 - 1)
        } else {
            (b1, n1)
        }
    }
}

/// The book rebuilt from a visible snapshot: asks first, then bids.
pub open spec fn from_snapshot_spec(asks: Seq<Level>, bids: Seq<Level>) -> BookView {
    let (b1, n1) = seed_levels(BookView::empty(), u64::MAX as int, asks, Side::Sell, EMPTY_ASK_PRICE);
    seed_levels(b1, n1, bids, Side::Buy, EMPTY_BID_PRICE).0
}

/// Replay order book.
#[derive(Debug, Clone)]
pub struct OrderBook {
    sides: BookSides,
    next_seed_order_id: OrderId,
}

impl View for OrderBook {
    type V = BookView;

    closed spec fn view(&self) -> BookView {
        self.sides@
    }
}

impl OrderBook {
    /// The book's internal invariant: sorted levels, non-empty FIFO queues
    /// of positive quantities, unique ids, and an index that agrees.
    pub closed spec fn wf(&self) -> bool {
        self.sides.wf()
    }

    pub proof fn lemma_wf(&self)
        requires
            self.wf(),
        ensures
            self@.wf(),
    {
    }

    pub fn new() -> (r: Self)
        ensures
            r.wf(),
            r@ == BookView::empty(),
    {
        OrderBook { sides: BookSides::new(), next_seed_order_id: u64::MAX }
    }

    /// A book holding one synthetic order for every non-empty level of the
    /// snapshot.
    pub fn from_snapshot(snapshot: &Snapshot) -> (r: Self)
        requires
            snapshot.asks@.len() + snapshot.bids@.len() <= u64::MAX,
        ensures
            r.wf(),
            r@ == from_snapshot_spec(snapshot.asks@, snapshot.bids@),
    {
        let mut book = OrderBook { sides: BookSides::new(), next_seed_order_id: u64::MAX };
        let ghost asks = snapshot.asks@;
        let ghost bids = snapshot.bids@;
        let mut j: usize = 0;
        assert(asks.take(0) =~= Seq::<Level>::empty());
        while j < snapshot.asks.len()
            invariant
                asks == snapshot.asks@,
                bids == snapshot.bids@,
                asks.len() + bids.len() <= u64::MAX,
                j <= asks.len(),
                book.wf(),
                (book@, book.next_seed_order_id as int) == seed_levels(
                    BookView::empty(),
                    u64::MAX as int,
                    asks.take(j as int),
                    Side::Sell,
                    EMPTY_ASK_PRICE,
                ),
                book.next_seed_order_id as int >= u64::MAX - j,
                forall|id: OrderId| book@.has(id) ==> id > book.next_seed_order_id,
            decreases asks.len() - j,
        {
            let level = snapshot.asks[j];
            assert(asks.take(j + 1).drop_last() =~= asks.take(j as int));
            if level.qty > 0 && level.price != EMPTY_ASK_PRICE {
                book.add_seed_level(Side::Sell, level.price, level.qty);
            }
            j = j + 1;
        }
        assert(asks.take(asks.len() as int) =~= asks);
        let ghost b1 = book@;
        let ghost n1 = book.next_seed_order_id as int;
        let mut j: usize = 0;
        assert(bids.take(0) =~= Seq::<Level>::empty());
        while j < snapshot.bids.len()
            invariant
                asks == snapshot.asks@,
                bids == snapshot.bids@,
                asks.len() + bids.len() <= u64::MAX,
                j <= bids.len(),
                book.wf(),
                n1 >= u64::MAX - asks.len(),
                (book@, book.next_seed_order_id as int) == seed_levels(
                    b1,
                    n1,
                    bids.take(j as int),
                    Side::Buy,
                    EMPTY_BID_PRICE,
                ),
                book.next_seed_order_id as int >= n1 - j,
                forall|id: OrderId| book@.has(id) ==> id > book.next_seed_order_id,
            decreases bids.len() - j,
        {
            let level = snapshot.bids[j];
            assert(bids.take(j + 1).drop_last() =~= bids.take(j as int));
            if level.qty > 0 && level.price != EMPTY_BID_PRICE {
                book.add_seed_level(Side::Buy, level.price, level.qty);
            }
            j = j + 1;
        }
        assert(bids.take(bids.len() as int) =~= bids);
        book
    }

    fn add_seed_level(&mut self, side: Side, price: Price, qty: Quantity)
        requires
            old(self).wf(),
            old(self).next_seed_order_id > 0,
            qty > 0,
            forall|id: OrderId| old(self)@.has(id) ==> id > old(self).next_seed_order_id,
        ensures
            final(self).wf(),
            final(self)@ == old(self)@.insert(
                side,
                price,
                RestingOrder { id: old(self).next_seed_order_id, qty },
            ),
            final(self).next_seed_order_id == old(self).next_seed_order_id - 1,
            forall|id: OrderId| final(self)@.has(id) ==> id > final(self).next_seed_order_id,
    {
        let order_id = self.next_seed_order_id;
        assert(!old(self)@.has(order_id));
        self.next_seed_order_id = self.next_seed_order_id - 1;
        self.sides.insert(side, price, RestingOrder { id: order_id, qty });
        assert forall|id: OrderId| self@.has(id) implies id > self.next_seed_order_id by {
            assert(self.sides.orders@.contains_key(id));
            if id != order_id {
                assert(old(self).sides.orders@.contains_key(id));
            }
        }
    }

    pub fn add_limit(&mut self, order_id: OrderId, side: Side, price: Price, qty: Quantity) -> (r: Result<
        (),
        BookError,
    >)
        requires
            old(self).wf(),
        ensures
            final(self).wf(),
            (r, final(self)@) == add_limit_spec(old(self)@, order_id, side, price, qty),
    {
        if qty == 0 {
            return Err(BookError::InvalidQuantity);
        }
        if self.sides.contains(order_id) {
            return Err(BookError::DuplicateOrder(order_id));
        }
        self.reject_if_crossing(side, price)?;
        self.sides.insert(side, price, RestingOrder { id: order_id, qty });
        Ok(())
    }

    pub fn partial_cancel(&mut self, order_id: OrderId, qty: Quantity) -> (r: Result<(), BookError>)
        requires
            old(self).wf(),
        ensures
            final(self).wf(),
            (r, final(self)@) == partial_cancel_spec(old(self)@, order_id, qty),
    {
        if qty == 0 {
            return Err(BookError::InvalidQuantity);
        }
        let resting = match self.order_qty(order_id) {
            Ok(q) => q,
            Err(e) => {
                return Err(e);
            },
        };
        if qty > resting {
            return Err(BookError::CancelExceedsResting { order_id, resting, requested: qty });
        }
        self.reduce_order(order_id, qty)
    }

    pub fn full_delete(&mut self, order_id: OrderId) -> (r: Result<(), BookError>)
        requires
            old(self).wf(),
        ensures
            final(self).wf(),
            (r, final(self)@) == full_delete_spec(old(self)@, order_id),
            !final(self)@.has(order_id),
            forall|x: OrderId| x != order_id ==> (final(self)@.has(x) <==> old(self)@.has(x)),
    {
        let resting = match self.order_qty(order_id) {
            Ok(q) => q,
            Err(e) => {
                return Err(e);
            },
        };
        self.reduce_order(order_id, resting)
    }

    pub fn visible_execution(
        &mut self,
        order_id: OrderId,
        side: Side,
        price: Price,
        qty: Quantity,
    ) -> (r: Result<(), BookError>)
        requires
            old(self).wf(),
        ensures
            final(self).wf(),
            (r, final(self)@) == visible_execution_spec(old(self)@, order_id, side, price, qty),
    {
        if qty == 0 {
            return Err(BookError::InvalidQuantity);
        }
        let resting = match self.order_qty(order_id) {
            Ok(q) => q,
            Err(e) => {
                return Err(e);
            },
        };
        if qty > resting {
            return Err(BookError::ExecutionExceedsResting { order_id, resting, requested: qty });
        }
        let (stored_side, stored_price) = match self.sides.lookup(order_id) {
            Some((s, i, _k)) => (s, self.sides.ladder(s)[i].price),
            None => {
                return Err(BookError::UnknownOrder(order_id));
            },
        };
        if stored_side != side || stored_price != price {
            return Err(BookError::UnknownOrder(order_id));
        }
        self.reduce_order(order_id, qty)
    }

    /// Apply a normalized event.
    pub fn apply(&mut self, event: &MarketEvent) -> (r: Result<(), BookError>)
        requires
            old(self).wf(),
        ensures
            final(self).wf(),
            (r, final(self)@) == apply_spec(old(self)@, *event),
    {
        match *event {
            MarketEvent::AddLimit { order_id, side, price, qty, .. } => self.add_limit(
                order_id,
                side,
                price,
                qty,
            ),
            MarketEvent::PartialCancel { order_id, qty, .. } => self.partial_cancel(order_id, qty),
            MarketEvent::FullDelete { order_id, .. } => self.full_delete(order_id),
            MarketEvent::VisibleExecution { order_id, qty, price, side, .. } => self.visible_execution(
                order_id,
                side,
                price,
                qty,
            ),
            MarketEvent::HiddenExecution { .. } => Ok(()),
            MarketEvent::TradingHalt { .. } => Ok(()),
        }
    }

    /// Apply a LOBSTER message; reductions of orders the book does not know
    /// are taken anonymously from the front of their price level.
    pub fn apply_lobster_delta(&mut self, event: &MarketEvent) -> (r: Result<(), BookError>)
        requires
            old(self).wf(),
        ensures
            final(self).wf(),
            (r, final(self)@) == apply_lobster_delta_spec(old(self)@, *event),
    {
        match *event {
            MarketEvent::PartialCancel { order_id, qty, side, price, .. } => {
                if self.sides.contains(order_id) {
                    self.partial_cancel(order_id, qty)
                } else {
                    self.reduce_aggregate(side, price, qty)
                }
            },
            MarketEvent::FullDelete { order_id, side, price, qty, .. } => {
                if self.sides.contains(order_id) {
                    self.full_delete(order_id)
                } else {
                    self.reduce_aggregate(side, price, qty)
                }
            },
            MarketEvent::VisibleExecution { order_id, qty, price, side, .. } => {
                if self.sides.contains(order_id) {
                    self.visible_execution(order_id, side, price, qty)
                } else {
                    self.reduce_aggregate(side, price, qty)
                }
            },
            MarketEvent::HiddenExecution { .. } => Ok(()),
            MarketEvent::TradingHalt { .. } => Ok(()),
            MarketEvent::AddLimit { .. } => self.apply(event),
        }
    }

    /// The visible book: the best `levels` levels of each side, padded with
    /// empty levels.
    pub fn snapshot(&self, levels: usize) -> (r: Snapshot)
        requires
            self.wf(),
        ensures
            (r.asks@, r.bids@) == snapshot_spec(self@, levels as nat),
            r.asks@.len() == levels && r.bids@.len() == levels,
    {
        let asks = ladder_levels(&self.sides.asks, levels);
        let bids = ladder_levels(&self.sides.bids, levels);
        let r = Snapshot { asks, bids }.top_n(levels);
        assert(r.asks@ =~= snapshot_spec(self@, levels as nat).0);
        assert(r.bids@ =~= snapshot_spec(self@, levels as nat).1);
        r
    }

    fn reduce_aggregate(&mut self, side: Side, price: Price, qty: Quantity) -> (r: Result<(), BookError>)
        requires
            old(self).wf(),
        ensures
            final(self).wf(),
            (r, final(self)@) == reduce_aggregate_spec(old(self)@, side, price, qty),
    {
        if qty == 0 {
            return Err(BookError::InvalidQuantity);
        }
        let ghost b = self@;
        proof {
            b.lemma_sorted(side);
        }
        let li = find_level(self.sides.ladder(side), side, price);
        let i = match li {
            Some(i) => i,
            None => {
                return Err(
                    BookError::ExecutionExceedsResting { order_id: 0, resting: 0, requested: qty },
                );
            },
        };
        let resting = queue_total(&self.sides.ladder(side)[i].orders);
        if qty > resting {
            return Err(BookError::ExecutionExceedsResting { order_id: 0, resting, requested: qty });
        }
        let (_taken, _left) = self.sides.consume_level(side, i, qty);
        Ok(())
    }

    fn order_qty(&self, order_id: OrderId) -> (r: Result<Quantity, BookError>)
        requires
            self.wf(),
        ensures
            self@.has(order_id) ==> r == Ok::<Quantity, BookError>(self@.order_qty(order_id)),
            !self@.has(order_id) ==> r == Err::<Quantity, BookError>(
                BookError::UnknownOrder(order_id),
            ),
            r matches Ok(q) ==> q > 0,
    {
        match self.sides.lookup(order_id) {
            Some((s, i, k)) => {
                proof {
                    self.sides@.lemma_queue_ok(s, i as int);
                }
                Ok(self.sides.ladder(s)[i].orders[k].qty)
            },
            None => Err(BookError::UnknownOrder(order_id)),
        }
    }

    fn reduce_order(&mut self, order_id: OrderId, qty: Quantity) -> (r: Result<(), BookError>)
        requires
            old(self).wf(),
            old(self)@.has(order_id),
            0 < qty <= old(self)@.order_qty(order_id),
        ensures
            final(self).wf(),
            r == Ok::<(), BookError>(()),
            final(self)@ == old(self)@.reduce_order(order_id, qty),
            qty == old(self)@.order_qty(order_id) ==> !final(self)@.has(order_id),
            forall|x: OrderId| x != order_id ==> (final(self)@.has(x) <==> old(self)@.has(x)),
    {
        match self.sides.lookup(order_id) {
            Some((s, i, k)) => {
                let ghost before = self.sides;
                proof {
                    let b = self.sides@;
                    assert(side_has(b.side(s), order_id)) by {
                        match s {
                            Side::Buy => {},
                            Side::Sell => {},
                        }
                    }
                    let (wi, wk) = side_has_witness(b.side(s), order_id);
                    assert(pos_ok(b.side(s), wi, wk) && b.side(s)[wi].orders[wk].id == order_id);
                    assert(b.side(s)[i as int].orders[k as int].id == order_id);
                }
                self.sides.take(s, i, k, qty);
                assert forall|x: OrderId| x != order_id implies (self@.has(x) <==> old(self)@.has(x)) by {
                    assert(self.sides.orders@.contains_key(x) == before.orders@.contains_key(x));
                }
                Ok(())
            },
            None => Err(BookError::UnknownOrder(order_id)),
        }
    }

    fn reject_if_crossing(&self, side: Side, price: Price) -> (r: Result<(), BookError>)
        requires
            self.wf(),
        ensures
            r == match crossing(self@, side, price) {
                Some(e) => Err::<(), BookError>(e),
                None => Ok(()),
            },
    {
        match side {
            Side::Buy => {
                if self.sides.asks.len() > 0 {
                    let best_ask = self.sides.asks[0].price;
                    if price >= best_ask {
                        return Err(BookError::CrossedBook { bid: price, ask: best_ask });
                    }
                }
            },
            Side::Sell => {
                if self.sides.bids.len() > 0 {
                    let best_bid = self.sides.bids[0].price;
                    if best_bid >= price {
                        return Err(BookError::CrossedBook { bid: best_bid, ask: price });
                    }
                }
            },
        }
        Ok(())
    }
}

impl Default for OrderBook {
    fn default() -> (r: Self)
        ensures
            r.wf(),
            r@ == BookView::empty(),
    {
        Self::new()
    }
}

/// Taking `qty` from an order the book holds leaves what is left of that
/// order (none: it leaves the book) and every other order as it was.
proof fn lemma_reduce_order_alone(book: OrderBook, id: OrderId, qty: Quantity)
    requires
        book.wf(),
        book@.has(id),
        0 < qty <= book@.order_qty(id),
    ensures
        ({
            let b = book@;
            let b2 = b.reduce_order(id, qty);
            &&& qty < b.order_qty(id) ==> b2.has(id) && b2.order_qty(id) == b.order_qty(id) - qty
            &&& qty == b.order_qty(id) ==> !b2.has(id)
            &&& forall|o: OrderId| o != id ==> (#[trigger] b2.has(o) <==> b.has(o))
            &&& forall|o: OrderId| o != id && b.has(o) ==> #[trigger] b2.order_qty(o) == b.order_qty(o)
        }),
{
    let b = book@;
    let m = book.sides.orders@;
    assert(b.wf() && index_ok(m, b));
    crate::book_laws::lemma_order_pos(b, id);
    let s = b.order_side(id);
    let (i0, k0) = b.order_pos(id);
    let ls = b.side(s);
    let b2 = b.take(s, i0, k0, qty);
    crate::book_laws::lemma_reduce_order(b, id, qty);
    lemma_take_index(m, b, s, i0, k0, qty);
    let removed = qty == ls[i0].orders[k0].qty;
    let m2 = if removed { m.remove(id) } else { m };
    b.lemma_sorted(s);
    lemma_take_positions(ls, s, i0, k0, qty);
    let ql = ls[i0].orders.len() as int;
    assert(b2.side(s) == ladder_reduce(ls, i0, k0, qty));
    assert(forall|s2: Side| s2 != s ==> b2.side(s2) == b.side(s2)) by {
        match s {
            Side::Buy => {},
            Side::Sell => {},
        }
    }
    if !removed {
        crate::sides::lemma_order_pos(m2, b2, s, i0, k0);
    }
    assert forall|o: OrderId| o != id && b.has(o) implies b2.has(o) && #[trigger] b2.order_qty(o)
        == b.order_qty(o) by {
        crate::book_laws::lemma_order_pos(b, o);
        let so = b.order_side(o);
        let (io, ko) = b.order_pos(o);
        if so == s {
            let (i2, k2) = take_fwd(ql, removed, i0, k0, io, ko);
            crate::sides::lemma_order_pos(m2, b2, s, i2, k2);
        } else {
            crate::sides::lemma_order_pos(m2, b2, so, io, ko);
        }
    }
    assert forall|o: OrderId| o != id implies (#[trigger] b2.has(o) <==> b.has(o)) by {
        assert(m2.contains_key(o) <==> b2.has(o));
        assert(m.contains_key(o) <==> b.has(o));
    }
}

/// A LOBSTER delta that names an order the book holds acts on that order
/// alone, as the book's own event does. A partial cancel of `qty` (at most
/// what rests), or a visible execution of `qty` at the order's own side and
/// price, is accepted and leaves the order with `qty` less, taking it out
/// of the book when nothing is left; a full delete is accepted and takes
/// the order out. Every other order stays in the book, or out of it, with
/// its quantity unchanged.
pub proof fn lemma_lobster_delta_of_held_order(
    book: OrderBook,
    ts: u64,
    id: OrderId,
    side: Side,
    price: Price,
    qty: Quantity,
)
    requires
        book.wf(),
        book@.has(id),
    ensures
        ({
            let b = book@;
            let q0 = b.order_qty(id);
            let cancel = apply_lobster_delta_spec(
                b,
                MarketEvent::PartialCancel { ts, order_id: id, side, price, qty },
            );
            let exec = apply_lobster_delta_spec(
                b,
                MarketEvent::VisibleExecution { ts, order_id: id, qty, price, side },
            );
            let delete = apply_lobster_delta_spec(
                b,
                MarketEvent::FullDelete { ts, order_id: id, side, price, qty },
            );
            &&& 0 < qty <= q0 ==> {
                &&& cancel.0 is Ok
                &&& qty < q0 ==> cancel.1.has(id) && cancel.1.order_qty(id) == q0 - qty
                &&& qty == q0 ==> !cancel.1.has(id)
                &&& forall|o: OrderId| o != id ==> (#[trigger] cancel.1.has(o) <==> b.has(o))
                &&& forall|o: OrderId|
                    o != id && b.has(o) ==> #[trigger] cancel.1.order_qty(o) == b.order_qty(o)
            }
            &&& 0 < qty <= q0 && side == b.order_side(id) && price == b.order_price(id) ==> {
                &&& exec.0 is Ok
                &&& exec.1 == cancel.1
            }
            &&& delete.0 is Ok
            &&& !delete.1.has(id)
            &&& forall|o: OrderId| o != id ==> (#[trigger] delete.1.has(o) <==> b.has(o))
            &&& forall|o: OrderId| o != id && b.has(o) ==> #[trigger] delete.1.order_qty(o) == b.order_qty(o)
        }),
{
    let b = book@;
    assert(b.wf());
    crate::book_laws::lemma_order_pos(b, id);
    let (i0, k0) = b.order_pos(id);
    b.lemma_queue_ok(b.order_side(id), i0);
    assert(b.order_qty(id) > 0);
    if 0 < qty <= b.order_qty(id) {
        lemma_reduce_order_alone(book, id, qty);
    }
    lemma_reduce_order_alone(book, id, b.order_qty(id));
}

} // verus!
