//! Exchange-style matching engine: price-time priority, GTC/IOC/FOK,
//! market and limit orders, cancel and replace.
use vstd::prelude::*;
use crate::ladder::{consume, lemma_consume_total, queue_total, sat, total, LevelView, RestingOrder};
use crate::market_events::{OrderId, Price, Quantity, Side, Timestamp};
use crate::orderbook::{
    ladder_levels, pad_levels, snapshot_spec, Level, Snapshot, EMPTY_ASK_PRICE, EMPTY_BID_PRICE,
};
use crate::ladder::side_has;
use crate::sides::{pos_ok, side_has_witness, BookSides, BookView};
use crate::text::{decimal, push_decimal, push_str};

verus! {

#[derive(Debug, Clone, Copy, PartialEq, Eq, Structural)]
pub enum OrderKind {
    Market,
    Limit { price: Price },
}

#[derive(Debug, Clone, Copy, PartialEq, Eq, Structural)]
pub enum TimeInForce {
    Gtc,
    Ioc,
    Fok,
}

#[derive(Debug, Clone, Copy, PartialEq, Eq, Structural)]
pub enum OrderRequest {
    Submit {
        ts: Timestamp,
        order_id: OrderId,
        side: Side,
        qty: Quantity,
        kind: OrderKind,
        tif: TimeInForce,
    },
    Cancel { ts: Timestamp, order_id: OrderId },
    Replace {
        ts: Timestamp,
        order_id: OrderId,
        new_qty: Quantity,
        new_price: Price,
        tif: TimeInForce,
    },
}

#[derive(Debug, Clone, Copy, PartialEq, Eq, Structural)]
pub enum ReportStatus {
    Filled,
    PartiallyFilled,
    Rested,
    Canceled,
    Replaced,
    Expired,
    Rejected,
}

/// One execution between a resting order and an incoming order.
#[derive(Debug, Clone, Copy, PartialEq, Eq, Structural)]
pub struct Fill {
    pub resting_order_id: OrderId,
    pub incoming_order_id: OrderId,
    pub price: Price,
    pub qty: Quantity,
}

#[derive(Debug, Clone, PartialEq, Eq)]
pub struct ExecutionReport {
    pub ts: Timestamp,
    pub order_id: OrderId,
    pub status: ReportStatus,
    pub filled_qty: Quantity,
    pub remaining_qty: Quantity,
    pub resting_price: Option<Price>,
    pub fills: Vec<Fill>,
    pub reason: Option<String>,
}

/// Mathematical view of an execution report.
pub struct ReportView {
    pub ts: Timestamp,
    pub order_id: OrderId,
    pub status: ReportStatus,
    pub filled_qty: Quantity,
    pub remaining_qty: Quantity,
    pub resting_price: Option<Price>,
    pub fills: Seq<Fill>,
    pub reason: Option<Seq<char>>,
}

impl View for ExecutionReport {
    type V = ReportView;

    open spec fn view(&self) -> ReportView {
        ReportView {
            ts: self.ts,
            order_id: self.order_id,
            status: self.status,
            filled_qty: self.filled_qty,
            remaining_qty: self.remaining_qty,
            resting_price: self.resting_price,
            fills: self.fills@,
            reason: match self.reason {
                Some(s) => Some(s@),
                None => None,
            },
        }
    }
}

#[derive(Debug, Clone, Copy, PartialEq, Eq, Structural)]
pub enum MatchingError {
    DuplicateOrder(OrderId),
    UnknownOrder(OrderId),
    InvalidQuantity,
    MarketOrderCannotRest,
    FokNotFillable { requested: Quantity, available: Quantity },
}

/// Human-readable text of a matching error.
pub open spec fn matching_error_text(e: MatchingError) -> Seq<char> {
    match e {
        MatchingError::DuplicateOrder(id) => "duplicate order id "@ + decimal(id as nat),
        MatchingError::UnknownOrder(id) => "unknown order id "@ + decimal(id as nat),
        MatchingError::InvalidQuantity => "quantity must be positive"@,
        MatchingError::MarketOrderCannotRest => "market orders cannot rest"@,
        MatchingError::FokNotFillable { requested, available } => "FOK order not fillable: requested "@
            + decimal(requested as nat) + ", available "@ + decimal(available as nat),
    }
}

impl MatchingError {
    /// The error's message.
    pub fn to_string(&self) -> (r: String)
        ensures
            r@ == matching_error_text(*self),
    {
        let mut s = String::new();
        match *self {
            MatchingError::DuplicateOrder(id) => {
                push_str(&mut s, "duplicate order id ");
                push_decimal(&mut s, id);
            },
            MatchingError::UnknownOrder(id) => {
                push_str(&mut s, "unknown order id ");
                push_decimal(&mut s, id);
            },
            MatchingError::InvalidQuantity => {
                push_str(&mut s, "quantity must be positive");
            },
            MatchingError::MarketOrderCannotRest => {
                push_str(&mut s, "market orders cannot rest");
            },
            MatchingError::FokNotFillable { requested, available } => {
                push_str(&mut s, "FOK order not fillable: requested ");
                push_decimal(&mut s, requested as u64);
                push_str(&mut s, ", available ");
                push_decimal(&mut s, available as u64);
            },
        }
        assert(s@ =~= matching_error_text(*self));
        s
    }
}


pub open spec fn opposite(side: Side) -> Side {
    match side {
        Side::Buy => Side::Sell,
        Side::Sell => Side::Buy,
    }
}

/// An incoming order of `side` and `kind` may trade against a resting price.
pub open spec fn matches_price(side: Side, kind: OrderKind, resting_price: Price) -> bool {
    match kind {
        OrderKind::Market => true,
        OrderKind::Limit { price } => match side {
            Side::Buy => resting_price <= price,
            Side::Sell => resting_price >= price,
        },
    }
}

/// Fills for the pieces taken from a level at `price`.
pub open spec fn fills_of(pieces: Seq<RestingOrder>, incoming: OrderId, price: Price) -> Seq<Fill> {
    pieces.map_values(
        |t: RestingOrder|
            Fill { resting_order_id: t.id, incoming_order_id: incoming, price, qty: t.qty },
    )
}

/// Price-time matching of `rem` units against the opposite side: best level
/// first, oldest order first within a level. Returns the book, the fills
/// and the quantity left unmatched.
pub open spec fn match_spec(b: BookView, incoming: OrderId, side: Side, kind: OrderKind, rem: nat) -> (
    BookView,
    Seq<Fill>,
    nat,
)
    decreases b.side(opposite(side)).len(),
{
    let os = opposite(side);
    let ls = b.side(os);
    if rem == 0 || ls.len() == 0 || !matches_price(side, kind, ls[0].price) {
        (b, Seq::empty(), rem)
    } else {
        let c = consume(ls[0].orders, rem);
        let fills = fills_of(c.1, incoming, ls[0].price);
        let left = (rem - total(c.1)) as nat;
        let b1 = b.consume_level(os, 0, rem);
        if c.0.len() == 0 {
            proof {
                assert(b1.side(os) == ls.remove(0)) by {
                    match os {
                        Side::Buy => {},
                        Side::Sell => {},
                    }
                }
            }
            let r = match_spec(b1, incoming, side, kind, left);
            (r.0, fills + r.1, r.2)
        } else {
            (b1, fills, left)
        }
    }
}

/// Sum of the quantities of a list of fills.
pub open spec fn fills_total(fs: Seq<Fill>) -> nat
    decreases fs.len(),
{
    if fs.len() == 0 {
        0
    } else {
        fills_total(fs.drop_last()) + fs.last().qty as nat
    }
}

pub proof fn lemma_fills_total_concat(a: Seq<Fill>, b: Seq<Fill>)
    ensures
        fills_total(a + b) == fills_total(a) + fills_total(b),
    decreases b.len(),
{
    if b.len() == 0 {
        assert(a + b =~= a);
    } else {
        lemma_fills_total_concat(a, b.drop_last());
        assert((a + b).drop_last() =~= a + b.drop_last());
    }
}

pub proof fn lemma_fills_of_total(pieces: Seq<RestingOrder>, incoming: OrderId, price: Price)
    ensures
        fills_total(fills_of(pieces, incoming, price)) == total(pieces),
    decreases pieces.len(),
{
    if pieces.len() > 0 {
        lemma_fills_of_total(pieces.drop_last(), incoming, price);
        assert(fills_of(pieces, incoming, price).drop_last() =~= fills_of(
            pieces.drop_last(),
            incoming,
            price,
        ));
    }
}

/// Matching never creates quantity: what the fills take plus what is left
/// is what came in.
pub proof fn lemma_match_conserves(b: BookView, incoming: OrderId, side: Side, kind: OrderKind, rem: nat)
    ensures
        ({
            let r = match_spec(b, incoming, side, kind, rem);
            &&& r.2 <= rem
            &&& fills_total(r.1) + r.2 == rem
        }),
    decreases b.side(opposite(side)).len(),
{
    let os = opposite(side);
    let ls = b.side(os);
    if rem == 0 || ls.len() == 0 || !matches_price(side, kind, ls[0].price) {
        assert(fills_total(Seq::<Fill>::empty()) == 0);
    } else {
        let c = consume(ls[0].orders, rem);
        lemma_consume_total(ls[0].orders, rem);
        lemma_fills_of_total(c.1, incoming, ls[0].price);
        let fills = fills_of(c.1, incoming, ls[0].price);
        let left = (rem - total(c.1)) as nat;
        let b1 = b.consume_level(os, 0, rem);
        if c.0.len() == 0 {
            assert(b1.side(os) == ls.remove(0)) by {
                match os {
                    Side::Buy => {},
                    Side::Sell => {},
                }
            }
            lemma_match_conserves(b1, incoming, side, kind, left);
            let r = match_spec(b1, incoming, side, kind, left);
            lemma_fills_total_concat(fills, r.1);
        }
    }
}

/// Total quantity an incoming order could trade against right now.
pub open spec fn matchable(ls: Seq<LevelView>, side: Side, kind: OrderKind) -> nat
    decreases ls.len(),
{
    if ls.len() == 0 || !matches_price(side, kind, ls[0].price) {
        0
    } else {
        total(ls[0].orders) + matchable(ls.drop_first(), side, kind)
    }
}

pub open spec fn rejected_view(ts: Timestamp, id: OrderId, e: MatchingError) -> ReportView {
    ReportView {
        ts,
        order_id: id,
        status: ReportStatus::Rejected,
        filled_qty: 0,
        remaining_qty: 0,
        resting_price: None,
        fills: Seq::empty(),
        reason: Some(matching_error_text(e)),
    }
}

pub open spec fn expired_text() -> Seq<char> {
    "unfilled quantity expired by time-in-force"@
}

/// State and report after an order submission.
pub open spec fn submit_spec(
    b: BookView,
    ts: Timestamp,
    id: OrderId,
    side: Side,
    qty: Quantity,
    kind: OrderKind,
    tif: TimeInForce,
) -> (BookView, ReportView) {
    if qty == 0 {
        (b, rejected_view(ts, id, MatchingError::InvalidQuantity))
    } else if b.has(id) {
        (b, rejected_view(ts, id, MatchingError::DuplicateOrder(id)))
    } else if kind == OrderKind::Market && tif == TimeInForce::Gtc {
        (b, rejected_view(ts, id, MatchingError::MarketOrderCannotRest))
    } else if tif == TimeInForce::Fok && sat(matchable(b.side(opposite(side)), side, kind)) < qty {
        (
            b,
            rejected_view(
                ts,
                id,
                MatchingError::FokNotFillable {
                    requested: qty,
                    available: sat(matchable(b.side(opposite(side)), side, kind)),
                },
            ),
        )
    } else {
        let (b1, fills, left) = match_spec(b, id, side, kind, qty as nat);
        let filled = (qty - left) as u32;
        if left == 0 {
            (
                b1,
                ReportView {
                    ts,
                    order_id: id,
                    status: ReportStatus::Filled,
                    filled_qty: filled,
                    remaining_qty: 0,
                    resting_price: None,
                    fills,
                    reason: None,
                },
            )
        } else {
            match (kind, tif) {
                (OrderKind::Limit { price }, TimeInForce::Gtc) => (
                    b1.insert(side, price, RestingOrder { id, qty: left as u32 }),
                    ReportView {
                        ts,
                        order_id: id,
                        status: if filled > 0 {
                            ReportStatus::PartiallyFilled
                        } else {
                            ReportStatus::Rested
                        },
                        filled_qty: filled,
                        remaining_qty: left as u32,
                        resting_price: Some(price),
                        fills,
                        reason: None,
                    },
                ),
                _ => (
                    b1,
                    ReportView {
                        ts,
                        order_id: id,
                        status: if filled > 0 {
                            ReportStatus::PartiallyFilled
                        } else {
                            ReportStatus::Expired
                        },
                        filled_qty: filled,
                        remaining_qty: left as u32,
                        resting_price: None,
                        fills,
                        reason: Some(expired_text()),
                    },
                ),
            }
        }
    }
}

/// State and report after a cancel.
pub open spec fn cancel_spec(b: BookView, ts: Timestamp, id: OrderId) -> (BookView, ReportView) {
    if b.has(id) {
        (
            b.reduce_order(id, b.order_qty(id)),
            ReportView {
                ts,
                order_id: id,
                status: ReportStatus::Canceled,
                filled_qty: 0,
                remaining_qty: b.order_qty(id),
                resting_price: Some(b.order_price(id)),
                fills: Seq::empty(),
                reason: None,
            },
        )
    } else {
        (b, rejected_view(ts, id, MatchingError::UnknownOrder(id)))
    }
}

/// State and report after a cancel/replace: the old order leaves the book
/// and the new quantity and price are submitted as a limit order.
pub open spec fn replace_spec(
    b: BookView,
    ts: Timestamp,
    id: OrderId,
    new_qty: Quantity,
    new_price: Price,
    tif: TimeInForce,
) -> (BookView, ReportView) {
    if new_qty == 0 {
        (b, rejected_view(ts, id, MatchingError::InvalidQuantity))
    } else if !b.has(id) {
        (b, rejected_view(ts, id, MatchingError::UnknownOrder(id)))
    } else {
        let (b2, r) = submit_spec(
            b.reduce_order(id, b.order_qty(id)),
            ts,
            id,
            b.order_side(id),
            new_qty,
            OrderKind::Limit { price: new_price },
            tif,
        );
        if r.status == ReportStatus::Rested {
            (b2, ReportView { status: ReportStatus::Replaced, ..r })
        } else {
            (b2, r)
        }
    }
}

pub open spec fn process_spec(b: BookView, request: OrderRequest) -> (BookView, ReportView) {
    match request {
        OrderRequest::Submit { ts, order_id, side, qty, kind, tif } => submit_spec(
            b,
            ts,
            order_id,
            side,
            qty,
            kind,
            tif,
        ),
        OrderRequest::Cancel { ts, order_id } => cancel_spec(b, ts, order_id),
        OrderRequest::Replace { ts, order_id, new_qty, new_price, tif } => replace_spec(
            b,
            ts,
            order_id,
            new_qty,
            new_price,
            tif,
        ),
    }
}


fn opposite_side(side: Side) -> (r: Side)
    ensures
        r == opposite(side),
{
    match side {
        Side::Buy => Side::Sell,
        Side::Sell => Side::Buy,
    }
}

fn price_matches(side: Side, kind: OrderKind, resting_price: Price) -> (r: bool)
    ensures
        r == matches_price(side, kind, resting_price),
{
    match kind {
        OrderKind::Market => true,
        OrderKind::Limit { price } => match side {
            Side::Buy => resting_price <= price,
            Side::Sell => resting_price >= price,
        },
    }
}

fn rejected(ts: Timestamp, order_id: OrderId, err: MatchingError) -> (r: ExecutionReport)
    ensures
        r@ == rejected_view(ts, order_id, err),
{
    ExecutionReport {
        ts,
        order_id,
        status: ReportStatus::Rejected,
        filled_qty: 0,
        remaining_qty: 0,
        resting_price: None,
        fills: Vec::new(),
        reason: Some(err.to_string()),
    }
}

fn expired_reason() -> (r: String)
    ensures
        r@ == expired_text(),
{
    let mut s = String::new();
    push_str(&mut s, "unfilled quantity expired by time-in-force");
    s
}

/// Append the fills for `pieces` taken at `price`.
fn push_fills(fills: &mut Vec<Fill>, pieces: &Vec<RestingOrder>, incoming: OrderId, price: Price)
    ensures
        final(fills)@ == old(fills)@ + fills_of(pieces@, incoming, price),
{
    let ghost start = fills@;
    let mut j: usize = 0;
    while j < pieces.len()
        invariant
            j <= pieces@.len(),
            fills@ =~= start + fills_of(pieces@.take(j as int), incoming, price),
        decreases pieces@.len() - j,
    {
        let t = pieces[j];
        fills.push(Fill { resting_order_id: t.id, incoming_order_id: incoming, price, qty: t.qty });
        assert(fills_of(pieces@.take(j + 1), incoming, price) =~= fills_of(
            pieces@.take(j as int),
            incoming,
            price,
        ).push(Fill { resting_order_id: t.id, incoming_order_id: incoming, price, qty: t.qty }));
        j = j + 1;
    }
    assert(pieces@.take(pieces@.len() as int) =~= pieces@);
}

/// Limit order book with price-time priority matching.
#[derive(Debug, Clone)]
pub struct MatchingEngine {
    sides: BookSides,
}

impl View for MatchingEngine {
    type V = BookView;

    closed spec fn view(&self) -> BookView {
        self.sides@
    }
}

impl MatchingEngine {
    /// Sorted levels, non-empty FIFO queues of positive quantities, unique
    /// ids, and an index that agrees.
    pub closed spec fn wf(&self) -> bool {
        self.sides.wf()
    }

    pub proof fn lemma_wf(&self)
        requires
            self.wf(),
        ensures
            self@.wf(),
    {
    }

    pub fn new() -> (r: Self)
        ensures
            r.wf(),
            r@ == BookView::empty(),
    {
        MatchingEngine { sides: BookSides::new() }
    }

    fn best_match_price(&self, side: Side, kind: OrderKind) -> (r: Option<Price>)
        requires
            self.wf(),
        ensures
            ({
                let ls = self@.side(opposite(side));
                r == if ls.len() > 0 && matches_price(side, kind, ls[0].price) {
                    Some(ls[0].price)
                } else {
                    None::<Price>
                }
            }),
    {
        let levels = self.sides.ladder(opposite_side(side));
        if levels.len() == 0 {
            return None;
        }
        let price = levels[0].price;
        if price_matches(side, kind, price) {
            Some(price)
        } else {
            None
        }
    }

    fn available_to_match(&self, side: Side, kind: OrderKind) -> (r: Quantity)
        requires
            self.wf(),
        ensures
            r == sat(matchable(self@.side(opposite(side)), side, kind)),
    {
        let levels = self.sides.ladder(opposite_side(side));
        let ghost ls = self@.side(opposite(side));
        let ghost mut acc: nat = 0;
        let mut available: Quantity = 0;
        let mut j: usize = 0;
        assert(ls.subrange(0, ls.len() as int) =~= ls);
        while j < levels.len()
            invariant
                ls == crate::ladder::ladder_view(levels@),
                j <= levels@.len(),
                available == sat(acc),
                matchable(ls, side, kind) == acc + matchable(ls.subrange(j as int, ls.len() as int), side, kind),
            ensures
                available == sat(matchable(ls, side, kind)),
            decreases levels@.len() - j,
        {
            let price = levels[j].price;
            let ghost rest = ls.subrange(j as int, ls.len() as int);
            assert(rest[0] == ls[j as int]);
            if !price_matches(side, kind, price) {
                break;
            }
            let q = queue_total(&levels[j].orders);
            available = available.saturating_add(q);
            assert(rest.drop_first() =~= ls.subrange(j + 1, ls.len() as int));
            proof {
                acc = acc + total(ls[j as int].orders);
            }
            j = j + 1;
        }
        proof {
            if j == levels.len() {
                assert(ls.subrange(j as int, ls.len() as int).len() == 0);
            }
        }
        available
    }

    fn match_incoming(
        &mut self,
        incoming_order_id: OrderId,
        side: Side,
        kind: OrderKind,
        remaining: &mut Quantity,
    ) -> (fills: Vec<Fill>)
        requires
            old(self).wf(),
        ensures
            final(self).wf(),
            (final(self)@, fills@, *final(remaining) as nat) == match_spec(
                old(self)@,
                incoming_order_id,
                side,
                kind,
                *old(remaining) as nat,
            ),
            forall|x: OrderId| final(self)@.has(x) ==> old(self)@.has(x),
    {
        let ghost b0 = self@;
        let ghost rem0 = *remaining as nat;
        let os = opposite_side(side);
        let mut fills: Vec<Fill> = Vec::new();
        assert(fills@ + match_spec(self@, incoming_order_id, side, kind, rem0).1 =~= match_spec(
            self@,
            incoming_order_id,
            side,
            kind,
            rem0,
        ).1);
        while *remaining > 0
            invariant
                self.wf(),
                os == opposite(side),
                ({
                    let r = match_spec(self@, incoming_order_id, side, kind, *remaining as nat);
                    match_spec(b0, incoming_order_id, side, kind, rem0) == (r.0, fills@ + r.1, r.2)
                }),
                forall|x: OrderId| self@.has(x) ==> b0.has(x),
            ensures
                self.wf(),
                match_spec(b0, incoming_order_id, side, kind, rem0) == (self@, fills@, *remaining as nat),
                forall|x: OrderId| self@.has(x) ==> b0.has(x),
            decreases self@.side(os).len(), *remaining,
        {
            let best = self.best_match_price(side, kind);
            let price = match best {
                None => {
                    assert(fills@ + Seq::<Fill>::empty() =~= fills@);
                    break;
                },
                Some(p) => p,
            };
            let ghost prev = self@;
            let ghost prev_fills = fills@;
            let ghost rem = *remaining as nat;
            let ghost ls = prev.side(os);
            let ghost c = consume(ls[0].orders, rem);
            proof {
                lemma_consume_total(ls[0].orders, rem);
            }
            let (taken, left) = self.sides.consume_level(os, 0, *remaining);
            push_fills(&mut fills, &taken, incoming_order_id, price);
            *remaining = left;
            proof {
                assert(self@ == prev.consume_level(os, 0, rem));
                assert(fills@ == prev_fills + fills_of(c.1, incoming_order_id, price));
                if c.0.len() == 0 {
                    let r = match_spec(self@, incoming_order_id, side, kind, left as nat);
                    assert(prev_fills + (fills_of(c.1, incoming_order_id, price) + r.1) =~= fills@ + r.1);
                    assert(self@.side(os) == ls.remove(0)) by {
                        match os {
                            Side::Buy => {},
                            Side::Sell => {},
                        }
                    }
                } else {
                    assert(left == 0);
                    assert(fills@ + Seq::<Fill>::empty() =~= fills@);
                    assert(self@.side(os).len() == ls.len()) by {
                        match os {
                            Side::Buy => {},
                            Side::Sell => {},
                        }
                    }
                }
            }
        }
        proof {
            if *remaining == 0 {
                assert(fills@ + Seq::<Fill>::empty() =~= fills@);
            }
        }
        fills
    }

    /// Submit a new order: validate it, match it against the opposite side
    /// and rest or expire what is left according to its time in force.
    pub fn submit(
        &mut self,
        ts: Timestamp,
        order_id: OrderId,
        side: Side,
        qty: Quantity,
        kind: OrderKind,
        tif: TimeInForce,
    ) -> (r: ExecutionReport)
        requires
            old(self).wf(),
        ensures
            final(self).wf(),
            (final(self)@, r@) == submit_spec(old(self)@, ts, order_id, side, qty, kind, tif),
    {
        if qty == 0 {
            return rejected(ts, order_id, MatchingError::InvalidQuantity);
        }
        if self.sides.contains(order_id) {
            return rejected(ts, order_id, MatchingError::DuplicateOrder(order_id));
        }
        if kind == OrderKind::Market && tif == TimeInForce::Gtc {
            return rejected(ts, order_id, MatchingError::MarketOrderCannotRest);
        }
        if tif == TimeInForce::Fok {
            let available = self.available_to_match(side, kind);
            if available < qty {
                return rejected(
                    ts,
                    order_id,
                    MatchingError::FokNotFillable { requested: qty, available },
                );
            }
        }
        let mut remaining = qty;
        let fills = self.match_incoming(order_id, side, kind, &mut remaining);
        proof {
            lemma_match_conserves(old(self)@, order_id, side, kind, qty as nat);
        }
        let filled_qty = qty - remaining;
        if remaining == 0 {
            return ExecutionReport {
                ts,
                order_id,
                status: ReportStatus::Filled,
                filled_qty,
                remaining_qty: 0,
                resting_price: None,
                fills,
                reason: None,
            };
        }
        match (kind, tif) {
            (OrderKind::Limit { price }, TimeInForce::Gtc) => {
                self.rest(order_id, side, price, remaining);
                ExecutionReport {
                    ts,
                    order_id,
                    status: if filled_qty > 0 {
                        ReportStatus::PartiallyFilled
                    } else {
                        ReportStatus::Rested
                    },
                    filled_qty,
                    remaining_qty: remaining,
                    resting_price: Some(price),
                    fills,
                    reason: None,
                }
            },
            _ => ExecutionReport {
                ts,
                order_id,
                status: if filled_qty > 0 {
                    ReportStatus::PartiallyFilled
                } else {
                    ReportStatus::Expired
                },
                filled_qty,
                remaining_qty: remaining,
                resting_price: None,
                fills,
                reason: Some(expired_reason()),
            },
        }
    }

    /// Cancel a resting order: it leaves the book and every other order
    /// stays.
    pub fn cancel(&mut self, ts: Timestamp, order_id: OrderId) -> (r: ExecutionReport)
        requires
            old(self).wf(),
        ensures
            final(self).wf(),
            (final(self)@, r@) == cancel_spec(old(self)@, ts, order_id),
            !final(self)@.has(order_id),
            forall|x: OrderId| x != order_id ==> (final(self)@.has(x) <==> old(self)@.has(x)),
    {
        match self.remove_order(order_id) {
            Some((_side, price, qty)) => ExecutionReport {
                ts,
                order_id,
                status: ReportStatus::Canceled,
                filled_qty: 0,
                remaining_qty: qty,
                resting_price: Some(price),
                fills: Vec::new(),
                reason: None,
            },
            None => rejected(ts, order_id, MatchingError::UnknownOrder(order_id)),
        }
    }

    /// Cancel a resting order and submit its replacement as a limit order
    /// on the same side.
    pub fn replace(
        &mut self,
        ts: Timestamp,
        order_id: OrderId,
        new_qty: Quantity,
        new_price: Price,
        tif: TimeInForce,
    ) -> (r: ExecutionReport)
        requires
            old(self).wf(),
        ensures
            final(self).wf(),
            (final(self)@, r@) == replace_spec(old(self)@, ts, order_id, new_qty, new_price, tif),
    {
        if new_qty == 0 {
            return rejected(ts, order_id, MatchingError::InvalidQuantity);
        }
        let old_side = match self.remove_order(order_id) {
            Some((s, _price, _qty)) => s,
            None => {
                return rejected(ts, order_id, MatchingError::UnknownOrder(order_id));
            },
        };
        let mut report = self.submit(
            ts,
            order_id,
            old_side,
            new_qty,
            OrderKind::Limit { price: new_price },
            tif,
        );
        if report.status == ReportStatus::Rested {
            report.status = ReportStatus::Replaced;
        }
        report
    }

    /// Dispatch a request to submit, cancel or replace.
    pub fn process(&mut self, request: OrderRequest) -> (r: ExecutionReport)
        requires
            old(self).wf(),
        ensures
            final(self).wf(),
            (final(self)@, r@) == process_spec(old(self)@, request),
    {
        match request {
            OrderRequest::Submit { ts, order_id, side, qty, kind, tif } => self.submit(
                ts,
                order_id,
                side,
                qty,
                kind,
                tif,
            ),
            OrderRequest::Cancel { ts, order_id } => self.cancel(ts, order_id),
            OrderRequest::Replace { ts, order_id, new_qty, new_price, tif } => self.replace(
                ts,
                order_id,
                new_qty,
                new_price,
                tif,
            ),
        }
    }

    /// The best `levels` levels of each side, padded with empty levels.
    pub fn snapshot(&self, levels: usize) -> (r: Snapshot)
        requires
            self.wf(),
        ensures
            (r.asks@, r.bids@) == snapshot_spec(self@, levels as nat),
            r.asks@.len() == levels && r.bids@.len() == levels,
    {
        let asks = ladder_levels(&self.sides.asks, levels);
        let bids = ladder_levels(&self.sides.bids, levels);
        let r = pad_snapshot(Snapshot { asks, bids }, levels);
        assert(r.asks@ =~= snapshot_spec(self@, levels as nat).0);
        assert(r.bids@ =~= snapshot_spec(self@, levels as nat).1);
        r
    }

    /// Number of orders resting in the book.
    pub fn resting_order_count(&self) -> (r: usize)
        requires
            self.wf(),
        ensures
            r == self@.order_ids().len(),
    {
        proof {
            self.sides.lemma_index_domain();
        }
        self.sides.order_count()
    }

    fn rest(&mut self, order_id: OrderId, side: Side, price: Price, qty: Quantity)
        requires
            old(self).wf(),
            !old(self)@.has(order_id),
            qty > 0,
        ensures
            final(self).wf(),
            final(self)@ == old(self)@.insert(side, price, RestingOrder { id: order_id, qty }),
    {
        self.sides.insert(side, price, RestingOrder { id: order_id, qty });
    }

    /// Take a resting order out of the book, returning its side, price and
    /// quantity.
    fn remove_order(&mut self, order_id: OrderId) -> (r: Option<(Side, Price, Quantity)>)
        requires
            old(self).wf(),
        ensures
            final(self).wf(),
            old(self)@.has(order_id) ==> {
                &&& r == Some(
                    (
                        old(self)@.order_side(order_id),
                        old(self)@.order_price(order_id),
                        old(self)@.order_qty(order_id),
                    ),
                )
                &&& final(self)@ == old(self)@.reduce_order(order_id, old(self)@.order_qty(order_id))
            },
            !old(self)@.has(order_id) ==> r.is_none() && final(self)@ == old(self)@,
            !final(self)@.has(order_id),
            forall|x: OrderId| x != order_id ==> (final(self)@.has(x) <==> old(self)@.has(x)),
    {
        match self.sides.lookup(order_id) {
            Some((s, i, k)) => {
                let price = self.sides.ladder(s)[i].price;
                let qty = self.sides.ladder(s)[i].orders[k].qty;
                let ghost before = self.sides;
                proof {
                    self.sides@.lemma_queue_ok(s, i as int);
                    let b = self.sides@;
                    assert(side_has(b.side(s), order_id)) by {
                        match s {
                            Side::Buy => {},
                            Side::Sell => {},
                        }
                    }
                    let (wi, wk) = side_has_witness(b.side(s), order_id);
                    assert(pos_ok(b.side(s), wi, wk) && b.side(s)[wi].orders[wk].id == order_id);
                    assert(b.side(s)[i as int].orders[k as int].id == order_id);
                }
                self.sides.take(s, i, k, qty);
                assert forall|x: OrderId| x != order_id implies (self@.has(x) <==> old(self)@.has(x)) by {
                    assert(self.sides.orders@.contains_key(x) == before.orders@.contains_key(x));
                }
                Some((s, price, qty))
            },
            None => None,
        }
    }
}

/// Pad each side of a snapshot with empty levels up to `levels` entries.
fn pad_snapshot(snapshot: Snapshot, levels: usize) -> (r: Snapshot)
    ensures
        snapshot.asks@.len() <= levels ==> r.asks@ == pad_levels(snapshot.asks@, levels as nat, EMPTY_ASK_PRICE),
        snapshot.bids@.len() <= levels ==> r.bids@ == pad_levels(snapshot.bids@, levels as nat, EMPTY_BID_PRICE),
        snapshot.asks@.len() > levels ==> r.asks@ == snapshot.asks@,
        snapshot.bids@.len() > levels ==> r.bids@ == snapshot.bids@,
{
    let mut s = snapshot;
    let ghost a0 = s.asks@;
    let ghost b0 = s.bids@;
    while s.asks.len() < levels
        invariant
            a0.len() <= s.asks@.len(),
            s.bids@ == b0,
            forall|j: int| 0 <= j < s.asks@.len() ==> s.asks@[j] == #[trigger] pad_levels(a0, levels as nat, EMPTY_ASK_PRICE)[j] || a0.len() > levels,
            a0.len() > levels ==> s.asks@ == a0,
            a0.len() <= levels ==> s.asks@.len() <= levels,
        decreases levels - s.asks@.len(),
    {
        s.asks.push(Level { price: EMPTY_ASK_PRICE, qty: 0 });
    }
    while s.bids.len() < levels
        invariant
            b0.len() <= s.bids@.len(),
            forall|j: int| 0 <= j < s.asks@.len() ==> s.asks@[j] == #[trigger] pad_levels(a0, levels as nat, EMPTY_ASK_PRICE)[j] || a0.len() > levels,
            a0.len() > levels ==> s.asks@ == a0,
            a0.len() <= levels ==> s.asks@.len() == levels,
            forall|j: int| 0 <= j < s.bids@.len() ==> s.bids@[j] == #[trigger] pad_levels(b0, levels as nat, EMPTY_BID_PRICE)[j] || b0.len() > levels,
            b0.len() > levels ==> s.bids@ == b0,
            b0.len() <= levels ==> s.bids@.len() <= levels,
        decreases levels - s.bids@.len(),
    {
        s.bids.push(Level { price: EMPTY_BID_PRICE, qty: 0 });
    }
    proof {
        if a0.len() <= levels {
            assert(s.asks@ =~= pad_levels(a0, levels as nat, EMPTY_ASK_PRICE));
        }
        if b0.len() <= levels {
            assert(s.bids@ =~= pad_levels(b0, levels as nat, EMPTY_BID_PRICE));
        }
    }
    s
}

impl Default for MatchingEngine {
    fn default() -> (r: Self)
        ensures
            r.wf(),
            r@ == BookView::empty(),
    {
        Self::new()
    }
}

} // verus!
