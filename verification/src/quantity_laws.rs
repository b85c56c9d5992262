//! Conservation of resting quantity: matching moves exactly the filled
//! quantity out of the book, and each book event changes the resting
//! quantity by exactly the quantity it names.
use vstd::prelude::*;
use crate::ladder::{
    consume, insert_pos, ladder_insert, ladder_set_queue, lemma_consume_total, lemma_total_concat,
    queue_reduce, total, LevelView, RestingOrder,
};
use crate::market_events::{MarketEvent, OrderId, Price, Quantity, Side, Timestamp};
use crate::matching_engine::{
    fills_of, fills_total, lemma_fills_of_total, lemma_fills_total_concat, match_spec, opposite,
    submit_spec, OrderKind, TimeInForce,
};
use crate::matching_laws::{lemma_consume_best_level, lemma_insert_pos_exists, lemma_match_fills};
use crate::orderbook::apply_spec;
use crate::sides::BookView;

verus! {

/// Resting quantity of a side.
pub open spec fn side_total(ls: Seq<LevelView>) -> nat
    decreases ls.len(),
{
    if ls.len() == 0 {
        0
    } else {
        total(ls[0].orders) + side_total(ls.drop_first())
    }
}

/// Resting quantity of the whole book.
pub open spec fn book_total(b: BookView) -> nat {
    side_total(b.bids) + side_total(b.asks)
}

proof fn lemma_total_single(o: RestingOrder)
    ensures
        total(seq![o]) == o.qty,
{
    assert(seq![o].drop_last() =~= Seq::<RestingOrder>::empty());
    assert(total(Seq::<RestingOrder>::empty()) == 0);
    assert(seq![o].last() == o);
}

proof fn lemma_total_update(q: Seq<RestingOrder>, k: int, o: RestingOrder)
    requires
        0 <= k < q.len(),
    ensures
        total(q.update(k, o)) == total(q) - q[k].qty + o.qty,
{
    let a = q.take(k);
    let c = q.skip(k + 1);
    assert(q =~= a + seq![q[k]] + c);
    assert(q.update(k, o) =~= a + seq![o] + c);
    lemma_total_concat(a + seq![q[k]], c);
    lemma_total_concat(a, seq![q[k]]);
    lemma_total_concat(a + seq![o], c);
    lemma_total_concat(a, seq![o]);
    lemma_total_single(q[k]);
    lemma_total_single(o);
}

proof fn lemma_total_remove(q: Seq<RestingOrder>, k: int)
    requires
        0 <= k < q.len(),
    ensures
        total(q.remove(k)) == total(q) - q[k].qty,
{
    let a = q.take(k);
    let c = q.skip(k + 1);
    assert(q =~= a + seq![q[k]] + c);
    assert(q.remove(k) =~= a + c);
    lemma_total_concat(a + seq![q[k]], c);
    lemma_total_concat(a, seq![q[k]]);
    lemma_total_concat(a, c);
    lemma_total_single(q[k]);
}

/// Taking `qty` from one order of a queue takes exactly `qty` from it.
pub proof fn lemma_queue_reduce_total(q: Seq<RestingOrder>, k: int, qty: Quantity)
    requires
        0 <= k < q.len(),
        qty <= q[k].qty,
    ensures
        total(queue_reduce(q, k, qty)) == total(q) - qty,
{
    if q[k].qty == qty {
        lemma_total_remove(q, k);
    } else {
        lemma_total_update(q, k, RestingOrder { id: q[k].id, qty: (q[k].qty - qty) as u32 });
    }
}

proof fn lemma_side_total_concat(a: Seq<LevelView>, b: Seq<LevelView>)
    ensures
        side_total(a + b) == side_total(a) + side_total(b),
    decreases a.len(),
{
    if a.len() > 0 {
        lemma_side_total_concat(a.drop_first(), b);
        assert((a + b).drop_first() =~= a.drop_first() + b);
        assert((a + b)[0] == a[0]);
    } else {
        assert(a + b =~= b);
    }
}

proof fn lemma_side_total_single(l: LevelView)
    ensures
        side_total(seq![l]) == total(l.orders),
{
    assert(seq![l].drop_first() =~= Seq::<LevelView>::empty());
    assert(side_total(Seq::<LevelView>::empty()) == 0);
    assert(seq![l][0] == l);
}

/// Replacing the queue of level `i` changes the side's quantity by the
/// difference of the two queues.
pub proof fn lemma_set_queue_total(ls: Seq<LevelView>, i: int, nq: Seq<RestingOrder>)
    requires
        0 <= i < ls.len(),
    ensures
        side_total(ladder_set_queue(ls, i, nq)) == side_total(ls) - total(ls[i].orders) + total(nq),
{
    let a = ls.take(i);
    let c = ls.skip(i + 1);
    assert(ls =~= a + seq![ls[i]] + c);
    lemma_side_total_concat(a + seq![ls[i]], c);
    lemma_side_total_concat(a, seq![ls[i]]);
    lemma_side_total_single(ls[i]);
    lemma_side_total_concat(a, c);
    if nq.len() == 0 {
        assert(ladder_set_queue(ls, i, nq) =~= a + c);
        assert(total(nq) == 0);
    } else {
        let l = LevelView { price: ls[i].price, orders: nq };
        assert(ladder_set_queue(ls, i, nq) =~= a + seq![l] + c);
        lemma_side_total_concat(a + seq![l], c);
        lemma_side_total_concat(a, seq![l]);
        lemma_side_total_single(l);
    }
}

/// A new order adds exactly its quantity to its side.
pub proof fn lemma_insert_total(ls: Seq<LevelView>, side: Side, price: Price, o: RestingOrder)
    requires
        crate::ladder::sorted(side, ls),
    ensures
        side_total(ladder_insert(ls, side, price, o)) == side_total(ls) + o.qty,
{
    lemma_insert_pos_exists(ls, side, price);
    let i = insert_pos(ls, side, price);
    if i < ls.len() && ls[i].price == price {
        let q = ls[i].orders;
        assert(q.push(o).drop_last() =~= q);
        lemma_set_queue_total(ls, i, q.push(o));
        assert(ladder_insert(ls, side, price, o) == ladder_set_queue(ls, i, q.push(o)));
    } else {
        let l = LevelView { price, orders: seq![o] };
        let a = ls.take(i);
        let c = ls.skip(i);
        assert(ls =~= a + c);
        assert(ladder_insert(ls, side, price, o) =~= a + seq![l] + c);
        lemma_side_total_concat(a, c);
        lemma_side_total_concat(a + seq![l], c);
        lemma_side_total_concat(a, seq![l]);
        lemma_side_total_single(l);
        lemma_total_single(o);
    }
}

/// Matching removes from the opposite side exactly what its fills trade
/// and leaves the incoming order's side alone.
pub proof fn lemma_match_moves_filled_quantity(
    b: BookView,
    incoming: OrderId,
    side: Side,
    kind: OrderKind,
    rem: nat,
)
    requires
        b.wf(),
    ensures
        ({
            let (b1, fills, left) = match_spec(b, incoming, side, kind, rem);
            &&& side_total(b1.side(opposite(side))) + fills_total(fills) == side_total(
                b.side(opposite(side)),
            )
            &&& b1.side(side) == b.side(side)
        }),
    decreases b.side(opposite(side)).len(),
{
    let os = opposite(side);
    let ls = b.side(os);
    let (b1, fills, left) = match_spec(b, incoming, side, kind, rem);
    if rem == 0 || ls.len() == 0 || !crate::matching_engine::matches_price(side, kind, ls[0].price) {
        assert(fills_total(fills) == 0);
    } else {
        let q = ls[0].orders;
        let c = consume(q, rem);
        lemma_consume_total(q, rem);
        lemma_consume_best_level(b, os, rem);
        lemma_fills_of_total(c.1, incoming, ls[0].price);
        let f0 = fills_of(c.1, incoming, ls[0].price);
        let bl = b.consume_level(os, 0, rem);
        lemma_set_queue_total(ls, 0, c.0);
        assert(bl.side(os) == ladder_set_queue(ls, 0, c.0) && bl.side(side) == b.side(side)) by {
            match side {
                Side::Buy => {},
                Side::Sell => {},
            }
        }
        if c.0.len() == 0 {
            let left0 = (rem - total(c.1)) as nat;
            lemma_match_moves_filled_quantity(bl, incoming, side, kind, left0);
            let r = match_spec(bl, incoming, side, kind, left0);
            lemma_fills_total_concat(f0, r.1);
        }
    }
}

/// Submitting an order trades exactly the filled quantity out of the
/// opposite side and adds to its own side exactly the remainder that rests
/// (nothing when no remainder rests).
pub proof fn lemma_submit_conserves(
    b: BookView,
    ts: Timestamp,
    id: OrderId,
    side: Side,
    qty: Quantity,
    kind: OrderKind,
    tif: TimeInForce,
)
    requires
        b.wf(),
    ensures
        ({
            let (b2, r) = submit_spec(b, ts, id, side, qty, kind, tif);
            &&& side_total(b2.side(opposite(side))) + r.filled_qty == side_total(b.side(opposite(side)))
            &&& side_total(b2.side(side)) == side_total(b.side(side)) + if r.resting_price is Some {
                r.remaining_qty as nat
            } else {
                0
            }
        }),
{
    let (b2, r) = submit_spec(b, ts, id, side, qty, kind, tif);
    if r.status != crate::matching_engine::ReportStatus::Rejected {
        crate::matching_engine::lemma_match_conserves(b, id, side, kind, qty as nat);
        lemma_match_moves_filled_quantity(b, id, side, kind, qty as nat);
        lemma_match_fills(b, id, side, kind, qty as nat);
        let (b1, fills, left) = match_spec(b, id, side, kind, qty as nat);
        if left != 0 {
            match (kind, tif) {
                (OrderKind::Limit { price }, TimeInForce::Gtc) => {
                    let o = RestingOrder { id, qty: left as u32 };
                    b1.lemma_sorted(side);
                    lemma_insert_total(b1.side(side), side, price, o);
                    assert(b2.side(side) == ladder_insert(b1.side(side), side, price, o)
                        && b2.side(opposite(side)) == b1.side(opposite(side))) by {
                        match side {
                            Side::Buy => {},
                            Side::Sell => {},
                        }
                    }
                },
                _ => {},
            }
        }
    }
}

/// The quantity an accepted book event adds to (positive) or takes from
/// (negative) the resting book.
pub open spec fn event_delta(b: BookView, e: MarketEvent) -> int {
    match e {
        MarketEvent::AddLimit { qty, .. } => qty as int,
        MarketEvent::PartialCancel { qty, .. } => -qty,
        MarketEvent::FullDelete { order_id, .. } => -b.order_qty(order_id),
        MarketEvent::VisibleExecution { qty, .. } => -qty,
        MarketEvent::HiddenExecution { .. } => 0,
        MarketEvent::TradingHalt { .. } => 0,
    }
}

proof fn lemma_reduce_order_total(b: BookView, id: OrderId, qty: Quantity)
    requires
        b.wf(),
        b.has(id),
        qty <= b.order_qty(id),
    ensures
        book_total(b.reduce_order(id, qty)) == book_total(b) - qty,
{
    crate::book_laws::lemma_order_pos(b, id);
    let s = b.order_side(id);
    let (i, k) = b.order_pos(id);
    let ls = b.side(s);
    lemma_queue_reduce_total(ls[i].orders, k, qty);
    lemma_set_queue_total(ls, i, queue_reduce(ls[i].orders, k, qty));
    assert(book_total(b.reduce_order(id, qty)) == book_total(b) - qty) by {
        match s {
            Side::Buy => {},
            Side::Sell => {},
        }
    }
}

/// An accepted event changes the resting quantity of the book by exactly
/// the quantity it names; a rejected one changes nothing.
pub proof fn lemma_apply_moves_named_quantity(b: BookView, e: MarketEvent)
    requires
        b.wf(),
    ensures
        apply_spec(b, e).0 is Ok ==> book_total(apply_spec(b, e).1) == book_total(b) + event_delta(b, e),
        apply_spec(b, e).0 is Err ==> apply_spec(b, e).1 == b,
{
    if apply_spec(b, e).0 is Ok {
        match e {
            MarketEvent::AddLimit { order_id, side, price, qty, .. } => {
                let o = RestingOrder { id: order_id, qty };
                b.lemma_sorted(side);
                lemma_insert_total(b.side(side), side, price, o);
                assert(book_total(b.insert(side, price, o)) == book_total(b) + qty) by {
                    match side {
                        Side::Buy => {},
                        Side::Sell => {},
                    }
                }
            },
            MarketEvent::PartialCancel { order_id, qty, .. } => {
                lemma_reduce_order_total(b, order_id, qty);
            },
            MarketEvent::FullDelete { order_id, .. } => {
                lemma_reduce_order_total(b, order_id, b.order_qty(order_id));
            },
            MarketEvent::VisibleExecution { order_id, qty, .. } => {
                lemma_reduce_order_total(b, order_id, qty);
            },
            _ => {},
        }
    }
}

} // verus!
