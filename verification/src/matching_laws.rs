//! Laws of price-time matching, proved over the engine's specification.
use vstd::prelude::*;
use crate::ladder::{
    better, consume, insert_pos, is_insert_pos, ladder_set_queue, lemma_consume_total,
    lemma_ladder_insert_wf, lemma_ladder_set_queue_wf, queue_ok, sat, side_has, sorted, total,
    LevelView, RestingOrder,
};
use crate::market_events::{OrderId, Price, Quantity, Side, Timestamp};
use crate::matching_engine::{
    fills_of, fills_total, lemma_match_conserves, match_spec, matchable, matches_price, opposite,
    matching_error_text, process_spec, submit_spec, OrderRequest, Fill, MatchingError, OrderKind,
    ReportStatus, TimeInForce,
};
use crate::book_laws::uncrossed;
use crate::lab::run_requests;
use crate::orderbook::{snapshot_spec, Level, EMPTY_ASK_PRICE, EMPTY_BID_PRICE};
use crate::sides::{has_witness, lemma_has_intro, BookView};

verus! {

/// What `consume` takes is a prefix of the queue, by id, in positive
/// pieces; what it leaves is still a valid queue of orders of the queue.
pub proof fn lemma_consume_pieces(q: Seq<RestingOrder>, n: nat)
    requires
        queue_ok(q),
    ensures
        ({
            let (rest, taken) = consume(q, n);
            &&& taken.len() <= q.len()
            &&& rest.len() == 0 ==> taken.len() == q.len()
            &&& forall|j: int|
                #![trigger taken[j]]
                0 <= j < taken.len() ==> taken[j].qty > 0 && taken[j].id == q[j].id
            &&& rest.len() > 0 ==> queue_ok(rest)
            &&& rest.len() <= q.len()
            &&& forall|j: int|
                #![trigger rest[j]]
                0 <= j < rest.len() ==> rest[j].id == q[j + (q.len() - rest.len())].id
        }),
    decreases q.len(),
{
    if n == 0 {

    } else if q[0].qty <= n {
        let d = q.drop_first();
        let n1 = (n - q[0].qty) as nat;
        if d.len() > 0 {
            assert forall|k: int| 0 <= k < d.len() implies #[trigger] d[k].qty > 0 by {
                assert(d[k] == q[k + 1]);
            }
            assert forall|a: int, b: int|
                #![trigger d[a], d[b]]
                0 <= a < d.len() && 0 <= b < d.len() && a != b implies d[a].id != d[b].id by {
                assert(d[a] == q[a + 1] && d[b] == q[b + 1]);
            }
            lemma_consume_pieces(d, n1);
        }
        let r = consume(d, n1);
        let taken = seq![q[0]] + r.1;
        assert forall|j: int| #![trigger taken[j]] 0 <= j < taken.len() implies taken[j].qty > 0 && taken[j].id
            == q[j].id by {
            if j > 0 {
                assert(taken[j] == r.1[j - 1]);
                assert(d[j - 1] == q[j]);
            }
        }
        assert forall|j: int| #![trigger r.0[j]] 0 <= j < r.0.len() implies r.0[j].id == q[j + (q.len()
            - r.0.len())].id by {
            assert(d[j + (d.len() - r.0.len())] == q[j + (q.len() - r.0.len())]);
        }
    } else {
        let rest = q.update(0, RestingOrder { id: q[0].id, qty: (q[0].qty - n) as u32 });
        assert forall|k: int| 0 <= k < rest.len() implies #[trigger] rest[k].qty > 0 by {
            if k != 0 {
                assert(rest[k] == q[k]);
            }
        }
        assert forall|a: int, b: int|
            #![trigger rest[a], rest[b]]
            0 <= a < rest.len() && 0 <= b < rest.len() && a != b implies rest[a].id != rest[b].id by {
            assert(rest[a].id == q[a].id && rest[b].id == q[b].id);
        }
        assert forall|j: int| #![trigger rest[j]] 0 <= j < rest.len() implies rest[j].id == q[j].id by {
            assert(rest[j].id == q[j].id);
        }
    }
}

/// The resting orders of a side in priority order: best level first,
/// oldest order first within a level.
pub open spec fn priority_orders(ls: Seq<LevelView>) -> Seq<RestingOrder>
    decreases ls.len(),
{
    if ls.len() == 0 {
        Seq::empty()
    } else {
        ls[0].orders + priority_orders(ls.drop_first())
    }
}

/// The level price of each order of `priority_orders(ls)`.
pub open spec fn priority_prices(ls: Seq<LevelView>) -> Seq<Price>
    decreases ls.len(),
{
    if ls.len() == 0 {
        Seq::empty()
    } else {
        Seq::new(ls[0].orders.len(), |k: int| ls[0].price) + priority_prices(ls.drop_first())
    }
}

pub proof fn lemma_priority_len(ls: Seq<LevelView>)
    ensures
        priority_prices(ls).len() == priority_orders(ls).len(),
    decreases ls.len(),
{
    if ls.len() > 0 {
        lemma_priority_len(ls.drop_first());
    }
}

/// Consuming the best level keeps the book well formed, adds no order,
/// and removes the level once it is empty.
pub proof fn lemma_consume_best_level(b: BookView, s: Side, n: nat)
    requires
        b.wf(),
        b.side(s).len() > 0,
    ensures
        ({
            let ls = b.side(s);
            let b1 = b.consume_level(s, 0, n);
            let rest = consume(ls[0].orders, n).0;
            &&& b1.wf()
            &&& forall|x: OrderId| #[trigger] b1.has(x) ==> b.has(x)
            &&& rest.len() == 0 ==> b1.side(s) == ls.drop_first()
            &&& b1.side(s).len() <= ls.len()
        }),
{
    let ls = b.side(s);
    b.lemma_queue_ok(s, 0);
    b.lemma_sorted(s);
    let q = ls[0].orders;
    let rest = consume(q, n).0;
    lemma_consume_pieces(q, n);
    lemma_ladder_set_queue_wf(s, ls, 0, rest);
    let nls = ladder_set_queue(ls, 0, rest);
    let b1 = b.consume_level(s, 0, n);
    assert(b1 == b.with_side(s, nls));
    assert(b1.side(s) == nls && b1.side(opposite(s)) == b.side(opposite(s))) by {
        match s {
            Side::Buy => {},
            Side::Sell => {},
        }
    }
    assert(b1.wf()) by {
        match s {
            Side::Buy => {},
            Side::Sell => {},
        }
    }
    if rest.len() == 0 {
        assert(nls =~= ls.drop_first());
    }
    assert forall|x: OrderId| #[trigger] b1.has(x) implies b.has(x) by {
        let (t, i, k) = has_witness(b1, x);
        if t == s {
            if rest.len() == 0 {
                assert(nls[i] == ls[i + 1]);
                lemma_has_intro(b, s, i + 1, k);
            } else if i == 0 {
                assert(rest[k] == nls[0].orders[k]);
                lemma_has_intro(b, s, 0, k + (q.len() - rest.len()));
            } else {
                assert(nls[i] == ls[i]);
                lemma_has_intro(b, s, i, k);
            }
        } else {
            assert(t == opposite(s)) by {
                match s {
                    Side::Buy => {},
                    Side::Sell => {},
                }
            }
            lemma_has_intro(b, t, i, k);
        }
    }
}

/// Positive fills number at most the quantity they fill.
pub proof fn lemma_fill_count(fs: Seq<Fill>)
    requires
        forall|j: int| #![trigger fs[j]] 0 <= j < fs.len() ==> fs[j].qty > 0,
    ensures
        fs.len() <= fills_total(fs),
    decreases fs.len(),
{
    if fs.len() > 0 {
        assert forall|j: int| #![trigger fs.drop_last()[j]] 0 <= j < fs.drop_last().len() implies fs.drop_last()[j].qty > 0 by {
            assert(fs.drop_last()[j] == fs[j]);
        }
        lemma_fill_count(fs.drop_last());
        assert(fs.last() == fs[fs.len() - 1]);
    }
}

/// Every fill of an incoming order trades a positive quantity of an order
/// that rested in the book, at a price the incoming order accepts; no fill
/// comes at a better price than an earlier one; the book stays well formed
/// and gains no order.
pub proof fn lemma_match_fills(b: BookView, incoming: OrderId, side: Side, kind: OrderKind, rem: nat)
    requires
        b.wf(),
    ensures
        ({
            let (b2, fills, left) = match_spec(b, incoming, side, kind, rem);
            &&& b2.wf()
            &&& forall|x: OrderId| #[trigger] b2.has(x) ==> b.has(x)
            &&& forall|j: int|
                #![trigger fills[j]]
                0 <= j < fills.len() ==> {
                    &&& fills[j].qty > 0
                    &&& fills[j].incoming_order_id == incoming
                    &&& matches_price(side, kind, fills[j].price)
                    &&& b.has(fills[j].resting_order_id)
                    &&& exists|l: int|
                        #![trigger b.side(opposite(side))[l]]
                        0 <= l < b.side(opposite(side)).len() && fills[j].price == b.side(
                            opposite(side),
                        )[l].price
                }
            &&& forall|i: int, j: int|
                0 <= i < j < fills.len() ==> !better(
                    opposite(side),
                    #[trigger] fills[j].price,
                    #[trigger] fills[i].price,
                )
            &&& fills.len() <= priority_orders(b.side(opposite(side))).len()
            &&& forall|j: int|
                #![trigger fills[j]]
                0 <= j < fills.len() ==> {
                    &&& fills[j].resting_order_id == priority_orders(b.side(opposite(side)))[j].id
                    &&& fills[j].price == priority_prices(b.side(opposite(side)))[j]
                }
        }),
    decreases b.side(opposite(side)).len(),
{
    let os = opposite(side);
    let ls = b.side(os);
    if rem == 0 || ls.len() == 0 || !matches_price(side, kind, ls[0].price) {
    } else {
        let q = ls[0].orders;
        let p0 = ls[0].price;
        let c = consume(q, rem);
        b.lemma_queue_ok(os, 0);
        b.lemma_sorted(os);
        lemma_consume_pieces(q, rem);
        lemma_consume_best_level(b, os, rem);
        let f0 = fills_of(c.1, incoming, p0);
        let left = (rem - total(c.1)) as nat;
        let b1 = b.consume_level(os, 0, rem);
        assert forall|j: int| #![trigger f0[j]] 0 <= j < f0.len() implies {
            &&& f0[j].qty > 0
            &&& f0[j].incoming_order_id == incoming
            &&& matches_price(side, kind, f0[j].price)
            &&& b.has(f0[j].resting_order_id)
            &&& f0[j].price == p0
        } by {
            assert(c.1[j].id == q[j].id);
            lemma_has_intro(b, os, 0, j);
        }
        lemma_priority_len(ls);
        lemma_priority_len(ls.drop_first());
        let po = priority_orders(ls);
        let pp = priority_prices(ls);
        assert(po == q + priority_orders(ls.drop_first()));
        assert forall|j: int| #![trigger f0[j]] 0 <= j < f0.len() implies f0[j].resting_order_id == po[j].id
            && f0[j].price == pp[j] by {
            assert(po[j] == q[j]);
            assert(pp[j] == p0);
        }
        if c.0.len() == 0 {
            lemma_match_fills(b1, incoming, side, kind, left);
            let r = match_spec(b1, incoming, side, kind, left);
            let fills = f0 + r.1;
            assert(b1.side(os) == ls.drop_first());
            assert forall|j: int| #![trigger fills[j]] 0 <= j < fills.len() implies fills[j].resting_order_id
                == po[j].id && fills[j].price == pp[j] by {
                if j < f0.len() {
                    assert(fills[j] == f0[j]);
                } else {
                    assert(fills[j] == r.1[j - f0.len()]);
                    assert(po[j] == priority_orders(ls.drop_first())[j - q.len()]);
                    assert(pp[j] == priority_prices(ls.drop_first())[j - q.len()]);
                }
            }
            assert forall|j: int| #![trigger fills[j]] 0 <= j < fills.len() implies {
                &&& fills[j].qty > 0
                &&& fills[j].incoming_order_id == incoming
                &&& matches_price(side, kind, fills[j].price)
                &&& b.has(fills[j].resting_order_id)
                &&& exists|l: int| #![trigger ls[l]] 0 <= l < ls.len() && fills[j].price == ls[l].price
            } by {
                if j < f0.len() {
                    assert(fills[j] == f0[j]);
                    assert(fills[j].price == ls[0].price);
                } else {
                    assert(fills[j] == r.1[j - f0.len()]);
                    let l = choose|l: int|
                        #![trigger b1.side(os)[l]]
                        0 <= l < b1.side(os).len() && r.1[j - f0.len()].price == b1.side(os)[l].price;
                    assert(b1.side(os)[l] == ls[l + 1]);
                }
            }
            assert forall|i: int, j: int| 0 <= i < j < fills.len() implies !better(
                os,
                #[trigger] fills[j].price,
                #[trigger] fills[i].price,
            ) by {
                if j < f0.len() {
                    assert(fills[i] == f0[i] && fills[j] == f0[j]);
                } else if i < f0.len() {
                    assert(fills[i] == f0[i]);
                    assert(fills[j] == r.1[j - f0.len()]);
                    let l = choose|l: int|
                        #![trigger b1.side(os)[l]]
                        0 <= l < b1.side(os).len() && r.1[j - f0.len()].price == b1.side(os)[l].price;
                    assert(b1.side(os)[l] == ls[l + 1]);
                    assert(better(os, ls[0].price, ls[l + 1].price));
                } else {
                    assert(fills[i] == r.1[i - f0.len()] && fills[j] == r.1[j - f0.len()]);
                }
            }
        } else {
            assert forall|j: int| #![trigger f0[j]] 0 <= j < f0.len() implies exists|l: int|
                #![trigger ls[l]]
                0 <= l < ls.len() && f0[j].price == ls[l].price by {
                assert(f0[j].price == ls[0].price);
            }
        }
    }
}

/// Every price has a place in a sorted ladder.
pub proof fn lemma_insert_pos_exists(ls: Seq<LevelView>, side: Side, price: Price)
    requires
        sorted(side, ls),
    ensures
        is_insert_pos(ls, side, price, insert_pos(ls, side, price)),
    decreases ls.len(),
{
    let w = if ls.len() == 0 {
        0
    } else {
        let d = ls.drop_last();
        assert(sorted(side, d)) by {
            assert forall|i: int, j: int| #![trigger d[i], d[j]] 0 <= i < j < d.len() implies better(
                side,
                d[i].price,
                d[j].price,
            ) by {
                assert(d[i] == ls[i] && d[j] == ls[j]);
            }
        }
        lemma_insert_pos_exists(d, side, price);
        let i1 = insert_pos(d, side, price);
        if i1 < d.len() {
            assert(d[i1] == ls[i1]);
            assert forall|j: int| 0 <= j < i1 implies better(side, #[trigger] ls[j].price, price) by {
                assert(d[j] == ls[j]);
            }
            i1
        } else if better(side, ls[ls.len() - 1].price, price) {
            assert forall|j: int| 0 <= j < ls.len() implies better(side, #[trigger] ls[j].price, price) by {
                if j < d.len() {
                    assert(d[j] == ls[j]);
                }
            }
            ls.len() as int
        } else {
            assert forall|j: int| 0 <= j < d.len() implies better(side, #[trigger] ls[j].price, price) by {
                assert(d[j] == ls[j]);
            }
            d.len() as int
        }
    };
    assert(is_insert_pos(ls, side, price, w));
}

/// A new order with a positive quantity keeps the book well formed.
pub proof fn lemma_insert_wf(b: BookView, side: Side, price: Price, order: RestingOrder)
    requires
        b.wf(),
        order.qty > 0,
        !b.has(order.id),
    ensures
        b.insert(side, price, order).wf(),
{
    b.lemma_sorted(side);
    lemma_insert_pos_exists(b.side(side), side, price);
    assert(!side_has(b.side(side), order.id)) by {
        match side {
            Side::Buy => {},
            Side::Sell => {},
        }
    }
    lemma_ladder_insert_wf(b.side(side), side, price, order);
    assert(b.insert(side, price, order).wf()) by {
        match side {
            Side::Buy => {},
            Side::Sell => {},
        }
    }
}

/// An incoming order meets at least as much liquidity as it asks for
/// whenever that much rests at prices it accepts.
pub proof fn lemma_match_fills_all(b: BookView, incoming: OrderId, side: Side, kind: OrderKind, rem: nat)
    requires
        b.wf(),
        matchable(b.side(opposite(side)), side, kind) >= rem,
    ensures
        match_spec(b, incoming, side, kind, rem).2 == 0,
    decreases b.side(opposite(side)).len(),
{
    let os = opposite(side);
    let ls = b.side(os);
    if rem > 0 {
        let q = ls[0].orders;
        let c = consume(q, rem);
        lemma_consume_total(q, rem);
        lemma_consume_best_level(b, os, rem);
        if c.0.len() == 0 {
            let b1 = b.consume_level(os, 0, rem);
            assert(ls.drop_first() == b1.side(os));
            lemma_match_fills_all(b1, incoming, side, kind, (rem - total(c.1)) as nat);
        }
    }
}

/// Submitting keeps the book well formed; a rejected order leaves it as it
/// was and trades nothing. An accepted order's filled and remaining
/// quantities add up to its quantity, its fills add up to the filled
/// quantity, and each fill is a positive trade with an order that rested in
/// the book, at a price the order accepts, never at a better price than an
/// earlier fill, so there are no more fills than filled units. Price-time
/// priority: the `j`-th fill trades the `j`-th resting order of the
/// opposite side, counting best level first and oldest order first.
pub proof fn lemma_submit_fills(
    b: BookView,
    ts: Timestamp,
    id: OrderId,
    side: Side,
    qty: Quantity,
    kind: OrderKind,
    tif: TimeInForce,
)
    requires
        b.wf(),
    ensures
        ({
            let (b2, r) = submit_spec(b, ts, id, side, qty, kind, tif);
            &&& b2.wf()
            &&& r.status == ReportStatus::Rejected ==> b2 == b && r.filled_qty == 0 && r.fills.len() == 0
            &&& r.status != ReportStatus::Rejected ==> {
                &&& r.filled_qty + r.remaining_qty == qty
                &&& fills_total(r.fills) == r.filled_qty
            }
            &&& r.fills.len() <= r.filled_qty
            &&& forall|j: int|
                #![trigger r.fills[j]]
                0 <= j < r.fills.len() ==> {
                    &&& r.fills[j].qty > 0
                    &&& r.fills[j].incoming_order_id == id
                    &&& matches_price(side, kind, r.fills[j].price)
                    &&& b.has(r.fills[j].resting_order_id)
                }
            &&& forall|i: int, j: int|
                0 <= i < j < r.fills.len() ==> !better(
                    opposite(side),
                    #[trigger] r.fills[j].price,
                    #[trigger] r.fills[i].price,
                )
            &&& forall|j: int|
                #![trigger r.fills[j]]
                0 <= j < r.fills.len() ==> {
                    &&& r.fills[j].resting_order_id == priority_orders(b.side(opposite(side)))[j].id
                    &&& r.fills[j].price == priority_prices(b.side(opposite(side)))[j]
                }
        }),
{
    let (b2, r) = submit_spec(b, ts, id, side, qty, kind, tif);
    if r.status != ReportStatus::Rejected {
        lemma_match_conserves(b, id, side, kind, qty as nat);
        lemma_match_fills(b, id, side, kind, qty as nat);
        let (b1, fills, left) = match_spec(b, id, side, kind, qty as nat);
        lemma_fill_count(fills);
        if left != 0 {
            match (kind, tif) {
                (OrderKind::Limit { price }, TimeInForce::Gtc) => {
                    lemma_insert_wf(b1, side, price, RestingOrder { id, qty: left as u32 });
                },
                _ => {},
            }
        }
    }
}

/// Fill-or-kill: the order either trades its whole quantity at once or is
/// rejected without touching the book.
pub proof fn lemma_fok_all_or_nothing(
    b: BookView,
    ts: Timestamp,
    id: OrderId,
    side: Side,
    qty: Quantity,
    kind: OrderKind,
)
    requires
        b.wf(),
    ensures
        ({
            let (b2, r) = submit_spec(b, ts, id, side, qty, kind, TimeInForce::Fok);
            ||| r.status == ReportStatus::Rejected && b2 == b
            ||| r.status == ReportStatus::Filled && r.filled_qty == qty && r.remaining_qty == 0
        }),
{
    let (b2, r) = submit_spec(b, ts, id, side, qty, kind, TimeInForce::Fok);
    if r.status != ReportStatus::Rejected {
        let m = matchable(b.side(opposite(side)), side, kind);
        assert(sat(m) >= qty);
        assert(m >= qty);
        lemma_match_fills_all(b, id, side, kind, qty as nat);
    }
}

/// Immediate-or-cancel and fill-or-kill orders never rest: a new order
/// with either time in force is not in the book after it is submitted.
pub proof fn lemma_immediate_orders_never_rest(
    b: BookView,
    ts: Timestamp,
    id: OrderId,
    side: Side,
    qty: Quantity,
    kind: OrderKind,
    tif: TimeInForce,
)
    requires
        b.wf(),
        tif != TimeInForce::Gtc,
        !b.has(id),
    ensures
        !submit_spec(b, ts, id, side, qty, kind, tif).0.has(id),
{
    lemma_match_fills(b, id, side, kind, qty as nat);
}

/// A good-till-cancel limit order that does not fill at once rests its
/// remainder on its side at its limit price.
pub proof fn lemma_gtc_remainder_rests(
    b: BookView,
    ts: Timestamp,
    id: OrderId,
    side: Side,
    qty: Quantity,
    price: Price,
)
    requires
        b.wf(),
    ensures
        ({
            let (b2, r) = submit_spec(b, ts, id, side, qty, OrderKind::Limit { price }, TimeInForce::Gtc);
            (r.status == ReportStatus::Rested || r.status == ReportStatus::PartiallyFilled) ==> {
                &&& b2.has(id)
                &&& b2.order_side(id) == side
                &&& b2.order_price(id) == price
                &&& b2.order_qty(id) == r.remaining_qty
                &&& r.resting_price == Some(price)
            }
        }),
{
    let kind = OrderKind::Limit { price };
    let (b2, r) = submit_spec(b, ts, id, side, qty, kind, TimeInForce::Gtc);
    if r.status == ReportStatus::Rested || r.status == ReportStatus::PartiallyFilled {
        lemma_match_fills(b, id, side, kind, qty as nat);
        lemma_match_conserves(b, id, side, kind, qty as nat);
        let (b1, fills, left) = match_spec(b, id, side, kind, qty as nat);
        crate::book_laws::lemma_insert_lookup(b1, side, price, RestingOrder { id, qty: left as u32 });
    }
}

/// Matching never crosses a book that was not crossed, and when it leaves
/// part of the incoming order unfilled, the opposite side has nothing left
/// at a price the order accepts.
pub proof fn lemma_match_uncrossed(b: BookView, incoming: OrderId, side: Side, kind: OrderKind, rem: nat)
    requires
        b.wf(),
        uncrossed(b),
        rem <= u32::MAX,
    ensures
        ({
            let (b1, fills, left) = match_spec(b, incoming, side, kind, rem);
            &&& uncrossed(b1)
            &&& left > 0 ==> b1.side(opposite(side)).len() == 0 || !matches_price(
                side,
                kind,
                b1.side(opposite(side))[0].price,
            )
        }),
    decreases b.side(opposite(side)).len(),
{
    let os = opposite(side);
    let ls = b.side(os);
    if rem == 0 || ls.len() == 0 || !matches_price(side, kind, ls[0].price) {
    } else {
        let q = ls[0].orders;
        let c = consume(q, rem);
        lemma_consume_total(q, rem);
        lemma_consume_best_level(b, os, rem);
        crate::book_laws::lemma_consume_level(b, os, 0, rem as u32);
        let b1 = b.consume_level(os, 0, rem);
        if c.0.len() == 0 {
            lemma_match_uncrossed(b1, incoming, side, kind, (rem - total(c.1)) as nat);
        }
    }
}

/// Accepting or rejecting a submission never crosses the book.
pub proof fn lemma_submit_uncrossed(
    b: BookView,
    ts: Timestamp,
    id: OrderId,
    side: Side,
    qty: Quantity,
    kind: OrderKind,
    tif: TimeInForce,
)
    requires
        b.wf(),
        uncrossed(b),
    ensures
        submit_spec(b, ts, id, side, qty, kind, tif).0.wf(),
        uncrossed(submit_spec(b, ts, id, side, qty, kind, tif).0),
{
    lemma_submit_fills(b, ts, id, side, qty, kind, tif);
    let (b2, r) = submit_spec(b, ts, id, side, qty, kind, tif);
    if r.status != ReportStatus::Rejected {
        lemma_match_fills(b, id, side, kind, qty as nat);
        lemma_match_uncrossed(b, id, side, kind, qty as nat);
        let (b1, fills, left) = match_spec(b, id, side, kind, qty as nat);
        if left != 0 {
            match (kind, tif) {
                (OrderKind::Limit { price }, TimeInForce::Gtc) => {
                    let o = RestingOrder { id, qty: left as u32 };
                    b1.lemma_sorted(side);
                    crate::book_laws::lemma_insert_best(b1.side(side), side, price, o);
                    assert(uncrossed(b2)) by {
                        match side {
                            Side::Buy => {},
                            Side::Sell => {},
                        }
                    }
                },
                _ => {},
            }
        }
    }
}

/// Taking a resting order out of the book keeps it well formed and
/// uncrossed.
proof fn lemma_remove_uncrossed(b: BookView, id: OrderId)
    requires
        b.wf(),
        uncrossed(b),
        b.has(id),
    ensures
        b.reduce_order(id, b.order_qty(id)).wf(),
        uncrossed(b.reduce_order(id, b.order_qty(id))),
{
    crate::book_laws::lemma_order_pos(b, id);
    b.lemma_queue_ok(b.order_side(id), b.order_pos(id).0);
    crate::book_laws::lemma_reduce_order(b, id, b.order_qty(id));
}

/// Every request the engine processes keeps its book well formed and never
/// crosses it.
pub proof fn lemma_process_keeps_uncrossed(b: BookView, request: OrderRequest)
    requires
        b.wf(),
        uncrossed(b),
    ensures
        process_spec(b, request).0.wf(),
        uncrossed(process_spec(b, request).0),
{
    match request {
        OrderRequest::Submit { ts, order_id, side, qty, kind, tif } => {
            lemma_submit_uncrossed(b, ts, order_id, side, qty, kind, tif);
        },
        OrderRequest::Cancel { ts, order_id } => {
            if b.has(order_id) {
                lemma_remove_uncrossed(b, order_id);
            }
        },
        OrderRequest::Replace { ts, order_id, new_qty, new_price, tif } => {
            if new_qty != 0 && b.has(order_id) {
                lemma_remove_uncrossed(b, order_id);
                lemma_submit_uncrossed(
                    b.reduce_order(order_id, b.order_qty(order_id)),
                    ts,
                    order_id,
                    b.order_side(order_id),
                    new_qty,
                    OrderKind::Limit { price: new_price },
                    tif,
                );
            }
        },
    }
}

/// Every book the engine can reach from a new engine is well formed and
/// uncrossed.
pub proof fn lemma_reachable_uncrossed(reqs: Seq<OrderRequest>)
    ensures
        run_requests(BookView::empty(), reqs).0.wf(),
        uncrossed(run_requests(BookView::empty(), reqs).0),
    decreases reqs.len(),
{
    if reqs.len() > 0 {
        lemma_reachable_uncrossed(reqs.drop_last());
        lemma_process_keeps_uncrossed(run_requests(BookView::empty(), reqs.drop_last()).0, reqs.last());
    }
}

proof fn lemma_total_positive(q: Seq<RestingOrder>)
    requires
        queue_ok(q),
    ensures
        total(q) > 0,
{
    crate::ladder::lemma_total_front(q);
}

/// A snapshot of a well-formed book: `n` slots per side; the real levels
/// first, at the book's level prices in order (asks strictly ascending,
/// bids strictly descending) with their positive total quantity (capped
/// at the largest `u32`); empty slots after them; and, when the book is
/// uncrossed and both sides have levels, the best bid below the best ask.
pub proof fn lemma_snapshot_shape(b: BookView, n: nat)
    requires
        b.wf(),
    ensures
        ({
            let (asks, bids) = snapshot_spec(b, n);
            &&& asks.len() == n && bids.len() == n
            &&& forall|j: int|
                0 <= j < n ==> (if j < b.asks.len() {
                    #[trigger] asks[j] == Level { price: b.asks[j].price, qty: sat(total(b.asks[j].orders)) }
                        && asks[j].qty > 0
                } else {
                    asks[j] == Level { price: EMPTY_ASK_PRICE, qty: 0 }
                })
            &&& forall|j: int|
                0 <= j < n ==> (if j < b.bids.len() {
                    #[trigger] bids[j] == Level { price: b.bids[j].price, qty: sat(total(b.bids[j].orders)) }
                        && bids[j].qty > 0
                } else {
                    bids[j] == Level { price: EMPTY_BID_PRICE, qty: 0 }
                })
            &&& forall|i: int, j: int|
                0 <= i < j < n && j < b.asks.len() ==> #[trigger] asks[i].price < #[trigger] asks[j].price
            &&& forall|i: int, j: int|
                0 <= i < j < n && j < b.bids.len() ==> #[trigger] bids[i].price > #[trigger] bids[j].price
            &&& uncrossed(b) && n > 0 && b.asks.len() > 0 && b.bids.len() > 0 ==> bids[0].price < asks[0].price
        }),
{
    let (asks, bids) = snapshot_spec(b, n);
    b.lemma_sorted(Side::Sell);
    b.lemma_sorted(Side::Buy);
    assert forall|j: int| 0 <= j < n && j < b.asks.len() implies asks[j].qty > 0 by {
        b.lemma_queue_ok(Side::Sell, j);
        lemma_total_positive(b.asks[j].orders);
    }
    assert forall|j: int| 0 <= j < n && j < b.bids.len() implies bids[j].qty > 0 by {
        b.lemma_queue_ok(Side::Buy, j);
        lemma_total_positive(b.bids[j].orders);
    }
    assert forall|i: int, j: int| 0 <= i < j < n && j < b.asks.len() implies #[trigger] asks[i].price
        < #[trigger] asks[j].price by {
        assert(better(Side::Sell, b.asks[i].price, b.asks[j].price));
    }
    assert forall|i: int, j: int| 0 <= i < j < n && j < b.bids.len() implies #[trigger] bids[i].price
        > #[trigger] bids[j].price by {
        assert(better(Side::Buy, b.bids[i].price, b.bids[j].price));
    }
}

/// Total resting quantity of a ladder, every level counted.
pub open spec fn ladder_volume(ls: Seq<LevelView>) -> nat
    decreases ls.len(),
{
    if ls.len() == 0 {
        0
    } else {
        total(ls[0].orders) + ladder_volume(ls.drop_first())
    }
}

/// A market order accepts every resting price, so all of the opposite
/// side's volume is within its reach.
proof fn lemma_market_reaches_all(ls: Seq<LevelView>, side: Side)
    ensures
        matchable(ls, side, OrderKind::Market) == ladder_volume(ls),
    decreases ls.len(),
{
    if ls.len() > 0 {
        lemma_market_reaches_all(ls.drop_first(), side);
    }
}

/// A market order with immediate-or-cancel or fill-or-kill time in force,
/// a fresh id and a positive quantity no larger than the volume resting on
/// the opposite side is accepted and fills completely at once: status
/// `Filled`, its whole quantity filled, nothing remaining, no reason given,
/// and fills adding up to its quantity.
pub proof fn lemma_liquid_market_order_fills(
    b: BookView,
    ts: Timestamp,
    id: OrderId,
    side: Side,
    qty: Quantity,
    tif: TimeInForce,
)
    requires
        b.wf(),
        tif != TimeInForce::Gtc,
        0 < qty,
        !b.has(id),
        qty <= ladder_volume(b.side(opposite(side))),
    ensures
        ({
            let (b2, r) = submit_spec(b, ts, id, side, qty, OrderKind::Market, tif);
            &&& r.status == ReportStatus::Filled
            &&& r.filled_qty == qty
            &&& r.remaining_qty == 0
            &&& r.reason is None
            &&& fills_total(r.fills) == qty
        }),
{
    let kind = OrderKind::Market;
    lemma_market_reaches_all(b.side(opposite(side)), side);
    lemma_match_fills_all(b, id, side, kind, qty as nat);
    lemma_submit_fills(b, ts, id, side, qty, kind, tif);
}

/// How much of `rem` price-time matching leaves unfilled: nothing when the
/// liquidity at acceptable prices covers it, else exactly the shortfall.
proof fn lemma_match_left(b: BookView, incoming: OrderId, side: Side, kind: OrderKind, rem: nat)
    requires
        b.wf(),
    ensures
        ({
            let m = matchable(b.side(opposite(side)), side, kind);
            match_spec(b, incoming, side, kind, rem).2 == if rem <= m {
                0
            } else {
                (rem - m) as nat
            }
        }),
    decreases b.side(opposite(side)).len(),
{
    let os = opposite(side);
    let ls = b.side(os);
    if rem > 0 && ls.len() > 0 && matches_price(side, kind, ls[0].price) {
        let q = ls[0].orders;
        let c = consume(q, rem);
        lemma_consume_total(q, rem);
        lemma_consume_best_level(b, os, rem);
        if c.0.len() == 0 {
            let b1 = b.consume_level(os, 0, rem);
            assert(ls.drop_first() == b1.side(os));
            lemma_match_left(b1, incoming, side, kind, (rem - total(c.1)) as nat);
        }
    }
}

/// An immediate-or-cancel order with a fresh id and a positive quantity
/// trades at once all it can, up to its quantity, against what rests at
/// prices it accepts, and lets the rest expire: its filled quantity is the
/// smaller of its quantity and that liquidity, the rest is reported as
/// remaining, the status is `Filled`, `PartiallyFilled` or `Expired` as all,
/// some or none of it traded, and it never rests in the book.
pub proof fn lemma_ioc_takes_what_it_can(
    b: BookView,
    ts: Timestamp,
    id: OrderId,
    side: Side,
    qty: Quantity,
    kind: OrderKind,
)
    requires
        b.wf(),
        0 < qty,
        !b.has(id),
    ensures
        ({
            let (b2, r) = submit_spec(b, ts, id, side, qty, kind, TimeInForce::Ioc);
            let avail = matchable(b.side(opposite(side)), side, kind);
            let filled = if qty <= avail {
                qty as nat
            } else {
                avail
            };
            &&& r.filled_qty == filled
            &&& r.remaining_qty == qty - filled
            &&& fills_total(r.fills) == filled
            &&& r.status == if filled == qty {
                ReportStatus::Filled
            } else if filled > 0 {
                ReportStatus::PartiallyFilled
            } else {
                ReportStatus::Expired
            }
            &&& !b2.has(id)
        }),
{
    lemma_match_left(b, id, side, kind, qty as nat);
    lemma_submit_fills(b, ts, id, side, qty, kind, TimeInForce::Ioc);
    lemma_immediate_orders_never_rest(b, ts, id, side, qty, kind, TimeInForce::Ioc);
}

/// A fill-or-kill order with a fresh id and a positive quantity fills
/// completely when what rests at prices it accepts covers its quantity, and
/// otherwise is rejected as not fillable, naming the quantity asked for and
/// the liquidity available, with the book untouched.
pub proof fn lemma_fok_decides_by_liquidity(
    b: BookView,
    ts: Timestamp,
    id: OrderId,
    side: Side,
    qty: Quantity,
    kind: OrderKind,
)
    requires
        b.wf(),
        0 < qty,
        !b.has(id),
    ensures
        ({
            let (b2, r) = submit_spec(b, ts, id, side, qty, kind, TimeInForce::Fok);
            let avail = matchable(b.side(opposite(side)), side, kind);
            &&& qty <= avail ==> {
                &&& r.status == ReportStatus::Filled
                &&& r.filled_qty == qty
                &&& r.remaining_qty == 0
                &&& fills_total(r.fills) == qty
            }
            &&& qty > avail ==> {
                &&& r.status == ReportStatus::Rejected
                &&& b2 == b
                &&& r.reason == Some(
                    matching_error_text(
                        MatchingError::FokNotFillable { requested: qty, available: sat(avail) },
                    ),
                )
            }
        }),
{
    lemma_match_left(b, id, side, kind, qty as nat);
    lemma_submit_fills(b, ts, id, side, qty, kind, TimeInForce::Fok);
}

} // verus!
