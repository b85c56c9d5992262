//! Laws of the replay order book, proved over its specification.
use vstd::prelude::*;
use crate::ladder::{
    is_insert_pos, total,
    better, consume, has_level, insert_pos, ladder_insert, ladder_set_queue, level_at,
    lemma_ladder_set_queue_wf, lemma_queue_reduce_ok, queue_reduce, side_has, sorted, LevelView,
    RestingOrder,
};
use crate::market_events::{MarketEvent, OrderId, Price, Quantity, Side};
use crate::matching_laws::{lemma_consume_pieces, lemma_insert_pos_exists, lemma_insert_wf};
use crate::orderbook::{
    from_snapshot_spec, ladder_summaries, level_summary, pad_levels, seed_levels, snapshot_view, Level,
    SnapshotView, EMPTY_ASK_PRICE, EMPTY_BID_PRICE,
    add_limit_spec, apply_lobster_delta_spec, apply_spec, crossing, full_delete_spec,
    reduce_aggregate_spec,
};
use crate::replay_engine::{replay_lobster_spec, replay_spec};
use crate::matching_engine::opposite;
use crate::sides::{pos_ok, side_has_witness, BookView};

verus! {

/// The best bid is below the best ask (or a side is empty).
pub open spec fn uncrossed(b: BookView) -> bool {
    b.bids.len() == 0 || b.asks.len() == 0 || b.bids[0].price < b.asks[0].price
}

/// Replacing the queue of one level never improves the side's best price.
pub proof fn lemma_set_queue_best(side: Side, ls: Seq<LevelView>, i: int, nq: Seq<RestingOrder>)
    requires
        sorted(side, ls),
        0 <= i < ls.len(),
    ensures
        ({
            let r = ladder_set_queue(ls, i, nq);
            r.len() > 0 ==> r[0].price == ls[0].price || better(side, ls[0].price, r[0].price)
        }),
{
    let r = ladder_set_queue(ls, i, nq);
    if nq.len() == 0 && r.len() > 0 {
        if i == 0 {
            assert(r[0] == ls[1]);
        } else {
            assert(r[0] == ls[0]);
        }
    }
}

/// A new order either sets the side's best price or leaves it as it was.
pub proof fn lemma_insert_best(ls: Seq<LevelView>, side: Side, price: Price, order: RestingOrder)
    requires
        sorted(side, ls),
    ensures
        ({
            let r = ladder_insert(ls, side, price, order);
            &&& r.len() > 0
            &&& r[0].price == price || (ls.len() > 0 && r[0].price == ls[0].price)
        }),
{
    lemma_insert_pos_exists(ls, side, price);
}

/// The position the book records for a resting order holds that order.
pub proof fn lemma_order_pos(b: BookView, id: OrderId)
    requires
        b.has(id),
    ensures
        ({
            let (i, k) = b.order_pos(id);
            &&& pos_ok(b.side(b.order_side(id)), i, k)
            &&& b.side(b.order_side(id))[i].orders[k].id == id
        }),
{
    let s = b.order_side(id);
    assert(side_has(b.side(s), id)) by {
        match s {
            Side::Buy => {},
            Side::Sell => {},
        }
    }
    let (wi, wk) = side_has_witness(b.side(s), id);
    assert(pos_ok(b.side(s), wi, wk) && b.side(s)[wi].orders[wk].id == id);
}

/// Taking part or all of a resting order keeps the book well formed and
/// never improves either side's best price.
pub proof fn lemma_reduce_order(b: BookView, id: OrderId, qty: Quantity)
    requires
        b.wf(),
        b.has(id),
        0 < qty <= b.order_qty(id),
    ensures
        b.reduce_order(id, qty).wf(),
        uncrossed(b) ==> uncrossed(b.reduce_order(id, qty)),
{
    lemma_order_pos(b, id);
    let s = b.order_side(id);
    let (i, k) = b.order_pos(id);
    let ls = b.side(s);
    b.lemma_sorted(s);
    b.lemma_queue_ok(s, i);
    lemma_queue_reduce_ok(ls[i].orders, k, qty);
    let nq = queue_reduce(ls[i].orders, k, qty);
    lemma_ladder_set_queue_wf(s, ls, i, nq);
    lemma_set_queue_best(s, ls, i, nq);
    assert(b.reduce_order(id, qty).wf() && (uncrossed(b) ==> uncrossed(b.reduce_order(id, qty)))) by {
        match s {
            Side::Buy => {},
            Side::Sell => {},
        }
    }
}

/// Consuming a level anonymously keeps the book well formed and never
/// improves either side's best price.
pub proof fn lemma_consume_level(b: BookView, s: Side, i: int, qty: Quantity)
    requires
        b.wf(),
        0 <= i < b.side(s).len(),
    ensures
        b.consume_level(s, i, qty as nat).wf(),
        uncrossed(b) ==> uncrossed(b.consume_level(s, i, qty as nat)),
{
    let ls = b.side(s);
    b.lemma_sorted(s);
    b.lemma_queue_ok(s, i);
    lemma_consume_pieces(ls[i].orders, qty as nat);
    let nq = consume(ls[i].orders, qty as nat).0;
    lemma_ladder_set_queue_wf(s, ls, i, nq);
    lemma_set_queue_best(s, ls, i, nq);
    assert(b.consume_level(s, i, qty as nat).wf() && (uncrossed(b) ==> uncrossed(
        b.consume_level(s, i, qty as nat),
    ))) by {
        match s {
            Side::Buy => {},
            Side::Sell => {},
        }
    }
}

proof fn lemma_add_limit(b: BookView, id: OrderId, side: Side, price: Price, qty: Quantity)
    requires
        b.wf(),
    ensures
        add_limit_spec(b, id, side, price, qty).1.wf(),
        uncrossed(b) ==> uncrossed(add_limit_spec(b, id, side, price, qty).1),
{
    if qty > 0 && !b.has(id) && crossing(b, side, price) is None {
        let o = RestingOrder { id, qty };
        lemma_insert_wf(b, side, price, o);
        b.lemma_sorted(side);
        lemma_insert_best(b.side(side), side, price, o);
        assert(uncrossed(b) ==> uncrossed(b.insert(side, price, o))) by {
            match side {
                Side::Buy => {},
                Side::Sell => {},
            }
        }
    }
}

proof fn lemma_reduce_aggregate(b: BookView, side: Side, price: Price, qty: Quantity)
    requires
        b.wf(),
    ensures
        reduce_aggregate_spec(b, side, price, qty).1.wf(),
        uncrossed(b) ==> uncrossed(reduce_aggregate_spec(b, side, price, qty).1),
{
    if qty > 0 && has_level(b.side(side), price) {
        let i = level_at(b.side(side), price);
        lemma_consume_level(b, side, i, qty);
    }
}

/// Applying an event keeps the book well formed, and a book that is not
/// crossed stays uncrossed whether the event is accepted or rejected.
pub proof fn lemma_apply_keeps_uncrossed(b: BookView, e: MarketEvent)
    requires
        b.wf(),
    ensures
        apply_spec(b, e).1.wf(),
        uncrossed(b) ==> uncrossed(apply_spec(b, e).1),
{
    match e {
        MarketEvent::AddLimit { order_id, side, price, qty, .. } => {
            lemma_add_limit(b, order_id, side, price, qty);
        },
        MarketEvent::PartialCancel { order_id, qty, .. } => {
            if qty > 0 && b.has(order_id) && qty <= b.order_qty(order_id) {
                lemma_reduce_order(b, order_id, qty);
            }
        },
        MarketEvent::FullDelete { order_id, .. } => {
            if b.has(order_id) {
                lemma_order_pos(b, order_id);
                b.lemma_queue_ok(b.order_side(order_id), b.order_pos(order_id).0);
                lemma_reduce_order(b, order_id, b.order_qty(order_id));
            }
        },
        MarketEvent::VisibleExecution { order_id, qty, .. } => {
            if qty > 0 && b.has(order_id) && qty <= b.order_qty(order_id) {
                lemma_reduce_order(b, order_id, qty);
            }
        },
        _ => {},
    }
}

/// As `lemma_apply_keeps_uncrossed`, for LOBSTER deltas.
pub proof fn lemma_lobster_delta_keeps_uncrossed(b: BookView, e: MarketEvent)
    requires
        b.wf(),
    ensures
        apply_lobster_delta_spec(b, e).1.wf(),
        uncrossed(b) ==> uncrossed(apply_lobster_delta_spec(b, e).1),
{
    lemma_apply_keeps_uncrossed(b, e);
    match e {
        MarketEvent::PartialCancel { side, price, qty, .. } => {
            lemma_reduce_aggregate(b, side, price, qty);
        },
        MarketEvent::FullDelete { side, price, qty, .. } => {
            lemma_reduce_aggregate(b, side, price, qty);
        },
        MarketEvent::VisibleExecution { side, price, qty, .. } => {
            lemma_reduce_aggregate(b, side, price, qty);
        },
        _ => {},
    }
}

/// Replaying events keeps the book well formed and never crosses a book
/// that starts uncrossed.
pub proof fn lemma_replay_keeps_uncrossed(b: BookView, events: Seq<MarketEvent>)
    requires
        b.wf(),
    ensures
        replay_spec(b, events).1.wf(),
        uncrossed(b) ==> uncrossed(replay_spec(b, events).1),
    decreases events.len(),
{
    if events.len() > 0 {
        lemma_apply_keeps_uncrossed(b, events[0]);
        lemma_replay_keeps_uncrossed(apply_spec(b, events[0]).1, events.drop_first());
    }
}

/// As `lemma_replay_keeps_uncrossed`, for LOBSTER deltas.
pub proof fn lemma_lobster_replay_keeps_uncrossed(b: BookView, events: Seq<MarketEvent>)
    requires
        b.wf(),
    ensures
        replay_lobster_spec(b, events).1.wf(),
        uncrossed(b) ==> uncrossed(replay_lobster_spec(b, events).1),
    decreases events.len(),
{
    if events.len() > 0 {
        lemma_lobster_delta_keeps_uncrossed(b, events[0]);
        lemma_lobster_replay_keeps_uncrossed(
            apply_lobster_delta_spec(b, events[0]).1,
            events.drop_first(),
        );
    }
}

/// A rejected event leaves the book exactly as it was.
pub proof fn lemma_rejected_event_keeps_book(b: BookView, e: MarketEvent)
    ensures
        apply_spec(b, e).0 is Err ==> apply_spec(b, e).1 == b,
        apply_lobster_delta_spec(b, e).0 is Err ==> apply_lobster_delta_spec(b, e).1 == b,
{
}

/// Where a new order lands: the level `insert_pos` of its side, at the
/// back of the queue when a level at its price already exists.
pub open spec fn landing(ls: Seq<LevelView>, side: Side, price: Price) -> (int, int) {
    let i0 = insert_pos(ls, side, price);
    if i0 < ls.len() && ls[i0].price == price {
        (i0, ls[i0].orders.len() as int)
    } else {
        (i0, 0)
    }
}

/// A new order is found where it landed: on its side, at its price, with
/// its quantity.
pub proof fn lemma_insert_lookup(b: BookView, side: Side, price: Price, o: RestingOrder)
    requires
        b.wf(),
        !b.has(o.id),
    ensures
        ({
            let b1 = b.insert(side, price, o);
            &&& b1.has(o.id)
            &&& b1.order_side(o.id) == side
            &&& b1.order_pos(o.id) == landing(b.side(side), side, price)
            &&& b1.order_qty(o.id) == o.qty
            &&& b1.order_price(o.id) == price
        }),
{
    let id = o.id;
    let ls = b.side(side);
    b.lemma_sorted(side);
    lemma_insert_pos_exists(ls, side, price);
    let i0 = insert_pos(ls, side, price);
    let nls = ladder_insert(ls, side, price, o);
    let b1 = b.insert(side, price, o);
    assert(b1.side(side) == nls && b1.side(crate::matching_engine::opposite(side)) == b.side(
        crate::matching_engine::opposite(side),
    )) by {
        match side {
            Side::Buy => {},
            Side::Sell => {},
        }
    }
    let existing = i0 < ls.len() && ls[i0].price == price;
    let k0 = landing(ls, side, price).1;
    assert(nls[i0].orders[k0] == o);
    assert forall|i: int, k: int| pos_ok(nls, i, k) && nls[i].orders[k].id == id implies i == i0 && k
        == k0 by {
        if existing {
            if i != i0 {
                assert(nls[i] == ls[i]);
                crate::sides::lemma_has_intro(b, side, i, k);
            } else if k < ls[i0].orders.len() {
                assert(nls[i0].orders[k] == ls[i0].orders[k]);
                crate::sides::lemma_has_intro(b, side, i0, k);
            }
        } else {
            if i < i0 {
                assert(nls[i] == ls[i]);
                crate::sides::lemma_has_intro(b, side, i, k);
            } else if i > i0 {
                assert(nls[i] == ls[i - 1]);
                crate::sides::lemma_has_intro(b, side, i - 1, k);
            }
        }
    }
    assert(side_has(nls, id)) by {
        assert(pos_ok(nls, i0, k0) && nls[i0].orders[k0].id == id);
    }
    assert(b1.has(id) && b1.order_side(id) == side) by {
        assert(!side_has(b.side(crate::matching_engine::opposite(side)), id)) by {
            match side {
                Side::Buy => {},
                Side::Sell => {},
            }
        }
        match side {
            Side::Buy => {},
            Side::Sell => {},
        }
    }
    lemma_order_pos(b1, id);
    assert(nls[i0].price == price);
}

/// Deleting an order right after adding it gives back the book it was
/// added to.
pub proof fn lemma_add_then_delete(
    b: BookView,
    id: OrderId,
    side: Side,
    price: Price,
    qty: Quantity,
)
    requires
        b.wf(),
        add_limit_spec(b, id, side, price, qty).0 is Ok,
    ensures
        full_delete_spec(add_limit_spec(b, id, side, price, qty).1, id) == (
            Ok::<(), crate::orderbook::BookError>(()),
            b,
        ),
{
    let o = RestingOrder { id, qty };
    let ls = b.side(side);
    lemma_insert_lookup(b, side, price, o);
    b.lemma_sorted(side);
    lemma_insert_pos_exists(ls, side, price);
    let i0 = insert_pos(ls, side, price);
    let k0 = landing(ls, side, price).1;
    let nls = ladder_insert(ls, side, price, o);
    let b1 = b.insert(side, price, o);
    let existing = i0 < ls.len() && ls[i0].price == price;
    let q1 = nls[i0].orders;
    let nq = queue_reduce(q1, k0, qty);
    assert(nq =~= q1.remove(k0));
    if existing {
        assert(k0 == ls[i0].orders.len());
        assert(q1 == ls[i0].orders.push(o));
        assert(nq =~= ls[i0].orders);
        assert(ladder_set_queue(nls, i0, nq) =~= ls);
    } else {
        assert(k0 == 0);
        assert(q1 == seq![o]);
        assert(nq.len() == 0);
        assert(ladder_set_queue(nls, i0, nq) =~= ls);
    }
    assert(b1.reduce_order(id, qty) == b) by {
        match side {
            Side::Buy => {},
            Side::Sell => {},
        }
    }
}

/// A clean side of a published snapshot: `k` real levels (positive
/// quantity, not the empty marker), each strictly worse than the one
/// before, then only empty slots.
pub open spec fn clean_side(levels: Seq<Level>, side: Side, empty: Price, k: int) -> bool {
    &&& 0 <= k <= levels.len()
    &&& forall|j: int| 0 <= j < k ==> #[trigger] levels[j].qty > 0 && levels[j].price != empty
    &&& forall|i: int, j: int|
        #![trigger levels[i], levels[j]]
        0 <= i < j < k ==> better(side, levels[i].price, levels[j].price)
    &&& forall|j: int| k <= j < levels.len() ==> #[trigger] levels[j] == Level { price: empty, qty: 0 }
}

proof fn lemma_seed_side(b: BookView, next: int, levels: Seq<Level>, side: Side, empty: Price, k: int)
    requires
        b.side(side).len() == 0,
        clean_side(levels, side, empty, k),
    ensures
        ({
            let r = seed_levels(b, next, levels, side, empty).0;
            &&& ladder_summaries(r.side(side)) == levels.take(k)
            &&& r.side(opposite(side)) == b.side(opposite(side))
            &&& r.side(side).len() == k
            &&& forall|j: int| 0 <= j < k ==> #[trigger] r.side(side)[j].price == levels[j].price
        }),
    decreases levels.len(),
{
    if levels.len() == 0 {
        assert(seed_levels(b, next, levels, side, empty).0 == b);
        assert(ladder_summaries(b.side(side)) =~= levels.take(k));
    } else {
        let n = levels.len() - 1;
        let d = levels.drop_last();
        let k1 = if k == levels.len() { k - 1 } else { k };
        assert(clean_side(d, side, empty, k1)) by {
            assert forall|j: int| 0 <= j < k1 implies #[trigger] d[j].qty > 0 && d[j].price != empty by {
                assert(d[j] == levels[j]);
            }
            assert forall|i: int, j: int| #![trigger d[i], d[j]] 0 <= i < j < k1 implies better(
                side,
                d[i].price,
                d[j].price,
            ) by {
                assert(d[i] == levels[i] && d[j] == levels[j]);
            }
            assert forall|j: int| k1 <= j < d.len() implies #[trigger] d[j] == Level {
                price: empty,
                qty: 0,
            } by {
                assert(d[j] == levels[j]);
            }
        }
        lemma_seed_side(b, next, d, side, empty, k1);
        let (b1, n1) = seed_levels(b, next, d, side, empty);
        let ls = b1.side(side);
        let l = levels.last();
        assert(l == levels[n]);
        if k == levels.len() {
            let o = RestingOrder { id: n1 as u64, qty: l.qty };
            assert forall|j: int| 0 <= j < ls.len() implies better(side, #[trigger] ls[j].price, l.price) by {
                assert(ls[j].price == d[j].price);
                assert(d[j] == levels[j]);
            }
            assert(is_insert_pos(ls, side, l.price, ls.len() as int));
            crate::ladder::lemma_insert_pos_unique(ls, side, l.price, ls.len() as int);
            let nls = ladder_insert(ls, side, l.price, o);
            let lv = LevelView { price: l.price, orders: seq![o] };
            assert(nls =~= ls.push(lv));
            let r = b1.insert(side, l.price, o);
            assert(r.side(side) == nls && r.side(opposite(side)) == b1.side(opposite(side))) by {
                match side {
                    Side::Buy => {},
                    Side::Sell => {},
                }
            }
            assert(seq![o].drop_last() =~= Seq::<RestingOrder>::empty());
            assert(total(Seq::<RestingOrder>::empty()) == 0);
            assert(seq![o].last() == o);
            assert(total(seq![o]) == l.qty);
            assert(level_summary(lv) == l);
            assert(ladder_summaries(nls) =~= ladder_summaries(ls).push(level_summary(lv)));
            assert(levels.take(k) =~= d.take(k1).push(l));
            assert forall|j: int| 0 <= j < k implies #[trigger] r.side(side)[j].price == levels[j].price by {
                if j < k1 {
                    assert(r.side(side)[j] == ls[j]);
                    assert(d[j] == levels[j]);
                }
            }
        } else {
            assert(l.qty == 0);
            assert(levels.take(k) =~= d.take(k1));
            assert forall|j: int| 0 <= j < k implies #[trigger] ls[j].price == levels[j].price by {
                assert(d[j] == levels[j]);
            }
        }
    }
}

/// A book seeded from a clean published snapshot shows that snapshot
/// again: resynchronizing to the published book reproduces it exactly.
pub proof fn lemma_seed_round_trip(asks: Seq<Level>, bids: Seq<Level>, ka: int, kb: int)
    requires
        clean_side(asks, Side::Sell, EMPTY_ASK_PRICE, ka),
        clean_side(bids, Side::Buy, EMPTY_BID_PRICE, kb),
        asks.len() == bids.len(),
    ensures
        snapshot_view(from_snapshot_spec(asks, bids), asks.len()) == (SnapshotView { asks, bids }),
{
    let (b1, n1) = seed_levels(BookView::empty(), u64::MAX as int, asks, Side::Sell, EMPTY_ASK_PRICE);
    lemma_seed_side(BookView::empty(), u64::MAX as int, asks, Side::Sell, EMPTY_ASK_PRICE, ka);
    assert(b1.bids == BookView::empty().bids);
    lemma_seed_side(b1, n1, bids, Side::Buy, EMPTY_BID_PRICE, kb);
    let b2 = from_snapshot_spec(asks, bids);
    assert(b2.asks == b1.asks);
    assert(pad_levels(ladder_summaries(b2.asks), asks.len(), EMPTY_ASK_PRICE) =~= asks);
    assert(pad_levels(ladder_summaries(b2.bids), bids.len(), EMPTY_BID_PRICE) =~= bids);
}

/// An accepted limit order joins the back of the queue at its price (a
/// new level when there was none) on its side; every other level of either
/// side stays exactly as it was, and the visible quantity at its price
/// grows by exactly its quantity.
#[verifier::rlimit(40)]
pub proof fn lemma_add_limit_levels(b: BookView, id: OrderId, side: Side, price: Price, qty: Quantity)
    requires
        b.wf(),
        add_limit_spec(b, id, side, price, qty).0 is Ok,
    ensures
        ({
            let o = RestingOrder { id, qty };
            let ls = b.side(side);
            let nls = add_limit_spec(b, id, side, price, qty).1.side(side);
            &&& add_limit_spec(b, id, side, price, qty).1.side(opposite(side)) == b.side(opposite(side))
            &&& has_level(nls, price)
            &&& nls[level_at(nls, price)].orders == if has_level(ls, price) {
                ls[level_at(ls, price)].orders.push(o)
            } else {
                seq![o]
            }
            &&& total(nls[level_at(nls, price)].orders) == (if has_level(ls, price) {
                total(ls[level_at(ls, price)].orders)
            } else {
                0
            }) + qty
            &&& forall|j: int|
                0 <= j < ls.len() && ls[j].price != price ==> exists|m: int|
                    0 <= m < nls.len() && #[trigger] nls[m] == #[trigger] ls[j]
            &&& forall|m: int|
                0 <= m < nls.len() && nls[m].price != price ==> exists|j: int|
                    0 <= j < ls.len() && #[trigger] ls[j] == #[trigger] nls[m]
        }),
{
    let o = RestingOrder { id, qty };
    let ls = b.side(side);
    b.lemma_sorted(side);
    lemma_insert_pos_exists(ls, side, price);
    lemma_insert_wf(b, side, price, o);
    let b1 = b.insert(side, price, o);
    assert(add_limit_spec(b, id, side, price, qty).1 == b1);
    let i0 = insert_pos(ls, side, price);
    let nls = ladder_insert(ls, side, price, o);
    assert(b1.side(side) == nls && b1.side(opposite(side)) == b.side(opposite(side))) by {
        match side {
            Side::Buy => {},
            Side::Sell => {},
        }
    }
    b1.lemma_sorted(side);
    assert(seq![o].drop_last() =~= Seq::<RestingOrder>::empty());
    assert(total(Seq::<RestingOrder>::empty()) == 0);
    assert(seq![o].last() == o);
    if i0 < ls.len() && ls[i0].price == price {
        crate::ladder::lemma_level_at_unique(side, ls, price, i0);
        crate::ladder::lemma_level_at_unique(side, nls, price, i0);
        let q = ls[i0].orders;
        assert(q.push(o).drop_last() =~= q);
        assert(q.push(o).last() == o);
        assert(nls[i0].orders == q.push(o));
        assert(total(q.push(o)) == total(q) + qty);
        assert forall|j: int| 0 <= j < ls.len() && ls[j].price != price implies exists|m: int|
            0 <= m < nls.len() && #[trigger] nls[m] == #[trigger] ls[j] by {
            assert(nls[j] == ls[j]);
        }
        assert forall|m: int| 0 <= m < nls.len() && nls[m].price != price implies exists|j: int|
            0 <= j < ls.len() && #[trigger] ls[j] == #[trigger] nls[m] by {
            assert(nls[m] == ls[m]);
        }
    } else {
        assert(!has_level(ls, price)) by {
            if has_level(ls, price) {
                let j = choose|j: int| 0 <= j < ls.len() && ls[j].price == price;
                if j > i0 {
                    assert(better(side, ls[i0].price, ls[j].price));
                }
            }
        }
        crate::ladder::lemma_level_at_unique(side, nls, price, i0);
        assert(nls[i0].orders == seq![o]);
        assert(total(seq![o]) == qty);
        assert forall|j: int| 0 <= j < ls.len() && ls[j].price != price implies exists|m: int|
            0 <= m < nls.len() && #[trigger] nls[m] == #[trigger] ls[j] by {
            if j < i0 {
                assert(nls[j] == ls[j]);
            } else {
                assert(nls[j + 1] == ls[j]);
            }
        }
        assert forall|m: int| 0 <= m < nls.len() && nls[m].price != price implies exists|j: int|
            0 <= j < ls.len() && #[trigger] ls[j] == #[trigger] nls[m] by {
            if m < i0 {
                assert(nls[m] == ls[m]);
            } else {
                assert(m != i0);
                assert(nls[m] == ls[m - 1]);
            }
        }
    }
}

/// Resting quantity at `price` on a ladder (0 when no level is there).
pub open spec fn level_qty(ls: Seq<LevelView>, price: Price) -> nat {
    if has_level(ls, price) {
        total(ls[level_at(ls, price)].orders)
    } else {
        0
    }
}

/// Anonymous reduction of the level at `price`: accepted exactly when the
/// quantity is positive and no more than rests there; it then lowers that
/// level by exactly the quantity, keeps every other level of both sides,
/// and otherwise leaves the book as it was.
proof fn lemma_reduce_aggregate_levels(b: BookView, side: Side, price: Price, qty: Quantity)
    requires
        b.wf(),
    ensures
        ({
            let (r, b2) = reduce_aggregate_spec(b, side, price, qty);
            let ls = b.side(side);
            let nls = b2.side(side);
            &&& r is Ok <==> 0 < qty <= level_qty(ls, price)
            &&& r is Err ==> b2 == b
            &&& r is Ok ==> {
                &&& level_qty(nls, price) == level_qty(ls, price) - qty
                &&& b2.side(opposite(side)) == b.side(opposite(side))
                &&& forall|j: int|
                    0 <= j < ls.len() && ls[j].price != price ==> exists|m: int|
                        0 <= m < nls.len() && #[trigger] nls[m] == #[trigger] ls[j]
                &&& forall|m: int|
                    0 <= m < nls.len() && nls[m].price != price ==> exists|j: int|
                        0 <= j < ls.len() && #[trigger] ls[j] == #[trigger] nls[m]
            }
        }),
{
    let ls = b.side(side);
    b.lemma_sorted(side);
    if qty > 0 && has_level(ls, price) {
        let i = level_at(ls, price);
        let q = ls[i].orders;
        if qty as nat <= total(q) {
            let c = consume(q, qty as nat);
            crate::ladder::lemma_consume_total(q, qty as nat);
            lemma_consume_level(b, side, i, qty);
            let b2 = b.consume_level(side, i, qty as nat);
            let nls = ladder_set_queue(ls, i, c.0);
            assert(b2.side(side) == nls && b2.side(opposite(side)) == b.side(opposite(side))) by {
                match side {
                    Side::Buy => {},
                    Side::Sell => {},
                }
            }
            b2.lemma_sorted(side);
            if c.0.len() == 0 {
                assert(nls == ls.remove(i));
                assert(!has_level(nls, price)) by {
                    if has_level(nls, price) {
                        let j = choose|j: int| 0 <= j < nls.len() && nls[j].price == price;
                        let j0 = if j < i { j } else { j + 1 };
                        assert(ls[j0].price == price);
                        crate::ladder::lemma_level_at_unique(side, ls, price, j0);
                    }
                }
                assert forall|j: int| 0 <= j < ls.len() && ls[j].price != price implies exists|m: int|
                    0 <= m < nls.len() && #[trigger] nls[m] == #[trigger] ls[j] by {
                    if j < i {
                        assert(nls[j] == ls[j]);
                    } else {
                        assert(j != i);
                        assert(nls[j - 1] == ls[j]);
                    }
                }
                assert forall|m: int| 0 <= m < nls.len() && nls[m].price != price implies exists|j: int|
                    0 <= j < ls.len() && #[trigger] ls[j] == #[trigger] nls[m] by {
                    if m < i {
                        assert(nls[m] == ls[m]);
                    } else {
                        assert(nls[m] == ls[m + 1]);
                    }
                }
            } else {
                assert(nls[i].price == price);
                crate::ladder::lemma_level_at_unique(side, nls, price, i);
                assert forall|j: int| 0 <= j < ls.len() && ls[j].price != price implies exists|m: int|
                    0 <= m < nls.len() && #[trigger] nls[m] == #[trigger] ls[j] by {
                    assert(nls[j] == ls[j]);
                }
                assert forall|m: int| 0 <= m < nls.len() && nls[m].price != price implies exists|j: int|
                    0 <= j < ls.len() && #[trigger] ls[j] == #[trigger] nls[m] by {
                    assert(nls[m] == ls[m]);
                }
            }
        }
    }
}

/// A LOBSTER partial cancel, full delete or visible execution that names an
/// order the book does not hold (one placed before the sample began)
/// reduces the level at its side and price anonymously: it is accepted
/// exactly when its quantity is positive and no more than rests there; it
/// then lowers that level by exactly its quantity, keeps every other level
/// of both sides, and when rejected leaves the book as it was.
pub proof fn lemma_lobster_delta_of_unknown_order(
    b: BookView,
    ts: u64,
    id: OrderId,
    side: Side,
    price: Price,
    qty: Quantity,
)
    requires
        b.wf(),
        !b.has(id),
    ensures
        ({
            let ls = b.side(side);
            let events = seq![
                MarketEvent::PartialCancel { ts, order_id: id, side, price, qty },
                MarketEvent::FullDelete { ts, order_id: id, side, price, qty },
                MarketEvent::VisibleExecution { ts, order_id: id, qty, price, side },
            ];
            forall|n: int|
                0 <= n < 3 ==> {
                    let (r, b2) = #[trigger] apply_lobster_delta_spec(b, events[n]);
                    let nls = b2.side(side);
                    &&& r is Ok <==> 0 < qty <= level_qty(ls, price)
                    &&& r is Err ==> b2 == b
                    &&& r is Ok ==> {
                        &&& level_qty(nls, price) == level_qty(ls, price) - qty
                        &&& b2.side(opposite(side)) == b.side(opposite(side))
                        &&& forall|j: int|
                            0 <= j < ls.len() && ls[j].price != price ==> exists|m: int|
                                0 <= m < nls.len() && #[trigger] nls[m] == #[trigger] ls[j]
                        &&& forall|m: int|
                            0 <= m < nls.len() && nls[m].price != price ==> exists|j: int|
                                0 <= j < ls.len() && #[trigger] ls[j] == #[trigger] nls[m]
                    }
                }
        }),
{
    lemma_reduce_aggregate_levels(b, side, price, qty);
    let events = seq![
        MarketEvent::PartialCancel { ts, order_id: id, side, price, qty },
        MarketEvent::FullDelete { ts, order_id: id, side, price, qty },
        MarketEvent::VisibleExecution { ts, order_id: id, qty, price, side },
    ];
    assert forall|n: int| 0 <= n < 3 implies #[trigger] apply_lobster_delta_spec(b, events[n])
        == reduce_aggregate_spec(b, side, price, qty) by {
        if n == 0 {
            assert(events[0] == MarketEvent::PartialCancel { ts, order_id: id, side, price, qty });
        } else if n == 1 {
            assert(events[1] == MarketEvent::FullDelete { ts, order_id: id, side, price, qty });
        } else {
            assert(events[2] == MarketEvent::VisibleExecution { ts, order_id: id, qty, price, side });
        }
    }
}

} // verus!
