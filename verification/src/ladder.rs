//! One side of a limit order book: price levels kept best-first, each level
//! holding a FIFO queue of resting orders.
use std::collections::VecDeque;
use vstd::prelude::*;
use crate::market_events::{OrderId, Price, Quantity, Side};

verus! {

/// A resting order inside a price level queue.
#[derive(Debug, Clone, Copy, PartialEq, Eq, Structural)]
pub struct RestingOrder {
    pub id: OrderId,
    pub qty: Quantity,
}

/// All orders resting at one price, in arrival (FIFO) order.
#[derive(Debug, Clone)]
pub struct PriceLevel {
    pub price: Price,
    pub orders: VecDeque<RestingOrder>,
}

/// Mathematical view of a price level.
pub struct LevelView {
    pub price: Price,
    pub orders: Seq<RestingOrder>,
}

impl View for PriceLevel {
    type V = LevelView;

    open spec fn view(&self) -> LevelView {
        LevelView { price: self.price, orders: self.orders@ }
    }
}

/// View of a ladder: its levels, best price first.
pub open spec fn ladder_view(v: Seq<PriceLevel>) -> Seq<LevelView> {
    v.map_values(|l: PriceLevel| l@)
}

/// `a` is a strictly better price than `b` for resting orders on `side`.
pub open spec fn better(side: Side, a: Price, b: Price) -> bool {
    match side {
        Side::Buy => a > b,
        Side::Sell => a < b,
    }
}

/// Levels are strictly ordered from best to worst.
pub open spec fn sorted(side: Side, ls: Seq<LevelView>) -> bool {
    forall|i: int, j: int|
        #![trigger ls[i], ls[j]]
        0 <= i < j < ls.len() ==> better(side, ls[i].price, ls[j].price)
}

/// A queue is non-empty, holds positive quantities and no id twice.
pub open spec fn queue_ok(q: Seq<RestingOrder>) -> bool {
    &&& q.len() > 0
    &&& forall|k: int| 0 <= k < q.len() ==> #[trigger] q[k].qty > 0
    &&& forall|a: int, b: int|
        #![trigger q[a], q[b]]
        0 <= a < q.len() && 0 <= b < q.len() && a != b ==> q[a].id != q[b].id
}

pub open spec fn ladder_wf(side: Side, ls: Seq<LevelView>) -> bool {
    &&& sorted(side, ls)
    &&& forall|i: int| 0 <= i < ls.len() ==> queue_ok(#[trigger] ls[i].orders)
}

/// Sum of the resting quantities of a queue.
pub open spec fn total(q: Seq<RestingOrder>) -> nat
    decreases q.len(),
{
    if q.len() == 0 {
        0
    } else {
        total(q.drop_last()) + q.last().qty as nat
    }
}

/// `i` is where a level at `price` belongs: every level before it is better.
pub open spec fn is_insert_pos(ls: Seq<LevelView>, side: Side, price: Price, i: int) -> bool {
    &&& 0 <= i <= ls.len()
    &&& forall|j: int| 0 <= j < i ==> better(side, #[trigger] ls[j].price, price)
    &&& i < ls.len() ==> !better(side, ls[i].price, price)
}

pub open spec fn insert_pos(ls: Seq<LevelView>, side: Side, price: Price) -> int {
    choose|i: int| is_insert_pos(ls, side, price, i)
}

/// The ladder after `order` joins the back of the queue at `price`.
pub open spec fn ladder_insert(ls: Seq<LevelView>, side: Side, price: Price, order: RestingOrder) -> Seq<
    LevelView,
> {
    let i = insert_pos(ls, side, price);
    if i < ls.len() && ls[i].price == price {
        ls.update(i, LevelView { price, orders: ls[i].orders.push(order) })
    } else {
        ls.insert(i, LevelView { price, orders: seq![order] })
    }
}

pub proof fn lemma_insert_pos_unique(ls: Seq<LevelView>, side: Side, price: Price, i: int)
    requires
        is_insert_pos(ls, side, price, i),
    ensures
        insert_pos(ls, side, price) == i,
{
    let c = insert_pos(ls, side, price);
    assert(is_insert_pos(ls, side, price, c));
    if c < i {
        assert(better(side, ls[c].price, price));
    } else if c > i {
        assert(better(side, ls[i].price, price));
    }
}

/// Index of the level whose price is `price` (meaningful when it exists).
pub open spec fn level_at(ls: Seq<LevelView>, price: Price) -> int {
    choose|i: int| 0 <= i < ls.len() && ls[i].price == price
}

pub open spec fn has_level(ls: Seq<LevelView>, price: Price) -> bool {
    exists|i: int| 0 <= i < ls.len() && ls[i].price == price
}

pub proof fn lemma_level_at_unique(side: Side, ls: Seq<LevelView>, price: Price, i: int)
    requires
        sorted(side, ls),
        0 <= i < ls.len(),
        ls[i].price == price,
    ensures
        has_level(ls, price),
        level_at(ls, price) == i,
{
    let c = level_at(ls, price);
    assert(0 <= c < ls.len() && ls[c].price == price);
    if c < i {
        assert(better(side, ls[c].price, ls[i].price));
    } else if c > i {
        assert(better(side, ls[i].price, ls[c].price));
    }
}

/// Position of the first level that is not better than `price`.
pub fn find_insert_pos(levels: &Vec<PriceLevel>, side: Side, price: Price) -> (i: usize)
    ensures
        i as int == insert_pos(ladder_view(levels@), side, price),
        is_insert_pos(ladder_view(levels@), side, price, i as int),
{
    let ghost ls = ladder_view(levels@);
    let mut i: usize = 0;
    while i < levels.len()
        invariant
            ls == ladder_view(levels@),
            0 <= i <= levels.len(),
            forall|j: int| 0 <= j < i ==> better(side, #[trigger] ls[j].price, price),
        ensures
            0 <= i <= levels.len(),
            forall|j: int| 0 <= j < i ==> better(side, #[trigger] ls[j].price, price),
            i < levels.len() ==> !better(side, ls[i as int].price, price),
        decreases levels.len() - i,
    {
        let p = levels[i].price;
        assert(ls[i as int].price == p);
        let is_better = match side {
            Side::Buy => p > price,
            Side::Sell => p < price,
        };
        if !is_better {
            break;
        }
        i = i + 1;
    }
    proof {
        lemma_insert_pos_unique(ls, side, price, i as int);
    }
    i
}


pub open spec fn side_has(ls: Seq<LevelView>, id: OrderId) -> bool {
    exists|i: int, k: int|
        0 <= i < ls.len() && 0 <= k < ls[i].orders.len() && #[trigger] ls[i].orders[k].id == id
}

pub proof fn lemma_ladder_insert_wf(ls: Seq<LevelView>, side: Side, price: Price, order: RestingOrder)
    requires
        ladder_wf(side, ls),
        order.qty > 0,
        !side_has(ls, order.id),
        is_insert_pos(ls, side, price, insert_pos(ls, side, price)),
    ensures
        ladder_wf(side, ladder_insert(ls, side, price, order)),
{
    let i = insert_pos(ls, side, price);
    let r = ladder_insert(ls, side, price, order);
    if i < ls.len() && ls[i].price == price {
        let q = ls[i].orders.push(order);
        assert(queue_ok(ls[i].orders));
        assert forall|a: int, b: int|
            #![trigger q[a], q[b]]
            0 <= a < q.len() && 0 <= b < q.len() && a != b implies q[a].id != q[b].id by {
            if a == q.len() - 1 {
                assert(ls[i].orders[b].id == q[b].id);
            } else if b == q.len() - 1 {
                assert(ls[i].orders[a].id == q[a].id);
            } else {
                assert(q[a] == ls[i].orders[a] && q[b] == ls[i].orders[b]);
            }
        }
        assert(queue_ok(q));
        assert forall|x: int| 0 <= x < r.len() implies queue_ok(#[trigger] r[x].orders) by {
            if x != i {
                assert(r[x] == ls[x]);
            }
        }
        assert forall|a: int, b: int| #![trigger r[a], r[b]] 0 <= a < b < r.len() implies better(
            side,
            r[a].price,
            r[b].price,
        ) by {
            assert(r[a].price == ls[a].price && r[b].price == ls[b].price);
            assert(better(side, ls[a].price, ls[b].price));
        }
    } else {
        let nl = LevelView { price, orders: seq![order] };
        assert(r == ls.insert(i, nl));
        if i < ls.len() {
            assert(!better(side, ls[i].price, price));
            assert(better(side, price, ls[i].price));
        }
        assert forall|a: int, b: int| #![trigger r[a], r[b]] 0 <= a < b < r.len() implies better(
            side,
            r[a].price,
            r[b].price,
        ) by {
            if b < i {
                assert(r[a] == ls[a] && r[b] == ls[b]);
                assert(better(side, ls[a].price, ls[b].price));
            } else if b == i {
                assert(r[a] == ls[a]);
                assert(better(side, ls[a].price, price));
            } else if a == i {
                assert(r[b] == ls[b - 1]);
                if b - 1 > i {
                    assert(better(side, ls[i].price, ls[b - 1].price));
                }
            } else if a < i {
                assert(r[a] == ls[a] && r[b] == ls[b - 1]);
                assert(better(side, ls[a].price, price));
                if b - 1 > i {
                    assert(better(side, ls[i].price, ls[b - 1].price));
                }
            } else {
                assert(r[a] == ls[a - 1] && r[b] == ls[b - 1]);
                assert(better(side, ls[a - 1].price, ls[b - 1].price));
            }
        }
        assert forall|x: int| 0 <= x < r.len() implies queue_ok(#[trigger] r[x].orders) by {
            if x < i {
                assert(r[x] == ls[x]);
            } else if x > i {
                assert(r[x] == ls[x - 1]);
            } else {
                assert(r[x].orders == seq![order]);
            }
        }
    }
}

/// Append `order` to the queue at `price`, creating the level if needed.
pub fn ladder_push(levels: &mut Vec<PriceLevel>, side: Side, price: Price, order: RestingOrder)
    requires
        ladder_wf(side, ladder_view(old(levels)@)),
        order.qty > 0,
        !side_has(ladder_view(old(levels)@), order.id),
    ensures
        ladder_view(final(levels)@) == ladder_insert(ladder_view(old(levels)@), side, price, order),
        ladder_wf(side, ladder_view(final(levels)@)),
        is_insert_pos(
            ladder_view(old(levels)@),
            side,
            price,
            insert_pos(ladder_view(old(levels)@), side, price),
        ),
{
    let ghost ls = ladder_view(levels@);
    let i = find_insert_pos(levels, side, price);
    proof {
        lemma_ladder_insert_wf(ls, side, price, order);
    }
    if i < levels.len() && levels[i].price == price {
        levels[i].orders.push_back(order);
        assert(ladder_view(levels@) =~= ls.update(
            i as int,
            LevelView { price, orders: ls[i as int].orders.push(order) },
        ));
    } else {
        let mut q: VecDeque<RestingOrder> = VecDeque::new();
        q.push_back(order);
        levels.insert(i, PriceLevel { price, orders: q });
        assert(ladder_view(levels@) =~= ls.insert(
            i as int,
            LevelView { price, orders: seq![order] },
        ));
    }
}


/// Index of the level at `price`, if there is one.
pub fn find_level(levels: &Vec<PriceLevel>, side: Side, price: Price) -> (r: Option<usize>)
    requires
        sorted(side, ladder_view(levels@)),
    ensures
        r.is_some() <==> has_level(ladder_view(levels@), price),
        r matches Some(i) ==> i < levels.len() && i as int == level_at(ladder_view(levels@), price)
            && levels@[i as int].price == price,
{
    let ghost ls = ladder_view(levels@);
    let mut i: usize = 0;
    while i < levels.len()
        invariant
            ls == ladder_view(levels@),
            sorted(side, ls),
            0 <= i <= levels.len(),
            forall|j: int| 0 <= j < i ==> #[trigger] ls[j].price != price,
        decreases levels.len() - i,
    {
        if levels[i].price == price {
            proof {
                lemma_level_at_unique(side, ls, price, i as int);
            }
            return Some(i);
        }
        assert(ls[i as int].price == levels@[i as int].price);
        i = i + 1;
    }
    None
}

/// Position of the order with `id` in a queue, if present.
pub fn find_in_queue(q: &VecDeque<RestingOrder>, id: OrderId) -> (r: Option<usize>)
    ensures
        r.is_none() <==> forall|k: int| 0 <= k < q@.len() ==> #[trigger] q@[k].id != id,
        r matches Some(k) ==> k < q@.len() && q@[k as int].id == id,
{
    let mut k: usize = 0;
    while k < q.len()
        invariant
            0 <= k <= q@.len(),
            forall|j: int| 0 <= j < k ==> #[trigger] q@[j].id != id,
        decreases q@.len() - k,
    {
        if q[k].id == id {
            return Some(k);
        }
        k = k + 1;
    }
    None
}

/// The queue after `qty` is taken from its `k`-th order.
pub open spec fn queue_reduce(q: Seq<RestingOrder>, k: int, qty: Quantity) -> Seq<RestingOrder> {
    if q[k].qty == qty {
        q.remove(k)
    } else {
        q.update(k, RestingOrder { id: q[k].id, qty: (q[k].qty - qty) as u32 })
    }
}

/// The ladder with level `i` holding queue `nq`; an empty level disappears.
pub open spec fn ladder_set_queue(ls: Seq<LevelView>, i: int, nq: Seq<RestingOrder>) -> Seq<
    LevelView,
> {
    if nq.len() == 0 {
        ls.remove(i)
    } else {
        ls.update(i, LevelView { price: ls[i].price, orders: nq })
    }
}

pub open spec fn ladder_reduce(ls: Seq<LevelView>, i: int, k: int, qty: Quantity) -> Seq<LevelView> {
    ladder_set_queue(ls, i, queue_reduce(ls[i].orders, k, qty))
}

pub proof fn lemma_queue_reduce_ok(q: Seq<RestingOrder>, k: int, qty: Quantity)
    requires
        queue_ok(q),
        0 <= k < q.len(),
        0 < qty <= q[k].qty,
    ensures
        ({
            let nq = queue_reduce(q, k, qty);
            &&& nq.len() > 0 ==> queue_ok(nq)
            &&& forall|j: int| 0 <= j < nq.len() ==> exists|m: int| 0 <= m < q.len() && #[trigger] nq[j].id == q[m].id
            &&& (qty == q[k].qty) ==> nq.len() == q.len() - 1
            &&& (qty < q[k].qty) ==> nq.len() == q.len()
        }),
{
    let nq = queue_reduce(q, k, qty);
    if q[k].qty == qty {
        assert forall|a: int, b: int|
            #![trigger nq[a], nq[b]]
            0 <= a < nq.len() && 0 <= b < nq.len() && a != b implies nq[a].id != nq[b].id by {
            let a2 = if a < k { a } else { a + 1 };
            let b2 = if b < k { b } else { b + 1 };
            assert(nq[a] == q[a2] && nq[b] == q[b2]);
        }
        assert forall|j: int| 0 <= j < nq.len() implies #[trigger] nq[j].qty > 0 by {
            let j2 = if j < k { j } else { j + 1 };
            assert(nq[j] == q[j2]);
        }
        assert forall|j: int| 0 <= j < nq.len() implies exists|m: int| 0 <= m < q.len() && #[trigger] nq[j].id == q[m].id by {
            let j2 = if j < k { j } else { j + 1 };
            assert(nq[j] == q[j2]);
        }
    } else {
        assert forall|a: int, b: int|
            #![trigger nq[a], nq[b]]
            0 <= a < nq.len() && 0 <= b < nq.len() && a != b implies nq[a].id != nq[b].id by {
            assert(nq[a].id == q[a].id && nq[b].id == q[b].id);
        }
        assert forall|j: int| 0 <= j < nq.len() implies #[trigger] nq[j].qty > 0 by {
            if j != k {
                assert(nq[j] == q[j]);
            }
        }
        assert forall|j: int| 0 <= j < nq.len() implies exists|m: int| 0 <= m < q.len() && #[trigger] nq[j].id == q[m].id by {
            assert(nq[j].id == q[j].id);
        }
    }
}

pub proof fn lemma_ladder_set_queue_wf(side: Side, ls: Seq<LevelView>, i: int, nq: Seq<RestingOrder>)
    requires
        ladder_wf(side, ls),
        0 <= i < ls.len(),
        nq.len() > 0 ==> queue_ok(nq),
    ensures
        ladder_wf(side, ladder_set_queue(ls, i, nq)),
{
    let r = ladder_set_queue(ls, i, nq);
    if nq.len() == 0 {
        assert forall|a: int, b: int| #![trigger r[a], r[b]] 0 <= a < b < r.len() implies better(
            side,
            r[a].price,
            r[b].price,
        ) by {
            let a2 = if a < i { a } else { a + 1 };
            let b2 = if b < i { b } else { b + 1 };
            assert(r[a] == ls[a2] && r[b] == ls[b2]);
            assert(better(side, ls[a2].price, ls[b2].price));
        }
        assert forall|x: int| 0 <= x < r.len() implies queue_ok(#[trigger] r[x].orders) by {
            let x2 = if x < i { x } else { x + 1 };
            assert(r[x] == ls[x2]);
        }
    } else {
        assert forall|a: int, b: int| #![trigger r[a], r[b]] 0 <= a < b < r.len() implies better(
            side,
            r[a].price,
            r[b].price,
        ) by {
            assert(r[a].price == ls[a].price && r[b].price == ls[b].price);
            assert(better(side, ls[a].price, ls[b].price));
        }
        assert forall|x: int| 0 <= x < r.len() implies queue_ok(#[trigger] r[x].orders) by {
            if x != i {
                assert(r[x] == ls[x]);
            }
        }
    }
}

/// Take `qty` from the `k`-th order of level `i`; an emptied order leaves
/// its queue and an emptied level leaves the ladder. Returns whether the
/// order left the book.
pub fn ladder_take(levels: &mut Vec<PriceLevel>, side: Side, i: usize, k: usize, qty: Quantity) -> (removed: bool)
    requires
        ladder_wf(side, ladder_view(old(levels)@)),
        i < old(levels)@.len(),
        k < old(levels)@[i as int].orders@.len(),
        0 < qty <= old(levels)@[i as int].orders@[k as int].qty,
    ensures
        ladder_view(final(levels)@) == ladder_reduce(ladder_view(old(levels)@), i as int, k as int, qty),
        ladder_wf(side, ladder_view(final(levels)@)),
        removed == (qty == old(levels)@[i as int].orders@[k as int].qty),
{
    let ghost ls = ladder_view(levels@);
    let ghost q = ls[i as int].orders;
    proof {
        lemma_queue_reduce_ok(q, k as int, qty);
        lemma_ladder_set_queue_wf(side, ls, i as int, queue_reduce(q, k as int, qty));
    }
    let cur = levels[i].orders[k];
    let removed = cur.qty == qty;
    if removed {
        levels[i].orders.remove(k);
    } else {
        levels[i].orders.remove(k);
        levels[i].orders.insert(k, RestingOrder { id: cur.id, qty: cur.qty - qty });
        assert(levels@[i as int].orders@ =~= queue_reduce(q, k as int, qty));
    }
    if levels[i].orders.len() == 0 {
        levels.remove(i);
        assert(ladder_view(levels@) =~= ls.remove(i as int));
    } else {
        assert(ladder_view(levels@) =~= ls.update(
            i as int,
            LevelView { price: ls[i as int].price, orders: queue_reduce(q, k as int, qty) },
        ));
    }
    removed
}


/// FIFO consumption of up to `qty` from the front of a queue: the queue that
/// is left and the pieces taken, each tagged with the id it came from.
pub open spec fn consume(q: Seq<RestingOrder>, qty: nat) -> (Seq<RestingOrder>, Seq<RestingOrder>)
    decreases q.len(),
{
    if qty == 0 || q.len() == 0 {
        (q, Seq::empty())
    } else if q[0].qty <= qty {
        let r = consume(q.drop_first(), (qty - q[0].qty) as nat);
        (r.0, seq![q[0]] + r.1)
    } else {
        (
            q.update(0, RestingOrder { id: q[0].id, qty: (q[0].qty - qty) as u32 }),
            seq![RestingOrder { id: q[0].id, qty: qty as u32 }],
        )
    }
}

pub proof fn lemma_set_queue_twice(ls: Seq<LevelView>, i: int, q1: Seq<RestingOrder>, q2: Seq<RestingOrder>)
    requires
        0 <= i < ls.len(),
        q1.len() > 0,
    ensures
        ladder_set_queue(ladder_set_queue(ls, i, q1), i, q2) == ladder_set_queue(ls, i, q2),
{
    let a = ladder_set_queue(ladder_set_queue(ls, i, q1), i, q2);
    let b = ladder_set_queue(ls, i, q2);
    if q2.len() == 0 {
        assert(a =~= b);
    } else {
        assert(a =~= b);
    }
}

pub proof fn lemma_set_queue_same(ls: Seq<LevelView>, i: int)
    requires
        0 <= i < ls.len(),
        ls[i].orders.len() > 0,
    ensures
        ladder_set_queue(ls, i, ls[i].orders) == ls,
{
    assert(ladder_set_queue(ls, i, ls[i].orders) =~= ls);
}

/// `total` unrolled from the front.
pub proof fn lemma_total_front(q: Seq<RestingOrder>)
    requires
        q.len() > 0,
    ensures
        total(q) == q[0].qty + total(q.drop_first()),
    decreases q.len(),
{
    if q.len() == 1 {
        assert(q.drop_last() =~= Seq::<RestingOrder>::empty());
        assert(q.drop_first() =~= Seq::<RestingOrder>::empty());
    } else {
        lemma_total_front(q.drop_last());
        assert(q.drop_last().drop_first() =~= q.drop_first().drop_last());
        assert(q.drop_first().last() == q.last());
    }
}

pub proof fn lemma_total_concat(a: Seq<RestingOrder>, b: Seq<RestingOrder>)
    ensures
        total(a + b) == total(a) + total(b),
    decreases b.len(),
{
    if b.len() == 0 {
        assert(a + b =~= a);
    } else {
        lemma_total_concat(a, b.drop_last());
        assert((a + b).drop_last() =~= a + b.drop_last());
    }
}

/// What `consume` takes and what it leaves add up.
pub proof fn lemma_consume_total(q: Seq<RestingOrder>, qty: nat)
    ensures
        total(consume(q, qty).1) <= qty,
        total(consume(q, qty).1) == qty || consume(q, qty).0.len() == 0,
        total(consume(q, qty).1) + total(consume(q, qty).0) == total(q),
    decreases q.len(),
{
    assert(total(Seq::<RestingOrder>::empty()) == 0);
    if qty == 0 || q.len() == 0 {
    } else if q[0].qty <= qty {
        lemma_consume_total(q.drop_first(), (qty - q[0].qty) as nat);
        let r = consume(q.drop_first(), (qty - q[0].qty) as nat);
        lemma_total_concat(seq![q[0]], r.1);
        lemma_total_front(q);
        assert(seq![q[0]].drop_last() =~= Seq::<RestingOrder>::empty());
        assert(total(seq![q[0]]) == q[0].qty);
    } else {
        let t = seq![RestingOrder { id: q[0].id, qty: qty as u32 }];
        assert(t.drop_last() =~= Seq::<RestingOrder>::empty());
        assert(total(t) == qty);
        let nq = q.update(0, RestingOrder { id: q[0].id, qty: (q[0].qty - qty) as u32 });
        lemma_total_front(q);
        lemma_total_front(nq);
        assert(nq.drop_first() =~= q.drop_first());
    }
}


/// A quantity saturated to the `u32` range.
pub open spec fn sat(n: nat) -> Quantity {
    if n > u32::MAX {
        u32::MAX
    } else {
        n as u32
    }
}

/// Total resting quantity of a queue, saturated to `u32`.
pub fn queue_total(q: &VecDeque<RestingOrder>) -> (r: Quantity)
    ensures
        r == sat(total(q@)),
{
    let mut acc: Quantity = 0;
    let mut k: usize = 0;
    assert(q@.take(0) =~= Seq::<RestingOrder>::empty());
    while k < q.len()
        invariant
            k <= q@.len(),
            acc == sat(total(q@.take(k as int))),
        decreases q@.len() - k,
    {
        acc = acc.saturating_add(q[k].qty);
        assert(q@.take(k + 1).drop_last() =~= q@.take(k as int));
        k = k + 1;
    }
    assert(q@.take(q@.len() as int) =~= q@);
    acc
}

} // verus!
