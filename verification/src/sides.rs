//! Both sides of a book plus the order-id index that points into them.
use std::collections::HashMap;
use vstd::prelude::*;
use crate::ladder::{
    better, find_in_queue, find_level, ladder_insert, ladder_push, ladder_reduce, ladder_take,
    ladder_view, ladder_wf, queue_ok, side_has, LevelView, PriceLevel, RestingOrder, is_insert_pos,
    insert_pos, consume, total, ladder_set_queue, queue_reduce, lemma_set_queue_twice,
    lemma_set_queue_same,
};
use crate::market_events::{OrderId, Price, Quantity, Side};

verus! {

broadcast use vstd::std_specs::hash::group_hash_axioms;

/// Mathematical view of a two-sided book.
pub struct BookView {
    pub bids: Seq<LevelView>,
    pub asks: Seq<LevelView>,
}

pub open spec fn pos_ok(ls: Seq<LevelView>, i: int, k: int) -> bool {
    0 <= i < ls.len() && 0 <= k < ls[i].orders.len()
}

impl BookView {
    pub open spec fn empty() -> BookView {
        BookView { bids: Seq::empty(), asks: Seq::empty() }
    }

    pub open spec fn side(self, s: Side) -> Seq<LevelView> {
        match s {
            Side::Buy => self.bids,
            Side::Sell => self.asks,
        }
    }

    pub open spec fn with_side(self, s: Side, ls: Seq<LevelView>) -> BookView {
        match s {
            Side::Buy => BookView { bids: ls, asks: self.asks },
            Side::Sell => BookView { bids: self.bids, asks: ls },
        }
    }

    pub open spec fn wf(self) -> bool {
        ladder_wf(Side::Buy, self.bids) && ladder_wf(Side::Sell, self.asks)
    }

    /// An order with `id` rests in the book.
    pub open spec fn has(self, id: OrderId) -> bool {
        side_has(self.bids, id) || side_has(self.asks, id)
    }

    pub open spec fn order_side(self, id: OrderId) -> Side {
        if side_has(self.bids, id) {
            Side::Buy
        } else {
            Side::Sell
        }
    }

    /// Level and queue position of the order with `id`.
    pub open spec fn order_pos(self, id: OrderId) -> (int, int) {
        let ls = self.side(self.order_side(id));
        choose|i: int, k: int| pos_ok(ls, i, k) && ls[i].orders[k].id == id
    }

    pub open spec fn order_qty(self, id: OrderId) -> Quantity {
        let (i, k) = self.order_pos(id);
        self.side(self.order_side(id))[i].orders[k].qty
    }

    pub open spec fn order_price(self, id: OrderId) -> Price {
        let (i, k) = self.order_pos(id);
        self.side(self.order_side(id))[i].price
    }

    pub proof fn lemma_sorted(self, s: Side)
        requires
            self.wf(),
        ensures
            ladder_wf(s, self.side(s)),
            crate::ladder::sorted(s, self.side(s)),
    {
        match s {
            Side::Buy => {},
            Side::Sell => {},
        }
    }

    pub proof fn lemma_queue_ok(self, s: Side, i: int)
        requires
            self.wf(),
            0 <= i < self.side(s).len(),
        ensures
            queue_ok(self.side(s)[i].orders),
    {
        match s {
            Side::Buy => {},
            Side::Sell => {},
        }
    }

    /// Ids of all resting orders.
    pub open spec fn order_ids(self) -> Set<OrderId> {
        Set::new(|id: OrderId| self.has(id))
    }

    /// The book after `order` joins the queue at `price` on side `s`.
    pub open spec fn insert(self, s: Side, price: Price, order: RestingOrder) -> BookView {
        self.with_side(s, ladder_insert(self.side(s), s, price, order))
    }

    /// The book after `qty` is taken from the order at `(i, k)` of side `s`.
    pub open spec fn take(self, s: Side, i: int, k: int, qty: Quantity) -> BookView {
        self.with_side(s, ladder_reduce(self.side(s), i, k, qty))
    }

    /// The book after up to `qty` is consumed, FIFO, from level `i` of side `s`.
    pub open spec fn consume_level(self, s: Side, i: int, qty: nat) -> BookView {
        self.with_side(s, ladder_set_queue(self.side(s), i, consume(self.side(s)[i].orders, qty).0))
    }

    /// The book after `qty` is taken from the order with `id`.
    pub open spec fn reduce_order(self, id: OrderId, qty: Quantity) -> BookView {
        let (i, k) = self.order_pos(id);
        self.take(self.order_side(id), i, k, qty)
    }
}

/// The index maps exactly the resting ids to their side and level price.
pub open spec fn index_ok(m: Map<OrderId, (Side, Price)>, b: BookView) -> bool {
    &&& forall|id: OrderId| #[trigger] m.contains_key(id) <==> b.has(id)
    &&& forall|s: Side, i: int, k: int|
        #![trigger b.side(s)[i].orders[k]]
        pos_ok(b.side(s), i, k) ==> m.contains_key(b.side(s)[i].orders[k].id) && m[b.side(
            s,
        )[i].orders[k].id] == (s, b.side(s)[i].price)
}

/// Two positions holding the same id are the same position.
pub proof fn lemma_unique_position(
    m: Map<OrderId, (Side, Price)>,
    b: BookView,
    s1: Side,
    i1: int,
    k1: int,
    s2: Side,
    i2: int,
    k2: int,
)
    requires
        b.wf(),
        index_ok(m, b),
        pos_ok(b.side(s1), i1, k1),
        pos_ok(b.side(s2), i2, k2),
        b.side(s1)[i1].orders[k1].id == b.side(s2)[i2].orders[k2].id,
    ensures
        s1 == s2 && i1 == i2 && k1 == k2,
{
    let ls = b.side(s1);
    assert(m[b.side(s1)[i1].orders[k1].id] == (s1, b.side(s1)[i1].price));
    assert(m[b.side(s2)[i2].orders[k2].id] == (s2, b.side(s2)[i2].price));
    assert(s1 == s2);
    assert(ladder_wf(s1, ls)) by {
        match s1 {
            Side::Buy => {},
            Side::Sell => {},
        }
    }
    if i1 < i2 {
        assert(better(s1, ls[i1].price, ls[i2].price));
    } else if i2 < i1 {
        assert(better(s1, ls[i2].price, ls[i1].price));
    }
    assert(i1 == i2);
    assert(queue_ok(ls[i1].orders));
    if k1 != k2 {
        assert(ls[i1].orders[k1].id != ls[i1].orders[k2].id);
    }
}

/// Where a resting order is, seen through the index.
pub proof fn lemma_order_pos(m: Map<OrderId, (Side, Price)>, b: BookView, s: Side, i: int, k: int)
    requires
        b.wf(),
        index_ok(m, b),
        pos_ok(b.side(s), i, k),
    ensures
        b.has(b.side(s)[i].orders[k].id),
        b.order_side(b.side(s)[i].orders[k].id) == s,
        b.order_pos(b.side(s)[i].orders[k].id) == (i, k),
{
    let id = b.side(s)[i].orders[k].id;
    if s == Side::Sell && side_has(b.bids, id) {
        let (i2, k2) = choose|i2: int, k2: int|
            0 <= i2 < b.bids.len() && 0 <= k2 < b.bids[i2].orders.len() && #[trigger] b.bids[i2].orders[k2].id == id;
        assert(b.side(Side::Buy)[i2].orders[k2].id == id);
        lemma_unique_position(m, b, s, i, k, Side::Buy, i2, k2);
    }
    if s == Side::Buy {
        assert(b.bids[i].orders[k].id == id);
    } else {
        assert(b.asks[i].orders[k].id == id);
    }
    assert(b.order_side(id) == s);
    let ls = b.side(s);
    assert(pos_ok(ls, i, k) && ls[i].orders[k].id == id);
    let (ci, ck) = b.order_pos(id);
    assert(pos_ok(ls, ci, ck) && ls[ci].orders[ck].id == id);
    lemma_unique_position(m, b, s, i, k, s, ci, ck);
}


pub proof fn lemma_insert_index(m: Map<OrderId, (Side, Price)>, b: BookView, s: Side, price: Price, o: RestingOrder)
    requires
        b.wf(),
        index_ok(m, b),
        !b.has(o.id),
        is_insert_pos(b.side(s), s, price, insert_pos(b.side(s), s, price)),
    ensures
        index_ok(m.insert(o.id, (s, price)), b.insert(s, price, o)),
{
    let ls = b.side(s);
    let r = ladder_insert(ls, s, price, o);
    let b2 = b.insert(s, price, o);
    let m2 = m.insert(o.id, (s, price));
    let j = insert_pos(ls, s, price);
    let existing = j < ls.len() && ls[j].price == price;
    assert(b2.side(s) == r);
    // every old position survives with the same order and price
    assert forall|i: int, k: int| pos_ok(ls, i, k) implies ({
        let i2 = if existing || i < j { i } else { i + 1 };
        pos_ok(r, i2, k) && r[i2].orders[k] == ls[i].orders[k] && r[i2].price == ls[i].price
    }) by {}
    // the new order is at the back of its level
    let (ni, nk) = if existing { (j, ls[j].orders.len() as int) } else { (j, 0int) };
    assert(pos_ok(r, ni, nk) && r[ni].orders[nk] == o && r[ni].price == price);
    // every new position is the new order or an old one
    assert forall|i: int, k: int| pos_ok(r, i, k) && !(i == ni && k == nk) implies ({
        let i0 = if existing || i < j { i } else { i - 1 };
        pos_ok(ls, i0, k) && r[i].orders[k] == ls[i0].orders[k] && r[i].price == ls[i0].price
    }) by {}
    assert forall|id: OrderId| #[trigger] m2.contains_key(id) <==> b2.has(id) by {
        if id == o.id {
            if s == Side::Buy {
                assert(b2.bids[ni].orders[nk].id == id);
            } else {
                assert(b2.asks[ni].orders[nk].id == id);
            }
        }
        if m.contains_key(id) {
            assert(b.has(id));
            if side_has(b.bids, id) {
                let (i, k) = choose|i: int, k: int|
                    0 <= i < b.bids.len() && 0 <= k < b.bids[i].orders.len() && #[trigger] b.bids[i].orders[k].id == id;
                if s == Side::Buy {
                    let i2 = if existing || i < j { i } else { i + 1 };
                    assert(pos_ok(ls, i, k));
                    assert(b2.bids[i2].orders[k].id == id);
                } else {
                    assert(b2.bids[i].orders[k].id == id);
                }
            } else {
                let (i, k) = choose|i: int, k: int|
                    0 <= i < b.asks.len() && 0 <= k < b.asks[i].orders.len() && #[trigger] b.asks[i].orders[k].id == id;
                if s == Side::Sell {
                    let i2 = if existing || i < j { i } else { i + 1 };
                    assert(pos_ok(ls, i, k));
                    assert(b2.asks[i2].orders[k].id == id);
                } else {
                    assert(b2.asks[i].orders[k].id == id);
                }
            }
        }
        if b2.has(id) && id != o.id {
            if side_has(b2.bids, id) {
                let (i, k) = choose|i: int, k: int|
                    0 <= i < b2.bids.len() && 0 <= k < b2.bids[i].orders.len() && #[trigger] b2.bids[i].orders[k].id == id;
                if s == Side::Buy {
                    let i0 = if existing || i < j { i } else { i - 1 };
                    assert(pos_ok(r, i, k));
                    assert(b.bids[i0].orders[k].id == id);
                } else {
                    assert(b.bids[i].orders[k].id == id);
                }
            } else {
                let (i, k) = choose|i: int, k: int|
                    0 <= i < b2.asks.len() && 0 <= k < b2.asks[i].orders.len() && #[trigger] b2.asks[i].orders[k].id == id;
                if s == Side::Sell {
                    let i0 = if existing || i < j { i } else { i - 1 };
                    assert(pos_ok(r, i, k));
                    assert(b.asks[i0].orders[k].id == id);
                } else {
                    assert(b.asks[i].orders[k].id == id);
                }
            }
            assert(b.has(id));
        }
    }
    assert forall|s2: Side, i: int, k: int|
        #![trigger b2.side(s2)[i].orders[k]]
        pos_ok(b2.side(s2), i, k) implies m2.contains_key(b2.side(s2)[i].orders[k].id) && m2[b2.side(
            s2,
        )[i].orders[k].id] == (s2, b2.side(s2)[i].price) by {
        if s2 != s {
            assert(b2.side(s2) == b.side(s2));
            assert(m.contains_key(b.side(s2)[i].orders[k].id));
            if b.side(s2)[i].orders[k].id == o.id {
                if s2 == Side::Buy {
                    assert(b.bids[i].orders[k].id == o.id);
                } else {
                    assert(b.asks[i].orders[k].id == o.id);
                }
            }
        } else if !(i == ni && k == nk) {
            let i0 = if existing || i < j { i } else { i - 1 };
            assert(pos_ok(ls, i0, k));
            assert(b.side(s)[i0].orders[k] == r[i].orders[k]);
            assert(m.contains_key(b.side(s)[i0].orders[k].id));
            if r[i].orders[k].id == o.id {
                if s == Side::Buy {
                    assert(b.bids[i0].orders[k].id == o.id);
                } else {
                    assert(b.asks[i0].orders[k].id == o.id);
                }
            }
        }
    }
}


/// Old position `(i, k)` of side `s` after `take(s, i0, k0, qty)` (when it survives).
pub open spec fn take_fwd(q_len: int, removed: bool, i0: int, k0: int, i: int, k: int) -> (int, int) {
    if !removed {
        (i, k)
    } else if q_len == 1 {
        (if i < i0 { i } else { i - 1 }, k)
    } else if i != i0 {
        (i, k)
    } else {
        (i, if k < k0 { k } else { k - 1 })
    }
}

/// New position `(i, k)` of side `s` after `take(s, i0, k0, qty)`, as an old position.
pub open spec fn take_bwd(q_len: int, removed: bool, i0: int, k0: int, i: int, k: int) -> (int, int) {
    if !removed {
        (i, k)
    } else if q_len == 1 {
        (if i < i0 { i } else { i + 1 }, k)
    } else if i != i0 {
        (i, k)
    } else {
        (i, if k < k0 { k } else { k + 1 })
    }
}

pub proof fn lemma_take_positions(ls: Seq<LevelView>, side: Side, i0: int, k0: int, qty: Quantity)
    requires
        ladder_wf(side, ls),
        pos_ok(ls, i0, k0),
        0 < qty <= ls[i0].orders[k0].qty,
    ensures
        ({
            let r = ladder_reduce(ls, i0, k0, qty);
            let removed = qty == ls[i0].orders[k0].qty;
            let ql = ls[i0].orders.len() as int;
            &&& forall|i: int, k: int|
                pos_ok(ls, i, k) && !(removed && i == i0 && k == k0) ==> {
                    let (i2, k2) = take_fwd(ql, removed, i0, k0, i, k);
                    &&& pos_ok(r, i2, k2)
                    &&& r[i2].orders[k2].id == ls[i].orders[k].id
                    &&& !(i == i0 && k == k0) ==> r[i2].orders[k2] == ls[i].orders[k]
                    &&& r[i2].price == ls[i].price
                }
            &&& !removed ==> pos_ok(r, i0, k0) && r[i0].orders[k0] == RestingOrder {
                id: ls[i0].orders[k0].id,
                qty: (ls[i0].orders[k0].qty - qty) as u32,
            }
            &&& forall|i: int, k: int|
                pos_ok(r, i, k) ==> {
                    let (i2, k2) = take_bwd(ql, removed, i0, k0, i, k);
                    &&& pos_ok(ls, i2, k2)
                    &&& !(removed && i2 == i0 && k2 == k0)
                    &&& r[i].orders[k].id == ls[i2].orders[k2].id
                    &&& r[i].price == ls[i2].price
                }
        }),
{
    let q = ls[i0].orders;
    assert(queue_ok(q));
}

pub proof fn side_has_witness(ls: Seq<LevelView>, id: OrderId) -> (r: (int, int))
    requires
        side_has(ls, id),
    ensures
        pos_ok(ls, r.0, r.1),
        ls[r.0].orders[r.1].id == id,
{
    choose|i: int, k: int| 0 <= i < ls.len() && 0 <= k < ls[i].orders.len() && #[trigger] ls[i].orders[k].id == id
}

pub proof fn lemma_side_has_intro(ls: Seq<LevelView>, i: int, k: int)
    requires
        pos_ok(ls, i, k),
    ensures
        side_has(ls, ls[i].orders[k].id),
{
    assert(ls[i].orders[k].id == ls[i].orders[k].id);
}

/// Some position of the book that holds `id`.
pub proof fn has_witness(b: BookView, id: OrderId) -> (r: (Side, int, int))
    requires
        b.has(id),
    ensures
        pos_ok(b.side(r.0), r.1, r.2),
        b.side(r.0)[r.1].orders[r.2].id == id,
{
    if side_has(b.bids, id) {
        let (i, k) = side_has_witness(b.bids, id);
        (Side::Buy, i, k)
    } else {
        let (i, k) = side_has_witness(b.asks, id);
        (Side::Sell, i, k)
    }
}

pub proof fn lemma_has_intro(b: BookView, s: Side, i: int, k: int)
    requires
        pos_ok(b.side(s), i, k),
    ensures
        b.has(b.side(s)[i].orders[k].id),
{
    lemma_side_has_intro(b.side(s), i, k);
}

pub proof fn lemma_take_index(
    m: Map<OrderId, (Side, Price)>,
    b: BookView,
    s: Side,
    i0: int,
    k0: int,
    qty: Quantity,
)
    requires
        b.wf(),
        index_ok(m, b),
        pos_ok(b.side(s), i0, k0),
        0 < qty <= b.side(s)[i0].orders[k0].qty,
    ensures
        ({
            let id0 = b.side(s)[i0].orders[k0].id;
            let removed = qty == b.side(s)[i0].orders[k0].qty;
            let m2 = if removed { m.remove(id0) } else { m };
            &&& index_ok(m2, b.take(s, i0, k0, qty))
            &&& removed ==> !b.take(s, i0, k0, qty).has(id0)
        }),
{
    let ls = b.side(s);
    assert(ladder_wf(s, ls)) by {
        match s {
            Side::Buy => {},
            Side::Sell => {},
        }
    }
    let r = ladder_reduce(ls, i0, k0, qty);
    let b2 = b.take(s, i0, k0, qty);
    let id0 = ls[i0].orders[k0].id;
    let removed = qty == ls[i0].orders[k0].qty;
    let m2 = if removed { m.remove(id0) } else { m };
    let ql = ls[i0].orders.len() as int;
    lemma_take_positions(ls, s, i0, k0, qty);
    assert(b2.side(s) == r);
    assert(forall|s2: Side| s2 != s ==> b2.side(s2) == b.side(s2));
    // every position of the new book comes from an old one that is not the removed order
    assert forall|s2: Side, i: int, k: int| pos_ok(b2.side(s2), i, k) implies ({
        let (s3, i3, k3) = if s2 == s {
            let (a, c) = take_bwd(ql, removed, i0, k0, i, k);
            (s, a, c)
        } else {
            (s2, i, k)
        };
        &&& pos_ok(b.side(s3), i3, k3)
        &&& #[trigger] b2.side(s2)[i].orders[k].id == b.side(s3)[i3].orders[k3].id
        &&& b2.side(s2)[i].price == b.side(s3)[i3].price
        &&& m.contains_key(b2.side(s2)[i].orders[k].id)
        &&& m[b2.side(s2)[i].orders[k].id] == (s2, b2.side(s2)[i].price)
        &&& (removed ==> b2.side(s2)[i].orders[k].id != id0)
    }) by {
        let (s3, i3, k3) = if s2 == s {
            let (a, c) = take_bwd(ql, removed, i0, k0, i, k);
            (s, a, c)
        } else {
            (s2, i, k)
        };
        assert(m.contains_key(b.side(s3)[i3].orders[k3].id));
        if removed && b.side(s3)[i3].orders[k3].id == id0 {
            lemma_unique_position(m, b, s3, i3, k3, s, i0, k0);
        }
    }
    assert forall|id: OrderId| #[trigger] m2.contains_key(id) implies b2.has(id) by {
        let (os, i, k) = has_witness(b, id);
        if os == s {
            if removed && i == i0 && k == k0 {
                assert(false);
            }
            let (i2, k2) = take_fwd(ql, removed, i0, k0, i, k);
            assert(r[i2].orders[k2].id == id);
            lemma_has_intro(b2, s, i2, k2);
        } else {
            assert(b2.side(os)[i].orders[k].id == id);
            lemma_has_intro(b2, os, i, k);
        }
    }
    assert forall|id: OrderId| b2.has(id) implies #[trigger] m2.contains_key(id) by {
        let (os, i, k) = has_witness(b2, id);
        assert(pos_ok(b2.side(os), i, k));
    }
    assert forall|s2: Side, i: int, k: int|
        #![trigger b2.side(s2)[i].orders[k]]
        pos_ok(b2.side(s2), i, k) implies m2.contains_key(b2.side(s2)[i].orders[k].id) && m2[b2.side(
            s2,
        )[i].orders[k].id] == (s2, b2.side(s2)[i].price) by {}
    if removed && b2.has(id0) {
        let (os, i, k) = has_witness(b2, id0);
        assert(pos_ok(b2.side(os), i, k));
    }
}


/// Bids, asks and the order-id index of a book.
#[derive(Debug, Clone)]
pub struct BookSides {
    pub bids: Vec<PriceLevel>,
    pub asks: Vec<PriceLevel>,
    pub orders: HashMap<OrderId, (Side, Price)>,
}

impl View for BookSides {
    type V = BookView;

    open spec fn view(&self) -> BookView {
        BookView { bids: ladder_view(self.bids@), asks: ladder_view(self.asks@) }
    }
}

impl BookSides {
    pub open spec fn wf(&self) -> bool {
        self@.wf() && index_ok(self.orders@, self@)
    }

    pub fn new() -> (r: BookSides)
        ensures
            r.wf(),
            r@ == BookView::empty(),
    {
        let r = BookSides { bids: Vec::new(), asks: Vec::new(), orders: HashMap::new() };
        assert(ladder_view(r.bids@) =~= Seq::<LevelView>::empty());
        assert(ladder_view(r.asks@) =~= Seq::<LevelView>::empty());
        assert(r@ =~= BookView::empty());
        r
    }

    pub fn ladder(&self, s: Side) -> (r: &Vec<PriceLevel>)
        ensures
            ladder_view(r@) == self@.side(s),
    {
        match s {
            Side::Buy => &self.bids,
            Side::Sell => &self.asks,
        }
    }

    pub fn contains(&self, id: OrderId) -> (r: bool)
        requires
            self.wf(),
        ensures
            r == self@.has(id),
    {
        self.orders.contains_key(&id)
    }

    pub fn order_count(&self) -> (r: usize)
        requires
            self.wf(),
        ensures
            r == self.orders@.dom().len(),
    {
        self.orders.len()
    }

    pub proof fn lemma_index_domain(&self)
        requires
            self.wf(),
        ensures
            self.orders@.dom() == self@.order_ids(),
    {
        assert(self.orders@.dom() =~= self@.order_ids());
    }

    /// Side, level and queue position of the order with `id`.
    pub fn lookup(&self, id: OrderId) -> (r: Option<(Side, usize, usize)>)
        requires
            self.wf(),
        ensures
            r.is_some() == self@.has(id),
            r matches Some((s, i, k)) ==> {
                &&& s == self@.order_side(id)
                &&& (i as int, k as int) == self@.order_pos(id)
                &&& pos_ok(self@.side(s), i as int, k as int)
            },
    {
        let entry = self.orders.get(&id);
        match entry {
            None => None,
            Some(e) => {
                let (s, p) = *e;
                let ghost b = self@;
                let ghost (ws, wi, wk) = has_witness(b, id);
                assert(self.orders@[b.side(ws)[wi].orders[wk].id] == (ws, b.side(ws)[wi].price));
                assert(ws == s && b.side(s)[wi].price == p);
                let levels = self.ladder(s);
                assert(ladder_wf(s, b.side(s))) by {
                    match s {
                        Side::Buy => {},
                        Side::Sell => {},
                    }
                }
                proof {
                    crate::ladder::lemma_level_at_unique(s, b.side(s), p, wi);
                }
                let li = find_level(levels, s, p);
                match li {
                    None => {
                        assert(false);
                        None
                    },
                    Some(i) => {
                        assert(i as int == wi);
                        let k = find_in_queue(&levels[i].orders, id);
                        match k {
                            None => {
                                assert(levels@[i as int].orders@[wk].id == id);
                                assert(false);
                                None
                            },
                            Some(k) => {
                                assert(b.side(s)[i as int].orders[k as int].id == id);
                                proof {
                                    lemma_order_pos(self.orders@, b, s, i as int, k as int);
                                }
                                Some((s, i, k))
                            },
                        }
                    },
                }
            },
        }
    }

    /// Rest `order` at the back of the queue at `price` on side `s`.
    pub fn insert(&mut self, s: Side, price: Price, order: RestingOrder)
        requires
            old(self).wf(),
            !old(self)@.has(order.id),
            order.qty > 0,
        ensures
            final(self).wf(),
            final(self)@ == old(self)@.insert(s, price, order),
            final(self).orders@ == old(self).orders@.insert(order.id, (s, price)),
    {
        let ghost b = self@;
        proof {
            assert(!side_has(b.side(s), order.id));
        }
        match s {
            Side::Buy => {
                ladder_push(&mut self.bids, s, price, order);
            },
            Side::Sell => {
                ladder_push(&mut self.asks, s, price, order);
            },
        }
        self.orders.insert(order.id, (s, price));
        proof {
            lemma_insert_index(old(self).orders@, b, s, price, order);
            assert(self@ =~= b.insert(s, price, order));
        }
    }

    /// Take `qty` from the order at `(i, k)` of side `s`. Returns whether
    /// the order left the book.
    pub fn take(&mut self, s: Side, i: usize, k: usize, qty: Quantity) -> (removed: bool)
        requires
            old(self).wf(),
            pos_ok(old(self)@.side(s), i as int, k as int),
            0 < qty <= old(self)@.side(s)[i as int].orders[k as int].qty,
        ensures
            final(self).wf(),
            final(self)@ == old(self)@.take(s, i as int, k as int, qty),
            removed == (qty == old(self)@.side(s)[i as int].orders[k as int].qty),
            removed ==> !final(self)@.has(old(self)@.side(s)[i as int].orders[k as int].id),
            removed ==> final(self).orders@ == old(self).orders@.remove(
                old(self)@.side(s)[i as int].orders[k as int].id,
            ),
            !removed ==> final(self).orders@ == old(self).orders@,
    {
        let ghost b = self@;
        let id = match s {
            Side::Buy => self.bids[i].orders[k].id,
            Side::Sell => self.asks[i].orders[k].id,
        };
        assert(id == b.side(s)[i as int].orders[k as int].id);
        let removed = match s {
            Side::Buy => ladder_take(&mut self.bids, s, i, k, qty),
            Side::Sell => ladder_take(&mut self.asks, s, i, k, qty),
        };
        if removed {
            self.orders.remove(&id);
        }
        proof {
            lemma_take_index(old(self).orders@, b, s, i as int, k as int, qty);
            assert(self@ =~= b.take(s, i as int, k as int, qty));
        }
        removed
    }

    /// Consume up to `qty` from the front of level `i` of side `s`, oldest
    /// order first. Returns the pieces taken and the quantity left over.
    pub fn consume_level(&mut self, s: Side, i: usize, qty: Quantity) -> (r: (Vec<RestingOrder>, Quantity))
        requires
            old(self).wf(),
            i < old(self)@.side(s).len(),
        ensures
            final(self).wf(),
            final(self)@ == old(self)@.consume_level(s, i as int, qty as nat),
            r.0@ == consume(old(self)@.side(s)[i as int].orders, qty as nat).1,
            r.1 as nat + total(r.0@) == qty as nat,
            forall|x: OrderId| final(self)@.has(x) ==> old(self)@.has(x),
    {
        let ghost b0 = self@;
        let ghost ls0 = b0.side(s);
        let ghost q0 = ls0[i as int].orders;
        let ghost mut qc = q0;
        let mut taken: Vec<RestingOrder> = Vec::new();
        let mut rem = qty;
        let mut alive = true;
        proof {
            assert(ladder_wf(s, ls0)) by {
                match s {
                    Side::Buy => {},
                    Side::Sell => {},
                }
            }
            assert(queue_ok(q0));
            lemma_set_queue_same(ls0, i as int);
            assert(b0.with_side(s, ls0) =~= b0);
            assert(taken@ + consume(qc, rem as nat).1 =~= consume(qc, rem as nat).1);
            assert(total(Seq::<RestingOrder>::empty()) == 0);
        }
        while alive && rem > 0
            invariant
                self.wf(),
                i < ls0.len(),
                ls0 == b0.side(s),
                self@ == b0.with_side(s, ladder_set_queue(ls0, i as int, qc)),
                alive == (qc.len() > 0),
                alive ==> i < self@.side(s).len() && self@.side(s)[i as int].orders == qc,
                consume(q0, qty as nat) == (
                    consume(qc, rem as nat).0,
                    taken@ + consume(qc, rem as nat).1,
                ),
                rem as nat + total(taken@) == qty as nat,
                forall|x: OrderId| self@.has(x) ==> b0.has(x),
            decreases rem,
        {
            let ghost prev = self@;
            assert(prev.side(s) == ladder_set_queue(ls0, i as int, qc)) by {
                match s {
                    Side::Buy => {},
                    Side::Sell => {},
                }
            }
            assert(ladder_wf(s, prev.side(s))) by {
                match s {
                    Side::Buy => {},
                    Side::Sell => {},
                }
            }
            assert(queue_ok(qc));
            let ghost old_orders = self.orders@;
            let front = self.ladder(s)[i].orders[0];
            let last = self.ladder(s)[i].orders.len() == 1;
            let x = if rem < front.qty { rem } else { front.qty };
            let removed = self.take(s, i, 0, x);
            assert forall|y: OrderId| self@.has(y) implies b0.has(y) by {
                assert(self.orders@.contains_key(y));
                assert(old_orders.contains_key(y));
            }
            let piece = RestingOrder { id: front.id, qty: x };
            let ghost old_taken = taken@;
            taken.push(piece);
            rem = rem - x;
            proof {
                let nq = queue_reduce(qc, 0, x);
                lemma_set_queue_twice(ls0, i as int, qc, nq);
                assert(prev.take(s, i as int, 0, x) =~= b0.with_side(s, ladder_set_queue(ls0, i as int, nq))) by {
                    match s {
                        Side::Buy => {},
                        Side::Sell => {},
                    }
                }
                assert(taken@.drop_last() =~= old_taken);
                if front.qty <= x {
                    assert(nq =~= qc.drop_first());
                    assert(piece == qc[0]);
                    assert(taken@ + consume(nq, rem as nat).1 =~= old_taken + (seq![qc[0]] + consume(nq, rem as nat).1));
                } else {
                    assert(rem == 0);
                    assert(taken@ + consume(nq, rem as nat).1 =~= old_taken + seq![piece]);
                }
                qc = nq;
                if alive {
                    assert(self@.side(s) == ladder_set_queue(ls0, i as int, qc)) by {
                        match s {
                            Side::Buy => {},
                            Side::Sell => {},
                        }
                    }
                }
            }
            alive = !(removed && last);
        }
        proof {
            assert(consume(qc, rem as nat).1 =~= Seq::<RestingOrder>::empty());
            assert(taken@ + Seq::<RestingOrder>::empty() =~= taken@);
        }
        (taken, rem)
    }
}

} // verus!
