//! The order book: two sides, a global id index over every resting order,
//! and the matching engine that executes market and limit orders under
//! price-time priority.

use std::collections::HashMap;

use vstd::prelude::*;

use crate::book_side::{
    level_index, side_append_spec, side_has_id, side_remove_spec, side_removed_order, side_wf,
    BookSide,
};
use crate::order::{Order, Side};
use crate::price_level::{find_id, LevelView};

verus! {

/// Whether a fill consumed the whole resting order or part of it.
#[derive(Copy, Clone, PartialEq, Eq, Structural, Debug)]
pub enum FillStatus {
    Full,
    Partial,
}

/// A record of quantity traded against one resting order.
#[derive(Copy, Clone, PartialEq, Eq, Structural, Debug)]
pub struct Fill {
    pub order_id: u128,
    pub status: FillStatus,
    pub price: u64,
    pub quantity: u64,
}

/// What a submission returned: the fills in execution order, the total
/// quantity traded, and, for limit orders, the resting remainder if any.
#[derive(Debug)]
pub struct OrderResult {
    pub done: Vec<Fill>,
    pub partial: Option<Order>,
    pub quantity_filled: u64,
}

/// The book: the global id index of all resting orders, and one side each
/// for bids and asks.  `clock` supplies the monotone arrival timestamps
/// given to orders rested by limit submissions.
#[derive(Debug)]
pub struct OrderBook {
    pub orders: HashMap<u128, Order>,
    pub bids: BookSide,
    pub asks: BookSide,
    pub clock: u64,
}

pub open spec fn other_side(s: Side) -> Side {
    if s == Side::Bid {
        Side::Ask
    } else {
        Side::Bid
    }
}

/// The levels of the side of the book that `s` names.
pub open spec fn side_view(book: OrderBook, s: Side) -> Seq<LevelView> {
    if s == Side::Bid {
        book.bids@
    } else {
        book.asks@
    }
}

/// `o` rests on the side: the level at its price holds its exact record.
pub open spec fn order_resting(ls: Seq<LevelView>, o: Order) -> bool {
    let i = level_index(ls, o.price);
    i >= 0 && ls[i].orders.contains(o)
}

/// Every order on the side is mirrored in the global index under its id,
/// with an identical record, and belongs to this side of the market.
pub open spec fn side_ok(ls: Seq<LevelView>, s: Side, m: Map<u128, Order>) -> bool {
    forall|i: int, k: int|
        0 <= i < ls.len() && 0 <= k < ls[i].orders.len() ==> {
            let o = #[trigger] ls[i].orders[k];
            &&& m.contains_key(o.id)
            &&& m[o.id] == o
            &&& o.side == s
        }
}

/// No two orders of one level share an id.
pub open spec fn side_ids_distinct(ls: Seq<LevelView>) -> bool {
    forall|i: int, k1: int, k2: int|
        0 <= i < ls.len() && 0 <= k1 < k2 < ls[i].orders.len() ==> (#[trigger] ls[i].orders[k1]).id
            != (#[trigger] ls[i].orders[k2]).id
}

/// Every entry of the global index is a resting order of the matching side,
/// recorded under its own id, with a positive quantity.
pub open spec fn index_ok(m: Map<u128, Order>, bids: Seq<LevelView>, asks: Seq<LevelView>) -> bool {
    forall|id: u128| #[trigger] m.contains_key(id) ==> {
        let o = m[id];
        &&& o.id == id
        &&& o.quantity > 0
        &&& (o.side == Side::Bid ==> order_resting(bids, o))
        &&& (o.side == Side::Ask ==> order_resting(asks, o))
    }
}

/// On a side with pairwise distinct prices, the level carrying `p` is found
/// at its own index.
pub proof fn lemma_level_index_unique(ls: Seq<LevelView>, p: u64, j: int)
    requires
        forall|a: int, b: int|
            0 <= a < b < ls.len() ==> (#[trigger] ls[a].price) != (#[trigger] ls[b].price),
        0 <= j < ls.len(),
        ls[j].price == p,
    ensures
        level_index(ls, p) == j,
{
    crate::book_side::lemma_level_index_props(ls, p);
    let li = level_index(ls, p);
    assert(li != -1);
    if li < j {
        assert(ls[li].price == ls[j].price);
    }
}


/// Whether a level at `price` may trade against a submission on `side`:
/// always, for a market order; for a limit order, only if the limit
/// crosses it, the boundary being inclusive.
pub open spec fn price_ok(side: Side, limit: Option<u64>, price: u64) -> bool {
    match limit {
        None => true,
        Some(l) => if side == Side::Bid {
            l >= price
        } else {
            l <= price
        },
    }
}

/// The reduced head order a partial fill of `take` leaves behind.
pub open spec fn reduced_order(head: Order, take: int) -> Order {
    Order {
        id: head.id,
        side: head.side,
        timestamp: head.timestamp,
        price: head.price,
        quantity: (head.quantity - take) as u64,
    }
}

/// Matching `qty` against one level's queue, oldest first: the fills in
/// order, the quantity traded, and the orders left in the queue.
pub open spec fn match_level(orders: Seq<Order>, qty: int) -> (Seq<Fill>, int, Seq<Order>)
    decreases orders.len(),
{
    if qty <= 0 || orders.len() == 0 {
        (Seq::<Fill>::empty(), 0, orders)
    } else {
        let head = orders[0];
        if qty < head.quantity {
            (
                seq![
                    Fill {
                        order_id: head.id,
                        status: FillStatus::Partial,
                        price: head.price,
                        quantity: qty as u64,
                    },
                ],
                qty,
                orders.update(0, reduced_order(head, qty)),
            )
        } else {
            let rest = match_level(orders.subrange(1, orders.len() as int), qty - head.quantity);
            (
                seq![
                    Fill {
                        order_id: head.id,
                        status: FillStatus::Full,
                        price: head.price,
                        quantity: head.quantity,
                    },
                ] + rest.0,
                head.quantity + rest.1,
                rest.2,
            )
        }
    }
}

/// Matching `qty` against a whole side, best level first: for a bid the
/// lowest ask level, for an ask the highest bid level.  Stops when the
/// quantity is exhausted, the side empties, or the best level no longer
/// crosses the limit.
pub open spec fn match_side(ls: Seq<LevelView>, qty: int, side: Side, limit: Option<u64>) -> (
    Seq<Fill>,
    int,
    Seq<LevelView>,
)
    decreases ls.len(),
{
    if qty <= 0 || ls.len() == 0 {
        (Seq::<Fill>::empty(), 0, ls)
    } else {
        let i = if side == Side::Bid {
            0int
        } else {
            ls.len() - 1
        };
        let lv = ls[i];
        if !price_ok(side, limit, lv.price) {
            (Seq::<Fill>::empty(), 0, ls)
        } else {
            let r = match_level(lv.orders, qty);
            if r.2.len() == 0 {
                let rec = match_side(ls.remove(i), qty - r.1, side, limit);
                (r.0 + rec.0, r.1 + rec.1, rec.2)
            } else {
                (r.0, r.1, ls.update(i, (LevelView { price: lv.price, orders: r.2 })))
            }
        }
    }
}

/// Bounds on what one level can fill: never more than asked, all of it if
/// orders remain, and something whenever there was anything to trade.
pub proof fn lemma_match_level_props(orders: Seq<Order>, qty: int)
    requires
        qty >= 0,
        forall|k: int| 0 <= k < orders.len() ==> (#[trigger] orders[k]).quantity > 0,
    ensures
        0 <= match_level(orders, qty).1 <= qty,
        match_level(orders, qty).2.len() > 0 ==> match_level(orders, qty).1 == qty,
        qty > 0 && orders.len() > 0 ==> match_level(orders, qty).1 > 0,
        match_level(orders, qty).2.len() <= orders.len(),
    decreases orders.len(),
{
    if qty > 0 && orders.len() > 0 && qty >= orders[0].quantity {
        let t = orders.subrange(1, orders.len() as int);
        assert(forall|k: int| 0 <= k < t.len() ==> t[k] == orders[k + 1]);
        lemma_match_level_props(t, qty - orders[0].quantity);
    }
}


/// Transfers the book invariant's facts to the view of one side.
proof fn lemma_side_view_wf(book: OrderBook, s: Side)
    requires
        book.wf(),
    ensures
        side_wf(side_view(book, s)),
        side_ok(side_view(book, s), s, book.orders@),
        side_ids_distinct(side_view(book, s)),
{
    if s == Side::Bid {
        assert(side_view(book, s) == book.bids@);
    } else {
        assert(side_view(book, s) == book.asks@);
    }
}


/// One partial-fill step of the drain loop, at the spec level: the level's
/// head is reduced in place, the fill is recorded, and nothing is left to
/// match.
proof fn lemma_fill_partial_step(
    ls_orig: Seq<LevelView>,
    i0: int,
    price: u64,
    cur: Seq<LevelView>,
    cur2: Seq<LevelView>,
    ql: int,
    f: Fill,
    done_prev: Seq<Fill>,
    spec_m: (Seq<Fill>, int, Seq<Order>),
    filled0: int,
)
    requires
        side_wf(cur),
        0 <= i0 < cur.len(),
        level_index(cur, price) == i0,
        cur.len() == ls_orig.len(),
        cur[i0].price == price,
        forall|k: int| 0 <= k < cur.len() && k != i0 ==> cur[k] == ls_orig[k],
        cur[i0].orders.len() > 0,
        0 < ql < cur[i0].orders[0].quantity,
        f == (Fill {
            order_id: cur[i0].orders[0].id,
            status: FillStatus::Partial,
            price: cur[i0].orders[0].price,
            quantity: ql as u64,
        }),
        cur2 == cur.update(
            i0,
            (LevelView {
                price,
                orders: cur[i0].orders.update(0, reduced_order(cur[i0].orders[0], ql)),
            }),
        ),
        spec_m.0 == done_prev + match_level(cur[i0].orders, ql).0,
        spec_m.1 == filled0 + match_level(cur[i0].orders, ql).1,
        spec_m.2 == match_level(cur[i0].orders, ql).2,
    ensures
        level_index(cur2, price) == i0,
        cur2.len() == ls_orig.len(),
        cur2[i0].price == price,
        forall|k: int| 0 <= k < cur2.len() && k != i0 ==> cur2[k] == ls_orig[k],
        spec_m.0 == done_prev.push(f) + match_level(cur2[i0].orders, 0).0,
        spec_m.1 == filled0 + ql + match_level(cur2[i0].orders, 0).1,
        spec_m.2 == match_level(cur2[i0].orders, 0).2,
{
    assert forall|a: int, b: int|
        0 <= a < b < cur2.len() implies (#[trigger] cur2[a].price) != (
    #[trigger] cur2[b].price) by {
        assert(cur2[a].price == cur[a].price);
        assert(cur2[b].price == cur[b].price);
    }
    lemma_level_index_unique(cur2, price, i0);
    let m = match_level(cur[i0].orders, ql);
    assert(m.0 == seq![f] && m.1 == ql && m.2 == cur[i0].orders.update(
        0,
        reduced_order(cur[i0].orders[0], ql),
    ));
    assert(cur2[i0].orders == m.2);
    let m2 = match_level(cur2[i0].orders, 0);
    assert(m2.0 == Seq::<Fill>::empty() && m2.1 == 0 && m2.2 == cur2[i0].orders);
    assert(done_prev + seq![f] =~= done_prev.push(f));
    assert(done_prev.push(f) + Seq::<Fill>::empty() =~= done_prev.push(f));
}

/// One full-fill step of the drain loop, at the spec level: the head order
/// leaves the level (and the level leaves the side if it was alone), the
/// fill is recorded, and matching continues on what is left.
proof fn lemma_fill_full_step(
    ls_orig: Seq<LevelView>,
    i0: int,
    price: u64,
    cur: Seq<LevelView>,
    cur2: Seq<LevelView>,
    ql: int,
    head: Order,
    f: Fill,
    done_prev: Seq<Fill>,
    spec_m: (Seq<Fill>, int, Seq<Order>),
    filled0: int,
)
    requires
        side_wf(cur),
        0 <= i0 < cur.len(),
        level_index(cur, price) == i0,
        cur.len() == ls_orig.len(),
        cur[i0].price == price,
        forall|k: int| 0 <= k < cur.len() && k != i0 ==> cur[k] == ls_orig[k],
        cur[i0].orders.len() > 0,
        head == cur[i0].orders[0],
        0 < head.quantity <= ql,
        f == (Fill {
            order_id: head.id,
            status: FillStatus::Full,
            price: head.price,
            quantity: head.quantity,
        }),
        cur2 == side_remove_spec(cur, head),
        spec_m.0 == done_prev + match_level(cur[i0].orders, ql).0,
        spec_m.1 == filled0 + match_level(cur[i0].orders, ql).1,
        spec_m.2 == match_level(cur[i0].orders, ql).2,
    ensures
        ({
            let ql2 = ql - head.quantity;
            if cur[i0].orders.len() == 1 {
                &&& level_index(cur2, price) == -1
                &&& cur2.len() == ls_orig.len() - 1
                &&& (forall|k: int| 0 <= k < i0 ==> cur2[k] == ls_orig[k])
                &&& (forall|k: int| i0 <= k < cur2.len() ==> cur2[k] == ls_orig[k + 1])
                &&& spec_m.0 == done_prev.push(f)
                &&& spec_m.1 == filled0 + head.quantity
                &&& spec_m.2 == Seq::<Order>::empty()
            } else {
                &&& level_index(cur2, price) == i0
                &&& cur2.len() == ls_orig.len()
                &&& cur2[i0].price == price
                &&& (forall|k: int| 0 <= k < cur2.len() && k != i0 ==> cur2[k] == ls_orig[k])
                &&& spec_m.0 == done_prev.push(f) + match_level(cur2[i0].orders, ql2).0
                &&& spec_m.1 == filled0 + head.quantity + match_level(cur2[i0].orders, ql2).1
                &&& spec_m.2 == match_level(cur2[i0].orders, ql2).2
            }
        }),
{
    let orders = cur[i0].orders;
    let ql2 = ql - head.quantity;
    assert(head.price == cur[i0].price);
    lemma_level_index_unique(cur, head.price, i0);
    assert(find_id(orders, head.id) == 0);
    let sub = orders.subrange(1, orders.len() as int);
    let m = match_level(orders, ql);
    let rec = match_level(sub, ql2);
    assert(m.0 == seq![f] + rec.0 && m.1 == head.quantity + rec.1 && m.2 == rec.2);
    assert(done_prev + (seq![f] + rec.0) =~= done_prev.push(f) + rec.0);
    if orders.len() == 1 {
        assert(cur2 == cur.remove(i0));
        assert forall|k: int| 0 <= k < cur2.len() implies (#[trigger] cur2[k].price)
            != price by {
            if k < i0 {
                assert(cur2[k] == cur[k]);
                assert(cur[k].price < cur[i0].price);
            } else {
                assert(cur2[k] == cur[k + 1]);
                assert(cur[i0].price < cur[k + 1].price);
            }
        }
        crate::book_side::lemma_level_index_props(cur2, price);
        assert(level_index(cur2, price) == -1);
        assert(sub.len() == 0);
        assert(rec.0 == Seq::<Fill>::empty() && rec.1 == 0 && rec.2 == sub);
        assert(done_prev.push(f) + Seq::<Fill>::empty() =~= done_prev.push(f));
        assert(spec_m.2 =~= Seq::<Order>::empty());
    } else {
        assert(orders.remove(0) =~= sub);
        assert(cur2 == cur.update(
            i0,
            (LevelView { price: cur[i0].price, orders: orders.remove(0) }),
        ));
        assert forall|a: int, b: int|
            0 <= a < b < cur2.len() implies (#[trigger] cur2[a].price) != (
        #[trigger] cur2[b].price) by {
            assert(cur2[a].price == cur[a].price);
            assert(cur2[b].price == cur[b].price);
        }
        lemma_level_index_unique(cur2, price, i0);
        assert(cur2[i0].orders == sub);
    }
}



/// Law: an id is in the global index exactly when an order carrying it
/// rests on one of the book's sides.  Together with the invariant's mirror
/// clauses — every resting order equals its index entry, ids are distinct
/// within a level, and an index entry rests on the side it names — the
/// index and the sides never drift apart.
pub proof fn lemma_contains_iff_has_id(book: OrderBook, id: u128)
    requires
        book.wf(),
    ensures
        book.orders@.contains_key(id) <==> (side_has_id(book.bids@, id) || side_has_id(
            book.asks@,
            id,
        )),
{
    if book.orders@.contains_key(id) {
        let o = book.orders@[id];
        if o.side == Side::Bid {
            assert(order_resting(book.bids@, o));
            let li = level_index(book.bids@, o.price);
            let k = choose|k: int|
                0 <= k < book.bids@[li].orders.len() && book.bids@[li].orders[k] == o;
            crate::book_side::lemma_level_index_props(book.bids@, o.price);
            assert(book.bids@[li].orders[k].id == id);
            assert(side_has_id(book.bids@, id));
        } else {
            assert(order_resting(book.asks@, o));
            let li = level_index(book.asks@, o.price);
            let k = choose|k: int|
                0 <= k < book.asks@[li].orders.len() && book.asks@[li].orders[k] == o;
            crate::book_side::lemma_level_index_props(book.asks@, o.price);
            assert(book.asks@[li].orders[k].id == id);
            assert(side_has_id(book.asks@, id));
        }
    }
    if side_has_id(book.bids@, id) {
        let (i, k): (int, int) = choose|i: int, k: int|
            0 <= i < book.bids@.len() && 0 <= k < book.bids@[i].orders.len() && (
            #[trigger] book.bids@[i].orders[k]).id == id;
        assert(book.orders@.contains_key(book.bids@[i].orders[k].id));
    }
    if side_has_id(book.asks@, id) {
        let (i, k): (int, int) = choose|i: int, k: int|
            0 <= i < book.asks@.len() && 0 <= k < book.asks@[i].orders.len() && (
            #[trigger] book.asks@[i].orders[k]).id == id;
        assert(book.orders@.contains_key(book.asks@[i].orders[k].id));
    }
}

impl OrderBook {
    /// The book's invariant: both sides are well formed, and the global
    /// index and the sides mirror one another exactly — an order is in the
    /// index if and only if it rests, with an identical record, in exactly
    /// one level of the side it names.
    pub open spec fn wf(&self) -> bool {
        &&& self.bids.wf()
        &&& self.asks.wf()
        &&& side_ok(self.bids@, Side::Bid, self.orders@)
        &&& side_ok(self.asks@, Side::Ask, self.orders@)
        &&& side_ids_distinct(self.bids@)
        &&& side_ids_distinct(self.asks@)
        &&& index_ok(self.orders@, self.bids@, self.asks@)
    }

    pub fn new() -> (r: OrderBook)
        ensures
            r.wf(),
            r.orders@ == Map::<u128, Order>::empty(),
            r.bids@ == Seq::<LevelView>::empty(),
            r.asks@ == Seq::<LevelView>::empty(),
            r.bids.volume == 0 && r.bids.num_orders == 0 && r.bids.depth == 0,
            r.asks.volume == 0 && r.asks.num_orders == 0 && r.asks.depth == 0,
            r.clock == 0,
    {
        OrderBook { orders: HashMap::new(), bids: BookSide::new(), asks: BookSide::new(), clock: 0 }
    }

    /// Read-only lookup of a resting order by id.
    pub fn get(&self, id: u128) -> (r: Option<&Order>)
        ensures
            match r {
                Some(o) => self.orders@.contains_key(id) && *o == self.orders@[id],
                None => !self.orders@.contains_key(id),
            },
    {
        broadcast use vstd::std_specs::hash::group_hash_axioms;

        self.orders.get(&id)
    }

    /// The side an incoming order of side `s` trades against.
    pub fn other_book_side(&self, s: Side) -> (r: &BookSide)
        ensures
            s == Side::Bid ==> r == &self.asks,
            s == Side::Ask ==> r == &self.bids,
    {
        match s {
            Side::Ask => &self.bids,
            Side::Bid => &self.asks,
        }
    }

    /// Room left on a side for one more order of the given quantity; forced
    /// by the machine widths of the counters.
    pub open spec fn can_hold(&self, s: Side, quantity: u64) -> bool {
        if s == Side::Bid {
            self.bids.volume + quantity <= u64::MAX && self.bids.num_orders < u32::MAX
        } else {
            self.asks.volume + quantity <= u64::MAX && self.asks.num_orders < u32::MAX
        }
    }

    /// Unconditional insert of a fully formed order, mirrored into the
    /// global index and the side the order names.  Ids are globally unique,
    /// so the order's id must not already rest on the book.
    pub fn append(&mut self, order: Order)
        requires
            old(self).wf(),
            order.quantity > 0,
            !old(self).orders@.contains_key(order.id),
            old(self).can_hold(order.side, order.quantity),
        ensures
            final(self).wf(),
            final(self).orders@ == old(self).orders@.insert(order.id, order),
            side_view(*final(self), order.side) == side_append_spec(
                side_view(*old(self), order.side),
                order,
            ),
            side_view(*final(self), other_side(order.side)) == side_view(
                *old(self),
                other_side(order.side),
            ),
            final(self).clock == old(self).clock,
    {
        broadcast use vstd::std_specs::hash::group_hash_axioms;

        let ghost m0 = self.orders@;
        let ghost ls0 = side_view(*old(self), order.side);
        let _ = self.orders.insert(order.id, order);
        match order.side {
            Side::Ask => self.asks.append(order),
            Side::Bid => self.bids.append(order),
        }
        proof {
            self.lemma_wf_after_append(*old(self), order);
        }
    }


    /// Delete the order with `id` from the global index and from its side,
    /// cascading level cleanup; `None`, and no change, if the id is not
    /// resting.
    pub fn remove(&mut self, id: u128) -> (r: Option<Order>)
        requires
            old(self).wf(),
        ensures
            final(self).wf(),
            final(self).clock == old(self).clock,
            match r {
                Some(o) => {
                    &&& old(self).orders@.contains_key(id)
                    &&& o == old(self).orders@[id]
                    &&& final(self).orders@ == old(self).orders@.remove(id)
                    &&& side_view(*final(self), o.side) == side_remove_spec(
                        side_view(*old(self), o.side),
                        o,
                    )
                    &&& side_view(*final(self), other_side(o.side)) == side_view(
                        *old(self),
                        other_side(o.side),
                    )
                },
                None => {
                    &&& !old(self).orders@.contains_key(id)
                    &&& final(self).orders@ == old(self).orders@
                    &&& final(self).bids == old(self).bids
                    &&& final(self).asks == old(self).asks
                },
            },
    {
        broadcast use vstd::std_specs::hash::group_hash_axioms;

        let r = self.orders.remove(&id);
        match r {
            None => {
                proof {
                    assert(self.orders@ =~= old(self).orders@);
                }
                None
            },
            Some(o) => {
                let removed = match o.side {
                    Side::Ask => self.asks.remove(o),
                    Side::Bid => self.bids.remove(o),
                };
                proof {
                    self.lemma_wf_after_remove(*old(self), id, o);
                    assert(removed == Some(o));
                }
                removed
            },
        }
    }

    /// Re-establishes the book invariant after `remove`'s two steps, and
    /// shows the side handed back exactly the indexed record.
    proof fn lemma_wf_after_remove(&self, prev: OrderBook, id: u128, o: Order)
        requires
            prev.wf(),
            prev.orders@.contains_key(id),
            o == prev.orders@[id],
            self.orders@ == prev.orders@.remove(id),
            side_view(*self, o.side) == side_remove_spec(side_view(prev, o.side), o),
            side_view(*self, other_side(o.side)) == side_view(prev, other_side(o.side)),
            self.bids.wf(),
            self.asks.wf(),
            self.clock == prev.clock,
        ensures
            self.wf(),
            side_removed_order(side_view(prev, o.side), o) == Some(o),
    {
        let s = o.side;
        let ls0 = side_view(prev, s);
        let ls1 = side_view(*self, s);
        let lo = side_view(prev, other_side(s));
        let m0 = prev.orders@;
        let m1 = self.orders@;
        assert(order_resting(ls0, o));
        let li = level_index(ls0, o.price);
        crate::book_side::lemma_level_index_props(ls0, o.price);
        crate::price_level::lemma_find_id_props(ls0[li].orders, o.id);
        let k0 = choose|k: int| 0 <= k < ls0[li].orders.len() && ls0[li].orders[k] == o;
        assert(ls0[li].orders[k0].id == o.id);
        let j = find_id(ls0[li].orders, o.id);
        assert(0 <= j < ls0[li].orders.len());
        assert(ls0[li].orders[j] == o) by {
            assert(ls0[li].orders[j].id == o.id);
        }
        assert(side_removed_order(ls0, o) == Some(o));
        let deleted = ls0[li].orders.len() == 1;
        if deleted {
            assert(j == 0);
            assert(ls1 =~= ls0.remove(li));
        } else {
            assert(ls1 =~= ls0.update(
                li,
                (LevelView { price: ls0[li].price, orders: ls0[li].orders.remove(j) }),
            ));
        }
        lemma_shrink_side(ls0, ls1, s, m0, o, li, j, deleted);
        lemma_untouched_side_shrink_ok(lo, other_side(s), m0, o);
        lemma_shrink_resting(ls0, ls1, o, li, j, deleted);
        assert forall|id2: u128| #[trigger] m1.contains_key(id2) implies {
            let x = m1[id2];
            &&& x.id == id2
            &&& x.quantity > 0
            &&& (x.side == Side::Bid ==> order_resting(side_view(*self, Side::Bid), x))
            &&& (x.side == Side::Ask ==> order_resting(side_view(*self, Side::Ask), x))
        } by {
            assert(m0.contains_key(id2));
            let x = m0[id2];
            assert(x.id == id2);
            if x.side == s {
                assert(order_resting(ls0, x));
                assert(order_resting(ls1, x));
            } else {
                assert(order_resting(lo, x));
            }
        }
        assert(index_ok(m1, self.bids@, self.asks@));
    }


    /// Whether the side being drained still has a level at `price`.
    fn drained_has_level(&self, drain: Side, price: u64) -> (b: bool)
        requires
            drain == Side::Bid ==> self.bids.wf(),
            drain == Side::Ask ==> self.asks.wf(),
        ensures
            b == (level_index(side_view(*self, drain), price) >= 0),
    {
        let side_ref = match drain {
            Side::Bid => &self.bids,
            Side::Ask => &self.asks,
        };
        side_ref.level_at(price).is_some()
    }

    /// The oldest order of the level at `price` on the side being drained.
    fn head_at(&self, drain: Side, price: u64) -> (h: Order)
        requires
            drain == Side::Bid ==> self.bids.wf(),
            drain == Side::Ask ==> self.asks.wf(),
            level_index(side_view(*self, drain), price) >= 0,
        ensures
            h == side_view(*self, drain)[level_index(side_view(*self, drain), price)].orders[0],
    {
        proof {
            crate::book_side::lemma_level_index_props(side_view(*self, drain), price);
            let ls = side_view(*self, drain);
            let li = level_index(ls, price);
            assert(ls[li].orders.len() > 0);
        }
        let side_ref = match drain {
            Side::Bid => &self.bids,
            Side::Ask => &self.asks,
        };
        match side_ref.level_at(price) {
            Some(l) => {
                match l.front() {
                    Some(h) => *h,
                    None => {
                        proof {
                            assert(false);
                        }
                        Order { id: 0, side: drain, timestamp: 0, price: 0, quantity: 0 }
                    },
                }
            },
            None => {
                proof {
                    assert(false);
                }
                Order { id: 0, side: drain, timestamp: 0, price: 0, quantity: 0 }
            },
        }
    }

    /// Partially fill the head order of the level at `price`: reduce it in
    /// place by `take`, leaving its id, timestamp and queue position
    /// untouched, and mirror the reduced record into the global index.
    fn partial_fill_front(&mut self, drain: Side, price: u64, take: u64) -> (f: Fill)
        requires
            old(self).wf(),
            level_index(side_view(*old(self), drain), price) >= 0,
            take > 0,
            take < side_view(*old(self), drain)[level_index(
                side_view(*old(self), drain),
                price,
            )].orders[0].quantity,
        ensures
            final(self).wf(),
            final(self).clock == old(self).clock,
            ({
                let ls0 = side_view(*old(self), drain);
                let li = level_index(ls0, price);
                let head = ls0[li].orders[0];
                let red = reduced_order(head, take as int);
                &&& f == (Fill {
                    order_id: head.id,
                    status: FillStatus::Partial,
                    price: head.price,
                    quantity: take,
                })
                &&& side_view(*final(self), drain) == ls0.update(
                    li,
                    (LevelView { price, orders: ls0[li].orders.update(0, red) }),
                )
                &&& side_view(*final(self), other_side(drain)) == side_view(
                    *old(self),
                    other_side(drain),
                )
                &&& final(self).orders@ == old(self).orders@.insert(head.id, red)
            }),
    {
        broadcast use vstd::std_specs::hash::group_hash_axioms;

        let ghost ls0 = side_view(*old(self), drain);
        let ghost li = level_index(ls0, price);
        proof {
            crate::book_side::lemma_level_index_props(ls0, price);
        }
        let head = self.head_at(drain, price);
        let red = Order {
            id: head.id,
            side: head.side,
            timestamp: head.timestamp,
            price: head.price,
            quantity: head.quantity - take,
        };
        match drain {
            Side::Bid => self.bids.reduce_front_at(price, red),
            Side::Ask => self.asks.reduce_front_at(price, red),
        }
        let _ = self.orders.insert(red.id, red);
        proof {
            self.lemma_wf_after_reduce(*old(self), drain, price, take);
        }
        Fill { order_id: head.id, status: FillStatus::Partial, price: head.price, quantity: take }
    }

    /// Re-establishes the book invariant after a partial fill's two steps.
    proof fn lemma_wf_after_reduce(&self, prev: OrderBook, drain: Side, price: u64, take: u64)
        requires
            prev.wf(),
            level_index(side_view(prev, drain), price) >= 0,
            take > 0,
            take < side_view(prev, drain)[level_index(side_view(prev, drain), price)].orders[0].quantity,
            ({
                let ls0 = side_view(prev, drain);
                let li = level_index(ls0, price);
                let head = ls0[li].orders[0];
                let red = reduced_order(head, take as int);
                &&& side_view(*self, drain) == ls0.update(
                    li,
                    (LevelView { price, orders: ls0[li].orders.update(0, red) }),
                )
                &&& side_view(*self, other_side(drain)) == side_view(prev, other_side(drain))
                &&& self.orders@ == prev.orders@.insert(head.id, red)
            }),
            self.bids.wf(),
            self.asks.wf(),
        ensures
            self.wf(),
    {
        let ls0 = side_view(prev, drain);
        let ls1 = side_view(*self, drain);
        let lo = side_view(prev, other_side(drain));
        let m0 = prev.orders@;
        let m1 = self.orders@;
        let li = level_index(ls0, price);
        crate::book_side::lemma_level_index_props(ls0, price);
        let head = ls0[li].orders[0];
        let red = reduced_order(head, take as int);
        assert(m0.contains_key(head.id) && m0[head.id] == head && head.side == drain);
        lemma_reduce_side(ls0, ls1, drain, m0, head, red, li);
        lemma_untouched_side_shrink_swap(lo, other_side(drain), m0, head, red);
        lemma_reduce_resting(ls0, ls1, head, red, li);
        assert forall|id2: u128| #[trigger] m1.contains_key(id2) implies {
            let x = m1[id2];
            &&& x.id == id2
            &&& x.quantity > 0
            &&& (x.side == Side::Bid ==> order_resting(side_view(*self, Side::Bid), x))
            &&& (x.side == Side::Ask ==> order_resting(side_view(*self, Side::Ask), x))
        } by {
            if id2 == head.id {
                assert(m1[id2] == red);
                assert(order_resting(ls1, red));
            } else {
                assert(m0.contains_key(id2));
                let x = m0[id2];
                if x.side == drain {
                    assert(order_resting(ls0, x));
                    assert(order_resting(ls1, x));
                } else {
                    assert(order_resting(lo, x));
                }
            }
        }
        assert(index_ok(m1, self.bids@, self.asks@));
    }


    /// Drain the level at `price` on the side being drained, oldest order
    /// first: each full fill removes its resting order through `remove`, a
    /// final partial fill reduces the head in place, and the level
    /// disappears from both indices with its last order.
    #[verifier::rlimit(30)]
    fn fill_at_price_level(&mut self, drain: Side, price: u64, quantity: u64) -> (r: OrderResult)
        requires
            old(self).wf(),
            quantity > 0,
            level_index(side_view(*old(self), drain), price) >= 0,
        ensures
            final(self).wf(),
            final(self).clock == old(self).clock,
            r.partial.is_none(),
            ({
                let ls0 = side_view(*old(self), drain);
                let i0 = level_index(ls0, price);
                let m = match_level(ls0[i0].orders, quantity as int);
                &&& r.done@ == m.0
                &&& r.quantity_filled == m.1
                &&& 0 < r.quantity_filled <= quantity
                &&& side_view(*final(self), drain) == (if m.2.len() == 0 {
                    ls0.remove(i0)
                } else {
                    ls0.update(i0, (LevelView { price, orders: m.2 }))
                })
                &&& side_view(*final(self), other_side(drain)) == side_view(
                    *old(self),
                    other_side(drain),
                )
            }),
    {
        let ghost ls_orig = side_view(*old(self), drain);
        let ghost i0 = level_index(ls_orig, price);
        let ghost orig = ls_orig[i0].orders;
        let ghost spec_m = match_level(orig, quantity as int);
        proof {
            crate::book_side::lemma_level_index_props(ls_orig, price);
            assert forall|k: int| 0 <= k < orig.len() implies (#[trigger] orig[k]).quantity
                > 0 by {
                assert(ls_orig[i0].orders[k].quantity > 0);
            }
            lemma_match_level_props(orig, quantity as int);
        }
        let mut quantity_left: u64 = quantity;
        let mut done: Vec<Fill> = Vec::new();
        let mut filled: u64 = 0;
        proof {
            assert(Seq::<Fill>::empty() + spec_m.0 =~= spec_m.0);
        }
        while quantity_left > 0 && self.drained_has_level(drain, price)
            invariant
                self.wf(),
                filled + quantity_left == quantity,
                side_view(*self, other_side(drain)) == side_view(*old(self), other_side(drain)),
                self.clock == old(self).clock,
                ({
                    let cur = side_view(*self, drain);
                    let li = level_index(cur, price);
                    if li >= 0 {
                        let tail = match_level(cur[i0].orders, quantity_left as int);
                        &&& li == i0
                        &&& cur.len() == ls_orig.len()
                        &&& cur[i0].price == price
                        &&& (forall|k: int| 0 <= k < cur.len() && k != i0 ==> cur[k] == ls_orig[k])
                        &&& spec_m.0 == done@ + tail.0
                        &&& spec_m.1 == filled + tail.1
                        &&& spec_m.2 == tail.2
                    } else {
                        &&& cur.len() == ls_orig.len() - 1
                        &&& (forall|k: int| 0 <= k < i0 ==> cur[k] == ls_orig[k])
                        &&& (forall|k: int| i0 <= k < cur.len() ==> cur[k] == ls_orig[k + 1])
                        &&& spec_m.0 == done@
                        &&& spec_m.1 == filled
                        &&& spec_m.2 == Seq::<Order>::empty()
                    }
                }),
            decreases quantity_left,
        {
            let ghost cur = side_view(*self, drain);
            let ghost li = level_index(cur, price);
            let ghost orders = cur[li].orders;
            proof {
                lemma_side_view_wf(*self, drain);
                crate::book_side::lemma_level_index_props(cur, price);
            }
            let head = self.head_at(drain, price);
            proof {
                assert(cur[li].orders[0] == head);
                assert(head.quantity > 0);
                assert(head.price == price);
            }
            if quantity_left < head.quantity {
                let f = self.partial_fill_front(drain, price, quantity_left);
                let ghost done_prev = done@;
                done.push(f);
                filled = filled + quantity_left;
                proof {
                    lemma_side_view_wf(*self, drain);
                    lemma_fill_partial_step(
                        ls_orig,
                        i0,
                        price,
                        cur,
                        side_view(*self, drain),
                        quantity_left as int,
                        f,
                        done_prev,
                        spec_m,
                        filled - quantity_left,
                    );
                }
                quantity_left = 0;
            } else {
                proof {
                    assert(self.orders@.contains_key(head.id) && self.orders@[head.id] == head
                        && head.side == drain);
                }
                let removed = self.remove(head.id);
                match removed {
                    Some(o) => {
                        proof {
                            assert(o == head);
                        }
                        let ghost done_prev = done@;
                        let f = Fill {
                            order_id: o.id,
                            status: FillStatus::Full,
                            price: o.price,
                            quantity: o.quantity,
                        };
                        done.push(f);
                        filled = filled + o.quantity;
                        quantity_left = quantity_left - o.quantity;
                        proof {
                            lemma_side_view_wf(*self, drain);
                            lemma_fill_full_step(
                                ls_orig,
                                i0,
                                price,
                                cur,
                                side_view(*self, drain),
                                quantity_left + head.quantity,
                                head,
                                f,
                                done_prev,
                                spec_m,
                                filled - head.quantity,
                            );
                        }
                    },
                    None => {
                        proof {
                            assert(false);
                        }
                    },
                }
            }
        }
        proof {
            lemma_side_view_wf(*self, drain);
            let cur = side_view(*self, drain);
            let li = level_index(cur, price);
            crate::book_side::lemma_level_index_props(cur, price);
            if li >= 0 {
                let tail = match_level(cur[i0].orders, quantity_left as int);
                assert(quantity_left == 0);
                assert(tail.0 == Seq::<Fill>::empty() && tail.1 == 0 && tail.2 == cur[i0].orders);
                assert(spec_m.0 =~= done@);
                assert(cur[i0].orders.len() > 0);
                assert(spec_m.2.len() > 0);
                assert(cur =~= ls_orig.update(i0, (LevelView { price, orders: spec_m.2 })));
            } else {
                assert(spec_m.2.len() == 0);
                assert(cur =~= ls_orig.remove(i0));
            }
        }
        OrderResult { done, partial: None, quantity_filled: filled }
    }


    /// Whether the opposing side still has resting orders.
    fn opposing_nonempty(&self, side: Side) -> (b: bool)
        requires
            self.wf(),
        ensures
            b == (side_view(*self, other_side(side)).len() > 0),
    {
        proof {
            let ov = side_view(*self, other_side(side));
            lemma_side_view_wf(*self, other_side(side));
            if side == Side::Bid {
                assert(ov == self.asks@);
                assert(self.asks.num_orders == crate::book_side::side_orders_count(ov));
            } else {
                assert(ov == self.bids@);
                assert(self.bids.num_orders == crate::book_side::side_orders_count(ov));
            }
            if ov.len() > 0 {
                crate::book_side::lemma_side_count_ge_len(ov);
            }
        }
        self.other_book_side(side).num_orders > 0
    }

    /// The opposing best price: the lowest ask for a bid, the highest bid
    /// for an ask, read through the ordered index.
    fn best_opposing_price(&self, side: Side) -> (p: Option<u64>)
        requires
            self.wf(),
        ensures
            ({
                let ov = side_view(*self, other_side(side));
                match p {
                    Some(k) => ov.len() > 0 && k == (if side == Side::Bid {
                        ov[0].price
                    } else {
                        ov[ov.len() - 1].price
                    }),
                    None => ov.len() == 0,
                }
            }),
    {
        match side {
            Side::Bid => match self.asks.min_price_level() {
                Some(l) => Some(l.price),
                None => None,
            },
            Side::Ask => match self.bids.max_price_level() {
                Some(l) => Some(l.price),
                None => None,
            },
        }
    }

    /// Whether the opposing best level exists and crosses the limit price;
    /// the boundary is inclusive.
    fn opposing_crosses(&self, side: Side, limit: u64) -> (b: bool)
        requires
            self.wf(),
        ensures
            ({
                let ov = side_view(*self, other_side(side));
                b == (ov.len() > 0 && price_ok(
                    side,
                    Some(limit),
                    (if side == Side::Bid {
                        ov[0].price
                    } else {
                        ov[ov.len() - 1].price
                    }),
                ))
            }),
    {
        match self.best_opposing_price(side) {
            None => false,
            Some(k) => match side {
                Side::Bid => limit >= k,
                Side::Ask => limit <= k,
            },
        }
    }


    /// Drain the opposing best level once: the whole outer-loop step of a
    /// submission.  Returns the quantity traded at that level and appends
    /// its fills to `done`.
    #[verifier::rlimit(100)]
    fn drain_best(
        &mut self,
        side: Side,
        drain: Side,
        limit: Option<u64>,
        quantity_left: u64,
        done: &mut Vec<Fill>,
    ) -> (filled_now: u64)
        requires
            old(self).wf(),
            drain == other_side(side),
            quantity_left > 0,
            side_view(*old(self), drain).len() > 0,
            ({
                let ov = side_view(*old(self), drain);
                price_ok(
                    side,
                    limit,
                    (if side == Side::Bid {
                        ov[0].price
                    } else {
                        ov[ov.len() - 1].price
                    }),
                )
            }),
        ensures
            final(self).wf(),
            final(self).clock == old(self).clock,
            side_view(*final(self), side) == side_view(*old(self), side),
            0 < filled_now <= quantity_left,
            ({
                let ov = side_view(*old(self), drain);
                let cur2 = side_view(*final(self), drain);
                let t = match_side(ov, quantity_left as int, side, limit);
                let t2 = match_side(cur2, quantity_left - filled_now, side, limit);
                &&& old(done)@ + t.0 == final(done)@ + t2.0
                &&& t.1 == filled_now + t2.1
                &&& t.2 == t2.2
            }),
    {
        let ghost cur = side_view(*old(self), drain);
        proof {
            lemma_side_view_wf(*old(self), drain);
        }
        match self.best_opposing_price(side) {
            None => {
                proof {
                    assert(false);
                }
                0
            },
            Some(k) => {
                let ghost i0: int = if side == Side::Bid {
                    0
                } else {
                    cur.len() - 1
                };
                proof {
                    lemma_level_index_unique(cur, k, i0);
                    assert forall|j: int| 0 <= j < cur[i0].orders.len() implies (
                    #[trigger] cur[i0].orders[j]).quantity > 0 by {}
                    lemma_match_level_props(cur[i0].orders, quantity_left as int);
                }
                let result = self.fill_at_price_level(drain, k, quantity_left);
                let ghost done_prev = done@;
                let ghost m = match_level(cur[i0].orders, quantity_left as int);
                let mut fills = result.done;
                done.append(&mut fills);
                proof {
                    let t = match_side(cur, quantity_left as int, side, limit);
                    let cur2 = side_view(*self, drain);
                    let t2 = match_side(cur2, quantity_left - m.1, side, limit);
                    if m.2.len() == 0 {
                        let rec = match_side(cur.remove(i0), quantity_left - m.1, side, limit);
                        assert(t.0 == m.0 + rec.0 && t.1 == m.1 + rec.1 && t.2 == rec.2);
                        assert(done_prev + (m.0 + rec.0) =~= (done_prev + m.0) + rec.0);
                    } else {
                        assert(m.1 == quantity_left);
                        assert(t.0 == m.0 && t.1 == m.1 && t.2 == cur.update(
                            i0,
                            (LevelView { price: cur[i0].price, orders: m.2 }),
                        ));
                        assert(t.2 == cur2);
                        assert(t2.0 == Seq::<Fill>::empty() && t2.1 == 0 && t2.2 == cur2);
                        assert(done_prev + m.0 + Seq::<Fill>::empty() =~= done_prev + m.0);
                    }
                }
                result.quantity_filled
            },
        }
    }

    /// Execute a market order: drain the opposing side, best price first,
    /// until the quantity is satisfied or liquidity runs out.  Whatever is
    /// left unfilled is not placed on the book.
    #[verifier::rlimit(100)]
    pub fn submit_market_order(&mut self, side: Side, quantity: u64) -> (r: OrderResult)
        requires
            old(self).wf(),
            quantity > 0,
        ensures
            final(self).wf(),
            final(self).clock == old(self).clock,
            r.partial.is_none(),
            ({
                let ov = side_view(*old(self), other_side(side));
                let m = match_side(ov, quantity as int, side, None);
                &&& r.done@ == m.0
                &&& r.quantity_filled == m.1
                &&& 0 <= r.quantity_filled <= quantity
                &&& side_view(*final(self), other_side(side)) == m.2
                &&& side_view(*final(self), side) == side_view(*old(self), side)
            }),
    {
        let drain = match side {
            Side::Bid => Side::Ask,
            Side::Ask => Side::Bid,
        };
        let ghost ov0 = side_view(*old(self), other_side(side));
        let ghost spec_s = match_side(ov0, quantity as int, side, None);
        let mut quantity_left: u64 = quantity;
        let mut done: Vec<Fill> = Vec::new();
        let mut filled: u64 = 0;
        proof {
            assert(drain == other_side(side));
            assert(Seq::<Fill>::empty() + spec_s.0 =~= spec_s.0);
        }
        while quantity_left > 0 && self.opposing_nonempty(side)
            invariant
                self.wf(),
                drain == other_side(side),
                filled + quantity_left == quantity,
                side_view(*self, side) == side_view(*old(self), side),
                self.clock == old(self).clock,
                ({
                    let cur = side_view(*self, other_side(side));
                    let t = match_side(cur, quantity_left as int, side, None);
                    &&& spec_s.0 == done@ + t.0
                    &&& spec_s.1 == filled + t.1
                    &&& spec_s.2 == t.2
                }),
            decreases quantity_left,
        {
            let traded = self.drain_best(side, drain, None, quantity_left, &mut done);
            filled = filled + traded;
            quantity_left = quantity_left - traded;
        }
        proof {
            let cur = side_view(*self, other_side(side));
            let t = match_side(cur, quantity_left as int, side, None);
            assert(t.0 == Seq::<Fill>::empty() && t.1 == 0 && t.2 == cur);
            assert(spec_s.0 =~= done@);
        }
        OrderResult { done, partial: None, quantity_filled: filled }
    }



    /// A side that kept its levels can hold what the old side could.
    proof fn lemma_can_hold_transfer(a: OrderBook, b: OrderBook, s: Side, q1: u64, q2: u64)
        requires
            a.wf(),
            b.wf(),
            side_view(a, s) == side_view(b, s),
            a.can_hold(s, q1),
            q2 <= q1,
        ensures
            b.can_hold(s, q2),
    {
        if s == Side::Bid {
            assert(a.bids.volume == crate::book_side::side_volume_sum(side_view(a, s)));
            assert(b.bids.volume == crate::book_side::side_volume_sum(side_view(b, s)));
            assert(a.bids.num_orders == crate::book_side::side_orders_count(side_view(a, s)));
            assert(b.bids.num_orders == crate::book_side::side_orders_count(side_view(b, s)));
        } else {
            assert(a.asks.volume == crate::book_side::side_volume_sum(side_view(a, s)));
            assert(b.asks.volume == crate::book_side::side_volume_sum(side_view(b, s)));
            assert(a.asks.num_orders == crate::book_side::side_orders_count(side_view(a, s)));
            assert(b.asks.num_orders == crate::book_side::side_orders_count(side_view(b, s)));
        }
    }

    /// Rest an unfilled remainder on the submitting side, unless its id is
    /// already on the book (ids are globally unique, so a fresh id never
    /// is; a clashing one rests nothing).
    #[verifier::rlimit(50)]
    fn rest_remainder(
        &mut self,
        side: Side,
        price: u64,
        id: u128,
        timestamp: u64,
        ql: u64,
    ) -> (p: Option<Order>)
        requires
            old(self).wf(),
            ql > 0,
            old(self).can_hold(side, ql),
        ensures
            final(self).wf(),
            final(self).clock == old(self).clock,
            ({
                let own = side_view(*old(self), side);
                let opp = side_view(*old(self), other_side(side));
                let o = Order { id, side, timestamp, price, quantity: ql };
                &&& (!side_has_id(own, id) && !side_has_id(opp, id) ==> p == Some(o)
                    && side_view(*final(self), side) == side_append_spec(own, o)
                    && side_view(*final(self), other_side(side)) == opp)
                &&& ((side_has_id(own, id) || side_has_id(opp, id)) ==> p.is_none()
                    && side_view(*final(self), side) == own && side_view(
                    *final(self),
                    other_side(side),
                ) == opp)
            }),
    {
        let resting = Order { id, side, timestamp, price, quantity: ql };
        proof {
            lemma_contains_iff_has_id(*self, id);
            if side == Side::Bid {
                assert(side_view(*self, Side::Bid) == self.bids@);
                assert(side_view(*self, Side::Ask) == self.asks@);
            } else {
                assert(side_view(*self, Side::Ask) == self.asks@);
                assert(side_view(*self, Side::Bid) == self.bids@);
            }
        }
        if self.get(id).is_none() {
            self.append(resting);
            Some(resting)
        } else {
            None
        }
    }

    /// Execute a limit order whose resting remainder, if any, takes the
    /// given id and timestamp: drain the opposing side while its best
    /// price crosses the limit (the boundary is inclusive), then rest any
    /// unfilled quantity on the submitting side — unless the id is already
    /// on the book, in which case nothing rests.
    pub fn submit_limit_order_with_id(
        &mut self,
        side: Side,
        quantity: u64,
        price: u64,
        id: u128,
        timestamp: u64,
    ) -> (r: OrderResult)
        requires
            old(self).wf(),
            quantity > 0,
            old(self).can_hold(side, quantity),
        ensures
            final(self).wf(),
            final(self).clock == old(self).clock,
            ({
                let ov = side_view(*old(self), other_side(side));
                let own0 = side_view(*old(self), side);
                let m = match_side(ov, quantity as int, side, Some(price));
                let o = Order {
                    id,
                    side,
                    timestamp,
                    price,
                    quantity: (quantity - m.1) as u64,
                };
                &&& r.done@ == m.0
                &&& r.quantity_filled == m.1
                &&& 0 <= r.quantity_filled <= quantity
                &&& side_view(*final(self), other_side(side)) == m.2
                &&& (m.1 == quantity ==> r.partial.is_none() && side_view(*final(self), side)
                    == own0)
                &&& (m.1 < quantity && !side_has_id(own0, id) && !side_has_id(m.2, id)
                    ==> r.partial == Some(o) && side_view(*final(self), side)
                    == side_append_spec(own0, o))
                &&& (m.1 < quantity && (side_has_id(own0, id) || side_has_id(m.2, id))
                    ==> r.partial.is_none() && side_view(*final(self), side) == own0)
            }),
    {
        let drain = match side {
            Side::Bid => Side::Ask,
            Side::Ask => Side::Bid,
        };
        let ghost ov0 = side_view(*old(self), other_side(side));
        let ghost own0 = side_view(*old(self), side);
        let ghost spec_s = match_side(ov0, quantity as int, side, Some(price));
        let mut quantity_left: u64 = quantity;
        let mut done: Vec<Fill> = Vec::new();
        let mut filled: u64 = 0;
        proof {
            assert(drain == other_side(side));
            assert(Seq::<Fill>::empty() + spec_s.0 =~= spec_s.0);
        }
        while quantity_left > 0 && self.opposing_crosses(side, price)
            invariant
                self.wf(),
                drain == other_side(side),
                filled + quantity_left == quantity,
                side_view(*self, side) == side_view(*old(self), side),
                self.clock == old(self).clock,
                ({
                    let cur = side_view(*self, other_side(side));
                    let t = match_side(cur, quantity_left as int, side, Some(price));
                    &&& spec_s.0 == done@ + t.0
                    &&& spec_s.1 == filled + t.1
                    &&& spec_s.2 == t.2
                }),
            decreases quantity_left,
        {
            let traded = self.drain_best(side, drain, Some(price), quantity_left, &mut done);
            filled = filled + traded;
            quantity_left = quantity_left - traded;
        }
        proof {
            let cur = side_view(*self, other_side(side));
            let t = match_side(cur, quantity_left as int, side, Some(price));
            assert(t.0 == Seq::<Fill>::empty() && t.1 == 0 && t.2 == cur);
            assert(spec_s.0 =~= done@);
            assert(spec_s.1 == filled && spec_s.2 == cur);
        }
        let mut partial: Option<Order> = None;
        if quantity_left > 0 {
            proof {
                Self::lemma_can_hold_transfer(*old(self), *self, side, quantity, quantity_left);
            }
            partial = self.rest_remainder(side, price, id, timestamp, quantity_left);
        }
        OrderResult { done, partial, quantity_filled: filled }
    }

    /// Execute a limit order: drain the opposing side while its best price
    /// crosses the limit, then rest any unfilled remainder as a new order
    /// with a freshly drawn id and the book's current timestamp.
    pub fn submit_limit_order(&mut self, side: Side, quantity: u64, price: u64) -> (r:
        OrderResult)
        requires
            old(self).wf(),
            quantity > 0,
            old(self).can_hold(side, quantity),
        ensures
            final(self).wf(),
            final(self).clock >= old(self).clock,
            ({
                let ov = side_view(*old(self), other_side(side));
                let own0 = side_view(*old(self), side);
                let m = match_side(ov, quantity as int, side, Some(price));
                &&& r.done@ == m.0
                &&& r.quantity_filled == m.1
                &&& 0 <= r.quantity_filled <= quantity
                &&& side_view(*final(self), other_side(side)) == m.2
                &&& (match r.partial {
                    Some(o) => {
                        &&& m.1 < quantity
                        &&& o.side == side
                        &&& o.price == price
                        &&& o.quantity == quantity - m.1
                        &&& o.timestamp == old(self).clock
                        &&& side_view(*final(self), side) == side_append_spec(own0, o)
                    },
                    None => side_view(*final(self), side) == own0,
                })
            }),
    {
        let id = crate::order::fresh_order_id();
        let ts = self.clock;
        self.clock = if self.clock < u64::MAX {
            self.clock + 1
        } else {
            self.clock
        };
        self.submit_limit_order_with_id(side, quantity, price, id, ts)
    }

    /// Re-establishes the book invariant after `append`'s two steps.
    proof fn lemma_wf_after_append(&self, prev: OrderBook, order: Order)
        requires
            prev.wf(),
            order.quantity > 0,
            !prev.orders@.contains_key(order.id),
            self.orders@ == prev.orders@.insert(order.id, order),
            side_view(*self, order.side) == side_append_spec(
                side_view(prev, order.side),
                order,
            ),
            side_view(*self, other_side(order.side)) == side_view(prev, other_side(order.side)),
            self.bids.wf(),
            self.asks.wf(),
        ensures
            self.wf(),
    {
        let s = order.side;
        let ls0 = side_view(prev, s);
        let ls1 = side_view(*self, s);
        let lo = side_view(prev, other_side(s));
        let m0 = prev.orders@;
        let m1 = self.orders@;
        let li = level_index(ls0, order.price);
        crate::book_side::lemma_level_index_props(ls0, order.price);
        crate::book_side::lemma_insert_pos_props(ls0, order.price);
        let existing = li >= 0;
        let pos = if existing {
            li
        } else {
            crate::book_side::insert_pos(ls0, order.price)
        };
        assert(ls1[pos].price == order.price);
        if existing {
            assert(ls1[pos].orders == ls0[pos].orders.push(order));
        } else {
            assert(ls1[pos].orders =~= seq![order]);
        }
        lemma_grow_side(ls0, ls1, s, m0, order, pos, existing);
        lemma_untouched_side_ok(lo, other_side(s), m0, order);
        lemma_grow_resting(ls0, ls1, order, pos, existing);
        assert forall|id: u128| #[trigger] m1.contains_key(id) implies {
            let o = m1[id];
            &&& o.id == id
            &&& o.quantity > 0
            &&& (o.side == Side::Bid ==> order_resting(side_view(*self, Side::Bid), o))
            &&& (o.side == Side::Ask ==> order_resting(side_view(*self, Side::Ask), o))
        } by {
            if id != order.id {
                assert(m0.contains_key(id));
                let o = m0[id];
                if o.side == s {
                    assert(order_resting(ls0, o));
                    assert(order_resting(ls1, o));
                } else {
                    assert(order_resting(lo, o));
                }
            }
        }
        assert(index_ok(m1, self.bids@, self.asks@));
    }
}

/// After an append, every order of the grown side is still mirrored in the
/// index, and ids stay distinct within each level.
proof fn lemma_grow_side(
    ls0: Seq<LevelView>,
    ls1: Seq<LevelView>,
    s: Side,
    m0: Map<u128, Order>,
    o: Order,
    pos: int,
    existing: bool,
)
    requires
        side_ok(ls0, s, m0),
        side_ids_distinct(ls0),
        !m0.contains_key(o.id),
        o.side == s,
        0 <= pos < ls1.len(),
        existing ==> ls1.len() == ls0.len() && ls1[pos].orders == ls0[pos].orders.push(o) && (
        forall|i: int| 0 <= i < ls1.len() && i != pos ==> ls1[i] == ls0[i]),
        !existing ==> ls1.len() == ls0.len() + 1 && ls1[pos].orders == seq![o] && (forall|i: int|
            0 <= i < pos ==> ls1[i] == ls0[i]) && (forall|i: int|
            pos < i < ls1.len() ==> ls1[i] == ls0[i - 1]),
    ensures
        side_ok(ls1, s, m0.insert(o.id, o)),
        side_ids_distinct(ls1),
{
    let m1 = m0.insert(o.id, o);
    assert forall|i: int, k: int|
        0 <= i < ls0.len() && 0 <= k < ls0[i].orders.len() implies (#[trigger] ls0[
    i].orders[k]).id != o.id by {
        if ls0[i].orders[k].id == o.id {
            assert(m0.contains_key(o.id));
        }
    }
    assert forall|i: int, k: int|
        0 <= i < ls1.len() && 0 <= k < ls1[i].orders.len() implies {
        let x = #[trigger] ls1[i].orders[k];
        &&& m1.contains_key(x.id)
        &&& m1[x.id] == x
        &&& x.side == s
    } by {
        if i == pos && k == ls1[pos].orders.len() - 1 {
            assert(ls1[i].orders[k] == o);
        } else {
            let oi = if existing || i < pos {
                i
            } else {
                i - 1
            };
            assert(ls1[i].orders[k] == ls0[oi].orders[k]);
        }
    }
    assert forall|i: int, k1: int, k2: int|
        0 <= i < ls1.len() && 0 <= k1 < k2 < ls1[i].orders.len() implies (#[trigger] ls1[
    i].orders[k1]).id != (#[trigger] ls1[i].orders[k2]).id by {
        if existing && i == pos && k2 == ls1[pos].orders.len() - 1 {
            assert(ls1[i].orders[k1] == ls0[i].orders[k1]);
            assert(ls1[i].orders[k2] == o);
        } else {
            let oi = if existing || i < pos {
                i
            } else {
                i - 1
            };
            assert(ls1[i].orders[k1] == ls0[oi].orders[k1]);
            assert(ls1[i].orders[k2] == ls0[oi].orders[k2]);
        }
    }
}

/// A side untouched by an append of a fresh id keeps its mirror property.
proof fn lemma_untouched_side_ok(ls: Seq<LevelView>, s: Side, m0: Map<u128, Order>, o: Order)
    requires
        side_ok(ls, s, m0),
        !m0.contains_key(o.id),
    ensures
        side_ok(ls, s, m0.insert(o.id, o)),
{
    let m1 = m0.insert(o.id, o);
    assert forall|i: int, k: int|
        0 <= i < ls.len() && 0 <= k < ls.index(i).orders.len() implies {
        let x = #[trigger] ls.index(i).orders[k];
        &&& m1.contains_key(x.id)
        &&& m1[x.id] == x
        &&& x.side == s
    } by {
        if ls[i].orders[k].id == o.id {
            assert(m0.contains_key(o.id));
        }
    }
}

/// After an append, the new order rests on the side and every order that
/// rested before still rests.
proof fn lemma_grow_resting(ls0: Seq<LevelView>, ls1: Seq<LevelView>, o: Order, pos: int, existing: bool)
    requires
        0 <= pos < ls1.len(),
        ls1[pos].price == o.price,
        forall|a: int, b: int|
            0 <= a < b < ls1.len() ==> (#[trigger] ls1[a].price) != (#[trigger] ls1[b].price),
        existing ==> ls1.len() == ls0.len() && ls1[pos].orders == ls0[pos].orders.push(o) && (
        forall|i: int| 0 <= i < ls1.len() && i != pos ==> ls1[i] == ls0[i]),
        !existing ==> ls1.len() == ls0.len() + 1 && ls1[pos].orders == seq![o] && (forall|i: int|
            0 <= i < pos ==> ls1[i] == ls0[i]) && (forall|i: int|
            pos < i < ls1.len() ==> ls1[i] == ls0[i - 1]),
        existing ==> ls0[pos].price == o.price,
    ensures
        order_resting(ls1, o),
        forall|x: Order| #[trigger] order_resting(ls0, x) ==> order_resting(ls1, x),
{
    lemma_level_index_unique(ls1, o.price, pos);
    assert(ls1[pos].orders[ls1[pos].orders.len() - 1] == o);
    assert(ls1[pos].orders.contains(o));
    assert forall|x: Order| #[trigger] order_resting(ls0, x) implies order_resting(ls1, x) by {
        let oj = level_index(ls0, x.price);
        crate::book_side::lemma_level_index_props(ls0, x.price);
        let k = choose|k: int| 0 <= k < ls0[oj].orders.len() && ls0[oj].orders[k] == x;
        let nj = if existing || oj < pos {
            oj
        } else {
            oj + 1
        };
        assert(ls1[nj].price == x.price);
        lemma_level_index_unique(ls1, x.price, nj);
        assert(ls1[nj].orders[k] == x);
        assert(ls1[nj].orders.contains(x));
    }
}

/// After removing the order at one position, every other order of the side
/// is still mirrored in the shrunken index, and ids stay distinct.
proof fn lemma_shrink_side(
    ls0: Seq<LevelView>,
    ls1: Seq<LevelView>,
    s: Side,
    m0: Map<u128, Order>,
    o: Order,
    li: int,
    j: int,
    deleted: bool,
)
    requires
        side_ok(ls0, s, m0),
        side_ids_distinct(ls0),
        side_wf(ls0),
        0 <= li < ls0.len(),
        0 <= j < ls0[li].orders.len(),
        ls0[li].orders[j] == o,
        m0.contains_key(o.id),
        m0[o.id] == o,
        deleted ==> ls0[li].orders.len() == 1 && ls1 == ls0.remove(li),
        !deleted ==> ls1 == ls0.update(
            li,
            (LevelView { price: ls0[li].price, orders: ls0[li].orders.remove(j) }),
        ),
    ensures
        side_ok(ls1, s, m0.remove(o.id)),
        side_ids_distinct(ls1),
{
    let m1 = m0.remove(o.id);
    assert forall|i: int, k: int|
        0 <= i < ls0.len() && 0 <= k < ls0[i].orders.len() && !(i == li && k == j) implies (
    #[trigger] ls0[i].orders[k]).id != o.id by {
        let x = ls0[i].orders[k];
        if x.id == o.id {
            assert(m0[x.id] == x);
            assert(x == o);
            assert(ls0[i].price == x.price);
            assert(ls0[li].price == o.price);
            if i != li {
                if i < li {
                    assert(ls0[i].price < ls0[li].price);
                } else {
                    assert(ls0[li].price < ls0[i].price);
                }
            }
            assert(i == li);
            assert(k != j);
        }
    }
    assert forall|i: int, k: int|
        0 <= i < ls1.len() && 0 <= k < ls1[i].orders.len() implies {
        let x = #[trigger] ls1[i].orders[k];
        &&& m1.contains_key(x.id)
        &&& m1[x.id] == x
        &&& x.side == s
    } by {
        let oi = if deleted && i >= li {
            i + 1
        } else {
            i
        };
        let ok = if !deleted && i == li && k >= j {
            k + 1
        } else {
            k
        };
        assert(ls1[i].orders[k] == ls0[oi].orders[ok]);
        assert(!(oi == li && ok == j));
    }
    assert forall|i: int, k1: int, k2: int|
        0 <= i < ls1.len() && 0 <= k1 < k2 < ls1[i].orders.len() implies (#[trigger] ls1[
    i].orders[k1]).id != (#[trigger] ls1[i].orders[k2]).id by {
        let oi = if deleted && i >= li {
            i + 1
        } else {
            i
        };
        let ok1 = if !deleted && i == li && k1 >= j {
            k1 + 1
        } else {
            k1
        };
        let ok2 = if !deleted && i == li && k2 >= j {
            k2 + 1
        } else {
            k2
        };
        assert(ls1[i].orders[k1] == ls0[oi].orders[ok1]);
        assert(ls1[i].orders[k2] == ls0[oi].orders[ok2]);
    }
}

/// A side untouched by a removal keeps its mirror property: none of its
/// orders carried the removed id, which belonged to the other side.
proof fn lemma_untouched_side_shrink_ok(ls: Seq<LevelView>, s: Side, m0: Map<u128, Order>, o: Order)
    requires
        side_ok(ls, s, m0),
        m0.contains_key(o.id),
        m0[o.id] == o,
        o.side != s,
    ensures
        side_ok(ls, s, m0.remove(o.id)),
{
    let m1 = m0.remove(o.id);
    assert forall|i: int, k: int|
        0 <= i < ls.len() && 0 <= k < ls.index(i).orders.len() implies {
        let x = #[trigger] ls.index(i).orders[k];
        &&& m1.contains_key(x.id)
        &&& m1[x.id] == x
        &&& x.side == s
    } by {
        let x = ls[i].orders[k];
        if x.id == o.id {
            assert(m0[x.id] == x);
            assert(x == o);
        }
    }
}

/// After a removal, every order other than the removed one still rests.
proof fn lemma_shrink_resting(
    ls0: Seq<LevelView>,
    ls1: Seq<LevelView>,
    o: Order,
    li: int,
    j: int,
    deleted: bool,
)
    requires
        side_wf(ls0),
        forall|a: int, b: int|
            0 <= a < b < ls1.len() ==> (#[trigger] ls1[a].price) != (#[trigger] ls1[b].price),
        0 <= li < ls0.len(),
        0 <= j < ls0[li].orders.len(),
        ls0[li].orders[j] == o,
        deleted ==> ls0[li].orders.len() == 1 && ls1 == ls0.remove(li),
        !deleted ==> ls1 == ls0.update(
            li,
            (LevelView { price: ls0[li].price, orders: ls0[li].orders.remove(j) }),
        ),
    ensures
        forall|x: Order|
            #[trigger] order_resting(ls0, x) && x.id != o.id ==> order_resting(ls1, x),
{
    assert forall|x: Order| #[trigger] order_resting(ls0, x) && x.id != o.id implies order_resting(
        ls1,
        x,
    ) by {
        let xj = level_index(ls0, x.price);
        crate::book_side::lemma_level_index_props(ls0, x.price);
        let k = choose|k: int| 0 <= k < ls0[xj].orders.len() && ls0[xj].orders[k] == x;
        if deleted {
            assert(xj != li);
            let nj = if xj < li {
                xj
            } else {
                xj - 1
            };
            assert(ls1[nj] == ls0[xj]);
            lemma_level_index_unique(ls1, x.price, nj);
            assert(ls1[nj].orders.contains(x));
        } else {
            if xj == li {
                assert(k != j);
                let nk = if k < j {
                    k
                } else {
                    k - 1
                };
                assert(ls1[li].orders[nk] == x);
                assert(ls1[li].price == x.price);
                lemma_level_index_unique(ls1, x.price, li);
                assert(ls1[li].orders.contains(x));
            } else {
                assert(ls1[xj] == ls0[xj]);
                lemma_level_index_unique(ls1, x.price, xj);
                assert(ls1[xj].orders.contains(x));
            }
        }
    }
}

/// After reducing the head order in place, the drained side still mirrors
/// into the index, and ids stay distinct (the head keeps its id).
proof fn lemma_reduce_side(
    ls0: Seq<LevelView>,
    ls1: Seq<LevelView>,
    s: Side,
    m0: Map<u128, Order>,
    head: Order,
    red: Order,
    li: int,
)
    requires
        side_ok(ls0, s, m0),
        side_ids_distinct(ls0),
        side_wf(ls0),
        0 <= li < ls0.len(),
        ls0[li].orders.len() > 0,
        ls0[li].orders[0] == head,
        red.id == head.id,
        red.side == head.side,
        red.price == head.price,
        red.quantity > 0,
        ls1 == ls0.update(
            li,
            (LevelView { price: ls0[li].price, orders: ls0[li].orders.update(0, red) }),
        ),
    ensures
        side_ok(ls1, s, m0.insert(head.id, red)),
        side_ids_distinct(ls1),
{
    let m1 = m0.insert(head.id, red);
    assert forall|i: int, k: int|
        0 <= i < ls0.len() && 0 <= k < ls0[i].orders.len() && !(i == li && k == 0) implies (
    #[trigger] ls0[i].orders[k]).id != head.id by {
        let x = ls0[i].orders[k];
        if x.id == head.id {
            assert(m0[x.id] == x);
            assert(m0[head.id] == head);
            assert(x == head);
            assert(ls0[i].price == x.price);
            assert(ls0[li].price == head.price);
            if i != li {
                if i < li {
                    assert(ls0[i].price < ls0[li].price);
                } else {
                    assert(ls0[li].price < ls0[i].price);
                }
            }
            assert(i == li);
            assert(k != 0);
        }
    }
    assert forall|i: int, k: int|
        0 <= i < ls1.len() && 0 <= k < ls1[i].orders.len() implies {
        let x = #[trigger] ls1[i].orders[k];
        &&& m1.contains_key(x.id)
        &&& m1[x.id] == x
        &&& x.side == s
    } by {
        if i == li && k == 0 {
            assert(ls1[i].orders[k] == red);
        } else {
            assert(ls1[i].orders[k] == ls0[i].orders[k]);
        }
    }
    assert forall|i: int, k1: int, k2: int|
        0 <= i < ls1.len() && 0 <= k1 < k2 < ls1[i].orders.len() implies (#[trigger] ls1[
    i].orders[k1]).id != (#[trigger] ls1[i].orders[k2]).id by {
        if i == li && k1 == 0 {
            assert(ls1[i].orders[k1] == red);
            assert(ls1[i].orders[k2] == ls0[i].orders[k2]);
        } else {
            assert(ls1[i].orders[k1] == ls0[i].orders[k1]);
            assert(ls1[i].orders[k2] == ls0[i].orders[k2]);
        }
    }
}

/// A side untouched by a partial fill keeps its mirror property: the
/// overwritten id belongs to the other side.
proof fn lemma_untouched_side_shrink_swap(
    ls: Seq<LevelView>,
    s: Side,
    m0: Map<u128, Order>,
    head: Order,
    red: Order,
)
    requires
        side_ok(ls, s, m0),
        m0.contains_key(head.id),
        m0[head.id] == head,
        head.side != s,
        red.id == head.id,
    ensures
        side_ok(ls, s, m0.insert(head.id, red)),
{
    let m1 = m0.insert(head.id, red);
    assert forall|i: int, k: int|
        0 <= i < ls.len() && 0 <= k < ls.index(i).orders.len() implies {
        let x = #[trigger] ls.index(i).orders[k];
        &&& m1.contains_key(x.id)
        &&& m1[x.id] == x
        &&& x.side == s
    } by {
        let x = ls[i].orders[k];
        if x.id == head.id {
            assert(m0[x.id] == x);
            assert(x == head);
        }
    }
}

/// After a partial fill, the reduced head rests in the head's old place
/// and every other order still rests where it was.
proof fn lemma_reduce_resting(
    ls0: Seq<LevelView>,
    ls1: Seq<LevelView>,
    head: Order,
    red: Order,
    li: int,
)
    requires
        side_wf(ls0),
        forall|a: int, b: int|
            0 <= a < b < ls1.len() ==> (#[trigger] ls1[a].price) != (#[trigger] ls1[b].price),
        0 <= li < ls0.len(),
        ls0[li].orders.len() > 0,
        ls0[li].orders[0] == head,
        red.id == head.id,
        red.price == head.price,
        ls1 == ls0.update(
            li,
            (LevelView { price: ls0[li].price, orders: ls0[li].orders.update(0, red) }),
        ),
    ensures
        order_resting(ls1, red),
        forall|x: Order|
            #[trigger] order_resting(ls0, x) && x.id != head.id ==> order_resting(ls1, x),
{
    assert(ls0[li].price == head.price);
    lemma_level_index_unique(ls1, red.price, li);
    assert(ls1[li].orders[0] == red);
    assert(ls1[li].orders.contains(red));
    assert forall|x: Order| #[trigger] order_resting(ls0, x) && x.id != head.id implies
        order_resting(ls1, x) by {
        let xj = level_index(ls0, x.price);
        crate::book_side::lemma_level_index_props(ls0, x.price);
        let k = choose|k: int| 0 <= k < ls0[xj].orders.len() && ls0[xj].orders[k] == x;
        lemma_level_index_unique(ls1, x.price, xj);
        if xj == li {
            assert(k != 0);
            assert(ls1[xj].orders[k] == x);
        } else {
            assert(ls1[xj].orders[k] == x);
        }
        assert(ls1[xj].orders.contains(x));
    }
}

} // verus!
