//! One side (bid or ask) of the book: the price levels of that side, held
//! in a canonical sorted table, plus an ordered index over the prices for
//! best-price retrieval, and the side's aggregate counters.

use vstd::prelude::*;

use crate::order::Order;
use crate::price_level::{find_id, qty_sum, LevelView, PriceLevel};

verus! {

// ---------------------------------------------------------------------------
// The ordered price index, a red-black tree of an outside crate.  The tree
// holds exactly the side's prices; its contents are named by `tree_keys`.
// ---------------------------------------------------------------------------

#[verifier::external_type_specification]
#[verifier::external_body]
#[verifier::reject_recursive_types(K)]
#[verifier::reject_recursive_types(V)]
pub struct ExRBTree<K: Ord, V>(rbtree::RBTree<K, V>);

/// The set of keys held by an ordered price index.
pub uninterp spec fn tree_keys(t: rbtree::RBTree<u64, ()>) -> Set<u64>;

/// Relies on `rbtree::RBTree::new`: the fresh tree holds no keys.
#[verifier::external_body]
fn tree_new() -> (t: rbtree::RBTree<u64, ()>)
    ensures
        tree_keys(t) == Set::<u64>::empty(),
{
    rbtree::RBTree::new()
}

/// Relies on `rbtree::RBTree::insert`: a new node with key `k` is added.
/// The tree keeps duplicate keys as separate nodes, so a key is only
/// inserted while absent, which keeps the key-set model faithful.
#[verifier::external_body]
fn tree_insert(t: &mut rbtree::RBTree<u64, ()>, k: u64)
    requires
        !tree_keys(*old(t)).contains(k),
    ensures
        tree_keys(*final(t)) == tree_keys(*old(t)).insert(k),
{
    t.insert(k, ());
}

/// Relies on `rbtree::RBTree::remove`: the node with key `k`, if any, is
/// deleted, and its value returned.
#[verifier::external_body]
fn tree_remove(t: &mut rbtree::RBTree<u64, ()>, k: u64) -> (r: Option<()>)
    ensures
        tree_keys(*final(t)) == tree_keys(*old(t)).remove(k),
        r.is_some() <==> tree_keys(*old(t)).contains(k),
{
    t.remove(&k)
}

/// Relies on `rbtree::RBTree::get_first`: the leftmost node of the search
/// tree carries the least key; `None` exactly on an empty tree.
#[verifier::external_body]
fn tree_first_key(t: &rbtree::RBTree<u64, ()>) -> (r: Option<u64>)
    ensures
        match r {
            Some(k) => tree_keys(*t).contains(k) && forall|x: u64|
                tree_keys(*t).contains(x) ==> k <= x,
            None => forall|x: u64| !tree_keys(*t).contains(x),
        },
{
    match t.get_first() {
        Some((k, _)) => Some(*k),
        None => None,
    }
}

/// Relies on `rbtree::RBTree::get_last`: the rightmost node of the search
/// tree carries the greatest key; `None` exactly on an empty tree.
#[verifier::external_body]
fn tree_last_key(t: &rbtree::RBTree<u64, ()>) -> (r: Option<u64>)
    ensures
        match r {
            Some(k) => tree_keys(*t).contains(k) && forall|x: u64|
                tree_keys(*t).contains(x) ==> x <= k,
            None => forall|x: u64| !tree_keys(*t).contains(x),
        },
{
    match t.get_last() {
        Some((k, _)) => Some(*k),
        None => None,
    }
}

// ---------------------------------------------------------------------------
// The mathematical model of a side: a price-ascending sequence of levels.
// ---------------------------------------------------------------------------

/// Total number of orders resting across the levels.
pub open spec fn side_orders_count(ls: Seq<LevelView>) -> int
    decreases ls.len(),
{
    if ls.len() == 0 {
        0
    } else {
        side_orders_count(ls.drop_last()) + ls.last().orders.len()
    }
}

/// Total quantity resting across the levels.
pub open spec fn side_volume_sum(ls: Seq<LevelView>) -> int
    decreases ls.len(),
{
    if ls.len() == 0 {
        0
    } else {
        side_volume_sum(ls.drop_last()) + qty_sum(ls.last().orders)
    }
}

/// The set of prices that have a level.
pub open spec fn prices_of(ls: Seq<LevelView>) -> Set<u64>
    decreases ls.len(),
{
    if ls.len() == 0 {
        Set::<u64>::empty()
    } else {
        prices_of(ls.drop_last()).insert(ls.last().price)
    }
}

/// Index of the first level at `price`, or -1 if the price has no level.
pub open spec fn level_index(ls: Seq<LevelView>, price: u64) -> int
    decreases ls.len(),
{
    if ls.len() == 0 {
        -1
    } else if ls[0].price == price {
        0
    } else {
        let r = level_index(ls.subrange(1, ls.len() as int), price);
        if r == -1 {
            -1
        } else {
            r + 1
        }
    }
}

/// Where a level at `price` would be inserted to keep the sequence sorted:
/// the length of the prefix of strictly lower prices.
pub open spec fn insert_pos(ls: Seq<LevelView>, price: u64) -> int
    decreases ls.len(),
{
    if ls.len() == 0 {
        0
    } else if ls[0].price < price {
        1 + insert_pos(ls.subrange(1, ls.len() as int), price)
    } else {
        0
    }
}

/// Shape of a well-formed side: levels strictly ascending by price, none
/// empty, each internally consistent.
pub open spec fn side_wf(ls: Seq<LevelView>) -> bool {
    &&& forall|i: int, j: int|
        0 <= i < j < ls.len() ==> (#[trigger] ls[i].price) < (#[trigger] ls[j].price)
    &&& forall|i: int| 0 <= i < ls.len() ==> (#[trigger] ls[i]).orders.len() > 0
    &&& forall|i: int, k: int|
        0 <= i < ls.len() && 0 <= k < ls[i].orders.len() ==> (#[trigger] ls[i].orders[k]).price
            == ls[i].price && ls[i].orders[k].quantity > 0
}

/// Whether some order with id `id` rests on the side.
pub open spec fn side_has_id(ls: Seq<LevelView>, id: u128) -> bool {
    exists|i: int, k: int|
        0 <= i < ls.len() && 0 <= k < ls[i].orders.len() && (#[trigger] ls[i].orders[k]).id == id
}

/// A level with one more order at its tail.
pub open spec fn level_append(lv: LevelView, o: Order) -> LevelView {
    LevelView { price: lv.price, orders: lv.orders.push(o) }
}

/// The side after appending `o`: the order joins the tail of its price's
/// level, a fresh single-order level being slotted in if the price is new.
pub open spec fn side_append_spec(ls: Seq<LevelView>, o: Order) -> Seq<LevelView> {
    let i = level_index(ls, o.price);
    if i >= 0 {
        ls.update(i, level_append(ls[i], o))
    } else {
        ls.insert(insert_pos(ls, o.price), (LevelView { price: o.price, orders: seq![o] }))
    }
}

/// The order that removing `o` (by id, at `o.price`) would take off the
/// side, if any.
pub open spec fn side_removed_order(ls: Seq<LevelView>, o: Order) -> Option<Order> {
    let i = level_index(ls, o.price);
    if i == -1 {
        None
    } else {
        let j = find_id(ls[i].orders, o.id);
        if j == -1 {
            None
        } else {
            Some(ls[i].orders[j])
        }
    }
}

/// The side after removing `o`: the first order with `o.id` leaves the
/// level at `o.price`, and the level itself is dropped if it empties.
pub open spec fn side_remove_spec(ls: Seq<LevelView>, o: Order) -> Seq<LevelView> {
    let i = level_index(ls, o.price);
    if i == -1 {
        ls
    } else {
        let j = find_id(ls[i].orders, o.id);
        if j == -1 {
            ls
        } else if ls[i].orders.len() == 1 {
            ls.remove(i)
        } else {
            ls.update(i, (LevelView { price: ls[i].price, orders: ls[i].orders.remove(j) }))
        }
    }
}

// ---------------------------------------------------------------------------
// Lemmas about the model.
// ---------------------------------------------------------------------------

pub proof fn lemma_side_sums_nonneg(ls: Seq<LevelView>)
    ensures
        side_orders_count(ls) >= 0,
        side_volume_sum(ls) >= 0,
    decreases ls.len(),
{
    if ls.len() > 0 {
        lemma_side_sums_nonneg(ls.drop_last());
        crate::price_level::lemma_qty_sum_nonneg(ls.last().orders);
    }
}

/// The contribution of one level is bounded by the side's totals.
pub proof fn lemma_side_sums_bound(ls: Seq<LevelView>, i: int)
    requires
        0 <= i < ls.len(),
    ensures
        ls[i].orders.len() <= side_orders_count(ls),
        qty_sum(ls[i].orders) <= side_volume_sum(ls),
    decreases ls.len(),
{
    lemma_side_sums_nonneg(ls.drop_last());
    crate::price_level::lemma_qty_sum_nonneg(ls.last().orders);
    if i == ls.len() - 1 {
    } else {
        lemma_side_sums_bound(ls.drop_last(), i);
    }
}

pub proof fn lemma_side_sums_update(ls: Seq<LevelView>, i: int, lv: LevelView)
    requires
        0 <= i < ls.len(),
    ensures
        side_orders_count(ls.update(i, lv)) == side_orders_count(ls) - ls[i].orders.len()
            + lv.orders.len(),
        side_volume_sum(ls.update(i, lv)) == side_volume_sum(ls) - qty_sum(ls[i].orders)
            + qty_sum(lv.orders),
    decreases ls.len(),
{
    if i == ls.len() - 1 {
        assert(ls.update(i, lv).drop_last() =~= ls.drop_last());
        assert(ls.update(i, lv).last() == lv);
    } else {
        lemma_side_sums_update(ls.drop_last(), i, lv);
        assert(ls.update(i, lv).drop_last() =~= ls.drop_last().update(i, lv));
        assert(ls.update(i, lv).last() == ls.last());
    }
}

pub proof fn lemma_side_sums_remove(ls: Seq<LevelView>, i: int)
    requires
        0 <= i < ls.len(),
    ensures
        side_orders_count(ls.remove(i)) == side_orders_count(ls) - ls[i].orders.len(),
        side_volume_sum(ls.remove(i)) == side_volume_sum(ls) - qty_sum(ls[i].orders),
    decreases ls.len(),
{
    if i == ls.len() - 1 {
        assert(ls.remove(i) =~= ls.drop_last());
    } else {
        lemma_side_sums_remove(ls.drop_last(), i);
        assert(ls.remove(i).drop_last() =~= ls.drop_last().remove(i));
        assert(ls.remove(i).last() == ls.last());
    }
}

pub proof fn lemma_side_sums_insert(ls: Seq<LevelView>, i: int, lv: LevelView)
    requires
        0 <= i <= ls.len(),
    ensures
        side_orders_count(ls.insert(i, lv)) == side_orders_count(ls) + lv.orders.len(),
        side_volume_sum(ls.insert(i, lv)) == side_volume_sum(ls) + qty_sum(lv.orders),
    decreases ls.len(),
{
    if i == ls.len() {
        assert(ls.insert(i, lv).drop_last() =~= ls);
        assert(ls.insert(i, lv).last() == lv);
    } else {
        lemma_side_sums_insert(ls.drop_last(), i, lv);
        assert(ls.insert(i, lv).drop_last() =~= ls.drop_last().insert(i, lv));
        assert(ls.insert(i, lv).last() == ls.last());
    }
}

/// A price is in the price set exactly when some level carries it.
pub proof fn lemma_prices_of_contains(ls: Seq<LevelView>, p: u64)
    ensures
        prices_of(ls).contains(p) <==> exists|i: int|
            0 <= i < ls.len() && (#[trigger] ls[i].price) == p,
    decreases ls.len(),
{
    if ls.len() > 0 {
        lemma_prices_of_contains(ls.drop_last(), p);
        if ls.last().price == p {
            assert(ls[ls.len() - 1].price == p);
        } else if prices_of(ls).contains(p) {
            let t = ls.drop_last();
            let i = choose|i: int| 0 <= i < t.len() && (#[trigger] t[i].price) == p;
            assert(ls[i].price == p);
        } else {
            assert forall|i: int| 0 <= i < ls.len() implies (#[trigger] ls[i].price) != p by {
                if i < ls.len() - 1 {
                    assert(ls.drop_last()[i].price != p);
                }
            }
        }
    }
}

pub proof fn lemma_prices_of_update(ls: Seq<LevelView>, i: int, lv: LevelView)
    requires
        0 <= i < ls.len(),
        lv.price == ls[i].price,
    ensures
        prices_of(ls.update(i, lv)) == prices_of(ls),
    decreases ls.len(),
{
    if i == ls.len() - 1 {
        assert(ls.update(i, lv).drop_last() =~= ls.drop_last());
    } else {
        lemma_prices_of_update(ls.drop_last(), i, lv);
        assert(ls.update(i, lv).drop_last() =~= ls.drop_last().update(i, lv));
        assert(ls.update(i, lv).last() == ls.last());
    }
}

pub proof fn lemma_prices_of_insert(ls: Seq<LevelView>, i: int, lv: LevelView)
    requires
        0 <= i <= ls.len(),
    ensures
        prices_of(ls.insert(i, lv)) == prices_of(ls).insert(lv.price),
    decreases ls.len(),
{
    if i == ls.len() {
        assert(ls.insert(i, lv).drop_last() =~= ls);
        assert(ls.insert(i, lv).last() == lv);
    } else {
        lemma_prices_of_insert(ls.drop_last(), i, lv);
        assert(ls.insert(i, lv).drop_last() =~= ls.drop_last().insert(i, lv));
        assert(ls.insert(i, lv).last() == ls.last());
        assert(prices_of(ls.insert(i, lv)) =~= prices_of(ls).insert(lv.price));
    }
}

/// Removing the only level at its price takes the price out of the set;
/// this needs the side's prices to be distinct.
pub proof fn lemma_prices_of_remove(ls: Seq<LevelView>, i: int)
    requires
        0 <= i < ls.len(),
        forall|a: int, b: int|
            0 <= a < b < ls.len() ==> (#[trigger] ls[a].price) != (#[trigger] ls[b].price),
    ensures
        prices_of(ls.remove(i)) == prices_of(ls).remove(ls[i].price),
    decreases ls.len(),
{
    lemma_prices_of_contains(ls.remove(i), ls[i].price);
    lemma_prices_of_contains(ls, ls[i].price);
    assert forall|p: u64| prices_of(ls.remove(i)).contains(p) implies prices_of(ls).remove(
        ls[i].price,
    ).contains(p) by {
        lemma_prices_of_contains(ls.remove(i), p);
        let a = choose|a: int| 0 <= a < ls.remove(i).len() && (#[trigger] ls.remove(i)[a].price)
            == p;
        let orig = if a < i {
            a
        } else {
            a + 1
        };
        assert(ls[orig].price == p);
        lemma_prices_of_contains(ls, p);
    }
    assert forall|p: u64| prices_of(ls).remove(ls[i].price).contains(p) implies prices_of(
        ls.remove(i),
    ).contains(p) by {
        lemma_prices_of_contains(ls, p);
        let a = choose|a: int| 0 <= a < ls.len() && (#[trigger] ls[a].price) == p;
        let moved = if a < i {
            a
        } else {
            a - 1
        };
        assert(ls.remove(i)[moved].price == p);
        lemma_prices_of_contains(ls.remove(i), p);
    }
    assert(prices_of(ls.remove(i)) =~= prices_of(ls).remove(ls[i].price));
}

/// First-index properties of `level_index`.
pub proof fn lemma_level_index_props(ls: Seq<LevelView>, p: u64)
    ensures
        level_index(ls, p) == -1 <==> (forall|i: int|
            0 <= i < ls.len() ==> (#[trigger] ls[i].price) != p),
        level_index(ls, p) != -1 ==> {
            let i = level_index(ls, p);
            &&& 0 <= i < ls.len()
            &&& ls[i].price == p
            &&& forall|k: int| 0 <= k < i ==> (#[trigger] ls[k].price) != p
        },
    decreases ls.len(),
{
    if ls.len() > 0 && ls[0].price != p {
        let t = ls.subrange(1, ls.len() as int);
        lemma_level_index_props(t, p);
        assert(forall|i: int| 1 <= i < ls.len() ==> ls[i] == t[i - 1]);
        if level_index(ls, p) == -1 {
            assert forall|i: int| 0 <= i < ls.len() implies (#[trigger] ls[i].price) != p by {
                if i >= 1 {
                    assert(t[i - 1].price != p);
                }
            }
        } else {
            let i = level_index(ls, p);
            assert(ls[i] == t[i - 1]);
            assert forall|k: int| 0 <= k < i implies (#[trigger] ls[k].price) != p by {
                if k >= 1 {
                    assert(t[k - 1].price != p);
                }
            }
        }
    }
}

/// On a sorted side, `insert_pos` splits the sequence into the prefix of
/// strictly lower prices and the suffix of higher-or-equal ones.
pub proof fn lemma_insert_pos_props(ls: Seq<LevelView>, p: u64)
    requires
        forall|i: int, j: int|
            0 <= i < j < ls.len() ==> (#[trigger] ls[i].price) < (#[trigger] ls[j].price),
    ensures
        0 <= insert_pos(ls, p) <= ls.len(),
        forall|i: int| 0 <= i < insert_pos(ls, p) ==> (#[trigger] ls[i].price) < p,
        forall|i: int| insert_pos(ls, p) <= i < ls.len() ==> (#[trigger] ls[i].price) >= p,
    decreases ls.len(),
{
    if ls.len() > 0 {
        let t = ls.subrange(1, ls.len() as int);
        assert(forall|i: int| 1 <= i < ls.len() ==> ls[i] == t[i - 1]);
        if ls[0].price < p {
            lemma_insert_pos_props(t, p);
            let pos = insert_pos(ls, p);
            assert forall|i: int| 0 <= i < pos implies (#[trigger] ls[i].price) < p by {
                if i >= 1 {
                    assert(t[i - 1].price < p);
                }
            }
            assert forall|i: int| pos <= i < ls.len() implies (#[trigger] ls[i].price) >= p by {
                assert(t[i - 1].price >= p);
            }
        } else {
            assert forall|i: int| 0 <= i < ls.len() implies (#[trigger] ls[i].price) >= p by {
                if i > 0 {
                    assert(ls[0].price < ls[i].price);
                }
            }
        }
    }
}

/// A side with only non-empty levels holds at least one order per level.
pub proof fn lemma_side_count_ge_len(ls: Seq<LevelView>)
    requires
        forall|i: int| 0 <= i < ls.len() ==> (#[trigger] ls[i]).orders.len() > 0,
    ensures
        side_orders_count(ls) >= ls.len(),
    decreases ls.len(),
{
    if ls.len() > 0 {
        lemma_side_count_ge_len(ls.drop_last());
    }
}

// ---------------------------------------------------------------------------
// The side itself.
// ---------------------------------------------------------------------------

/// One side of the book.  `levels` is the canonical store, kept sorted by
/// ascending price; `price_tree` is the ordered index over the same prices;
/// the counters aggregate over all levels.
#[derive(Debug)]
pub struct BookSide {
    pub levels: Vec<PriceLevel>,
    pub price_tree: rbtree::RBTree<u64, ()>,
    pub volume: u64,
    pub num_orders: u32,
    pub depth: u32,
}

impl View for BookSide {
    type V = Seq<LevelView>;

    open spec fn view(&self) -> Seq<LevelView> {
        self.levels@.map_values(|l: PriceLevel| l@)
    }
}

impl BookSide {
    /// The side's invariant: the levels form a well-formed side, every
    /// level's stored volume tallies its queue, the counters tally the
    /// levels, and the ordered index holds exactly the level prices.
    pub open spec fn wf(&self) -> bool {
        &&& side_wf(self@)
        &&& forall|i: int|
            0 <= i < self.levels@.len() ==> (#[trigger] self.levels@[i]).volume == qty_sum(
                self.levels@[i].orders@,
            )
        &&& self.volume == side_volume_sum(self@)
        &&& self.num_orders == side_orders_count(self@)
        &&& self.depth == self@.len()
        &&& tree_keys(self.price_tree) == prices_of(self@)
    }

    pub fn new() -> (r: BookSide)
        ensures
            r.wf(),
            r@ == Seq::<LevelView>::empty(),
            r.volume == 0,
            r.num_orders == 0,
            r.depth == 0,
    {
        let r = BookSide {
            levels: Vec::new(),
            price_tree: tree_new(),
            volume: 0,
            num_orders: 0,
            depth: 0,
        };
        proof {
            assert(r@ =~= Seq::<LevelView>::empty());
        }
        r
    }

    /// Scan for the first level whose price is not below `price`; on a
    /// sorted side this is where `price`'s level is or would be.
    #[verifier::loop_isolation(false)]
    fn lower_bound(&self, price: u64) -> (i: usize)
        requires
            self.wf(),
        ensures
            0 <= i <= self@.len(),
            forall|k: int| 0 <= k < i ==> (#[trigger] self@[k].price) < price,
            i < self@.len() ==> self@[i as int].price >= price,
    {
        let mut i: usize = 0;
        while i < self.levels.len() && self.levels[i].price < price
            invariant
                0 <= i <= self.levels@.len(),
                forall|k: int| 0 <= k < i ==> (#[trigger] self@[k].price) < price,
            decreases self.levels@.len() - i,
        {
            i = i + 1;
        }
        i
    }

    /// Get-or-create the level at `order.price` and queue `order` at its
    /// tail, keeping both indices and all counters in step.
    pub fn append(&mut self, order: Order)
        requires
            old(self).wf(),
            order.quantity > 0,
            old(self).volume + order.quantity <= u64::MAX,
            old(self).num_orders < u32::MAX,
        ensures
            final(self).wf(),
            final(self)@ == side_append_spec(old(self)@, order),
            final(self).volume == old(self).volume + order.quantity,
            final(self).num_orders == old(self).num_orders + 1,
            final(self).depth == old(self).depth + (if level_index(old(self)@, order.price)
                >= 0 {
                0int
            } else {
                1int
            }),
    {
        let ghost ls0 = self@;
        proof {
            lemma_level_index_props(ls0, order.price);
            lemma_insert_pos_props(ls0, order.price);
            lemma_side_count_ge_len(ls0);
        }
        let i = self.lower_bound(order.price);
        if i < self.levels.len() && self.levels[i].price == order.price {
            proof {
                assert(level_index(ls0, order.price) == i as int);
                lemma_side_sums_bound(ls0, i as int);
                crate::price_level::lemma_qty_sum_nonneg(ls0[i as int].orders);
                lemma_side_sums_nonneg(ls0);
            }
            let mut lv = self.levels.remove(i);
            lv.append(order);
            self.levels.insert(i, lv);
            proof {
                let lvv = level_append(ls0[i as int], order);
                assert(self@ =~= ls0.update(i as int, lvv));
                lemma_side_sums_update(ls0, i as int, lvv);
                lemma_prices_of_update(ls0, i as int, lvv);
                assert(side_append_spec(ls0, order) == ls0.update(i as int, lvv));
            }
        } else {
            proof {
                assert forall|k: int| 0 <= k < ls0.len() implies (#[trigger] ls0[k].price)
                    != order.price by {
                    if k >= i as int {
                        assert(ls0[i as int].price <= ls0[k].price);
                    }
                }
                assert(level_index(ls0, order.price) == -1);
                assert(insert_pos(ls0, order.price) == i as int) by {
                    let pos = insert_pos(ls0, order.price);
                    if pos < i as int {
                        assert(ls0[pos].price < order.price);
                        assert(ls0[pos].price >= order.price);
                    }
                    if pos > i as int {
                        assert(ls0[i as int].price < order.price);
                    }
                }
                lemma_prices_of_contains(ls0, order.price);
            }
            let mut lv = PriceLevel::new(order.price);
            lv.append(order);
            self.levels.insert(i, lv);
            tree_insert(&mut self.price_tree, order.price);
            self.depth = self.depth + 1;
            proof {
                let lvv = LevelView { price: order.price, orders: seq![order] };
                assert(lv@.orders =~= seq![order]);
                assert(self@ =~= ls0.insert(i as int, lvv));
                lemma_side_sums_insert(ls0, i as int, lvv);
                lemma_prices_of_insert(ls0, i as int, lvv);
                assert(side_append_spec(ls0, order) == ls0.insert(i as int, lvv));
                assert forall|a: int, b: int|
                    0 <= a < b < self@.len() implies (#[trigger] self@[a].price) < (
                #[trigger] self@[b].price) by {
                    let ins = i as int;
                    if a < ins && b == ins {
                    } else if a == ins && b > ins {
                        assert(self@[b] == ls0[b - 1]);
                    } else if a < ins && b > ins {
                        assert(self@[b] == ls0[b - 1]);
                    }
                }
            }
        }
        self.num_orders = self.num_orders + 1;
        self.volume = self.volume + order.quantity;
    }

    /// Remove the order with `order.id` from the level at `order.price`,
    /// erasing the level from both indices if it empties; `None`, and no
    /// change, if nothing rests at that price under that id.
    pub fn remove(&mut self, order: Order) -> (r: Option<Order>)
        requires
            old(self).wf(),
        ensures
            final(self).wf(),
            final(self)@ == side_remove_spec(old(self)@, order),
            r == side_removed_order(old(self)@, order),
            match r {
                Some(ro) => {
                    &&& final(self).volume == old(self).volume - ro.quantity
                    &&& final(self).num_orders == old(self).num_orders - 1
                    &&& final(self).depth == old(self).depth - (
                    if old(self)@[level_index(old(self)@, order.price)].orders.len() == 1 {
                        1int
                    } else {
                        0int
                    })
                },
                None => {
                    &&& final(self)@ == old(self)@
                    &&& final(self).volume == old(self).volume
                    &&& final(self).num_orders == old(self).num_orders
                    &&& final(self).depth == old(self).depth
                },
            },
    {
        let ghost ls0 = self@;
        proof {
            lemma_level_index_props(ls0, order.price);
        }
        let i = self.lower_bound(order.price);
        if i < self.levels.len() && self.levels[i].price == order.price {
            proof {
                assert(level_index(ls0, order.price) == i as int);
                lemma_side_sums_bound(ls0, i as int);
                crate::price_level::lemma_find_id_props(ls0[i as int].orders, order.id);
            }
            let mut lv = self.levels.remove(i);
            let r = lv.remove(order);
            match r {
                None => {
                    self.levels.insert(i, lv);
                    proof {
                        assert(self@ =~= ls0);
                    }
                    None
                },
                Some(ro) => {
                    proof {
                        let j = find_id(ls0[i as int].orders, order.id);
                        crate::price_level::lemma_qty_sum_remove(ls0[i as int].orders, j);
                        crate::price_level::lemma_qty_sum_nonneg(
                            ls0[i as int].orders.remove(j),
                        );
                        lemma_side_sums_nonneg(ls0);
                    }
                    self.num_orders = self.num_orders - 1;
                    self.volume = self.volume - ro.quantity;
                    if lv.len() == 0 {
                        let _ = tree_remove(&mut self.price_tree, order.price);
                        self.depth = self.depth - 1;
                        proof {
                            assert(self@ =~= ls0.remove(i as int));
                            lemma_side_sums_remove(ls0, i as int);
                            lemma_prices_of_remove(ls0, i as int);
                            assert(ls0[i as int].orders.len() == 1);
                        }
                        Some(ro)
                    } else {
                        self.levels.insert(i, lv);
                        proof {
                            let j = find_id(ls0[i as int].orders, order.id);
                            let lvv = LevelView {
                                price: ls0[i as int].price,
                                orders: ls0[i as int].orders.remove(j),
                            };
                            assert(self@ =~= ls0.update(i as int, lvv));
                            lemma_side_sums_update(ls0, i as int, lvv);
                            lemma_prices_of_update(ls0, i as int, lvv);
                        }
                        Some(ro)
                    }
                },
            }
        } else {
            proof {
                assert forall|k: int| 0 <= k < ls0.len() implies (#[trigger] ls0[k].price)
                    != order.price by {
                    if k >= i as int {
                        assert(ls0[i as int].price <= ls0[k].price);
                    }
                }
                assert(level_index(ls0, order.price) == -1);
            }
            None
        }
    }

    /// The level at the minimum price, or `None` on an empty side; read
    /// through the ordered index.
    pub fn min_price_level(&self) -> (r: Option<&PriceLevel>)
        requires
            self.wf(),
        ensures
            match r {
                Some(l) => self@.len() > 0 && l@ == self@[0],
                None => self@.len() == 0,
            },
    {
        if self.depth > 0 {
            proof {
                lemma_prices_of_contains(self@, self@[0].price);
            }
            match tree_first_key(&self.price_tree) {
                Some(_k) => Some(&self.levels[0]),
                None => {
                    proof {
                        assert(false);
                    }
                    None
                },
            }
        } else {
            None
        }
    }

    /// The level at the maximum price, or `None` on an empty side; read
    /// through the ordered index.
    pub fn max_price_level(&self) -> (r: Option<&PriceLevel>)
        requires
            self.wf(),
        ensures
            match r {
                Some(l) => self@.len() > 0 && l@ == self@[self@.len() - 1],
                None => self@.len() == 0,
            },
    {
        if self.depth > 0 {
            proof {
                lemma_prices_of_contains(self@, self@[self@.len() - 1].price);
            }
            match tree_last_key(&self.price_tree) {
                Some(_k) => Some(&self.levels[self.levels.len() - 1]),
                None => {
                    proof {
                        assert(false);
                    }
                    None
                },
            }
        } else {
            None
        }
    }

    /// Direct lookup of the level at an exact price.
    pub fn level_at(&self, price: u64) -> (r: Option<&PriceLevel>)
        requires
            self.wf(),
        ensures
            match r {
                Some(l) => level_index(self@, price) >= 0 && l@ == self@[level_index(
                    self@,
                    price,
                )],
                None => level_index(self@, price) == -1,
            },
    {
        let ghost ls0 = self@;
        proof {
            lemma_level_index_props(ls0, price);
        }
        let i = self.lower_bound(price);
        if i < self.levels.len() && self.levels[i].price == price {
            proof {
                assert(level_index(ls0, price) == i as int);
            }
            Some(&self.levels[i])
        } else {
            proof {
                assert forall|k: int| 0 <= k < ls0.len() implies (#[trigger] ls0[k].price)
                    != price by {
                    if k >= i as int {
                        assert(ls0[i as int].price <= ls0[k].price);
                    }
                }
            }
            None
        }
    }

    /// Overwrite the head order of the level at `price` in place with a
    /// reduced copy, adjusting the level's and the side's volumes.  This is
    /// the partial-fill step: the head keeps its queue position.
    pub(crate) fn reduce_front_at(&mut self, price: u64, order: Order)
        requires
            old(self).wf(),
            level_index(old(self)@, price) >= 0,
            order.price == price,
            order.quantity > 0,
            order.quantity <= old(self)@[level_index(old(self)@, price)].orders[0].quantity,
        ensures
            final(self).wf(),
            final(self)@ == old(self)@.update(
                level_index(old(self)@, price),
                (LevelView {
                    price,
                    orders: old(self)@[level_index(old(self)@, price)].orders.update(0, order),
                }),
            ),
            final(self).volume == old(self).volume - old(self)@[level_index(
                old(self)@,
                price,
            )].orders[0].quantity + order.quantity,
            final(self).num_orders == old(self).num_orders,
            final(self).depth == old(self).depth,
    {
        let ghost ls0 = self@;
        proof {
            lemma_level_index_props(ls0, price);
            lemma_side_sums_bound(ls0, level_index(ls0, price));
            crate::price_level::lemma_qty_sum_remove(ls0[level_index(ls0, price)].orders, 0);
            crate::price_level::lemma_qty_sum_nonneg(
                ls0[level_index(ls0, price)].orders.remove(0),
            );
            lemma_side_sums_nonneg(ls0);
        }
        let i = self.lower_bound(price);
        proof {
            assert(i < ls0.len() && ls0[i as int].price == price) by {
                let li = level_index(ls0, price);
                if (i as int) < li {
                    assert(ls0[i as int].price >= price);
                    assert(ls0[i as int].price < ls0[li].price);
                }
                if (i as int) > li {
                    assert(ls0[li].price < price);
                }
            }
            assert(level_index(ls0, price) == i as int);
        }
        let head_qty = self.levels[i].orders[0].quantity;
        let ghost head = ls0[i as int].orders[0];
        let mut lv = self.levels.remove(i);
        lv.replace_front(order);
        self.levels.insert(i, lv);
        self.volume = self.volume - head_qty;
        self.volume = self.volume + order.quantity;
        proof {
            let lvv = LevelView { price, orders: ls0[i as int].orders.update(0, order) };
            assert(self@ =~= ls0.update(i as int, lvv));
            lemma_side_sums_update(ls0, i as int, lvv);
            lemma_prices_of_update(ls0, i as int, lvv);
            crate::price_level::lemma_qty_sum_update(ls0[i as int].orders, 0, order);
        }
    }
}

/// Law: a well-formed side's counters tally its levels — `num_orders` is
/// the sum of the level lengths, `volume` the sum of the level volumes,
/// and `depth` the number of distinct price levels, none of them empty.
/// Every mutating operation ensures `wf`, so this holds after each call.
pub proof fn lemma_side_accounting(s: &BookSide)
    requires
        s.wf(),
    ensures
        s.num_orders == side_orders_count(s@),
        s.volume == side_volume_sum(s@),
        s.depth == s@.len(),
        forall|i: int| 0 <= i < s@.len() ==> (#[trigger] s@[i]).orders.len() > 0,
{
}

// ---------------------------------------------------------------------------
// Laws of the side.
// ---------------------------------------------------------------------------

/// Law: appending an order whose id is not yet on a well-formed side and
/// then removing that id restores the side exactly — in particular its
/// depth, volume and order count.
pub proof fn lemma_append_then_remove(ls: Seq<LevelView>, o: Order)
    requires
        side_wf(ls),
        o.quantity > 0,
        !side_has_id(ls, o.id),
    ensures
        side_removed_order(side_append_spec(ls, o), o) == Some(o),
        side_remove_spec(side_append_spec(ls, o), o) == ls,
{
    lemma_level_index_props(ls, o.price);
    let i = level_index(ls, o.price);
    if i >= 0 {
        let grown = ls[i].orders.push(o);
        let ls1 = ls.update(i, level_append(ls[i], o));
        lemma_level_index_props(ls1, o.price);
        assert(ls1[i].price == o.price);
        let i1 = level_index(ls1, o.price);
        assert(i1 == i) by {
            if i1 < i {
                assert(ls[i1].price != o.price);
                assert(ls1[i1] == ls[i1]);
            }
            if i1 > i {
                assert(ls1[i].price != o.price);
            }
        }
        let lvi = ls[i];
        assert forall|k: int| 0 <= k < lvi.orders.len() implies (#[trigger] lvi.orders[k]).id
            != o.id by {
            if ls[i].orders[k].id == o.id {
                assert(side_has_id(ls, o.id));
            }
        }
        crate::price_level::lemma_find_id_props(grown, o.id);
        let j = find_id(grown, o.id);
        assert(grown[ls[i].orders.len() as int].id == o.id);
        assert(j != -1);
        assert(j == ls[i].orders.len()) by {
            if j < ls[i].orders.len() {
                assert(grown[j] == ls[i].orders[j]);
            }
        }
        assert(grown.len() >= 2);
        assert(grown.remove(j) =~= ls[i].orders);
        let back = ls1.update(i, (LevelView { price: ls1[i].price, orders: grown.remove(j) }));
        assert(back =~= ls);
    } else {
        let pos = insert_pos(ls, o.price);
        lemma_insert_pos_props(ls, o.price);
        let lv0 = LevelView { price: o.price, orders: seq![o] };
        let ls1 = ls.insert(pos, lv0);
        assert(ls1[pos] == lv0);
        lemma_level_index_props(ls1, o.price);
        let i1 = level_index(ls1, o.price);
        assert(ls1[pos].price == o.price);
        assert(i1 != -1);
        assert(i1 == pos) by {
            if 0 <= i1 < pos {
                assert(ls1[i1] == ls[i1]);
                assert(ls[i1].price < o.price);
            }
            if i1 > pos {
                assert(ls1[pos].price != o.price);
            }
        }
        crate::price_level::lemma_find_id_props(lv0.orders, o.id);
        assert(find_id(lv0.orders, o.id) == 0);
        assert(ls1.remove(pos) =~= ls);
    }
}

/// Law: removing the sole order at a price deletes that price level, so
/// the price no longer appears on the side and the depth drops by one.
pub proof fn lemma_level_cleanup(ls: Seq<LevelView>, o: Order)
    requires
        side_wf(ls),
        level_index(ls, o.price) >= 0,
        ls[level_index(ls, o.price)].orders.len() == 1,
        find_id(ls[level_index(ls, o.price)].orders, o.id) != -1,
    ensures
        level_index(side_remove_spec(ls, o), o.price) == -1,
        !prices_of(side_remove_spec(ls, o)).contains(o.price),
        side_remove_spec(ls, o).len() == ls.len() - 1,
{
    lemma_level_index_props(ls, o.price);
    let i = level_index(ls, o.price);
    let out = ls.remove(i);
    assert(side_remove_spec(ls, o) == out);
    assert forall|k: int| 0 <= k < out.len() implies (#[trigger] out[k].price) != o.price by {
        if k < i {
            assert(out[k] == ls[k]);
        } else {
            assert(out[k] == ls[k + 1]);
            assert(ls[i].price < ls[k + 1].price);
        }
    }
    lemma_level_index_props(out, o.price);
    lemma_prices_of_contains(out, o.price);
}

} // verus!
