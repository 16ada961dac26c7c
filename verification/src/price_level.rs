//! A price level: the FIFO queue of all resting orders at one exact price.

use vstd::prelude::*;

use crate::order::Order;

verus! {

/// The mathematical content of a price level: its price and the queue of
/// orders, oldest first.  The level's volume is determined by the queue.
pub struct LevelView {
    pub price: u64,
    pub orders: Seq<Order>,
}

/// Sum of the quantities of a queue of orders.
pub open spec fn qty_sum(s: Seq<Order>) -> int
    decreases s.len(),
{
    if s.len() == 0 {
        0
    } else {
        qty_sum(s.drop_last()) + s.last().quantity
    }
}

/// Index of the first order in `s` whose id is `id`, or -1 if there is none.
pub open spec fn find_id(s: Seq<Order>, id: u128) -> int
    decreases s.len(),
{
    if s.len() == 0 {
        -1
    } else if s[0].id == id {
        0
    } else {
        let r = find_id(s.subrange(1, s.len() as int), id);
        if r == -1 {
            -1
        } else {
            r + 1
        }
    }
}

pub proof fn lemma_qty_sum_nonneg(s: Seq<Order>)
    ensures
        qty_sum(s) >= 0,
    decreases s.len(),
{
    if s.len() > 0 {
        lemma_qty_sum_nonneg(s.drop_last());
    }
}

/// Removing the order at index `j` lowers the sum by exactly its quantity.
pub proof fn lemma_qty_sum_remove(s: Seq<Order>, j: int)
    requires
        0 <= j < s.len(),
    ensures
        qty_sum(s.remove(j)) == qty_sum(s) - s[j].quantity,
    decreases s.len(),
{
    if j == s.len() - 1 {
        assert(s.remove(j) =~= s.drop_last());
    } else {
        lemma_qty_sum_remove(s.drop_last(), j);
        assert(s.remove(j).drop_last() =~= s.drop_last().remove(j));
        assert(s.remove(j).last() == s.last());
    }
}

/// Replacing the order at index `j` shifts the sum by the quantity delta.
pub proof fn lemma_qty_sum_update(s: Seq<Order>, j: int, o: Order)
    requires
        0 <= j < s.len(),
    ensures
        qty_sum(s.update(j, o)) == qty_sum(s) - s[j].quantity + o.quantity,
    decreases s.len(),
{
    if j == s.len() - 1 {
        assert(s.update(j, o).drop_last() =~= s.drop_last());
        assert(s.update(j, o).last() == o);
    } else {
        lemma_qty_sum_update(s.drop_last(), j, o);
        assert(s.update(j, o).drop_last() =~= s.drop_last().update(j, o));
        assert(s.update(j, o).last() == s.last());
    }
}

pub proof fn lemma_qty_sum_push(s: Seq<Order>, o: Order)
    ensures
        qty_sum(s.push(o)) == qty_sum(s) + o.quantity,
{
    assert(s.push(o).drop_last() =~= s);
}

/// `find_id` lands on the first index carrying `id`, and fails exactly when
/// no order carries it.
pub proof fn lemma_find_id_props(s: Seq<Order>, id: u128)
    ensures
        find_id(s, id) == -1 <==> (forall|i: int| 0 <= i < s.len() ==> s[i].id != id),
        find_id(s, id) != -1 ==> {
            let j = find_id(s, id);
            &&& 0 <= j < s.len()
            &&& s[j].id == id
            &&& forall|i: int| 0 <= i < j ==> s[i].id != id
        },
    decreases s.len(),
{
    if s.len() > 0 && s[0].id != id {
        let t = s.subrange(1, s.len() as int);
        lemma_find_id_props(t, id);
        assert(forall|i: int| 1 <= i < s.len() ==> s[i] == t[i - 1]);
        if find_id(s, id) == -1 {
            assert forall|i: int| 0 <= i < s.len() implies s[i].id != id by {
                if i >= 1 {
                    assert(t[i - 1].id != id);
                }
            }
        } else {
            let j = find_id(s, id);
            assert(s[j] == t[j - 1]);
            assert forall|i: int| 0 <= i < j implies s[i].id != id by {
                if i >= 1 {
                    assert(t[i - 1].id != id);
                }
            }
        }
    }
}

/// One price level of the book: a FIFO queue of the orders at `price`,
/// together with `volume`, the sum of their quantities.
#[derive(Debug)]
pub struct PriceLevel {
    pub volume: u64,
    pub price: u64,
    pub orders: Vec<Order>,
}

impl View for PriceLevel {
    type V = LevelView;

    open spec fn view(&self) -> LevelView {
        LevelView { price: self.price, orders: self.orders@ }
    }
}

impl PriceLevel {
    /// Everything the level promises about itself: the volume tallies the
    /// queue, and every queued order sits at the level's price with a
    /// strictly positive quantity.
    pub open spec fn wf(&self) -> bool {
        &&& self.volume == qty_sum(self.orders@)
        &&& forall|i: int|
            0 <= i < self.orders@.len() ==> (#[trigger] self.orders@[i]).price == self.price
                && self.orders@[i].quantity > 0
    }

    pub fn new(price: u64) -> (r: PriceLevel)
        ensures
            r.wf(),
            r.price == price,
            r.orders@ == Seq::<Order>::empty(),
            r.volume == 0,
    {
        PriceLevel { volume: 0, price, orders: Vec::new() }
    }

    /// Push an order to the tail of the queue; always succeeds.
    pub fn append(&mut self, order: Order)
        requires
            old(self).wf(),
            order.price == old(self).price,
            order.quantity > 0,
            old(self).volume + order.quantity <= u64::MAX,
        ensures
            final(self).wf(),
            final(self).price == old(self).price,
            final(self).orders@ == old(self).orders@.push(order),
            final(self).volume == old(self).volume + order.quantity,
    {
        proof {
            lemma_qty_sum_push(self.orders@, order);
        }
        self.volume = self.volume + order.quantity;
        self.orders.push(order);
    }

    /// Remove the first order whose id matches `order.id`, subtracting its
    /// quantity from the volume; `None`, and no change, if the id is not
    /// queued here.
    #[verifier::loop_isolation(false)]
    pub fn remove(&mut self, order: Order) -> (r: Option<Order>)
        requires
            old(self).wf(),
        ensures
            final(self).wf(),
            final(self).price == old(self).price,
            find_id(old(self).orders@, order.id) == -1 ==> r.is_none() && *final(self) == *old(self),
            find_id(old(self).orders@, order.id) != -1 ==> {
                let j = find_id(old(self).orders@, order.id);
                &&& r == Some(old(self).orders@[j])
                &&& final(self).orders@ == old(self).orders@.remove(j)
                &&& final(self).volume == old(self).volume - old(self).orders@[j].quantity
            },
    {
        proof {
            lemma_find_id_props(self.orders@, order.id);
        }
        let ghost orig = self.orders@;
        let mut i: usize = 0;
        while i < self.orders.len()
            invariant
                *self == *old(self),
                0 <= i <= orig.len(),
                forall|k: int| 0 <= k < i ==> orig[k].id != order.id,
            decreases orig.len() - i,
        {
            if self.orders[i].id == order.id {
                proof {
                    lemma_qty_sum_remove(orig, i as int);
                    lemma_qty_sum_nonneg(orig.remove(i as int));
                    assert(find_id(orig, order.id) == i as int) by {
                        lemma_find_id_props(orig, order.id);
                    }
                }
                let removed = self.orders.remove(i);
                self.volume = self.volume - removed.quantity;
                return Some(removed);
            }
            i = i + 1;
        }
        None
    }

    pub fn len(&self) -> (r: usize)
        ensures
            r == self.orders@.len(),
    {
        self.orders.len()
    }

    /// Read-only peek at the oldest order.
    pub fn front(&self) -> (r: Option<&Order>)
        ensures
            match r {
                Some(o) => self.orders@.len() > 0 && *o == self.orders@[0],
                None => self.orders@.len() == 0,
            },
    {
        if self.orders.len() > 0 {
            Some(&self.orders[0])
        } else {
            None
        }
    }

    /// Overwrite the head order in place, keeping its queue position, and
    /// adjust the volume by the quantity delta.  On an empty level nothing
    /// changes.
    pub fn replace_front(&mut self, order: Order)
        requires
            old(self).wf(),
            order.price == old(self).price,
            order.quantity > 0,
            old(self).orders@.len() > 0 ==> old(self).volume - old(self).orders@[0].quantity
                + order.quantity <= u64::MAX,
        ensures
            final(self).wf(),
            final(self).price == old(self).price,
            old(self).orders@.len() == 0 ==> *final(self) == *old(self),
            old(self).orders@.len() > 0 ==> final(self).orders@ == old(self).orders@.update(
                0,
                order,
            ) && final(self).volume == old(self).volume - old(self).orders@[0].quantity
                + order.quantity,
    {
        if self.orders.len() > 0 {
            proof {
                lemma_qty_sum_update(self.orders@, 0, order);
                lemma_qty_sum_nonneg(self.orders@.update(0, order));
                lemma_qty_sum_remove(self.orders@, 0);
                lemma_qty_sum_nonneg(self.orders@.remove(0));
            }
            let prev = self.orders[0];
            self.orders.set(0, order);
            self.volume = self.volume - prev.quantity;
            self.volume = self.volume + order.quantity;
        }
    }
}

} // verus!
