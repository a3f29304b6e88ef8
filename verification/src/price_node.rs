//! One price level of the order book: a FIFO of resting orders at a single
//! price, with a running total of their remaining quantity.
//!
//! Cancelled and fully consumed orders are unlinked from the FIFO at once;
//! every entry kept in the level is live (`leaves_qty > 0`), so the level's
//! queue is itself the sequence of live orders.

use vstd::prelude::*;
use std::rc::Rc;
use crate::types::{Qty, OrderID};
use crate::auction_order::{AuctionOrder, ConsumedOrder};

verus! {

/// A resting order together with the quantity still open on it.
pub struct OrderWithStatus<Order> {
    pub leaves_qty: Qty,
    pub orig_order: Rc<Order>,
}

impl<Order> OrderWithStatus<Order> {
    pub fn leaves_qty(&self) -> (q: Qty)
        ensures
            q == self.leaves_qty,
    {
        self.leaves_qty
    }

    pub fn orig_order(&self) -> (order: Rc<Order>)
        ensures
            order == self.orig_order,
    {
        self.orig_order.clone()
    }
}

/// Total remaining quantity over a queue of resting orders.
pub open spec fn sum_leaves<Order>(s: Seq<OrderWithStatus<Order>>) -> int
    decreases s.len(),
{
    if s.len() == 0 {
        0
    } else {
        s[0].leaves_qty + sum_leaves(s.drop_first())
    }
}

pub proof fn lemma_sum_leaves_nonneg<Order>(s: Seq<OrderWithStatus<Order>>)
    ensures
        sum_leaves(s) >= 0,
    decreases s.len(),
{
    if s.len() > 0 {
        lemma_sum_leaves_nonneg(s.drop_first());
    }
}

pub proof fn lemma_sum_leaves_push<Order>(s: Seq<OrderWithStatus<Order>>, e: OrderWithStatus<Order>)
    ensures
        sum_leaves(s.push(e)) == sum_leaves(s) + e.leaves_qty,
    decreases s.len(),
{
    assert(s.push(e).len() == s.len() + 1);
    assert(sum_leaves(s.push(e)) == s.push(e)[0].leaves_qty + sum_leaves(s.push(e).drop_first()));
    if s.len() == 0 {
        assert(s.push(e)[0] == e);
        assert(s.push(e).drop_first() =~= Seq::<OrderWithStatus<Order>>::empty());
        assert(sum_leaves(s.push(e).drop_first()) == 0);
    } else {
        assert(s.push(e)[0] == s[0]);
        assert(s.push(e).drop_first() =~= s.drop_first().push(e));
        lemma_sum_leaves_push(s.drop_first(), e);
    }
}

pub proof fn lemma_sum_leaves_remove<Order>(s: Seq<OrderWithStatus<Order>>, i: int)
    requires
        0 <= i < s.len(),
    ensures
        sum_leaves(s.remove(i)) == sum_leaves(s) - s[i].leaves_qty,
    decreases s.len(),
{
    if i == 0 {
        assert(s.remove(0) =~= s.drop_first());
    } else {
        assert(s.remove(i).drop_first() =~= s.drop_first().remove(i - 1));
        lemma_sum_leaves_remove(s.drop_first(), i - 1);
    }
}

pub proof fn lemma_sum_leaves_update<Order>(
    s: Seq<OrderWithStatus<Order>>,
    i: int,
    e: OrderWithStatus<Order>,
)
    requires
        0 <= i < s.len(),
    ensures
        sum_leaves(s.update(i, e)) == sum_leaves(s) - s[i].leaves_qty + e.leaves_qty,
    decreases s.len(),
{
    if i == 0 {
        assert(s.update(0, e).drop_first() =~= s.drop_first());
    } else {
        assert(s.update(i, e).drop_first() =~= s.drop_first().update(i - 1, e));
        lemma_sum_leaves_update(s.drop_first(), i - 1, e);
    }
}

/// Index of the first entry resting a given order, or -1 when none does.
pub open spec fn find_order<Order: AuctionOrder>(
    s: Seq<OrderWithStatus<Order>>,
    order_id: OrderID,
) -> int
    decreases s.len(),
{
    if s.len() == 0 {
        -1
    } else if s[0].orig_order.spec_order_id() == order_id {
        0
    } else {
        let r = find_order(s.drop_first(), order_id);
        if r == -1 {
            -1
        } else {
            r + 1
        }
    }
}

pub proof fn lemma_find_order_spec<Order: AuctionOrder>(
    s: Seq<OrderWithStatus<Order>>,
    order_id: OrderID,
)
    ensures
        find_order(s, order_id) == -1 ==> forall|j: int|
            0 <= j < s.len() ==> (#[trigger] s[j]).orig_order.spec_order_id() != order_id,
        find_order(s, order_id) != -1 ==> {
            &&& 0 <= find_order(s, order_id) < s.len()
            &&& s[find_order(s, order_id)].orig_order.spec_order_id() == order_id
            &&& forall|j: int|
                0 <= j < find_order(s, order_id) ==> (
                #[trigger] s[j]).orig_order.spec_order_id() != order_id
        },
    decreases s.len(),
{
    if s.len() > 0 {
        lemma_find_order_spec(s.drop_first(), order_id);
        assert(forall|j: int| 1 <= j < s.len() ==> s[j] == s.drop_first()[j - 1]);
    }
}

/// The consumptions a greedy front-to-back walk of the queue produces for an
/// incoming quantity: full entries while the quantity covers them, then at
/// most one partial consumption.
pub open spec fn consumed_from<Order>(s: Seq<OrderWithStatus<Order>>, qty: Qty) -> Seq<
    ConsumedOrder<Order>,
>
    decreases s.len(),
{
    if qty == 0 || s.len() == 0 {
        Seq::empty()
    } else if s[0].leaves_qty <= qty {
        seq![
            ConsumedOrder {
                consumed_qty: s[0].leaves_qty,
                leaves_qty: 0,
                orig_order: s[0].orig_order,
            },
        ] + consumed_from(s.drop_first(), (qty - s[0].leaves_qty) as Qty)
    } else {
        seq![
            ConsumedOrder {
                consumed_qty: qty,
                leaves_qty: (s[0].leaves_qty - qty) as Qty,
                orig_order: s[0].orig_order,
            },
        ]
    }
}

/// What remains of the queue after the same greedy walk.
pub open spec fn remaining_after<Order>(s: Seq<OrderWithStatus<Order>>, qty: Qty) -> Seq<
    OrderWithStatus<Order>,
>
    decreases s.len(),
{
    if qty == 0 || s.len() == 0 {
        s
    } else if s[0].leaves_qty <= qty {
        remaining_after(s.drop_first(), (qty - s[0].leaves_qty) as Qty)
    } else {
        s.update(
            0,
            OrderWithStatus {
                leaves_qty: (s[0].leaves_qty - qty) as Qty,
                orig_order: s[0].orig_order,
            },
        )
    }
}

/// The part of the incoming quantity the queue cannot fill.
pub open spec fn left_after<Order>(s: Seq<OrderWithStatus<Order>>, qty: Qty) -> Qty
    decreases s.len(),
{
    if qty == 0 || s.len() == 0 {
        qty
    } else if s[0].leaves_qty <= qty {
        left_after(s.drop_first(), (qty - s[0].leaves_qty) as Qty)
    } else {
        0
    }
}

/// The consumption list produced when a queue is taken in full: every entry
/// consumed entirely, in order.
pub open spec fn full_consumption<Order>(s: Seq<OrderWithStatus<Order>>) -> Seq<
    ConsumedOrder<Order>,
> {
    Seq::new(
        s.len(),
        |i: int|
            ConsumedOrder { consumed_qty: s[i].leaves_qty, leaves_qty: 0, orig_order: s[i].orig_order },
    )
}

pub proof fn lemma_sum_leaves_concat<Order>(s1: Seq<OrderWithStatus<Order>>, s2: Seq<OrderWithStatus<Order>>)
    ensures
        sum_leaves(s1 + s2) == sum_leaves(s1) + sum_leaves(s2),
    decreases s1.len(),
{
    if s1.len() == 0 {
        assert(s1 + s2 =~= s2);
    } else {
        assert((s1 + s2)[0] == s1[0]);
        assert((s1 + s2).drop_first() =~= s1.drop_first() + s2);
        lemma_sum_leaves_concat(s1.drop_first(), s2);
    }
}

/// A greedy walk of a concatenation is the walk of the first part followed by
/// a walk of the second on whatever quantity the first left over.
pub proof fn lemma_greedy_concat<Order>(
    s1: Seq<OrderWithStatus<Order>>,
    s2: Seq<OrderWithStatus<Order>>,
    qty: Qty,
)
    ensures
        consumed_from(s1 + s2, qty) =~= consumed_from(s1, qty) + consumed_from(
            s2,
            left_after(s1, qty),
        ),
        remaining_after(s1 + s2, qty) =~= remaining_after(s1, qty) + remaining_after(
            s2,
            left_after(s1, qty),
        ),
        left_after(s1 + s2, qty) == left_after(s2, left_after(s1, qty)),
    decreases s1.len(),
{
    if qty == 0 {
        assert(remaining_after(s1, 0) == s1);
        assert(remaining_after(s2, 0) == s2);
    } else if s1.len() == 0 {
        assert(s1 + s2 =~= s2);
        assert(left_after(s1, qty) == qty);
        assert(consumed_from(s1, qty) =~= Seq::<ConsumedOrder<Order>>::empty());
        assert(remaining_after(s1, qty) =~= Seq::<OrderWithStatus<Order>>::empty());
        assert(consumed_from(s1, qty) + consumed_from(s2, qty) =~= consumed_from(s2, qty));
        assert(remaining_after(s1, qty) + remaining_after(s2, qty) =~= remaining_after(s2, qty));
    } else {
        let c = s1 + s2;
        assert(c.len() > 0);
        assert(c[0] == s1[0]);
        if s1[0].leaves_qty <= qty {
            assert(c.drop_first() =~= s1.drop_first() + s2);
            lemma_greedy_concat(s1.drop_first(), s2, (qty - s1[0].leaves_qty) as Qty);
        } else {
            let e = OrderWithStatus {
                leaves_qty: (s1[0].leaves_qty - qty) as Qty,
                orig_order: s1[0].orig_order,
            };
            assert(c.update(0, e) =~= s1.update(0, e) + s2);
            assert(left_after(s1, qty) == 0);
            assert(consumed_from(s2, 0) =~= Seq::<ConsumedOrder<Order>>::empty());
            assert(remaining_after(s2, 0) == s2);
            assert(consumed_from(c, qty) =~= consumed_from(s1, qty) + consumed_from(s2, 0));
        }
    }
}

/// When the incoming quantity covers the whole queue, the walk consumes every
/// entry in full and leaves the difference.
pub proof fn lemma_greedy_covered<Order>(s: Seq<OrderWithStatus<Order>>, qty: Qty)
    requires
        forall|i: int| 0 <= i < s.len() ==> (#[trigger] s[i]).leaves_qty > 0,
        sum_leaves(s) <= qty,
    ensures
        consumed_from(s, qty) =~= full_consumption(s),
        remaining_after(s, qty) =~= Seq::<OrderWithStatus<Order>>::empty(),
        left_after(s, qty) == qty - sum_leaves(s),
    decreases s.len(),
{
    lemma_sum_leaves_nonneg(s);
    if s.len() == 0 {
    } else {
        lemma_sum_leaves_nonneg(s.drop_first());
        assert(s[0].leaves_qty <= qty);
        lemma_greedy_covered(s.drop_first(), (qty - s[0].leaves_qty) as Qty);
        assert(consumed_from(s, qty) =~= full_consumption(s)) by {
            assert(consumed_from(s.drop_first(), (qty - s[0].leaves_qty) as Qty) =~= full_consumption(s.drop_first()));
        }
    }
}

/// When the queue holds at least the incoming quantity, the walk fills all of
/// it.
pub proof fn lemma_greedy_saturated<Order>(s: Seq<OrderWithStatus<Order>>, qty: Qty)
    requires
        forall|i: int| 0 <= i < s.len() ==> (#[trigger] s[i]).leaves_qty > 0,
        sum_leaves(s) >= qty,
    ensures
        left_after(s, qty) == 0,
    decreases s.len(),
{
    if qty == 0 || s.len() == 0 {
    } else if s[0].leaves_qty <= qty {
        lemma_greedy_saturated(s.drop_first(), (qty - s[0].leaves_qty) as Qty);
    }
}

/// The walk only removes a prefix: what remains is a suffix of the queue with
/// at most its first entry reduced, still live, and the totals balance.
pub proof fn lemma_greedy_wf<Order>(s: Seq<OrderWithStatus<Order>>, qty: Qty)
    requires
        forall|i: int| 0 <= i < s.len() ==> (#[trigger] s[i]).leaves_qty > 0,
    ensures
        forall|i: int|
            0 <= i < remaining_after(s, qty).len() ==> (#[trigger] remaining_after(s, qty)[i]).leaves_qty
                > 0,
        sum_leaves(remaining_after(s, qty)) == sum_leaves(s) - (qty - left_after(s, qty)),
        left_after(s, qty) <= qty,
        remaining_after(s, qty).len() <= s.len(),
        forall|i: int|
            0 <= i < remaining_after(s, qty).len() ==> {
                let off = s.len() - remaining_after(s, qty).len();
                &&& (#[trigger] remaining_after(s, qty)[i]).orig_order == s[off + i].orig_order
                &&& remaining_after(s, qty)[i].leaves_qty <= s[off + i].leaves_qty
            },
    decreases s.len(),
{
    if qty == 0 || s.len() == 0 {
    } else if s[0].leaves_qty <= qty {
        assert(forall|i: int|
            0 <= i < s.drop_first().len() ==> (#[trigger] s.drop_first()[i]).leaves_qty > 0);
        lemma_greedy_wf(s.drop_first(), (qty - s[0].leaves_qty) as Qty);
    } else {
        let e = OrderWithStatus {
            leaves_qty: (s[0].leaves_qty - qty) as Qty,
            orig_order: s[0].orig_order,
        };
        lemma_sum_leaves_update(s, 0, e);
    }
}

/// Total quantity taken over a list of consumptions.
pub open spec fn sum_consumed<Order>(s: Seq<ConsumedOrder<Order>>) -> int
    decreases s.len(),
{
    if s.len() == 0 {
        0
    } else {
        s[0].consumed_qty + sum_consumed(s.drop_first())
    }
}

/// A greedy walk consumes entries of the queue front to back: record `i`
/// takes from entry `i`, never more than it holds, and in total exactly what
/// the walk filled.
pub proof fn lemma_consumed_from_props<Order>(s: Seq<OrderWithStatus<Order>>, qty: Qty)
    requires
        forall|i: int| 0 <= i < s.len() ==> (#[trigger] s[i]).leaves_qty > 0,
    ensures
        consumed_from(s, qty).len() <= s.len(),
        forall|i: int|
            0 <= i < consumed_from(s, qty).len() ==> {
                &&& (#[trigger] consumed_from(s, qty)[i]).orig_order == s[i].orig_order
                &&& consumed_from(s, qty)[i].consumed_qty + consumed_from(s, qty)[i].leaves_qty
                    == s[i].leaves_qty
                &&& consumed_from(s, qty)[i].consumed_qty > 0
            },
        sum_consumed(consumed_from(s, qty)) == qty - left_after(s, qty),
    decreases s.len(),
{
    if qty == 0 || s.len() == 0 {
    } else if s[0].leaves_qty <= qty {
        lemma_consumed_from_props(s.drop_first(), (qty - s[0].leaves_qty) as Qty);
        let c = consumed_from(s, qty);
        let rest = consumed_from(s.drop_first(), (qty - s[0].leaves_qty) as Qty);
        assert(c.drop_first() =~= rest);
        assert(forall|i: int| 1 <= i < c.len() ==> c[i] == rest[i - 1]);
        assert(forall|i: int| 1 <= i < c.len() ==> s[i] == s.drop_first()[i - 1]);
        assert(sum_consumed(c) == c[0].consumed_qty + sum_consumed(rest));
    } else {
        let c = consumed_from(s, qty);
        assert(c.len() == 1);
        assert(sum_consumed(c.drop_first()) == 0);
        assert(left_after(s, qty) == 0);
    }
}

/// A price level: FIFO queue of live resting orders and their total open
/// quantity.
pub struct PriceNode<Order> {
    total: Qty,
    order_list: Vec<OrderWithStatus<Order>>,
}

impl<Order: AuctionOrder> PriceNode<Order> {
    pub closed spec fn entries(&self) -> Seq<OrderWithStatus<Order>> {
        self.order_list@
    }

    pub closed spec fn spec_total(&self) -> Qty {
        self.total
    }

    /// The total matches the queue, and every entry kept is live, resting no
    /// more than its order's original quantity.
    pub open spec fn wf(&self) -> bool {
        &&& self.spec_total() == sum_leaves(self.entries())
        &&& forall|i: int| 0 <= i < self.entries().len() ==> (#[trigger] self.entries()[i]).leaves_qty
            > 0
        &&& forall|i: int| 0 <= i < self.entries().len() ==> (#[trigger] self.entries()[i]).leaves_qty
            <= self.entries()[i].orig_order.spec_qty()
    }

    pub fn new() -> (node: PriceNode<Order>)
        ensures
            node.wf(),
            node.entries() =~= Seq::<OrderWithStatus<Order>>::empty(),
            node.spec_total() == 0,
    {
        PriceNode { total: 0, order_list: Vec::new() }
    }

    pub fn total(&self) -> (t: Qty)
        ensures
            t == self.spec_total(),
    {
        self.total
    }

    pub fn entries_len(&self) -> (n: usize)
        ensures
            n == self.entries().len(),
    {
        self.order_list.len()
    }

    pub fn entry_at(&self, k: usize) -> (entry: OrderWithStatus<Order>)
        requires
            k < self.entries().len(),
        ensures
            entry == self.entries()[k as int],
    {
        let e = &self.order_list[k];
        OrderWithStatus { leaves_qty: e.leaves_qty, orig_order: e.orig_order.clone() }
    }

    pub fn append_order(&mut self, order: Rc<Order>)
        requires
            old(self).wf(),
            order.spec_qty() > 0,
            old(self).spec_total() + order.spec_qty() <= Qty::MAX,
        ensures
            final(self).wf(),
            final(self).entries() == old(self).entries().push(
                OrderWithStatus { leaves_qty: order.spec_qty(), orig_order: order },
            ),
            final(self).spec_total() == old(self).spec_total() + order.spec_qty(),
    {
        let leaves_qty = order.qty();
        self.append_order_with_leaves_qty(leaves_qty, order);
    }

    pub fn append_order_with_leaves_qty(&mut self, leaves_qty: Qty, order: Rc<Order>)
        requires
            old(self).wf(),
            leaves_qty > 0,
            leaves_qty <= order.spec_qty(),
            old(self).spec_total() + leaves_qty <= Qty::MAX,
        ensures
            final(self).wf(),
            final(self).entries() == old(self).entries().push(
                OrderWithStatus { leaves_qty, orig_order: order },
            ),
            final(self).spec_total() == old(self).spec_total() + leaves_qty,
    {
        self.total = self.total + leaves_qty;
        let entry = OrderWithStatus { leaves_qty, orig_order: order };
        proof {
            lemma_sum_leaves_push(self.order_list@, entry);
        }
        self.order_list.push(entry);
    }

    /// Cancels the resting order with the given identifier: unlinks it and
    /// returns its remaining quantity as a single consumption.
    pub fn remove_order(&mut self, order_id: OrderID) -> (removed: Option<ConsumedOrder<Order>>)
        requires
            old(self).wf(),
        ensures
            final(self).wf(),
            ({
                let j = find_order(old(self).entries(), order_id);
                if j >= 0 {
                    &&& removed == Some(
                        ConsumedOrder {
                            consumed_qty: old(self).entries()[j].leaves_qty,
                            leaves_qty: 0,
                            orig_order: old(self).entries()[j].orig_order,
                        },
                    )
                    &&& final(self).entries() == old(self).entries().remove(j)
                    &&& final(self).spec_total() == old(self).spec_total() - old(
                        self,
                    ).entries()[j].leaves_qty
                } else {
                    &&& removed is None
                    &&& *final(self) == *old(self)
                }
            }),
    {
        let mut i: usize = 0;
        while i < self.order_list.len()
            invariant
                *self == *old(self),
                self.wf(),
                i <= self.entries().len(),
                forall|k: int|
                    0 <= k < i ==> (#[trigger] self.entries()[k]).orig_order.spec_order_id()
                        != order_id,
            decreases self.entries().len() - i,
        {
            let matches_id = self.order_list[i].orig_order.order_id() == order_id;
            if matches_id {
                proof {
                    let pre = old(self).entries();
                    let j = find_order(pre, order_id);
                    lemma_find_order_spec(pre, order_id);
                    assert(pre[i as int].orig_order.spec_order_id() == order_id);
                    if j == -1 {
                        assert(pre[i as int].orig_order.spec_order_id() != order_id);
                    } else if j < i as int {
                        assert(pre[j].orig_order.spec_order_id() != order_id);
                    } else if j > i as int {
                        assert(pre[i as int].orig_order.spec_order_id() != order_id);
                    }
                    assert(j == i as int);
                    lemma_sum_leaves_remove(self.entries(), i as int);
                    lemma_sum_leaves_nonneg(self.entries().remove(i as int));
                }
                let entry = self.order_list.remove(i);
                self.total = self.total - entry.leaves_qty;
                return Some(
                    ConsumedOrder {
                        consumed_qty: entry.leaves_qty,
                        leaves_qty: 0,
                        orig_order: entry.orig_order,
                    },
                );
            }
            i += 1;
        }
        proof {
            let pre = old(self).entries();
            lemma_find_order_spec(pre, order_id);
            let j = find_order(pre, order_id);
            if j >= 0 {
                assert(pre[j].orig_order.spec_order_id() != order_id);
            }
        }
        None
    }

    /// Greedily consumes up to `qty` from the front of the queue, unlinking
    /// each fully consumed order and reducing at most one partially.
    pub fn consume_order(&mut self, qty: Qty) -> (orders: Vec<ConsumedOrder<Order>>)
        requires
            old(self).wf(),
        ensures
            final(self).wf(),
            orders@ == consumed_from(old(self).entries(), qty),
            final(self).entries() == remaining_after(old(self).entries(), qty),
            final(self).spec_total() == old(self).spec_total() - (qty - left_after(
                old(self).entries(),
                qty,
            )),
    {
        let mut orders: Vec<ConsumedOrder<Order>> = Vec::new();
        let mut left_qty = qty;
        loop
            invariant
                self.wf(),
                left_qty <= qty,
                consumed_from(old(self).entries(), qty) =~= orders@ + consumed_from(
                    self.entries(),
                    left_qty,
                ),
                remaining_after(old(self).entries(), qty) =~= remaining_after(
                    self.entries(),
                    left_qty,
                ),
                left_after(old(self).entries(), qty) == left_after(self.entries(), left_qty),
                self.spec_total() == old(self).spec_total() - (qty - left_qty),
            ensures
                self.wf(),
                orders@ =~= consumed_from(old(self).entries(), qty),
                self.entries() =~= remaining_after(old(self).entries(), qty),
                left_after(old(self).entries(), qty) == left_after(self.entries(), left_qty),
                consumed_from(self.entries(), left_qty) =~= Seq::<ConsumedOrder<Order>>::empty(),
                remaining_after(self.entries(), left_qty) =~= self.entries(),
                left_after(self.entries(), left_qty) == left_qty,
                self.spec_total() == old(self).spec_total() - (qty - left_qty),
            decreases self.entries().len(),
        {
            if left_qty == 0 || self.order_list.len() == 0 {
                break ;
            }
            let front_leaves = self.order_list[0].leaves_qty;
            proof {
                lemma_sum_leaves_nonneg(self.entries().drop_first());
            }
            if front_leaves <= left_qty {
                proof {
                    lemma_sum_leaves_remove(self.entries(), 0);
                    assert(self.entries().remove(0) =~= self.entries().drop_first());
                }
                let entry = self.order_list.remove(0);
                self.total = self.total - entry.leaves_qty;
                let ghost orders_before = orders@;
                orders.push(
                    ConsumedOrder {
                        consumed_qty: entry.leaves_qty,
                        leaves_qty: 0,
                        orig_order: entry.orig_order,
                    },
                );
                left_qty = left_qty - front_leaves;
            } else {
                let ghost entries_before = self.entries();
                let new_leaves = front_leaves - left_qty;
                self.order_list[0].leaves_qty = new_leaves;
                proof {
                    lemma_sum_leaves_update(entries_before, 0, self.entries()[0]);
                }
                self.total = self.total - left_qty;
                orders.push(
                    ConsumedOrder {
                        consumed_qty: left_qty,
                        leaves_qty: new_leaves,
                        orig_order: self.order_list[0].orig_order.clone(),
                    },
                );
                left_qty = 0;
                break ;
            }
        }
        orders
    }

    /// An iterator over the level's resting orders, front to back; the level
    /// keeps only live orders, so every entry is yielded.
    pub fn order_iter_mut(&mut self) -> (iter: OrderIterMut<Order>)
        requires
            old(self).wf(),
        ensures
            final(self).wf(),
            final(self).entries() == old(self).entries(),
            final(self).spec_total() == old(self).spec_total(),
            iter.items@ == old(self).entries(),
            iter.curr == 0,
    {
        let mut items: Vec<OrderWithStatus<Order>> = Vec::new();
        let mut i: usize = 0;
        while i < self.order_list.len()
            invariant
                *self == *old(self),
                i <= self.entries().len(),
                items@ =~= self.entries().subrange(0, i as int),
            decreases self.entries().len() - i,
        {
            let entry = &self.order_list[i];
            items.push(
                OrderWithStatus {
                    leaves_qty: entry.leaves_qty,
                    orig_order: entry.orig_order.clone(),
                },
            );
            proof {
                assert(items@ =~= self.entries().subrange(0, i + 1));
            }
            i += 1;
        }
        proof {
            assert(items@ =~= self.entries());
        }
        OrderIterMut { items, curr: 0 }
    }
}

/// Walks the resting orders of one price level in FIFO order, yielding a
/// shared handle to each.
pub struct OrderIterMut<Order> {
    pub items: Vec<OrderWithStatus<Order>>,
    pub curr: usize,
}

impl<Order: AuctionOrder> OrderIterMut<Order> {
    pub fn new(node: &mut PriceNode<Order>) -> (iter: OrderIterMut<Order>)
        requires
            old(node).wf(),
        ensures
            final(node).wf(),
            final(node).entries() == old(node).entries(),
            final(node).spec_total() == old(node).spec_total(),
            iter.items@ == old(node).entries(),
            iter.curr == 0,
    {
        node.order_iter_mut()
    }

    pub fn next(&mut self) -> (entry: Option<OrderWithStatus<Order>>)
        ensures
            final(self).items == old(self).items,
            if old(self).curr < old(self).items@.len() {
                &&& entry matches Some(e) && e == old(self).items@[old(self).curr as int]
                &&& final(self).curr == old(self).curr + 1
            } else {
                &&& entry is None
                &&& final(self).curr == old(self).curr
            },
    {
        if self.curr < self.items.len() {
            let entry = &self.items[self.curr];
            self.curr = self.curr + 1;
            Some(
                OrderWithStatus {
                    leaves_qty: entry.leaves_qty,
                    orig_order: entry.orig_order.clone(),
                },
            )
        } else {
            None
        }
    }

    pub fn has_next(&self) -> (b: bool)
        ensures
            b == (self.curr < self.items@.len()),
    {
        self.curr < self.items.len()
    }
}

} // verus!
