//! A price-ordered order book: a map from price to price level, iterated
//! best-price-first.
//!
//! Direction is realised as a signed price multiplier: the level sequence is
//! kept sorted by signed key ascending, which yields best-first for both a
//! buy book (highest bid first, multiplier -1) and a sell book (lowest ask
//! first, multiplier +1), and turns the cross predicate into a single
//! comparison of signed keys.

use vstd::prelude::*;
use std::rc::Rc;
use crate::types::{Qty, Price, OrderID};
use crate::auction_order::{AuctionOrder, ConsumedOrder};
use crate::price_node::{
    PriceNode, OrderWithStatus, sum_leaves, find_order, consumed_from, remaining_after, left_after,
    full_consumption, lemma_sum_leaves_concat, lemma_greedy_concat, lemma_greedy_covered,
    lemma_greedy_saturated, lemma_greedy_wf, lemma_sum_leaves_nonneg, lemma_find_order_spec,
};

verus! {

/// The priority key of a price under a direction multiplier: ascending key
/// order is best-first.
pub open spec fn key_of(price: Price, m: i64) -> int {
    if m == 1 {
        price as int
    } else {
        -(price as int)
    }
}

/// Levels strictly sorted by key: best level first, one level per price.
pub open spec fn sorted_by_key<Order: AuctionOrder>(
    ls: Seq<(Price, PriceNode<Order>)>,
    m: i64,
) -> bool {
    forall|a: int, b: int|
        0 <= a < b < ls.len() ==> key_of((#[trigger] ls[a]).0, m) < key_of((#[trigger] ls[b]).0, m)
}

/// Every level internally consistent and holding some quantity.
/// (Each level's own invariant also bounds every resting remainder by its
/// order's original quantity.)
pub open spec fn levels_wf<Order: AuctionOrder>(ls: Seq<(Price, PriceNode<Order>)>) -> bool {
    forall|i: int|
        0 <= i < ls.len() ==> (#[trigger] ls[i]).1.wf() && ls[i].1.spec_total() > 0
}

/// Every order rests on the level of its own price.
pub open spec fn levels_priced<Order: AuctionOrder>(ls: Seq<(Price, PriceNode<Order>)>) -> bool {
    forall|i: int, k: int|
        0 <= i < ls.len() && 0 <= k < ls[i].1.entries().len() ==> (
        #[trigger] ls[i].1.entries()[k]).orig_order.spec_price() == ls[i].0
}

/// Total open quantity over a sequence of price levels.
pub open spec fn sum_totals<Order: AuctionOrder>(ls: Seq<(Price, PriceNode<Order>)>) -> int
    decreases ls.len(),
{
    if ls.len() == 0 {
        0
    } else {
        ls[0].1.spec_total() + sum_totals(ls.drop_first())
    }
}

/// All resting orders of a sequence of levels, best level first, FIFO within
/// each level.
pub open spec fn flatten_levels<Order: AuctionOrder>(ls: Seq<(Price, PriceNode<Order>)>) -> Seq<
    OrderWithStatus<Order>,
>
    decreases ls.len(),
{
    if ls.len() == 0 {
        Seq::empty()
    } else {
        ls[0].1.entries() + flatten_levels(ls.drop_first())
    }
}

/// How many leading levels of the sequence cross the limit key.
pub open spec fn crossing_len<Order: AuctionOrder>(
    ls: Seq<(Price, PriceNode<Order>)>,
    limit_key: int,
    m: i64,
) -> int
    decreases ls.len(),
{
    if ls.len() == 0 {
        0
    } else if key_of(ls[0].0, m) <= limit_key {
        1 + crossing_len(ls.drop_first(), limit_key, m)
    } else {
        0
    }
}

/// Index of the level resting at a given price, or -1 when none does.
pub open spec fn level_index<Order: AuctionOrder>(
    ls: Seq<(Price, PriceNode<Order>)>,
    price: Price,
) -> int
    decreases ls.len(),
{
    if ls.len() == 0 {
        -1
    } else if ls[0].0 == price {
        0
    } else {
        let r = level_index(ls.drop_first(), price);
        if r == -1 {
            -1
        } else {
            r + 1
        }
    }
}

/// Where a fresh level with the given key belongs: after every level with a
/// smaller key.
pub open spec fn insert_position<Order: AuctionOrder>(
    ls: Seq<(Price, PriceNode<Order>)>,
    key: int,
    m: i64,
) -> int
    decreases ls.len(),
{
    if ls.len() == 0 {
        0
    } else if key_of(ls[0].0, m) < key {
        1 + insert_position(ls.drop_first(), key, m)
    } else {
        0
    }
}

pub struct PriceOrderBook<Order> {
    price_multiplier: i64,
    nodes: Vec<(Price, PriceNode<Order>)>,
}

impl<Order: AuctionOrder> PriceOrderBook<Order> {
    pub closed spec fn spec_multiplier(&self) -> i64 {
        self.price_multiplier
    }

    pub closed spec fn levels(&self) -> Seq<(Price, PriceNode<Order>)> {
        self.nodes@
    }

    /// The priority key of a price in this book.
    pub open spec fn key(&self, price: Price) -> int {
        key_of(price, self.spec_multiplier())
    }

    /// Whether a resting price crosses an incoming limit: it is at least as
    /// good for the aggressor.
    pub open spec fn crosses(&self, resting: Price, limit: Price) -> bool {
        self.key(resting) <= self.key(limit)
    }

    /// All resting orders, in priority order.
    pub open spec fn book_orders(&self) -> Seq<OrderWithStatus<Order>> {
        flatten_levels(self.levels())
    }

    /// Total open quantity across the book.
    pub open spec fn spec_book_total(&self) -> int {
        sum_totals(self.levels())
    }

    /// The book invariant: a valid direction; levels strictly sorted by key,
    /// none empty, each internally consistent, and every order resting at the
    /// price of its level.
    pub open spec fn wf(&self) -> bool {
        &&& (self.spec_multiplier() == 1 || self.spec_multiplier() == -1)
        &&& sorted_by_key(self.levels(), self.spec_multiplier())
        &&& levels_wf(self.levels())
        &&& levels_priced(self.levels())
        &&& self.spec_book_total() <= Qty::MAX
    }

    /// A book for resting buy orders: the highest price has priority.
    pub fn create_high_price_priority_order_book() -> (book: PriceOrderBook<Order>)
        ensures
            book.wf(),
            book.spec_multiplier() == -1,
            book.levels() =~= Seq::<(Price, PriceNode<Order>)>::empty(),
    {
        PriceOrderBook { price_multiplier: -1, nodes: Vec::new() }
    }

    /// A book for resting sell orders: the lowest price has priority.
    pub fn create_low_price_priority_order_book() -> (book: PriceOrderBook<Order>)
        ensures
            book.wf(),
            book.spec_multiplier() == 1,
            book.levels() =~= Seq::<(Price, PriceNode<Order>)>::empty(),
    {
        PriceOrderBook { price_multiplier: 1, nodes: Vec::new() }
    }

    /// True when `a` has strictly better (smaller) key than `b`.
    fn key_lt(&self, a: Price, b: Price) -> (r: bool)
        requires
            self.spec_multiplier() == 1 || self.spec_multiplier() == -1,
        ensures
            r == (self.key(a) < self.key(b)),
    {
        if self.price_multiplier == 1 {
            a < b
        } else {
            a > b
        }
    }

    /// True when a resting price crosses the limit.
    fn key_crosses(&self, resting: Price, limit: Price) -> (r: bool)
        requires
            self.spec_multiplier() == 1 || self.spec_multiplier() == -1,
        ensures
            r == self.crosses(resting, limit),
    {
        if self.price_multiplier == 1 {
            resting <= limit
        } else {
            resting >= limit
        }
    }

    /// Rests an order with its full quantity.
    pub fn insert_order(&mut self, order: Rc<Order>)
        requires
            old(self).wf(),
            order.spec_qty() > 0,
            old(self).spec_book_total() + order.spec_qty() <= Qty::MAX,
        ensures
            final(self).wf(),
            final(self).spec_multiplier() == old(self).spec_multiplier(),
            inserted_into(*old(self), *final(self), order.spec_qty(), order),
            final(self).spec_book_total() == old(self).spec_book_total() + order.spec_qty(),
    {
        let leaves_qty = order.qty();
        self.insert_order_with_leaves_qty(leaves_qty, order);
    }

    /// Rests an order with the given remaining quantity, at its level if one
    /// exists, else in a fresh level at the key-ordered position.
    #[verifier::loop_isolation(false)]
    pub fn insert_order_with_leaves_qty(&mut self, leaves_qty: Qty, order: Rc<Order>)
        requires
            old(self).wf(),
            leaves_qty > 0,
            leaves_qty <= order.spec_qty(),
            old(self).spec_book_total() + leaves_qty <= Qty::MAX,
        ensures
            final(self).wf(),
            final(self).spec_multiplier() == old(self).spec_multiplier(),
            inserted_into(*old(self), *final(self), leaves_qty, order),
            final(self).spec_book_total() == old(self).spec_book_total() + leaves_qty,
    {
        let price = order.price();
        let mut i: usize = 0;
        while i < self.nodes.len() && self.key_lt(self.nodes[i].0, price)
            invariant
                *self == *old(self),
                i <= self.levels().len(),
                forall|j: int| 0 <= j < i ==> self.key((#[trigger] self.levels()[j]).0) < self.key(
                    order.spec_price(),
                ),
            decreases self.levels().len() - i,
        {
            i += 1;
        }
        proof {
            lemma_level_search(
                old(self).levels(),
                order.spec_price(),
                self.price_multiplier,
                i as int,
            );
        }
        if i < self.nodes.len() && self.nodes[i].0 == price {
            proof {
                lemma_sum_totals_bound(self.levels(), i as int);
            }
            let node = &mut self.nodes[i].1;
            node.append_order_with_leaves_qty(leaves_qty, order);
            proof {
                lemma_sum_totals_update(old(self).levels(), self.levels(), i as int);
            }
        } else {
            let mut node = PriceNode::<Order>::new();
            node.append_order_with_leaves_qty(leaves_qty, order);
            self.nodes.insert(i, (price, node));
            proof {
                lemma_sum_totals_insert(old(self).levels(), self.levels(), i as int);
            }
        }
    }
    /// Cancels the resting order at the given price with the given
    /// identifier, pruning its level when that empties it.
    #[verifier::loop_isolation(false)]
    #[verifier::rlimit(100)]
    pub fn remove_order(&mut self, price: Price, order_id: OrderID) -> (removed: Option<
        ConsumedOrder<Order>,
    >)
        requires
            old(self).wf(),
        ensures
            final(self).wf(),
            final(self).spec_multiplier() == old(self).spec_multiplier(),
            removed_from(*old(self), *final(self), price, order_id, removed),
            final(self).spec_book_total() == old(self).spec_book_total() - (match removed {
                Some(c) => c.consumed_qty as int,
                None => 0,
            }),
    {
        let mut i: usize = 0;
        while i < self.nodes.len() && self.key_lt(self.nodes[i].0, price)
            invariant
                *self == *old(self),
                i <= self.levels().len(),
                forall|j: int| 0 <= j < i ==> self.key((#[trigger] self.levels()[j]).0) < self.key(
                    price,
                ),
            decreases self.levels().len() - i,
        {
            i += 1;
        }
        proof {
            lemma_level_search(old(self).levels(), price, self.price_multiplier, i as int);
        }
        if i < self.nodes.len() && self.nodes[i].0 == price {
            let ghost pre_levels = self.levels();
            let ghost m = self.price_multiplier;
            let node = &mut self.nodes[i].1;
            let removed = node.remove_order(order_id);
            proof {
                lemma_sum_totals_update(pre_levels, self.levels(), i as int);
                let cur = self.levels();
                assert(forall|a: int|
                    0 <= a < cur.len() ==> (#[trigger] cur[a]).0 == pre_levels[a].0);
                assert(sorted_by_key(cur, m));
                let entries = pre_levels[i as int].1.entries();
                let j = find_order(entries, order_id);
                if j >= 0 {
                    lemma_find_order_spec(entries, order_id);
                    entries.remove_ensures(j);
                    assert(levels_priced(cur));
                    assert(removed is Some);
                } else {
                    assert(cur =~= pre_levels);
                }
            }
            if removed.is_some() {
                let ghost mid_levels = self.levels();
                if self.nodes[i].1.total() == 0 {
                    self.nodes.remove(i);
                    proof {
                        lemma_sum_totals_remove(mid_levels, i as int);
                        let cur = self.levels();
                        assert(cur =~= mid_levels.remove(i as int));
                        assert(forall|a: int|
                            0 <= a < cur.len() ==> #[trigger] cur[a] == (if a < i as int {
                                pre_levels[a]
                            } else {
                                pre_levels[a + 1]
                            }));
                        assert(sorted_by_key(cur, m));
                        assert(levels_wf(cur));
                        assert(levels_priced(cur));
                        assert(cur =~= pre_levels.remove(i as int));
                    }
                }
            }
            proof {
                let entries = old(self).levels()[i as int].1.entries();
                if find_order(entries, order_id) < 0 {
                    lemma_find_order_spec(entries, order_id);
                    assert(find_order(entries, order_id) == -1);
                }
            }
            removed
        } else {
            None
        }
    }
    /// Greedily consumes up to `qty` against the best levels while they cross
    /// the limit: whole levels are drained and pruned; the last level touched
    /// may be reduced in place. Returns the unfilled remainder and one
    /// consumption record per resting order touched, in priority order.
    #[verifier::loop_isolation(false)]
    #[verifier::rlimit(60)]
    pub fn consume_order(&mut self, qty: Qty, limit_price: Price) -> (r: (Qty, Vec<
        ConsumedOrder<Order>,
    >))
        requires
            old(self).wf(),
        ensures
            final(self).wf(),
            final(self).spec_multiplier() == old(self).spec_multiplier(),
            ({
                let m = old(self).spec_multiplier();
                let lk = key_of(limit_price, m);
                let cross = crossing_orders(old(self).levels(), lk, m);
                &&& r.1@ == consumed_from(cross, qty)
                &&& r.0 == left_after(cross, qty)
                &&& r.0 <= qty
                &&& flatten_levels(final(self).levels()) == remaining_after(cross, qty)
                    + flatten_levels(
                    old(self).levels().skip(crossing_len(old(self).levels(), lk, m)),
                )
                &&& final(self).spec_book_total() == old(self).spec_book_total() - (qty - r.0)
            }),
    {
        let ghost m = self.price_multiplier;
        let ghost lk = key_of(limit_price, m);
        let ghost cross0 = crossing_orders(old(self).levels(), lk, m);
        let ghost suffix0 = old(self).levels().skip(crossing_len(old(self).levels(), lk, m));

        let mut orders: Vec<ConsumedOrder<Order>> = Vec::new();
        let mut left_qty = qty;

        proof {
            lemma_crossing_len_bounds(self.levels(), lk, m);
        }

        while left_qty > 0 && self.nodes.len() > 0 && self.key_crosses(self.nodes[0].0, limit_price)
            invariant
                self.wf(),
                self.spec_multiplier() == m,
                left_qty <= qty,
                consumed_from(cross0, qty) =~= orders@ + consumed_from(
                    crossing_orders(self.levels(), lk, m),
                    left_qty,
                ),
                left_after(cross0, qty) == left_after(
                    crossing_orders(self.levels(), lk, m),
                    left_qty,
                ),
                remaining_after(cross0, qty) =~= remaining_after(
                    crossing_orders(self.levels(), lk, m),
                    left_qty,
                ),
                flatten_levels(suffix0) =~= flatten_levels(
                    self.levels().skip(crossing_len(self.levels(), lk, m)),
                ),
                self.spec_book_total() == old(self).spec_book_total() - (qty - left_qty),
            decreases self.levels().len(), left_qty,
        {
            proof {
                lemma_crossing_len_bounds(self.levels(), lk, m);
            }
            let ghost cur0 = self.levels();
            let ghost cl0 = crossing_len(cur0, lk, m);
            let ghost entries0 = cur0[0].1.entries();
            let ghost crossrest = crossing_orders(cur0.drop_first(), lk, m);
            let ghost orders_before = orders@;
            let ghost left_before = left_qty;
            proof {
                lemma_crossing_len_bounds(cur0.drop_first(), lk, m);
                assert(cl0 >= 1);
                lemma_crossing_step(cur0, lk, m);
                assert(crossing_orders(cur0, lk, m) =~= entries0 + crossrest);
                lemma_greedy_concat(entries0, crossrest, left_qty);
            }
            let node_total = self.nodes[0].1.total();
            if node_total <= left_qty {
                proof {
                    lemma_greedy_covered(entries0, node_total);
                    lemma_greedy_covered(entries0, left_qty);
                }
                let node = &mut self.nodes[0].1;
                let mut vec = node.consume_order(node_total);
                orders.append(&mut vec);
                proof {
                    lemma_sum_totals_update(cur0, self.levels(), 0);
                    lemma_sum_totals_drop(self.levels());
                }
                self.nodes.remove(0);
                left_qty = left_qty - node_total;
                proof {
                    let cur2 = self.levels();
                    assert(cur2 =~= cur0.drop_first());
                    assert(forall|a: int| 0 <= a < cur2.len() ==> #[trigger] cur2[a] == cur0[a + 1]);
                    assert(sorted_by_key(cur2, m));
                    assert(levels_wf(cur2));
                    assert(levels_priced(cur2));
                    assert(crossing_orders(cur2, lk, m) =~= crossrest);
                    assert(consumed_from(entries0, left_before) =~= full_consumption(entries0));
                    assert(consumed_from(entries0, node_total) =~= full_consumption(entries0));
                    assert(left_after(entries0, left_before) == left_qty);
                    assert(orders_before + (full_consumption(entries0) + consumed_from(
                        crossrest,
                        left_qty,
                    )) =~= (orders_before + full_consumption(entries0)) + consumed_from(
                        crossrest,
                        left_qty,
                    ));
                    assert(remaining_after(entries0, left_before) =~= Seq::<
                        OrderWithStatus<Order>,
                    >::empty());
                    assert(remaining_after(entries0, left_before) + remaining_after(
                        crossrest,
                        left_qty,
                    ) =~= remaining_after(crossrest, left_qty));
                    assert(cur2.skip(cl0 - 1) =~= cur0.skip(cl0));
                    assert(crossing_len(cur2, lk, m) == cl0 - 1);
                }
            } else {
                proof {
                    lemma_greedy_saturated(entries0, left_qty);
                    lemma_greedy_wf(entries0, left_qty);
                }
                let node = &mut self.nodes[0].1;
                let mut vec = node.consume_order(left_qty);
                orders.append(&mut vec);
                proof {
                    lemma_sum_totals_update(cur0, self.levels(), 0);
                }
                left_qty = 0;
                proof {
                    let cur1 = self.levels();
                    assert(cur1[0].0 == cur0[0].0);
                    assert(forall|a: int| 1 <= a < cur1.len() ==> #[trigger] cur1[a] == cur0[a]);
                    assert(forall|a: int|
                        0 <= a < cur1.len() ==> (#[trigger] cur1[a]).0 == cur0[a].0);
                    assert(sorted_by_key(cur1, m));
                    assert(levels_wf(cur1));
                    assert(levels_priced(cur1)) by {
                        let rem = cur1[0].1.entries();
                        let off = entries0.len() - rem.len();
                        assert(forall|k: int|
                            0 <= k < rem.len() ==> (#[trigger] rem[k]).orig_order
                                == entries0[off + k].orig_order);
                    }
                    lemma_crossing_step(cur1, lk, m);
                    assert(cur1.drop_first() =~= cur0.drop_first());
                    assert(crossing_len(cur1, lk, m) == cl0);
                    assert(crossing_orders(cur1, lk, m) =~= cur1[0].1.entries() + crossrest);
                    assert(left_after(entries0, left_before) == 0);
                    assert(consumed_from(crossrest, 0) =~= Seq::<ConsumedOrder<Order>>::empty());
                    assert(consumed_from(crossing_orders(cur1, lk, m), 0) =~= Seq::<
                        ConsumedOrder<Order>,
                    >::empty());
                    assert(orders_before + (vec@ + consumed_from(crossrest, 0)) =~= (orders_before
                        + vec@) + consumed_from(crossing_orders(cur1, lk, m), 0));
                    assert(remaining_after(crossrest, 0) == crossrest);
                    assert(remaining_after(crossing_orders(cur1, lk, m), 0) == crossing_orders(
                        cur1,
                        lk,
                        m,
                    ));
                    assert(cur1[0].1.entries() =~= remaining_after(entries0, left_before));
                    assert(remaining_after(entries0, left_before) + remaining_after(crossrest, 0)
                        =~= crossing_orders(cur1, lk, m));
                    assert(cur1.skip(cl0) =~= cur0.skip(cl0));
                }
            }
        }
        proof {
            let curf = self.levels();
            let clf = crossing_len(curf, lk, m);
            lemma_crossing_len_bounds(curf, lk, m);
            let crossf = crossing_orders(curf, lk, m);
            if left_qty == 0 {
                assert(consumed_from(crossf, 0) =~= Seq::<ConsumedOrder<Order>>::empty());
                assert(remaining_after(crossf, 0) == crossf);
            } else if curf.len() == 0 {
                assert(crossf =~= Seq::<OrderWithStatus<Order>>::empty());
            } else {
                assert(clf == 0);
                assert(crossf =~= Seq::<OrderWithStatus<Order>>::empty());
            }
            assert(consumed_from(crossf, left_qty) =~= Seq::<ConsumedOrder<Order>>::empty());
            assert(left_after(crossf, left_qty) == left_qty);
            assert(remaining_after(crossf, left_qty) =~= crossf);
            lemma_flatten_split(curf, clf);
            assert(orders@ =~= consumed_from(cross0, qty));
            assert(flatten_levels(curf) =~= remaining_after(cross0, qty) + flatten_levels(suffix0));
        }
        (left_qty, orders)
    }

    /// The book's total open quantity, summed over its levels.
    #[verifier::loop_isolation(false)]
    pub fn total_qty(&self) -> (t: Qty)
        requires
            self.wf(),
        ensures
            t == self.spec_book_total(),
    {
        let mut acc: Qty = 0;
        let mut i: usize = 0;
        proof {
            assert(self.levels().take(0) =~= Seq::<(Price, PriceNode<Order>)>::empty());
        }
        while i < self.nodes.len()
            invariant
                i <= self.levels().len(),
                acc == sum_totals(self.levels().take(i as int)),
            decreases self.levels().len() - i,
        {
            proof {
                lemma_sum_totals_split_at(self.levels(), i + 1);
                lemma_sum_totals_take_step(self.levels(), i as int);
                lemma_sum_totals_nonneg(self.levels().skip(i + 1));
            }
            let node_total = self.nodes[i].1.total();
            acc = acc + node_total;
            i += 1;
        }
        proof {
            assert(self.levels().take(self.levels().len() as int) =~= self.levels());
        }
        acc
    }

    /// A snapshot walk of the book's levels in priority order, yielding each
    /// level's price and open quantity.
    pub fn price_iter(&self) -> (iter: BookPriceIter)
        requires
            self.wf(),
        ensures
            iter.curr == 0,
            iter.items@.len() == self.levels().len(),
            forall|i: int|
                0 <= i < self.levels().len() ==> #[trigger] iter.items@[i] == (
                self.levels()[i].0,
                self.levels()[i].1.spec_total(),
                ),
    {
        let mut items: Vec<(Price, Qty)> = Vec::new();
        let mut i: usize = 0;
        while i < self.nodes.len()
            invariant
                i <= self.levels().len(),
                items@.len() == i,
                forall|j: int|
                    0 <= j < i ==> #[trigger] items@[j] == (
                    self.levels()[j].0,
                    self.levels()[j].1.spec_total(),
                    ),
            decreases self.levels().len() - i,
        {
            let price = self.nodes[i].0;
            let total = self.nodes[i].1.total();
            items.push((price, total));
            i += 1;
        }
        BookPriceIter { items, curr: 0 }
    }

    /// A snapshot walk over every resting order of the book, best level
    /// first, FIFO within a level.
    pub fn order_iter_mut(&mut self) -> (iter: BookOrderIterMut<Order>)
        requires
            old(self).wf(),
        ensures
            *final(self) == *old(self),
            iter.items@ == old(self).book_orders(),
            iter.curr == 0,
    {
        BookOrderIterMut::new(self)
    }
}

/// The resting orders of the crossing levels, in priority order: what a
/// greedy walk up to the limit may touch.
pub open spec fn crossing_orders<Order: AuctionOrder>(
    ls: Seq<(Price, PriceNode<Order>)>,
    limit_key: int,
    m: i64,
) -> Seq<OrderWithStatus<Order>> {
    flatten_levels(ls.take(crossing_len(ls, limit_key, m)))
}

pub proof fn lemma_crossing_len_bounds<Order: AuctionOrder>(
    ls: Seq<(Price, PriceNode<Order>)>,
    limit_key: int,
    m: i64,
)
    ensures
        0 <= crossing_len(ls, limit_key, m) <= ls.len(),
    decreases ls.len(),
{
    if ls.len() > 0 && key_of(ls[0].0, m) <= limit_key {
        lemma_crossing_len_bounds(ls.drop_first(), limit_key, m);
    }
}

/// When the first level crosses, the crossing prefix is that level's queue
/// followed by the crossing prefix of the rest.
proof fn lemma_crossing_step<Order: AuctionOrder>(
    ls: Seq<(Price, PriceNode<Order>)>,
    limit_key: int,
    m: i64,
)
    requires
        ls.len() > 0,
        key_of(ls[0].0, m) <= limit_key,
    ensures
        crossing_len(ls, limit_key, m) == 1 + crossing_len(ls.drop_first(), limit_key, m),
        crossing_orders(ls, limit_key, m) =~= ls[0].1.entries() + crossing_orders(
            ls.drop_first(),
            limit_key,
            m,
        ),
{
    let cl = crossing_len(ls, limit_key, m);
    lemma_crossing_len_bounds(ls.drop_first(), limit_key, m);
    assert(ls.take(cl).len() == cl);
    assert(ls.take(cl)[0] == ls[0]);
    assert(ls.take(cl).drop_first() =~= ls.drop_first().take(cl - 1));
    assert(flatten_levels(ls.take(cl)) == ls[0].1.entries() + flatten_levels(
        ls.take(cl).drop_first(),
    ));
}

/// The orders of a level sequence split at any point into the orders of the
/// prefix and those of the suffix.
pub proof fn lemma_flatten_split<Order: AuctionOrder>(ls: Seq<(Price, PriceNode<Order>)>, k: int)
    requires
        0 <= k <= ls.len(),
    ensures
        flatten_levels(ls) =~= flatten_levels(ls.take(k)) + flatten_levels(ls.skip(k)),
    decreases k,
{
    if k == 0 {
        assert(ls.take(0) =~= Seq::<(Price, PriceNode<Order>)>::empty());
        assert(ls.skip(0) =~= ls);
        assert(flatten_levels(ls.take(0)) =~= Seq::<OrderWithStatus<Order>>::empty());
    } else {
        assert(ls.len() > 0);
        lemma_flatten_split(ls.drop_first(), k - 1);
        assert(ls.take(k)[0] == ls[0]);
        assert(ls.take(k).drop_first() =~= ls.drop_first().take(k - 1));
        assert(ls.skip(k) =~= ls.drop_first().skip(k - 1));
        assert(flatten_levels(ls.take(k)) == ls[0].1.entries() + flatten_levels(
            ls.take(k).drop_first(),
        ));
        assert((ls[0].1.entries() + flatten_levels(ls.drop_first().take(k - 1))) + flatten_levels(
            ls.skip(k),
        ) =~= ls[0].1.entries() + (flatten_levels(ls.drop_first().take(k - 1)) + flatten_levels(
            ls.skip(k),
        )));
    }
}

/// Dropping the first level subtracts its total.
proof fn lemma_sum_totals_drop<Order: AuctionOrder>(ls: Seq<(Price, PriceNode<Order>)>)
    requires
        ls.len() > 0,
    ensures
        sum_totals(ls.drop_first()) == sum_totals(ls) - ls[0].1.spec_total(),
{
}

/// Yields `(price, total)` for each level of a book, best first.
pub struct BookPriceIter {
    pub items: Vec<(Price, Qty)>,
    pub curr: usize,
}

impl BookPriceIter {
    pub fn next(&mut self) -> (item: Option<(Price, Qty)>)
        ensures
            final(self).items == old(self).items,
            if old(self).curr < old(self).items@.len() {
                &&& item == Some(old(self).items@[old(self).curr as int])
                &&& final(self).curr == old(self).curr + 1
            } else {
                &&& item is None
                &&& final(self).curr == old(self).curr
            },
    {
        if self.curr < self.items.len() {
            let item = self.items[self.curr];
            self.curr = self.curr + 1;
            Some(item)
        } else {
            None
        }
    }
}

/// Walks every resting order of a book in priority order, yielding a shared
/// handle to each.
pub struct BookOrderIterMut<Order> {
    pub items: Vec<OrderWithStatus<Order>>,
    pub curr: usize,
}

impl<Order: AuctionOrder> BookOrderIterMut<Order> {
    #[verifier::loop_isolation(false)]
    pub fn new(order_book: &mut PriceOrderBook<Order>) -> (iter: BookOrderIterMut<Order>)
        requires
            old(order_book).wf(),
        ensures
            *final(order_book) == *old(order_book),
            iter.items@ == old(order_book).book_orders(),
            iter.curr == 0,
    {
        let mut items: Vec<OrderWithStatus<Order>> = Vec::new();
        let mut i: usize = 0;
        proof {
            assert(order_book.levels().take(0) =~= Seq::<(Price, PriceNode<Order>)>::empty());
        }
        while i < order_book.nodes.len()
            invariant
                i <= order_book.levels().len(),
                items@ =~= flatten_levels(order_book.levels().take(i as int)),
            decreases order_book.levels().len() - i,
        {
            let node = &order_book.nodes[i].1;
            let mut k: usize = 0;
            let ghost entries = node.entries();
            while k < node.entries_len()
                invariant
                    k <= entries.len(),
                    entries == node.entries(),
                    items@ =~= flatten_levels(order_book.levels().take(i as int)) + entries.take(
                        k as int,
                    ),
                decreases entries.len() - k,
            {
                let entry = node.entry_at(k);
                items.push(entry);
                proof {
                    assert(entries.take(k + 1) =~= entries.take(k as int).push(entries[k as int]));
                }
                k += 1;
            }
            proof {
                lemma_flatten_take_step(order_book.levels(), i as int);
                assert(entries.take(entries.len() as int) =~= entries);
            }
            i += 1;
        }
        proof {
            assert(order_book.levels().take(order_book.levels().len() as int) =~= order_book.levels());
        }
        BookOrderIterMut { items, curr: 0 }
    }

    pub fn next(&mut self) -> (entry: Option<OrderWithStatus<Order>>)
        ensures
            final(self).items == old(self).items,
            if old(self).curr < old(self).items@.len() {
                &&& entry == Some(old(self).items@[old(self).curr as int])
                &&& final(self).curr == old(self).curr + 1
            } else {
                &&& entry is None
                &&& final(self).curr == old(self).curr
            },
    {
        if self.curr < self.items.len() {
            let entry = &self.items[self.curr];
            self.curr = self.curr + 1;
            Some(
                OrderWithStatus {
                    leaves_qty: entry.leaves_qty(),
                    orig_order: entry.orig_order(),
                },
            )
        } else {
            None
        }
    }
}

/// Law: a book's total is the sum of the remaining quantities over its
/// resting orders.
pub proof fn lemma_book_sum<Order: AuctionOrder>(book: PriceOrderBook<Order>)
    requires
        book.wf(),
    ensures
        book.spec_book_total() == sum_leaves(book.book_orders()),
{
    lemma_sum_totals_flatten(book.levels());
}

proof fn lemma_sum_totals_flatten<Order: AuctionOrder>(ls: Seq<(Price, PriceNode<Order>)>)
    requires
        levels_wf(ls),
    ensures
        sum_totals(ls) == sum_leaves(flatten_levels(ls)),
    decreases ls.len(),
{
    if ls.len() > 0 {
        assert(forall|a: int|
            0 <= a < ls.drop_first().len() ==> #[trigger] ls.drop_first()[a] == ls[a + 1]);
        lemma_sum_totals_flatten(ls.drop_first());
        lemma_sum_leaves_concat(ls[0].1.entries(), flatten_levels(ls.drop_first()));
    }
}

/// Law: the prices of a book's levels run best-first: strictly ascending for
/// a low-first (sell) book, strictly descending for a high-first (buy) book.
pub proof fn lemma_priority_order<Order: AuctionOrder>(book: PriceOrderBook<Order>, i: int, j: int)
    requires
        book.wf(),
        0 <= i < j < book.levels().len(),
    ensures
        book.spec_multiplier() == 1 ==> book.levels()[i].0 < book.levels()[j].0,
        book.spec_multiplier() == -1 ==> book.levels()[i].0 > book.levels()[j].0,
{
}

/// Law: no level of a well-formed book is empty, in quantity or in orders.
pub proof fn lemma_no_empty_levels<Order: AuctionOrder>(book: PriceOrderBook<Order>, i: int)
    requires
        book.wf(),
        0 <= i < book.levels().len(),
    ensures
        book.levels()[i].1.spec_total() > 0,
        book.levels()[i].1.entries().len() > 0,
{
    if book.levels()[i].1.entries().len() == 0 {
        assert(sum_leaves(book.levels()[i].1.entries()) == 0);
    }
}

/// The orders of a one-longer prefix of levels are those of the prefix plus
/// the added level's queue.
proof fn lemma_flatten_take_step<Order: AuctionOrder>(ls: Seq<(Price, PriceNode<Order>)>, i: int)
    requires
        0 <= i < ls.len(),
    ensures
        flatten_levels(ls.take(i + 1)) =~= flatten_levels(ls.take(i)) + ls[i].1.entries(),
{
    lemma_flatten_split(ls.take(i + 1), i);
    assert(ls.take(i + 1).take(i) =~= ls.take(i));
    let single = ls.take(i + 1).skip(i);
    assert(single.len() == 1);
    assert(single[0] == ls[i]);
    assert(single.drop_first() =~= Seq::<(Price, PriceNode<Order>)>::empty());
    assert(flatten_levels(single.drop_first()) =~= Seq::<OrderWithStatus<Order>>::empty());
    assert(flatten_levels(single) =~= ls[i].1.entries());
}

/// A level index is either absent or a valid position holding the price.
pub proof fn lemma_level_index_range<Order: AuctionOrder>(
    ls: Seq<(Price, PriceNode<Order>)>,
    price: Price,
)
    ensures
        level_index(ls, price) == -1 || (0 <= level_index(ls, price) < ls.len() && ls[level_index(
            ls,
            price,
        )].0 == price),
    decreases ls.len(),
{
    if ls.len() > 0 && ls[0].0 != price {
        lemma_level_index_range(ls.drop_first(), price);
        assert(forall|a: int|
            0 <= a < ls.drop_first().len() ==> #[trigger] ls.drop_first()[a] == ls[a + 1]);
    }
}

/// The orders of two level runs laid side by side are the two runs' orders
/// in order.
pub proof fn lemma_flatten_concat<Order: AuctionOrder>(
    a: Seq<(Price, PriceNode<Order>)>,
    b: Seq<(Price, PriceNode<Order>)>,
)
    ensures
        flatten_levels(a + b) =~= flatten_levels(a) + flatten_levels(b),
    decreases a.len(),
{
    if a.len() == 0 {
        assert(a + b =~= b);
        assert(flatten_levels(a) =~= Seq::<OrderWithStatus<Order>>::empty());
    } else {
        assert((a + b)[0] == a[0]);
        assert((a + b).drop_first() =~= a.drop_first() + b);
        lemma_flatten_concat(a.drop_first(), b);
        assert(flatten_levels(a + b) == (a + b)[0].1.entries() + flatten_levels(
            (a + b).drop_first(),
        ));
        assert((a[0].1.entries() + flatten_levels(a.drop_first())) + flatten_levels(b)
            =~= a[0].1.entries() + (flatten_levels(a.drop_first()) + flatten_levels(b)));
    }
}

/// The book's orders split at any level into the orders before it, the
/// level's own queue, and the orders after it.
pub proof fn lemma_flatten_decompose<Order: AuctionOrder>(
    ls: Seq<(Price, PriceNode<Order>)>,
    li: int,
)
    requires
        0 <= li < ls.len(),
    ensures
        flatten_levels(ls) =~= flatten_levels(ls.take(li)) + ls[li].1.entries() + flatten_levels(
            ls.skip(li + 1),
        ),
{
    lemma_flatten_split(ls, li);
    assert(ls.skip(li).len() > 0);
    assert(ls.skip(li)[0] == ls[li]);
    assert(ls.skip(li).drop_first() =~= ls.skip(li + 1));
    assert(flatten_levels(ls.skip(li)) == ls[li].1.entries() + flatten_levels(ls.skip(li + 1)));
    assert((flatten_levels(ls.take(li)) + ls[li].1.entries()) + flatten_levels(ls.skip(li + 1))
        =~= flatten_levels(ls.take(li)) + (ls[li].1.entries() + flatten_levels(ls.skip(li + 1))));
}

/// How a cancel reshapes the book's flat order sequence: exactly one
/// position leaves, everything else keeps its relative order and its order
/// handle.
pub proof fn lemma_flat_after_remove<Order: AuctionOrder>(
    pre: PriceOrderBook<Order>,
    post: PriceOrderBook<Order>,
    price: Price,
    order_id: OrderID,
    removed: Option<ConsumedOrder<Order>>,
)
    requires
        pre.wf(),
        removed_from(pre, post, price, order_id, removed),
        removed is Some,
    ensures
        ({
            let li = level_index(pre.levels(), price);
            let entries = pre.levels()[li].1.entries();
            let j = find_order(entries, order_id);
            let pos = flatten_levels(pre.levels().take(li)).len() + j;
            &&& 0 <= pos < pre.book_orders().len()
            &&& pre.book_orders()[pos] == entries[j]
            &&& post.book_orders().len() == pre.book_orders().len() - 1
            &&& forall|x: int|
                0 <= x < post.book_orders().len() ==> (#[trigger] post.book_orders()[x])
                    == pre.book_orders()[if x < pos {
                    x
                } else {
                    x + 1
                }]
        }),
{
    lemma_level_index_range(pre.levels(), price);
    let li = level_index(pre.levels(), price);
    assert(li >= 0) by {
        if li == -1 {
            assert(removed is None);
        }
    }
    let entries = pre.levels()[li].1.entries();
    crate::price_node::lemma_find_order_spec(entries, order_id);
    let j = find_order(entries, order_id);
    assert(j >= 0) by {
        if j == -1 {
            assert(removed is None);
        }
    }
    let a = flatten_levels(pre.levels().take(li));
    let b = flatten_levels(pre.levels().skip(li + 1));
    lemma_flatten_decompose(pre.levels(), li);
    let entry = entries[j];
    if pre.levels()[li].1.spec_total() == entry.leaves_qty {
        // the level was this one entry alone and is pruned
        assert(entries.len() == 1 && j == 0) by {
            assert(pre.levels()[li].1.wf());
            crate::price_node::lemma_sum_leaves_remove(entries, j);
            let rest = entries.remove(j);
            entries.remove_ensures(j);
            if rest.len() > 0 {
                assert(rest[0] == entries[if 0 < j {
                    0int
                } else {
                    1int
                }]);
                assert(rest[0].leaves_qty > 0);
                crate::price_node::lemma_sum_leaves_nonneg(rest.drop_first());
                assert(crate::price_node::sum_leaves(rest) == rest[0].leaves_qty
                    + crate::price_node::sum_leaves(rest.drop_first()));
            }
        }
        assert(post.levels() == pre.levels().remove(li));
        assert(pre.levels().remove(li) =~= pre.levels().take(li) + pre.levels().skip(li + 1));
        lemma_flatten_concat(pre.levels().take(li), pre.levels().skip(li + 1));
        assert(post.book_orders() =~= a + b);
        assert(entries.remove(0) =~= Seq::<OrderWithStatus<Order>>::empty());
    } else {
        assert(post.levels().take(li) =~= pre.levels().take(li));
        assert(post.levels().skip(li + 1) =~= pre.levels().skip(li + 1));
        lemma_flatten_decompose(post.levels(), li);
        assert(post.book_orders() =~= a + entries.remove(j) + b);
        entries.remove_ensures(j);
    }
}

/// How resting an order reshapes the book's flat order sequence: the new
/// entry appears at one position, everything else keeps its relative order
/// and its order handle.
pub proof fn lemma_flat_after_insert<Order: AuctionOrder>(
    pre: PriceOrderBook<Order>,
    post: PriceOrderBook<Order>,
    entry: OrderWithStatus<Order>,
)
    requires
        pre.wf(),
        inserted_entry(pre, post, entry),
    ensures
        post.book_orders().len() == pre.book_orders().len() + 1,
        exists|pos: int|
            {
                &&& 0 <= pos <= pre.book_orders().len()
                &&& #[trigger] post.book_orders()[pos] == entry
                &&& forall|x: int|
                    0 <= x < post.book_orders().len() && x != pos ==> (
                    #[trigger] post.book_orders()[x]) == pre.book_orders()[if x < pos {
                        x
                    } else {
                        x - 1
                    }]
            },
{
    lemma_level_index_range(pre.levels(), entry.orig_order.spec_price());
    lemma_insert_position_bounds(
        pre.levels(),
        pre.key(entry.orig_order.spec_price()),
        pre.spec_multiplier(),
    );
    let li = level_index(pre.levels(), entry.orig_order.spec_price());
    if li >= 0 {
        let entries = pre.levels()[li].1.entries();
        let a = flatten_levels(pre.levels().take(li));
        let b = flatten_levels(pre.levels().skip(li + 1));
        lemma_flatten_decompose(pre.levels(), li);
        assert(post.levels().take(li) =~= pre.levels().take(li));
        assert(post.levels().skip(li + 1) =~= pre.levels().skip(li + 1));
        lemma_flatten_decompose(post.levels(), li);
        assert(post.book_orders() =~= a + entries.push(entry) + b);
        let pos = a.len() + entries.len();
        assert(post.book_orders()[pos as int] == entry);
        assert(forall|x: int|
            0 <= x < post.book_orders().len() && x != pos as int ==> (
            #[trigger] post.book_orders()[x]) == pre.book_orders()[if x < pos as int {
                x
            } else {
                x - 1
            }]);
    } else {
        let p = insert_position(pre.levels(), pre.key(entry.orig_order.spec_price()), pre.spec_multiplier());
        let a = flatten_levels(pre.levels().take(p));
        let b = flatten_levels(pre.levels().skip(p));
        lemma_flatten_split(pre.levels(), p);
        assert(post.levels().take(p) =~= pre.levels().take(p));
        assert(post.levels().skip(p + 1) =~= pre.levels().skip(p));
        lemma_flatten_decompose(post.levels(), p);
        assert(post.levels()[p].1.entries() =~= Seq::<OrderWithStatus<Order>>::empty().push(entry));
        assert(post.book_orders() =~= a + post.levels()[p].1.entries() + b);
        let pos = a.len() as int;
        assert(post.book_orders()[pos] == entry);
        assert(forall|x: int|
            0 <= x < post.book_orders().len() && x != pos ==> (#[trigger] post.book_orders()[x])
                == pre.book_orders()[if x < pos {
                x
            } else {
                x - 1
            }]);
    }
}

/// How a match walk reshapes the book's flat order sequence: a prefix is
/// dropped, and every surviving position keeps its order handle, shifted
/// down by the number of fully consumed entries.
pub proof fn lemma_flat_after_consume<Order: AuctionOrder>(
    pre: PriceOrderBook<Order>,
    post: PriceOrderBook<Order>,
    limit_key: int,
    qty: Qty,
)
    requires
        pre.wf(),
        flatten_levels(post.levels()) == remaining_after(
            crossing_orders(pre.levels(), limit_key, pre.spec_multiplier()),
            qty,
        ) + flatten_levels(
            pre.levels().skip(crossing_len(pre.levels(), limit_key, pre.spec_multiplier())),
        ),
    ensures
        ({
            let cross = crossing_orders(pre.levels(), limit_key, pre.spec_multiplier());
            let rem = remaining_after(cross, qty);
            let shift = cross.len() - rem.len();
            &&& rem.len() <= cross.len()
            &&& post.book_orders().len() + shift == pre.book_orders().len()
            &&& forall|x: int|
                0 <= x < post.book_orders().len() ==> (#[trigger] post.book_orders()[x]).orig_order
                    == pre.book_orders()[shift + x].orig_order
        }),
{
    let m = pre.spec_multiplier();
    let cl = crossing_len(pre.levels(), limit_key, m);
    lemma_crossing_len_bounds(pre.levels(), limit_key, m);
    let cross = crossing_orders(pre.levels(), limit_key, m);
    let suffix = flatten_levels(pre.levels().skip(cl));
    let rem = remaining_after(cross, qty);
    lemma_crossing_live(pre.levels(), limit_key, m);
    crate::price_node::lemma_greedy_wf(cross, qty);
    lemma_flatten_split(pre.levels(), cl);
    let shift = cross.len() - rem.len();
    assert(pre.book_orders() =~= cross + suffix);
    assert forall|x: int|
        0 <= x < post.book_orders().len() implies (#[trigger] post.book_orders()[x]).orig_order
        == pre.book_orders()[shift + x].orig_order by {
        assert(post.book_orders()[x] == (rem + suffix)[x]);
        if x < rem.len() {
            assert((rem + suffix)[x] == rem[x]);
            assert(rem[x].orig_order == cross[shift + x].orig_order);
            assert(pre.book_orders()[shift + x] == (cross + suffix)[shift + x]);
            assert((cross + suffix)[shift + x] == cross[shift + x]);
        } else {
            assert((rem + suffix)[x] == suffix[x - rem.len()]);
            assert(pre.book_orders()[shift + x] == (cross + suffix)[shift + x]);
            assert((cross + suffix)[shift + x] == suffix[shift + x - cross.len()]);
        }
    }
}

/// A property of the orders resting in a book, entry by entry.
pub open spec fn entries_satisfy<Order: AuctionOrder>(
    book: PriceOrderBook<Order>,
    p: spec_fn(Rc<Order>) -> bool,
) -> bool {
    forall|li: int, k: int|
        0 <= li < book.levels().len() && 0 <= k < book.levels()[li].1.entries().len() ==> p(
            (#[trigger] book.levels()[li].1.entries()[k]).orig_order,
        )
}

/// Cancelling removes an entry only: any per-order property of the resting
/// orders survives.
pub proof fn lemma_entries_satisfy_after_remove<Order: AuctionOrder>(
    pre: PriceOrderBook<Order>,
    post: PriceOrderBook<Order>,
    price: Price,
    order_id: OrderID,
    removed: Option<ConsumedOrder<Order>>,
    p: spec_fn(Rc<Order>) -> bool,
)
    requires
        entries_satisfy(pre, p),
        removed_from(pre, post, price, order_id, removed),
    ensures
        entries_satisfy(post, p),
{
    lemma_level_index_range(pre.levels(), price);
    let li = level_index(pre.levels(), price);
    assert forall|li2: int, k: int|
        0 <= li2 < post.levels().len() && 0 <= k < post.levels()[li2].1.entries().len() implies p(
        (#[trigger] post.levels()[li2].1.entries()[k]).orig_order,
    ) by {
        if li == -1 {
            assert(post.levels()[li2] == pre.levels()[li2]);
            assert(p(pre.levels()[li2].1.entries()[k].orig_order));
        } else {
            let entries = pre.levels()[li].1.entries();
            let j = find_order(entries, order_id);
            if j == -1 {
                assert(post.levels()[li2] == pre.levels()[li2]);
                assert(p(pre.levels()[li2].1.entries()[k].orig_order));
            } else {
                crate::price_node::lemma_find_order_spec(entries, order_id);
                let entry = entries[j];
                if pre.levels()[li].1.spec_total() == entry.leaves_qty {
                    pre.levels().remove_ensures(li);
                    if li2 < li {
                        assert(post.levels()[li2] == pre.levels()[li2]);
                        assert(p(pre.levels()[li2].1.entries()[k].orig_order));
                    } else {
                        assert(post.levels()[li2] == pre.levels()[li2 + 1]);
                        assert(p(pre.levels()[li2 + 1].1.entries()[k].orig_order));
                    }
                } else {
                    if li2 != li {
                        assert(post.levels()[li2] == pre.levels()[li2]);
                        assert(p(pre.levels()[li2].1.entries()[k].orig_order));
                    } else {
                        entries.remove_ensures(j);
                        if k < j {
                            assert(post.levels()[li].1.entries()[k] == entries[k]);
                            assert(p(entries[k].orig_order));
                        } else {
                            assert(post.levels()[li].1.entries()[k] == entries[k + 1]);
                            assert(p(entries[k + 1].orig_order));
                        }
                    }
                }
            }
        }
    }
}

/// A match walk removes and reduces entries only: any per-order property of
/// the resting orders survives it.
pub proof fn lemma_entries_satisfy_after_consume<Order: AuctionOrder>(
    pre: PriceOrderBook<Order>,
    post: PriceOrderBook<Order>,
    limit_key: int,
    qty: Qty,
    p: spec_fn(Rc<Order>) -> bool,
)
    requires
        pre.wf(),
        entries_satisfy(pre, p),
        flatten_levels(post.levels()) == remaining_after(
            crossing_orders(pre.levels(), limit_key, pre.spec_multiplier()),
            qty,
        ) + flatten_levels(
            pre.levels().skip(crossing_len(pre.levels(), limit_key, pre.spec_multiplier())),
        ),
    ensures
        entries_satisfy(post, p),
{
    let m = pre.spec_multiplier();
    let cl = crossing_len(pre.levels(), limit_key, m);
    lemma_crossing_len_bounds(pre.levels(), limit_key, m);
    let cross = crossing_orders(pre.levels(), limit_key, m);
    let rem = remaining_after(cross, qty);
    let suffix = flatten_levels(pre.levels().skip(cl));
    lemma_crossing_live(pre.levels(), limit_key, m);
    lemma_greedy_wf(cross, qty);
    lemma_crossing_satisfies(pre, limit_key, p);
    assert forall|li2: int, k2: int|
        0 <= li2 < post.levels().len() && 0 <= k2 < post.levels()[li2].1.entries().len() implies p(
        (#[trigger] post.levels()[li2].1.entries()[k2]).orig_order,
    ) by {
        lemma_flatten_contains(post.levels(), li2, k2);
        let x = choose|x: int|
            0 <= x < flatten_levels(post.levels()).len() && #[trigger] flatten_levels(
                post.levels(),
            )[x] == post.levels()[li2].1.entries()[k2];
        assert(flatten_levels(post.levels())[x] == (rem + suffix)[x]);
        if x < rem.len() {
            assert((rem + suffix)[x] == rem[x]);
            let off = cross.len() - rem.len();
            assert(rem[x].orig_order == cross[off + x].orig_order);
            assert(p(cross[off + x].orig_order));
        } else {
            let y = x - rem.len();
            assert((rem + suffix)[x] == suffix[y]);
            lemma_flatten_index(pre.levels().skip(cl), y);
            let (li3, k3) = choose|li3: int, k3: int|
                {
                    &&& 0 <= li3 < pre.levels().skip(cl).len()
                    &&& 0 <= k3 < pre.levels().skip(cl)[li3].1.entries().len()
                    &&& flatten_levels(pre.levels().skip(cl))[y] == #[trigger] pre.levels().skip(
                        cl,
                    )[li3].1.entries()[k3]
                };
            assert(pre.levels().skip(cl)[li3] == pre.levels()[li3 + cl]);
            assert(p(pre.levels()[li3 + cl].1.entries()[k3].orig_order));
        }
    }
}

/// Every order a greedy walk may consume has the property the book's resting
/// orders have.
pub proof fn lemma_crossing_satisfies<Order: AuctionOrder>(
    book: PriceOrderBook<Order>,
    limit_key: int,
    p: spec_fn(Rc<Order>) -> bool,
)
    requires
        book.wf(),
        entries_satisfy(book, p),
    ensures
        ({
            let cross = crossing_orders(book.levels(), limit_key, book.spec_multiplier());
            forall|i: int| 0 <= i < cross.len() ==> p((#[trigger] cross[i]).orig_order)
        }),
{
    let m = book.spec_multiplier();
    let cl = crossing_len(book.levels(), limit_key, m);
    lemma_crossing_len_bounds(book.levels(), limit_key, m);
    let prefix = book.levels().take(cl);
    let cross = crossing_orders(book.levels(), limit_key, m);
    assert forall|i: int| 0 <= i < cross.len() implies p((#[trigger] cross[i]).orig_order) by {
        lemma_flatten_index(prefix, i);
        let (li, k) = choose|li: int, k: int|
            {
                &&& 0 <= li < prefix.len()
                &&& 0 <= k < prefix[li].1.entries().len()
                &&& flatten_levels(prefix)[i] == #[trigger] prefix[li].1.entries()[k]
            };
        assert(prefix[li] == book.levels()[li]);
        assert(p(book.levels()[li].1.entries()[k].orig_order));
    }
}

/// Resting a new order whose order has the property keeps it holding of the
/// whole book.
pub proof fn lemma_entries_satisfy_after_insert<Order: AuctionOrder>(
    pre: PriceOrderBook<Order>,
    post: PriceOrderBook<Order>,
    entry: OrderWithStatus<Order>,
    p: spec_fn(Rc<Order>) -> bool,
)
    requires
        entries_satisfy(pre, p),
        inserted_entry(pre, post, entry),
        p(entry.orig_order),
    ensures
        entries_satisfy(post, p),
{
    lemma_level_index_range(pre.levels(), entry.orig_order.spec_price());
    lemma_insert_position_bounds(
        pre.levels(),
        pre.key(entry.orig_order.spec_price()),
        pre.spec_multiplier(),
    );
    let li = level_index(pre.levels(), entry.orig_order.spec_price());
    assert forall|li2: int, k2: int|
        0 <= li2 < post.levels().len() && 0 <= k2 < post.levels()[li2].1.entries().len() implies p(
        (#[trigger] post.levels()[li2].1.entries()[k2]).orig_order,
    ) by {
        if li >= 0 {
            if li2 != li {
                assert(post.levels()[li2] == pre.levels()[li2]);
                assert(p(pre.levels()[li2].1.entries()[k2].orig_order));
            } else {
                let entries = pre.levels()[li].1.entries();
                assert(post.levels()[li].1.entries() == entries.push(entry));
                if k2 < entries.len() {
                    assert(post.levels()[li].1.entries()[k2] == entries[k2]);
                    assert(p(entries[k2].orig_order));
                } else {
                    assert(post.levels()[li].1.entries()[k2] == entry);
                }
            }
        } else {
            let pos = insert_position(
                pre.levels(),
                pre.key(entry.orig_order.spec_price()),
                pre.spec_multiplier(),
            );
            if li2 < pos {
                assert(post.levels()[li2] == pre.levels()[li2]);
                assert(p(pre.levels()[li2].1.entries()[k2].orig_order));
            } else if li2 > pos {
                assert(post.levels()[li2] == pre.levels()[li2 - 1]);
                assert(p(pre.levels()[li2 - 1].1.entries()[k2].orig_order));
            } else {
                assert(post.levels()[pos].1.entries() == Seq::<OrderWithStatus<Order>>::empty().push(
                    entry,
                ));
                assert(post.levels()[pos].1.entries()[k2] == entry);
            }
        }
    }
}

/// A fresh level's position is inside the sequence.
pub proof fn lemma_insert_position_bounds<Order: AuctionOrder>(
    ls: Seq<(Price, PriceNode<Order>)>,
    key: int,
    m: i64,
)
    ensures
        0 <= insert_position(ls, key, m) <= ls.len(),
    decreases ls.len(),
{
    if ls.len() > 0 && key_of(ls[0].0, m) < key {
        lemma_insert_position_bounds(ls.drop_first(), key, m);
    }
}

/// Every entry of a level stands somewhere in the book's flattened order
/// sequence.
pub proof fn lemma_flatten_contains<Order: AuctionOrder>(
    ls: Seq<(Price, PriceNode<Order>)>,
    li: int,
    k: int,
)
    requires
        0 <= li < ls.len(),
        0 <= k < ls[li].1.entries().len(),
    ensures
        exists|x: int|
            0 <= x < flatten_levels(ls).len() && #[trigger] flatten_levels(ls)[x]
                == ls[li].1.entries()[k],
    decreases li,
{
    if li == 0 {
        assert(flatten_levels(ls)[k] == (ls[0].1.entries() + flatten_levels(ls.drop_first()))[k]);
        assert(flatten_levels(ls)[k] == ls[0].1.entries()[k]);
    } else {
        assert(forall|a: int|
            0 <= a < ls.drop_first().len() ==> #[trigger] ls.drop_first()[a] == ls[a + 1]);
        lemma_flatten_contains(ls.drop_first(), li - 1, k);
        let x0 = choose|x: int|
            0 <= x < flatten_levels(ls.drop_first()).len() && #[trigger] flatten_levels(
                ls.drop_first(),
            )[x] == ls.drop_first()[li - 1].1.entries()[k];
        let n0 = ls[0].1.entries().len() as int;
        assert(flatten_levels(ls)[n0 + x0] == (ls[0].1.entries() + flatten_levels(
            ls.drop_first(),
        ))[n0 + x0]);
        assert(flatten_levels(ls)[n0 + x0] == ls[li].1.entries()[k]);
    }
}

/// Every position of the book's flattened order sequence comes from some
/// entry of some level.
pub proof fn lemma_flatten_index<Order: AuctionOrder>(ls: Seq<(Price, PriceNode<Order>)>, x: int)
    requires
        0 <= x < flatten_levels(ls).len(),
    ensures
        exists|li: int, k: int|
            {
                &&& 0 <= li < ls.len()
                &&& 0 <= k < ls[li].1.entries().len()
                &&& flatten_levels(ls)[x] == #[trigger] ls[li].1.entries()[k]
            },
    decreases ls.len(),
{
    assert(ls.len() > 0);
    let n0 = ls[0].1.entries().len() as int;
    if x < n0 {
        assert(flatten_levels(ls)[x] == (ls[0].1.entries() + flatten_levels(ls.drop_first()))[x]);
        assert(flatten_levels(ls)[x] == ls[0].1.entries()[x]);
    } else {
        lemma_flatten_index(ls.drop_first(), x - n0);
        let (li0, k0) = choose|li: int, k: int|
            {
                &&& 0 <= li < ls.drop_first().len()
                &&& 0 <= k < ls.drop_first()[li].1.entries().len()
                &&& flatten_levels(ls.drop_first())[x - n0] == #[trigger] ls.drop_first()[li].1.entries()[k]
            };
        assert(ls.drop_first()[li0] == ls[li0 + 1]);
        assert(flatten_levels(ls)[x] == (ls[0].1.entries() + flatten_levels(ls.drop_first()))[x]);
        assert(flatten_levels(ls)[x] == ls[li0 + 1].1.entries()[k0]);
    }
}

/// Every order a greedy walk may touch is live and rests no more than its
/// original quantity: the crossing prefix of a well-formed book holds no
/// empty and no overfilled entries.
pub proof fn lemma_crossing_live<Order: AuctionOrder>(
    ls: Seq<(Price, PriceNode<Order>)>,
    limit_key: int,
    m: i64,
)
    requires
        levels_wf(ls),
    ensures
        forall|i: int|
            0 <= i < crossing_orders(ls, limit_key, m).len() ==> (#[trigger] crossing_orders(
                ls,
                limit_key,
                m,
            )[i]).leaves_qty > 0,
        forall|i: int|
            0 <= i < crossing_orders(ls, limit_key, m).len() ==> (#[trigger] crossing_orders(
                ls,
                limit_key,
                m,
            )[i]).leaves_qty <= crossing_orders(ls, limit_key, m)[i].orig_order.spec_qty(),
{
    lemma_crossing_len_bounds(ls, limit_key, m);
    let cl = crossing_len(ls, limit_key, m);
    assert(levels_wf(ls.take(cl))) by {
        assert(forall|a: int| 0 <= a < ls.take(cl).len() ==> #[trigger] ls.take(cl)[a] == ls[a]);
    }
    lemma_flatten_live(ls.take(cl));
}

proof fn lemma_flatten_live<Order: AuctionOrder>(ls: Seq<(Price, PriceNode<Order>)>)
    requires
        levels_wf(ls),
    ensures
        forall|i: int|
            0 <= i < flatten_levels(ls).len() ==> (#[trigger] flatten_levels(ls)[i]).leaves_qty
                > 0,
        forall|i: int|
            0 <= i < flatten_levels(ls).len() ==> (#[trigger] flatten_levels(ls)[i]).leaves_qty
                <= flatten_levels(ls)[i].orig_order.spec_qty(),
    decreases ls.len(),
{
    if ls.len() > 0 {
        assert(forall|a: int|
            0 <= a < ls.drop_first().len() ==> #[trigger] ls.drop_first()[a] == ls[a + 1]);
        lemma_flatten_live(ls.drop_first());
        assert(ls[0].1.wf());
        assert(forall|i: int|
            0 <= i < flatten_levels(ls).len() ==> flatten_levels(ls)[i] == (if i
                < ls[0].1.entries().len() {
                ls[0].1.entries()[i]
            } else {
                flatten_levels(ls.drop_first())[i - ls[0].1.entries().len()]
            }));
    }
}

/// What resting an order does to the book: its level gains the entry at the
/// back, or a fresh singleton level appears at the key-ordered position;
/// every other level is untouched.
pub open spec fn inserted_into<Order: AuctionOrder>(
    pre: PriceOrderBook<Order>,
    post: PriceOrderBook<Order>,
    leaves_qty: Qty,
    order: Rc<Order>,
) -> bool {
    inserted_entry(pre, post, OrderWithStatus { leaves_qty, orig_order: order })
}

/// The same, over an already-built book entry.
pub open spec fn inserted_entry<Order: AuctionOrder>(
    pre: PriceOrderBook<Order>,
    post: PriceOrderBook<Order>,
    entry: OrderWithStatus<Order>,
) -> bool {
    let leaves_qty = entry.leaves_qty;
    let order = entry.orig_order;
    let li = level_index(pre.levels(), order.spec_price());
    if li >= 0 {
        &&& post.levels().len() == pre.levels().len()
        &&& forall|j: int|
            0 <= j < pre.levels().len() && j != li ==> #[trigger] post.levels()[j]
                == pre.levels()[j]
        &&& post.levels()[li].0 == order.spec_price()
        &&& post.levels()[li].1.entries() == pre.levels()[li].1.entries().push(entry)
        &&& post.levels()[li].1.spec_total() == pre.levels()[li].1.spec_total() + leaves_qty
    } else {
        let p = insert_position(pre.levels(), pre.key(order.spec_price()), pre.spec_multiplier());
        &&& post.levels().len() == pre.levels().len() + 1
        &&& forall|j: int| 0 <= j < p ==> #[trigger] post.levels()[j] == pre.levels()[j]
        &&& forall|j: int|
            p < j < post.levels().len() ==> #[trigger] post.levels()[j] == pre.levels()[j - 1]
        &&& post.levels()[p].0 == order.spec_price()
        &&& post.levels()[p].1.entries() == Seq::<OrderWithStatus<Order>>::empty().push(entry)
        &&& post.levels()[p].1.spec_total() == leaves_qty
    }
}

/// What cancelling an order does to the book: nothing when the price has no
/// level or the level does not rest the order; otherwise the entry leaves its
/// level, and the level leaves the book when that was its last quantity.
pub open spec fn removed_from<Order: AuctionOrder>(
    pre: PriceOrderBook<Order>,
    post: PriceOrderBook<Order>,
    price: Price,
    order_id: OrderID,
    removed: Option<ConsumedOrder<Order>>,
) -> bool {
    let li = level_index(pre.levels(), price);
    if li == -1 {
        &&& removed is None
        &&& post.levels() == pre.levels()
    } else {
        let entries = pre.levels()[li].1.entries();
        let j = find_order(entries, order_id);
        if j == -1 {
            &&& removed is None
            &&& post.levels() == pre.levels()
        } else {
            let entry = entries[j];
            let pruned = pre.levels()[li].1.spec_total() == entry.leaves_qty;
            &&& removed == Some(
                ConsumedOrder {
                    consumed_qty: entry.leaves_qty,
                    leaves_qty: 0,
                    orig_order: entry.orig_order,
                },
            )
            &&& pruned ==> post.levels() == pre.levels().remove(li)
            &&& !pruned ==> {
                &&& post.levels().len() == pre.levels().len()
                &&& forall|j2: int|
                    0 <= j2 < pre.levels().len() && j2 != li ==> #[trigger] post.levels()[j2]
                        == pre.levels()[j2]
                &&& post.levels()[li].0 == price
                &&& post.levels()[li].1.entries() == entries.remove(j)
                &&& post.levels()[li].1.spec_total() == pre.levels()[li].1.spec_total()
                    - entry.leaves_qty
            }
        }
    }
}

/// After a sorted scan stops at `i`, either the level at `i` matches the
/// price, or no level does and `i` is where a fresh one belongs.
proof fn lemma_level_search<Order: AuctionOrder>(
    ls: Seq<(Price, PriceNode<Order>)>,
    price: Price,
    m: i64,
    i: int,
)
    requires
        m == 1 || m == -1,
        sorted_by_key(ls, m),
        0 <= i <= ls.len(),
        forall|j: int| 0 <= j < i ==> key_of((#[trigger] ls[j]).0, m) < key_of(price, m),
        i < ls.len() ==> key_of(ls[i].0, m) >= key_of(price, m),
    ensures
        i < ls.len() && ls[i].0 == price ==> level_index(ls, price) == i,
        !(i < ls.len() && ls[i].0 == price) ==> level_index(ls, price) == -1 && insert_position(
            ls,
            key_of(price, m),
            m,
        ) == i,
    decreases ls.len(),
{
    if ls.len() == 0 {
    } else if i == 0 {
        if ls[0].0 == price {
        } else {
            lemma_level_index_none(ls, price, m);
        }
    } else {
        assert(forall|a: int|
            0 <= a < ls.drop_first().len() ==> #[trigger] ls.drop_first()[a] == ls[a + 1]);
        lemma_level_search(ls.drop_first(), price, m, i - 1);
        assert(key_of(ls[0].0, m) < key_of(price, m));
    }
}

/// In a key-sorted level sequence, a price keyed no better than the first
/// level and different from it is on no level.
proof fn lemma_level_index_none<Order: AuctionOrder>(
    ls: Seq<(Price, PriceNode<Order>)>,
    price: Price,
    m: i64,
)
    requires
        m == 1 || m == -1,
        sorted_by_key(ls, m),
        ls.len() > 0,
        key_of(ls[0].0, m) >= key_of(price, m),
        ls[0].0 != price,
    ensures
        level_index(ls, price) == -1,
    decreases ls.len(),
{
    assert(key_of(ls[0].0, m) > key_of(price, m));
    if ls.len() > 1 {
        assert(forall|a: int|
            0 <= a < ls.drop_first().len() ==> #[trigger] ls.drop_first()[a] == ls[a + 1]);
        assert(key_of(ls.drop_first()[0].0, m) > key_of(ls[0].0, m));
        lemma_level_index_none(ls.drop_first(), price, m);
    } else {
        assert(ls.drop_first().len() == 0);
        assert(level_index(ls.drop_first(), price) == -1);
    }
}

/// A single level's total is at most the book total (everything else being
/// nonnegative).
proof fn lemma_sum_totals_bound<Order: AuctionOrder>(ls: Seq<(Price, PriceNode<Order>)>, i: int)
    requires
        0 <= i < ls.len(),
    ensures
        ls[i].1.spec_total() <= sum_totals(ls),
    decreases ls.len(),
{
    lemma_sum_totals_nonneg(ls.drop_first());
    if i > 0 {
        lemma_sum_totals_bound(ls.drop_first(), i - 1);
    }
}

/// The book total splits at any point.
proof fn lemma_sum_totals_split_at<Order: AuctionOrder>(ls: Seq<(Price, PriceNode<Order>)>, i: int)
    requires
        0 <= i <= ls.len(),
    ensures
        sum_totals(ls) == sum_totals(ls.take(i)) + sum_totals(ls.skip(i)),
    decreases i,
{
    if i == 0 {
        assert(ls.take(0) =~= Seq::<(Price, PriceNode<Order>)>::empty());
        assert(ls.skip(0) =~= ls);
    } else {
        assert(ls.take(i)[0] == ls[0]);
        assert(ls.take(i).drop_first() =~= ls.drop_first().take(i - 1));
        assert(ls.skip(i) =~= ls.drop_first().skip(i - 1));
        lemma_sum_totals_split_at(ls.drop_first(), i - 1);
    }
}

/// Taking one more level adds its total.
proof fn lemma_sum_totals_take_step<Order: AuctionOrder>(ls: Seq<(Price, PriceNode<Order>)>, i: int)
    requires
        0 <= i < ls.len(),
    ensures
        sum_totals(ls.take(i + 1)) == sum_totals(ls.take(i)) + ls[i].1.spec_total(),
    decreases i,
{
    if i == 0 {
        assert(ls.take(0) =~= Seq::<(Price, PriceNode<Order>)>::empty());
        assert(ls.take(1)[0] == ls[0]);
        assert(ls.take(1).drop_first() =~= Seq::<(Price, PriceNode<Order>)>::empty());
    } else {
        assert(ls.take(i + 1)[0] == ls[0]);
        assert(ls.take(i)[0] == ls[0]);
        assert(ls.take(i + 1).drop_first() =~= ls.drop_first().take(i));
        assert(ls.take(i).drop_first() =~= ls.drop_first().take(i - 1));
        lemma_sum_totals_take_step(ls.drop_first(), i - 1);
        assert(ls.drop_first()[i - 1] == ls[i]);
    }
}

proof fn lemma_sum_totals_nonneg<Order: AuctionOrder>(ls: Seq<(Price, PriceNode<Order>)>)
    ensures
        sum_totals(ls) >= 0,
    decreases ls.len(),
{
    if ls.len() > 0 {
        lemma_sum_totals_nonneg(ls.drop_first());
    }
}

/// Dropping one level subtracts its total.
proof fn lemma_sum_totals_remove<Order: AuctionOrder>(ls: Seq<(Price, PriceNode<Order>)>, i: int)
    requires
        0 <= i < ls.len(),
    ensures
        sum_totals(ls.remove(i)) == sum_totals(ls) - ls[i].1.spec_total(),
    decreases ls.len(),
{
    if i == 0 {
        assert(ls.remove(0) =~= ls.drop_first());
    } else {
        assert(ls.remove(i).drop_first() =~= ls.drop_first().remove(i - 1));
        lemma_sum_totals_remove(ls.drop_first(), i - 1);
    }
}

/// Replacing one level changes the book total by the difference of that
/// level's totals.
proof fn lemma_sum_totals_update<Order: AuctionOrder>(
    pre: Seq<(Price, PriceNode<Order>)>,
    post: Seq<(Price, PriceNode<Order>)>,
    i: int,
)
    requires
        0 <= i < pre.len(),
        post.len() == pre.len(),
        forall|j: int| 0 <= j < pre.len() && j != i ==> #[trigger] post[j] == pre[j],
    ensures
        sum_totals(post) == sum_totals(pre) - pre[i].1.spec_total() + post[i].1.spec_total(),
    decreases pre.len(),
{
    if i == 0 {
        assert(post.drop_first() =~= pre.drop_first());
    } else {
        assert(forall|a: int|
            0 <= a < pre.drop_first().len() ==> #[trigger] pre.drop_first()[a] == pre[a + 1]);
        assert(forall|a: int|
            0 <= a < post.drop_first().len() ==> #[trigger] post.drop_first()[a] == post[a + 1]);
        lemma_sum_totals_update(pre.drop_first(), post.drop_first(), i - 1);
        assert(post[0] == pre[0]);
    }
}

/// Splicing one level in adds its total.
proof fn lemma_sum_totals_insert<Order: AuctionOrder>(
    pre: Seq<(Price, PriceNode<Order>)>,
    post: Seq<(Price, PriceNode<Order>)>,
    i: int,
)
    requires
        0 <= i <= pre.len(),
        post.len() == pre.len() + 1,
        forall|j: int| 0 <= j < i ==> #[trigger] post[j] == pre[j],
        forall|j: int| i < j < post.len() ==> #[trigger] post[j] == pre[j - 1],
    ensures
        sum_totals(post) == sum_totals(pre) + post[i].1.spec_total(),
    decreases pre.len(),
{
    if i == 0 {
        assert(post.drop_first() =~= pre);
    } else {
        assert(forall|a: int|
            0 <= a < pre.drop_first().len() ==> #[trigger] pre.drop_first()[a] == pre[a + 1]);
        assert(forall|a: int|
            0 <= a < post.drop_first().len() ==> #[trigger] post.drop_first()[a] == post[a + 1]);
        lemma_sum_totals_insert(pre.drop_first(), post.drop_first(), i - 1);
        assert(post[0] == pre[0]);
        assert(post.drop_first()[i - 1] == post[i]);
    }
}

} // verus!
