//! The interface an order must offer to rest in a price-ordered book, and the
//! record produced each time resting liquidity is consumed.

use vstd::prelude::*;
use std::rc::Rc;
use crate::types::{Qty, Price, OrderID};

verus! {

/// What the order book needs to know of an order: its original quantity, its
/// limit price, and its venue-assigned identifier.
pub trait AuctionOrder: Sized {
    spec fn spec_qty(&self) -> Qty;

    spec fn spec_price(&self) -> Price;

    spec fn spec_order_id(&self) -> OrderID;

    fn qty(&self) -> (q: Qty)
        ensures
            q == self.spec_qty(),
    ;

    fn price(&self) -> (p: Price)
        ensures
            p == self.spec_price(),
    ;

    fn order_id(&self) -> (id: OrderID)
        ensures
            id == self.spec_order_id(),
    ;
}

/// One consumption of a resting order: how much was taken, how much remains on
/// the resting order afterwards, and a shared handle to the order itself.
pub struct ConsumedOrder<Order> {
    pub consumed_qty: Qty,
    pub leaves_qty: Qty,
    pub orig_order: Rc<Order>,
}

impl<Order> ConsumedOrder<Order> {
    pub fn consumed_qty(&self) -> (q: Qty)
        ensures
            q == self.consumed_qty,
    {
        self.consumed_qty
    }

    pub fn leaves_qty(&self) -> (q: Qty)
        ensures
            q == self.leaves_qty,
    {
        self.leaves_qty
    }

    pub fn orig_order(&self) -> (order: Rc<Order>)
        ensures
            order == self.orig_order,
    {
        self.orig_order.clone()
    }
}

/// A minimal order carrying only the fields the book reads; used to exercise
/// the book on its own.
pub struct TestOrder {
    qty: Qty,
    price: Price,
    order_id: OrderID,
}

impl AuctionOrder for TestOrder {
    closed spec fn spec_qty(&self) -> Qty {
        self.qty
    }

    closed spec fn spec_price(&self) -> Price {
        self.price
    }

    closed spec fn spec_order_id(&self) -> OrderID {
        self.order_id
    }

    fn qty(&self) -> (q: Qty)
        ensures
            q == self.spec_qty(),
    {
        self.qty
    }

    fn price(&self) -> (p: Price)
        ensures
            p == self.spec_price(),
    {
        self.price
    }

    fn order_id(&self) -> (id: OrderID)
        ensures
            id == self.spec_order_id(),
    {
        self.order_id
    }
}

impl TestOrder {
    pub fn new(price: Price, qty: Qty, order_id: OrderID) -> (order: Rc<TestOrder>)
        ensures
            order.spec_price() == price,
            order.spec_qty() == qty,
            order.spec_order_id() == order_id,
    {
        Rc::new(TestOrder { qty, price, order_id })
    }
}

/// Builds batches of `TestOrder`s from `(price, qty, optional id)` triples,
/// assigning fresh identifiers where none is given.
pub struct TestOrderGen {
    pub order_id: OrderID,
}

pub type OrderInfo = (Price, Qty, Option<OrderID>);

/// How many of the triples ask for a fresh identifier (no explicit id).
pub open spec fn count_auto(orders: Seq<OrderInfo>) -> int
    decreases orders.len(),
{
    if orders.len() == 0 {
        0
    } else {
        (if orders[0].2 is None {
            1int
        } else {
            0int
        }) + count_auto(orders.drop_first())
    }
}

pub proof fn lemma_count_auto_push(orders: Seq<OrderInfo>, e: OrderInfo)
    ensures
        count_auto(orders.push(e)) == count_auto(orders) + (if e.2 is None {
            1int
        } else {
            0int
        }),
        count_auto(orders) >= 0,
    decreases orders.len(),
{
    assert(count_auto(orders.push(e)) == (if orders.push(e)[0].2 is None {
        1int
    } else {
        0int
    }) + count_auto(orders.push(e).drop_first()));
    if orders.len() == 0 {
        assert(orders.push(e)[0] == e);
        assert(orders.push(e).drop_first() =~= Seq::<OrderInfo>::empty());
        assert(count_auto(Seq::<OrderInfo>::empty()) == 0);
        assert(count_auto(orders) == 0);
    } else {
        assert(orders.push(e)[0] == orders[0]);
        assert(orders.push(e).drop_first() =~= orders.drop_first().push(e));
        lemma_count_auto_push(orders.drop_first(), e);
    }
}

impl TestOrderGen {
    pub fn new() -> (generator: TestOrderGen)
        ensures
            generator.order_id == 9876543210000,
    {
        TestOrderGen { order_id: 9876543210000 }
    }

    /// Builds one order per triple: explicit identifiers are used as given;
    /// a triple without one gets the generator's counter (before it
    /// advances), so the counter moves by exactly the number of fresh
    /// identifiers handed out.
    pub fn work(&mut self, orders: &[OrderInfo]) -> (result: Vec<Rc<TestOrder>>)
        requires
            old(self).order_id + orders@.len() <= OrderID::MAX,
        ensures
            result@.len() == orders@.len(),
            final(self).order_id == old(self).order_id + count_auto(orders@),
            forall|i: int|
                0 <= i < orders@.len() ==> {
                    &&& (#[trigger] result@[i]).spec_price() == orders@[i].0
                    &&& result@[i].spec_qty() == orders@[i].1
                    &&& result@[i].spec_order_id() == (match orders@[i].2 {
                        Some(id) => id,
                        None => (old(self).order_id + count_auto(orders@.take(i))) as OrderID,
                    })
                },
    {
        let mut return_orders: Vec<Rc<TestOrder>> = Vec::new();
        let mut i: usize = 0;

        proof {
            assert(orders@.take(0) =~= Seq::<OrderInfo>::empty());
        }
        while i < orders.len()
            invariant
                i <= orders@.len(),
                self.order_id == old(self).order_id + count_auto(orders@.take(i as int)),
                0 <= count_auto(orders@.take(i as int)) <= i,
                old(self).order_id + orders@.len() <= OrderID::MAX,
                return_orders@.len() == i,
                forall|j: int|
                    0 <= j < i ==> {
                        &&& (#[trigger] return_orders@[j]).spec_price() == orders@[j].0
                        &&& return_orders@[j].spec_qty() == orders@[j].1
                        &&& return_orders@[j].spec_order_id() == (match orders@[j].2 {
                            Some(id) => id,
                            None => (old(self).order_id + count_auto(orders@.take(j))) as OrderID,
                        })
                    },
            decreases orders@.len() - i,
        {
            let order = orders[i];
            let mut tmp_order_id = self.order_id;
            proof {
                assert(orders@.take(i + 1) =~= orders@.take(i as int).push(orders@[i as int]));
                lemma_count_auto_push(orders@.take(i as int), orders@[i as int]);
            }
            if let Some(id) = order.2 {
                tmp_order_id = id;
            } else {
                self.order_id += 1;
            }
            return_orders.push(TestOrder::new(order.0, order.1, tmp_order_id));
            i += 1;
        }
        proof {
            assert(orders@.take(orders@.len() as int) =~= orders@);
        }

        return_orders
    }
}

} // verus!
