//! A trading session: the buy and the sell book of one instrument, and the
//! translation of matching results into execution tasks.

use vstd::prelude::*;
use std::rc::Rc;
use std::sync::Arc;
use crate::types::{Qty, Price, OrderID, Side, K_BUY, K_SELL, CancelReasonCode};
use crate::messages::{
    NewOrder, CancelRequest, OrigOrderInfoForCancel, ExecutionTask, OrderMatchedInfo, RcResult,
};
use crate::auction_order::{AuctionOrder, ConsumedOrder};
use crate::order_book::{PriceOrderBook, key_of, crossing_orders, level_index, removed_from};
use crate::price_node::{
    consumed_from, left_after, find_order, sum_consumed, lemma_consumed_from_props,
    lemma_find_order_spec,
};
use crate::continuos::{Continuos, continuous_match};

verus! {

/// An accepted order as it rests in a book: the shared order plus the risk
/// result it arrived with.
pub struct NewOrderForBook {
    pub order: Arc<NewOrder>,
    pub rc_info: Box<RcResult>,
}

impl AuctionOrder for NewOrderForBook {
    open spec fn spec_qty(&self) -> Qty {
        self.order.qty
    }

    open spec fn spec_price(&self) -> Price {
        self.order.price
    }

    open spec fn spec_order_id(&self) -> OrderID {
        self.order.order_id
    }

    fn qty(&self) -> (q: Qty)
        ensures
            q == self.spec_qty(),
    {
        self.order.qty
    }

    fn price(&self) -> (p: Price)
        ensures
            p == self.spec_price(),
    {
        self.order.price
    }

    fn order_id(&self) -> (id: OrderID)
        ensures
            id == self.spec_order_id(),
    {
        self.order.order_id
    }
}

/// The match events reported for an aggressor, one per consumed resting
/// order, in consumption order: each carries the aggressor's running
/// remainder, the resting order's remainder, and the trade at the resting
/// order's price.
pub open spec fn match_events(
    order: Arc<NewOrder>,
    consumed: Seq<ConsumedOrder<NewOrderForBook>>,
    leaves_before: int,
) -> Seq<ExecutionTask>
    decreases consumed.len(),
{
    if consumed.len() == 0 {
        Seq::empty()
    } else {
        seq![
            ExecutionTask::NewoOrderMatched(
                OrderMatchedInfo {
                    order1: order,
                    leaves_qty1: (leaves_before - consumed[0].consumed_qty) as Qty,
                    order2: consumed[0].orig_order.order,
                    leaves_qty2: consumed[0].leaves_qty,
                    last_px: consumed[0].orig_order.spec_price(),
                    last_qty: consumed[0].consumed_qty,
                },
            ),
        ] + match_events(order, consumed.drop_first(), leaves_before - consumed[0].consumed_qty)
    }
}

pub proof fn lemma_sum_consumed_nonneg(s: Seq<ConsumedOrder<NewOrderForBook>>)
    ensures
        sum_consumed(s) >= 0,
    decreases s.len(),
{
    if s.len() > 0 {
        lemma_sum_consumed_nonneg(s.drop_first());
    }
}

proof fn lemma_sum_consumed_split(s: Seq<ConsumedOrder<NewOrderForBook>>, i: int)
    requires
        0 <= i <= s.len(),
    ensures
        sum_consumed(s) == sum_consumed(s.take(i)) + sum_consumed(s.skip(i)),
    decreases i,
{
    if i == 0 {
        assert(s.take(0) =~= Seq::<ConsumedOrder<NewOrderForBook>>::empty());
        assert(s.skip(0) =~= s);
    } else {
        assert(s.take(i)[0] == s[0]);
        assert(s.take(i).drop_first() =~= s.drop_first().take(i - 1));
        assert(s.skip(i) =~= s.drop_first().skip(i - 1));
        lemma_sum_consumed_split(s.drop_first(), i - 1);
    }
}

/// Each match event, by position: all are match events of the aggressor,
/// taking exactly what the walk consumed, with the aggressor's remainder
/// running down by each trade's quantity.
pub proof fn lemma_match_events_index(
    order: Arc<NewOrder>,
    consumed: Seq<ConsumedOrder<NewOrderForBook>>,
    leaves_before: int,
)
    ensures
        match_events(order, consumed, leaves_before).len() == consumed.len(),
        forall|i: int|
            0 <= i < consumed.len() ==> ((#[trigger] match_events(order, consumed, leaves_before)[i])
                matches ExecutionTask::NewoOrderMatched(info) && info == (OrderMatchedInfo {
                order1: order,
                leaves_qty1: (leaves_before - sum_consumed(consumed.take(i + 1))) as Qty,
                order2: consumed[i].orig_order.order,
                leaves_qty2: consumed[i].leaves_qty,
                last_px: consumed[i].orig_order.spec_price(),
                last_qty: consumed[i].consumed_qty,
            })),
    decreases consumed.len(),
{
    if consumed.len() > 0 {
        lemma_match_events_index(
            order,
            consumed.drop_first(),
            leaves_before - consumed[0].consumed_qty,
        );
        let evs = match_events(order, consumed, leaves_before);
        let rest = match_events(
            order,
            consumed.drop_first(),
            leaves_before - consumed[0].consumed_qty,
        );
        assert(forall|i: int| 1 <= i < evs.len() ==> evs[i] == rest[i - 1]);
        assert(forall|i: int|
            1 <= i < consumed.len() ==> #[trigger] consumed.drop_first()[i - 1] == consumed[i]);
        assert(consumed.take(1) =~= Seq::<ConsumedOrder<NewOrderForBook>>::empty().push(
            consumed[0],
        ));
        assert(sum_consumed(consumed.take(1)) == consumed[0].consumed_qty) by {
            assert(consumed.take(1)[0] == consumed[0]);
            assert(consumed.take(1).drop_first() =~= Seq::<ConsumedOrder<NewOrderForBook>>::empty());
            assert(sum_consumed(Seq::<ConsumedOrder<NewOrderForBook>>::empty()) == 0);
            assert(sum_consumed(consumed.take(1)) == consumed.take(1)[0].consumed_qty
                + sum_consumed(consumed.take(1).drop_first()));
        }
        assert(forall|i: int|
            1 <= i < consumed.len() ==> #[trigger] consumed.take(i + 1).drop_first()
                =~= consumed.drop_first().take(i));
        assert(forall|i: int|
            1 <= i < consumed.len() ==> sum_consumed(#[trigger] consumed.take(i + 1))
                == consumed[0].consumed_qty + sum_consumed(consumed.drop_first().take(i))) by {
            assert(forall|i: int|
                1 <= i < consumed.len() ==> (#[trigger] consumed.take(i + 1))[0] == consumed[0]);
        }
    }
}

/// Law: conservation across a match. In the events of one aggressor walk,
/// each trade takes no more than what is left of the aggressor after the
/// earlier trades, no more than what the resting order still had, and the
/// aggressor's reported remainder balances its original quantity against
/// everything taken so far.
pub proof fn lemma_conservation_across_match(
    order: Arc<NewOrder>,
    cross: Seq<crate::price_node::OrderWithStatus<NewOrderForBook>>,
)
    requires
        forall|i: int|
            0 <= i < cross.len() ==> {
                &&& (#[trigger] cross[i]).leaves_qty > 0
                &&& cross[i].leaves_qty <= cross[i].orig_order.spec_qty()
            },
    ensures
        ({
            let consumed = consumed_from(cross, order.qty);
            let events = match_events(order, consumed, order.qty as int);
            forall|i: int|
                0 <= i < events.len() ==> ((#[trigger] events[i]) matches
                    ExecutionTask::NewoOrderMatched(info) && {
                    &&& info.last_qty + sum_consumed(consumed.take(i)) <= order.qty
                    &&& info.last_qty + info.leaves_qty2 <= info.order2.qty
                    &&& info.leaves_qty1 + info.last_qty + sum_consumed(consumed.take(i))
                        == order.qty
                })
        }),
{
    let consumed = consumed_from(cross, order.qty);
    lemma_consumed_from_props(cross, order.qty);
    lemma_match_events_index(order, consumed, order.qty as int);
    assert forall|i: int| 0 <= i < consumed.len() implies sum_consumed(#[trigger] consumed.take(i))
        >= 0 && sum_consumed(consumed.take(i + 1)) <= order.qty by {
        lemma_sum_consumed_split(consumed, i);
        lemma_sum_consumed_split(consumed, i + 1);
        lemma_sum_consumed_nonneg(consumed.take(i));
        lemma_sum_consumed_nonneg(consumed.skip(i));
        lemma_sum_consumed_nonneg(consumed.take(i + 1));
        lemma_sum_consumed_nonneg(consumed.skip(i + 1));
    }
    assert forall|i: int| 0 <= i < consumed.len() implies sum_consumed(#[trigger] consumed.take(
        i + 1,
    )) == sum_consumed(consumed.take(i)) + consumed[i].consumed_qty by {
        assert(consumed.take(i + 1) =~= consumed.take(i).push(consumed[i]));
        lemma_sum_consumed_push(consumed.take(i), consumed[i]);
    }
}

proof fn lemma_sum_consumed_push(s: Seq<ConsumedOrder<NewOrderForBook>>, e: ConsumedOrder<
    NewOrderForBook,
>)
    ensures
        sum_consumed(s.push(e)) == sum_consumed(s) + e.consumed_qty,
    decreases s.len(),
{
    assert(sum_consumed(s.push(e)) == s.push(e)[0].consumed_qty + sum_consumed(
        s.push(e).drop_first(),
    ));
    if s.len() == 0 {
        assert(s.push(e)[0] == e);
        assert(s.push(e).drop_first() =~= Seq::<ConsumedOrder<NewOrderForBook>>::empty());
        assert(sum_consumed(Seq::<ConsumedOrder<NewOrderForBook>>::empty()) == 0);
    } else {
        assert(s.push(e)[0] == s[0]);
        assert(s.push(e).drop_first() =~= s.drop_first().push(e));
        lemma_sum_consumed_push(s.drop_first(), e);
    }
}

/// Law: conservation across a match, for any reachable session. The
/// crossing prefix of a well-formed book satisfies the bounds the
/// conservation law needs, so the law holds of every match walk the session
/// runs.
pub proof fn lemma_conservation_in_session(
    session: TradingSession,
    order: Arc<NewOrder>,
    side: Side,
)
    requires
        session.wf(),
    ensures
        ({
            let cross = session.crossing(side, order.price);
            let consumed = consumed_from(cross, order.qty);
            let events = match_events(order, consumed, order.qty as int);
            forall|i: int|
                0 <= i < events.len() ==> ((#[trigger] events[i]) matches
                    ExecutionTask::NewoOrderMatched(info) && {
                    &&& info.last_qty + sum_consumed(consumed.take(i)) <= order.qty
                    &&& info.last_qty + info.leaves_qty2 <= info.order2.qty
                    &&& info.leaves_qty1 + info.last_qty + sum_consumed(consumed.take(i))
                        == order.qty
                })
        }),
{
    let book = session.contra_book(side);
    crate::order_book::lemma_crossing_live(
        book.levels(),
        key_of(order.price, book.spec_multiplier()),
        book.spec_multiplier(),
    );
    lemma_conservation_across_match(order, session.crossing(side, order.price));
}

/// Law: trade price correctness. In every match event the trade price is the
/// resting order's limit price.
pub proof fn lemma_trade_price_correctness(
    order: Arc<NewOrder>,
    consumed: Seq<ConsumedOrder<NewOrderForBook>>,
    leaves_before: int,
)
    ensures
        forall|i: int|
            0 <= i < match_events(order, consumed, leaves_before).len() ==> ((
            #[trigger] match_events(order, consumed, leaves_before)[i]) matches
                ExecutionTask::NewoOrderMatched(info) && info.last_px == info.order2.price),
{
    lemma_match_events_index(order, consumed, leaves_before);
}

/// The sessions's two books: buys ordered highest-first, sells lowest-first.
pub struct TradingSession {
    buy_order_book: PriceOrderBook<NewOrderForBook>,
    sell_order_book: PriceOrderBook<NewOrderForBook>,
}

impl TradingSession {
    pub closed spec fn spec_buy_book(&self) -> PriceOrderBook<NewOrderForBook> {
        self.buy_order_book
    }

    pub closed spec fn spec_sell_book(&self) -> PriceOrderBook<NewOrderForBook> {
        self.sell_order_book
    }

    pub open spec fn wf(&self) -> bool {
        &&& self.spec_buy_book().wf()
        &&& self.spec_sell_book().wf()
        &&& self.spec_buy_book().spec_multiplier() == -1
        &&& self.spec_sell_book().spec_multiplier() == 1
    }

    /// The book an incoming order of the given side consumes against.
    pub open spec fn contra_book(&self, side: Side) -> PriceOrderBook<NewOrderForBook> {
        if side == K_BUY {
            self.spec_sell_book()
        } else {
            self.spec_buy_book()
        }
    }

    /// The book an incoming order of the given side rests in.
    pub open spec fn own_book(&self, side: Side) -> PriceOrderBook<NewOrderForBook> {
        if side == K_BUY {
            self.spec_buy_book()
        } else {
            self.spec_sell_book()
        }
    }

    /// The resting orders an incoming order may consume: those of the contra
    /// book whose price crosses its limit, in priority order.
    pub open spec fn crossing(&self, side: Side, limit: Price) -> Seq<
        crate::price_node::OrderWithStatus<NewOrderForBook>,
    > {
        let book = self.contra_book(side);
        crossing_orders(book.levels(), key_of(limit, book.spec_multiplier()), book.spec_multiplier())
    }

    pub fn new() -> (session: TradingSession)
        ensures
            session.wf(),
            session.spec_buy_book().spec_book_total() == 0,
            session.spec_sell_book().spec_book_total() == 0,
            session.spec_buy_book().levels() =~= Seq::<(
                Price,
                crate::price_node::PriceNode<NewOrderForBook>,
            )>::empty(),
            session.spec_sell_book().levels() =~= Seq::<(
                Price,
                crate::price_node::PriceNode<NewOrderForBook>,
            )>::empty(),
    {
        TradingSession {
            buy_order_book: PriceOrderBook::create_high_price_priority_order_book(),
            sell_order_book: PriceOrderBook::create_low_price_priority_order_book(),
        }
    }

    /// The open quantity resting in the buy book.
    pub fn buy_book_total(&self) -> (t: Qty)
        requires
            self.wf(),
        ensures
            t == self.spec_buy_book().spec_book_total(),
    {
        self.buy_order_book.total_qty()
    }

    /// The open quantity resting in the sell book.
    pub fn sell_book_total(&self) -> (t: Qty)
        requires
            self.wf(),
        ensures
            t == self.spec_sell_book().spec_book_total(),
    {
        self.sell_order_book.total_qty()
    }

    /// Matches an accepted order against the contra book and rests any
    /// remainder, reporting one match event per consumed resting order with
    /// the aggressor's strictly decreasing remainder and the resting price
    /// as the trade price.
    pub fn process_new_order(&mut self, order: Arc<NewOrder>, rc_info: Box<RcResult>) -> (tasks:
        Vec<ExecutionTask>)
        requires
            old(self).wf(),
            order.side == K_BUY || order.side == K_SELL,
            old(self).own_book(order.side).spec_book_total() + order.qty <= Qty::MAX,
        ensures
            final(self).wf(),
            ({
                let cross = old(self).crossing(order.side, order.price);
                let consumed = consumed_from(cross, order.qty);
                let left = left_after(cross, order.qty);
                &&& tasks@ == match_events(order, consumed, order.qty as int)
                &&& exists|rco: Rc<NewOrderForBook>|
                    #[trigger] continuous_match(
                        old(self).contra_book(order.side),
                        final(self).contra_book(order.side),
                        old(self).own_book(order.side),
                        final(self).own_book(order.side),
                        rco,
                        consumed,
                    ) && rco.order == order && rco.rc_info == rc_info
            }),
    {
        let side = order.side;
        let tmp = Rc::new(NewOrderForBook { order: order.clone(), rc_info });
        let consumed_orders = Continuos::process_new_order(
            &mut self.buy_order_book,
            &mut self.sell_order_book,
            side,
            tmp.clone(),
        );
        proof {
            assert(continuous_match(
                old(self).contra_book(side),
                self.contra_book(side),
                old(self).own_book(side),
                self.own_book(side),
                tmp,
                consumed_orders@,
            ));
        }
        let ghost cross = old(self).crossing(side, order.price);
        let ghost consumed = consumed_from(cross, order.qty);
        proof {
            crate::order_book::lemma_crossing_live(
                old(self).contra_book(side).levels(),
                key_of(order.price, old(self).contra_book(side).spec_multiplier()),
                old(self).contra_book(side).spec_multiplier(),
            );
            lemma_consumed_from_props(cross, order.qty);
        }

        let mut tasks: Vec<ExecutionTask> = Vec::new();
        let mut leaves_qty = order.qty;
        let mut i: usize = 0;
        proof {
            assert(consumed.skip(0) =~= consumed);
            assert(consumed.take(0) =~= Seq::<ConsumedOrder<NewOrderForBook>>::empty());
            assert(tasks@ + match_events(order, consumed, order.qty as int) =~= match_events(
                order,
                consumed,
                order.qty as int,
            ));
        }
        while i < consumed_orders.len()
            invariant
                consumed_orders@ == consumed,
                forall|j: int|
                    0 <= j < consumed.len() ==> {
                        &&& (#[trigger] consumed[j]).consumed_qty + consumed[j].leaves_qty
                            == cross[j].leaves_qty
                        &&& consumed[j].consumed_qty > 0
                    },
                sum_consumed(consumed) <= order.qty,
                i <= consumed.len(),
                leaves_qty == order.qty - sum_consumed(consumed.take(i as int)),
                match_events(order, consumed, order.qty as int) =~= tasks@ + match_events(
                    order,
                    consumed.skip(i as int),
                    leaves_qty as int,
                ),
            decreases consumed.len() - i,
        {
            proof {
                lemma_sum_consumed_split(consumed, i as int);
                lemma_sum_consumed_nonneg(consumed.skip(i as int));
                lemma_sum_consumed_nonneg(consumed.skip(i as int).drop_first());
                assert(consumed.skip(i as int)[0] == consumed[i as int]);
                assert(sum_consumed(consumed.skip(i as int)) == consumed[i as int].consumed_qty
                    + sum_consumed(consumed.skip(i as int).drop_first()));
            }
            let contra = &consumed_orders[i];
            leaves_qty = leaves_qty - contra.consumed_qty();
            let order2 = contra.orig_order();
            tasks.push(
                ExecutionTask::NewoOrderMatched(
                    OrderMatchedInfo {
                        order1: order.clone(),
                        leaves_qty1: leaves_qty,
                        order2: order2.order.clone(),
                        leaves_qty2: contra.leaves_qty(),
                        last_px: order2.price(),
                        last_qty: contra.consumed_qty(),
                    },
                ),
            );
            proof {
                assert(consumed.take(i + 1) =~= consumed.take(i as int).push(consumed[i as int]));
                lemma_sum_consumed_split(consumed, i + 1);
                lemma_sum_consumed_split(consumed, i as int);
                assert(consumed.skip(i as int).drop_first() =~= consumed.skip(i + 1));
                assert(match_events(order, consumed.skip(i as int), (leaves_qty
                    + consumed[i as int].consumed_qty) as int) =~= seq![
                    tasks@[tasks@.len() - 1],
                ] + match_events(order, consumed.skip(i + 1), leaves_qty as int));
                assert(match_events(order, consumed, order.qty as int) =~= tasks@ + match_events(
                    order,
                    consumed.skip(i + 1),
                    leaves_qty as int,
                ));
            }
            i += 1;
        }
        proof {
            assert(consumed.skip(consumed.len() as int) =~= Seq::<
                ConsumedOrder<NewOrderForBook>,
            >::empty());
            assert(match_events(order, consumed.skip(consumed.len() as int), leaves_qty as int)
                =~= Seq::<ExecutionTask>::empty());
            assert(tasks@ =~= match_events(order, consumed, order.qty as int));
        }
        tasks
    }

    /// Locates the resting order a cancel names and removes it, reporting
    /// its remaining quantity; a cancel whose target is not resting is
    /// rejected as not existing.
    pub fn process_cancel_request(
        &mut self,
        orig_info: &OrigOrderInfoForCancel,
        cancel_request: Box<CancelRequest>,
    ) -> (task: ExecutionTask)
        requires
            old(self).wf(),
            orig_info.side == K_BUY || orig_info.side == K_SELL,
        ensures
            final(self).wf(),
            ({
                let book = old(self).own_book(orig_info.side);
                let li = level_index(book.levels(), orig_info.price);
                let j = if li >= 0 {
                    find_order(book.levels()[li].1.entries(), orig_info.order_id)
                } else {
                    -1
                };
                if li >= 0 && j >= 0 {
                    let entry = book.levels()[li].1.entries()[j];
                    &&& task == ExecutionTask::CancelRequestAccepted(
                        entry.leaves_qty,
                        cancel_request,
                        entry.orig_order.order,
                    )
                    &&& removed_from(
                        book,
                        final(self).own_book(orig_info.side),
                        orig_info.price,
                        orig_info.order_id,
                        Some(
                            ConsumedOrder {
                                consumed_qty: entry.leaves_qty,
                                leaves_qty: 0,
                                orig_order: entry.orig_order,
                            },
                        ),
                    )
                    &&& final(self).contra_book(orig_info.side) == old(self).contra_book(
                        orig_info.side,
                    )
                } else {
                    &&& task == ExecutionTask::CancelRequestRejected(
                        CancelReasonCode::OrderNotExisted,
                        cancel_request,
                    )
                    &&& final(self).own_book(orig_info.side).levels() == book.levels()
                    &&& final(self).contra_book(orig_info.side) == old(self).contra_book(
                        orig_info.side,
                    )
                }
            }),
    {
        let removed = Continuos::process_cancel_request(
            &mut self.buy_order_book,
            &mut self.sell_order_book,
            orig_info,
        );
        proof {
            let book = old(self).own_book(orig_info.side);
            crate::order_book::lemma_level_index_range(book.levels(), orig_info.price);
            let li = level_index(book.levels(), orig_info.price);
            if li >= 0 {
                lemma_find_order_spec(book.levels()[li].1.entries(), orig_info.order_id);
            }
        }
        match removed {
            Some(orig) => {
                let order = orig.orig_order();
                ExecutionTask::CancelRequestAccepted(
                    orig.consumed_qty(),
                    cancel_request,
                    order.order.clone(),
                )
            },
            None => ExecutionTask::CancelRequestRejected(
                CancelReasonCode::OrderNotExisted,
                cancel_request,
            ),
        }
    }
}

} // verus!
