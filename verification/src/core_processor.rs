//! The core matcher: owns the trading session and turns each task from the
//! risk-check stage into the execution tasks it gives rise to, acknowledging
//! every accepted order before any of its fills.

use vstd::prelude::*;
use std::sync::Arc;
use crate::types::{Qty, K_BUY, K_SELL};
use crate::messages::{NewOrder, CoreProcessorTask, ExecutionTask, RcResult};
use crate::types::{Price, OrderID};
use crate::price_node::{
    consumed_from, find_order, lemma_consumed_from_props, lemma_find_order_spec, remaining_after,
};
use crate::order_book::{
    level_index, removed_from, PriceOrderBook, crossing_orders, crossing_len, flatten_levels,
    key_of, lemma_crossing_live,
};
use crate::auction_order::{AuctionOrder, ConsumedOrder};
use crate::trading_session::{
    TradingSession, NewOrderForBook, match_events, lemma_match_events_index,
};
use crate::price_node::OrderWithStatus;
use crate::continuos::continuous_match;

verus! {

/// Whether an acknowledgement of this order stands somewhere in a task
/// stream.
pub open spec fn accepted_in(emitted: Seq<ExecutionTask>, order: Arc<NewOrder>) -> bool {
    exists|j: int| 0 <= j < emitted.len() && #[trigger] emitted[j]
        == ExecutionTask::NewOrderAccepted(order)
}

/// Whether an acknowledgement of this order stands before position `m`.
pub open spec fn accepted_before(emitted: Seq<ExecutionTask>, m: int, order: Arc<NewOrder>) -> bool {
    exists|j: int| 0 <= j < m && #[trigger] emitted[j] == ExecutionTask::NewOrderAccepted(order)
}

/// Every order resting in the book was acknowledged somewhere in the stream.
pub open spec fn book_accepted(
    book: PriceOrderBook<NewOrderForBook>,
    emitted: Seq<ExecutionTask>,
) -> bool {
    crate::order_book::entries_satisfy(
        book,
        |o: std::rc::Rc<NewOrderForBook>| accepted_in(emitted, o.order),
    )
}

/// Law: ordering over the emitted stream. Every match event is preceded by
/// the acknowledgements of both of its orders, so an accepted order's accept
/// precedes all of its trade events.
pub open spec fn stream_ordered(emitted: Seq<ExecutionTask>) -> bool {
    forall|m: int|
        0 <= m < emitted.len() ==> ((#[trigger] emitted[m]) matches
            ExecutionTask::NewoOrderMatched(info) ==> accepted_before(emitted, m, info.order1)
            && accepted_before(emitted, m, info.order2))
}

/// An acknowledgement stays where it is when the stream grows at the back.
proof fn lemma_accepted_in_extend(
    e1: Seq<ExecutionTask>,
    e2: Seq<ExecutionTask>,
    order: Arc<NewOrder>,
)
    requires
        accepted_in(e1, order),
    ensures
        accepted_in(e1 + e2, order),
        accepted_before(e1 + e2, e1.len() as int, order),
{
    let j = choose|j: int|
        0 <= j < e1.len() && #[trigger] e1[j] == ExecutionTask::NewOrderAccepted(order);
    assert((e1 + e2)[j] == e1[j]);
}

/// A book whose every resting order is acknowledged stays that way when the
/// stream grows.
proof fn lemma_book_accepted_extend(
    book: PriceOrderBook<NewOrderForBook>,
    e1: Seq<ExecutionTask>,
    e2: Seq<ExecutionTask>,
)
    requires
        book_accepted(book, e1),
    ensures
        book_accepted(book, e1 + e2),
{
    assert forall|li: int, k: int|
        0 <= li < book.levels().len() && 0 <= k < book.levels()[li].1.entries().len() implies
        accepted_in(
            e1 + e2,
            (#[trigger] book.levels()[li].1.entries()[k]).orig_order.order,
        ) by {
        lemma_accepted_in_extend(e1, e2, book.levels()[li].1.entries()[k].orig_order.order);
    }
}

/// An ordered stream stays ordered when extended with tasks whose match
/// events are all covered by earlier acknowledgements.
proof fn lemma_stream_extend(e1: Seq<ExecutionTask>, e2: Seq<ExecutionTask>)
    requires
        stream_ordered(e1),
        forall|m: int|
            0 <= m < e2.len() ==> ((#[trigger] e2[m]) matches ExecutionTask::NewoOrderMatched(
                info,
            ) ==> accepted_before(e1 + e2, e1.len() + m, info.order1) && accepted_before(
                e1 + e2,
                e1.len() + m,
                info.order2,
            )),
    ensures
        stream_ordered(e1 + e2),
{
    let combined = e1 + e2;
    assert forall|m: int|
        0 <= m < combined.len() implies ((#[trigger] combined[m]) matches
        ExecutionTask::NewoOrderMatched(info) ==> accepted_before(combined, m, info.order1)
        && accepted_before(combined, m, info.order2)) by {
        if m < e1.len() {
            assert(combined[m] == e1[m]);
            match e1[m] {
                ExecutionTask::NewoOrderMatched(info) => {
                    let j1 = choose|j: int|
                        0 <= j < m && #[trigger] e1[j] == ExecutionTask::NewOrderAccepted(
                            info.order1,
                        );
                    assert(combined[j1] == e1[j1]);
                    let j2 = choose|j: int|
                        0 <= j < m && #[trigger] e1[j] == ExecutionTask::NewOrderAccepted(
                            info.order2,
                        );
                    assert(combined[j2] == e1[j2]);
                },
                _ => {},
            }
        } else {
            assert(combined[m] == e2[m - e1.len()]);
        }
    }
}

/// What handling an accepted new order does, given the shared handles the
/// matcher created for it: the acknowledgement precedes the match events of
/// the continuous-auction step run against the session's books.
pub open spec fn core_new_order_outcome(
    pre: TradingSession,
    post: TradingSession,
    order: NewOrder,
    arc: Arc<NewOrder>,
    rco: std::rc::Rc<NewOrderForBook>,
    tasks: Seq<ExecutionTask>,
) -> bool {
    let cross = pre.crossing(order.side, order.price);
    let consumed = consumed_from(cross, order.qty);
    &&& arc == order
    &&& rco.order == arc
    &&& tasks == seq![ExecutionTask::NewOrderAccepted(arc)] + match_events(
        arc,
        consumed,
        order.qty as int,
    )
    &&& continuous_match(
        pre.contra_book(order.side),
        post.contra_book(order.side),
        pre.own_book(order.side),
        post.own_book(order.side),
        rco,
        consumed,
    )
}

/// Law: ordering. In the tasks the core emits for one accepted order, the
/// acknowledgement comes first and everything after it is a match event of
/// that same order, so the accept record precedes all of the order's trade
/// records in the outbound stream.
pub proof fn lemma_accept_precedes_trades(
    pre: TradingSession,
    post: TradingSession,
    order: NewOrder,
    arc: Arc<NewOrder>,
    rco: std::rc::Rc<NewOrderForBook>,
    tasks: Seq<ExecutionTask>,
)
    requires
        core_new_order_outcome(pre, post, order, arc, rco, tasks),
    ensures
        tasks.len() >= 1,
        tasks[0] == ExecutionTask::NewOrderAccepted(arc),
        forall|i: int|
            1 <= i < tasks.len() ==> ((#[trigger] tasks[i]) matches
                ExecutionTask::NewoOrderMatched(info) && info.order1 == arc),
{
    let cross = pre.crossing(order.side, order.price);
    let consumed = consumed_from(cross, order.qty);
    crate::trading_session::lemma_match_events_index(arc, consumed, order.qty as int);
    let events = match_events(arc, consumed, order.qty as int);
    assert(forall|i: int| 1 <= i < tasks.len() ==> tasks[i] == events[i - 1]);
}

/// A match walk removes and reduces entries only: an acknowledged contra
/// book stays acknowledged.
proof fn lemma_book_accepted_after_consume(
    pre: PriceOrderBook<NewOrderForBook>,
    post: PriceOrderBook<NewOrderForBook>,
    limit_key: int,
    qty: Qty,
    emitted: Seq<ExecutionTask>,
)
    requires
        pre.wf(),
        book_accepted(pre, emitted),
        flatten_levels(post.levels()) == remaining_after(
            crossing_orders(pre.levels(), limit_key, pre.spec_multiplier()),
            qty,
        ) + flatten_levels(
            pre.levels().skip(crossing_len(pre.levels(), limit_key, pre.spec_multiplier())),
        ),
    ensures
        book_accepted(post, emitted),
{
    crate::order_book::lemma_entries_satisfy_after_consume(
        pre,
        post,
        limit_key,
        qty,
        |o: std::rc::Rc<NewOrderForBook>| accepted_in(emitted, o.order),
    );
}

/// Every crossing entry of an acknowledged well-formed book is acknowledged.
proof fn lemma_cross_accepted(
    book: PriceOrderBook<NewOrderForBook>,
    emitted: Seq<ExecutionTask>,
    limit_key: int,
)
    requires
        book.wf(),
        book_accepted(book, emitted),
    ensures
        ({
            let cross = crossing_orders(book.levels(), limit_key, book.spec_multiplier());
            forall|i: int|
                0 <= i < cross.len() ==> accepted_in(
                    emitted,
                    (#[trigger] cross[i]).orig_order.order,
                )
        }),
{
    crate::order_book::lemma_crossing_satisfies(
        book,
        limit_key,
        |o: std::rc::Rc<NewOrderForBook>| accepted_in(emitted, o.order),
    );
}

/// Resting a new acknowledged order keeps a book acknowledged.
proof fn lemma_book_accepted_after_insert(
    pre: PriceOrderBook<NewOrderForBook>,
    post: PriceOrderBook<NewOrderForBook>,
    entry: OrderWithStatus<NewOrderForBook>,
    emitted: Seq<ExecutionTask>,
)
    requires
        book_accepted(pre, emitted),
        crate::order_book::inserted_entry(pre, post, entry),
        accepted_in(emitted, entry.orig_order.order),
    ensures
        book_accepted(post, emitted),
{
    crate::order_book::lemma_entries_satisfy_after_insert(
        pre,
        post,
        entry,
        |o: std::rc::Rc<NewOrderForBook>| accepted_in(emitted, o.order),
    );
}

/// Cancelling a resting order removes entries only: an acknowledged book
/// stays acknowledged.
proof fn lemma_book_accepted_after_remove(
    pre: PriceOrderBook<NewOrderForBook>,
    post: PriceOrderBook<NewOrderForBook>,
    price: Price,
    order_id: OrderID,
    removed: Option<ConsumedOrder<NewOrderForBook>>,
    emitted: Seq<ExecutionTask>,
)
    requires
        book_accepted(pre, emitted),
        removed_from(pre, post, price, order_id, removed),
    ensures
        book_accepted(post, emitted),
{
    crate::order_book::lemma_entries_satisfy_after_remove(
        pre,
        post,
        price,
        order_id,
        removed,
        |o: std::rc::Rc<NewOrderForBook>| accepted_in(emitted, o.order),
    );
}

/// What the matcher does with one task, over its session: an accepted new
/// order is acknowledged and matched; a cancel is resolved against its
/// book; rejections pass through with the session untouched.
pub open spec fn core_outcome(
    pre_session: TradingSession,
    post_session: TradingSession,
    task: CoreProcessorTask,
    tasks: Seq<ExecutionTask>,
) -> bool {
    match task {
        CoreProcessorTask::NewOrder(order, rc_info) => exists|
            arc: Arc<NewOrder>,
            rco: std::rc::Rc<NewOrderForBook>,
        |
            #[trigger] core_new_order_outcome(pre_session, post_session, *order, arc, rco, tasks),
        CoreProcessorTask::NewOrderRejected(info) => tasks == seq![
            ExecutionTask::NewOrderRejected(info),
        ] && post_session == pre_session,
        CoreProcessorTask::CancelRequest(info, cancel_request) => ({
            let book = pre_session.own_book(info.side);
            let li = level_index(book.levels(), info.price);
            let j = if li >= 0 {
                find_order(book.levels()[li].1.entries(), info.order_id)
            } else {
                -1
            };
            if li >= 0 && j >= 0 {
                let entry = book.levels()[li].1.entries()[j];
                &&& tasks == seq![
                    ExecutionTask::CancelRequestAccepted(
                        entry.leaves_qty,
                        cancel_request,
                        entry.orig_order.order,
                    ),
                ]
                &&& removed_from(
                    book,
                    post_session.own_book(info.side),
                    info.price,
                    info.order_id,
                    Some(
                        ConsumedOrder {
                            consumed_qty: entry.leaves_qty,
                            leaves_qty: 0,
                            orig_order: entry.orig_order,
                        },
                    ),
                )
                &&& post_session.contra_book(info.side) == pre_session.contra_book(info.side)
            } else {
                &&& tasks == seq![
                    ExecutionTask::CancelRequestRejected(
                        crate::types::CancelReasonCode::OrderNotExisted,
                        cancel_request,
                    ),
                ]
                &&& post_session.own_book(info.side).levels() == book.levels()
                &&& post_session.contra_book(info.side) == pre_session.contra_book(info.side)
            }
        }),
        CoreProcessorTask::CancelRequestRejected(info) => tasks == seq![
            ExecutionTask::CancelRequestRejected(info.0, info.1),
        ] && post_session == pre_session,
    }
}

pub struct CoreProcessor {
    session: TradingSession,
    emitted: Ghost<Seq<ExecutionTask>>,
}

impl CoreProcessor {
    pub closed spec fn spec_session(&self) -> TradingSession {
        self.session
    }

    /// Every execution task the core has ever emitted, in order.
    pub closed spec fn spec_emitted(&self) -> Seq<ExecutionTask> {
        self.emitted@
    }

    /// The session invariant, every resting order acknowledged in the
    /// emitted stream, and the stream itself ordered: acknowledgements
    /// precede the match events of their orders.
    pub open spec fn wf(&self) -> bool {
        &&& self.spec_session().wf()
        &&& book_accepted(self.spec_session().spec_buy_book(), self.spec_emitted())
        &&& book_accepted(self.spec_session().spec_sell_book(), self.spec_emitted())
        &&& stream_ordered(self.spec_emitted())
    }

    pub fn new() -> (p: CoreProcessor)
        ensures
            p.wf(),
            p.spec_session().spec_buy_book().spec_book_total() == 0,
            p.spec_session().spec_sell_book().spec_book_total() == 0,
            p.spec_emitted() =~= Seq::<ExecutionTask>::empty(),
    {
        CoreProcessor { session: TradingSession::new(), emitted: Ghost(Seq::empty()) }
    }

    /// The open quantity resting in the book an order of this side would
    /// rest in.
    pub fn own_book_total(&self, side: crate::types::Side) -> (t: Qty)
        requires
            self.wf(),
        ensures
            t == self.spec_session().own_book(side).spec_book_total(),
    {
        if side == K_BUY {
            self.session.buy_book_total()
        } else {
            self.session.sell_book_total()
        }
    }

    /// Handles one task: a new order is acknowledged first and then matched,
    /// so its accept precedes every one of its match events; rejections pass
    /// through; a cancel is resolved against the session.
    pub fn process(&mut self, task: CoreProcessorTask) -> (tasks: Vec<ExecutionTask>)
        requires
            old(self).wf(),
            task matches CoreProcessorTask::NewOrder(order, _) ==> {
                &&& (order.side == K_BUY || order.side == K_SELL)
                &&& old(self).spec_session().own_book(order.side).spec_book_total() + order.qty
                    <= Qty::MAX
            },
            task matches CoreProcessorTask::CancelRequest(info, _) ==> (info.side == K_BUY
                || info.side == K_SELL),
        ensures
            final(self).wf(),
            final(self).spec_emitted() == old(self).spec_emitted() + tasks@,
            core_outcome(old(self).spec_session(), final(self).spec_session(), task, tasks@),
    {
        match task {
            CoreProcessorTask::NewOrder(order, rc_info) => self.process_new_order(order, rc_info),
            CoreProcessorTask::NewOrderRejected(info) => {
                let mut tasks: Vec<ExecutionTask> = Vec::new();
                tasks.push(ExecutionTask::NewOrderRejected(info));
                proof {
                    assert(tasks@ =~= seq![
                        ExecutionTask::NewOrderRejected((info.0, info.1)),
                    ]);
                }
                proof {
                    let pre_emitted = self.spec_emitted();
                    self.emitted@ = self.emitted@ + tasks@;
                    lemma_stream_extend(pre_emitted, tasks@);
                    lemma_book_accepted_extend(
                        self.spec_session().spec_buy_book(),
                        pre_emitted,
                        tasks@,
                    );
                    lemma_book_accepted_extend(
                        self.spec_session().spec_sell_book(),
                        pre_emitted,
                        tasks@,
                    );
                }
                tasks
            },
            CoreProcessorTask::CancelRequest(info, cancel_request) => {
                let ghost pre_session = self.session;
                let task = self.session.process_cancel_request(&info, cancel_request);
                let mut tasks: Vec<ExecutionTask> = Vec::new();
                tasks.push(task);
                proof {
                    assert(tasks@ =~= seq![tasks@[0]]);
                    let pre_emitted = self.spec_emitted();
                    self.emitted@ = self.emitted@ + tasks@;
                    lemma_stream_extend(pre_emitted, tasks@);
                    let book = pre_session.own_book(info.side);
                    crate::order_book::lemma_level_index_range(book.levels(), info.price);
                    let li = level_index(book.levels(), info.price);
                    if li >= 0 {
                        lemma_find_order_spec(book.levels()[li].1.entries(), info.order_id);
                        let j = find_order(book.levels()[li].1.entries(), info.order_id);
                        if j >= 0 {
                            let entry = book.levels()[li].1.entries()[j];
                            lemma_book_accepted_after_remove(
                                book,
                                self.spec_session().own_book(info.side),
                                info.price,
                                info.order_id,
                                Some(
                                    ConsumedOrder {
                                        consumed_qty: entry.leaves_qty,
                                        leaves_qty: 0,
                                        orig_order: entry.orig_order,
                                    },
                                ),
                                pre_emitted,
                            );
                        }
                    }
                    lemma_book_accepted_extend(
                        self.spec_session().spec_buy_book(),
                        pre_emitted,
                        tasks@,
                    );
                    lemma_book_accepted_extend(
                        self.spec_session().spec_sell_book(),
                        pre_emitted,
                        tasks@,
                    );
                }
                tasks
            },
            CoreProcessorTask::CancelRequestRejected(info) => {
                let mut tasks: Vec<ExecutionTask> = Vec::new();
                tasks.push(ExecutionTask::CancelRequestRejected(info.0, info.1));
                proof {
                    let pre_emitted = self.spec_emitted();
                    self.emitted@ = self.emitted@ + tasks@;
                    lemma_stream_extend(pre_emitted, tasks@);
                    lemma_book_accepted_extend(
                        self.spec_session().spec_buy_book(),
                        pre_emitted,
                        tasks@,
                    );
                    lemma_book_accepted_extend(
                        self.spec_session().spec_sell_book(),
                        pre_emitted,
                        tasks@,
                    );
                }
                tasks
            },
        }
    }

    fn process_new_order(&mut self, order: Box<NewOrder>, rc_info: Box<RcResult>) -> (tasks: Vec<
        ExecutionTask,
    >)
        requires
            old(self).wf(),
            order.side == K_BUY || order.side == K_SELL,
            old(self).spec_session().own_book(order.side).spec_book_total() + order.qty
                <= Qty::MAX,
        ensures
            final(self).wf(),
            final(self).spec_emitted() == old(self).spec_emitted() + tasks@,
            exists|arc: Arc<NewOrder>, rco: std::rc::Rc<NewOrderForBook>|
                #[trigger] core_new_order_outcome(
                    old(self).spec_session(),
                    final(self).spec_session(),
                    *order,
                    arc,
                    rco,
                    tasks@,
                ),
    {
        let side = order.side;
        let ghost order_val = *order;
        let arc_order: Arc<NewOrder> = Arc::new(*order);
        let mut tasks: Vec<ExecutionTask> = Vec::new();
        tasks.push(ExecutionTask::NewOrderAccepted(arc_order.clone()));

        let mut matched = self.session.process_new_order(arc_order.clone(), rc_info);
        tasks.append(&mut matched);
        proof {
            let cross = old(self).spec_session().crossing(side, order_val.price);
            let consumed = consumed_from(cross, order_val.qty);
            assert(arc_order == order_val);
            assert(tasks@ =~= seq![ExecutionTask::NewOrderAccepted(arc_order)] + match_events(
                arc_order,
                consumed,
                order_val.qty as int,
            ));
            let rco = choose|rco: std::rc::Rc<NewOrderForBook>|
                continuous_match(
                    old(self).spec_session().contra_book(side),
                    self.spec_session().contra_book(side),
                    old(self).spec_session().own_book(side),
                    self.spec_session().own_book(side),
                    rco,
                    consumed,
                ) && rco.order == arc_order && rco.rc_info == rc_info;
            assert(core_new_order_outcome(
                old(self).spec_session(),
                self.spec_session(),
                order_val,
                arc_order,
                rco,
                tasks@,
            ));

            let pre_emitted = old(self).spec_emitted();
            self.emitted@ = self.emitted@ + tasks@;
            let new_emitted = pre_emitted + tasks@;
            let pre_len = pre_emitted.len() as int;
            let contra_pre = old(self).spec_session().contra_book(side);
            let contra_post = self.spec_session().contra_book(side);
            let own_pre = old(self).spec_session().own_book(side);
            let own_post = self.spec_session().own_book(side);
            let m2 = contra_pre.spec_multiplier();
            let lk = key_of(order_val.price, m2);

            assert(flatten_levels(contra_post.levels()) == remaining_after(cross, order_val.qty)
                + flatten_levels(
                contra_pre.levels().skip(crossing_len(contra_pre.levels(), lk, m2)),
            ));
            lemma_book_accepted_after_consume(
                contra_pre,
                contra_post,
                lk,
                order_val.qty,
                pre_emitted,
            );
            lemma_book_accepted_extend(contra_post, pre_emitted, tasks@);
            lemma_book_accepted_extend(own_pre, pre_emitted, tasks@);

            assert(new_emitted[pre_len] == tasks@[0]);
            assert(accepted_in(new_emitted, arc_order));

            let left = crate::price_node::left_after(cross, order_val.qty);
            if left > 0 {
                lemma_book_accepted_after_insert(
                    own_pre,
                    own_post,
                    crate::price_node::OrderWithStatus { leaves_qty: left, orig_order: rco },
                    new_emitted,
                );
            } else {
                assert(own_post == own_pre);
            }

            lemma_crossing_live(contra_pre.levels(), lk, m2);
            lemma_consumed_from_props(cross, order_val.qty);
            lemma_cross_accepted(contra_pre, pre_emitted, lk);
            lemma_match_events_index(arc_order, consumed, order_val.qty as int);
            let events = match_events(arc_order, consumed, order_val.qty as int);
            assert forall|mm: int|
                0 <= mm < tasks@.len() implies ((#[trigger] tasks@[mm]) matches
                ExecutionTask::NewoOrderMatched(info) ==> accepted_before(
                    new_emitted,
                    pre_len + mm,
                    info.order1,
                ) && accepted_before(new_emitted, pre_len + mm, info.order2)) by {
                if mm >= 1 {
                    assert(tasks@[mm] == events[mm - 1]);
                    match tasks@[mm] {
                        ExecutionTask::NewoOrderMatched(info) => {
                            assert(info.order1 == arc_order);
                            assert(new_emitted[pre_len] == ExecutionTask::NewOrderAccepted(
                                arc_order,
                            ));
                            assert(info.order2 == consumed[mm - 1].orig_order.order);
                            assert(consumed[mm - 1].orig_order == cross[mm - 1].orig_order);
                            assert(accepted_in(pre_emitted, cross[mm - 1].orig_order.order));
                            let j2 = choose|j: int|
                                0 <= j < pre_emitted.len() && #[trigger] pre_emitted[j]
                                    == ExecutionTask::NewOrderAccepted(info.order2);
                            assert(new_emitted[j2] == pre_emitted[j2]);
                        },
                        _ => {},
                    }
                }
            }
            lemma_stream_extend(pre_emitted, tasks@);
        }
        tasks
    }
}

} // verus!
