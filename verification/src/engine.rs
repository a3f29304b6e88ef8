//! The engine surface: the four pipeline stages composed in command order
//! over one instrument, with the sink they report into.
//!
//! Each command runs through duplicate detection, the risk check, the
//! matcher, and the reporter before the next one starts, so the outbound
//! records appear exactly in engine order: the laws proved of the stages --
//! monotonic execution identifiers, acknowledgements before match events --
//! hold of everything this engine ever sends.

use vstd::prelude::*;
use std::sync::Arc;
use crate::types::{Qty, Side, ExecID, ExeSender, K_BUY, K_SELL};
use crate::messages::{
    NewOrder, PreProcessorTask, RcProcessorTask, CoreProcessorTask, ExecutionTask,
};
use crate::auction_order::{AuctionOrder, ConsumedOrder};
use crate::pre_processor::{
    PreProcessor, key_view, lemma_find_info_spec, new_order_outcome, cancel_outcome,
};
use crate::rc_processor::{RcProcessor, rc_forwarding};
use crate::core_processor::{CoreProcessor, core_new_order_outcome, core_outcome};
use crate::exe_processor::{
    ExeProcessor, task_wf, exec_id_after, exec_id_after_seq, records_count_for,
    message_bytes_for, total_records_count, total_message_bytes, lemma_task_totals_bounds,
};
use crate::trading_session::{
    NewOrderForBook, TradingSession, match_events, lemma_match_events_index,
    lemma_conservation_in_session, lemma_sum_consumed_nonneg,
};
use crate::order_book::{
    PriceOrderBook, key_of, crossing_orders, crossing_len, entries_satisfy,
    lemma_entries_satisfy_after_remove, lemma_entries_satisfy_after_consume,
    lemma_entries_satisfy_after_insert, lemma_crossing_satisfies, lemma_crossing_len_bounds,
    lemma_flatten_split, level_index, lemma_level_index_range, lemma_crossing_live,
    lemma_flat_after_remove,
    lemma_flat_after_insert, lemma_flat_after_consume, lemma_flatten_contains,
    lemma_flatten_index, removed_from,
};
use crate::price_node::{
    consumed_from, remaining_after, left_after, find_order, OrderWithStatus,
    lemma_consumed_from_props, lemma_find_order_spec,
};

verus! {

/// A real order side.
pub open spec fn side_ok(side: Side) -> bool {
    side == K_BUY || side == K_SELL
}

/// The per-order property the reporter needs of everything that rests: its
/// side is real.
pub open spec fn order_side_ok(o: std::rc::Rc<NewOrderForBook>) -> bool {
    side_ok(o.order.side)
}

/// What one command does to the whole engine: the duplicate filter decides
/// it (`new_order_outcome`/`cancel_outcome`), the risk check forwards it,
/// the matcher turns it into exactly the task list `ts` and appends `ts` to
/// its emitted stream, and the reporter advances the identifier counter and
/// the sink's record and byte counters by exactly what `ts` owes.
pub open spec fn processed(
    pre: Engine,
    post: Engine,
    cmd: PreProcessorTask,
    rc_task: RcProcessorTask,
    core_task: CoreProcessorTask,
    ts: Seq<ExecutionTask>,
) -> bool {
    &&& match cmd {
        PreProcessorTask::NewOrder(o) => new_order_outcome(
            pre.spec_pre(),
            post.spec_pre(),
            *o,
            rc_task,
        ),
        PreProcessorTask::CancelRequest(c) => cancel_outcome(
            pre.spec_pre(),
            post.spec_pre(),
            *c,
            rc_task,
        ),
    }
    &&& rc_forwarding(rc_task, core_task)
    &&& core_outcome(
        pre.spec_core().spec_session(),
        post.spec_core().spec_session(),
        core_task,
        ts,
    )
    &&& post.spec_core().spec_emitted() == pre.spec_core().spec_emitted() + ts
    &&& post.spec_exe().spec_exec_id() == exec_id_after_seq(ts, pre.spec_exe().spec_exec_id())
    &&& post.spec_sender().count == pre.spec_sender().count + total_records_count(ts)
    &&& post.spec_sender().bytes == pre.spec_sender().bytes + total_message_bytes(ts)
}

/// The duplicate-filter key of an order: its participant and client
/// identifiers.
pub open spec fn order_key(o: Arc<NewOrder>) -> (Seq<u8>, Seq<u8>) {
    key_view(o.pbu_id, o.cl_ord_id)
}

/// This order rests nowhere in the book.
pub open spec fn not_resting(book: PriceOrderBook<NewOrderForBook>, o: Arc<NewOrder>) -> bool {
    entries_satisfy(book, |e: std::rc::Rc<NewOrderForBook>| e.order != o)
}

/// Every resting order's key is recorded by the duplicate filter.
pub open spec fn resting_keys_seen(
    book: PriceOrderBook<NewOrderForBook>,
    pre: PreProcessor,
) -> bool {
    entries_satisfy(
        book,
        |e: std::rc::Rc<NewOrderForBook>| pre.seen_order(order_key(e.order)),
    )
}

/// Distinct resting entries carry distinct filter keys: no order value can
/// rest twice.
pub open spec fn resting_keys_distinct(book: PriceOrderBook<NewOrderForBook>) -> bool {
    forall|x1: int, x2: int|
        0 <= x1 < x2 < book.book_orders().len() ==> order_key(
            (#[trigger] book.book_orders()[x1]).orig_order.order,
        ) != order_key((#[trigger] book.book_orders()[x2]).orig_order.order)
}

/// A task pair is cancel-then-trade clean: a match event never involves an
/// order cancelled earlier.
pub open spec fn cancel_trade_ok(t1: ExecutionTask, t2: ExecutionTask) -> bool {
    match (t1, t2) {
        (
            ExecutionTask::CancelRequestAccepted(_, _, o),
            ExecutionTask::NewoOrderMatched(info),
        ) => info.order1 != o && info.order2 != o,
        _ => true,
    }
}

/// Law: ordering, second half. In everything the engine's matcher has ever
/// emitted, an order's cancel record is followed by no match event of that
/// order -- its cancel comes after all of its trades.
pub open spec fn cancels_after_trades(emitted: Seq<ExecutionTask>) -> bool {
    forall|m1: int, m2: int|
        0 <= m1 < m2 < emitted.len() ==> cancel_trade_ok(
            #[trigger] emitted[m1],
            #[trigger] emitted[m2],
        )
}

/// Every order with a cancel record in the stream rests nowhere in the book.
pub open spec fn cancelled_not_resting(
    emitted: Seq<ExecutionTask>,
    book: PriceOrderBook<NewOrderForBook>,
) -> bool {
    forall|m: int|
        0 <= m < emitted.len() ==> (match #[trigger] emitted[m] {
            ExecutionTask::CancelRequestAccepted(_, _, o) => not_resting(book, o),
            _ => true,
        })
}

/// Every order with a cancel record in the stream has its key recorded by
/// the duplicate filter, so no later command can rest it again.
pub open spec fn cancelled_keys_seen(emitted: Seq<ExecutionTask>, pre: PreProcessor) -> bool {
    forall|m: int|
        0 <= m < emitted.len() ==> (match #[trigger] emitted[m] {
            ExecutionTask::CancelRequestAccepted(_, _, o) => pre.seen_order(order_key(o)),
            _ => true,
        })
}

/// A key found in the filter is still found after the filter records one
/// more order.
proof fn lemma_seen_after_push(
    s: Seq<((crate::types::PBUID, crate::types::ClOrdID), crate::messages::OrigOrderInfoForCancel)>,
    e: ((crate::types::PBUID, crate::types::ClOrdID), crate::messages::OrigOrderInfoForCancel),
    k: (Seq<u8>, Seq<u8>),
)
    requires
        crate::pre_processor::find_info(s, k) >= 0,
    ensures
        crate::pre_processor::find_info(s.push(e), k) >= 0,
{
    crate::pre_processor::lemma_find_info_spec(s, k);
    let f = crate::pre_processor::find_info(s, k);
    assert(s.push(e)[f] == s[f]);
    crate::pre_processor::lemma_find_info_spec(s.push(e), k);
    if crate::pre_processor::find_info(s.push(e), k) == -1 {
        assert(key_view(s.push(e)[f].0.0, s.push(e)[f].0.1) != k);
    }
}

/// A cancel removes one entry: keys stay distinct, and because keys were
/// distinct, the cancelled order no longer rests anywhere.
proof fn lemma_distinct_after_remove(
    pre: PriceOrderBook<NewOrderForBook>,
    post: PriceOrderBook<NewOrderForBook>,
    price: crate::types::Price,
    order_id: crate::types::OrderID,
    removed: Option<crate::auction_order::ConsumedOrder<NewOrderForBook>>,
)
    requires
        pre.wf(),
        resting_keys_distinct(pre),
        removed_from(pre, post, price, order_id, removed),
        removed is Some,
    ensures
        resting_keys_distinct(post),
        ({
            let li = level_index(pre.levels(), price);
            let j = find_order(pre.levels()[li].1.entries(), order_id);
            not_resting(post, pre.levels()[li].1.entries()[j].orig_order.order)
        }),
{
    lemma_flat_after_remove(pre, post, price, order_id, removed);
    let li = level_index(pre.levels(), price);
    let entries = pre.levels()[li].1.entries();
    let j = find_order(entries, order_id);
    let pos = crate::order_book::flatten_levels(pre.levels().take(li)).len() + j;
    let o = entries[j].orig_order.order;
    assert forall|x1: int, x2: int|
        0 <= x1 < x2 < post.book_orders().len() implies order_key(
        (#[trigger] post.book_orders()[x1]).orig_order.order,
    ) != order_key((#[trigger] post.book_orders()[x2]).orig_order.order) by {
        assert(post.book_orders()[x1] == pre.book_orders()[if x1 < pos {
            x1
        } else {
            x1 + 1
        }]);
        assert(post.book_orders()[x2] == pre.book_orders()[if x2 < pos {
            x2
        } else {
            x2 + 1
        }]);
    }
    assert forall|li2: int, k2: int|
        0 <= li2 < post.levels().len() && 0 <= k2 < post.levels()[li2].1.entries().len() implies (
    #[trigger] post.levels()[li2].1.entries()[k2]).orig_order.order != o by {
        lemma_flatten_contains(post.levels(), li2, k2);
        let x = choose|x: int|
            0 <= x < post.book_orders().len() && #[trigger] post.book_orders()[x]
                == post.levels()[li2].1.entries()[k2];
        let gx = if x < pos {
            x
        } else {
            x + 1
        };
        assert(post.book_orders()[x] == pre.book_orders()[gx]);
        assert(gx != pos);
        assert(pre.book_orders()[pos] == entries[j]);
        if gx < pos {
            assert(order_key(pre.book_orders()[gx].orig_order.order) != order_key(
                pre.book_orders()[pos].orig_order.order,
            ));
        } else {
            assert(order_key(pre.book_orders()[pos].orig_order.order) != order_key(
                pre.book_orders()[gx].orig_order.order,
            ));
        }
        if post.levels()[li2].1.entries()[k2].orig_order.order == o {
            assert(order_key(pre.book_orders()[gx].orig_order.order) == order_key(o));
        }
    }
}

/// A match walk drops a prefix of entries: keys stay distinct.
proof fn lemma_distinct_after_consume(
    pre: PriceOrderBook<NewOrderForBook>,
    post: PriceOrderBook<NewOrderForBook>,
    limit_key: int,
    qty: Qty,
)
    requires
        pre.wf(),
        resting_keys_distinct(pre),
        crate::order_book::flatten_levels(post.levels()) == remaining_after(
            crossing_orders(pre.levels(), limit_key, pre.spec_multiplier()),
            qty,
        ) + crate::order_book::flatten_levels(
            pre.levels().skip(crossing_len(pre.levels(), limit_key, pre.spec_multiplier())),
        ),
    ensures
        resting_keys_distinct(post),
{
    lemma_flat_after_consume(pre, post, limit_key, qty);
    let cross = crossing_orders(pre.levels(), limit_key, pre.spec_multiplier());
    let rem = remaining_after(cross, qty);
    let shift = cross.len() - rem.len();
    assert forall|x1: int, x2: int|
        0 <= x1 < x2 < post.book_orders().len() implies order_key(
        (#[trigger] post.book_orders()[x1]).orig_order.order,
    ) != order_key((#[trigger] post.book_orders()[x2]).orig_order.order) by {
        assert(post.book_orders()[x1].orig_order == pre.book_orders()[shift + x1].orig_order);
        assert(post.book_orders()[x2].orig_order == pre.book_orders()[shift + x2].orig_order);
    }
}

/// Resting an order whose key no resting order carries keeps keys distinct.
proof fn lemma_distinct_after_insert(
    pre: PriceOrderBook<NewOrderForBook>,
    post: PriceOrderBook<NewOrderForBook>,
    entry: OrderWithStatus<NewOrderForBook>,
)
    requires
        pre.wf(),
        resting_keys_distinct(pre),
        crate::order_book::inserted_entry(pre, post, entry),
        forall|x: int|
            0 <= x < pre.book_orders().len() ==> order_key(
                (#[trigger] pre.book_orders()[x]).orig_order.order,
            ) != order_key(entry.orig_order.order),
    ensures
        resting_keys_distinct(post),
{
    lemma_flat_after_insert(pre, post, entry);
    let pos = choose|pos: int|
        {
            &&& 0 <= pos <= pre.book_orders().len()
            &&& #[trigger] post.book_orders()[pos] == entry
            &&& forall|x: int|
                0 <= x < post.book_orders().len() && x != pos ==> (
                #[trigger] post.book_orders()[x]) == pre.book_orders()[if x < pos {
                    x
                } else {
                    x - 1
                }]
        };
    assert forall|x1: int, x2: int|
        0 <= x1 < x2 < post.book_orders().len() implies order_key(
        (#[trigger] post.book_orders()[x1]).orig_order.order,
    ) != order_key((#[trigger] post.book_orders()[x2]).orig_order.order) by {
        if x1 != pos && x2 != pos {
            assert(post.book_orders()[x1] == pre.book_orders()[if x1 < pos {
                x1
            } else {
                x1 - 1
            }]);
            assert(post.book_orders()[x2] == pre.book_orders()[if x2 < pos {
                x2
            } else {
                x2 - 1
            }]);
        } else if x1 == pos {
            assert(post.book_orders()[x2] == pre.book_orders()[x2 - 1]);
        } else {
            assert(post.book_orders()[x1] == pre.book_orders()[x1]);
        }
    }
}

/// Law: ordering, both halves, over everything a well-formed engine's
/// matcher has ever emitted. The first half (every match event is preceded
/// by the acknowledgements of both of its orders) is the matcher's own
/// invariant; the second (no match event follows an order's cancel record)
/// holds of the engine, whose duplicate filter is what prevents a cancelled
/// order from ever being accepted -- and so rested or matched -- again.
pub proof fn lemma_ordering(engine: Engine)
    requires
        engine.wf(),
    ensures
        crate::core_processor::stream_ordered(engine.spec_core().spec_emitted()),
        cancels_after_trades(engine.spec_core().spec_emitted()),
{
}

pub struct Engine {
    pre: PreProcessor,
    rc: RcProcessor,
    core: CoreProcessor,
    exe: ExeProcessor,
    sender: ExeSender,
}

impl Engine {
    pub closed spec fn spec_pre(&self) -> PreProcessor {
        self.pre
    }

    pub closed spec fn spec_core(&self) -> CoreProcessor {
        self.core
    }

    pub closed spec fn spec_exe(&self) -> ExeProcessor {
        self.exe
    }

    pub closed spec fn spec_sender(&self) -> ExeSender {
        self.sender
    }

    /// The matcher's and reporter's invariants -- and with them the stream
    /// laws -- plus: every cancel-lookup record and every resting order
    /// carries a real side, so any report the engine may owe can be encoded.
    pub open spec fn wf(&self) -> bool {
        &&& self.spec_core().wf()
        &&& self.spec_exe().wf()
        &&& forall|i: int|
            0 <= i < self.spec_pre().orders_seq().len() ==> side_ok(
                (#[trigger] self.spec_pre().orders_seq()[i]).1.side,
            )
        &&& entries_satisfy(
            self.spec_core().spec_session().spec_buy_book(),
            |o: std::rc::Rc<NewOrderForBook>| order_side_ok(o),
        )
        &&& entries_satisfy(
            self.spec_core().spec_session().spec_sell_book(),
            |o: std::rc::Rc<NewOrderForBook>| order_side_ok(o),
        )
        &&& entries_satisfy(
            self.spec_core().spec_session().spec_buy_book(),
            |o: std::rc::Rc<NewOrderForBook>| o.order.side == K_BUY,
        )
        &&& entries_satisfy(
            self.spec_core().spec_session().spec_sell_book(),
            |o: std::rc::Rc<NewOrderForBook>| o.order.side == K_SELL,
        )
        &&& resting_keys_distinct(self.spec_core().spec_session().spec_buy_book())
        &&& resting_keys_distinct(self.spec_core().spec_session().spec_sell_book())
        &&& resting_keys_seen(self.spec_core().spec_session().spec_buy_book(), self.spec_pre())
        &&& resting_keys_seen(self.spec_core().spec_session().spec_sell_book(), self.spec_pre())
        &&& cancelled_not_resting(
            self.spec_core().spec_emitted(),
            self.spec_core().spec_session().spec_buy_book(),
        )
        &&& cancelled_not_resting(
            self.spec_core().spec_emitted(),
            self.spec_core().spec_session().spec_sell_book(),
        )
        &&& cancelled_keys_seen(self.spec_core().spec_emitted(), self.spec_pre())
        &&& cancels_after_trades(self.spec_core().spec_emitted())
    }

    /// How many execution tasks one command can give rise to: a new order is
    /// acknowledged and can consume at most every resting contra order; a
    /// cancel answers with exactly one task.
    pub open spec fn task_budget(&self, task: PreProcessorTask) -> int {
        match task {
            PreProcessorTask::NewOrder(o) => self.spec_core().spec_session().contra_book(
                o.side,
            ).book_orders().len() as int + 1,
            PreProcessorTask::CancelRequest(_) => 1,
        }
    }

    pub fn new(sender: ExeSender) -> (engine: Engine)
        ensures
            engine.wf(),
            engine.spec_sender() == sender,
            engine.spec_exe().spec_exec_id() == 0,
            engine.spec_core().spec_emitted() =~= Seq::<ExecutionTask>::empty(),
    {
        Engine {
            pre: PreProcessor::new(),
            rc: RcProcessor::new(),
            core: CoreProcessor::new(),
            exe: ExeProcessor::new(),
            sender,
        }
    }

    /// Runs one command through all four stages, sending every resulting
    /// record to the sink.
    #[verifier::loop_isolation(false)]
    pub fn process(&mut self, task: PreProcessorTask)
        requires
            old(self).wf(),
            task matches PreProcessorTask::NewOrder(o) ==> side_ok(o.side),
            task matches PreProcessorTask::NewOrder(o) ==> old(self).spec_core().spec_session()
                .own_book(o.side).spec_book_total() + o.qty <= Qty::MAX,
            old(self).spec_exe().spec_exec_id() + old(self).task_budget(task) <= ExecID::MAX,
            old(self).spec_sender().count + 3 * old(self).task_budget(task) <= u32::MAX,
            old(self).spec_sender().bytes + 400 * old(self).task_budget(task) <= usize::MAX,
        ensures
            final(self).wf(),
            exists|rc_task: RcProcessorTask, core_task: CoreProcessorTask, ts: Seq<ExecutionTask>|
                #[trigger] processed(*old(self), *final(self), task, rc_task, core_task, ts),
            final(self).spec_sender().count >= old(self).spec_sender().count,
            final(self).spec_sender().bytes >= old(self).spec_sender().bytes,
    {
        let ghost cmd = task;
        let ghost budget = old(self).task_budget(task);
        let task = self.pre.process(task);
        proof {
            // The filter keeps real sides in its cancel-lookup records: a
            // fresh record copies an incoming order's side, and nothing else
            // changes.
            match cmd {
                PreProcessorTask::CancelRequest(c) => {
                    let k = key_view(c.pbu_id, c.orig_cl_ord_id);
                    lemma_find_info_spec(old(self).spec_pre().orders_seq(), k);
                },
                _ => {},
            }
            assert forall|i: int| 0 <= i < self.pre.orders_seq().len() implies side_ok(
                (#[trigger] self.pre.orders_seq()[i]).1.side,
            ) by {
                if i < old(self).spec_pre().orders_seq().len() {
                    assert(self.pre.orders_seq()[i] == old(self).spec_pre().orders_seq()[i]);
                }
            }
        }
        let ghost rc_input = task;
        let task = self.rc.process(task);
        let ghost core_task = task;
        let ghost pre_session = self.core.spec_session();
        proof {
            assert(pre_session == old(self).spec_core().spec_session());
        }
        let tasks = self.core.process(task);

        proof {
            let p = |o: std::rc::Rc<NewOrderForBook>| order_side_ok(o);
            let post_session = self.core.spec_session();
            match core_task {
                CoreProcessorTask::NewOrder(fwd, _) => {
                    match cmd {
                        PreProcessorTask::NewOrder(o) => {
                            assert(*fwd == *o);
                            assert(side_ok(fwd.side));
                        },
                        PreProcessorTask::CancelRequest(_) => {
                            assert(false);
                        },
                    }
                    assert(exists|arc: Arc<NewOrder>, rco: std::rc::Rc<NewOrderForBook>|
                        #[trigger] core_new_order_outcome(
                            pre_session,
                            self.core.spec_session(),
                            *fwd,
                            arc,
                            rco,
                            tasks@,
                        ));
                    Self::lemma_new_order_call(
                        pre_session,
                        self.core.spec_session(),
                        *fwd,
                        tasks@,
                    );
                },
                CoreProcessorTask::CancelRequest(info, _) => {
                    let book = pre_session.own_book(info.side);
                    lemma_level_index_range(book.levels(), info.price);
                    let li = level_index(book.levels(), info.price);
                    if li >= 0 {
                        lemma_find_order_spec(book.levels()[li].1.entries(), info.order_id);
                        let j = find_order(book.levels()[li].1.entries(), info.order_id);
                        if j >= 0 {
                            let entry = book.levels()[li].1.entries()[j];
                            assert(p(entry.orig_order));
                            assert(book.levels()[li].1.wf());
                            assert(entry.leaves_qty <= entry.orig_order.spec_qty());
                            assert(task_wf(tasks@[0]));
                            lemma_entries_satisfy_after_remove(
                                book,
                                post_session.own_book(info.side),
                                info.price,
                                info.order_id,
                                Some(
                                    ConsumedOrder {
                                        consumed_qty: entry.leaves_qty,
                                        leaves_qty: 0,
                                        orig_order: entry.orig_order,
                                    },
                                ),
                                p,
                            );
                        } else {
                            assert(post_session.own_book(info.side).levels() == book.levels());
                            assert(entries_satisfy(post_session.own_book(info.side), p));
                        }
                    } else {
                        assert(post_session.own_book(info.side).levels() == book.levels());
                        assert(entries_satisfy(post_session.own_book(info.side), p));
                    }
                    assert(post_session.contra_book(info.side) == pre_session.contra_book(
                        info.side,
                    ));
                    if info.side == K_BUY {
                        assert(entries_satisfy(post_session.spec_buy_book(), p));
                        assert(entries_satisfy(post_session.spec_sell_book(), p));
                    } else {
                        assert(entries_satisfy(post_session.spec_sell_book(), p));
                        assert(entries_satisfy(post_session.spec_buy_book(), p));
                    }
                },
                CoreProcessorTask::NewOrderRejected(_) => {
                    assert(post_session == pre_session);
                },
                CoreProcessorTask::CancelRequestRejected(_) => {
                    assert(post_session == pre_session);
                },
            }
            assert(tasks@.len() <= budget);
            assert(forall|j: int| 0 <= j < tasks@.len() ==> task_wf(#[trigger] tasks@[j]));
        }

        proof {
            // The stream laws and the book uniqueness invariants survive
            // this command.
            let old_emitted = old(self).spec_core().spec_emitted();
            let new_emitted = self.core.spec_emitted();
            let old_len = old_emitted.len() as int;
            let post_session = self.core.spec_session();
            let old_pre_f = old(self).spec_pre();
            let new_pre_f = self.pre;
            assert(new_emitted =~= old_emitted + tasks@);
            assert(forall|m: int| 0 <= m < old_len ==> new_emitted[m] == old_emitted[m]);
            assert(forall|m: int|
                old_len <= m < new_emitted.len() ==> new_emitted[m] == tasks@[m - old_len]);
            match core_task {
                CoreProcessorTask::NewOrder(fwd, _) => {
                    Self::lemma_step_new_order(
                        pre_session,
                        post_session,
                        *fwd,
                        tasks@,
                        old_emitted,
                        old_pre_f,
                        new_pre_f,
                    );
                },
                CoreProcessorTask::CancelRequest(info, creq) => {
                    Self::lemma_step_cancel(
                        pre_session,
                        post_session,
                        info,
                        creq,
                        tasks@,
                        old_emitted,
                        old_pre_f,
                        new_pre_f,
                    );
                },
                CoreProcessorTask::NewOrderRejected(_) => {
                    assert(post_session == pre_session);
                    assert(new_pre_f.orders_seq() == old_pre_f.orders_seq());
                    Self::lemma_step_plain(
                        pre_session,
                        tasks@,
                        old_emitted,
                        old_pre_f,
                        new_pre_f,
                    );
                },
                CoreProcessorTask::CancelRequestRejected(_) => {
                    assert(post_session == pre_session);
                    assert(new_pre_f.orders_seq() == old_pre_f.orders_seq());
                    Self::lemma_step_plain(
                        pre_session,
                        tasks@,
                        old_emitted,
                        old_pre_f,
                        new_pre_f,
                    );
                },
            }
        }

        let ghost tasks_view = tasks@;
        let ghost core_after = self.core;
        let ghost pre_after = self.pre;
        let ghost exec0 = self.exe.spec_exec_id();
        let ghost count0 = self.sender.count;
        let ghost bytes0 = self.sender.bytes;
        let mut remaining = tasks;
        let ghost done: int = 0;
        while remaining.len() > 0
            invariant
                self.core == core_after,
                self.pre == pre_after,
                self.exe.wf(),
                forall|j: int| 0 <= j < remaining@.len() ==> task_wf(#[trigger] remaining@[j]),
                done + remaining@.len() <= budget,
                done >= 0,
                exec0 + budget <= ExecID::MAX,
                count0 + 3 * budget <= u32::MAX,
                bytes0 + 400 * budget <= usize::MAX,
                self.exe.spec_exec_id() <= exec0 + done,
                self.sender.count <= count0 + 3 * done,
                self.sender.bytes <= bytes0 + 400 * done,
                self.sender.count >= count0,
                self.sender.bytes >= bytes0,
                self.sender.count + total_records_count(remaining@) == count0
                    + total_records_count(tasks_view),
                self.sender.bytes + total_message_bytes(remaining@) == bytes0
                    + total_message_bytes(tasks_view),
                exec_id_after_seq(remaining@, self.exe.spec_exec_id()) == exec_id_after_seq(
                    tasks_view,
                    exec0,
                ),
            decreases remaining@.len(),
        {
            let ghost rem_before = remaining@;
            let task_i = remaining.remove(0);
            proof {
                assert(remaining@ =~= rem_before.drop_first());
                assert(total_records_count(rem_before) == records_count_for(rem_before[0])
                    + total_records_count(rem_before.drop_first()));
                assert(total_message_bytes(rem_before) == message_bytes_for(rem_before[0])
                    + total_message_bytes(rem_before.drop_first()));
            }
            self.exe.process(task_i, &mut self.sender);
            proof {
                done = done + 1;
            }
        }
        proof {
            assert(self.core == core_after);
            assert(core_after.spec_emitted() == old(self).spec_core().spec_emitted() + tasks_view);
            lemma_task_totals_bounds(tasks_view);
            assert(processed(*old(self), *self, cmd, rc_input, core_task, tasks_view));
        }
    }

    /// An accepted new order: the contra walk and the resting of the
    /// remainder keep keys distinct and recorded; the acknowledgement and
    /// match events extend the stream without touching any cancelled order.
    proof fn lemma_step_new_order(
        pre_session: TradingSession,
        post_session: TradingSession,
        o: NewOrder,
        ts: Seq<ExecutionTask>,
        old_emitted: Seq<ExecutionTask>,
        old_pre_f: PreProcessor,
        new_pre_f: PreProcessor,
    )
        requires
            pre_session.wf(),
            side_ok(o.side),
            !old_pre_f.seen_order(key_view(o.pbu_id, o.cl_ord_id)),
            new_pre_f.orders_seq() == old_pre_f.orders_seq().push(
                ((o.pbu_id, o.cl_ord_id), o.spec_info_for_cancel()),
            ),
            entries_satisfy(
                pre_session.spec_buy_book(),
                |e: std::rc::Rc<NewOrderForBook>| e.order.side == K_BUY,
            ),
            entries_satisfy(
                pre_session.spec_sell_book(),
                |e: std::rc::Rc<NewOrderForBook>| e.order.side == K_SELL,
            ),
            resting_keys_distinct(pre_session.spec_buy_book()),
            resting_keys_distinct(pre_session.spec_sell_book()),
            resting_keys_seen(pre_session.spec_buy_book(), old_pre_f),
            resting_keys_seen(pre_session.spec_sell_book(), old_pre_f),
            cancelled_not_resting(old_emitted, pre_session.spec_buy_book()),
            cancelled_not_resting(old_emitted, pre_session.spec_sell_book()),
            cancelled_keys_seen(old_emitted, old_pre_f),
            cancels_after_trades(old_emitted),
            exists|arc: Arc<NewOrder>, rco: std::rc::Rc<NewOrderForBook>|
                #[trigger] core_new_order_outcome(pre_session, post_session, o, arc, rco, ts),
        ensures
            entries_satisfy(
                post_session.spec_buy_book(),
                |e: std::rc::Rc<NewOrderForBook>| e.order.side == K_BUY,
            ),
            entries_satisfy(
                post_session.spec_sell_book(),
                |e: std::rc::Rc<NewOrderForBook>| e.order.side == K_SELL,
            ),
            resting_keys_distinct(post_session.spec_buy_book()),
            resting_keys_distinct(post_session.spec_sell_book()),
            resting_keys_seen(post_session.spec_buy_book(), new_pre_f),
            resting_keys_seen(post_session.spec_sell_book(), new_pre_f),
            cancelled_not_resting(old_emitted + ts, post_session.spec_buy_book()),
            cancelled_not_resting(old_emitted + ts, post_session.spec_sell_book()),
            cancelled_keys_seen(old_emitted + ts, new_pre_f),
            cancels_after_trades(old_emitted + ts),
    {
        let combined = old_emitted + ts;
        let old_len = old_emitted.len() as int;
        assert(forall|m: int| 0 <= m < old_len ==> combined[m] == old_emitted[m]);
        assert(forall|m: int| old_len <= m < combined.len() ==> combined[m] == ts[m - old_len]);
        let (arc, rco) = choose|arc: Arc<NewOrder>, rco: std::rc::Rc<NewOrderForBook>|
            #[trigger] core_new_order_outcome(pre_session, post_session, o, arc, rco, ts);
        let contra = pre_session.contra_book(o.side);
        let own_pre = pre_session.own_book(o.side);
        let contra_post = post_session.contra_book(o.side);
        let own_post = post_session.own_book(o.side);
        let mult = contra.spec_multiplier();
        let lk = key_of(o.price, mult);
        let cross = pre_session.crossing(o.side, o.price);
        let consumed = consumed_from(cross, o.qty);
        let events = match_events(arc, consumed, o.qty as int);
        let k_new = order_key(arc);
        assert(k_new == key_view(o.pbu_id, o.cl_ord_id));
        let pushed = ((o.pbu_id, o.cl_ord_id), o.spec_info_for_cancel());

        // the fresh key is recorded now
        assert(new_pre_f.seen_order(k_new)) by {
            crate::pre_processor::lemma_find_info_spec(old_pre_f.orders_seq(), k_new);
            crate::pre_processor::lemma_find_appended(old_pre_f.orders_seq(), k_new, pushed);
        }

        lemma_crossing_live(contra.levels(), lk, mult);
        lemma_consumed_from_props(cross, o.qty);
        lemma_match_events_index(arc, consumed, o.qty as int);
        assert(crate::order_book::flatten_levels(contra_post.levels()) == remaining_after(
            cross,
            o.qty,
        ) + crate::order_book::flatten_levels(contra.levels().skip(crossing_len(contra.levels(), lk, mult))));
        lemma_distinct_after_consume(contra, contra_post, lk, o.qty);
        lemma_entries_satisfy_after_consume(
            contra,
            contra_post,
            lk,
            o.qty,
            |e: std::rc::Rc<NewOrderForBook>| e.order.side == (if o.side == K_BUY {
                K_SELL
            } else {
                K_BUY
            }),
        );
        lemma_entries_satisfy_after_consume(
            contra,
            contra_post,
            lk,
            o.qty,
            |e: std::rc::Rc<NewOrderForBook>| old_pre_f.seen_order(order_key(e.order)),
        );
        // lift "keys recorded" from the filter before this command to after
        assert forall|li: int, k: int|
            0 <= li < contra_post.levels().len() && 0 <= k
                < contra_post.levels()[li].1.entries().len() implies new_pre_f.seen_order(
            order_key((#[trigger] contra_post.levels()[li].1.entries()[k]).orig_order.order),
        ) by {
            lemma_seen_after_push(
                old_pre_f.orders_seq(),
                pushed,
                order_key(contra_post.levels()[li].1.entries()[k].orig_order.order),
            );
        }

        let left = left_after(cross, o.qty);
        let entry = OrderWithStatus { leaves_qty: left, orig_order: rco };
        if left > 0 {
            // no resting order carries the fresh key
            assert forall|x: int|
                0 <= x < own_pre.book_orders().len() implies order_key(
                (#[trigger] own_pre.book_orders()[x]).orig_order.order,
            ) != order_key(entry.orig_order.order) by {
                lemma_flatten_index(own_pre.levels(), x);
                let (li, k) = choose|li: int, k: int|
                    {
                        &&& 0 <= li < own_pre.levels().len()
                        &&& 0 <= k < own_pre.levels()[li].1.entries().len()
                        &&& crate::order_book::flatten_levels(own_pre.levels())[x]
                            == #[trigger] own_pre.levels()[li].1.entries()[k]
                    };
                assert(old_pre_f.seen_order(
                    order_key(own_pre.levels()[li].1.entries()[k].orig_order.order),
                ));
            }
            lemma_distinct_after_insert(own_pre, own_post, entry);
            lemma_entries_satisfy_after_insert(
                own_pre,
                own_post,
                entry,
                |e: std::rc::Rc<NewOrderForBook>| e.order.side == o.side,
            );
            assert(entries_satisfy(
                own_pre,
                |e: std::rc::Rc<NewOrderForBook>| new_pre_f.seen_order(order_key(e.order)),
            )) by {
                assert forall|li2: int, k2: int|
                    0 <= li2 < own_pre.levels().len() && 0 <= k2
                        < own_pre.levels()[li2].1.entries().len() implies new_pre_f.seen_order(
                    order_key(
                        (#[trigger] own_pre.levels()[li2].1.entries()[k2]).orig_order.order,
                    ),
                ) by {
                    lemma_seen_after_push(
                        old_pre_f.orders_seq(),
                        pushed,
                        order_key(own_pre.levels()[li2].1.entries()[k2].orig_order.order),
                    );
                }
            }
            lemma_entries_satisfy_after_insert(
                own_pre,
                own_post,
                entry,
                |e: std::rc::Rc<NewOrderForBook>| new_pre_f.seen_order(order_key(e.order)),
            );
        } else {
            assert(own_post == own_pre);
            assert forall|li: int, k: int|
                0 <= li < own_post.levels().len() && 0 <= k
                    < own_post.levels()[li].1.entries().len() implies new_pre_f.seen_order(
                order_key((#[trigger] own_post.levels()[li].1.entries()[k]).orig_order.order),
            ) by {
                lemma_seen_after_push(
                    old_pre_f.orders_seq(),
                    pushed,
                    order_key(own_post.levels()[li].1.entries()[k].orig_order.order),
                );
            }
        }

        // the emitted tasks: one acknowledgement, then match events only
        assert(ts.len() == 1 + consumed.len());
        assert(ts[0] == ExecutionTask::NewOrderAccepted(arc));
        assert(forall|i: int| 1 <= i < ts.len() ==> ts[i] == events[i - 1]);

        // no cancelled order reappears: not in the walk, not as the
        // aggressor, not in what rests afterwards
        assert forall|m: int|
            0 <= m < combined.len() implies (match #[trigger] combined[m] {
            ExecutionTask::CancelRequestAccepted(_, _, om) => not_resting(contra_post, om)
                && not_resting(own_post, om) && new_pre_f.seen_order(order_key(om)),
            _ => true,
        }) by {
            if m < old_len {
                match old_emitted[m] {
                    ExecutionTask::CancelRequestAccepted(_, _, om) => {
                        assert(not_resting(contra, om) && not_resting(own_pre, om)) by {
                            if o.side == K_BUY {
                                assert(contra == pre_session.spec_sell_book());
                                assert(own_pre == pre_session.spec_buy_book());
                            } else {
                                assert(contra == pre_session.spec_buy_book());
                                assert(own_pre == pre_session.spec_sell_book());
                            }
                        }
                        lemma_entries_satisfy_after_consume(
                            contra,
                            contra_post,
                            lk,
                            o.qty,
                            |e: std::rc::Rc<NewOrderForBook>| e.order != om,
                        );
                        assert(old_pre_f.seen_order(order_key(om)));
                        assert(arc != om) by {
                            if arc == om {
                                assert(order_key(om) == k_new);
                            }
                        }
                        if left > 0 {
                            lemma_entries_satisfy_after_insert(
                                own_pre,
                                own_post,
                                entry,
                                |e: std::rc::Rc<NewOrderForBook>| e.order != om,
                            );
                        }
                        lemma_seen_after_push(old_pre_f.orders_seq(), pushed, order_key(om));
                    },
                    _ => {},
                }
            } else {
                if m - old_len >= 1 {
                    assert(combined[m] == events[m - old_len - 1]);
                } else {
                    assert(combined[m] == ExecutionTask::NewOrderAccepted(arc));
                }
            }
        }

        // ordering: every new match involves only the fresh aggressor and
        // orders that still rest, never a cancelled one
        assert forall|m1: int, m2: int|
            0 <= m1 < m2 < combined.len() implies cancel_trade_ok(combined[m1], combined[m2]) by {
            if m2 < old_len {
            } else if m1 < old_len {
                match old_emitted[m1] {
                    ExecutionTask::CancelRequestAccepted(_, _, om) => {
                        if m2 - old_len >= 1 {
                            assert(combined[m2] == events[m2 - old_len - 1]);
                            let idx = m2 - old_len - 1;
                            match events[idx] {
                                ExecutionTask::NewoOrderMatched(infom) => {
                                    assert(infom.order1 == arc);
                                    assert(old_pre_f.seen_order(order_key(om)));
                                    assert(arc != om) by {
                                        if arc == om {
                                            assert(order_key(om) == k_new);
                                        }
                                    }
                                    assert(not_resting(contra, om)) by {
                                        if o.side == K_BUY {
                                            assert(contra == pre_session.spec_sell_book());
                                        } else {
                                            assert(contra == pre_session.spec_buy_book());
                                        }
                                    }
                                    lemma_crossing_satisfies(
                                        contra,
                                        lk,
                                        |e: std::rc::Rc<NewOrderForBook>| e.order != om,
                                    );
                                    assert(infom.order2 == consumed[idx].orig_order.order);
                                    assert(consumed[idx].orig_order == cross[idx].orig_order);
                                    assert(infom.order2 != om);
                                },
                                _ => {},
                            }
                        }
                    },
                    _ => {},
                }
            }
        }

        if o.side == K_BUY {
            assert(post_session.spec_buy_book() == own_post);
            assert(post_session.spec_sell_book() == contra_post);
        } else {
            assert(post_session.spec_sell_book() == own_post);
            assert(post_session.spec_buy_book() == contra_post);
        }
    }

    /// A forwarded cancel: the target entry leaves its book (or the cancel
    /// misses), keys stay distinct, the cancelled order rests nowhere any
    /// more, and the stream laws extend over the one emitted task.
    proof fn lemma_step_cancel(
        pre_session: TradingSession,
        post_session: TradingSession,
        info: crate::messages::OrigOrderInfoForCancel,
        cancel_request: Box<crate::messages::CancelRequest>,
        ts: Seq<ExecutionTask>,
        old_emitted: Seq<ExecutionTask>,
        old_pre_f: PreProcessor,
        new_pre_f: PreProcessor,
    )
        requires
            pre_session.wf(),
            side_ok(info.side),
            new_pre_f.orders_seq() == old_pre_f.orders_seq(),
            entries_satisfy(
                pre_session.spec_buy_book(),
                |e: std::rc::Rc<NewOrderForBook>| e.order.side == K_BUY,
            ),
            entries_satisfy(
                pre_session.spec_sell_book(),
                |e: std::rc::Rc<NewOrderForBook>| e.order.side == K_SELL,
            ),
            resting_keys_distinct(pre_session.spec_buy_book()),
            resting_keys_distinct(pre_session.spec_sell_book()),
            resting_keys_seen(pre_session.spec_buy_book(), old_pre_f),
            resting_keys_seen(pre_session.spec_sell_book(), old_pre_f),
            cancelled_not_resting(old_emitted, pre_session.spec_buy_book()),
            cancelled_not_resting(old_emitted, pre_session.spec_sell_book()),
            cancelled_keys_seen(old_emitted, old_pre_f),
            cancels_after_trades(old_emitted),
            core_outcome(
                pre_session,
                post_session,
                CoreProcessorTask::CancelRequest(info, cancel_request),
                ts,
            ),
        ensures
            entries_satisfy(
                post_session.spec_buy_book(),
                |e: std::rc::Rc<NewOrderForBook>| e.order.side == K_BUY,
            ),
            entries_satisfy(
                post_session.spec_sell_book(),
                |e: std::rc::Rc<NewOrderForBook>| e.order.side == K_SELL,
            ),
            resting_keys_distinct(post_session.spec_buy_book()),
            resting_keys_distinct(post_session.spec_sell_book()),
            resting_keys_seen(post_session.spec_buy_book(), new_pre_f),
            resting_keys_seen(post_session.spec_sell_book(), new_pre_f),
            cancelled_not_resting(old_emitted + ts, post_session.spec_buy_book()),
            cancelled_not_resting(old_emitted + ts, post_session.spec_sell_book()),
            cancelled_keys_seen(old_emitted + ts, new_pre_f),
            cancels_after_trades(old_emitted + ts),
    {
        let combined = old_emitted + ts;
        let old_len = old_emitted.len() as int;
        assert(forall|m: int| 0 <= m < old_len ==> combined[m] == old_emitted[m]);
        assert(forall|m: int| old_len <= m < combined.len() ==> combined[m] == ts[m - old_len]);
        let book = pre_session.own_book(info.side);
        let contra = pre_session.contra_book(info.side);
        let post_own = post_session.own_book(info.side);
        lemma_level_index_range(book.levels(), info.price);
        let li = level_index(book.levels(), info.price);
        let hit = li >= 0 && find_order(book.levels()[li].1.entries(), info.order_id) >= 0;
        if li >= 0 {
            lemma_find_order_spec(book.levels()[li].1.entries(), info.order_id);
        }
        if hit {
            let entries = book.levels()[li].1.entries();
            let j = find_order(entries, info.order_id);
            let entry = entries[j];
            let o = entry.orig_order.order;
            let removed = Some(
                ConsumedOrder {
                    consumed_qty: entry.leaves_qty,
                    leaves_qty: 0,
                    orig_order: entry.orig_order,
                },
            );
            lemma_distinct_after_remove(book, post_own, info.price, info.order_id, removed);
            lemma_entries_satisfy_after_remove(
                book,
                post_own,
                info.price,
                info.order_id,
                removed,
                |e: std::rc::Rc<NewOrderForBook>| e.order.side == info.side,
            );
            lemma_entries_satisfy_after_remove(
                book,
                post_own,
                info.price,
                info.order_id,
                removed,
                |e: std::rc::Rc<NewOrderForBook>| old_pre_f.seen_order(order_key(e.order)),
            );
            // the cancelled order itself: it left its book, and it never was
            // in the contra book, whose every order has the other side
            assert(entry.orig_order.order.side == info.side) by {
                if info.side == K_BUY {
                    assert(book == pre_session.spec_buy_book());
                } else {
                    assert(book == pre_session.spec_sell_book());
                }
            }
            assert(not_resting(contra, o)) by {
                assert forall|li2: int, k2: int|
                    0 <= li2 < contra.levels().len() && 0 <= k2
                        < contra.levels()[li2].1.entries().len() implies (
                #[trigger] contra.levels()[li2].1.entries()[k2]).orig_order.order != o by {
                    if info.side == K_BUY {
                        assert(contra == pre_session.spec_sell_book());
                        assert(contra.levels()[li2].1.entries()[k2].orig_order.order.side
                            == K_SELL);
                    } else {
                        assert(contra == pre_session.spec_buy_book());
                        assert(contra.levels()[li2].1.entries()[k2].orig_order.order.side
                            == K_BUY);
                    }
                }
            }
            // previously cancelled orders still rest nowhere
            assert forall|m: int|
                0 <= m < combined.len() implies (match #[trigger] combined[m] {
                ExecutionTask::CancelRequestAccepted(_, _, om) => not_resting(post_own, om)
                    && not_resting(contra, om),
                _ => true,
            }) by {
                if m < old_len {
                    match old_emitted[m] {
                        ExecutionTask::CancelRequestAccepted(_, _, om) => {
                            assert(not_resting(book, om) && not_resting(contra, om)) by {
                                if info.side == K_BUY {
                                    assert(book == pre_session.spec_buy_book());
                                } else {
                                    assert(book == pre_session.spec_sell_book());
                                }
                            }
                            lemma_entries_satisfy_after_remove(
                                book,
                                post_own,
                                info.price,
                                info.order_id,
                                removed,
                                |e: std::rc::Rc<NewOrderForBook>| e.order != om,
                            );
                        },
                        _ => {},
                    }
                } else {
                    assert(combined[m] == ts[0]);
                }
            }
            // keys of cancelled orders stay recorded
            assert(old_pre_f.seen_order(order_key(o))) by {
                if info.side == K_BUY {
                    assert(book == pre_session.spec_buy_book());
                } else {
                    assert(book == pre_session.spec_sell_book());
                }
            }
            assert forall|m: int|
                0 <= m < combined.len() implies (match #[trigger] combined[m] {
                ExecutionTask::CancelRequestAccepted(_, _, om) => new_pre_f.seen_order(
                    order_key(om),
                ),
                _ => true,
            }) by {
                if m < old_len {
                } else {
                    assert(combined[m] == ts[0]);
                }
            }
            // ordering: the one new task is a cancel record, not a match
            assert forall|m1: int, m2: int|
                0 <= m1 < m2 < combined.len() implies cancel_trade_ok(
                combined[m1],
                combined[m2],
            ) by {
                if m2 < old_len {
                } else {
                    assert(combined[m2] == ts[0]);
                }
            }
        } else {
            // the cancel missed: the books are unchanged and the one task is
            // a rejection
            assert(post_own.levels() == book.levels());
            assert(post_own.book_orders() == book.book_orders());
            assert forall|m1: int, m2: int|
                0 <= m1 < m2 < combined.len() implies cancel_trade_ok(
                combined[m1],
                combined[m2],
            ) by {
                if m2 < old_len {
                } else {
                    assert(combined[m2] == ts[0]);
                }
            }
            assert forall|m: int|
                0 <= m < combined.len() implies (match #[trigger] combined[m] {
                ExecutionTask::CancelRequestAccepted(_, _, om) => not_resting(post_own, om)
                    && not_resting(contra, om) && new_pre_f.seen_order(order_key(om)),
                _ => true,
            }) by {
                if m < old_len {
                    match old_emitted[m] {
                        ExecutionTask::CancelRequestAccepted(_, _, om) => {
                            assert(not_resting(book, om) && not_resting(contra, om)) by {
                                if info.side == K_BUY {
                                    assert(book == pre_session.spec_buy_book());
                                } else {
                                    assert(book == pre_session.spec_sell_book());
                                }
                            }
                        },
                        _ => {},
                    }
                } else {
                    assert(combined[m] == ts[0]);
                }
            }
        }
        // map the own/contra facts back onto the named books
        if info.side == K_BUY {
            assert(post_session.spec_buy_book() == post_own);
            assert(post_session.spec_sell_book() == contra);
        } else {
            assert(post_session.spec_sell_book() == post_own);
            assert(post_session.spec_buy_book() == contra);
        }
    }

    /// A pass-through step: the session and the filter's order records are
    /// unchanged, and the emitted tasks are plain rejections, so every
    /// stream law and book invariant carries over.
    proof fn lemma_step_plain(
        session: TradingSession,
        ts: Seq<ExecutionTask>,
        old_emitted: Seq<ExecutionTask>,
        old_pre_f: PreProcessor,
        new_pre_f: PreProcessor,
    )
        requires
            new_pre_f.orders_seq() == old_pre_f.orders_seq(),
            resting_keys_seen(session.spec_buy_book(), old_pre_f),
            resting_keys_seen(session.spec_sell_book(), old_pre_f),
            cancelled_not_resting(old_emitted, session.spec_buy_book()),
            cancelled_not_resting(old_emitted, session.spec_sell_book()),
            cancelled_keys_seen(old_emitted, old_pre_f),
            cancels_after_trades(old_emitted),
            forall|i: int|
                0 <= i < ts.len() ==> ((#[trigger] ts[i]) matches
                    ExecutionTask::NewOrderRejected(x) || ts[i] matches
                    ExecutionTask::CancelRequestRejected(a, b)),
        ensures
            resting_keys_seen(session.spec_buy_book(), new_pre_f),
            resting_keys_seen(session.spec_sell_book(), new_pre_f),
            cancelled_not_resting(old_emitted + ts, session.spec_buy_book()),
            cancelled_not_resting(old_emitted + ts, session.spec_sell_book()),
            cancelled_keys_seen(old_emitted + ts, new_pre_f),
            cancels_after_trades(old_emitted + ts),
    {
        let combined = old_emitted + ts;
        let old_len = old_emitted.len() as int;
        assert(forall|m: int| 0 <= m < old_len ==> combined[m] == old_emitted[m]);
        assert(forall|m: int| old_len <= m < combined.len() ==> combined[m] == ts[m - old_len]);
        assert forall|li: int, k: int|
            0 <= li < session.spec_buy_book().levels().len() && 0 <= k
                < session.spec_buy_book().levels()[li].1.entries().len() implies new_pre_f
            .seen_order(
            order_key(
                (#[trigger] session.spec_buy_book().levels()[li].1.entries()[k]).orig_order.order,
            ),
        ) by {
            assert(old_pre_f.seen_order(
                order_key(session.spec_buy_book().levels()[li].1.entries()[k].orig_order.order),
            ));
        }
        assert forall|li: int, k: int|
            0 <= li < session.spec_sell_book().levels().len() && 0 <= k
                < session.spec_sell_book().levels()[li].1.entries().len() implies new_pre_f
            .seen_order(
            order_key(
                (#[trigger] session.spec_sell_book().levels()[li].1.entries()[k]).orig_order.order,
            ),
        ) by {
            assert(old_pre_f.seen_order(
                order_key(session.spec_sell_book().levels()[li].1.entries()[k].orig_order.order),
            ));
        }
    }

    /// Finishes the session, handing the sink back so its counters can be
    /// read.
    pub fn close(self) -> (sender: ExeSender)
        ensures
            sender == self.spec_sender(),
    {
        self.sender
    }

    /// After the matcher handles an accepted new order: every emitted task
    /// is reportable, the task count stays within the contra book, and the
    /// books keep real sides.
    proof fn lemma_new_order_call(
        pre_session: TradingSession,
        post_session: TradingSession,
        o: NewOrder,
        tasks: Seq<ExecutionTask>,
    )
        requires
            pre_session.wf(),
            side_ok(o.side),
            entries_satisfy(
                pre_session.spec_buy_book(),
                |ord: std::rc::Rc<NewOrderForBook>| order_side_ok(ord),
            ),
            entries_satisfy(
                pre_session.spec_sell_book(),
                |ord: std::rc::Rc<NewOrderForBook>| order_side_ok(ord),
            ),
            exists|arc: Arc<NewOrder>, rco: std::rc::Rc<NewOrderForBook>|
                #[trigger] core_new_order_outcome(pre_session, post_session, o, arc, rco, tasks),
        ensures
            forall|i: int| 0 <= i < tasks.len() ==> task_wf(#[trigger] tasks[i]),
            tasks.len() <= pre_session.contra_book(o.side).book_orders().len() as int + 1,
            entries_satisfy(
                post_session.spec_buy_book(),
                |ord: std::rc::Rc<NewOrderForBook>| order_side_ok(ord),
            ),
            entries_satisfy(
                post_session.spec_sell_book(),
                |ord: std::rc::Rc<NewOrderForBook>| order_side_ok(ord),
            ),
    {
        let p = |ord: std::rc::Rc<NewOrderForBook>| order_side_ok(ord);
        let (arc, rco) = choose|arc: Arc<NewOrder>, rco: std::rc::Rc<NewOrderForBook>|
            #[trigger] core_new_order_outcome(pre_session, post_session, o, arc, rco, tasks);
        let contra = pre_session.contra_book(o.side);
        let cross = pre_session.crossing(o.side, o.price);
        let consumed = consumed_from(cross, o.qty);
        let events = match_events(arc, consumed, o.qty as int);
        let m = contra.spec_multiplier();
        let lk = key_of(o.price, m);

        crate::order_book::lemma_crossing_live(contra.levels(), lk, m);
        lemma_consumed_from_props(cross, o.qty);
        lemma_conservation_in_session(pre_session, arc, o.side);
        lemma_match_events_index(arc, consumed, o.qty as int);
        lemma_crossing_satisfies(contra, lk, p);
        lemma_crossing_len_bounds(contra.levels(), lk, m);
        lemma_flatten_split(contra.levels(), crossing_len(contra.levels(), lk, m));
        assert(cross.len() <= contra.book_orders().len());
        assert(tasks.len() == 1 + consumed.len());

        assert forall|i: int| 0 <= i < tasks.len() implies task_wf(#[trigger] tasks[i]) by {
            if i == 0 {
                assert(tasks[0] == ExecutionTask::NewOrderAccepted(arc));
            } else {
                assert(tasks[i] == events[i - 1]);
                lemma_sum_consumed_nonneg(consumed.take(i - 1));
            }
        }

        let contra_post = post_session.contra_book(o.side);
        let own_pre = pre_session.own_book(o.side);
        let own_post = post_session.own_book(o.side);
        lemma_entries_satisfy_after_consume(contra, contra_post, lk, o.qty, p);
        let left = left_after(cross, o.qty);
        if left > 0 {
            lemma_entries_satisfy_after_insert(
                own_pre,
                own_post,
                OrderWithStatus { leaves_qty: left, orig_order: rco },
                p,
            );
        } else {
            assert(own_post == own_pre);
        }
        if o.side == K_BUY {
            assert(entries_satisfy(post_session.spec_buy_book(), p));
            assert(entries_satisfy(post_session.spec_sell_book(), p));
        } else {
            assert(entries_satisfy(post_session.spec_sell_book(), p));
            assert(entries_satisfy(post_session.spec_buy_book(), p));
        }
    }
}

} // verus!
