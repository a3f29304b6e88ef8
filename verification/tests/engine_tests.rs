use std::sync::Arc;

use trading::core_processor::CoreProcessor;
use trading::exe_processor::{ExeProcessor, ReportRecord};
use trading::messages::{
    CancelRequest, CoreProcessorTask, ExecutionTask, NewOrder, PreProcessorTask, RcProcessorTask,
    RcResult,
};
use trading::pre_processor::PreProcessor;
use trading::rc_processor::RcProcessor;
use trading::trading_session::TradingSession;
use trading::types::{
    to_array, CancelReasonCode, ExeSender, Price, Qty, Side, K_BUY, K_SELL,
};

fn assert_cancel_reason(task: &RcProcessorTask, code: CancelReasonCode) {
    match task {
        RcProcessorTask::NewOrderRejected((tmp_code, _)) => {
            if code == *tmp_code {
            } else {
                assert!(false);
            }
        }
        RcProcessorTask::CancelRequestRejected((tmp_code, _)) => {
            if code == *tmp_code {
            } else {
                assert!(false);
            }
        }
        _ => assert!(false),
    }
}

#[test]
fn pre_processor_test_new_order() {
    let mut p = PreProcessor::new();

    let order = Box::new(NewOrder {
        pbu_id: to_array("000100"),
        cl_ord_id: to_array("123"),
        order_id: 0,
        security_id: to_array("SEC001"),
        price: 100,
        qty: 100,
        side: 'B',
    });
    let task = PreProcessorTask::NewOrder(order);
    let task = p.process(task);
    if let RcProcessorTask::NewOrder(_) = task {
    } else {
        assert!(false)
    }

    let order = Box::new(NewOrder {
        pbu_id: to_array("000100"),
        cl_ord_id: to_array("124"),
        order_id: 1,
        security_id: to_array("SEC001"),
        price: 110,
        qty: 100,
        side: 'B',
    });
    let task = PreProcessorTask::NewOrder(order);
    let task = p.process(task);
    if let RcProcessorTask::NewOrder(_) = task {
    } else {
        assert!(false)
    }

    let order = Box::new(NewOrder {
        pbu_id: to_array("000100"),
        cl_ord_id: to_array("123"),
        order_id: 0,
        security_id: to_array("SEC001"),
        price: 100,
        qty: 100,
        side: 'B',
    });
    let task = PreProcessorTask::NewOrder(order);
    let task = p.process(task);
    assert_cancel_reason(&task, CancelReasonCode::Duplicated);

    let cancel = Box::new(CancelRequest {
        pbu_id: to_array("000100"),
        cl_ord_id: to_array("123"),
        order_id: 0,
        security_id: to_array("SEC001"),
        orig_cl_ord_id: to_array("124"),
    });
    let task = PreProcessorTask::CancelRequest(cancel);
    let task = p.process(task);
    assert_cancel_reason(&task, CancelReasonCode::Duplicated);

    let cancel = Box::new(CancelRequest {
        pbu_id: to_array("000100"),
        cl_ord_id: to_array("125"),
        order_id: 0,
        security_id: to_array("SEC002"),
        orig_cl_ord_id: to_array("124"),
    });
    let task = PreProcessorTask::CancelRequest(cancel);
    let task = p.process(task);
    assert_cancel_reason(&task, CancelReasonCode::InvalidSecurity);

    let cancel = Box::new(CancelRequest {
        pbu_id: to_array("000100"),
        cl_ord_id: to_array("125"),
        order_id: 0,
        security_id: to_array("SEC001"),
        orig_cl_ord_id: to_array("124"),
    });
    let task = PreProcessorTask::CancelRequest(cancel);
    let task = p.process(task);
    assert_cancel_reason(&task, CancelReasonCode::Duplicated);

    let cancel = Box::new(CancelRequest {
        pbu_id: to_array("000100"),
        cl_ord_id: to_array("126"),
        order_id: 0,
        security_id: to_array("SEC001"),
        orig_cl_ord_id: to_array("124"),
    });
    let task = PreProcessorTask::CancelRequest(cancel);
    let task = p.process(task);
    if let RcProcessorTask::CancelRequest(info, _) = task {
        assert_eq!(info.security_id, to_array("SEC001"));
        assert_eq!(info.price, 110);
        assert_eq!(info.order_id, 1);
        assert_eq!(info.side, K_BUY);
    } else {
        assert!(false);
    }

    let order = Box::new(NewOrder {
        pbu_id: to_array("000100"),
        cl_ord_id: to_array("126"),
        order_id: 0,
        security_id: to_array("SEC001"),
        price: 100,
        qty: 100,
        side: 'B',
    });
    let task = PreProcessorTask::NewOrder(order);
    let task = p.process(task);
    assert_cancel_reason(&task, CancelReasonCode::Duplicated);
}

struct OrderGen {
    order_id: u128,
}

impl OrderGen {
    fn new() -> OrderGen {
        OrderGen { order_id: 0 }
    }
    fn gen_order(&mut self, side: Side, price: Price, qty: Qty) -> Arc<NewOrder> {
        self.order_id += 1;

        Arc::new(NewOrder {
            order_id: self.order_id,
            pbu_id: to_array("PBU001"),
            cl_ord_id: to_array(""),
            security_id: to_array(""),
            side,
            price,
            qty,
        })
    }
}

fn assert_order_matched_execution(
    task: &ExecutionTask,
    last_px: Price,
    last_qty: Qty,
    leaves_qty1: Qty,
    leaves_qty2: Qty,
) {
    match task {
        ExecutionTask::NewoOrderMatched(info) => {
            assert_eq!(info.last_px, last_px);
            assert_eq!(info.last_qty, last_qty);
            assert_eq!(info.leaves_qty1, leaves_qty1);
            assert_eq!(info.leaves_qty2, leaves_qty2);
        }
        _ => assert!(false),
    }
}

#[test]
fn trading_session_test_new_order() {
    let mut gen = OrderGen::new();
    let mut session = TradingSession::new();

    let order = gen.gen_order(K_BUY, 20, 50);
    session.process_new_order(order, Box::new(RcResult {}));
    let order = gen.gen_order(K_BUY, 30, 50);
    session.process_new_order(order, Box::new(RcResult {}));
    let order = gen.gen_order(K_BUY, 40, 50);
    session.process_new_order(order, Box::new(RcResult {}));

    let order = gen.gen_order(K_SELL, 15, 120);
    let consumed_orders = session.process_new_order(order, Box::new(RcResult {}));
    assert_order_matched_execution(&consumed_orders[0], 40, 50, 70, 0);
    assert_order_matched_execution(&consumed_orders[1], 30, 50, 20, 0);
    assert_order_matched_execution(&consumed_orders[2], 20, 20, 0, 30);
}

fn new_order(id: u128, cl: &str, side: char, price: i64, qty: u64) -> Box<NewOrder> {
    Box::new(NewOrder {
        order_id: id,
        pbu_id: to_array("000100"),
        cl_ord_id: to_array(cl),
        security_id: to_array("SEC001"),
        side,
        price,
        qty,
    })
}

// Runs a command through the first three stages and hands back the core's
// execution tasks.
fn run_core(
    pre: &mut PreProcessor,
    rc: &mut RcProcessor,
    core: &mut CoreProcessor,
    task: PreProcessorTask,
) -> Vec<ExecutionTask> {
    let task = pre.process(task);
    let task = rc.process(task);
    core.process(task)
}

#[test]
fn basic_cross_scenario() {
    let mut pre = PreProcessor::new();
    let mut rc = RcProcessor::new();
    let mut core = CoreProcessor::new();

    let tasks = run_core(
        &mut pre,
        &mut rc,
        &mut core,
        PreProcessorTask::NewOrder(new_order(1, "123", K_BUY, 100, 30)),
    );
    assert_eq!(tasks.len(), 1);
    match &tasks[0] {
        ExecutionTask::NewOrderAccepted(o) => assert_eq!(o.qty, 30),
        _ => assert!(false),
    }

    let tasks = run_core(
        &mut pre,
        &mut rc,
        &mut core,
        PreProcessorTask::NewOrder(new_order(2, "124", K_BUY, 110, 50)),
    );
    assert_eq!(tasks.len(), 1);

    let tasks = run_core(
        &mut pre,
        &mut rc,
        &mut core,
        PreProcessorTask::NewOrder(new_order(3, "125", K_SELL, 100, 120)),
    );
    assert_eq!(tasks.len(), 3);
    match &tasks[0] {
        ExecutionTask::NewOrderAccepted(o) => assert_eq!(o.order_id, 3),
        _ => assert!(false),
    }
    assert_order_matched_execution(&tasks[1], 110, 50, 70, 0);
    assert_order_matched_execution(&tasks[2], 100, 30, 40, 0);
    match &tasks[1] {
        ExecutionTask::NewoOrderMatched(info) => {
            assert_eq!(info.order1.order_id, 3);
            assert_eq!(info.order2.order_id, 2);
        }
        _ => assert!(false),
    }
}

#[test]
fn cancel_after_partial_fill_scenario() {
    let mut pre = PreProcessor::new();
    let mut rc = RcProcessor::new();
    let mut core = CoreProcessor::new();

    run_core(
        &mut pre,
        &mut rc,
        &mut core,
        PreProcessorTask::NewOrder(new_order(1, "123", K_BUY, 100, 30)),
    );
    run_core(
        &mut pre,
        &mut rc,
        &mut core,
        PreProcessorTask::NewOrder(new_order(2, "124", K_BUY, 110, 50)),
    );
    run_core(
        &mut pre,
        &mut rc,
        &mut core,
        PreProcessorTask::NewOrder(new_order(3, "125", K_SELL, 100, 120)),
    );

    let cancel = Box::new(CancelRequest {
        order_id: 4,
        pbu_id: to_array("000100"),
        cl_ord_id: to_array("C1"),
        orig_cl_ord_id: to_array("125"),
        security_id: to_array("SEC001"),
    });
    let tasks = run_core(&mut pre, &mut rc, &mut core, PreProcessorTask::CancelRequest(cancel));
    assert_eq!(tasks.len(), 1);
    match &tasks[0] {
        ExecutionTask::CancelRequestAccepted(leaves, _, o) => {
            assert_eq!(*leaves, 40);
            assert_eq!(o.order_id, 3);
        }
        _ => assert!(false),
    }

    // The sell book is now empty: a second cancel of the same order misses.
    let cancel = Box::new(CancelRequest {
        order_id: 5,
        pbu_id: to_array("000100"),
        cl_ord_id: to_array("C2"),
        orig_cl_ord_id: to_array("125"),
        security_id: to_array("SEC001"),
    });
    let tasks = run_core(&mut pre, &mut rc, &mut core, PreProcessorTask::CancelRequest(cancel));
    match &tasks[0] {
        ExecutionTask::CancelRequestRejected(code, _) => {
            assert_eq!(*code, CancelReasonCode::OrderNotExisted)
        }
        _ => assert!(false),
    }
}

#[test]
fn cancel_missing_order_scenario() {
    let mut pre = PreProcessor::new();
    let mut rc = RcProcessor::new();
    let mut core = CoreProcessor::new();

    let cancel = Box::new(CancelRequest {
        order_id: 1,
        pbu_id: to_array("000100"),
        cl_ord_id: to_array("Y"),
        orig_cl_ord_id: to_array("999"),
        security_id: to_array("SEC001"),
    });
    let tasks = run_core(&mut pre, &mut rc, &mut core, PreProcessorTask::CancelRequest(cancel));
    assert_eq!(tasks.len(), 1);
    match &tasks[0] {
        ExecutionTask::CancelRequestRejected(code, _) => {
            assert_eq!(*code, CancelReasonCode::OrderNotExisted)
        }
        _ => assert!(false),
    }
}

#[test]
fn sweep_through_multiple_levels_scenario() {
    let mut pre = PreProcessor::new();
    let mut rc = RcProcessor::new();
    let mut core = CoreProcessor::new();

    let resting = [
        (1u128, "a1", 100i64, 10u64),
        (2, "a2", 100, 10),
        (3, "a3", 101, 10),
        (4, "a4", 101, 10),
        (5, "a5", 102, 10),
    ];
    for (id, cl, px, qty) in resting.iter() {
        run_core(
            &mut pre,
            &mut rc,
            &mut core,
            PreProcessorTask::NewOrder(new_order(*id, cl, K_BUY, *px, *qty)),
        );
    }

    let tasks = run_core(
        &mut pre,
        &mut rc,
        &mut core,
        PreProcessorTask::NewOrder(new_order(6, "s1", K_SELL, 101, 100)),
    );
    // Accept, then three fills best-price-first at the resting prices: the
    // buy at 102 trades first, then the two at 101; the buys at 100 do not
    // cross the sell's limit, so the remaining 70 rest in the sell book.
    assert_eq!(tasks.len(), 4);
    assert_order_matched_execution(&tasks[1], 102, 10, 90, 0);
    assert_order_matched_execution(&tasks[2], 101, 10, 80, 0);
    assert_order_matched_execution(&tasks[3], 101, 10, 70, 0);
}

#[test]
fn exec_ids_assigned_per_event() {
    let mut exe = ExeProcessor::new();

    let order = Arc::new(NewOrder {
        order_id: 7,
        pbu_id: to_array("000100"),
        cl_ord_id: to_array("777"),
        security_id: to_array("SEC001"),
        side: K_BUY,
        price: 55,
        qty: 40,
    });
    let records = exe.make_records(&ExecutionTask::NewOrderAccepted(order.clone()));
    assert_eq!(records.len(), 1);
    match &records[0] {
        ReportRecord::Execution(r) => {
            assert_eq!(r.exec_id, 1);
            assert_eq!(r.leaves_qty, 40);
            assert_eq!(r.cum_qty, 0);
            assert_eq!(r.exec_type, '0');
            assert_eq!(r.ord_status, '0');
            assert_eq!(r.rejected_reason, CancelReasonCode::Passed);
        }
        _ => assert!(false),
    }

    let other = Arc::new(NewOrder {
        order_id: 8,
        pbu_id: to_array("000200"),
        cl_ord_id: to_array("888"),
        security_id: to_array("SEC001"),
        side: K_SELL,
        price: 55,
        qty: 60,
    });
    let matched = ExecutionTask::NewoOrderMatched(trading::messages::OrderMatchedInfo {
        order1: other.clone(),
        leaves_qty1: 20,
        order2: order.clone(),
        leaves_qty2: 0,
        last_px: 55,
        last_qty: 40,
    });
    let records = exe.make_records(&matched);
    assert_eq!(records.len(), 3);
    let id1 = match &records[0] {
        ReportRecord::Execution(r) => {
            assert_eq!(r.ord_status, '1');
            assert_eq!(r.cum_qty, 40);
            r.exec_id
        }
        _ => panic!(),
    };
    let id2 = match &records[1] {
        ReportRecord::Execution(r) => {
            assert_eq!(r.ord_status, '2');
            assert_eq!(r.cum_qty, 40);
            r.exec_id
        }
        _ => panic!(),
    };
    let id3 = match &records[2] {
        ReportRecord::TradeCapture(t) => {
            assert_eq!(t.counterparty_exec_id, t.exec_id);
            t.exec_id
        }
        _ => panic!(),
    };
    // The three records of one match share a single fresh identifier.
    assert_eq!(id1, 2);
    assert_eq!(id2, 2);
    assert_eq!(id3, 2);

    // A cancel rejection consumes no identifier.
    let cancel = Box::new(CancelRequest {
        order_id: 9,
        pbu_id: to_array("000100"),
        cl_ord_id: to_array("999"),
        orig_cl_ord_id: to_array("777"),
        security_id: to_array("SEC001"),
    });
    let records = exe.make_records(&ExecutionTask::CancelRequestRejected(
        CancelReasonCode::Duplicated,
        cancel,
    ));
    assert_eq!(records.len(), 1);
    match &records[0] {
        ReportRecord::Reject(r) => assert_eq!(r.rejected_reason, CancelReasonCode::Duplicated),
        _ => assert!(false),
    }
    let records = exe.make_records(&ExecutionTask::NewOrderAccepted(order.clone()));
    match &records[0] {
        ReportRecord::Execution(r) => assert_eq!(r.exec_id, 3),
        _ => assert!(false),
    }
}

#[test]
fn sink_counts_encoded_bytes() {
    let mut exe = ExeProcessor::new();
    let mut sender = ExeSender::new();

    let order = Arc::new(NewOrder {
        order_id: 1,
        pbu_id: to_array("000100"),
        cl_ord_id: to_array("123"),
        security_id: to_array("SEC001"),
        side: K_BUY,
        price: -5,
        qty: 30,
    });
    exe.process(ExecutionTask::NewOrderAccepted(order.clone()), &mut sender);
    // One execution report: 121 payload bytes behind a 4-byte length prefix.
    assert_eq!(sender.count, 1);
    assert_eq!(sender.bytes, 125);

    let cancel = Box::new(CancelRequest {
        order_id: 2,
        pbu_id: to_array("000100"),
        cl_ord_id: to_array("124"),
        orig_cl_ord_id: to_array("999"),
        security_id: to_array("SEC001"),
    });
    exe.process(
        ExecutionTask::CancelRequestRejected(CancelReasonCode::OrderNotExisted, cancel),
        &mut sender,
    );
    // A cancel rejection: 54 payload bytes behind the prefix.
    assert_eq!(sender.count, 2);
    assert_eq!(sender.bytes, 125 + 58);

    let matched = ExecutionTask::NewoOrderMatched(trading::messages::OrderMatchedInfo {
        order1: order.clone(),
        leaves_qty1: 0,
        order2: order.clone(),
        leaves_qty2: 0,
        last_px: -5,
        last_qty: 30,
    });
    exe.process(matched, &mut sender);
    assert_eq!(sender.count, 5);
    assert_eq!(sender.bytes, 125 + 58 + 374);
}

#[test]
fn conservation_round_trip() {
    // For one order, the cumulative quantity observed in reports equals its
    // quantity minus what is left at termination.
    let mut pre = PreProcessor::new();
    let mut rc = RcProcessor::new();
    let mut core = CoreProcessor::new();

    run_core(
        &mut pre,
        &mut rc,
        &mut core,
        PreProcessorTask::NewOrder(new_order(1, "b1", K_BUY, 100, 10)),
    );
    let tasks = run_core(
        &mut pre,
        &mut rc,
        &mut core,
        PreProcessorTask::NewOrder(new_order(2, "s1", K_SELL, 90, 4)),
    );
    let mut traded_against_1: u64 = 0;
    for task in &tasks {
        if let ExecutionTask::NewoOrderMatched(info) = task {
            assert_eq!(info.order2.order_id, 1);
            traded_against_1 += info.last_qty;
        }
    }
    assert_eq!(traded_against_1, 4);

    let cancel = Box::new(CancelRequest {
        order_id: 3,
        pbu_id: to_array("000100"),
        cl_ord_id: to_array("c1"),
        orig_cl_ord_id: to_array("b1"),
        security_id: to_array("SEC001"),
    });
    let tasks = run_core(&mut pre, &mut rc, &mut core, PreProcessorTask::CancelRequest(cancel));
    match &tasks[0] {
        ExecutionTask::CancelRequestAccepted(leaves, _, o) => {
            // leaves at termination + what traded == original quantity
            assert_eq!(*leaves + traded_against_1, o.qty);
            assert_eq!(*leaves, 6);
        }
        _ => assert!(false),
    }
}

#[test]
fn duplicate_new_order_rejected() {
    let mut pre = PreProcessor::new();

    let task = pre.process(PreProcessorTask::NewOrder(new_order(1, "777", K_BUY, 10, 5)));
    match task {
        RcProcessorTask::NewOrder(_) => {}
        _ => assert!(false),
    }
    let task = pre.process(PreProcessorTask::NewOrder(new_order(2, "777", K_BUY, 10, 5)));
    match task {
        RcProcessorTask::NewOrderRejected((code, _)) => {
            assert_eq!(code, CancelReasonCode::Duplicated)
        }
        _ => assert!(false),
    }
}

#[test]
fn cancel_reject_encoding_is_exact() {
    let mut exe = ExeProcessor::new();
    let mut sender = ExeSender::new();
    let cancel = Box::new(CancelRequest {
        order_id: 0x0102,
        pbu_id: to_array("PBUXYZ"),
        cl_ord_id: to_array("CL1"),
        orig_cl_ord_id: to_array("CL0"),
        security_id: to_array("SECURITY"),
    });
    exe.process(
        ExecutionTask::CancelRequestRejected(CancelReasonCode::InvalidSecurity, cancel),
        &mut sender,
    );
    // 4-byte length prefix (54), then order id (16 LE), three padded string
    // fields, and the reason code (2) in 4 LE bytes.
    let mut expected: Vec<u8> = Vec::new();
    expected.extend_from_slice(&[54, 0, 0, 0]);
    expected.extend_from_slice(&[0x02, 0x01]);
    expected.extend_from_slice(&[0u8; 14]);
    expected.extend_from_slice(b"PBUXYZ");
    expected.extend_from_slice(b"CL1       ");
    expected.extend_from_slice(b"CL0       ");
    expected.extend_from_slice(b"SECURITY");
    expected.extend_from_slice(&[2, 0, 0, 0]);
    assert_eq!(sender.bytes, expected.len());

    // Rebuild the same payload through the codec primitives and compare
    // byte for byte.
    let mut built: Vec<u8> = Vec::new();
    trading::codec::push_le_bytes(0x0102u128, 16, &mut built);
    let pbu: [u8; 6] = to_array("PBUXYZ");
    let cl: [u8; 10] = to_array("CL1");
    let orig_cl: [u8; 10] = to_array("CL0");
    let sec: [u8; 8] = to_array("SECURITY");
    trading::codec::push_bytes(&pbu, &mut built);
    trading::codec::push_bytes(&cl, &mut built);
    trading::codec::push_bytes(&orig_cl, &mut built);
    trading::codec::push_bytes(&sec, &mut built);
    trading::codec::push_reason(&CancelReasonCode::InvalidSecurity, &mut built);
    let framed = trading::codec::frame_message(built);
    assert_eq!(framed, expected);
}

#[test]
fn order_generator_is_deterministic() {
    let mut gen = trading::messages::OrderGen::new();
    let order = gen.gen_order(K_BUY, 100, 30);
    assert_eq!(order.order_id, 1);
    assert_eq!(&order.cl_ord_id, b"1         ");
    assert_eq!(&order.pbu_id, b"PBU001");
    let order = gen.gen_order(K_SELL, 90, 10);
    assert_eq!(order.order_id, 2);
    assert_eq!(&order.cl_ord_id, b"2         ");
    let cancel = gen.get_cancel_request(&order);
    assert_eq!(cancel.order_id, 3);
    assert_eq!(cancel.orig_cl_ord_id, order.cl_ord_id);
    assert_eq!(cancel.security_id, order.security_id);
}

#[test]
fn to_array_pads_and_truncates() {
    let a: [u8; 6] = to_array("AB");
    assert_eq!(&a, b"AB    ");
    let b: [u8; 4] = to_array("ABCDEFG");
    assert_eq!(&b, b"ABCD");
    let c: [u8; 3] = to_array("");
    assert_eq!(&c, b"   ");
}

#[test]
fn zero_quantity_order_trades_and_rests_nothing() {
    let mut pre = PreProcessor::new();
    let mut rc = RcProcessor::new();
    let mut core = CoreProcessor::new();

    run_core(
        &mut pre,
        &mut rc,
        &mut core,
        PreProcessorTask::NewOrder(new_order(1, "r1", K_BUY, 100, 10)),
    );
    // A zero-quantity sell is acknowledged but consumes nothing and rests
    // nothing.
    let tasks = run_core(
        &mut pre,
        &mut rc,
        &mut core,
        PreProcessorTask::NewOrder(new_order(2, "z1", K_SELL, 100, 0)),
    );
    assert_eq!(tasks.len(), 1);
    match &tasks[0] {
        ExecutionTask::NewOrderAccepted(o) => assert_eq!(o.qty, 0),
        _ => assert!(false),
    }
    // The resting buy is still whole.
    let tasks = run_core(
        &mut pre,
        &mut rc,
        &mut core,
        PreProcessorTask::NewOrder(new_order(3, "s2", K_SELL, 100, 10)),
    );
    assert_eq!(tasks.len(), 2);
    assert_order_matched_execution(&tasks[1], 100, 10, 0, 0);
}

#[test]
fn sequential_engine_end_to_end() {
    // The verified engine surface: commands in, counted records out.
    let mut engine = trading::engine::Engine::new(ExeSender::new());

    engine.process(PreProcessorTask::NewOrder(new_order(1, "123", K_BUY, 100, 30)));
    engine.process(PreProcessorTask::NewOrder(new_order(2, "124", K_BUY, 110, 50)));
    engine.process(PreProcessorTask::NewOrder(new_order(3, "125", K_SELL, 100, 120)));
    engine.process(PreProcessorTask::CancelRequest(Box::new(CancelRequest {
        order_id: 4,
        pbu_id: to_array("000100"),
        cl_ord_id: to_array("C1"),
        orig_cl_ord_id: to_array("125"),
        security_id: to_array("SEC001"),
    })));

    let sender = engine.close();
    // Three accepts, two matches of three records each, one cancel accept:
    // ten records in all.
    assert_eq!(sender.count, 10);
    assert_eq!(sender.bytes, 3 * 125 + 2 * 374 + 125);
}
