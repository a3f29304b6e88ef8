//! The execution reporter: assigns monotonic execution identifiers, builds
//! the outbound report records for each task, encodes them, and hands the
//! bytes to the sink.
//!
//! One identifier is consumed per accepted, rejected, or cancelled order;
//! the three records of a match share a single identifier; the rejection of
//! a cancel carries none.

use vstd::prelude::*;
use crate::types::{
    Qty, Price, OrderID, ClOrdID, PBUID, SecurityID, Side, ExecID, CancelReasonCode, ExeSender,
    K_BUY, K_SELL, K_EXEC_TYPE_NEW, K_EXEC_TYPE_CANCELLED, K_EXEC_TYPE_REJECT, K_EXEC_TYPE_TRADE,
    K_ORD_STATUS_NEW, K_ORD_STATUS_PARTIALLY_FILLED, K_ORD_STATUS_FILLED, K_ORD_STATUS_CANCELLED,
    K_ORD_STATUS_REJECT,
};
use crate::messages::{NewOrder, CancelRequest, ExecutionTask};
use crate::codec::{
    le_bytes, to_unsigned, char_byte, spec_reason_code, framed, lemma_le_bytes_len, push_le_bytes,
    push_le_i64, push_bytes, push_char, push_reason, frame_message,
};

verus! {

/// The execution report for one order event.
pub struct ExecutionReport {
    pub order_id: OrderID,
    pub pbu_id: PBUID,
    pub cl_ord_id: ClOrdID,
    pub orig_cl_ord_id: ClOrdID,
    pub security_id: SecurityID,
    pub side: Side,
    pub price: Price,
    pub qty: Qty,
    pub cum_qty: Qty,
    pub leaves_qty: Qty,
    pub rejected_reason: CancelReasonCode,
    pub exec_type: char,
    pub ord_status: char,
    pub last_px: Price,
    pub last_qty: Qty,
    pub exec_id: ExecID,
}

/// The double-sided capture of one trade.
pub struct TradeCaptureReport {
    pub security_id: SecurityID,
    pub order_id: OrderID,
    pub pbu_id: PBUID,
    pub cl_ord_id: ClOrdID,
    pub exec_id: ExecID,
    pub counterparty_order_id: OrderID,
    pub counterparty_pbu_id: PBUID,
    pub counterparty_cl_ord_id: ClOrdID,
    pub counterparty_exec_id: ExecID,
    pub last_px: Price,
    pub last_qty: Qty,
}

/// The rejection of a cancel request; deliberately without an execution
/// identifier, since no execution took place.
pub struct CancelReject {
    pub order_id: OrderID,
    pub pbu_id: PBUID,
    pub cl_ord_id: ClOrdID,
    pub orig_cl_ord_id: ClOrdID,
    pub security_id: SecurityID,
    pub rejected_reason: CancelReasonCode,
}

/// One outbound record.
pub enum ReportRecord {
    Execution(ExecutionReport),
    TradeCapture(TradeCaptureReport),
    Reject(CancelReject),
}

impl ExecutionReport {
    /// The base report for an order: its own fields carried over, every
    /// event field at its default.
    #[verifier::loop_isolation(false)]
    pub fn new(order: &NewOrder) -> (r: ExecutionReport)
        ensures
            base_report_for(r, *order),
            r.cum_qty == 0,
            r.leaves_qty == 0,
            r.rejected_reason == CancelReasonCode::Passed,
            r.exec_type == ' ',
            r.ord_status == ' ',
            r.last_px == 0,
            r.last_qty == 0,
            r.exec_id == 0,
    {
        let report = ExecutionReport {
            order_id: order.order_id,
            pbu_id: order.pbu_id,
            cl_ord_id: order.cl_ord_id,
            orig_cl_ord_id: [32u8; 10],
            security_id: order.security_id,
            side: order.side,
            price: order.price,
            qty: order.qty,
            cum_qty: 0,
            leaves_qty: 0,
            rejected_reason: CancelReasonCode::Passed,
            exec_type: ' ',
            ord_status: ' ',
            last_px: 0,
            last_qty: 0,
            exec_id: 0,
        };
        proof {
            assert(report.orig_cl_ord_id@ =~= Seq::new(10, |i: int| 32u8));
        }
        report
    }
}

/// The identity fields every report of an order carries.
pub open spec fn base_report_for(r: ExecutionReport, order: NewOrder) -> bool {
    &&& r.order_id == order.order_id
    &&& r.pbu_id == order.pbu_id
    &&& r.cl_ord_id == order.cl_ord_id
    &&& r.orig_cl_ord_id@ == Seq::new(10, |i: int| 32u8)
    &&& r.security_id == order.security_id
    &&& r.side == order.side
    &&& r.price == order.price
    &&& r.qty == order.qty
}

/// The acknowledgement of a newly accepted order.
pub open spec fn is_accept_report(r: ExecutionReport, order: NewOrder, eid: ExecID) -> bool {
    &&& base_report_for(r, order)
    &&& r.leaves_qty == order.qty
    &&& r.cum_qty == 0
    &&& r.exec_type == K_EXEC_TYPE_NEW
    &&& r.ord_status == K_ORD_STATUS_NEW
    &&& r.rejected_reason == CancelReasonCode::Passed
    &&& r.last_px == 0
    &&& r.last_qty == 0
    &&& r.exec_id == eid
}

/// The rejection of a new order.
pub open spec fn is_reject_report(
    r: ExecutionReport,
    reason: CancelReasonCode,
    order: NewOrder,
    eid: ExecID,
) -> bool {
    &&& base_report_for(r, order)
    &&& r.leaves_qty == order.qty
    &&& r.cum_qty == 0
    &&& r.exec_type == K_EXEC_TYPE_REJECT
    &&& r.ord_status == K_ORD_STATUS_REJECT
    &&& r.rejected_reason == reason
    &&& r.last_px == 0
    &&& r.last_qty == 0
    &&& r.exec_id == eid
}

/// One side's fill report for a trade: filled when nothing is left, else
/// partially filled, with the cumulative quantity balancing the remainder.
pub open spec fn is_trade_report(
    r: ExecutionReport,
    last_px: Price,
    last_qty: Qty,
    leaves_qty: Qty,
    order: NewOrder,
    eid: ExecID,
) -> bool {
    &&& base_report_for(r, order)
    &&& r.exec_type == K_EXEC_TYPE_TRADE
    &&& r.ord_status == (if leaves_qty == 0 {
        K_ORD_STATUS_FILLED
    } else {
        K_ORD_STATUS_PARTIALLY_FILLED
    })
    &&& r.cum_qty == order.qty - leaves_qty
    &&& r.leaves_qty == leaves_qty
    &&& r.rejected_reason == CancelReasonCode::Passed
    &&& r.last_px == last_px
    &&& r.last_qty == last_qty
    &&& r.exec_id == eid
}

/// The report closing out a cancelled order, naming both the cancel's and
/// the order's client identifiers.
pub open spec fn is_cancelled_report(
    r: ExecutionReport,
    leaves_qty: Qty,
    cancel: CancelRequest,
    order: NewOrder,
    eid: ExecID,
) -> bool {
    &&& r.order_id == order.order_id
    &&& r.pbu_id == order.pbu_id
    &&& r.cl_ord_id == cancel.cl_ord_id
    &&& r.orig_cl_ord_id == order.cl_ord_id
    &&& r.security_id == order.security_id
    &&& r.side == order.side
    &&& r.price == order.price
    &&& r.qty == order.qty
    &&& r.exec_type == K_EXEC_TYPE_CANCELLED
    &&& r.ord_status == K_ORD_STATUS_CANCELLED
    &&& r.cum_qty == order.qty - leaves_qty
    &&& r.leaves_qty == 0
    &&& r.rejected_reason == CancelReasonCode::Passed
    &&& r.last_px == 0
    &&& r.last_qty == 0
    &&& r.exec_id == eid
}

/// The trade capture pairing aggressor and counterparty under one execution
/// identifier.
pub open spec fn is_trade_capture(
    t: TradeCaptureReport,
    last_px: Price,
    last_qty: Qty,
    order: NewOrder,
    counterparty: NewOrder,
    eid: ExecID,
) -> bool {
    &&& t.security_id == order.security_id
    &&& t.order_id == order.order_id
    &&& t.pbu_id == order.pbu_id
    &&& t.cl_ord_id == order.cl_ord_id
    &&& t.exec_id == eid
    &&& t.counterparty_order_id == counterparty.order_id
    &&& t.counterparty_pbu_id == counterparty.pbu_id
    &&& t.counterparty_cl_ord_id == counterparty.cl_ord_id
    &&& t.counterparty_exec_id == eid
    &&& t.last_px == last_px
    &&& t.last_qty == last_qty
}

/// The rejection record for a cancel, copied from the request.
pub open spec fn is_cancel_reject(
    r: CancelReject,
    reason: CancelReasonCode,
    cancel: CancelRequest,
) -> bool {
    &&& r.order_id == cancel.order_id
    &&& r.pbu_id == cancel.pbu_id
    &&& r.cl_ord_id == cancel.cl_ord_id
    &&& r.orig_cl_ord_id == cancel.orig_cl_ord_id
    &&& r.security_id == cancel.security_id
    &&& r.rejected_reason == reason
}

/// What the reporter owes for one task: which records leave, with which
/// identifiers.
pub open spec fn records_ok(task: ExecutionTask, eid: ExecID, records: Seq<ReportRecord>) -> bool {
    match task {
        ExecutionTask::NewOrderAccepted(o) => {
            &&& records.len() == 1
            &&& records[0] matches ReportRecord::Execution(r) && is_accept_report(
                r,
                *o,
                (eid + 1) as ExecID,
            )
        },
        ExecutionTask::NewOrderRejected((reason, o)) => {
            &&& records.len() == 1
            &&& records[0] matches ReportRecord::Execution(r) && is_reject_report(
                r,
                reason,
                *o,
                (eid + 1) as ExecID,
            )
        },
        ExecutionTask::NewoOrderMatched(info) => {
            &&& records.len() == 3
            &&& records[0] matches ReportRecord::Execution(r1) && is_trade_report(
                r1,
                info.last_px,
                info.last_qty,
                info.leaves_qty1,
                *info.order1,
                (eid + 1) as ExecID,
            )
            &&& records[1] matches ReportRecord::Execution(r2) && is_trade_report(
                r2,
                info.last_px,
                info.last_qty,
                info.leaves_qty2,
                *info.order2,
                (eid + 1) as ExecID,
            )
            &&& records[2] matches ReportRecord::TradeCapture(t) && is_trade_capture(
                t,
                info.last_px,
                info.last_qty,
                *info.order1,
                *info.order2,
                (eid + 1) as ExecID,
            )
        },
        ExecutionTask::CancelRequestAccepted(leaves_qty, cancel, o) => {
            &&& records.len() == 1
            &&& records[0] matches ReportRecord::Execution(r) && is_cancelled_report(
                r,
                leaves_qty,
                *cancel,
                *o,
                (eid + 1) as ExecID,
            )
        },
        ExecutionTask::CancelRequestRejected(reason, cancel) => {
            &&& records.len() == 1
            &&& records[0] matches ReportRecord::Reject(r) && is_cancel_reject(r, reason, *cancel)
        },
    }
}

/// The identifier counter after one task: bumped once per stateful
/// execution, untouched by the rejection of a cancel.
pub open spec fn exec_id_after(task: ExecutionTask, eid: ExecID) -> ExecID {
    match task {
        ExecutionTask::CancelRequestRejected(_, _) => eid,
        _ => (eid + 1) as ExecID,
    }
}

/// What must hold of a task for its reports to be well-formed: sides are
/// real sides and remainders never exceed original quantities.
pub open spec fn task_wf(task: ExecutionTask) -> bool {
    match task {
        ExecutionTask::NewOrderAccepted(o) => o.side == K_BUY || o.side == K_SELL,
        ExecutionTask::NewOrderRejected((_, o)) => o.side == K_BUY || o.side == K_SELL,
        ExecutionTask::NewoOrderMatched(info) => {
            &&& (info.order1.side == K_BUY || info.order1.side == K_SELL)
            &&& (info.order2.side == K_BUY || info.order2.side == K_SELL)
            &&& info.leaves_qty1 <= info.order1.qty
            &&& info.leaves_qty2 <= info.order2.qty
        },
        ExecutionTask::CancelRequestAccepted(leaves_qty, _, o) => {
            &&& (o.side == K_BUY || o.side == K_SELL)
            &&& leaves_qty <= o.qty
        },
        ExecutionTask::CancelRequestRejected(_, _) => true,
    }
}

/// Identifiers never decrease from one record to the next, where both carry
/// one.
pub open spec fn exec_ids_ordered(a: Option<ExecID>, b: Option<ExecID>) -> bool {
    match (a, b) {
        (Some(e1), Some(e2)) => e1 <= e2,
        _ => true,
    }
}

/// The execution identifier one record carries, if it carries one.
pub open spec fn record_exec_id(record: ReportRecord) -> Option<ExecID> {
    match record {
        ReportRecord::Execution(r) => Some(r.exec_id),
        ReportRecord::TradeCapture(t) => Some(t.exec_id),
        ReportRecord::Reject(_) => None,
    }
}

/// Law: execution identifiers are monotonic. Every identifier-bearing
/// record of one task carries exactly the counter bumped once past its
/// predecessor -- so the three records of a match share one identifier, a
/// stateful report advances it by exactly one, and across consecutive tasks
/// the identifiers never decrease.
pub proof fn lemma_exec_id_monotonic(
    t1: ExecutionTask,
    t2: ExecutionTask,
    eid: ExecID,
    r1: Seq<ReportRecord>,
    r2: Seq<ReportRecord>,
)
    requires
        eid + 2 <= ExecID::MAX,
        records_ok(t1, eid, r1),
        records_ok(t2, exec_id_after(t1, eid), r2),
    ensures
        forall|i: int|
            0 <= i < r1.len() ==> ((#[trigger] record_exec_id(r1[i])) matches Some(e) ==> e == eid
                + 1),
        forall|j: int|
            0 <= j < r2.len() ==> ((#[trigger] record_exec_id(r2[j])) matches Some(e) ==> e
                == exec_id_after(t1, eid) + 1),
        forall|i: int, j: int|
            0 <= i < r1.len() && 0 <= j < r2.len() ==> exec_ids_ordered(
                #[trigger] record_exec_id(r1[i]),
                #[trigger] record_exec_id(r2[j]),
            ),
{
    assert forall|i: int| 0 <= i < r1.len() implies ((#[trigger] record_exec_id(r1[i])) matches
        Some(e) ==> e == eid + 1) by {
        assert(i == 0 || i == 1 || i == 2);
    }
    assert forall|j: int| 0 <= j < r2.len() implies ((#[trigger] record_exec_id(r2[j])) matches
        Some(e) ==> e == exec_id_after(t1, eid) + 1) by {
        assert(j == 0 || j == 1 || j == 2);
    }
}

/// The payload of an execution report on the wire.
pub open spec fn spec_encode_execution_report(r: ExecutionReport) -> Seq<u8> {
    le_bytes(r.order_id as int, 16) + r.pbu_id@ + r.cl_ord_id@ + r.orig_cl_ord_id@
        + r.security_id@ + seq![char_byte(r.side)] + le_bytes(to_unsigned(r.price), 8) + le_bytes(
        r.qty as int,
        8,
    ) + le_bytes(r.cum_qty as int, 8) + le_bytes(r.leaves_qty as int, 8) + le_bytes(
        spec_reason_code(r.rejected_reason) as int,
        4,
    ) + seq![char_byte(r.exec_type)] + seq![char_byte(r.ord_status)] + le_bytes(
        to_unsigned(r.last_px),
        8,
    ) + le_bytes(r.last_qty as int, 8) + le_bytes(r.exec_id as int, 16)
}

/// The payload of a trade capture on the wire.
pub open spec fn spec_encode_trade_capture(t: TradeCaptureReport) -> Seq<u8> {
    t.security_id@ + le_bytes(t.order_id as int, 16) + t.pbu_id@ + t.cl_ord_id@ + le_bytes(
        t.exec_id as int,
        16,
    ) + le_bytes(t.counterparty_order_id as int, 16) + t.counterparty_pbu_id@
        + t.counterparty_cl_ord_id@ + le_bytes(t.counterparty_exec_id as int, 16) + le_bytes(
        to_unsigned(t.last_px),
        8,
    ) + le_bytes(t.last_qty as int, 8)
}

/// The payload of a cancel rejection on the wire.
pub open spec fn spec_encode_cancel_reject(r: CancelReject) -> Seq<u8> {
    le_bytes(r.order_id as int, 16) + r.pbu_id@ + r.cl_ord_id@ + r.orig_cl_ord_id@
        + r.security_id@ + le_bytes(spec_reason_code(r.rejected_reason) as int, 4)
}

/// The complete framed message of one record.
pub open spec fn record_bytes(record: ReportRecord) -> Seq<u8> {
    match record {
        ReportRecord::Execution(r) => framed(spec_encode_execution_report(r)),
        ReportRecord::TradeCapture(t) => framed(spec_encode_trade_capture(t)),
        ReportRecord::Reject(r) => framed(spec_encode_cancel_reject(r)),
    }
}

/// Total bytes a list of records puts on the wire.
pub open spec fn total_record_bytes(records: Seq<ReportRecord>) -> int
    decreases records.len(),
{
    if records.len() == 0 {
        0
    } else {
        record_bytes(records[0]).len() + total_record_bytes(records.drop_first())
    }
}

/// A report's character fields are ASCII, as the wire format requires.
pub open spec fn report_chars_ok(r: ExecutionReport) -> bool {
    &&& (r.side as u32) < 128
    &&& (r.exec_type as u32) < 128
    &&& (r.ord_status as u32) < 128
}

proof fn lemma_execution_report_len(r: ExecutionReport)
    ensures
        spec_encode_execution_report(r).len() == 121,
{
    lemma_le_bytes_len(r.order_id as int, 16);
    lemma_le_bytes_len(to_unsigned(r.price), 8);
    lemma_le_bytes_len(r.qty as int, 8);
    lemma_le_bytes_len(r.cum_qty as int, 8);
    lemma_le_bytes_len(r.leaves_qty as int, 8);
    lemma_le_bytes_len(spec_reason_code(r.rejected_reason) as int, 4);
    lemma_le_bytes_len(to_unsigned(r.last_px), 8);
    lemma_le_bytes_len(r.last_qty as int, 8);
    lemma_le_bytes_len(r.exec_id as int, 16);
}

proof fn lemma_trade_capture_len(t: TradeCaptureReport)
    ensures
        spec_encode_trade_capture(t).len() == 120,
{
    lemma_le_bytes_len(t.order_id as int, 16);
    lemma_le_bytes_len(t.exec_id as int, 16);
    lemma_le_bytes_len(t.counterparty_order_id as int, 16);
    lemma_le_bytes_len(t.counterparty_exec_id as int, 16);
    lemma_le_bytes_len(to_unsigned(t.last_px), 8);
    lemma_le_bytes_len(t.last_qty as int, 8);
}

proof fn lemma_cancel_reject_len(r: CancelReject)
    ensures
        spec_encode_cancel_reject(r).len() == 54,
{
    lemma_le_bytes_len(r.order_id as int, 16);
    lemma_le_bytes_len(spec_reason_code(r.rejected_reason) as int, 4);
}

/// Encodes an execution report as a framed message.
fn encode_execution_report(r: &ExecutionReport) -> (message: Vec<u8>)
    requires
        report_chars_ok(*r),
    ensures
        message@ == framed(spec_encode_execution_report(*r)),
{
    let mut payload: Vec<u8> = Vec::new();
    push_le_bytes(r.order_id, 16, &mut payload);
    push_bytes(&r.pbu_id, &mut payload);
    push_bytes(&r.cl_ord_id, &mut payload);
    push_bytes(&r.orig_cl_ord_id, &mut payload);
    push_bytes(&r.security_id, &mut payload);
    push_char(r.side, &mut payload);
    push_le_i64(r.price, &mut payload);
    push_le_bytes(r.qty as u128, 8, &mut payload);
    push_le_bytes(r.cum_qty as u128, 8, &mut payload);
    push_le_bytes(r.leaves_qty as u128, 8, &mut payload);
    push_reason(&r.rejected_reason, &mut payload);
    push_char(r.exec_type, &mut payload);
    push_char(r.ord_status, &mut payload);
    push_le_i64(r.last_px, &mut payload);
    push_le_bytes(r.last_qty as u128, 8, &mut payload);
    push_le_bytes(r.exec_id, 16, &mut payload);
    proof {
        lemma_execution_report_len(*r);
    }
    frame_message(payload)
}

/// Encodes a trade capture as a framed message.
fn encode_trade_capture(t: &TradeCaptureReport) -> (message: Vec<u8>)
    ensures
        message@ == framed(spec_encode_trade_capture(*t)),
{
    let mut payload: Vec<u8> = Vec::new();
    push_bytes(&t.security_id, &mut payload);
    push_le_bytes(t.order_id, 16, &mut payload);
    push_bytes(&t.pbu_id, &mut payload);
    push_bytes(&t.cl_ord_id, &mut payload);
    push_le_bytes(t.exec_id, 16, &mut payload);
    push_le_bytes(t.counterparty_order_id, 16, &mut payload);
    push_bytes(&t.counterparty_pbu_id, &mut payload);
    push_bytes(&t.counterparty_cl_ord_id, &mut payload);
    push_le_bytes(t.counterparty_exec_id, 16, &mut payload);
    push_le_i64(t.last_px, &mut payload);
    push_le_bytes(t.last_qty as u128, 8, &mut payload);
    proof {
        lemma_trade_capture_len(*t);
    }
    frame_message(payload)
}

/// Encodes a cancel rejection as a framed message.
fn encode_cancel_reject(r: &CancelReject) -> (message: Vec<u8>)
    ensures
        message@ == framed(spec_encode_cancel_reject(*r)),
{
    let mut payload: Vec<u8> = Vec::new();
    push_le_bytes(r.order_id, 16, &mut payload);
    push_bytes(&r.pbu_id, &mut payload);
    push_bytes(&r.cl_ord_id, &mut payload);
    push_bytes(&r.orig_cl_ord_id, &mut payload);
    push_bytes(&r.security_id, &mut payload);
    push_reason(&r.rejected_reason, &mut payload);
    proof {
        lemma_cancel_reject_len(*r);
    }
    frame_message(payload)
}

/// The reporter's state: the last execution identifier handed out, and the
/// (ghost) stream of records it has put on the wire, in order.
pub struct ExeProcessor {
    exec_id: ExecID,
    outbound: Ghost<Seq<ReportRecord>>,
}

impl ExeProcessor {
    pub closed spec fn spec_exec_id(&self) -> ExecID {
        self.exec_id
    }

    /// Every record handed to the sink so far, in sending order.
    pub closed spec fn spec_outbound(&self) -> Seq<ReportRecord> {
        self.outbound@
    }

    /// Law: execution identifiers are monotonic over the whole outbound
    /// stream. Every identifier a sent record carries is positive, never
    /// ahead of the counter, and never decreases from one record to a later
    /// one.
    pub open spec fn wf(&self) -> bool {
        &&& forall|i: int, j: int|
            0 <= i <= j < self.spec_outbound().len() ==> exec_ids_ordered(
                record_exec_id(#[trigger] self.spec_outbound()[i]),
                record_exec_id(#[trigger] self.spec_outbound()[j]),
            )
        &&& forall|i: int|
            0 <= i < self.spec_outbound().len() ==> ((#[trigger] record_exec_id(
                self.spec_outbound()[i],
            )) matches Some(e) ==> 1 <= e <= self.spec_exec_id())
    }

    pub fn new() -> (p: ExeProcessor)
        ensures
            p.wf(),
            p.spec_exec_id() == 0,
            p.spec_outbound() =~= Seq::<ReportRecord>::empty(),
    {
        ExeProcessor { exec_id: 0, outbound: Ghost(Seq::empty()) }
    }

    /// The last execution identifier handed out.
    pub fn exec_id(&self) -> (id: ExecID)
        ensures
            id == self.spec_exec_id(),
    {
        self.exec_id
    }

    /// Builds the outbound records for one task, consuming execution
    /// identifiers as the task requires.
    pub fn make_records(&mut self, task: &ExecutionTask) -> (records: Vec<ReportRecord>)
        requires
            task_wf(*task),
            old(self).spec_exec_id() < ExecID::MAX,
        ensures
            final(self).spec_exec_id() == exec_id_after(*task, old(self).spec_exec_id()),
            final(self).spec_outbound() == old(self).spec_outbound(),
            records_ok(*task, old(self).spec_exec_id(), records@),
            forall|i: int|
                0 <= i < records@.len() ==> ((#[trigger] records@[i]) matches
                ReportRecord::Execution(r) ==> report_chars_ok(r)),
    {
        let mut records: Vec<ReportRecord> = Vec::new();
        match task {
            ExecutionTask::NewOrderAccepted(order) => {
                self.exec_id += 1;
                let mut report = ExecutionReport::new(&**order);
                report.leaves_qty = order.qty;
                report.exec_type = K_EXEC_TYPE_NEW;
                report.ord_status = K_ORD_STATUS_NEW;
                report.exec_id = self.exec_id;
                records.push(ReportRecord::Execution(report));
            },
            ExecutionTask::NewOrderRejected((reason, order)) => {
                self.exec_id += 1;
                let mut report = ExecutionReport::new(&**order);
                report.leaves_qty = order.qty;
                report.exec_type = K_EXEC_TYPE_REJECT;
                report.ord_status = K_ORD_STATUS_REJECT;
                report.rejected_reason = *reason;
                report.exec_id = self.exec_id;
                records.push(ReportRecord::Execution(report));
            },
            ExecutionTask::NewoOrderMatched(info) => {
                self.exec_id += 1;
                let report1 = trade_report(
                    info.last_px,
                    info.last_qty,
                    info.leaves_qty1,
                    &*info.order1,
                    self.exec_id,
                );
                let report2 = trade_report(
                    info.last_px,
                    info.last_qty,
                    info.leaves_qty2,
                    &*info.order2,
                    self.exec_id,
                );
                let tcr = TradeCaptureReport {
                    security_id: info.order1.security_id,
                    order_id: info.order1.order_id,
                    pbu_id: info.order1.pbu_id,
                    cl_ord_id: info.order1.cl_ord_id,
                    exec_id: self.exec_id,
                    counterparty_order_id: info.order2.order_id,
                    counterparty_pbu_id: info.order2.pbu_id,
                    counterparty_cl_ord_id: info.order2.cl_ord_id,
                    counterparty_exec_id: self.exec_id,
                    last_px: info.last_px,
                    last_qty: info.last_qty,
                };
                records.push(ReportRecord::Execution(report1));
                records.push(ReportRecord::Execution(report2));
                records.push(ReportRecord::TradeCapture(tcr));
            },
            ExecutionTask::CancelRequestAccepted(leaves_qty, cancel_request, order) => {
                self.exec_id += 1;
                let mut report = ExecutionReport::new(&**order);
                report.cl_ord_id = cancel_request.cl_ord_id;
                report.orig_cl_ord_id = order.cl_ord_id;
                report.exec_type = K_EXEC_TYPE_CANCELLED;
                report.ord_status = K_ORD_STATUS_CANCELLED;
                report.cum_qty = order.qty - *leaves_qty;
                report.exec_id = self.exec_id;
                records.push(ReportRecord::Execution(report));
            },
            ExecutionTask::CancelRequestRejected(reason, cancel_request) => {
                let report = CancelReject {
                    order_id: cancel_request.order_id,
                    pbu_id: cancel_request.pbu_id,
                    cl_ord_id: cancel_request.cl_ord_id,
                    orig_cl_ord_id: cancel_request.orig_cl_ord_id,
                    security_id: cancel_request.security_id,
                    rejected_reason: *reason,
                };
                records.push(ReportRecord::Reject(report));
            },
        }
        records
    }

    /// Handles one task end to end: builds its records, appends them to the
    /// outbound stream, encodes each, and hands the bytes to the sink in
    /// record order.
    pub fn process(&mut self, task: ExecutionTask, sender: &mut ExeSender)
        requires
            old(self).wf(),
            task_wf(task),
            old(self).spec_exec_id() < ExecID::MAX,
            old(sender).count + 3 <= u32::MAX,
            old(sender).bytes + 400 <= usize::MAX,
        ensures
            final(self).wf(),
            final(self).spec_exec_id() == exec_id_after(task, old(self).spec_exec_id()),
            final(sender).count == old(sender).count + records_count_for(task),
            final(sender).bytes == old(sender).bytes + message_bytes_for(task),
            exists|records: Seq<ReportRecord>|
                {
                    &&& #[trigger] records_ok(task, old(self).spec_exec_id(), records)
                    &&& final(self).spec_outbound() == old(self).spec_outbound() + records
                },
    {
        let records = self.make_records(&task);
        proof {
            self.outbound@ = self.outbound@ + records@;
            let pre = old(self).spec_outbound();
            let combined = pre + records@;
            assert(self.spec_outbound() == combined);
            assert forall|i: int, j: int| 0 <= i <= j < self.spec_outbound().len() implies
                exec_ids_ordered(
                    record_exec_id(#[trigger] self.spec_outbound()[i]),
                    record_exec_id(#[trigger] self.spec_outbound()[j]),
                ) by {
                let pre_len = pre.len();
                if i < pre_len && j >= pre_len {
                    assert(combined[i] == pre[i]);
                    assert(combined[j] == records@[j - pre_len]);
                    assert(j - pre_len == 0 || j - pre_len == 1 || j - pre_len == 2);
                } else if i >= pre_len {
                    assert(combined[i] == records@[i - pre_len]);
                    assert(combined[j] == records@[j - pre_len]);
                    assert(i - pre_len == 0 || i - pre_len == 1 || i - pre_len == 2);
                    assert(j - pre_len == 0 || j - pre_len == 1 || j - pre_len == 2);
                } else {
                    assert(combined[i] == pre[i]);
                    assert(combined[j] == pre[j]);
                }
            }
            assert forall|i: int| 0 <= i < self.spec_outbound().len() implies ((
            #[trigger] record_exec_id(self.spec_outbound()[i])) matches Some(e) ==> 1 <= e
                <= self.spec_exec_id()) by {
                let pre_len = pre.len();
                if i >= pre_len {
                    assert(combined[i] == records@[i - pre_len]);
                    assert(i - pre_len == 0 || i - pre_len == 1 || i - pre_len == 2);
                } else {
                    assert(combined[i] == pre[i]);
                }
            }
        }
        let ghost records_view = records@;
        let ghost count0 = sender.count;
        let ghost bytes0 = sender.bytes;
        let mut i: usize = 0;
        while i < records.len()
            invariant
                records@ == records_view,
                records_ok(task, old(self).spec_exec_id(), records_view),
                forall|j: int|
                    0 <= j < records_view.len() ==> ((#[trigger] records_view[j]) matches
                    ReportRecord::Execution(r) ==> report_chars_ok(r)),
                i <= records_view.len(),
                records_view.len() <= 3,
                sender.count == count0 + i,
                count0 + 3 <= u32::MAX,
                bytes0 + 400 <= usize::MAX,
                sender.bytes == bytes0 + total_record_bytes(records_view.take(i as int)),
                total_record_bytes(records_view.take(i as int)) <= i * 125,
            decreases records_view.len() - i,
        {
            proof {
                lemma_total_record_bytes_take(records_view, i as int);
            }
            let message = match &records[i] {
                ReportRecord::Execution(r) => encode_execution_report(r),
                ReportRecord::TradeCapture(t) => encode_trade_capture(t),
                ReportRecord::Reject(r) => encode_cancel_reject(r),
            };
            proof {
                match records_view[i as int] {
                    ReportRecord::Execution(r) => lemma_execution_report_len(r),
                    ReportRecord::TradeCapture(t) => lemma_trade_capture_len(t),
                    ReportRecord::Reject(r) => lemma_cancel_reject_len(r),
                }
                lemma_le_bytes_len(record_payload_len(records_view[i as int]), 4);
            }
            sender.send(message);
            i += 1;
        }
        proof {
            assert(records_view.take(records_view.len() as int) =~= records_view);
            lemma_records_total(task, old(self).spec_exec_id(), records_view);
        }
    }
}

/// How many records one task produces.
pub open spec fn records_count_for(task: ExecutionTask) -> int {
    match task {
        ExecutionTask::NewoOrderMatched(_) => 3,
        _ => 1,
    }
}

/// How many bytes one task puts on the wire, framing included.
pub open spec fn message_bytes_for(task: ExecutionTask) -> int {
    match task {
        ExecutionTask::NewoOrderMatched(_) => 374,
        ExecutionTask::CancelRequestRejected(_, _) => 58,
        _ => 125,
    }
}

/// How many records a whole task sequence produces.
pub open spec fn total_records_count(tasks: Seq<ExecutionTask>) -> int
    decreases tasks.len(),
{
    if tasks.len() == 0 {
        0
    } else {
        records_count_for(tasks[0]) + total_records_count(tasks.drop_first())
    }
}

/// How many bytes a whole task sequence puts on the wire.
pub open spec fn total_message_bytes(tasks: Seq<ExecutionTask>) -> int
    decreases tasks.len(),
{
    if tasks.len() == 0 {
        0
    } else {
        message_bytes_for(tasks[0]) + total_message_bytes(tasks.drop_first())
    }
}

/// The identifier counter after a whole task sequence.
pub open spec fn exec_id_after_seq(tasks: Seq<ExecutionTask>, eid: ExecID) -> ExecID
    decreases tasks.len(),
{
    if tasks.len() == 0 {
        eid
    } else {
        exec_id_after_seq(tasks.drop_first(), exec_id_after(tasks[0], eid))
    }
}

/// Per-task record and byte counts are bounded, so a sequence's totals are.
pub proof fn lemma_task_totals_bounds(tasks: Seq<ExecutionTask>)
    ensures
        0 <= total_records_count(tasks) <= 3 * tasks.len(),
        0 <= total_message_bytes(tasks) <= 400 * tasks.len(),
    decreases tasks.len(),
{
    if tasks.len() > 0 {
        lemma_task_totals_bounds(tasks.drop_first());
    }
}

/// The records a task owes put exactly its owed bytes on the wire.
proof fn lemma_records_total(task: ExecutionTask, eid: ExecID, records: Seq<ReportRecord>)
    requires
        records_ok(task, eid, records),
    ensures
        records.len() == records_count_for(task),
        total_record_bytes(records) == message_bytes_for(task),
{
    lemma_le_bytes_len(121, 4);
    lemma_le_bytes_len(120, 4);
    lemma_le_bytes_len(54, 4);
    if records.len() == 1 {
        assert(records.drop_first() =~= Seq::<ReportRecord>::empty());
        match records[0] {
            ReportRecord::Execution(r) => lemma_execution_report_len(r),
            ReportRecord::TradeCapture(t) => lemma_trade_capture_len(t),
            ReportRecord::Reject(r) => lemma_cancel_reject_len(r),
        }
        assert(total_record_bytes(records.drop_first()) == 0);
        assert(total_record_bytes(records) == record_bytes(records[0]).len()
            + total_record_bytes(records.drop_first()));
    } else {
        assert(records.len() == 3);
        let r0 = records[0];
        let r1 = records[1];
        let r2 = records[2];
        match r0 {
            ReportRecord::Execution(r) => lemma_execution_report_len(r),
            ReportRecord::TradeCapture(t) => lemma_trade_capture_len(t),
            ReportRecord::Reject(r) => lemma_cancel_reject_len(r),
        }
        match r1 {
            ReportRecord::Execution(r) => lemma_execution_report_len(r),
            ReportRecord::TradeCapture(t) => lemma_trade_capture_len(t),
            ReportRecord::Reject(r) => lemma_cancel_reject_len(r),
        }
        match r2 {
            ReportRecord::Execution(r) => lemma_execution_report_len(r),
            ReportRecord::TradeCapture(t) => lemma_trade_capture_len(t),
            ReportRecord::Reject(r) => lemma_cancel_reject_len(r),
        }
        assert(records.drop_first()[0] == r1);
        assert(records.drop_first().drop_first()[0] == r2);
        assert(records.drop_first().drop_first().drop_first() =~= Seq::<ReportRecord>::empty());
        assert(total_record_bytes(records.drop_first().drop_first().drop_first()) == 0);
        assert(total_record_bytes(records.drop_first().drop_first()) == record_bytes(r2).len()
            + total_record_bytes(records.drop_first().drop_first().drop_first()));
        assert(total_record_bytes(records.drop_first()) == record_bytes(r1).len()
            + total_record_bytes(records.drop_first().drop_first()));
        assert(total_record_bytes(records) == record_bytes(r0).len() + total_record_bytes(
            records.drop_first(),
        ));
    }
}

/// The payload length of a record, before framing.
pub open spec fn record_payload_len(record: ReportRecord) -> int {
    match record {
        ReportRecord::Execution(_) => 121,
        ReportRecord::TradeCapture(_) => 120,
        ReportRecord::Reject(_) => 54,
    }
}

/// Taking one more record adds its bytes.
proof fn lemma_total_record_bytes_take(records: Seq<ReportRecord>, i: int)
    requires
        0 <= i < records.len(),
    ensures
        total_record_bytes(records.take(i + 1)) == total_record_bytes(records.take(i))
            + record_bytes(records[i]).len(),
        record_bytes(records[i]).len() <= 125,
    decreases i,
{
    match records[i] {
        ReportRecord::Execution(r) => {
            lemma_execution_report_len(r);
            lemma_le_bytes_len(121, 4);
        },
        ReportRecord::TradeCapture(t) => {
            lemma_trade_capture_len(t);
            lemma_le_bytes_len(120, 4);
        },
        ReportRecord::Reject(r) => {
            lemma_cancel_reject_len(r);
            lemma_le_bytes_len(54, 4);
        },
    }
    if i == 0 {
        assert(records.take(0) =~= Seq::<ReportRecord>::empty());
        assert(records.take(1) =~= Seq::<ReportRecord>::empty().push(records[0]));
        assert(records.take(1).drop_first() =~= Seq::<ReportRecord>::empty());
    } else {
        assert(records.take(i + 1)[0] == records[0]);
        assert(records.take(i + 1).drop_first() =~= records.drop_first().take(i));
        assert(records.take(i).drop_first() =~= records.drop_first().take(i - 1));
        assert(records.take(i)[0] == records[0]);
        lemma_total_record_bytes_take(records.drop_first(), i - 1);
        assert(records.drop_first()[i - 1] == records[i]);
    }
}

/// Builds the fill report for one side of a trade.
fn trade_report(last_px: Price, last_qty: Qty, leaves_qty: Qty, order: &NewOrder, eid: ExecID) -> (
    r: ExecutionReport)
    requires
        leaves_qty <= order.qty,
    ensures
        is_trade_report(r, last_px, last_qty, leaves_qty, *order, eid),
        (order.side == K_BUY || order.side == K_SELL) ==> report_chars_ok(r),
{
    let mut report = ExecutionReport::new(order);
    report.exec_type = K_EXEC_TYPE_TRADE;
    if leaves_qty == 0 {
        report.ord_status = K_ORD_STATUS_FILLED;
    } else {
        report.ord_status = K_ORD_STATUS_PARTIALLY_FILLED;
    }
    report.cum_qty = order.qty - leaves_qty;
    report.leaves_qty = leaves_qty;
    report.last_px = last_px;
    report.last_qty = last_qty;
    report.exec_id = eid;
    report
}

} // verus!
