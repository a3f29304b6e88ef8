//! The messages that flow between pipeline stages: client commands, the
//! tagged tasks each stage hands to the next, and match-event payloads.

use vstd::prelude::*;
use vstd::string::StringSliceAdditionalSpecFns;
use std::sync::Arc;
use crate::types::{
    Qty, Price, OrderID, ClOrdID, PBUID, SecurityID, Side, CancelReasonCode, to_array,
};

verus! {

/// A client's new-order command.
pub struct NewOrder {
    pub order_id: OrderID,
    pub pbu_id: PBUID,
    pub cl_ord_id: ClOrdID,
    pub security_id: SecurityID,
    pub side: Side,
    pub price: Price,
    pub qty: Qty,
}

impl NewOrder {
    /// The minimum a later cancel needs to locate this order in its book.
    pub fn get_info_for_cancel(&self) -> (info: OrigOrderInfoForCancel)
        ensures
            info == self.spec_info_for_cancel(),
    {
        OrigOrderInfoForCancel {
            security_id: self.security_id,
            order_id: self.order_id,
            side: self.side,
            price: self.price,
        }
    }

    pub open spec fn spec_info_for_cancel(&self) -> OrigOrderInfoForCancel {
        OrigOrderInfoForCancel {
            security_id: self.security_id,
            order_id: self.order_id,
            side: self.side,
            price: self.price,
        }
    }
}

/// A client's cancel command, referring to an earlier order of the same
/// participant by its client identifier.
pub struct CancelRequest {
    pub order_id: OrderID,
    pub pbu_id: PBUID,
    pub cl_ord_id: ClOrdID,
    pub orig_cl_ord_id: ClOrdID,
    pub security_id: SecurityID,
}

/// What a cancel needs to locate the resting order: kept by the
/// pre-processor for every accepted order.
pub struct OrigOrderInfoForCancel {
    pub security_id: SecurityID,
    pub order_id: OrderID,
    pub side: Side,
    pub price: Price,
}

impl OrigOrderInfoForCancel {
    pub fn clone(&self) -> (info: OrigOrderInfoForCancel)
        ensures
            info == *self,
    {
        OrigOrderInfoForCancel {
            security_id: self.security_id,
            order_id: self.order_id,
            side: self.side,
            price: self.price,
        }
    }
}

/// Inbound command surface of the pre-processor.
pub enum PreProcessorTask {
    NewOrder(Box<NewOrder>),
    CancelRequest(Box<CancelRequest>),
}

/// What the pre-processor hands to the risk-check stage.
pub enum RcProcessorTask {
    NewOrder(Box<NewOrder>),
    NewOrderRejected((CancelReasonCode, Box<NewOrder>)),
    CancelRequest(OrigOrderInfoForCancel, Box<CancelRequest>),
    CancelRequestRejected((CancelReasonCode, Box<CancelRequest>)),
}

/// Outcome of the risk checks; the extension point for future pre-trade
/// checks, carried through even while empty.
pub struct RcResult;

/// What the risk-check stage hands to the core matcher.
pub enum CoreProcessorTask {
    NewOrder(Box<NewOrder>, Box<RcResult>),
    NewOrderRejected((CancelReasonCode, Box<NewOrder>)),
    CancelRequest(OrigOrderInfoForCancel, Box<CancelRequest>),
    CancelRequestRejected((CancelReasonCode, Box<CancelRequest>)),
}

/// One match between an aggressor (`order1`) and a resting order (`order2`):
/// the traded quantity, the trade price, and both remainders.
pub struct OrderMatchedInfo {
    pub order1: Arc<NewOrder>,
    pub leaves_qty1: Qty,
    pub order2: Arc<NewOrder>,
    pub leaves_qty2: Qty,
    pub last_px: Price,
    pub last_qty: Qty,
}

/// What the core matcher hands to the execution reporter.
pub enum ExecutionTask {
    NewOrderAccepted(Arc<NewOrder>),
    NewOrderRejected((CancelReasonCode, Box<NewOrder>)),
    CancelRequestAccepted(Qty, Box<CancelRequest>, Arc<NewOrder>),
    CancelRequestRejected(CancelReasonCode, Box<CancelRequest>),
    NewoOrderMatched(OrderMatchedInfo),
}

/// The decimal digits of a number, most significant first.
pub open spec fn dec_bytes(v: OrderID) -> Seq<u8>
    decreases v,
{
    if v < 10 {
        seq![(48 + v) as u8]
    } else {
        dec_bytes(v / 10).push((48 + v % 10) as u8)
    }
}

fn push_dec_digits(v: OrderID, out: &mut Vec<u8>)
    ensures
        final(out)@ == old(out)@ + dec_bytes(v),
    decreases v,
{
    if v < 10 {
        out.push(48 + v as u8);
        proof {
            assert(out@ =~= old(out)@ + dec_bytes(v));
        }
    } else {
        push_dec_digits(v / 10, out);
        out.push(48 + (v % 10) as u8);
        proof {
            assert(out@ =~= old(out)@ + dec_bytes(v));
        }
    }
}

/// A client-order-identifier field holding the decimal digits of a number,
/// truncated to ten bytes and space-padded.
fn dec_cl_ord_id(v: OrderID) -> (result: ClOrdID)
    ensures
        forall|i: int|
            0 <= i < 10 ==> result@[i] == (if i < dec_bytes(v).len() {
                dec_bytes(v)[i]
            } else {
                32u8
            }),
{
    let mut digits: Vec<u8> = Vec::new();
    push_dec_digits(v, &mut digits);
    let mut result: ClOrdID = [32u8; 10];
    let mut i: usize = 0;
    while i < 10 && i < digits.len()
        invariant
            i <= 10,
            digits@ == dec_bytes(v),
            forall|j: int|
                0 <= j < 10 ==> result@[j] == (if j < i && j < digits@.len() {
                    digits@[j]
                } else {
                    32u8
                }),
        decreases 10 - i,
    {
        result[i] = digits[i];
        i += 1;
    }
    result
}

/// The participant code the generator stamps on every order, as bytes.
proof fn lemma_pbu_literal_bytes()
    ensures
        "PBU001".spec_bytes().len() == 6,
        "PBU001".spec_bytes() =~= seq![80u8, 66u8, 85u8, 48u8, 48u8, 49u8],
{
    reveal_strlit("PBU001");
    let chars = "PBU001"@;
    assert(vstd::utf8::is_ascii_chars(chars)) by {
        assert forall|i: int| 0 <= i < chars.len() implies '\0' <= #[trigger] chars[i]
            <= '\u{7f}' by {
            assert(i == 0 || i == 1 || i == 2 || i == 3 || i == 4 || i == 5);
        }
    }
    vstd::utf8::is_ascii_chars_encode_utf8(chars);
    assert("PBU001".spec_bytes() =~= seq![80u8, 66u8, 85u8, 48u8, 48u8, 49u8]);
}

/// The empty instrument code encodes to no bytes at all.
proof fn lemma_empty_literal_bytes()
    ensures
        "".spec_bytes().len() == 0,
{
    reveal_strlit("");
    let chars = ""@;
    assert(vstd::utf8::is_ascii_chars(chars));
    vstd::utf8::is_ascii_chars_encode_utf8(chars);
}

/// Deterministic generator of well-formed orders and matching cancels, for
/// exercising the engine.
pub struct OrderGen {
    pub order_id: OrderID,
}

impl OrderGen {
    pub fn new() -> (generator: OrderGen)
        ensures
            generator.order_id == 0,
    {
        OrderGen { order_id: 0 }
    }

    pub fn gen_order(&mut self, side: Side, price: Price, qty: Qty) -> (order: Box<NewOrder>)
        requires
            old(self).order_id < OrderID::MAX,
        ensures
            final(self).order_id == old(self).order_id + 1,
            order.order_id == final(self).order_id,
            order.side == side,
            order.price == price,
            order.qty == qty,
            order.pbu_id@ == seq![80u8, 66u8, 85u8, 48u8, 48u8, 49u8],
            order.security_id@ == Seq::new(8, |i: int| 32u8),
            forall|i: int|
                0 <= i < 10 ==> order.cl_ord_id@[i] == (if i < dec_bytes(
                    (old(self).order_id + 1) as OrderID,
                ).len() {
                    dec_bytes((old(self).order_id + 1) as OrderID)[i]
                } else {
                    32u8
                }),
    {
        self.order_id += 1;

        let pbu_id = to_array("PBU001");
        let security_id = to_array("");
        proof {
            lemma_pbu_literal_bytes();
            lemma_empty_literal_bytes();
            assert(pbu_id@ =~= seq![80u8, 66u8, 85u8, 48u8, 48u8, 49u8]);
            assert(security_id@ =~= Seq::new(8, |i: int| 32u8));
        }
        Box::new(
            NewOrder {
                order_id: self.order_id,
                pbu_id,
                cl_ord_id: dec_cl_ord_id(self.order_id),
                security_id,
                side,
                price,
                qty,
            },
        )
    }

    pub fn get_cancel_request(&mut self, orig_order: &Box<NewOrder>) -> (cancel: Box<CancelRequest>)
        requires
            old(self).order_id < OrderID::MAX,
        ensures
            final(self).order_id == old(self).order_id + 1,
            cancel.order_id == final(self).order_id,
            cancel.pbu_id == orig_order.pbu_id,
            cancel.orig_cl_ord_id == orig_order.cl_ord_id,
            cancel.security_id == orig_order.security_id,
            forall|i: int|
                0 <= i < 10 ==> cancel.cl_ord_id@[i] == (if i < dec_bytes(
                    (old(self).order_id + 1) as OrderID,
                ).len() {
                    dec_bytes((old(self).order_id + 1) as OrderID)[i]
                } else {
                    32u8
                }),
    {
        self.order_id += 1;
        Box::new(
            CancelRequest {
                order_id: self.order_id,
                pbu_id: orig_order.pbu_id,
                cl_ord_id: dec_cl_ord_id(self.order_id),
                orig_cl_ord_id: orig_order.cl_ord_id,
                security_id: orig_order.security_id,
            },
        )
    }
}

} // verus!
