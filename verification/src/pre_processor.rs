//! The pre-processor: a monotonic duplicate filter over `(PBUID, ClOrdID)`
//! keys, and the pairing of cancel requests with the orders they target.
//!
//! It never forgets a key: a duplicate new order or cancel never mutates
//! state and is rejected deterministically.

use vstd::prelude::*;
use crate::types::{ClOrdID, PBUID, CancelReasonCode};
use crate::messages::{
    NewOrder, CancelRequest, OrigOrderInfoForCancel, PreProcessorTask, RcProcessorTask,
};

verus! {

/// The spec-level key of a command: the participant and its client order
/// identifier, as byte sequences.
pub open spec fn key_view(pbu: PBUID, cl: ClOrdID) -> (Seq<u8>, Seq<u8>) {
    (pbu@, cl@)
}

/// Index of the first record under a key, or -1 when none is.
pub open spec fn find_info(
    s: Seq<((PBUID, ClOrdID), OrigOrderInfoForCancel)>,
    k: (Seq<u8>, Seq<u8>),
) -> int
    decreases s.len(),
{
    if s.len() == 0 {
        -1
    } else if key_view(s[0].0.0, s[0].0.1) == k {
        0
    } else {
        let r = find_info(s.drop_first(), k);
        if r == -1 {
            -1
        } else {
            r + 1
        }
    }
}

/// Index of the first key in a key list, or -1 when none matches.
pub open spec fn find_key(s: Seq<(PBUID, ClOrdID)>, k: (Seq<u8>, Seq<u8>)) -> int
    decreases s.len(),
{
    if s.len() == 0 {
        -1
    } else if key_view(s[0].0, s[0].1) == k {
        0
    } else {
        let r = find_key(s.drop_first(), k);
        if r == -1 {
            -1
        } else {
            r + 1
        }
    }
}

pub proof fn lemma_find_info_spec(
    s: Seq<((PBUID, ClOrdID), OrigOrderInfoForCancel)>,
    k: (Seq<u8>, Seq<u8>),
)
    ensures
        find_info(s, k) == -1 ==> forall|j: int|
            0 <= j < s.len() ==> key_view((#[trigger] s[j]).0.0, s[j].0.1) != k,
        find_info(s, k) != -1 ==> {
            &&& 0 <= find_info(s, k) < s.len()
            &&& key_view(s[find_info(s, k)].0.0, s[find_info(s, k)].0.1) == k
            &&& forall|j: int|
                0 <= j < find_info(s, k) ==> key_view((#[trigger] s[j]).0.0, s[j].0.1) != k
        },
    decreases s.len(),
{
    if s.len() > 0 {
        lemma_find_info_spec(s.drop_first(), k);
        assert(forall|j: int| 1 <= j < s.len() ==> s[j] == s.drop_first()[j - 1]);
    }
}

pub proof fn lemma_find_key_spec(s: Seq<(PBUID, ClOrdID)>, k: (Seq<u8>, Seq<u8>))
    ensures
        find_key(s, k) == -1 ==> forall|j: int|
            0 <= j < s.len() ==> key_view((#[trigger] s[j]).0, s[j].1) != k,
        find_key(s, k) != -1 ==> {
            &&& 0 <= find_key(s, k) < s.len()
            &&& key_view(s[find_key(s, k)].0, s[find_key(s, k)].1) == k
        },
    decreases s.len(),
{
    if s.len() > 0 {
        lemma_find_key_spec(s.drop_first(), k);
        assert(forall|j: int| 1 <= j < s.len() ==> s[j] == s.drop_first()[j - 1]);
    }
}

/// Byte-for-byte equality of two fixed-width fields.
fn eq_bytes<const N: usize>(a: &[u8; N], b: &[u8; N]) -> (r: bool)
    ensures
        r == (a@ == b@),
{
    let mut i: usize = 0;
    while i < N
        invariant
            i <= N,
            forall|j: int| 0 <= j < i ==> a@[j] == b@[j],
        decreases N - i,
    {
        if a[i] != b[i] {
            return false;
        }
        i += 1;
    }
    proof {
        assert(a@ =~= b@);
    }
    true
}

/// Duplicate detection and cancel-order pairing: the first pipeline stage.
pub struct PreProcessor {
    new_orders: Vec<((PBUID, ClOrdID), OrigOrderInfoForCancel)>,
    cancel_requests: Vec<(PBUID, ClOrdID)>,
}

impl PreProcessor {
    pub closed spec fn orders_seq(&self) -> Seq<((PBUID, ClOrdID), OrigOrderInfoForCancel)> {
        self.new_orders@
    }

    pub closed spec fn cancels_seq(&self) -> Seq<(PBUID, ClOrdID)> {
        self.cancel_requests@
    }

    /// Whether an order under this key has been accepted before.
    pub open spec fn seen_order(&self, k: (Seq<u8>, Seq<u8>)) -> bool {
        find_info(self.orders_seq(), k) >= 0
    }

    /// The cancel-lookup record kept for the order under this key.
    pub open spec fn order_info(&self, k: (Seq<u8>, Seq<u8>)) -> OrigOrderInfoForCancel {
        self.orders_seq()[find_info(self.orders_seq(), k)].1
    }

    /// Whether a cancel under this key has been seen before.
    pub open spec fn seen_cancel(&self, k: (Seq<u8>, Seq<u8>)) -> bool {
        find_key(self.cancels_seq(), k) >= 0
    }

    /// A fresh new order is accepted only when its key collides with no
    /// earlier order and no earlier cancel.
    pub open spec fn accepts_new_order(&self, o: NewOrder) -> bool {
        &&& !self.seen_cancel(key_view(o.pbu_id, o.cl_ord_id))
        &&& !self.seen_order(key_view(o.pbu_id, o.cl_ord_id))
    }

    pub fn new() -> (p: PreProcessor)
        ensures
            p.orders_seq() =~= Seq::<((PBUID, ClOrdID), OrigOrderInfoForCancel)>::empty(),
            p.cancels_seq() =~= Seq::<(PBUID, ClOrdID)>::empty(),
    {
        PreProcessor { new_orders: Vec::new(), cancel_requests: Vec::new() }
    }

    pub fn process(&mut self, task: PreProcessorTask) -> (result: RcProcessorTask)
        ensures
            match task {
                PreProcessorTask::NewOrder(o) => new_order_outcome(
                    *old(self),
                    *final(self),
                    *o,
                    result,
                ),
                PreProcessorTask::CancelRequest(c) => cancel_outcome(
                    *old(self),
                    *final(self),
                    *c,
                    result,
                ),
            },
    {
        match task {
            PreProcessorTask::NewOrder(new_order) => self.process_new_order(new_order),
            PreProcessorTask::CancelRequest(cancel_request) => self.process_cancel_request(
                cancel_request,
            ),
        }
    }

    fn process_new_order(&mut self, new_order: Box<NewOrder>) -> (result: RcProcessorTask)
        ensures
            new_order_outcome(*old(self), *final(self), *new_order, result),
    {
        let ghost k = key_view(new_order.pbu_id, new_order.cl_ord_id);
        if self.contains_cancel(&new_order.pbu_id, &new_order.cl_ord_id) {
            return RcProcessorTask::NewOrderRejected((CancelReasonCode::Duplicated, new_order));
        }

        if self.find_order_index(&new_order.pbu_id, &new_order.cl_ord_id).is_some() {
            return RcProcessorTask::NewOrderRejected((CancelReasonCode::Duplicated, new_order));
        }

        let info = new_order.get_info_for_cancel();
        let ghost pre_orders = self.orders_seq();
        self.new_orders.push(((new_order.pbu_id, new_order.cl_ord_id), info));
        proof {
            lemma_find_appended(pre_orders, k, ((new_order.pbu_id, new_order.cl_ord_id), info));
        }
        RcProcessorTask::NewOrder(new_order)
    }

    fn process_cancel_request(&mut self, cancel_request: Box<CancelRequest>) -> (result:
        RcProcessorTask)
        ensures
            cancel_outcome(*old(self), *final(self), *cancel_request, result),
    {
        let ghost k = key_view(cancel_request.pbu_id, cancel_request.cl_ord_id);
        if self.find_order_index(&cancel_request.pbu_id, &cancel_request.cl_ord_id).is_some() {
            return RcProcessorTask::CancelRequestRejected(
                (CancelReasonCode::Duplicated, cancel_request),
            );
        }

        if self.contains_cancel(&cancel_request.pbu_id, &cancel_request.cl_ord_id) {
            return RcProcessorTask::CancelRequestRejected(
                (CancelReasonCode::Duplicated, cancel_request),
            );
        }
        let ghost pre_cancels = self.cancels_seq();
        self.cancel_requests.push((cancel_request.pbu_id, cancel_request.cl_ord_id));
        proof {
            lemma_find_key_spec(pre_cancels, k);
            lemma_find_key_appended(
                pre_cancels,
                k,
                (cancel_request.pbu_id, cancel_request.cl_ord_id),
            );
        }

        let target = self.find_order_index(&cancel_request.pbu_id, &cancel_request.orig_cl_ord_id);
        match target {
            Some(idx) => {
                proof {
                    lemma_find_info_spec(
                        self.orders_seq(),
                        key_view(cancel_request.pbu_id, cancel_request.orig_cl_ord_id),
                    );
                }
                let info = self.new_orders[idx].1.clone();
                if !eq_bytes(&cancel_request.security_id, &info.security_id) {
                    return RcProcessorTask::CancelRequestRejected(
                        (CancelReasonCode::InvalidSecurity, cancel_request),
                    );
                }
                RcProcessorTask::CancelRequest(info, cancel_request)
            },
            None => RcProcessorTask::CancelRequestRejected(
                (CancelReasonCode::OrderNotExisted, cancel_request),
            ),
        }
    }

    /// Position of the accepted order stored under `(pbu, cl)`, if any.
    #[verifier::loop_isolation(false)]
    fn find_order_index(&self, pbu: &PBUID, cl: &ClOrdID) -> (r: Option<usize>)
        ensures
            ({
                let f = find_info(self.orders_seq(), key_view(*pbu, *cl));
                match r {
                    Some(idx) => f == idx,
                    None => f == -1,
                }
            }),
    {
        let ghost k = key_view(*pbu, *cl);
        let mut i: usize = 0;
        while i < self.new_orders.len()
            invariant
                i <= self.orders_seq().len(),
                forall|j: int|
                    0 <= j < i ==> key_view(
                        (#[trigger] self.orders_seq()[j]).0.0,
                        self.orders_seq()[j].0.1,
                    ) != key_view(*pbu, *cl),
            decreases self.orders_seq().len() - i,
        {
            let entry_pbu_matches = eq_bytes(&self.new_orders[i].0.0, pbu);
            let entry_cl_matches = eq_bytes(&self.new_orders[i].0.1, cl);
            if entry_pbu_matches && entry_cl_matches {
                proof {
                    let s = self.orders_seq();
                    lemma_find_info_spec(s, k);
                    let f = find_info(s, k);
                    assert(key_view(s[i as int].0.0, s[i as int].0.1) == k);
                    if f == -1 {
                        assert(key_view(s[i as int].0.0, s[i as int].0.1) != k);
                    } else if f < i as int {
                        assert(key_view(s[f].0.0, s[f].0.1) != k);
                    } else if f > i as int {
                        assert(key_view(s[i as int].0.0, s[i as int].0.1) != k);
                    }
                    assert(f == i as int);
                }
                return Some(i);
            }
            i += 1;
        }
        proof {
            lemma_find_info_spec(self.orders_seq(), k);
            let f = find_info(self.orders_seq(), k);
            if f >= 0 {
                assert(key_view(self.orders_seq()[f].0.0, self.orders_seq()[f].0.1) != k);
            }
        }
        None
    }

    /// Whether a cancel key `(pbu, cl)` has been recorded.
    #[verifier::loop_isolation(false)]
    fn contains_cancel(&self, pbu: &PBUID, cl: &ClOrdID) -> (r: bool)
        ensures
            r == self.seen_cancel(key_view(*pbu, *cl)),
    {
        let ghost k = key_view(*pbu, *cl);
        let mut i: usize = 0;
        while i < self.cancel_requests.len()
            invariant
                i <= self.cancels_seq().len(),
                forall|j: int|
                    0 <= j < i ==> key_view(
                        (#[trigger] self.cancels_seq()[j]).0,
                        self.cancels_seq()[j].1,
                    ) != key_view(*pbu, *cl),
            decreases self.cancels_seq().len() - i,
        {
            let entry_pbu_matches = eq_bytes(&self.cancel_requests[i].0, pbu);
            let entry_cl_matches = eq_bytes(&self.cancel_requests[i].1, cl);
            if entry_pbu_matches && entry_cl_matches {
                proof {
                    lemma_find_key_spec(self.cancels_seq(), k);
                    let f = find_key(self.cancels_seq(), k);
                    if f == -1 {
                        assert(key_view(
                            self.cancels_seq()[i as int].0,
                            self.cancels_seq()[i as int].1,
                        ) != k);
                    }
                }
                return true;
            }
            i += 1;
        }
        proof {
            lemma_find_key_spec(self.cancels_seq(), k);
            let f = find_key(self.cancels_seq(), k);
            if f >= 0 {
                assert(key_view(self.cancels_seq()[f].0, self.cancels_seq()[f].1) != k);
            }
        }
        false
    }
}

/// What processing a new order does: a key collision with an earlier cancel
/// or order rejects it as a duplicate and leaves the filter unchanged; a
/// fresh key records the order's cancel-lookup info and forwards the order.
pub open spec fn new_order_outcome(
    pre: PreProcessor,
    post: PreProcessor,
    o: NewOrder,
    result: RcProcessorTask,
) -> bool {
    let k = key_view(o.pbu_id, o.cl_ord_id);
    if pre.seen_cancel(k) || pre.seen_order(k) {
        &&& result == RcProcessorTask::NewOrderRejected(
            (CancelReasonCode::Duplicated, Box::new(o)),
        )
        &&& post == pre
    } else {
        &&& result == RcProcessorTask::NewOrder(Box::new(o))
        &&& post.orders_seq() == pre.orders_seq().push(
            ((o.pbu_id, o.cl_ord_id), o.spec_info_for_cancel()),
        )
        &&& post.cancels_seq() == pre.cancels_seq()
        &&& post.seen_order(k)
        &&& post.order_info(k) == o.spec_info_for_cancel()
    }
}

/// What processing a cancel does: a key collision is a duplicate; otherwise
/// the key is recorded even when the target is then found missing or on
/// another instrument, and a valid cancel is forwarded with the stored
/// lookup info of its target.
pub open spec fn cancel_outcome(
    pre: PreProcessor,
    post: PreProcessor,
    c: CancelRequest,
    result: RcProcessorTask,
) -> bool {
    let k = key_view(c.pbu_id, c.cl_ord_id);
    let target = key_view(c.pbu_id, c.orig_cl_ord_id);
    if pre.seen_order(k) || pre.seen_cancel(k) {
        &&& result == RcProcessorTask::CancelRequestRejected(
            (CancelReasonCode::Duplicated, Box::new(c)),
        )
        &&& post == pre
    } else {
        &&& post.cancels_seq() == pre.cancels_seq().push((c.pbu_id, c.cl_ord_id))
        &&& post.orders_seq() == pre.orders_seq()
        &&& post.seen_cancel(k)
        &&& if !pre.seen_order(target) {
            result == RcProcessorTask::CancelRequestRejected(
                (CancelReasonCode::OrderNotExisted, Box::new(c)),
            )
        } else if pre.order_info(target).security_id@ != c.security_id@ {
            result == RcProcessorTask::CancelRequestRejected(
                (CancelReasonCode::InvalidSecurity, Box::new(c)),
            )
        } else {
            result == RcProcessorTask::CancelRequest(pre.order_info(target), Box::new(c))
        }
    }
}

/// Appending a record under a fresh key leaves every other lookup unchanged
/// and makes that key found at the end.
pub proof fn lemma_find_appended(
    s: Seq<((PBUID, ClOrdID), OrigOrderInfoForCancel)>,
    k: (Seq<u8>, Seq<u8>),
    e: ((PBUID, ClOrdID), OrigOrderInfoForCancel),
)
    ensures
        key_view(e.0.0, e.0.1) == k ==> (find_info(s, k) == -1 ==> find_info(s.push(e), k)
            == s.len()),
        key_view(e.0.0, e.0.1) != k ==> find_info(s.push(e), k) == (if find_info(s, k) == -1 {
            -1int
        } else {
            find_info(s, k)
        }),
    decreases s.len(),
{
    if s.len() == 0 {
        assert(s.push(e)[0] == e);
        assert(s.push(e).drop_first() =~= Seq::<((PBUID, ClOrdID), OrigOrderInfoForCancel)>::empty());
        assert(find_info(Seq::<((PBUID, ClOrdID), OrigOrderInfoForCancel)>::empty(), k) == -1);
        assert(find_info(s, k) == -1);
        if key_view(e.0.0, e.0.1) == k {
            assert(find_info(s.push(e), k) == 0);
        } else {
            assert(find_info(s.push(e), k) == -1);
        }
    } else {
        assert(s.push(e)[0] == s[0]);
        assert(s.push(e).drop_first() =~= s.drop_first().push(e));
        lemma_find_appended(s.drop_first(), k, e);
        lemma_find_info_spec(s.drop_first(), k);
        lemma_find_info_spec(s.drop_first().push(e), k);
        if key_view(s[0].0.0, s[0].0.1) == k {
            assert(find_info(s, k) == 0);
            assert(find_info(s.push(e), k) == 0);
        }
        if key_view(s[0].0.0, s[0].0.1) != k {
            assert(find_info(s.push(e), k) == ({
                let r = find_info(s.drop_first().push(e), k);
                if r == -1 {
                    -1int
                } else {
                    r + 1
                }
            }));
            assert(find_info(s, k) == ({
                let r = find_info(s.drop_first(), k);
                if r == -1 {
                    -1int
                } else {
                    r + 1
                }
            }));
        }
    }
    assert(key_view(e.0.0, e.0.1) == k && find_info(s, k) == -1 ==> find_info(s.push(e), k)
        == s.len());
}

/// The same, for the cancel-key list.
proof fn lemma_find_key_appended(s: Seq<(PBUID, ClOrdID)>, k: (Seq<u8>, Seq<u8>), e: (
    PBUID,
    ClOrdID,
))
    ensures
        key_view(e.0, e.1) == k ==> (find_key(s, k) == -1 ==> find_key(s.push(e), k) == s.len()),
        key_view(e.0, e.1) != k ==> find_key(s.push(e), k) == (if find_key(s, k) == -1 {
            -1int
        } else {
            find_key(s, k)
        }),
    decreases s.len(),
{
    if s.len() == 0 {
        assert(s.push(e)[0] == e);
        assert(s.push(e).drop_first() =~= Seq::<(PBUID, ClOrdID)>::empty());
        assert(find_key(Seq::<(PBUID, ClOrdID)>::empty(), k) == -1);
        assert(find_key(s, k) == -1);
        if key_view(e.0, e.1) == k {
            assert(find_key(s.push(e), k) == 0);
        } else {
            assert(find_key(s.push(e), k) == -1);
        }
    } else {
        assert(s.push(e)[0] == s[0]);
        assert(s.push(e).drop_first() =~= s.drop_first().push(e));
        lemma_find_key_appended(s.drop_first(), k, e);
        lemma_find_key_spec(s.drop_first(), k);
        lemma_find_key_spec(s.drop_first().push(e), k);
        if key_view(s[0].0, s[0].1) == k {
            assert(find_key(s, k) == 0);
            assert(find_key(s.push(e), k) == 0);
        }
        if key_view(s[0].0, s[0].1) != k {
            assert(find_key(s.push(e), k) == ({
                let r = find_key(s.drop_first().push(e), k);
                if r == -1 {
                    -1int
                } else {
                    r + 1
                }
            }));
            assert(find_key(s, k) == ({
                let r = find_key(s.drop_first(), k);
                if r == -1 {
                    -1int
                } else {
                    r + 1
                }
            }));
        }
    }
}

/// Law: the duplicate filter is idempotent. Once a new order has been
/// accepted, any later new order with the same key is not accepted; once a
/// cancel key has been recorded, a later cancel with the same key is not.
pub proof fn lemma_pre_idempotent(
    pre: PreProcessor,
    post: PreProcessor,
    o: NewOrder,
    o2: NewOrder,
    result: RcProcessorTask,
)
    requires
        new_order_outcome(pre, post, o, result),
        !pre.seen_cancel(key_view(o.pbu_id, o.cl_ord_id)),
        !pre.seen_order(key_view(o.pbu_id, o.cl_ord_id)),
        o2.pbu_id@ == o.pbu_id@,
        o2.cl_ord_id@ == o.cl_ord_id@,
    ensures
        !post.accepts_new_order(o2),
{
    assert(post.seen_order(key_view(o.pbu_id, o.cl_ord_id)));
}

} // verus!
