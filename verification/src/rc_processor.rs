//! The risk-check stage: currently a structural pass-through that tags
//! accepted orders with an (empty) risk result, keeping the extension point
//! for future pre-trade checks plumbed through to the core.

use vstd::prelude::*;
use crate::messages::{NewOrder, RcProcessorTask, CoreProcessorTask, RcResult};

verus! {

/// What the risk check does to one task: forwards it structurally, tagging
/// an accepted new order with a fresh (empty) risk result.
pub open spec fn rc_forwarding(task: RcProcessorTask, result: CoreProcessorTask) -> bool {
    match task {
        RcProcessorTask::NewOrder(order) => result == CoreProcessorTask::NewOrder(
            order,
            Box::new(RcResult {  }),
        ),
        RcProcessorTask::NewOrderRejected(info) => result == CoreProcessorTask::NewOrderRejected(
            info,
        ),
        RcProcessorTask::CancelRequest(info, cancel_request) => result
            == CoreProcessorTask::CancelRequest(info, cancel_request),
        RcProcessorTask::CancelRequestRejected(info) => result
            == CoreProcessorTask::CancelRequestRejected(info),
    }
}

pub struct RcProcessor {}

impl RcProcessor {
    pub fn new() -> (p: RcProcessor) {
        RcProcessor {  }
    }

    /// Forwards every task unchanged; an accepted new order is paired with a
    /// fresh `RcResult`.
    pub fn process(&mut self, task: RcProcessorTask) -> (result: CoreProcessorTask)
        ensures
            rc_forwarding(task, result),
    {
        match task {
            RcProcessorTask::NewOrder(order) => self.process_new_order(order),
            RcProcessorTask::NewOrderRejected(info) => CoreProcessorTask::NewOrderRejected(info),
            RcProcessorTask::CancelRequest(info, cancel_request) => CoreProcessorTask::CancelRequest(
                info,
                cancel_request,
            ),
            RcProcessorTask::CancelRequestRejected(info) => CoreProcessorTask::CancelRequestRejected(
                info,
            ),
        }
    }

    pub fn process_new_order(&mut self, order: Box<NewOrder>) -> (result: CoreProcessorTask)
        ensures
            result == CoreProcessorTask::NewOrder(order, Box::new(RcResult {  })),
    {
        CoreProcessorTask::NewOrder(order, Box::new(RcResult {  }))
    }
}

} // verus!
