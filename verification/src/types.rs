//! Scalar identifiers, character constants, and the reason-code taxonomy
//! shared by every pipeline stage.

use vstd::prelude::*;
use vstd::string::StringSliceAdditionalSpecFns;

verus! {

/// Order quantity, in units.
pub type Qty = u64;

/// Price, in integer ticks; sign carries direction for short-priced books.
pub type Price = i64;

/// Venue-assigned order identifier.
pub type OrderID = u128;

/// Client-assigned order identifier, space-padded to ten bytes.
pub type ClOrdID = [u8; 10];

/// Participant/broker business-unit code, space-padded to six bytes.
pub type PBUID = [u8; 6];

/// Instrument code, space-padded to eight bytes.
pub type SecurityID = [u8; 8];

/// Order side, `'B'` or `'S'`.
pub type Side = char;

/// Venue-assigned execution identifier, monotonic.
pub type ExecID = u128;

pub const K_BUY: char = 'B';

pub const K_SELL: char = 'S';

pub const K_EXEC_TYPE_NEW: char = '0';

pub const K_EXEC_TYPE_CANCELLED: char = '4';

pub const K_EXEC_TYPE_REJECT: char = '8';

pub const K_EXEC_TYPE_TRADE: char = 'F';

pub const K_ORD_STATUS_NEW: char = '0';

pub const K_ORD_STATUS_PARTIALLY_FILLED: char = '1';

pub const K_ORD_STATUS_FILLED: char = '2';

pub const K_ORD_STATUS_CANCELLED: char = '4';

pub const K_ORD_STATUS_REJECT: char = '8';

/// Domain error taxonomy, carried as data inside rejection reports.
#[derive(Debug, PartialEq, Eq, Structural, Clone, Copy)]
pub enum CancelReasonCode {
    /// No error; the default in reports of successful executions.
    Passed,
    /// Collision on `(PBUID, ClOrdID)` across orders or cancels.
    Duplicated,
    /// A cancel's `SecurityID` disagrees with the target order's.
    InvalidSecurity,
    /// A cancel refers to an unknown order, or one already gone from the book.
    OrderNotExisted,
}

/// Builds a fixed-width field from a string: the string's bytes, truncated to
/// `N` bytes, padded on the right with spaces.
pub fn to_array<const N: usize>(s: &str) -> (result: [u8; N])
    ensures
        forall|i: int|
            0 <= i < N ==> result@[i] == (if i < s.spec_bytes().len() {
                s.spec_bytes()[i]
            } else {
                32u8
            }),
{
    let mut i: usize = 0;
    let mut result: [u8; N] = [32u8; N];

    let bytes = s.as_bytes();

    while i < N && i < bytes.len()
        invariant
            i <= N,
            bytes@ == s.spec_bytes(),
            forall|j: int|
                0 <= j < N ==> result@[j] == (if j < i && j < bytes@.len() {
                    bytes@[j]
                } else {
                    32u8
                }),
        decreases N - i,
    {
        result[i] = bytes[i];
        i += 1;
    }
    result
}

/// Terminal sink for encoded outbound records: counts the records and bytes
/// handed to it.
pub struct ExeSender {
    pub count: u32,
    pub bytes: usize,
}

impl ExeSender {
    pub fn new() -> (sender: ExeSender)
        ensures
            sender.count == 0,
            sender.bytes == 0,
    {
        ExeSender { count: 0, bytes: 0 }
    }

    pub fn send(&mut self, buffer: Vec<u8>)
        requires
            old(self).count < u32::MAX,
            old(self).bytes + buffer@.len() <= usize::MAX,
        ensures
            final(self).count == old(self).count + 1,
            final(self).bytes == old(self).bytes + buffer@.len(),
    {
        self.count += 1;
        self.bytes += buffer.len();
    }
}

} // verus!
