//! The outbound wire format: length-prefixed little-endian fixed-width
//! encodings of the three report records, with fields in declaration order.
//! Padded string fields are written raw; character fields take one byte;
//! the reason code travels as a 32-bit enumeration.

use vstd::prelude::*;
use crate::types::CancelReasonCode;

verus! {

/// The `n` little-endian bytes of a nonnegative value.
pub open spec fn le_bytes(v: int, n: nat) -> Seq<u8>
    decreases n,
{
    if n == 0 {
        Seq::empty()
    } else {
        seq![(v % 256) as u8] + le_bytes(v / 256, (n - 1) as nat)
    }
}

/// A signed price as its unsigned two's-complement carrier.
pub open spec fn to_unsigned(v: i64) -> int {
    if v >= 0 {
        v as int
    } else {
        v + 0x1_0000_0000_0000_0000
    }
}

/// The single byte of an ASCII character field.
pub open spec fn char_byte(c: char) -> u8 {
    (c as u32) as u8
}

/// The wire number of a reason code.
pub open spec fn spec_reason_code(reason: CancelReasonCode) -> u32 {
    match reason {
        CancelReasonCode::Passed => 0,
        CancelReasonCode::Duplicated => 1,
        CancelReasonCode::InvalidSecurity => 2,
        CancelReasonCode::OrderNotExisted => 3,
    }
}

/// A complete outbound message: the payload behind its 32-bit length prefix.
pub open spec fn framed(payload: Seq<u8>) -> Seq<u8> {
    le_bytes(payload.len() as int, 4) + payload
}

pub proof fn lemma_le_bytes_len(v: int, n: nat)
    ensures
        le_bytes(v, n).len() == n,
    decreases n,
{
    if n > 0 {
        lemma_le_bytes_len(v / 256, (n - 1) as nat);
    }
}

/// Appends the `n` little-endian bytes of `v`.
pub fn push_le_bytes(v: u128, n: usize, out: &mut Vec<u8>)
    ensures
        final(out)@ == old(out)@ + le_bytes(v as int, n as nat),
{
    let ghost prefix = out@;
    let mut cur = v;
    let mut i: usize = 0;
    while i < n
        invariant
            i <= n,
            out@.len() == prefix.len() + i,
            prefix + le_bytes(v as int, n as nat) =~= out@ + le_bytes(cur as int, (n - i) as nat),
        decreases n - i,
    {
        let ghost out_pre = out@;
        let b: u8 = (cur % 256) as u8;
        out.push(b);
        cur = cur / 256;
        proof {
            assert(out_pre + (seq![b] + le_bytes(cur as int, (n - i - 1) as nat)) =~= (out_pre
                + seq![b]) + le_bytes(cur as int, (n - i - 1) as nat));
            assert(out@ =~= out_pre + seq![b]);
        }
        i += 1;
    }
    proof {
        assert(le_bytes(cur as int, 0) =~= Seq::<u8>::empty());
        assert(out@ + Seq::<u8>::empty() =~= out@);
        assert(final(out)@ == old(out)@ + le_bytes(v as int, n as nat));
    }
}

/// Appends the eight little-endian bytes of a signed value's two's
/// complement.
pub fn push_le_i64(v: i64, out: &mut Vec<u8>)
    ensures
        final(out)@ == old(out)@ + le_bytes(to_unsigned(v), 8),
{
    let carrier: u128 = if v >= 0 {
        v as u128
    } else {
        (v as i128 + 18446744073709551616i128) as u128
    };
    proof {
        assert(carrier as int == to_unsigned(v));
    }
    push_le_bytes(carrier, 8, out);
}

/// Appends a fixed-width byte field raw.
pub fn push_bytes<const N: usize>(field: &[u8; N], out: &mut Vec<u8>)
    ensures
        final(out)@ == old(out)@ + field@,
{
    let ghost prefix = out@;
    let mut i: usize = 0;
    while i < N
        invariant
            i <= N,
            out@ =~= prefix + field@.take(i as int),
        decreases N - i,
    {
        let ghost out_pre = out@;
        out.push(field[i]);
        proof {
            assert(field@.take(i + 1) =~= field@.take(i as int).push(field@[i as int]));
            assert(out@ =~= prefix + field@.take(i + 1));
        }
        i += 1;
    }
    proof {
        assert(field@.take(N as int) =~= field@);
    }
}

/// Appends one ASCII character as a single byte.
pub fn push_char(c: char, out: &mut Vec<u8>)
    requires
        (c as u32) < 128,
    ensures
        final(out)@ == old(out)@ + seq![char_byte(c)],
{
    let code: u32 = c as u32;
    let b: u8 = code as u8;
    out.push(b);
    proof {
        assert(final(out)@ =~= old(out)@ + seq![char_byte(c)]);
    }
}

/// The wire number of a reason code.
pub fn reason_code(reason: &CancelReasonCode) -> (code: u32)
    ensures
        code == spec_reason_code(*reason),
{
    match reason {
        CancelReasonCode::Passed => 0,
        CancelReasonCode::Duplicated => 1,
        CancelReasonCode::InvalidSecurity => 2,
        CancelReasonCode::OrderNotExisted => 3,
    }
}

/// Appends the four little-endian bytes of a reason code.
pub fn push_reason(reason: &CancelReasonCode, out: &mut Vec<u8>)
    ensures
        final(out)@ == old(out)@ + le_bytes(spec_reason_code(*reason) as int, 4),
{
    let code = reason_code(reason);
    push_le_bytes(code as u128, 4, out);
}

/// Prefixes a finished payload with its 32-bit length.
pub fn frame_message(payload: Vec<u8>) -> (message: Vec<u8>)
    requires
        payload@.len() < 0x1_0000_0000,
    ensures
        message@ == framed(payload@),
{
    let mut message: Vec<u8> = Vec::new();
    push_le_bytes(payload.len() as u128, 4, &mut message);
    let mut body = payload;
    let ghost header = message@;
    let ghost body_view = body@;
    message.append(&mut body);
    proof {
        assert(message@ == header + body_view);
    }
    message
}

} // verus!
