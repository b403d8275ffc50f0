//! The mathematical model of the encoding.
//!
//! Everything here is specification: bytes are a `Seq<u8>`, values are
//! `int` and `nat`, and nothing overflows.

use vstd::prelude::*;

verus! {

/// The longest encoding, in bytes.
pub const MAX_LEN: usize = 9;

/// The number of bytes at the front of an encoding that give seven bits each
/// and may announce a successor.
pub const LEADING_LEN: usize = 8;

/// The weight of the highest bit of a 64-bit pattern.
pub const SIGN_BIT: u64 = 0x8000_0000_0000_0000;

/// Whether `byte`, standing among the leading bytes, announces that another
/// byte follows: its high bit is set.
pub open spec fn has_continuation(byte: u8) -> bool {
    byte >= 0x80
}

/// The number that the low seven bits of `byte` spell.
pub open spec fn payload7(byte: u8) -> nat {
    (byte % 128) as nat
}

/// The big-endian base-128 number whose digits are the seven-bit payloads of
/// `bytes`; the high bits of the bytes play no part.
pub open spec fn base128(bytes: Seq<u8>) -> nat
    decreases bytes.len(),
{
    if bytes.len() == 0 {
        0
    } else {
        base128(bytes.drop_last()) * 128 + payload7(bytes.last())
    }
}

/// The length of the longest run of bytes at the front of `bytes` that all
/// announce a successor, counting no more than `limit` of them.
pub open spec fn continuation_run(bytes: Seq<u8>, limit: nat) -> nat
    decreases limit,
{
    if limit == 0 || bytes.len() == 0 || !has_continuation(bytes[0]) {
        0
    } else {
        1 + continuation_run(bytes.drop_first(), (limit - 1) as nat)
    }
}

/// The number of bytes that the encoding at the front of `bytes` takes up:
/// the leading bytes that announce a successor, eight at most, and the one
/// byte after them.
///
/// Where `bytes` ends before that last byte, the result is one more than
/// `bytes` holds.
pub open spec fn encoded_len(bytes: Seq<u8>) -> nat {
    continuation_run(bytes, LEADING_LEN as nat) + 1
}

/// Whether `bytes` ends before the encoding at its front does.
pub open spec fn truncated(bytes: Seq<u8>) -> bool {
    bytes.len() < encoded_len(bytes)
}

/// The number of leading bytes of the encoding at the front of `bytes`:
/// all of it but the ninth byte.
pub open spec fn leading_len(bytes: Seq<u8>) -> nat {
    if encoded_len(bytes) <= LEADING_LEN {
        encoded_len(bytes)
    } else {
        LEADING_LEN as nat
    }
}

/// The number that the leading bytes of the encoding spell, seven bits to a
/// byte.
pub open spec fn leading_value(bytes: Seq<u8>) -> nat {
    base128(bytes.take(leading_len(bytes) as int))
}

/// The 64-bit pattern that the encoding at the front of `bytes` builds up,
/// read as an unsigned number.
///
/// An encoding of up to eight bytes is the base-128 number of its bytes. In
/// one of nine bytes that number moves up by eight bits, and the ninth byte
/// fills them with all eight of its own.
pub open spec fn accumulated(bytes: Seq<u8>) -> nat {
    if encoded_len(bytes) <= LEADING_LEN {
        leading_value(bytes)
    } else {
        leading_value(bytes) * 256 + bytes[LEADING_LEN as int] as nat
    }
}

/// The integer that the 64-bit pattern `raw` stands for in two's complement:
/// where the sign bit is set, twice its weight is taken off.
pub open spec fn twos_complement(raw: nat) -> int {
    if raw >= SIGN_BIT {
        raw - 2 * SIGN_BIT
    } else {
        raw as int
    }
}

/// The integer that the encoding at the front of `bytes` stands for.
///
/// The pattern is read as a field of sixty-four bits whatever the length of
/// the encoding. Only nine bytes reach the sign bit: a shorter encoding
/// stands for a number that is not negative.
pub open spec fn decoded_value(bytes: Seq<u8>) -> int {
    twos_complement(accumulated(bytes))
}

/// What `bytes` decodes to: the value and the number of bytes that spell it,
/// or `None` where `bytes` ends before the encoding does.
pub open spec fn decode(bytes: Seq<u8>) -> Option<(int, nat)> {
    if truncated(bytes) {
        None
    } else {
        Some((decoded_value(bytes), encoded_len(bytes)))
    }
}

} // verus!
