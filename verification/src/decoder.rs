//! The executable decoder.

use vstd::prelude::*;
use crate::lemmas::{
    lemma_base128_fits, lemma_base128_step, lemma_continuation_run, lemma_continuation_run_is,
};
use crate::model::{
    base128, continuation_run, decode, decoded_value, encoded_len, has_continuation, leading_len,
    leading_value, payload7, truncated, LEADING_LEN, MAX_LEN, SIGN_BIT,
};

verus! {

/// Why a buffer could not be decoded.
#[derive(Debug, Clone, Copy, PartialEq, Eq)]
pub enum VarintError {
    /// The buffer ends before the encoding at its front does.
    TruncatedInput,
}

/// How a decoder's answer reads in the model: the value and the count as
/// unbounded integers, an error as `None`.
pub open spec fn outcome(answer: Result<(i64, usize), VarintError>) -> Option<(int, nat)> {
    match answer {
        Ok((value, consumed)) => Some((value as int, consumed as nat)),
        Err(_) => None,
    }
}

/// The high bit of `byte`, left in its place: `0x80` where the byte
/// announces a successor, zero where it does not.
pub fn _high_bit(byte: u8) -> (bit: u8)
    ensures
        bit == if has_continuation(byte) { 0x80u8 } else { 0u8 },
{
    assert(byte & 0x80 == if byte >= 0x80 { 0x80u8 } else { 0u8 }) by (bit_vector);
    byte & 0b1000_0000
}

/// The low seven bits of `byte`.
pub fn _lower7(byte: u8) -> (low: u8)
    ensures
        low == payload7(byte),
{
    assert(byte & 0x7f == byte % 128) by (bit_vector);
    byte & 0b0111_1111
}

/// Takes up the leading bytes of the encoding at the front of `buffer` into
/// `acc`, seven bits from each, and returns the index of the byte at which
/// it stopped: that of the first byte announcing no successor, or eight
/// where the first eight bytes all announce one.
///
/// The accumulator starts at zero. Where `buffer` ends while a successor is
/// still announced, the answer is `TruncatedInput` and `acc` holds what the
/// bytes that are there spell.
pub fn decode_leading_bytes(buffer: &Vec<u8>, acc: &mut i64) -> (r: Result<usize, VarintError>)
    requires
        *old(acc) == 0,
    ensures
        r is Err <==> buffer.len() < leading_len(buffer@),
        r matches Ok(index) ==> index == continuation_run(buffer@, LEADING_LEN as nat),
        r matches Ok(_) ==> *final(acc) == leading_value(buffer@),
        r matches Err(e) ==> e == VarintError::TruncatedInput,
        r matches Err(_) ==> *final(acc) == base128(buffer@),
{
    let mut byte_index: usize = 0;
    while byte_index < LEADING_LEN
        invariant
            byte_index <= LEADING_LEN,
            byte_index <= buffer.len(),
            forall|i: int| 0 <= i < byte_index ==> has_continuation(#[trigger] buffer@[i]),
            *acc == base128(buffer@.take(byte_index as int)),
        decreases LEADING_LEN - byte_index,
    {
        if byte_index >= buffer.len() {
            proof {
                lemma_continuation_run_is(buffer@, LEADING_LEN as nat, byte_index as nat);
                assert(buffer@.take(byte_index as int) =~= buffer@);
            }
            return Err(VarintError::TruncatedInput);
        }
        let current_byte = buffer[byte_index];
        let low = _lower7(current_byte);
        let ghost before = *acc;
        proof {
            lemma_base128_fits(buffer@.take(byte_index as int));
            lemma_base128_step(buffer@, byte_index as int);
            assert((before << 7) == before * 128) by (bit_vector)
                requires
                    0 <= before < 0x2_0000_0000_0000i64,
            ;
        }
        *acc = (*acc << 7) + low as i64;
        if 0 == _high_bit(current_byte) {
            proof {
                lemma_continuation_run_is(buffer@, LEADING_LEN as nat, byte_index as nat);
            }
            return Ok(byte_index);
        }
        byte_index += 1;
    }
    proof {
        lemma_continuation_run_is(buffer@, LEADING_LEN as nat, byte_index as nat);
    }
    Ok(LEADING_LEN)
}

/// Decodes the varint at the front of `buffer`: the integer it stands for
/// and the number of bytes that spell it, one to nine.
///
/// The answer is `TruncatedInput` exactly where `buffer` ends before the
/// encoding does: where it holds fewer than nine bytes and each of them
/// announces a successor. Bytes after the encoding play no part.
pub fn varint(buffer: Vec<u8>) -> (r: Result<(i64, usize), VarintError>)
    ensures
        outcome(r) == decode(buffer@),
        r is Err <==> truncated(buffer@),
        r matches Err(e) ==> e == VarintError::TruncatedInput,
        r matches Ok((value, _)) ==> value == decoded_value(buffer@),
        r matches Ok((_, consumed)) ==> consumed == encoded_len(buffer@),
        r matches Ok((_, consumed)) ==> 1 <= consumed <= MAX_LEN && consumed <= buffer.len(),
{
    let mut acc: i64 = 0;
    let byte_index = decode_leading_bytes(&buffer, &mut acc)?;
    proof {
        lemma_continuation_run(buffer@, LEADING_LEN as nat);
        lemma_base128_fits(buffer@.take(leading_len(buffer@) as int));
    }
    let mut raw: u64 = acc as u64;
    if byte_index == MAX_LEN - 1 {
        if byte_index >= buffer.len() {
            return Err(VarintError::TruncatedInput);
        }
        // The ninth byte gives all eight of its bits.
        let ghost leading = raw;
        assert((leading << 8) == leading * 256) by (bit_vector)
            requires
                leading < 0x100_0000_0000_0000u64,
        ;
        raw = (raw << 8) + buffer[byte_index] as u64;
    }
    // The pattern is a field of 7 * 8 + 8 = 64 bits, whatever the length of
    // the encoding, and the highest of them is the sign.
    assert(raw & SIGN_BIT != 0 <==> raw >= SIGN_BIT) by (bit_vector);
    if raw & SIGN_BIT != 0 {
        Ok((((raw - SIGN_BIT) as i64) + i64::MIN, byte_index + 1))
    } else {
        Ok((raw as i64, byte_index + 1))
    }
}

} // verus!
