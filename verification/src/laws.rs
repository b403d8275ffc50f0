//! What holds of every buffer.
//!
//! Each law is stated over the model and over [`outcome`], the reading of a
//! decoder's answer in the model, so that it speaks of [`varint`] through
//! that function's contract.
//!
//! [`varint`]: crate::decoder::varint

use vstd::prelude::*;
use vstd::arithmetic::power2::pow2;
use crate::decoder::{outcome, VarintError};
use crate::lemmas::{
    lemma_base128_bound, lemma_base128_fits, lemma_continuation_run, lemma_continuation_run_is,
};
use crate::model::{
    base128, continuation_run, decode, decoded_value, encoded_len, has_continuation, leading_len,
    truncated, LEADING_LEN, MAX_LEN,
};

verus! {

/// A byte that announces no successor is an encoding by itself and stands
/// for its own value.
pub proof fn lemma_single_byte(byte: u8)
    requires
        !has_continuation(byte),
    ensures
        decode(seq![byte]) == Some((byte as int, 1nat)),
{
    let bytes = seq![byte];
    lemma_continuation_run_is(bytes, LEADING_LEN as nat, 0);
    assert(bytes.take(1) =~= bytes);
    assert(base128(bytes.drop_last()) == 0);
}

/// A buffer is cut short exactly where it holds fewer than nine bytes and
/// every one of them announces a successor. The empty buffer is such a one.
pub proof fn lemma_truncated_iff(bytes: Seq<u8>)
    ensures
        truncated(bytes) <==> bytes.len() < MAX_LEN && forall|i: int|
            0 <= i < bytes.len() ==> has_continuation(#[trigger] bytes[i]),
{
    lemma_continuation_run(bytes, LEADING_LEN as nat);
    if bytes.len() < MAX_LEN && forall|i: int|
        0 <= i < bytes.len() ==> has_continuation(#[trigger] bytes[i]) {
        lemma_continuation_run_is(bytes, LEADING_LEN as nat, bytes.len());
    }
}

/// An encoding takes one to nine bytes, and a buffer that decodes holds all
/// the bytes counted.
pub proof fn lemma_consumption_bounds(bytes: Seq<u8>)
    ensures
        1 <= encoded_len(bytes) <= MAX_LEN,
        decode(bytes) matches Some((_, consumed)) ==> 1 <= consumed <= MAX_LEN && consumed
            <= bytes.len(),
{
    lemma_continuation_run(bytes, LEADING_LEN as nat);
}

/// Only the bytes counted are looked at: a buffer that begins with the same
/// encoding decodes alike, whatever follows in either.
pub proof fn lemma_reads_only_consumed(bytes: Seq<u8>, other: Seq<u8>)
    requires
        decode(bytes) is Some,
        other.len() >= encoded_len(bytes),
        other.take(encoded_len(bytes) as int) == bytes.take(encoded_len(bytes) as int),
    ensures
        decode(other) == decode(bytes),
{
    let len = encoded_len(bytes);
    let run = continuation_run(bytes, LEADING_LEN as nat);
    lemma_continuation_run(bytes, LEADING_LEN as nat);
    assert forall|i: int| 0 <= i < len implies other[i] == bytes[i] by {
        assert(other.take(len as int)[i] == bytes.take(len as int)[i]);
    }
    lemma_continuation_run_is(other, LEADING_LEN as nat, run);
    assert(other.take(leading_len(other) as int) =~= bytes.take(leading_len(bytes) as int));
}

/// No buffer reads past its ninth byte.
pub proof fn lemma_reads_at_most_nine(bytes: Seq<u8>)
    requires
        bytes.len() >= MAX_LEN,
    ensures
        decode(bytes) is Some,
        decode(bytes) == decode(bytes.take(MAX_LEN as int)),
{
    let head = bytes.take(MAX_LEN as int);
    lemma_consumption_bounds(bytes);
    let len = encoded_len(bytes);
    assert(head.take(len as int) =~= bytes.take(len as int));
    lemma_reads_only_consumed(bytes, head);
}

/// An encoding with its end cut off does not decode: where a buffer decodes
/// in some number of bytes, every shorter beginning of it is cut short, the
/// one that lacks only the last byte among them.
pub proof fn lemma_cut_short(bytes: Seq<u8>)
    requires
        decode(bytes) is Some,
    ensures
        decode(bytes.take(encoded_len(bytes) - 1)) is None,
        forall|available: int|
            0 <= available < encoded_len(bytes) ==> decode(#[trigger] bytes.take(available))
                is None,
{
    lemma_continuation_run(bytes, LEADING_LEN as nat);
    assert forall|available: int| 0 <= available < encoded_len(bytes) implies decode(
        #[trigger] bytes.take(available),
    ) is None by {
        let head = bytes.take(available);
        assert forall|i: int| 0 <= i < available implies has_continuation(#[trigger] head[i]) by {
            assert(head[i] == bytes[i]);
        }
        lemma_continuation_run_is(head, LEADING_LEN as nat, available as nat);
    }
}

/// Decoding is repeatable: two answers that meet the decoder's contract for
/// the same bytes are the same answer.
pub proof fn lemma_repeatable(
    bytes: Seq<u8>,
    first: Result<(i64, usize), VarintError>,
    second: Result<(i64, usize), VarintError>,
)
    requires
        outcome(first) == decode(bytes),
        outcome(second) == decode(bytes),
    ensures
        first == second,
{
    match (first, second) {
        (Ok(a), Ok(b)) => {
            assert(a.0 == b.0 && a.1 == b.1);
        },
        (Err(a), Err(b)) => {
            assert(a == VarintError::TruncatedInput && b == VarintError::TruncatedInput);
        },
        _ => {},
    }
}

/// An encoding of up to eight bytes stands for a number that is not
/// negative and has seven bits for each byte; one of nine bytes stands for
/// any 64-bit two's-complement integer.
pub proof fn lemma_value_range(bytes: Seq<u8>)
    requires
        decode(bytes) is Some,
    ensures
        encoded_len(bytes) <= LEADING_LEN ==> 0 <= decoded_value(bytes) < pow2(
            7 * encoded_len(bytes),
        ),
        i64::MIN <= decoded_value(bytes) <= i64::MAX,
{
    lemma_continuation_run(bytes, LEADING_LEN as nat);
    let leading = bytes.take(leading_len(bytes) as int);
    lemma_base128_bound(leading);
    lemma_base128_fits(leading);
}

} // verus!
