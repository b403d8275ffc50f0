//! Facts about the model that the decoder's proof and the laws rest on.

use vstd::prelude::*;
use vstd::arithmetic::power2::{lemma2_to64, lemma2_to64_rest, lemma_pow2_adds, pow2};
use crate::model::{base128, continuation_run, has_continuation, payload7};

verus! {

/// One more byte adds one base-128 digit at the low end.
pub proof fn lemma_base128_step(bytes: Seq<u8>, n: int)
    requires
        0 <= n < bytes.len(),
    ensures
        base128(bytes.take(n + 1)) == base128(bytes.take(n)) * 128 + payload7(bytes[n]),
{
    let longer = bytes.take(n + 1);
    assert(longer.drop_last() =~= bytes.take(n));
    assert(longer.last() == bytes[n]);
}

/// The base-128 number of `bytes` has seven bits for each byte.
pub proof fn lemma_base128_bound(bytes: Seq<u8>)
    ensures
        base128(bytes) < pow2(7 * bytes.len()),
    decreases bytes.len(),
{
    lemma2_to64();
    if bytes.len() > 0 {
        let shorter = bytes.drop_last();
        lemma_base128_bound(shorter);
        lemma_pow2_adds(7 * shorter.len(), 7);
        assert(7 * shorter.len() + 7 == 7 * bytes.len());
        assert(base128(shorter) * 128 + 127 < pow2(7 * shorter.len()) * 128) by (nonlinear_arith)
            requires
                base128(shorter) < pow2(7 * shorter.len()),
        ;
    }
}

/// Up to seven bytes spell a number of at most forty-nine bits, eight bytes
/// one of at most fifty-six: either leaves room in sixty-four bits for the
/// next byte.
pub proof fn lemma_base128_fits(bytes: Seq<u8>)
    requires
        bytes.len() <= 8,
    ensures
        bytes.len() <= 7 ==> base128(bytes) < 0x2_0000_0000_0000,
        base128(bytes) < 0x100_0000_0000_0000,
{
    lemma2_to64();
    lemma2_to64_rest();
    lemma_base128_bound(bytes);
    let bits = 7 * bytes.len();
    assert(bits == 0 || bits == 7 || bits == 14 || bits == 21 || bits == 28 || bits == 35 || bits
        == 42 || bits == 49 || bits == 56);
}

/// What the run of announcing bytes at the front of `bytes` is: it stays
/// within `limit` and within `bytes`, every byte in it announces a
/// successor, and it ends at the limit, at the end of `bytes`, or before a
/// byte that announces none.
pub proof fn lemma_continuation_run(bytes: Seq<u8>, limit: nat)
    ensures
        continuation_run(bytes, limit) <= limit,
        continuation_run(bytes, limit) <= bytes.len(),
        forall|i: int|
            0 <= i < continuation_run(bytes, limit) ==> has_continuation(#[trigger] bytes[i]),
        continuation_run(bytes, limit) == limit || continuation_run(bytes, limit) == bytes.len()
            || !has_continuation(bytes[continuation_run(bytes, limit) as int]),
    decreases limit,
{
    if limit == 0 || bytes.len() == 0 || !has_continuation(bytes[0]) {
    } else {
        let rest = bytes.drop_first();
        let shorter = (limit - 1) as nat;
        lemma_continuation_run(rest, shorter);
        assert forall|i: int| 0 <= i < continuation_run(bytes, limit) implies has_continuation(
            #[trigger] bytes[i],
        ) by {
            if i > 0 {
                assert(bytes[i] == rest[i - 1]);
            }
        }
        let run = continuation_run(rest, shorter);
        if run < rest.len() {
            assert(rest[run as int] == bytes[run as int + 1]);
        }
    }
}

/// A run with the three properties above is the run: there is only one.
pub proof fn lemma_continuation_run_is(bytes: Seq<u8>, limit: nat, run: nat)
    requires
        run <= limit,
        run <= bytes.len(),
        forall|i: int| 0 <= i < run ==> has_continuation(#[trigger] bytes[i]),
        run == limit || run == bytes.len() || !has_continuation(bytes[run as int]),
    ensures
        continuation_run(bytes, limit) == run,
    decreases run,
{
    if run > 0 {
        let rest = bytes.drop_first();
        assert(has_continuation(bytes[0]));
        assert forall|i: int| 0 <= i < run - 1 implies has_continuation(#[trigger] rest[i]) by {
            assert(rest[i] == bytes[i + 1]);
        }
        if run < bytes.len() {
            assert(rest[run - 1] == bytes[run as int]);
        }
        lemma_continuation_run_is(rest, (limit - 1) as nat, (run - 1) as nat);
    }
}

} // verus!
