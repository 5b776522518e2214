//! The XOR at the heart of FlexFEC: folding one serialised packet into a repair buffer.
//!
//! A repair payload is the byte-wise XOR of the packets it protects, and recovery XORs the
//! survivors back out of it. Both directions are [`xor_into`] over buffers of unequal length.

use vstd::prelude::*;
use wide::{u8x16, u8x32};

verus! {

/// Bytes per vector in the main loop.
const LANES: usize = 32;

/// `dst` with `src` XORed in over the shorter of the two.
pub open spec fn xored(dst: Seq<u8>, src: Seq<u8>) -> Seq<u8> {
    Seq::new(
        dst.len(),
        |i: int|
            if i < src.len() {
                dst[i] ^ src[i]
            } else {
                dst[i]
            },
    )
}

/// `^` of two `wide::u8x32`: the lanes are XORed one by one.
#[verifier::external_body]
fn xor32(a: &[u8], b: &[u8]) -> (out: [u8; 32])
    requires
        a@.len() == 32,
        b@.len() == 32,
    ensures
        forall|i: int| 0 <= i < 32 ==> #[trigger] out@[i] == a@[i] ^ b@[i],
{
    (u8x32::new(a.try_into().unwrap()) ^ u8x32::new(b.try_into().unwrap())).to_array()
}

/// `^` of two `wide::u8x16`: the lanes are XORed one by one.
#[verifier::external_body]
fn xor16(a: &[u8], b: &[u8]) -> (out: [u8; 16])
    requires
        a@.len() == 16,
        b@.len() == 16,
    ensures
        forall|i: int| 0 <= i < 16 ==> #[trigger] out@[i] == a@[i] ^ b@[i],
{
    (u8x16::new(a.try_into().unwrap()) ^ u8x16::new(b.try_into().unwrap())).to_array()
}

/// Write `bytes` into `dst` at `at`.
fn store(dst: &mut [u8], at: usize, bytes: &[u8])
    requires
        at + bytes@.len() <= old(dst)@.len(),
    ensures
        final(dst)@.len() == old(dst)@.len(),
        forall|i: int|
            0 <= i < old(dst)@.len() ==> #[trigger] final(dst)@[i] == if at <= i < at
                + bytes@.len() {
                bytes@[i - at]
            } else {
                old(dst)@[i]
            },
{
    let room: usize = dst.len();
    let mut k: usize = 0;
    while k < bytes.len()
        invariant
            k <= bytes@.len(),
            dst@.len() == old(dst)@.len(),
            dst@.len() == room,
            at + bytes@.len() <= dst@.len(),
            forall|i: int|
                0 <= i < dst@.len() ==> #[trigger] dst@[i] == if at <= i < at + k {
                    bytes@[i - at]
                } else {
                    old(dst)@[i]
                },
        decreases bytes@.len() - k,
    {
        dst[at + k] = bytes[k];
        k = k + 1;
    }
}

/// XOR `src` into `dst` over the shorter of the two; bytes of `dst` beyond that are left alone.
///
/// Leaving the tail alone is what makes packets of unequal length work: XORing a short packet into
/// a repair buffer sized for the longest is the same as XORing it zero-padded, because XOR with
/// zero is the identity.
///
/// The main loop XORs 32 bytes at a time. The last 32 bytes are computed from the *original* values
/// before that loop runs and stored after it, overlapping whatever the loop already wrote with the
/// same result, so there is no byte-at-a-time remainder for any length from 32 up.
pub fn xor_into(dst: &mut [u8], src: &[u8])
    ensures
        final(dst)@ == xored(old(dst)@, src@),
{
    let len: usize = if dst.len() <= src.len() { dst.len() } else { src.len() };
    if len < LANES {
        xor_short(dst, src, len);
        assert(dst@ =~= xored(old(dst)@, src@));
        return;
    }
    // The final vector, from the original bytes: stored last, it overwrites the overlap with the
    // main loop with the same values the loop computed.
    let tail = xor32(&dst[len - LANES..len], &src[len - LANES..len]);
    let mut at: usize = 0;
    while len - at >= LANES
        invariant
            dst@.len() == old(dst)@.len(),
            at <= len,
            len <= dst@.len(),
            len <= src@.len(),
            forall|i: int|
                0 <= i < dst@.len() ==> #[trigger] dst@[i] == if i < at {
                    old(dst)@[i] ^ src@[i]
                } else {
                    old(dst)@[i]
                },
        decreases len - at,
    {
        let chunk = xor32(&dst[at..at + LANES], &src[at..at + LANES]);
        store(dst, at, chunk.as_slice());
        at = at + LANES;
    }
    store(dst, len - LANES, tail.as_slice());
    assert(dst@ =~= xored(old(dst)@, src@));
}

/// [`xor_into`] over the first `len` bytes, fewer than one vector.
fn xor_short(dst: &mut [u8], src: &[u8], len: usize)
    requires
        len < 32,
        len <= old(dst)@.len(),
        len <= src@.len(),
    ensures
        final(dst)@.len() == old(dst)@.len(),
        forall|i: int|
            0 <= i < old(dst)@.len() ==> #[trigger] final(dst)@[i] == if i < len {
                old(dst)@[i] ^ src@[i]
            } else {
                old(dst)@[i]
            },
{
    if len >= 16 {
        // Two overlapping halves, both computed before either is stored.
        let head = xor16(&dst[0..16], &src[0..16]);
        let tail = xor16(&dst[len - 16..len], &src[len - 16..len]);
        store(dst, 0, head.as_slice());
        store(dst, len - 16, tail.as_slice());
    } else {
        let mut at: usize = 0;
        while at < len
            invariant
                dst@.len() == old(dst)@.len(),
                at <= len,
                len <= dst@.len(),
                len <= src@.len(),
                forall|i: int|
                    0 <= i < dst@.len() ==> #[trigger] dst@[i] == if i < at {
                        old(dst)@[i] ^ src@[i]
                    } else {
                        old(dst)@[i]
                    },
            decreases len - at,
        {
            dst[at] = dst[at] ^ src[at];
            at = at + 1;
        }
    }
}

/// XORing the same bytes in twice gives back what was there.
pub proof fn law_xor_twice(dst: Seq<u8>, src: Seq<u8>)
    ensures
        xored(xored(dst, src), src) == dst,
{
    assert forall|i: int| 0 <= i < dst.len() implies #[trigger] xored(xored(dst, src), src)[i]
        == dst[i] by {
        if i < src.len() {
            let a = dst[i];
            let b = src[i];
            assert((a ^ b) ^ b == a) by (bit_vector);
        }
    }
    assert(xored(xored(dst, src), src) =~= dst);
}

/// XORing a short packet in is the same as XORing it in zero-padded.
pub proof fn law_xor_padded(dst: Seq<u8>, src: Seq<u8>, zeros: nat)
    ensures
        xored(dst, src + Seq::new(zeros, |i: int| 0u8)) == xored(dst, src),
{
    let padded = src + Seq::new(zeros, |i: int| 0u8);
    assert forall|i: int| 0 <= i < dst.len() implies #[trigger] xored(dst, padded)[i] == xored(
        dst,
        src,
    )[i] by {
        let a = dst[i];
        assert(a ^ 0 == a) by (bit_vector);
    }
    assert(xored(dst, padded) =~= xored(dst, src));
}

/// The order in which packets are folded in does not matter, so the survivors can be XORed back
/// out in any order.
pub proof fn law_xor_commutes(dst: Seq<u8>, a: Seq<u8>, b: Seq<u8>)
    ensures
        xored(xored(dst, a), b) == xored(xored(dst, b), a),
{
    assert forall|i: int| 0 <= i < dst.len() implies #[trigger] xored(xored(dst, a), b)[i] == xored(
        xored(dst, b),
        a,
    )[i] by {
        if i < a.len() && i < b.len() {
            let x = dst[i];
            let y = a[i];
            let z = b[i];
            assert((x ^ y) ^ z == (x ^ z) ^ y) by (bit_vector);
        }
    }
    assert(xored(xored(dst, a), b) =~= xored(xored(dst, b), a));
}

} // verus!
