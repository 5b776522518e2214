//! Counting lost packets in a circular receipt bitmap, one bit at a time and one word at a time.

use crate::bitmap;
use crate::bits;
use crate::seqnum;
use vstd::prelude::*;

verus! {

/// How many of the `count` packets from `start` are not marked as received.
pub open spec fn lost(bits: Seq<u64>, start: u16, count: u16) -> nat {
    bitmap::zero_offsets(bits, start as int, count as nat).len()
}

/// Counts the packets one at a time.
pub fn loss_per_bit(bits: &[u64], start: u16, count: u16) -> (losses: u32)
    requires
        seqnum::is_window_size(bitmap::capacity(bits@)),
    ensures
        losses == lost(bits@, start, count),
{
    let capacity: usize = bits.len() * 64;
    let mut losses: u32 = 0;
    let mut seq: u16 = start;
    let mut i: u16 = 0;
    while i < count
        invariant
            seqnum::is_window_size(capacity as int),
            capacity == bits@.len() * 64,
            i <= count,
            seq == start.wrapping_add(i),
            losses == bitmap::zero_offsets(bits@, start as int, i as nat).len(),
            losses <= i,
        decreases count - i,
    {
        let pos: usize = seq as usize % capacity;
        let word: u64 = bits[pos / 64];
        let low: u64 = (pos % 64) as u64;
        proof {
            crate::bits::lemma_test(word, low);
            seqnum::lemma_round(start + i, capacity as int);
            seqnum::lemma_round(seq as int, capacity as int);
            assert((start + i) % 65536 == seq as int % 65536);
            assert(bitmap::bit_at(bits@, start + i) == bits::bit(word, low as int));
        }
        if word & (1u64 << low) == 0 {
            losses = losses + 1;
        }
        seq = seq.wrapping_add(1);
        i = i + 1;
    }
    losses
}

/// Counts the packets one word at a time.
pub fn loss_by_word(bits: &[u64], start: u16, count: u16) -> (losses: u32)
    requires
        seqnum::is_window_size(bitmap::capacity(bits@)),
    ensures
        losses == lost(bits@, start, count),
{
    proof {
        bitmap::lemma_zero_offsets_grow(bits@, start as int, 0, count as nat);
    }
    crate::bitmap::count_zeros(bits, start as usize, count as usize)
}

/// A packet more adds one to the losses where it is not marked as received, and nothing where it is.
pub proof fn law_each_unmarked_packet_is_lost(bits: Seq<u64>, start: u16, count: u16)
    requires
        count > 0,
    ensures
        lost(bits, start, 0) == 0,
        bitmap::bit_at(bits, start + count - 1) ==> lost(bits, start, count) == lost(
            bits,
            start,
            (count - 1) as u16,
        ),
        !bitmap::bit_at(bits, start + count - 1) ==> lost(bits, start, count) == lost(
            bits,
            start,
            (count - 1) as u16,
        ) + 1,
{
}

} // verus!
