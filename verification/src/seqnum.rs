//! Sequence numbers and the circular windows that are kept of them.
//!
//! A window of a power-of-two size gives each sequence number the slot `seq % size`. Sequence
//! numbers wrap at 65536, which every window size divides, so the slot of a number does not depend
//! on how often the numbers have gone round.

use crate::bitmap;
use vstd::arithmetic::div_mod::lemma_mod_mod;
use vstd::prelude::*;

verus! {

/// Half of the sequence number space: what lies less than this ahead is newer.
pub const UINT16_SIZE_HALF: u16 = 32768;

/// The sizes that a window can have: the powers of two that are sequence numbers, up to 32768.
pub open spec fn is_window_size(size: int) -> bool {
    size == 1 || size == 2 || size == 4 || size == 8 || size == 16 || size == 32 || size == 64 || size == 128 || size == 256 || size == 512 || size == 1024 || size == 2048 || size == 4096 || size == 8192 || size == 16384 || size == 32768
}

/// Whether `size` is a size that a window can have.
pub fn window_size(size: u16) -> (valid: bool)
    ensures
        valid == is_window_size(size as int),
{
    size == 1 || size == 2 || size == 4 || size == 8 || size == 16 || size == 32 || size == 64 || size == 128 || size == 256 || size == 512 || size == 1024 || size == 2048 || size == 4096 || size == 8192 || size == 16384 || size == 32768
}

/// Going round the sequence number space does not change who owns a slot.
pub proof fn lemma_round(x: int, size: int)
    requires
        is_window_size(size),
    ensures
        (x % 65536) % size == x % size,
{
    if size == 1 {
        lemma_mod_mod(x, 1, 65536);
    } else if size == 2 {
        lemma_mod_mod(x, 2, 32768);
    } else if size == 4 {
        lemma_mod_mod(x, 4, 16384);
    } else if size == 8 {
        lemma_mod_mod(x, 8, 8192);
    } else if size == 16 {
        lemma_mod_mod(x, 16, 4096);
    } else if size == 32 {
        lemma_mod_mod(x, 32, 2048);
    } else if size == 64 {
        lemma_mod_mod(x, 64, 1024);
    } else if size == 128 {
        lemma_mod_mod(x, 128, 512);
    } else if size == 256 {
        lemma_mod_mod(x, 256, 256);
    } else if size == 512 {
        lemma_mod_mod(x, 512, 128);
    } else if size == 1024 {
        lemma_mod_mod(x, 1024, 64);
    } else if size == 2048 {
        lemma_mod_mod(x, 2048, 32);
    } else if size == 4096 {
        lemma_mod_mod(x, 4096, 16);
    } else if size == 8192 {
        lemma_mod_mod(x, 8192, 8);
    } else if size == 16384 {
        lemma_mod_mod(x, 16384, 4);
    } else if size == 32768 {
        lemma_mod_mod(x, 32768, 2);
    }
}

/// Masking with the size less one finds the slot.
pub proof fn lemma_mask(seq: u16, size: u16)
    requires
        is_window_size(size as int),
    ensures
        seq & ((size - 1) as u16) == seq % size,
{
    let mask = (size - 1) as u16;
    assert(seq & mask == seq % size) by (bit_vector)
        requires
            mask == size - 1,
            size == 1 || size == 2 || size == 4 || size == 8 || size == 16 || size == 32 || size == 64 || size == 128 || size == 256 || size == 512 || size == 1024 || size == 2048 || size == 4096 || size == 8192 || size == 16384 || size == 32768,
    ;
}

/// Two numbers less than a window apart own different slots.
pub proof fn lemma_slots_differ(older: u16, newer: u16, size: int)
    requires
        is_window_size(size),
        0 < newer.wrapping_sub(older) < size,
    ensures
        older as int % size != newer as int % size,
{
    let d = newer.wrapping_sub(older) as int;
    lemma_round(newer - older, size);
    assert((newer - older) % 65536 == d);
    vstd::arithmetic::div_mod::lemma_small_mod(d as nat, size as nat);
    vstd::arithmetic::div_mod::lemma_sub_mod_noop(newer as int, older as int, size);
    vstd::arithmetic::div_mod::lemma_small_mod(0, size as nat);
}

/// A range of slots covers the slot of a number by the number's distance from its start.
pub proof fn lemma_covers_number(first: u16, len: int, seq: u16, size: int)
    requires
        is_window_size(size),
    ensures
        bitmap::covers(size, first as int, len, seq as int % size) == ((seq.wrapping_sub(first)) as int
            % size < len),
{
    lemma_round(seq - first, size);
    assert((seq - first) % 65536 == seq.wrapping_sub(first));
    vstd::arithmetic::div_mod::lemma_sub_mod_noop(seq as int, first as int, size);
    vstd::arithmetic::div_mod::lemma_sub_mod_noop(seq as int % size, first as int, size);
    vstd::arithmetic::div_mod::lemma_mod_twice(seq as int, size);
}

/// A number behind `end` lies, counted round the window, far ahead of the one after `end`.
pub proof fn lemma_just_behind(end: u16, seq: u16, size: int)
    requires
        is_window_size(size),
        end.wrapping_sub(seq) < size,
    ensures
        seq.wrapping_sub(end.wrapping_add(1)) as int % size == size - 1 - end.wrapping_sub(seq),
{
    let behind = end.wrapping_sub(seq) as int;
    let t = seq.wrapping_sub(end.wrapping_add(1)) as int;
    assert((-1 - behind) % 65536 == t);
    lemma_round(-1 - behind, size);
    vstd::arithmetic::div_mod::lemma_mod_add_multiples_vanish(-1 - behind, size);
    vstd::arithmetic::div_mod::lemma_small_mod((size - 1 - behind) as nat, size as nat);
}

/// The sizes of a window are the powers of two: those that share no bit with the number before them.
pub proof fn law_window_sizes_are_powers_of_two(size: u16)
    ensures
        is_window_size(size as int) <==> size != 0 && size & ((size - 1) as u16) == 0,
{
    if size != 0 {
        let less = (size - 1) as u16;
        assert((size & less == 0) <==> (size == 1 || size == 2 || size == 4 || size == 8 || size
            == 16 || size == 32 || size == 64 || size == 128 || size == 256 || size == 512 || size
            == 1024 || size == 2048 || size == 4096 || size == 8192 || size == 16384 || size
            == 32768)) by (bit_vector)
            requires
                size != 0,
                less == (size - 1) as u16,
        ;
    }
}

} // verus!
