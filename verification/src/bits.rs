//! Bits of machine words, as the specifications speak of them.

use vstd::prelude::*;

verus! {

/// Bit `i` of `word`, counted from the least significant.
pub open spec fn bit(word: u64, i: int) -> bool {
    (word >> (i as u64)) & 1 == 1
}

/// How many of the lowest `n` bits of `word` are set.
pub open spec fn ones_below(word: u64, n: nat) -> nat
    decreases n,
{
    if n == 0 {
        0
    } else {
        ones_below(word, (n - 1) as nat) + if bit(word, n - 1) {
            1nat
        } else {
            0nat
        }
    }
}

/// `u64::count_ones` returns the number of ones in the binary representation.
pub assume_specification[ u64::count_ones ](word: u64) -> (count: u32)
    ensures
        count == ones_below(word, 64),
;

/// A word and its complement have opposite bits.
pub proof fn lemma_not(word: u64, i: int)
    requires
        0 <= i < 64,
    ensures
        bit(!word, i) == !bit(word, i),
{
    let s = i as u64;
    assert(((!word) >> s) & 1 == 1 <==> !((word >> s) & 1 == 1)) by (bit_vector)
        requires
            s < 64,
    ;
}

/// `&` works bit by bit.
pub proof fn lemma_and(a: u64, b: u64, i: int)
    requires
        0 <= i < 64,
    ensures
        bit(a & b, i) == (bit(a, i) && bit(b, i)),
{
    let s = i as u64;
    assert(((a & b) >> s) & 1 == 1 <==> ((a >> s) & 1 == 1 && (b >> s) & 1 == 1)) by (bit_vector)
        requires
            s < 64,
    ;
}

/// `|` works bit by bit.
pub proof fn lemma_or(a: u64, b: u64, i: int)
    requires
        0 <= i < 64,
    ensures
        bit(a | b, i) == (bit(a, i) || bit(b, i)),
{
    let s = i as u64;
    assert(((a | b) >> s) & 1 == 1 <==> ((a >> s) & 1 == 1 || (b >> s) & 1 == 1)) by (bit_vector)
        requires
            s < 64,
    ;
}

/// The bits from `low` up.
pub proof fn lemma_head_mask(low: u64, i: int)
    requires
        low < 64,
        0 <= i < 64,
    ensures
        bit(u64::MAX << low, i) == (low <= i),
{
    let s = i as u64;
    assert(((0xffff_ffff_ffff_ffffu64 << low) >> s) & 1 == 1 <==> low <= s) by (bit_vector)
        requires
            s < 64,
            low < 64,
    ;
}

/// The bits up to and including `high`.
pub proof fn lemma_tail_mask(high: u64, i: int)
    requires
        high < 64,
        0 <= i < 64,
    ensures
        bit(u64::MAX >> ((63 - high) as u64), i) == (i <= high),
{
    let s = i as u64;
    let d = (63 - high) as u64;
    assert(((0xffff_ffff_ffff_ffffu64 >> d) >> s) & 1 == 1 <==> s + d <= 63) by (bit_vector)
        requires
            s < 64,
            d < 64,
    ;
}

/// A single bit.
pub proof fn lemma_single(at: u64, i: int)
    requires
        at < 64,
        0 <= i < 64,
    ensures
        bit(1u64 << at, i) == (i == at),
{
    let s = i as u64;
    assert(((1u64 << at) >> s) & 1 == 1 <==> s == at) by (bit_vector)
        requires
            s < 64,
            at < 64,
    ;
}

/// Testing a word against a single bit reads that bit.
pub proof fn lemma_test(word: u64, at: u64)
    requires
        at < 64,
    ensures
        (word & (1u64 << at) != 0) == bit(word, at as int),
{
    assert((word & (1u64 << at) != 0) == ((word >> at) & 1 == 1)) by (bit_vector)
        requires
            at < 64,
    ;
}

/// Zero has no bits.
pub proof fn lemma_zero(i: int)
    requires
        0 <= i < 64,
    ensures
        !bit(0, i),
{
    let s = i as u64;
    assert((0u64 >> s) & 1 == 0) by (bit_vector);
}

/// A word other than zero has its lowest set bit where its trailing zeros end, and
/// `word & (word - 1)` drops that bit alone.
pub proof fn lemma_lowest(word: u64)
    requires
        word != 0,
    ensures
        0 <= u64::trailing_zeros(word) < 64,
        bit(word, u64::trailing_zeros(word) as int),
        forall|i: int| 0 <= i < u64::trailing_zeros(word) ==> !#[trigger] bit(word, i),
        forall|i: int|
            0 <= i < 64 ==> #[trigger] bit(word & ((word - 1) as u64), i) == (bit(word, i) && i
                != u64::trailing_zeros(word)),
{
    vstd::std_specs::bits::axiom_u64_trailing_zeros(word);
    let t = u64::trailing_zeros(word) as u64;
    assert forall|i: int| 0 <= i < t implies !#[trigger] bit(word, i) by {
        assert((word >> (i as u64)) & 1u64 == 0u64);
    }
    let less = (word - 1) as u64;
    let shift = (64 - t) as u64;
    assert forall|i: int| 0 <= i < 64 implies #[trigger] bit(word & less, i) == (bit(word, i) && i
        != t) by {
        let s = i as u64;
        assert(((word & less) >> s) & 1 == 1 <==> ((word >> s) & 1 == 1 && s != t))
            by (bit_vector)
            requires
                word != 0,
                less == word - 1,
                t < 64,
                s < 64,
                (word >> t) & 1 == 1,
                shift == 64 - t,
                t == 0 || word << shift == 0,
        ;
    }
}

/// At most `n` of the lowest `n` bits are set.
pub proof fn lemma_ones_bound(word: u64, n: nat)
    ensures
        ones_below(word, n) <= n,
    decreases n,
{
    if n > 0 {
        lemma_ones_bound(word, (n - 1) as nat);
    }
}

/// Bits that are clear add nothing to the count.
pub proof fn lemma_ones_skip(word: u64, from: nat, to: nat)
    requires
        from <= to,
        forall|i: int| from <= i < to ==> !bit(word, i),
    ensures
        ones_below(word, to) == ones_below(word, from),
    decreases to,
{
    if from < to {
        lemma_ones_skip(word, from, (to - 1) as nat);
        assert(!bit(word, to - 1));
    }
}

} // verus!
