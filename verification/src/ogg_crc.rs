//! The checksum of Ogg pages: a non-reflected CRC-32 with the polynomial 0x04c11db7, initial state
//! zero and no final XOR.

use vstd::prelude::*;

verus! {

/// The generator polynomial.
pub const POLYNOMIAL: u32 = 0x04c1_1db7;

/// The state after one bit was shifted out.
pub open spec fn shift_bit(state: u32) -> u32 {
    if state & 0x8000_0000 != 0 {
        (state << 1) ^ POLYNOMIAL
    } else {
        state << 1
    }
}

/// The state after `n` bits were shifted out.
pub open spec fn shift_bits(state: u32, n: nat) -> u32
    decreases n,
{
    if n == 0 {
        state
    } else {
        shift_bit(shift_bits(state, (n - 1) as nat))
    }
}

/// The state after `data` was taken in, byte by byte: each is added to the top of the state, and
/// its eight bits are shifted out.
pub open spec fn crc(state: u32, data: Seq<u8>) -> u32
    decreases data.len(),
{
    if data.len() == 0 {
        state
    } else {
        let before = crc(state, data.drop_last());
        shift_bits(before ^ ((data.last() as u32) << 24), 8)
    }
}

/// What shifting out the byte `i` alone leaves behind, for each byte.
fn checksum_table() -> (table: Vec<u32>)
    ensures
        table@.len() == 256,
        forall|i: int| 0 <= i < 256 ==> #[trigger] table@[i] == shift_bits((i as u32) << 24, 8),
{
    let mut table: Vec<u32> = Vec::new();
    let mut i: u32 = 0;
    while i < 256
        invariant
            i <= 256,
            table@.len() == i,
            forall|k: int| 0 <= k < i ==> #[trigger] table@[k] == shift_bits((k as u32) << 24, 8),
        decreases 256 - i,
    {
        let mut r: u32 = i << 24;
        let mut bit: u32 = 0;
        while bit < 8
            invariant
                bit <= 8,
                r == shift_bits(i << 24, bit as nat),
            decreases 8 - bit,
        {
            r = if r & 0x8000_0000 != 0 {
                (r << 1) ^ POLYNOMIAL
            } else {
                r << 1
            };
            bit = bit + 1;
        }
        table.push(r);
        i = i + 1;
    }
    table
}

/// Shifting out is linear: what the top byte leaves behind is added to the rest, moved up.
proof fn lemma_top_byte(state: u32, v: u8)
    ensures
        shift_bits(state ^ ((v as u32) << 24), 8) == (state << 8) ^ shift_bits(
            (((state >> 24) as u8 ^ v) as u32) << 24,
            8,
        ),
{
    reveal_with_fuel(shift_bits, 9);
    let a = state ^ ((v as u32) << 24);
    let top = (((state >> 24) as u8 ^ v) as u32) << 24;
    let a1 = shift_bit(a);
    let a2 = shift_bit(a1);
    let a3 = shift_bit(a2);
    let a4 = shift_bit(a3);
    let a5 = shift_bit(a4);
    let a6 = shift_bit(a5);
    let a7 = shift_bit(a6);
    let t1 = shift_bit(top);
    let t2 = shift_bit(t1);
    let t3 = shift_bit(t2);
    let t4 = shift_bit(t3);
    let t5 = shift_bit(t4);
    let t6 = shift_bit(t5);
    let t7 = shift_bit(t6);
    let low = state & 0x00ff_ffff;
    assert(a == top ^ low) by (bit_vector)
        requires
            a == state ^ ((v as u32) << 24),
            top == (((state >> 24) as u8 ^ v) as u32) << 24,
            low == state & 0x00ff_ffff,
    ;
    lemma_linear(top, low);
    lemma_linear(t1, low << 1);
    lemma_linear(t2, low << 2);
    lemma_linear(t3, low << 3);
    lemma_linear(t4, low << 4);
    lemma_linear(t5, low << 5);
    lemma_linear(t6, low << 6);
    lemma_linear(t7, low << 7);
    assert((low << 1) << 1 == low << 2 && (low << 2) << 1 == low << 3 && (low << 3) << 1 == low << 4
        && (low << 4) << 1 == low << 5 && (low << 5) << 1 == low << 6 && (low << 6) << 1 == low << 7
        && (low << 7) << 1 == state << 8 && low & 0x8000_0000 == 0 && (low << 1) & 0x8000_0000 == 0
        && (low << 2) & 0x8000_0000 == 0 && (low << 3) & 0x8000_0000 == 0 && (low << 4)
        & 0x8000_0000 == 0 && (low << 5) & 0x8000_0000 == 0 && (low << 6) & 0x8000_0000 == 0 && (low
        << 7) & 0x8000_0000 == 0) by (bit_vector)
        requires
            low == state & 0x00ff_ffff,
    ;
    let x = shift_bit(t7);
    let y = state << 8;
    assert(x ^ y == y ^ x) by (bit_vector);
}

/// One bit shifted out of a sum whose second part does not reach the top.
proof fn lemma_linear(x: u32, low: u32)
    ensures
        low & 0x8000_0000 == 0 ==> shift_bit(x ^ low) == shift_bit(x) ^ (low << 1),
{
    assert(low & 0x8000_0000 == 0 ==> (if (x ^ low) & 0x8000_0000 != 0 {
        ((x ^ low) << 1) ^ 0x04c1_1db7u32
    } else {
        (x ^ low) << 1
    }) == (if x & 0x8000_0000 != 0 {
        (x << 1) ^ 0x04c1_1db7u32
    } else {
        x << 1
    }) ^ (low << 1)) by (bit_vector);
}

/// The checksum of `data` from the state `sum`, a byte at a time through a table.
pub fn ogg_table(sum: u32, data: &[u8]) -> (out: u32)
    ensures
        out == crc(sum, data@),
{
    let table = checksum_table();
    let mut state: u32 = sum;
    let mut i: usize = 0;
    while i < data.len()
        invariant
            i <= data@.len(),
            state == crc(sum, data@.subrange(0, i as int)),
            table@.len() == 256,
            forall|k: int| 0 <= k < 256 ==> #[trigger] table@[k] == shift_bits((k as u32) << 24, 8),
        decreases data@.len() - i,
    {
        let v: u8 = data[i];
        let top: u8 = ((state >> 24) as u8) ^ v;
        proof {
            lemma_top_byte(state, v);
            let next = data@.subrange(0, i + 1);
            assert(next.drop_last() =~= data@.subrange(0, i as int));
            assert(table@[top as int] == shift_bits((top as u32) << 24, 8));
        }
        state = (state << 8) ^ table[top as usize];
        i = i + 1;
    }
    assert(data@.subrange(0, data@.len() as int) =~= data@);
    state
}

/// The checksum can be taken in parts: going on from the checksum of the first part gives the
/// checksum of the whole.
pub proof fn law_crc_in_parts(state: u32, a: Seq<u8>, b: Seq<u8>)
    ensures
        crc(crc(state, a), b) == crc(state, a + b),
    decreases b.len(),
{
    if b.len() == 0 {
        assert(a + b =~= a);
    } else {
        law_crc_in_parts(state, a, b.drop_last());
        assert((a + b).drop_last() =~= a + b.drop_last());
    }
}

} // verus!
