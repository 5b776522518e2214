//! Word-at-a-time operations on circular receipt bitmaps.
//!
//! The NACK receive log and the receiver-report stream each keep one bit per RTP sequence number
//! in a slice of 64-bit words, with `seq` at bit `seq % capacity`. A run of sequence numbers is
//! therefore a *circular* range of bits: it starts anywhere, may wrap past the end of the bitmap,
//! and, when it is longer than the capacity, comes round again and re-reads bits it has already
//! visited.
//!
//! These helpers take such a range as a start bit (any value; it is reduced modulo the capacity)
//! and a length in bits. They split it at the wrap into linear segments and process each segment
//! a word at a time. The contracts state the result of the walk one bit at a time.

use crate::bits;
use vstd::prelude::*;

verus! {

/// Bits per bitmap word.
pub const WORD_BITS: usize = 64;

/// The number of bits that a bitmap of these words holds.
pub open spec fn capacity(words: Seq<u64>) -> int {
    (words.len() * 64) as int
}

/// The bit at position `pos` of the bitmap, read circularly.
pub open spec fn bit_at(words: Seq<u64>, pos: int) -> bool {
    let p = pos % capacity(words);
    bits::bit(words[p / 64], p % 64)
}

/// The walk, one bit at a time, over the circular range of `len` bits starting at `start`: the
/// distances from the start at which it reads a clear bit, in the order in which it reads them.
pub open spec fn zero_offsets(words: Seq<u64>, start: int, len: nat) -> Seq<usize>
    decreases len,
{
    if len == 0 {
        Seq::empty()
    } else {
        let before = zero_offsets(words, start, (len - 1) as nat);
        if bit_at(words, start + len - 1) {
            before
        } else {
            before.push((len - 1) as usize)
        }
    }
}

/// Whether the circular range of `len` bits starting at `start` covers position `pos` of a bitmap
/// with `capacity` bits.
pub open spec fn covers(capacity: int, start: int, len: int, pos: int) -> bool {
    (pos - start) % capacity < len
}

/// What a bitmap needs to be worked on: it is not empty, and its bits can be counted.
pub open spec fn is_bitmap(words: Seq<u64>) -> bool {
    1 <= words.len() && capacity(words) <= usize::MAX
}

/// Within one round, stepping on adds to the remainder.
pub proof fn lemma_mod_step(a: int, k: int, m: int)
    requires
        m > 0,
        0 <= k,
        a % m + k < m,
    ensures
        (a + k) % m == a % m + k,
{
    vstd::arithmetic::div_mod::lemma_fundamental_div_mod(a, m);
    vstd::arithmetic::mul::lemma_mul_is_commutative(m, a / m);
    vstd::arithmetic::div_mod::lemma_fundamental_div_mod_converse(
        a + k,
        m,
        a / m,
        a % m + k,
    );
}

/// Reading on from a position stays in its word until the word ends.
proof fn lemma_bit_in_word(words: Seq<u64>, pos: int, k: int)
    requires
        is_bitmap(words),
        0 <= k,
        (pos % capacity(words)) % 64 + k < 64,
    ensures
        0 <= (pos % capacity(words)) / 64 < words.len(),
        bit_at(words, pos + k) == bits::bit(
            words[(pos % capacity(words)) / 64],
            (pos % capacity(words)) % 64 + k,
        ),
{
    lemma_mod_step(pos, k, capacity(words));
}

/// A walk finds no more clear bits than it reads, and the longer walk finds what the shorter one
/// finds.
pub proof fn lemma_zero_offsets_grow(words: Seq<u64>, start: int, shorter: nat, len: nat)
    requires
        shorter <= len,
    ensures
        zero_offsets(words, start, shorter).len() <= zero_offsets(words, start, len).len()
            <= zero_offsets(words, start, shorter).len() + (len - shorter),
        zero_offsets(words, start, len).len() <= len,
        zero_offsets(words, start, shorter) == zero_offsets(words, start, len).subrange(
            0,
            zero_offsets(words, start, shorter).len() as int,
        ),
    decreases len,
{
    if shorter < len {
        lemma_zero_offsets_grow(words, start, shorter, (len - 1) as nat);
    } else if len > 0 {
        lemma_zero_offsets_grow(words, start, (len - 1) as nat, (len - 1) as nat);
    }
}

/// What the walk collects: the offsets of the clear bits, each once, in ascending order.
pub proof fn lemma_zero_offsets(words: Seq<u64>, start: int, len: nat)
    requires
        len <= usize::MAX,
    ensures
        forall|i: int|
            0 <= i < len ==> #[trigger] zero_offsets(words, start, len).contains(i as usize)
                == !bit_at(words, start + i),
        forall|k: int|
            0 <= k < zero_offsets(words, start, len).len() ==> #[trigger] zero_offsets(
                words,
                start,
                len,
            )[k] < len,
        forall|j: int, k: int|
            0 <= j < k < zero_offsets(words, start, len).len() ==> #[trigger] zero_offsets(
                words,
                start,
                len,
            )[j] < #[trigger] zero_offsets(words, start, len)[k],
    decreases len,
{
    let all = zero_offsets(words, start, len);
    if len > 0 {
        let last = (len - 1) as nat;
        let before = zero_offsets(words, start, last);
        lemma_zero_offsets(words, start, last);
        assert forall|i: int| 0 <= i < len implies #[trigger] all.contains(i as usize) == !bit_at(
            words,
            start + i,
        ) by {
            if i < last {
                assert(before.contains(i as usize) == !bit_at(words, start + i));
                if before.contains(i as usize) {
                    let k = choose|k: int| 0 <= k < before.len() && before[k] == i as usize;
                    assert(all[k] == i as usize);
                }
            } else if !bit_at(words, start + i) {
                assert(all[all.len() - 1] == i as usize);
            }
        }
    }
}

/// The clear bits that a word shows between its bits `low` and `low + n` are those that the walk
/// finds there.
proof fn lemma_count_word(words: Seq<u64>, start: int, offset: nat, n: nat, zeros: u64, k: nat)
    requires
        is_bitmap(words),
        k <= n,
        ({
            let p = (start + offset) % capacity(words);
            let low = p % 64;
            &&& low + n <= 64
            &&& forall|i: int|
                0 <= i < 64 ==> #[trigger] bits::bit(zeros, i) == (low <= i < low + n && !bits::bit(
                    words[p / 64],
                    i,
                ))
        }),
    ensures
        zero_offsets(words, start, offset + k).len() == zero_offsets(words, start, offset).len()
            + bits::ones_below(zeros, ((start + offset) % capacity(words) % 64 + k) as nat),
    decreases k,
{
    let p = (start + offset) % capacity(words);
    let low = (p % 64) as nat;
    if k == 0 {
        crate::bits::lemma_ones_skip(zeros, 0, low);
    } else {
        let j = (k - 1) as nat;
        lemma_count_word(words, start, offset, n, zeros, j);
        lemma_bit_in_word(words, start + offset, j as int);
        assert(bits::bit(zeros, (low + j) as int) == !bits::bit(words[p / 64], (low + j) as int));
        assert(start + (offset + k) - 1 == start + offset + j);
    }
}

/// Where all bits are set the walk finds nothing.
proof fn lemma_zero_offsets_skip(words: Seq<u64>, start: int, from: nat, to: nat)
    requires
        from <= to,
        forall|i: int| from <= i < to ==> #[trigger] bit_at(words, start + i),
    ensures
        zero_offsets(words, start, to) == zero_offsets(words, start, from),
    decreases to,
{
    if from < to {
        lemma_zero_offsets_skip(words, start, from, (to - 1) as nat);
        assert(bit_at(words, start + (to - 1)));
    }
}

/// The linear segment in which the circular range of `len` bits starting at bit `start` continues
/// at distance `offset`: the bit where it begins, and its length.
///
/// A range longer than the capacity yields more than two segments, the later ones covering bits
/// again that were visited before.
fn segment(words: usize, start: usize, len: usize, offset: usize) -> (segment: (usize, usize))
    requires
        1 <= words,
        words * 64 <= usize::MAX,
        offset < len,
    ensures
        segment.0 == (start + offset) % (words * 64),
        segment.1 == if len - offset <= words * 64 - segment.0 {
            len - offset
        } else {
            words * 64 - segment.0
        },
        segment.1 >= 1,
{
    let capacity: usize = words * WORD_BITS;
    let start_bit: usize = start % capacity;
    let offset_bit: usize = offset % capacity;
    let bit: usize = if start_bit < capacity - offset_bit {
        start_bit + offset_bit
    } else {
        start_bit - (capacity - offset_bit)
    };
    proof {
        let c = capacity as int;
        vstd::arithmetic::div_mod::lemma_add_mod_noop(start as int, offset as int, c);
        if start_bit + offset_bit < c {
            vstd::arithmetic::div_mod::lemma_small_mod((start_bit + offset_bit) as nat, c as nat);
        } else {
            vstd::arithmetic::div_mod::lemma_mod_sub_multiples_vanish(start_bit + offset_bit, c);
            vstd::arithmetic::div_mod::lemma_small_mod(
                (start_bit + offset_bit - c) as nat,
                c as nat,
            );
        }
    }
    let rest: usize = len - offset;
    let room: usize = capacity - bit;
    (bit, if rest <= room { rest } else { room })
}

/// The bits of the linear range from bit `start` up to but not including bit `end` that lie in the
/// word `word`, as a mask over that word.
fn range_mask(start: usize, end: usize, word: usize) -> (mask: u64)
    requires
        start < end,
        start / 64 <= word <= (end - 1) / 64,
    ensures
        forall|i: int|
            0 <= i < 64 ==> #[trigger] bits::bit(mask, i) == (start <= word * 64 + i < end),
{
    let first: usize = start / WORD_BITS;
    let last: usize = (end - 1) / WORD_BITS;
    let head: u64 = u64::MAX << ((start % WORD_BITS) as u64);
    let tail: u64 = u64::MAX >> ((WORD_BITS - 1 - (end - 1) % WORD_BITS) as u64);
    let mask: u64 = if first == last {
        head & tail
    } else if word == first {
        head
    } else if word == last {
        tail
    } else {
        u64::MAX
    };
    assert forall|i: int| 0 <= i < 64 implies #[trigger] bits::bit(mask, i) == (start <= word * 64 + i
        < end) by {
        crate::bits::lemma_head_mask((start % WORD_BITS) as u64, i);
        crate::bits::lemma_tail_mask(((end - 1) % 64) as u64, i);
        crate::bits::lemma_and(head, tail, i);
        crate::bits::lemma_not(0, i);
        crate::bits::lemma_zero(i);
        assert(!0u64 == u64::MAX) by (bit_vector);
    }
    mask
}

/// A walk depends on where in the bitmap it starts, not on how often the start has gone round.
proof fn lemma_zero_offsets_round(words: Seq<u64>, a: int, b: int, len: nat)
    requires
        is_bitmap(words),
        a % capacity(words) == b % capacity(words),
    ensures
        zero_offsets(words, a, len) == zero_offsets(words, b, len),
    decreases len,
{
    if len > 0 {
        lemma_zero_offsets_round(words, a, b, (len - 1) as nat);
        vstd::arithmetic::div_mod::lemma_add_mod_noop(a, len - 1, capacity(words));
        vstd::arithmetic::div_mod::lemma_add_mod_noop(b, len - 1, capacity(words));
    }
}

/// A walk finds as many clear bits as its two parts.
proof fn lemma_zero_offsets_split(words: Seq<u64>, start: int, a: nat, b: nat)
    ensures
        zero_offsets(words, start, a + b).len() == zero_offsets(words, start, a).len()
            + zero_offsets(words, start + a, b).len(),
    decreases b,
{
    if b > 0 {
        lemma_zero_offsets_split(words, start, a, (b - 1) as nat);
        assert(start + (a + b) - 1 == start + a + b - 1);
    }
}

/// Number of clear bits in the circular range of `len` bits starting at bit `start`.
///
/// Bits are counted once per visit, so a range longer than the capacity counts the bits it
/// re-reads again.
pub fn count_zeros(words: &[u64], start: usize, len: usize) -> (zeros: u32)
    requires
        is_bitmap(words@),
        zero_offsets(words@, start as int, len as nat).len() <= u32::MAX,
    ensures
        zeros == zero_offsets(words@, start as int, len as nat).len(),
{
    let mut zeros: u32 = 0;
    let mut offset: usize = 0;
    while offset < len
        invariant
            is_bitmap(words@),
            offset <= len,
            zero_offsets(words@, start as int, len as nat).len() <= u32::MAX,
            zeros == zero_offsets(words@, start as int, offset as nat).len(),
        decreases len - offset,
    {
        let (from, n) = segment(words.len(), start, len, offset);
        proof {
            lemma_zero_offsets_grow(words@, start as int, (offset + n) as nat, len as nat);
            lemma_zero_offsets_split(words@, start as int, offset as nat, n as nat);
            vstd::arithmetic::div_mod::lemma_small_mod(from as nat, capacity(words@) as nat);
            lemma_zero_offsets_round(words@, from as int, start + offset, n as nat);
        }
        zeros = zeros + count_zeros_linear(words, from, n);
        offset = offset + n;
    }
    zeros
}

/// [`count_zeros`] for a range that does not wrap.
fn count_zeros_linear(words: &[u64], start: usize, len: usize) -> (zeros: u32)
    requires
        is_bitmap(words@),
        len >= 1,
        start + len <= capacity(words@),
        zero_offsets(words@, start as int, len as nat).len() <= u32::MAX,
    ensures
        zeros == zero_offsets(words@, start as int, len as nat).len(),
{
    let end: usize = start + len;
    let last: usize = (end - 1) / WORD_BITS;
    let mut word: usize = start / WORD_BITS;
    let mut zeros: u32 = 0;
    let ghost mut done: nat = 0;
    while word <= last
        invariant
            is_bitmap(words@),
            end == start + len,
            start < end <= capacity(words@),
            last == (end - 1) / 64,
            start / 64 <= word <= last + 1,
            done == done_before(start as int, end as int, word as int),
            zero_offsets(words@, start as int, len as nat).len() <= u32::MAX,
            zeros == zero_offsets(words@, start as int, done).len(),
        decreases last + 1 - word,
    {
        let mask: u64 = range_mask(start, end, word);
        let clear: u64 = !words[word] & mask;
        proof {
            let n = (done_before(start as int, end as int, word + 1) - done) as nat;
            lemma_word_of_range(words@, start, end, word, clear, mask);
            lemma_count_word(words@, start as int, done, n, clear, n);
            crate::bits::lemma_ones_skip(clear, ((start + done) % 64) as nat + n, 64);
            lemma_zero_offsets_grow(words@, start as int, done + n, len as nat);
            done = done + n;
        }
        zeros = zeros + clear.count_ones();
        word = word + 1;
    }
    zeros
}

/// How much of the linear range from `start` up to but not including `end` lies before the word
/// `word`.
spec fn done_before(start: int, end: int, word: int) -> int {
    if word * 64 <= start {
        0
    } else if word * 64 <= end {
        word * 64 - start
    } else {
        end - start
    }
}

/// The clear bits of one word of a linear range, cut out by its mask.
proof fn lemma_word_of_range(
    words: Seq<u64>,
    start: usize,
    end: usize,
    word: usize,
    clear: u64,
    mask: u64,
)
    requires
        is_bitmap(words),
        start < end <= capacity(words),
        start / 64 <= word <= (end - 1) / 64,
        clear == !words[word as int] & mask,
        forall|i: int|
            0 <= i < 64 ==> #[trigger] bits::bit(mask, i) == (start <= word * 64 + i < end),
    ensures
        ({
            let done = done_before(start as int, end as int, word as int);
            let n = done_before(start as int, end as int, word + 1) - done;
            let low = (start + done) % 64;
            &&& 0 <= done < end - start
            &&& 1 <= n <= end - start - done
            &&& (start + done) % capacity(words) == start + done
            &&& (start + done) / 64 == word
            &&& low + n <= 64
            &&& forall|i: int|
                0 <= i < 64 ==> #[trigger] bits::bit(clear, i) == (low <= i < low + n && !bits::bit(
                    words[word as int],
                    i,
                ))
        }),
{
    let done = done_before(start as int, end as int, word as int);
    let n = done_before(start as int, end as int, word + 1) - done;
    let low = (start + done) % 64;
    vstd::arithmetic::div_mod::lemma_small_mod((start + done) as nat, capacity(words) as nat);
    assert forall|i: int| 0 <= i < 64 implies #[trigger] bits::bit(clear, i) == (low <= i < low + n
        && !bits::bit(words[word as int], i)) by {
        crate::bits::lemma_and(!words[word as int], mask, i);
        crate::bits::lemma_not(words[word as int], i);
    }
}

/// The offset of each clear bit in the circular range of `len` bits starting at bit `start`, in
/// range order: the bit's distance from the start of the range.
///
/// A range longer than the capacity reports the bits it re-reads again, at their later offsets.
pub fn for_each_zero(words: &[u64], start: usize, len: usize) -> (found: Vec<usize>)
    requires
        is_bitmap(words@),
    ensures
        found@ == zero_offsets(words@, start as int, len as nat),
{
    let mut found: Vec<usize> = Vec::new();
    let mut offset: usize = 0;
    while offset < len
        invariant
            is_bitmap(words@),
            offset <= len,
            found@ == zero_offsets(words@, start as int, offset as nat),
        decreases len - offset,
    {
        let (from, n) = segment(words.len(), start, len, offset);
        let end: usize = from + n;
        let last: usize = (end - 1) / WORD_BITS;
        let mut word: usize = from / WORD_BITS;
        while word <= last
            invariant
                is_bitmap(words@),
                offset + n <= len,
                end == from + n,
                from < end <= capacity(words@),
                from == (start + offset) % capacity(words@),
                last == (end - 1) / 64,
                from / 64 <= word <= last + 1,
                found@ == zero_offsets(
                    words@,
                    start as int,
                    (offset + done_before(from as int, end as int, word as int)) as nat,
                ),
            decreases last + 1 - word,
        {
            let mask: u64 = range_mask(from, end, word);
            let mut zeros: u64 = !words[word] & mask;
            let ghost done = done_before(from as int, end as int, word as int);
            let ghost reach = done_before(from as int, end as int, word + 1);
            let ghost low = (from + done) % 64;
            let ghost mut next: int = low;
            proof {
                lemma_word_of_range(words@, from, end, word, zeros, mask);
                lemma_mod_step(start + offset, done, capacity(words@));
                assert(from + done - low == word * 64);
            }
            while zeros != 0
                invariant
                    is_bitmap(words@),
                    word < words@.len(),
                    offset + n <= len,
                    end == from + n,
                    from < end <= capacity(words@),
                    0 <= done < reach <= n,
                    low == (from + done) % 64,
                    from + done == word * 64 + low,
                    low <= next <= low + (reach - done) <= 64,
                    (start + (offset + done)) % capacity(words@) == from + done,
                    forall|i: int|
                        0 <= i < 64 ==> #[trigger] bits::bit(zeros, i) == (next <= i < low + (reach
                            - done) && !bits::bit(words@[word as int], i)),
                    found@ == zero_offsets(
                        words@,
                        start as int,
                        (offset + done + (next - low)) as nat,
                    ),
                decreases low + (reach - done) - next,
            {
                proof {
                    crate::bits::lemma_lowest(zeros);
                }
                let lowest: usize = zeros.trailing_zeros() as usize;
                let position: usize = word * WORD_BITS + lowest;
                proof {
                    let base = (offset + done) as int;
                    assert forall|i: int|
                        base + (next - low) <= i < base + (lowest - low) implies #[trigger] bit_at(
                        words@,
                        start + i,
                    ) by {
                        let k = i - base;
                        lemma_bit_in_word(words@, start + base, k);
                        assert(start + i == start + base + k);
                        assert(!bits::bit(zeros, low + k));
                    }
                    lemma_zero_offsets_skip(
                        words@,
                        start as int,
                        (base + (next - low)) as nat,
                        (base + (lowest - low)) as nat,
                    );
                    assert(bits::bit(zeros, lowest as int));
                    lemma_bit_in_word(words@, start + base, lowest - low);
                    assert(start + (base + (lowest - low) + 1) - 1 == start + base + (lowest - low));
                }
                found.push(offset + (position - from));
                zeros = zeros & (zeros - 1);
                proof {
                    next = lowest + 1;
                }
            }
            proof {
                let base = (offset + done) as int;
                assert forall|i: int|
                    base + (next - low) <= i < offset + reach implies #[trigger] bit_at(
                    words@,
                    start + i,
                ) by {
                    let k = i - base;
                    lemma_bit_in_word(words@, start + base, k);
                    assert(start + i == start + base + k);
                    crate::bits::lemma_zero(low + k);
                    assert(!bits::bit(zeros, low + k));
                }
                lemma_zero_offsets_skip(
                    words@,
                    start as int,
                    (base + (next - low)) as nat,
                    (offset + reach) as nat,
                );
            }
            word = word + 1;
        }
        offset = offset + n;
    }
    found
}

/// The offset of the first clear bit in the circular range of `len` bits starting at bit `start`,
/// if there is one.
///
/// A range longer than the capacity is searched only once round: if a full pass finds no clear
/// bit, re-reading the same bits will not find one either.
pub fn first_zero(words: &[u64], start: usize, len: usize) -> (found: Option<usize>)
    requires
        is_bitmap(words@),
    ensures
        match found {
            Some(offset) => {
                &&& offset < len
                &&& !bit_at(words@, start + offset)
                &&& forall|i: int| 0 <= i < offset ==> #[trigger] bit_at(words@, start + i)
            },
            None => forall|i: int| 0 <= i < len ==> #[trigger] bit_at(words@, start + i),
        },
{
    let round: usize = words.len() * WORD_BITS;
    let once: usize = if len <= round { len } else { round };
    let mut offset: usize = 0;
    while offset < once
        invariant
            is_bitmap(words@),
            round == capacity(words@),
            once == if len <= round { len } else { round },
            offset <= once <= len,
            forall|i: int| 0 <= i < offset ==> #[trigger] bit_at(words@, start + i),
        decreases once - offset,
    {
        let (from, n) = segment(words.len(), start, once, offset);
        let end: usize = from + n;
        let last: usize = (end - 1) / WORD_BITS;
        let mut word: usize = from / WORD_BITS;
        while word <= last
            invariant
                is_bitmap(words@),
                offset + n <= once <= len,
                end == from + n,
                from < end <= capacity(words@),
                from == (start + offset) % capacity(words@),
                last == (end - 1) / 64,
                from / 64 <= word <= last + 1,
                forall|i: int|
                    0 <= i < offset + done_before(
                        from as int,
                        end as int,
                        word as int,
                    ) ==> #[trigger] bit_at(words@, start + i),
            decreases last + 1 - word,
        {
            let mask: u64 = range_mask(from, end, word);
            let zeros: u64 = !words[word] & mask;
            let ghost done = done_before(from as int, end as int, word as int);
            let ghost reach = done_before(from as int, end as int, word + 1);
            let ghost low = (from + done) % 64;
            let ghost base = offset + done;
            proof {
                lemma_word_of_range(words@, from, end, word, zeros, mask);
                lemma_mod_step(start + offset, done, capacity(words@));
                assert((start + base) % capacity(words@) == from + done);
                assert(from + done == word * 64 + low);
            }
            if zeros != 0 {
                proof {
                    crate::bits::lemma_lowest(zeros);
                }
                let lowest: usize = zeros.trailing_zeros() as usize;
                let position: usize = word * WORD_BITS + lowest;
                proof {
                    assert(bits::bit(zeros, lowest as int));
                    lemma_bit_in_word(words@, start + base, lowest - low);
                    assert forall|i: int|
                        0 <= i < base + (lowest - low) implies #[trigger] bit_at(
                        words@,
                        start + i,
                    ) by {
                        if base <= i {
                            lemma_bit_in_word(words@, start + base, i - base);
                            assert(start + i == start + base + (i - base));
                            assert(!bits::bit(zeros, low + (i - base)));
                        }
                    }
                    assert(start + (offset + (position - from)) == start + base + (lowest - low));
                }
                return Some(offset + (position - from));
            }
            proof {
                assert forall|i: int| 0 <= i < offset + reach implies #[trigger] bit_at(
                    words@,
                    start + i,
                ) by {
                    if base <= i {
                        lemma_bit_in_word(words@, start + base, i - base);
                        assert(start + i == start + base + (i - base));
                        crate::bits::lemma_zero(low + (i - base));
                        assert(!bits::bit(zeros, low + (i - base)));
                    }
                }
            }
            word = word + 1;
        }
        offset = offset + n;
    }
    proof {
        assert forall|i: int| 0 <= i < len implies #[trigger] bit_at(words@, start + i) by {
            let c = capacity(words@);
            if i >= once {
                vstd::arithmetic::div_mod::lemma_add_mod_noop(start as int, i, c);
                vstd::arithmetic::div_mod::lemma_add_mod_noop(start as int, i % c, c);
                vstd::arithmetic::div_mod::lemma_mod_twice(i, c);
                assert(bit_at(words@, start + i % c));
            }
        }
    }
    None
}

/// Clears the circular range of `len` bits starting at bit `start`.
///
/// A range at least as long as the capacity covers every bit, so the whole bitmap is cleared.
pub fn clear(words: &mut [u64], start: usize, len: usize)
    requires
        is_bitmap(old(words)@),
    ensures
        final(words)@.len() == old(words)@.len(),
        forall|pos: int| #[trigger]
            bit_at(final(words)@, pos) == (bit_at(old(words)@, pos) && !covers(
                capacity(old(words)@),
                start as int,
                len as int,
                pos,
            )),
{
    let round: usize = words.len() * WORD_BITS;
    if len >= round {
        let mut i: usize = 0;
        while i < words.len()
            invariant
                words@.len() == old(words)@.len(),
                i <= words@.len(),
                forall|k: int| 0 <= k < i ==> words@[k] == 0,
            decreases words@.len() - i,
        {
            words[i] = 0;
            i = i + 1;
        }
        assert forall|pos: int| #[trigger] bit_at(words@, pos) == (bit_at(old(words)@, pos)
            && !covers(round as int, start as int, len as int, pos)) by {
            let p = pos % (round as int);
            crate::bits::lemma_zero(p % 64);
            assert(words@[p / 64] == 0);
        }
        return;
    }
    let mut offset: usize = 0;
    while offset < len
        invariant
            is_bitmap(old(words)@),
            words@.len() == old(words)@.len(),
            offset <= len < capacity(old(words)@),
            forall|pos: int| #[trigger]
                bit_at(words@, pos) == (bit_at(old(words)@, pos) && !covers(
                    capacity(old(words)@),
                    start as int,
                    offset as int,
                    pos,
                )),
        decreases len - offset,
    {
        let (from, n) = segment(words.len(), start, len, offset);
        let ghost before = words@;
        clear_linear(words, from, n);
        proof {
            let c = capacity(before);
            assert forall|pos: int| #[trigger] bit_at(words@, pos) == (bit_at(old(words)@, pos)
                && !covers(c, start as int, offset + n, pos)) by {
                lemma_covers_on(c, start as int, offset as int, n as int, pos);
                assert(bit_at(words@, pos) == (bit_at(before, pos) && !(from <= pos % c < from
                    + n)));
            }
        }
        offset = offset + n;
    }
}

/// A range covers what its first part covers, and what the linear segment after it covers.
pub proof fn lemma_covers_on(c: int, start: int, offset: int, n: int, pos: int)
    requires
        0 < c,
        0 <= offset,
        1 <= n,
        offset + n <= c,
        (start + offset) % c + n <= c,
    ensures
        covers(c, start, offset + n, pos) == (covers(c, start, offset, pos) || (start + offset) % c
            <= pos % c < (start + offset) % c + n),
{
    let d = (pos - start) % c;
    let from = (start + offset) % c;
    let p = pos % c;
    // The bit lies at distance d from the start of the range.
    vstd::arithmetic::div_mod::lemma_add_mod_noop(start, d, c);
    vstd::arithmetic::div_mod::lemma_add_mod_noop(start, pos - start, c);
    vstd::arithmetic::div_mod::lemma_mod_twice(pos - start, c);
    assert(p == (start + d) % c);
    if offset <= d < offset + n {
        lemma_mod_step(start + offset, d - offset, c);
        assert(start + offset + (d - offset) == start + d);
    } else if from <= p < from + n {
        // p - from is congruent to d - offset, and both lie less than c apart.
        let k = p - from;
        lemma_mod_step(start + offset, k, c);
        assert((start + offset + k) % c == (start + d) % c);
        vstd::arithmetic::div_mod::lemma_mod_equivalence(start + offset + k, start + d, c);
        assert(start + offset + k - (start + d) == offset + k - d);
        let e = offset + k - d;
        assert(e % c == 0);
        assert(-c < e < c);
        if e != 0 {
            vstd::arithmetic::div_mod::lemma_fundamental_div_mod(e, c);
            let q = e / c;
            assert(q == 0) by (nonlinear_arith)
                requires
                    e == c * q,
                    -c < e < c,
                    0 < c,
            ;
            assert(c * q == 0) by (nonlinear_arith)
                requires
                    q == 0,
            ;
        }
        assert(d == offset + k);
    }
}

/// [`clear`] for a range that does not wrap.
fn clear_linear(words: &mut [u64], start: usize, len: usize)
    requires
        is_bitmap(old(words)@),
        len >= 1,
        start + len <= capacity(old(words)@),
    ensures
        final(words)@.len() == old(words)@.len(),
        forall|pos: int| #[trigger]
            bit_at(final(words)@, pos) == (bit_at(old(words)@, pos) && !(start <= pos % capacity(
                old(words)@,
            ) < start + len)),
{
    let end: usize = start + len;
    let last: usize = (end - 1) / WORD_BITS;
    let mut word: usize = start / WORD_BITS;
    while word <= last
        invariant
            is_bitmap(old(words)@),
            words@.len() == old(words)@.len(),
            end == start + len,
            start < end <= capacity(old(words)@),
            last == (end - 1) / 64,
            start / 64 <= word <= last + 1,
            forall|k: int|
                word <= k < words@.len() ==> #[trigger] words@[k] == old(words)@[k],
            forall|k: int, i: int|
                0 <= k < word && 0 <= i < 64 ==> #[trigger] bits::bit(words@[k], i) == (bits::bit(
                    old(words)@[k],
                    i,
                ) && !(start <= k * 64 + i < end)),
        decreases last + 1 - word,
    {
        let mask: u64 = range_mask(start, end, word);
        let before: u64 = words[word];
        let after: u64 = before & !mask;
        words[word] = after;
        proof {
            assert forall|i: int| 0 <= i < 64 implies #[trigger] bits::bit(after, i) == (bits::bit(before, i)
                && !(start <= word * 64 + i < end)) by {
                crate::bits::lemma_and(before, !mask, i);
                crate::bits::lemma_not(mask, i);
            }
        }
        word = word + 1;
    }
    assert forall|pos: int| #[trigger] bit_at(words@, pos) == (bit_at(old(words)@, pos) && !(start
        <= pos % capacity(old(words)@) < end)) by {
        let p = pos % capacity(old(words)@);
        assert(0 <= p / 64 < words@.len());
        assert(p == (p / 64) * 64 + p % 64);
        if p / 64 < word {
            assert(bits::bit(words@[p / 64], p % 64) == (bits::bit(old(words)@[p / 64], p % 64) && !(start <= (p
                / 64) * 64 + p % 64 < end)));
        } else {
            assert(words@[p / 64] == old(words)@[p / 64]);
        }
    }
}

} // verus!
