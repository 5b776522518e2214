//! Circular bitmaps against a walk bit by bit.

use rtc_core::bitmap::{clear, count_zeros, first_zero, for_each_zero, WORD_BITS};

fn bit(words: &[u64], seq: usize) -> bool {
    let pos = seq & (words.len() * WORD_BITS - 1);
    words[pos / WORD_BITS] & (1 << (pos % WORD_BITS)) != 0
}

fn zeros_per_bit(words: &[u64], start: usize, len: usize) -> Vec<usize> {
    (0..len).filter(|&i| !bit(words, start + i)).collect()
}

fn clear_per_bit(words: &mut [u64], start: usize, len: usize) {
    let mask = words.len() * WORD_BITS - 1;
    for i in 0..len {
        let pos = (start + i) & mask;
        words[pos / WORD_BITS] &= !(1 << (pos % WORD_BITS));
    }
}

struct XorShift(u64);

impl XorShift {
    fn next(&mut self) -> u64 {
        self.0 ^= self.0 << 13;
        self.0 ^= self.0 >> 7;
        self.0 ^= self.0 << 17;
        self.0
    }
}

#[test]
fn word_helpers_match_per_bit_walk() {
    let mut rng = XorShift(0x9e37_79b9_7f4a_7c15);
    for words in [1usize, 2, 4, 16, 128, 512] {
        let capacity = words * WORD_BITS;
        for scenario in 0..4 {
            let bitmap: Vec<u64> = (0..words)
                .map(|_| match scenario % 4 {
                    0 => 0,
                    1 => u64::MAX,
                    2 => rng.next(),
                    _ => rng.next() | rng.next() | rng.next(),
                })
                .collect();
            let mut starts = vec![0, 1, 31, 63, 64, 65, capacity - 1, capacity, 65_535];
            starts.extend((0..3).map(|_| rng.next() as usize % 65_536));
            let mut lens = vec![0, 1, 2, 63, 64, 65, 127, 128, 129, capacity - 1, capacity];
            lens.extend([capacity + 1, 3 * capacity + 7, 32_767, 65_535]);
            lens.extend((0..6).map(|_| rng.next() as usize % (2 * capacity)));
            for &start in &starts {
                for &len in &lens {
                    let expected = zeros_per_bit(&bitmap, start, len);
                    assert_eq!(
                        count_zeros(&bitmap, start, len) as usize,
                        expected.len(),
                        "count, {words} words, start {start}, len {len}"
                    );
                    let found = for_each_zero(&bitmap, start, len);
                    assert_eq!(found, expected, "enumerate, {words} words, {start}+{len}");
                    assert_eq!(
                        first_zero(&bitmap, start, len),
                        expected.first().copied(),
                        "first, {words} words, start {start}, len {len}"
                    );
                    let mut cleared = bitmap.clone();
                    clear(&mut cleared, start, len);
                    let mut reference = bitmap.clone();
                    clear_per_bit(&mut reference, start, len.min(2 * capacity));
                    assert_eq!(cleared, reference, "clear, {words} words, {start}+{len}");
                }
            }
        }
    }
}
