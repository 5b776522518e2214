//! The two ways of counting losses against each other.

use rtc_core::receiver_loss::{loss_by_word, loss_per_bit};

#[test]
fn counts_match() {
    let mut rng = 0x1234facebeefu64;
    for words in [1, 2, 4, 16, 128, 512] {
        for scenario in 0..32 {
            let bits: Vec<u64> = (0..words)
                .map(|_| {
                    rng ^= rng << 13;
                    rng ^= rng >> 7;
                    rng ^= rng << 17;
                    match scenario % 3 {
                        0 => 0,
                        1 => u64::MAX,
                        _ => rng,
                    }
                })
                .collect();
            for start in [0, 1, 31, 63, 64, 65, 8190, 65500, u16::MAX] {
                for count in [0, 1, 2, 63, 64, 65, 1000, 8191, 8192, 8193, 32768, u16::MAX] {
                    assert_eq!(
                        loss_per_bit(&bits, start, count),
                        loss_by_word(&bits, start, count)
                    );
                }
            }
        }
    }
}
