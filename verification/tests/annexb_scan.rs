//! The three start-code scanners against each other.

use rtc_core::annexb_scan::{byte_search, scalar, substring_search};

#[test]
fn equivalent_short_inputs_and_offsets() {
    for length in 0..=9 {
        for value in 0..3usize.pow(length) {
            let mut value = value;
            let data: Vec<u8> = (0..length)
                .map(|_| {
                    let b = [0, 1, 7][value % 3];
                    value /= 3;
                    b
                })
                .collect();
            for start in 0..=data.len() {
                assert_eq!(scalar(&data, start), byte_search(&data, start));
                assert_eq!(scalar(&data, start), substring_search(&data, start));
            }
        }
    }
    for zero_count in [2, 3, 4, 15, 16, 31, 32, 255, 4096] {
        let mut data = vec![0; zero_count];
        data.extend_from_slice(&[1, 7]);
        for start in 0..=data.len() {
            assert_eq!(scalar(&data, start), byte_search(&data, start));
            assert_eq!(scalar(&data, start), substring_search(&data, start));
        }
    }
}
