//! XOR over byte slices.

use rtc_core::xor::xor_into;

fn reference(dst: &mut [u8], src: &[u8]) {
    for (target, source) in dst.iter_mut().zip(src) {
        *target ^= *source;
    }
}

fn pattern(len: usize, seed: u8) -> Vec<u8> {
    (0..len)
        .map(|index| (index as u8).wrapping_mul(29).wrapping_add(seed) ^ (index >> 8) as u8)
        .collect()
}

#[test]
fn matches_the_bytewise_loop_for_every_length_pairing() {
    let mut lengths: Vec<usize> = (0..=130).collect();
    lengths.extend([
        255, 256, 257, 1023, 1024, 1025, 1100, 1187, 1188, 1199, 1200, 1499, 1500,
    ]);

    for &dst_len in &lengths {
        for &src_len in &lengths {
            let src = pattern(src_len, 0x5A);
            let mut expected = pattern(dst_len, 0xC3);
            let mut actual = expected.clone();

            reference(&mut expected, &src);
            xor_into(&mut actual, &src);

            assert_eq!(expected, actual, "dst {dst_len} bytes, src {src_len} bytes");
        }
    }
}

#[test]
fn matches_the_bytewise_loop_at_every_offset() {
    let src_storage = pattern(1600, 0x11);
    let dst_storage = pattern(1600, 0x77);
    for offset in 0..64 {
        for len in [0, 1, 7, 8, 15, 16, 31, 32, 33, 63, 64, 65, 97, 1188] {
            let src = &src_storage[offset..offset + len];
            let mut expected = dst_storage.clone();
            let mut actual = dst_storage.clone();

            reference(&mut expected[64 - offset..64 - offset + len], src);
            xor_into(&mut actual[64 - offset..64 - offset + len], src);

            assert_eq!(expected, actual, "offset {offset}, {len} bytes");
        }
    }
}

#[test]
fn xor_twice_is_the_identity() {
    let original = pattern(1188, 3);
    let key = pattern(1500, 9);
    let mut buffer = original.clone();
    xor_into(&mut buffer, &key);
    assert_ne!(original, buffer);
    xor_into(&mut buffer, &key);
    assert_eq!(original, buffer);
}
