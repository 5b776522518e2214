//! Randomised media blocks, drawn from known seeds.

use rtc_core::rtp::Packet;
use rtc_core::test_blocks::{
    media_block, media_packet, payload_length, Rng, MEDIA_SSRC, ONE_BYTE_PROFILE, TWO_BYTE_PROFILE,
    WORDS_PROFILE,
};

#[test]
fn draws_reproduce_from_the_seed() {
    let mut rng = Rng::new(1);
    assert_eq!(rng.next(), 0x0d83_b3e2_9a21_487a);
    assert_eq!(rng.next(), 0x54c4_4c79_f1fe_9d67);
    assert_eq!(rng.next(), 0xa845_f342_007a_0e78);
    let mut rng = Rng::new(42);
    let drawn: Vec<usize> = (0..4).map(|_| rng.upto(1500)).collect();
    assert_eq!(drawn, vec![905, 1469, 1431, 561]);
    assert_eq!(Rng::new(5).upto(0), 0);
    assert!(Rng::new(5).chance(1));
    assert_eq!(Rng::new(5).bytes(40).len(), 40);
}

fn shape(packet: &Packet) -> (bool, u8, u16, u32, usize, u16, Vec<(u8, usize)>, usize, u64) {
    let header = &packet.header;
    (
        header.marker,
        header.payload_type,
        header.sequence_number,
        header.timestamp,
        header.csrc.len(),
        header.extension_profile,
        header
            .extensions
            .iter()
            .map(|extension| (extension.id, extension.payload.len()))
            .collect(),
        packet.payload.len(),
        packet.payload.iter().map(|&byte| byte as u64).sum(),
    )
}

#[test]
fn a_block_is_what_its_seed_gives() {
    let mut rng = Rng::new(7);
    let block = media_block(&mut rng, 6, true);
    let expected = vec![
        (true, 91, 27444, 176673308, 12, ONE_BYTE_PROFILE, vec![(1, 15), (4, 3)], 787, 100241),
        (
            false,
            86,
            27445,
            3849633457,
            2,
            TWO_BYTE_PROFILE,
            vec![(16, 24), (10, 3), (193, 3)],
            1168,
            149564,
        ),
        (false, 104, 27446, 3470817066, 0, ONE_BYTE_PROFILE, vec![(3, 9)], 970, 125366),
        (true, 62, 27447, 1980378141, 0, TWO_BYTE_PROFILE, vec![(170, 13), (217, 2)], 10, 1219),
        (false, 113, 27448, 504692360, 0, ONE_BYTE_PROFILE, vec![(12, 5), (2, 3), (9, 14)], 0, 0),
        (false, 66, 27449, 1139222673, 0, ONE_BYTE_PROFILE, vec![(1, 6)], 1136, 144857),
    ];
    assert_eq!(block.iter().map(shape).collect::<Vec<_>>(), expected);
}

#[test]
fn blocks_wrap_and_keep_their_source() {
    let block = media_block(&mut Rng::new(10), 3, false);
    let numbers: Vec<u16> = block
        .iter()
        .map(|packet| packet.header.sequence_number)
        .collect();
    assert_eq!(numbers, vec![65535, 0, 1]);
    for packet in &block {
        assert_eq!(packet.header.ssrc, MEDIA_SSRC);
        assert_eq!(packet.header.version, 2);
    }
}

#[test]
fn ordinary_packets_claim_no_padding() {
    let mut rng = Rng::new(3);
    for sequence_number in 0..500 {
        let packet = media_packet(&mut rng, sequence_number, false);
        assert!(!packet.header.padding);
        assert_eq!(packet.header.extensions_padding, 0);
        assert!(packet.payload.len() <= 1500);
        assert_eq!(packet.header.extension, !packet.header.extensions.is_empty());
        if packet.header.extension_profile == WORDS_PROFILE {
            assert_eq!(packet.header.extensions.len(), 1);
        }
    }
    let mut padded = 0;
    for sequence_number in 0..500 {
        let packet = media_packet(&mut rng, sequence_number, true);
        padded += packet.header.padding as usize;
    }
    assert!(padded > 0);
    let refused = media_block(&mut Rng::new(8), 1, true);
    assert_eq!(refused[0].header.extension_profile, WORDS_PROFILE);
    assert_eq!(refused[0].header.extensions.len(), 2);
}

#[test]
fn payload_lengths_stay_within_a_packet() {
    let mut rng = Rng::new(11);
    let lengths: Vec<usize> = (0..2000).map(|_| payload_length(&mut rng)).collect();
    assert!(lengths.iter().all(|&length| length <= 1500));
    assert!(lengths.contains(&0));
    assert!(lengths.contains(&1500));
}
