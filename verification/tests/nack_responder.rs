//! NACK responses.

use rtc_core::message::{AttributedPacket, Packet, TaggedPacket};
use rtc_core::nack_responder::{NackResponderBuilder, NackResponderInterceptor};
use rtc_core::rtcp::{NackPair, RtcpPacket, TransportLayerNack};
use rtc_core::rtp::{Header, Packet as RtpPacket};
use rtc_core::stream_info::{RTCPFeedback, StreamInfo};
use rtc_core::time::{Instant, SECOND};
use rtc_core::transport::TransportContext;

const SSRC: u32 = 7;
const RTX_SSRC: u32 = 8;

fn reference_order(nack: &TransportLayerNack) -> Vec<u16> {
    let mut seqs = Vec::new();
    for nack_pair in &nack.nacks {
        seqs.push(nack_pair.packet_id);
        for i in 0..16 {
            if nack_pair.lost_packets & (1 << i) != 0 {
                seqs.push(nack_pair.packet_id.wrapping_add(i + 1));
            }
        }
    }
    seqs
}

fn responder(rtx: bool) -> NackResponderInterceptor {
    let mut responder = NackResponderBuilder::new()
        .with_size(512)
        .with_max_age(None)
        .build();
    responder.bind_local_stream(&StreamInfo {
        ssrc: SSRC,
        ssrc_rtx: rtx.then_some(RTX_SSRC),
        payload_type_rtx: rtx.then_some(97),
        rtp_header_extensions: Vec::new(),
        rtcp_feedback: vec![RTCPFeedback {
            typ: "nack".to_string(),
            parameter: String::new(),
        }],
    });
    responder
}

#[test]
fn retransmission_order_matches_per_position_scan() {
    let mut rng = 0x1234_5678_9abc_def1u64;
    let mut next = move || {
        rng ^= rng << 13;
        rng ^= rng >> 7;
        rng ^= rng << 17;
        rng
    };
    let now: Instant = 3 * SECOND;
    for rtx in [false, true] {
        let mut responder = responder(rtx);
        for i in 0..512u16 {
            let seq = 65_300u16.wrapping_add(i);
            responder
                .handle_write(TaggedPacket {
                    now,
                    transport: TransportContext::default(),
                    message: AttributedPacket::new(Packet::Rtp(RtpPacket {
                        header: Header {
                            version: 2,
                            ssrc: SSRC,
                            sequence_number: seq,
                            ..Default::default()
                        },
                        payload: seq.to_be_bytes().to_vec().into(),
                    })),
                })
                .unwrap();
        }
        while responder.poll_write().is_some() {}

        let mut rtx_seq = 0u16;
        for round in 0..200 {
            let nacks = (0..1 + next() % 6)
                .map(|_| NackPair {
                    packet_id: 65_280u16.wrapping_add((next() % 560) as u16),
                    lost_packets: match round % 4 {
                        0 => next() as u16,
                        1 => u16::MAX,
                        2 => 1 << (next() % 16),
                        _ => 0,
                    },
                })
                .collect();
            let nack = TransportLayerNack {
                sender_ssrc: 1,
                media_ssrc: SSRC,
                nacks,
            };
            let expected: Vec<u16> = reference_order(&nack)
                .into_iter()
                .filter(|&seq| responder.history(SSRC, seq, now).is_some())
                .collect();

            responder
                .handle_read(TaggedPacket {
                    now,
                    transport: TransportContext::default(),
                    message: AttributedPacket::new(Packet::Rtcp(vec![RtcpPacket::TransportLayerNack(
                        nack,
                    )])),
                })
                .unwrap();
            while responder.poll_read().is_some() {}

            let mut got = Vec::new();
            while let Some(sent) = responder.poll_write() {
                let Packet::Rtp(packet) = &sent.message.packet else {
                    panic!("only retransmissions are queued");
                };
                if rtx {
                    assert_eq!(packet.header.ssrc, RTX_SSRC);
                    assert_eq!(packet.header.sequence_number, rtx_seq);
                    rtx_seq = rtx_seq.wrapping_add(1);
                    assert_eq!(packet.payload[..2], packet.payload[2..]);
                } else {
                    assert_eq!(packet.header.ssrc, SSRC);
                }
                got.push(u16::from_be_bytes([packet.payload[0], packet.payload[1]]));
            }
            assert_eq!(got, expected, "round {round}, rtx {rtx}");
        }
    }
}

fn media(sequence_number: u16, now: Instant) -> TaggedPacket {
    TaggedPacket {
        now,
        transport: TransportContext::default(),
        message: AttributedPacket::new(Packet::Rtp(RtpPacket {
            header: Header {
                version: 2,
                ssrc: SSRC,
                payload_type: 96,
                sequence_number,
                ..Default::default()
            },
            payload: vec![7, 8, 9].into(),
        })),
    }
}

fn request(packet_id: u16, now: Instant) -> TaggedPacket {
    TaggedPacket {
        now,
        transport: TransportContext::default(),
        message: AttributedPacket::new(Packet::Rtcp(vec![RtcpPacket::TransportLayerNack(
            TransportLayerNack {
                sender_ssrc: 1,
                media_ssrc: SSRC,
                nacks: vec![NackPair {
                    packet_id,
                    lost_packets: 0,
                }],
            },
        )])),
    }
}

#[test]
fn a_retransmission_holds_the_number_and_the_payload_of_the_original() {
    let mut responder = responder(true);
    let packet = media(0x0102, 5);
    assert!(responder.can_buffer(&packet));
    responder.handle_write(packet).unwrap();
    assert!(responder.poll_write().is_some());
    responder.handle_read(request(0x0102, 6)).unwrap();
    let sent = responder.poll_write().unwrap();
    let Packet::Rtp(packet) = &sent.message.packet else {
        panic!("a packet");
    };
    assert_eq!(packet.header.ssrc, RTX_SSRC);
    assert_eq!(packet.header.payload_type, 97);
    assert_eq!(packet.header.sequence_number, 0);
    assert_eq!(packet.payload[..], [1, 2, 7, 8, 9]);
    assert!(responder.poll_write().is_none());
    // What is not held is not answered.
    responder.handle_read(request(0x0103, 6)).unwrap();
    assert!(responder.poll_write().is_none());
}

#[test]
fn a_packet_whose_deadline_cannot_be_told_cannot_be_buffered() {
    let mut responder = NackResponderBuilder::new()
        .with_size(512)
        .with_max_age(Some(SECOND))
        .build();
    // Media of a stream that is not bound is only handed on.
    assert!(responder.can_buffer(&media(1, Instant::MAX)));
    responder.bind_local_stream(&StreamInfo {
        ssrc: SSRC,
        ssrc_rtx: None,
        payload_type_rtx: None,
        rtp_header_extensions: Vec::new(),
        rtcp_feedback: vec![RTCPFeedback {
            typ: "nack".to_string(),
            parameter: String::new(),
        }],
    });
    assert!(responder.can_buffer(&media(1, Instant::MAX - SECOND)));
    assert!(!responder.can_buffer(&media(1, Instant::MAX)));
    // What is exactly as old as the limit is expired.
    responder.handle_write(media(1, 0)).unwrap();
    assert!(responder.poll_write().is_some());
    assert!(responder.history(SSRC, 1, SECOND - 1).is_some());
    assert!(responder.history(SSRC, 1, SECOND).is_none());
}

#[test]
fn the_oldest_packets_make_room_for_the_newest() {
    let mut responder = NackResponderBuilder::new()
        .with_size(512)
        .with_max_age(None)
        .with_max_bytes(6)
        .build();
    responder.bind_local_stream(&StreamInfo {
        ssrc: SSRC,
        ssrc_rtx: None,
        payload_type_rtx: None,
        rtp_header_extensions: Vec::new(),
        rtcp_feedback: vec![RTCPFeedback {
            typ: "nack".to_string(),
            parameter: String::new(),
        }],
    });
    for seq in [1, 2, 3] {
        responder.handle_write(media(seq, 0)).unwrap();
    }
    assert!(responder.history(SSRC, 1, 0).is_none());
    assert!(responder.history(SSRC, 2, 0).is_some());
    assert!(responder.history(SSRC, 3, 0).is_some());
}
