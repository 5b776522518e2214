//! NACK generation.

use rtc_core::message::{AttributedPacket, Packet, TaggedPacket};
use rtc_core::nack_generator::{NackGeneratorBuilder, NackGeneratorInterceptor};
use rtc_core::rtcp::RtcpPacket;
use rtc_core::rtp::{Header, Packet as RtpPacket};
use rtc_core::stream_info::{RTCPFeedback, StreamInfo};
use rtc_core::time::{Instant, MILLISECOND, SECOND};
use rtc_core::transport::TransportContext;

const SSRC: u32 = 1;

fn generator(max_nacks_per_packet: u16) -> NackGeneratorInterceptor {
    let mut generator = NackGeneratorBuilder::new()
        .with_interval(10 * MILLISECOND)
        .with_max_nacks_per_packet(max_nacks_per_packet)
        .build();
    generator.bind_remote_stream(&StreamInfo {
        ssrc: SSRC,
        ssrc_rtx: None,
        payload_type_rtx: None,
        rtp_header_extensions: Vec::new(),
        rtcp_feedback: vec![RTCPFeedback {
            typ: "nack".to_string(),
            parameter: String::new(),
        }],
    });
    generator
}

fn receive(generator: &mut NackGeneratorInterceptor, seq: u16, now: Instant) {
    generator
        .handle_read(TaggedPacket {
            now,
            transport: TransportContext::default(),
            message: AttributedPacket::new(Packet::Rtp(RtpPacket {
                header: Header {
                    ssrc: SSRC,
                    sequence_number: seq,
                    ..Default::default()
                },
                payload: bytes::Bytes::new(),
            })),
        })
        .unwrap();
    while generator.poll_read().is_some() {}
}

fn round(generator: &mut NackGeneratorInterceptor, now: Instant) -> Vec<u16> {
    generator.handle_timeout(now).unwrap();
    let mut nacked = vec![];
    while let Some(packet) = generator.poll_write() {
        if let Packet::Rtcp(rtcp_packets) = &packet.message.packet {
            for rtcp_packet in rtcp_packets {
                if let RtcpPacket::TransportLayerNack(nack) = rtcp_packet {
                    nacked.extend(nack.nacks.iter().flat_map(|pair| pair.packet_list()));
                }
            }
        }
    }
    nacked
}

#[test]
fn retry_counts_are_released_when_no_nack_is_sent() {
    let t0: Instant = 3 * SECOND;
    let at = |ms| t0 + ms * MILLISECOND;
    let mut generator = generator(1);
    for seq in [0, 1, 3, 4, 6] {
        receive(&mut generator, seq, t0);
    }

    assert_eq!(round(&mut generator, at(10)), vec![2, 5]);
    assert!(
        round(&mut generator, at(20)).is_empty(),
        "allowance used up"
    );

    receive(&mut generator, 2, at(25));
    assert!(
        round(&mut generator, at(30)).is_empty(),
        "5 is still used up"
    );
    assert_eq!(
        generator.nack_counts[&SSRC]
            .keys()
            .copied()
            .collect::<Vec<_>>(),
        vec![5],
        "the count for 2 must go once 2 has arrived"
    );
}

#[test]
fn retry_limit_applies_per_packet() {
    let t0: Instant = 3 * SECOND;
    let at = |ms| t0 + ms * MILLISECOND;
    let mut generator = generator(2);
    for seq in [0, 2] {
        receive(&mut generator, seq, t0);
    }

    assert_eq!(round(&mut generator, at(10)), vec![1]);
    receive(&mut generator, 4, at(15));
    assert_eq!(round(&mut generator, at(20)), vec![1, 3]);
    assert_eq!(round(&mut generator, at(30)), vec![3]);
    assert!(round(&mut generator, at(40)).is_empty());
}

#[test]
fn unlimited_retries_keep_no_counts() {
    let t0: Instant = 3 * SECOND;
    let at = |ms| t0 + ms * MILLISECOND;
    let mut generator = generator(0);
    for seq in [0, 2, 5] {
        receive(&mut generator, seq, t0);
    }

    for tick in 1..=3 {
        assert_eq!(round(&mut generator, at(tick * 10)), vec![1, 3, 4]);
    }
    assert!(generator.nack_counts.is_empty());
}

fn nacked_stream() -> StreamInfo {
    StreamInfo {
        ssrc: SSRC,
        ssrc_rtx: None,
        payload_type_rtx: None,
        rtp_header_extensions: Vec::new(),
        rtcp_feedback: vec![RTCPFeedback {
            typ: "nack".to_string(),
            parameter: String::new(),
        }],
    }
}

#[test]
fn the_newest_packets_may_be_late_without_being_asked_for() {
    let mut generator = NackGeneratorBuilder::new()
        .with_size(64)
        .with_interval(10 * MILLISECOND)
        .with_skip_last_n(2)
        .build();
    generator.bind_remote_stream(&nacked_stream());
    for seq in [0, 2, 4, 6] {
        receive(&mut generator, seq, SECOND);
    }
    assert_eq!(round(&mut generator, 2 * SECOND), vec![1, 3]);
}

#[test]
fn a_stream_that_is_unbound_is_not_asked_about() {
    let mut generator = generator(0);
    for seq in [0, 2] {
        receive(&mut generator, seq, SECOND);
    }
    generator.unbind_remote_stream(&nacked_stream());
    assert!(round(&mut generator, 2 * SECOND).is_empty());
    receive(&mut generator, 4, 3 * SECOND);
    assert!(round(&mut generator, 4 * SECOND).is_empty());
}
