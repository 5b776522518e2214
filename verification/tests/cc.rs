//! Congestion control.

use rtc_core::cc::{
    ingest, reports, CongestionControlBuilder, CongestionControlInterceptor, Feedback, Outgoing,
    DEFAULT_PRUNE_HORIZON,
};
use rtc_core::message::{Attribute, AttributedPacket, Packet, TaggedPacket};
use rtc_core::rtcp::RtcpPacket;
use rtc_core::rtp::{Extension, Header, Packet as RtpPacket};
use rtc_core::stream_info::{RTPHeaderExtension, StreamInfo};
use rtc_core::time::{Instant, MILLISECOND, SECOND};
use rtc_core::transport::TransportContext;

const SSRC: u32 = 0x0A0B_0C0D;

fn stream(ssrc: u32, id: Option<u8>) -> StreamInfo {
    StreamInfo {
        ssrc,
        ssrc_rtx: None,
        payload_type_rtx: None,
        rtp_header_extensions: id
            .into_iter()
            .map(|id| RTPHeaderExtension {
                uri: "http://www.ietf.org/id/draft-holmer-rmcat-transport-wide-cc-extensions-01"
                    .to_owned(),
                id,
            })
            .collect(),
        rtcp_feedback: Vec::new(),
    }
}

fn tagged(now: Instant, packet: Packet) -> TaggedPacket {
    TaggedPacket {
        now,
        transport: TransportContext::default(),
        message: AttributedPacket::new(packet),
    }
}

fn media(ssrc: u32, sequence_number: u16, extension: Option<(u8, Vec<u8>)>) -> Packet {
    Packet::Rtp(RtpPacket {
        header: Header {
            version: 2,
            ssrc,
            sequence_number,
            extension: extension.is_some(),
            extension_profile: 0xBEDE,
            extensions: extension
                .into_iter()
                .map(|(id, payload)| Extension {
                    id,
                    payload: payload.into(),
                })
                .collect(),
            ..Default::default()
        },
        payload: vec![0xAB; 1200].into(),
    })
}

#[test]
fn departing_packets_are_recorded() {
    let mut interceptor = CongestionControlBuilder::new("estimator").build(0);
    assert_eq!(*interceptor.estimator(), "estimator");
    *interceptor.estimator_mut() = "driven";
    assert_eq!(*interceptor.estimator(), "driven");
    interceptor.bind_local_stream(&stream(SSRC, Some(5)));
    interceptor.bind_local_stream(&stream(2, None));

    let with = media(SSRC, 7, Some((5, vec![0x12, 0x34])));
    assert_eq!(
        interceptor.handle_write(tagged(SECOND, with), 1220),
        Some(Outgoing {
            ssrc: SSRC,
            sequence_number: 7,
            twcc_sequence_number: Some(0x1234),
            size: 1220,
            departure: SECOND,
        })
    );
    let twcc = |interceptor: &mut CongestionControlInterceptor<_>, packet| {
        interceptor
            .handle_write(tagged(SECOND, packet), 10)
            .map(|outgoing| outgoing.twcc_sequence_number)
    };
    let short = media(SSRC, 8, Some((5, vec![0x12])));
    assert_eq!(twcc(&mut interceptor, short), Some(None));
    let other = media(SSRC, 9, Some((6, vec![0x12, 0x34])));
    assert_eq!(twcc(&mut interceptor, other), Some(None));
    assert_eq!(twcc(&mut interceptor, media(2, 1, None)), Some(None));
    assert_eq!(twcc(&mut interceptor, media(3, 1, None)), None);
    interceptor.unbind_local_stream(&stream(SSRC, None));
    assert_eq!(twcc(&mut interceptor, media(SSRC, 10, None)), None);
    assert_eq!(twcc(&mut interceptor, Packet::Rtcp(vec![])), None);

    let mut written = 0;
    while interceptor.poll_write().is_some() {
        written += 1;
    }
    assert_eq!(written, 7);
}

#[test]
fn feedback_announces_a_new_target_once() {
    let bits = |target: f64| target.to_bits();
    let mut interceptor = CongestionControlBuilder::new(()).build(bits(1_000_000.0));
    let feedback = || {
        Packet::Rtcp(vec![
            RtcpPacket::Other(vec![1]),
            RtcpPacket::TransportLayerCc(vec![2]),
        ])
    };
    let unrelated = || Packet::Rtcp(vec![RtcpPacket::Other(vec![1])]);
    assert!(reports(&feedback()));
    assert!(reports(&Packet::Rtcp(vec![RtcpPacket::CcFeedbackReport(vec![])])));
    assert!(!reports(&unrelated()));
    assert!(!reports(&media(SSRC, 1, None)));

    let mut round = |packet: Packet, target: f64| {
        interceptor.handle_read(tagged(SECOND, packet), bits(target));
        let out = interceptor.poll_read().unwrap();
        assert!(interceptor.poll_read().is_none());
        assert_eq!(out.now, SECOND);
        out.message.attributes
    };
    let changed = |target: f64| {
        vec![Attribute::TargetBitrateChanged {
            bits_per_second: bits(target),
        }]
    };
    assert_eq!(round(feedback(), 990_000.0), changed(990_000.0));
    assert_eq!(round(feedback(), 990_000.0), vec![]);
    assert_eq!(round(unrelated(), 980_000.0), vec![]);
    assert_eq!(round(feedback(), 980_000.0), changed(980_000.0));
    // The two zeros are one number, and what is not a number is never the same.
    assert_eq!(round(feedback(), 0.0), changed(0.0));
    assert_eq!(round(feedback(), -0.0), vec![]);
    assert_eq!(round(feedback(), f64::NAN).len(), 1);
    assert_eq!(round(feedback(), f64::NAN).len(), 1);
    assert_eq!(round(feedback(), f64::INFINITY), changed(f64::INFINITY));
    assert_eq!(round(feedback(), f64::INFINITY), vec![]);
    assert_eq!(round(feedback(), f64::NEG_INFINITY).len(), 1);
}

#[test]
fn packets_are_written_off_behind_the_horizon() {
    assert_eq!(DEFAULT_PRUNE_HORIZON, 2 * SECOND);
    let interceptor = CongestionControlBuilder::new(()).build(0);
    assert_eq!(interceptor.prune_limit(5 * SECOND), 3 * SECOND);
    assert_eq!(interceptor.prune_limit(SECOND), SECOND);
    let interceptor = CongestionControlBuilder::new(())
        .with_prune_horizon(30 * MILLISECOND)
        .build(0);
    assert_eq!(interceptor.prune_limit(SECOND), 970 * MILLISECOND);
}

#[test]
fn only_feedback_reaches_the_history() {
    assert!(matches!(
        ingest(&RtcpPacket::TransportLayerCc(vec![1, 2])),
        Some(Feedback::Twcc(bytes)) if *bytes == [1, 2]
    ));
    assert!(matches!(
        ingest(&RtcpPacket::CcFeedbackReport(vec![3])),
        Some(Feedback::Ccfb(bytes)) if *bytes == [3]
    ));
    assert!(ingest(&RtcpPacket::Other(vec![4])).is_none());
}

/// What left and awaits a verdict. Feedback names a first number and how many follow, in order.
#[derive(Default)]
struct History {
    waiting: Vec<Outgoing>,
    settled: Vec<u16>,
}

impl History {
    fn on_feedback(&mut self, feedback: Feedback<'_>) {
        let (bytes, transport_wide) = match feedback {
            Feedback::Twcc(bytes) => (bytes, true),
            Feedback::Ccfb(bytes) => (bytes, false),
        };
        for number in u16::from(bytes[0])..u16::from(bytes[0]) + u16::from(bytes[1]) {
            let at = self.waiting.iter().position(|outgoing| {
                if transport_wide {
                    outgoing.twcc_sequence_number == Some(number)
                } else {
                    outgoing.sequence_number == number
                }
            });
            if let Some(at) = at {
                self.settled.push(self.waiting.remove(at).sequence_number);
            }
        }
    }
}

const INITIAL_TARGET: f64 = 1_000_000.0;

/// Records what it is told. Its target drops with every packet reported, so feedback that resolves
/// something moves the estimate and feedback that resolves nothing does not.
#[derive(Default)]
struct Recorder {
    calls: usize,
    seen: Vec<u16>,
}

impl Recorder {
    fn target_bitrate(&self) -> f64 {
        INITIAL_TARGET - 1_000.0 * self.seen.len() as f64
    }
}

type Driven = (CongestionControlInterceptor<Recorder>, History);

fn driven() -> Driven {
    let estimator = Recorder::default();
    let target = estimator.target_bitrate().to_bits();
    let mut interceptor = CongestionControlBuilder::new(estimator).build(target);
    interceptor.bind_local_stream(&stream(SSRC, Some(5)));
    (interceptor, History::default())
}

fn send(driven: &mut Driven, now: Instant, sequence_numbers: std::ops::Range<u16>) {
    for number in sequence_numbers {
        let packet = media(SSRC, number, Some((5, number.to_be_bytes().to_vec())));
        let outgoing = driven.0.handle_write(tagged(now, packet), 1220).expect("tracked");
        driven.1.waiting.push(outgoing);
        while driven.0.poll_write().is_some() {}
    }
}

fn receive(driven: &mut Driven, now: Instant, packets: Vec<RtcpPacket>) {
    let (interceptor, history) = driven;
    let mut reported = false;
    for feedback in packets.iter().filter_map(ingest) {
        history.on_feedback(feedback);
        reported = true;
    }
    let packet = Packet::Rtcp(packets);
    assert_eq!(reports(&packet), reported);
    if reported {
        let settled = std::mem::take(&mut history.settled);
        let estimator = interceptor.estimator_mut();
        estimator.calls += 1;
        estimator.seen.extend(settled);
    }
    let target = interceptor.estimator().target_bitrate().to_bits();
    interceptor.handle_read(tagged(now, packet), target);
}

fn twcc(base: u8, count: u8) -> RtcpPacket {
    RtcpPacket::TransportLayerCc(vec![base, count])
}

fn ccfb(begin: u8, count: u8) -> RtcpPacket {
    RtcpPacket::CcFeedbackReport(vec![begin, count])
}

fn receiver_report() -> RtcpPacket {
    RtcpPacket::Other(vec![201])
}

fn pli() -> RtcpPacket {
    RtcpPacket::Other(vec![206, 1])
}

/// Where a packet's bytes lie.
fn address(packet: &RtcpPacket) -> usize {
    match packet {
        RtcpPacket::TransportLayerCc(bytes)
        | RtcpPacket::CcFeedbackReport(bytes)
        | RtcpPacket::Other(bytes) => bytes.as_ptr().addr(),
        RtcpPacket::TransportLayerNack(nack) => nack.nacks.as_ptr().addr(),
    }
}

fn target_attribute(packet: &TaggedPacket) -> Option<f64> {
    packet.message.attributes.iter().find_map(|attribute| match attribute {
        Attribute::TargetBitrateChanged { bits_per_second } => {
            Some(f64::from_bits(*bits_per_second))
        }
        _ => None,
    })
}

/// One step of a feedback exchange, and what it must leave behind.
struct Round {
    /// Sent before the feedback arrives.
    send: std::ops::Range<u16>,
    feedback: fn() -> Vec<RtcpPacket>,
    /// Packets reported to the estimator so far.
    reported: usize,
    /// Calls the estimator has had so far.
    calls: usize,
    /// The target-bitrate attribute the feedback leaves with.
    attribute: Option<f64>,
}

#[test]
fn feedback_is_read_in_place_and_forwarded_untouched() {
    let epoch: Instant = SECOND;
    let mut borrowed = driven();
    let mut copied = driven();

    let rounds = vec![
        // Transport-wide feedback among unrelated reports: resolves 0..10.
        Round {
            send: 0..10,
            feedback: || vec![twcc(0, 10), receiver_report(), pli()],
            reported: 10,
            calls: 1,
            attribute: Some(INITIAL_TARGET - 10_000.0),
        },
        // Nothing for congestion control: no estimator call, no attribute.
        Round {
            send: 10..20,
            feedback: || vec![receiver_report(), pli()],
            reported: 10,
            calls: 1,
            attribute: None,
        },
        // RFC 8888 feedback for what the previous round sent.
        Round {
            send: 0..0,
            feedback: || vec![ccfb(10, 10), receiver_report()],
            reported: 20,
            calls: 2,
            attribute: Some(INITIAL_TARGET - 20_000.0),
        },
        // Feedback naming only packets already reported: the estimator hears "no news".
        Round {
            send: 0..0,
            feedback: || vec![twcc(0, 10), pli()],
            reported: 20,
            calls: 3,
            attribute: None,
        },
        // Both kinds in one compound packet.
        Round {
            send: 20..40,
            feedback: || vec![pli(), twcc(20, 10), ccfb(30, 10)],
            reported: 40,
            calls: 4,
            attribute: Some(INITIAL_TARGET - 40_000.0),
        },
    ];

    for (round, step) in rounds.into_iter().enumerate() {
        let sent_at = epoch + 100 * MILLISECOND * round as u64;
        send(&mut borrowed, sent_at, step.send.clone());
        send(&mut copied, sent_at, step.send);

        let now = sent_at + 50 * MILLISECOND;
        let feedback = (step.feedback)();
        let originals: Vec<usize> = feedback.iter().map(address).collect();
        receive(&mut borrowed, now, feedback);
        receive(&mut copied, now, (step.feedback)());

        let out = borrowed.0.poll_read().expect("the feedback is forwarded");
        let reference = copied.0.poll_read().expect("the feedback is forwarded");
        assert!(borrowed.0.poll_read().is_none());
        assert_eq!(out.now, now);

        let (Packet::Rtcp(forwarded), Packet::Rtcp(expected)) =
            (&out.message.packet, &reference.message.packet)
        else {
            panic!("round {round}: RTCP must be forwarded as RTCP");
        };
        assert_eq!(
            forwarded.iter().map(address).collect::<Vec<_>>(),
            originals,
            "round {round}: the caller's packets are forwarded, in order, not copies of them"
        );
        assert_eq!(
            format!("{forwarded:?}"),
            format!("{expected:?}"),
            "round {round}: the forwarded packets must be unchanged"
        );
        assert_eq!(format!("{forwarded:?}"), format!("{:?}", (step.feedback)()));

        assert_eq!(target_attribute(&out), step.attribute, "round {round}");
        assert_eq!(target_attribute(&out), target_attribute(&reference));

        assert_eq!(borrowed.0.estimator().seen.len(), step.reported, "round {round}");
        assert_eq!(borrowed.0.estimator().seen, copied.0.estimator().seen);
        assert_eq!(borrowed.0.estimator().calls, step.calls, "round {round}");
        assert_eq!(borrowed.0.estimator().calls, copied.0.estimator().calls);
        assert_eq!(borrowed.1.waiting.len(), copied.1.waiting.len());
    }

    assert_eq!(borrowed.1.waiting.len(), 0, "every packet sent was reported");
    assert_eq!(borrowed.0.estimator().seen, (0..40).collect::<Vec<u16>>());
}
