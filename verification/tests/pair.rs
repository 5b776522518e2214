//! The measuring harness: two sides, a wire and a clock.

use std::collections::VecDeque;

use rtc_core::allocations::{snapshot, Allocations, CountingAllocator};
use rtc_core::fixtures::{payload, Interceptors, MediaKind, RtpCodecKind};
use rtc_core::pair::{
    transmit, Direction, NegotiatedCodec, PairBuilder, PairError, PeerPair, Round, TransferAction,
    TransferReply, WireStats, ANSWERER_PORT, FIRST_SSRC, FLUSH_ROUND_LIMIT, OFFERER_PORT,
    SEND_BUFFER_LIMIT, VIRTUAL_TIME_BUDGET,
};
use rtc_core::peer::{ConnectionEvent, Delivery, Peer, Received, Step, StepAction, StepReply};
use rtc_core::time::{MILLISECOND, SECOND};
use rtc_core::transport::SocketAddr;

fn at(port: u16) -> SocketAddr {
    SocketAddr {
        ip: 0x7f00_0001,
        v6: false,
        port,
    }
}

#[test]
fn allocations_are_the_difference_of_readings() {
    let mut allocator = CountingAllocator::default();
    allocator.record(100);
    let before = snapshot(&allocator);
    allocator.record(30);
    allocator.record(12);
    let made = snapshot(&allocator).sub(before);
    assert_eq!(made, Allocations { count: 2, bytes: 42 });
    let mut total = Allocations::default();
    total.add_assign(made);
    total.add_assign(made);
    assert_eq!(total, Allocations { count: 4, bytes: 84 });

    let mut full = CountingAllocator {
        count: u64::MAX,
        bytes: u64::MAX,
    };
    full.record(3);
    assert_eq!((full.count, full.bytes), (0, 2));
}

#[test]
fn kinds_have_their_packet_shapes() {
    let audio = MediaKind::Audio;
    let video = MediaKind::Video;
    assert_eq!((audio.label(), video.label()), ("audio", "video"));
    assert_eq!(audio.codec_kind(), RtpCodecKind::Audio);
    assert_eq!(video.codec_kind(), RtpCodecKind::Video);
    assert_eq!((audio.payload_len(), video.payload_len()), (160, 1200));
    assert_eq!(audio.packet_interval(), 20 * MILLISECOND);
    assert_eq!(video.packet_interval(), MILLISECOND);
    assert_eq!((audio.timestamp_step(), video.timestamp_step()), (960, 90));
    let codec = audio.codec();
    assert_eq!(codec.payload_type, 111);
    assert_eq!(codec.rtp_codec.mime_type, "audio/opus");
    assert_eq!(codec.rtp_codec.clock_rate, 48_000);
    assert_eq!(codec.rtp_codec.channels, 2);
    assert_eq!(codec.rtp_codec.sdp_fmtp_line, "minptime=10;useinbandfec=1");
    let codec = video.codec();
    assert_eq!(codec.payload_type, 96);
    assert_eq!(codec.rtp_codec.mime_type, "video/VP8");
    assert_eq!(codec.rtp_codec.clock_rate, 90_000);
    assert_eq!(codec.rtp_codec.channels, 0);
    assert_eq!(codec.rtp_codec.sdp_fmtp_line, "");
    assert_eq!(Interceptors::Bare.label(), "no-interceptors");
    assert_eq!(Interceptors::Default.label(), "default-interceptors");

    let bytes = payload(600);
    assert_eq!(bytes.len(), 600);
    assert_eq!((bytes[0], bytes[255], bytes[256], bytes[599]), (0, 255, 0, 87));
}

/// Runs a step against scripted replies, and returns what was handed over and whether it worked.
fn run_step(
    peer: &mut Peer,
    now: u64,
    deadline: Option<u64>,
    events: &[ConnectionEvent],
    reads: &[Delivery],
) -> (Vec<Vec<u8>>, bool, bool) {
    let mut step: Step = Peer::begin_step(now);
    let mut reply = StepReply::Ready;
    let mut events = events.iter();
    let mut reads = reads.iter();
    let mut handed = vec![];
    let mut fired = false;
    loop {
        assert!(peer.accepts(&step, reply));
        reply = match peer.step(&mut step, reply) {
            StepAction::Deliver(context, message) => {
                assert_eq!(context.local_addr, peer.addr);
                assert_eq!(context.peer_addr, peer.remote_addr);
                handed.push(message);
                StepReply::Ready
            }
            StepAction::PollTimeout => StepReply::Deadline(deadline),
            StepAction::HandleTimeout => {
                fired = true;
                StepReply::Ready
            }
            StepAction::PollEvent => StepReply::Event(events.next().copied()),
            StepAction::PollRead => StepReply::Read(reads.next().copied()),
            StepAction::Finish(worked) => return (handed, fired, worked),
        };
    }
}

#[test]
fn a_step_hands_over_fires_and_drains() {
    let mut peer = Peer::new(at(1), at(2));
    assert!(!peer.connected());
    let mut stats = Direction::default();
    let datagrams = VecDeque::from(vec![vec![1, 2], vec![3], vec![]]);
    assert!(stats.takes(&datagrams));
    assert!(transmit(datagrams, &mut peer, &mut stats));
    assert_eq!(stats, Direction { datagrams: 3, bytes: 3 });

    let (handed, fired, worked) = run_step(
        &mut peer,
        10,
        Some(10),
        &[
            ConnectionEvent::Other,
            ConnectionEvent::Connected,
            ConnectionEvent::ChannelOpen(4),
            ConnectionEvent::ChannelOpen(2),
            ConnectionEvent::TrackOpen,
        ],
        &[
            Delivery::Rtp(1200),
            Delivery::Rtcp,
            Delivery::Channel(64),
            Delivery::Rtp(160),
            Delivery::Other,
        ],
    );
    assert_eq!(handed, vec![vec![1, 2], vec![3], vec![]]);
    assert!(fired && worked);
    assert!(peer.connected());
    assert_eq!(peer.open_channels(), &[4, 2]);
    assert_eq!(peer.tracks_opened(), 1);
    assert_eq!(
        peer.received(),
        Received {
            rtp_packets: 2,
            rtp_payload_bytes: 1360,
            rtcp_packets: 1,
            data_channel_messages: 1,
            data_channel_bytes: 64,
        }
    );

    // A timer alone is not work, and one that is not due does not fire.
    assert_eq!(run_step(&mut peer, 10, Some(10), &[], &[]), (vec![], true, false));
    assert_eq!(run_step(&mut peer, 10, Some(11), &[], &[]), (vec![], false, false));
    assert_eq!(run_step(&mut peer, 10, None, &[], &[]), (vec![], false, false));
    assert!(run_step(&mut peer, 10, None, &[ConnectionEvent::Failed], &[]).2);
    assert!(peer.failed);
}

#[test]
fn cost_is_charged_and_reset() {
    let mut peer = Peer::new(at(1), at(2));
    peer.charge(5, Allocations { count: 1, bytes: 8 });
    peer.charge(7, Allocations { count: 2, bytes: 4 });
    assert_eq!(peer.busy(), 12);
    assert_eq!(peer.allocations(), Allocations { count: 3, bytes: 12 });
    peer.reset_accounting();
    assert_eq!(peer.busy(), 0);
    assert_eq!(peer.allocations(), Allocations::default());
}

#[test]
fn counts_say_when_they_are_full() {
    let full = Received {
        rtp_packets: u64::MAX,
        rtp_payload_bytes: 0,
        rtcp_packets: u64::MAX,
        data_channel_messages: 0,
        data_channel_bytes: u64::MAX - 1,
    };
    assert!(!full.takes(Delivery::Rtp(0)));
    assert!(!full.takes(Delivery::Rtcp));
    assert!(full.takes(Delivery::Channel(1)));
    assert!(!full.takes(Delivery::Channel(2)));
    assert!(full.takes(Delivery::Other));
    let wire = Direction {
        datagrams: u64::MAX - 1,
        bytes: u64::MAX - 3,
    };
    assert!(wire.takes(&VecDeque::from(vec![vec![0; 3]])));
    assert!(!wire.takes(&VecDeque::from(vec![vec![0; 4]])));
    assert!(!wire.takes(&VecDeque::from(vec![vec![], vec![]])));
}

fn pair(kinds: &[MediaKind], channel: Option<u16>) -> PeerPair {
    let mut builder: PairBuilder<u8, u16> = PeerPair::builder();
    for kind in kinds {
        builder = builder.track(*kind);
    }
    let plan = builder.build();
    let senders: Vec<usize> = (0..kinds.len()).map(|i| 100 + i).collect();
    PeerPair::assemble(&plan.tracks, &senders, channel, SECOND)
}

#[test]
fn a_builder_plans_both_sides() {
    let builder: PairBuilder<&str, u16> = PeerPair::builder();
    let plan = builder
        .certificates("offerer", "answerer")
        .interceptors(Interceptors::Default)
        .track(MediaKind::Video)
        .track(MediaKind::Audio)
        .data_channel(9)
        .build();
    assert_eq!(plan.offerer.certificate, Some("offerer"));
    assert_eq!(plan.answerer.certificate, Some("answerer"));
    assert!(plan.offerer.default_interceptors && plan.answerer.default_interceptors);
    assert_eq!(plan.offerer.addr, at(OFFERER_PORT));
    assert_eq!(plan.answerer.addr, at(ANSWERER_PORT));
    assert_eq!(plan.offerer.component, 1);
    assert_eq!(plan.answerer.network, "udp");
    assert_eq!(plan.channel_label, "rtc-bench");
    assert_eq!(plan.answerer.codecs.len(), 2);
    assert_eq!(plan.answerer.codecs[0].0.payload_type, 111);
    assert_eq!(plan.answerer.codecs[1].1, RtpCodecKind::Video);
    assert_eq!(plan.data_channel, Some(9));
    assert_eq!(plan.tracks.len(), 2);
    assert_eq!(plan.tracks[0].stream_id, "rtc-bench-stream-0");
    assert_eq!(plan.tracks[1].track_id, "rtc-bench-track-1");
    assert_eq!(plan.tracks[0].label, "video-0");
    assert_eq!(plan.tracks[1].label, "audio-1");
    assert_eq!(plan.tracks[1].ssrc, FIRST_SSRC + 1);
    for codec in [&plan.tracks[1].codec, &plan.offerer.codecs[0].0] {
        assert_eq!(codec.rtp_codec.channels, 2);
        assert_eq!(codec.rtp_codec.sdp_fmtp_line, "minptime=10;useinbandfec=1");
    }
    for codec in [&plan.tracks[0].codec, &plan.answerer.codecs[1].0] {
        assert_eq!(codec.rtp_codec.channels, 0);
        assert_eq!(codec.rtp_codec.sdp_fmtp_line, "");
    }

    let many = pair(&[MediaKind::Audio; 13], None);
    let bare: PairBuilder<u8, u16> = PeerPair::builder();
    let plan = (0..13).fold(bare, |builder, _| builder.track(MediaKind::Audio)).build();
    assert_eq!(plan.tracks[12].stream_id, "rtc-bench-stream-12");
    assert!(plan.offerer.certificate.is_none());
    assert!(!plan.offerer.default_interceptors);
    assert_eq!(many.tracks().len(), 13);
}

#[test]
fn the_wire_moves_everything_both_ways() {
    let mut pair = pair(&[], None);
    assert!(!pair.carry(VecDeque::new(), VecDeque::new()));
    assert!(pair.carry(
        VecDeque::from(vec![vec![1; 10], vec![2; 20]]),
        VecDeque::from(vec![vec![3; 5]])
    ));
    assert_eq!(
        pair.wire(),
        WireStats {
            to_answerer: Direction { datagrams: 2, bytes: 30 },
            to_offerer: Direction { datagrams: 1, bytes: 5 },
        }
    );
    let now = pair.now();
    let (handed, _, worked) = run_step(&mut pair.answerer, now, None, &[], &[]);
    assert_eq!(handed, vec![vec![1; 10], vec![2; 20]]);
    assert!(worked);
    assert_eq!(pair.offerer.inbound.len(), 1);
}

#[test]
fn connecting_waits_for_both_sides() {
    let mut pair = pair(&[], Some(3));
    assert_eq!(pair.drive_until(true, pair.is_connected()), Round::Again);
    pair.offerer.connected = true;
    pair.answerer.connected = true;
    assert!(!pair.is_connected());
    assert_eq!(pair.drive_until(false, pair.is_connected()), Round::Idle);
    pair.offerer.open_channels.push(3);
    pair.answerer.open_channels.push(3);
    assert!(pair.is_connected());
    assert_eq!(pair.drive_until(false, pair.is_connected()), Round::Reached);
    pair.answerer.failed = true;
    assert_eq!(pair.drive_until(true, false), Round::Stop(PairError::Failed));
}

#[test]
fn the_clock_jumps_to_the_next_deadline() {
    let mut pair = pair(&[], None);
    let deadline = pair.drive_deadline();
    assert_eq!(deadline, SECOND + VIRTUAL_TIME_BUDGET);
    assert!(pair.can_jump(None, None));
    pair.advance_to_next_deadline(Some(3 * SECOND), Some(2 * SECOND));
    assert_eq!(pair.now(), 2 * SECOND);
    pair.advance_to_next_deadline(Some(3 * SECOND), Some(2 * SECOND));
    assert_eq!(pair.now(), 3 * SECOND);
    pair.advance_to_next_deadline(Some(3 * SECOND), None);
    assert_eq!(pair.now(), 3 * SECOND + MILLISECOND);
    pair.advance(5);
    assert_eq!(pair.now(), 3 * SECOND + MILLISECOND + 5);
    assert_eq!(pair.wait(deadline, Some(deadline), None), Round::Again);
    assert_eq!(pair.wait(deadline, None, None), Round::Stop(PairError::Stalled));
    pair.now = u64::MAX;
    assert!(!pair.can_jump(Some(7), None));
}

#[test]
fn a_flush_ends_when_the_peers_are_quiet() {
    assert_eq!(PeerPair::flush(1, true), Round::Again);
    assert_eq!(PeerPair::flush(1, false), Round::Reached);
    assert_eq!(PeerPair::flush(FLUSH_ROUND_LIMIT, false), Round::Reached);
    assert_eq!(
        PeerPair::flush(FLUSH_ROUND_LIMIT, true),
        Round::Stop(PairError::NeverQuiet)
    );
}

#[test]
fn packets_go_round_the_tracks() {
    let mut pair = pair(&[MediaKind::Video, MediaKind::Audio, MediaKind::Video], None);
    let mut stream = pair.begin_stream(7, 3);
    let mut seen = vec![];
    let mut flushes = vec![];
    while let Some(send) = pair.stream_rtp(&mut stream) {
        let header = &send.packet.header;
        seen.push((send.sender_id, header.ssrc, header.sequence_number, header.timestamp));
        flushes.push(send.flush);
        let audio = send.sender_id == 101;
        assert_eq!(send.packet.payload.len(), if audio { 160 } else { 1200 });
        assert_eq!(header.payload_type, if audio { 111 } else { 96 });
        let interval = if audio { 20 * MILLISECOND } else { MILLISECOND };
        assert_eq!(send.interval, interval / 3);
        pair.advance(send.interval);
    }
    assert_eq!(
        seen,
        vec![
            (100, FIRST_SSRC, 0, 0),
            (101, FIRST_SSRC + 1, 0, 0),
            (102, FIRST_SSRC + 2, 0, 0),
            (100, FIRST_SSRC, 1, 90),
            (101, FIRST_SSRC + 1, 1, 960),
            (102, FIRST_SSRC + 2, 1, 90),
            (100, FIRST_SSRC, 2, 180),
        ]
    );
    assert_eq!(flushes, vec![false, false, true, false, false, true, true]);
    assert_eq!(pair.next_track, 1);
    assert_eq!(
        pair.end_stream(&stream),
        Err(PairError::Undelivered {
            sent: 7,
            delivered: 0
        })
    );
    pair.answerer.received.rtp_packets = 7;
    assert_eq!(pair.end_stream(&stream), Ok(()));

    let (sender, packet) = pair.send_rtp(2);
    assert_eq!(sender, 102);
    assert_eq!(packet.header.version, 2);
    assert_eq!(packet.header.sequence_number, 2);
}

#[test]
fn a_transfer_queues_pumps_waits_and_ends() {
    let mut pair = pair(&[], Some(3));
    assert_eq!(pair.begin_transfer(), Err(PairError::NoOpenChannel));
    pair.offerer.open_channels.push(3);
    pair.answerer.received.data_channel_bytes = 50;
    let mut transfer = pair.begin_transfer().unwrap();
    assert_eq!((transfer.channel, transfer.expected), (3, 50));

    let mut next = |pair: &mut PeerPair, reply| pair.transfer(&mut transfer, reply);
    let below = TransferReply::Outstanding(SEND_BUFFER_LIMIT - 1);
    assert_eq!(next(&mut pair, below), TransferAction::Send);
    assert_eq!(next(&mut pair, TransferReply::Sent(100)), TransferAction::Offer);
    let full = TransferReply::Outstanding(SEND_BUFFER_LIMIT);
    assert_eq!(next(&mut pair, full), TransferAction::Pump);
    let pumped = |worked, more| TransferReply::Pumped { worked, more };
    // Something was sent, so the round counts even though the pump found nothing.
    assert_eq!(next(&mut pair, pumped(false, true)), TransferAction::Offer);
    assert_eq!(next(&mut pair, TransferReply::NoMessage), TransferAction::Pump);
    assert_eq!(next(&mut pair, pumped(true, false)), TransferAction::Offer);
    assert_eq!(next(&mut pair, TransferReply::NoMessage), TransferAction::Pump);
    assert_eq!(next(&mut pair, pumped(false, false)), TransferAction::PollTimeouts);
    assert_eq!(
        next(&mut pair, TransferReply::Deadlines(None, Some(2 * SECOND))),
        TransferAction::Offer
    );
    assert_eq!(pair.now(), 2 * SECOND);
    pair.answerer.received.data_channel_bytes = 150;
    assert_eq!(next(&mut pair, pumped(true, true)), TransferAction::Offer);
    assert_eq!(next(&mut pair, pumped(true, false)), TransferAction::Finish);

    assert_eq!(
        next(&mut pair, TransferReply::Gone),
        TransferAction::Fail(PairError::ErrDataChannelClosed)
    );
    let late = Some(2 * SECOND + VIRTUAL_TIME_BUDGET);
    assert_eq!(
        next(&mut pair, TransferReply::Deadlines(late, None)),
        TransferAction::Fail(PairError::Stalled)
    );
}

#[test]
fn payload_types_follow_negotiation() {
    let mut pair = pair(&[MediaKind::Video, MediaKind::Audio, MediaKind::Audio], None);
    let codec = |mime_type: &str, payload_type| NegotiatedCodec {
        mime_type: mime_type.to_owned(),
        payload_type,
    };
    pair.resolve_payload_types(&vec![
        Some(vec![
            codec("video/H264", 102),
            codec("VIDEO/vp8", 120),
            codec("video/VP8", 121),
        ]),
        None,
        Some(vec![codec("audio/PCMU", 0)]),
    ]);
    let types: Vec<u8> = pair
        .tracks()
        .iter()
        .map(|track| track.payload_type)
        .collect();
    assert_eq!(types, vec![120, 111, 111]);
}
