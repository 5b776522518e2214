//! Receiver reports, and the same reports from a walk packet by packet.

use rtc_core::receiver_stream::{ReceiverStream, PACKETS_PER_ENTRY};
use rtc_core::rtcp::{ReceiverReport, ReceptionReport, SenderReport};
use rtc_core::rtp::{Header, Packet};
use rtc_core::time::{Instant, SECOND};

fn make_rtp_packet(seq: u16, timestamp: u32) -> Packet {
    Packet {
        header: Header {
            sequence_number: seq,
            timestamp,
            ..Default::default()
        },
        payload: bytes::Bytes::new(),
    }
}

#[test]
fn test_can_use_entire_history_size() {
    let mut stream = ReceiverStream::new(12345, 90000);
    let max_packets = stream.packets.len() * PACKETS_PER_ENTRY;

    for seq in 0..max_packets as u16 {
        assert!(
            !stream.get_received(seq),
            "packet with SN {} shouldn't be received yet",
            seq
        );
        stream.set_received(seq);
        assert!(
            stream.get_received(seq),
            "packet with SN {} should now be received",
            seq
        );
    }

    for seq in 0..max_packets as u16 {
        assert!(
            stream.get_received(seq),
            "packet with SN {} should still be marked as received",
            seq
        );
        stream.del_received(seq);
        assert!(
            !stream.get_received(seq),
            "packet with SN {} should no longer be received",
            seq
        );
    }
}

#[test]
fn test_receiver_stream_before_any_packet() {
    let mut stream = ReceiverStream::new(123456, 90000);
    let now: Instant = 9 * SECOND;

    let rr = stream.generate_report(now, 0);

    assert_eq!(rr.reports.len(), 1);
    assert_eq!(rr.reports[0].ssrc, 123456);
    assert_eq!(rr.reports[0].last_sequence_number, 0);
    assert_eq!(rr.reports[0].last_sender_report, 0);
    assert_eq!(rr.reports[0].fraction_lost, 0);
    assert_eq!(rr.reports[0].total_lost, 0);
    assert_eq!(rr.reports[0].delay, 0);
    assert_eq!(rr.reports[0].jitter, 0);
}

#[test]
fn test_receiver_stream_after_rtp_packets() {
    let mut stream = ReceiverStream::new(123456, 90000);
    let now: Instant = 9 * SECOND;

    for i in 0..10u16 {
        let pkt = make_rtp_packet(i, 0);
        stream.process_rtp(now, &pkt);
    }

    let rr = stream.generate_report(now, 0);

    assert_eq!(rr.reports.len(), 1);
    assert_eq!(rr.reports[0].ssrc, 123456);
    assert_eq!(rr.reports[0].last_sequence_number, 9);
    assert_eq!(rr.reports[0].last_sender_report, 0);
    assert_eq!(rr.reports[0].fraction_lost, 0);
    assert_eq!(rr.reports[0].total_lost, 0);
    assert_eq!(rr.reports[0].delay, 0);
    assert_eq!(rr.reports[0].jitter, 0);
}

#[test]
fn test_receiver_stream_overflow() {
    let mut stream = ReceiverStream::new(123456, 90000);
    let now: Instant = 9 * SECOND;

    stream.process_rtp(now, &make_rtp_packet(0xffff, 0));

    stream.process_rtp(now, &make_rtp_packet(0x00, 0));

    stream.process_rtp(now, &make_rtp_packet(0xfffe, 0));

    let rr = stream.generate_report(now, 0);

    assert_eq!(rr.reports.len(), 1);
    assert_eq!(rr.reports[0].ssrc, 123456);
    assert_eq!(rr.reports[0].last_sequence_number, 1 << 16);
    assert_eq!(rr.reports[0].fraction_lost, 0);
    assert_eq!(rr.reports[0].total_lost, 0);
}

#[test]
fn test_receiver_stream_packet_loss() {
    let mut stream = ReceiverStream::new(123456, 90000);
    let now: Instant = 9 * SECOND;

    stream.process_rtp(now, &make_rtp_packet(0x01, 0));

    stream.process_rtp(now, &make_rtp_packet(0x03, 0));

    let rr = stream.generate_report(now, 0);

    assert_eq!(rr.reports.len(), 1);
    assert_eq!(rr.reports[0].ssrc, 123456);
    assert_eq!(rr.reports[0].last_sequence_number, 0x03);
    assert_eq!(rr.reports[0].fraction_lost, (256u32 * 1 / 3) as u8);
    assert_eq!(rr.reports[0].total_lost, 1);
}

#[test]
fn test_receiver_stream_overflow_and_packet_loss() {
    let mut stream = ReceiverStream::new(123456, 90000);
    let now: Instant = 9 * SECOND;

    stream.process_rtp(now, &make_rtp_packet(0xffff, 0));

    stream.process_rtp(now, &make_rtp_packet(0x01, 0));

    let rr = stream.generate_report(now, 0);

    assert_eq!(rr.reports.len(), 1);
    assert_eq!(rr.reports[0].ssrc, 123456);
    assert_eq!(rr.reports[0].last_sequence_number, (1 << 16) | 0x01);
    assert_eq!(rr.reports[0].fraction_lost, (256u32 * 1 / 3) as u8);
    assert_eq!(rr.reports[0].total_lost, 1);
}

#[test]
fn test_receiver_stream_reordered_packets() {
    let mut stream = ReceiverStream::new(123456, 90000);
    let now: Instant = 9 * SECOND;

    for seq in [0x01u16, 0x03, 0x02, 0x04] {
        stream.process_rtp(now, &make_rtp_packet(seq, 0));
    }

    let rr = stream.generate_report(now, 0);

    assert_eq!(rr.reports.len(), 1);
    assert_eq!(rr.reports[0].ssrc, 123456);
    assert_eq!(rr.reports[0].last_sequence_number, 0x04);
    assert_eq!(rr.reports[0].fraction_lost, 0);
    assert_eq!(rr.reports[0].total_lost, 0);
}

#[test]
fn test_receiver_stream_delay() {
    let mut stream = ReceiverStream::new(123456, 90000);
    let base_time: Instant = 9 * SECOND;

    let sr = SenderReport {
        ssrc: 123456,
        ntp_time: 0x1234_5678_0000_0000,
        rtp_time: 987654321,
        packet_count: 0,
        octet_count: 0,
    };
    stream.process_sender_report(base_time, &sr);

    let later_time = base_time + SECOND;
    let rr = stream.generate_report(later_time, 0);

    assert_eq!(rr.reports.len(), 1);
    assert_eq!(rr.reports[0].delay, 65536);
    assert_eq!(rr.reports[0].last_sender_report, 0x5678_0000);
}

#[test]
fn test_receiver_stream_delay_before_sender_report() {
    let mut stream = ReceiverStream::new(123456, 90000);
    let now: Instant = 9 * SECOND;

    for i in 0..5u16 {
        stream.process_rtp(now, &make_rtp_packet(i, 0));
    }

    let rr = stream.generate_report(now, 0);

    assert_eq!(rr.reports[0].delay, 0);
    assert_eq!(rr.reports[0].last_sender_report, 0);
}

#[test]
fn test_receiver_stream_cumulative_loss() {
    let mut stream = ReceiverStream::new(123456, 90000);
    let now: Instant = 9 * SECOND;

    stream.process_rtp(now, &make_rtp_packet(1, 0));
    stream.process_rtp(now, &make_rtp_packet(3, 0));

    let rr1 = stream.generate_report(now, 0);
    assert_eq!(rr1.reports[0].total_lost, 1);

    stream.process_rtp(now, &make_rtp_packet(4, 0));
    stream.process_rtp(now, &make_rtp_packet(6, 0));

    let rr2 = stream.generate_report(now, 0);
    assert_eq!(rr2.reports[0].total_lost, 2);
}

#[test]
fn test_receiver_stream_24bit_loss_clamping() {
    let mut stream = ReceiverStream::new(123456, 90000);
    stream.total_lost = 0xFFFFFE;

    let now: Instant = 9 * SECOND;

    stream.process_rtp(now, &make_rtp_packet(1, 0));
    stream.process_rtp(now, &make_rtp_packet(10, 0));

    let rr = stream.generate_report(now, 0);

    assert_eq!(rr.reports[0].total_lost, 0xFFFFFF);
}

fn walk_process_rtp(stream: &mut ReceiverStream, jitter: &mut f64, now: Instant, pkt: &Packet) {
    let seq = pkt.header.sequence_number;

    if let Some(last_rtp_time_time) = stream.last_rtp_time_time {
        stream.set_received(seq);

        let diff = seq.wrapping_sub(stream.last_seq_num);
        if diff > 0 && diff < (1 << 15) {
            if seq < stream.last_seq_num {
                stream.seq_num_cycles = stream.seq_num_cycles.wrapping_add(1);
            }

            let mut i = stream.last_seq_num.wrapping_add(1);
            while i != seq {
                stream.del_received(i);
                i = i.wrapping_add(1);
            }

            stream.last_seq_num = seq;
        }

        let d = seconds(last_rtp_time_time, now) * stream.clock_rate as f64
            - (pkt.header.timestamp as f64 - stream.last_rtp_time_rtp as f64);
        *jitter += (d.abs() - *jitter) / 16.0;
    } else {
        stream.set_received(seq);
        stream.last_seq_num = seq;
        stream.last_report_seq_num = seq.wrapping_sub(1);
    }

    stream.last_rtp_time_rtp = pkt.header.timestamp;
    stream.last_rtp_time_time = Some(now);
}

fn walk_generate_report(
    stream: &mut ReceiverStream,
    now: Instant,
    jitter: u32,
) -> ReceiverReport {
    let total_since_report = stream.last_seq_num.wrapping_sub(stream.last_report_seq_num);
    let mut total_lost_since_report = {
        if stream.last_seq_num == stream.last_report_seq_num {
            0
        } else {
            let mut ret = 0u32;
            let mut i = stream.last_report_seq_num.wrapping_add(1);
            while i != stream.last_seq_num {
                if !stream.get_received(i) {
                    ret += 1;
                }
                i = i.wrapping_add(1);
            }
            ret
        }
    };

    stream.total_lost += total_lost_since_report;

    if total_lost_since_report > 0xFFFFFF {
        total_lost_since_report = 0xFFFFFF;
    }
    if stream.total_lost > 0xFFFFFF {
        stream.total_lost = 0xFFFFFF
    }

    let delay = match stream.last_sender_report_time {
        Some(sr_time) => (seconds(sr_time, now) * 65536.0) as u32,
        None => 0,
    };

    let fraction_lost = if total_since_report > 0 {
        ((total_lost_since_report * 256) as f64 / total_since_report as f64) as u8
    } else {
        0
    };

    let r = ReceiverReport {
        ssrc: stream.receiver_ssrc,
        reports: vec![ReceptionReport {
            ssrc: stream.ssrc,
            last_sequence_number: (stream.seq_num_cycles as u32) << 16
                | (stream.last_seq_num as u32 & 0xFFFF),
            last_sender_report: stream.last_sender_report,
            fraction_lost,
            total_lost: stream.total_lost,
            delay,
            jitter,
        }],
    };

    stream.last_report_seq_num = stream.last_seq_num;

    r
}

fn seconds(from: Instant, to: Instant) -> f64 {
    let nanos = to.saturating_sub(from);
    (nanos / SECOND) as f64 + (nanos % SECOND) as f64 / 1e9
}

struct XorShift(u64);

impl XorShift {
    fn next(&mut self) -> u64 {
        self.0 ^= self.0 << 13;
        self.0 ^= self.0 >> 7;
        self.0 ^= self.0 << 17;
        self.0
    }

    fn below(&mut self, n: u64) -> u64 {
        self.next() % n
    }
}

fn assert_same(stream: &ReceiverStream, reference: &ReceiverStream, context: &str) {
    assert_eq!(stream.packets, reference.packets, "bitmap, {context}");
    assert_eq!(stream.last_seq_num, reference.last_seq_num, "{context}");
    assert_eq!(
        stream.last_report_seq_num, reference.last_report_seq_num,
        "{context}"
    );
    assert_eq!(stream.seq_num_cycles, reference.seq_num_cycles, "{context}");
    assert_eq!(stream.total_lost, reference.total_lost, "{context}");
}

#[test]
fn reports_match_per_packet_reference() {
    let mut rng = XorShift(0x6a09_e667_f3bc_c908);
    let capacity = 128 * PACKETS_PER_ENTRY as u64;
    for run in 0..48 {
        let mut stream = ReceiverStream::new(0x1234, 90_000);
        let mut reference = ReceiverStream::new(0x1234, 90_000);
        let mut jitter = 0.0f64;
        reference.receiver_ssrc = stream.receiver_ssrc;
        if run % 6 == 5 {
            stream.total_lost = 0xFF_FFFF - rng.below(40_000) as u32;
            reference.total_lost = stream.total_lost;
        }

        let t0: Instant = 9 * SECOND;
        let mut now = t0;
        let mut timestamp = rng.next() as u32;
        let mut seq = if run % 2 == 0 {
            0u16.wrapping_sub(rng.below(3 * capacity) as u16)
        } else {
            rng.next() as u16
        };
        for step in 0..1_500 {
            let context = format!("run {run}, step {step}, seq {seq}");
            match rng.below(1000) {
                0..=9 => {
                    let expected = walk_generate_report(&mut reference, now, jitter as u32);
                    assert_eq!(stream.generate_report(now, jitter as u32), expected, "report, {context}");
                }
                10..=11 => {
                    let sr = SenderReport {
                        ssrc: 0x1234,
                        ntp_time: rng.next(),
                        rtp_time: 0,
                        packet_count: 0,
                        octet_count: 0,
                    };
                    stream.process_sender_report(now, &sr);
                    reference.process_sender_report(now, &sr);
                }
                _ => {
                    let base = if rng.below(2) == 0 {
                        seq
                    } else {
                        stream.last_seq_num
                    };
                    seq = match rng.below(100) {
                        0..=59 => base.wrapping_add(1),
                        60..=74 => base.wrapping_add(2 + rng.below(8) as u16),
                        75..=86 => base.wrapping_sub(rng.below(40) as u16),
                        87..=90 => base.wrapping_add(capacity as u16 - 2 + rng.below(5) as u16),
                        91..=94 => base.wrapping_add(rng.below(0x8000) as u16),
                        95..=97 => base.wrapping_add(0x8000 + rng.below(0x8000) as u16),
                        _ => rng.next() as u16,
                    };
                    now += 1_000 * rng.below(40_000);
                    timestamp = timestamp.wrapping_add(rng.below(6_000) as u32);
                    let pkt = Packet {
                        header: Header {
                            sequence_number: seq,
                            timestamp,
                            ..Default::default()
                        },
                        payload: bytes::Bytes::new(),
                    };
                    stream.process_rtp(now, &pkt);
                    walk_process_rtp(&mut reference, &mut jitter, now, &pkt);
                }
            }
            assert_same(&stream, &reference, &context);
        }
        let expected = walk_generate_report(&mut reference, now, jitter as u32);
        assert_eq!(
            stream.generate_report(now, jitter as u32),
            expected,
            "final report, run {run}"
        );
    }
}

#[test]
fn loss_count_matches_reference_from_any_state() {
    let mut rng = XorShift(0xbb67_ae85_84ca_a73b);
    for scenario in 0..24 {
        let packets: Vec<u64> = (0..128)
            .map(|_| match scenario % 4 {
                0 => 0,
                1 => u64::MAX,
                2 => rng.next(),
                _ => rng.next() | rng.next() | rng.next(),
            })
            .collect();
        let last_report_seq_num = rng.next() as u16;
        let mut distances: Vec<u16> = vec![0, 1, 2, 63, 64, 65, 66, 128, 129];
        distances.extend([8_191, 8_192, 8_193, 8_194, 16_385, 32_768, 65_534, 65_535]);
        distances.extend((0..12).map(|_| rng.next() as u16));
        for distance in distances {
            let mut stream = ReceiverStream::new(1, 90_000);
            stream.packets = packets.clone();
            stream.last_report_seq_num = last_report_seq_num;
            stream.last_seq_num = last_report_seq_num.wrapping_add(distance);
            let mut reference = ReceiverStream::new(1, 90_000);
            reference.receiver_ssrc = stream.receiver_ssrc;
            reference.packets = packets.clone();
            reference.last_report_seq_num = stream.last_report_seq_num;
            reference.last_seq_num = stream.last_seq_num;

            let now: Instant = 9 * SECOND;
            let expected = walk_generate_report(&mut reference, now, 0);
            assert_eq!(
                stream.generate_report(now, 0),
                expected,
                "scenario {scenario}, from {last_report_seq_num}, distance {distance}"
            );
        }
    }
}
