//! The send buffer.

use rtc_core::rtp::{Header, Packet};
use rtc_core::send_buffer::{HistoryLimits, SendBuffer};
use rtc_core::time::{Instant, MILLISECOND, SECOND};

fn now() -> Instant {
    5 * SECOND
}

fn make_packet(seq: u16) -> Packet {
    Packet {
        header: Header {
            sequence_number: seq,
            ..Default::default()
        },
        payload: vec![seq as u8].into(),
    }
}

#[test]
fn test_send_buffer_invalid_size() {
    assert!(SendBuffer::new(0).is_none());
    assert!(SendBuffer::new(3).is_none());
    assert!(SendBuffer::new(5).is_none());
    assert!(SendBuffer::new(100).is_none());
}

#[test]
fn test_send_buffer_valid_sizes() {
    assert!(SendBuffer::new(1).is_some());
    assert!(SendBuffer::new(2).is_some());
    assert!(SendBuffer::new(8).is_some());
    assert!(SendBuffer::new(1024).is_some());
    assert!(SendBuffer::new(32768).is_some());
}

#[test]
fn test_send_buffer_basic() {
    let mut buf = SendBuffer::new(8).unwrap();

    buf.add(make_packet(0), now());
    assert!(buf.get(0, now()).is_some());
    assert_eq!(buf.get(0, now()).unwrap().header.sequence_number, 0);

    assert!(buf.get(1, now()).is_none());
}

#[test]
fn test_send_buffer_overwrite() {
    let mut buf = SendBuffer::new(8).unwrap();

    for i in 0..8 {
        buf.add(make_packet(i), now());
    }

    for i in 0..8 {
        assert!(buf.get(i, now()).is_some());
    }

    buf.add(make_packet(8), now());
    assert!(buf.get(8, now()).is_some());
    assert!(buf.get(0, now()).is_none());
}

#[test]
fn test_send_buffer_gap_clears_packets() {
    let mut buf = SendBuffer::new(8).unwrap();

    buf.add(make_packet(0), now());
    buf.add(make_packet(1), now());
    buf.add(make_packet(2), now());

    buf.add(make_packet(5), now());

    assert!(buf.get(0, now()).is_some());
    assert!(buf.get(1, now()).is_some());
    assert!(buf.get(2, now()).is_some());
    assert!(buf.get(3, now()).is_none());
    assert!(buf.get(4, now()).is_none());
    assert!(buf.get(5, now()).is_some());
}

#[test]
fn test_send_buffer_out_of_range() {
    let mut buf = SendBuffer::new(8).unwrap();

    for i in 0..8 {
        buf.add(make_packet(i), now());
    }

    for i in 8..16 {
        buf.add(make_packet(i), now());
    }

    for i in 0..8 {
        assert!(buf.get(i, now()).is_none());
    }

    for i in 8..16 {
        assert!(buf.get(i, now()).is_some());
    }
}

#[test]
fn test_send_buffer_wraparound() {
    let mut buf = SendBuffer::new(8).unwrap();

    buf.add(make_packet(65534), now());
    buf.add(make_packet(65535), now());
    buf.add(make_packet(0), now());
    buf.add(make_packet(1), now());

    assert!(buf.get(65534, now()).is_some());
    assert!(buf.get(65535, now()).is_some());
    assert!(buf.get(0, now()).is_some());
    assert!(buf.get(1, now()).is_some());
}

#[test]
fn test_send_buffer_out_of_order() {
    let mut buf = SendBuffer::new(8).unwrap();

    buf.add(make_packet(0), now());
    buf.add(make_packet(2), now());
    buf.add(make_packet(1), now());

    assert!(buf.get(0, now()).is_some());
    assert!(buf.get(1, now()).is_some());
    assert!(buf.get(2, now()).is_some());
}

fn sized_packet(seq: u16, len: usize) -> Packet {
    Packet {
        header: Header {
            sequence_number: seq,
            ..Default::default()
        },
        payload: vec![0u8; len].into(),
    }
}

#[test]
fn test_send_buffer_jump_past_the_window_clears_everything() {
    let mut buf = SendBuffer::new(8).unwrap();
    for i in 0..8 {
        buf.add(make_packet(i), now());
    }

    buf.add(make_packet(30_000), now());

    for i in 0..8 {
        assert!(buf.get(i, now()).is_none());
    }
    assert!(buf.get(30_000, now()).is_some());
    assert_eq!(buf.bytes(), 1);

    buf.add(make_packet(60_000), now());
    assert!(buf.get(30_000, now()).is_none());
    buf.add(make_packet(65_535), now());
    buf.add(make_packet(0), now());
    assert!(buf.get(65_535, now()).is_some());
    assert!(buf.get(0, now()).is_some());
    assert_eq!(buf.bytes(), 2);
}

#[test]
fn test_send_buffer_out_of_window_late_packet_is_ignored() {
    let mut buf = SendBuffer::new(8).unwrap();
    for i in 10..=20 {
        buf.add(make_packet(i), now());
    }

    buf.add(make_packet(12), now());

    assert!(
        buf.get(20, now()).is_some(),
        "the newer packet was displaced"
    );
    assert!(buf.get(12, now()).is_none());
}

#[test]
fn test_send_buffer_tracks_bytes() {
    let mut buf = SendBuffer::new(4).unwrap();
    buf.add(sized_packet(0, 100), now());
    buf.add(sized_packet(1, 10), now());
    assert_eq!(buf.bytes(), 110);

    buf.add(sized_packet(1, 10), now());
    assert_eq!(buf.bytes(), 110);

    buf.add(sized_packet(4, 1), now());
    assert_eq!(buf.bytes(), 11);

    buf.add(sized_packet(3, 5), now());
    assert_eq!(buf.bytes(), 16);
}

#[test]
fn test_send_buffer_byte_limit_evicts_oldest_first() {
    let limits = HistoryLimits {
        max_bytes: 250,
        max_age: None,
    };
    let mut buf = SendBuffer::with_limits(16, limits).unwrap();
    for i in 0..5 {
        buf.add(sized_packet(i, 100), now());
    }

    assert!(buf.bytes() <= 250);
    assert!(buf.get(0, now()).is_none());
    assert!(buf.get(2, now()).is_none());
    assert!(buf.get(3, now()).is_some());
    assert!(buf.get(4, now()).is_some());

    buf.add(sized_packet(5, 1_000), now());
    assert!(
        buf.get(5, now()).is_some(),
        "the newest packet is kept even alone over the limit"
    );
    assert_eq!(buf.bytes(), 1_000);
}

#[test]
fn test_send_buffer_age_limit() {
    let max_age = SECOND;
    let limits = HistoryLimits {
        max_bytes: usize::MAX,
        max_age: Some(max_age),
    };
    let mut buf = SendBuffer::with_limits(1024, limits).unwrap();
    let t0: Instant = 7 * SECOND;
    let at = |ms: u64| t0 + ms * MILLISECOND;

    for i in 0..10u16 {
        buf.add(sized_packet(i, 100), at(i as u64 * 200));
    }
    assert!(buf.get(3, at(1_800)).is_none());
    assert!(
        buf.get(4, at(1_800)).is_none(),
        "exactly max_age old is expired"
    );
    assert!(buf.get(5, at(1_800)).is_some());
    assert_eq!(buf.bytes(), 500);

    assert_eq!(buf.expires_at(), Some(at(1_800) + max_age));
    assert!(buf.get(9, at(2_799)).is_some());
    assert!(
        buf.get(9, at(2_800)).is_none(),
        "an unexpired lookup must still check age"
    );
    buf.expire(at(2_800));
    assert_eq!(buf.bytes(), 0);
    assert_eq!(buf.expires_at(), None, "nothing left to wake up for");

    buf.add(sized_packet(10, 100), at(5_000));
    assert!(buf.get(10, at(5_000)).is_some());
    assert_eq!(buf.expires_at(), Some(at(5_000) + max_age));
}
