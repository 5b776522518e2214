//! Record framing, record numbers, NACK pairs, checksums and the address map.

use rtc_core::addr_map::AddrMap;
use rtc_core::alert::{Alert, AlertDescription, AlertLevel};
use rtc_core::content::{unpack_datagram, Content, RecordLayer};
use rtc_core::error::Error;
use rtc_core::ogg_crc::ogg_table;
use rtc_core::record::{
    protocol_version1_2, ContentType, HandshakeHeader, HandshakeType, RecordLayerHeader,
    MAX_SEQUENCE_NUMBER,
};
use rtc_core::replay_detector::SlidingWindowDetector;
use rtc_core::rtcp::{nack_pairs_from_sequence_numbers, NackPair};
use rtc_core::transport::SocketAddr;

fn record_header() -> RecordLayerHeader {
    RecordLayerHeader {
        content_type: ContentType::ApplicationData,
        protocol_version: protocol_version1_2(),
        epoch: 0x0102,
        sequence_number: 0x0304_0506_0708,
        content_len: 0x090a,
    }
}

#[test]
fn a_record_header_is_read_as_it_was_written() {
    let header = record_header();
    let mut bytes = Vec::new();
    header.marshal(&mut bytes).unwrap();
    assert_eq!(bytes, [23, 0xfe, 0xfd, 1, 2, 3, 4, 5, 6, 7, 8, 9, 10]);
    assert_eq!(RecordLayerHeader::unmarshal(&bytes), Ok(header));
    assert_eq!(
        RecordLayerHeader::unmarshal(&bytes[..12]),
        Err(Error::ErrBufferTooSmall)
    );
}

#[test]
fn a_record_number_of_more_than_48_bits_is_refused() {
    let mut bytes = Vec::new();
    let last = RecordLayerHeader {
        sequence_number: MAX_SEQUENCE_NUMBER,
        ..record_header()
    };
    assert_eq!(last.marshal(&mut bytes), Ok(()));
    let beyond = RecordLayerHeader {
        sequence_number: MAX_SEQUENCE_NUMBER + 1,
        ..record_header()
    };
    assert_eq!(
        beyond.marshal(&mut bytes),
        Err(Error::ErrSequenceNumberOverflow)
    );
    assert_eq!(bytes.len(), 13);
}

#[test]
fn a_handshake_header_is_read_as_it_was_written() {
    let header = HandshakeHeader {
        handshake_type: HandshakeType::Certificate,
        length: 0x01_0203,
        message_sequence: 0x0405,
        fragment_offset: 0x06_0708,
        fragment_length: 0x09_0a0b,
    };
    let mut bytes = Vec::new();
    header.marshal(&mut bytes);
    assert_eq!(bytes, [11, 1, 2, 3, 4, 5, 6, 7, 8, 9, 10, 11]);
    assert_eq!(HandshakeHeader::unmarshal(&bytes), Ok(header));
}

fn alert_record() -> Vec<u8> {
    let content = Content::Alert(Alert {
        alert_level: AlertLevel::Fatal,
        alert_description: AlertDescription::UnknownPskIdentity,
    });
    let mut raw = Vec::new();
    RecordLayer::new(protocol_version1_2(), 0, content)
        .marshal(&mut raw)
        .unwrap();
    raw
}

#[test]
fn a_datagram_is_split_at_its_records() {
    let alert = alert_record();
    assert_eq!(alert, [21, 0xfe, 0xfd, 0, 0, 0, 0, 0, 0, 0, 0, 0, 2, 2, 115]);
    let mut change = Vec::new();
    RecordLayer::new(protocol_version1_2(), 0, Content::ChangeCipherSpec)
        .marshal(&mut change)
        .unwrap();
    let datagram = [alert.clone(), change.clone()].concat();
    assert_eq!(unpack_datagram(&datagram), Ok(vec![alert, change]));
    assert!(unpack_datagram(&datagram[..datagram.len() - 1]).is_err());
    assert_eq!(unpack_datagram(&[]), Ok(Vec::new()));
}

#[test]
fn what_a_record_holds_is_read() {
    match Content::unmarshal(&alert_record()) {
        Ok(Content::Alert(alert)) => {
            assert_eq!(alert.alert_level, AlertLevel::Fatal);
            assert_eq!(
                alert.alert_description,
                AlertDescription::UnknownPskIdentity
            );
            assert!(alert.is_final());
        }
        _ => panic!("an alert"),
    }
    let mut spec = vec![20, 0xfe, 0xfd, 0, 0, 0, 0, 0, 0, 0, 0, 0, 1, 2];
    assert!(matches!(
        Content::unmarshal(&spec),
        Err(Error::ErrInvalidCipherSpec)
    ));
    spec[0] = 99;
    assert!(matches!(
        Content::unmarshal(&spec),
        Err(Error::ErrInvalidContentType)
    ));
}

#[test]
fn a_record_number_is_accepted_once_and_only_within_the_window() {
    let mut detector = SlidingWindowDetector::new(64, MAX_SEQUENCE_NUMBER);
    assert!(detector.check(0));
    detector.accept(0);
    assert!(!detector.check(0));
    detector.accept(100);
    assert!(!detector.check(100));
    assert!(detector.check(37));
    assert!(!detector.check(36));
    assert!(detector.check(99));
    detector.accept(99);
    assert!(!detector.check(99));
    assert!(detector.check(MAX_SEQUENCE_NUMBER));
    assert!(!detector.check(MAX_SEQUENCE_NUMBER + 1));
}

#[test]
fn missing_numbers_are_packed_into_as_few_pairs_as_reach_them() {
    let pairs = nack_pairs_from_sequence_numbers(&vec![10, 11, 26, 27, 65_535]);
    assert_eq!(
        pairs,
        [
            NackPair { packet_id: 10, lost_packets: 0x8001 },
            NackPair { packet_id: 27, lost_packets: 0 },
            NackPair { packet_id: 65_535, lost_packets: 0 },
        ]
    );
    assert_eq!(pairs[0].packet_list(), [10, 11, 26]);
    // A number that wraps begins a pair of its own.
    assert_eq!(
        nack_pairs_from_sequence_numbers(&vec![65_535, 0]),
        [
            NackPair { packet_id: 65_535, lost_packets: 0 },
            NackPair { packet_id: 0, lost_packets: 0 },
        ]
    );
    // A mask may still reach over the wrap.
    assert_eq!(
        NackPair { packet_id: 65_535, lost_packets: 1 }.packet_list(),
        [65_535, 0]
    );
    assert!(nack_pairs_from_sequence_numbers(&Vec::new()).is_empty());
}

#[test]
fn the_ogg_checksum_of_the_nine_digits() {
    assert_eq!(ogg_table(0, b"123456789"), 0x89a1_897f);
    assert_eq!(ogg_table(0, b""), 0);
    for at in 0..=9 {
        let (head, tail) = b"123456789".split_at(at);
        assert_eq!(ogg_table(ogg_table(0, head), tail), 0x89a1_897f);
    }
}

#[test]
fn addresses_find_what_was_stored_under_them() {
    let one = SocketAddr {
        ip: 0x7f00_0001,
        v6: false,
        port: 1,
    };
    let two = SocketAddr { port: 2, ..one };
    let mut map = AddrMap::new();
    map.insert(one, "one");
    map.insert(two, "two");
    assert_eq!(map.remove(&one), Some("one"));
    map.insert(one, "uno");
    assert_eq!(map.get(&one), Some(&"uno"));
    assert_eq!(map.keys().len(), 2);
    assert_eq!(map.remove(&two), Some("two"));
    assert!(!map.contains(&two));
    assert_eq!(map.pop(), Some((one, "uno")));
    assert!(map.pop().is_none());
}
