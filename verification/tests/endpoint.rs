//! Associations between two endpoints that share keys.

use rtc_core::alert::{Alert, AlertDescription, AlertLevel};
use rtc_core::cipher_suite::{RecordCipher, RecordSuite};
use rtc_core::conn::{DTLSConn, HandshakeConfig, HandshakeState, State};
use rtc_core::content::{Content, Handshake, Packet, RecordLayer};
use rtc_core::crypto_cbc::CryptoCbc;
use rtc_core::crypto_ccm::{CryptoCcm, CryptoCcmTagLen};
use rtc_core::crypto_chacha20::CryptoChaCha20;
use rtc_core::crypto_gcm::CryptoGcm;
use rtc_core::endpoint::{Endpoint, EndpointEvent, Resumption};
use rtc_core::error::Error;
use rtc_core::provider::RingProvider;
use rtc_core::record::{protocol_version1_2, HandshakeHeader, HandshakeType};
use rtc_core::time::SECOND;
use rtc_core::transport::{SocketAddr, TransportProtocol};

type Suite = RecordSuite<RingProvider>;

const CONFIG: HandshakeConfig = HandshakeConfig {
    maximum_transmission_unit: 1200,
    maximum_retransmit_number: 7,
    replay_protection_window: 64,
};

fn addr(port: u16) -> SocketAddr {
    SocketAddr {
        ip: 0x7f00_0001,
        v6: false,
        port,
    }
}

fn gcm(local: u8, remote: u8) -> RecordCipher<RingProvider> {
    RecordCipher::Gcm(
        CryptoGcm::new(
            RingProvider::new(),
            &[local; 16],
            &[local; 4],
            &[remote; 16],
            &[remote; 4],
        )
        .unwrap(),
    )
}

fn ccm(local: u8, remote: u8) -> RecordCipher<RingProvider> {
    RecordCipher::Ccm(
        CryptoCcm::new(
            RingProvider::new(),
            &CryptoCcmTagLen::CryptoCcm8TagLength,
            &[local; 16],
            &[local; 4],
            &[remote; 16],
            &[remote; 4],
        )
        .unwrap(),
    )
}

fn chacha(local: u8, remote: u8) -> RecordCipher<RingProvider> {
    RecordCipher::ChaCha20(
        CryptoChaCha20::new(
            RingProvider::new(),
            &[local; 32],
            &[local; 12],
            &[remote; 32],
            &[remote; 12],
        )
        .unwrap(),
    )
}

fn cbc(local: u8, remote: u8) -> RecordCipher<RingProvider> {
    RecordCipher::Cbc(
        CryptoCbc::new(
            RingProvider::new(),
            &[local; 32],
            &[local; 20],
            &[remote; 32],
            &[remote; 20],
        )
        .unwrap(),
    )
}

fn agreed(cipher: RecordCipher<RingProvider>) -> State<Suite> {
    State {
        local_epoch: 1,
        remote_epoch: 1,
        local_sequence_number: vec![0, 0],
        cipher_suite: Some(RecordSuite {
            cipher: Some(cipher),
            psk: false,
        }),
    }
}

fn endpoint(port: u16) -> Endpoint<Suite, Resumption> {
    Endpoint::new(addr(port), TransportProtocol::UDP, None, Resumption {})
}

fn joined(
    make: fn(u8, u8) -> RecordCipher<RingProvider>,
) -> (Endpoint<Suite, Resumption>, Endpoint<Suite, Resumption>) {
    let mut one = endpoint(1);
    let mut other = endpoint(2);
    one.connect(SECOND, addr(2), CONFIG, Some(agreed(make(1, 2))))
        .unwrap();
    other
        .connect(SECOND, addr(1), CONFIG, Some(agreed(make(2, 1))))
        .unwrap();
    (one, other)
}

#[test]
fn written_data_arrives_once_under_every_cipher() {
    for make in [gcm, ccm, chacha, cbc] {
        let (mut one, mut other) = joined(make);
        assert_eq!(one.get_connections_keys(), vec![addr(2)]);
        one.write(SECOND, addr(2), b"provider-backed DTLS").unwrap();
        let transmit = one.poll_transmit().unwrap();
        assert!(one.poll_transmit().is_none());
        assert_eq!(transmit.transport.peer_addr, addr(2));
        assert_eq!(transmit.transport.local_addr, addr(1));
        assert!(!transmit
            .message
            .windows(8)
            .any(|window| window == b"provider"));

        assert!(other.can_read(addr(1), &transmit.message));
        let events = other
            .read(SECOND, addr(1), None, &transmit.message)
            .unwrap();
        assert_eq!(
            events,
            vec![EndpointEvent::ApplicationData(
                b"provider-backed DTLS".to_vec()
            )]
        );
        assert!(other
            .read(SECOND, addr(1), None, &transmit.message)
            .unwrap()
            .is_empty());

        let mut tampered = transmit.message.clone();
        let last = tampered.len() - 1;
        tampered[last] ^= 1;
        tampered[10] = 9;
        assert_eq!(
            other.read(SECOND, addr(1), None, &tampered),
            Err(Error::ErrInvalidMac)
        );
        // Nothing of it is handed on, then or later.
        one.write(SECOND, addr(2), b"more").unwrap();
        let transmit = one.poll_transmit().unwrap();
        assert_eq!(
            other.read(SECOND, addr(1), None, &transmit.message),
            Ok(vec![EndpointEvent::ApplicationData(b"more".to_vec())])
        );
    }
}

#[test]
fn a_record_that_is_not_authentic_fails_the_read_but_not_the_rest_of_the_datagram() {
    let mut one = conn(gcm(1, 2));
    let mut other = conn(gcm(2, 1));
    one.write(b"first").unwrap();
    one.write(b"second").unwrap();
    let mut datagram = one.outgoing_raw_packet().unwrap();
    datagram[25] ^= 1;
    assert_eq!(other.read(&datagram), Err(Error::ErrInvalidMac));
    assert_eq!(other.incoming_application_data(), Some(b"second".to_vec()));
    assert!(other.incoming_application_data().is_none());
    // The number of the forged record is still free.
    datagram[25] ^= 1;
    assert_eq!(other.read(&datagram), Ok(()));
    assert_eq!(other.incoming_application_data(), Some(b"first".to_vec()));
    assert!(other.incoming_application_data().is_none());
}

#[test]
fn a_malformed_record_fails_the_read() {
    let mut other: DTLSConn<Suite> = DTLSConn::new(CONFIG, false, None);
    // Handshake data that is too short for its header, and a fragment that ends past its message.
    let short = [0x16, 0xfe, 0xfd, 0, 0, 0, 0, 0, 0, 0, 1, 0, 1, 1];
    assert_eq!(other.read(&short), Err(Error::ErrBufferTooSmall));
    let past = [
        0x16, 0xfe, 0xfd, 0, 0, 0, 0, 0, 0, 0, 2, 0, 13, 1, 0, 0, 1, 0, 0, 0, 0, 1, 0, 0, 1, 9,
    ];
    assert_eq!(other.read(&past), Err(Error::ErrLengthMismatch));
    // The rest of the datagram is taken in all the same: here the peer closes.
    let close = [0x15, 0xfe, 0xfd, 0, 0, 0, 0, 0, 0, 0, 3, 0, 2, 1, 0];
    let datagram = [&short[..], &close[..]].concat();
    assert_eq!(other.read(&datagram), Err(Error::ErrAlertFatalOrClose));
    assert!(other.outgoing_raw_packet().is_some());
    // A record that ends before its length says.
    assert_eq!(other.read(&past[..20]), Err(Error::ErrInvalidPacketLength));
}

#[test]
fn data_is_not_written_before_the_handshake_is_done() {
    let mut one: DTLSConn<Suite> = DTLSConn::new(CONFIG, true, Some(agreed(gcm(1, 2))));
    assert!(!one.is_handshake_completed());
    assert_eq!(one.write(b"early"), Err(Error::ErrHandshakeInProgress));
    assert!(one.outgoing_raw_packet().is_none());
    one.set_handshake_completed();
    assert!(one.outgoing_raw_packet().is_none());
    assert_eq!(one.write(b"data"), Ok(()));
    assert!(one.outgoing_raw_packet().is_some());

    let mut server = endpoint(1);
    server.set_server_config(Some(CONFIG));
    let record = [0x17, 0xfe, 0xfd, 0, 1, 0, 0, 0, 0, 0, 1, 0, 1, 0];
    server.read(SECOND, addr(7), None, &record).unwrap();
    assert_eq!(
        server.write(SECOND, addr(7), b"early"),
        Err(Error::ErrHandshakeInProgress)
    );
    assert!(server.poll_transmit().is_none());
}

#[test]
fn peers_that_are_not_known_are_refused() {
    let mut one = endpoint(1);
    assert_eq!(
        one.connect(SECOND, addr(0), CONFIG, None),
        Err(Error::InvalidRemoteAddress(addr(0)))
    );
    assert_eq!(
        one.write(SECOND, addr(2), b"data"),
        Err(Error::InvalidRemoteAddress(addr(2)))
    );
    assert_eq!(
        one.handle_timeout(addr(2), SECOND),
        Err(Error::InvalidRemoteAddress(addr(2)))
    );
    assert_eq!(
        one.read(SECOND, addr(2), None, &[0; 13]),
        Err(Error::NoServerConfig)
    );
    assert!(one.poll_timeout(&addr(2)).is_none());
    assert!(one.get_connection_state(addr(2)).is_none());
    assert!(one.stop(SECOND, addr(2)).is_none());
    assert!(one.get_connections_keys().is_empty());
}

#[test]
fn a_server_takes_up_associations_as_they_come() {
    let mut server = endpoint(1);
    server.set_server_config(Some(CONFIG));
    // A record that is not for any epoch yet: nothing comes of it but the association.
    let record = [0x17, 0xfe, 0xfd, 0, 1, 0, 0, 0, 0, 0, 1, 0, 1, 0];
    assert!(server
        .read(SECOND, addr(7), None, &record)
        .unwrap()
        .is_empty());
    assert_eq!(server.get_connections_keys(), vec![addr(7)]);
    let state = server.get_connection_state(addr(7)).unwrap();
    assert_eq!(state.remote_epoch, 0);
    assert!(state.cipher_suite.is_none());
}

#[test]
fn closing_tells_the_peer() {
    let (mut one, mut other) = joined(gcm);
    one.close(2 * SECOND).unwrap();
    assert!(one.get_connections_keys().is_empty());
    let farewell = one.poll_transmit().unwrap();
    let result = other.read(2 * SECOND, addr(1), None, &farewell.message);
    assert_eq!(result, Err(Error::ErrAlertFatalOrClose));

    let (mut one, _other) = joined(gcm);
    let stopped = one.stop(2 * SECOND, addr(2)).unwrap();
    assert!(stopped.is_connection_closed());
    assert!(one.poll_transmit().is_some());
    assert!(one.get_connections_keys().is_empty());
}

fn conn(cipher: RecordCipher<RingProvider>) -> DTLSConn<Suite> {
    let mut conn = DTLSConn::new(CONFIG, true, Some(agreed(cipher)));
    assert_eq!(conn.handshake_state(), HandshakeState::Finished);
    conn.set_handshake_completed();
    conn
}

#[test]
fn a_closed_connection_takes_no_data() {
    let mut one = conn(gcm(1, 2));
    one.write(b"data").unwrap();
    one.close();
    assert!(one.is_connection_closed());
    assert_eq!(one.write(b"data"), Err(Error::ErrConnClosed));
}

#[test]
fn records_share_datagrams_up_to_the_limit() {
    let mut one = conn(gcm(1, 2));
    let mut other = conn(gcm(2, 1));
    for len in [100usize, 200, 300, 900, 40] {
        one.write(&vec![len as u8; len]).unwrap();
    }
    let mut datagrams = vec![];
    while let Some(datagram) = one.outgoing_raw_packet() {
        assert!(datagram.len() < 1200);
        datagrams.push(datagram);
    }
    assert_eq!(datagrams.len(), 2);
    for datagram in &datagrams {
        other.read(datagram).unwrap();
    }
    for len in [100usize, 200, 300, 900, 40] {
        assert_eq!(
            other.incoming_application_data(),
            Some(vec![len as u8; len])
        );
    }
    assert!(other.incoming_application_data().is_none());
    assert_eq!(one.connection_state().local_sequence_number, vec![0, 5]);
}

#[test]
fn records_ahead_of_the_keys_are_held() {
    let mut one = conn(gcm(1, 2));
    one.write(b"early").unwrap();
    let early = one.outgoing_raw_packet().unwrap();

    let mut other: DTLSConn<Suite> = DTLSConn::new(CONFIG, false, None);
    assert_eq!(other.handshake_state(), HandshakeState::Preparing);
    other.read(&early).unwrap();
    assert_eq!(other.pending_records(), 1);
    assert_eq!(other.handle_incoming_queued_packets(), Ok(false));
    assert_eq!(other.pending_records(), 1);

    other.set_cipher_suite(RecordSuite {
        cipher: Some(gcm(2, 1)),
        psk: false,
    });
    // The peer changes its cipher, and what was held is opened.
    let change = [0x14, 0xfe, 0xfd, 0, 0, 0, 0, 0, 0, 0, 1, 0, 1, 1];
    other.read(&change).unwrap();
    other.handle_incoming_queued_packets().unwrap();
    other.set_handshake_completed();
    assert_eq!(other.connection_state().remote_epoch, 1);
    assert_eq!(other.pending_records(), 0);
    assert_eq!(other.incoming_application_data(), Some(b"early".to_vec()));

    // No more than the budget is held.
    let mut other: DTLSConn<Suite> = DTLSConn::new(CONFIG, false, None);
    for _ in 0..100 {
        one.write(b"early").unwrap();
        let early = one.outgoing_raw_packet().unwrap();
        other.read(&early).unwrap();
    }
    assert_eq!(other.pending_records(), 64);
}

#[test]
fn handshake_messages_are_cut_to_the_limit_and_rebuilt() {
    let body: Vec<u8> = (0..5000u32).map(|i| (i % 251) as u8).collect();
    let mut one: DTLSConn<Suite> = DTLSConn::new(CONFIG, true, None);
    let mut other: DTLSConn<Suite> = DTLSConn::new(CONFIG, false, None);
    one.write_packets(vec![Packet {
        record: RecordLayer::new(
            protocol_version1_2(),
            0,
            Content::Handshake(Handshake {
                handshake_header: HandshakeHeader {
                    handshake_type: HandshakeType::ClientHello,
                    length: 5000,
                    message_sequence: 0,
                    fragment_offset: 0,
                    fragment_length: 5000,
                },
                body: body.clone(),
            }),
        ),
        should_encrypt: false,
        reset_local_sequence_number: false,
    }]);
    one.handle_outgoing_packets().unwrap();
    let mut datagrams = vec![];
    while let Some(datagram) = one.outgoing_raw_packet() {
        datagrams.push(datagram);
    }
    assert_eq!(datagrams.len(), 5);
    // The order they arrive in does not matter.
    for datagram in datagrams.iter().rev() {
        other.read(datagram).unwrap();
    }
    assert_eq!(one.connection_state().local_sequence_number, vec![5]);
    let sent = one.handshake_cache().transcript(0, &[]);
    assert_eq!(sent.len(), 12 + 5000);
    assert_eq!(sent[12..], body[..]);
    assert_eq!(other.handshake_cache().transcript(0, &[]), sent);
}

#[test]
fn alerts_are_told_and_answered() {
    let mut one = conn(gcm(1, 2));
    let mut other = conn(gcm(2, 1));
    one.notify(AlertLevel::Warning, AlertDescription::UnexpectedMessage);
    let told = one.outgoing_raw_packet().unwrap();
    assert_eq!(
        other.read(&told),
        Err(Error::ErrAlert(Alert {
            alert_level: AlertLevel::Warning,
            alert_description: AlertDescription::UnexpectedMessage,
        }))
    );
    one.notify(AlertLevel::Fatal, AlertDescription::DecodeError);
    let told = one.outgoing_raw_packet().unwrap();
    assert_eq!(other.read(&told), Err(Error::ErrAlertFatalOrClose));
}
