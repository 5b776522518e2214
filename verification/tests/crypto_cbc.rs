//! Records under AES-256-CBC.

use rtc_core::crypto_cbc::CryptoCbc;
use rtc_core::error::Error;
use rtc_core::provider::RingProvider;
use rtc_core::record::{
    protocol_version1_2, ContentType, RecordLayerHeader, RECORD_LAYER_HEADER_SIZE,
};

fn cipher_pair() -> (CryptoCbc<RingProvider>, CryptoCbc<RingProvider>) {
    let provider = RingProvider::new();
    let local_key = [0x11; 32];
    let remote_key = [0x22; 32];
    let local_mac = [0x33; 20];
    let remote_mac = [0x44; 20];
    let sender = CryptoCbc::new(
        provider,
        &local_key,
        &local_mac,
        &remote_key,
        &remote_mac,
    )
    .unwrap();
    let receiver =
        CryptoCbc::new(provider, &remote_key, &remote_mac, &local_key, &local_mac).unwrap();
    (sender, receiver)
}

fn record(payload: &[u8]) -> (RecordLayerHeader, Vec<u8>) {
    let header = RecordLayerHeader {
        content_type: ContentType::ApplicationData,
        protocol_version: protocol_version1_2(),
        epoch: 1,
        sequence_number: 7,
        content_len: payload.len() as u16,
    };
    let mut raw = Vec::new();
    header.marshal(&mut raw).unwrap();
    raw.extend_from_slice(payload);
    (header, raw)
}

#[test]
fn roundtrip_and_authentication_failures() {
    let (mut sender, mut receiver) = cipher_pair();
    let (header, raw) = record(b"CBC record payload");
    let encrypted = sender.encrypt(&header, &raw).unwrap();
    assert_eq!(
        receiver.decrypt(&encrypted).unwrap()[RECORD_LAYER_HEADER_SIZE..],
        raw[RECORD_LAYER_HEADER_SIZE..]
    );

    let mut wrong_mac = encrypted.clone();
    wrong_mac[RECORD_LAYER_HEADER_SIZE] ^= 1;
    assert_eq!(receiver.decrypt(&wrong_mac), Err(Error::ErrInvalidMac));

    let mut bad_padding = encrypted.clone();
    *bad_padding.last_mut().unwrap() ^= 1;
    assert_eq!(receiver.decrypt(&bad_padding), Err(Error::ErrInvalidMac));

    let mut truncated = encrypted;
    truncated.pop();
    assert_eq!(
        receiver.decrypt(&truncated),
        Err(Error::ErrInvalidPacketLength)
    );
}
