//! Records under AES-128-GCM.

use rtc_core::crypto_gcm::CryptoGcm;
use rtc_core::provider::RingProvider;
use rtc_core::record::{
    protocol_version1_2, ContentType, RecordLayerHeader, RECORD_LAYER_HEADER_SIZE,
};

fn make_record(payload: &[u8]) -> (RecordLayerHeader, Vec<u8>) {
    let header = RecordLayerHeader {
        content_type: ContentType::ApplicationData,
        protocol_version: protocol_version1_2(),
        epoch: 1,
        sequence_number: 1,
        content_len: payload.len() as u16,
    };
    let mut raw = Vec::with_capacity(RECORD_LAYER_HEADER_SIZE + payload.len());
    header.marshal(&mut raw).unwrap();
    raw.extend_from_slice(payload);
    (header, raw)
}

#[test]
fn test_crypto_gcm_roundtrip() {
    let local_key = [0x11u8; 16];
    let local_iv = [0x22u8; 4];
    let remote_key = [0x33u8; 16];
    let remote_iv = [0x44u8; 4];
    let provider = RingProvider::new();
    let mut sender = CryptoGcm::new(
        provider,
        &local_key,
        &local_iv,
        &remote_key,
        &remote_iv,
    )
    .unwrap();
    let mut receiver =
        CryptoGcm::new(provider, &remote_key, &remote_iv, &local_key, &local_iv).unwrap();

    let payload = b"application data!";
    let (header, raw) = make_record(payload);

    let encrypted = sender.encrypt(&header, &raw).unwrap();
    assert_eq!(
        encrypted.len(),
        RECORD_LAYER_HEADER_SIZE + 8 + payload.len() + 16,
        "header + explicit nonce + ciphertext + tag"
    );
    assert_ne!(
        &encrypted[RECORD_LAYER_HEADER_SIZE + 8..RECORD_LAYER_HEADER_SIZE + 8 + payload.len()],
        &payload[..],
        "payload must not be in the clear"
    );

    let decrypted = receiver.decrypt(&encrypted).unwrap();
    assert_eq!(
        &decrypted[..RECORD_LAYER_HEADER_SIZE - 2],
        &raw[..RECORD_LAYER_HEADER_SIZE - 2]
    );
    assert_eq!(&decrypted[RECORD_LAYER_HEADER_SIZE..], &payload[..]);
}

#[test]
fn test_crypto_gcm_decrypt_too_short_for_tag() {
    let key = [0x11u8; 16];
    let iv = [0x22u8; 4];
    let mut cg =
        CryptoGcm::new(RingProvider::new(), &key, &iv, &key, &iv).unwrap();

    let (_, mut raw) = make_record(&[0u8; 0]);
    raw.extend_from_slice(&[0u8; 8 + 10]);

    assert!(cg.decrypt(&raw).is_err());
}

#[test]
fn test_crypto_gcm_decrypt_rejects_tampering() {
    let key = [0x11u8; 16];
    let iv = [0x22u8; 4];
    let mut cg =
        CryptoGcm::new(RingProvider::new(), &key, &iv, &key, &iv).unwrap();

    let (header, raw) = make_record(b"payload");
    let mut encrypted = cg.encrypt(&header, &raw).unwrap();
    let last = encrypted.len() - 1;
    encrypted[last] ^= 0xff;

    assert!(cg.decrypt(&encrypted).is_err());
}
