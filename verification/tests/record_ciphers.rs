//! The record ciphers, each against itself and in place.

use rtc_core::crypto_cbc::CryptoCbc;
use rtc_core::crypto_ccm::{CryptoCcm, CryptoCcmTagLen};
use rtc_core::crypto_chacha20::CryptoChaCha20;
use rtc_core::crypto_gcm::CryptoGcm;
use rtc_core::error::Error;
use rtc_core::provider::RingProvider;
use rtc_core::record::{
    protocol_version1_2, ContentType, ProtocolVersion, RecordLayerHeader, RECORD_LAYER_HEADER_SIZE,
};

#[test]
fn test_ccm_encryption_and_decryption() -> Result<(), Error> {
    let key = vec![
        0x18, 0x78, 0xac, 0xc2, 0x2a, 0xd8, 0xbd, 0xd8, 0xc6, 0x01, 0xa6, 0x17, 0x12, 0x6f, 0x63,
        0x54,
    ];
    let iv = vec![0x0e, 0xb2, 0x09, 0x06];

    let mut ccm = CryptoCcm::new(
        RingProvider::new(),
        &CryptoCcmTagLen::CryptoCcmTagLength,
        &key,
        &iv,
        &key,
        &iv,
    )?;

    let rlh = RecordLayerHeader {
        content_type: ContentType::ApplicationData,
        protocol_version: ProtocolVersion {
            major: 0xfe,
            minor: 0xff,
        },
        epoch: 0,
        sequence_number: 18,
        content_len: 3,
    };

    let raw = vec![
        0x17, 0xfe, 0xff, 0x00, 0x00, 0x00, 0x00, 0x00, 0x00, 0x00, 0x12, 0x00, 0x03, 0xff, 0xaa,
        0xbb,
    ];

    let cipher_text = ccm.encrypt(&rlh, &raw)?;

    assert_eq!(
        &cipher_text[RECORD_LAYER_HEADER_SIZE - 2..RECORD_LAYER_HEADER_SIZE],
        [0, 27],
        "RecordLayer size updating failed \nexp: {:?} \nactual {:?} ",
        [0, 27],
        &cipher_text[RECORD_LAYER_HEADER_SIZE - 2..RECORD_LAYER_HEADER_SIZE]
    );

    let plain_text = ccm.decrypt(&cipher_text)?;

    assert_eq!(
        raw[RECORD_LAYER_HEADER_SIZE..],
        plain_text[RECORD_LAYER_HEADER_SIZE..],
        "Decryption failed \nexp: {:?} \nactual {:?} ",
        &raw[RECORD_LAYER_HEADER_SIZE..],
        &plain_text[RECORD_LAYER_HEADER_SIZE..]
    );

    Ok(())
}

trait RecordCipher {
    fn encrypt(&mut self, h: &RecordLayerHeader, raw: &[u8]) -> Result<Vec<u8>, Error>;
    fn encrypt_in_place(&mut self, h: &RecordLayerHeader, raw: &mut Vec<u8>) -> Result<(), Error>;
    fn decrypt(&mut self, r: &[u8]) -> Result<Vec<u8>, Error>;
    fn decrypt_in_place(&mut self, r: &mut Vec<u8>) -> Result<(), Error>;
}

impl RecordCipher for CryptoGcm<RingProvider> {
    fn encrypt(&mut self, h: &RecordLayerHeader, raw: &[u8]) -> Result<Vec<u8>, Error> {
        <CryptoGcm<RingProvider>>::encrypt(self, h, raw)
    }
    fn encrypt_in_place(&mut self, h: &RecordLayerHeader, raw: &mut Vec<u8>) -> Result<(), Error> {
        <CryptoGcm<RingProvider>>::encrypt_in_place(self, h, raw)
    }
    fn decrypt(&mut self, r: &[u8]) -> Result<Vec<u8>, Error> {
        <CryptoGcm<RingProvider>>::decrypt(self, r)
    }
    fn decrypt_in_place(&mut self, r: &mut Vec<u8>) -> Result<(), Error> {
        <CryptoGcm<RingProvider>>::decrypt_in_place(self, r)
    }
}

impl RecordCipher for CryptoCcm<RingProvider> {
    fn encrypt(&mut self, h: &RecordLayerHeader, raw: &[u8]) -> Result<Vec<u8>, Error> {
        <CryptoCcm<RingProvider>>::encrypt(self, h, raw)
    }
    fn encrypt_in_place(&mut self, h: &RecordLayerHeader, raw: &mut Vec<u8>) -> Result<(), Error> {
        <CryptoCcm<RingProvider>>::encrypt_in_place(self, h, raw)
    }
    fn decrypt(&mut self, r: &[u8]) -> Result<Vec<u8>, Error> {
        <CryptoCcm<RingProvider>>::decrypt(self, r)
    }
    fn decrypt_in_place(&mut self, r: &mut Vec<u8>) -> Result<(), Error> {
        <CryptoCcm<RingProvider>>::decrypt_in_place(self, r)
    }
}

impl RecordCipher for CryptoChaCha20<RingProvider> {
    fn encrypt(&mut self, h: &RecordLayerHeader, raw: &[u8]) -> Result<Vec<u8>, Error> {
        <CryptoChaCha20<RingProvider>>::encrypt(self, h, raw)
    }
    fn encrypt_in_place(&mut self, h: &RecordLayerHeader, raw: &mut Vec<u8>) -> Result<(), Error> {
        <CryptoChaCha20<RingProvider>>::encrypt_in_place(self, h, raw)
    }
    fn decrypt(&mut self, r: &[u8]) -> Result<Vec<u8>, Error> {
        <CryptoChaCha20<RingProvider>>::decrypt(self, r)
    }
    fn decrypt_in_place(&mut self, r: &mut Vec<u8>) -> Result<(), Error> {
        <CryptoChaCha20<RingProvider>>::decrypt_in_place(self, r)
    }
}

impl RecordCipher for CryptoCbc<RingProvider> {
    fn encrypt(&mut self, h: &RecordLayerHeader, raw: &[u8]) -> Result<Vec<u8>, Error> {
        <CryptoCbc<RingProvider>>::encrypt(self, h, raw)
    }
    fn encrypt_in_place(&mut self, h: &RecordLayerHeader, raw: &mut Vec<u8>) -> Result<(), Error> {
        <CryptoCbc<RingProvider>>::encrypt_in_place(self, h, raw)
    }
    fn decrypt(&mut self, r: &[u8]) -> Result<Vec<u8>, Error> {
        <CryptoCbc<RingProvider>>::decrypt(self, r)
    }
    fn decrypt_in_place(&mut self, r: &mut Vec<u8>) -> Result<(), Error> {
        <CryptoCbc<RingProvider>>::decrypt_in_place(self, r)
    }
}

type RecordCipherPair = (&'static str, Box<dyn RecordCipher>, Box<dyn RecordCipher>);

fn record_cipher_pairs() -> Result<Vec<RecordCipherPair>, Error> {
    let provider = RingProvider::new();
    let (k16a, k16b, k32a, k32b) = ([0x11; 16], [0x22; 16], [0x33; 32], [0x44; 32]);
    let (iv4a, iv4b, iv12a, iv12b, mac_a, mac_b) =
        ([1; 4], [2; 4], [3; 12], [4; 12], [5; 20], [6; 20]);
    let p = || provider;
    let ccm = |tag: &CryptoCcmTagLen| -> Result<(Box<dyn RecordCipher>, Box<dyn RecordCipher>), Error> {
        Ok((
            Box::new(CryptoCcm::new(p(), tag, &k16a, &iv4a, &k16b, &iv4b)?),
            Box::new(CryptoCcm::new(p(), tag, &k16b, &iv4b, &k16a, &iv4a)?),
        ))
    };
    let (ccm16_tx, ccm16_rx) = ccm(&CryptoCcmTagLen::CryptoCcmTagLength)?;
    let (ccm8_tx, ccm8_rx) = ccm(&CryptoCcmTagLen::CryptoCcm8TagLength)?;
    Ok(vec![
        (
            "AES-128-GCM",
            Box::new(CryptoGcm::new(p(), &k16a, &iv4a, &k16b, &iv4b)?),
            Box::new(CryptoGcm::new(p(), &k16b, &iv4b, &k16a, &iv4a)?),
        ),
        ("AES-128-CCM", ccm16_tx, ccm16_rx),
        ("AES-128-CCM-8", ccm8_tx, ccm8_rx),
        (
            "CHACHA20-POLY1305",
            Box::new(CryptoChaCha20::new(
                p(),
                &k32a,
                &iv12a,
                &k32b,
                &iv12b,
            )?),
            Box::new(CryptoChaCha20::new(
                p(),
                &k32b,
                &iv12b,
                &k32a,
                &iv12a,
            )?),
        ),
        (
            "AES-256-CBC",
            Box::new(CryptoCbc::new(
                p(),
                &k32a,
                &mac_a,
                &k32b,
                &mac_b,
            )?),
            Box::new(CryptoCbc::new(
                p(),
                &k32b,
                &mac_b,
                &k32a,
                &mac_a,
            )?),
        ),
    ])
}

#[test]
fn test_record_ciphers_in_place_match_copying_calls() -> Result<(), Error> {
    for (name, mut sender, mut receiver) in record_cipher_pairs()? {
        for (sequence_number, len) in [0usize, 1, 15, 16, 17, 100, 1200].into_iter().enumerate() {
            let header = RecordLayerHeader {
                content_type: ContentType::ApplicationData,
                protocol_version: protocol_version1_2(),
                epoch: 1,
                sequence_number: sequence_number as u64,
                content_len: len as u16,
            };
            let mut raw = vec![];
            header.marshal(&mut raw)?;
            raw.extend((0..len).map(|i| i as u8));

            let mut in_place = raw.clone();
            sender.encrypt_in_place(&header, &mut in_place)?;
            let copied = sender.encrypt(&header, &raw)?;
            assert_eq!(in_place.len(), copied.len(), "{name}/{len}: record length");
            for record in [&in_place[..], &copied[..]] {
                assert_eq!(record[..11], raw[..11], "{name}/{len}: header");
                let content_len = u16::from_be_bytes([record[11], record[12]]) as usize;
                assert_eq!(content_len, record.len() - RECORD_LAYER_HEADER_SIZE);
            }

            for record in [&in_place[..], &copied[..]] {
                let expected = receiver.decrypt(record)?;
                assert_eq!(
                    expected[RECORD_LAYER_HEADER_SIZE..],
                    raw[RECORD_LAYER_HEADER_SIZE..]
                );
                let mut decrypted = record.to_vec();
                receiver.decrypt_in_place(&mut decrypted)?;
                assert_eq!(
                    &decrypted[..],
                    &expected[..],
                    "{name}/{len}: in-place decrypt"
                );

                let mut tampered = record.to_vec();
                let last = tampered.len() - 1;
                tampered[last] ^= 0x01;
                assert!(receiver.decrypt(&tampered).is_err(), "{name}/{len}: tamper");
                assert!(
                    receiver.decrypt_in_place(&mut tampered).is_err(),
                    "{name}/{len}: tamper in place"
                );
            }
        }

        let change_cipher_spec = [0x14, 0xfe, 0xfd, 0, 1, 0, 0, 0, 0, 0, 9, 0, 1, 1];
        assert_eq!(receiver.decrypt(&change_cipher_spec)?, change_cipher_spec);
        let mut passthrough = change_cipher_spec.to_vec();
        receiver.decrypt_in_place(&mut passthrough)?;
        assert_eq!(&passthrough[..], &change_cipher_spec[..]);
    }

    Ok(())
}
