//! The ciphers and hashes on published and independently computed vectors.

use rtc_core::common::{
    block_encrypt, check_key_len, check_nonce_len, check_tag_len, fill_random, md5, new_cbc,
    new_ccm, new_stream_cipher,
};
use rtc_core::crypto::{
    constant_time_eq, AeadAlgorithm, AeadCipher, BlockCipherAlgorithm, CbcAlgorithm, CbcCipher,
    CryptoError, HashAlgorithm, HmacAlgorithm, Mac, RTCCryptoProvider, StreamCipher,
    StreamCipherAlgorithm,
};
use rtc_core::crypto_cbc::CryptoCbc;
use rtc_core::crypto_ccm::{CryptoCcm, CryptoCcmTagLen};
use rtc_core::crypto_chacha20::CryptoChaCha20;
use rtc_core::crypto_gcm::CryptoGcm;
use rtc_core::error::Error;
use rtc_core::provider::{providers, RingProvider};
use rtc_core::record::{protocol_version1_2, ContentType, RecordLayerHeader};

fn hex(text: &str) -> Vec<u8> {
    (0..text.len() / 2)
        .map(|i| u8::from_str_radix(&text[2 * i..2 * i + 2], 16).unwrap())
        .collect()
}

fn range(from: u8, to: u8) -> Vec<u8> {
    (from..to).collect()
}

#[test]
fn aes_encrypts_the_standard_block() {
    let plain = hex("00112233445566778899aabbccddeeff");
    let mut block = plain.clone();
    block_encrypt(BlockCipherAlgorithm::Aes128, &range(0, 16), &mut block).unwrap();
    assert_eq!(block, hex("69c4e0d86a7b0430d8cdb78070b4c55a"));

    let mut block = plain.clone();
    block_encrypt(BlockCipherAlgorithm::Aes256, &range(0, 32), &mut block).unwrap();
    assert_eq!(block, hex("8ea2b7ca516745bfeafc49904b496089"));

    let mut block = plain.clone();
    assert_eq!(
        block_encrypt(BlockCipherAlgorithm::Aes256, &range(0, 16), &mut block),
        Err(CryptoError::InvalidKeyLength {
            expected: 32,
            actual: 16
        })
    );
    assert_eq!(block, plain);
}

#[test]
fn counter_mode_matches_the_standard() {
    let iv = range(0xf0, 0xff)
        .into_iter()
        .chain([0xff])
        .collect::<Vec<u8>>();
    let plain = hex("6bc1bee22e409f96e93d7e117393172a");

    let key = hex("2b7e151628aed2a6abf7158809cf4f3c");
    let mut stream = new_stream_cipher(StreamCipherAlgorithm::Aes128Ctr, &key).unwrap();
    let mut data = plain.clone();
    stream.apply_keystream(&iv, &mut data).unwrap();
    assert_eq!(data, hex("874d6191b620e3261bef6864990db6ce"));
    stream.apply_keystream(&iv, &mut data).unwrap();
    assert_eq!(data, plain);

    let key = hex("603deb1015ca71be2b73aef0857d77811f352c073b6108d72d9810a30914dff4");
    let mut stream = new_stream_cipher(StreamCipherAlgorithm::Aes256Ctr, &key).unwrap();
    let mut data = plain.clone();
    stream.apply_keystream(&iv, &mut data).unwrap();
    assert_eq!(data, hex("601ec313775789a5b7a7f504bbf3d228"));
    assert_eq!(
        stream.apply_keystream(&iv[..8], &mut data),
        Err(CryptoError::InvalidNonceLength {
            expected: 16,
            actual: 8
        })
    );
    assert!(new_stream_cipher(StreamCipherAlgorithm::Aes256Ctr, &iv).is_err());
}

#[test]
fn chaining_mode_matches_the_standard() {
    let key = hex("603deb1015ca71be2b73aef0857d77811f352c073b6108d72d9810a30914dff4");
    let iv = range(0, 16);
    let plain = hex("6bc1bee22e409f96e93d7e117393172aae2d8a571e03ac9c9eb76fac45af8e51");
    let mut cbc = new_cbc(CbcAlgorithm::Aes256Cbc, &key).unwrap();
    let mut data = plain.clone();
    cbc.encrypt_blocks(&iv, &mut data).unwrap();
    assert_eq!(
        data,
        hex("f58c4c04d6e5f1ba779eabfb5f7bfbd69cfc4e967edb808d679f777bc6702c7d")
    );
    cbc.decrypt_blocks(&iv, &mut data).unwrap();
    assert_eq!(data, plain);

    assert_eq!(
        cbc.encrypt_blocks(&iv[..4], &mut data),
        Err(CryptoError::InvalidNonceLength {
            expected: 16,
            actual: 4
        })
    );
    assert!(cbc.encrypt_blocks(&iv, &mut data[..17]).is_err());
    assert_eq!(data, plain);
    assert!(matches!(
        new_cbc(CbcAlgorithm::Aes256Cbc, &iv),
        Err(CryptoError::InvalidKeyLength {
            expected: 32,
            actual: 16
        })
    ));
}

fn sealed<A: AeadCipher>(cipher: &mut A, tag_len: usize) -> Vec<u8> {
    assert_eq!(cipher.tag_len(), tag_len);
    let (nonce, aad) = (range(0x10, 0x1c), range(0, 20));
    let plain = range(0x20, 0x38);
    let mut data = plain.clone();
    let mut tag = vec![0u8; tag_len];
    cipher
        .seal_in_place(&nonce, &aad, &mut data, &mut tag)
        .unwrap();

    let mut opened = data.clone();
    cipher
        .open_in_place(&nonce, &aad, &mut opened, &tag)
        .unwrap();
    assert_eq!(opened, plain);

    let mut refused = data.clone();
    assert_eq!(
        cipher.open_in_place(&nonce, &aad[1..], &mut refused, &tag),
        Err(CryptoError::AuthenticationFailed)
    );
    let mut wrong = tag.clone();
    wrong[0] ^= 1;
    let mut refused = data.clone();
    assert_eq!(
        cipher.open_in_place(&nonce, &aad, &mut refused, &wrong),
        Err(CryptoError::AuthenticationFailed)
    );
    assert!(matches!(
        cipher.open_in_place(&nonce[1..], &aad, &mut refused, &tag),
        Err(CryptoError::InvalidNonceLength {
            expected: 12,
            actual: 11
        })
    ));
    assert!(cipher
        .open_in_place(&nonce, &aad, &mut refused, &tag[1..])
        .is_err());

    data.extend_from_slice(&tag);
    data
}

#[test]
fn authenticated_ciphers_match_their_vectors() {
    let key = range(0x40, 0x50);
    let mut ccm8 = new_ccm(AeadAlgorithm::Aes128Ccm8, &key).unwrap();
    assert_eq!(
        sealed(&mut ccm8, 8),
        hex("e3b201a9f5b71a7a9b1ceaeccd97e70b6176aad9a4428aa5484392fbc1b09951")
    );
    let mut ccm = new_ccm(AeadAlgorithm::Aes128Ccm, &key).unwrap();
    assert_eq!(
        sealed(&mut ccm, 16),
        hex("e3b201a9f5b71a7a9b1ceaeccd97e70b6176aad9a4428aa5c87ae488918de93f17dd3e4934347f44")
    );

    let provider = RingProvider::new();
    let mut gcm = provider.new_aead(AeadAlgorithm::Aes128Gcm, &key).unwrap();
    assert_eq!(
        sealed(&mut gcm, 16),
        hex("49368e16adbd572ff1787d46c08b58d8bf4646457c049809c05a838109f8080f6a2d7bc2cfcd8e1a")
    );
    let mut chacha = provider
        .new_aead(AeadAlgorithm::ChaCha20Poly1305, &range(0x80, 0xa0))
        .unwrap();
    assert_eq!(
        sealed(&mut chacha, 16),
        hex("e18b75ea0ef5c51f51ee7d3f85d0ac6c66166241c21097ce36bda431377548fa51ebb650bea75d8d")
    );

    assert!(matches!(
        provider.new_aead(AeadAlgorithm::Aes128Gcm, &key[1..]),
        Err(CryptoError::InvalidKeyLength {
            expected: 16,
            actual: 15
        })
    ));
    assert!(matches!(
        new_ccm(AeadAlgorithm::Aes128Gcm, &key),
        Err(CryptoError::UnsupportedAlgorithm(AeadAlgorithm::Aes128Gcm))
    ));
}

#[test]
fn hashes_match_their_vectors() {
    assert_eq!(md5(b"abc"), hex("900150983cd24fb0d6963f7d28e17f72"));
    let provider = RingProvider::new();
    assert_eq!(
        provider.hash(HashAlgorithm::Sha256, b"abc").unwrap(),
        hex("ba7816bf8f01cfea414140de5dae2223b00361a396177a9cb410ff61f20015ad")
    );
    let mut mac = provider.new_hmac(HmacAlgorithm::Sha1, &[0x0b; 20]);
    assert_eq!(
        mac.compute(b"Hi ", b"There"),
        hex("b617318655057264e28bc0b6fb378c8ef146be00")
    );
}

#[test]
fn random_bytes_fill_the_whole_buffer() {
    let mut data = [0u8; 64];
    assert_eq!(fill_random(&mut data), Ok(()));
    assert!(data[..32].iter().any(|&byte| byte != 0));
    assert!(data[32..].iter().any(|&byte| byte != 0));
    let mut other = [0u8; 64];
    assert_eq!(RingProvider::new().fill(&mut other), Ok(()));
    assert_ne!(data, other);
    assert_eq!(providers()[0].0, "ring");
}

#[test]
fn lengths_are_checked() {
    assert_eq!(check_key_len(16, 16), Ok(()));
    assert_eq!(
        check_key_len(16, 15),
        Err(CryptoError::InvalidKeyLength {
            expected: 16,
            actual: 15
        })
    );
    assert_eq!(
        check_nonce_len(12, 13),
        Err(CryptoError::InvalidNonceLength {
            expected: 12,
            actual: 13
        })
    );
    assert_eq!(
        check_tag_len(16, 8),
        Err(CryptoError::InvalidTagLength {
            expected: 16,
            actual: 8
        })
    );
    assert!(constant_time_eq(b"same", b"same"));
    assert!(!constant_time_eq(b"same", b"sane"));
    assert!(!constant_time_eq(b"same", b"sam"));
}

fn record() -> (RecordLayerHeader, Vec<u8>) {
    let header = RecordLayerHeader {
        content_type: ContentType::ApplicationData,
        protocol_version: protocol_version1_2(),
        epoch: 1,
        sequence_number: 5,
        content_len: 4,
    };
    let mut raw = vec![];
    header.marshal(&mut raw).unwrap();
    raw.extend_from_slice(b"data");
    (header, raw)
}

#[test]
fn records_are_sealed_as_the_suites_have_it() {
    let (header, raw) = record();
    let explicit = range(0, 8);
    let (key, iv) = ([0x11; 16], [0x22; 4]);

    let mut gcm = CryptoGcm::new(RingProvider::new(), &key, &iv, &key, &iv).unwrap();
    let sealed = gcm.seal(&header, &raw, &explicit).unwrap();
    assert_eq!(
        sealed,
        hex("17fefd0001000000000005001c00010203040506072a85d58ce4896d915503dc2024f94396c7696353")
    );
    assert_eq!(gcm.decrypt(&sealed).unwrap()[13..], *b"data");

    let full = CryptoCcmTagLen::CryptoCcmTagLength;
    let mut ccm = CryptoCcm::new(RingProvider::new(), &full, &key, &iv, &key, &iv).unwrap();
    let sealed = ccm.seal(&header, &raw, &explicit).unwrap();
    assert_eq!(
        sealed,
        hex("17fefd0001000000000005001c000102030405060794396308cef1e1be2c72217501b00c6d1ae20904")
    );

    let (key, iv) = ([0x44; 32], [0x33; 12]);
    let mut chacha = CryptoChaCha20::new(RingProvider::new(), &key, &iv, &key, &iv).unwrap();
    assert_eq!(
        chacha.encrypt(&header, &raw).unwrap(),
        hex("17fefd00010000000000050014668693b2aa1103f66c5f09910bfa61620cd0324f")
    );

    let (key, mac) = ([0x55; 32], [5; 20]);
    let mut cbc = CryptoCbc::new(RingProvider::new(), &key, &mac, &key, &mac).unwrap();
    assert_eq!(
        cbc.seal(&header, &raw, &range(0, 16)).unwrap(),
        hex(concat(
            "17fefd00010000000000050030000102030405060708090a0b0c0d0e0f",
            "e69c273189727935c44dc596b912dd00bd7d662e26335bd21f1d0e3159c74a6f"
        )
        .as_str())
    );
}

fn concat(one: &str, other: &str) -> String {
    let mut all = one.to_owned();
    all.push_str(other);
    all
}

#[test]
fn short_records_are_refused() {
    let (key, iv) = ([0x11; 16], [0x22; 4]);
    let short = |len: usize| {
        let mut raw = vec![0x17, 0xfe, 0xfd, 0, 1, 0, 0, 0, 0, 0, 5, 0, len as u8];
        raw.resize(13 + len, 0);
        raw
    };
    let mut gcm = CryptoGcm::new(RingProvider::new(), &key, &iv, &key, &iv).unwrap();
    assert_eq!(
        gcm.decrypt(&short(8)),
        Err(Error::ErrNotEnoughRoomForNonce)
    );
    assert_eq!(
        gcm.decrypt(&short(18)),
        Err(Error::ErrRecordTooShortForTag)
    );
    assert_eq!(gcm.decrypt(&short(24)), Err(Error::ErrInvalidMac));

    let full = CryptoCcmTagLen::CryptoCcmTagLength;
    let mut ccm = CryptoCcm::new(RingProvider::new(), &full, &key, &iv, &key, &iv).unwrap();
    assert_eq!(ccm.decrypt(&short(18)), Err(Error::ErrInvalidMac));

    let (key, mac) = ([0x55; 32], [5; 20]);
    let mut cbc = CryptoCbc::new(RingProvider::new(), &key, &mac, &key, &mac).unwrap();
    assert_eq!(
        cbc.decrypt(&short(17)),
        Err(Error::ErrInvalidPacketLength)
    );
    assert!(matches!(
        CryptoGcm::new(RingProvider::new(), &key, &iv, &key, &iv),
        Err(Error::Crypto(CryptoError::InvalidKeyLength {
            expected: 16,
            actual: 32
        }))
    ));
}
