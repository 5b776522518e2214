//! The block cipher modes.

use aes::cipher::{BlockCipherDecrypt, KeyInit};
use aes::Aes256;
use rtc_core::common::{new_cbc, CBC_DECRYPT_BATCH_BLOCKS};
use rtc_core::crypto::{CbcAlgorithm, CbcCipher, AES_BLOCK_LEN};

fn reference_decrypt(key: &[u8], iv: &[u8], blocks: &mut [u8]) {
    let cipher = Aes256::new_from_slice(key).unwrap();
    let mut previous: [u8; AES_BLOCK_LEN] = iv.try_into().unwrap();
    for block in blocks.chunks_exact_mut(AES_BLOCK_LEN) {
        let ciphertext: [u8; AES_BLOCK_LEN] = (&*block).try_into().unwrap();
        let mut plain: aes::Block = ciphertext.into();
        cipher.decrypt_block(&mut plain);
        block.copy_from_slice(&plain);
        for (byte, prior) in block.iter_mut().zip(previous) {
            *byte ^= prior;
        }
        previous = ciphertext;
    }
}

fn pseudo_random_bytes(seed: u64, len: usize) -> Vec<u8> {
    let mut state = seed;
    (0..len)
        .map(|_| {
            state ^= state << 13;
            state ^= state >> 7;
            state ^= state << 17;
            state as u8
        })
        .collect()
}

#[test]
fn cbc_batched_decryption_matches_block_at_a_time() {
    let key = pseudo_random_bytes(1, 32);
    let iv = pseudo_random_bytes(2, AES_BLOCK_LEN);
    let mut cbc = new_cbc(CbcAlgorithm::Aes256Cbc, &key).unwrap();
    for blocks in 1..=3 * CBC_DECRYPT_BATCH_BLOCKS + 1 {
        let plaintext = pseudo_random_bytes(blocks as u64 + 3, blocks * AES_BLOCK_LEN);

        let mut ciphertext = plaintext.clone();
        cbc.encrypt_blocks(&iv, &mut ciphertext).unwrap();

        let mut expected = ciphertext.clone();
        reference_decrypt(&key, &iv, &mut expected);
        assert_eq!(expected, plaintext, "reference, {blocks} blocks");

        let mut actual = ciphertext.clone();
        cbc.decrypt_blocks(&iv, &mut actual).unwrap();
        assert_eq!(actual, plaintext, "{blocks} blocks");
    }
}

#[test]
fn cbc_batched_decryption_matches_on_arbitrary_ciphertext() {
    let key = pseudo_random_bytes(5, 32);
    let mut cbc = new_cbc(CbcAlgorithm::Aes256Cbc, &key).unwrap();
    for blocks in [1, 2, 31, 32, 33, 64, 65, 88, 100] {
        let iv = pseudo_random_bytes(blocks as u64 + 7, AES_BLOCK_LEN);
        let ciphertext = pseudo_random_bytes(blocks as u64 + 11, blocks * AES_BLOCK_LEN);
        let mut expected = ciphertext.clone();
        reference_decrypt(&key, &iv, &mut expected);
        let mut actual = ciphertext;
        cbc.decrypt_blocks(&iv, &mut actual).unwrap();
        assert_eq!(actual, expected, "{blocks} blocks");
    }
}
