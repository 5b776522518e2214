//! The AES modes, and what else the built-in providers share.

use crate::crypto;
use crate::crypto::{
    AeadAlgorithm, AeadCipher, BlockCipherAlgorithm, CbcAlgorithm, CbcCipher, CryptoError,
    StreamCipher, StreamCipherAlgorithm, AEAD_MAX_LEN, AEAD_NONCE_LEN, AES_BLOCK_LEN,
};
use aes::cipher::{BlockCipherDecrypt, BlockCipherEncrypt, KeyInit, KeyIvInit};
use ccm::aead::AeadInOut;
use md5::Digest;
use vstd::prelude::*;
use vstd::slice::slice_to_vec;

verus! {

/// Blocks decrypted per call into the AES backend by [`AesCbc::decrypt_blocks`]. Shorter input is
/// decrypted a block at a time.
pub const CBC_DECRYPT_BATCH_BLOCKS: usize = 32;

/// Bytes in a batch.
const BATCH_LEN: usize = 512;

/// What AES-128 makes of a block.
pub uninterp spec fn aes128_encrypted(key: Seq<u8>, block: Seq<u8>) -> Seq<u8>;

/// What AES-256 makes of a block.
pub uninterp spec fn aes256_encrypted(key: Seq<u8>, block: Seq<u8>) -> Seq<u8>;

/// What AES-256 backwards makes of a block.
pub uninterp spec fn aes256_decrypted(key: Seq<u8>, block: Seq<u8>) -> Seq<u8>;

/// Byte `at` of the key stream of AES-128 in counter mode.
pub uninterp spec fn aes128_keystream(key: Seq<u8>, iv: Seq<u8>, at: nat) -> u8;

/// Byte `at` of the key stream of AES-256 in counter mode.
pub uninterp spec fn aes256_keystream(key: Seq<u8>, iv: Seq<u8>, at: nat) -> u8;

/// What AES-128-CCM with a 16-byte tag makes of a plaintext.
pub uninterp spec fn ccm_sealed(
    key: Seq<u8>,
    nonce: Seq<u8>,
    aad: Seq<u8>,
    plaintext: Seq<u8>,
) -> Option<(Seq<u8>, Seq<u8>)>;

/// What AES-128-CCM with a 16-byte tag makes of a ciphertext and its tag.
pub uninterp spec fn ccm_opened(
    key: Seq<u8>,
    nonce: Seq<u8>,
    aad: Seq<u8>,
    ciphertext: Seq<u8>,
    tag: Seq<u8>,
) -> Option<Seq<u8>>;

/// What AES-128-CCM with an 8-byte tag makes of a plaintext.
pub uninterp spec fn ccm8_sealed(
    key: Seq<u8>,
    nonce: Seq<u8>,
    aad: Seq<u8>,
    plaintext: Seq<u8>,
) -> Option<(Seq<u8>, Seq<u8>)>;

/// What AES-128-CCM with an 8-byte tag makes of a ciphertext and its tag.
pub uninterp spec fn ccm8_opened(
    key: Seq<u8>,
    nonce: Seq<u8>,
    aad: Seq<u8>,
    ciphertext: Seq<u8>,
    tag: Seq<u8>,
) -> Option<Seq<u8>>;

/// The MD5 digest of `data`.
pub uninterp spec fn md5_digest(data: Seq<u8>) -> Seq<u8>;

/// `encrypt_block` of `aes::Aes128`: the block that it leaves has a name.
#[verifier::external_body]
fn aes128_encrypt(key: &[u8], block: &[u8]) -> (out: [u8; 16])
    requires
        key@.len() == 16,
        block@.len() == 16,
    ensures
        out@ == aes128_encrypted(key@, block@),
{
    let mut out: aes::Block = block.try_into().unwrap();
    aes::Aes128::new_from_slice(key).unwrap().encrypt_block(&mut out);
    out.into()
}

/// `encrypt_block` of `aes::Aes256`: the block that it leaves has a name, and `decrypt_block`
/// takes it back.
#[verifier::external_body]
fn aes256_encrypt(key: &[u8], block: &[u8]) -> (out: [u8; 16])
    requires
        key@.len() == 32,
        block@.len() == 16,
    ensures
        out@ == aes256_encrypted(key@, block@),
        aes256_decrypted(key@, out@) == block@,
{
    let mut out: aes::Block = block.try_into().unwrap();
    aes::Aes256::new_from_slice(key).unwrap().encrypt_block(&mut out);
    out.into()
}

/// `decrypt_block` of `aes::Aes256`: the block that it leaves has a name.
#[verifier::external_body]
fn aes256_decrypt(key: &[u8], block: &[u8]) -> (out: [u8; 16])
    requires
        key@.len() == 32,
        block@.len() == 16,
    ensures
        out@ == aes256_decrypted(key@, block@),
{
    let mut out: aes::Block = block.try_into().unwrap();
    aes::Aes256::new_from_slice(key).unwrap().decrypt_block(&mut out);
    out.into()
}

/// `decrypt_blocks` of `aes::Aes256`: it does to every block what `decrypt_block` does to one.
#[verifier::external_body]
fn aes256_decrypt_blocks(key: &[u8], blocks: &[u8]) -> (out: Vec<u8>)
    requires
        key@.len() == 32,
        blocks@.len() % 16 == 0,
    ensures
        out@.len() == blocks@.len(),
        forall|i: int|
            0 <= i < blocks@.len() ==> #[trigger] out@[i] == aes256_decrypted(
                key@,
                block_of(blocks@, i / 16),
            )[i % 16],
{
    let mut out = blocks.to_vec();
    let (whole, _) = aes::Block::slice_as_chunks_mut(&mut out);
    aes::Aes256::new_from_slice(key).unwrap().decrypt_blocks(whole);
    out
}

/// `apply_keystream` of `ctr::Ctr128BE<aes::Aes128>`: each byte is XORed with the byte of the key
/// stream at its place.
#[verifier::external_body]
fn aes128_ctr(key: &[u8], iv: &[u8], data: &mut [u8])
    requires
        key@.len() == 16,
        iv@.len() == 16,
    ensures
        final(data)@.len() == old(data)@.len(),
        forall|i: int|
            0 <= i < old(data)@.len() ==> #[trigger] final(data)@[i] == old(data)@[i]
                ^ aes128_keystream(key@, iv@, i as nat),
{
    let mut stream = ctr::Ctr128BE::<aes::Aes128>::new_from_slices(key, iv).unwrap();
    aes::cipher::StreamCipher::apply_keystream(&mut stream, data);
}

/// `apply_keystream` of `ctr::Ctr128BE<aes::Aes256>`: each byte is XORed with the byte of the key
/// stream at its place.
#[verifier::external_body]
fn aes256_ctr(key: &[u8], iv: &[u8], data: &mut [u8])
    requires
        key@.len() == 32,
        iv@.len() == 16,
    ensures
        final(data)@.len() == old(data)@.len(),
        forall|i: int|
            0 <= i < old(data)@.len() ==> #[trigger] final(data)@[i] == old(data)@[i]
                ^ aes256_keystream(key@, iv@, i as nat),
{
    let mut stream = ctr::Ctr128BE::<aes::Aes256>::new_from_slices(key, iv).unwrap();
    aes::cipher::StreamCipher::apply_keystream(&mut stream, data);
}

/// `encrypt_inout_detached` of `ccm::Ccm` with a 16-byte tag: the ciphertext and the tag have a
/// name, `decrypt_inout_detached` takes them back, and what is longer than 2^24 - 1 bytes, and
/// nothing else, is refused.
#[verifier::external_body]
fn ccm_seal(key: &[u8], nonce: &[u8], aad: &[u8], data: &mut [u8]) -> (tag: Option<Vec<u8>>)
    requires
        key@.len() == 16,
        nonce@.len() == 12,
    ensures
        final(data)@.len() == old(data)@.len(),
        match tag {
            Some(tag) => {
                &&& ccm_sealed(key@, nonce@, aad@, old(data)@) == Some((final(data)@, tag@))
                &&& ccm_opened(key@, nonce@, aad@, final(data)@, tag@) == Some(old(data)@)
                &&& tag@.len() == 16
                &&& old(data)@.len() <= AEAD_MAX_LEN
            },
            None => {
                &&& ccm_sealed(key@, nonce@, aad@, old(data)@) is None
                &&& old(data)@.len() > AEAD_MAX_LEN
            },
        },
{
    ccm::Ccm::<aes::Aes128, ccm::consts::U16, ccm::consts::U12>::new_from_slice(key)
        .unwrap()
        .encrypt_inout_detached(nonce.try_into().unwrap(), aad, data.into())
        .ok()
        .map(|tag| tag.to_vec())
}

/// `decrypt_inout_detached` of `ccm::Ccm` with a 16-byte tag: the plaintext has a name. It takes
/// at most 2^24 - 1 bytes here, far from where its key stream ends.
#[verifier::external_body]
fn ccm_open(key: &[u8], nonce: &[u8], aad: &[u8], data: &mut [u8], tag: &[u8]) -> (opened: bool)
    requires
        key@.len() == 16,
        nonce@.len() == 12,
        tag@.len() == 16,
        old(data)@.len() <= AEAD_MAX_LEN,
    ensures
        final(data)@.len() == old(data)@.len(),
        ccm_opened(key@, nonce@, aad@, old(data)@, tag@) == if opened {
            Some(final(data)@)
        } else {
            None
        },
{
    ccm::Ccm::<aes::Aes128, ccm::consts::U16, ccm::consts::U12>::new_from_slice(key)
        .unwrap()
        .decrypt_inout_detached(
            nonce.try_into().unwrap(),
            aad,
            data.into(),
            tag.try_into().unwrap(),
        )
        .is_ok()
}

/// `encrypt_inout_detached` of `ccm::Ccm` with an 8-byte tag: the ciphertext and the tag have a
/// name, `decrypt_inout_detached` takes them back, and what is longer than 2^24 - 1 bytes, and
/// nothing else, is refused.
#[verifier::external_body]
fn ccm8_seal(key: &[u8], nonce: &[u8], aad: &[u8], data: &mut [u8]) -> (tag: Option<Vec<u8>>)
    requires
        key@.len() == 16,
        nonce@.len() == 12,
    ensures
        final(data)@.len() == old(data)@.len(),
        match tag {
            Some(tag) => {
                &&& ccm8_sealed(key@, nonce@, aad@, old(data)@) == Some((final(data)@, tag@))
                &&& ccm8_opened(key@, nonce@, aad@, final(data)@, tag@) == Some(old(data)@)
                &&& tag@.len() == 8
                &&& old(data)@.len() <= AEAD_MAX_LEN
            },
            None => {
                &&& ccm8_sealed(key@, nonce@, aad@, old(data)@) is None
                &&& old(data)@.len() > AEAD_MAX_LEN
            },
        },
{
    ccm::Ccm::<aes::Aes128, ccm::consts::U8, ccm::consts::U12>::new_from_slice(key)
        .unwrap()
        .encrypt_inout_detached(nonce.try_into().unwrap(), aad, data.into())
        .ok()
        .map(|tag| tag.to_vec())
}

/// `decrypt_inout_detached` of `ccm::Ccm` with an 8-byte tag: the plaintext has a name. It takes
/// at most 2^24 - 1 bytes here, far from where its key stream ends.
#[verifier::external_body]
fn ccm8_open(key: &[u8], nonce: &[u8], aad: &[u8], data: &mut [u8], tag: &[u8]) -> (opened: bool)
    requires
        key@.len() == 16,
        nonce@.len() == 12,
        tag@.len() == 8,
        old(data)@.len() <= AEAD_MAX_LEN,
    ensures
        final(data)@.len() == old(data)@.len(),
        ccm8_opened(key@, nonce@, aad@, old(data)@, tag@) == if opened {
            Some(final(data)@)
        } else {
            None
        },
{
    ccm::Ccm::<aes::Aes128, ccm::consts::U8, ccm::consts::U12>::new_from_slice(key)
        .unwrap()
        .decrypt_inout_detached(
            nonce.try_into().unwrap(),
            aad,
            data.into(),
            tag.try_into().unwrap(),
        )
        .is_ok()
}

/// `digest` of `md5::Md5`: the 16 bytes that it returns have a name.
#[verifier::external_body]
fn md5_of(data: &[u8]) -> (digest: Vec<u8>)
    ensures
        digest@ == md5_digest(data@),
        digest@.len() == 16,
{
    md5::Md5::digest(data).to_vec()
}

/// `rand::fill`: any bytes may come.
#[verifier::external_body]
fn rand_fill(out: &mut [u8])
    ensures
        final(out)@.len() == old(out)@.len(),
{
    rand::fill(out)
}

/// Block `k` of `bytes`.
pub open spec fn block_of(bytes: Seq<u8>, k: int) -> Seq<u8> {
    bytes.subrange(16 * k, 16 * k + 16)
}

/// Fill `output` from the thread's random number generator. It reports no error: where the system
/// has no entropy to seed the generator with, there is no way on.
pub fn fill_random(output: &mut [u8]) -> (result: Result<(), CryptoError>)
    ensures
        final(output)@.len() == old(output)@.len(),
        result is Ok,
{
    rand_fill(output);
    Ok(())
}

/// The MD5 digest of `data`.
pub fn md5(data: &[u8]) -> (digest: Vec<u8>)
    ensures
        digest@ == md5_digest(data@),
        digest@.len() == 16,
{
    md5_of(data)
}

/// Whether a key has the length that it must have.
pub fn check_key_len(expected: usize, actual: usize) -> (result: Result<(), CryptoError>)
    ensures
        result == if expected == actual {
            Ok::<(), CryptoError>(())
        } else {
            Err(CryptoError::InvalidKeyLength { expected, actual })
        },
{
    if expected == actual {
        Ok(())
    } else {
        Err(CryptoError::InvalidKeyLength { expected, actual })
    }
}

/// Whether a nonce has the length that it must have.
pub fn check_nonce_len(expected: usize, actual: usize) -> (result: Result<(), CryptoError>)
    ensures
        result == if expected == actual {
            Ok::<(), CryptoError>(())
        } else {
            Err(CryptoError::InvalidNonceLength { expected, actual })
        },
{
    if expected == actual {
        Ok(())
    } else {
        Err(CryptoError::InvalidNonceLength { expected, actual })
    }
}

/// Whether a tag has the length that it must have.
pub fn check_tag_len(expected: usize, actual: usize) -> (result: Result<(), CryptoError>)
    ensures
        result == if expected == actual {
            Ok::<(), CryptoError>(())
        } else {
            Err(CryptoError::InvalidTagLength { expected, actual })
        },
{
    if expected == actual {
        Ok(())
    } else {
        Err(CryptoError::InvalidTagLength { expected, actual })
    }
}

/// Whether `blocks` is one whole block or more.
fn check_blocks(blocks: &[u8]) -> (result: Result<(), CryptoError>)
    requires
        blocks@.len() <= usize::MAX - 15,
    ensures
        match crypto::cbc_length_error(16, blocks@.len()) {
            Some(error) => result == Err::<(), CryptoError>(error),
            None => result is Ok,
        },
{
    let len: usize = blocks.len();
    if len == 0 || len % 16 != 0 {
        let required: usize = (len / 16) * 16 + 16;
        return Err(CryptoError::OutputTooSmall { required, actual: len });
    }
    Ok(())
}

/// Write the 16 bytes of `block` into `out` at `at`.
fn put_block(out: &mut [u8], at: usize, block: &[u8; 16])
    requires
        at + 16 <= old(out)@.len(),
    ensures
        final(out)@.len() == old(out)@.len(),
        forall|i: int|
            0 <= i < old(out)@.len() ==> #[trigger] final(out)@[i] == if at <= i < at + 16 {
                block@[i - at]
            } else {
                old(out)@[i]
            },
{
    let room: usize = out.len();
    let mut i: usize = 0;
    while i < 16
        invariant
            i <= 16,
            at + 16 <= room,
            room == out@.len(),
            out@.len() == old(out)@.len(),
            forall|j: int|
                0 <= j < out@.len() ==> #[trigger] out@[j] == if at <= j < at + i {
                    block@[j - at]
                } else {
                    old(out)@[j]
                },
        decreases 16 - i,
    {
        out[at + i] = block[i];
        i += 1;
    }
}

/// Encrypt one block in place.
pub fn block_encrypt(algorithm: BlockCipherAlgorithm, key: &[u8], block: &mut [u8]) -> (result:
    Result<(), CryptoError>)
    ensures
        final(block)@.len() == old(block)@.len(),
        ({
            let expected: usize = if algorithm == BlockCipherAlgorithm::Aes128 {
                16
            } else {
                32
            };
            if old(block)@.len() != 16 {
                &&& result == Err::<(), CryptoError>(
                    CryptoError::OutputTooSmall {
                        required: 16,
                        actual: old(block)@.len() as usize,
                    },
                )
                &&& final(block)@ == old(block)@
            } else if key@.len() != expected {
                &&& result == Err::<(), CryptoError>(
                    CryptoError::InvalidKeyLength { expected, actual: key@.len() as usize },
                )
                &&& final(block)@ == old(block)@
            } else {
                &&& result is Ok
                &&& final(block)@ == if algorithm == BlockCipherAlgorithm::Aes128 {
                    aes128_encrypted(key@, old(block)@)
                } else {
                    aes256_encrypted(key@, old(block)@)
                }
            }
        }),
{
    let actual: usize = block.len();
    if actual != AES_BLOCK_LEN {
        return Err(CryptoError::OutputTooSmall { required: AES_BLOCK_LEN, actual });
    }
    let encrypted: [u8; 16] = match algorithm {
        BlockCipherAlgorithm::Aes128 => {
            match check_key_len(16, key.len()) {
                Ok(()) => {},
                Err(error) => { return Err(error); },
            }
            aes128_encrypt(key, block)
        },
        BlockCipherAlgorithm::Aes256 => {
            match check_key_len(32, key.len()) {
                Ok(()) => {},
                Err(error) => { return Err(error); },
            }
            aes256_encrypt(key, block)
        },
    };
    put_block(block, 0, &encrypted);
    assert(block@ =~= encrypted@);
    Ok(())
}

/// AES counter mode: SRTP counter mode, with a big-endian 128-bit counter.
pub struct AesCtr {
    key: Vec<u8>,
    bits: StreamCipherAlgorithm,
}

impl AesCtr {
    /// The algorithm.
    pub closed spec fn algorithm(&self) -> StreamCipherAlgorithm {
        self.bits
    }

    /// The key.
    pub closed spec fn key(&self) -> Seq<u8> {
        self.key@
    }
}

/// A stream cipher with the given key.
pub fn new_stream_cipher(algorithm: StreamCipherAlgorithm, key: &[u8]) -> (cipher: Result<
    AesCtr,
    CryptoError,
>)
    ensures
        ({
            let expected: usize = if algorithm == StreamCipherAlgorithm::Aes128Ctr {
                16
            } else {
                32
            };
            if key@.len() == expected {
                &&& cipher matches Ok(cipher)
                &&& cipher.valid()
                &&& cipher.algorithm() == algorithm
                &&& cipher.key() == key@
            } else {
                cipher == Err::<AesCtr, CryptoError>(
                    CryptoError::InvalidKeyLength { expected, actual: key@.len() as usize },
                )
            }
        }),
{
    let expected: usize = match algorithm {
        StreamCipherAlgorithm::Aes128Ctr => 16,
        StreamCipherAlgorithm::Aes256Ctr => 32,
    };
    match check_key_len(expected, key.len()) {
        Ok(()) => Ok(AesCtr { key: slice_to_vec(key), bits: algorithm }),
        Err(error) => Err(error),
    }
}

impl StreamCipher for AesCtr {
    open spec fn keystream(&self, iv: Seq<u8>, at: nat) -> u8 {
        match self.algorithm() {
            StreamCipherAlgorithm::Aes128Ctr => aes128_keystream(self.key(), iv, at),
            StreamCipherAlgorithm::Aes256Ctr => aes256_keystream(self.key(), iv, at),
        }
    }

    open spec fn valid(&self) -> bool {
        self.key().len() == match self.algorithm() {
            StreamCipherAlgorithm::Aes128Ctr => 16,
            StreamCipherAlgorithm::Aes256Ctr => 32nat,
        }
    }

    fn apply_keystream(&mut self, iv: &[u8], data: &mut [u8]) -> (result: Result<(), CryptoError>) {
        match check_nonce_len(AES_BLOCK_LEN, iv.len()) {
            Ok(()) => {},
            Err(error) => { return Err(error); },
        }
        match self.bits {
            StreamCipherAlgorithm::Aes128Ctr => aes128_ctr(self.key.as_slice(), iv, data),
            StreamCipherAlgorithm::Aes256Ctr => aes256_ctr(self.key.as_slice(), iv, data),
        }
        Ok(())
    }
}

/// Applying the key stream twice gives the data back.
pub proof fn law_keystream_twice(cipher: AesCtr, iv: Seq<u8>, data: Seq<u8>, once: Seq<u8>, twice: Seq<u8>)
    requires
        once.len() == data.len(),
        twice.len() == data.len(),
        forall|i: int|
            0 <= i < data.len() ==> #[trigger] once[i] == data[i] ^ cipher.keystream(iv, i as nat),
        forall|i: int|
            0 <= i < data.len() ==> #[trigger] twice[i] == once[i] ^ cipher.keystream(
                iv,
                i as nat,
            ),
    ensures
        twice == data,
{
    assert forall|i: int| 0 <= i < data.len() implies twice[i] == data[i] by {
        let a = data[i];
        let k = cipher.keystream(iv, i as nat);
        assert((a ^ k) ^ k == a) by (bit_vector);
        assert(once[i] == a ^ k);
    }
    assert(twice =~= data);
}

/// Whole blocks, each XORed with the ciphertext before it and encrypted.
pub open spec fn cbc_encrypted(key: Seq<u8>, iv: Seq<u8>, plaintext: Seq<u8>) -> Seq<u8>
    decreases plaintext.len(),
{
    if plaintext.len() < 16 {
        Seq::empty()
    } else {
        let before = plaintext.take(plaintext.len() - 16);
        let done = cbc_encrypted(key, iv, before);
        let block = plaintext.skip(plaintext.len() - 16);
        done + aes256_encrypted(key, masked(block, iv + done))
    }
}

/// A block XORed with the last 16 bytes of `mask`.
pub open spec fn masked(block: Seq<u8>, mask: Seq<u8>) -> Seq<u8> {
    Seq::new(16, |i: int| block[i] ^ mask[mask.len() - 16 + i])
}

/// Whole blocks, each decrypted and XORed with the ciphertext before it.
pub open spec fn cbc_decrypted(key: Seq<u8>, iv: Seq<u8>, ciphertext: Seq<u8>) -> Seq<u8> {
    Seq::new(
        ciphertext.len(),
        |i: int|
            aes256_decrypted(key, block_of(ciphertext, i / 16))[i % 16] ^ (iv + ciphertext)[i],
    )
}

proof fn lemma_cbc_encrypt_step(key: Seq<u8>, iv: Seq<u8>, plain: Seq<u8>, at: int)
    requires
        0 <= at,
        at + 16 <= plain.len(),
    ensures
        cbc_encrypted(key, iv, plain.take(at + 16)) == cbc_encrypted(key, iv, plain.take(at))
            + aes256_encrypted(
            key,
            masked(plain.subrange(at, at + 16), iv + cbc_encrypted(key, iv, plain.take(at))),
        ),
{
    assert(plain.take(at + 16).take(at) =~= plain.take(at));
    assert(plain.take(at + 16).skip(at) =~= plain.subrange(at, at + 16));
}

proof fn lemma_cbc_decrypt_step(
    key: Seq<u8>,
    iv: Seq<u8>,
    plain: Seq<u8>,
    done: Seq<u8>,
    encrypted: Seq<u8>,
)
    requires
        iv.len() == 16,
        done.len() % 16 == 0,
        done.len() + 16 <= plain.len(),
        encrypted.len() == 16,
        cbc_decrypted(key, iv, done) == plain.take(done.len() as int),
        aes256_decrypted(key, encrypted) == masked(
            plain.subrange(done.len() as int, done.len() as int + 16),
            iv + done,
        ),
    ensures
        cbc_decrypted(key, iv, done + encrypted) == plain.take(done.len() as int + 16),
{
    let at = done.len() as int;
    let next = done + encrypted;
    assert forall|i: int| 0 <= i < at + 16 implies #[trigger] cbc_decrypted(key, iv, next)[i]
        == plain[i] by {
        if i < at {
            assert(16 * (i / 16) + 16 <= at);
            assert(block_of(next, i / 16) =~= block_of(done, i / 16));
            assert((iv + next)[i] == (iv + done)[i]);
            assert(cbc_decrypted(key, iv, done)[i] == plain.take(at)[i]);
        } else {
            assert(i / 16 == at / 16 && at == 16 * (at / 16) && i % 16 == i - at);
            assert(block_of(next, i / 16) =~= encrypted);
            let p = plain[i];
            let m = (iv + done)[i];
            assert((iv + next)[i] == m);
            assert((p ^ m) ^ m == p) by (bit_vector);
        }
    }
    assert(cbc_decrypted(key, iv, next) =~= plain.take(at + 16));
}

/// AES-256 in cipher block chaining mode.
pub struct AesCbc {
    key: Vec<u8>,
}

/// A block chaining cipher with the given key.
pub fn new_cbc(algorithm: CbcAlgorithm, key: &[u8]) -> (cipher: Result<AesCbc, CryptoError>)
    ensures
        if key@.len() == 32 {
            &&& cipher matches Ok(cipher)
            &&& cipher.valid()
            &&& cipher.key() == key@
        } else {
            cipher == Err::<AesCbc, CryptoError>(
                CryptoError::InvalidKeyLength { expected: 32, actual: key@.len() as usize },
            )
        },
{
    match check_key_len(32, key.len()) {
        Ok(()) => Ok(AesCbc { key: slice_to_vec(key) }),
        Err(error) => Err(error),
    }
}

impl AesCbc {
    /// The ciphertext that masks the block at `at`, or the initialisation vector.
    fn masked_block(block: &[u8], mask: &[u8]) -> (out: [u8; 16])
        requires
            block@.len() == 16,
            mask@.len() == 16,
        ensures
            out@ == masked(block@, mask@),
    {
        let mut out: [u8; 16] = [0u8; 16];
        let mut i: usize = 0;
        while i < 16
            invariant
                i <= 16,
                block@.len() == 16,
                mask@.len() == 16,
                forall|j: int| 0 <= j < i ==> #[trigger] out@[j] == block@[j] ^ mask@[j],
            decreases 16 - i,
        {
            out[i] = block[i] ^ mask[i];
            i += 1;
        }
        assert(out@ =~= masked(block@, mask@));
        out
    }
}

impl CbcCipher for AesCbc {
    closed spec fn key(&self) -> Seq<u8> {
        self.key@
    }

    open spec fn valid(&self) -> bool {
        self.key().len() == 32
    }

    open spec fn encrypted(key: Seq<u8>, iv: Seq<u8>, plaintext: Seq<u8>) -> Seq<u8> {
        cbc_encrypted(key, iv, plaintext)
    }

    open spec fn decrypted(key: Seq<u8>, iv: Seq<u8>, ciphertext: Seq<u8>) -> Seq<u8> {
        cbc_decrypted(key, iv, ciphertext)
    }

    fn block_len(&self) -> (n: usize) {
        AES_BLOCK_LEN
    }

    fn encrypt_blocks(&mut self, iv: &[u8], blocks: &mut [u8]) -> (result: Result<(), CryptoError>) {
        match check_nonce_len(AES_BLOCK_LEN, iv.len()) {
            Ok(()) => {},
            Err(error) => { return Err(error); },
        }
        match check_blocks(blocks) {
            Ok(()) => {},
            Err(error) => { return Err(error); },
        }
        let len: usize = blocks.len();
        let mut previous: Vec<u8> = slice_to_vec(iv);
        let mut at: usize = 0;
        let ghost key = self.key@;
        let ghost plain = blocks@;
        let ghost mut done: Seq<u8> = Seq::empty();
        assert(plain.take(0) =~= Seq::<u8>::empty());
        assert(blocks@ =~= done + plain.skip(0));
        assert(cbc_decrypted(key, iv@, done) =~= plain.take(0));
        assert((iv@ + done).skip(0) =~= iv@);
        while at < len
            invariant
                at <= len,
                at % 16 == 0,
                len % 16 == 0,
                len == plain.len(),
                plain == old(blocks)@,
                self.key@ == key,
                key.len() == 32,
                iv@.len() == 16,
                previous@.len() == 16,
                done.len() == at,
                blocks@ == done + plain.skip(at as int),
                done == cbc_encrypted(key, iv@, plain.take(at as int)),
                cbc_decrypted(key, iv@, done) == plain.take(at as int),
                previous@ == (iv@ + done).skip(at as int),
            decreases len - at,
        {
            let ghost before = blocks@;
            let ghost block = plain.subrange(at as int, at + 16);
            let masked_block: [u8; 16] = AesCbc::masked_block(
                &blocks[at..at + 16],
                previous.as_slice(),
            );
            assert(before.subrange(at as int, at + 16) =~= block);
            assert(masked(block, previous@) =~= masked(block, iv@ + done));
            let encrypted: [u8; 16] = aes256_encrypt(self.key.as_slice(), masked_block.as_slice());
            put_block(blocks, at, &encrypted);
            proof {
                lemma_cbc_encrypt_step(key, iv@, plain, at as int);
                lemma_cbc_decrypt_step(key, iv@, plain, done, encrypted@);
                let next = done + encrypted@;
                assert(blocks@ =~= next + plain.skip(at + 16));
                assert((iv@ + next).skip(at + 16) =~= encrypted@);
                done = next;
            }
            previous = slice_to_vec(encrypted.as_slice());
            at += 16;
        }
        assert(plain.take(len as int) =~= plain);
        assert(blocks@ =~= done);
        Ok(())
    }

    fn decrypt_blocks(&mut self, iv: &[u8], blocks: &mut [u8]) -> (result: Result<(), CryptoError>) {
        match check_nonce_len(AES_BLOCK_LEN, iv.len()) {
            Ok(()) => {},
            Err(error) => { return Err(error); },
        }
        match check_blocks(blocks) {
            Ok(()) => {},
            Err(error) => { return Err(error); },
        }
        let len: usize = blocks.len();
        let ghost key = self.key@;
        let ghost cipher = old(blocks)@;
        let mut previous: Vec<u8> = slice_to_vec(iv);
        let mut at: usize = 0;
        if len < BATCH_LEN {
            while at < len
                invariant
                    at <= len,
                    at % 16 == 0,
                    len % 16 == 0,
                    len == blocks@.len(),
                    cipher == old(blocks)@,
                    len == cipher.len(),
                    self.key@ == key,
                    key.len() == 32,
                    iv@.len() == 16,
                    previous@.len() == 16,
                    forall|i: int|
                        0 <= i < at ==> #[trigger] blocks@[i] == cbc_decrypted(
                            key,
                            iv@,
                            cipher,
                        )[i],
                    forall|i: int| at <= i < len ==> #[trigger] blocks@[i] == cipher[i],
                    forall|i: int| 0 <= i < 16 ==> #[trigger] previous@[i] == (iv@ + cipher)[at + i],
                decreases len - at,
            {
                // The ciphertext masks the next block, so it is kept before the plaintext
                // overwrites it.
                let ciphertext: Vec<u8> = slice_to_vec(&blocks[at..at + 16]);
                let decrypted: [u8; 16] = aes256_decrypt(self.key.as_slice(), ciphertext.as_slice());
                let plaintext: [u8; 16] = AesCbc::masked_block(
                    decrypted.as_slice(),
                    previous.as_slice(),
                );
                put_block(blocks, at, &plaintext);
                proof {
                    assert(at == 16 * (at / 16));
                    assert(ciphertext@ =~= block_of(cipher, at as int / 16));
                    assert forall|i: int| 0 <= i < at + 16 implies #[trigger] blocks@[i]
                        == cbc_decrypted(key, iv@, cipher)[i] by {
                        if i >= at {
                            assert(i / 16 == at / 16 && i % 16 == i - at);
                            assert(previous@[i - at] == (iv@ + cipher)[at + (i - at)]);
                        }
                    }
                    assert forall|i: int| 0 <= i < 16 implies #[trigger] ciphertext@[i] == (iv@
                        + cipher)[at + 16 + i] by {}
                }
                previous = ciphertext;
                at += 16;
            }
            assert(blocks@ =~= cbc_decrypted(key, iv@, cipher));
            return Ok(());
        }
        // The block decryptions are independent, and only the XOR chains, on ciphertext: a batch is
        // decrypted at once from a copy that each plaintext block is then unmasked with.
        while at < len
            invariant
                at <= len,
                at % 16 == 0,
                len % 16 == 0,
                len == blocks@.len(),
                cipher == old(blocks)@,
                len == cipher.len(),
                self.key@ == key,
                key.len() == 32,
                iv@.len() == 16,
                previous@.len() == 16,
                forall|i: int|
                    0 <= i < at ==> #[trigger] blocks@[i] == cbc_decrypted(key, iv@, cipher)[i],
                forall|i: int| at <= i < len ==> #[trigger] blocks@[i] == cipher[i],
                forall|i: int| 0 <= i < 16 ==> #[trigger] previous@[i] == (iv@ + cipher)[at + i],
            decreases len - at,
        {
            let size: usize = if len - at < BATCH_LEN {
                len - at
            } else {
                BATCH_LEN
            };
            let ciphertext: Vec<u8> = slice_to_vec(&blocks[at..at + size]);
            let decrypted: Vec<u8> = aes256_decrypt_blocks(
                self.key.as_slice(),
                ciphertext.as_slice(),
            );
            assert(ciphertext@ =~= cipher.subrange(at as int, at + size));
            let mut i: usize = 0;
            while i < size
                invariant
                    i <= size,
                    size % 16 == 0,
                    at % 16 == 0,
                    at + size <= len,
                    len == blocks@.len(),
                    len == cipher.len(),
                    iv@.len() == 16,
                    previous@.len() == 16,
                    ciphertext@ == cipher.subrange(at as int, at + size),
                    decrypted@.len() == size,
                    forall|j: int|
                        0 <= j < size ==> #[trigger] decrypted@[j] == aes256_decrypted(
                            key,
                            block_of(ciphertext@, j / 16),
                        )[j % 16],
                    forall|j: int|
                        0 <= j < at + i ==> #[trigger] blocks@[j] == cbc_decrypted(
                            key,
                            iv@,
                            cipher,
                        )[j],
                    forall|j: int| at + i <= j < len ==> #[trigger] blocks@[j] == cipher[j],
                    forall|j: int|
                        0 <= j < 16 ==> #[trigger] previous@[j] == (iv@ + cipher)[at + j],
                decreases size - i,
            {
                let mask: u8 = if i < 16 {
                    previous[i]
                } else {
                    ciphertext[i - 16]
                };
                blocks[at + i] = decrypted[i] ^ mask;
                proof {
                    let j = at + i;
                    assert(j / 16 == at as int / 16 + i as int / 16 && j % 16 == i as int % 16);
                    assert(at == 16 * (at / 16));
                    assert(block_of(ciphertext@, i as int / 16) =~= block_of(cipher, j / 16));
                    assert(mask == (iv@ + cipher)[j]) by {
                        if i < 16 {
                            assert(previous@[i as int] == (iv@ + cipher)[at + i]);
                        }
                    }
                }
                i += 1;
            }
            previous = slice_to_vec(&ciphertext[size - 16..size]);
            at += size;
            assert forall|j: int| 0 <= j < 16 implies #[trigger] previous@[j] == (iv@ + cipher)[at
                + j] by {}
        }
        assert(blocks@ =~= cbc_decrypted(key, iv@, cipher));
        Ok(())
    }
}

/// AES-128-CCM with either length of tag.
pub struct CommonCcm {
    key: Vec<u8>,
    short: bool,
}

/// A CCM cipher with the given key.
pub fn new_ccm(algorithm: AeadAlgorithm, key: &[u8]) -> (cipher: Result<CommonCcm, CryptoError>)
    ensures
        if key@.len() != 16 {
            cipher == Err::<CommonCcm, CryptoError>(
                CryptoError::InvalidKeyLength { expected: 16, actual: key@.len() as usize },
            )
        } else if algorithm == AeadAlgorithm::Aes128Ccm || algorithm == AeadAlgorithm::Aes128Ccm8 {
            &&& cipher matches Ok(cipher)
            &&& cipher.valid()
            &&& cipher.algorithm() == algorithm
            &&& cipher.key() == key@
        } else {
            cipher == Err::<CommonCcm, CryptoError>(CryptoError::UnsupportedAlgorithm(algorithm))
        },
{
    match check_key_len(16, key.len()) {
        Ok(()) => {},
        Err(error) => { return Err(error); },
    }
    match algorithm {
        AeadAlgorithm::Aes128Ccm => Ok(CommonCcm { key: slice_to_vec(key), short: false }),
        AeadAlgorithm::Aes128Ccm8 => Ok(CommonCcm { key: slice_to_vec(key), short: true }),
        _ => Err(CryptoError::UnsupportedAlgorithm(algorithm)),
    }
}

/// Copy all of `bytes` over `out`.
pub(crate) fn copy_over(out: &mut [u8], bytes: &[u8])
    requires
        old(out)@.len() == bytes@.len(),
    ensures
        final(out)@ == bytes@,
{
    let len: usize = bytes.len();
    let mut i: usize = 0;
    while i < len
        invariant
            i <= len,
            len == bytes@.len(),
            out@.len() == len,
            forall|j: int| 0 <= j < i ==> #[trigger] out@[j] == bytes@[j],
        decreases len - i,
    {
        out[i] = bytes[i];
        i += 1;
    }
    assert(out@ =~= bytes@);
}

impl AeadCipher for CommonCcm {
    closed spec fn algorithm(&self) -> AeadAlgorithm {
        if self.short {
            AeadAlgorithm::Aes128Ccm8
        } else {
            AeadAlgorithm::Aes128Ccm
        }
    }

    closed spec fn key(&self) -> Seq<u8> {
        self.key@
    }

    open spec fn valid(&self) -> bool {
        self.key().len() == 16
    }

    open spec fn sealed(
        algorithm: AeadAlgorithm,
        key: Seq<u8>,
        nonce: Seq<u8>,
        aad: Seq<u8>,
        plaintext: Seq<u8>,
    ) -> Option<(Seq<u8>, Seq<u8>)> {
        if algorithm == AeadAlgorithm::Aes128Ccm8 {
            ccm8_sealed(key, nonce, aad, plaintext)
        } else {
            ccm_sealed(key, nonce, aad, plaintext)
        }
    }

    open spec fn opened(
        algorithm: AeadAlgorithm,
        key: Seq<u8>,
        nonce: Seq<u8>,
        aad: Seq<u8>,
        ciphertext: Seq<u8>,
        tag: Seq<u8>,
    ) -> Option<Seq<u8>> {
        if ciphertext.len() > AEAD_MAX_LEN {
            None
        } else if algorithm == AeadAlgorithm::Aes128Ccm8 {
            ccm8_opened(key, nonce, aad, ciphertext, tag)
        } else {
            ccm_opened(key, nonce, aad, ciphertext, tag)
        }
    }

    fn tag_len(&self) -> (n: usize) {
        if self.short {
            8
        } else {
            16
        }
    }

    fn seal_in_place(
        &mut self,
        nonce: &[u8],
        aad: &[u8],
        data: &mut [u8],
        tag_out: &mut [u8],
    ) -> (result: Result<(), CryptoError>) {
        match check_nonce_len(AEAD_NONCE_LEN, nonce.len()) {
            Ok(()) => {},
            Err(error) => { return Err(error); },
        }
        match check_tag_len(self.tag_len(), tag_out.len()) {
            Ok(()) => {},
            Err(error) => { return Err(error); },
        }
        let tag: Option<Vec<u8>> = if self.short {
            ccm8_seal(self.key.as_slice(), nonce, aad, data)
        } else {
            ccm_seal(self.key.as_slice(), nonce, aad, data)
        };
        match tag {
            Some(tag) => {
                copy_over(tag_out, tag.as_slice());
                Ok(())
            },
            None => Err(CryptoError::AuthenticationFailed),
        }
    }

    fn open_in_place(
        &mut self,
        nonce: &[u8],
        aad: &[u8],
        data: &mut [u8],
        tag: &[u8],
    ) -> (result: Result<(), CryptoError>) {
        match check_nonce_len(AEAD_NONCE_LEN, nonce.len()) {
            Ok(()) => {},
            Err(error) => { return Err(error); },
        }
        match check_tag_len(self.tag_len(), tag.len()) {
            Ok(()) => {},
            Err(error) => { return Err(error); },
        }
        if data.len() > AEAD_MAX_LEN {
            return Err(CryptoError::AuthenticationFailed);
        }
        let opened: bool = if self.short {
            ccm8_open(self.key.as_slice(), nonce, aad, data, tag)
        } else {
            ccm_open(self.key.as_slice(), nonce, aad, data, tag)
        };
        if opened {
            Ok(())
        } else {
            Err(CryptoError::AuthenticationFailed)
        }
    }
}

} // verus!
