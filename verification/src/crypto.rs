//! What record protection asks of a cryptographic provider.
//!
//! The traits are for providers to implement. A cipher is known by its algorithm and its key: two
//! ciphers that agree in both compute the same, so one opens what the other sealed.

use vstd::prelude::*;

verus! {

/// An authenticated cipher.
#[derive(Debug, Clone, Copy, PartialEq, Eq, Structural)]
pub enum AeadAlgorithm {
    /// AES-128 in Galois/Counter Mode.
    Aes128Gcm,
    /// AES-128 in Counter with CBC-MAC mode, with the full tag.
    Aes128Ccm,
    /// AES-128 in Counter with CBC-MAC mode, with an 8-byte tag.
    Aes128Ccm8,
    /// ChaCha20 with Poly1305.
    ChaCha20Poly1305,
}

/// A block cipher.
#[derive(Debug, Clone, Copy, PartialEq, Eq, Structural)]
pub enum BlockCipherAlgorithm {
    /// AES with a 16-byte key.
    Aes128,
    /// AES with a 32-byte key.
    Aes256,
}

/// A stream cipher.
#[derive(Debug, Clone, Copy, PartialEq, Eq, Structural)]
pub enum StreamCipherAlgorithm {
    /// AES-128 in counter mode.
    Aes128Ctr,
    /// AES-256 in counter mode.
    Aes256Ctr,
}

/// A cipher that chains blocks.
#[derive(Debug, Clone, Copy, PartialEq, Eq, Structural)]
pub enum CbcAlgorithm {
    /// AES-256 in cipher block chaining mode.
    Aes256Cbc,
}

/// A keyed hash.
#[derive(Debug, Clone, Copy, PartialEq, Eq, Structural)]
pub enum HmacAlgorithm {
    /// HMAC with SHA-1.
    Sha1,
}

/// A hash.
#[derive(Debug, Clone, Copy, PartialEq, Eq, Structural)]
pub enum HashAlgorithm {
    /// SHA-256.
    Sha256,
}

/// What a cryptographic operation can fail with.
#[derive(Debug, Clone, Copy, PartialEq, Eq, Structural)]
pub enum CryptoError {
    /// A key of the wrong length.
    InvalidKeyLength {
        /// The length that the algorithm takes.
        expected: usize,
        /// The length that was given.
        actual: usize,
    },
    /// A nonce or initialisation vector of the wrong length.
    InvalidNonceLength {
        /// The length that the algorithm takes.
        expected: usize,
        /// The length that was given.
        actual: usize,
    },
    /// A tag of the wrong length.
    InvalidTagLength {
        /// The length that the algorithm takes.
        expected: usize,
        /// The length that was given.
        actual: usize,
    },
    /// A buffer of the wrong length.
    OutputTooSmall {
        /// The length that is needed.
        required: usize,
        /// The length that was given.
        actual: usize,
    },
    /// The cipher refused the input.
    AuthenticationFailed,
    /// There were no random bytes to be had.
    RandomnessFailed,
    /// The cipher is not offered here.
    UnsupportedAlgorithm(AeadAlgorithm),
}

/// Bytes in the nonce of every authenticated cipher here.
pub const AEAD_NONCE_LEN: usize = 12;

/// The longest input that every authenticated cipher here takes.
pub const AEAD_MAX_LEN: usize = 0xff_ffff;

/// Bytes in the blocks of AES.
pub const AES_BLOCK_LEN: usize = 16;

/// The longest input that a hash takes.
pub const HASH_MAX_LEN: u64 = 0x0fff_ffff_ffff_ffff;

/// Bytes in an HMAC-SHA-1.
pub const HMAC_SHA1_LEN: usize = 20;

impl AeadAlgorithm {
    /// Bytes in the algorithm's key.
    pub open spec fn key_bytes(self) -> nat {
        match self {
            AeadAlgorithm::ChaCha20Poly1305 => 32,
            _ => 16,
        }
    }

    /// Bytes in the algorithm's tag.
    pub open spec fn tag_bytes(self) -> nat {
        match self {
            AeadAlgorithm::Aes128Ccm8 => 8,
            _ => 16,
        }
    }

    /// Bytes in the algorithm's key.
    pub fn key_len(&self) -> (n: usize)
        ensures
            n == self.key_bytes(),
    {
        match self {
            AeadAlgorithm::ChaCha20Poly1305 => 32,
            _ => 16,
        }
    }
}

/// What is wrong with the lengths of a nonce and a tag, the nonce first.
pub open spec fn aead_length_error(
    algorithm: AeadAlgorithm,
    nonce: nat,
    tag: nat,
) -> Option<CryptoError> {
    if nonce != AEAD_NONCE_LEN {
        Some(
            CryptoError::InvalidNonceLength { expected: AEAD_NONCE_LEN, actual: nonce as usize },
        )
    } else if tag != algorithm.tag_bytes() {
        Some(
            CryptoError::InvalidTagLength {
                expected: algorithm.tag_bytes() as usize,
                actual: tag as usize,
            },
        )
    } else {
        None
    }
}

/// What a cipher returns: the error in the lengths, or else what it computed, or else its refusal.
pub open spec fn outcome<T>(error: Option<CryptoError>, computed: Option<T>) -> Result<
    T,
    CryptoError,
> {
    match error {
        Some(error) => Err(error),
        None => match computed {
            Some(value) => Ok(value),
            None => Err(CryptoError::AuthenticationFailed),
        },
    }
}

/// An authenticated cipher with its key.
pub trait AeadCipher: Sized {
    /// The algorithm.
    spec fn algorithm(&self) -> AeadAlgorithm;

    /// The key.
    spec fn key(&self) -> Seq<u8>;

    /// Whether the key fits the algorithm.
    spec fn valid(&self) -> bool;

    /// The ciphertext and the tag of a plaintext, where the algorithm takes it.
    spec fn sealed(
        algorithm: AeadAlgorithm,
        key: Seq<u8>,
        nonce: Seq<u8>,
        aad: Seq<u8>,
        plaintext: Seq<u8>,
    ) -> Option<(Seq<u8>, Seq<u8>)>;

    /// The plaintext of a ciphertext, where the tag is its tag.
    spec fn opened(
        algorithm: AeadAlgorithm,
        key: Seq<u8>,
        nonce: Seq<u8>,
        aad: Seq<u8>,
        ciphertext: Seq<u8>,
        tag: Seq<u8>,
    ) -> Option<Seq<u8>>;

    /// Bytes in the tag.
    fn tag_len(&self) -> (n: usize)
        ensures
            n == self.algorithm().tag_bytes(),
    ;

    /// Encrypt `data` in place and write its tag. What was sealed opens to what it was.
    fn seal_in_place(
        &mut self,
        nonce: &[u8],
        aad: &[u8],
        data: &mut [u8],
        tag_out: &mut [u8],
    ) -> (result: Result<(), CryptoError>)
        requires
            old(self).valid(),
        ensures
            final(self).valid(),
            final(self).algorithm() == old(self).algorithm(),
            final(self).key() == old(self).key(),
            final(data)@.len() == old(data)@.len(),
            final(tag_out)@.len() == old(tag_out)@.len(),
            ({
                let error = aead_length_error(
                    old(self).algorithm(),
                    nonce@.len(),
                    old(tag_out)@.len(),
                );
                let sealed = Self::sealed(
                    old(self).algorithm(),
                    old(self).key(),
                    nonce@,
                    aad@,
                    old(data)@,
                );
                match result {
                    Ok(()) => {
                        &&& outcome(error, sealed) == Ok::<(Seq<u8>, Seq<u8>), CryptoError>(
                            (final(data)@, final(tag_out)@),
                        )
                        &&& Self::opened(
                            old(self).algorithm(),
                            old(self).key(),
                            nonce@,
                            aad@,
                            final(data)@,
                            final(tag_out)@,
                        ) == Some(old(data)@)
                    },
                    Err(refused) => outcome(error, sealed) == Err::<
                        (Seq<u8>, Seq<u8>),
                        CryptoError,
                    >(refused),
                }
            }),
            aead_length_error(old(self).algorithm(), nonce@.len(), old(tag_out)@.len()) is None
                && old(data)@.len() <= AEAD_MAX_LEN && aad@.len() <= AEAD_MAX_LEN ==> result is Ok,
    ;

    /// Decrypt `data` in place, if `tag` is its tag. Where it is not, nothing is said of `data`.
    fn open_in_place(
        &mut self,
        nonce: &[u8],
        aad: &[u8],
        data: &mut [u8],
        tag: &[u8],
    ) -> (result: Result<(), CryptoError>)
        requires
            old(self).valid(),
        ensures
            final(self).valid(),
            final(self).algorithm() == old(self).algorithm(),
            final(self).key() == old(self).key(),
            final(data)@.len() == old(data)@.len(),
            ({
                let error = aead_length_error(old(self).algorithm(), nonce@.len(), tag@.len());
                let opened = Self::opened(
                    old(self).algorithm(),
                    old(self).key(),
                    nonce@,
                    aad@,
                    old(data)@,
                    tag@,
                );
                match result {
                    Ok(()) => outcome(error, opened) == Ok::<Seq<u8>, CryptoError>(final(data)@),
                    Err(refused) => outcome(error, opened) == Err::<Seq<u8>, CryptoError>(refused),
                }
            }),
    ;
}

/// What is wrong with the lengths of an initialisation vector and of the data to chain.
pub open spec fn cbc_length_error(iv: nat, data: nat) -> Option<CryptoError> {
    if iv != AES_BLOCK_LEN {
        Some(CryptoError::InvalidNonceLength { expected: AES_BLOCK_LEN, actual: iv as usize })
    } else if data == 0 || data % 16 != 0 {
        Some(
            CryptoError::OutputTooSmall {
                required: ((data / 16) * 16 + 16) as usize,
                actual: data as usize,
            },
        )
    } else {
        None
    }
}

/// AES-256 in cipher block chaining mode, with its key.
pub trait CbcCipher: Sized {
    /// The key.
    spec fn key(&self) -> Seq<u8>;

    /// Whether the key fits the algorithm.
    spec fn valid(&self) -> bool;

    /// Whole blocks, encrypted.
    spec fn encrypted(key: Seq<u8>, iv: Seq<u8>, plaintext: Seq<u8>) -> Seq<u8>;

    /// Whole blocks, decrypted.
    spec fn decrypted(key: Seq<u8>, iv: Seq<u8>, ciphertext: Seq<u8>) -> Seq<u8>;

    /// Bytes in a block.
    fn block_len(&self) -> (n: usize)
        ensures
            n == AES_BLOCK_LEN,
    ;

    /// Encrypt whole blocks in place. What was encrypted decrypts to what it was.
    fn encrypt_blocks(&mut self, iv: &[u8], blocks: &mut [u8]) -> (result: Result<(), CryptoError>)
        requires
            old(self).valid(),
            old(blocks)@.len() <= usize::MAX - 15,
        ensures
            final(self).valid(),
            final(self).key() == old(self).key(),
            final(blocks)@.len() == old(blocks)@.len(),
            match cbc_length_error(iv@.len(), old(blocks)@.len()) {
                Some(error) => result == Err::<(), CryptoError>(error),
                None => {
                    &&& result is Ok
                    &&& final(blocks)@ == Self::encrypted(old(self).key(), iv@, old(blocks)@)
                    &&& Self::decrypted(old(self).key(), iv@, final(blocks)@) == old(blocks)@
                },
            },
    ;

    /// Decrypt whole blocks in place.
    fn decrypt_blocks(&mut self, iv: &[u8], blocks: &mut [u8]) -> (result: Result<(), CryptoError>)
        requires
            old(self).valid(),
            old(blocks)@.len() <= usize::MAX - 15,
        ensures
            final(self).valid(),
            final(self).key() == old(self).key(),
            final(blocks)@.len() == old(blocks)@.len(),
            match cbc_length_error(iv@.len(), old(blocks)@.len()) {
                Some(error) => result == Err::<(), CryptoError>(error),
                None => {
                    &&& result is Ok
                    &&& final(blocks)@ == Self::decrypted(old(self).key(), iv@, old(blocks)@)
                },
            },
    ;
}

/// A stream cipher with its key.
pub trait StreamCipher: Sized {
    /// Byte `at` of the key stream that starts at `iv`.
    spec fn keystream(&self, iv: Seq<u8>, at: nat) -> u8;

    /// Whether the key fits the algorithm.
    spec fn valid(&self) -> bool;

    /// XOR the key stream into `data`.
    fn apply_keystream(&mut self, iv: &[u8], data: &mut [u8]) -> (result: Result<(), CryptoError>)
        requires
            old(self).valid(),
        ensures
            *final(self) == *old(self),
            final(data)@.len() == old(data)@.len(),
            if iv@.len() != AES_BLOCK_LEN {
                &&& result == Err::<(), CryptoError>(
                    CryptoError::InvalidNonceLength {
                        expected: AES_BLOCK_LEN,
                        actual: iv@.len() as usize,
                    },
                )
                &&& final(data)@ == old(data)@
            } else {
                &&& result is Ok
                &&& forall|i: int|
                    0 <= i < old(data)@.len() ==> #[trigger] final(data)@[i] == old(data)@[i]
                        ^ old(self).keystream(iv@, i as nat)
            },
    ;
}

/// A keyed hash with its key.
pub trait Mac: Sized {
    /// The key.
    spec fn key(&self) -> Seq<u8>;

    /// The hash of `data`.
    spec fn code(key: Seq<u8>, data: Seq<u8>) -> Seq<u8>;

    /// The hash of `head` followed by `body`.
    fn compute(&mut self, head: &[u8], body: &[u8]) -> (code: Vec<u8>)
        requires
            old(self).key().len() <= HASH_MAX_LEN,
            head@.len() + body@.len() <= HASH_MAX_LEN,
        ensures
            final(self).key() == old(self).key(),
            code@ == Self::code(old(self).key(), head@ + body@),
            code@.len() == HMAC_SHA1_LEN,
    ;
}

/// A provider of ciphers, hashes and random bytes.
pub trait RTCCryptoProvider: Sized {
    /// Its authenticated ciphers.
    type Aead: AeadCipher;

    /// Its block chaining cipher.
    type Cbc: CbcCipher;

    /// Its keyed hash.
    type Hmac: Mac;

    /// Whether drawing random bytes may fail so.
    spec fn may_refuse(error: CryptoError) -> bool;

    /// Whether drawing random bytes may give these.
    spec fn may_draw(bytes: Seq<u8>) -> bool;

    /// The hash of `data`, where the provider offers it.
    spec fn digest(algorithm: HashAlgorithm, data: Seq<u8>) -> Result<Seq<u8>, CryptoError>;

    /// An authenticated cipher with the given key.
    fn new_aead(&self, algorithm: AeadAlgorithm, key: &[u8]) -> (cipher: Result<
        Self::Aead,
        CryptoError,
    >)
        ensures
            if key@.len() == algorithm.key_bytes() {
                &&& cipher matches Ok(cipher)
                &&& cipher.valid()
                &&& cipher.algorithm() == algorithm
                &&& cipher.key() == key@
            } else {
                cipher == Err::<Self::Aead, CryptoError>(
                    CryptoError::InvalidKeyLength {
                        expected: algorithm.key_bytes() as usize,
                        actual: key@.len() as usize,
                    },
                )
            },
    ;

    /// A block chaining cipher with the given key.
    fn new_cbc(&self, algorithm: CbcAlgorithm, key: &[u8]) -> (cipher: Result<
        Self::Cbc,
        CryptoError,
    >)
        ensures
            if key@.len() == 32 {
                &&& cipher matches Ok(cipher)
                &&& cipher.valid()
                &&& cipher.key() == key@
            } else {
                cipher == Err::<Self::Cbc, CryptoError>(
                    CryptoError::InvalidKeyLength { expected: 32, actual: key@.len() as usize },
                )
            },
    ;

    /// A keyed hash with the given key.
    fn new_hmac(&self, algorithm: HmacAlgorithm, key: &[u8]) -> (mac: Self::Hmac)
        ensures
            mac.key() == key@,
    ;

    /// The hash of `data`.
    fn hash(&self, algorithm: HashAlgorithm, data: &[u8]) -> (digest: Result<Vec<u8>, CryptoError>)
        requires
            data@.len() <= HASH_MAX_LEN,
        ensures
            match digest {
                Ok(digest) => Self::digest(algorithm, data@) == Ok::<Seq<u8>, CryptoError>(digest@),
                Err(error) => Self::digest(algorithm, data@) == Err::<Seq<u8>, CryptoError>(error),
            },
    ;

    /// Fill `out` with random bytes.
    fn fill(&self, out: &mut [u8]) -> (result: Result<(), CryptoError>)
        ensures
            final(out)@.len() == old(out)@.len(),
            result is Ok ==> Self::may_draw(final(out)@),
            result matches Err(error) ==> Self::may_refuse(error),
    ;
}

/// Whether a provider always has random bytes.
pub open spec fn reliable<P: RTCCryptoProvider>() -> bool {
    forall|error: CryptoError| !#[trigger] P::may_refuse(error)
}

/// Whether two slices hold the same bytes. All of them are looked at, wherever they differ.
pub fn constant_time_eq(a: &[u8], b: &[u8]) -> (same: bool)
    ensures
        same == (a@ == b@),
{
    if a.len() != b.len() {
        assert(a@.len() != b@.len());
        return false;
    }
    let mut difference: u8 = 0;
    let mut i: usize = 0;
    assert(a@.subrange(0, 0) =~= b@.subrange(0, 0));
    while i < a.len()
        invariant
            i <= a@.len(),
            a@.len() == b@.len(),
            (difference == 0) == (a@.subrange(0, i as int) == b@.subrange(0, i as int)),
        decreases a@.len() - i,
    {
        let x: u8 = a[i];
        let y: u8 = b[i];
        proof {
            assert((difference | (x ^ y)) == 0 <==> difference == 0 && x == y) by (bit_vector);
            let left = a@.subrange(0, i as int);
            let right = b@.subrange(0, i as int);
            assert(a@.subrange(0, i + 1) =~= left.push(x));
            assert(b@.subrange(0, i + 1) =~= right.push(y));
            if left.push(x) == right.push(y) {
                assert(left.push(x)[i as int] == right.push(y)[i as int]);
                assert(left =~= left.push(x).subrange(0, i as int));
                assert(right =~= right.push(y).subrange(0, i as int));
            }
        }
        difference = difference | (x ^ y);
        i += 1;
    }
    assert(a@.subrange(0, i as int) =~= a@);
    assert(b@.subrange(0, i as int) =~= b@);
    difference == 0
}

} // verus!
