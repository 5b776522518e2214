//! The built-in provider: `ring` where it has the algorithm, the shared AES modes where not.

use crate::common::{
    check_key_len, check_nonce_len, check_tag_len, copy_over, fill_random, new_cbc, new_ccm, AesCbc,
    CommonCcm,
};
use crate::crypto::{
    AeadAlgorithm, AeadCipher, CbcAlgorithm, CryptoError, HashAlgorithm, HmacAlgorithm, Mac,
    RTCCryptoProvider, AEAD_MAX_LEN, AEAD_NONCE_LEN, HASH_MAX_LEN,
};
use vstd::prelude::*;
use vstd::slice::slice_to_vec;

verus! {

/// What AES-128-GCM makes of a plaintext.
pub uninterp spec fn gcm_sealed(
    key: Seq<u8>,
    nonce: Seq<u8>,
    aad: Seq<u8>,
    plaintext: Seq<u8>,
) -> Option<(Seq<u8>, Seq<u8>)>;

/// What AES-128-GCM makes of a ciphertext and its tag.
pub uninterp spec fn gcm_opened(
    key: Seq<u8>,
    nonce: Seq<u8>,
    aad: Seq<u8>,
    ciphertext: Seq<u8>,
    tag: Seq<u8>,
) -> Option<Seq<u8>>;

/// What ChaCha20-Poly1305 makes of a plaintext.
pub uninterp spec fn chacha20_sealed(
    key: Seq<u8>,
    nonce: Seq<u8>,
    aad: Seq<u8>,
    plaintext: Seq<u8>,
) -> Option<(Seq<u8>, Seq<u8>)>;

/// What ChaCha20-Poly1305 makes of a ciphertext and its tag.
pub uninterp spec fn chacha20_opened(
    key: Seq<u8>,
    nonce: Seq<u8>,
    aad: Seq<u8>,
    ciphertext: Seq<u8>,
    tag: Seq<u8>,
) -> Option<Seq<u8>>;

/// The HMAC-SHA-1 of `data`.
pub uninterp spec fn hmac_sha1(key: Seq<u8>, data: Seq<u8>) -> Seq<u8>;

/// The SHA-256 digest of `data`.
pub uninterp spec fn sha256(data: Seq<u8>) -> Seq<u8>;

/// `seal_in_place_separate_tag` of `ring::aead::LessSafeKey` for AES-128-GCM: the ciphertext and
/// the tag have a name, `open_in_place_separate_tag` takes them back, and nothing short is refused.
#[verifier::external_body]
fn gcm_seal(key: &[u8], nonce: &[u8], aad: &[u8], data: &mut [u8]) -> (tag: Option<Vec<u8>>)
    requires
        key@.len() == 16,
        nonce@.len() == 12,
    ensures
        final(data)@.len() == old(data)@.len(),
        match tag {
            Some(tag) => {
                &&& gcm_sealed(key@, nonce@, aad@, old(data)@) == Some((final(data)@, tag@))
                &&& gcm_opened(key@, nonce@, aad@, final(data)@, tag@) == Some(old(data)@)
                &&& tag@.len() == 16
            },
            None => {
                &&& gcm_sealed(key@, nonce@, aad@, old(data)@) is None
                &&& old(data)@.len() > AEAD_MAX_LEN || aad@.len() > AEAD_MAX_LEN
            },
        },
{
    let key = ring::aead::UnboundKey::new(&ring::aead::AES_128_GCM, key).unwrap();
    let nonce = ring::aead::Nonce::try_assume_unique_for_key(nonce).unwrap();
    ring::aead::LessSafeKey::new(key)
        .seal_in_place_separate_tag(nonce, ring::aead::Aad::from(aad), data)
        .ok()
        .map(|tag| tag.as_ref().to_vec())
}

/// `open_in_place_separate_tag` of `ring::aead::LessSafeKey` for AES-128-GCM: the plaintext has a
/// name.
#[verifier::external_body]
fn gcm_open(key: &[u8], nonce: &[u8], aad: &[u8], data: &mut [u8], tag: &[u8]) -> (opened: bool)
    requires
        key@.len() == 16,
        nonce@.len() == 12,
        tag@.len() == 16,
    ensures
        final(data)@.len() == old(data)@.len(),
        gcm_opened(key@, nonce@, aad@, old(data)@, tag@) == if opened {
            Some(final(data)@)
        } else {
            None
        },
{
    let key = ring::aead::UnboundKey::new(&ring::aead::AES_128_GCM, key).unwrap();
    let nonce = ring::aead::Nonce::try_assume_unique_for_key(nonce).unwrap();
    let aad = ring::aead::Aad::from(aad);
    let tag: [u8; 16] = tag.try_into().unwrap();
    ring::aead::LessSafeKey::new(key)
        .open_in_place_separate_tag(nonce, aad, tag.into(), data, 0..)
        .is_ok()
}

/// `seal_in_place_separate_tag` of `ring::aead::LessSafeKey` for ChaCha20-Poly1305: the ciphertext
/// and the tag have a name, `open_in_place_separate_tag` takes them back, and nothing short is
/// refused.
#[verifier::external_body]
fn chacha20_seal(key: &[u8], nonce: &[u8], aad: &[u8], data: &mut [u8]) -> (tag: Option<Vec<u8>>)
    requires
        key@.len() == 32,
        nonce@.len() == 12,
    ensures
        final(data)@.len() == old(data)@.len(),
        match tag {
            Some(tag) => {
                &&& chacha20_sealed(key@, nonce@, aad@, old(data)@) == Some((final(data)@, tag@))
                &&& chacha20_opened(key@, nonce@, aad@, final(data)@, tag@) == Some(old(data)@)
                &&& tag@.len() == 16
            },
            None => {
                &&& chacha20_sealed(key@, nonce@, aad@, old(data)@) is None
                &&& old(data)@.len() > AEAD_MAX_LEN || aad@.len() > AEAD_MAX_LEN
            },
        },
{
    let key = ring::aead::UnboundKey::new(&ring::aead::CHACHA20_POLY1305, key).unwrap();
    let nonce = ring::aead::Nonce::try_assume_unique_for_key(nonce).unwrap();
    ring::aead::LessSafeKey::new(key)
        .seal_in_place_separate_tag(nonce, ring::aead::Aad::from(aad), data)
        .ok()
        .map(|tag| tag.as_ref().to_vec())
}

/// `open_in_place_separate_tag` of `ring::aead::LessSafeKey` for ChaCha20-Poly1305: the plaintext
/// has a name.
#[verifier::external_body]
fn chacha20_open(key: &[u8], nonce: &[u8], aad: &[u8], data: &mut [u8], tag: &[u8]) -> (opened:
    bool)
    requires
        key@.len() == 32,
        nonce@.len() == 12,
        tag@.len() == 16,
    ensures
        final(data)@.len() == old(data)@.len(),
        chacha20_opened(key@, nonce@, aad@, old(data)@, tag@) == if opened {
            Some(final(data)@)
        } else {
            None
        },
{
    let key = ring::aead::UnboundKey::new(&ring::aead::CHACHA20_POLY1305, key).unwrap();
    let nonce = ring::aead::Nonce::try_assume_unique_for_key(nonce).unwrap();
    let aad = ring::aead::Aad::from(aad);
    let tag: [u8; 16] = tag.try_into().unwrap();
    ring::aead::LessSafeKey::new(key)
        .open_in_place_separate_tag(nonce, aad, tag.into(), data, 0..)
        .is_ok()
}

/// `ring::hmac::Context` with SHA-1, fed `head` and then `body`: the 20 bytes that `sign` returns
/// have a name.
#[verifier::external_body]
fn hmac_sha1_of(key: &[u8], head: &[u8], body: &[u8]) -> (code: Vec<u8>)
    requires
        key@.len() <= HASH_MAX_LEN,
        head@.len() + body@.len() <= HASH_MAX_LEN,
    ensures
        code@ == hmac_sha1(key@, head@ + body@),
        code@.len() == 20,
{
    let key = ring::hmac::Key::new(ring::hmac::HMAC_SHA1_FOR_LEGACY_USE_ONLY, key);
    let mut context = ring::hmac::Context::with_key(&key);
    context.update(head);
    context.update(body);
    context.sign().as_ref().to_vec()
}

/// `ring::digest::digest` with SHA-256: the 32 bytes that it returns have a name.
#[verifier::external_body]
fn sha256_of(data: &[u8]) -> (digest: Vec<u8>)
    requires
        data@.len() <= HASH_MAX_LEN,
    ensures
        digest@ == sha256(data@),
        digest@.len() == 32,
{
    ring::digest::digest(&ring::digest::SHA256, data).as_ref().to_vec()
}

/// The authenticated ciphers of [`RingProvider`].
pub enum RingAead {
    /// One of the CCM ciphers.
    Ccm(CommonCcm),
    /// AES-128-GCM with its key.
    Gcm(Vec<u8>),
    /// ChaCha20-Poly1305 with its key.
    ChaCha20(Vec<u8>),
}

impl AeadCipher for RingAead {
    open spec fn algorithm(&self) -> AeadAlgorithm {
        match self {
            RingAead::Ccm(cipher) => cipher.algorithm(),
            RingAead::Gcm(_) => AeadAlgorithm::Aes128Gcm,
            RingAead::ChaCha20(_) => AeadAlgorithm::ChaCha20Poly1305,
        }
    }

    open spec fn key(&self) -> Seq<u8> {
        match self {
            RingAead::Ccm(cipher) => cipher.key(),
            RingAead::Gcm(key) => key@,
            RingAead::ChaCha20(key) => key@,
        }
    }

    open spec fn valid(&self) -> bool {
        match self {
            RingAead::Ccm(cipher) => cipher.valid() && (cipher.algorithm()
                == AeadAlgorithm::Aes128Ccm || cipher.algorithm() == AeadAlgorithm::Aes128Ccm8),
            RingAead::Gcm(key) => key@.len() == 16,
            RingAead::ChaCha20(key) => key@.len() == 32,
        }
    }

    open spec fn sealed(
        algorithm: AeadAlgorithm,
        key: Seq<u8>,
        nonce: Seq<u8>,
        aad: Seq<u8>,
        plaintext: Seq<u8>,
    ) -> Option<(Seq<u8>, Seq<u8>)> {
        match algorithm {
            AeadAlgorithm::Aes128Gcm => gcm_sealed(key, nonce, aad, plaintext),
            AeadAlgorithm::ChaCha20Poly1305 => chacha20_sealed(key, nonce, aad, plaintext),
            _ => CommonCcm::sealed(algorithm, key, nonce, aad, plaintext),
        }
    }

    open spec fn opened(
        algorithm: AeadAlgorithm,
        key: Seq<u8>,
        nonce: Seq<u8>,
        aad: Seq<u8>,
        ciphertext: Seq<u8>,
        tag: Seq<u8>,
    ) -> Option<Seq<u8>> {
        match algorithm {
            AeadAlgorithm::Aes128Gcm => gcm_opened(key, nonce, aad, ciphertext, tag),
            AeadAlgorithm::ChaCha20Poly1305 => chacha20_opened(key, nonce, aad, ciphertext, tag),
            _ => CommonCcm::opened(algorithm, key, nonce, aad, ciphertext, tag),
        }
    }

    fn tag_len(&self) -> (n: usize) {
        match self {
            RingAead::Ccm(cipher) => cipher.tag_len(),
            RingAead::Gcm(_) => 16,
            RingAead::ChaCha20(_) => 16,
        }
    }

    fn seal_in_place(
        &mut self,
        nonce: &[u8],
        aad: &[u8],
        data: &mut [u8],
        tag_out: &mut [u8],
    ) -> (result: Result<(), CryptoError>) {
        match check_nonce_len(AEAD_NONCE_LEN, nonce.len()) {
            Ok(()) => {},
            Err(error) => { return Err(error); },
        }
        match check_tag_len(self.tag_len(), tag_out.len()) {
            Ok(()) => {},
            Err(error) => { return Err(error); },
        }
        let tag: Option<Vec<u8>> = match self {
            RingAead::Ccm(cipher) => {
                return cipher.seal_in_place(nonce, aad, data, tag_out);
            },
            RingAead::Gcm(key) => gcm_seal(key.as_slice(), nonce, aad, data),
            RingAead::ChaCha20(key) => chacha20_seal(key.as_slice(), nonce, aad, data),
        };
        match tag {
            Some(tag) => {
                copy_over(tag_out, tag.as_slice());
                Ok(())
            },
            None => Err(CryptoError::AuthenticationFailed),
        }
    }

    fn open_in_place(
        &mut self,
        nonce: &[u8],
        aad: &[u8],
        data: &mut [u8],
        tag: &[u8],
    ) -> (result: Result<(), CryptoError>) {
        match check_nonce_len(AEAD_NONCE_LEN, nonce.len()) {
            Ok(()) => {},
            Err(error) => { return Err(error); },
        }
        match check_tag_len(self.tag_len(), tag.len()) {
            Ok(()) => {},
            Err(error) => { return Err(error); },
        }
        let opened: bool = match self {
            RingAead::Ccm(cipher) => {
                return cipher.open_in_place(nonce, aad, data, tag);
            },
            RingAead::Gcm(key) => gcm_open(key.as_slice(), nonce, aad, data, tag),
            RingAead::ChaCha20(key) => chacha20_open(key.as_slice(), nonce, aad, data, tag),
        };
        if opened {
            Ok(())
        } else {
            Err(CryptoError::AuthenticationFailed)
        }
    }
}

/// HMAC-SHA-1 with its key.
pub struct RingHmac {
    key: Vec<u8>,
}

impl Mac for RingHmac {
    closed spec fn key(&self) -> Seq<u8> {
        self.key@
    }

    open spec fn code(key: Seq<u8>, data: Seq<u8>) -> Seq<u8> {
        hmac_sha1(key, data)
    }

    fn compute(&mut self, head: &[u8], body: &[u8]) -> (code: Vec<u8>) {
        hmac_sha1_of(self.key.as_slice(), head, body)
    }
}

/// The built-in provider.
#[derive(Debug, Clone, Copy, PartialEq, Eq, Structural)]
pub struct RingProvider {}

impl RingProvider {
    /// The built-in provider.
    pub fn new() -> RingProvider {
        RingProvider {  }
    }
}

impl RTCCryptoProvider for RingProvider {
    type Aead = RingAead;

    type Cbc = AesCbc;

    type Hmac = RingHmac;

    open spec fn may_refuse(error: CryptoError) -> bool {
        false
    }

    /// Any bytes may come.
    open spec fn may_draw(bytes: Seq<u8>) -> bool {
        true
    }

    open spec fn digest(algorithm: HashAlgorithm, data: Seq<u8>) -> Result<Seq<u8>, CryptoError> {
        Ok(sha256(data))
    }

    fn new_aead(&self, algorithm: AeadAlgorithm, key: &[u8]) -> (cipher: Result<
        RingAead,
        CryptoError,
    >) {
        match check_key_len(algorithm.key_len(), key.len()) {
            Ok(()) => {},
            Err(error) => { return Err(error); },
        }
        match algorithm {
            AeadAlgorithm::Aes128Gcm => Ok(RingAead::Gcm(slice_to_vec(key))),
            AeadAlgorithm::ChaCha20Poly1305 => Ok(RingAead::ChaCha20(slice_to_vec(key))),
            _ => match new_ccm(algorithm, key) {
                Ok(cipher) => Ok(RingAead::Ccm(cipher)),
                Err(error) => Err(error),
            },
        }
    }

    fn new_cbc(&self, algorithm: CbcAlgorithm, key: &[u8]) -> (cipher: Result<
        AesCbc,
        CryptoError,
    >) {
        new_cbc(algorithm, key)
    }

    fn new_hmac(&self, algorithm: HmacAlgorithm, key: &[u8]) -> (mac: RingHmac) {
        RingHmac { key: slice_to_vec(key) }
    }

    fn hash(&self, algorithm: HashAlgorithm, data: &[u8]) -> (digest: Result<Vec<u8>, CryptoError>) {
        Ok(sha256_of(data))
    }

    fn fill(&self, out: &mut [u8]) -> (result: Result<(), CryptoError>)
        ensures
            result is Ok,
    {
        fill_random(out)
    }
}

/// The built-in providers, labelled for use in measurement ids.
pub fn providers() -> (providers: Vec<(&'static str, RingProvider)>)
    ensures
        providers@.len() == 1,
        providers@[0].0@ == "ring"@,
{
    let mut providers: Vec<(&'static str, RingProvider)> = Vec::new();
    providers.push(("ring", RingProvider::new()));
    providers
}

} // verus!
