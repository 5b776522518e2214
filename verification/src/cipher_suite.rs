//! A connection's cipher: one of the record ciphers, once there are keys.

use crate::crypto;
use crate::crypto::{
    AeadAlgorithm, AeadCipher, CbcCipher, RTCCryptoProvider, AEAD_MAX_LEN, HASH_MAX_LEN,
};
use crate::crypto_cbc;
use crate::crypto_cbc::{CbcKeys, CryptoCbc};
use crate::crypto_ccm::CryptoCcm;
use crate::crypto_chacha20;
use crate::crypto_chacha20::CryptoChaCha20;
use crate::crypto_gcm::CryptoGcm;
use crate::error::Error;
use crate::record::RecordLayerHeader;
use crate::record_cipher;
use crate::record_cipher::RecordKeys;
use vstd::prelude::*;

verus! {

/// Most bytes that a cipher adds to a record.
pub const MAX_CIPHER_SUITE_OVERHEAD: usize = 52;

/// Whether a record of so many bytes can be protected: there is room for what a cipher adds.
pub open spec fn fits(len: int) -> bool {
    len <= HASH_MAX_LEN && len + MAX_CIPHER_SUITE_OVERHEAD + 16 <= usize::MAX
}

/// A connection's cipher.
pub trait CipherSuite: Sized {
    /// What the cipher is known by.
    type Keys;

    /// What this cipher is known by.
    spec fn keys(&self) -> Self::Keys;

    /// Whether the keys fit the algorithm.
    spec fn valid(&self) -> bool;

    /// Whether there are keys.
    spec fn ready(keys: Self::Keys) -> bool;

    /// Whether the keys come from a pre-shared key.
    spec fn psk(keys: Self::Keys) -> bool;

    /// The keys at the other end.
    spec fn mirrored(keys: Self::Keys) -> Self::Keys;

    /// What a received record opens to.
    spec fn opened(keys: Self::Keys, r: Seq<u8>) -> Result<Seq<u8>, Error>;

    /// Whether protecting a record may give this.
    spec fn may_seal(
        keys: Self::Keys,
        h: RecordLayerHeader,
        raw: Seq<u8>,
        sealed: Result<Seq<u8>, Error>,
    ) -> bool;

    /// Whether protecting a record never lacks random bytes.
    spec fn reliable(keys: Self::Keys) -> bool;

    /// Whether there are keys.
    fn is_initialized(&self) -> (ready: bool)
        ensures
            ready == Self::ready(self.keys()),
    ;

    /// Whether the keys come from a pre-shared key.
    fn is_psk(&self) -> (psk: bool)
        ensures
            psk == Self::psk(self.keys()),
    ;

    /// Protects the record in `raw` in place. Its header gives its new length. Whoever has the keys
    /// opens it: the header and the payload come back.
    fn encrypt_in_place(&mut self, h: &RecordLayerHeader, raw: &mut Vec<u8>) -> (result: Result<
        (),
        Error,
    >)
        requires
            old(self).valid(),
            old(raw)@.len() >= 13,
            fits(old(raw)@.len() as int),
        ensures
            final(self).valid(),
            final(self).keys() == old(self).keys(),
            match result {
                Ok(()) => {
                    &&& Self::ready(old(self).keys())
                    &&& Self::may_seal(
                        old(self).keys(),
                        *h,
                        old(raw)@,
                        Ok::<Seq<u8>, Error>(final(raw)@),
                    )
                    &&& 13 < final(raw)@.len() <= old(raw)@.len() + MAX_CIPHER_SUITE_OVERHEAD
                    &&& final(raw)@.take(11) == old(raw)@.take(11)
                    &&& record_cipher::framed(final(raw)@)
                    &&& record_cipher::headed_by(old(raw)@, *h) ==> Self::opened(
                        Self::mirrored(old(self).keys()),
                        final(raw)@,
                    ) == Ok::<Seq<u8>, Error>(final(raw)@.take(13) + old(raw)@.skip(13))
                },
                Err(error) => {
                    Self::may_seal(old(self).keys(), *h, old(raw)@, Err::<Seq<u8>, Error>(error))
                },
            },
            Self::reliable(old(self).keys()) && Self::ready(old(self).keys()) && old(raw)@.len()
                - 13 <= AEAD_MAX_LEN ==> result is Ok,
    ;

    /// Opens the record in `r` in place.
    fn decrypt_in_place(&mut self, r: &mut Vec<u8>) -> (result: Result<(), Error>)
        requires
            old(self).valid(),
            old(r)@.len() <= HASH_MAX_LEN,
        ensures
            final(self).valid(),
            final(self).keys() == old(self).keys(),
            record_cipher::leaves(Self::opened(old(self).keys(), old(r)@), result, final(r)@),
    ;
}

/// A record cipher with its keys.
pub enum RecordCipher<P: RTCCryptoProvider> {
    /// AES-GCM.
    Gcm(CryptoGcm<P>),
    /// AES-CCM.
    Ccm(CryptoCcm<P>),
    /// ChaCha20-Poly1305.
    ChaCha20(CryptoChaCha20<P>),
    /// AES-CBC with HMAC-SHA-1.
    Cbc(CryptoCbc<P>),
}

/// What a record cipher is known by.
pub enum CipherKeys {
    /// AES-GCM.
    Gcm(RecordKeys),
    /// AES-CCM.
    Ccm(RecordKeys),
    /// ChaCha20-Poly1305.
    ChaCha20(RecordKeys),
    /// AES-CBC with HMAC-SHA-1.
    Cbc(CbcKeys),
}

/// What a cipher suite is known by.
pub struct SuiteKeys {
    /// The cipher, once there are keys.
    pub cipher: Option<CipherKeys>,
    /// Whether the keys come from a pre-shared key.
    pub psk: bool,
}

/// One of the record ciphers, once there are keys.
pub struct RecordSuite<P: RTCCryptoProvider> {
    /// The cipher, once there are keys.
    pub cipher: Option<RecordCipher<P>>,
    /// Whether the keys come from a pre-shared key.
    pub psk: bool,
}

impl<P: RTCCryptoProvider> RecordCipher<P> {
    /// What the cipher is known by.
    pub open spec fn keys(&self) -> CipherKeys {
        match self {
            RecordCipher::Gcm(cipher) => CipherKeys::Gcm(cipher@),
            RecordCipher::Ccm(cipher) => CipherKeys::Ccm(cipher@),
            RecordCipher::ChaCha20(cipher) => CipherKeys::ChaCha20(cipher@),
            RecordCipher::Cbc(cipher) => CipherKeys::Cbc(cipher@),
        }
    }

    /// The keys fit the algorithm.
    pub open spec fn valid(&self) -> bool {
        match self {
            RecordCipher::Gcm(cipher) => cipher.valid() && cipher@.local_iv.len() >= 4
                && cipher@.remote_iv.len() >= 4,
            RecordCipher::Ccm(cipher) => cipher.valid() && cipher@.local_iv.len() >= 4
                && cipher@.remote_iv.len() >= 4,
            RecordCipher::ChaCha20(cipher) => cipher.valid() && cipher@.local_iv.len() == 12
                && cipher@.remote_iv.len() == 12,
            RecordCipher::Cbc(cipher) => cipher.valid(),
        }
    }
}

impl CipherKeys {
    /// The keys at the other end.
    pub open spec fn mirrored(self) -> CipherKeys {
        match self {
            CipherKeys::Gcm(keys) => CipherKeys::Gcm(keys.mirrored()),
            CipherKeys::Ccm(keys) => CipherKeys::Ccm(keys.mirrored()),
            CipherKeys::ChaCha20(keys) => CipherKeys::ChaCha20(keys.mirrored()),
            CipherKeys::Cbc(keys) => CipherKeys::Cbc(
                CbcKeys {
                    local_key: keys.remote_key,
                    local_mac: keys.remote_mac,
                    remote_key: keys.local_key,
                    remote_mac: keys.local_mac,
                },
            ),
        }
    }

    /// What a received record opens to.
    pub open spec fn opened<P: RTCCryptoProvider>(self, r: Seq<u8>) -> Result<Seq<u8>, Error> {
        match self {
            CipherKeys::Gcm(keys) => keys.unprotected::<P::Aead>(
                r,
                Error::ErrRecordTooShortForTag,
            ),
            CipherKeys::Ccm(keys) => keys.unprotected::<P::Aead>(r, Error::ErrInvalidMac),
            CipherKeys::ChaCha20(keys) => crypto_chacha20::chacha20_unprotected::<P::Aead>(
                keys.remote_key,
                keys.remote_iv,
                r,
            ),
            CipherKeys::Cbc(keys) => crypto_cbc::cbc_unprotected::<P::Cbc, P::Hmac>(
                keys.remote_key,
                keys.remote_mac,
                r,
            ),
        }
    }

    /// Whether protecting a record may give this.
    pub open spec fn may_seal<P: RTCCryptoProvider>(
        self,
        h: RecordLayerHeader,
        raw: Seq<u8>,
        sealed: Result<Seq<u8>, Error>,
    ) -> bool {
        let refused = sealed is Err && record_cipher::refused::<P>(sealed->Err_0);
        match self {
            CipherKeys::Gcm(keys) => refused || exists|explicit: Seq<u8>|
                sealed == #[trigger] keys.protected::<P::Aead>(h, raw, explicit) && explicit.len()
                    == 8 && P::may_draw(explicit),
            CipherKeys::Ccm(keys) => refused || exists|explicit: Seq<u8>|
                sealed == #[trigger] keys.protected::<P::Aead>(h, raw, explicit) && explicit.len()
                    == 8 && P::may_draw(explicit),
            CipherKeys::ChaCha20(keys) => sealed == crypto_chacha20::chacha20_protected::<P::Aead>(
                keys.local_key,
                keys.local_iv,
                h,
                raw,
            ),
            CipherKeys::Cbc(keys) => refused || exists|iv: Seq<u8>|
                sealed == Ok::<Seq<u8>, Error>(
                    #[trigger] crypto_cbc::cbc_protected::<P::Cbc, P::Hmac>(
                        keys.local_key,
                        keys.local_mac,
                        h,
                        raw,
                        iv,
                    ),
                ) && iv.len() == 16 && P::may_draw(iv),
        }
    }
}

/// Protecting a record leaves its header as it is, but for the length, which is the new one.
proof fn lemma_header_kept<P: RTCCryptoProvider>(
    keys: CipherKeys,
    h: RecordLayerHeader,
    raw: Seq<u8>,
    sealed: Seq<u8>,
)
    requires
        raw.len() >= 13,
        keys.may_seal::<P>(h, raw, Ok::<Seq<u8>, Error>(sealed)),
    ensures
        sealed.len() >= 13,
        sealed.take(11) == raw.take(11),
        record_cipher::framed(sealed),
        !(keys is ChaCha20) ==> sealed.len() > 13,
{
    match keys {
        CipherKeys::Gcm(k) | CipherKeys::Ccm(k) => {
            let explicit = choose|explicit: Seq<u8>|
                Ok::<Seq<u8>, Error>(sealed) == #[trigger] k.protected::<P::Aead>(h, raw, explicit)
                    && explicit.len() == 8;
            let payload = raw.skip(13);
            let (ciphertext, tag) = P::Aead::sealed(
                k.algorithm,
                k.local_key,
                record_cipher::joined_nonce(k.local_iv, explicit),
                record_cipher::additional_data(h, payload.len() as int),
                payload,
            )->Some_0;
            lemma_length_only(raw, explicit + ciphertext + tag);
        },
        CipherKeys::ChaCha20(k) => {
            let payload = raw.skip(13);
            let (ciphertext, tag) = P::Aead::sealed(
                AeadAlgorithm::ChaCha20Poly1305,
                k.local_key,
                crypto_chacha20::record_nonce(k.local_iv, h.epoch, h.sequence_number),
                record_cipher::additional_data(h, payload.len() as int),
                payload,
            )->Some_0;
            lemma_length_only(raw, ciphertext + tag);
        },
        CipherKeys::Cbc(k) => {
            let iv = choose|iv: Seq<u8>|
                Ok::<Seq<u8>, Error>(sealed) == Ok::<Seq<u8>, Error>(
                    #[trigger] crypto_cbc::cbc_protected::<P::Cbc, P::Hmac>(
                        k.local_key,
                        k.local_mac,
                        h,
                        raw,
                        iv,
                    ),
                ) && iv.len() == 16;
            let payload = raw.skip(13);
            let coded = payload + crypto_cbc::record_code::<P::Hmac>(k.local_mac, h, payload);
            lemma_length_only(
                raw,
                iv + P::Cbc::encrypted(
                    k.local_key,
                    iv,
                    coded + crypto_cbc::padding(coded.len() as int),
                ),
            );
        },
    }
}

proof fn lemma_length_only(raw: Seq<u8>, body: Seq<u8>)
    requires
        raw.len() >= 13,
    ensures
        (record_cipher::with_length(raw, body.len() as int) + body).len() >= 13,
        (record_cipher::with_length(raw, body.len() as int) + body).take(11) == raw.take(11),
        record_cipher::framed(record_cipher::with_length(raw, body.len() as int) + body),
{
    let record = record_cipher::with_length(raw, body.len() as int) + body;
    assert(record.take(11) =~= raw.take(11));
    assert(record.subrange(11, 13) =~= crate::record::to_be16(body.len() as int));
}

impl<P: RTCCryptoProvider> CipherSuite for RecordSuite<P> {
    type Keys = SuiteKeys;

    open spec fn keys(&self) -> SuiteKeys {
        SuiteKeys {
            cipher: match self.cipher {
                Some(cipher) => Some(cipher.keys()),
                None => None,
            },
            psk: self.psk,
        }
    }

    open spec fn valid(&self) -> bool {
        self.cipher matches Some(cipher) ==> cipher.valid()
    }

    open spec fn ready(keys: SuiteKeys) -> bool {
        keys.cipher is Some
    }

    open spec fn psk(keys: SuiteKeys) -> bool {
        keys.psk
    }

    open spec fn mirrored(keys: SuiteKeys) -> SuiteKeys {
        SuiteKeys {
            cipher: match keys.cipher {
                Some(cipher) => Some(cipher.mirrored()),
                None => None,
            },
            psk: keys.psk,
        }
    }

    open spec fn opened(keys: SuiteKeys, r: Seq<u8>) -> Result<Seq<u8>, Error> {
        match keys.cipher {
            Some(cipher) => cipher.opened::<P>(r),
            None => Err(Error::ErrCipherSuiteNotInit),
        }
    }

    open spec fn may_seal(
        keys: SuiteKeys,
        h: RecordLayerHeader,
        raw: Seq<u8>,
        sealed: Result<Seq<u8>, Error>,
    ) -> bool {
        match keys.cipher {
            Some(cipher) => cipher.may_seal::<P>(h, raw, sealed),
            None => sealed == Err::<Seq<u8>, Error>(Error::ErrCipherSuiteNotInit),
        }
    }

    open spec fn reliable(keys: SuiteKeys) -> bool {
        keys.cipher matches Some(CipherKeys::ChaCha20(_)) || crypto::reliable::<P>()
    }

    fn is_initialized(&self) -> (ready: bool) {
        self.cipher.is_some()
    }

    fn is_psk(&self) -> (psk: bool) {
        self.psk
    }

    fn encrypt_in_place(&mut self, h: &RecordLayerHeader, raw: &mut Vec<u8>) -> (result: Result<
        (),
        Error,
    >) {
        let result: Result<(), Error> = match &mut self.cipher {
            Some(RecordCipher::Gcm(cipher)) => cipher.encrypt_in_place(h, raw),
            Some(RecordCipher::Ccm(cipher)) => cipher.encrypt_in_place(h, raw),
            Some(RecordCipher::ChaCha20(cipher)) => cipher.encrypt_in_place(h, raw),
            Some(RecordCipher::Cbc(cipher)) => cipher.encrypt_in_place(h, raw),
            None => Err(Error::ErrCipherSuiteNotInit),
        };
        proof {
            if result is Ok {
                let keys = old(self).keys().cipher->Some_0;
                lemma_header_kept::<P>(keys, *h, old(raw)@, raw@);
            }
        }
        result
    }

    fn decrypt_in_place(&mut self, r: &mut Vec<u8>) -> (result: Result<(), Error>) {
        match &mut self.cipher {
            Some(RecordCipher::Gcm(cipher)) => cipher.decrypt_in_place(r),
            Some(RecordCipher::Ccm(cipher)) => cipher.decrypt_in_place(r),
            Some(RecordCipher::ChaCha20(cipher)) => cipher.decrypt_in_place(r),
            Some(RecordCipher::Cbc(cipher)) => cipher.decrypt_in_place(r),
            None => Err(Error::ErrCipherSuiteNotInit),
        }
    }
}

} // verus!
