//! AES-GCM (Galois/Counter Mode) record protection.

use crate::crypto::{AeadAlgorithm, AeadCipher, CryptoError, RTCCryptoProvider, AEAD_MAX_LEN};
use crate::error::Error;
use crate::record::RecordLayerHeader;
use crate::record_cipher;
use crate::record_cipher::{
    crypto_error, protect, unprotect, zeros, RecordKeys, EXPLICIT_NONCE_LENGTH,
};
use vstd::prelude::*;
use vstd::slice::slice_to_vec;

verus! {

/// Bytes that AES-GCM adds to a record: the explicit nonce and the tag.
pub const CRYPTO_GCM_OVERHEAD: usize = 24;

/// AES-GCM authenticated encryption for DTLS records, holding the keys of both directions.
pub struct CryptoGcm<P: RTCCryptoProvider> {
    provider: P,
    local_gcm: P::Aead,
    remote_gcm: P::Aead,
    local_write_iv: Vec<u8>,
    remote_write_iv: Vec<u8>,
}

impl<P: RTCCryptoProvider> View for CryptoGcm<P> {
    type V = RecordKeys;

    closed spec fn view(&self) -> RecordKeys {
        RecordKeys {
            algorithm: self.local_gcm.algorithm(),
            local_key: self.local_gcm.key(),
            local_iv: self.local_write_iv@,
            remote_key: self.remote_gcm.key(),
            remote_iv: self.remote_write_iv@,
        }
    }
}

impl<P: RTCCryptoProvider> CryptoGcm<P> {
    /// The keys fit the algorithm.
    pub closed spec fn valid(&self) -> bool {
        &&& self.local_gcm.valid()
        &&& self.remote_gcm.valid()
        &&& self.local_gcm.algorithm() == AeadAlgorithm::Aes128Gcm
        &&& self.remote_gcm.algorithm() == self.local_gcm.algorithm()
    }

    /// Builds the cipher from the local and remote keys and salts.
    pub fn new(
        provider: P,
        local_key: &[u8],
        local_write_iv: &[u8],
        remote_key: &[u8],
        remote_write_iv: &[u8],
    ) -> (result: Result<CryptoGcm<P>, Error>)
        ensures
            if local_key@.len() != 16 {
                result == Err::<CryptoGcm<P>, Error>(
                    Error::Crypto(
                        CryptoError::InvalidKeyLength {
                            expected: 16,
                            actual: local_key@.len() as usize,
                        },
                    ),
                )
            } else if remote_key@.len() != 16 {
                result == Err::<CryptoGcm<P>, Error>(
                    Error::Crypto(
                        CryptoError::InvalidKeyLength {
                            expected: 16,
                            actual: remote_key@.len() as usize,
                        },
                    ),
                )
            } else {
                &&& result matches Ok(built)
                &&& built.valid()
                &&& built@ == (RecordKeys {
                    algorithm: AeadAlgorithm::Aes128Gcm,
                    local_key: local_key@,
                    local_iv: local_write_iv@,
                    remote_key: remote_key@,
                    remote_iv: remote_write_iv@,
                })
            },
    {
        let algorithm: AeadAlgorithm = AeadAlgorithm::Aes128Gcm;
        let local_gcm: P::Aead = match provider.new_aead(algorithm, local_key) {
            Ok(cipher) => cipher,
            Err(error) => { return Err(crypto_error(error)); },
        };
        let remote_gcm: P::Aead = match provider.new_aead(algorithm, remote_key) {
            Ok(cipher) => cipher,
            Err(error) => { return Err(crypto_error(error)); },
        };
        Ok(
            CryptoGcm {
                provider,
                local_gcm,
                remote_gcm,
                local_write_iv: slice_to_vec(local_write_iv),
                remote_write_iv: slice_to_vec(remote_write_iv),
            },
        )
    }

    /// Protects one record with the given nonce, returning header plus ciphertext.
    pub fn seal(&mut self, pkt_rlh: &RecordLayerHeader, raw: &[u8], explicit: &[u8]) -> (result:
        Result<Vec<u8>, Error>)
        requires
            old(self).valid(),
            old(self)@.local_iv.len() >= 4,
            raw@.len() >= 13,
            explicit@.len() == 8,
        ensures
            final(self).valid(),
            final(self)@ == old(self)@,
            record_cipher::says(
                old(self)@.protected::<P::Aead>(*pkt_rlh, raw@, explicit@),
                result,
            ),
            raw@.len() - 13 <= AEAD_MAX_LEN ==> result is Ok,
            result is Ok ==> result->Ok_0@.len() == raw@.len() + 8
                + old(self)@.algorithm.tag_bytes(),
            result is Ok && record_cipher::headed_by(raw@, *pkt_rlh)
                ==> old(self)@.mirrored().unprotected::<P::Aead>(
                result->Ok_0@,
                Error::ErrRecordTooShortForTag,
            ) == Ok::<Seq<u8>, Error>(result->Ok_0@.take(13) + raw@.skip(13)),
    {
        protect::<P::Aead>(
            &mut self.local_gcm,
            self.local_write_iv.as_slice(),
            pkt_rlh,
            raw,
            explicit,
        )
    }

    /// Protects one record, returning header plus ciphertext. The nonce that it carries is drawn at
    /// random, and whoever has the key opens it: the header, with its new length, and the payload
    /// come back. Where there are no random bytes to be had, it fails.
    pub fn encrypt(&mut self, pkt_rlh: &RecordLayerHeader, raw: &[u8]) -> (result: Result<
        Vec<u8>,
        Error,
    >)
        requires
            old(self).valid(),
            old(self)@.local_iv.len() >= 4,
            raw@.len() >= 13,
        ensures
            final(self).valid(),
            final(self)@ == old(self)@,
            ({
                ||| result is Err && record_cipher::refused::<P>(result->Err_0)
                ||| exists|explicit: Seq<u8>| #[trigger]
                    record_cipher::says(
                        old(self)@.protected::<P::Aead>(*pkt_rlh, raw@, explicit),
                        result,
                    ) && explicit.len() == 8 && P::may_draw(explicit)
            }),
            raw@.len() - 13 <= AEAD_MAX_LEN ==> result is Ok || record_cipher::refused::<P>(
                result->Err_0,
            ),
            result is Ok ==> result->Ok_0@.len() == raw@.len() + 8
                + old(self)@.algorithm.tag_bytes(),
            result is Ok && record_cipher::headed_by(raw@, *pkt_rlh)
                ==> old(self)@.mirrored().unprotected::<P::Aead>(
                result->Ok_0@,
                Error::ErrRecordTooShortForTag,
            ) == Ok::<Seq<u8>, Error>(result->Ok_0@.take(13) + raw@.skip(13)),
    {
        let mut explicit: Vec<u8> = zeros(EXPLICIT_NONCE_LENGTH);
        match self.provider.fill(explicit.as_mut_slice()) {
            Ok(()) => {},
            Err(error) => { return Err(crypto_error(error)); },
        }
        self.seal(pkt_rlh, raw, explicit.as_slice())
    }

    /// Protects the record in `raw` in place, as [`Self::encrypt`] returns it.
    pub fn encrypt_in_place(&mut self, pkt_rlh: &RecordLayerHeader, raw: &mut Vec<u8>) -> (result:
        Result<(), Error>)
        requires
            old(self).valid(),
            old(self)@.local_iv.len() >= 4,
            old(raw)@.len() >= 13,
        ensures
            final(self).valid(),
            final(self)@ == old(self)@,
            ({
                ||| result is Err && record_cipher::refused::<P>(result->Err_0)
                ||| exists|explicit: Seq<u8>| #[trigger]
                    record_cipher::leaves(
                        old(self)@.protected::<P::Aead>(*pkt_rlh, old(raw)@, explicit),
                        result,
                        final(raw)@,
                    ) && explicit.len() == 8 && P::may_draw(explicit)
            }),
            old(raw)@.len() - 13 <= AEAD_MAX_LEN ==> result is Ok || record_cipher::refused::<P>(
                result->Err_0,
            ),
            result is Ok ==> final(raw)@.len() == old(raw)@.len() + 8
                + old(self)@.algorithm.tag_bytes(),
            result is Ok && record_cipher::headed_by(old(raw)@, *pkt_rlh)
                ==> old(self)@.mirrored().unprotected::<P::Aead>(
                final(raw)@,
                Error::ErrRecordTooShortForTag,
            ) == Ok::<Seq<u8>, Error>(final(raw)@.take(13) + old(raw)@.skip(13)),
    {
        let sealed: Result<Vec<u8>, Error> = self.encrypt(pkt_rlh, raw.as_slice());
        let ghost explicit = choose|explicit: Seq<u8>| #[trigger]
            record_cipher::says(
                old(self)@.protected::<P::Aead>(*pkt_rlh, old(raw)@, explicit),
                sealed,
            ) && explicit.len() == 8 && P::may_draw(explicit);
        match sealed {
            Ok(sealed) => {
                *raw = sealed;
                assert(record_cipher::leaves(
                    old(self)@.protected::<P::Aead>(*pkt_rlh, old(raw)@, explicit),
                    Ok(()),
                    raw@,
                ));
                Ok(())
            },
            Err(error) => {
                assert(record_cipher::refused::<P>(error) || record_cipher::leaves(
                    old(self)@.protected::<P::Aead>(*pkt_rlh, old(raw)@, explicit),
                    Err(error),
                    raw@,
                ));
                Err(error)
            },
        }
    }

    /// Unprotects one record.
    pub fn decrypt(&mut self, r: &[u8]) -> (result: Result<Vec<u8>, Error>)
        requires
            old(self).valid(),
            old(self)@.remote_iv.len() >= 4,
        ensures
            final(self).valid(),
            final(self)@ == old(self)@,
            record_cipher::says(
                old(self)@.unprotected::<P::Aead>(r@, Error::ErrRecordTooShortForTag),
                result,
            ),
    {
        unprotect::<P::Aead>(
            &mut self.remote_gcm,
            self.remote_write_iv.as_slice(),
            r,
            Error::ErrRecordTooShortForTag,
        )
    }

    /// Unprotects the record in `r` in place, leaving the header followed by the plaintext, as
    /// [`Self::decrypt`] returns it.
    pub fn decrypt_in_place(&mut self, r: &mut Vec<u8>) -> (result: Result<(), Error>)
        requires
            old(self).valid(),
            old(self)@.remote_iv.len() >= 4,
        ensures
            final(self).valid(),
            final(self)@ == old(self)@,
            record_cipher::leaves(
                old(self)@.unprotected::<P::Aead>(old(r)@, Error::ErrRecordTooShortForTag),
                result,
                final(r)@,
            ),
    {
        match self.decrypt(r.as_slice()) {
            Ok(opened) => {
                *r = opened;
                Ok(())
            },
            Err(error) => Err(error),
        }
    }
}

} // verus!
