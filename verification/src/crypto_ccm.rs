//! AES-CCM (Counter with CBC-MAC) record protection.

use crate::crypto::{AeadAlgorithm, AeadCipher, CryptoError, RTCCryptoProvider, AEAD_MAX_LEN};
use crate::error::Error;
use crate::record::RecordLayerHeader;
use crate::record_cipher;
use crate::record_cipher::{
    crypto_error, protect, unprotect, zeros, RecordKeys, EXPLICIT_NONCE_LENGTH,
};
use vstd::prelude::*;
use vstd::slice::slice_to_vec;

verus! {

/// Most bytes that AES-CCM adds to a record: the explicit nonce and a full-length tag.
pub const CRYPTO_CCM_OVERHEAD: usize = 24;

/// The authentication tag length that a CCM suite uses.
#[derive(Debug, Clone, Copy, PartialEq, Eq, Structural)]
pub enum CryptoCcmTagLen {
    /// An 8-byte tag, as the `_CCM_8` suites use.
    CryptoCcm8TagLength,
    /// The full 16-byte tag.
    CryptoCcmTagLength,
}

impl CryptoCcmTagLen {
    /// The algorithm with that length of tag.
    pub open spec fn algorithm(self) -> AeadAlgorithm {
        match self {
            CryptoCcmTagLen::CryptoCcmTagLength => AeadAlgorithm::Aes128Ccm,
            CryptoCcmTagLen::CryptoCcm8TagLength => AeadAlgorithm::Aes128Ccm8,
        }
    }
}

/// AES-CCM authenticated encryption for DTLS records, holding the keys of both directions.
pub struct CryptoCcm<P: RTCCryptoProvider> {
    provider: P,
    local_ccm: P::Aead,
    remote_ccm: P::Aead,
    local_write_iv: Vec<u8>,
    remote_write_iv: Vec<u8>,
}

impl<P: RTCCryptoProvider> View for CryptoCcm<P> {
    type V = RecordKeys;

    closed spec fn view(&self) -> RecordKeys {
        RecordKeys {
            algorithm: self.local_ccm.algorithm(),
            local_key: self.local_ccm.key(),
            local_iv: self.local_write_iv@,
            remote_key: self.remote_ccm.key(),
            remote_iv: self.remote_write_iv@,
        }
    }
}

impl<P: RTCCryptoProvider> CryptoCcm<P> {
    /// The keys fit the algorithm.
    pub closed spec fn valid(&self) -> bool {
        &&& self.local_ccm.valid()
        &&& self.remote_ccm.valid()
        &&& self.local_ccm.algorithm() == AeadAlgorithm::Aes128Ccm || self.local_ccm.algorithm()
            == AeadAlgorithm::Aes128Ccm8
        &&& self.remote_ccm.algorithm() == self.local_ccm.algorithm()
    }

    /// Builds the cipher from the local and remote keys and salts.
    pub fn new(
        provider: P,
        tag_len: &CryptoCcmTagLen,
        local_key: &[u8],
        local_write_iv: &[u8],
        remote_key: &[u8],
        remote_write_iv: &[u8],
    ) -> (result: Result<CryptoCcm<P>, Error>)
        ensures
            if local_key@.len() != 16 {
                result == Err::<CryptoCcm<P>, Error>(
                    Error::Crypto(
                        CryptoError::InvalidKeyLength {
                            expected: 16,
                            actual: local_key@.len() as usize,
                        },
                    ),
                )
            } else if remote_key@.len() != 16 {
                result == Err::<CryptoCcm<P>, Error>(
                    Error::Crypto(
                        CryptoError::InvalidKeyLength {
                            expected: 16,
                            actual: remote_key@.len() as usize,
                        },
                    ),
                )
            } else {
                &&& result matches Ok(built)
                &&& built.valid()
                &&& built@ == (RecordKeys {
                    algorithm: tag_len.algorithm(),
                    local_key: local_key@,
                    local_iv: local_write_iv@,
                    remote_key: remote_key@,
                    remote_iv: remote_write_iv@,
                })
            },
    {
        let algorithm: AeadAlgorithm = match tag_len {
            CryptoCcmTagLen::CryptoCcmTagLength => AeadAlgorithm::Aes128Ccm,
            CryptoCcmTagLen::CryptoCcm8TagLength => AeadAlgorithm::Aes128Ccm8,
        };
        let local_ccm: P::Aead = match provider.new_aead(algorithm, local_key) {
            Ok(cipher) => cipher,
            Err(error) => { return Err(crypto_error(error)); },
        };
        let remote_ccm: P::Aead = match provider.new_aead(algorithm, remote_key) {
            Ok(cipher) => cipher,
            Err(error) => { return Err(crypto_error(error)); },
        };
        Ok(
            CryptoCcm {
                provider,
                local_ccm,
                remote_ccm,
                local_write_iv: slice_to_vec(local_write_iv),
                remote_write_iv: slice_to_vec(remote_write_iv),
            },
        )
    }

    /// Protects one record with the given nonce, returning header plus ciphertext.
    pub fn seal(&mut self, pkt_rlh: &RecordLayerHeader, raw: &[u8], explicit: &[u8]) -> (result:
        Result<Vec<u8>, Error>)
        requires
            old(self).valid(),
            old(self)@.local_iv.len() >= 4,
            raw@.len() >= 13,
            explicit@.len() == 8,
        ensures
            final(self).valid(),
            final(self)@ == old(self)@,
            record_cipher::says(
                old(self)@.protected::<P::Aead>(*pkt_rlh, raw@, explicit@),
                result,
            ),
            raw@.len() - 13 <= AEAD_MAX_LEN ==> result is Ok,
            result is Ok ==> result->Ok_0@.len() == raw@.len() + 8
                + old(self)@.algorithm.tag_bytes(),
            result is Ok && record_cipher::headed_by(raw@, *pkt_rlh)
                ==> old(self)@.mirrored().unprotected::<P::Aead>(
                result->Ok_0@,
                Error::ErrInvalidMac,
            ) == Ok::<Seq<u8>, Error>(result->Ok_0@.take(13) + raw@.skip(13)),
    {
        protect::<P::Aead>(
            &mut self.local_ccm,
            self.local_write_iv.as_slice(),
            pkt_rlh,
            raw,
            explicit,
        )
    }

    /// Protects one record, returning header plus ciphertext. The nonce that it carries is drawn at
    /// random, and whoever has the key opens it: the header, with its new length, and the payload
    /// come back. Where there are no random bytes to be had, it fails.
    pub fn encrypt(&mut self, pkt_rlh: &RecordLayerHeader, raw: &[u8]) -> (result: Result<
        Vec<u8>,
        Error,
    >)
        requires
            old(self).valid(),
            old(self)@.local_iv.len() >= 4,
            raw@.len() >= 13,
        ensures
            final(self).valid(),
            final(self)@ == old(self)@,
            ({
                ||| result is Err && record_cipher::refused::<P>(result->Err_0)
                ||| exists|explicit: Seq<u8>| #[trigger]
                    record_cipher::says(
                        old(self)@.protected::<P::Aead>(*pkt_rlh, raw@, explicit),
                        result,
                    ) && explicit.len() == 8 && P::may_draw(explicit)
            }),
            raw@.len() - 13 <= AEAD_MAX_LEN ==> result is Ok || record_cipher::refused::<P>(
                result->Err_0,
            ),
            result is Ok ==> result->Ok_0@.len() == raw@.len() + 8
                + old(self)@.algorithm.tag_bytes(),
            result is Ok && record_cipher::headed_by(raw@, *pkt_rlh)
                ==> old(self)@.mirrored().unprotected::<P::Aead>(
                result->Ok_0@,
                Error::ErrInvalidMac,
            ) == Ok::<Seq<u8>, Error>(result->Ok_0@.take(13) + raw@.skip(13)),
    {
        let mut explicit: Vec<u8> = zeros(EXPLICIT_NONCE_LENGTH);
        match self.provider.fill(explicit.as_mut_slice()) {
            Ok(()) => {},
            Err(error) => { return Err(crypto_error(error)); },
        }
        self.seal(pkt_rlh, raw, explicit.as_slice())
    }

    /// Protects the record in `raw` in place, as [`Self::encrypt`] returns it.
    pub fn encrypt_in_place(&mut self, pkt_rlh: &RecordLayerHeader, raw: &mut Vec<u8>) -> (result:
        Result<(), Error>)
        requires
            old(self).valid(),
            old(self)@.local_iv.len() >= 4,
            old(raw)@.len() >= 13,
        ensures
            final(self).valid(),
            final(self)@ == old(self)@,
            ({
                ||| result is Err && record_cipher::refused::<P>(result->Err_0)
                ||| exists|explicit: Seq<u8>| #[trigger]
                    record_cipher::leaves(
                        old(self)@.protected::<P::Aead>(*pkt_rlh, old(raw)@, explicit),
                        result,
                        final(raw)@,
                    ) && explicit.len() == 8 && P::may_draw(explicit)
            }),
            old(raw)@.len() - 13 <= AEAD_MAX_LEN ==> result is Ok || record_cipher::refused::<P>(
                result->Err_0,
            ),
            result is Ok ==> final(raw)@.len() == old(raw)@.len() + 8
                + old(self)@.algorithm.tag_bytes(),
            result is Ok && record_cipher::headed_by(old(raw)@, *pkt_rlh)
                ==> old(self)@.mirrored().unprotected::<P::Aead>(
                final(raw)@,
                Error::ErrInvalidMac,
            ) == Ok::<Seq<u8>, Error>(final(raw)@.take(13) + old(raw)@.skip(13)),
    {
        let sealed: Result<Vec<u8>, Error> = self.encrypt(pkt_rlh, raw.as_slice());
        let ghost explicit = choose|explicit: Seq<u8>| #[trigger]
            record_cipher::says(
                old(self)@.protected::<P::Aead>(*pkt_rlh, old(raw)@, explicit),
                sealed,
            ) && explicit.len() == 8 && P::may_draw(explicit);
        match sealed {
            Ok(sealed) => {
                *raw = sealed;
                assert(record_cipher::leaves(
                    old(self)@.protected::<P::Aead>(*pkt_rlh, old(raw)@, explicit),
                    Ok(()),
                    raw@,
                ));
                Ok(())
            },
            Err(error) => {
                assert(record_cipher::refused::<P>(error) || record_cipher::leaves(
                    old(self)@.protected::<P::Aead>(*pkt_rlh, old(raw)@, explicit),
                    Err(error),
                    raw@,
                ));
                Err(error)
            },
        }
    }

    /// Unprotects one record.
    pub fn decrypt(&mut self, r: &[u8]) -> (result: Result<Vec<u8>, Error>)
        requires
            old(self).valid(),
            old(self)@.remote_iv.len() >= 4,
        ensures
            final(self).valid(),
            final(self)@ == old(self)@,
            record_cipher::says(
                old(self)@.unprotected::<P::Aead>(r@, Error::ErrInvalidMac),
                result,
            ),
    {
        unprotect::<P::Aead>(
            &mut self.remote_ccm,
            self.remote_write_iv.as_slice(),
            r,
            Error::ErrInvalidMac,
        )
    }

    /// Unprotects the record in `r` in place, leaving the header followed by the plaintext, as
    /// [`Self::decrypt`] returns it.
    pub fn decrypt_in_place(&mut self, r: &mut Vec<u8>) -> (result: Result<(), Error>)
        requires
            old(self).valid(),
            old(self)@.remote_iv.len() >= 4,
        ensures
            final(self).valid(),
            final(self)@ == old(self)@,
            record_cipher::leaves(
                old(self)@.unprotected::<P::Aead>(old(r)@, Error::ErrInvalidMac),
                result,
                final(r)@,
            ),
    {
        match self.decrypt(r.as_slice()) {
            Ok(opened) => {
                *r = opened;
                Ok(())
            },
            Err(error) => Err(error),
        }
    }
}

} // verus!
