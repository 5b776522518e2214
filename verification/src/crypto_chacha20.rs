//! ChaCha20-Poly1305 record protection.

use crate::crypto::{AeadAlgorithm, AeadCipher, CryptoError, RTCCryptoProvider, AEAD_MAX_LEN};
use crate::error::Error;
use crate::record;
use crate::record::{append, write_be16, write_be24, ContentType, RecordLayerHeader};
use crate::record_cipher;
use crate::record_cipher::{
    assemble, authentication_error, crypto_error, generate_aead_additional_data, zeros, RecordKeys,
};
use vstd::prelude::*;
use vstd::slice::slice_to_vec;

verus! {

/// Bytes that ChaCha20-Poly1305 adds to a record: the tag.
pub const CRYPTO_CHACHA20_OVERHEAD: usize = 16;

/// Bytes in the nonce.
const NONCE_LENGTH: usize = 12;

/// The nonce of a record: the last eight bytes of what the keys give are XORed with the epoch and
/// the sequence number.
pub open spec fn record_nonce(iv: Seq<u8>, epoch: u16, sequence_number: u64) -> Seq<u8> {
    let counter = record::to_be16(epoch as int) + record::to_be48(sequence_number as int);
    Seq::new(
        12,
        |i: int|
            if i < 4 {
                iv[i]
            } else {
                iv[i] ^ counter[i - 4]
            },
    )
}

/// `raw` protected: the ciphertext follows the header.
pub open spec fn chacha20_protected<A: AeadCipher>(
    key: Seq<u8>,
    iv: Seq<u8>,
    h: RecordLayerHeader,
    raw: Seq<u8>,
) -> Result<Seq<u8>, Error> {
    let payload = raw.skip(13);
    match A::sealed(
        AeadAlgorithm::ChaCha20Poly1305,
        key,
        record_nonce(iv, h.epoch, h.sequence_number),
        record_cipher::additional_data(h, payload.len() as int),
        payload,
    ) {
        Some((ciphertext, tag)) => {
            let body = ciphertext + tag;
            Ok(record_cipher::with_length(raw, body.len() as int) + body)
        },
        None => Err(Error::Crypto(CryptoError::AuthenticationFailed)),
    }
}

/// What a received record opens to.
pub open spec fn chacha20_unprotected<A: AeadCipher>(
    key: Seq<u8>,
    iv: Seq<u8>,
    r: Seq<u8>,
) -> Result<Seq<u8>, Error> {
    let h = RecordLayerHeader::read(r);
    if r.len() < 13 {
        Err(Error::ErrBufferTooSmall)
    } else if h.content_type == ContentType::ChangeCipherSpec {
        Ok(r)
    } else if r.len() - 13 < 16 {
        Err(Error::ErrInvalidMac)
    } else {
        match A::opened(
            AeadAlgorithm::ChaCha20Poly1305,
            key,
            record_nonce(iv, h.epoch, h.sequence_number),
            record_cipher::additional_data(h, r.len() - 29),
            r.subrange(13, r.len() - 16),
            r.skip(r.len() - 16),
        ) {
            Some(plaintext) => Ok(r.take(13) + plaintext),
            None => Err(Error::ErrInvalidMac),
        }
    }
}

/// XORs the epoch and the sequence number into the last eight bytes of a nonce.
fn noncegen(iv: &[u8], epoch: u16, seqnum: u64) -> (nonce: Vec<u8>)
    requires
        iv@.len() >= 12,
    ensures
        nonce@ == record_nonce(iv@, epoch, seqnum),
{
    let mut counter: Vec<u8> = Vec::new();
    write_be16(&mut counter, epoch);
    write_be24(&mut counter, (seqnum / 16777216 % 16777216) as u32);
    write_be24(&mut counter, (seqnum % 16777216) as u32);
    proof {
        record_cipher::lemma_be24_wraps(seqnum as int / 16777216);
        assert(counter@ =~= record::to_be16(epoch as int) + record::to_be48(seqnum as int));
    }
    let mut nonce: Vec<u8> = Vec::new();
    let mut i: usize = 0;
    while i < NONCE_LENGTH
        invariant
            i <= 12,
            iv@.len() >= 12,
            counter@ == record::to_be16(epoch as int) + record::to_be48(seqnum as int),
            counter@.len() == 8,
            nonce@ == record_nonce(iv@, epoch, seqnum).take(i as int),
        decreases 12 - i,
    {
        if i < 4 {
            nonce.push(iv[i]);
        } else {
            nonce.push(iv[i] ^ counter[i - 4]);
        }
        i += 1;
        assert(nonce@ =~= record_nonce(iv@, epoch, seqnum).take(i as int));
    }
    assert(nonce@ =~= record_nonce(iv@, epoch, seqnum));
    nonce
}

/// ChaCha20-Poly1305 authenticated encryption for DTLS records, holding the keys of both
/// directions.
pub struct CryptoChaCha20<P: RTCCryptoProvider> {
    local_cc: P::Aead,
    remote_cc: P::Aead,
    local_write_iv: Vec<u8>,
    remote_write_iv: Vec<u8>,
}

impl<P: RTCCryptoProvider> View for CryptoChaCha20<P> {
    type V = RecordKeys;

    closed spec fn view(&self) -> RecordKeys {
        RecordKeys {
            algorithm: self.local_cc.algorithm(),
            local_key: self.local_cc.key(),
            local_iv: self.local_write_iv@,
            remote_key: self.remote_cc.key(),
            remote_iv: self.remote_write_iv@,
        }
    }
}

impl<P: RTCCryptoProvider> CryptoChaCha20<P> {
    /// The keys fit the algorithm.
    pub closed spec fn valid(&self) -> bool {
        &&& self.local_cc.valid()
        &&& self.remote_cc.valid()
        &&& self.local_cc.algorithm() == AeadAlgorithm::ChaCha20Poly1305
        &&& self.remote_cc.algorithm() == AeadAlgorithm::ChaCha20Poly1305
    }

    /// Builds the cipher from the local and remote keys and salts.
    pub fn new(
        provider: P,
        local_key: &[u8],
        local_write_iv: &[u8],
        remote_key: &[u8],
        remote_write_iv: &[u8],
    ) -> (result: Result<CryptoChaCha20<P>, Error>)
        ensures
            if local_key@.len() != 32 {
                result == Err::<CryptoChaCha20<P>, Error>(
                    Error::Crypto(
                        CryptoError::InvalidKeyLength {
                            expected: 32,
                            actual: local_key@.len() as usize,
                        },
                    ),
                )
            } else if remote_key@.len() != 32 {
                result == Err::<CryptoChaCha20<P>, Error>(
                    Error::Crypto(
                        CryptoError::InvalidKeyLength {
                            expected: 32,
                            actual: remote_key@.len() as usize,
                        },
                    ),
                )
            } else {
                &&& result matches Ok(built)
                &&& built.valid()
                &&& built@ == (RecordKeys {
                    algorithm: AeadAlgorithm::ChaCha20Poly1305,
                    local_key: local_key@,
                    local_iv: local_write_iv@,
                    remote_key: remote_key@,
                    remote_iv: remote_write_iv@,
                })
            },
    {
        let algorithm: AeadAlgorithm = AeadAlgorithm::ChaCha20Poly1305;
        let local_cc: P::Aead = match provider.new_aead(algorithm, local_key) {
            Ok(cipher) => cipher,
            Err(error) => { return Err(crypto_error(error)); },
        };
        let remote_cc: P::Aead = match provider.new_aead(algorithm, remote_key) {
            Ok(cipher) => cipher,
            Err(error) => { return Err(crypto_error(error)); },
        };
        Ok(
            CryptoChaCha20 {
                local_cc,
                remote_cc,
                local_write_iv: slice_to_vec(local_write_iv),
                remote_write_iv: slice_to_vec(remote_write_iv),
            },
        )
    }

    /// Protects one record, returning header plus ciphertext. Whoever has the key opens it: the
    /// header, with its new length, and the payload come back.
    pub fn encrypt(&mut self, pkt_rlh: &RecordLayerHeader, raw: &[u8]) -> (result: Result<
        Vec<u8>,
        Error,
    >)
        requires
            old(self).valid(),
            old(self)@.local_iv.len() >= 12,
            raw@.len() >= 13,
        ensures
            final(self).valid(),
            final(self)@ == old(self)@,
            record_cipher::says(
                chacha20_protected::<P::Aead>(
                    old(self)@.local_key,
                    old(self)@.local_iv,
                    *pkt_rlh,
                    raw@,
                ),
                result,
            ),
            raw@.len() - 13 <= AEAD_MAX_LEN ==> result is Ok,
            result is Ok ==> result->Ok_0@.len() == raw@.len() + 16,
            result is Ok && record_cipher::headed_by(raw@, *pkt_rlh) ==> chacha20_unprotected::<
                P::Aead,
            >(old(self)@.local_key, old(self)@.local_iv, result->Ok_0@) == Ok::<Seq<u8>, Error>(
                result->Ok_0@.take(13) + raw@.skip(13),
            ),
    {
        let payload: &[u8] = &raw[13..raw.len()];
        let ghost plain = raw@.skip(13);
        assert(payload@ =~= plain);
        let nonce: Vec<u8> = noncegen(
            self.local_write_iv.as_slice(),
            pkt_rlh.epoch,
            pkt_rlh.sequence_number,
        );
        let aad: Vec<u8> = generate_aead_additional_data(pkt_rlh, payload.len());
        let mut data: Vec<u8> = slice_to_vec(payload);
        let mut tag: Vec<u8> = zeros(CRYPTO_CHACHA20_OVERHEAD);
        let sealed: Result<(), CryptoError> = self.local_cc.seal_in_place(
            nonce.as_slice(),
            aad.as_slice(),
            data.as_mut_slice(),
            tag.as_mut_slice(),
        );
        match sealed {
            Ok(()) => {},
            Err(error) => { return Err(crypto_error(error)); },
        }
        let ghost ciphertext = data@;
        append(&mut data, tag.as_slice());
        let r: Vec<u8> = assemble(raw, data.as_slice());
        proof {
            if record_cipher::headed_by(raw@, *pkt_rlh) {
                record_cipher::lemma_patched_header(raw@, *pkt_rlh, data@);
                let read = RecordLayerHeader::read(r@);
                assert(r@.subrange(13, r@.len() - 16) =~= ciphertext);
                assert(r@.skip(r@.len() - 16) =~= tag@);
                assert(record_cipher::additional_data(read, plain.len() as int)
                    == record_cipher::additional_data(*pkt_rlh, plain.len() as int));
                assert(r@.len() - 29 == plain.len());
            }
        }
        Ok(r)
    }

    /// Protects the record in `raw` in place, as [`Self::encrypt`] returns it.
    pub fn encrypt_in_place(&mut self, pkt_rlh: &RecordLayerHeader, raw: &mut Vec<u8>) -> (result:
        Result<(), Error>)
        requires
            old(self).valid(),
            old(self)@.local_iv.len() >= 12,
            old(raw)@.len() >= 13,
        ensures
            final(self).valid(),
            final(self)@ == old(self)@,
            record_cipher::leaves(
                chacha20_protected::<P::Aead>(
                    old(self)@.local_key,
                    old(self)@.local_iv,
                    *pkt_rlh,
                    old(raw)@,
                ),
                result,
                final(raw)@,
            ),
            old(raw)@.len() - 13 <= AEAD_MAX_LEN ==> result is Ok,
            result is Ok ==> final(raw)@.len() == old(raw)@.len() + 16,
            result is Ok && record_cipher::headed_by(old(raw)@, *pkt_rlh)
                ==> chacha20_unprotected::<P::Aead>(
                old(self)@.local_key,
                old(self)@.local_iv,
                final(raw)@,
            ) == Ok::<Seq<u8>, Error>(final(raw)@.take(13) + old(raw)@.skip(13)),
    {
        match self.encrypt(pkt_rlh, raw.as_slice()) {
            Ok(sealed) => {
                *raw = sealed;
                Ok(())
            },
            Err(error) => Err(error),
        }
    }

    /// Unprotects one record.
    pub fn decrypt(&mut self, r: &[u8]) -> (result: Result<Vec<u8>, Error>)
        requires
            old(self).valid(),
            old(self)@.remote_iv.len() == 12,
        ensures
            final(self).valid(),
            final(self)@ == old(self)@,
            record_cipher::says(
                chacha20_unprotected::<P::Aead>(old(self)@.remote_key, old(self)@.remote_iv, r@),
                result,
            ),
    {
        let h: RecordLayerHeader = match RecordLayerHeader::unmarshal(r) {
            Ok(h) => h,
            Err(error) => { return Err(error); },
        };
        if h.content_type == ContentType::ChangeCipherSpec {
            // Nothing is encrypted in a change of cipher.
            return Ok(slice_to_vec(r));
        }
        let nonce: Vec<u8> = noncegen(self.remote_write_iv.as_slice(), h.epoch, h.sequence_number);
        let out_len: usize = r.len() - 13;
        if out_len < CRYPTO_CHACHA20_OVERHEAD {
            return Err(Error::ErrInvalidMac);
        }
        let ciphertext_len: usize = out_len - CRYPTO_CHACHA20_OVERHEAD;
        let end: usize = r.len() - CRYPTO_CHACHA20_OVERHEAD;
        let aad: Vec<u8> = generate_aead_additional_data(&h, ciphertext_len);
        let mut data: Vec<u8> = slice_to_vec(&r[13..end]);
        let tag: &[u8] = &r[end..r.len()];
        assert(tag@ =~= r@.skip(end as int));
        let opened: Result<(), CryptoError> = self.remote_cc.open_in_place(
            nonce.as_slice(),
            aad.as_slice(),
            data.as_mut_slice(),
            tag,
        );
        match opened {
            Ok(()) => {},
            Err(error) => { return Err(authentication_error(error)); },
        }
        let mut out: Vec<u8> = slice_to_vec(&r[0..13]);
        append(&mut out, data.as_slice());
        assert(out@ =~= r@.take(13) + data@);
        Ok(out)
    }

    /// Unprotects the record in `r` in place, leaving the header followed by the plaintext, as
    /// [`Self::decrypt`] returns it.
    pub fn decrypt_in_place(&mut self, r: &mut Vec<u8>) -> (result: Result<(), Error>)
        requires
            old(self).valid(),
            old(self)@.remote_iv.len() == 12,
        ensures
            final(self).valid(),
            final(self)@ == old(self)@,
            record_cipher::leaves(
                chacha20_unprotected::<P::Aead>(
                    old(self)@.remote_key,
                    old(self)@.remote_iv,
                    old(r)@,
                ),
                result,
                final(r)@,
            ),
    {
        match self.decrypt(r.as_slice()) {
            Ok(opened) => {
                *r = opened;
                Ok(())
            },
            Err(error) => Err(error),
        }
    }
}

/// What a record's nonce is XORed with: its epoch and its number.
pub open spec fn counter(epoch: u16, number: u64) -> Seq<u8> {
    record::to_be16(epoch as int) + record::to_be48(number as int)
}

/// The epoch and the number can be read off what the nonce is XORed with.
#[verifier::spinoff_prover]
proof fn lemma_counter(epoch: u16, number: u64)
    requires
        number <= record::MAX_SEQUENCE_NUMBER,
    ensures
        ({
            let c = counter(epoch, number);
            &&& c.len() == 8
            &&& c[0] * 0x100 + c[1] == epoch
            &&& (c[2] * 0x1_0000 + c[3] * 0x100 + c[4]) * 0x100_0000 + (c[5] * 0x1_0000 + c[6]
                * 0x100 + c[7]) == number
        }),
{
    let c = counter(epoch, number);
    let s = number as int;
    assert(record::be24(c, 2) == s / 16777216);
    assert(record::be24(c, 5) == s % 16777216);
}

/// The nonce is what the keys give, with its last eight bytes XORed with the epoch in two bytes and
/// the number in six, the highest one first.
#[verifier::spinoff_prover]
pub proof fn law_nonce_layout(iv: Seq<u8>, epoch: u16, number: u64)
    requires
        iv.len() == 12,
        number <= record::MAX_SEQUENCE_NUMBER,
    ensures
        ({
            let nonce = record_nonce(iv, epoch, number);
            let c = counter(epoch, number);
            &&& nonce.len() == 12
            &&& nonce.take(4) == iv.take(4)
            &&& forall|i: int| 0 <= i < 8 ==> nonce[i + 4] == iv[i + 4] ^ #[trigger] c[i]
            &&& c.len() == 8
            &&& c[0] * 0x100 + c[1] == epoch
            &&& (c[2] * 0x1_0000 + c[3] * 0x100 + c[4]) * 0x100_0000 + (c[5] * 0x1_0000 + c[6]
                * 0x100 + c[7]) == number
        }),
{
    lemma_counter(epoch, number);
    assert(record_nonce(iv, epoch, number).take(4) =~= iv.take(4));
}

/// No two records have the same nonce: it tells their epochs and numbers.
#[verifier::spinoff_prover]
pub proof fn law_nonce_is_used_once(
    iv: Seq<u8>,
    one_epoch: u16,
    one: u64,
    other_epoch: u16,
    other: u64,
)
    requires
        iv.len() == 12,
        one <= record::MAX_SEQUENCE_NUMBER,
        other <= record::MAX_SEQUENCE_NUMBER,
        record_nonce(iv, one_epoch, one) == record_nonce(iv, other_epoch, other),
    ensures
        one_epoch == other_epoch,
        one == other,
{
    law_nonce_layout(iv, one_epoch, one);
    law_nonce_layout(iv, other_epoch, other);
    let a = counter(one_epoch, one);
    let b = counter(other_epoch, other);
    assert forall|i: int| 0 <= i < 8 implies a[i] == b[i] by {
        lemma_xor_tells(iv[i + 4], a[i], b[i]);
    }
}

proof fn lemma_xor_tells(k: u8, x: u8, y: u8)
    requires
        k ^ x == k ^ y,
    ensures
        x == y,
{
    assert(k ^ x == k ^ y ==> x == y) by (bit_vector);
}

} // verus!
