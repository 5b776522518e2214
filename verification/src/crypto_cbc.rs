//! AES-CBC (cipher block chaining) record protection, with a separate keyed hash.

use crate::crypto::{
    constant_time_eq, CbcAlgorithm, CbcCipher, CryptoError, HmacAlgorithm, Mac, RTCCryptoProvider,
    HASH_MAX_LEN,
};
use crate::error::Error;
use crate::record::{append, ContentType, RecordLayerHeader};
use crate::record_cipher;
use crate::record_cipher::{
    assemble, authentication_error, crypto_error, generate_aead_additional_data, zeros,
};
use vstd::prelude::*;
use vstd::slice::slice_to_vec;

verus! {

/// Most bytes that AES-CBC adds to a record: the initialisation vector, the SHA-1 code and a full
/// block of padding.
pub const CRYPTO_CBC_OVERHEAD: usize = 52;

/// Bytes in a block.
pub const BLOCK_SIZE: usize = 16;

/// Bytes in the code.
pub const MAC_SIZE: usize = 20;

/// The padding after `n` bytes: as many bytes as fill the block, at least one, each of them the
/// number of bytes that come before the last.
pub open spec fn padding(n: int) -> Seq<u8> {
    let len = 16 - n % 16;
    Seq::new(len as nat, |i: int| (len - 1) as u8)
}

/// The code of a payload under the header `h`.
pub open spec fn record_code<M: Mac>(key: Seq<u8>, h: RecordLayerHeader, payload: Seq<u8>) -> Seq<
    u8,
> {
    M::code(key, record_cipher::additional_data(h, payload.len() as int) + payload)
}

/// `raw` protected with the initialisation vector `iv`, which stands between header and
/// ciphertext.
pub open spec fn cbc_protected<C: CbcCipher, M: Mac>(
    key: Seq<u8>,
    mac_key: Seq<u8>,
    h: RecordLayerHeader,
    raw: Seq<u8>,
    iv: Seq<u8>,
) -> Seq<u8> {
    let payload = raw.skip(13);
    let coded = payload + record_code::<M>(mac_key, h, payload);
    let body = iv + C::encrypted(key, iv, coded + padding(coded.len() as int));
    record_cipher::with_length(raw, body.len() as int) + body
}

/// The payload of decrypted blocks, if padding and code are what a sender makes them.
pub open spec fn cbc_payload<M: Mac>(
    mac_key: Seq<u8>,
    h: RecordLayerHeader,
    decrypted: Seq<u8>,
) -> Option<Seq<u8>> {
    let padding_len = decrypted.last() + 1;
    let coded_len = decrypted.len() - padding_len;
    let payload = decrypted.take(coded_len - 20);
    if coded_len < 20 {
        None
    } else if (forall|i: int|
        coded_len <= i < decrypted.len() ==> #[trigger] decrypted[i] == decrypted.last())
        && decrypted.subrange(coded_len - 20, coded_len) == record_code::<M>(mac_key, h, payload) {
        Some(payload)
    } else {
        None
    }
}

/// What a received record opens to.
pub open spec fn cbc_unprotected<C: CbcCipher, M: Mac>(
    key: Seq<u8>,
    mac_key: Seq<u8>,
    r: Seq<u8>,
) -> Result<Seq<u8>, Error> {
    let h = RecordLayerHeader::read(r);
    if r.len() < 13 {
        Err(Error::ErrBufferTooSmall)
    } else if h.content_type == ContentType::ChangeCipherSpec {
        Ok(r)
    } else if r.len() <= 29 || (r.len() - 29) % 16 != 0 {
        Err(Error::ErrInvalidPacketLength)
    } else {
        match cbc_payload::<M>(mac_key, h, C::decrypted(key, r.subrange(13, 29), r.skip(29))) {
            Some(payload) => Ok(r.take(13) + payload),
            None => Err(Error::ErrInvalidMac),
        }
    }
}

/// What a sender makes of a payload gives the payload back.
proof fn lemma_payload_back<M: Mac>(
    mac_key: Seq<u8>,
    h: RecordLayerHeader,
    payload: Seq<u8>,
    code: Seq<u8>,
)
    requires
        code == record_code::<M>(mac_key, h, payload),
        code.len() == 20,
    ensures
        ({
            let coded = payload + code;
            cbc_payload::<M>(mac_key, h, coded + padding(coded.len() as int)) == Some(payload)
        }),
{
    let coded = payload + code;
    let n = coded.len() as int;
    let whole = coded + padding(n);
    let len = 16 - n % 16;
    assert(whole.last() == (len - 1) as u8);
    assert(whole.len() - (whole.last() + 1) == n);
    assert(whole.take(n - 20) =~= payload);
    assert(whole.subrange(n - 20, n) =~= code);
}

/// The keys of both directions.
#[verifier::ext_equal]
pub struct CbcKeys {
    /// The key that encrypts what is sent.
    pub local_key: Seq<u8>,
    /// The key of the codes of what is sent.
    pub local_mac: Seq<u8>,
    /// The key that decrypts what is received.
    pub remote_key: Seq<u8>,
    /// The key of the codes of what is received.
    pub remote_mac: Seq<u8>,
}

/// AES-CBC encryption with a separate keyed hash for DTLS records, holding the keys of both
/// directions.
pub struct CryptoCbc<P: RTCCryptoProvider> {
    provider: P,
    local_cipher: P::Cbc,
    remote_cipher: P::Cbc,
    write_mac: P::Hmac,
    read_mac: P::Hmac,
}

impl<P: RTCCryptoProvider> View for CryptoCbc<P> {
    type V = CbcKeys;

    closed spec fn view(&self) -> CbcKeys {
        CbcKeys {
            local_key: self.local_cipher.key(),
            local_mac: self.write_mac.key(),
            remote_key: self.remote_cipher.key(),
            remote_mac: self.read_mac.key(),
        }
    }
}

impl<P: RTCCryptoProvider> CryptoCbc<P> {
    /// The keys fit the algorithm.
    pub closed spec fn valid(&self) -> bool {
        &&& self.local_cipher.valid()
        &&& self.remote_cipher.valid()
        &&& self.write_mac.key().len() <= HASH_MAX_LEN
        &&& self.read_mac.key().len() <= HASH_MAX_LEN
    }

    /// Builds the cipher from the local and remote keys.
    pub fn new(
        provider: P,
        local_key: &[u8],
        local_mac: &[u8],
        remote_key: &[u8],
        remote_mac: &[u8],
    ) -> (result: Result<CryptoCbc<P>, Error>)
        requires
            local_mac@.len() <= HASH_MAX_LEN,
            remote_mac@.len() <= HASH_MAX_LEN,
        ensures
            if local_key@.len() != 32 {
                result == Err::<CryptoCbc<P>, Error>(
                    Error::Crypto(
                        CryptoError::InvalidKeyLength {
                            expected: 32,
                            actual: local_key@.len() as usize,
                        },
                    ),
                )
            } else if remote_key@.len() != 32 {
                result == Err::<CryptoCbc<P>, Error>(
                    Error::Crypto(
                        CryptoError::InvalidKeyLength {
                            expected: 32,
                            actual: remote_key@.len() as usize,
                        },
                    ),
                )
            } else {
                &&& result matches Ok(built)
                &&& built.valid()
                &&& built@ == (CbcKeys {
                    local_key: local_key@,
                    local_mac: local_mac@,
                    remote_key: remote_key@,
                    remote_mac: remote_mac@,
                })
            },
    {
        let local_cipher: P::Cbc = match provider.new_cbc(CbcAlgorithm::Aes256Cbc, local_key) {
            Ok(cipher) => cipher,
            Err(error) => { return Err(crypto_error(error)); },
        };
        let remote_cipher: P::Cbc = match provider.new_cbc(CbcAlgorithm::Aes256Cbc, remote_key) {
            Ok(cipher) => cipher,
            Err(error) => { return Err(crypto_error(error)); },
        };
        let write_mac: P::Hmac = provider.new_hmac(HmacAlgorithm::Sha1, local_mac);
        let read_mac: P::Hmac = provider.new_hmac(HmacAlgorithm::Sha1, remote_mac);
        Ok(CryptoCbc { provider, local_cipher, remote_cipher, write_mac, read_mac })
    }

    /// Protects one record with the given initialisation vector, returning header plus ciphertext.
    pub fn seal(&mut self, pkt_rlh: &RecordLayerHeader, raw: &[u8], iv: &[u8]) -> (result: Result<
        Vec<u8>,
        Error,
    >)
        requires
            old(self).valid(),
            iv@.len() == 16,
            13 <= raw@.len() <= HASH_MAX_LEN,
            raw@.len() + CRYPTO_CBC_OVERHEAD + 16 <= usize::MAX,
        ensures
            final(self).valid(),
            final(self)@ == old(self)@,
            result matches Ok(r) && r@ == cbc_protected::<P::Cbc, P::Hmac>(
                old(self)@.local_key,
                old(self)@.local_mac,
                *pkt_rlh,
                raw@,
                iv@,
            ),
            result is Ok && result->Ok_0@.len() <= raw@.len() + CRYPTO_CBC_OVERHEAD,
            result is Ok && record_cipher::headed_by(raw@, *pkt_rlh) ==> cbc_unprotected::<
                P::Cbc,
                P::Hmac,
            >(old(self)@.local_key, old(self)@.local_mac, result->Ok_0@) == Ok::<Seq<u8>, Error>(
                result->Ok_0@.take(13) + raw@.skip(13),
            ),
    {
        let payload: &[u8] = &raw[13..raw.len()];
        let ghost plain = raw@.skip(13);
        assert(payload@ =~= plain);
        let head: Vec<u8> = generate_aead_additional_data(pkt_rlh, payload.len());
        let code: Vec<u8> = self.write_mac.compute(head.as_slice(), payload);
        let mut blocks: Vec<u8> = slice_to_vec(payload);
        append(&mut blocks, code.as_slice());
        let ghost coded = blocks@;
        let padding_len: usize = BLOCK_SIZE - blocks.len() % BLOCK_SIZE;
        let padding_value: u8 = (padding_len - 1) as u8;
        let mut i: usize = 0;
        assert(blocks@ =~= coded + padding(coded.len() as int).take(0));
        while i < padding_len
            invariant
                i <= padding_len,
                padding_len == 16 - coded.len() as int % 16,
                padding_value == padding_len - 1,
                blocks@ == coded + padding(coded.len() as int).take(i as int),
            decreases padding_len - i,
        {
            blocks.push(padding_value);
            i += 1;
            assert(blocks@ =~= coded + padding(coded.len() as int).take(i as int));
        }
        let ghost padded = blocks@;
        assert(padded =~= coded + padding(coded.len() as int));
        assert(padded.len() % 16 == 0) by {
            let n = coded.len() as int;
            assert((n + 16 - n % 16) % 16 == 0);
        }
        let encrypted: Result<(), CryptoError> = self.local_cipher.encrypt_blocks(
            iv,
            blocks.as_mut_slice(),
        );
        match encrypted {
            Ok(()) => {},
            Err(error) => { return Err(crypto_error(error)); },
        }
        let mut body: Vec<u8> = slice_to_vec(iv);
        append(&mut body, blocks.as_slice());
        let r: Vec<u8> = assemble(raw, body.as_slice());
        proof {
            if record_cipher::headed_by(raw@, *pkt_rlh) {
                record_cipher::lemma_patched_header(raw@, *pkt_rlh, body@);
                let read = RecordLayerHeader::read(r@);
                assert(r@.subrange(13, 29) =~= iv@);
                assert(r@.skip(29) =~= blocks@);
                assert(record_cipher::additional_data(read, plain.len() as int)
                    == record_cipher::additional_data(*pkt_rlh, plain.len() as int));
                lemma_payload_back::<P::Hmac>(self.write_mac.key(), read, plain, code@);
            }
        }
        Ok(r)
    }

    /// Protects one record, returning header plus ciphertext. The initialisation vector that it
    /// carries is drawn at random, and whoever has the keys opens it: the header, with its new
    /// length, and the payload come back. Where there are no random bytes to be had, it fails.
    pub fn encrypt(&mut self, pkt_rlh: &RecordLayerHeader, raw: &[u8]) -> (result: Result<
        Vec<u8>,
        Error,
    >)
        requires
            old(self).valid(),
            13 <= raw@.len() <= HASH_MAX_LEN,
            raw@.len() + CRYPTO_CBC_OVERHEAD + 16 <= usize::MAX,
        ensures
            final(self).valid(),
            final(self)@ == old(self)@,
            result is Err ==> record_cipher::refused::<P>(result->Err_0),
            result is Ok ==> exists|iv: Seq<u8>|
                result->Ok_0@ == #[trigger] cbc_protected::<P::Cbc, P::Hmac>(
                    old(self)@.local_key,
                    old(self)@.local_mac,
                    *pkt_rlh,
                    raw@,
                    iv,
                ) && iv.len() == 16 && P::may_draw(iv),
            result is Ok ==> result->Ok_0@.len() <= raw@.len() + CRYPTO_CBC_OVERHEAD,
            result is Ok && record_cipher::headed_by(raw@, *pkt_rlh) ==> cbc_unprotected::<P::Cbc, P::Hmac>(
                old(self)@.local_key,
                old(self)@.local_mac,
                result->Ok_0@,
            ) == Ok::<Seq<u8>, Error>(result->Ok_0@.take(13) + raw@.skip(13)),
    {
        let mut iv: Vec<u8> = zeros(BLOCK_SIZE);
        match self.provider.fill(iv.as_mut_slice()) {
            Ok(()) => {},
            Err(error) => { return Err(crypto_error(error)); },
        }
        self.seal(pkt_rlh, raw, iv.as_slice())
    }

    /// Protects the record in `raw` in place, as [`Self::encrypt`] returns it.
    pub fn encrypt_in_place(&mut self, pkt_rlh: &RecordLayerHeader, raw: &mut Vec<u8>) -> (result:
        Result<(), Error>)
        requires
            old(self).valid(),
            13 <= old(raw)@.len() <= HASH_MAX_LEN,
            old(raw)@.len() + CRYPTO_CBC_OVERHEAD + 16 <= usize::MAX,
        ensures
            final(self).valid(),
            final(self)@ == old(self)@,
            result is Err ==> record_cipher::refused::<P>(result->Err_0),
            result is Ok ==> exists|iv: Seq<u8>|
                final(raw)@ == #[trigger] cbc_protected::<P::Cbc, P::Hmac>(
                    old(self)@.local_key,
                    old(self)@.local_mac,
                    *pkt_rlh,
                    old(raw)@,
                    iv,
                ) && iv.len() == 16 && P::may_draw(iv),
            result is Ok ==> final(raw)@.len() <= old(raw)@.len() + CRYPTO_CBC_OVERHEAD,
            result is Ok && record_cipher::headed_by(old(raw)@, *pkt_rlh) ==> cbc_unprotected::<P::Cbc, P::Hmac>(
                old(self)@.local_key,
                old(self)@.local_mac,
                final(raw)@,
            ) == Ok::<Seq<u8>, Error>(final(raw)@.take(13) + old(raw)@.skip(13)),
    {
        match self.encrypt(pkt_rlh, raw.as_slice()) {
            Ok(sealed) => {
                *raw = sealed;
                Ok(())
            },
            Err(error) => Err(error),
        }
    }

    /// Decrypts `body` and checks its padding and code, returning the length of the payload that
    /// it then begins with.
    fn open(&mut self, h: &RecordLayerHeader, iv: &[u8], body: &mut Vec<u8>) -> (result: Result<
        usize,
        Error,
    >)
        requires
            old(self).valid(),
            iv@.len() == 16,
            0 < old(body)@.len() <= HASH_MAX_LEN - 13,
            old(body)@.len() <= usize::MAX - 29,
            old(body)@.len() % 16 == 0,
        ensures
            final(self).valid(),
            final(self)@ == old(self)@,
            final(body)@ == P::Cbc::decrypted(old(self)@.remote_key, iv@, old(body)@),
            match cbc_payload::<P::Hmac>(old(self)@.remote_mac, *h, final(body)@) {
                Some(payload) => result matches Ok(len) && len <= final(body)@.len()
                    && final(body)@.take(len as int) == payload,
                None => result == Err::<usize, Error>(Error::ErrInvalidMac),
            },
    {
        let decrypted: Result<(), CryptoError> = self.remote_cipher.decrypt_blocks(
            iv,
            body.as_mut_slice(),
        );
        match decrypted {
            Ok(()) => {},
            Err(error) => { return Err(authentication_error(error)); },
        }
        let len: usize = body.len();
        let padding_value: u8 = body[len - 1];
        let padding_len: usize = padding_value as usize + 1;
        if padding_len > len {
            return Err(Error::ErrInvalidMac);
        }
        let padding_start: usize = len - padding_len;
        let mut expected_padding: Vec<u8> = Vec::new();
        let mut i: usize = 0;
        while i < padding_len
            invariant
                i <= padding_len,
                expected_padding@ == Seq::new(i as nat, |j: int| padding_value),
            decreases padding_len - i,
        {
            expected_padding.push(padding_value);
            i += 1;
            assert(expected_padding@ =~= Seq::new(i as nat, |j: int| padding_value));
        }
        let padding_valid: bool = constant_time_eq(
            &body[padding_start..len],
            expected_padding.as_slice(),
        );
        proof {
            let tail = body@.subrange(padding_start as int, len as int);
            if padding_valid {
                assert forall|i: int| padding_start <= i < len implies #[trigger] body@[i]
                    == padding_value by {
                    assert(tail[i - padding_start] == expected_padding@[i - padding_start]);
                }
            } else if forall|i: int| padding_start <= i < len ==> #[trigger] body@[i]
                == padding_value {
                assert(tail =~= expected_padding@);
            }
        }
        if padding_start < MAC_SIZE {
            return Err(Error::ErrInvalidMac);
        }
        let payload_len: usize = padding_start - MAC_SIZE;
        let payload: &[u8] = &body[0..payload_len];
        assert(payload@ =~= body@.take(payload_len as int));
        let head: Vec<u8> = generate_aead_additional_data(h, payload_len);
        let code: Vec<u8> = self.read_mac.compute(head.as_slice(), payload);
        let code_valid: bool = constant_time_eq(
            &body[payload_len..padding_start],
            code.as_slice(),
        );
        if !padding_valid || !code_valid {
            return Err(Error::ErrInvalidMac);
        }
        Ok(payload_len)
    }

    /// Unprotects one record.
    pub fn decrypt(&mut self, r: &[u8]) -> (result: Result<Vec<u8>, Error>)
        requires
            old(self).valid(),
            r@.len() <= HASH_MAX_LEN,
        ensures
            final(self).valid(),
            final(self)@ == old(self)@,
            record_cipher::says(
                cbc_unprotected::<P::Cbc, P::Hmac>(
                    old(self)@.remote_key,
                    old(self)@.remote_mac,
                    r@,
                ),
                result,
            ),
    {
        let h: RecordLayerHeader = match RecordLayerHeader::unmarshal(r) {
            Ok(h) => h,
            Err(error) => { return Err(error); },
        };
        if h.content_type == ContentType::ChangeCipherSpec {
            // Nothing is encrypted in a change of cipher.
            return Ok(slice_to_vec(r));
        }
        if r.len() <= 29 || (r.len() - 29) % BLOCK_SIZE != 0 {
            return Err(Error::ErrInvalidPacketLength);
        }
        let mut body: Vec<u8> = slice_to_vec(&r[29..r.len()]);
        assert(body@ =~= r@.skip(29));
        match self.open(&h, &r[13..29], &mut body) {
            Ok(payload_len) => {
                let mut out: Vec<u8> = slice_to_vec(&r[0..13]);
                append(&mut out, &body[0..payload_len]);
                assert(body@.subrange(0, payload_len as int) =~= body@.take(payload_len as int));
                assert(out@ =~= r@.take(13) + body@.take(payload_len as int));
                Ok(out)
            },
            Err(error) => Err(error),
        }
    }

    /// Unprotects the record in `r` in place, leaving the header followed by the plaintext, as
    /// [`Self::decrypt`] returns it.
    pub fn decrypt_in_place(&mut self, r: &mut Vec<u8>) -> (result: Result<(), Error>)
        requires
            old(self).valid(),
            old(r)@.len() <= HASH_MAX_LEN,
        ensures
            final(self).valid(),
            final(self)@ == old(self)@,
            record_cipher::leaves(
                cbc_unprotected::<P::Cbc, P::Hmac>(
                    old(self)@.remote_key,
                    old(self)@.remote_mac,
                    old(r)@,
                ),
                result,
                final(r)@,
            ),
    {
        match self.decrypt(r.as_slice()) {
            Ok(opened) => {
                *r = opened;
                Ok(())
            },
            Err(error) => Err(error),
        }
    }
}

/// Padding fills the block: it has at least one byte and at most a block of them, and each says how
/// many come beside it.
pub proof fn law_padding_fills_the_block(n: int)
    requires
        n >= 0,
    ensures
        1 <= padding(n).len() <= 16,
        (n + padding(n).len()) % 16 == 0,
        forall|i: int| 0 <= i < padding(n).len() ==> #[trigger] padding(n)[i] == padding(n).len() - 1,
{
}

/// What is taken for a payload is one that a sender made: behind it stand its own code, under the
/// header of the record, and padding whose every byte says how long it is. Whatever else is decrypted
/// is refused.
pub proof fn law_payload_is_authentic<M: Mac>(
    mac_key: Seq<u8>,
    h: RecordLayerHeader,
    decrypted: Seq<u8>,
)
    requires
        decrypted.len() > 0,
    ensures
        cbc_payload::<M>(mac_key, h, decrypted) matches Some(payload) ==> {
            let code = M::code(
                mac_key,
                record_cipher::additional_data(h, payload.len() as int) + payload,
            );
            let coded = payload.len() as int + 20;
            &&& coded < decrypted.len()
            &&& decrypted.take(payload.len() as int) == payload
            &&& decrypted.subrange(payload.len() as int, coded) == code
            &&& forall|i: int|
                coded <= i < decrypted.len() ==> #[trigger] decrypted[i] == decrypted.len() - coded
                    - 1
        },
{
    match cbc_payload::<M>(mac_key, h, decrypted) {
        Some(payload) => {
            let padding_len = decrypted.last() + 1;
            let coded_len = decrypted.len() - padding_len;
            assert(payload.len() == coded_len - 20);
        },
        None => {},
    }
}

} // verus!
