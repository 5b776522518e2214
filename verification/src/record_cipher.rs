//! What the record ciphers share: how a record is laid out around what a cipher makes of it.

use crate::crypto::{AeadAlgorithm, AeadCipher, CryptoError, RTCCryptoProvider, AEAD_MAX_LEN};
use crate::error::Error;
use crate::record;
use crate::record::{
    append, write_be16, write_be24, ContentType, RecordLayerHeader, MAX_SEQUENCE_NUMBER,
};
use vstd::prelude::*;
use vstd::slice::slice_to_vec;

verus! {

/// Bytes of the nonce that a record carries.
pub const EXPLICIT_NONCE_LENGTH: usize = 8;

/// What is authenticated beside a payload: the header with the length of the payload.
pub open spec fn additional_data(h: RecordLayerHeader, payload_len: int) -> Seq<u8> {
    record::to_be16(h.epoch as int) + record::to_be48(h.sequence_number as int) + seq![
        h.content_type.byte(),
        h.protocol_version.major,
        h.protocol_version.minor,
    ] + record::to_be16(payload_len)
}

/// A record's header with the length of what follows it set to `len`.
pub open spec fn with_length(header: Seq<u8>, len: int) -> Seq<u8> {
    header.take(11) + record::to_be16(len)
}

/// Whether a record's header gives the length of what follows it, as far as 16 bits hold it.
pub open spec fn framed(record: Seq<u8>) -> bool {
    record.len() >= 13 && record.subrange(11, 13) == record::to_be16(record.len() - 13)
}

/// Whether a record begins with `h`, whatever length it gives, and is one that is encrypted.
pub open spec fn headed_by(raw: Seq<u8>, h: RecordLayerHeader) -> bool {
    &&& raw.len() >= 13
    &&& raw.take(11) == h.bytes().take(11)
    &&& h.sequence_number <= MAX_SEQUENCE_NUMBER
    &&& h.content_type != ContentType::ChangeCipherSpec
    &&& h.content_type != ContentType::Invalid
}

/// The error that a cipher's refusal to seal is reported as.
pub fn crypto_error(error: CryptoError) -> (reported: Error)
    ensures
        reported == Error::Crypto(error),
{
    Error::Crypto(error)
}

/// The error that a cipher's refusal to open is reported as.
pub open spec fn refusal(error: CryptoError) -> Error {
    match error {
        CryptoError::AuthenticationFailed => Error::ErrInvalidMac,
        _ => Error::Crypto(error),
    }
}

/// The error that a cipher's refusal to open is reported as.
pub fn authentication_error(error: CryptoError) -> (reported: Error)
    ensures
        reported == refusal(error),
{
    match error {
        CryptoError::AuthenticationFailed => Error::ErrInvalidMac,
        _ => Error::Crypto(error),
    }
}

/// What is authenticated beside a payload: the header with the length of the payload.
pub fn generate_aead_additional_data(h: &RecordLayerHeader, payload_len: usize) -> (data: Vec<u8>)
    ensures
        data@ == additional_data(*h, payload_len as int),
        data@.len() == 13,
{
    let mut data: Vec<u8> = Vec::new();
    write_be16(&mut data, h.epoch);
    write_be24(&mut data, (h.sequence_number / 16777216 % 16777216) as u32);
    write_be24(&mut data, (h.sequence_number % 16777216) as u32);
    data.push(h.content_type.to_byte());
    data.push(h.protocol_version.major);
    data.push(h.protocol_version.minor);
    write_length(&mut data, payload_len);
    proof {
        let s = h.sequence_number as int;
        lemma_be24_wraps(s / 16777216);
        assert(data@ =~= additional_data(*h, payload_len as int));
    }
    data
}

/// The highest of the low three bytes of a number does not depend on what is above them.
proof fn lemma_high_byte(value: int)
    requires
        0 <= value,
    ensures
        value % 16777216 / 65536 == value / 65536 % 256,
{
    let high = value / 65536 % 256;
    let rest = value % 65536;
    vstd::arithmetic::div_mod::lemma_mod_breakdown(value, 65536, 256);
    vstd::arithmetic::div_mod::lemma_fundamental_div_mod_converse(
        65536 * high + rest,
        65536,
        high,
        rest,
    );
}

/// Nor does the middle one.
proof fn lemma_middle_byte(value: int)
    requires
        0 <= value,
    ensures
        value % 16777216 / 256 % 256 == value / 256 % 256,
{
    let upper = value / 256 % 65536;
    let rest = value % 256;
    vstd::arithmetic::div_mod::lemma_mod_breakdown(value, 256, 65536);
    vstd::arithmetic::div_mod::lemma_fundamental_div_mod_converse(
        256 * upper + rest,
        256,
        upper,
        rest,
    );
    vstd::arithmetic::div_mod::lemma_mod_mod(value / 256, 256, 256);
}

/// Only the low three bytes of a number are written.
pub proof fn lemma_be24_wraps(value: int)
    requires
        0 <= value,
    ensures
        record::to_be24(value % 16777216) == record::to_be24(value),
{
    lemma_high_byte(value);
    lemma_middle_byte(value);
    vstd::arithmetic::div_mod::lemma_mod_mod(value, 256, 65536);
    vstd::arithmetic::div_mod::lemma_mod_bound(value / 65536, 256);
    vstd::arithmetic::div_mod::lemma_small_mod((value / 65536 % 256) as nat, 256);
}

/// Appends the low two bytes of a length.
pub fn write_length(out: &mut Vec<u8>, len: usize)
    ensures
        final(out)@ == old(out)@ + record::to_be16(len as int),
{
    write_be16(out, (len % 65536) as u16);
    proof {
        let low = len as int % 65536;
        assert(low / 256 % 256 == len as int / 256 % 256);
        assert(low % 256 == len as int % 256);
    }
}

/// A record with the header of `raw`, the length set to that of `body`.
pub fn assemble(raw: &[u8], body: &[u8]) -> (out: Vec<u8>)
    requires
        raw@.len() >= 13,
    ensures
        out@ == with_length(raw@, body@.len() as int) + body@,
{
    let mut out: Vec<u8> = Vec::new();
    append(&mut out, &raw[0..11]);
    write_length(&mut out, body.len());
    append(&mut out, body);
    assert(raw@.subrange(0, 11) =~= raw@.take(11));
    assert(out@ =~= with_length(raw@, body@.len() as int) + body@);
    out
}

/// Patching the length of a record changes nothing else that its header says.
pub proof fn lemma_patched_header(raw: Seq<u8>, h: RecordLayerHeader, body: Seq<u8>)
    requires
        headed_by(raw, h),
    ensures
        ({
            let read = RecordLayerHeader::read(with_length(raw, body.len() as int) + body);
            &&& read.content_type == h.content_type
            &&& read.protocol_version == h.protocol_version
            &&& read.epoch == h.epoch
            &&& read.sequence_number == h.sequence_number
        }),
{
    let r = with_length(raw, body.len() as int) + body;
    let b = h.bytes();
    record::law_record_header_round_trip(h, Seq::empty());
    assert(h.bytes() + Seq::<u8>::empty() =~= h.bytes());
    assert forall|i: int| 0 <= i < 11 implies r[i] == b[i] by {
        assert(raw.take(11)[i] == b.take(11)[i]);
    }
}

/// The nonce of an authenticated cipher: what the keys give, then what the record carries.
pub open spec fn joined_nonce(iv: Seq<u8>, explicit: Seq<u8>) -> Seq<u8> {
    iv.take(4) + explicit
}

/// `raw` protected with the nonce `explicit`, which stands between header and ciphertext.
pub open spec fn protected<A: AeadCipher>(
    algorithm: AeadAlgorithm,
    key: Seq<u8>,
    iv: Seq<u8>,
    h: RecordLayerHeader,
    raw: Seq<u8>,
    explicit: Seq<u8>,
) -> Result<Seq<u8>, Error> {
    let payload = raw.skip(13);
    match A::sealed(
        algorithm,
        key,
        joined_nonce(iv, explicit),
        additional_data(h, payload.len() as int),
        payload,
    ) {
        Some((ciphertext, tag)) => {
            let body = explicit + ciphertext + tag;
            Ok(with_length(raw, body.len() as int) + body)
        },
        None => Err(Error::Crypto(CryptoError::AuthenticationFailed)),
    }
}

/// What a received record with a nonce between header and ciphertext opens to.
pub open spec fn unprotected<A: AeadCipher>(
    algorithm: AeadAlgorithm,
    key: Seq<u8>,
    iv: Seq<u8>,
    r: Seq<u8>,
    too_short: Error,
) -> Result<Seq<u8>, Error> {
    let h = RecordLayerHeader::read(r);
    let tag = algorithm.tag_bytes() as int;
    if r.len() < 13 {
        Err(Error::ErrBufferTooSmall)
    } else if h.content_type == ContentType::ChangeCipherSpec {
        Ok(r)
    } else if r.len() <= 21 {
        Err(Error::ErrNotEnoughRoomForNonce)
    } else if r.len() - 21 < tag {
        Err(too_short)
    } else {
        match A::opened(
            algorithm,
            key,
            joined_nonce(iv, r.subrange(13, 21)),
            additional_data(h, r.len() - 21 - tag),
            r.subrange(21, r.len() - tag),
            r.skip(r.len() - tag),
        ) {
            Some(plaintext) => Ok(r.take(13) + plaintext),
            None => Err(Error::ErrInvalidMac),
        }
    }
}

/// The keys of both directions of a connection.
#[verifier::ext_equal]
pub struct RecordKeys {
    /// The algorithm.
    pub algorithm: AeadAlgorithm,
    /// The key that protects what is sent.
    pub local_key: Seq<u8>,
    /// The part of the nonce that the keys give, of what is sent.
    pub local_iv: Seq<u8>,
    /// The key that opens what is received.
    pub remote_key: Seq<u8>,
    /// The part of the nonce that the keys give, of what is received.
    pub remote_iv: Seq<u8>,
}

impl RecordKeys {
    /// The keys at the other end.
    pub open spec fn mirrored(self) -> RecordKeys {
        RecordKeys {
            algorithm: self.algorithm,
            local_key: self.remote_key,
            local_iv: self.remote_iv,
            remote_key: self.local_key,
            remote_iv: self.local_iv,
        }
    }

    /// A record protected with these keys and the nonce `explicit`.
    pub open spec fn protected<A: AeadCipher>(
        self,
        h: RecordLayerHeader,
        raw: Seq<u8>,
        explicit: Seq<u8>,
    ) -> Result<Seq<u8>, Error> {
        protected::<A>(self.algorithm, self.local_key, self.local_iv, h, raw, explicit)
    }

    /// What a received record opens to with these keys.
    pub open spec fn unprotected<A: AeadCipher>(self, r: Seq<u8>, too_short: Error) -> Result<
        Seq<u8>,
        Error,
    > {
        unprotected::<A>(self.algorithm, self.remote_key, self.remote_iv, r, too_short)
    }
}

/// Whether a function returns what is specified.
pub open spec fn says(specified: Result<Seq<u8>, Error>, result: Result<Vec<u8>, Error>) -> bool {
    match result {
        Ok(bytes) => specified == Ok::<Seq<u8>, Error>(bytes@),
        Err(error) => specified == Err::<Seq<u8>, Error>(error),
    }
}

/// Whether an error is that there were no random bytes to be had.
pub open spec fn refused<P: RTCCryptoProvider>(error: Error) -> bool {
    error matches Error::Crypto(cause) && P::may_refuse(cause)
}

/// Whether a function that works in place leaves what is specified. Of a failure it leaves anything.
pub open spec fn leaves(
    specified: Result<Seq<u8>, Error>,
    result: Result<(), Error>,
    left: Seq<u8>,
) -> bool {
    match result {
        Ok(()) => specified == Ok::<Seq<u8>, Error>(left),
        Err(error) => specified == Err::<Seq<u8>, Error>(error),
    }
}

/// Protects one record with the given nonce. What was protected is opened by whoever has the key:
/// the header, with its new length, and the payload come back.
pub fn protect<A: AeadCipher>(
    cipher: &mut A,
    iv: &[u8],
    h: &RecordLayerHeader,
    raw: &[u8],
    explicit: &[u8],
) -> (result: Result<Vec<u8>, Error>)
    requires
        old(cipher).valid(),
        iv@.len() >= 4,
        explicit@.len() == 8,
        raw@.len() >= 13,
    ensures
        final(cipher).valid(),
        final(cipher).algorithm() == old(cipher).algorithm(),
        final(cipher).key() == old(cipher).key(),
        ({
            let specified = protected::<A>(
                old(cipher).algorithm(),
                old(cipher).key(),
                iv@,
                *h,
                raw@,
                explicit@,
            );
            match result {
                Ok(r) => specified == Ok::<Seq<u8>, Error>(r@),
                Err(error) => specified == Err::<Seq<u8>, Error>(error),
            }
        }),
        raw@.len() - 13 <= AEAD_MAX_LEN ==> result is Ok,
        result is Ok ==> result->Ok_0@.len() == raw@.len() + 8 + old(cipher).algorithm().tag_bytes(),
        forall|too_short: Error|
            result is Ok && headed_by(raw@, *h) ==> #[trigger] unprotected::<A>(
                old(cipher).algorithm(),
                old(cipher).key(),
                iv@,
                result->Ok_0@,
                too_short,
            ) == Ok::<Seq<u8>, Error>(result->Ok_0@.take(13) + raw@.skip(13)),
{
    let ghost algorithm = cipher.algorithm();
    let ghost key = cipher.key();
    let payload: &[u8] = &raw[13..raw.len()];
    let ghost plain = raw@.skip(13);
    assert(payload@ =~= plain);
    let mut nonce: Vec<u8> = slice_to_vec(&iv[0..4]);
    append(&mut nonce, explicit);
    assert(nonce@ =~= joined_nonce(iv@, explicit@));
    let aad: Vec<u8> = generate_aead_additional_data(h, payload.len());
    let mut data: Vec<u8> = slice_to_vec(payload);
    let mut tag: Vec<u8> = zeros(cipher.tag_len());
    let sealed: Result<(), CryptoError> = cipher.seal_in_place(
        nonce.as_slice(),
        aad.as_slice(),
        data.as_mut_slice(),
        tag.as_mut_slice(),
    );
    match sealed {
        Ok(()) => {},
        Err(error) => { return Err(crypto_error(error)); },
    }
    let mut body: Vec<u8> = slice_to_vec(explicit);
    append(&mut body, data.as_slice());
    append(&mut body, tag.as_slice());
    let r: Vec<u8> = assemble(raw, body.as_slice());
    proof {
        assert(body@ =~= explicit@ + data@ + tag@);
        if headed_by(raw@, *h) {
            lemma_patched_header(raw@, *h, body@);
            let read = RecordLayerHeader::read(r@);
            let n = tag@.len();
            assert(r@.subrange(13, 21) =~= explicit@);
            assert(r@.subrange(21, r@.len() - n) =~= data@);
            assert(r@.skip(r@.len() - n) =~= tag@);
            assert(additional_data(read, plain.len() as int) == additional_data(
                *h,
                plain.len() as int,
            ));
            assert(r@.len() - 21 - n == plain.len());
            if r@.len() <= 21 {
                assert(n > 0);
            }
        }
    }
    Ok(r)
}

/// `n` zero bytes.
pub fn zeros(n: usize) -> (bytes: Vec<u8>)
    ensures
        bytes@ == Seq::new(n as nat, |i: int| 0u8),
{
    let mut bytes: Vec<u8> = Vec::new();
    let mut i: usize = 0;
    while i < n
        invariant
            i <= n,
            bytes@ == Seq::new(i as nat, |j: int| 0u8),
        decreases n - i,
    {
        bytes.push(0);
        i += 1;
        assert(bytes@ =~= Seq::new(i as nat, |j: int| 0u8));
    }
    bytes
}

/// Opens one record.
pub fn unprotect<A: AeadCipher>(cipher: &mut A, iv: &[u8], r: &[u8], too_short: Error) -> (result:
    Result<Vec<u8>, Error>)
    requires
        old(cipher).valid(),
        iv@.len() >= 4,
    ensures
        final(cipher).valid(),
        final(cipher).algorithm() == old(cipher).algorithm(),
        final(cipher).key() == old(cipher).key(),
        ({
            let specified = unprotected::<A>(
                old(cipher).algorithm(),
                old(cipher).key(),
                iv@,
                r@,
                too_short,
            );
            match result {
                Ok(opened) => specified == Ok::<Seq<u8>, Error>(opened@),
                Err(error) => specified == Err::<Seq<u8>, Error>(error),
            }
        }),
{
    let h: RecordLayerHeader = match RecordLayerHeader::unmarshal(r) {
        Ok(h) => h,
        Err(error) => { return Err(error); },
    };
    if h.content_type == ContentType::ChangeCipherSpec {
        // Nothing is encrypted in a change of cipher.
        return Ok(slice_to_vec(r));
    }
    if r.len() <= 21 {
        return Err(Error::ErrNotEnoughRoomForNonce);
    }
    let tag_len: usize = cipher.tag_len();
    let out_len: usize = r.len() - 21;
    if out_len < tag_len {
        return Err(too_short);
    }
    let ciphertext_len: usize = out_len - tag_len;
    let end: usize = r.len() - tag_len;
    let mut nonce: Vec<u8> = slice_to_vec(&iv[0..4]);
    append(&mut nonce, &r[13..21]);
    assert(nonce@ =~= joined_nonce(iv@, r@.subrange(13, 21)));
    let aad: Vec<u8> = generate_aead_additional_data(&h, ciphertext_len);
    let mut data: Vec<u8> = slice_to_vec(&r[21..end]);
    let tag: &[u8] = &r[end..r.len()];
    assert(tag@ =~= r@.skip(end as int));
    let opened: Result<(), CryptoError> = cipher.open_in_place(
        nonce.as_slice(),
        aad.as_slice(),
        data.as_mut_slice(),
        tag,
    );
    match opened {
        Ok(()) => {},
        Err(error) => { return Err(authentication_error(error)); },
    }
    let mut out: Vec<u8> = slice_to_vec(&r[0..13]);
    append(&mut out, data.as_slice());
    assert(out@ =~= r@.take(13) + data@);
    Ok(out)
}

/// What is authenticated beside a payload says everything that a record's header does: its epoch and
/// number, its type, its version, and the length of the payload, in 13 bytes.
pub proof fn law_additional_data_layout(h: RecordLayerHeader, payload_len: int)
    requires
        h.sequence_number <= MAX_SEQUENCE_NUMBER,
        0 <= payload_len <= 0xffff,
    ensures
        ({
            let a = additional_data(h, payload_len);
            &&& a.len() == 13
            &&& a[0] * 0x100 + a[1] == h.epoch
            &&& a[2] * 0x100_0000_0000 + a[3] * 0x1_0000_0000 + a[4] * 0x100_0000 + a[5] * 0x1_0000
                + a[6] * 0x100 + a[7] == h.sequence_number
            &&& a[8] == h.content_type.byte()
            &&& a[9] == h.protocol_version.major
            &&& a[10] == h.protocol_version.minor
            &&& a[11] * 0x100 + a[12] == payload_len
        }),
{
    let a = additional_data(h, payload_len);
    let s = h.sequence_number as int;
    assert(record::be24(a, 2) == s / 16777216);
    assert(record::be24(a, 5) == s % 16777216);
}

/// Records that differ in epoch, number, type, version or length are authenticated apart: what was
/// sealed under one header is not what another one stands for.
pub proof fn law_additional_data_tells_headers_apart(
    one: RecordLayerHeader,
    other: RecordLayerHeader,
    one_len: int,
    other_len: int,
)
    requires
        one.sequence_number <= MAX_SEQUENCE_NUMBER,
        other.sequence_number <= MAX_SEQUENCE_NUMBER,
        0 <= one_len <= 0xffff,
        0 <= other_len <= 0xffff,
        additional_data(one, one_len) == additional_data(other, other_len),
    ensures
        one.epoch == other.epoch,
        one.sequence_number == other.sequence_number,
        one.content_type == other.content_type,
        one.protocol_version == other.protocol_version,
        one_len == other_len,
{
    law_additional_data_layout(one, one_len);
    law_additional_data_layout(other, other_len);
    record::law_content_types_have_their_numbers(one.content_type.byte());
    record::law_content_types_have_their_numbers(other.content_type.byte());
}

/// A protected record has the header that it had but for its length, then the nonce that it carries,
/// then what the cipher made of the payload, and its tag.
pub proof fn law_protected_record_layout<A: AeadCipher>(
    keys: RecordKeys,
    h: RecordLayerHeader,
    raw: Seq<u8>,
    explicit: Seq<u8>,
)
    requires
        raw.len() >= 13,
        explicit.len() == 8,
    ensures
        match A::sealed(
            keys.algorithm,
            keys.local_key,
            keys.local_iv.take(4) + explicit,
            additional_data(h, raw.len() - 13),
            raw.skip(13),
        ) {
            Some((ciphertext, tag)) => {
                &&& keys.protected::<A>(h, raw, explicit) matches Ok(sealed)
                &&& sealed.len() == 21 + ciphertext.len() + tag.len()
                &&& sealed.take(11) == raw.take(11)
                &&& (sealed.len() - 13 <= 0xffff ==> sealed[11] * 256 + sealed[12] == sealed.len()
                    - 13)
                &&& sealed.subrange(13, 21) == explicit
                &&& sealed.subrange(21, 21 + ciphertext.len() as int) == ciphertext
                &&& sealed.skip(21 + ciphertext.len() as int) == tag
            },
            None => keys.protected::<A>(h, raw, explicit) is Err,
        },
{
    match A::sealed(
        keys.algorithm,
        keys.local_key,
        keys.local_iv.take(4) + explicit,
        additional_data(h, raw.len() - 13),
        raw.skip(13),
    ) {
        Some((ciphertext, tag)) => {
            let sealed = keys.protected::<A>(h, raw, explicit)->Ok_0;
            let body = explicit + ciphertext + tag;
            assert(sealed == with_length(raw, body.len() as int) + body);
            assert(sealed.take(11) =~= raw.take(11));
            assert(sealed.subrange(13, 21) =~= explicit);
            assert(sealed.subrange(21, 21 + ciphertext.len() as int) =~= ciphertext);
            assert(sealed.skip(21 + ciphertext.len() as int) =~= tag);
        },
        None => {},
    }
}

/// The keys of one end are those of the other end the other way round: what one sends with, the other
/// receives with.
pub proof fn law_keys_are_mirrored(keys: RecordKeys)
    ensures
        keys.mirrored().remote_key == keys.local_key,
        keys.mirrored().remote_iv == keys.local_iv,
        keys.mirrored().local_key == keys.remote_key,
        keys.mirrored().local_iv == keys.remote_iv,
        keys.mirrored().algorithm == keys.algorithm,
        keys.mirrored().mirrored() == keys,
{
}

} // verus!
