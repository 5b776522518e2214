//! The headers of DTLS records and handshake messages.

use crate::error::Error;
use vstd::prelude::*;

verus! {

/// Bytes in a record header.
pub const RECORD_LAYER_HEADER_SIZE: usize = 13;

/// Bytes in a handshake header.
pub const HANDSHAKE_HEADER_LENGTH: usize = 12;

/// The largest record sequence number: 48 bits.
pub const MAX_SEQUENCE_NUMBER: u64 = 0x0000_FFFF_FFFF_FFFF;

/// What a record holds.
#[derive(Debug, Clone, Copy, PartialEq, Eq, Structural)]
pub enum ContentType {
    /// A switch to the negotiated cipher.
    ChangeCipherSpec,
    /// An alert.
    Alert,
    /// Handshake messages or fragments of them.
    Handshake,
    /// Application data.
    ApplicationData,
    /// Something unknown.
    Invalid,
}

impl ContentType {
    /// The content type that a byte stands for.
    pub open spec fn of(byte: u8) -> ContentType {
        if byte == 20 {
            ContentType::ChangeCipherSpec
        } else if byte == 21 {
            ContentType::Alert
        } else if byte == 22 {
            ContentType::Handshake
        } else if byte == 23 {
            ContentType::ApplicationData
        } else {
            ContentType::Invalid
        }
    }

    /// The byte that stands for a content type.
    pub open spec fn byte(self) -> u8 {
        match self {
            ContentType::ChangeCipherSpec => 20,
            ContentType::Alert => 21,
            ContentType::Handshake => 22,
            ContentType::ApplicationData => 23,
            ContentType::Invalid => 24,
        }
    }

    /// The content type that a byte stands for.
    pub fn from_byte(byte: u8) -> (content_type: ContentType)
        ensures
            content_type == ContentType::of(byte),
    {
        match byte {
            20 => ContentType::ChangeCipherSpec,
            21 => ContentType::Alert,
            22 => ContentType::Handshake,
            23 => ContentType::ApplicationData,
            _ => ContentType::Invalid,
        }
    }

    /// The byte that stands for a content type.
    pub fn to_byte(&self) -> (byte: u8)
        ensures
            byte == self.byte(),
    {
        match self {
            ContentType::ChangeCipherSpec => 20,
            ContentType::Alert => 21,
            ContentType::Handshake => 22,
            ContentType::ApplicationData => 23,
            ContentType::Invalid => 24,
        }
    }
}

/// A protocol version as it stands in a record.
#[derive(Debug, Clone, Copy, PartialEq, Eq, Structural)]
pub struct ProtocolVersion {
    /// The first byte.
    pub major: u8,
    /// The second byte.
    pub minor: u8,
}

/// DTLS 1.2.
pub open spec fn dtls_1_2() -> ProtocolVersion {
    ProtocolVersion { major: 0xfe, minor: 0xfd }
}

/// DTLS 1.2.
pub fn protocol_version1_2() -> (version: ProtocolVersion)
    ensures
        version == dtls_1_2(),
{
    ProtocolVersion { major: 0xfe, minor: 0xfd }
}

/// Two bytes as a number, the higher one first.
pub open spec fn be16(bytes: Seq<u8>, at: int) -> int {
    bytes[at] * 256 + bytes[at + 1]
}

/// Three bytes as a number, the highest one first.
pub open spec fn be24(bytes: Seq<u8>, at: int) -> int {
    bytes[at] * 65536 + bytes[at + 1] * 256 + bytes[at + 2]
}

/// Six bytes as a number, the highest one first.
pub open spec fn be48(bytes: Seq<u8>, at: int) -> int {
    be24(bytes, at) * 16777216 + be24(bytes, at + 3)
}

/// A number as two bytes, the higher one first.
pub open spec fn to_be16(value: int) -> Seq<u8> {
    seq![(value / 256 % 256) as u8, (value % 256) as u8]
}

/// A number as three bytes, the highest one first.
pub open spec fn to_be24(value: int) -> Seq<u8> {
    seq![(value / 65536 % 256) as u8, (value / 256 % 256) as u8, (value % 256) as u8]
}

/// A number as six bytes, the highest one first.
pub open spec fn to_be48(value: int) -> Seq<u8> {
    to_be24(value / 16777216) + to_be24(value % 16777216)
}

/// Reads two bytes.
pub fn read_be16(bytes: &[u8], at: usize) -> (value: u16)
    requires
        at + 2 <= bytes@.len(),
    ensures
        value == be16(bytes@, at as int),
{
    bytes[at] as u16 * 256 + bytes[at + 1] as u16
}

/// Reads three bytes.
pub fn read_be24(bytes: &[u8], at: usize) -> (value: u32)
    requires
        at + 3 <= bytes@.len(),
    ensures
        value == be24(bytes@, at as int),
        value <= 0xff_ffff,
{
    bytes[at] as u32 * 65536 + bytes[at + 1] as u32 * 256 + bytes[at + 2] as u32
}

/// Appends two bytes.
pub fn write_be16(out: &mut Vec<u8>, value: u16)
    ensures
        final(out)@ == old(out)@ + to_be16(value as int),
{
    out.push((value / 256) as u8);
    out.push((value % 256) as u8);
    assert(out@ =~= old(out)@ + to_be16(value as int));
}

/// Appends the low three bytes.
pub fn write_be24(out: &mut Vec<u8>, value: u32)
    ensures
        final(out)@ == old(out)@ + to_be24(value as int),
{
    out.push((value / 65536 % 256) as u8);
    out.push((value / 256 % 256) as u8);
    out.push((value % 256) as u8);
    assert(out@ =~= old(out)@ + to_be24(value as int));
}

/// Appends bytes.
pub fn append(out: &mut Vec<u8>, bytes: &[u8])
    ensures
        final(out)@ == old(out)@ + bytes@,
{
    let mut i: usize = 0;
    while i < bytes.len()
        invariant
            i <= bytes@.len(),
            out@ == old(out)@ + bytes@.subrange(0, i as int),
        decreases bytes@.len() - i,
    {
        out.push(bytes[i]);
        i = i + 1;
    }
    assert(bytes@.subrange(0, bytes@.len() as int) =~= bytes@);
}

/// The header of a record.
#[derive(Debug, Clone, Copy, PartialEq, Eq, Structural)]
pub struct RecordLayerHeader {
    /// What the record holds.
    pub content_type: ContentType,
    /// The protocol version.
    pub protocol_version: ProtocolVersion,
    /// Counts the changes of cipher.
    pub epoch: u16,
    /// Counts the records of an epoch.
    pub sequence_number: u64,
    /// Bytes that follow the header.
    pub content_len: u16,
}

impl RecordLayerHeader {
    /// The header as it stands in a record.
    pub open spec fn bytes(self) -> Seq<u8> {
        seq![self.content_type.byte(), self.protocol_version.major, self.protocol_version.minor]
            + to_be16(self.epoch as int) + to_be48(self.sequence_number as int) + to_be16(
            self.content_len as int,
        )
    }

    /// The header that a record begins with.
    pub open spec fn read(bytes: Seq<u8>) -> RecordLayerHeader {
        RecordLayerHeader {
            content_type: ContentType::of(bytes[0]),
            protocol_version: ProtocolVersion { major: bytes[1], minor: bytes[2] },
            epoch: be16(bytes, 3) as u16,
            sequence_number: be48(bytes, 5) as u64,
            content_len: be16(bytes, 11) as u16,
        }
    }

    /// Appends the header to `out`. A sequence number of more than 48 bits is refused.
    pub fn marshal(&self, out: &mut Vec<u8>) -> (result: Result<(), Error>)
        ensures
            match result {
                Ok(()) => self.sequence_number <= MAX_SEQUENCE_NUMBER && final(out)@ == old(out)@
                    + self.bytes(),
                Err(e) => e == Error::ErrSequenceNumberOverflow && self.sequence_number
                    > MAX_SEQUENCE_NUMBER && final(out)@ == old(out)@,
            },
    {
        if self.sequence_number > MAX_SEQUENCE_NUMBER {
            return Err(Error::ErrSequenceNumberOverflow);
        }
        out.push(self.content_type.to_byte());
        out.push(self.protocol_version.major);
        out.push(self.protocol_version.minor);
        write_be16(out, self.epoch);
        write_be24(out, (self.sequence_number / 16777216) as u32);
        write_be24(out, (self.sequence_number % 16777216) as u32);
        write_be16(out, self.content_len);
        assert(out@ =~= old(out)@ + self.bytes());
        Ok(())
    }

    /// Reads the header that `bytes` begins with.
    pub fn unmarshal(bytes: &[u8]) -> (header: Result<RecordLayerHeader, Error>)
        ensures
            match header {
                Ok(header) => bytes@.len() >= 13 && header == RecordLayerHeader::read(bytes@)
                    && header.sequence_number <= MAX_SEQUENCE_NUMBER,
                Err(e) => e == Error::ErrBufferTooSmall && bytes@.len() < 13,
            },
    {
        if bytes.len() < RECORD_LAYER_HEADER_SIZE {
            return Err(Error::ErrBufferTooSmall);
        }
        let high: u32 = read_be24(bytes, 5);
        let low: u32 = read_be24(bytes, 8);
        Ok(
            RecordLayerHeader {
                content_type: ContentType::from_byte(bytes[0]),
                protocol_version: ProtocolVersion { major: bytes[1], minor: bytes[2] },
                epoch: read_be16(bytes, 3),
                sequence_number: high as u64 * 16777216 + low as u64,
                content_len: read_be16(bytes, 11),
            },
        )
    }
}

/// A record header that was written is read back.
pub proof fn law_record_header_round_trip(header: RecordLayerHeader, rest: Seq<u8>)
    requires
        header.sequence_number <= MAX_SEQUENCE_NUMBER,
        header.content_type != ContentType::Invalid,
    ensures
        header.bytes().len() == RECORD_LAYER_HEADER_SIZE,
        RecordLayerHeader::read(header.bytes() + rest) == header,
{
    let b = header.bytes() + rest;
    let s = header.sequence_number as int;
    assert(b[0] == header.content_type.byte());
    assert(be16(b, 3) == header.epoch);
    assert(be24(b, 5) == s / 16777216);
    assert(be24(b, 8) == s % 16777216);
    assert(be16(b, 11) == header.content_len);
}

/// What a handshake message is.
#[derive(Debug, Clone, Copy, PartialEq, Eq, Structural, Hash)]
pub enum HandshakeType {
    /// A request to begin anew.
    HelloRequest,
    /// The client's opening message.
    ClientHello,
    /// The server's choice.
    ServerHello,
    /// A request to repeat the opening with a cookie.
    HelloVerifyRequest,
    /// A certificate chain.
    Certificate,
    /// The server's key share.
    ServerKeyExchange,
    /// A request for the client's certificate.
    CertificateRequest,
    /// The end of the server's flight.
    ServerHelloDone,
    /// Proof that the client holds its certificate's key.
    CertificateVerify,
    /// The client's key share.
    ClientKeyExchange,
    /// The end of a handshake.
    Finished,
    /// Something unknown.
    Invalid,
}

impl HandshakeType {
    /// The type that a byte stands for.
    pub open spec fn of(byte: u8) -> HandshakeType {
        if byte == 0 {
            HandshakeType::HelloRequest
        } else if byte == 1 {
            HandshakeType::ClientHello
        } else if byte == 2 {
            HandshakeType::ServerHello
        } else if byte == 3 {
            HandshakeType::HelloVerifyRequest
        } else if byte == 11 {
            HandshakeType::Certificate
        } else if byte == 12 {
            HandshakeType::ServerKeyExchange
        } else if byte == 13 {
            HandshakeType::CertificateRequest
        } else if byte == 14 {
            HandshakeType::ServerHelloDone
        } else if byte == 15 {
            HandshakeType::CertificateVerify
        } else if byte == 16 {
            HandshakeType::ClientKeyExchange
        } else if byte == 20 {
            HandshakeType::Finished
        } else {
            HandshakeType::Invalid
        }
    }

    /// The byte that stands for a type.
    pub open spec fn byte(self) -> u8 {
        match self {
            HandshakeType::HelloRequest => 0,
            HandshakeType::ClientHello => 1,
            HandshakeType::ServerHello => 2,
            HandshakeType::HelloVerifyRequest => 3,
            HandshakeType::Certificate => 11,
            HandshakeType::ServerKeyExchange => 12,
            HandshakeType::CertificateRequest => 13,
            HandshakeType::ServerHelloDone => 14,
            HandshakeType::CertificateVerify => 15,
            HandshakeType::ClientKeyExchange => 16,
            HandshakeType::Finished => 20,
            HandshakeType::Invalid => 21,
        }
    }

    /// The type that a byte stands for.
    pub fn from_byte(byte: u8) -> (typ: HandshakeType)
        ensures
            typ == HandshakeType::of(byte),
    {
        match byte {
            0 => HandshakeType::HelloRequest,
            1 => HandshakeType::ClientHello,
            2 => HandshakeType::ServerHello,
            3 => HandshakeType::HelloVerifyRequest,
            11 => HandshakeType::Certificate,
            12 => HandshakeType::ServerKeyExchange,
            13 => HandshakeType::CertificateRequest,
            14 => HandshakeType::ServerHelloDone,
            15 => HandshakeType::CertificateVerify,
            16 => HandshakeType::ClientKeyExchange,
            20 => HandshakeType::Finished,
            _ => HandshakeType::Invalid,
        }
    }

    /// The byte that stands for a type.
    pub fn to_byte(&self) -> (byte: u8)
        ensures
            byte == self.byte(),
    {
        match self {
            HandshakeType::HelloRequest => 0,
            HandshakeType::ClientHello => 1,
            HandshakeType::ServerHello => 2,
            HandshakeType::HelloVerifyRequest => 3,
            HandshakeType::Certificate => 11,
            HandshakeType::ServerKeyExchange => 12,
            HandshakeType::CertificateRequest => 13,
            HandshakeType::ServerHelloDone => 14,
            HandshakeType::CertificateVerify => 15,
            HandshakeType::ClientKeyExchange => 16,
            HandshakeType::Finished => 20,
            HandshakeType::Invalid => 21,
        }
    }
}

/// The header of a handshake message or of a fragment of one.
#[derive(Debug, Clone, Copy, PartialEq, Eq, Structural)]
pub struct HandshakeHeader {
    /// What the message is.
    pub handshake_type: HandshakeType,
    /// Bytes in the whole message.
    pub length: u32,
    /// Counts the messages of one side.
    pub message_sequence: u16,
    /// Where the fragment begins.
    pub fragment_offset: u32,
    /// Bytes in the fragment.
    pub fragment_length: u32,
}

impl HandshakeHeader {
    /// Whether the lengths and the offset fit their 24 bits.
    pub open spec fn fits(self) -> bool {
        self.length <= 0xff_ffff && self.fragment_offset <= 0xff_ffff && self.fragment_length
            <= 0xff_ffff
    }

    /// The header as it stands before a fragment.
    pub open spec fn bytes(self) -> Seq<u8> {
        seq![self.handshake_type.byte()] + to_be24(self.length as int) + to_be16(
            self.message_sequence as int,
        ) + to_be24(self.fragment_offset as int) + to_be24(self.fragment_length as int)
    }

    /// The header that a fragment begins with.
    pub open spec fn read(bytes: Seq<u8>) -> HandshakeHeader {
        HandshakeHeader {
            handshake_type: HandshakeType::of(bytes[0]),
            length: be24(bytes, 1) as u32,
            message_sequence: be16(bytes, 4) as u16,
            fragment_offset: be24(bytes, 6) as u32,
            fragment_length: be24(bytes, 9) as u32,
        }
    }

    /// Appends the header to `out`.
    pub fn marshal(&self, out: &mut Vec<u8>)
        ensures
            final(out)@ == old(out)@ + self.bytes(),
    {
        out.push(self.handshake_type.to_byte());
        write_be24(out, self.length);
        write_be16(out, self.message_sequence);
        write_be24(out, self.fragment_offset);
        write_be24(out, self.fragment_length);
        assert(out@ =~= old(out)@ + self.bytes());
    }

    /// Reads the header that `bytes` begins with.
    pub fn unmarshal(bytes: &[u8]) -> (header: Result<HandshakeHeader, Error>)
        ensures
            match header {
                Ok(header) => bytes@.len() >= 12 && header == HandshakeHeader::read(bytes@)
                    && header.fits(),
                Err(e) => e == Error::ErrBufferTooSmall && bytes@.len() < 12,
            },
    {
        if bytes.len() < HANDSHAKE_HEADER_LENGTH {
            return Err(Error::ErrBufferTooSmall);
        }
        Ok(
            HandshakeHeader {
                handshake_type: HandshakeType::from_byte(bytes[0]),
                length: read_be24(bytes, 1),
                message_sequence: read_be16(bytes, 4),
                fragment_offset: read_be24(bytes, 6),
                fragment_length: read_be24(bytes, 9),
            },
        )
    }
}

/// A handshake header that was written is read back.
pub proof fn law_handshake_header_round_trip(header: HandshakeHeader, rest: Seq<u8>)
    requires
        header.fits(),
        header.handshake_type != HandshakeType::Invalid,
    ensures
        header.bytes().len() == HANDSHAKE_HEADER_LENGTH,
        HandshakeHeader::read(header.bytes() + rest) == header,
{
    let b = header.bytes() + rest;
    assert(b[0] == header.handshake_type.byte());
    assert(be24(b, 1) == header.length);
    assert(be16(b, 4) == header.message_sequence);
    assert(be24(b, 6) == header.fragment_offset);
    assert(be24(b, 9) == header.fragment_length);
}

/// The kinds of record have the numbers that DTLS gives them, and every other number is unknown.
pub proof fn law_content_types_have_their_numbers(byte: u8)
    ensures
        ContentType::of(20) == ContentType::ChangeCipherSpec,
        ContentType::of(21) == ContentType::Alert,
        ContentType::of(22) == ContentType::Handshake,
        ContentType::of(23) == ContentType::ApplicationData,
        ContentType::of(byte) == ContentType::Invalid <==> !(20 <= byte <= 23),
        ContentType::of(byte) != ContentType::Invalid ==> ContentType::of(byte).byte() == byte,
{
}

/// The kinds of handshake message have the numbers that TLS gives them, and every other number is
/// unknown.
pub proof fn law_handshake_types_have_their_numbers(byte: u8)
    ensures
        HandshakeType::of(0) == HandshakeType::HelloRequest,
        HandshakeType::of(1) == HandshakeType::ClientHello,
        HandshakeType::of(2) == HandshakeType::ServerHello,
        HandshakeType::of(3) == HandshakeType::HelloVerifyRequest,
        HandshakeType::of(11) == HandshakeType::Certificate,
        HandshakeType::of(12) == HandshakeType::ServerKeyExchange,
        HandshakeType::of(13) == HandshakeType::CertificateRequest,
        HandshakeType::of(14) == HandshakeType::ServerHelloDone,
        HandshakeType::of(15) == HandshakeType::CertificateVerify,
        HandshakeType::of(16) == HandshakeType::ClientKeyExchange,
        HandshakeType::of(20) == HandshakeType::Finished,
        HandshakeType::of(byte) == HandshakeType::Invalid <==> !(byte <= 3 || 11 <= byte <= 16
            || byte == 20),
        HandshakeType::of(byte) != HandshakeType::Invalid ==> HandshakeType::of(byte).byte() == byte,
{
}

/// Where each field of a record's header stands.
pub proof fn law_record_header_layout(header: RecordLayerHeader)
    requires
        header.sequence_number <= MAX_SEQUENCE_NUMBER,
    ensures
        ({
            let b = header.bytes();
            &&& b.len() == 13
            &&& b[0] == header.content_type.byte()
            &&& b[1] == header.protocol_version.major
            &&& b[2] == header.protocol_version.minor
            &&& b[3] * 0x100 + b[4] == header.epoch
            &&& b[5] * 0x100_0000_0000 + b[6] * 0x1_0000_0000 + b[7] * 0x100_0000 + b[8] * 0x1_0000
                + b[9] * 0x100 + b[10] == header.sequence_number
            &&& b[11] * 0x100 + b[12] == header.content_len
        }),
{
    let b = header.bytes();
    assert(be48(b, 5) == header.sequence_number) by {
        let s = header.sequence_number as int;
        assert(be24(b, 5) == s / 16777216);
        assert(be24(b, 8) == s % 16777216);
    }
}

/// Where each field of a handshake message's header stands.
pub proof fn law_handshake_header_layout(header: HandshakeHeader)
    requires
        header.fits(),
    ensures
        ({
            let b = header.bytes();
            &&& b.len() == 12
            &&& b[0] == header.handshake_type.byte()
            &&& b[1] * 0x1_0000 + b[2] * 0x100 + b[3] == header.length
            &&& b[4] * 0x100 + b[5] == header.message_sequence
            &&& b[6] * 0x1_0000 + b[7] * 0x100 + b[8] == header.fragment_offset
            &&& b[9] * 0x1_0000 + b[10] * 0x100 + b[11] == header.fragment_length
        }),
{
}

} // verus!
