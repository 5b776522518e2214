//! What records hold, and the records that wait to be sent.

use crate::alert::{Alert, AlertDescription, AlertLevel};
use crate::error::Error;
use crate::record;
use crate::record::{
    append, ContentType, HandshakeHeader, HandshakeType, ProtocolVersion, RecordLayerHeader,
    MAX_SEQUENCE_NUMBER, RECORD_LAYER_HEADER_SIZE,
};
use vstd::prelude::*;
use vstd::slice::slice_to_vec;

verus! {

/// A handshake message.
#[derive(Debug, Clone, PartialEq, Eq)]
pub struct Handshake {
    /// Its header.
    pub handshake_header: HandshakeHeader,
    /// What follows the header.
    pub body: Vec<u8>,
}

/// What a record holds.
#[derive(Debug, Clone, PartialEq, Eq)]
pub enum Content {
    /// A switch to the negotiated cipher.
    ChangeCipherSpec,
    /// An alert.
    Alert(Alert),
    /// A handshake message.
    Handshake(Handshake),
    /// Application data.
    ApplicationData(Vec<u8>),
}

/// A record.
#[derive(Debug, Clone, PartialEq, Eq)]
pub struct RecordLayer {
    /// Its header.
    pub record_layer_header: RecordLayerHeader,
    /// What it holds.
    pub content: Content,
}

/// A record that waits to be sent.
#[derive(Debug, Clone, PartialEq, Eq)]
pub struct Packet {
    /// The record.
    pub record: RecordLayer,
    /// Whether it is to be encrypted.
    pub should_encrypt: bool,
    /// Whether the numbers of the records start anew with it.
    pub reset_local_sequence_number: bool,
}

/// What a record holds.
#[verifier::ext_equal]
pub enum ContentView {
    /// A switch to the negotiated cipher.
    ChangeCipherSpec,
    /// An alert.
    Alert(Alert),
    /// A handshake message.
    Handshake(HandshakeHeader, Seq<u8>),
    /// Application data.
    ApplicationData(Seq<u8>),
}

/// A record that waits to be sent.
#[verifier::ext_equal]
pub struct PacketView {
    /// The header of the record.
    pub header: RecordLayerHeader,
    /// What it holds.
    pub content: ContentView,
    /// Whether it is to be encrypted.
    pub should_encrypt: bool,
    /// Whether the numbers of the records start anew with it.
    pub reset_local_sequence_number: bool,
}

impl ContentView {
    /// The type of the content.
    pub open spec fn content_type(self) -> ContentType {
        match self {
            ContentView::ChangeCipherSpec => ContentType::ChangeCipherSpec,
            ContentView::Alert(_) => ContentType::Alert,
            ContentView::Handshake(_, _) => ContentType::Handshake,
            ContentView::ApplicationData(_) => ContentType::ApplicationData,
        }
    }

    /// The content as it stands in a record.
    pub open spec fn bytes(self) -> Seq<u8> {
        match self {
            ContentView::ChangeCipherSpec => seq![1u8],
            ContentView::Alert(alert) => seq![
                alert.alert_level.byte(),
                alert.alert_description.byte(),
            ],
            ContentView::Handshake(header, body) => header.bytes() + body,
            ContentView::ApplicationData(data) => data,
        }
    }

    /// What a record holds, by its type.
    pub open spec fn read(record: Seq<u8>) -> Result<ContentView, Error> {
        if record.len() < 13 {
            Err(Error::ErrBufferTooSmall)
        } else {
            let rest = record.skip(13);
            match RecordLayerHeader::read(record).content_type {
                ContentType::ChangeCipherSpec => if rest.len() < 1 {
                    Err(Error::ErrBufferTooSmall)
                } else if rest[0] != 1 {
                    Err(Error::ErrInvalidCipherSpec)
                } else {
                    Ok(ContentView::ChangeCipherSpec)
                },
                ContentType::Alert => if rest.len() < 2 {
                    Err(Error::ErrBufferTooSmall)
                } else {
                    Ok(
                        ContentView::Alert(
                            Alert {
                                alert_level: AlertLevel::of(rest[0]),
                                alert_description: AlertDescription::of(rest[1]),
                            },
                        ),
                    )
                },
                ContentType::Handshake => if rest.len() < 12 {
                    Err(Error::ErrBufferTooSmall)
                } else {
                    Ok(ContentView::Handshake(HandshakeHeader::read(rest), rest.skip(12)))
                },
                ContentType::ApplicationData => Ok(ContentView::ApplicationData(rest)),
                ContentType::Invalid => Err(Error::ErrInvalidContentType),
            }
        }
    }
}

impl View for Content {
    type V = ContentView;

    open spec fn view(&self) -> ContentView {
        match self {
            Content::ChangeCipherSpec => ContentView::ChangeCipherSpec,
            Content::Alert(alert) => ContentView::Alert(*alert),
            Content::Handshake(h) => ContentView::Handshake(h.handshake_header, h.body@),
            Content::ApplicationData(data) => ContentView::ApplicationData(data@),
        }
    }
}

impl View for Packet {
    type V = PacketView;

    open spec fn view(&self) -> PacketView {
        PacketView {
            header: self.record.record_layer_header,
            content: self.record.content@,
            should_encrypt: self.should_encrypt,
            reset_local_sequence_number: self.reset_local_sequence_number,
        }
    }
}

/// The header of a record with this content, before it is numbered.
pub open spec fn unnumbered(
    protocol_version: ProtocolVersion,
    epoch: u16,
    content: ContentView,
) -> RecordLayerHeader {
    RecordLayerHeader {
        content_type: content.content_type(),
        protocol_version,
        epoch,
        sequence_number: 0,
        content_len: (content.bytes().len() % 65536) as u16,
    }
}

impl Content {
    /// The type of the content.
    pub fn content_type(&self) -> (content_type: ContentType)
        ensures
            content_type == self@.content_type(),
    {
        match self {
            Content::ChangeCipherSpec => ContentType::ChangeCipherSpec,
            Content::Alert(_) => ContentType::Alert,
            Content::Handshake(_) => ContentType::Handshake,
            Content::ApplicationData(_) => ContentType::ApplicationData,
        }
    }

    /// Appends the content to `out`.
    pub fn marshal(&self, out: &mut Vec<u8>)
        ensures
            final(out)@ == old(out)@ + self@.bytes(),
    {
        match self {
            Content::ChangeCipherSpec => {
                out.push(1);
            },
            Content::Alert(alert) => {
                out.push(alert.alert_level.to_byte());
                out.push(alert.alert_description.to_byte());
            },
            Content::Handshake(h) => {
                h.handshake_header.marshal(out);
                append(out, h.body.as_slice());
            },
            Content::ApplicationData(data) => {
                append(out, data.as_slice());
            },
        }
        assert(out@ =~= old(out)@ + self@.bytes());
    }

    /// Reads what a record holds.
    pub fn unmarshal(record: &[u8]) -> (content: Result<Content, Error>)
        ensures
            match content {
                Ok(content) => ContentView::read(record@) == Ok::<ContentView, Error>(content@),
                Err(error) => ContentView::read(record@) == Err::<ContentView, Error>(error),
            },
    {
        let header: RecordLayerHeader = match RecordLayerHeader::unmarshal(record) {
            Ok(header) => header,
            Err(error) => { return Err(error); },
        };
        let rest: &[u8] = &record[RECORD_LAYER_HEADER_SIZE..record.len()];
        assert(rest@ =~= record@.skip(13));
        match header.content_type {
            ContentType::ChangeCipherSpec => {
                if rest.len() < 1 {
                    return Err(Error::ErrBufferTooSmall);
                }
                if rest[0] != 1 {
                    return Err(Error::ErrInvalidCipherSpec);
                }
                Ok(Content::ChangeCipherSpec)
            },
            ContentType::Alert => {
                if rest.len() < 2 {
                    return Err(Error::ErrBufferTooSmall);
                }
                Ok(
                    Content::Alert(
                        Alert {
                            alert_level: AlertLevel::from_byte(rest[0]),
                            alert_description: AlertDescription::from_byte(rest[1]),
                        },
                    ),
                )
            },
            ContentType::Handshake => {
                let handshake_header: HandshakeHeader = match HandshakeHeader::unmarshal(rest) {
                    Ok(header) => header,
                    Err(error) => { return Err(error); },
                };
                let body: Vec<u8> = slice_to_vec(&rest[12..rest.len()]);
                assert(body@ =~= rest@.skip(12));
                Ok(Content::Handshake(Handshake { handshake_header, body }))
            },
            ContentType::ApplicationData => Ok(Content::ApplicationData(slice_to_vec(rest))),
            ContentType::Invalid => Err(Error::ErrInvalidContentType),
        }
    }
}

impl RecordLayer {
    /// A record that is not numbered yet.
    pub fn new(protocol_version: ProtocolVersion, epoch: u16, content: Content) -> (record:
        RecordLayer)
        ensures
            record.content == content,
            record.record_layer_header == unnumbered(protocol_version, epoch, content@),
    {
        let mut bytes: Vec<u8> = Vec::new();
        content.marshal(&mut bytes);
        assert(bytes@ =~= content@.bytes());
        let content_len: u16 = (bytes.len() % 65536) as u16;
        RecordLayer {
            record_layer_header: RecordLayerHeader {
                content_type: content.content_type(),
                protocol_version,
                epoch,
                sequence_number: 0,
                content_len,
            },
            content,
        }
    }

    /// Appends the record to `out`.
    pub fn marshal(&self, out: &mut Vec<u8>) -> (result: Result<(), Error>)
        ensures
            match result {
                Ok(()) => self.record_layer_header.sequence_number <= MAX_SEQUENCE_NUMBER
                    && final(out)@ == old(out)@ + self.record_layer_header.bytes()
                    + self.content@.bytes(),
                Err(error) => error == Error::ErrSequenceNumberOverflow
                    && self.record_layer_header.sequence_number > MAX_SEQUENCE_NUMBER
                    && final(out)@ == old(out)@,
            },
    {
        match self.record_layer_header.marshal(out) {
            Ok(()) => {},
            Err(error) => { return Err(error); },
        }
        self.content.marshal(out);
        Ok(())
    }
}

/// A record as it stands in a datagram before it is encrypted.
#[verifier::opaque]
pub open spec fn record_bytes(header: RecordLayerHeader, content: Seq<u8>) -> Seq<u8> {
    header.bytes() + content
}

/// What a record with a part of a handshake message holds.
#[verifier::opaque]
pub open spec fn part_bytes(part: HandshakeHeader, body: Seq<u8>) -> Seq<u8> {
    part.bytes() + body
}

/// How long records are.
pub proof fn lemma_record_lengths(
    header: RecordLayerHeader,
    content: Seq<u8>,
    part: HandshakeHeader,
    body: Seq<u8>,
)
    ensures
        record_bytes(header, content).len() == 13 + content.len(),
        part_bytes(part, body).len() == 12 + body.len(),
        part.bytes().len() == 12,
{
    reveal(record_bytes);
    reveal(part_bytes);
}

/// A record that holds a part of a handshake message.
pub fn marshal_part(header: &RecordLayerHeader, part: &HandshakeHeader, body: &[u8]) -> (raw: Vec<u8>)
    requires
        header.sequence_number <= MAX_SEQUENCE_NUMBER,
    ensures
        raw@ == record_bytes(*header, part_bytes(*part, body@)),
        raw@.len() >= 13,
{
    let mut raw: Vec<u8> = Vec::new();
    let written: Result<(), Error> = header.marshal(&mut raw);
    let ghost first = raw@;
    assert(first =~= header.bytes());
    assert(first.len() == 13);
    part.marshal(&mut raw);
    append(&mut raw, body);
    proof {
        reveal(record_bytes);
        reveal(part_bytes);
        assert(raw@ =~= first + (part.bytes() + body@));
    }
    raw
}

/// A record as it stands in a datagram before it is encrypted.
pub fn marshal_record(header: &RecordLayerHeader, content: &Content) -> (raw: Vec<u8>)
    requires
        header.sequence_number <= MAX_SEQUENCE_NUMBER,
    ensures
        raw@ == record_bytes(*header, content@.bytes()),
        raw@.len() == 13 + content@.bytes().len(),
{
    let mut raw: Vec<u8> = Vec::new();
    let written: Result<(), Error> = header.marshal(&mut raw);
    let ghost first = raw@;
    assert(first =~= header.bytes());
    assert(first.len() == 13);
    content.marshal(&mut raw);
    proof {
        reveal(record_bytes);
    }
    raw
}

/// The records of a datagram: each is as long as its header says.
pub open spec fn unpacked(datagram: Seq<u8>) -> Result<Seq<Seq<u8>>, Error>
    decreases datagram.len(),
{
    if datagram.len() == 0 {
        Ok(Seq::empty())
    } else if datagram.len() <= 13 {
        Err(Error::ErrInvalidPacketLength)
    } else {
        let len = 13 + RecordLayerHeader::read(datagram).content_len as int;
        if len > datagram.len() {
            Err(Error::ErrInvalidPacketLength)
        } else {
            match unpacked(datagram.skip(len)) {
                Ok(rest) => Ok(seq![datagram.take(len)] + rest),
                Err(error) => Err(error),
            }
        }
    }
}

/// Every record takes its header at least.
pub proof fn lemma_unpacked_count(datagram: Seq<u8>)
    ensures
        unpacked(datagram) matches Ok(records) ==> records.len() * 13 <= datagram.len(),
    decreases datagram.len(),
{
    if datagram.len() > 13 {
        let len = 13 + RecordLayerHeader::read(datagram).content_len as int;
        if len <= datagram.len() {
            lemma_unpacked_count(datagram.skip(len));
        }
    }
}

/// Byte strings.
pub open spec fn byte_views(all: Seq<Vec<u8>>) -> Seq<Seq<u8>> {
    Seq::new(all.len(), |i: int| all[i]@)
}

/// The longest record: a header and as much as it can announce.
pub const MAX_RECORD_LEN: usize = 65548;

/// Splits a datagram into its records.
pub fn unpack_datagram(buf: &[u8]) -> (records: Result<Vec<Vec<u8>>, Error>)
    ensures
        match records {
            Ok(records) => {
                &&& unpacked(buf@) == Ok::<Seq<Seq<u8>>, Error>(byte_views(records@))
                &&& forall|i: int|
                    0 <= i < records@.len() ==> 13 <= (#[trigger] records@[i])@.len()
                        <= MAX_RECORD_LEN
                &&& records@.len() * 13 <= buf@.len()
            },
            Err(error) => unpacked(buf@) == Err::<Seq<Seq<u8>>, Error>(error),
        },
{
    let mut records: Vec<Vec<u8>> = Vec::new();
    let mut offset: usize = 0;
    let size: usize = buf.len();
    assert(buf@.skip(0) =~= buf@);
    proof {
        match unpacked(buf@) {
            Ok(rest) => {
                assert(byte_views(records@) + rest =~= rest);
            },
            Err(_) => {},
        }
    }
    while offset < size
        invariant
            offset <= size,
            size == buf@.len(),
            match unpacked(buf@.skip(offset as int)) {
                Ok(rest) => unpacked(buf@) == Ok::<Seq<Seq<u8>>, Error>(
                    byte_views(records@) + rest,
                ),
                Err(error) => unpacked(buf@) == Err::<Seq<Seq<u8>>, Error>(error),
            },
            forall|i: int|
                0 <= i < records@.len() ==> 13 <= (#[trigger] records@[i])@.len()
                    <= MAX_RECORD_LEN,
            records@.len() * 13 <= offset,
        decreases size - offset,
    {
        let left: usize = size - offset;
        if left <= RECORD_LAYER_HEADER_SIZE {
            return Err(Error::ErrInvalidPacketLength);
        }
        let rest: &[u8] = &buf[offset..size];
        assert(rest@ =~= buf@.skip(offset as int));
        let header: RecordLayerHeader = match RecordLayerHeader::unmarshal(rest) {
            Ok(header) => header,
            Err(error) => { return Err(error); },
        };
        let len: usize = RECORD_LAYER_HEADER_SIZE + header.content_len as usize;
        if len > left {
            return Err(Error::ErrInvalidPacketLength);
        }
        let ghost before = records@;
        let record: Vec<u8> = slice_to_vec(&rest[0..len]);
        records.push(record);
        proof {
            assert(rest@.subrange(0, len as int) =~= rest@.take(len as int));
            assert(rest@.skip(len as int) =~= buf@.skip(offset + len));
            match unpacked(rest@.skip(len as int)) {
                Ok(after) => {
                    assert(byte_views(before) + (seq![record@] + after) =~= byte_views(records@)
                        + after);
                },
                Err(_) => {},
            }
        }
        offset += len;
    }
    proof {
        let end = buf@.skip(offset as int);
        assert(end.len() == 0);
        assert(byte_views(records@) + Seq::<Seq<u8>>::empty() =~= byte_views(records@));
    }
    Ok(records)
}

/// What a record holds is read as it was written. Left out is what has no number of its own: an
/// unknown level or type, a known alert under the name of another one, and a length that does not
/// fit its place.
pub proof fn law_content_round_trip(header: RecordLayerHeader, content: ContentView)
    requires
        header.content_type == content.content_type(),
        header.sequence_number <= MAX_SEQUENCE_NUMBER,
        content matches ContentView::Alert(alert) ==> alert.alert_level != AlertLevel::Invalid
            && AlertDescription::of(alert.alert_description.byte()) == alert.alert_description,
        content matches ContentView::Handshake(h, _) ==> h.fits() && h.handshake_type
            != HandshakeType::Invalid,
    ensures
        ContentView::read(header.bytes() + content.bytes()) == Ok::<ContentView, Error>(content),
{
    let inner = content.bytes();
    let bytes = header.bytes() + inner;
    record::law_record_header_round_trip(header, inner);
    assert(bytes.skip(13) =~= inner);
    match content {
        ContentView::Handshake(h, body) => {
            record::law_handshake_header_round_trip(h, body);
            assert(inner.skip(12) =~= body);
        },
        _ => {},
    }
}

/// Whether a record is as long as its header says.
pub open spec fn is_framed(raw: Seq<u8>) -> bool {
    raw.len() >= 13 && raw[11] * 256 + raw[12] == raw.len() - 13
}

/// Records that give their own lengths are found again in the datagram that they make up: all of
/// them, in order. The last one must hold something.
pub proof fn law_datagram_is_split_at_its_records(raws: Seq<Seq<u8>>)
    requires
        forall|i: int| 0 <= i < raws.len() ==> is_framed(#[trigger] raws[i]),
        raws.len() > 0 ==> raws.last().len() > 13,
    ensures
        unpacked(raws.flatten()) == Ok::<Seq<Seq<u8>>, Error>(raws),
    decreases raws.len(),
{
    if raws.len() == 0 {
        assert(raws =~= Seq::<Seq<u8>>::empty());
    } else {
        let first = raws[0];
        let rest = raws.drop_first();
        assert forall|i: int| 0 <= i < rest.len() implies is_framed(#[trigger] rest[i]) by {
            assert(rest[i] == raws[i + 1]);
        }
        law_datagram_is_split_at_its_records(rest);
        let all = raws.flatten();
        assert(all =~= first + rest.flatten());
        assert(is_framed(raws[0]));
        assert(all.len() > 13) by {
            if rest.len() > 0 {
                lemma_flatten_is_long(rest);
            }
        }
        let len = first.len() as int;
        assert(all[11] == first[11] && all[12] == first[12]);
        assert(RecordLayerHeader::read(all).content_len == len - 13);
        assert(all.take(len) =~= first);
        assert(all.skip(len) =~= rest.flatten());
        assert(seq![first] + rest =~= raws);
    }
}

proof fn lemma_flatten_is_long(raws: Seq<Seq<u8>>)
    requires
        raws.len() > 0,
        forall|i: int| 0 <= i < raws.len() ==> is_framed(#[trigger] raws[i]),
    ensures
        raws.flatten().len() >= 13,
{
    assert(raws.flatten() == raws.first() + raws.drop_first().flatten());
    assert(is_framed(raws[0]));
}

/// A datagram that is split is split at its records and nowhere else: each piece is as long as its
/// header says, and the pieces one after the other are the datagram.
pub proof fn law_split_datagram_is_its_records(datagram: Seq<u8>)
    ensures
        unpacked(datagram) matches Ok(records) ==> {
            &&& records.flatten() == datagram
            &&& forall|i: int| 0 <= i < records.len() ==> is_framed(#[trigger] records[i])
        },
    decreases datagram.len(),
{
    match unpacked(datagram) {
        Ok(records) => {
            if datagram.len() == 0 {
                assert(records.flatten() =~= datagram);
            } else {
                let len = 13 + RecordLayerHeader::read(datagram).content_len as int;
                law_split_datagram_is_its_records(datagram.skip(len));
                let rest = unpacked(datagram.skip(len))->Ok_0;
                let first = datagram.take(len);
                assert(records =~= seq![first] + rest);
                assert(records.drop_first() =~= rest);
                assert(records.flatten() =~= first + rest.flatten());
                assert(first + datagram.skip(len) =~= datagram);
                assert(first[11] == datagram[11] && first[12] == datagram[12]);
                assert forall|i: int| 0 <= i < records.len() implies is_framed(
                    #[trigger] records[i],
                ) by {
                    if i > 0 {
                        assert(records[i] == rest[i - 1]);
                    }
                }
            }
        },
        Err(_) => {},
    }
}

} // verus!
