//! RTP packets.

use vstd::prelude::*;

verus! {

/// The shared byte buffer of the `bytes` crate, which payloads are held in.
#[verifier::external_type_specification]
#[verifier::external_body]
pub struct ExBytes(bytes::Bytes);

/// The bytes that a shared buffer holds.
pub uninterp spec fn content(bytes: bytes::Bytes) -> Seq<u8>;

/// `Bytes::len`: the number of bytes held.
#[verifier::external_body]
pub(crate) fn bytes_len(bytes: &bytes::Bytes) -> (len: usize)
    ensures
        len == content(*bytes).len(),
{
    bytes.len()
}

/// `Bytes::clone`: another handle that holds the same bytes.
#[verifier::external_body]
pub(crate) fn bytes_clone(bytes: &bytes::Bytes) -> (copy: bytes::Bytes)
    ensures
        content(copy) == content(*bytes),
{
    bytes.clone()
}

/// `Bytes::from(Vec<u8>)`: a buffer that holds the vector's bytes.
#[verifier::external_body]
pub(crate) fn bytes_from(data: Vec<u8>) -> (bytes: bytes::Bytes)
    ensures
        content(bytes) == data@,
{
    bytes::Bytes::from(data)
}

/// `Bytes` as a slice: the bytes held.
#[verifier::external_body]
pub(crate) fn bytes_slice(bytes: &bytes::Bytes) -> (slice: &[u8])
    ensures
        slice@ == content(*bytes),
{
    bytes.as_ref()
}

/// One header extension.
pub struct Extension {
    /// The extension's local identifier.
    pub id: u8,
    /// What it carries.
    pub payload: bytes::Bytes,
}

/// The model of an [`Extension`].
#[verifier::ext_equal]
pub struct ExtensionView {
    /// The extension's local identifier.
    pub id: u8,
    /// What it carries.
    pub payload: Seq<u8>,
}

impl View for Extension {
    type V = ExtensionView;

    open spec fn view(&self) -> ExtensionView {
        ExtensionView { id: self.id, payload: content(self.payload) }
    }
}

/// An RTP header.
pub struct Header {
    /// Protocol version.
    pub version: u8,
    /// Whether the payload ends in padding.
    pub padding: bool,
    /// Whether header extensions follow.
    pub extension: bool,
    /// Profile-defined marker.
    pub marker: bool,
    /// Payload type.
    pub payload_type: u8,
    /// Sequence number.
    pub sequence_number: u16,
    /// Media timestamp.
    pub timestamp: u32,
    /// Synchronization source.
    pub ssrc: u32,
    /// Contributing sources.
    pub csrc: Vec<u32>,
    /// Profile of the header extensions.
    pub extension_profile: u16,
    /// The header extensions.
    pub extensions: Vec<Extension>,
    /// Bytes of padding after the extensions.
    pub extensions_padding: usize,
}

/// What the first extension with an identifier carries.
pub open spec fn extension_payload(extensions: Seq<ExtensionView>, id: u8) -> Option<Seq<u8>>
    decreases extensions.len(),
{
    if extensions.len() == 0 {
        None
    } else if extensions[0].id == id {
        Some(extensions[0].payload)
    } else {
        extension_payload(extensions.drop_first(), id)
    }
}

impl HeaderView {
    /// What the extension with an identifier carries, where extensions follow at all.
    pub open spec fn carried(self, id: u8) -> Option<Seq<u8>> {
        if self.extension {
            extension_payload(self.extensions, id)
        } else {
            None
        }
    }
}

impl Header {
    /// What the extension with an identifier carries, where extensions follow at all.
    pub fn get_extension(&self, id: u8) -> (payload: Option<&[u8]>)
        ensures
            match payload {
                Some(payload) => self@.carried(id) == Some(payload@),
                None => self@.carried(id) is None,
            },
    {
        if !self.extension {
            return None;
        }
        let ghost all = self@.extensions;
        assert(all.skip(0) =~= all);
        let mut i: usize = 0;
        while i < self.extensions.len()
            invariant
                i <= self.extensions@.len(),
                all == self@.extensions,
                self.extension,
                extension_payload(all.skip(i as int), id) == extension_payload(all, id),
            decreases self.extensions@.len() - i,
        {
            proof {
                assert(all.skip(i as int)[0] == self.extensions@[i as int]@);
                assert(all.skip(i as int).drop_first() =~= all.skip(i + 1));
            }
            if self.extensions[i].id == id {
                return Some(bytes_slice(&self.extensions[i].payload));
            }
            i += 1;
        }
        None
    }
}

/// The model of a [`Header`].
#[verifier::ext_equal]
pub struct HeaderView {
    /// Protocol version.
    pub version: u8,
    /// Whether the payload ends in padding.
    pub padding: bool,
    /// Whether header extensions follow.
    pub extension: bool,
    /// Profile-defined marker.
    pub marker: bool,
    /// Payload type.
    pub payload_type: u8,
    /// Sequence number.
    pub sequence_number: u16,
    /// Media timestamp.
    pub timestamp: u32,
    /// Synchronization source.
    pub ssrc: u32,
    /// Contributing sources.
    pub csrc: Seq<u32>,
    /// Profile of the header extensions.
    pub extension_profile: u16,
    /// The header extensions.
    pub extensions: Seq<ExtensionView>,
    /// Bytes of padding after the extensions.
    pub extensions_padding: usize,
}

/// The models of a sequence of extensions.
pub open spec fn extension_views(extensions: Seq<Extension>) -> Seq<ExtensionView> {
    Seq::new(extensions.len(), |i: int| extensions[i]@)
}

impl View for Header {
    type V = HeaderView;

    open spec fn view(&self) -> HeaderView {
        HeaderView {
            version: self.version,
            padding: self.padding,
            extension: self.extension,
            marker: self.marker,
            payload_type: self.payload_type,
            sequence_number: self.sequence_number,
            timestamp: self.timestamp,
            ssrc: self.ssrc,
            csrc: self.csrc@,
            extension_profile: self.extension_profile,
            extensions: extension_views(self.extensions@),
            extensions_padding: self.extensions_padding,
        }
    }
}

/// The header that holds nothing.
pub open spec fn empty_header() -> HeaderView {
    HeaderView {
        version: 0,
        padding: false,
        extension: false,
        marker: false,
        payload_type: 0,
        sequence_number: 0,
        timestamp: 0,
        ssrc: 0,
        csrc: Seq::empty(),
        extension_profile: 0,
        extensions: Seq::empty(),
        extensions_padding: 0,
    }
}

impl Default for Header {
    fn default() -> (header: Self)
        ensures
            header@ == empty_header(),
    {
        let header = Header {
            version: 0,
            padding: false,
            extension: false,
            marker: false,
            payload_type: 0,
            sequence_number: 0,
            timestamp: 0,
            ssrc: 0,
            csrc: Vec::new(),
            extension_profile: 0,
            extensions: Vec::new(),
            extensions_padding: 0,
        };
        assert(header@ =~= empty_header());
        header
    }
}

impl Header {
    /// A header with the same contents.
    pub fn duplicate(&self) -> (header: Header)
        ensures
            header@ == self@,
    {
        let mut csrc: Vec<u32> = Vec::new();
        let mut i: usize = 0;
        while i < self.csrc.len()
            invariant
                i <= self.csrc@.len(),
                csrc@ == self.csrc@.subrange(0, i as int),
            decreases self.csrc@.len() - i,
        {
            csrc.push(self.csrc[i]);
            i = i + 1;
        }
        let mut extensions: Vec<Extension> = Vec::new();
        let mut j: usize = 0;
        while j < self.extensions.len()
            invariant
                j <= self.extensions@.len(),
                extensions@.len() == j,
                forall|k: int|
                    0 <= k < j ==> (#[trigger] extensions@[k])@ == self.extensions@[k]@,
            decreases self.extensions@.len() - j,
        {
            let extension = &self.extensions[j];
            extensions.push(
                Extension { id: extension.id, payload: bytes_clone(&extension.payload) },
            );
            j = j + 1;
        }
        let header = Header {
            version: self.version,
            padding: self.padding,
            extension: self.extension,
            marker: self.marker,
            payload_type: self.payload_type,
            sequence_number: self.sequence_number,
            timestamp: self.timestamp,
            ssrc: self.ssrc,
            csrc,
            extension_profile: self.extension_profile,
            extensions,
            extensions_padding: self.extensions_padding,
        };
        assert(header@ =~= self@);
        header
    }
}

/// An RTP packet.
pub struct Packet {
    /// Its header.
    pub header: Header,
    /// Its payload, shared rather than copied.
    pub payload: bytes::Bytes,
}

/// The model of a [`Packet`].
#[verifier::ext_equal]
pub struct PacketView {
    /// Its header.
    pub header: HeaderView,
    /// Its payload.
    pub payload: Seq<u8>,
}

impl View for Packet {
    type V = PacketView;

    open spec fn view(&self) -> PacketView {
        PacketView { header: self.header@, payload: content(self.payload) }
    }
}

impl Packet {
    /// A packet with the same contents, sharing the payload.
    pub fn duplicate(&self) -> (packet: Packet)
        ensures
            packet@ == self@,
    {
        Packet { header: self.header.duplicate(), payload: bytes_clone(&self.payload) }
    }
}

/// An extension is found by its identifier, wherever it stands: the first one with the identifier,
/// where extensions follow at all.
pub proof fn law_extension_is_found(header: HeaderView, id: u8, i: int)
    requires
        header.extension,
        0 <= i < header.extensions.len(),
        header.extensions[i].id == id,
        forall|j: int| 0 <= j < i ==> (#[trigger] header.extensions[j]).id != id,
    ensures
        header.carried(id) == Some(header.extensions[i].payload),
{
    lemma_extension_is_found(header.extensions, id, i);
}

proof fn lemma_extension_is_found(extensions: Seq<ExtensionView>, id: u8, i: int)
    requires
        0 <= i < extensions.len(),
        extensions[i].id == id,
        forall|j: int| 0 <= j < i ==> (#[trigger] extensions[j]).id != id,
    ensures
        extension_payload(extensions, id) == Some(extensions[i].payload),
    decreases i,
{
    if i > 0 {
        assert(extensions[0].id != id);
        let rest = extensions.drop_first();
        assert forall|j: int| 0 <= j < i - 1 implies (#[trigger] rest[j]).id != id by {
            assert(rest[j] == extensions[j + 1]);
        }
        lemma_extension_is_found(rest, id, i - 1);
    }
}

/// Nothing is found where no extensions follow, or none has the identifier.
pub proof fn law_no_extension_is_found(header: HeaderView, id: u8)
    requires
        !header.extension || forall|i: int|
            0 <= i < header.extensions.len() ==> (#[trigger] header.extensions[i]).id != id,
    ensures
        header.carried(id) is None,
{
    if header.extension {
        lemma_no_extension_is_found(header.extensions, id);
    }
}

proof fn lemma_no_extension_is_found(extensions: Seq<ExtensionView>, id: u8)
    requires
        forall|i: int| 0 <= i < extensions.len() ==> (#[trigger] extensions[i]).id != id,
    ensures
        extension_payload(extensions, id) is None,
    decreases extensions.len(),
{
    if extensions.len() > 0 {
        assert(extensions[0].id != id);
        let rest = extensions.drop_first();
        assert forall|i: int| 0 <= i < rest.len() implies (#[trigger] rest[i]).id != id by {
            assert(rest[i] == extensions[i + 1]);
        }
        lemma_no_extension_is_found(rest, id);
    }
}

} // verus!
