//! What was negotiated for a media stream.

use vstd::prelude::*;

verus! {

/// A kind of RTCP feedback.
#[derive(Debug)]
pub struct RTCPFeedback {
    /// The feedback type, such as `nack` or `transport-cc`.
    pub typ: String,
    /// Its parameter, often empty.
    pub parameter: String,
}

/// An RTP header extension.
#[derive(Debug)]
pub struct RTPHeaderExtension {
    /// What the extension is.
    pub uri: String,
    /// The identifier it is sent under.
    pub id: u8,
}

/// One media stream.
#[derive(Debug)]
pub struct StreamInfo {
    /// Its source.
    pub ssrc: u32,
    /// The source of its retransmissions, where they have one of their own.
    pub ssrc_rtx: Option<u32>,
    /// The payload type of its retransmissions, where they have one of their own.
    pub payload_type_rtx: Option<u8>,
    /// The header extensions it carries.
    pub rtp_header_extensions: Vec<RTPHeaderExtension>,
    /// The feedback it takes.
    pub rtcp_feedback: Vec<RTCPFeedback>,
}

/// Where the transport-wide sequence number extension is defined.
pub open spec fn transport_cc_uri() -> Seq<char> {
    "http://www.ietf.org/id/draft-holmer-rmcat-transport-wide-cc-extensions-01"@
}

impl StreamInfo {
    /// Whether generic NACK feedback was negotiated: `nack` with no parameter.
    pub open spec fn supports_nack(&self) -> bool {
        exists|i: int|
            0 <= i < self.rtcp_feedback@.len() && (#[trigger] self.rtcp_feedback@[i]).typ@
                == "nack"@ && self.rtcp_feedback@[i].parameter@.len() == 0
    }
}

/// Whether generic NACK feedback was negotiated for the stream.
pub fn stream_supports_nack(info: &StreamInfo) -> (supported: bool)
    ensures
        supported == info.supports_nack(),
{
    let nack: String = "nack".to_owned();
    let mut i: usize = 0;
    while i < info.rtcp_feedback.len()
        invariant
            nack@ == "nack"@,
            i <= info.rtcp_feedback@.len(),
            forall|k: int|
                0 <= k < i ==> !((#[trigger] info.rtcp_feedback@[k]).typ@ == "nack"@
                    && info.rtcp_feedback@[k].parameter@.len() == 0),
        decreases info.rtcp_feedback@.len() - i,
    {
        let feedback = &info.rtcp_feedback[i];
        if feedback.typ == nack && feedback.parameter.as_str().is_empty() {
            return true;
        }
        i = i + 1;
    }
    false
}

/// The identifier of the first extension that carries transport-wide sequence numbers.
pub open spec fn transport_cc_id(extensions: Seq<RTPHeaderExtension>) -> Option<u8>
    decreases extensions.len(),
{
    if extensions.len() == 0 {
        None
    } else if extensions[0].uri@ == transport_cc_uri() {
        Some(extensions[0].id)
    } else {
        transport_cc_id(extensions.drop_first())
    }
}

/// The identifier that the stream's transport-wide sequence numbers are sent under, where it has
/// them.
pub fn stream_supports_twcc(info: &StreamInfo) -> (id: Option<u8>)
    ensures
        id == transport_cc_id(info.rtp_header_extensions@),
{
    let uri: String =
        "http://www.ietf.org/id/draft-holmer-rmcat-transport-wide-cc-extensions-01".to_owned();
    let ghost all = info.rtp_header_extensions@;
    assert(all.skip(0) =~= all);
    let mut i: usize = 0;
    while i < info.rtp_header_extensions.len()
        invariant
            uri@ == transport_cc_uri(),
            i <= info.rtp_header_extensions@.len(),
            all == info.rtp_header_extensions@,
            transport_cc_id(all.skip(i as int)) == transport_cc_id(all),
        decreases info.rtp_header_extensions@.len() - i,
    {
        let extension = &info.rtp_header_extensions[i];
        proof {
            assert(all.skip(i as int)[0] == all[i as int]);
            assert(all.skip(i as int).drop_first() =~= all.skip(i + 1));
        }
        if extension.uri == uri {
            return Some(extension.id);
        }
        i += 1;
    }
    None
}

/// The extension for transport-wide sequence numbers is found wherever it stands: the first one that
/// is defined so.
pub proof fn law_transport_extension_is_found(extensions: Seq<RTPHeaderExtension>, i: int)
    requires
        0 <= i < extensions.len(),
        extensions[i].uri@ == transport_cc_uri(),
        forall|j: int| 0 <= j < i ==> (#[trigger] extensions[j]).uri@ != transport_cc_uri(),
    ensures
        transport_cc_id(extensions) == Some(extensions[i].id),
    decreases i,
{
    if i > 0 {
        assert(extensions[0].uri@ != transport_cc_uri());
        let rest = extensions.drop_first();
        assert forall|j: int| 0 <= j < i - 1 implies (#[trigger] rest[j]).uri@
            != transport_cc_uri() by {
            assert(rest[j] == extensions[j + 1]);
        }
        law_transport_extension_is_found(rest, i - 1);
    }
}

/// Where no extension is defined so, there are no transport-wide sequence numbers.
pub proof fn law_no_transport_extension_is_found(extensions: Seq<RTPHeaderExtension>)
    requires
        forall|i: int|
            0 <= i < extensions.len() ==> (#[trigger] extensions[i]).uri@ != transport_cc_uri(),
    ensures
        transport_cc_id(extensions) is None,
    decreases extensions.len(),
{
    if extensions.len() > 0 {
        assert(extensions[0].uri@ != transport_cc_uri());
        let rest = extensions.drop_first();
        assert forall|i: int| 0 <= i < rest.len() implies (#[trigger] rest[i]).uri@
            != transport_cc_uri() by {
            assert(rest[i] == extensions[i + 1]);
        }
        law_no_transport_extension_is_found(rest);
    }
}

/// A stream takes generic NACKs where one of its kinds of feedback, wherever it stands, is `nack`
/// without a parameter; `nack` with a parameter is another kind.
pub proof fn law_generic_nack_has_no_parameter(info: StreamInfo)
    ensures
        forall|i: int|
            0 <= i < info.rtcp_feedback@.len() && (#[trigger] info.rtcp_feedback@[i]).typ@
                == "nack"@ && info.rtcp_feedback@[i].parameter@.len() == 0 ==> info.supports_nack(),
        (forall|i: int|
            0 <= i < info.rtcp_feedback@.len() ==> (#[trigger] info.rtcp_feedback@[i]).typ@
                != "nack"@ || info.rtcp_feedback@[i].parameter@.len() > 0) ==> !info.supports_nack(),
{
}

} // verus!
