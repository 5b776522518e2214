//! Inputs shared by end-to-end measurements: codecs, packet shapes and payloads.

use vstd::prelude::*;

use crate::rtp;
use crate::time::{Duration, MILLISECOND, SECOND};

verus! {

/// The bytes of [`payload`]: a fixed pattern that is not constant.
pub open spec fn pattern(len: nat) -> Seq<u8> {
    Seq::new(len, |index: int| (index % 256) as u8)
}

/// `len` bytes of a fixed pattern that is not constant.
///
/// Not all zeros, so nothing along the path can take a shortcut on trivial input.
pub fn payload(len: usize) -> (bytes: bytes::Bytes)
    ensures
        rtp::content(bytes) == pattern(len as nat),
{
    let mut data: Vec<u8> = Vec::with_capacity(len);
    let mut index: usize = 0;
    while index < len
        invariant
            index <= len,
            data@ == pattern(index as nat),
        decreases len - index,
    {
        data.push((index % 256) as u8);
        index += 1;
    }
    rtp::bytes_from(data)
}

/// What a codec carries.
#[derive(Debug, Clone, Copy, PartialEq, Eq, Structural)]
pub enum RtpCodecKind {
    /// Sound.
    Audio,
    /// Pictures.
    Video,
}

/// A codec.
pub struct RTCRtpCodec {
    /// Its media type.
    pub mime_type: String,
    /// Ticks of its timestamps per second.
    pub clock_rate: u32,
    /// The channels it carries, zero where that means nothing.
    pub channels: u16,
    /// Its format parameters.
    pub sdp_fmtp_line: String,
}

/// A codec and the payload type it is registered under.
pub struct RTCRtpCodecParameters {
    /// The codec.
    pub rtp_codec: RTCRtpCodec,
    /// The payload type.
    pub payload_type: u8,
}

/// The kind of media a track carries, with the packet shape typical of it.
#[derive(Debug, Clone, Copy, PartialEq, Eq, Structural)]
pub enum MediaKind {
    /// Opus at 20 ms frames: small packets, 50 per second.
    Audio,
    /// VP8 at MTU-sized packets, 1000 per second (roughly 9.6 Mb/s).
    Video,
}

impl MediaKind {
    /// The name of a kind.
    pub open spec fn name(self) -> Seq<char> {
        match self {
            MediaKind::Audio => "audio"@,
            MediaKind::Video => "video"@,
        }
    }

    /// The media type of a kind's codec.
    pub open spec fn mime_type(self) -> Seq<char> {
        match self {
            MediaKind::Audio => "audio/opus"@,
            MediaKind::Video => "video/VP8"@,
        }
    }

    /// The payload type that a kind's codec is registered under.
    pub open spec fn registered_type(self) -> u8 {
        match self {
            MediaKind::Audio => 111,
            MediaKind::Video => 96,
        }
    }

    /// The clock rate of a kind's codec, in ticks per second.
    pub open spec fn clock(self) -> u32 {
        match self {
            MediaKind::Audio => 48_000,
            MediaKind::Video => 90_000,
        }
    }

    /// The spacing of a kind's packets.
    pub open spec fn spacing(self) -> Duration {
        match self {
            MediaKind::Audio => 20_000_000,
            MediaKind::Video => 1_000_000,
        }
    }

    /// The payload bytes of each of a kind's packets.
    pub open spec fn shape(self) -> nat {
        match self {
            MediaKind::Audio => 160,
            MediaKind::Video => 1200,
        }
    }

    /// The timestamp ticks between two of a kind's packets.
    pub open spec fn ticks(self) -> u32 {
        match self {
            MediaKind::Audio => 960,
            MediaKind::Video => 90,
        }
    }

    /// Label used in measurement ids.
    pub fn label(self) -> (label: &'static str)
        ensures
            label@ == self.name(),
    {
        match self {
            MediaKind::Audio => "audio",
            MediaKind::Video => "video",
        }
    }

    /// The codec kind this media is negotiated under.
    pub fn codec_kind(self) -> (kind: RtpCodecKind)
        ensures
            kind is Audio <==> self is Audio,
    {
        match self {
            MediaKind::Audio => RtpCodecKind::Audio,
            MediaKind::Video => RtpCodecKind::Video,
        }
    }

    /// Whether this is the codec registered for this kind, with all its parameters.
    pub open spec fn is_codec(self, codec: RTCRtpCodecParameters) -> bool {
        &&& codec.payload_type == self.registered_type()
        &&& codec.rtp_codec.mime_type@ == self.mime_type()
        &&& codec.rtp_codec.clock_rate == self.clock()
        &&& codec.rtp_codec.channels == match self {
            MediaKind::Audio => 2u16,
            MediaKind::Video => 0u16,
        }
        &&& codec.rtp_codec.sdp_fmtp_line@ == match self {
            MediaKind::Audio => "minptime=10;useinbandfec=1"@,
            MediaKind::Video => ""@,
        }
    }

    /// The codec registered for this kind.
    ///
    /// A track's encoding copies these parameters exactly, so codec matching during negotiation
    /// cannot depend on how forgiving the comparison of format parameters happens to be.
    pub fn codec(self) -> (codec: RTCRtpCodecParameters)
        ensures
            self.is_codec(codec),
    {
        match self {
            MediaKind::Audio => RTCRtpCodecParameters {
                rtp_codec: RTCRtpCodec {
                    mime_type: "audio/opus".to_owned(),
                    clock_rate: 48_000,
                    channels: 2,
                    sdp_fmtp_line: "minptime=10;useinbandfec=1".to_owned(),
                },
                payload_type: 111,
            },
            MediaKind::Video => RTCRtpCodecParameters {
                rtp_codec: RTCRtpCodec {
                    mime_type: "video/VP8".to_owned(),
                    clock_rate: 90_000,
                    channels: 0,
                    sdp_fmtp_line: "".to_owned(),
                },
                payload_type: 96,
            },
        }
    }

    /// RTP payload bytes per packet: a 20 ms Opus frame at a typical voice bitrate, or a full-MTU
    /// video packet.
    pub fn payload_len(self) -> (len: usize)
        ensures
            len == self.shape(),
    {
        match self {
            MediaKind::Audio => 160,
            MediaKind::Video => 1200,
        }
    }

    /// Spacing between packets. Virtual time advances by this much per packet, so periodic work is
    /// amortised over packets at a realistic rate.
    pub fn packet_interval(self) -> (interval: Duration)
        ensures
            interval == self.spacing(),
    {
        match self {
            MediaKind::Audio => 20 * MILLISECOND,
            MediaKind::Video => MILLISECOND,
        }
    }

    /// RTP timestamp increment per packet, in the codec's clock rate.
    pub fn timestamp_step(self) -> (step: u32)
        ensures
            step == self.ticks(),
            step == self.spacing() as int * self.clock() as int / 1_000_000_000,
    {
        let rate: u64 = match self {
            MediaKind::Audio => 48_000,
            MediaKind::Video => 90_000,
        };
        (self.packet_interval() * rate / SECOND) as u32
    }
}

/// Which interceptor chain the peers are built with.
#[derive(Debug, Clone, Copy, PartialEq, Eq, Structural)]
pub enum Interceptors {
    /// No interceptors: the bare transport path, SRTP and demultiplexing only.
    Bare,
    /// NACK, RTCP reports, transport-wide feedback and simulcast header extensions, which is what
    /// most applications use.
    Default,
}

impl Interceptors {
    /// Label used in measurement ids.
    pub fn label(self) -> (label: &'static str)
        ensures
            label@ == match self {
                Interceptors::Bare => "no-interceptors"@,
                Interceptors::Default => "default-interceptors"@,
            },
    {
        match self {
            Interceptors::Bare => "no-interceptors",
            Interceptors::Default => "default-interceptors",
        }
    }
}

/// The timestamps keep time: over the spacing of a kind's packets its clock makes as many ticks as a
/// packet adds.
pub proof fn law_ticks_keep_time(kind: MediaKind)
    ensures
        kind.ticks() * 1_000_000_000 == kind.clock() * kind.spacing(),
{
}

/// The kinds are told apart by what they are registered under.
pub proof fn law_kinds_are_told_apart()
    ensures
        MediaKind::Audio.registered_type() != MediaKind::Video.registered_type(),
        MediaKind::Audio.registered_type() < 128 && MediaKind::Video.registered_type() < 128,
{
}

} // verus!
