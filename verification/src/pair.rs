//! Two peer connections, an offerer and an answerer, joined by a lossless zero-latency wire.
//!
//! Nothing happens on its own: datagrams move, timers fire and the virtual clock advances only
//! where a driver says so. The connections stand outside. What the drivers decide from their
//! replies stands here: which datagrams cross and how they are counted, when the clock jumps and
//! how far, when a run is done and when it has stalled, and what each track sends next.

use vstd::prelude::*;
use vstd::string::*;

use crate::fixtures;
use crate::fixtures::{Interceptors, MediaKind, RTCRtpCodecParameters, RtpCodecKind};
use crate::peer;
use crate::peer::Peer;
use crate::rtp;
use crate::rtp::{Header, Packet};
use crate::time::{Duration, Instant, MILLISECOND};
use crate::transport::SocketAddr;
use std::collections::VecDeque;

verus! {

/// How much virtual time a drive may consume before it is declared stalled: 120 seconds.
///
/// Generous: a handshake needs a few round trips at zero latency, and a transfer only waits on
/// timers when an acknowledgement is being delayed.
pub const VIRTUAL_TIME_BUDGET: Duration = 120_000_000_000;

/// Rounds that a flush allows before declaring that the peers never go quiet.
pub const FLUSH_ROUND_LIMIT: usize = 100_000;

/// Unacknowledged data-channel bytes that a transfer allows before it stops queueing and lets the
/// wire drain: 1 MiB.
pub const SEND_BUFFER_LIMIT: usize = 1_048_576;

/// The port of the offerer, on the loopback address.
pub const OFFERER_PORT: u16 = 40_000;

/// The port of the answerer, on the loopback address.
pub const ANSWERER_PORT: u16 = 40_001;

/// The version 4 loopback address.
pub const LOOPBACK: u128 = 0x7F00_0001;

/// First SSRC handed to an offerer track; later tracks count up from it.
pub const FIRST_SSRC: u32 = 0x5EED_0000;

/// As many tracks as there are SSRCs to hand out.
pub const MAX_TRACKS: usize = 0xA113_0000;

/// Why a drive failed.
#[derive(Debug, Clone, Copy, PartialEq, Eq, Structural)]
pub enum PairError {
    /// There is no open data channel to transfer over.
    NoOpenChannel,
    /// The data channel is gone.
    ErrDataChannelClosed,
    /// A connection failed first.
    Failed,
    /// The virtual-time budget ran out.
    Stalled,
    /// The peers still exchange traffic after as many rounds as a flush allows.
    NeverQuiet,
    /// Fewer or more packets arrived than were sent.
    Undelivered {
        /// How many were sent.
        sent: u64,
        /// How many arrived.
        delivered: u64,
    },
}

/// Traffic that crossed the wire in one direction.
#[derive(Debug, Clone, Copy, PartialEq, Eq, Structural)]
pub struct Direction {
    /// Datagrams sent.
    pub datagrams: u64,
    /// Bytes sent, counting everything a connection produced.
    pub bytes: u64,
}

impl Default for Direction {
    fn default() -> (direction: Self)
        ensures
            direction == (Direction { datagrams: 0, bytes: 0 }),
    {
        Direction { datagrams: 0, bytes: 0 }
    }
}

/// Traffic on the wire since the pair was built.
#[derive(Debug, Clone, Copy, PartialEq, Eq, Structural)]
pub struct WireStats {
    /// Offerer to answerer.
    pub to_answerer: Direction,
    /// Answerer to offerer.
    pub to_offerer: Direction,
}

impl Default for WireStats {
    fn default() -> (wire: Self)
        ensures
            wire == quiet_wire(),
    {
        WireStats { to_answerer: Direction::default(), to_offerer: Direction::default() }
    }
}

/// A wire that nothing has crossed.
pub open spec fn quiet_wire() -> WireStats {
    WireStats {
        to_answerer: Direction { datagrams: 0, bytes: 0 },
        to_offerer: Direction { datagrams: 0, bytes: 0 },
    }
}

/// The bytes of datagrams.
pub open spec fn weight(datagrams: Seq<Seq<u8>>) -> int
    decreases datagrams.len(),
{
    if datagrams.len() == 0 {
        0
    } else {
        weight(datagrams.drop_last()) + datagrams.last().len()
    }
}

impl Direction {
    /// Whether the counts can take some datagrams.
    pub open spec fn has_room(self, datagrams: Seq<Seq<u8>>) -> bool {
        &&& self.datagrams + datagrams.len() <= u64::MAX
        &&& self.bytes + weight(datagrams) <= u64::MAX
    }

    /// The counts once some datagrams have crossed.
    pub open spec fn with(self, datagrams: Seq<Seq<u8>>) -> Direction {
        Direction {
            datagrams: (self.datagrams + datagrams.len()) as u64,
            bytes: (self.bytes + weight(datagrams)) as u64,
        }
    }

    /// Whether the counts can take some datagrams.
    pub fn takes(&self, datagrams: &VecDeque<Vec<u8>>) -> (room: bool)
        ensures
            room == self.has_room(peer::contents(datagrams@)),
    {
        let ghost all = peer::contents(datagrams@);
        let mut counts = *self;
        let mut i: usize = 0;
        assert(all.take(0) =~= Seq::empty());
        while i < datagrams.len()
            invariant
                i <= datagrams@.len(),
                all == peer::contents(datagrams@),
                self.has_room(all.take(i as int)),
                counts == self.with(all.take(i as int)),
            decreases datagrams@.len() - i,
        {
            proof {
                assert(all.take(i + 1).drop_last() =~= all.take(i as int));
                assert(all.take(i + 1).last() == datagrams@[i as int]@);
                lemma_weight_grows(all, i as int);
                lemma_weight_grows(all, i + 1);
            }
            if counts.datagrams == u64::MAX || datagrams[i].len() as u64 > u64::MAX
                - counts.bytes {
                return false;
            }
            counts.datagrams = counts.datagrams + 1;
            counts.bytes = counts.bytes + datagrams[i].len() as u64;
            i += 1;
        }
        assert(all.take(i as int) =~= all);
        true
    }
}

/// A part of some datagrams holds no more bytes than all of them.
proof fn lemma_weight_grows(datagrams: Seq<Seq<u8>>, count: int)
    requires
        0 <= count <= datagrams.len(),
    ensures
        0 <= weight(datagrams.take(count)) <= weight(datagrams),
    decreases datagrams.len(),
{
    if count < datagrams.len() {
        lemma_weight_grows(datagrams.drop_last(), count);
        assert(datagrams.drop_last().take(count) =~= datagrams.take(count));
    } else if count > 0 {
        assert(datagrams.take(count) =~= datagrams);
        lemma_weight_grows(datagrams.drop_last(), count - 1);
        assert(datagrams.drop_last().take(count - 1) =~= datagrams.drop_last());
    } else {
        assert(datagrams.take(count) =~= datagrams);
    }
}

/// Moves datagrams that one side wants to send onto the other side's queue, and counts them. Says
/// whether there were any.
pub fn transmit(datagrams: VecDeque<Vec<u8>>, to: &mut Peer, stats: &mut Direction) -> (worked:
    bool)
    requires
        old(stats).has_room(peer::contents(datagrams@)),
    ensures
        worked == (datagrams@.len() > 0),
        *final(stats) == old(stats).with(peer::contents(datagrams@)),
        final(to)@ == (peer::PeerView {
            inbound: old(to)@.inbound + peer::contents(datagrams@),
            ..old(to)@
        }),
{
    let ghost all = peer::contents(datagrams@);
    let ghost before = to@;
    let ghost counts = *stats;
    let worked = datagrams.len() > 0;
    let mut left = datagrams;
    let ghost mut moved: int = 0;
    assert(all.take(0) =~= Seq::empty());
    assert(before.inbound + all.take(0) =~= before.inbound);
    assert(all.skip(0) =~= all);
    while left.len() > 0
        invariant
            0 <= moved <= all.len(),
            counts.has_room(all),
            peer::contents(left@) == all.skip(moved),
            left@.len() == all.len() - moved,
            *stats == counts.with(all.take(moved)),
            to@ == (peer::PeerView { inbound: before.inbound + all.take(moved), ..before }),
        decreases left@.len(),
    {
        proof {
            lemma_weight_grows(all, moved);
            lemma_weight_grows(all, moved + 1);
            assert(all.take(moved + 1).drop_last() =~= all.take(moved));
            assert(peer::contents(left@)[0] == all[moved]);
        }
        let ghost had = to@.inbound;
        let ghost queue = left@;
        if let Some(datagram) = left.pop_front() {
            stats.datagrams = stats.datagrams + 1;
            stats.bytes = stats.bytes + datagram.len() as u64;
            to.inbound.push_back(datagram);
            proof {
                assert(to@.inbound =~= had.push(all[moved]));
                assert(before.inbound + all.take(moved + 1) =~= (before.inbound + all.take(
                    moved,
                )).push(all[moved]));
                assert(peer::contents(left@) =~= peer::contents(queue).skip(1));
                assert(peer::contents(left@) =~= all.skip(moved + 1));
                moved = moved + 1;
            }
        }
    }
    assert(all.take(moved) =~= all);
    worked
}

/// A decimal digit.
fn digit(value: usize) -> (text: &'static str)
    requires
        value < 10,
    ensures
        text@ == digits(value as nat),
{
    proof {
        reveal_strlit("0");
        reveal_strlit("1");
        reveal_strlit("2");
        reveal_strlit("3");
        reveal_strlit("4");
        reveal_strlit("5");
        reveal_strlit("6");
        reveal_strlit("7");
        reveal_strlit("8");
        reveal_strlit("9");
    }
    match value {
        0 => "0",
        1 => "1",
        2 => "2",
        3 => "3",
        4 => "4",
        5 => "5",
        6 => "6",
        7 => "7",
        8 => "8",
        _ => "9",
    }
}

/// The character of a decimal digit.
pub open spec fn digit_char(value: nat) -> char {
    ('0' as u32 + value) as char
}

/// A number in decimal.
pub open spec fn digits(value: nat) -> Seq<char>
    decreases value,
{
    if value < 10 {
        seq![digit_char(value)]
    } else {
        digits(value / 10).push(digit_char(value % 10))
    }
}

/// A number in decimal.
fn decimal(value: usize) -> (text: String)
    ensures
        text@ == digits(value as nat),
    decreases value,
{
    if value < 10 {
        digit(value).to_owned()
    } else {
        let mut text = decimal(value / 10);
        let last = digit(value % 10);
        assert(digits((value % 10) as nat) =~= seq![digit_char((value % 10) as nat)]);
        assert(text@ + last@ =~= digits(value as nat));
        text.append(last);
        text
    }
}

/// A name followed by a number.
fn numbered(name: &str, number: usize) -> (text: String)
    ensures
        text@ == name@ + digits(number as nat),
{
    let mut text = name.to_owned();
    let tail = decimal(number);
    text.append(tail.as_str());
    text
}

/// A track the offerer sends, with the RTP state needed to keep producing valid packets.
pub struct LocalTrack {
    /// The sender carrying this track.
    pub sender_id: usize,
    /// What the track carries.
    pub kind: MediaKind,
    /// The SSRC its encoding was given.
    pub ssrc: u32,
    /// Negotiated payload type; until negotiation, the registered one.
    pub payload_type: u8,
    /// The sequence number of its next packet.
    pub sequence_number: u16,
    /// The timestamp of its next packet.
    pub timestamp: u32,
    /// What each of its packets carries.
    pub payload: bytes::Bytes,
}

/// The model of a [`LocalTrack`].
#[verifier::ext_equal]
pub struct TrackView {
    /// The sender carrying this track.
    pub sender_id: usize,
    /// What the track carries.
    pub kind: MediaKind,
    /// The SSRC its encoding was given.
    pub ssrc: u32,
    /// Negotiated payload type; until negotiation, the registered one.
    pub payload_type: u8,
    /// The sequence number of its next packet.
    pub sequence_number: u16,
    /// The timestamp of its next packet.
    pub timestamp: u32,
    /// What each of its packets carries.
    pub payload: Seq<u8>,
}

impl View for LocalTrack {
    type V = TrackView;

    open spec fn view(&self) -> TrackView {
        TrackView {
            sender_id: self.sender_id,
            kind: self.kind,
            ssrc: self.ssrc,
            payload_type: self.payload_type,
            sequence_number: self.sequence_number,
            timestamp: self.timestamp,
            payload: rtp::content(self.payload),
        }
    }
}

/// The models of tracks.
pub open spec fn track_views(tracks: Seq<LocalTrack>) -> Seq<TrackView> {
    Seq::new(tracks.len(), |i: int| tracks[i]@)
}

/// A track that has sent nothing, the `index`th of a pair.
pub open spec fn fresh_track(kind: MediaKind, index: int, sender_id: usize) -> TrackView {
    TrackView {
        sender_id,
        kind,
        ssrc: (FIRST_SSRC + index) as u32,
        payload_type: kind.registered_type(),
        sequence_number: 0,
        timestamp: 0,
        payload: fixtures::pattern(kind.shape()),
    }
}

impl TrackView {
    /// The track's next packet.
    pub open spec fn packet(self) -> rtp::PacketView {
        rtp::PacketView {
            header: rtp::HeaderView {
                version: 2,
                payload_type: self.payload_type,
                sequence_number: self.sequence_number,
                timestamp: self.timestamp,
                ssrc: self.ssrc,
                ..rtp::empty_header()
            },
            payload: self.payload,
        }
    }

    /// The track once its next packet is made.
    pub open spec fn sent(self) -> TrackView {
        TrackView {
            sequence_number: ((self.sequence_number + 1) % 0x1_0000) as u16,
            timestamp: ((self.timestamp + self.kind.ticks()) % 0x1_0000_0000) as u32,
            ..self
        }
    }

    /// The track after so many packets.
    pub open spec fn sent_times(self, count: nat) -> TrackView
        decreases count,
    {
        if count == 0 {
            self
        } else {
            self.sent_times((count - 1) as nat).sent()
        }
    }
}

/// A track's packets form one stream: after any number of them the sequence number has moved by
/// that many, the timestamp by as many steps of the codec's clock, each modulo its width, and
/// nothing else has changed.
pub proof fn law_track_counts_on(track: TrackView, count: nat)
    ensures
        track.sent_times(count) == (TrackView {
            sequence_number: ((track.sequence_number + count) % 0x1_0000) as u16,
            timestamp: ((track.timestamp + count * track.kind.ticks()) % 0x1_0000_0000) as u32,
            ..track
        }),
    decreases count,
{
    let step = track.kind.ticks() as int;
    if count > 0 {
        let less = (count - 1) as nat;
        law_track_counts_on(track, less);
        lemma_one_step(track.timestamp as int, less as int, step);
    } else {
        assert(count * step == 0) by (nonlinear_arith)
            requires
                count == 0,
        ;
    }
}

/// One more step, modulo the width of a timestamp.
proof fn lemma_one_step(start: int, count: int, step: int)
    ensures
        ((start + count * step) % 0x1_0000_0000 + step) % 0x1_0000_0000 == (start + (count + 1)
            * step) % 0x1_0000_0000,
{
    assert((count + 1) * step == count * step + step) by (nonlinear_arith);
    let sum = start + count * step;
    assert((sum % 0x1_0000_0000 + step) % 0x1_0000_0000 == (sum + step) % 0x1_0000_0000);
}

impl LocalTrack {
    /// Makes the track's next packet.
    fn next_packet(&mut self) -> (packet: Packet)
        ensures
            packet@ == old(self)@.packet(),
            final(self)@ == old(self)@.sent(),
    {
        let packet = Packet {
            header: Header {
                version: 2,
                payload_type: self.payload_type,
                sequence_number: self.sequence_number,
                timestamp: self.timestamp,
                ssrc: self.ssrc,
                ..Header::default()
            },
            payload: rtp::bytes_clone(&self.payload),
        };
        assert(packet@ =~= old(self)@.packet());
        self.sequence_number = self.sequence_number.wrapping_add(1);
        self.timestamp = self.timestamp.wrapping_add(self.kind.timestamp_step());
        packet
    }
}

/// How the offerer is to be given a track.
pub struct TrackPlan {
    /// The stream it belongs to.
    pub stream_id: String,
    /// Its own name.
    pub track_id: String,
    /// Its label.
    pub label: String,
    /// What it carries.
    pub kind: MediaKind,
    /// The SSRC of its one encoding.
    pub ssrc: u32,
    /// The codec of its one encoding.
    pub codec: RTCRtpCodecParameters,
}

impl TrackPlan {
    /// Whether this is how the `index`th track is to be given.
    pub open spec fn plans(self, kind: MediaKind, index: nat) -> bool {
        &&& self.stream_id@ == "rtc-bench-stream-"@ + digits(index)
        &&& self.track_id@ == "rtc-bench-track-"@ + digits(index)
        &&& self.label@ == kind.name() + "-"@ + digits(index)
        &&& self.kind == kind
        &&& self.ssrc == FIRST_SSRC + index
        &&& kind.is_codec(self.codec)
    }
}

/// How one side is to be built.
pub struct PeerPlan<C> {
    /// The certificate it uses, where it is not to generate one.
    pub certificate: Option<C>,
    /// The codecs to register, and under which kind, before any interceptor attaches to them.
    pub codecs: Vec<(RTCRtpCodecParameters, RtpCodecKind)>,
    /// Whether the default interceptors are registered.
    pub default_interceptors: bool,
    /// The address of its one host candidate.
    pub addr: SocketAddr,
    /// The component of that candidate.
    pub component: u16,
    /// The network of that candidate.
    pub network: &'static str,
}

/// Whether a codec is the one registered for a kind.
pub open spec fn registers(entry: (RTCRtpCodecParameters, RtpCodecKind), kind: MediaKind) -> bool {
    &&& kind.is_codec(entry.0)
    &&& (entry.1 is Audio <==> kind is Audio)
}

impl<C> PeerPlan<C> {
    /// Whether this is how a side at `addr` is to be built.
    pub open spec fn plans(
        self,
        certificate: Option<C>,
        interceptors: Interceptors,
        addr: SocketAddr,
    ) -> bool {
        &&& self.certificate == certificate
        &&& self.codecs@.len() == 2
        &&& registers(self.codecs@[0], MediaKind::Audio)
        &&& registers(self.codecs@[1], MediaKind::Video)
        &&& self.default_interceptors == (interceptors is Default)
        &&& self.addr == addr
        &&& self.component == 1
        &&& self.network@ == "udp"@
    }
}

/// How one side is to be built.
///
/// Both kinds of codec are registered on both sides whichever tracks there are, so every pair
/// negotiates from the same set.
pub fn build_peer<C>(
    certificate: Option<C>,
    interceptors: Interceptors,
    addr: SocketAddr,
) -> (plan: PeerPlan<C>)
    ensures
        plan.plans(certificate, interceptors, addr),
{
    let mut codecs: Vec<(RTCRtpCodecParameters, RtpCodecKind)> = Vec::new();
    codecs.push((MediaKind::Audio.codec(), MediaKind::Audio.codec_kind()));
    codecs.push((MediaKind::Video.codec(), MediaKind::Video.codec_kind()));
    PeerPlan {
        certificate,
        codecs,
        default_interceptors: interceptors == Interceptors::Default,
        addr,
        component: 1,
        network: "udp",
    }
}

/// Where the offerer is.
pub open spec fn offerer_addr() -> SocketAddr {
    SocketAddr { ip: LOOPBACK, v6: false, port: OFFERER_PORT }
}

/// Where the answerer is.
pub open spec fn answerer_addr() -> SocketAddr {
    SocketAddr { ip: LOOPBACK, v6: false, port: ANSWERER_PORT }
}

/// Configures a pair. `C` stands for certificates and `D` for the settings of a data channel.
pub struct PairBuilder<C, D> {
    /// The certificates of the offerer and the answerer, where they are not to generate one.
    pub certificates: Option<(C, C)>,
    /// The interceptor chain of both sides.
    pub interceptors: Interceptors,
    /// The tracks that the offerer sends, in order.
    pub tracks: Vec<MediaKind>,
    /// The data channel that the offerer creates, if any.
    pub data_channel: Option<D>,
}

/// How a pair is to be built.
pub struct PairPlan<C, D> {
    /// The side that creates the offer, the data channel and the tracks.
    pub offerer: PeerPlan<C>,
    /// The side that answers.
    pub answerer: PeerPlan<C>,
    /// The offerer's tracks, in order.
    pub tracks: Vec<TrackPlan>,
    /// The offerer's data channel, if any.
    pub data_channel: Option<D>,
    /// The label of that data channel.
    pub channel_label: &'static str,
}

/// The certificate of the offerer.
pub open spec fn first<C>(certificates: Option<(C, C)>) -> Option<C> {
    match certificates {
        Some((offerer, _)) => Some(offerer),
        None => None,
    }
}

/// The certificate of the answerer.
pub open spec fn second<C>(certificates: Option<(C, C)>) -> Option<C> {
    match certificates {
        Some((_, answerer)) => Some(answerer),
        None => None,
    }
}

impl<C, D> PairBuilder<C, D> {
    /// Uses these certificates instead of letting each side generate one.
    ///
    /// Almost always wanted: otherwise building the pair includes two key generations.
    pub fn certificates(self, offerer: C, answerer: C) -> (builder: Self)
        ensures
            builder == (PairBuilder { certificates: Some((offerer, answerer)), ..self }),
    {
        PairBuilder { certificates: Some((offerer, answerer)), ..self }
    }

    /// Builds both sides with this interceptor chain.
    pub fn interceptors(self, interceptors: Interceptors) -> (builder: Self)
        ensures
            builder == (PairBuilder { interceptors, ..self }),
    {
        PairBuilder { interceptors, ..self }
    }

    /// Adds a track the offerer sends. May be called repeatedly.
    pub fn track(self, kind: MediaKind) -> (builder: Self)
        ensures
            builder.tracks@ == self.tracks@.push(kind),
            builder.certificates == self.certificates,
            builder.interceptors == self.interceptors,
            builder.data_channel == self.data_channel,
    {
        let mut tracks = self.tracks;
        tracks.push(kind);
        PairBuilder {
            certificates: self.certificates,
            interceptors: self.interceptors,
            tracks,
            data_channel: self.data_channel,
        }
    }

    /// Has the offerer create a data channel.
    pub fn data_channel(self, init: D) -> (builder: Self)
        ensures
            builder == (PairBuilder { data_channel: Some(init), ..self }),
    {
        PairBuilder { data_channel: Some(init), ..self }
    }

    /// How both sides are to be built and what the offerer is to be given.
    pub fn build(self) -> (plan: PairPlan<C, D>)
        requires
            self.tracks@.len() <= MAX_TRACKS,
        ensures
            plan.offerer.plans(first(self.certificates), self.interceptors, offerer_addr()),
            plan.answerer.plans(second(self.certificates), self.interceptors, answerer_addr()),
            plan.tracks@.len() == self.tracks@.len(),
            forall|i: int|
                #![trigger plan.tracks@[i]]
                0 <= i < self.tracks@.len() ==> plan.tracks@[i].plans(self.tracks@[i], i as nat),
            plan.data_channel == self.data_channel,
            plan.channel_label@ == "rtc-bench"@,
    {
        let (offerer_certificate, answerer_certificate) = match self.certificates {
            Some((offerer, answerer)) => (Some(offerer), Some(answerer)),
            None => (None, None),
        };
        let offerer = build_peer(
            offerer_certificate,
            self.interceptors,
            SocketAddr { ip: LOOPBACK, v6: false, port: OFFERER_PORT },
        );
        let answerer = build_peer(
            answerer_certificate,
            self.interceptors,
            SocketAddr { ip: LOOPBACK, v6: false, port: ANSWERER_PORT },
        );
        let mut tracks: Vec<TrackPlan> = Vec::new();
        let mut index: usize = 0;
        while index < self.tracks.len()
            invariant
                index <= self.tracks@.len() <= MAX_TRACKS,
                tracks@.len() == index,
                forall|i: int|
                    #![trigger tracks@[i]]
                    0 <= i < index ==> tracks@[i].plans(self.tracks@[i], i as nat),
            decreases self.tracks@.len() - index,
        {
            let kind = self.tracks[index];
            let mut label = kind.label().to_owned();
            label.append("-");
            let number = decimal(index);
            label.append(number.as_str());
            tracks.push(
                TrackPlan {
                    stream_id: numbered("rtc-bench-stream-", index),
                    track_id: numbered("rtc-bench-track-", index),
                    label,
                    kind,
                    ssrc: FIRST_SSRC + index as u32,
                    codec: kind.codec(),
                },
            );
            index += 1;
        }
        PairPlan {
            offerer,
            answerer,
            tracks,
            data_channel: self.data_channel,
            channel_label: "rtc-bench",
        }
    }
}

/// Two sides joined by a wire, and the virtual clock both are driven by.
pub struct PeerPair {
    /// The side that creates the offer, the data channel and the tracks.
    pub offerer: Peer,
    /// The side that answers.
    pub answerer: Peer,
    /// The virtual instant.
    pub now: Instant,
    /// Traffic on the wire so far.
    pub wire: WireStats,
    /// The offerer's tracks, in the order they were added.
    pub tracks: Vec<LocalTrack>,
    /// The track whose turn it is.
    pub next_track: usize,
    /// The offerer's data channel, if any.
    pub data_channel: Option<u16>,
}

/// The model of a [`PeerPair`].
#[verifier::ext_equal]
pub struct PairView {
    /// The side that creates the offer, the data channel and the tracks.
    pub offerer: peer::PeerView,
    /// The side that answers.
    pub answerer: peer::PeerView,
    /// The virtual instant.
    pub now: Instant,
    /// Traffic on the wire so far.
    pub wire: WireStats,
    /// The offerer's tracks, in the order they were added.
    pub tracks: Seq<TrackView>,
    /// The track whose turn it is.
    pub next_track: usize,
    /// The offerer's data channel, if any.
    pub data_channel: Option<u16>,
}

impl View for PeerPair {
    type V = PairView;

    open spec fn view(&self) -> PairView {
        PairView {
            offerer: self.offerer@,
            answerer: self.answerer@,
            now: self.now,
            wire: self.wire,
            tracks: track_views(self.tracks@),
            next_track: self.next_track,
            data_channel: self.data_channel,
        }
    }
}

/// What a drive is to do once a round is over.
#[derive(Debug, Clone, Copy, PartialEq, Eq, Structural)]
pub enum Round {
    /// Pump again.
    Again,
    /// Both sides are idle: ask for their deadlines and let the clock jump.
    Idle,
    /// Stop: what was driven for is reached.
    Reached,
    /// Stop: it will not be.
    Stop(PairError),
}

/// A transfer under way.
#[derive(Debug, Clone, Copy, PartialEq, Eq, Structural)]
pub struct Transfer {
    /// The data channel it goes over.
    pub channel: u16,
    /// How many data-channel bytes the answerer's application will have read once all is there.
    pub expected: u64,
    /// The instant after which it has stalled.
    pub deadline: Instant,
    /// Whether anything was sent since the last round.
    pub sent: bool,
}

/// What became of the last action of a transfer.
#[derive(Debug, Clone, Copy, PartialEq, Eq, Structural)]
pub enum TransferReply {
    /// No message is left to send.
    NoMessage,
    /// There is a message, and the channel is gone.
    Gone,
    /// There is a message, and so many bytes are unacknowledged.
    Outstanding(usize),
    /// A message of so many bytes was sent.
    Sent(usize),
    /// A round was pumped.
    Pumped {
        /// Whether anything happened in it.
        worked: bool,
        /// Whether a message is left to send.
        more: bool,
    },
    /// The deadlines of the offerer and the answerer.
    Deadlines(Option<Instant>, Option<Instant>),
}

/// What a transfer does next.
#[derive(Debug, Clone, Copy, PartialEq, Eq, Structural)]
pub enum TransferAction {
    /// Look whether a message is left, and how much is unacknowledged.
    Offer,
    /// Send the message.
    Send,
    /// Pump a round.
    Pump,
    /// Ask for both deadlines.
    PollTimeouts,
    /// Stop: the answerer's application has read everything.
    Finish,
    /// Stop: it failed.
    Fail(PairError),
}

/// Packets being streamed.
#[derive(Debug, Clone, Copy, PartialEq, Eq, Structural)]
pub struct Stream {
    /// How many packets are to be sent.
    pub packets: u64,
    /// How many are sent between two flushes.
    pub burst: u64,
    /// How many have been sent.
    pub sent: u64,
    /// How many the answerer's application had read before.
    pub before: u64,
}

/// One packet of a stream.
pub struct StreamSend {
    /// The sender that writes it.
    pub sender_id: usize,
    /// The packet.
    pub packet: Packet,
    /// How far the clock moves once it is written.
    pub interval: Duration,
    /// Whether a flush follows.
    pub flush: bool,
}

/// The earlier of two deadlines that are ahead of `now`, if any is.
pub open spec fn next_deadline(now: Instant, one: Option<Instant>, other: Option<Instant>) -> Option<
    Instant,
> {
    match (ahead(now, one), ahead(now, other)) {
        (Some(a), Some(b)) => Some(if a <= b {
            a
        } else {
            b
        }),
        (Some(a), None) => Some(a),
        (None, b) => b,
    }
}

/// A deadline, where it is ahead of `now`.
pub open spec fn ahead(now: Instant, deadline: Option<Instant>) -> Option<Instant> {
    match deadline {
        Some(deadline) if deadline > now => Some(deadline),
        _ => None,
    }
}

/// Where the clock stands after both sides were idle: at the earlier of the deadlines that are
/// ahead, or 1 ms on if neither is.
pub open spec fn jumped(now: Instant, one: Option<Instant>, other: Option<Instant>) -> int {
    match next_deadline(now, one, other) {
        Some(deadline) => deadline as int,
        None => now + MILLISECOND,
    }
}

/// What a round of a flush leads to, once `rounds` rounds were pumped.
pub open spec fn flushed(rounds: int, worked: bool) -> Round {
    if !worked {
        Round::Reached
    } else if rounds >= FLUSH_ROUND_LIMIT {
        Round::Stop(PairError::NeverQuiet)
    } else {
        Round::Again
    }
}

/// A codec as negotiation settled it.
pub struct NegotiatedCodec {
    /// Its media type.
    pub mime_type: String,
    /// Its payload type.
    pub payload_type: u8,
}

/// A character in lower case, where it is an ASCII letter.
pub open spec fn lower(c: char) -> char {
    if 'A' <= c <= 'Z' {
        (c as u32 + 32) as char
    } else {
        c
    }
}

/// Whether two texts are the same but for the case of ASCII letters.
pub open spec fn same_but_for_case(one: Seq<char>, other: Seq<char>) -> bool {
    &&& one.len() == other.len()
    &&& forall|i: int|
        #![trigger one[i]]
        #![trigger other[i]]
        0 <= i < one.len() ==> lower(one[i]) == lower(other[i])
}

/// `str::eq_ignore_ascii_case`: whether two texts match once ASCII letters are in one case.
pub assume_specification[ str::eq_ignore_ascii_case ](one: &str, other: &str) -> (same: bool)
    ensures
        same == same_but_for_case(one@, other@),
;

/// The payload type that negotiation settled for a media type: that of the first codec under it.
pub open spec fn settled_type(codecs: Seq<NegotiatedCodec>, mime_type: Seq<char>) -> Option<u8>
    decreases codecs.len(),
{
    if codecs.len() == 0 {
        None
    } else if same_but_for_case(codecs[0].mime_type@, mime_type) {
        Some(codecs[0].payload_type)
    } else {
        settled_type(codecs.drop_first(), mime_type)
    }
}

/// A track once negotiation settled the codecs of its sender, if it has one.
pub open spec fn settled(track: TrackView, codecs: Option<Vec<NegotiatedCodec>>) -> TrackView {
    match codecs {
        Some(codecs) => match settled_type(codecs@, track.kind.mime_type()) {
            Some(payload_type) => TrackView { payload_type, ..track },
            None => track,
        },
        None => track,
    }
}

impl PairView {
    /// Whether the track whose turn it is exists, if any does.
    pub open spec fn valid(self) -> bool {
        &&& self.tracks.len() <= MAX_TRACKS
        &&& self.tracks.len() > 0 ==> self.next_track < self.tracks.len()
    }

    /// Whether both sides are up, and the data channel, if there is one, is open on both.
    pub open spec fn is_up(self) -> bool {
        &&& self.offerer.connected
        &&& self.answerer.connected
        &&& self.data_channel is Some ==> self.offerer.open_channels.len() > 0
            && self.answerer.open_channels.len() > 0
    }

    /// Whether a reply answers what a transfer asked, and its count can take it.
    pub open spec fn expects(self, transfer: Transfer, reply: TransferReply) -> bool {
        match reply {
            TransferReply::Sent(len) => transfer.expected + len <= u64::MAX,
            TransferReply::Deadlines(one, other) => jumped(self.now, one, other) <= u64::MAX,
            _ => true,
        }
    }

    /// The pair, the transfer and what to do next, once a reply is in.
    pub open spec fn transferred(self, transfer: Transfer, reply: TransferReply) -> (
        PairView,
        Transfer,
        TransferAction,
    ) {
        match reply {
            TransferReply::NoMessage => (self, transfer, TransferAction::Pump),
            TransferReply::Gone => (
                self,
                transfer,
                TransferAction::Fail(PairError::ErrDataChannelClosed),
            ),
            TransferReply::Outstanding(bytes) => (
                self,
                transfer,
                if bytes < SEND_BUFFER_LIMIT {
                    TransferAction::Send
                } else {
                    TransferAction::Pump
                },
            ),
            TransferReply::Sent(len) => (
                self,
                Transfer { expected: (transfer.expected + len) as u64, sent: true, ..transfer },
                TransferAction::Offer,
            ),
            TransferReply::Pumped { worked, more } => if !more
                && self.answerer.received.data_channel_bytes >= transfer.expected {
                (self, transfer, TransferAction::Finish)
            } else if worked || transfer.sent {
                (self, Transfer { sent: false, ..transfer }, TransferAction::Offer)
            } else {
                (self, transfer, TransferAction::PollTimeouts)
            },
            TransferReply::Deadlines(one, other) => (
                PairView { now: jumped(self.now, one, other) as u64, ..self },
                transfer,
                if jumped(self.now, one, other) > transfer.deadline {
                    TransferAction::Fail(PairError::Stalled)
                } else {
                    TransferAction::Offer
                },
            ),
        }
    }
}

impl PeerPair {
    /// Starts configuring a pair.
    pub fn builder<C, D>() -> (builder: PairBuilder<C, D>)
        ensures
            builder.certificates is None,
            builder.interceptors is Bare,
            builder.tracks@.len() == 0,
            builder.data_channel is None,
    {
        PairBuilder {
            certificates: None,
            interceptors: Interceptors::Bare,
            tracks: Vec::new(),
            data_channel: None,
        }
    }

    /// The pair at an instant, once both sides were built as planned, with the sender of each
    /// track and the data channel that the offerer was given.
    pub fn assemble(
        tracks: &Vec<TrackPlan>,
        senders: &Vec<usize>,
        data_channel: Option<u16>,
        now: Instant,
    ) -> (pair: Self)
        requires
            tracks@.len() == senders@.len(),
            tracks@.len() <= MAX_TRACKS,
            forall|i: int|
                #![trigger tracks@[i]]
                0 <= i < tracks@.len() ==> tracks@[i].plans(tracks@[i].kind, i as nat),
        ensures
            pair@.valid(),
            pair@ == (PairView {
                offerer: peer::fresh_peer(offerer_addr(), answerer_addr()),
                answerer: peer::fresh_peer(answerer_addr(), offerer_addr()),
                now,
                wire: quiet_wire(),
                tracks: Seq::new(
                    tracks@.len(),
                    |i: int| fresh_track(tracks@[i].kind, i, senders@[i]),
                ),
                next_track: 0,
                data_channel,
            }),
    {
        let offerer = SocketAddr { ip: LOOPBACK, v6: false, port: OFFERER_PORT };
        let answerer = SocketAddr { ip: LOOPBACK, v6: false, port: ANSWERER_PORT };
        let mut local: Vec<LocalTrack> = Vec::new();
        let mut i: usize = 0;
        while i < tracks.len()
            invariant
                i <= tracks@.len() <= MAX_TRACKS,
                tracks@.len() == senders@.len(),
                local@.len() == i,
                forall|j: int|
                    #![trigger tracks@[j]]
                    0 <= j < tracks@.len() ==> tracks@[j].plans(tracks@[j].kind, j as nat),
                forall|j: int|
                    #![trigger local@[j]]
                    0 <= j < i ==> local@[j]@ == fresh_track(tracks@[j].kind, j, senders@[j]),
            decreases tracks@.len() - i,
        {
            let plan = &tracks[i];
            let track = LocalTrack {
                sender_id: senders[i],
                kind: plan.kind,
                ssrc: plan.ssrc,
                payload_type: plan.codec.payload_type,
                sequence_number: 0,
                timestamp: 0,
                payload: fixtures::payload(plan.kind.payload_len()),
            };
            assert(track@ =~= fresh_track(plan.kind, i as int, senders@[i as int]));
            local.push(track);
            i += 1;
        }
        let pair = PeerPair {
            offerer: Peer::new(offerer, answerer),
            answerer: Peer::new(answerer, offerer),
            now,
            wire: WireStats::default(),
            tracks: local,
            next_track: 0,
            data_channel,
        };
        assert(pair@.tracks =~= Seq::new(
            tracks@.len(),
            |i: int| fresh_track(tracks@[i].kind, i, senders@[i]),
        ));
        pair
    }

    /// The virtual instant both sides are currently driven at.
    pub fn now(&self) -> (now: Instant)
        ensures
            now == self@.now,
    {
        self.now
    }

    /// Moves the virtual clock forward. Due timers fire on the next round.
    pub fn advance(&mut self, by: Duration)
        requires
            old(self)@.now + by <= u64::MAX,
        ensures
            final(self)@ == (PairView { now: (old(self)@.now + by) as u64, ..old(self)@ }),
    {
        self.now = self.now + by;
    }

    /// Traffic on the wire so far.
    pub fn wire(&self) -> (wire: WireStats)
        ensures
            wire == self@.wire,
    {
        self.wire
    }

    /// The offerer's tracks, in the order they were added.
    pub fn tracks(&self) -> (tracks: &[LocalTrack])
        ensures
            track_views(tracks@) == self@.tracks,
    {
        self.tracks.as_slice()
    }

    /// Whether both sides are up, and the data channel, if there is one, is open on both.
    pub fn is_connected(&self) -> (up: bool)
        ensures
            up == self@.is_up(),
    {
        self.offerer.connected && self.answerer.connected && (self.data_channel.is_none()
            || (self.offerer.open_channels.len() > 0 && self.answerer.open_channels.len() > 0))
    }

    /// Puts everything that both sides want to send onto the other side's queue. Says whether
    /// there was anything.
    pub fn carry(
        &mut self,
        to_answerer: VecDeque<Vec<u8>>,
        to_offerer: VecDeque<Vec<u8>>,
    ) -> (worked: bool)
        requires
            old(self)@.wire.to_answerer.has_room(peer::contents(to_answerer@)),
            old(self)@.wire.to_offerer.has_room(peer::contents(to_offerer@)),
        ensures
            worked == (to_answerer@.len() > 0 || to_offerer@.len() > 0),
            final(self)@ == old(self)@.carried(
                peer::contents(to_answerer@),
                peer::contents(to_offerer@),
            ),
    {
        let one = transmit(to_answerer, &mut self.answerer, &mut self.wire.to_answerer);
        let other = transmit(to_offerer, &mut self.offerer, &mut self.wire.to_offerer);
        one || other
    }

    /// What a flush does once `rounds` rounds were pumped, the last of which did or did not work.
    pub fn flush(rounds: usize, worked: bool) -> (round: Round)
        ensures
            round == flushed(rounds as int, worked),
    {
        if !worked {
            Round::Reached
        } else if rounds >= FLUSH_ROUND_LIMIT {
            Round::Stop(PairError::NeverQuiet)
        } else {
            Round::Again
        }
    }

    /// The instant after which a drive that begins now has stalled.
    pub fn drive_deadline(&self) -> (deadline: Instant)
        requires
            self@.now + VIRTUAL_TIME_BUDGET <= u64::MAX,
        ensures
            deadline == self@.now + VIRTUAL_TIME_BUDGET,
    {
        self.now + VIRTUAL_TIME_BUDGET
    }

    /// What a drive does after a round: it stops where `done` holds, or else where a side has
    /// failed, and lets the clock jump where nothing happened.
    pub fn drive_until(&self, worked: bool, done: bool) -> (round: Round)
        ensures
            round == (if done {
                Round::Reached
            } else if self@.offerer.failed || self@.answerer.failed {
                Round::Stop(PairError::Failed)
            } else if worked {
                Round::Again
            } else {
                Round::Idle
            }),
    {
        if done {
            return Round::Reached;
        }
        if self.offerer.failed || self.answerer.failed {
            return Round::Stop(PairError::Failed);
        }
        if worked {
            Round::Again
        } else {
            Round::Idle
        }
    }

    /// Whether the clock can jump.
    pub fn can_jump(&self, offerer: Option<Instant>, answerer: Option<Instant>) -> (fits: bool)
        ensures
            fits == (jumped(self@.now, offerer, answerer) <= u64::MAX),
    {
        let one = match offerer {
            Some(deadline) => deadline > self.now,
            None => false,
        };
        let other = match answerer {
            Some(deadline) => deadline > self.now,
            None => false,
        };
        one || other || self.now <= u64::MAX - MILLISECOND
    }

    /// Jumps to the earlier of the two sides' deadlines, or 1 ms on if neither is ahead of now.
    pub fn advance_to_next_deadline(
        &mut self,
        offerer: Option<Instant>,
        answerer: Option<Instant>,
    )
        requires
            jumped(old(self)@.now, offerer, answerer) <= u64::MAX,
        ensures
            final(self)@ == (PairView {
                now: jumped(old(self)@.now, offerer, answerer) as u64,
                ..old(self)@
            }),
            final(self)@.now > old(self)@.now,
    {
        let mut next: Option<Instant> = None;
        if let Some(deadline) = offerer {
            if deadline > self.now {
                next = Some(deadline);
            }
        }
        if let Some(deadline) = answerer {
            if deadline > self.now {
                next = match next {
                    Some(first) => Some(
                        if first <= deadline {
                            first
                        } else {
                            deadline
                        },
                    ),
                    None => Some(deadline),
                };
            }
        }
        self.now = match next {
            Some(deadline) => deadline,
            None => self.now + MILLISECOND,
        };
    }

    /// Lets the clock jump while both sides are idle, and says whether a drive goes on: it has
    /// stalled once the clock is past its deadline.
    pub fn wait(
        &mut self,
        deadline: Instant,
        offerer: Option<Instant>,
        answerer: Option<Instant>,
    ) -> (round: Round)
        requires
            jumped(old(self)@.now, offerer, answerer) <= u64::MAX,
        ensures
            final(self)@ == (PairView {
                now: jumped(old(self)@.now, offerer, answerer) as u64,
                ..old(self)@
            }),
            final(self)@.now > old(self)@.now,
            round == (if final(self)@.now > deadline {
                Round::Stop(PairError::Stalled)
            } else {
                Round::Again
            }),
    {
        self.advance_to_next_deadline(offerer, answerer);
        if self.now > deadline {
            Round::Stop(PairError::Stalled)
        } else {
            Round::Again
        }
    }

    /// The next packet of track `index`, and the sender that writes it.
    ///
    /// Sequence number and timestamp advance per call, so the receiver sees a well-formed stream.
    pub fn send_rtp(&mut self, index: usize) -> (send: (usize, Packet))
        requires
            index < old(self)@.tracks.len(),
        ensures
            send.0 == old(self)@.tracks[index as int].sender_id,
            send.1@ == old(self)@.tracks[index as int].packet(),
            final(self)@ == (PairView {
                tracks: old(self)@.tracks.update(
                    index as int,
                    old(self)@.tracks[index as int].sent(),
                ),
                ..old(self)@
            }),
    {
        let ghost before = self@;
        let sender_id: usize = self.tracks[index].sender_id;
        let packet = self.tracks[index].next_packet();
        assert(self@.tracks =~= before.tracks.update(
            index as int,
            before.tracks[index as int].sent(),
        ));
        (sender_id, packet)
    }

    /// Begins to stream `packets` packets, with a flush after every `burst` of them.
    pub fn begin_stream(&self, packets: u64, burst: u64) -> (stream: Stream)
        requires
            self@.tracks.len() > 0,
            burst > 0,
        ensures
            stream == (Stream {
                packets,
                burst,
                sent: 0,
                before: self@.answerer.received.rtp_packets,
            }),
    {
        Stream { packets, burst, sent: 0, before: self.answerer.received.rtp_packets }
    }

    /// The next packet of a stream, round-robin across the offerer's tracks, or nothing once all
    /// are sent. The round-robin position carries over between streams.
    ///
    /// The clock moves by a track's packet interval divided by the number of tracks, so each track
    /// keeps its own real-world rate however many there are.
    pub fn stream_rtp(&mut self, stream: &mut Stream) -> (send: Option<StreamSend>)
        requires
            old(self)@.valid(),
            old(self)@.tracks.len() > 0,
            old(stream).burst > 0,
            old(stream).sent <= old(stream).packets,
        ensures
            final(self)@.valid(),
            final(stream).sent <= final(stream).packets,
            match send {
                Some(send) => {
                    let track = old(self)@.tracks[old(self)@.next_track as int];
                    let sent = old(stream).sent + 1;
                    &&& old(stream).sent < old(stream).packets
                    &&& send.sender_id == track.sender_id
                    &&& send.packet@ == track.packet()
                    &&& send.interval == track.kind.spacing() as int
                        / old(self)@.tracks.len() as int
                    &&& send.flush == (sent % old(stream).burst as int == 0 || sent
                        == old(stream).packets)
                    &&& final(self)@ == old(self)@.took_turn()
                    &&& *final(stream) == (Stream { sent: sent as u64, ..*old(stream) })
                },
                None => {
                    &&& old(stream).sent == old(stream).packets
                    &&& final(self)@ == old(self)@
                    &&& *final(stream) == *old(stream)
                },
            },
    {
        if stream.sent == stream.packets {
            return None;
        }
        let ghost before = self@;
        let index: usize = self.next_track;
        let count: usize = self.tracks.len();
        self.next_track = if index + 1 == count {
            0
        } else {
            index + 1
        };
        let interval: Duration = self.tracks[index].kind.packet_interval() / (count as u64);
        let (sender_id, packet) = self.send_rtp(index);
        proof {
            if index + 1 == count {
                vstd::arithmetic::div_mod::lemma_mod_self_0(count as int);
            } else {
                vstd::arithmetic::div_mod::lemma_small_mod((index + 1) as nat, count as nat);
            }
            assert(self@ =~= before.took_turn());
        }
        stream.sent = stream.sent + 1;
        let flush = stream.sent % stream.burst == 0 || stream.sent == stream.packets;
        Some(StreamSend { sender_id, packet, interval, flush })
    }

    /// Whether everything that was streamed arrived. The wire is lossless, so a shortfall means
    /// that the path under measurement dropped packets.
    pub fn end_stream(&self, stream: &Stream) -> (outcome: Result<(), PairError>)
        requires
            stream.before <= self@.answerer.received.rtp_packets,
        ensures
            match outcome {
                Ok(_) => self@.answerer.received.rtp_packets - stream.before == stream.packets,
                Err(error) => {
                    let delivered = self@.answerer.received.rtp_packets - stream.before;
                    &&& delivered != stream.packets
                    &&& error == (PairError::Undelivered {
                        sent: stream.packets,
                        delivered: delivered as u64,
                    })
                },
            },
    {
        let delivered: u64 = self.answerer.received.rtp_packets - stream.before;
        if delivered != stream.packets {
            return Err(PairError::Undelivered { sent: stream.packets, delivered });
        }
        Ok(())
    }

    /// Begins a transfer over the offerer's data channel, which must be open.
    pub fn begin_transfer(&self) -> (transfer: Result<Transfer, PairError>)
        requires
            self@.now + VIRTUAL_TIME_BUDGET <= u64::MAX,
        ensures
            match transfer {
                Ok(transfer) => {
                    &&& self@.offerer.open_channels.len() > 0
                    &&& self@.data_channel == Some(transfer.channel)
                    &&& transfer.expected == self@.answerer.received.data_channel_bytes
                    &&& transfer.deadline == self@.now + VIRTUAL_TIME_BUDGET
                    &&& !transfer.sent
                },
                Err(error) => {
                    &&& self@.data_channel is None || self@.offerer.open_channels.len() == 0
                    &&& error == PairError::NoOpenChannel
                },
            },
    {
        match self.data_channel {
            Some(channel) => {
                if self.offerer.open_channels.len() == 0 {
                    return Err(PairError::NoOpenChannel);
                }
                Ok(
                    Transfer {
                        channel,
                        expected: self.answerer.received.data_channel_bytes,
                        deadline: self.now + VIRTUAL_TIME_BUDGET,
                        sent: false,
                    },
                )
            },
            None => Err(PairError::NoOpenChannel),
        }
    }

    /// Takes what became of the last action of a transfer, and says what to do next.
    ///
    /// Messages are queued while less than the limit is unacknowledged; then rounds are pumped to
    /// let the wire drain. Where neither side has anything to do, the clock jumps to the next
    /// deadline. The transfer is over once the answerer's application has read all of it.
    pub fn transfer(
        &mut self,
        transfer: &mut Transfer,
        reply: TransferReply,
    ) -> (action: TransferAction)
        requires
            old(self)@.expects(*old(transfer), reply),
        ensures
            (final(self)@, *final(transfer), action) == old(self)@.transferred(
                *old(transfer),
                reply,
            ),
    {
        match reply {
            TransferReply::NoMessage => TransferAction::Pump,
            TransferReply::Gone => TransferAction::Fail(PairError::ErrDataChannelClosed),
            TransferReply::Outstanding(bytes) => if bytes < SEND_BUFFER_LIMIT {
                TransferAction::Send
            } else {
                TransferAction::Pump
            },
            TransferReply::Sent(len) => {
                transfer.expected = transfer.expected + len as u64;
                transfer.sent = true;
                TransferAction::Offer
            },
            TransferReply::Pumped { worked, more } => {
                if !more && self.answerer.received.data_channel_bytes >= transfer.expected {
                    return TransferAction::Finish;
                }
                if worked || transfer.sent {
                    transfer.sent = false;
                    TransferAction::Offer
                } else {
                    TransferAction::PollTimeouts
                }
            },
            TransferReply::Deadlines(offerer, answerer) => {
                self.advance_to_next_deadline(offerer, answerer);
                if self.now > transfer.deadline {
                    TransferAction::Fail(PairError::Stalled)
                } else {
                    TransferAction::Offer
                }
            },
        }
    }

    /// Sets each track's payload type to what negotiation settled on for its codec, given the
    /// codecs of each track's sender, where it has one.
    pub fn resolve_payload_types(&mut self, negotiated: &Vec<Option<Vec<NegotiatedCodec>>>)
        requires
            negotiated@.len() == old(self)@.tracks.len(),
        ensures
            final(self)@ == (PairView {
                tracks: Seq::new(
                    old(self)@.tracks.len(),
                    |i: int| settled(old(self)@.tracks[i], negotiated@[i]),
                ),
                ..old(self)@
            }),
    {
        let ghost before = self@;
        let mut i: usize = 0;
        while i < self.tracks.len()
            invariant
                i <= self.tracks@.len(),
                before.tracks.len() == negotiated@.len(),
                self@ == (PairView { tracks: self@.tracks, ..before }),
                self@.tracks.len() == before.tracks.len(),
                forall|j: int|
                    #![trigger self@.tracks[j]]
                    0 <= j < self@.tracks.len() ==> self@.tracks[j] == (if j < i {
                        settled(before.tracks[j], negotiated@[j])
                    } else {
                        before.tracks[j]
                    }),
            decreases self.tracks@.len() - i,
        {
            let ghost earlier = self@.tracks;
            let kind = self.tracks[i].kind;
            assert(self@.tracks[i as int] == before.tracks[i as int]);
            if let Some(codecs) = &negotiated[i] {
                let mime_type = kind.codec().rtp_codec.mime_type;
                let ghost all = codecs@;
                let mut k: usize = 0;
                let mut found: Option<u8> = None;
                assert(all.skip(0) =~= all);
                while k < codecs.len() && found.is_none()
                    invariant
                        k <= codecs@.len(),
                        all == codecs@,
                        mime_type@ == kind.mime_type(),
                        match found {
                            Some(payload_type) => settled_type(all, kind.mime_type()) == Some(
                                payload_type,
                            ),
                            None => settled_type(all.skip(k as int), kind.mime_type())
                                == settled_type(all, kind.mime_type()),
                        },
                    decreases codecs@.len() - k,
                {
                    assert(all.skip(k as int).drop_first() =~= all.skip(k + 1));
                    assert(all.skip(k as int)[0] == codecs@[k as int]);
                    if codecs[k].mime_type.as_str().eq_ignore_ascii_case(mime_type.as_str()) {
                        found = Some(codecs[k].payload_type);
                    }
                    k += 1;
                }
                if found.is_none() {
                    assert(all.skip(k as int).len() == 0);
                }
                if let Some(payload_type) = found {
                    self.tracks[i].payload_type = payload_type;
                }
            }
            assert(self@.tracks =~= earlier.update(
                i as int,
                settled(before.tracks[i as int], negotiated@[i as int]),
            ));
            i += 1;
        }
        assert(self@.tracks =~= Seq::new(
            before.tracks.len(),
            |i: int| settled(before.tracks[i], negotiated@[i]),
        ));
    }
}

impl PairView {
    /// The pair once datagrams have crossed in both directions.
    pub open spec fn carried(self, to_answerer: Seq<Seq<u8>>, to_offerer: Seq<Seq<u8>>) -> PairView {
        PairView {
            answerer: peer::PeerView {
                inbound: self.answerer.inbound + to_answerer,
                ..self.answerer
            },
            offerer: peer::PeerView { inbound: self.offerer.inbound + to_offerer, ..self.offerer },
            wire: WireStats {
                to_answerer: self.wire.to_answerer.with(to_answerer),
                to_offerer: self.wire.to_offerer.with(to_offerer),
            },
            ..self
        }
    }

    /// The pair once the track whose turn it is has made a packet and passed the turn on.
    pub open spec fn took_turn(self) -> PairView {
        PairView {
            tracks: self.tracks.update(
                self.next_track as int,
                self.tracks[self.next_track as int].sent(),
            ),
            next_track: ((self.next_track + 1) % self.tracks.len() as int) as usize,
            ..self
        }
    }

    /// The pair after so many turns.
    pub open spec fn took_turns(self, count: nat) -> PairView
        decreases count,
    {
        if count == 0 {
            self
        } else {
            self.took_turns((count - 1) as nat).took_turn()
        }
    }
}

/// The turn goes round: after any number of packets it has moved by that many tracks, and the
/// tracks are as many as they were.
pub proof fn law_turns_go_round(pair: PairView, count: nat)
    requires
        pair.valid(),
        pair.tracks.len() > 0,
    ensures
        pair.took_turns(count).valid(),
        pair.took_turns(count).tracks.len() == pair.tracks.len(),
        pair.took_turns(count).next_track == (pair.next_track + count) % pair.tracks.len() as int,
    decreases count,
{
    let tracks = pair.tracks.len() as int;
    if count > 0 {
        let less = (count - 1) as nat;
        law_turns_go_round(pair, less);
        vstd::arithmetic::div_mod::lemma_add_mod_noop_right(1, pair.next_track + less, tracks);
        vstd::arithmetic::div_mod::lemma_mod_bound(pair.next_track + count, tracks);
    } else {
        vstd::arithmetic::div_mod::lemma_small_mod(pair.next_track as nat, tracks as nat);
    }
}

/// Every track carries its share: once as many packets were sent as there are tracks, each track
/// has sent exactly one more, and the turn is back where it was.
pub proof fn law_every_track_has_its_turn(pair: PairView)
    requires
        pair.valid(),
        pair.tracks.len() > 0,
    ensures
        pair.took_turns(pair.tracks.len()).next_track == pair.next_track,
        forall|i: int|
            0 <= i < pair.tracks.len() ==> #[trigger] pair.took_turns(pair.tracks.len()).tracks[i]
                == pair.tracks[i].sent(),
{
    let tracks = pair.tracks.len() as int;
    lemma_turns_so_far(pair, pair.tracks.len());
    law_turns_go_round(pair, pair.tracks.len());
    vstd::arithmetic::div_mod::lemma_mod_add_multiples_vanish(pair.next_track as int, tracks);
    vstd::arithmetic::div_mod::lemma_small_mod(pair.next_track as nat, tracks as nat);
    assert forall|i: int| 0 <= i < tracks implies #[trigger] pair.took_turns(
        pair.tracks.len(),
    ).tracks[i] == pair.tracks[i].sent() by {
        assert(had_turn(pair, tracks, i)) by {
            let turn = if i >= pair.next_track {
                i - pair.next_track
            } else {
                i + tracks - pair.next_track
            };
            assert(0 <= turn < tracks);
            if i < pair.next_track {
                vstd::arithmetic::div_mod::lemma_mod_add_multiples_vanish(i, tracks);
            }
            vstd::arithmetic::div_mod::lemma_small_mod(i as nat, tracks as nat);
            assert(turn_of(pair, turn) == i);
        }
    }
}

/// The track whose turn it is after so many.
spec fn turn_of(pair: PairView, turn: int) -> int {
    (pair.next_track + turn) % pair.tracks.len() as int
}

/// Whether a track's turn was among the first so many.
spec fn had_turn(pair: PairView, count: int, track: int) -> bool {
    exists|turn: int| 0 <= turn < count && #[trigger] turn_of(pair, turn) == track
}

/// While there were no more turns than tracks, a track has sent one packet where it had a turn,
/// and none where it had not.
proof fn lemma_turns_so_far(pair: PairView, count: nat)
    requires
        pair.valid(),
        pair.tracks.len() > 0,
        count <= pair.tracks.len(),
    ensures
        pair.took_turns(count).tracks.len() == pair.tracks.len(),
        forall|i: int|
            #![trigger pair.took_turns(count).tracks[i]]
            #![trigger had_turn(pair, count as int, i)]
            0 <= i < pair.tracks.len() ==> pair.took_turns(count).tracks[i] == if had_turn(
                pair,
                count as int,
                i,
            ) {
                pair.tracks[i].sent()
            } else {
                pair.tracks[i]
            },
    decreases count,
{
    let tracks = pair.tracks.len() as int;
    if count > 0 {
        let less = (count - 1) as nat;
        lemma_turns_so_far(pair, less);
        law_turns_go_round(pair, less);
        let before = pair.took_turns(less);
        let now = before.next_track as int;
        assert(turn_of(pair, less as int) == now);
        assert(!had_turn(pair, less as int, now)) by {
            if had_turn(pair, less as int, now) {
                let turn = choose|turn: int|
                    0 <= turn < less && #[trigger] turn_of(pair, turn) == now;
                lemma_turns_differ(pair.next_track + turn, pair.next_track + less, tracks);
            }
        }
        assert forall|i: int| 0 <= i < tracks implies had_turn(pair, count as int, i) == (had_turn(
            pair,
            less as int,
            i,
        ) || i == now) by {
            if had_turn(pair, count as int, i) && i != now {
                let turn = choose|turn: int|
                    0 <= turn < count && #[trigger] turn_of(pair, turn) == i;
                assert(turn < less);
            }
            if i == now {
                assert(turn_of(pair, less as int) == i);
            }
            if had_turn(pair, less as int, i) {
                let turn = choose|turn: int| 0 <= turn < less && #[trigger] turn_of(pair, turn) == i;
                assert(turn_of(pair, turn) == i && turn < count);
            }
        }
    }
}

/// Numbers less than `tracks` apart leave different remainders.
proof fn lemma_turns_differ(one: int, other: int, tracks: int)
    requires
        0 <= one < other,
        other - one < tracks,
    ensures
        one % tracks != other % tracks,
{
    if one % tracks == other % tracks {
        vstd::arithmetic::div_mod::lemma_fundamental_div_mod(one, tracks);
        vstd::arithmetic::div_mod::lemma_fundamental_div_mod(other, tracks);
        let whole = other / tracks - one / tracks;
        assert(other - one == tracks * whole) by (nonlinear_arith)
            requires
                other - one == tracks * (other / tracks) - tracks * (one / tracks),
                whole == other / tracks - one / tracks,
        ;
        assert(false) by (nonlinear_arith)
            requires
                0 < tracks * whole < tracks,
        ;
    }
}

/// The wire loses and reorders nothing: what is carried reaches the other side's connection in its
/// next step, in order, after whatever waited there before.
pub proof fn law_wire_is_lossless(
    pair: PairView,
    to_answerer: Seq<Seq<u8>>,
    to_offerer: Seq<Seq<u8>>,
)
    ensures
        ({
            let after = pair.carried(to_answerer, to_offerer);
            let step = peer::Step { phase: peer::StepPhase::Inbound, worked: false, now: pair.now };
            &&& peer::handed_over(after.answerer, step).2 == pair.answerer.inbound + to_answerer
            &&& peer::handed_over(after.offerer, step).2 == pair.offerer.inbound + to_offerer
        }),
{
    let after = pair.carried(to_answerer, to_offerer);
    peer::law_step_hands_over_all(after.answerer, pair.now);
    peer::law_step_hands_over_all(after.offerer, pair.now);
}

/// A transfer after a run of replies, each met with the pair as it stood then.
pub open spec fn transfer_after(
    transfer: Transfer,
    replies: Seq<(PairView, TransferReply)>,
) -> Transfer
    decreases replies.len(),
{
    if replies.len() == 0 {
        transfer
    } else {
        let (pair, reply) = replies.last();
        pair.transferred(transfer_after(transfer, replies.drop_last()), reply).1
    }
}

/// The bytes that were sent in a run of replies.
pub open spec fn bytes_sent(replies: Seq<(PairView, TransferReply)>) -> int
    decreases replies.len(),
{
    if replies.len() == 0 {
        0
    } else {
        bytes_sent(replies.drop_last()) + match replies.last().1 {
            TransferReply::Sent(len) => len as int,
            _ => 0,
        }
    }
}

/// A transfer that finishes has delivered every byte: whatever happened on the way, when it stops
/// for being done, no message is left and the answerer's application has read all that was sent on
/// top of what it had read before.
pub proof fn law_finished_transfer_is_delivered(
    transfer: Transfer,
    replies: Seq<(PairView, TransferReply)>,
    pair: PairView,
    worked: bool,
    more: bool,
)
    requires
        transfer.expected + bytes_sent(replies) <= u64::MAX,
        pair.transferred(
            transfer_after(transfer, replies),
            TransferReply::Pumped { worked, more },
        ).2 is Finish,
    ensures
        !more,
        pair.answerer.received.data_channel_bytes >= transfer.expected + bytes_sent(replies),
{
    lemma_expected(transfer, replies);
}

/// What a transfer expects is what there was and what it sent.
proof fn lemma_expected(transfer: Transfer, replies: Seq<(PairView, TransferReply)>)
    requires
        transfer.expected + bytes_sent(replies) <= u64::MAX,
    ensures
        transfer_after(transfer, replies).expected == transfer.expected + bytes_sent(replies),
        bytes_sent(replies) >= 0,
    decreases replies.len(),
{
    if replies.len() > 0 {
        lemma_bytes_sent(replies.drop_last());
        lemma_expected(transfer, replies.drop_last());
    }
}

proof fn lemma_bytes_sent(replies: Seq<(PairView, TransferReply)>)
    ensures
        bytes_sent(replies) >= 0,
    decreases replies.len(),
{
    if replies.len() > 0 {
        lemma_bytes_sent(replies.drop_last());
    }
}

/// Every datagram that crosses is counted, with its bytes: counting datagrams together comes to
/// counting them one after the other.
pub proof fn law_wire_counts_every_datagram(direction: Direction, datagrams: Seq<Seq<u8>>)
    requires
        direction.has_room(datagrams),
    ensures
        datagrams.len() == 0 ==> direction.with(datagrams) == direction,
        datagrams.len() > 0 ==> {
            let before = direction.with(datagrams.drop_last());
            &&& direction.with(datagrams).datagrams == before.datagrams + 1
            &&& direction.with(datagrams).bytes == before.bytes + datagrams.last().len()
        },
{
    if datagrams.len() > 0 {
        lemma_weight(datagrams.drop_last());
    }
}

proof fn lemma_weight(datagrams: Seq<Seq<u8>>)
    ensures
        weight(datagrams) >= 0,
    decreases datagrams.len(),
{
    if datagrams.len() > 0 {
        lemma_weight(datagrams.drop_last());
    }
}

/// What crosses to one side is counted for that direction alone, and reaches that side alone.
pub proof fn law_directions_are_apart(
    pair: PairView,
    to_answerer: Seq<Seq<u8>>,
    to_offerer: Seq<Seq<u8>>,
)
    ensures
        ({
            let after = pair.carried(to_answerer, to_offerer);
            &&& after.wire.to_answerer == pair.carried(to_answerer, Seq::empty()).wire.to_answerer
            &&& after.wire.to_offerer == pair.carried(Seq::empty(), to_offerer).wire.to_offerer
            &&& after.answerer == pair.carried(to_answerer, Seq::empty()).answerer
            &&& after.offerer == pair.carried(Seq::empty(), to_offerer).offerer
            &&& to_answerer.len() == 0 ==> after.answerer == pair.answerer
                && after.wire.to_answerer == pair.wire.to_answerer
            &&& to_offerer.len() == 0 ==> after.offerer == pair.offerer && after.wire.to_offerer
                == pair.wire.to_offerer
            &&& after.tracks == pair.tracks && after.now == pair.now
        }),
{
    if to_answerer.len() == 0 {
        assert(pair.answerer.inbound + to_answerer =~= pair.answerer.inbound);
    }
    if to_offerer.len() == 0 {
        assert(pair.offerer.inbound + to_offerer =~= pair.offerer.inbound);
    }
}

/// The clock jumps forward, and no further than it may: to a deadline of one of the sides that is
/// ahead, past none that is ahead, and by a millisecond where none is.
pub proof fn law_clock_passes_no_deadline(
    now: Instant,
    one: Option<Instant>,
    other: Option<Instant>,
)
    ensures
        ({
            let next = jumped(now, one, other);
            &&& next > now
            &&& one is Some && one->Some_0 > now ==> next <= one->Some_0
            &&& other is Some && other->Some_0 > now ==> next <= other->Some_0
            &&& (one is Some && one->Some_0 > now) || (other is Some && other->Some_0 > now)
                ==> (one is Some && next == one->Some_0) || (other is Some && next
                == other->Some_0)
            &&& !(one is Some && one->Some_0 > now) && !(other is Some && other->Some_0 > now)
                ==> next == now + 1_000_000
        }),
{
}

/// A track takes the payload type of the first negotiated codec of its media type, wherever that
/// stands, and keeps its own where there is none. Nothing else of it changes.
pub proof fn law_first_codec_of_its_type_settles_a_track(
    track: TrackView,
    codecs: Vec<NegotiatedCodec>,
    i: int,
)
    ensures
        ({
            let after = settled(track, Some(codecs));
            let mime_type = track.kind.mime_type();
            &&& 0 <= i < codecs@.len() && same_but_for_case(codecs@[i].mime_type@, mime_type) && (
            forall|j: int|
                0 <= j < i ==> !same_but_for_case((#[trigger] codecs@[j]).mime_type@, mime_type))
                ==> after.payload_type == codecs@[i].payload_type
            &&& (forall|j: int|
                0 <= j < codecs@.len() ==> !same_but_for_case(
                    (#[trigger] codecs@[j]).mime_type@,
                    mime_type,
                )) ==> after.payload_type == track.payload_type
            &&& after == (TrackView { payload_type: after.payload_type, ..track })
            &&& settled(track, None) == track
        }),
{
    let mime_type = track.kind.mime_type();
    if 0 <= i < codecs@.len() && same_but_for_case(codecs@[i].mime_type@, mime_type) && (forall|
        j: int,
    |
        0 <= j < i ==> !same_but_for_case((#[trigger] codecs@[j]).mime_type@, mime_type)) {
        lemma_settled_by(codecs@, mime_type, i);
    }
    if forall|j: int|
        0 <= j < codecs@.len() ==> !same_but_for_case(
            (#[trigger] codecs@[j]).mime_type@,
            mime_type,
        ) {
        lemma_not_settled(codecs@, mime_type);
    }
}

proof fn lemma_settled_by(codecs: Seq<NegotiatedCodec>, mime_type: Seq<char>, i: int)
    requires
        0 <= i < codecs.len(),
        same_but_for_case(codecs[i].mime_type@, mime_type),
        forall|j: int|
            0 <= j < i ==> !same_but_for_case((#[trigger] codecs[j]).mime_type@, mime_type),
    ensures
        settled_type(codecs, mime_type) == Some(codecs[i].payload_type),
    decreases i,
{
    if i > 0 {
        assert(!same_but_for_case(codecs[0].mime_type@, mime_type));
        let rest = codecs.drop_first();
        assert forall|j: int| 0 <= j < i - 1 implies !same_but_for_case(
            (#[trigger] rest[j]).mime_type@,
            mime_type,
        ) by {
            assert(rest[j] == codecs[j + 1]);
        }
        lemma_settled_by(rest, mime_type, i - 1);
    }
}

proof fn lemma_not_settled(codecs: Seq<NegotiatedCodec>, mime_type: Seq<char>)
    requires
        forall|j: int|
            0 <= j < codecs.len() ==> !same_but_for_case(
                (#[trigger] codecs[j]).mime_type@,
                mime_type,
            ),
    ensures
        settled_type(codecs, mime_type) is None,
    decreases codecs.len(),
{
    if codecs.len() > 0 {
        assert(!same_but_for_case(codecs[0].mime_type@, mime_type));
        let rest = codecs.drop_first();
        assert forall|j: int| 0 <= j < rest.len() implies !same_but_for_case(
            (#[trigger] rest[j]).mime_type@,
            mime_type,
        ) by {
            assert(rest[j] == codecs[j + 1]);
        }
        lemma_not_settled(rest, mime_type);
    }
}

/// The packets of a track carry its source, payload type, number and time, its payload, and nothing
/// else.
pub proof fn law_packet_is_of_its_track(track: TrackView)
    ensures
        ({
            let packet = track.packet();
            &&& packet.header.version == 2
            &&& packet.header.ssrc == track.ssrc
            &&& packet.header.payload_type == track.payload_type
            &&& packet.header.sequence_number == track.sequence_number
            &&& packet.header.timestamp == track.timestamp
            &&& !packet.header.padding && !packet.header.extension && !packet.header.marker
            &&& packet.header.csrc.len() == 0 && packet.header.extensions.len() == 0
            &&& packet.payload == track.payload
        }),
{
}

/// No two tracks of a pair have the same source, and each begins with number 0 at time 0.
pub proof fn law_tracks_have_their_own_sources(
    one: MediaKind,
    other: MediaKind,
    i: int,
    j: int,
    sender: usize,
)
    requires
        0 <= i < j < MAX_TRACKS,
    ensures
        fresh_track(one, i, sender).ssrc != fresh_track(other, j, sender).ssrc,
        fresh_track(one, i, sender).sequence_number == 0,
        fresh_track(one, i, sender).timestamp == 0,
        fresh_track(one, i, sender).kind == one,
        fresh_track(one, i, sender).sender_id == sender,
{
}

/// A message is sent only while less than a mebibyte is unacknowledged, and where the channel is
/// gone the transfer fails as that. What is sent is expected to be read.
pub proof fn law_transfer_keeps_its_limit(pair: PairView, transfer: Transfer, reply: TransferReply)
    ensures
        ({
            let (after, next, action) = pair.transferred(transfer, reply);
            &&& action is Send <==> reply is Outstanding && reply->Outstanding_0 < 1_048_576
            &&& reply is Gone <==> action == TransferAction::Fail(PairError::ErrDataChannelClosed)
            &&& reply is NoMessage ==> action is Pump
            &&& reply is Outstanding && reply->Outstanding_0 >= 1_048_576 ==> action is Pump
            &&& !(reply is Deadlines) ==> after == pair
            &&& next.channel == transfer.channel && next.deadline == transfer.deadline
        }),
{
}

/// A transfer ends as soon as all is read: after a round it stops exactly where no message is left
/// and the other side has read what is expected. Else it offers on where anything happened or was
/// sent since the round before, and lets the clock jump where nothing did.
pub proof fn law_transfer_ends_when_all_is_read(
    pair: PairView,
    transfer: Transfer,
    worked: bool,
    more: bool,
)
    ensures
        ({
            let (_, next, action) = pair.transferred(
                transfer,
                TransferReply::Pumped { worked, more },
            );
            let read = pair.answerer.received.data_channel_bytes >= transfer.expected;
            &&& action is Finish <==> !more && read
            &&& !(action is Finish) && (worked || transfer.sent) ==> action is Offer && !next.sent
            &&& !(action is Finish) && !worked && !transfer.sent ==> action is PollTimeouts
            &&& next.expected == transfer.expected
        }),
{
}

/// A transfer stalls exactly where the clock jumps past its deadline.
pub proof fn law_transfer_stalls_past_its_deadline(
    pair: PairView,
    transfer: Transfer,
    one: Option<Instant>,
    other: Option<Instant>,
)
    requires
        jumped(pair.now, one, other) <= u64::MAX,
    ensures
        ({
            let (after, next, action) = pair.transferred(
                transfer,
                TransferReply::Deadlines(one, other),
            );
            &&& after.now > pair.now
            &&& after.now == jumped(pair.now, one, other)
            &&& after.now > transfer.deadline ==> action == TransferAction::Fail(PairError::Stalled)
            &&& after.now <= transfer.deadline ==> action is Offer
            &&& next == transfer
        }),
{
}

/// A pair is up once both sides are, with the channel open on both where there is one; one side alone
/// does not do.
pub proof fn law_pair_is_up_with_both_sides(pair: PairView)
    ensures
        pair.is_up() ==> pair.offerer.connected && pair.answerer.connected,
        pair.data_channel is Some && pair.is_up() ==> pair.offerer.open_channels.len() > 0
            && pair.answerer.open_channels.len() > 0,
        pair.offerer.connected && pair.answerer.connected && pair.data_channel is None
            ==> pair.is_up(),
        pair.offerer.connected && pair.answerer.connected && pair.offerer.open_channels.len() > 0
            && pair.answerer.open_channels.len() > 0 ==> pair.is_up(),
{
}

/// A flush is over with the first round in which nothing happens, and gives up where something still
/// happens in the hundred thousandth.
pub proof fn law_flush_ends(rounds: int, worked: bool)
    ensures
        flushed(rounds, worked) is Reached <==> !worked,
        flushed(rounds, worked) is Again <==> worked && rounds < 100_000,
        worked && rounds >= 100_000 ==> flushed(rounds, worked) == Round::Stop(
            PairError::NeverQuiet,
        ),
{
}

/// The number that decimal digits stand for.
pub open spec fn number_of(text: Seq<char>) -> int
    decreases text.len(),
{
    if text.len() == 0 {
        0
    } else {
        number_of(text.drop_last()) * 10 + (text.last() as u32 - '0' as u32)
    }
}

/// A number in decimal stands for that number, is written in digits, and has no digit too many.
pub proof fn law_decimal_is_the_number(value: nat)
    ensures
        number_of(digits(value)) == value,
        digits(value).len() > 0,
        forall|i: int| 0 <= i < digits(value).len() ==> '0' <= #[trigger] digits(value)[i] <= '9',
        value >= 10 ==> digits(value)[0] != '0',
        value < 10 ==> digits(value).len() == 1,
    decreases value,
{
    if value < 10 {
        assert(digits(value).drop_last() =~= Seq::<char>::empty());
        assert(number_of(digits(value).drop_last()) == 0);
    } else {
        law_decimal_is_the_number(value / 10);
        assert(digits(value).drop_last() =~= digits(value / 10));
        if value / 10 < 10 {
            assert(digits(value / 10)[0] == digit_char(value / 10));
        }
    }
}

} // verus!
