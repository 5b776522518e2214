//! Congestion control: what left is recorded, what the remote said about it is ingested, and an
//! estimator is driven.
//!
//! The interceptor here decides what is recorded, which packets are feedback, when the target is
//! announced, and how long a packet is waited for. The history of what left and the estimator are
//! its caller's.

use crate::message;
use crate::message::{Attribute, MessageView, Packet, PacketView, TaggedPacket};
use crate::record;
use crate::record::read_be16;
use crate::rtcp::{RtcpPacket, RtcpView};
use crate::rtp;
use crate::stream_info;
use crate::stream_info::{stream_supports_twcc, StreamInfo};
use crate::time::{Duration, Instant};
use std::collections::{HashMap, VecDeque};
use vstd::prelude::*;

verus! {

broadcast use vstd::std_specs::hash::group_hash_axioms;

/// How long an unacknowledged packet is kept before it is written off: two seconds.
pub const DEFAULT_PRUNE_HORIZON: Duration = 2_000_000_000;

/// The bits of positive infinity as a 64-bit floating point number. A larger magnitude is not a
/// number.
pub const INFINITY_BITS: u64 = 0x7FF0_0000_0000_0000;

/// Builder for [`CongestionControlInterceptor`].
pub struct CongestionControlBuilder<E> {
    estimator: E,
    prune_horizon: Duration,
}

impl<E> CongestionControlBuilder<E> {
    /// The estimator that is driven.
    pub closed spec fn drives(&self) -> E {
        self.estimator
    }

    /// How long an unacknowledged packet is kept.
    pub closed spec fn horizon(&self) -> Duration {
        self.prune_horizon
    }

    /// A builder driving `estimator`.
    pub fn new(estimator: E) -> (builder: Self)
        ensures
            builder.drives() == estimator,
            builder.horizon() == DEFAULT_PRUNE_HORIZON,
    {
        CongestionControlBuilder { estimator, prune_horizon: DEFAULT_PRUNE_HORIZON }
    }

    /// How long an unacknowledged packet is kept before it is written off.
    pub fn with_prune_horizon(self, prune_horizon: Duration) -> (builder: Self)
        ensures
            builder.drives() == self.drives(),
            builder.horizon() == prune_horizon,
    {
        CongestionControlBuilder { estimator: self.estimator, prune_horizon }
    }

    /// Builds the interceptor. `target` is the estimator's target as it is now.
    pub fn build(self, target: u64) -> (interceptor: CongestionControlInterceptor<E>)
        ensures
            interceptor.drives() == self.drives(),
            interceptor@ == (CongestionView {
                streams: Map::empty(),
                prune_horizon: self.horizon(),
                last_target: target,
                read_queue: Seq::empty(),
                write_queue: Seq::empty(),
            }),
    {
        let interceptor = CongestionControlInterceptor {
            estimator: self.estimator,
            streams: HashMap::new(),
            prune_horizon: self.prune_horizon,
            last_target: target,
            read_queue: VecDeque::new(),
            write_queue: VecDeque::new(),
        };
        proof {
            assert(interceptor@.streams =~= Map::empty());
            assert(interceptor@.read_queue =~= Seq::empty());
            assert(interceptor@.write_queue =~= Seq::empty());
        }
        interceptor
    }
}

/// What is recorded of a packet that leaves.
#[derive(Debug, Clone, Copy, PartialEq, Eq, Structural)]
pub struct Outgoing {
    /// Its stream.
    pub ssrc: u32,
    /// Its sequence number.
    pub sequence_number: u16,
    /// Its transport-wide sequence number, if it carries one.
    pub twcc_sequence_number: Option<u16>,
    /// Its size.
    pub size: usize,
    /// When it left.
    pub departure: Instant,
}

/// The transport-wide sequence number that an extension carries.
pub open spec fn transport_sequence(payload: Option<Seq<u8>>) -> Option<u16> {
    match payload {
        Some(payload) => if payload.len() >= 2 {
            Some(record::be16(payload, 0) as u16)
        } else {
            None
        },
        None => None,
    }
}

/// Whether a control packet is congestion control feedback.
pub open spec fn is_feedback(packet: RtcpView) -> bool {
    packet is TransportLayerCc || packet is CcFeedbackReport
}

/// Whether a packet holds congestion control feedback.
pub open spec fn holds_feedback(packet: PacketView) -> bool {
    packet matches PacketView::Rtcp(packets) && exists|i: int|
        0 <= i < packets.len() && is_feedback(#[trigger] packets[i])
}

/// Congestion control feedback, serialised, as the history takes it in.
#[derive(Debug, Clone, Copy)]
pub enum Feedback<'a> {
    /// Transport-wide feedback, against transport-wide sequence numbers.
    Twcc(&'a Vec<u8>),
    /// RFC 8888 feedback, stream by stream.
    Ccfb(&'a Vec<u8>),
}

/// What a control packet tells the history, if it says anything.
pub fn ingest(packet: &RtcpPacket) -> (feedback: Option<Feedback<'_>>)
    ensures
        match feedback {
            Some(Feedback::Twcc(bytes)) => packet@ == RtcpView::TransportLayerCc(bytes@),
            Some(Feedback::Ccfb(bytes)) => packet@ == RtcpView::CcFeedbackReport(bytes@),
            None => !is_feedback(packet@),
        },
{
    match packet {
        RtcpPacket::TransportLayerCc(bytes) => Some(Feedback::Twcc(bytes)),
        RtcpPacket::CcFeedbackReport(bytes) => Some(Feedback::Ccfb(bytes)),
        _ => None,
    }
}

/// Whether a packet holds congestion control feedback.
pub fn reports(packet: &Packet) -> (reported: bool)
    ensures
        reported == holds_feedback(packet@),
{
    match packet {
        Packet::Rtcp(packets) => {
            let mut i: usize = 0;
            while i < packets.len()
                invariant
                    i <= packets@.len(),
                    packet@ == PacketView::Rtcp(
                        Seq::new(packets@.len(), |j: int| packets@[j]@),
                    ),
                    forall|j: int| 0 <= j < i ==> !is_feedback((#[trigger] packets@[j])@),
                decreases packets@.len() - i,
            {
                if ingest(&packets[i]).is_some() {
                    proof {
                        let views = packet@->Rtcp_0;
                        assert(is_feedback(views[i as int]));
                    }
                    return true;
                }
                i += 1;
            }
            proof {
                let views = packet@->Rtcp_0;
                assert forall|j: int| 0 <= j < views.len() implies !is_feedback(
                    #[trigger] views[j],
                ) by {
                    assert(views[j] == packets@[j]@);
                }
            }
            false
        },
        Packet::Rtp(_) => false,
    }
}

/// The magnitude of a floating point number, as its bits without the sign.
pub open spec fn magnitude(bits: u64) -> u64 {
    bits % 0x8000_0000_0000_0000
}

/// Whether two floating point numbers, as their bits, differ as numbers. What is not a number
/// differs from everything, and the two zeros do not differ.
pub open spec fn numbers_differ(one: u64, other: u64) -> bool {
    if magnitude(one) > INFINITY_BITS || magnitude(other) > INFINITY_BITS {
        true
    } else if magnitude(one) == 0 && magnitude(other) == 0 {
        false
    } else {
        one != other
    }
}

/// Whether two floating point numbers, as their bits, differ as numbers.
fn differ(one: u64, other: u64) -> (differ: bool)
    ensures
        differ == numbers_differ(one, other),
{
    let a: u64 = one % 0x8000_0000_0000_0000;
    let b: u64 = other % 0x8000_0000_0000_0000;
    a > INFINITY_BITS || b > INFINITY_BITS || (one != other && (a != 0 || b != 0))
}

/// The model of a [`CongestionControlInterceptor`].
#[verifier::ext_equal]
pub struct CongestionView {
    /// For each stream that is sent, the identifier of its transport-wide sequence numbers.
    pub streams: Map<u32, u8>,
    /// How long an unacknowledged packet is kept.
    pub prune_horizon: Duration,
    /// The last target handed onward.
    pub last_target: u64,
    /// What goes to the application.
    pub read_queue: Seq<MessageView>,
    /// What goes to the wire.
    pub write_queue: Seq<MessageView>,
}

impl CongestionView {
    /// What is recorded of a packet of `size` bytes that leaves. Only streams that this end sends
    /// are recorded.
    pub open spec fn recorded(self, message: MessageView, size: usize) -> Option<Outgoing> {
        match message.packet {
            PacketView::Rtp(packet) => if self.streams.contains_key(packet.header.ssrc) {
                Some(
                    Outgoing {
                        ssrc: packet.header.ssrc,
                        sequence_number: packet.header.sequence_number,
                        twcc_sequence_number: transport_sequence(
                            packet.header.carried(self.streams[packet.header.ssrc]),
                        ),
                        size,
                        departure: message.now,
                    },
                )
            } else {
                None
            },
            PacketView::Rtcp(_) => None,
        }
    }

    /// The interceptor once a packet came in, with `target` the estimator's target after it. A new
    /// target is attached to the feedback that brought it.
    pub open spec fn read(self, message: MessageView, target: u64) -> CongestionView {
        if holds_feedback(message.packet) && numbers_differ(target, self.last_target) {
            CongestionView {
                last_target: target,
                read_queue: self.read_queue.push(
                    MessageView {
                        attributes: message.attributes.push(
                            Attribute::TargetBitrateChanged { bits_per_second: target },
                        ),
                        ..message
                    },
                ),
                ..self
            }
        } else {
            CongestionView { read_queue: self.read_queue.push(message), ..self }
        }
    }
}

/// Records every departing packet, and announces the estimator's target where feedback moved it.
pub struct CongestionControlInterceptor<E> {
    estimator: E,
    streams: HashMap<u32, u8>,
    prune_horizon: Duration,
    last_target: u64,
    read_queue: VecDeque<TaggedPacket>,
    write_queue: VecDeque<TaggedPacket>,
}

impl<E> View for CongestionControlInterceptor<E> {
    type V = CongestionView;

    closed spec fn view(&self) -> CongestionView {
        CongestionView {
            streams: self.streams@,
            prune_horizon: self.prune_horizon,
            last_target: self.last_target,
            read_queue: message::message_views(self.read_queue@),
            write_queue: message::message_views(self.write_queue@),
        }
    }
}

impl<E> CongestionControlInterceptor<E> {
    /// The estimator that is driven.
    pub closed spec fn drives(&self) -> E {
        self.estimator
    }

    /// The estimator, for reading its stats.
    pub fn estimator(&self) -> (estimator: &E)
        ensures
            *estimator == self.drives(),
    {
        &self.estimator
    }

    /// The estimator, for driving it.
    pub fn estimator_mut(&mut self) -> (estimator: &mut E)
        ensures
            *estimator == old(self).drives(),
            final(self).drives() == *final(estimator),
            final(self)@ == old(self)@,
    {
        &mut self.estimator
    }

    /// The transport-wide sequence number that a packet carries.
    fn twcc_sequence_number(&self, rtp_packet: &rtp::Packet) -> (number: Option<u16>)
        ensures
            number == if self@.streams.contains_key(rtp_packet@.header.ssrc) {
                transport_sequence(
                    rtp_packet@.header.carried(self@.streams[rtp_packet@.header.ssrc]),
                )
            } else {
                None
            },
    {
        match self.streams.get(&rtp_packet.header.ssrc) {
            Some(id) => match rtp_packet.header.get_extension(*id) {
                Some(payload) => {
                    if payload.len() >= 2 {
                        Some(read_be16(payload, 0))
                    } else {
                        None
                    }
                },
                None => None,
            },
            None => None,
        }
    }

    /// Takes a packet from the wire. `target` is the estimator's target once the feedback in it, if
    /// there is any, was ingested; a packet without feedback announces nothing.
    pub fn handle_read(&mut self, msg: TaggedPacket, target: u64)
        ensures
            final(self).drives() == old(self).drives(),
            final(self)@ == old(self)@.read(msg@, target),
    {
        let ghost before = self@;
        let ghost came = msg@;
        let mut msg: TaggedPacket = msg;
        if reports(&msg.message.packet) && differ(target, self.last_target) {
            self.last_target = target;
            // Onto this packet: what is application-ward of here reads it on its way past.
            let TaggedPacket { now, transport, message } = msg;
            msg = TaggedPacket {
                now,
                transport,
                message: message.with(Attribute::TargetBitrateChanged { bits_per_second: target }),
            };
        }
        let ghost goes = msg@;
        self.read_queue.push_back(msg);
        proof {
            assert(self@.read_queue =~= before.read_queue.push(goes));
            assert(self@ =~= before.read(came, target));
        }
    }

    /// Hands the next packet to the application.
    pub fn poll_read(&mut self) -> (msg: Option<TaggedPacket>)
        ensures
            final(self).drives() == old(self).drives(),
            match msg {
                Some(msg) => {
                    &&& old(self)@.read_queue.len() > 0
                    &&& msg@ == old(self)@.read_queue[0]
                    &&& final(self)@ == (CongestionView {
                        read_queue: old(self)@.read_queue.skip(1),
                        ..old(self)@
                    })
                },
                None => old(self)@.read_queue.len() == 0 && final(self)@ == old(self)@,
            },
    {
        let ghost before = self@;
        match self.read_queue.pop_front() {
            Some(msg) => {
                proof {
                    assert(before.read_queue[0] == msg@);
                    assert(self@.read_queue =~= before.read_queue.skip(1));
                }
                Some(msg)
            },
            None => {
                assert(self@ =~= before);
                None
            },
        }
    }

    /// Takes a packet of `size` bytes from the application, and says what is to be recorded of it.
    pub fn handle_write(&mut self, msg: TaggedPacket, size: usize) -> (record: Option<Outgoing>)
        ensures
            final(self).drives() == old(self).drives(),
            record == old(self)@.recorded(msg@, size),
            final(self)@ == (CongestionView {
                write_queue: old(self)@.write_queue.push(msg@),
                ..old(self)@
            }),
    {
        let ghost before = self@;
        let ghost came = msg@;
        let record: Option<Outgoing> = match &msg.message.packet {
            Packet::Rtp(rtp_packet) => {
                let twcc_sequence_number: Option<u16> = self.twcc_sequence_number(rtp_packet);
                if self.streams.contains_key(&rtp_packet.header.ssrc) {
                    Some(
                        Outgoing {
                            ssrc: rtp_packet.header.ssrc,
                            sequence_number: rtp_packet.header.sequence_number,
                            twcc_sequence_number,
                            size,
                            // The pacer has run already: this is when the packet leaves.
                            departure: msg.now,
                        },
                    )
                } else {
                    None
                }
            },
            Packet::Rtcp(_) => None,
        };
        self.write_queue.push_back(msg);
        assert(self@.write_queue =~= before.write_queue.push(came));
        record
    }

    /// Hands the next packet to the wire.
    pub fn poll_write(&mut self) -> (msg: Option<TaggedPacket>)
        ensures
            final(self).drives() == old(self).drives(),
            match msg {
                Some(msg) => {
                    &&& old(self)@.write_queue.len() > 0
                    &&& msg@ == old(self)@.write_queue[0]
                    &&& final(self)@ == (CongestionView {
                        write_queue: old(self)@.write_queue.skip(1),
                        ..old(self)@
                    })
                },
                None => old(self)@.write_queue.len() == 0 && final(self)@ == old(self)@,
            },
    {
        let ghost before = self@;
        match self.write_queue.pop_front() {
            Some(msg) => {
                proof {
                    assert(before.write_queue[0] == msg@);
                    assert(self@.write_queue =~= before.write_queue.skip(1));
                }
                Some(msg)
            },
            None => {
                assert(self@ =~= before);
                None
            },
        }
    }

    /// Packets that left before this are written off.
    pub fn prune_limit(&self, now: Instant) -> (limit: Instant)
        ensures
            limit == if now >= self@.prune_horizon {
                now - self@.prune_horizon
            } else {
                now as int
            },
    {
        match now.checked_sub(self.prune_horizon) {
            Some(limit) => limit,
            None => now,
        }
    }

    /// A stream is sent from now on. One without transport-wide sequence numbers is recorded too.
    pub fn bind_local_stream(&mut self, info: &StreamInfo)
        ensures
            final(self).drives() == old(self).drives(),
            final(self)@ == (CongestionView {
                streams: old(self)@.streams.insert(
                    info.ssrc,
                    match stream_info::transport_cc_id(info.rtp_header_extensions@) {
                        Some(id) => id,
                        None => 0,
                    },
                ),
                ..old(self)@
            }),
    {
        let hdr_ext_id: u8 = match stream_supports_twcc(info) {
            Some(id) => id,
            None => 0,
        };
        self.streams.insert(info.ssrc, hdr_ext_id);
    }

    /// A stream is not sent any more.
    pub fn unbind_local_stream(&mut self, info: &StreamInfo)
        ensures
            final(self).drives() == old(self).drives(),
            final(self)@ == (CongestionView {
                streams: old(self)@.streams.remove(info.ssrc),
                ..old(self)@
            }),
    {
        self.streams.remove(&info.ssrc);
    }
}

/// A target that is a number is announced once: the same target again is not attached.
pub proof fn law_target_is_announced_once(
    interceptor: CongestionView,
    first: MessageView,
    second: MessageView,
    target: u64,
)
    requires
        magnitude(target) <= INFINITY_BITS,
    ensures
        ({
            let once = interceptor.read(first, target);
            holds_feedback(first.packet) ==> once.read(second, target).read_queue.last() == second
        }),
{
}

/// Whatever the target, a packet is handed on as it came, with at most one thing added.
pub proof fn law_packets_are_handed_on(
    interceptor: CongestionView,
    message: MessageView,
    target: u64,
)
    ensures
        ({
            let after = interceptor.read(message, target);
            let last = after.read_queue.last();
            &&& after.read_queue.drop_last() == interceptor.read_queue
            &&& last.packet == message.packet
            &&& last.now == message.now
            &&& last.transport == message.transport
            &&& last.attributes.take(message.attributes.len() as int) == message.attributes
            &&& last.attributes.len() <= message.attributes.len() + 1
        }),
{
    let after = interceptor.read(message, target);
    assert(after.read_queue.drop_last() =~= interceptor.read_queue);
    assert(after.read_queue.last().attributes.take(message.attributes.len() as int)
        =~= message.attributes);
}

/// Every media packet of a stream that this end sends is recorded, with its stream, its number, its
/// size and when it left. Its transport-wide number is the two bytes, the higher one first, that the
/// first extension with the stream's identifier begins with.
pub proof fn law_departing_packet_is_recorded(
    interceptor: CongestionView,
    message: MessageView,
    packet: rtp::PacketView,
    size: usize,
    i: int,
)
    requires
        message.packet == PacketView::Rtp(packet),
        interceptor.streams.contains_key(packet.header.ssrc),
    ensures
        ({
            let id = interceptor.streams[packet.header.ssrc];
            let extensions = packet.header.extensions;
            &&& interceptor.recorded(message, size) matches Some(record)
            &&& record.ssrc == packet.header.ssrc
            &&& record.sequence_number == packet.header.sequence_number
            &&& record.size == size
            &&& record.departure == message.now
            &&& packet.header.extension && 0 <= i < extensions.len() && extensions[i].id == id && (
            forall|j: int| 0 <= j < i ==> (#[trigger] extensions[j]).id != id) ==> {
                &&& extensions[i].payload.len() < 2 ==> record.twcc_sequence_number is None
                &&& extensions[i].payload.len() >= 2 ==> record.twcc_sequence_number == Some(
                    (extensions[i].payload[0] * 256 + extensions[i].payload[1]) as u16,
                )
            }
            &&& !packet.header.extension || (forall|j: int|
                0 <= j < extensions.len() ==> (#[trigger] extensions[j]).id != id)
                ==> record.twcc_sequence_number is None
        }),
{
    let id = interceptor.streams[packet.header.ssrc];
    let extensions = packet.header.extensions;
    if packet.header.extension && 0 <= i < extensions.len() && extensions[i].id == id && (forall|
        j: int,
    |
        0 <= j < i ==> (#[trigger] extensions[j]).id != id) {
        rtp::law_extension_is_found(packet.header, id, i);
    }
    if !packet.header.extension || (forall|j: int|
        0 <= j < extensions.len() ==> (#[trigger] extensions[j]).id != id) {
        rtp::law_no_extension_is_found(packet.header, id);
    }
}

/// Nothing is recorded of a packet of another stream, nor of control packets.
pub proof fn law_nothing_else_is_recorded(
    interceptor: CongestionView,
    message: MessageView,
    size: usize,
)
    requires
        match message.packet {
            PacketView::Rtp(packet) => !interceptor.streams.contains_key(packet.header.ssrc),
            PacketView::Rtcp(_) => true,
        },
    ensures
        interceptor.recorded(message, size) is None,
{
}

/// A new target is announced on the feedback that brought it, wherever in its packet the feedback
/// stands: two targets that are numbers are the same where their bits are or both are a zero.
pub proof fn law_new_target_is_announced(
    interceptor: CongestionView,
    message: MessageView,
    packets: Seq<RtcpView>,
    i: int,
    target: u64,
)
    requires
        message.packet == PacketView::Rtcp(packets),
        0 <= i < packets.len(),
        packets[i] is TransportLayerCc || packets[i] is CcFeedbackReport,
    ensures
        ({
            let after = interceptor.read(message, target);
            let before = interceptor.last_target;
            let numbers = target % 0x8000_0000_0000_0000 <= 0x7FF0_0000_0000_0000 && before
                % 0x8000_0000_0000_0000 <= 0x7FF0_0000_0000_0000;
            let zeros = target % 0x8000_0000_0000_0000 == 0 && before % 0x8000_0000_0000_0000 == 0;
            let same = numbers && (target == before || zeros);
            &&& same ==> after.read_queue.last() == message && after.last_target == before
            &&& !same ==> {
                &&& after.read_queue.last().attributes == message.attributes.push(
                    Attribute::TargetBitrateChanged { bits_per_second: target },
                )
                &&& after.last_target == target
            }
            &&& after.streams == interceptor.streams
            &&& after.write_queue == interceptor.write_queue
        }),
{
    let held = message.packet->Rtcp_0;
    assert(is_feedback(held[i]));
    assert(holds_feedback(message.packet));
}

/// A packet without feedback announces nothing, whatever the target.
pub proof fn law_nothing_is_announced_without_feedback(
    interceptor: CongestionView,
    message: MessageView,
    target: u64,
)
    requires
        message.packet matches PacketView::Rtcp(packets) ==> forall|i: int|
            0 <= i < packets.len() ==> !((#[trigger] packets[i]) is TransportLayerCc || packets[i]
                is CcFeedbackReport),
    ensures
        interceptor.read(message, target).read_queue.last() == message,
        interceptor.read(message, target).last_target == interceptor.last_target,
{
}

} // verus!
