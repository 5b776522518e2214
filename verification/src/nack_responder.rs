//! NACK responder: sends packets again that the other side asks for.

use crate::error::Error;
use crate::maps::keys_of;
use crate::message;
use crate::message::{Attribute, AttributedPacket, MessageView, Packet, PacketView, TaggedPacket};
use crate::rtcp;
use crate::rtcp::{NackPair, RtcpPacket, RtcpView, TransportLayerNack};
use crate::rtp;
use crate::rtp::{bytes_from, bytes_slice};
use crate::send_buffer::{HistoryLimits, SendBuffer, SendView};
use crate::seqnum;
use crate::stream_info::{stream_supports_nack, StreamInfo};
use crate::time::{Duration, Instant};
use crate::transport;
use crate::transport::TransportContext;
use std::collections::{HashMap, VecDeque};
use vstd::prelude::*;

verus! {

broadcast use vstd::std_specs::hash::group_hash_axioms;

/// Builder for the [`NackResponderInterceptor`].
pub struct NackResponderBuilder {
    /// Size of the send buffer (must be power of 2: 1, 2, 4, ..., 32768).
    pub size: u16,
    /// Retransmission history limits beyond the packet count.
    pub limits: HistoryLimits,
}

/// Default for how long a sent packet stays retransmittable.
pub const DEFAULT_MAX_AGE: Duration = 3_000_000_000;

impl Default for NackResponderBuilder {
    fn default() -> (builder: Self)
        ensures
            builder == (NackResponderBuilder {
                size: 1024,
                limits: HistoryLimits { max_bytes: usize::MAX, max_age: Some(DEFAULT_MAX_AGE) },
            }),
    {
        NackResponderBuilder {
            size: 1024,
            limits: HistoryLimits { max_bytes: usize::MAX, max_age: Some(DEFAULT_MAX_AGE) },
        }
    }
}

impl NackResponderBuilder {
    /// Create a new builder with default settings.
    pub fn new() -> (builder: Self)
        ensures
            builder == (NackResponderBuilder {
                size: 1024,
                limits: HistoryLimits { max_bytes: usize::MAX, max_age: Some(DEFAULT_MAX_AGE) },
            }),
    {
        NackResponderBuilder::default()
    }

    /// Set the size of the send buffer.
    ///
    /// Size must be a power of 2 between 1 and 32768 (inclusive). Larger buffers can retransmit
    /// older packets but use more memory.
    pub fn with_size(self, size: u16) -> (builder: Self)
        ensures
            builder == (NackResponderBuilder { size, ..self }),
    {
        NackResponderBuilder { size, ..self }
    }

    /// Bound each stream's history by the payload bytes it keeps alive, as well as by packet
    /// count. Unbounded by default, so the packet count alone applies.
    ///
    /// When the limit is exceeded the oldest packets are dropped first. The most recent packet is
    /// always kept.
    pub fn with_max_bytes(self, max_bytes: usize) -> (builder: Self)
        ensures
            builder == (NackResponderBuilder {
                limits: HistoryLimits { max_bytes, max_age: self.limits.max_age },
                ..self
            }),
    {
        NackResponderBuilder {
            limits: HistoryLimits { max_bytes, max_age: self.limits.max_age },
            ..self
        }
    }

    /// How long a sent packet stays available for retransmission. Default: 3 seconds.
    ///
    /// `None` keeps packets until the packet count or byte limit displaces them.
    pub fn with_max_age(self, max_age: Option<Duration>) -> (builder: Self)
        ensures
            builder == (NackResponderBuilder {
                limits: HistoryLimits { max_bytes: self.limits.max_bytes, max_age },
                ..self
            }),
    {
        NackResponderBuilder {
            limits: HistoryLimits { max_bytes: self.limits.max_bytes, max_age },
            ..self
        }
    }

    /// Build the interceptor.
    pub fn build(self) -> (responder: NackResponderInterceptor)
        ensures
            responder.wf(),
            responder@ == (ResponderView {
                size: self.size,
                limits: self.limits,
                streams: Map::empty(),
                write_queue: Seq::empty(),
                read_queue: Seq::empty(),
            }),
    {
        let responder = NackResponderInterceptor {
            size: self.size,
            limits: self.limits,
            streams: HashMap::new(),
            write_queue: VecDeque::new(),
            read_queue: VecDeque::new(),
        };
        proof {
            assert(responder@.streams =~= Map::empty());
            assert(responder@.write_queue =~= Seq::empty());
            assert(responder@.read_queue =~= Seq::empty());
        }
        responder
    }
}

/// Per-stream state for the responder.
struct LocalStream {
    /// Buffer of sent packets for retransmission.
    send_buffer: SendBuffer,
    /// RTX SSRC for RFC 4588 retransmission (if configured).
    ssrc_rtx: Option<u32>,
    /// RTX payload type for RFC 4588 retransmission (if configured).
    payload_type_rtx: Option<u8>,
    /// Sequence number counter for RTX packets.
    rtx_sequence_number: u16,
}

/// The model of one local stream.
#[verifier::ext_equal]
pub struct LocalStreamView {
    /// The packets that can be sent again.
    pub buffer: SendView,
    /// The source of retransmissions, where they have one of their own.
    pub ssrc_rtx: Option<u32>,
    /// The payload type of retransmissions, where they have one of their own.
    pub payload_type_rtx: Option<u8>,
    /// The sequence number of the next retransmission that has a source of its own.
    pub rtx_sequence_number: u16,
}

impl LocalStream {
    spec fn view(&self) -> LocalStreamView {
        LocalStreamView {
            buffer: self.send_buffer@,
            ssrc_rtx: self.ssrc_rtx,
            payload_type_rtx: self.payload_type_rtx,
            rtx_sequence_number: self.rtx_sequence_number,
        }
    }
}

/// A packet sent again as RFC 4588 has it: under a source, a payload type and a sequence number of
/// its own, with the original sequence number in front of the payload.
pub open spec fn rtx_packet(
    original: rtp::PacketView,
    ssrc: u32,
    payload_type: u8,
    sequence_number: u16,
) -> rtp::PacketView {
    let seq = original.header.sequence_number;
    rtp::PacketView {
        header: rtp::HeaderView {
            version: 2,
            ssrc,
            payload_type,
            sequence_number,
            timestamp: original.header.timestamp,
            marker: original.header.marker,
            ..rtp::empty_header()
        },
        payload: seq![(seq / 256) as u8, (seq % 256) as u8] + original.payload,
    }
}

/// The message that carries a packet sent again.
pub open spec fn resent_message(packet: rtp::PacketView, now: Instant) -> MessageView {
    MessageView {
        now,
        transport: transport::unaddressed(),
        packet: PacketView::Rtp(packet),
        attributes: seq![Attribute::Retransmission],
    }
}

impl LocalStreamView {
    /// Whether retransmissions have a source and a payload type of their own.
    pub open spec fn has_rtx(self) -> bool {
        self.ssrc_rtx is Some && self.payload_type_rtx is Some
    }

    /// The packet that is sent for one that was asked for.
    pub open spec fn resend(self, original: rtp::PacketView) -> rtp::PacketView {
        if self.has_rtx() {
            rtx_packet(
                original,
                self.ssrc_rtx->0,
                self.payload_type_rtx->0,
                self.rtx_sequence_number,
            )
        } else {
            original
        }
    }

    /// The stream after one packet was sent again.
    pub open spec fn after_resend(self) -> LocalStreamView {
        if self.has_rtx() {
            LocalStreamView {
                rtx_sequence_number: self.rtx_sequence_number.wrapping_add(1),
                ..self
            }
        } else {
            self
        }
    }

    /// The stream after it was asked for these numbers.
    pub open spec fn after_request(self, asked: Seq<u16>, now: Instant) -> LocalStreamView
        decreases asked.len(),
    {
        if asked.len() == 0 {
            self
        } else {
            let before = self.after_request(asked.drop_last(), now);
            if self.buffer.get(asked.last(), now) is Some {
                before.after_resend()
            } else {
                before
            }
        }
    }

    /// The messages that answer a request for these numbers, in the order of the request. Numbers
    /// that are not in the history are passed over, and those asked for twice are sent twice.
    pub open spec fn answers(self, asked: Seq<u16>, now: Instant) -> Seq<MessageView>
        decreases asked.len(),
    {
        if asked.len() == 0 {
            Seq::empty()
        } else {
            let before = self.answers(asked.drop_last(), now);
            match self.buffer.get(asked.last(), now) {
                Some(original) => before.push(
                    resent_message(
                        self.after_request(asked.drop_last(), now).resend(original),
                        now,
                    ),
                ),
                None => before,
            }
        }
    }
}

/// Interceptor that responds to NACK requests by retransmitting packets.
///
/// This interceptor buffers outgoing RTP packets on local streams and retransmits them when RTCP
/// TransportLayerNack packets are received.
pub struct NackResponderInterceptor {
    size: u16,
    limits: HistoryLimits,
    /// Send buffers per local stream SSRC
    streams: HashMap<u32, LocalStream>,
    /// Queue for outgoing packets
    write_queue: VecDeque<TaggedPacket>,
    /// Inbound packets ready for the next interceptor.
    read_queue: VecDeque<TaggedPacket>,
}

/// The model of a [`NackResponderInterceptor`].
#[verifier::ext_equal]
pub struct ResponderView {
    /// Size of a send buffer.
    pub size: u16,
    /// Limits of a send buffer.
    pub limits: HistoryLimits,
    /// The local streams.
    pub streams: Map<u32, LocalStreamView>,
    /// Outgoing packets.
    pub write_queue: Seq<MessageView>,
    /// Incoming packets.
    pub read_queue: Seq<TaggedPacket>,
}

impl View for NackResponderInterceptor {
    type V = ResponderView;

    closed spec fn view(&self) -> ResponderView {
        ResponderView {
            size: self.size,
            limits: self.limits,
            streams: self.streams@.map_values(|stream: LocalStream| stream.view()),
            write_queue: message::message_views(self.write_queue@),
            read_queue: self.read_queue@,
        }
    }
}

impl ResponderView {
    /// The state after a request: the answers are queued behind what was queued before. A request
    /// for an unknown stream changes nothing.
    pub open spec fn nacked(self, media_ssrc: u32, nacks: Seq<NackPair>, now: Instant) -> ResponderView {
        if self.streams.contains_key(media_ssrc) {
            let stream = self.streams[media_ssrc];
            ResponderView {
                streams: self.streams.insert(
                    media_ssrc,
                    stream.after_request(rtcp::listed(nacks), now),
                ),
                write_queue: self.write_queue + stream.answers(rtcp::listed(nacks), now),
                ..self
            }
        } else {
            self
        }
    }

    /// The state after the requests in a compound packet.
    pub open spec fn nacked_by(self, packets: Seq<RtcpView>, now: Instant) -> ResponderView
        decreases packets.len(),
    {
        if packets.len() == 0 {
            self
        } else {
            let before = self.nacked_by(packets.drop_last(), now);
            match packets.last() {
                RtcpView::TransportLayerNack { media_ssrc, nacks, .. } => before.nacked(
                    media_ssrc,
                    nacks,
                    now,
                ),
                _ => before,
            }
        }
    }
}

/// Whether the buffer's deadline, if it has one, can be told.
pub open spec fn deadline_fits(buffer: SendView) -> bool {
    buffer.expires_at() matches Some(at) ==> at <= u64::MAX
}

impl NackResponderInterceptor {
    /// Every buffer is well formed, has the limits that were configured, and a deadline that can
    /// be told.
    pub closed spec fn wf(&self) -> bool {
        forall|ssrc: u32| #[trigger]
            self.streams@.contains_key(ssrc) ==> {
                &&& self.streams@[ssrc].send_buffer.wf()
                &&& self.streams@[ssrc].send_buffer@.limits == self.limits
                &&& deadline_fits(self.streams@[ssrc].send_buffer@)
            }
    }

    /// Handle a NACK request by queuing retransmissions.
    ///
    /// Retransmits in the order the request lists them: pair by pair, each pair's base packet
    /// first and then the packets its bitmask names, ascending (wrapping).
    fn handle_nack(&mut self, now: Instant, nack: &TransportLayerNack)
        requires
            old(self).wf(),
        ensures
            final(self).wf(),
            final(self)@ == old(self)@.nacked(nack.media_ssrc, nack.nacks@, now),
    {
        let ghost before = self@;
        let media_ssrc: u32 = nack.media_ssrc;
        let mut stream = match self.streams.remove(&media_ssrc) {
            Some(stream) => stream,
            None => {
                assert(self@ =~= before);
                return;
            },
        };
        let ghost first = stream.view();
        let ghost others = self.streams@;
        let mut i: usize = 0;
        assert(message::message_views(self.write_queue@) =~= before.write_queue + first.answers(
            rtcp::listed(nack.nacks@.subrange(0, 0)),
            now,
        ));
        while i < nack.nacks.len()
            invariant
                i <= nack.nacks@.len(),
                self.size == before.size,
                self.limits == before.limits,
                self.streams@ == others,
                self.read_queue@ == before.read_queue,
                stream.send_buffer.wf(),
                stream.send_buffer@ == first.buffer,
                stream.view() == first.after_request(
                    rtcp::listed(nack.nacks@.subrange(0, i as int)),
                    now,
                ),
                message::message_views(self.write_queue@) == before.write_queue + first.answers(
                    rtcp::listed(nack.nacks@.subrange(0, i as int)),
                    now,
                ),
            decreases nack.nacks@.len() - i,
        {
            let list: Vec<u16> = nack.nacks[i].packet_list();
            let ghost earlier = rtcp::listed(nack.nacks@.subrange(0, i as int));
            let mut k: usize = 0;
            assert(earlier + list@.subrange(0, 0) =~= earlier);
            while k < list.len()
                invariant
                    k <= list@.len(),
                    self.size == before.size,
                    self.limits == before.limits,
                    self.streams@ == others,
                    self.read_queue@ == before.read_queue,
                    stream.send_buffer.wf(),
                    stream.send_buffer@ == first.buffer,
                    stream.view() == first.after_request(
                        earlier + list@.subrange(0, k as int),
                        now,
                    ),
                    message::message_views(self.write_queue@) == before.write_queue + first.answers(
                        earlier + list@.subrange(0, k as int),
                        now,
                    ),
                decreases list@.len() - k,
            {
                let seq: u16 = list[k];
                let ghost done = earlier + list@.subrange(0, k as int);
                let ghost next = earlier + list@.subrange(0, k + 1);
                assert(next.drop_last() =~= done);
                assert(next.last() == seq);
                let found: Option<rtp::Packet> = match stream.send_buffer.get(seq, now) {
                    Some(original) => Some(original.duplicate()),
                    None => None,
                };
                if let Some(original) = found {
                    let ghost queued = self.write_queue@;
                    let packet = resend(&mut stream, &original);
                    // Tagged so a send history downstream counts it as new bytes on the wire
                    // rather than as the original transmission.
                    let message = AttributedPacket::new(Packet::Rtp(packet)).with(
                        Attribute::Retransmission,
                    );
                    let tagged = TaggedPacket {
                        now,
                        transport: TransportContext::default(),
                        message,
                    };
                    proof {
                        let answer = resent_message(
                            first.after_request(done, now).resend(original@),
                            now,
                        );
                        assert(tagged.message.attributes@ =~= seq![Attribute::Retransmission]);
                        assert(tagged@ == answer);
                        assert(message::message_views(queued.push(tagged)) =~= message::message_views(queued).push(
                            answer,
                        ));
                    }
                    self.write_queue.push_back(tagged);
                    assert(message::message_views(self.write_queue@) =~= before.write_queue + first.answers(
                        next,
                        now,
                    ));
                }
                k = k + 1;
            }
            proof {
                let shorter = nack.nacks@.subrange(0, i as int);
                let longer = nack.nacks@.subrange(0, i + 1);
                assert(longer.drop_last() =~= shorter);
                assert(list@.subrange(0, list@.len() as int) =~= list@);
            }
            i = i + 1;
        }
        proof {
            assert(nack.nacks@.subrange(0, nack.nacks@.len() as int) =~= nack.nacks@);
        }
        let ghost last = stream.view();
        self.streams.insert(media_ssrc, stream);
        proof {
            assert(self@.streams =~= before.streams.insert(media_ssrc, last));
            assert(self@ =~= before.nacked(media_ssrc, nack.nacks@, now));
        }
    }

    /// Take in an inbound packet: answer the requests in it, and hand it on.
    pub fn handle_read(&mut self, msg: TaggedPacket) -> (result: Result<(), Error>)
        requires
            old(self).wf(),
        ensures
            final(self).wf(),
            result is Ok,
            final(self)@ == ({
                let answered = match msg@.packet {
                    PacketView::Rtcp(packets) => old(self)@.nacked_by(packets, msg.now),
                    PacketView::Rtp(_) => old(self)@,
                };
                ResponderView { read_queue: answered.read_queue.push(msg), ..answered }
            }),
    {
        let ghost before = self@;
        if let Packet::Rtcp(rtcp_packets) = &msg.message.packet {
            let ghost views = Seq::new(rtcp_packets@.len(), |i: int| rtcp_packets@[i]@);
            let mut i: usize = 0;
            while i < rtcp_packets.len()
                invariant
                    self.wf(),
                    i <= rtcp_packets@.len(),
                    views == Seq::new(rtcp_packets@.len(), |i: int| rtcp_packets@[i]@),
                    self@ == before.nacked_by(views.subrange(0, i as int), msg.now),
                decreases rtcp_packets@.len() - i,
            {
                proof {
                    let next = views.subrange(0, i + 1);
                    assert(next.drop_last() =~= views.subrange(0, i as int));
                    assert(next.last() == rtcp_packets@[i as int]@);
                }
                if let RtcpPacket::TransportLayerNack(nack) = &rtcp_packets[i] {
                    self.handle_nack(msg.now, nack);
                }
                i = i + 1;
            }
            assert(views.subrange(0, views.len() as int) =~= views);
        }
        let ghost answered = self@;
        self.read_queue.push_back(msg);
        assert(self@ =~= (ResponderView { read_queue: answered.read_queue.push(msg), ..answered }));
        Ok(())
    }

    /// The next inbound packet for the next interceptor.
    pub fn poll_read(&mut self) -> (msg: Option<TaggedPacket>)
        requires
            old(self).wf(),
        ensures
            final(self).wf(),
            match msg {
                Some(msg) => old(self)@.read_queue.len() > 0 && msg == old(self)@.read_queue[0]
                    && final(self)@ == (ResponderView {
                    read_queue: old(self)@.read_queue.drop_first(),
                    ..old(self)@
                }),
                None => old(self)@.read_queue.len() == 0 && final(self)@ == old(self)@,
            },
    {
        let msg = self.read_queue.pop_front();
        proof {
            if old(self)@.read_queue.len() > 0 {
                assert(self@ =~= (ResponderView {
                    read_queue: old(self)@.read_queue.drop_first(),
                    ..old(self)@
                }));
            } else {
                assert(self@ =~= old(self)@);
            }
        }
        msg
    }

    /// Whether a message can be buffered: its deadline can be told, and the stream's bytes can
    /// still be counted.
    pub fn can_buffer(&self, msg: &TaggedPacket) -> (can: bool)
        requires
            self.wf(),
        ensures
            can == self@.bufferable(msg@),
    {
        if let Packet::Rtp(rtp_packet) = &msg.message.packet {
            if let Some(stream) = self.streams.get(&rtp_packet.header.ssrc) {
                let timely = match self.limits.max_age {
                    Some(max_age) => msg.now <= u64::MAX - max_age,
                    None => true,
                };
                let room: usize = usize::MAX - stream.send_buffer.bytes();
                return timely && rtp::bytes_len(&rtp_packet.payload) <= room;
            }
        }
        true
    }

    /// Take in an outbound packet: buffer it where it is media of a bound stream, and hand it on.
    pub fn handle_write(&mut self, msg: TaggedPacket) -> (result: Result<(), Error>)
        requires
            old(self).wf(),
            old(self)@.bufferable(msg@),
        ensures
            final(self).wf(),
            result is Ok,
            final(self)@ == old(self)@.buffered(msg@).sent(msg@),
    {
        let ghost before = self@;
        if let Packet::Rtp(rtp_packet) = &msg.message.packet {
            let ssrc: u32 = rtp_packet.header.ssrc;
            if let Some(stream) = self.streams.remove(&ssrc) {
                let mut stream = stream;
                proof {
                    crate::send_buffer::lemma_add_newest(
                        stream.send_buffer@,
                        rtp_packet@,
                        msg.now,
                    );
                }
                stream.send_buffer.add(rtp_packet.duplicate(), msg.now);
                let ghost after = stream.view();
                self.streams.insert(ssrc, stream);
                assert(self@.streams =~= before.streams.insert(ssrc, after));
            } else {
                assert(self@.streams =~= before.streams);
            }
        }
        assert(self@ =~= before.buffered(msg@));
        let ghost queued = self.write_queue@;
        self.write_queue.push_back(msg);
        proof {
            assert(message::message_views(queued.push(msg)) =~= message::message_views(queued).push(msg@));
            assert(self@ =~= before.buffered(msg@).sent(msg@));
        }
        Ok(())
    }

    /// The next outbound packet.
    pub fn poll_write(&mut self) -> (msg: Option<TaggedPacket>)
        requires
            old(self).wf(),
        ensures
            final(self).wf(),
            match msg {
                Some(msg) => old(self)@.write_queue.len() > 0 && msg@ == old(self)@.write_queue[0]
                    && final(self)@ == (ResponderView {
                    write_queue: old(self)@.write_queue.drop_first(),
                    ..old(self)@
                }),
                None => old(self)@.write_queue.len() == 0 && final(self)@ == old(self)@,
            },
    {
        let msg = self.write_queue.pop_front();
        proof {
            if old(self)@.write_queue.len() > 0 {
                assert(self@ =~= (ResponderView {
                    write_queue: old(self)@.write_queue.drop_first(),
                    ..old(self)@
                }));
            } else {
                assert(self@ =~= old(self)@);
            }
        }
        msg
    }

    /// Buffer a local stream's packets from now on, where it takes generic NACK feedback and the
    /// configured buffer size is valid.
    pub fn bind_local_stream(&mut self, info: &StreamInfo)
        requires
            old(self).wf(),
        ensures
            final(self).wf(),
            final(self)@ == if info.supports_nack() && seqnum::is_window_size(old(self)@.size as int) {
                ResponderView {
                    streams: old(self)@.streams.insert(
                        info.ssrc,
                        LocalStreamView {
                            buffer: SendView {
                                slots: Seq::new(old(self)@.size as nat, |p: int| None),
                                highest_added: 0,
                                started: false,
                                oldest: 0,
                                newest_sent_at: None,
                                epoch: None,
                                limits: old(self)@.limits,
                            },
                            ssrc_rtx: info.ssrc_rtx,
                            payload_type_rtx: info.payload_type_rtx,
                            rtx_sequence_number: 0,
                        },
                    ),
                    ..old(self)@
                }
            } else {
                old(self)@
            },
    {
        if stream_supports_nack(info) {
            if let Some(send_buffer) = SendBuffer::with_limits(self.size, self.limits) {
                let stream = LocalStream {
                    send_buffer,
                    ssrc_rtx: info.ssrc_rtx,
                    payload_type_rtx: info.payload_type_rtx,
                    rtx_sequence_number: 0,
                };
                let ghost fresh = stream.view();
                self.streams.insert(info.ssrc, stream);
                assert(self@.streams =~= old(self)@.streams.insert(info.ssrc, fresh));
            }
        }
    }

    /// Forget a local stream and its history.
    pub fn unbind_local_stream(&mut self, info: &StreamInfo)
        requires
            old(self).wf(),
        ensures
            final(self).wf(),
            final(self)@ == (ResponderView {
                streams: old(self)@.streams.remove(info.ssrc),
                ..old(self)@
            }),
    {
        self.streams.remove(&info.ssrc);
        assert(self@.streams =~= old(self)@.streams.remove(info.ssrc));
    }

    /// Releases the history of streams that have stopped sending. A stream still sending evicts
    /// aged packets as it adds new ones; this is for the one that went quiet.
    pub fn handle_timeout(&mut self, now: Instant) -> (result: Result<(), Error>)
        requires
            old(self).wf(),
        ensures
            final(self).wf(),
            result is Ok,
            final(self)@ == old(self)@.timed_out(now),
    {
        let ghost before = self@;
        let ssrcs: Vec<u32> = keys_of(&self.streams);
        let mut i: usize = 0;
        while i < ssrcs.len()
            invariant
                self.wf(),
                i <= ssrcs@.len(),
                ssrcs@.no_duplicates(),
                ssrcs@.to_set() == before.streams.dom(),
                self@ == (ResponderView { streams: self@.streams, ..before }),
                self@.streams.dom() == before.streams.dom(),
                forall|k: int|
                    0 <= k < i ==> self@.streams[#[trigger] ssrcs@[k]]
                        == before.streams[ssrcs@[k]].timed_out(now),
                forall|k: int|
                    i <= k < ssrcs@.len() ==> self@.streams[#[trigger] ssrcs@[k]]
                        == before.streams[ssrcs@[k]],
            decreases ssrcs@.len() - i,
        {
            let ssrc: u32 = ssrcs[i];
            let ghost middle = self@;
            assert(ssrcs@.to_set().contains(ssrc));
            if let Some(stream) = self.streams.remove(&ssrc) {
                let mut stream = stream;
                let due = match stream.send_buffer.expires_at() {
                    Some(expires_at) => expires_at <= now,
                    None => false,
                };
                if due {
                    proof {
                        crate::send_buffer::lemma_evict_newest(stream.send_buffer@, now);
                    }
                    stream.send_buffer.expire(now);
                }
                let ghost after = stream.view();
                self.streams.insert(ssrc, stream);
                proof {
                    assert(self@.streams =~= middle.streams.insert(ssrc, after));
                    assert(self@.streams.dom() =~= before.streams.dom());
                }
            }
            i = i + 1;
        }
        proof {
            assert forall|ssrc: u32| #[trigger] before.streams.contains_key(ssrc) implies self@.streams[ssrc]
                == before.streams[ssrc].timed_out(now) by {
                assert(ssrcs@.to_set().contains(ssrc));
                let k = choose|k: int| 0 <= k < ssrcs@.len() && ssrcs@[k] == ssrc;
                assert(self@.streams[ssrcs@[k]] == before.streams[ssrcs@[k]].timed_out(now));
            }
            assert(self@.streams =~= before.timed_out(now).streams);
            assert(self@ =~= before.timed_out(now));
        }
        Ok(())
    }

    /// The first instant at which a stream's whole history will have aged out, if there is one.
    pub fn poll_timeout(&mut self) -> (at: Option<Instant>)
        requires
            old(self).wf(),
        ensures
            *final(self) == *old(self),
            match at {
                Some(at) => {
                    &&& exists|ssrc: u32|
                        old(self)@.streams.contains_key(ssrc) && #[trigger] old(
                            self,
                        )@.streams[ssrc].buffer.expires_at() == Some(at as int)
                    &&& forall|ssrc: u32|
                        old(self)@.streams.contains_key(ssrc) ==> (#[trigger] old(
                            self,
                        )@.streams[ssrc].buffer.expires_at() matches Some(other) ==> at <= other)
                },
                None => forall|ssrc: u32|
                    old(self)@.streams.contains_key(ssrc) ==> #[trigger] old(
                        self,
                    )@.streams[ssrc].buffer.expires_at() is None,
            },
    {
        let ssrcs: Vec<u32> = keys_of(&self.streams);
        let mut first: Option<Instant> = None;
        let mut i: usize = 0;
        while i < ssrcs.len()
            invariant
                *self == *old(self),
                self.wf(),
                i <= ssrcs@.len(),
                ssrcs@.to_set() == self@.streams.dom(),
                match first {
                    Some(at) => {
                        &&& exists|k: int|
                            0 <= k < i && self@.streams[#[trigger] ssrcs@[k]].buffer.expires_at()
                                == Some(at as int)
                        &&& forall|k: int|
                            0 <= k < i ==> (self@.streams[#[trigger] ssrcs@[k]].buffer.expires_at() matches Some(
                                other,
                            ) ==> at <= other)
                    },
                    None => forall|k: int|
                        0 <= k < i ==> self@.streams[#[trigger] ssrcs@[k]].buffer.expires_at() is None,
                },
            decreases ssrcs@.len() - i,
        {
            let ssrc: u32 = ssrcs[i];
            assert(ssrcs@.to_set().contains(ssrc));
            if let Some(stream) = self.streams.get(&ssrc) {
                assert(self@.streams[ssrc] == stream.view());
                if let Some(at) = stream.send_buffer.expires_at() {
                    assert(self@.streams[ssrcs@[i as int]].buffer.expires_at() == Some(at as int));
                    let earlier = match first {
                        Some(so_far) => at < so_far,
                        None => true,
                    };
                    if earlier {
                        first = Some(at);
                    }
                }
            }
            i = i + 1;
        }
        proof {
            match first {
                Some(at) => {
                    let k = choose|k: int|
                        0 <= k < i && self@.streams[#[trigger] ssrcs@[k]].buffer.expires_at()
                            == Some(at as int);
                    assert(ssrcs@.to_set().contains(ssrcs@[k]));
                    assert(self@.streams.contains_key(ssrcs@[k])
                        && self@.streams[ssrcs@[k]].buffer.expires_at() == Some(at as int));
                    assert forall|ssrc: u32|
                        self@.streams.contains_key(ssrc) implies (#[trigger] self@.streams[ssrc].buffer.expires_at() matches Some(
                        other,
                    ) ==> at <= other) by {
                        assert(ssrcs@.to_set().contains(ssrc));
                        let k = choose|k: int| 0 <= k < ssrcs@.len() && ssrcs@[k] == ssrc;
                        assert(self@.streams[ssrcs@[k]] == self@.streams[ssrc]);
                    }
                },
                None => {
                    assert forall|ssrc: u32|
                        self@.streams.contains_key(ssrc) implies #[trigger] self@.streams[ssrc].buffer.expires_at() is None by {
                        assert(ssrcs@.to_set().contains(ssrc));
                        let k = choose|k: int| 0 <= k < ssrcs@.len() && ssrcs@[k] == ssrc;
                        assert(self@.streams[ssrcs@[k]] == self@.streams[ssrc]);
                    }
                },
            }
        }
        first
    }

    /// The packet that could be sent again for `seq` of a stream, as of `now`.
    pub fn history(&self, ssrc: u32, seq: u16, now: Instant) -> (packet: Option<&rtp::Packet>)
        requires
            self.wf(),
        ensures
            match packet {
                Some(packet) => self@.streams.contains_key(ssrc) && self@.streams[ssrc].buffer.get(
                    seq,
                    now,
                ) == Some(packet@),
                None => !self@.streams.contains_key(ssrc) || self@.streams[ssrc].buffer.get(
                    seq,
                    now,
                ) is None,
            },
    {
        match self.streams.get(&ssrc) {
            Some(stream) => stream.send_buffer.get(seq, now),
            None => None,
        }
    }
}

impl LocalStreamView {
    /// The stream as a timeout at `now` leaves it: without its history, where all of it has aged
    /// out.
    pub open spec fn timed_out(self, now: Instant) -> LocalStreamView {
        match self.buffer.expires_at() {
            Some(at) if at <= now => LocalStreamView { buffer: self.buffer.evict(now), ..self },
            _ => self,
        }
    }
}

impl ResponderView {
    /// The state as a timeout at `now` leaves it.
    pub open spec fn timed_out(self, now: Instant) -> ResponderView {
        ResponderView {
            streams: self.streams.map_values(|stream: LocalStreamView| stream.timed_out(now)),
            ..self
        }
    }

    /// Whether a message can be buffered: its deadline can be told, and the stream's bytes can
    /// still be counted.
    pub open spec fn bufferable(self, msg: MessageView) -> bool {
        match msg.packet {
            PacketView::Rtp(packet) if self.streams.contains_key(packet.header.ssrc) => {
                &&& self.limits.max_age matches Some(max_age) ==> msg.now + max_age <= u64::MAX
                &&& self.streams[packet.header.ssrc].buffer.bytes() + packet.payload.len()
                    <= usize::MAX
            },
            _ => true,
        }
    }

    /// The state with a message buffered, where it is media of a bound stream.
    pub open spec fn buffered(self, msg: MessageView) -> ResponderView {
        match msg.packet {
            PacketView::Rtp(packet) if self.streams.contains_key(packet.header.ssrc) => {
                let stream = self.streams[packet.header.ssrc];
                ResponderView {
                    streams: self.streams.insert(
                        packet.header.ssrc,
                        LocalStreamView { buffer: stream.buffer.add(packet, msg.now), ..stream },
                    ),
                    ..self
                }
            },
            _ => self,
        }
    }

    /// The state with a message queued to be sent.
    pub open spec fn sent(self, msg: MessageView) -> ResponderView {
        ResponderView { write_queue: self.write_queue.push(msg), ..self }
    }
}

/// The packet to send for one that was asked for; the stream's retransmission counter moves on
/// where it is used.
fn resend(stream: &mut LocalStream, original: &rtp::Packet) -> (packet: rtp::Packet)
    ensures
        packet@ == old(stream).view().resend(original@),
        final(stream).view() == old(stream).view().after_resend(),
        final(stream).send_buffer == old(stream).send_buffer,
{
    if let (Some(ssrc_rtx), Some(pt_rtx)) = (stream.ssrc_rtx, stream.payload_type_rtx) {
        // RFC 4588: the original sequence number, big-endian, leads the payload.
        let original_seq: u16 = original.header.sequence_number;
        let mut payload: Vec<u8> = Vec::new();
        payload.push((original_seq / 256) as u8);
        payload.push((original_seq % 256) as u8);
        let body = bytes_slice(&original.payload);
        let mut i: usize = 0;
        let ghost lead = payload@;
        while i < body.len()
            invariant
                i <= body@.len(),
                payload@ == lead + body@.subrange(0, i as int),
            decreases body@.len() - i,
        {
            payload.push(body[i]);
            i = i + 1;
        }
        proof {
            assert(body@.subrange(0, body@.len() as int) =~= body@);
        }
        let rtx_seq: u16 = stream.rtx_sequence_number;
        stream.rtx_sequence_number = rtx_seq.wrapping_add(1);
        let header = rtp::Header {
            // Not the version that an empty header has: receivers discard anything but version 2
            // before examining anything else.
            version: 2,
            ssrc: ssrc_rtx,
            payload_type: pt_rtx,
            sequence_number: rtx_seq,
            timestamp: original.header.timestamp,
            marker: original.header.marker,
            ..rtp::Header::default()
        };
        let packet = rtp::Packet { header, payload: bytes_from(payload) };
        assert(packet@ =~= old(stream).view().resend(original@));
        packet
    } else {
        original.duplicate()
    }
}

/// Whether an answer is a packet of the stream's own source of retransmissions, with the given
/// place in their numbering.
pub open spec fn is_rtx_answer(stream: LocalStreamView, answer: MessageView, place: int) -> bool {
    match answer.packet {
        PacketView::Rtp(packet) => {
            &&& Some(packet.header.ssrc) == stream.ssrc_rtx
            &&& Some(packet.header.payload_type) == stream.payload_type_rtx
            &&& packet.header.sequence_number == (stream.rtx_sequence_number + place) % 0x1_0000
        },
        _ => false,
    }
}

/// Retransmissions that have a source of their own are numbered without a gap: the answers to a
/// request take consecutive numbers, and the next request goes on behind them.
pub proof fn law_retransmissions_are_consecutive(
    stream: LocalStreamView,
    asked: Seq<u16>,
    now: Instant,
)
    requires
        stream.has_rtx(),
    ensures
        ({
            let after = stream.after_request(asked, now);
            let answers = stream.answers(asked, now);
            &&& after == (LocalStreamView {
                rtx_sequence_number: after.rtx_sequence_number,
                ..stream
            })
            &&& after.rtx_sequence_number == (stream.rtx_sequence_number + answers.len()) % 0x1_0000
            &&& forall|i: int|
                #![trigger answers[i]]
                0 <= i < answers.len() ==> is_rtx_answer(stream, answers[i], i)
        }),
    decreases asked.len(),
{
    if asked.len() > 0 {
        law_retransmissions_are_consecutive(stream, asked.drop_last(), now);
    }
}

/// A packet sent again under a source of its own can be restored: its payload begins with the
/// original's sequence number and goes on with the original's payload.
pub proof fn law_retransmission_holds_the_original(
    original: rtp::PacketView,
    ssrc: u32,
    payload_type: u8,
    sequence_number: u16,
)
    ensures
        ({
            let sent = rtx_packet(original, ssrc, payload_type, sequence_number);
            &&& sent.payload.len() == original.payload.len() + 2
            &&& sent.payload[0] * 256 + sent.payload[1] == original.header.sequence_number
            &&& sent.payload.skip(2) == original.payload
            &&& sent.header.timestamp == original.header.timestamp
            &&& sent.header.marker == original.header.marker
            &&& sent.header.version == 2
            &&& sent.header.ssrc == ssrc
            &&& sent.header.payload_type == payload_type
            &&& sent.header.sequence_number == sequence_number
            &&& !sent.header.padding && !sent.header.extension
            &&& sent.header.csrc.len() == 0 && sent.header.extensions.len() == 0
        }),
{
    let sent = rtx_packet(original, ssrc, payload_type, sequence_number);
    assert(sent.payload.skip(2) =~= original.payload);
}

/// The numbers of a request that the history still holds, in the order of the request.
pub open spec fn held(stream: LocalStreamView, asked: Seq<u16>, now: Instant) -> Seq<u16>
    decreases asked.len(),
{
    if asked.len() == 0 {
        Seq::empty()
    } else if stream.buffer.get(asked.last(), now) is Some {
        held(stream, asked.drop_last(), now).push(asked.last())
    } else {
        held(stream, asked.drop_last(), now)
    }
}

/// Where retransmissions have no source of their own, a request is answered with exactly the
/// packets that the history still holds, unchanged and in the order of the request.
pub proof fn law_answers_are_the_held_packets(stream: LocalStreamView, asked: Seq<u16>, now: Instant)
    requires
        !stream.has_rtx(),
    ensures
        stream.after_request(asked, now) == stream,
        stream.answers(asked, now).len() == held(stream, asked, now).len(),
        forall|i: int|
            #![trigger stream.answers(asked, now)[i]]
            0 <= i < held(stream, asked, now).len() ==> match stream.buffer.get(
                held(stream, asked, now)[i],
                now,
            ) {
                Some(packet) => stream.answers(asked, now)[i] == resent_message(packet, now),
                None => false,
            },
    decreases asked.len(),
{
    if asked.len() > 0 {
        law_answers_are_the_held_packets(stream, asked.drop_last(), now);
    }
}

/// The requests in a compound packet are answered one after the other: those in one part of it, and
/// then those in the rest.
pub proof fn law_compound_is_answered_in_parts(
    view: ResponderView,
    one: Seq<RtcpView>,
    other: Seq<RtcpView>,
    now: Instant,
)
    ensures
        view.nacked_by(one + other, now) == view.nacked_by(one, now).nacked_by(other, now),
    decreases other.len(),
{
    if other.len() == 0 {
        assert(one + other =~= one);
    } else {
        assert((one + other).drop_last() =~= one + other.drop_last());
        law_compound_is_answered_in_parts(view, one, other.drop_last(), now);
    }
}

/// A request is answered wherever it stands in a compound packet: behind what comes before it, and
/// before what comes after it. A packet that is no request changes nothing, wherever it stands.
pub proof fn law_request_is_answered_wherever_it_stands(
    view: ResponderView,
    before: Seq<RtcpView>,
    packet: RtcpView,
    behind: Seq<RtcpView>,
    now: Instant,
)
    ensures
        view.nacked_by(before + seq![packet] + behind, now) == match packet {
            RtcpView::TransportLayerNack { media_ssrc, nacks, .. } => view.nacked_by(
                before,
                now,
            ).nacked(media_ssrc, nacks, now).nacked_by(behind, now),
            _ => view.nacked_by(before + behind, now),
        },
{
    law_compound_is_answered_in_parts(view, before + seq![packet], behind, now);
    law_compound_is_answered_in_parts(view, before, seq![packet], now);
    law_compound_is_answered_in_parts(view, before, behind, now);
    assert(seq![packet].drop_last() =~= Seq::<RtcpView>::empty());
    reveal_with_fuel(ResponderView::nacked_by, 2);
}

/// Whether a message sends a packet of a stream again: as it was, or, where retransmissions have a
/// source and a payload type of their own, under these with its number in front of its payload.
pub open spec fn sends_again(
    stream: LocalStreamView,
    message: MessageView,
    packet: rtp::PacketView,
    now: Instant,
) -> bool {
    &&& message.now == now
    &&& message.attributes == seq![Attribute::Retransmission]
    &&& message.packet matches PacketView::Rtp(sent)
    &&& match (stream.ssrc_rtx, stream.payload_type_rtx) {
        (Some(ssrc), Some(payload_type)) => {
            &&& sent.header.ssrc == ssrc
            &&& sent.header.payload_type == payload_type
            &&& sent.header.version == 2
            &&& sent.header.timestamp == packet.header.timestamp
            &&& sent.header.marker == packet.header.marker
            &&& sent.payload.len() == packet.payload.len() + 2
            &&& sent.payload[0] * 256 + sent.payload[1] == packet.header.sequence_number
            &&& sent.payload.skip(2) == packet.payload
        },
        _ => sent == packet,
    }
}

/// Whether a request for packets of a stream names a number: as the first of a pair, or by a bit of
/// a pair's mask.
pub open spec fn names(packet: RtcpView, ssrc: u32, seq: u16) -> bool {
    &&& packet matches RtcpView::TransportLayerNack { media_ssrc, nacks, .. }
    &&& media_ssrc == ssrc
    &&& exists|k: int| 0 <= k < nacks.len() && rtcp::pair_names(#[trigger] nacks[k], seq)
}

proof fn lemma_request_keeps(stream: LocalStreamView, asked: Seq<u16>, now: Instant)
    ensures
        ({
            let after = stream.after_request(asked, now);
            &&& after.buffer == stream.buffer
            &&& after.ssrc_rtx == stream.ssrc_rtx
            &&& after.payload_type_rtx == stream.payload_type_rtx
        }),
    decreases asked.len(),
{
    if asked.len() > 0 {
        lemma_request_keeps(stream, asked.drop_last(), now);
    }
}

/// What is sent for a packet sends it again.
proof fn lemma_resent(
    stream: LocalStreamView,
    asked: Seq<u16>,
    packet: rtp::PacketView,
    now: Instant,
)
    ensures
        sends_again(
            stream,
            resent_message(stream.after_request(asked, now).resend(packet), now),
            packet,
            now,
        ),
{
    lemma_request_keeps(stream, asked, now);
    let after = stream.after_request(asked, now);
    if stream.has_rtx() {
        law_retransmission_holds_the_original(
            packet,
            after.ssrc_rtx->0,
            after.payload_type_rtx->0,
            after.rtx_sequence_number,
        );
    }
}

/// Every number that is asked for and held is answered, and every answer is for such a number.
proof fn lemma_answers(stream: LocalStreamView, asked: Seq<u16>, now: Instant)
    ensures
        ({
            let answers = stream.answers(asked, now);
            &&& forall|k: int|
                0 <= k < asked.len() ==> (stream.buffer.get(#[trigger] asked[k], now) matches Some(
                    packet,
                ) ==> exists|i: int|
                    0 <= i < answers.len() && sends_again(
                        stream,
                        #[trigger] answers[i],
                        packet,
                        now,
                    ))
            &&& forall|i: int|
                0 <= i < answers.len() ==> exists|k: int|
                    0 <= k < asked.len() && answers_number(
                        stream,
                        #[trigger] answers[i],
                        #[trigger] asked[k],
                        now,
                    )
        }),
    decreases asked.len(),
{
    if asked.len() > 0 {
        let shorter = asked.drop_last();
        let last = asked.len() - 1;
        lemma_answers(stream, shorter, now);
        let some = stream.answers(shorter, now);
        let answers = stream.answers(asked, now);
        match stream.buffer.get(asked[last], now) {
            Some(packet) => {
                lemma_resent(stream, shorter, packet, now);
                assert(sends_again(stream, answers[some.len() as int], packet, now));
                assert(answers_number(stream, answers[some.len() as int], asked[last], now));
            },
            None => {},
        }
        assert forall|k: int| 0 <= k < asked.len() implies (stream.buffer.get(
            #[trigger] asked[k],
            now,
        ) matches Some(packet) ==> exists|i: int|
            0 <= i < answers.len() && sends_again(
                stream,
                #[trigger] answers[i],
                packet,
                now,
            )) by {
            if k < last {
                assert(shorter[k] == asked[k]);
                match stream.buffer.get(asked[k], now) {
                    Some(packet) => {
                        let i = choose|i: int|
                            0 <= i < some.len() && sends_again(
                                stream,
                                #[trigger] some[i],
                                packet,
                                now,
                            );
                        assert(answers[i] == some[i]);
                    },
                    None => {},
                }
            }
        }
        assert forall|i: int| 0 <= i < answers.len() implies exists|k: int|
            0 <= k < asked.len() && answers_number(
                stream,
                #[trigger] answers[i],
                #[trigger] asked[k],
                now,
            ) by {
            if i < some.len() {
                assert(answers[i] == some[i]);
                let k = choose|k: int|
                    0 <= k < shorter.len() && answers_number(
                        stream,
                        some[i],
                        #[trigger] shorter[k],
                        now,
                    );
                assert(asked[k] == shorter[k]);
            } else {
                assert(answers_number(stream, answers[i], asked[last], now));
            }
        }
    }
}

/// Whether a message sends again what the history holds under a number.
pub open spec fn answers_number(
    stream: LocalStreamView,
    message: MessageView,
    seq: u16,
    now: Instant,
) -> bool {
    stream.buffer.get(seq, now) matches Some(packet) && sends_again(stream, message, packet, now)
}

/// A request asks for exactly the numbers that it names.
proof fn lemma_named(packet: RtcpView, ssrc: u32, nacks: Seq<NackPair>, seq: u16)
    requires
        packet matches RtcpView::TransportLayerNack { media_ssrc, nacks: all, .. } && media_ssrc
            == ssrc && all == nacks,
    ensures
        names(packet, ssrc, seq) <==> rtcp::listed(nacks).contains(seq),
{
    rtcp::law_pairs_ask_for(nacks, seq);
    if rtcp::listed(nacks).contains(seq) {
        let k = choose|k: int| 0 <= k < nacks.len() && (#[trigger] nacks[k]).numbers().contains(seq);
        rtcp::law_pair_asks_for(nacks[k], seq);
        assert(rtcp::pair_names(nacks[k], seq));
    }
    if names(packet, ssrc, seq) {
        let k = choose|k: int| 0 <= k < nacks.len() && rtcp::pair_names(#[trigger] nacks[k], seq);
        rtcp::law_pair_asks_for(nacks[k], seq);
        assert(nacks[k].numbers().contains(seq));
    }
}

/// Whether one of these packets asks for something that a message is the answer to.
pub open spec fn is_answer(
    view: ResponderView,
    packets: Seq<RtcpView>,
    message: MessageView,
    now: Instant,
) -> bool {
    exists|p: int, ssrc: u32, seq: u16|
        0 <= p < packets.len() && #[trigger] names(packets[p], ssrc, seq)
            && view.streams.contains_key(ssrc) && answers_number(
            view.streams[ssrc],
            message,
            seq,
            now,
        )
}

/// The requests in a compound packet are answered from the history: every number that one of them
/// names, of a bound stream, and that the history holds, is sent again, and nothing else is. The
/// answers are queued behind what waits, and the history stays as it is.
#[verifier::spinoff_prover]
#[verifier::rlimit(40)]
pub proof fn law_every_held_packet_is_sent_again(
    view: ResponderView,
    packets: Seq<RtcpView>,
    now: Instant,
)
    ensures
        ({
            let after = view.nacked_by(packets, now);
            let queued = view.write_queue.len() as int;
            &&& queued <= after.write_queue.len()
            &&& after.write_queue.take(queued) == view.write_queue
            &&& after.read_queue == view.read_queue
            &&& after.streams.dom() == view.streams.dom()
            &&& forall|ssrc: u32| #[trigger]
                view.streams.contains_key(ssrc) ==> {
                    &&& after.streams[ssrc].buffer == view.streams[ssrc].buffer
                    &&& after.streams[ssrc].ssrc_rtx == view.streams[ssrc].ssrc_rtx
                    &&& after.streams[ssrc].payload_type_rtx == view.streams[ssrc].payload_type_rtx
                }
            &&& forall|p: int, ssrc: u32, seq: u16|
                0 <= p < packets.len() && #[trigger] names(packets[p], ssrc, seq)
                    && view.streams.contains_key(ssrc) ==> (view.streams[ssrc].buffer.get(
                    seq,
                    now,
                ) matches Some(packet) ==> exists|k: int|
                    queued <= k < after.write_queue.len() && sends_again(
                        view.streams[ssrc],
                        #[trigger] after.write_queue[k],
                        packet,
                        now,
                    ))
            &&& forall|k: int|
                queued <= k < after.write_queue.len() ==> is_answer(
                    view,
                    packets,
                    #[trigger] after.write_queue[k],
                    now,
                )
        }),
    decreases packets.len(),
{
    let after = view.nacked_by(packets, now);
    let queued = view.write_queue.len() as int;
    if packets.len() == 0 {
        assert(after.write_queue.take(queued) =~= view.write_queue);
    } else {
        let shorter = packets.drop_last();
        let last = packets.len() - 1;
        law_every_held_packet_is_sent_again(view, shorter, now);
        let before = view.nacked_by(shorter, now);
        let waited = before.write_queue.len() as int;
        assert(after.write_queue.len() >= waited && after.write_queue.take(waited)
            =~= before.write_queue);
        assert(after.write_queue.take(queued) =~= view.write_queue) by {
            assert forall|k: int| 0 <= k < queued implies after.write_queue[k]
                == view.write_queue[k] by {
                assert(before.write_queue.take(queued)[k] == before.write_queue[k]);
                assert(after.write_queue.take(waited)[k] == after.write_queue[k]);
            }
        }
        match packets[last] {
            RtcpView::TransportLayerNack { media_ssrc, nacks, .. } => {
                if before.streams.contains_key(media_ssrc) {
                    lemma_request_keeps(before.streams[media_ssrc], rtcp::listed(nacks), now);
                    lemma_answers(before.streams[media_ssrc], rtcp::listed(nacks), now);
                }
                assert(after.streams.dom() =~= view.streams.dom());
            },
            _ => {},
        }
        assert forall|p: int, ssrc: u32, seq: u16|
            0 <= p < packets.len() && #[trigger] names(packets[p], ssrc, seq)
                && view.streams.contains_key(ssrc) implies (view.streams[ssrc].buffer.get(
            seq,
            now,
        ) matches Some(packet) ==> exists|k: int|
            queued <= k < after.write_queue.len() && sends_again(
                view.streams[ssrc],
                #[trigger] after.write_queue[k],
                packet,
                now,
            )) by {
            match view.streams[ssrc].buffer.get(seq, now) {
                Some(packet) => {
                    if p < last {
                        assert(names(shorter[p], ssrc, seq));
                        let k = choose|k: int|
                            queued <= k < before.write_queue.len() && sends_again(
                                view.streams[ssrc],
                                #[trigger] before.write_queue[k],
                                packet,
                                now,
                            );
                        assert(after.write_queue.take(waited)[k] == after.write_queue[k]);
                    } else {
                        let nacks = packets[last]->TransportLayerNack_nacks;
                        let asked = rtcp::listed(nacks);
                        lemma_named(packets[last], ssrc, nacks, seq);
                        let j = choose|j: int| 0 <= j < asked.len() && asked[j] == seq;
                        let stream = before.streams[ssrc];
                        assert(stream.buffer.get(asked[j], now) == Some(packet));
                        let answers = stream.answers(asked, now);
                        let i = choose|i: int|
                            0 <= i < answers.len() && sends_again(
                                stream,
                                #[trigger] answers[i],
                                packet,
                                now,
                            );
                        assert(after.write_queue[waited + i] == answers[i]);
                    }
                },
                None => {},
            }
        }
        assert forall|k: int| queued <= k < after.write_queue.len() implies is_answer(
            view,
            packets,
            #[trigger] after.write_queue[k],
            now,
        ) by {
            if k < waited {
                assert(after.write_queue.take(waited)[k] == after.write_queue[k]);
                assert(is_answer(view, shorter, before.write_queue[k], now));
                let (p, ssrc, seq) = choose|p: int, ssrc: u32, seq: u16|
                    0 <= p < shorter.len() && #[trigger] names(shorter[p], ssrc, seq)
                        && view.streams.contains_key(ssrc) && answers_number(
                        view.streams[ssrc],
                        before.write_queue[k],
                        seq,
                        now,
                    );
                assert(names(packets[p], ssrc, seq));
            } else {
                let nacks = packets[last]->TransportLayerNack_nacks;
                let ssrc = packets[last]->TransportLayerNack_media_ssrc;
                let asked = rtcp::listed(nacks);
                let stream = before.streams[ssrc];
                let answers = stream.answers(asked, now);
                assert(after.write_queue[k] == answers[k - waited]);
                let j = choose|j: int|
                    0 <= j < asked.len() && answers_number(
                        stream,
                        answers[k - waited],
                        #[trigger] asked[j],
                        now,
                    );
                lemma_named(packets[last], ssrc, nacks, asked[j]);
                assert(asked.contains(asked[j]));
                assert(names(packets[last], ssrc, asked[j]));
                assert(answers_number(view.streams[ssrc], after.write_queue[k], asked[j], now));
            }
        }
    }
}

/// What is sent is handed on, and kept in the history of its own stream and of no other.
pub proof fn law_sent_media_is_kept_in_its_stream(
    view: ResponderView,
    msg: MessageView,
    other: u32,
)
    ensures
        ({
            let after = view.buffered(msg).sent(msg);
            &&& after.write_queue == view.write_queue.push(msg)
            &&& after.read_queue == view.read_queue
            &&& after.streams.contains_key(other) == view.streams.contains_key(other)
            &&& view.streams.contains_key(other) ==> {
                &&& after.streams[other].ssrc_rtx == view.streams[other].ssrc_rtx
                &&& after.streams[other].payload_type_rtx == view.streams[other].payload_type_rtx
                &&& after.streams[other].rtx_sequence_number
                    == view.streams[other].rtx_sequence_number
                &&& after.streams[other].buffer == match msg.packet {
                    PacketView::Rtp(packet) => if packet.header.ssrc == other {
                        view.streams[other].buffer.add(packet, msg.now)
                    } else {
                        view.streams[other].buffer
                    },
                    PacketView::Rtcp(_) => view.streams[other].buffer,
                }
            }
        }),
{
}

/// A timeout touches no stream that still has a packet to send again, and leaves of every other one
/// the settings and the numbering of retransmissions.
pub proof fn law_timeout_frees_only_aged_streams(view: ResponderView, now: Instant, ssrc: u32)
    requires
        view.streams.contains_key(ssrc),
    ensures
        ({
            let before = view.streams[ssrc];
            let after = view.timed_out(now).streams[ssrc];
            let aged = match (before.buffer.newest_sent_at, before.buffer.limits.max_age) {
                (Some(newest), Some(max_age)) => newest + max_age <= now,
                _ => false,
            };
            &&& view.timed_out(now).streams.contains_key(ssrc)
            &&& view.timed_out(now).write_queue == view.write_queue
            &&& view.timed_out(now).read_queue == view.read_queue
            &&& !aged ==> after == before
            &&& after.ssrc_rtx == before.ssrc_rtx
            &&& after.payload_type_rtx == before.payload_type_rtx
            &&& after.rtx_sequence_number == before.rtx_sequence_number
        }),
{
}

/// The numbers of a request are answered one after the other, each for itself: a number that is held
/// gives one answer each time that it is asked for, and one that is not held gives none.
pub proof fn law_each_number_is_answered_for_itself(
    stream: LocalStreamView,
    one: Seq<u16>,
    other: Seq<u16>,
    seq: u16,
    now: Instant,
)
    ensures
        stream.answers(one + other, now) == stream.answers(one, now) + stream.after_request(
            one,
            now,
        ).answers(other, now),
        stream.after_request(one + other, now) == stream.after_request(one, now).after_request(
            other,
            now,
        ),
        match stream.buffer.get(seq, now) {
            Some(packet) => stream.answers(seq![seq], now).len() == 1 && sends_again(
                stream,
                stream.answers(seq![seq], now)[0],
                packet,
                now,
            ),
            None => stream.answers(seq![seq], now).len() == 0,
        },
    decreases other.len(),
{
    assert(seq![seq].drop_last() =~= Seq::<u16>::empty());
    reveal_with_fuel(LocalStreamView::answers, 2);
    reveal_with_fuel(LocalStreamView::after_request, 2);
    match stream.buffer.get(seq, now) {
        Some(packet) => {
            let answer = stream.answers(seq![seq], now)[0];
            assert(answer == resent_message(stream.resend(packet), now));
            if stream.has_rtx() {
                law_retransmission_holds_the_original(
                    packet,
                    stream.ssrc_rtx->0,
                    stream.payload_type_rtx->0,
                    stream.rtx_sequence_number,
                );
            }
        },
        None => {},
    }
    lemma_answers_in_parts(stream, one, other, now);
}

proof fn lemma_answers_in_parts(
    stream: LocalStreamView,
    one: Seq<u16>,
    other: Seq<u16>,
    now: Instant,
)
    ensures
        stream.answers(one + other, now) == stream.answers(one, now) + stream.after_request(
            one,
            now,
        ).answers(other, now),
        stream.after_request(one + other, now) == stream.after_request(one, now).after_request(
            other,
            now,
        ),
        stream.after_request(one, now).buffer == stream.buffer,
    decreases other.len(),
{
    lemma_buffer_stays(stream, one, now);
    if other.len() == 0 {
        assert(one + other =~= one);
        assert(stream.answers(one, now) + Seq::<MessageView>::empty() =~= stream.answers(one, now));
    } else {
        let shorter = other.drop_last();
        assert((one + other).drop_last() =~= one + shorter);
        assert((one + other).last() == other.last());
        lemma_answers_in_parts(stream, one, shorter, now);
        let between = stream.after_request(one, now);
        lemma_buffer_stays(between, shorter, now);
        assert(stream.answers(one + other, now) =~= stream.answers(one, now) + between.answers(
            other,
            now,
        ));
    }
}

proof fn lemma_buffer_stays(stream: LocalStreamView, asked: Seq<u16>, now: Instant)
    ensures
        stream.after_request(asked, now).buffer == stream.buffer,
    decreases asked.len(),
{
    if asked.len() > 0 {
        lemma_buffer_stays(stream, asked.drop_last(), now);
    }
}

} // verus!
