//! The messages that pass through a chain of interceptors.

use crate::rtcp::{RtcpPacket, RtcpView};
use crate::rtp;
use crate::time::Instant;
use crate::transport::TransportContext;
use vstd::prelude::*;

verus! {

/// A media packet or a compound control packet.
pub enum Packet {
    /// Media.
    Rtp(rtp::Packet),
    /// Control.
    Rtcp(Vec<RtcpPacket>),
}

/// What one interceptor tells those after it about a packet.
#[derive(Debug, Clone, Copy, PartialEq, Eq, Structural)]
pub enum Attribute {
    /// The packet is sent again, so its bytes are new on the wire.
    Retransmission,
    /// The feedback in the packet moved the target bitrate, here as the bits of the floating point
    /// number that it is.
    TargetBitrateChanged {
        /// Bits per second.
        bits_per_second: u64,
    },
}

/// A packet and what is known about it.
pub struct AttributedPacket {
    /// The packet.
    pub packet: Packet,
    /// What is known about it.
    pub attributes: Vec<Attribute>,
}

impl AttributedPacket {
    /// A packet that nothing is known about.
    pub fn new(packet: Packet) -> (attributed: Self)
        ensures
            attributed.packet == packet,
            attributed.attributes@ == Seq::<Attribute>::empty(),
    {
        AttributedPacket { packet, attributes: Vec::new() }
    }

    /// The packet with `attribute` added to what is known about it.
    pub fn with(self, attribute: Attribute) -> (attributed: Self)
        ensures
            attributed.packet == self.packet,
            attributed.attributes@ == self.attributes@.push(attribute),
    {
        let mut attributes = self.attributes;
        attributes.push(attribute);
        AttributedPacket { packet: self.packet, attributes }
    }
}

/// A packet, when it passes, and how it travels.
pub struct TaggedPacket {
    /// When it passes.
    pub now: Instant,
    /// How it travels.
    pub transport: TransportContext,
    /// The packet.
    pub message: AttributedPacket,
}

/// The model of a [`Packet`].
pub enum PacketView {
    /// Media.
    Rtp(rtp::PacketView),
    /// Control.
    Rtcp(Seq<RtcpView>),
}

impl View for Packet {
    type V = PacketView;

    open spec fn view(&self) -> PacketView {
        match self {
            Packet::Rtp(packet) => PacketView::Rtp(packet@),
            Packet::Rtcp(packets) => PacketView::Rtcp(
                Seq::new(packets@.len(), |i: int| packets@[i]@),
            ),
        }
    }
}

/// The model of a [`TaggedPacket`].
pub struct MessageView {
    /// When it passes.
    pub now: Instant,
    /// How it travels.
    pub transport: TransportContext,
    /// The packet.
    pub packet: PacketView,
    /// What is known about it.
    pub attributes: Seq<Attribute>,
}

impl View for TaggedPacket {
    type V = MessageView;

    open spec fn view(&self) -> MessageView {
        MessageView {
            now: self.now,
            transport: self.transport,
            packet: self.message.packet@,
            attributes: self.message.attributes@,
        }
    }
}

/// The models of a sequence of messages.
pub open spec fn message_views(messages: Seq<TaggedPacket>) -> Seq<MessageView> {
    Seq::new(messages.len(), |i: int| messages[i]@)
}

} // verus!
