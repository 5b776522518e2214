//! One side of a measured pair of peer connections.
//!
//! A [`Peer`] keeps what the harness knows of one connection: the datagrams waiting for it, what it
//! has announced, what its application has read, and what its work has cost. The connection itself
//! stands outside. [`Peer::step`] says, reply by reply, what to do with it next.

use vstd::prelude::*;

use crate::allocations::Allocations;
use crate::time::{Duration, Instant};
use crate::transport::{SocketAddr, TransportContext, TransportProtocol};
use std::collections::VecDeque;

verus! {

/// What the application side of a peer has read.
#[derive(Debug, Clone, Copy, PartialEq, Eq, Structural)]
pub struct Received {
    /// RTP packets delivered to the application.
    pub rtp_packets: u64,
    /// RTP payload bytes delivered to the application.
    pub rtp_payload_bytes: u64,
    /// RTCP packets delivered to the application.
    pub rtcp_packets: u64,
    /// Data-channel messages delivered to the application.
    pub data_channel_messages: u64,
    /// Data-channel payload bytes delivered to the application.
    pub data_channel_bytes: u64,
}

/// Nothing read yet.
pub open spec fn nothing_received() -> Received {
    Received {
        rtp_packets: 0,
        rtp_payload_bytes: 0,
        rtcp_packets: 0,
        data_channel_messages: 0,
        data_channel_bytes: 0,
    }
}

impl Default for Received {
    fn default() -> (received: Self)
        ensures
            received == nothing_received(),
    {
        Received {
            rtp_packets: 0,
            rtp_payload_bytes: 0,
            rtcp_packets: 0,
            data_channel_messages: 0,
            data_channel_bytes: 0,
        }
    }
}

/// Something that a connection announced.
#[derive(Debug, Clone, Copy, PartialEq, Eq, Structural)]
pub enum ConnectionEvent {
    /// The connection is up.
    Connected,
    /// The connection has failed.
    Failed,
    /// A data channel is open.
    ChannelOpen(u16),
    /// A remote track is open.
    TrackOpen,
    /// Anything else.
    Other,
}

/// Something that a connection delivered to the application.
#[derive(Debug, Clone, Copy, PartialEq, Eq, Structural)]
pub enum Delivery {
    /// An RTP packet with so many payload bytes.
    Rtp(usize),
    /// An RTCP packet.
    Rtcp,
    /// A data-channel message of so many bytes.
    Channel(usize),
    /// Anything else.
    Other,
}

/// Whether a delivery is an RTP packet.
pub open spec fn is_rtp() -> spec_fn(Delivery) -> bool {
    |delivery: Delivery| delivery is Rtp
}

/// Whether a delivery is an RTCP packet.
pub open spec fn is_rtcp() -> spec_fn(Delivery) -> bool {
    |delivery: Delivery| delivery is Rtcp
}

/// Whether a delivery is a data-channel message.
pub open spec fn is_channel() -> spec_fn(Delivery) -> bool {
    |delivery: Delivery| delivery is Channel
}

/// The bytes of a delivery.
pub open spec fn length(delivery: Delivery) -> int {
    match delivery {
        Delivery::Rtp(len) => len as int,
        Delivery::Channel(len) => len as int,
        _ => 0,
    }
}

/// The bytes of those deliveries that are of the given kind.
pub open spec fn volume(deliveries: Seq<Delivery>, kind: spec_fn(Delivery) -> bool) -> int
    decreases deliveries.len(),
{
    if deliveries.len() == 0 {
        0
    } else {
        volume(deliveries.drop_last(), kind) + if kind(deliveries.last()) {
            length(deliveries.last())
        } else {
            0
        }
    }
}

/// How many deliveries are of the given kind.
pub open spec fn tally(deliveries: Seq<Delivery>, kind: spec_fn(Delivery) -> bool) -> int {
    deliveries.filter(kind).len() as int
}

impl Received {
    /// Whether the counts can take one more delivery.
    pub open spec fn has_room(self, delivery: Delivery) -> bool {
        match delivery {
            Delivery::Rtp(len) => self.rtp_packets < u64::MAX && self.rtp_payload_bytes + len
                <= u64::MAX,
            Delivery::Rtcp => self.rtcp_packets < u64::MAX,
            Delivery::Channel(len) => self.data_channel_messages < u64::MAX
                && self.data_channel_bytes + len <= u64::MAX,
            Delivery::Other => true,
        }
    }

    /// The counts with one more delivery.
    pub open spec fn with(self, delivery: Delivery) -> Received {
        match delivery {
            Delivery::Rtp(len) => Received {
                rtp_packets: (self.rtp_packets + 1) as u64,
                rtp_payload_bytes: (self.rtp_payload_bytes + len) as u64,
                ..self
            },
            Delivery::Rtcp => Received { rtcp_packets: (self.rtcp_packets + 1) as u64, ..self },
            Delivery::Channel(len) => Received {
                data_channel_messages: (self.data_channel_messages + 1) as u64,
                data_channel_bytes: (self.data_channel_bytes + len) as u64,
                ..self
            },
            Delivery::Other => self,
        }
    }

    /// Whether the counts can take one more delivery.
    pub fn takes(&self, delivery: Delivery) -> (room: bool)
        ensures
            room == self.has_room(delivery),
    {
        match delivery {
            Delivery::Rtp(len) => self.rtp_packets < u64::MAX && len as u64 <= u64::MAX
                - self.rtp_payload_bytes,
            Delivery::Rtcp => self.rtcp_packets < u64::MAX,
            Delivery::Channel(len) => self.data_channel_messages < u64::MAX && len as u64
                <= u64::MAX - self.data_channel_bytes,
            Delivery::Other => true,
        }
    }

    /// Counts one delivery.
    pub fn count(&mut self, delivery: Delivery)
        requires
            old(self).has_room(delivery),
        ensures
            *final(self) == old(self).with(delivery),
    {
        match delivery {
            Delivery::Rtp(len) => {
                self.rtp_packets = self.rtp_packets + 1;
                self.rtp_payload_bytes = self.rtp_payload_bytes + len as u64;
            },
            Delivery::Rtcp => {
                self.rtcp_packets = self.rtcp_packets + 1;
            },
            Delivery::Channel(len) => {
                self.data_channel_messages = self.data_channel_messages + 1;
                self.data_channel_bytes = self.data_channel_bytes + len as u64;
            },
            Delivery::Other => {},
        }
    }
}

/// The counts after a run of deliveries.
pub open spec fn counted(received: Received, deliveries: Seq<Delivery>) -> Received
    decreases deliveries.len(),
{
    if deliveries.len() == 0 {
        received
    } else {
        counted(received, deliveries.drop_last()).with(deliveries.last())
    }
}

/// Whether the counts can take a whole run of deliveries.
pub open spec fn all_fit(received: Received, deliveries: Seq<Delivery>) -> bool {
    &&& received.rtp_packets + tally(deliveries, is_rtp()) <= u64::MAX
    &&& received.rtp_payload_bytes + volume(deliveries, is_rtp()) <= u64::MAX
    &&& received.rtcp_packets + tally(deliveries, is_rtcp()) <= u64::MAX
    &&& received.data_channel_messages + tally(deliveries, is_channel()) <= u64::MAX
    &&& received.data_channel_bytes + volume(deliveries, is_channel()) <= u64::MAX
}

/// Nothing that the application reads goes uncounted: each count grows by the number of deliveries
/// of its kind, or by their bytes.
pub proof fn law_every_delivery_is_counted(received: Received, deliveries: Seq<Delivery>)
    requires
        all_fit(received, deliveries),
    ensures
        ({
            let after = counted(received, deliveries);
            &&& after.rtp_packets == received.rtp_packets + tally(deliveries, is_rtp())
            &&& after.rtp_payload_bytes == received.rtp_payload_bytes + volume(
                deliveries,
                is_rtp(),
            )
            &&& after.rtcp_packets == received.rtcp_packets + tally(deliveries, is_rtcp())
            &&& after.data_channel_messages == received.data_channel_messages + tally(
                deliveries,
                is_channel(),
            )
            &&& after.data_channel_bytes == received.data_channel_bytes + volume(
                deliveries,
                is_channel(),
            )
        }),
    decreases deliveries.len(),
{
    reveal(Seq::filter);
    if deliveries.len() > 0 {
        let rest = deliveries.drop_last();
        let last = deliveries.last();
        assert(length(last) >= 0);
        lemma_tally_step(deliveries, is_rtp());
        lemma_tally_step(deliveries, is_rtcp());
        lemma_tally_step(deliveries, is_channel());
        assert(all_fit(received, rest));
        law_every_delivery_is_counted(received, rest);
    }
}

/// One more delivery adds one to the tally of its kind.
proof fn lemma_tally_step(deliveries: Seq<Delivery>, kind: spec_fn(Delivery) -> bool)
    requires
        deliveries.len() > 0,
    ensures
        tally(deliveries, kind) == tally(deliveries.drop_last(), kind) + if kind(
            deliveries.last(),
        ) {
            1int
        } else {
            0int
        },
{
    reveal(Seq::filter);
}

/// One side of a pair.
pub struct Peer {
    /// Where this side is.
    pub addr: SocketAddr,
    /// Where the other side is.
    pub remote_addr: SocketAddr,
    /// Datagrams that wait to be handed to the connection.
    pub inbound: VecDeque<Vec<u8>>,
    /// Whether the connection has announced that it is up.
    pub connected: bool,
    /// Whether the connection has announced that it failed.
    pub failed: bool,
    /// Data channels that have announced that they are open, in the order they did.
    pub open_channels: Vec<u16>,
    /// How many remote tracks have announced that they are open.
    pub tracks_opened: usize,
    /// What the application side has read.
    pub received: Received,
    /// Time spent inside the connection since the accounting began.
    pub busy: Duration,
    /// Allocations made inside the connection since the accounting began.
    pub allocations: Allocations,
}

/// The model of a [`Peer`].
#[verifier::ext_equal]
pub struct PeerView {
    /// Where this side is.
    pub addr: SocketAddr,
    /// Where the other side is.
    pub remote_addr: SocketAddr,
    /// Datagrams that wait to be handed to the connection.
    pub inbound: Seq<Seq<u8>>,
    /// Whether the connection has announced that it is up.
    pub connected: bool,
    /// Whether the connection has announced that it failed.
    pub failed: bool,
    /// Data channels that have announced that they are open, in the order they did.
    pub open_channels: Seq<u16>,
    /// How many remote tracks have announced that they are open.
    pub tracks_opened: usize,
    /// What the application side has read.
    pub received: Received,
    /// Time spent inside the connection since the accounting began.
    pub busy: Duration,
    /// Allocations made inside the connection since the accounting began.
    pub allocations: Allocations,
}

/// The contents of datagrams.
pub open spec fn contents(datagrams: Seq<Vec<u8>>) -> Seq<Seq<u8>> {
    Seq::new(datagrams.len(), |i: int| datagrams[i]@)
}

impl View for Peer {
    type V = PeerView;

    open spec fn view(&self) -> PeerView {
        PeerView {
            addr: self.addr,
            remote_addr: self.remote_addr,
            inbound: contents(self.inbound@),
            connected: self.connected,
            failed: self.failed,
            open_channels: self.open_channels@,
            tracks_opened: self.tracks_opened,
            received: self.received,
            busy: self.busy,
            allocations: self.allocations,
        }
    }
}

/// A side that has done nothing yet.
pub open spec fn fresh_peer(addr: SocketAddr, remote_addr: SocketAddr) -> PeerView {
    PeerView {
        addr,
        remote_addr,
        inbound: Seq::empty(),
        connected: false,
        failed: false,
        open_channels: Seq::empty(),
        tracks_opened: 0,
        received: nothing_received(),
        busy: 0,
        allocations: Allocations { count: 0, bytes: 0 },
    }
}

/// How far a step has come.
#[derive(Debug, Clone, Copy, PartialEq, Eq, Structural)]
pub enum StepPhase {
    /// Handing over the datagrams that wait.
    Inbound,
    /// Asking for the connection's deadline.
    Timer,
    /// Taking what the connection announces.
    Events,
    /// Taking what the connection delivers.
    Reads,
    /// Nothing is left to do.
    Done,
}

/// A step under way.
#[derive(Debug, Clone, Copy, PartialEq, Eq, Structural)]
pub struct Step {
    /// How far it has come.
    pub phase: StepPhase,
    /// Whether anything has happened in it.
    pub worked: bool,
    /// The instant it is made at.
    pub now: Instant,
}

/// What the connection said to the last action.
#[derive(Debug, Clone, Copy, PartialEq, Eq, Structural)]
pub enum StepReply {
    /// Nothing was asked, or what was asked is done.
    Ready,
    /// Its next deadline.
    Deadline(Option<Instant>),
    /// What it announced, if anything.
    Event(Option<ConnectionEvent>),
    /// What it delivered, if anything.
    Read(Option<Delivery>),
}

/// What to do with the connection next.
pub enum StepAction {
    /// Hand it a datagram that came this way.
    Deliver(TransportContext, Vec<u8>),
    /// Ask for its next deadline.
    PollTimeout,
    /// Tell it that its deadline is here.
    HandleTimeout,
    /// Ask what it announces.
    PollEvent,
    /// Ask what it delivers.
    PollRead,
    /// Stop. Says whether anything happened.
    Finish(bool),
}

/// The model of a [`StepAction`].
#[verifier::ext_equal]
pub enum StepActionView {
    /// Hand it a datagram that came this way.
    Deliver(TransportContext, Seq<u8>),
    /// Ask for its next deadline.
    PollTimeout,
    /// Tell it that its deadline is here.
    HandleTimeout,
    /// Ask what it announces.
    PollEvent,
    /// Ask what it delivers.
    PollRead,
    /// Stop. Says whether anything happened.
    Finish(bool),
}

impl View for StepAction {
    type V = StepActionView;

    open spec fn view(&self) -> StepActionView {
        match self {
            StepAction::Deliver(context, message) => StepActionView::Deliver(*context, message@),
            StepAction::PollTimeout => StepActionView::PollTimeout,
            StepAction::HandleTimeout => StepActionView::HandleTimeout,
            StepAction::PollEvent => StepActionView::PollEvent,
            StepAction::PollRead => StepActionView::PollRead,
            StepAction::Finish(worked) => StepActionView::Finish(*worked),
        }
    }
}

impl PeerView {
    /// How datagrams for this side travel.
    pub open spec fn context(self) -> TransportContext {
        TransportContext {
            local_addr: self.addr,
            peer_addr: self.remote_addr,
            transport_protocol: TransportProtocol::UDP,
            ecn: None,
        }
    }

    /// This side after its connection announced something.
    pub open spec fn told(self, event: ConnectionEvent) -> PeerView {
        match event {
            ConnectionEvent::Connected => PeerView { connected: true, ..self },
            ConnectionEvent::Failed => PeerView { failed: true, ..self },
            ConnectionEvent::ChannelOpen(id) => PeerView {
                open_channels: self.open_channels.push(id),
                ..self
            },
            ConnectionEvent::TrackOpen => PeerView {
                tracks_opened: (self.tracks_opened + 1) as usize,
                ..self
            },
            ConnectionEvent::Other => self,
        }
    }

    /// Whether a reply answers what was asked in a phase, and the counts can take it.
    pub open spec fn expects(self, step: Step, reply: StepReply) -> bool {
        match (step.phase, reply) {
            (StepPhase::Inbound, StepReply::Ready) => true,
            (StepPhase::Timer, StepReply::Deadline(_)) => true,
            (StepPhase::Events, StepReply::Ready) => true,
            (StepPhase::Events, StepReply::Event(event)) => event == Some(
                ConnectionEvent::TrackOpen,
            ) ==> self.tracks_opened < usize::MAX,
            (StepPhase::Reads, StepReply::Read(Some(delivery))) => self.received.has_room(delivery),
            (StepPhase::Reads, StepReply::Read(None)) => true,
            _ => false,
        }
    }

    /// This side, the step and what to do next, once a reply is in.
    ///
    /// A timer that fires does not count as something happening: it can stay due across a call
    /// that had nothing to do, and counting it would never let the pair go quiet.
    pub open spec fn stepped(self, step: Step, reply: StepReply) -> (
        PeerView,
        Step,
        StepActionView,
    ) {
        match (step.phase, reply) {
            (StepPhase::Inbound, StepReply::Ready) => if self.inbound.len() > 0 {
                (
                    PeerView { inbound: self.inbound.drop_first(), ..self },
                    Step { worked: true, ..step },
                    StepActionView::Deliver(self.context(), self.inbound.first()),
                )
            } else {
                (self, Step { phase: StepPhase::Timer, ..step }, StepActionView::PollTimeout)
            },
            (StepPhase::Timer, StepReply::Deadline(Some(deadline))) if deadline <= step.now => (
                self,
                Step { phase: StepPhase::Events, ..step },
                StepActionView::HandleTimeout,
            ),
            (StepPhase::Timer, _) => (
                self,
                Step { phase: StepPhase::Events, ..step },
                StepActionView::PollEvent,
            ),
            (StepPhase::Events, StepReply::Event(Some(event))) => (
                self.told(event),
                Step { worked: true, ..step },
                StepActionView::PollEvent,
            ),
            (StepPhase::Events, StepReply::Event(None)) => (
                self,
                Step { phase: StepPhase::Reads, ..step },
                StepActionView::PollRead,
            ),
            (StepPhase::Events, _) => (self, step, StepActionView::PollEvent),
            (StepPhase::Reads, StepReply::Read(Some(delivery))) => (
                PeerView { received: self.received.with(delivery), ..self },
                Step { worked: true, ..step },
                StepActionView::PollRead,
            ),
            _ => (self, Step { phase: StepPhase::Done, ..step }, StepActionView::Finish(step.worked)),
        }
    }
}

impl Peer {
    /// A side that has done nothing yet.
    pub fn new(addr: SocketAddr, remote_addr: SocketAddr) -> (peer: Self)
        ensures
            peer@ == fresh_peer(addr, remote_addr),
    {
        let peer = Peer {
            addr,
            remote_addr,
            inbound: VecDeque::new(),
            connected: false,
            failed: false,
            open_channels: Vec::new(),
            tracks_opened: 0,
            received: Received::default(),
            busy: 0,
            allocations: Allocations::default(),
        };
        assert(peer@ =~= fresh_peer(addr, remote_addr));
        peer
    }

    /// Charges time and allocations spent inside the connection to this side.
    pub fn charge(&mut self, elapsed: Duration, made: Allocations)
        requires
            old(self)@.busy + elapsed <= u64::MAX,
            old(self)@.allocations.fits_with(made),
        ensures
            final(self)@ == (PeerView {
                busy: (old(self)@.busy + elapsed) as u64,
                allocations: final(self)@.allocations,
                ..old(self)@
            }),
            old(self)@.allocations.plus(made) == (
                final(self)@.allocations.count as int,
                final(self)@.allocations.bytes as int,
            ),
    {
        self.busy = self.busy + elapsed;
        self.allocations.add_assign(made);
    }

    /// Time spent inside this side's connection since the accounting was last reset.
    pub fn busy(&self) -> (busy: Duration)
        ensures
            busy == self@.busy,
    {
        self.busy
    }

    /// Heap allocations made inside this side's connection since the accounting was last reset.
    pub fn allocations(&self) -> (allocations: Allocations)
        ensures
            allocations == self@.allocations,
    {
        self.allocations
    }

    /// Zeroes [`Self::busy`] and [`Self::allocations`].
    pub fn reset_accounting(&mut self)
        ensures
            final(self)@ == (PeerView {
                busy: 0,
                allocations: Allocations { count: 0, bytes: 0 },
                ..old(self)@
            }),
    {
        self.busy = 0;
        self.allocations = Allocations::default();
    }

    /// Whether the connection is up.
    pub fn connected(&self) -> (connected: bool)
        ensures
            connected == self@.connected,
    {
        self.connected
    }

    /// Data channels that have announced that they are open, in the order they did.
    pub fn open_channels(&self) -> (channels: &[u16])
        ensures
            channels@ == self@.open_channels,
    {
        self.open_channels.as_slice()
    }

    /// Remote tracks that have announced that they are open.
    pub fn tracks_opened(&self) -> (tracks: usize)
        ensures
            tracks == self@.tracks_opened,
    {
        self.tracks_opened
    }

    /// What the application side has read so far.
    pub fn received(&self) -> (received: Received)
        ensures
            received == self@.received,
    {
        self.received
    }

    /// Notes what the connection announced.
    fn tell(&mut self, event: ConnectionEvent)
        requires
            event is TrackOpen ==> old(self).tracks_opened < usize::MAX,
        ensures
            final(self)@ == old(self)@.told(event),
    {
        match event {
            ConnectionEvent::Connected => {
                self.connected = true;
            },
            ConnectionEvent::Failed => {
                self.failed = true;
            },
            ConnectionEvent::ChannelOpen(id) => {
                self.open_channels.push(id);
            },
            ConnectionEvent::TrackOpen => {
                self.tracks_opened = self.tracks_opened + 1;
            },
            ConnectionEvent::Other => {},
        }
    }

    /// Begins a step at an instant: the datagrams that wait are handed over, a due timer fires,
    /// and announcements and deliveries are taken until there are none.
    pub fn begin_step(now: Instant) -> (step: Step)
        ensures
            step == (Step { phase: StepPhase::Inbound, worked: false, now }),
    {
        Step { phase: StepPhase::Inbound, worked: false, now }
    }

    /// Whether a reply answers what was asked, and the counts can take it.
    pub fn accepts(&self, step: &Step, reply: StepReply) -> (expected: bool)
        ensures
            expected == self@.expects(*step, reply),
    {
        match (step.phase, reply) {
            (StepPhase::Inbound, StepReply::Ready) => true,
            (StepPhase::Timer, StepReply::Deadline(_)) => true,
            (StepPhase::Events, StepReply::Ready) => true,
            (StepPhase::Events, StepReply::Event(event)) => match event {
                Some(ConnectionEvent::TrackOpen) => self.tracks_opened < usize::MAX,
                _ => true,
            },
            (StepPhase::Reads, StepReply::Read(Some(delivery))) => self.received.takes(delivery),
            (StepPhase::Reads, StepReply::Read(None)) => true,
            _ => false,
        }
    }

    /// Takes the connection's reply to the last action of a step, and says what to do next.
    pub fn step(&mut self, step: &mut Step, reply: StepReply) -> (action: StepAction)
        requires
            old(self)@.expects(*old(step), reply),
        ensures
            (final(self)@, *final(step), action@) == old(self)@.stepped(*old(step), reply),
    {
        let ghost before = self@;
        match (step.phase, reply) {
            (StepPhase::Inbound, StepReply::Ready) => {
                match self.inbound.pop_front() {
                    Some(message) => {
                        step.worked = true;
                        let transport = TransportContext {
                            local_addr: self.addr,
                            peer_addr: self.remote_addr,
                            transport_protocol: TransportProtocol::UDP,
                            ecn: None,
                        };
                        assert(self@.inbound =~= before.inbound.drop_first());
                        StepAction::Deliver(transport, message)
                    },
                    None => {
                        step.phase = StepPhase::Timer;
                        StepAction::PollTimeout
                    },
                }
            },
            (StepPhase::Timer, StepReply::Deadline(deadline)) => {
                step.phase = StepPhase::Events;
                match deadline {
                    Some(deadline) => if deadline <= step.now {
                        StepAction::HandleTimeout
                    } else {
                        StepAction::PollEvent
                    },
                    None => StepAction::PollEvent,
                }
            },
            (StepPhase::Events, StepReply::Event(Some(event))) => {
                step.worked = true;
                self.tell(event);
                StepAction::PollEvent
            },
            (StepPhase::Events, StepReply::Event(None)) => {
                step.phase = StepPhase::Reads;
                StepAction::PollRead
            },
            (StepPhase::Events, _) => StepAction::PollEvent,
            (StepPhase::Reads, StepReply::Read(Some(delivery))) => {
                step.worked = true;
                self.received.count(delivery);
                StepAction::PollRead
            },
            _ => {
                step.phase = StepPhase::Done;
                StepAction::Finish(step.worked)
            },
        }
    }
}

/// This side and the step once every datagram that waits has been handed over, with what was
/// handed over, in order.
pub open spec fn handed_over(peer: PeerView, step: Step) -> (PeerView, Step, Seq<Seq<u8>>)
    decreases peer.inbound.len(),
{
    match peer.stepped(step, StepReply::Ready) {
        (next, after, StepActionView::Deliver(_, message)) if peer.inbound.len() > 0 && step.phase
            is Inbound => {
            let (last, done, rest) = handed_over(next, after);
            (last, done, seq![message] + rest)
        },
        (next, after, _) => (next, after, Seq::empty()),
    }
}

/// A step hands over every datagram that waits, once and in order, before it asks for anything
/// else, and counts as work exactly where there was one.
pub proof fn law_step_hands_over_all(peer: PeerView, now: Instant)
    ensures
        ({
            let step = Step { phase: StepPhase::Inbound, worked: false, now };
            let (after, left, messages) = handed_over(peer, step);
            &&& messages == peer.inbound
            &&& after == (PeerView { inbound: Seq::empty(), ..peer })
            &&& left == (Step { phase: StepPhase::Timer, worked: peer.inbound.len() > 0, now })
        }),
{
    lemma_hands_over(peer, Step { phase: StepPhase::Inbound, worked: false, now });
}

proof fn lemma_hands_over(peer: PeerView, step: Step)
    requires
        step.phase is Inbound,
    ensures
        ({
            let (after, left, messages) = handed_over(peer, step);
            &&& messages == peer.inbound
            &&& after == (PeerView { inbound: Seq::empty(), ..peer })
            &&& left == (Step {
                phase: StepPhase::Timer,
                worked: step.worked || peer.inbound.len() > 0,
                ..step
            })
        }),
    decreases peer.inbound.len(),
{
    let (next, after, action) = peer.stepped(step, StepReply::Ready);
    if peer.inbound.len() > 0 {
        lemma_hands_over(next, after);
        assert(seq![peer.inbound.first()] + peer.inbound.drop_first() =~= peer.inbound);
    } else {
        assert(peer.inbound =~= Seq::empty());
    }
}

/// A timer that fires is not work: a step that finds no datagram, no announcement and no delivery
/// reports that nothing happened, whether or not the deadline had come.
pub proof fn law_a_timer_alone_is_not_work(peer: PeerView, now: Instant, deadline: Option<Instant>)
    requires
        peer.inbound.len() == 0,
    ensures
        ({
            let begun = Step { phase: StepPhase::Inbound, worked: false, now };
            let (one, timer, _) = peer.stepped(begun, StepReply::Ready);
            let (two, events, action) = one.stepped(timer, StepReply::Deadline(deadline));
            let (three, asked, _) = if action is HandleTimeout {
                two.stepped(events, StepReply::Ready)
            } else {
                (two, events, action)
            };
            let (four, reads, _) = three.stepped(asked, StepReply::Event(None));
            let (last, done, finish) = four.stepped(reads, StepReply::Read(None));
            &&& last == peer
            &&& done.phase is Done
            &&& finish == StepActionView::Finish(false)
        }),
{
}

/// This side and the step once its connection has announced these things, one after the other.
pub open spec fn after_events(
    peer: PeerView,
    step: Step,
    events: Seq<ConnectionEvent>,
) -> (PeerView, Step)
    decreases events.len(),
{
    if events.len() == 0 {
        (peer, step)
    } else {
        let (before, asked) = after_events(peer, step, events.drop_last());
        let (next, after, _) = before.stepped(asked, StepReply::Event(Some(events.last())));
        (next, after)
    }
}

/// The channels that are announced to be open, in order.
pub open spec fn channels_among(events: Seq<ConnectionEvent>) -> Seq<u16>
    decreases events.len(),
{
    if events.len() == 0 {
        Seq::empty()
    } else {
        match events.last() {
            ConnectionEvent::ChannelOpen(id) => channels_among(events.drop_last()).push(id),
            _ => channels_among(events.drop_last()),
        }
    }
}

/// How many tracks are announced to be open.
pub open spec fn tracks_among(events: Seq<ConnectionEvent>) -> int
    decreases events.len(),
{
    if events.len() == 0 {
        0
    } else {
        tracks_among(events.drop_last()) + if events.last() is TrackOpen {
            1int
        } else {
            0
        }
    }
}

/// Everything that the connection announces is taken note of: whether it came up or failed, every
/// channel in order, and every track. The step goes on asking, and counts as work where there was an
/// announcement.
pub proof fn law_every_event_is_noted(peer: PeerView, step: Step, events: Seq<ConnectionEvent>)
    requires
        step.phase is Events,
        peer.tracks_opened + tracks_among(events) <= usize::MAX,
    ensures
        ({
            let (after, left) = after_events(peer, step, events);
            &&& after.connected <==> peer.connected || exists|i: int|
                0 <= i < events.len() && #[trigger] events[i] is Connected
            &&& after.failed <==> peer.failed || exists|i: int|
                0 <= i < events.len() && #[trigger] events[i] is Failed
            &&& after.open_channels == peer.open_channels + channels_among(events)
            &&& after.tracks_opened == peer.tracks_opened + tracks_among(events)
            &&& after.inbound == peer.inbound && after.received == peer.received
            &&& left.phase is Events
            &&& left.now == step.now
            &&& left.worked <==> step.worked || events.len() > 0
        }),
    decreases events.len(),
{
    if events.len() == 0 {
        assert(peer.open_channels + channels_among(events) =~= peer.open_channels);
    } else {
        let earlier = events.drop_last();
        lemma_tracks_among(earlier);
        law_every_event_is_noted(peer, step, earlier);
        let (before, asked) = after_events(peer, step, earlier);
        let (after, left) = after_events(peer, step, events);
        let last = events.last();
        assert forall|i: int| 0 <= i < earlier.len() implies #[trigger] earlier[i] == events[i] by {}
        if before.connected && !peer.connected {
            let i = choose|i: int| 0 <= i < earlier.len() && #[trigger] earlier[i] is Connected;
            assert(events[i] is Connected);
        }
        if before.failed && !peer.failed {
            let i = choose|i: int| 0 <= i < earlier.len() && #[trigger] earlier[i] is Failed;
            assert(events[i] is Failed);
        }
        assert(events[events.len() - 1] == last);
        if exists|i: int| 0 <= i < events.len() && #[trigger] events[i] is Connected {
            let i = choose|i: int| 0 <= i < events.len() && #[trigger] events[i] is Connected;
            if i < earlier.len() {
                assert(earlier[i] is Connected);
            }
        }
        if exists|i: int| 0 <= i < events.len() && #[trigger] events[i] is Failed {
            let i = choose|i: int| 0 <= i < events.len() && #[trigger] events[i] is Failed;
            if i < earlier.len() {
                assert(earlier[i] is Failed);
            }
        }
        assert(after.open_channels =~= peer.open_channels + channels_among(events));
    }
}

proof fn lemma_tracks_among(events: Seq<ConnectionEvent>)
    ensures
        tracks_among(events) >= 0,
    decreases events.len(),
{
    if events.len() > 0 {
        lemma_tracks_among(events.drop_last());
    }
}

/// This side and the step once its connection has delivered these things, one after the other.
pub open spec fn after_reads(peer: PeerView, step: Step, deliveries: Seq<Delivery>) -> (
    PeerView,
    Step,
)
    decreases deliveries.len(),
{
    if deliveries.len() == 0 {
        (peer, step)
    } else {
        let (before, asked) = after_reads(peer, step, deliveries.drop_last());
        let (next, after, _) = before.stepped(asked, StepReply::Read(Some(deliveries.last())));
        (next, after)
    }
}

/// Everything that the connection delivers is counted, each kind for itself, and nothing else
/// changes. The step counts as work where there was a delivery, and ends once there is none.
pub proof fn law_every_read_is_counted(peer: PeerView, step: Step, deliveries: Seq<Delivery>)
    requires
        step.phase is Reads,
        all_fit(peer.received, deliveries),
    ensures
        ({
            let (after, left) = after_reads(peer, step, deliveries);
            &&& after == (PeerView { received: after.received, ..peer })
            &&& after.received.rtp_packets == peer.received.rtp_packets + tally(
                deliveries,
                |delivery: Delivery| delivery is Rtp,
            )
            &&& after.received.rtcp_packets == peer.received.rtcp_packets + tally(
                deliveries,
                |delivery: Delivery| delivery is Rtcp,
            )
            &&& after.received.data_channel_messages == peer.received.data_channel_messages + tally(
                deliveries,
                |delivery: Delivery| delivery is Channel,
            )
            &&& after.received.rtp_payload_bytes == peer.received.rtp_payload_bytes + volume(
                deliveries,
                |delivery: Delivery| delivery is Rtp,
            )
            &&& after.received.data_channel_bytes == peer.received.data_channel_bytes + volume(
                deliveries,
                |delivery: Delivery| delivery is Channel,
            )
            &&& left.phase is Reads
            &&& left.worked <==> step.worked || deliveries.len() > 0
            &&& after.stepped(left, StepReply::Read(None)).2 == StepActionView::Finish(left.worked)
            &&& after.stepped(left, StepReply::Read(None)).0 == after
        }),
{
    lemma_reads(peer, step, deliveries);
    law_every_delivery_is_counted(peer.received, deliveries);
    assert(is_rtp() =~= |delivery: Delivery| delivery is Rtp);
    assert(is_rtcp() =~= |delivery: Delivery| delivery is Rtcp);
    assert(is_channel() =~= |delivery: Delivery| delivery is Channel);
}

proof fn lemma_reads(peer: PeerView, step: Step, deliveries: Seq<Delivery>)
    requires
        step.phase is Reads,
    ensures
        ({
            let (after, left) = after_reads(peer, step, deliveries);
            &&& after == (PeerView { received: counted(peer.received, deliveries), ..peer })
            &&& left.phase is Reads
            &&& left.worked <==> step.worked || deliveries.len() > 0
        }),
    decreases deliveries.len(),
{
    if deliveries.len() > 0 {
        lemma_reads(peer, step, deliveries.drop_last());
    }
}

/// A datagram that waits is handed over as one from the other side to this one.
pub proof fn law_datagrams_come_from_the_other_side(peer: PeerView, step: Step)
    requires
        step.phase is Inbound,
        peer.inbound.len() > 0,
    ensures
        ({
            let action = peer.stepped(step, StepReply::Ready).2;
            &&& action is Deliver
            &&& action->Deliver_0.local_addr == peer.addr
            &&& action->Deliver_0.peer_addr == peer.remote_addr
            &&& action->Deliver_0.transport_protocol == TransportProtocol::UDP
            &&& action->Deliver_0.ecn is None
            &&& action->Deliver_1 == peer.inbound[0]
        }),
{
}

/// The connection is told of its deadline exactly where that has come, and nothing changes by it.
pub proof fn law_deadline_is_told_when_it_has_come(
    peer: PeerView,
    step: Step,
    deadline: Option<Instant>,
)
    requires
        step.phase is Timer,
    ensures
        ({
            let (after, left, action) = peer.stepped(step, StepReply::Deadline(deadline));
            &&& action is HandleTimeout <==> deadline is Some && deadline->Some_0 <= step.now
            &&& !(action is HandleTimeout) ==> action is PollEvent
            &&& after == peer
            &&& left.phase is Events
            &&& left.worked == step.worked
        }),
{
}

} // verus!
