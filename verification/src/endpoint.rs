//! The DTLS endpoint.
//!
//! An [`Endpoint`] multiplexes several DTLS associations by remote address. It is fed inbound
//! datagrams and polled for the datagrams to send. It owns no sockets and reads no clock.

use crate::addr_map::AddrMap;
use crate::cipher_suite;
use crate::cipher_suite::CipherSuite;
use crate::conn;
use crate::conn::{ConnView, DTLSConn, HandshakeConfig, HandshakeState, State};
use crate::content;
use crate::error::Error;
use crate::time::Instant;
use crate::transport::{EcnCodepoint, SocketAddr, TransportContext, TransportProtocol};
use std::collections::VecDeque;
use vstd::prelude::*;

verus! {

/// What drives a handshake: it reads what a connection has kept, and gives it flights to send,
/// keys, and the word that it is done.
pub trait Handshaker<C: CipherSuite>: Sized {
    /// Whether going on with a handshake may leave this.
    spec fn may_handshake(
        before: ConnView<C>,
        now: Instant,
        after: ConnView<C>,
        result: Result<(), Error>,
    ) -> bool;

    /// Whether sending the last flight again may leave this.
    spec fn may_time_out(
        before: ConnView<C>,
        now: Instant,
        after: ConnView<C>,
        result: Result<(), Error>,
    ) -> bool;

    /// Goes on with a handshake.
    fn handshake(&mut self, conn: &mut DTLSConn<C>, now: Instant) -> (result: Result<(), Error>)
        requires
            old(conn).wf(),
        ensures
            final(conn).wf(),
            final(conn)@.remote_epoch == old(conn)@.remote_epoch,
            final(conn)@.pending == old(conn)@.pending,
            Self::may_handshake(old(conn)@, now, final(conn)@, result),
    ;

    /// Sends the last flight again.
    fn handshake_timeout(&mut self, conn: &mut DTLSConn<C>, now: Instant) -> (result: Result<
        (),
        Error,
    >)
        requires
            old(conn).wf(),
        ensures
            final(conn).wf(),
            Self::may_time_out(old(conn)@, now, final(conn)@, result),
    ;
}

/// Takes up connections that begin with what two ends have agreed on before: there is nothing to
/// exchange.
pub struct Resumption {}

impl<C: CipherSuite> Handshaker<C> for Resumption {
    open spec fn may_handshake(
        before: ConnView<C>,
        now: Instant,
        after: ConnView<C>,
        result: Result<(), Error>,
    ) -> bool {
        &&& result is Ok
        &&& after == if before.handshake_state == HandshakeState::Finished {
            ConnView { completed: true, ..before }
        } else {
            before
        }
    }

    open spec fn may_time_out(
        before: ConnView<C>,
        now: Instant,
        after: ConnView<C>,
        result: Result<(), Error>,
    ) -> bool {
        result is Ok && after == before
    }

    fn handshake(&mut self, conn: &mut DTLSConn<C>, now: Instant) -> (result: Result<(), Error>) {
        if conn.handshake_state() == HandshakeState::Finished {
            conn.set_handshake_completed();
        }
        Ok(())
    }

    fn handshake_timeout(&mut self, conn: &mut DTLSConn<C>, now: Instant) -> (result: Result<
        (),
        Error,
    >) {
        Ok(())
    }
}

/// What the endpoint reports.
#[derive(Debug, Clone, PartialEq, Eq)]
pub enum EndpointEvent {
    /// The handshake is done, and application data may be sent.
    HandshakeComplete,
    /// Application data came.
    ApplicationData(Vec<u8>),
}

/// What the endpoint reports.
#[verifier::ext_equal]
pub enum EventView {
    /// The handshake is done, and application data may be sent.
    HandshakeComplete,
    /// Application data came.
    ApplicationData(Seq<u8>),
}

impl View for EndpointEvent {
    type V = EventView;

    open spec fn view(&self) -> EventView {
        match self {
            EndpointEvent::HandshakeComplete => EventView::HandshakeComplete,
            EndpointEvent::ApplicationData(data) => EventView::ApplicationData(data@),
        }
    }
}

/// What the endpoint reports.
pub open spec fn event_views(events: Seq<EndpointEvent>) -> Seq<EventView> {
    Seq::new(events.len(), |i: int| events[i]@)
}

/// A datagram to send.
#[derive(Debug, Clone, PartialEq, Eq)]
pub struct Transmit {
    /// When it was made.
    pub now: Instant,
    /// How it travels.
    pub transport: TransportContext,
    /// The datagram.
    pub message: Vec<u8>,
}

/// A datagram to send.
#[verifier::ext_equal]
pub struct TransmitView {
    /// When it was made.
    pub now: Instant,
    /// How it travels.
    pub transport: TransportContext,
    /// The datagram.
    pub message: Seq<u8>,
}

impl View for Transmit {
    type V = TransmitView;

    open spec fn view(&self) -> TransmitView {
        TransmitView { now: self.now, transport: self.transport, message: self.message@ }
    }
}

/// Datagrams to send.
pub open spec fn transmit_views(transmits: Seq<Transmit>) -> Seq<TransmitView> {
    Seq::new(transmits.len(), |i: int| transmits[i]@)
}

/// Whether a connection may give these datagrams, in this order, and be left so.
pub open spec fn took<C: CipherSuite>(
    before: ConnView<C>,
    after: ConnView<C>,
    payloads: Seq<Seq<u8>>,
) -> bool
    decreases payloads.len(),
{
    if payloads.len() == 0 {
        after == before
    } else {
        exists|middle: ConnView<C>|
            took(before, middle, payloads.drop_last()) && #[trigger] middle.polled(
                after,
                Some(payloads.last()),
            )
    }
}

/// Whether a connection may give these datagrams and then no more, and be left so.
#[verifier::opaque]
pub open spec fn took_all<C: CipherSuite>(
    before: ConnView<C>,
    after: ConnView<C>,
    payloads: Seq<Seq<u8>>,
) -> bool {
    exists|middle: ConnView<C>| #[trigger]
        took(before, middle, payloads) && middle.polled(after, None)
}

proof fn lemma_took_more<C: CipherSuite>(
    before: ConnView<C>,
    middle: ConnView<C>,
    after: ConnView<C>,
    payloads: Seq<Seq<u8>>,
    one: Seq<u8>,
)
    requires
        took(before, middle, payloads),
        middle.polled(after, Some(one)),
    ensures
        took(before, after, payloads.push(one)),
{
    let more = payloads.push(one);
    assert(more.drop_last() =~= payloads);
    assert(more.last() == one);
    assert(middle.polled(after, Some(more.last())));
}

/// What is reported of a connection: that its handshake is done, if that is new, and the application
/// data that came.
pub open spec fn reported<C: CipherSuite>(completed_before: bool, conn: ConnView<C>) -> Seq<
    EventView,
> {
    let done: Seq<EventView> = if !completed_before && conn.completed {
        seq![EventView::HandshakeComplete]
    } else {
        Seq::empty()
    };
    if conn.completed {
        done + Seq::new(
            conn.decrypted.len(),
            |i: int| EventView::ApplicationData(conn.decrypted[i]),
        )
    } else {
        done
    }
}

/// A connection once its application data is handed on.
pub open spec fn emptied<C: CipherSuite>(conn: ConnView<C>) -> ConnView<C> {
    if conn.completed {
        ConnView { decrypted: Seq::empty(), ..conn }
    } else {
        conn
    }
}

/// A connection before its first message.
pub open spec fn begun<C: CipherSuite>(
    config: HandshakeConfig,
    is_client: bool,
    initial_state: Option<State<C>>,
) -> ConnView<C> {
    ConnView {
        is_client,
        config,
        local_epoch: match initial_state {
            Some(state) => state.local_epoch,
            None => 0,
        },
        remote_epoch: match initial_state {
            Some(state) => state.remote_epoch,
            None => 0,
        },
        sequences: match initial_state {
            Some(state) => state.local_sequence_number@,
            None => Seq::empty(),
        },
        cipher: match initial_state {
            Some(state) => conn::suite_keys(state.cipher_suite),
            None => None,
        },
        detectors: Seq::empty(),
        decrypted: Seq::empty(),
        pending: Seq::empty(),
        fragments: crate::fragment_buffer::BufferView { current: 0, messages: Map::empty() },
        cache: Seq::empty(),
        outgoing: Seq::empty(),
        datagrams: Seq::empty(),
        completed: false,
        closed: false,
        handshake_rx: false,
        handshake_state: if initial_state is Some {
            HandshakeState::Finished
        } else {
            HandshakeState::Preparing
        },
        flight: match (initial_state is Some, is_client) {
            (true, true) => conn::Flight::Flight5,
            (true, false) => conn::Flight::Flight6,
            (false, true) => conn::Flight::Flight1,
            (false, false) => conn::Flight::Flight0,
        },
        timer: None,
    }
}

/// Whether taking in a datagram may leave a connection so. Until the handshake is done, the
/// handshake goes on after it, what was held for keys is taken in, and if that was handshake data
/// the handshake goes on again.
#[verifier::opaque]
pub open spec fn takes_in<C: CipherSuite, H: Handshaker<C>>(
    before: ConnView<C>,
    now: Instant,
    data: Seq<u8>,
    after: ConnView<C>,
    failure: Option<Error>,
) -> bool {
    let (read, outcome) = before.read(data);
    if outcome is Err || read.completed {
        after == read && failure == failure_of(outcome)
    } else {
        exists|stepped: ConnView<C>, first: Result<(), Error>| #[trigger]
            H::may_handshake(read, now, stepped, first) && goes_on::<C, H>(
                stepped,
                first,
                now,
                after,
                failure,
            )
    }
}

/// The error in a result.
pub open spec fn failure_of(result: Result<(), Error>) -> Option<Error> {
    match result {
        Ok(_) => None,
        Err(error) => Some(error),
    }
}

/// A connection once it took in what was held for keys, if there are any.
pub open spec fn settled<C: CipherSuite>(conn: ConnView<C>) -> (ConnView<C>, Result<bool, Error>) {
    if conn.ready() {
        conn.flushed(!conn.completed)
    } else {
        (conn, Ok(false))
    }
}

/// Whether a connection may be left so after the handshake went on and what was held was taken in.
#[verifier::opaque]
pub open spec fn goes_on<C: CipherSuite, H: Handshaker<C>>(
    stepped: ConnView<C>,
    first: Result<(), Error>,
    now: Instant,
    after: ConnView<C>,
    failure: Option<Error>,
) -> bool {
    if first is Err {
        after == stepped && failure == failure_of(first)
    } else {
        let flushed = settled(stepped).0;
        match settled(stepped).1 {
            Err(error) => after == flushed && failure == Some(error),
            Ok(is_handshake) => if is_handshake && !flushed.completed {
                exists|second: Result<(), Error>| #[trigger]
                    H::may_handshake(flushed, now, after, second) && failure == failure_of(second)
            } else {
                after == flushed && failure is None
            },
        }
    }
}

/// The model of an [`Endpoint`].
#[verifier::ext_equal]
#[verifier::reject_recursive_types(C)]
pub struct EndpointView<C: CipherSuite> {
    /// This end's address.
    pub local_addr: SocketAddr,
    /// What datagrams travel over.
    pub transport_protocol: TransportProtocol,
    /// Datagrams to send.
    pub transmits: Seq<TransmitView>,
    /// The associations.
    pub connections: Map<SocketAddr, ConnView<C>>,
    /// What accepted associations are configured with, if any are accepted.
    pub server_config: Option<HandshakeConfig>,
}

impl<C: CipherSuite> EndpointView<C> {
    /// Whether a datagram can be taken in: the epochs that it and what is held could begin are
    /// within the range of epochs.
    pub open spec fn can_read(self, remote: SocketAddr, data: Seq<u8>) -> bool {
        &&& data.len() / 13 < u16::MAX
        &&& self.connections.contains_key(remote) ==> ({
            let conn = self.connections[remote];
            conn.remote_epoch + conn.pending.len() + data.len() / 13 < u16::MAX
        })
    }

    /// Datagrams for one peer.
    pub open spec fn addressed(
        self,
        payloads: Seq<Seq<u8>>,
        now: Instant,
        remote: SocketAddr,
        ecn: Option<EcnCodepoint>,
    ) -> Seq<TransmitView> {
        Seq::new(
            payloads.len(),
            |i: int|
                TransmitView {
                    now,
                    transport: TransportContext {
                        local_addr: self.local_addr,
                        peer_addr: remote,
                        transport_protocol: self.transport_protocol,
                        ecn,
                    },
                    message: payloads[i],
                },
        )
    }

    /// The endpoint with one association changed and datagrams for its peer.
    pub open spec fn with(
        self,
        remote: SocketAddr,
        conn: ConnView<C>,
        payloads: Seq<Seq<u8>>,
        now: Instant,
        ecn: Option<EcnCodepoint>,
    ) -> EndpointView<C> {
        EndpointView {
            connections: self.connections.insert(remote, conn),
            transmits: self.transmits + self.addressed(payloads, now, remote, ecn),
            ..self
        }
    }

    /// The endpoint without one association, and with datagrams for its peer.
    pub open spec fn without(
        self,
        remote: SocketAddr,
        payloads: Seq<Seq<u8>>,
        now: Instant,
    ) -> EndpointView<C> {
        EndpointView {
            connections: self.connections.remove(remote),
            transmits: self.transmits + self.addressed(payloads, now, remote, None),
            ..self
        }
    }

    /// The association with a peer, or a new one.
    pub open spec fn association(self, remote: SocketAddr) -> ConnView<C> {
        if self.connections.contains_key(remote) {
            self.connections[remote]
        } else {
            begun(self.server_config->Some_0, false, None::<State<C>>)
        }
    }

    /// Whether going on from `stepped` gave these datagrams and left the endpoint so.
    pub open spec fn sends(
        self,
        remote: SocketAddr,
        stepped: ConnView<C>,
        sent: ConnView<C>,
        payloads: Seq<Seq<u8>>,
        now: Instant,
        ecn: Option<EcnCodepoint>,
        after: EndpointView<C>,
    ) -> bool {
        took_all(stepped, sent, payloads) && after == self.with(remote, sent, payloads, now, ecn)
    }

    /// A connection that is closed from here.
    pub open spec fn closing(conn: ConnView<C>) -> ConnView<C> {
        if conn.closed {
            conn
        } else {
            (ConnView { closed: true, ..conn }).notified(
                crate::alert::Alert {
                    alert_level: crate::alert::AlertLevel::Warning,
                    alert_description: crate::alert::AlertDescription::CloseNotify,
                },
            )
        }
    }
}

/// The datagrams that closing one association gives.
#[verifier::reject_recursive_types(C)]
pub struct Farewell<C: CipherSuite> {
    /// The peer.
    pub remote: SocketAddr,
    /// The connection that is left.
    pub left: ConnView<C>,
    /// The datagrams.
    pub payloads: Seq<Seq<u8>>,
}

impl<C: CipherSuite> EndpointView<C> {
    /// The datagrams of all farewells.
    pub open spec fn farewells(self, all: Seq<Farewell<C>>, now: Instant) -> Seq<TransmitView>
        decreases all.len(),
    {
        if all.len() == 0 {
            Seq::empty()
        } else {
            self.farewells(all.drop_last(), now) + self.addressed(
                all.last().payloads,
                now,
                all.last().remote,
                None,
            )
        }
    }

    /// Whether a farewell is what closing an association may give.
    pub open spec fn may_leave(self, farewell: Farewell<C>) -> bool {
        &&& self.connections.contains_key(farewell.remote)
        &&& took_all(
            EndpointView::closing(self.connections[farewell.remote]),
            farewell.left,
            farewell.payloads,
        )
    }

    /// Whether there is one farewell for each association, in whatever order.
    pub open spec fn may_close(self, all: Seq<Farewell<C>>) -> bool {
        &&& forall|i: int| 0 <= i < all.len() ==> self.may_leave(#[trigger] all[i])
        &&& forall|i: int, j: int|
            0 <= i < j < all.len() ==> (#[trigger] all[i]).remote != (#[trigger] all[j]).remote
        &&& forall|remote: SocketAddr| #[trigger]
            self.connections.contains_key(remote) ==> bids_farewell(all, remote)
    }
}

/// Whether there is a farewell for a peer.
pub open spec fn bids_farewell<C: CipherSuite>(all: Seq<Farewell<C>>, remote: SocketAddr) -> bool {
    exists|i: int| 0 <= i < all.len() && (#[trigger] all[i]).remote == remote
}

/// Multiplexes DTLS associations by remote address.
pub struct Endpoint<C: CipherSuite, H: Handshaker<C>> {
    local_addr: SocketAddr,
    transport_protocol: TransportProtocol,
    transmits: VecDeque<Transmit>,
    connections: AddrMap<DTLSConn<C>>,
    server_config: Option<HandshakeConfig>,
    handshaker: H,
}

/// What is known of associations.
pub open spec fn conn_views<C: CipherSuite>(connections: Map<SocketAddr, DTLSConn<C>>) -> Map<
    SocketAddr,
    ConnView<C>,
> {
    connections.map_values(|conn: DTLSConn<C>| conn@)
}

impl<C: CipherSuite, H: Handshaker<C>> View for Endpoint<C, H> {
    type V = EndpointView<C>;

    closed spec fn view(&self) -> EndpointView<C> {
        EndpointView {
            local_addr: self.local_addr,
            transport_protocol: self.transport_protocol,
            transmits: transmit_views(self.transmits@),
            connections: conn_views(self.connections@),
            server_config: self.server_config,
        }
    }
}

impl<C: CipherSuite, H: Handshaker<C>> Endpoint<C, H> {
    /// The parts of the endpoint fit together.
    pub closed spec fn wf(&self) -> bool {
        &&& self.connections.wf()
        &&& forall|addr: SocketAddr| #[trigger]
            self.connections@.contains_key(addr) ==> self.connections@[addr].wf()
        &&& self.server_config matches Some(config) ==> config.maximum_transmission_unit > 0
    }

    /// An endpoint without associations.
    pub fn new(
        local_addr: SocketAddr,
        protocol: TransportProtocol,
        server_config: Option<HandshakeConfig>,
        handshaker: H,
    ) -> (endpoint: Endpoint<C, H>)
        requires
            server_config matches Some(config) ==> config.maximum_transmission_unit > 0,
        ensures
            endpoint.wf(),
            endpoint@ == (EndpointView::<C> {
                local_addr,
                transport_protocol: protocol,
                transmits: Seq::empty(),
                connections: Map::empty(),
                server_config,
            }),
    {
        let endpoint = Endpoint {
            local_addr,
            transport_protocol: protocol,
            transmits: VecDeque::new(),
            connections: AddrMap::new(),
            server_config,
            handshaker,
        };
        proof {
            assert(endpoint@.transmits =~= Seq::empty());
            assert(endpoint@.connections =~= Map::empty());
        }
        endpoint
    }

    /// Replaces the server configuration, affecting new associations only.
    pub fn set_server_config(&mut self, server_config: Option<HandshakeConfig>)
        requires
            old(self).wf(),
            server_config matches Some(config) ==> config.maximum_transmission_unit > 0,
        ensures
            final(self).wf(),
            final(self)@ == (EndpointView { server_config, ..old(self)@ }),
    {
        self.server_config = server_config;
    }

    /// Takes the next datagram to send.
    pub fn poll_transmit(&mut self) -> (transmit: Option<Transmit>)
        requires
            old(self).wf(),
        ensures
            final(self).wf(),
            match transmit {
                Some(transmit) => {
                    &&& old(self)@.transmits.len() > 0
                    &&& transmit@ == old(self)@.transmits[0]
                    &&& final(self)@ == (EndpointView {
                        transmits: old(self)@.transmits.skip(1),
                        ..old(self)@
                    })
                },
                None => old(self)@.transmits.len() == 0 && final(self)@ == old(self)@,
            },
    {
        let ghost before = self@;
        match self.transmits.pop_front() {
            Some(transmit) => {
                proof {
                    assert(before.transmits[0] == transmit@);
                    assert(self@.transmits =~= before.transmits.skip(1));
                }
                Some(transmit)
            },
            None => {
                assert(self@ =~= before);
                None
            },
        }
    }

    /// The addresses of the associations.
    pub fn get_connections_keys(&self) -> (keys: Vec<SocketAddr>)
        requires
            self.wf(),
        ensures
            keys@.no_duplicates(),
            keys@.to_set() == self@.connections.dom(),
    {
        let keys: Vec<SocketAddr> = self.connections.keys();
        assert(self.connections@.dom() =~= self@.connections.dom());
        keys
    }

    /// Whether a datagram can be taken in: the epochs that it and what is held could begin are
    /// within the range of epochs.
    pub fn can_read(&self, remote: SocketAddr, data: &[u8]) -> (can: bool)
        requires
            self.wf(),
        ensures
            can == self@.can_read(remote, data@),
    {
        let records: usize = data.len() / 13;
        if records >= u16::MAX as usize {
            return false;
        }
        match self.connections.get(&remote) {
            Some(conn) => {
                let held: usize = conn.pending_records();
                let epoch: u16 = conn.connection_state().remote_epoch;
                held < u16::MAX as usize && epoch as usize + held + records < u16::MAX as usize
            },
            None => true,
        }
    }

    /// What is agreed on with a peer.
    pub fn get_connection_state(&self, remote: SocketAddr) -> (state: Option<&State<C>>)
        requires
            self.wf(),
        ensures
            match state {
                Some(state) => {
                    &&& self@.connections.contains_key(remote)
                    &&& state.local_epoch == self@.connections[remote].local_epoch
                    &&& state.remote_epoch == self@.connections[remote].remote_epoch
                    &&& state.local_sequence_number@ == self@.connections[remote].sequences
                    &&& conn::suite_keys(state.cipher_suite) == self@.connections[remote].cipher
                },
                None => !self@.connections.contains_key(remote),
            },
    {
        match self.connections.get(&remote) {
            Some(conn) => Some(conn.connection_state()),
            None => None,
        }
    }

    /// Queues what a connection has to send.
    fn flush(
        &mut self,
        conn: &mut DTLSConn<C>,
        now: Instant,
        remote: SocketAddr,
        ecn: Option<EcnCodepoint>,
    )
        requires
            old(self).wf(),
            old(conn).wf(),
        ensures
            final(self).wf(),
            final(conn).wf(),
            final(self).connections == old(self).connections,
            exists|payloads: Seq<Seq<u8>>| #[trigger]
                took_all(old(conn)@, final(conn)@, payloads) && final(self)@ == (EndpointView {
                    transmits: old(self)@.transmits + old(self)@.addressed(
                        payloads,
                        now,
                        remote,
                        ecn,
                    ),
                    ..old(self)@
                }),
    {
        let ghost before = self@;
        let ghost start = conn@;
        let ghost mut payloads: Seq<Seq<u8>> = Seq::empty();
        proof {
            assert(self@ =~= (EndpointView {
                transmits: before.transmits + before.addressed(payloads, now, remote, ecn),
                ..before
            }));
        }
        loop
            invariant_except_break
                took(start, conn@, payloads),
            invariant
                self.wf(),
                conn.wf(),
                self.connections == old(self).connections,
                self@ == (EndpointView {
                    transmits: before.transmits + before.addressed(payloads, now, remote, ecn),
                    ..before
                }),
            ensures
                took_all(start, conn@, payloads),
            decreases conn::load(conn@), conn@.datagrams.len(),
        {
            let ghost middle = conn@;
            match conn.outgoing_raw_packet() {
                Some(payload) => {
                    let ghost bytes = payload@;
                    let ghost now_transmits = self@.transmits;
                    proof {
                        conn::lemma_polled_progress(middle, conn@, bytes);
                        lemma_took_more(start, middle, conn@, payloads, bytes);
                    }
                    let transmit = Transmit {
                        now,
                        transport: TransportContext {
                            local_addr: self.local_addr,
                            peer_addr: remote,
                            transport_protocol: self.transport_protocol,
                            ecn,
                        },
                        message: payload,
                    };
                    self.transmits.push_back(transmit);
                    proof {
                        let more = payloads.push(bytes);
                        assert(self@.transmits =~= now_transmits.push(transmit@));
                        assert(self@.transmits =~= before.transmits + before.addressed(
                            more,
                            now,
                            remote,
                            ecn,
                        ));
                        payloads = more;
                    }
                },
                None => {
                    proof {
                        reveal(took_all);
                        assert(took(start, middle, payloads));
                    }
                    break;
                },
            }
        }
    }

    /// Puts a connection into the map.
    fn store(&mut self, remote: SocketAddr, conn: DTLSConn<C>)
        requires
            old(self).wf(),
            conn.wf(),
            !old(self)@.connections.contains_key(remote),
        ensures
            final(self).wf(),
            final(self)@ == (EndpointView {
                connections: old(self)@.connections.insert(remote, conn@),
                ..old(self)@
            }),
    {
        let ghost before = self@;
        self.connections.insert(remote, conn);
        assert(self@.connections =~= before.connections.insert(remote, conn@));
    }

    /// Takes a connection out of the map.
    fn take(&mut self, remote: SocketAddr) -> (conn: Option<DTLSConn<C>>)
        requires
            old(self).wf(),
        ensures
            final(self).wf(),
            final(self)@ == (EndpointView {
                connections: old(self)@.connections.remove(remote),
                ..old(self)@
            }),
            match conn {
                Some(conn) => {
                    &&& old(self)@.connections.contains_key(remote)
                    &&& conn.wf()
                    &&& conn@ == old(self)@.connections[remote]
                },
                None => !old(self)@.connections.contains_key(remote),
            },
    {
        let ghost before = self@;
        let ghost all = self.connections@;
        let conn: Option<DTLSConn<C>> = self.connections.remove(&remote);
        proof {
            assert forall|addr: SocketAddr| #[trigger]
                self.connections@.contains_key(addr) implies self.connections@[addr].wf() by {
                assert(all.contains_key(addr));
            }
            assert(self@.connections =~= before.connections.remove(remote));
        }
        conn
    }

    /// Initiates an association. Where there is one already, nothing happens.
    pub fn connect(
        &mut self,
        now: Instant,
        remote: SocketAddr,
        client_config: HandshakeConfig,
        initial_state: Option<State<C>>,
    ) -> (result: Result<(), Error>)
        requires
            old(self).wf(),
            client_config.maximum_transmission_unit > 0,
            conn::usable(initial_state),
        ensures
            final(self).wf(),
            if remote.port == 0 {
                &&& result == Err::<(), Error>(Error::InvalidRemoteAddress(remote))
                &&& final(self)@ == old(self)@
            } else if old(self)@.connections.contains_key(remote) {
                result is Ok && final(self)@ == old(self)@
            } else {
                match result {
                    Ok(()) => exists|
                        stepped: ConnView<C>,
                        sent: ConnView<C>,
                        payloads: Seq<Seq<u8>>,
                    |
                        H::may_handshake(
                            begun(client_config, true, initial_state),
                            now,
                            stepped,
                            result,
                        ) && #[trigger] old(self)@.sends(
                            remote,
                            stepped,
                            sent,
                            payloads,
                            now,
                            None,
                            final(self)@,
                        ),
                    Err(_) => final(self)@ == old(self)@ && exists|stepped: ConnView<C>| #[trigger]
                        H::may_handshake(
                            begun(client_config, true, initial_state),
                            now,
                            stepped,
                            result,
                        ),
                }
            },
    {
        if remote.port == 0 {
            return Err(Error::InvalidRemoteAddress(remote));
        }
        if self.connections.contains(&remote) {
            return Ok(());
        }
        let ghost before = self@;
        let mut conn: DTLSConn<C> = DTLSConn::new(client_config, true, initial_state);
        assert(conn@ == begun(client_config, true, initial_state));
        let first: Result<(), Error> = self.handshaker.handshake(&mut conn, now);
        let ghost stepped = conn@;
        assert(H::may_handshake(begun(client_config, true, initial_state), now, stepped, first));
        match first {
            Ok(()) => {},
            Err(error) => {
                assert(self@ =~= before);
                return first;
            },
        }
        self.flush(&mut conn, now, remote, None);
        let ghost payloads = choose|payloads: Seq<Seq<u8>>| #[trigger]
            took_all(stepped, conn@, payloads) && self@ == (EndpointView {
                transmits: before.transmits + before.addressed(payloads, now, remote, None),
                ..before
            });
        let ghost sent = conn@;
        self.store(remote, conn);
        proof {
            assert(self@ =~= before.with(remote, sent, payloads, now, None));
            assert(before.sends(remote, stepped, sent, payloads, now, None, self@));
        }
        first
    }

    /// Closes the association with a peer and hands it back.
    pub fn stop(&mut self, now: Instant, remote: SocketAddr) -> (stopped: Option<DTLSConn<C>>)
        requires
            old(self).wf(),
        ensures
            final(self).wf(),
            match stopped {
                Some(conn) => {
                    &&& old(self)@.connections.contains_key(remote)
                    &&& conn.wf()
                    &&& exists|payloads: Seq<Seq<u8>>|
                        took_all(
                            EndpointView::closing(old(self)@.connections[remote]),
                            conn@,
                            payloads,
                        ) && final(self)@ == #[trigger] old(self)@.without(remote, payloads, now)
                },
                None => !old(self)@.connections.contains_key(remote) && final(self)@ == old(self)@,
            },
    {
        let ghost before = self@;
        match self.take(remote) {
            Some(conn) => {
                let mut conn: DTLSConn<C> = conn;
                let ghost rest = self@;
                conn.close();
                let ghost closing = conn@;
                self.flush(&mut conn, now, remote, None);
                proof {
                    let payloads = choose|payloads: Seq<Seq<u8>>| #[trigger]
                        took_all(closing, conn@, payloads) && self@ == (EndpointView {
                            transmits: rest.transmits + rest.addressed(payloads, now, remote, None),
                            ..rest
                        });
                    assert(took_all(closing, conn@, payloads));
                    assert(self@ =~= before.without(remote, payloads, now));
                }
                Some(conn)
            },
            None => {
                assert(self@ =~= before);
                None
            },
        }
    }

    /// Closes all associations.
    pub fn close(&mut self, now: Instant) -> (result: Result<(), Error>)
        requires
            old(self).wf(),
        ensures
            final(self).wf(),
            result is Ok,
            exists|all: Seq<Farewell<C>>| #[trigger]
                old(self)@.may_close(all) && final(self)@ == (EndpointView {
                    connections: Map::empty(),
                    transmits: old(self)@.transmits + old(self)@.farewells(all, now),
                    ..old(self)@
                }),
    {
        let ghost before = self@;
        let ghost mut all: Seq<Farewell<C>> = Seq::empty();
        proof {
            assert(before.transmits + before.farewells(all, now) =~= before.transmits);
        }
        loop
            invariant
                self.wf(),
                self@ == (EndpointView {
                    connections: self@.connections,
                    transmits: before.transmits + before.farewells(all, now),
                    ..before
                }),
                forall|i: int| 0 <= i < all.len() ==> before.may_leave(#[trigger] all[i]),
                forall|i: int|
                    0 <= i < all.len() ==> !self@.connections.contains_key(
                        (#[trigger] all[i]).remote,
                    ),
                forall|i: int, j: int|
                    0 <= i < j < all.len() ==> (#[trigger] all[i]).remote != (
                    #[trigger] all[j]).remote,
                forall|remote: SocketAddr| #[trigger]
                    self@.connections.contains_key(remote) ==> before.connections.contains_key(
                        remote,
                    ) && self@.connections[remote] == before.connections[remote],
                forall|remote: SocketAddr| #[trigger]
                    before.connections.contains_key(remote) ==> self@.connections.contains_key(
                        remote,
                    ) || bids_farewell(all, remote),
            ensures
                self@.connections == Map::<SocketAddr, ConnView<C>>::empty(),
            decreases self.connections.size(),
        {
            let ghost now_view = self@;
            let ghost held = self.connections@;
            match self.connections.pop() {
                Some((remote, conn)) => {
                    let mut conn: DTLSConn<C> = conn;
                    proof {
                        assert(held.contains_key(remote));
                        assert(now_view.connections.contains_key(remote));
                        assert(conn@ == before.connections[remote]);
                        assert forall|addr: SocketAddr| #[trigger]
                            self.connections@.contains_key(
                                addr,
                            ) implies self.connections@[addr].wf() by {
                            assert(held.contains_key(addr));
                        }
                        assert(self@.connections =~= now_view.connections.remove(remote));
                    }
                    let ghost rest = self@;
                    conn.close();
                    let ghost closing = conn@;
                    self.flush(&mut conn, now, remote, None);
                    proof {
                        let payloads = choose|payloads: Seq<Seq<u8>>| #[trigger]
                            took_all(closing, conn@, payloads) && self@ == (EndpointView {
                                transmits: rest.transmits + rest.addressed(
                                    payloads,
                                    now,
                                    remote,
                                    None,
                                ),
                                ..rest
                            });
                        let farewell = Farewell { remote, left: conn@, payloads };
                        let more = all.push(farewell);
                        assert(more.drop_last() =~= all);
                        assert(before.farewells(more, now) == before.farewells(all, now)
                            + before.addressed(payloads, now, remote, None));
                        assert(self@.transmits =~= before.transmits + before.farewells(more, now));
                        assert(before.may_leave(farewell));
                        assert forall|addr: SocketAddr| #[trigger]
                            before.connections.contains_key(
                                addr,
                            ) implies self@.connections.contains_key(addr) || bids_farewell(
                            more,
                            addr,
                        ) by {
                            if bids_farewell(all, addr) {
                                let i = choose|i: int|
                                    0 <= i < all.len() && (#[trigger] all[i]).remote == addr;
                                assert(more[i].remote == addr);
                            }
                            assert(more[all.len() as int].remote == remote);
                        }
                        all = more;
                    }
                },
                None => {
                    assert(self@.connections =~= Map::<SocketAddr, ConnView<C>>::empty());
                    break;
                },
            }
        }
        assert(before.may_close(all));
        Ok(())
    }

    /// Takes in one datagram. A peer that is not known is accepted, if associations are.
    pub fn read(
        &mut self,
        now: Instant,
        remote: SocketAddr,
        ecn: Option<EcnCodepoint>,
        data: &[u8],
    ) -> (result: Result<Vec<EndpointEvent>, Error>)
        requires
            old(self).wf(),
            old(self)@.can_read(remote, data@),
        ensures
            final(self).wf(),
            if !old(self)@.connections.contains_key(remote) && old(self)@.server_config is None {
                result matches Err(error) && error == Error::NoServerConfig && final(self)@ == old(
                    self,
                )@
            } else {
                let conn = old(self)@.association(remote);
                match result {
                    Ok(events) => exists|
                        taken: ConnView<C>,
                        sent: ConnView<C>,
                        payloads: Seq<Seq<u8>>,
                    |
                        {
                            &&& takes_in::<C, H>(conn, now, data@, taken, None)
                            &&& event_views(events@) == reported(conn.completed, taken)
                            &&& #[trigger] old(self)@.sends(
                                remote,
                                emptied(taken),
                                sent,
                                payloads,
                                now,
                                ecn,
                                final(self)@,
                            )
                        },
                    Err(error) => exists|taken: ConnView<C>| #[trigger]
                        takes_in::<C, H>(conn, now, data@, taken, Some(error))
                            && final(self)@ == old(self)@.with(remote, taken, Seq::empty(), now, ecn),
                }
            },
    {
        let ghost before = self@;
        let mut conn: DTLSConn<C> = match self.take(remote) {
            Some(conn) => conn,
            None => {
                assert(self@ =~= before);
                match self.server_config {
                    Some(config) => DTLSConn::new(config, false, None),
                    None => {
                        return Err(Error::NoServerConfig);
                    },
                }
            },
        };
        let ghost begun_conn = before.association(remote);
        assert(conn@ =~= begun_conn);
        let ghost rest = self@;
        let completed_before: bool = conn.is_handshake_completed();
        let taken: Result<(), Error> = self.take_in(&mut conn, now, data);
        let ghost after = conn@;
        match taken {
            Ok(()) => {},
            Err(error) => {
                self.store(remote, conn);
                proof {
                    assert(self@ =~= before.with(remote, after, Seq::empty(), now, ecn));
                    assert(takes_in::<C, H>(
                        begun_conn,
                        now,
                        data@,
                        after,
                        Some(error),
                    ));
                }
                return Err(error);
            },
        }
        let messages: Vec<EndpointEvent> = report(completed_before, &mut conn);
        let ghost quiet = conn@;
        self.flush(&mut conn, now, remote, ecn);
        let ghost payloads = choose|payloads: Seq<Seq<u8>>| #[trigger]
            took_all(quiet, conn@, payloads) && self@ == (EndpointView {
                transmits: rest.transmits + rest.addressed(payloads, now, remote, ecn),
                ..rest
            });
        let ghost sent = conn@;
        self.store(remote, conn);
        proof {
            assert(self@ =~= before.with(remote, sent, payloads, now, ecn));
            assert(takes_in::<C, H>(begun_conn, now, data@, after, None));
            assert(before.sends(remote, emptied(after), sent, payloads, now, ecn, self@));
        }
        Ok(messages)
    }

    /// Has a connection take in one datagram, and drives its handshake on.
    fn take_in(&mut self, conn: &mut DTLSConn<C>, now: Instant, data: &[u8]) -> (result: Result<
        (),
        Error,
    >)
        requires
            old(self).wf(),
            old(conn).wf(),
            old(conn)@.remote_epoch + old(conn)@.pending.len() + data@.len() / 13 < u16::MAX,
        ensures
            final(self).wf(),
            final(self)@ == old(self)@,
            final(conn).wf(),
            takes_in::<C, H>(old(conn)@, now, data@, final(conn)@, failure_of(result)),
    {
        let ghost begun_conn = conn@;
        proof {
            reveal(takes_in);
            content::lemma_unpacked_count(data@);
            match content::unpacked(data@) {
                Ok(records) => {
                    conn::lemma_read_all(conn@, records, !conn@.completed);
                },
                Err(_) => {},
            }
        }
        let outcome: Result<(), Error> = conn.read(data);
        let ghost read = conn@;
        assert((read, outcome) == begun_conn.read(data@));
        if outcome.is_err() || conn.is_handshake_completed() {
            return outcome;
        }
        self.go_on(conn, now)
    }

    /// Drives a connection's handshake on, and has it take in what was held for keys.
    fn go_on(&mut self, conn: &mut DTLSConn<C>, now: Instant) -> (result: Result<(), Error>)
        requires
            old(self).wf(),
            old(conn).wf(),
            old(conn)@.remote_epoch + old(conn)@.pending.len() < u16::MAX,
        ensures
            final(self).wf(),
            final(self)@ == old(self)@,
            final(conn).wf(),
            exists|stepped: ConnView<C>, first: Result<(), Error>| #[trigger]
                H::may_handshake(old(conn)@, now, stepped, first) && goes_on::<C, H>(
                    stepped,
                    first,
                    now,
                    final(conn)@,
                    failure_of(result),
                ),
    {
        let ghost read = conn@;
        let first: Result<(), Error> = self.handshaker.handshake(conn, now);
        let ghost stepped = conn@;
        proof {
            reveal(goes_on);
            assert(H::may_handshake(read, now, stepped, first));
        }
        if first.is_err() {
            assert(goes_on::<C, H>(stepped, first, now, conn@, failure_of(first)));
            return first;
        }
        let drained: Result<bool, Error> = conn.handle_incoming_queued_packets();
        let ghost flushed = conn@;
        assert((flushed, drained) == settled(stepped));
        match drained {
            Ok(is_handshake) => {
                if is_handshake && !conn.is_handshake_completed() {
                    let second: Result<(), Error> = self.handshaker.handshake(conn, now);
                    proof {
                        assert(H::may_handshake(flushed, now, conn@, second));
                        assert(goes_on::<C, H>(stepped, first, now, conn@, failure_of(second)));
                    }
                    second
                } else {
                    assert(goes_on::<C, H>(stepped, first, now, conn@, None));
                    Ok(())
                }
            },
            Err(error) => {
                assert(goes_on::<C, H>(stepped, first, now, conn@, Some(error)));
                Err(error)
            },
        }
    }

    /// Queues application data for a peer whose handshake is done.
    pub fn write(&mut self, now: Instant, remote: SocketAddr, data: &[u8]) -> (result: Result<
        (),
        Error,
    >)
        requires
            old(self).wf(),
            cipher_suite::fits(25 + data@.len() as int),
        ensures
            final(self).wf(),
            if !old(self)@.connections.contains_key(remote) {
                &&& result == Err::<(), Error>(Error::InvalidRemoteAddress(remote))
                &&& final(self)@ == old(self)@
            } else if old(self)@.connections[remote].closed {
                &&& result == Err::<(), Error>(Error::ErrConnClosed)
                &&& final(self)@ == old(self)@
            } else if !old(self)@.connections[remote].completed {
                &&& result == Err::<(), Error>(Error::ErrHandshakeInProgress)
                &&& final(self)@ == old(self)@
            } else {
                &&& result is Ok
                &&& exists|sent: ConnView<C>, payloads: Seq<Seq<u8>>| #[trigger]
                    took_all(old(self)@.connections[remote].written(data@), sent, payloads)
                        && final(self)@ == old(self)@.with(remote, sent, payloads, now, None)
            },
    {
        let ghost before = self@;
        match self.take(remote) {
            Some(conn) => {
                let mut conn: DTLSConn<C> = conn;
                let ghost rest = self@;
                match conn.write(data) {
                    Ok(()) => {},
                    Err(error) => {
                        self.store(remote, conn);
                        assert(self@ =~= before);
                        return Err(error);
                    },
                }
                let ghost written = conn@;
                self.flush(&mut conn, now, remote, None);
                let ghost payloads = choose|payloads: Seq<Seq<u8>>| #[trigger]
                    took_all(written, conn@, payloads) && self@ == (EndpointView {
                        transmits: rest.transmits + rest.addressed(payloads, now, remote, None),
                        ..rest
                    });
                let ghost sent = conn@;
                self.store(remote, conn);
                proof {
                    assert(took_all(written, sent, payloads));
                    assert(self@ =~= before.with(remote, sent, payloads, now, None));
                }
                Ok(())
            },
            None => {
                assert(self@ =~= before);
                Err(Error::InvalidRemoteAddress(remote))
            },
        }
    }

    /// Drives the retransmissions of a peer's association.
    pub fn handle_timeout(&mut self, remote: SocketAddr, now: Instant) -> (result: Result<
        (),
        Error,
    >)
        requires
            old(self).wf(),
        ensures
            final(self).wf(),
            if !old(self)@.connections.contains_key(remote) {
                &&& result == Err::<(), Error>(Error::InvalidRemoteAddress(remote))
                &&& final(self)@ == old(self)@
            } else {
                let conn = old(self)@.connections[remote];
                let due = conn.timer matches Some(timer) && now >= timer;
                let stopped = ConnView { timer: None, ..conn };
                if !due {
                    result is Ok && final(self)@ == old(self)@
                } else if conn.completed {
                    &&& result is Ok
                    &&& exists|sent: ConnView<C>, payloads: Seq<Seq<u8>>| #[trigger]
                        took_all(stopped, sent, payloads) && final(self)@ == old(self)@.with(
                            remote,
                            sent,
                            payloads,
                            now,
                            None,
                        )
                } else {
                    match result {
                        Ok(()) => exists|
                            stepped: ConnView<C>,
                            sent: ConnView<C>,
                            payloads: Seq<Seq<u8>>,
                        |
                            H::may_time_out(stopped, now, stepped, result) && #[trigger] old(
                                self,
                            )@.sends(remote, stepped, sent, payloads, now, None, final(self)@),
                        Err(_) => exists|stepped: ConnView<C>| #[trigger]
                            H::may_time_out(stopped, now, stepped, result) && final(self)@ == old(
                                self,
                            )@.with(remote, stepped, Seq::empty(), now, None),
                    }
                }
            },
    {
        let ghost before = self@;
        match self.take(remote) {
            Some(conn) => {
                let mut conn: DTLSConn<C> = conn;
                let ghost rest = self@;
                let due: bool = match conn.retransmit_timer() {
                    Some(timer) => now >= timer,
                    None => false,
                };
                if !due {
                    self.store(remote, conn);
                    assert(self@ =~= before);
                    return Ok(());
                }
                conn.set_retransmit_timer(None);
                let ghost stopped = conn@;
                let mut outcome: Result<(), Error> = Ok(());
                if !conn.is_handshake_completed() {
                    outcome = self.handshaker.handshake_timeout(&mut conn, now);
                    assert(H::may_time_out(stopped, now, conn@, outcome));
                    if outcome.is_err() {
                        let ghost stepped = conn@;
                        self.store(remote, conn);
                        assert(self@ =~= before.with(remote, stepped, Seq::empty(), now, None));
                        return outcome;
                    }
                }
                let ghost stepped = conn@;
                self.flush(&mut conn, now, remote, None);
                let ghost payloads = choose|payloads: Seq<Seq<u8>>| #[trigger]
                    took_all(stepped, conn@, payloads) && self@ == (EndpointView {
                        transmits: rest.transmits + rest.addressed(payloads, now, remote, None),
                        ..rest
                    });
                let ghost sent = conn@;
                self.store(remote, conn);
                proof {
                    assert(took_all(stepped, sent, payloads));
                    assert(self@ =~= before.with(remote, sent, payloads, now, None));
                    assert(before.sends(remote, stepped, sent, payloads, now, None, self@));
                }
                outcome
            },
            None => {
                assert(self@ =~= before);
                Err(Error::InvalidRemoteAddress(remote))
            },
        }
    }

    /// When a peer's association next needs [`Self::handle_timeout`].
    pub fn poll_timeout(&self, remote: &SocketAddr) -> (timer: Option<Instant>)
        requires
            self.wf(),
        ensures
            timer == if self@.connections.contains_key(*remote) {
                self@.connections[*remote].timer
            } else {
                None
            },
    {
        match self.connections.get(remote) {
            Some(conn) => conn.retransmit_timer(),
            None => None,
        }
    }
}

/// What is reported of a connection. Its application data is handed on.
fn report<C: CipherSuite>(completed_before: bool, conn: &mut DTLSConn<C>) -> (messages: Vec<
    EndpointEvent,
>)
    requires
        old(conn).wf(),
    ensures
        final(conn).wf(),
        event_views(messages@) == reported(completed_before, old(conn)@),
        final(conn)@ == emptied(old(conn)@),
{
    let ghost before = conn@;
    let mut messages: Vec<EndpointEvent> = Vec::new();
    if !completed_before && conn.is_handshake_completed() {
        messages.push(EndpointEvent::HandshakeComplete);
    }
    if !conn.is_handshake_completed() {
        assert(event_views(messages@) =~= reported(completed_before, before));
        return messages;
    }
    let ghost done = event_views(messages@);
    let ghost mut n: int = 0;
    proof {
        assert(before.decrypted.skip(0) =~= before.decrypted);
        assert(conn@ =~= (ConnView { decrypted: before.decrypted.skip(0), ..before }));
    }
    loop
        invariant
            conn.wf(),
            before.completed,
            0 <= n <= before.decrypted.len(),
            conn@ == (ConnView { decrypted: before.decrypted.skip(n), ..before }),
            event_views(messages@) =~= done + Seq::new(
                n as nat,
                |i: int| EventView::ApplicationData(before.decrypted[i]),
            ),
        ensures
            n == before.decrypted.len(),
        decreases before.decrypted.len() - n,
    {
        let ghost sofar = event_views(messages@);
        match conn.incoming_application_data() {
            Some(message) => {
                proof {
                    assert(message@ == before.decrypted[n]);
                    assert(conn@.decrypted =~= before.decrypted.skip(n + 1));
                }
                messages.push(EndpointEvent::ApplicationData(message));
                proof {
                    assert(event_views(messages@) =~= sofar.push(
                        EventView::ApplicationData(before.decrypted[n]),
                    ));
                    n = n + 1;
                }
            },
            None => {
                break;
            },
        }
    }
    proof {
        assert(conn@.decrypted =~= Seq::empty());
        assert(conn@ =~= emptied(before));
        assert(event_views(messages@) =~= reported(completed_before, before));
    }
    messages
}

/// Everything that came is reported, once and in order: of a connection whose handshake is done, the
/// events are that it is done, where that is new, and then one for each piece of application data
/// that was decrypted, and nothing of it stays behind. Before that there are no events, and what
/// was decrypted stays.
pub proof fn law_all_data_is_reported<C: CipherSuite>(completed_before: bool, conn: ConnView<C>)
    ensures
        ({
            let events = reported(completed_before, conn);
            let first: int = if completed_before {
                0
            } else {
                1
            };
            if conn.completed {
                &&& events.len() == first + conn.decrypted.len()
                &&& !completed_before ==> events[0] == EventView::HandshakeComplete
                &&& forall|i: int|
                    0 <= i < conn.decrypted.len() ==> events[first + i]
                        == EventView::ApplicationData(#[trigger] conn.decrypted[i])
                &&& emptied(conn) == (ConnView { decrypted: Seq::empty(), ..conn })
            } else {
                events.len() == 0 && emptied(conn) == conn
            }
        }),
{
    let events = reported(completed_before, conn);
    if conn.completed {
        let first: int = if completed_before {
            0
        } else {
            1
        };
        assert forall|i: int| 0 <= i < conn.decrypted.len() implies events[first + i]
            == EventView::ApplicationData(#[trigger] conn.decrypted[i]) by {}
    }
}

/// A datagram of application data gives one event for each of its records: where the handshake is
/// done, nothing waits to be reported, and each record opens, holds application data and is not a
/// repeat when its turn comes, taking it in does not fail, and the events are the data of the
/// records, in order.
pub proof fn law_each_data_record_is_an_event<C: CipherSuite, H: Handshaker<C>>(
    conn: ConnView<C>,
    now: Instant,
    data: Seq<u8>,
    records: Seq<Seq<u8>>,
    taken: ConnView<C>,
    failure: Option<Error>,
)
    requires
        conn.completed,
        conn.decrypted.len() == 0,
        content::unpacked(data) == Ok::<Seq<Seq<u8>>, Error>(records),
        forall|i: int| 0 <= i < records.len() ==> conn::holds_data(conn, #[trigger] records[i]),
        forall|i: int|
            0 <= i < records.len() ==> conn.read_all(#[trigger] records.take(i), false).0.is_news(
                records[i],
            ),
        takes_in::<C, H>(conn, now, data, taken, failure),
    ensures
        failure is None,
        reported(conn.completed, taken).len() == records.len(),
        forall|i: int|
            0 <= i < records.len() ==> reported(conn.completed, taken)[i]
                == EventView::ApplicationData(
                conn::data_in::<C>(conn.cipher->Some_0, #[trigger] records[i]),
            ),
        taken.outgoing == conn.outgoing,
{
    reveal(takes_in);
    conn::law_every_data_record_is_handed_on(conn, records, false);
    law_all_data_is_reported(conn.completed, taken);
    assert forall|i: int| 0 <= i < records.len() implies reported(conn.completed, taken)[i]
        == EventView::ApplicationData(
        conn::data_in::<C>(conn.cipher->Some_0, #[trigger] records[i]),
    ) by {
        assert(taken.decrypted[i] == conn::data_in::<C>(conn.cipher->Some_0, records[i]));
        assert(reported(conn.completed, taken)[0 + i] == EventView::ApplicationData(
            taken.decrypted[i],
        ));
    }
}

/// Associations are kept apart: what is done for one peer leaves the associations with all others,
/// the address and the configuration as they were, keeps the datagrams that wait to be sent and
/// their order, and adds datagrams for that peer only.
pub proof fn law_associations_are_apart<C: CipherSuite>(
    endpoint: EndpointView<C>,
    remote: SocketAddr,
    conn: ConnView<C>,
    payloads: Seq<Seq<u8>>,
    now: Instant,
    ecn: Option<EcnCodepoint>,
    other: SocketAddr,
)
    requires
        other != remote,
    ensures
        ({
            let after = endpoint.with(remote, conn, payloads, now, ecn);
            let gone = endpoint.without(remote, payloads, now);
            let held = endpoint.transmits.len();
            &&& after.connections[remote] == conn && after.connections.contains_key(remote)
            &&& !gone.connections.contains_key(remote)
            &&& after.connections.contains_key(other) == endpoint.connections.contains_key(other)
            &&& gone.connections.contains_key(other) == endpoint.connections.contains_key(other)
            &&& endpoint.connections.contains_key(other) ==> after.connections[other]
                == endpoint.connections[other] && gone.connections[other]
                == endpoint.connections[other]
            &&& after.local_addr == endpoint.local_addr && gone.local_addr == endpoint.local_addr
            &&& after.server_config == endpoint.server_config && gone.server_config
                == endpoint.server_config
            &&& after.transmits.len() == held + payloads.len()
            &&& gone.transmits.len() == held + payloads.len()
            &&& after.transmits.take(held as int) == endpoint.transmits
            &&& gone.transmits.take(held as int) == endpoint.transmits
            &&& forall|i: int|
                held <= i < after.transmits.len() ==> (
                #[trigger] after.transmits[i]).transport.peer_addr == remote
                    && after.transmits[i].transport.local_addr == endpoint.local_addr
                    && after.transmits[i].message == payloads[i - held]
                    && after.transmits[i].transport.transport_protocol
                    == endpoint.transport_protocol && after.transmits[i].transport.ecn == ecn
                    && after.transmits[i].now == now
            &&& forall|i: int|
                held <= i < gone.transmits.len() ==> (
                #[trigger] gone.transmits[i]).transport.peer_addr == remote
                    && gone.transmits[i].transport.local_addr == endpoint.local_addr
                    && gone.transmits[i].message == payloads[i - held]
                    && gone.transmits[i].transport.transport_protocol
                    == endpoint.transport_protocol && gone.transmits[i].transport.ecn is None
                    && gone.transmits[i].now == now
        }),
{
}

/// Closing an endpoint sends datagrams only to peers that it had an association with.
pub proof fn law_farewells_go_to_peers<C: CipherSuite>(
    endpoint: EndpointView<C>,
    all: Seq<Farewell<C>>,
    now: Instant,
)
    requires
        endpoint.may_close(all),
    ensures
        forall|i: int|
            0 <= i < endpoint.farewells(all, now).len() ==> endpoint.connections.contains_key(
                (#[trigger] endpoint.farewells(all, now)[i]).transport.peer_addr,
            ),
{
    lemma_farewells(endpoint, all, now);
}

proof fn lemma_farewells<C: CipherSuite>(
    endpoint: EndpointView<C>,
    all: Seq<Farewell<C>>,
    now: Instant,
)
    requires
        forall|i: int| 0 <= i < all.len() ==> endpoint.may_leave(#[trigger] all[i]),
    ensures
        forall|i: int|
            0 <= i < endpoint.farewells(all, now).len() ==> endpoint.connections.contains_key(
                (#[trigger] endpoint.farewells(all, now)[i]).transport.peer_addr,
            ),
    decreases all.len(),
{
    if all.len() > 0 {
        let before = all.drop_last();
        assert forall|i: int| 0 <= i < before.len() implies endpoint.may_leave(
            #[trigger] before[i],
        ) by {
            assert(before[i] == all[i]);
        }
        lemma_farewells(endpoint, before, now);
        assert(endpoint.may_leave(all[all.len() - 1]));
    }
}

} // verus!
