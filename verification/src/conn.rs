//! The DTLS association.
//!
//! A [`DTLSConn`] joins what is kept of a handshake to the record layer for one peer: datagrams go in
//! through [`DTLSConn::read`], application data comes out through
//! [`DTLSConn::incoming_application_data`], and what should go on the wire is collected from
//! [`DTLSConn::outgoing_raw_packet`].

use crate::alert::{Alert, AlertDescription, AlertLevel};
use crate::cipher_suite;
use crate::cipher_suite::CipherSuite;
use crate::content;
use crate::content::{
    marshal_part, marshal_record, unpack_datagram, Content, ContentView, Handshake, Packet,
    PacketView, RecordLayer, MAX_RECORD_LEN,
};
use crate::crypto::{AEAD_MAX_LEN, HASH_MAX_LEN};
use crate::error::Error;
use crate::fragment_buffer;
use crate::fragment_buffer::{BufferView, FragmentBuffer};
use crate::handshake_cache;
use crate::handshake_cache::{Cached, CachedView, HandshakeCache};
use crate::record;
use crate::record::{
    append, protocol_version1_2, ContentType, HandshakeHeader, HandshakeType, RecordLayerHeader,
    MAX_SEQUENCE_NUMBER, RECORD_LAYER_HEADER_SIZE,
};
use crate::record_cipher;
use crate::replay_detector;
use crate::replay_detector::{ReplayView, SlidingWindowDetector};
use crate::time::Instant;
use std::collections::VecDeque;
use vstd::prelude::*;
use vstd::slice::slice_to_vec;

verus! {

/// How many numbers behind the highest a record may be, where nothing else is said.
pub const DEFAULT_REPLAY_PROTECTION_WINDOW: usize = 64;

/// How many times a handshake flight may be retransmitted before the handshake fails.
pub const DEFAULT_MAXIMUM_RETRANSMIT_NUMBER: usize = 7;

/// Most records held while waiting for the keys of the next epoch.
///
/// What legitimately waits is a peer's final flight arriving out of order plus whatever application
/// data the peer sends straight after it. Records beyond either budget are dropped.
pub const MAX_PENDING_RECORDS: usize = 64;

/// Most bytes, summed over records, held while waiting for the keys of the next epoch.
pub const MAX_PENDING_RECORD_BYTES: usize = 65536;

/// Where a handshake is.
#[derive(Debug, Clone, Copy, PartialEq, Eq, Structural)]
pub enum HandshakeState {
    /// It has failed.
    Errored,
    /// A flight is made.
    Preparing,
    /// A flight is sent.
    Sending,
    /// The peer's flight is awaited.
    Waiting,
    /// It is done.
    Finished,
}

/// The flights that a handshake begins or ends with.
#[derive(Debug, Clone, Copy, PartialEq, Eq, Structural)]
pub enum Flight {
    /// The server waits for the first message.
    Flight0,
    /// The client's first message.
    Flight1,
    /// The client's last flight.
    Flight5,
    /// The server's last flight.
    Flight6,
}

/// What a connection is configured with.
#[derive(Debug, Clone, Copy, PartialEq, Eq, Structural)]
pub struct HandshakeConfig {
    /// Most bytes in a datagram.
    pub maximum_transmission_unit: usize,
    /// How many times a flight may be retransmitted.
    pub maximum_retransmit_number: usize,
    /// How many numbers behind the highest a record may be.
    pub replay_protection_window: usize,
}

/// What two ends of a connection have agreed on, and how far they have got.
pub struct State<C: CipherSuite> {
    /// The epoch of what is sent.
    pub local_epoch: u16,
    /// The epoch of what is received.
    pub remote_epoch: u16,
    /// For each epoch, the number of the next record.
    pub local_sequence_number: Vec<u64>,
    /// The cipher.
    pub cipher_suite: Option<C>,
}

impl<C: CipherSuite> State<C> {
    /// The state before the first message.
    pub fn new() -> (state: State<C>)
        ensures
            state.local_epoch == 0,
            state.remote_epoch == 0,
            state.local_sequence_number@ == Seq::<u64>::empty(),
            state.cipher_suite is None,
    {
        State {
            local_epoch: 0,
            remote_epoch: 0,
            local_sequence_number: Vec::new(),
            cipher_suite: None,
        }
    }
}

/// Whether the keys of a state fit their algorithm.
pub open spec fn usable<C: CipherSuite>(state: Option<State<C>>) -> bool {
    match state {
        Some(state) => match state.cipher_suite {
            Some(suite) => suite.valid(),
            None => true,
        },
        None => true,
    }
}

/// What a received record calls for.
#[derive(Debug, Clone, Copy, PartialEq, Eq, Structural)]
pub struct Reply {
    /// It held handshake data.
    pub is_handshake: bool,
    /// An alert to send.
    pub alert: Option<Alert>,
    /// Why the connection cannot go on.
    pub error: Option<Error>,
    /// Why the record was dropped, where it is malformed or not authentic.
    pub fault: Option<Error>,
}

/// Nothing is called for.
pub open spec fn silence() -> Reply {
    Reply { is_handshake: false, alert: None, error: None, fault: None }
}

/// A fatal alert is called for.
pub open spec fn fatal(alert_description: AlertDescription, error: Option<Error>) -> Reply {
    Reply {
        is_handshake: false,
        alert: Some(Alert { alert_level: AlertLevel::Fatal, alert_description }),
        error,
        fault: None,
    }
}

/// The record is dropped.
pub open spec fn dropped(fault: Error) -> Reply {
    Reply { is_handshake: false, alert: None, error: None, fault: Some(fault) }
}

/// What is reported where a record was dropped, and where none was.
pub open spec fn verdict(fault: Option<Error>) -> Result<(), Error> {
    match fault {
        Some(fault) => Err(fault),
        None => Ok(()),
    }
}

/// Bytes in all of these.
pub open spec fn total(all: Seq<Seq<u8>>) -> int
    decreases all.len(),
{
    if all.len() == 0 {
        0
    } else {
        total(all.drop_last()) + all.last().len()
    }
}

/// The complete messages, taken out in order and kept. One of a type that is not known is passed
/// over.
pub open spec fn drained(fragments: BufferView, cache: Cached, is_client: bool) -> (
    BufferView,
    Cached,
)
    decreases fragments.messages.dom().len(),
{
    if !fragments.messages.dom().finite() || !fragments.ready() {
        (fragments, cache)
    } else {
        let message = fragments.messages[fragments.current];
        let raw = message.header().bytes() + message.body;
        drained(fragments.popped(), kept(cache, raw, message.epoch, is_client), is_client)
    }
}

/// What is kept once the peer's message `raw` came.
pub open spec fn kept(cache: Cached, raw: Seq<u8>, epoch: u16, is_client: bool) -> Cached {
    let header = HandshakeHeader::read(raw);
    if header.handshake_type == HandshakeType::Invalid {
        cache
    } else {
        handshake_cache::with_item(
            cache,
            CachedView {
                typ: header.handshake_type,
                is_client: !is_client,
                epoch,
                message_sequence: header.message_sequence,
                data: raw,
            },
        )
    }
}

/// The model of a [`DTLSConn`].
#[verifier::ext_equal]
#[verifier::reject_recursive_types(C)]
pub struct ConnView<C: CipherSuite> {
    /// Whether this is the client's end.
    pub is_client: bool,
    /// What the connection is configured with.
    pub config: HandshakeConfig,
    /// The epoch of what is sent.
    pub local_epoch: u16,
    /// The epoch of what is received.
    pub remote_epoch: u16,
    /// For each epoch, the number of the next record.
    pub sequences: Seq<u64>,
    /// The cipher.
    pub cipher: Option<C::Keys>,
    /// For each epoch, which records came.
    pub detectors: Seq<ReplayView>,
    /// Application data that came.
    pub decrypted: Seq<Seq<u8>>,
    /// Records that wait for keys.
    pub pending: Seq<Seq<u8>>,
    /// Handshake messages that are being put together.
    pub fragments: BufferView,
    /// Handshake messages that were sent and received.
    pub cache: Cached,
    /// Records to send.
    pub outgoing: Seq<PacketView>,
    /// Datagrams to send.
    pub datagrams: Seq<Seq<u8>>,
    /// Whether the handshake is done.
    pub completed: bool,
    /// Whether the connection was closed here.
    pub closed: bool,
    /// Whether handshake data came.
    pub handshake_rx: bool,
    /// Where the handshake is.
    pub handshake_state: HandshakeState,
    /// The flight that the handshake is at.
    pub flight: Flight,
    /// When the flight is to be sent again.
    pub timer: Option<Instant>,
}

impl<C: CipherSuite> ConnView<C> {
    /// Whether there are keys.
    pub open spec fn ready(self) -> bool {
        self.cipher matches Some(keys) && C::ready(keys)
    }

    /// A record is held, if there is room for it.
    pub open spec fn enqueued(self, pkt: Seq<u8>) -> ConnView<C> {
        if self.pending.len() >= MAX_PENDING_RECORDS || total(self.pending) + pkt.len()
            > MAX_PENDING_RECORD_BYTES {
            self
        } else {
            ConnView { pending: self.pending.push(pkt), ..self }
        }
    }

    /// A record is held if `enqueue` says so.
    pub open spec fn held(self, pkt: Seq<u8>, enqueue: bool) -> ConnView<C> {
        if enqueue {
            self.enqueued(pkt)
        } else {
            self
        }
    }

    /// There is a detector for every epoch up to this one.
    pub open spec fn watched(self, epoch: u16) -> ConnView<C> {
        ConnView { detectors: padded(self.detectors, epoch as nat, self.config), ..self }
    }

    /// A record number is remembered.
    pub open spec fn accepted(self, h: RecordLayerHeader) -> ConnView<C> {
        ConnView {
            detectors: self.detectors.update(
                h.epoch as int,
                self.detectors[h.epoch as int].accept(h.sequence_number),
            ),
            ..self
        }
    }

    /// What a record, as it came, makes of the connection, and what it calls for.
    pub open spec fn received(self, pkt: Seq<u8>, enqueue: bool) -> (ConnView<C>, Reply) {
        let h = RecordLayerHeader::read(pkt);
        if pkt.len() < 13 {
            (self, dropped(Error::ErrBufferTooSmall))
        } else if h.epoch > self.remote_epoch + 1 {
            (self, silence())
        } else if h.epoch > self.remote_epoch {
            (self.held(pkt, enqueue), silence())
        } else {
            let watched = self.watched(h.epoch);
            if !watched.detectors[h.epoch as int].fresh(h.sequence_number) {
                (watched, silence())
            } else if h.epoch == 0 {
                watched.opened(h, pkt, enqueue)
            } else if !watched.ready() {
                (watched.held(pkt, enqueue), silence())
            } else {
                match C::opened(watched.cipher->Some_0, pkt) {
                    Ok(plain) => watched.opened(h, plain, enqueue),
                    Err(fault) => if C::psk(watched.cipher->Some_0) {
                        (watched, fatal(AlertDescription::UnknownPskIdentity, None))
                    } else {
                        (watched, dropped(fault))
                    },
                }
            }
        }
    }

    /// What an opened record makes of the connection, and what it calls for. `h` is the header that
    /// it came with.
    pub open spec fn opened(self, h: RecordLayerHeader, plain: Seq<u8>, enqueue: bool) -> (
        ConnView<C>,
        Reply,
    ) {
        let (fragments, pushed) = self.fragments.push(plain);
        let buffered = ConnView { fragments, ..self };
        match pushed {
            Err(fault) => (buffered, dropped(fault)),
            Ok(true) => {
                let (fragments, cache) = drained(fragments, self.cache, self.is_client);
                (
                    (ConnView { fragments, cache, ..self }).accepted(h),
                    Reply { is_handshake: true, alert: None, error: None, fault: None },
                )
            },
            Ok(false) => if h.content_type == ContentType::ApplicationData {
                if h.epoch == 0 {
                    (
                        buffered,
                        fatal(
                            AlertDescription::UnexpectedMessage,
                            Some(Error::ErrApplicationDataEpochZero),
                        ),
                    )
                } else {
                    (
                        (ConnView {
                            decrypted: self.decrypted.push(plain.skip(13)),
                            ..buffered
                        }).accepted(h),
                        silence(),
                    )
                }
            } else {
                match ContentView::read(plain) {
                    Err(error) => (
                        buffered,
                        fatal(AlertDescription::DecodeError, Some(error)),
                    ),
                    Ok(ContentView::Alert(alert)) => {
                        let answer = alert_answer(alert);
                        (
                            buffered.accepted(h),
                            Reply {
                                is_handshake: false,
                                alert: Some(answer),
                                error: Some(Error::ErrAlert(answer)),
                                fault: None,
                            },
                        )
                    },
                    Ok(ContentView::ChangeCipherSpec) => if !self.ready() {
                        (buffered.held(plain, enqueue), silence())
                    } else if h.epoch == self.remote_epoch {
                        (
                            (ConnView {
                                remote_epoch: (h.epoch + 1) as u16,
                                ..buffered
                            }).accepted(h),
                            silence(),
                        )
                    } else {
                        (buffered, silence())
                    },
                    Ok(_) => (
                        buffered,
                        fatal(
                            AlertDescription::UnexpectedMessage,
                            Some(Error::ErrUnhandledContextType),
                        ),
                    ),
                }
            },
        }
    }

    /// A record that holds an alert.
    pub open spec fn alert_packet(self, alert: Alert) -> PacketView {
        PacketView {
            header: content::unnumbered(
                record::dtls_1_2(),
                self.local_epoch,
                ContentView::Alert(alert),
            ),
            content: ContentView::Alert(alert),
            should_encrypt: self.completed,
            reset_local_sequence_number: false,
        }
    }

    /// An alert is to be sent.
    pub open spec fn notified(self, alert: Alert) -> ConnView<C> {
        ConnView { outgoing: self.outgoing.push(self.alert_packet(alert)), ..self }
    }

    /// What is buffered for a handshake is freed.
    pub open spec fn released(self) -> ConnView<C> {
        ConnView { pending: Seq::empty(), fragments: BufferView { messages: Map::empty(), ..self.fragments }, ..self }
    }

    /// What a record called for is done. An alert that ends the connection, and an error, are
    /// returned.
    pub open spec fn answered(self, reply: Reply) -> (ConnView<C>, Option<Error>) {
        let notified = match reply.alert {
            Some(alert) => self.notified(alert),
            None => self,
        };
        if reply.alert matches Some(alert) && alert.ends() {
            (notified.released(), Some(Error::ErrAlertFatalOrClose))
        } else if reply.error is Some {
            (notified, reply.error)
        } else {
            (
                ConnView {
                    handshake_rx: self.handshake_rx || reply.is_handshake,
                    ..notified
                },
                None,
            )
        }
    }

    /// The connection after these records, up to the first that it cannot go on after. Where one
    /// was dropped, that is reported of all of them.
    pub open spec fn read_all(self, records: Seq<Seq<u8>>, enqueue: bool) -> (
        ConnView<C>,
        Result<(), Error>,
    )
        decreases records.len(),
    {
        if records.len() == 0 {
            (self, Ok(()))
        } else {
            let (after, reply) = self.received(records[0], enqueue);
            match after.answered(reply) {
                (answered, Some(error)) => (answered, Err(error)),
                (answered, None) => match answered.read_all(records.drop_first(), enqueue) {
                    (done, Ok(())) => (done, verdict(reply.fault)),
                    (done, Err(error)) => (done, Err(error)),
                },
            }
        }
    }

    /// The connection after a datagram.
    pub open spec fn read(self, buf: Seq<u8>) -> (ConnView<C>, Result<(), Error>) {
        match content::unpacked(buf) {
            Ok(records) => self.read_all(records, !self.completed),
            Err(error) => (self, Err(error)),
        }
    }

    /// These records are held, as far as there is room for them.
    pub open spec fn all_enqueued(self, records: Seq<Seq<u8>>) -> ConnView<C>
        decreases records.len(),
    {
        if records.len() == 0 {
            self
        } else {
            self.enqueued(records[0]).all_enqueued(records.drop_first())
        }
    }

    /// The connection after records that were held, and whether one of them held handshake data.
    /// Those after one that it cannot go on after are held again.
    pub open spec fn retried(self, records: Seq<Seq<u8>>, enqueue: bool) -> (
        ConnView<C>,
        Result<bool, Error>,
    )
        decreases records.len(),
    {
        if records.len() == 0 {
            (self, Ok(false))
        } else {
            let (after, reply) = self.received(records[0], enqueue);
            match after.answered(reply) {
                (answered, Some(error)) => if reply.alert matches Some(alert) && alert.ends() {
                    (answered, Err(error))
                } else {
                    (answered.all_enqueued(records.drop_first()), Err(error))
                },
                (answered, None) => match answered.retried(records.drop_first(), enqueue) {
                    (done, Ok(more)) => (done, Ok(more || reply.is_handshake)),
                    (done, Err(error)) => (done, Err(error)),
                },
            }
        }
    }

    /// The connection once what was held is taken in, over and over while that raises the epoch.
    pub open spec fn flushed(self, enqueue: bool) -> (ConnView<C>, Result<bool, Error>)
        decreases u16::MAX - self.remote_epoch,
    {
        let emptied = ConnView { pending: Seq::empty(), ..self };
        match emptied.retried(self.pending, enqueue) {
            (after, Err(error)) => (after, Err(error)),
            (after, Ok(some)) => if after.remote_epoch <= self.remote_epoch || after.pending.len()
                == 0 {
                (after, Ok(some))
            } else {
                match after.flushed(enqueue) {
                    (done, Ok(more)) => (done, Ok(some || more)),
                    (done, Err(error)) => (done, Err(error)),
                }
            },
        }
    }

    /// What waits for keys stays within its limits, what is remembered of record numbers lies in
    /// the window, a datagram can hold something, and there is room for what a cipher adds to what
    /// is sent.
    pub open spec fn valid(self) -> bool {
        &&& self.pending.len() <= MAX_PENDING_RECORDS
        &&& total(self.pending) <= MAX_PENDING_RECORD_BYTES
        &&& forall|i: int|
            0 <= i < self.pending.len() ==> (#[trigger] self.pending[i]).len() <= MAX_RECORD_LEN
        &&& forall|i: int| 0 <= i < self.detectors.len() ==> (#[trigger] self.detectors[i]).valid()
        &&& self.config.maximum_transmission_unit > 0
        &&& all_fit(self.outgoing)
    }
}

/// Whether there is room for what a cipher adds to the records of each packet.
pub open spec fn all_fit(packets: Seq<PacketView>) -> bool {
    forall|i: int| 0 <= i < packets.len() ==> packet_fits(#[trigger] packets[i])
}

/// Whether there is room for what a cipher adds to the records of a packet.
pub open spec fn packet_fits(packet: PacketView) -> bool {
    cipher_suite::fits(25 + packet.content.bytes().len() as int)
}

/// The alert that is sent back: a closing one is answered by a closing one.
pub open spec fn alert_answer(alert: Alert) -> Alert {
    if alert.alert_description == AlertDescription::CloseNotify {
        Alert {
            alert_level: AlertLevel::Warning,
            alert_description: AlertDescription::CloseNotify,
        }
    } else {
        alert
    }
}

/// A record before it goes to the cipher.
#[verifier::ext_equal]
pub struct Plain {
    /// Its header.
    pub header: RecordLayerHeader,
    /// The header and what follows it.
    pub bytes: Seq<u8>,
    /// Whether it is to be encrypted.
    pub encrypt: bool,
}

/// Numbers with a 0 for each epoch up to `epoch` that has none.
pub open spec fn counted(sequences: Seq<u64>, epoch: u16) -> Seq<u64> {
    if sequences.len() > epoch {
        sequences
    } else {
        sequences + Seq::new((epoch + 1 - sequences.len()) as nat, |i: int| 0u64)
    }
}

/// Numbers once `n` more records of an epoch are numbered.
pub open spec fn advanced(sequences: Seq<u64>, epoch: u16, n: int) -> Seq<u64> {
    let all = counted(sequences, epoch);
    let next = all[epoch as int] + n;
    all.update(
        epoch as int,
        if next < u64::MAX {
            next as u64
        } else {
            u64::MAX
        },
    )
}

/// How many records a handshake message takes: one even where it is empty.
pub open spec fn parts(len: int, mtu: int) -> int {
    if len == 0 {
        1
    } else {
        (len + mtu - 1) / mtu
    }
}

/// The part of a handshake message between two offsets, as a record with a number.
pub open spec fn part_record(packet: PacketView, offset: int, end: int, number: int) -> Plain
    recommends
        packet.content is Handshake,
{
    let header = RecordLayerHeader {
        sequence_number: number as u64,
        content_len: ((12 + (end - offset)) % 65536) as u16,
        ..packet.header
    };
    let part = HandshakeHeader {
        fragment_offset: (offset % 0x1_0000_0000) as u32,
        fragment_length: ((end - offset) % 0x1_0000_0000) as u32,
        ..packet.content->Handshake_0
    };
    Plain {
        header,
        bytes: content::record_bytes(
            header,
            content::part_bytes(part, packet.content->Handshake_1.subrange(offset, end)),
        ),
        encrypt: packet.should_encrypt,
    }
}

/// Where part `i` of a message ends.
pub open spec fn part_end(len: int, mtu: int, i: int) -> int {
    if i * mtu + mtu < len {
        i * mtu + mtu
    } else {
        len
    }
}

/// The records of a packet, numbered from `number` on. A handshake message is split.
pub open spec fn records_of(packet: PacketView, mtu: int, number: int) -> Seq<Plain> {
    match packet.content {
        ContentView::Handshake(_, body) => Seq::new(
            parts(body.len() as int, mtu) as nat,
            |i: int|
                part_record(packet, i * mtu, part_end(body.len() as int, mtu, i), number + i),
        ),
        _ => {
            let header = RecordLayerHeader { sequence_number: number as u64, ..packet.header };
            seq![
                Plain {
                    header,
                    bytes: content::record_bytes(header, packet.content.bytes()),
                    encrypt: packet.should_encrypt,
                },
            ]
        },
    }
}

/// What sending packets comes to.
#[verifier::ext_equal]
pub struct Plan {
    /// The records.
    pub plains: Seq<Plain>,
    /// The numbers of the records after them.
    pub sequences: Seq<u64>,
    /// The handshake messages that are kept.
    pub cache: Cached,
}

/// What is kept of a packet that is sent: the handshake message.
pub open spec fn kept_sent(cache: Cached, packet: PacketView, is_client: bool) -> Cached {
    match packet.content {
        ContentView::Handshake(h, body) => handshake_cache::with_item(
            cache,
            CachedView {
                typ: h.handshake_type,
                is_client,
                epoch: packet.header.epoch,
                message_sequence: h.message_sequence,
                data: h.bytes() + body,
            },
        ),
        _ => cache,
    }
}

/// Whether a record may become these bytes, or fail so. Where it is encrypted, the other end opens
/// what it became.
pub open spec fn encoded<C: CipherSuite>(
    cipher: Option<C::Keys>,
    plain: Plain,
    raw: Result<Seq<u8>, Error>,
) -> bool {
    if plain.header.sequence_number > MAX_SEQUENCE_NUMBER {
        raw == Err::<Seq<u8>, Error>(Error::ErrSequenceNumberOverflow)
    } else if plain.encrypt && cipher is Some {
        &&& C::may_seal(cipher->Some_0, plain.header, plain.bytes, raw)
        &&& raw matches Ok(sealed) ==> opens_to::<C>(
            C::mirrored(cipher->Some_0),
            plain,
            sealed,
        )
    } else {
        raw == Ok::<Seq<u8>, Error>(plain.bytes)
    }
}

/// Whether `sealed` is a record of its own length with the header of `plain`, and whoever has these
/// keys reads in it what the record holds.
pub open spec fn opens_to<C: CipherSuite>(keys: C::Keys, plain: Plain, sealed: Seq<u8>) -> bool {
    &&& 13 < sealed.len() <= plain.bytes.len() + cipher_suite::MAX_CIPHER_SUITE_OVERHEAD
    &&& sealed.take(11) == plain.bytes.take(11)
    &&& record_cipher::framed(sealed)
    &&& record_cipher::headed_by(plain.bytes, plain.header) ==> C::opened(keys, sealed) == Ok::<
        Seq<u8>,
        Error,
    >(sealed.take(13) + plain.bytes.skip(13))
}

/// Whether these records may become these byte strings.
pub open spec fn all_encoded<C: CipherSuite>(
    cipher: Option<C::Keys>,
    plains: Seq<Plain>,
    raws: Seq<Seq<u8>>,
) -> bool {
    &&& raws.len() == plains.len()
    &&& forall|i: int|
        0 <= i < plains.len() ==> encoded::<C>(
            cipher,
            plains[i],
            Ok::<Seq<u8>, Error>(#[trigger] raws[i]),
        )
}

/// Records put together to datagrams: those that are full, and the one that is begun. A record
/// that would take a datagram to the limit begins the next.
pub open spec fn packed(mtu: int, raws: Seq<Seq<u8>>) -> (Seq<Seq<u8>>, Seq<u8>)
    decreases raws.len(),
{
    if raws.len() == 0 {
        (Seq::empty(), Seq::empty())
    } else {
        let (full, begun) = packed(mtu, raws.drop_last());
        if begun.len() > 0 && begun.len() + raws.last().len() >= mtu {
            (full.push(begun), raws.last())
        } else {
            (full, begun + raws.last())
        }
    }
}

/// Records put together to datagrams.
pub open spec fn datagrams_of(mtu: int, raws: Seq<Seq<u8>>) -> Seq<Seq<u8>> {
    let (full, begun) = packed(mtu, raws);
    if begun.len() > 0 {
        full.push(begun)
    } else {
        full
    }
}

impl<C: CipherSuite> ConnView<C> {
    /// A record that holds application data.
    pub open spec fn data_packet(self, data: Seq<u8>) -> PacketView {
        PacketView {
            header: content::unnumbered(
                record::dtls_1_2(),
                self.local_epoch,
                ContentView::ApplicationData(data),
            ),
            content: ContentView::ApplicationData(data),
            should_encrypt: true,
            reset_local_sequence_number: false,
        }
    }

    /// Application data is to be sent.
    pub open spec fn written(self, data: Seq<u8>) -> ConnView<C> {
        ConnView { outgoing: self.outgoing.push(self.data_packet(data)), ..self }
    }

    /// The first datagram was taken.
    pub open spec fn without_datagram(self) -> ConnView<C> {
        ConnView { datagrams: self.datagrams.skip(1), ..self }
    }

    /// What sending the first `k` packets comes to.
    pub open spec fn plan(self, k: nat) -> Plan
        decreases k,
    {
        if k == 0 {
            Plan { plains: Seq::empty(), sequences: self.sequences, cache: self.cache }
        } else {
            let before = self.plan((k - 1) as nat);
            let packet = self.outgoing[k - 1];
            let epoch = packet.header.epoch;
            let records = records_of(
                packet,
                self.config.maximum_transmission_unit as int,
                counted(before.sequences, epoch)[epoch as int] as int,
            );
            Plan {
                plains: before.plains + records,
                sequences: advanced(before.sequences, epoch, records.len() as int),
                cache: kept_sent(before.cache, packet, self.is_client),
            }
        }
    }

    /// The connection once all packets are sent as these byte strings.
    pub open spec fn sent(self, raws: Seq<Seq<u8>>) -> ConnView<C> {
        let plan = self.plan(self.outgoing.len());
        ConnView {
            outgoing: Seq::empty(),
            sequences: plan.sequences,
            cache: plan.cache,
            datagrams: self.datagrams + datagrams_of(
                self.config.maximum_transmission_unit as int,
                raws,
            ),
            ..self
        }
    }

    /// The connection once record `i` of packet `k` could not be sent: that packet and those before
    /// it are gone, and no datagram was made.
    pub open spec fn stopped(self, k: int, i: int) -> ConnView<C> {
        let before = self.plan(k as nat);
        let packet = self.outgoing[k];
        ConnView {
            outgoing: self.outgoing.skip(k + 1),
            sequences: advanced(before.sequences, packet.header.epoch, i + 1),
            cache: kept_sent(before.cache, packet, self.is_client),
            ..self
        }
    }

    /// Record `i` of packet `k`.
    pub open spec fn record(self, k: int, i: int) -> Plain {
        self.plan(k as nat + 1).plains[self.plan(k as nat).plains.len() + i]
    }

    /// Whether record `i` of packet `k` may fail with this error.
    pub open spec fn may_stop(self, k: int, i: int, error: Error) -> bool {
        &&& 0 <= k < self.outgoing.len()
        &&& 0 <= i < self.plan(k as nat + 1).plains.len() - self.plan(k as nat).plains.len()
        &&& encoded::<C>(self.cipher, self.record(k, i), Err::<Seq<u8>, Error>(error))
    }

    /// Whether encoding what is to be sent may leave this: all of it became datagrams, or, where
    /// something keeps a record from being sent, the packets up to one that could not be sent are
    /// gone.
    #[verifier::opaque]
    pub open spec fn may_flush(self, flushed: ConnView<C>) -> bool {
        ||| exists|raws: Seq<Seq<u8>>|
            all_encoded::<C>(self.cipher, self.plan(self.outgoing.len()).plains, raws)
                && flushed == #[trigger] self.sent(raws)
        ||| !self.all_clear() && exists|k: int, i: int, error: Error| #[trigger]
            self.may_stop(k, i, error) && flushed == self.stopped(k, i)
    }

    /// Whether asking for the next datagram may give this and leave that.
    pub open spec fn polled(self, after: ConnView<C>, datagram: Option<Seq<u8>>) -> bool {
        exists|flushed: ConnView<C>| #[trigger]
            self.may_flush(flushed) && match datagram {
                Some(datagram) => {
                    &&& flushed.datagrams.len() > 0
                    &&& datagram == flushed.datagrams[0]
                    &&& after == flushed.without_datagram()
                },
                None => flushed.datagrams.len() == 0 && after == flushed,
            }
    }

    /// Whether nothing keeps record `plain` from being sent.
    pub open spec fn clear_to_send(self, plain: Plain) -> bool {
        &&& plain.header.sequence_number <= MAX_SEQUENCE_NUMBER
        &&& plain.encrypt && self.cipher is Some ==> C::reliable(self.cipher->Some_0)
            && self.ready() && plain.bytes.len() - 13 <= AEAD_MAX_LEN
    }

    /// Whether nothing keeps what is to be sent from being sent.
    pub open spec fn all_clear(self) -> bool {
        let plains = self.plan(self.outgoing.len()).plains;
        forall|j: int| 0 <= j < plains.len() ==> self.clear_to_send(#[trigger] plains[j])
    }
}

/// Detectors with new ones for the epochs up to `epoch` that have none.
pub open spec fn padded(
    detectors: Seq<ReplayView>,
    epoch: nat,
    config: HandshakeConfig,
) -> Seq<ReplayView> {
    if detectors.len() > epoch {
        detectors
    } else {
        detectors + Seq::new(
            (epoch + 1 - detectors.len()) as nat,
            |i: int|
                ReplayView::unused(config.replay_protection_window as nat, MAX_SEQUENCE_NUMBER),
        )
    }
}

proof fn lemma_opened<C: CipherSuite>(
    conn: ConnView<C>,
    h: RecordLayerHeader,
    plain: Seq<u8>,
    enqueue: bool,
)
    requires
        conn.remote_epoch < u16::MAX,
    ensures
        ({
            let (after, reply) = conn.opened(h, plain, enqueue);
            &&& conn.remote_epoch <= after.remote_epoch <= conn.remote_epoch + 1
            &&& after.remote_epoch + after.pending.len() <= conn.remote_epoch + conn.pending.len()
                + 1
            &&& reply.is_handshake ==> reply.alert is None && reply.error is None
        }),
{
    let (fragments, pushed) = conn.fragments.push(plain);
    match pushed {
        Ok(true) => {
            let (fragments, cache) = drained(fragments, conn.cache, conn.is_client);
        },
        _ => {},
    }
}

/// A record raises the epoch by one at most, and one that does is not held.
proof fn lemma_received<C: CipherSuite>(conn: ConnView<C>, pkt: Seq<u8>, enqueue: bool)
    requires
        conn.remote_epoch < u16::MAX,
    ensures
        ({
            let (after, reply) = conn.received(pkt, enqueue);
            &&& conn.remote_epoch <= after.remote_epoch <= conn.remote_epoch + 1
            &&& after.remote_epoch + after.pending.len() <= conn.remote_epoch + conn.pending.len()
                + 1
            &&& reply.is_handshake ==> reply.alert is None && reply.error is None
        }),
{
    let h = RecordLayerHeader::read(pkt);
    let watched = conn.watched(h.epoch);
    lemma_opened(watched, h, pkt, enqueue);
    if watched.cipher is Some {
        match C::opened(watched.cipher->Some_0, pkt) {
            Ok(plain) => {
                lemma_opened(watched, h, plain, enqueue);
            },
            Err(_) => {},
        }
    }
}

/// Records raise the epoch, with what is held, by no more than there are of them.
pub proof fn lemma_read_all<C: CipherSuite>(conn: ConnView<C>, records: Seq<Seq<u8>>, enqueue: bool)
    requires
        conn.remote_epoch + conn.pending.len() + records.len() < u16::MAX,
    ensures
        ({
            let (after, result) = conn.read_all(records, enqueue);
            after.remote_epoch + after.pending.len() <= conn.remote_epoch + conn.pending.len()
                + records.len()
        }),
    decreases records.len(),
{
    if records.len() > 0 {
        lemma_received(conn, records[0], enqueue);
        let (after, reply) = conn.received(records[0], enqueue);
        let (answered, error) = after.answered(reply);
        if error is None {
            lemma_read_all(answered, records.drop_first(), enqueue);
        }
    }
}

/// How much there is to encode.
pub open spec fn load<C: CipherSuite>(conn: ConnView<C>) -> nat {
    conn.outgoing.len()
}

/// Each datagram that is taken leaves less to encode, or fewer datagrams.
pub proof fn lemma_polled_progress<C: CipherSuite>(
    before: ConnView<C>,
    after: ConnView<C>,
    datagram: Seq<u8>,
)
    requires
        before.polled(after, Some(datagram)),
    ensures
        load(after) < load(before) || (load(after) == load(before) && after.datagrams.len()
            < before.datagrams.len()),
{
    let flushed = choose|flushed: ConnView<C>| #[trigger]
        before.may_flush(flushed) && flushed.datagrams.len() > 0 && datagram
            == flushed.datagrams[0] && after == flushed.without_datagram();
    reveal(ConnView::may_flush);
    if exists|raws: Seq<Seq<u8>>|
        all_encoded::<C>(before.cipher, before.plan(before.outgoing.len()).plains, raws) && flushed
            == #[trigger] before.sent(raws) {
        let raws = choose|raws: Seq<Seq<u8>>|
            all_encoded::<C>(before.cipher, before.plan(before.outgoing.len()).plains, raws)
                && flushed == #[trigger] before.sent(raws);
        if before.outgoing.len() == 0 {
            assert(raws.len() == 0);
        }
    }
}

proof fn lemma_all_enqueued<C: CipherSuite>(conn: ConnView<C>, records: Seq<Seq<u8>>)
    ensures
        conn.all_enqueued(records).remote_epoch == conn.remote_epoch,
    decreases records.len(),
{
    if records.len() > 0 {
        lemma_all_enqueued(conn.enqueued(records[0]), records.drop_first());
    }
}

/// Taking in what was held raises the epoch by no more than the records that it takes out.
proof fn lemma_retried<C: CipherSuite>(conn: ConnView<C>, records: Seq<Seq<u8>>, enqueue: bool)
    requires
        conn.remote_epoch + conn.pending.len() + records.len() < u16::MAX,
    ensures
        ({
            let (after, result) = conn.retried(records, enqueue);
            &&& conn.remote_epoch <= after.remote_epoch
            &&& result is Ok ==> after.remote_epoch + after.pending.len() <= conn.remote_epoch
                + conn.pending.len() + records.len()
        }),
    decreases records.len(),
{
    if records.len() > 0 {
        lemma_received(conn, records[0], enqueue);
        let (after, reply) = conn.received(records[0], enqueue);
        let (answered, error) = after.answered(reply);
        if error is None {
            lemma_retried(answered, records.drop_first(), enqueue);
        } else {
            lemma_all_enqueued(answered, records.drop_first());
        }
    }
}

/// How many parts there are: as many as begin before the end, and at least one.
proof fn lemma_parts(len: int, mtu: int, i: int)
    requires
        0 <= len,
        0 < mtu,
        0 <= i,
    ensures
        len > 0 ==> (i < parts(len, mtu) <==> i * mtu < len),
        parts(len, mtu) >= 1,
{
    if len > 0 {
        let q = (len + mtu - 1) / mtu;
        let r = (len + mtu - 1) % mtu;
        vstd::arithmetic::div_mod::lemma_fundamental_div_mod(len + mtu - 1, mtu);
        assert(0 <= r < mtu);
        assert(i < q <==> i * mtu < len) by (nonlinear_arith)
            requires
                len + mtu - 1 == mtu * q + r,
                0 <= r < mtu,
                0 < mtu,
                0 <= i,
        ;
        assert(q >= 1) by (nonlinear_arith)
            requires
                len + mtu - 1 == mtu * q + r,
                0 <= r < mtu,
                0 < mtu,
                0 < len,
        ;
    }
}

/// What the first packets come to is the beginning of what more of them come to.
proof fn lemma_plan_grows<C: CipherSuite>(conn: ConnView<C>, k: nat, n: nat)
    requires
        k <= n,
    ensures
        conn.plan(k).plains.len() <= conn.plan(n).plains.len(),
        forall|j: int|
            0 <= j < conn.plan(k).plains.len() ==> conn.plan(k).plains[j] == (
            #[trigger] conn.plan(n).plains[j]),
    decreases n - k,
{
    if k < n {
        lemma_plan_grows(conn, k, (n - 1) as nat);
    }
}

/// Numbers advanced by one more.
proof fn lemma_advanced_more(sequences: Seq<u64>, epoch: u16, i: int)
    requires
        0 <= i,
        counted(sequences, epoch)[epoch as int] + i <= u64::MAX,
    ensures
        ({
            let now = if i == 0 {
                sequences
            } else {
                advanced(sequences, epoch, i)
            };
            &&& counted(now, epoch)[epoch as int] == counted(sequences, epoch)[epoch as int] + i
            &&& advanced(now, epoch, 1) == advanced(sequences, epoch, i + 1)
        }),
{
    let now = if i == 0 {
        sequences
    } else {
        advanced(sequences, epoch, i)
    };
    assert(advanced(now, epoch, 1) =~= advanced(sequences, epoch, i + 1));
}

/// There is room for what a cipher adds to each record of a packet.
proof fn lemma_records_fit(packet: PacketView, mtu: int, number: int)
    requires
        packet_fits(packet),
        mtu > 0,
    ensures
        forall|i: int|
            0 <= i < records_of(packet, mtu, number).len() ==> cipher_suite::fits(
                (#[trigger] records_of(packet, mtu, number)[i]).bytes.len() as int,
            ),
{
    let records = records_of(packet, mtu, number);
    assert forall|i: int| 0 <= i < records.len() implies cipher_suite::fits(
        (#[trigger] records[i]).bytes.len() as int,
    ) by {
        match packet.content {
            ContentView::Handshake(h, body) => {
                let len = body.len() as int;
                let offset = i * mtu;
                let end = part_end(len, mtu, i);
                lemma_parts(len, mtu, i);
                assert(0 <= offset) by (nonlinear_arith)
                    requires
                        0 <= i,
                        0 < mtu,
                        offset == i * mtu,
                ;
                if len == 0 {
                    assert(i == 0);
                    assert(offset == 0) by (nonlinear_arith)
                        requires
                            i == 0,
                            offset == i * mtu,
                    ;
                }
                assert(0 <= offset <= end <= len);
                let plain = part_record(packet, offset, end, number + i);
                let part = HandshakeHeader {
                    fragment_offset: (offset % 0x1_0000_0000) as u32,
                    fragment_length: ((end - offset) % 0x1_0000_0000) as u32,
                    ..h
                };
                content::lemma_record_lengths(
                    plain.header,
                    content::part_bytes(part, body.subrange(offset, end)),
                    part,
                    body.subrange(offset, end),
                );
                content::lemma_record_lengths(plain.header, Seq::empty(), h, body);
            },
            _ => {
                content::lemma_record_lengths(
                    records[i].header,
                    packet.content.bytes(),
                    HandshakeHeader {
                        handshake_type: HandshakeType::Invalid,
                        length: 0,
                        message_sequence: 0,
                        fragment_offset: 0,
                        fragment_length: 0,
                    },
                    Seq::empty(),
                );
            },
        }
    }
}

/// The views of packets once the first is gone.
proof fn lemma_first_gone(packets: Seq<Packet>, all: Seq<PacketView>, n: int)
    requires
        0 <= n < all.len(),
        packet_views(packets) == all.skip(n),
    ensures
        packets.len() == all.len() - n,
        packets[0]@ == all[n],
        packet_views(packets.subrange(1, packets.len() as int)) == all.skip(n + 1),
{
    let views = packet_views(packets);
    assert(views.len() == packets.len());
    assert(views[0] == all.skip(n)[0]);
    let rest = packet_views(packets.subrange(1, packets.len() as int));
    assert forall|i: int| 0 <= i < rest.len() implies rest[i] == all.skip(n + 1)[i] by {
        assert(views[i + 1] == all.skip(n)[i + 1]);
    }
    assert(rest =~= all.skip(n + 1));
}

proof fn lemma_total_push(all: Seq<Seq<u8>>, one: Seq<u8>)
    ensures
        total(all.push(one)) == total(all) + one.len(),
{
    assert(all.push(one).drop_last() =~= all);
}

/// One DTLS association.
pub struct DTLSConn<C: CipherSuite> {
    is_client: bool,
    config: HandshakeConfig,
    replay_detector: Vec<SlidingWindowDetector>,
    incoming_decrypted_packets: VecDeque<Vec<u8>>,
    /// Records waiting for the next epoch's keys, bounded by [`MAX_PENDING_RECORDS`] and
    /// [`MAX_PENDING_RECORD_BYTES`].
    incoming_encrypted_packets: VecDeque<Vec<u8>>,
    incoming_encrypted_bytes: usize,
    fragment_buffer: FragmentBuffer,
    cache: HandshakeCache,
    outgoing_packets: VecDeque<Packet>,
    outgoing_compacted_raw_packets: VecDeque<Vec<u8>>,
    state: State<C>,
    handshake_completed: bool,
    closed: bool,
    current_handshake_state: HandshakeState,
    current_flight: Flight,
    current_retransmit_timer: Option<Instant>,
    handshake_rx: bool,
}

/// Records that wait to be sent.
pub open spec fn packet_views(packets: Seq<Packet>) -> Seq<PacketView> {
    Seq::new(packets.len(), |i: int| packets[i]@)
}

/// What detectors remember.
pub open spec fn detector_views(detectors: Seq<SlidingWindowDetector>) -> Seq<ReplayView> {
    Seq::new(detectors.len(), |i: int| detectors[i]@)
}

/// What a cipher is known by, where there is one.
pub open spec fn suite_keys<C: CipherSuite>(suite: Option<C>) -> Option<C::Keys> {
    match suite {
        Some(suite) => Some(suite.keys()),
        None => None,
    }
}

/// A part of a handshake message as a record with a number.
fn build_part(p: &Packet, h: &Handshake, offset: usize, end: usize, seq: u64) -> (built: (
    RecordLayerHeader,
    Vec<u8>,
))
    requires
        p@.content == ContentView::Handshake(h.handshake_header, h.body@),
        offset <= end <= h.body@.len(),
        seq <= MAX_SEQUENCE_NUMBER,
    ensures
        ({
            let plain = part_record(p@, offset as int, end as int, seq as int);
            &&& built.0 == plain.header
            &&& built.1@ == plain.bytes
            &&& built.1@.len() >= 13
        }),
{
    let size: usize = end - offset;
    let header = RecordLayerHeader {
        sequence_number: seq,
        content_len: ((size % 65536 + 12) % 65536) as u16,
        ..p.record.record_layer_header
    };
    let part = HandshakeHeader {
        fragment_offset: (offset as u64 % 0x1_0000_0000) as u32,
        fragment_length: (size as u64 % 0x1_0000_0000) as u32,
        ..h.handshake_header
    };
    let ghost plain = part_record(p@, offset as int, end as int, seq as int);
    assert(header == plain.header) by {
        assert((12 + size as int) % 65536 == (size as int % 65536 + 12) % 65536);
    }
    let raw_packet: Vec<u8> = marshal_part(&header, &part, &h.body.as_slice()[offset..end]);
    (header, raw_packet)
}

impl<C: CipherSuite> View for DTLSConn<C> {
    type V = ConnView<C>;

    closed spec fn view(&self) -> ConnView<C> {
        ConnView {
            is_client: self.is_client,
            config: self.config,
            local_epoch: self.state.local_epoch,
            remote_epoch: self.state.remote_epoch,
            sequences: self.state.local_sequence_number@,
            cipher: suite_keys(self.state.cipher_suite),
            detectors: detector_views(self.replay_detector@),
            decrypted: content::byte_views(self.incoming_decrypted_packets@),
            pending: content::byte_views(self.incoming_encrypted_packets@),
            fragments: self.fragment_buffer@,
            cache: self.cache@,
            outgoing: packet_views(self.outgoing_packets@),
            datagrams: content::byte_views(self.outgoing_compacted_raw_packets@),
            completed: self.handshake_completed,
            closed: self.closed,
            handshake_rx: self.handshake_rx,
            handshake_state: self.current_handshake_state,
            flight: self.current_flight,
            timer: self.current_retransmit_timer,
        }
    }
}

impl<C: CipherSuite> DTLSConn<C> {
    /// The parts of the connection fit together.
    pub closed spec fn wf(&self) -> bool {
        &&& self@.valid()
        &&& self.fragment_buffer.wf()
        &&& self.incoming_encrypted_bytes == total(self@.pending)
        &&& self.state.cipher_suite matches Some(suite) ==> suite.valid()
    }

    /// A connection in the given role, ready to handshake, or with what two ends have agreed on
    /// before.
    pub fn new(config: HandshakeConfig, is_client: bool, initial_state: Option<State<C>>) -> (conn:
        DTLSConn<C>)
        requires
            config.maximum_transmission_unit > 0,
            usable(initial_state),
        ensures
            conn.wf(),
            conn@ == (ConnView::<C> {
                is_client,
                config,
                local_epoch: match initial_state {
                    Some(state) => state.local_epoch,
                    None => 0,
                },
                remote_epoch: match initial_state {
                    Some(state) => state.remote_epoch,
                    None => 0,
                },
                sequences: match initial_state {
                    Some(state) => state.local_sequence_number@,
                    None => Seq::empty(),
                },
                cipher: match initial_state {
                    Some(state) => suite_keys(state.cipher_suite),
                    None => None,
                },
                detectors: Seq::empty(),
                decrypted: Seq::empty(),
                pending: Seq::empty(),
                fragments: BufferView { current: 0, messages: Map::empty() },
                cache: Seq::empty(),
                outgoing: Seq::empty(),
                datagrams: Seq::empty(),
                completed: false,
                closed: false,
                handshake_rx: false,
                handshake_state: if initial_state is Some {
                    HandshakeState::Finished
                } else {
                    HandshakeState::Preparing
                },
                flight: match (initial_state is Some, is_client) {
                    (true, true) => Flight::Flight5,
                    (true, false) => Flight::Flight6,
                    (false, true) => Flight::Flight1,
                    (false, false) => Flight::Flight0,
                },
                timer: None,
            }),
    {
        let (state, current_flight, current_handshake_state) = match initial_state {
            Some(state) => {
                let flight = if is_client {
                    Flight::Flight5
                } else {
                    Flight::Flight6
                };
                (state, flight, HandshakeState::Finished)
            },
            None => {
                let flight = if is_client {
                    Flight::Flight1
                } else {
                    Flight::Flight0
                };
                (State::new(), flight, HandshakeState::Preparing)
            },
        };
        let conn = DTLSConn {
            is_client,
            config,
            replay_detector: Vec::new(),
            incoming_decrypted_packets: VecDeque::new(),
            incoming_encrypted_packets: VecDeque::new(),
            incoming_encrypted_bytes: 0,
            fragment_buffer: FragmentBuffer::new(),
            cache: HandshakeCache::new(),
            outgoing_packets: VecDeque::new(),
            outgoing_compacted_raw_packets: VecDeque::new(),
            state,
            handshake_completed: false,
            closed: false,
            current_handshake_state,
            current_flight,
            current_retransmit_timer: None,
            handshake_rx: false,
        };
        proof {
            let view = conn@;
            assert(view.detectors =~= Seq::empty());
            assert(view.decrypted =~= Seq::empty());
            assert(view.pending =~= Seq::empty());
            assert(view.outgoing =~= Seq::empty());
            assert(view.datagrams =~= Seq::empty());
        }
        conn
    }

    /// Holds a record that cannot be processed until there are keys. Once either limit is reached,
    /// further records are dropped and the held ones kept.
    pub fn enqueue_encrypted_packet(&mut self, pkt: Vec<u8>)
        requires
            old(self).wf(),
        ensures
            final(self).wf(),
            final(self)@ == old(self)@.enqueued(pkt@),
            final(self)@.pending.len() <= MAX_PENDING_RECORDS,
            total(final(self)@.pending) <= MAX_PENDING_RECORD_BYTES,
            final(self)@.detectors == old(self)@.detectors,
    {
        proof {
            law_held_records_are_bounded(self@, pkt@);
        }
        if self.incoming_encrypted_packets.len() >= MAX_PENDING_RECORDS {
            return;
        }
        if pkt.len() > MAX_PENDING_RECORD_BYTES - self.incoming_encrypted_bytes {
            return;
        }
        let ghost before = self@.pending;
        let ghost bytes = pkt@;
        self.incoming_encrypted_bytes = self.incoming_encrypted_bytes + pkt.len();
        self.incoming_encrypted_packets.push_back(pkt);
        proof {
            lemma_total_push(before, bytes);
            lemma_total_not_negative(before);
            assert(self@.pending =~= before.push(bytes));
            assert(self@ =~= old(self)@.enqueued(bytes));
        }
    }

    /// Makes a detector for every epoch up to this one.
    fn watch(&mut self, epoch: u16)
        requires
            old(self).wf(),
        ensures
            final(self).wf(),
            final(self)@ == old(self)@.watched(epoch),
            final(self)@.detectors.len() > epoch,
            final(self).replay_detector@.len() == final(self)@.detectors.len(),
    {
        let ghost before = self@;
        assert(self@ =~= before.watched(epoch) || self@.detectors.len() <= epoch);
        while self.replay_detector.len() <= epoch as usize
            invariant
                self.wf(),
                before.detectors.len() <= self@.detectors.len(),
                self@.detectors.len() <= epoch + 1 || self@ == before,
                self@ == (ConnView { detectors: self@.detectors, ..before }),
                padded(self@.detectors, epoch as nat, before.config) == padded(
                    before.detectors,
                    epoch as nat,
                    before.config,
                ),
                self.replay_detector@.len() == self@.detectors.len(),
            decreases epoch + 1 - self.replay_detector@.len(),
        {
            let ghost old_detectors = self@.detectors;
            let detector = SlidingWindowDetector::new(
                self.config.replay_protection_window,
                MAX_SEQUENCE_NUMBER,
            );
            self.replay_detector.push(detector);
            proof {
                assert(self@.detectors =~= old_detectors.push(detector@));
                assert(self@ =~= (ConnView { detectors: self@.detectors, ..before }));
                assert(padded(self@.detectors, epoch as nat, before.config) =~= padded(
                    old_detectors,
                    epoch as nat,
                    before.config,
                ));
            }
        }
    }

    /// Remembers the number of a record.
    fn accept(&mut self, h: &RecordLayerHeader)
        requires
            old(self).wf(),
            h.epoch < old(self)@.detectors.len(),
        ensures
            final(self).wf(),
            final(self)@ == old(self)@.accepted(*h),
    {
        let ghost before = self@;
        let epoch: usize = h.epoch as usize;
        assert(self.replay_detector@.len() == before.detectors.len());
        self.replay_detector[epoch].accept(h.sequence_number);
        proof {
            let after = before.accepted(*h);
            replay_detector::law_accepted_is_not_fresh(
                before.detectors[h.epoch as int],
                h.sequence_number,
            );
            assert(self@.detectors =~= after.detectors);
            assert(self@ =~= after);
        }
    }

    /// The number of the next record of an epoch.
    fn next_sequence_number(&mut self, epoch: u16) -> (number: u64)
        requires
            old(self).wf(),
        ensures
            final(self).wf(),
            number == counted(old(self)@.sequences, epoch)[epoch as int],
            final(self)@ == (ConnView {
                sequences: advanced(old(self)@.sequences, epoch, 1),
                ..old(self)@
            }),
    {
        let ghost before = self@;
        while self.state.local_sequence_number.len() <= epoch as usize
            invariant
                self.wf(),
                self@ == (ConnView { sequences: self@.sequences, ..before }),
                counted(self@.sequences, epoch) == counted(before.sequences, epoch),
                self@.sequences.len() <= epoch + 1 || self@.sequences == before.sequences,
            decreases epoch + 1 - self@.sequences.len(),
        {
            let ghost now = self@;
            self.state.local_sequence_number.push(0);
            proof {
                assert(self@ =~= (ConnView { sequences: self@.sequences, ..before }));
                assert(counted(self@.sequences, epoch) =~= counted(now.sequences, epoch));
                assert(self@.pending == now.pending);
                assert(self@.detectors == now.detectors);
                assert(self@.valid());
            }
        }
        let number: u64 = self.state.local_sequence_number[epoch as usize];
        self.state.local_sequence_number.set(epoch as usize, number.saturating_add(1));
        proof {
            assert(self@.sequences =~= advanced(before.sequences, epoch, 1));
            assert(self@ =~= (ConnView {
                sequences: advanced(before.sequences, epoch, 1),
                ..before
            }));
        }
        number
    }

    /// Encrypts a record, if it is to be encrypted and there is a cipher.
    fn encode(&mut self, header: &RecordLayerHeader, raw: Vec<u8>, should_encrypt: bool) -> (result:
        Result<Vec<u8>, Error>)
        requires
            old(self).wf(),
            raw@.len() >= 13,
            cipher_suite::fits(raw@.len() as int),
            header.sequence_number <= MAX_SEQUENCE_NUMBER,
        ensures
            final(self).wf(),
            final(self)@ == old(self)@,
            ({
                let plain = Plain { header: *header, bytes: raw@, encrypt: should_encrypt };
                &&& match result {
                    Ok(encrypted) => encoded::<C>(
                        old(self)@.cipher,
                        plain,
                        Ok::<Seq<u8>, Error>(encrypted@),
                    ),
                    Err(error) => encoded::<C>(
                        old(self)@.cipher,
                        plain,
                        Err::<Seq<u8>, Error>(error),
                    ),
                }
                &&& old(self)@.clear_to_send(plain) ==> result is Ok
            }),
    {
        let ghost before = self@;
        let mut raw: Vec<u8> = raw;
        if should_encrypt {
            match &mut self.state.cipher_suite {
                Some(suite) => {
                    match suite.encrypt_in_place(header, &mut raw) {
                        Ok(()) => {},
                        Err(error) => {
                            proof {
                                assert(self@ =~= before);
                                assert(self.wf());
                            }
                            return Err(error);
                        },
                    }
                },
                None => {},
            }
        }
        proof {
            assert(self@ =~= before);
            assert(self.wf());
        }
        Ok(raw)
    }

    /// Numbers, and if need be encrypts, a record that is not part of a handshake.
    fn process_packet(&mut self, p: &Packet) -> (result: Result<Vec<u8>, Error>)
        requires
            old(self).wf(),
            !(p@.content is Handshake),
            cipher_suite::fits(13 + p@.content.bytes().len() as int),
        ensures
            final(self).wf(),
            final(self)@ == (ConnView {
                sequences: advanced(old(self)@.sequences, p@.header.epoch, 1),
                ..old(self)@
            }),
            ({
                let epoch = p@.header.epoch;
                let plain = records_of(
                    p@,
                    old(self)@.config.maximum_transmission_unit as int,
                    counted(old(self)@.sequences, epoch)[epoch as int] as int,
                )[0];
                &&& match result {
                    Ok(raw) => encoded::<C>(
                        old(self)@.cipher,
                        plain,
                        Ok::<Seq<u8>, Error>(raw@),
                    ),
                    Err(error) => encoded::<C>(
                        old(self)@.cipher,
                        plain,
                        Err::<Seq<u8>, Error>(error),
                    ),
                }
                &&& old(self)@.clear_to_send(plain) ==> result is Ok
            }),
    {
        let seq: u64 = self.next_sequence_number(p.record.record_layer_header.epoch);
        if seq > MAX_SEQUENCE_NUMBER {
            // The association has to end before the number wraps.
            return Err(Error::ErrSequenceNumberOverflow);
        }
        let header = RecordLayerHeader { sequence_number: seq, ..p.record.record_layer_header };
        let raw_packet: Vec<u8> = marshal_record(&header, &p.record.content);
        self.encode(&header, raw_packet, p.should_encrypt)
    }

    /// Numbers, and if need be encrypts, a part of a handshake message.
    fn send_part(&mut self, p: &Packet, h: &Handshake, offset: usize, end: usize) -> (result: Result<
        Vec<u8>,
        Error,
    >)
        requires
            old(self).wf(),
            p@.content == ContentView::Handshake(h.handshake_header, h.body@),
            offset <= end <= h.body@.len(),
            cipher_suite::fits(
                part_record(
                    p@,
                    offset as int,
                    end as int,
                    counted(old(self)@.sequences, p@.header.epoch)[p@.header.epoch as int] as int,
                ).bytes.len() as int,
            ),
        ensures
            final(self).wf(),
            final(self)@ == (ConnView {
                sequences: advanced(old(self)@.sequences, p@.header.epoch, 1),
                ..old(self)@
            }),
            ({
                let epoch = p@.header.epoch;
                let plain = part_record(
                    p@,
                    offset as int,
                    end as int,
                    counted(old(self)@.sequences, epoch)[epoch as int] as int,
                );
                &&& match result {
                    Ok(raw) => encoded::<C>(
                        old(self)@.cipher,
                        plain,
                        Ok::<Seq<u8>, Error>(raw@),
                    ),
                    Err(error) => encoded::<C>(
                        old(self)@.cipher,
                        plain,
                        Err::<Seq<u8>, Error>(error),
                    ),
                }
                &&& old(self)@.clear_to_send(plain) ==> result is Ok
            }),
    {
        let seq: u64 = self.next_sequence_number(p.record.record_layer_header.epoch);
        if seq > MAX_SEQUENCE_NUMBER {
            // The association has to end before the number wraps.
            return Err(Error::ErrSequenceNumberOverflow);
        }
        let (header, raw_packet) = build_part(p, h, offset, end, seq);
        self.encode(&header, raw_packet, p.should_encrypt)
    }

    /// Splits a handshake message into fragments of at most `maximum_transmission_unit` bytes,
    /// each a record of its own. A message with an empty body still goes out as one empty fragment.
    fn fragment_handshake(&mut self, p: &Packet, h: &Handshake) -> (result: Result<
        Vec<Vec<u8>>,
        Error,
    >)
        requires
            old(self).wf(),
            p@.content == ContentView::Handshake(h.handshake_header, h.body@),
            packet_fits(p@),
        ensures
            final(self).wf(),
            ({
                let epoch = p@.header.epoch;
                let records = records_of(
                    p@,
                    old(self)@.config.maximum_transmission_unit as int,
                    counted(old(self)@.sequences, epoch)[epoch as int] as int,
                );
                &&& match result {
                    Ok(raws) => {
                        &&& all_encoded::<C>(
                            old(self)@.cipher,
                            records,
                            content::byte_views(raws@),
                        )
                        &&& final(self)@ == (ConnView {
                            sequences: advanced(
                                old(self)@.sequences,
                                epoch,
                                records.len() as int,
                            ),
                            ..old(self)@
                        })
                    },
                    Err(error) => exists|i: int|
                        0 <= i < records.len() && encoded::<C>(
                            old(self)@.cipher,
                            #[trigger] records[i],
                            Err::<Seq<u8>, Error>(error),
                        ) && final(self)@ == (ConnView {
                            sequences: advanced(old(self)@.sequences, epoch, i + 1),
                            ..old(self)@
                        }),
                }
                &&& (forall|i: int|
                    0 <= i < records.len() ==> old(self)@.clear_to_send(#[trigger] records[i]))
                    ==> result is Ok
            }),
    {
        let ghost before = self@;
        let epoch: u16 = p.record.record_layer_header.epoch;
        let mtu: usize = self.config.maximum_transmission_unit;
        let len: usize = h.body.len();
        let ghost number = counted(before.sequences, epoch)[epoch as int] as int;
        let ghost records = records_of(p@, mtu as int, number);
        let ghost mut i: int = 0;
        let mut raws: Vec<Vec<u8>> = Vec::new();
        let mut offset: usize = 0;
        proof {
            lemma_parts(len as int, mtu as int, 0);
            lemma_records_fit(p@, mtu as int, number);
        }
        loop
            invariant_except_break
                0 <= i < records.len(),
                offset == i * mtu,
                offset < len || (len == 0 && i == 0),
            invariant
                self.wf(),
                before == old(self)@,
                epoch == p@.header.epoch,
                mtu == before.config.maximum_transmission_unit,
                mtu > 0,
                len == h.body@.len(),
                p@.content == ContentView::Handshake(h.handshake_header, h.body@),
                number == counted(before.sequences, epoch)[epoch as int],
                records == records_of(p@, mtu as int, number),
                i > 0 ==> number + i <= MAX_SEQUENCE_NUMBER + 1,
                forall|j: int|
                    0 <= j < records.len() ==> cipher_suite::fits(
                        (#[trigger] records[j]).bytes.len() as int,
                    ),
                raws@.len() == i,
                forall|j: int|
                    0 <= j < i ==> encoded::<C>(
                        before.cipher,
                        records[j],
                        Ok::<Seq<u8>, Error>((#[trigger] raws@[j])@),
                    ),
                self@ == (ConnView {
                    sequences: if i == 0 {
                        before.sequences
                    } else {
                        advanced(before.sequences, epoch, i)
                    },
                    ..before
                }),
            ensures
                i == records.len(),
            decreases len - offset,
        {
            let end: usize = if len - offset > mtu {
                offset + mtu
            } else {
                len
            };
            proof {
                lemma_advanced_more(before.sequences, epoch, i);
                assert(end == part_end(len as int, mtu as int, i));
                assert(records[i] == part_record(p@, offset as int, end as int, number + i));
            }
            let ghost now = self@;
            match self.send_part(p, h, offset, end) {
                Ok(raw) => {
                    raws.push(raw);
                },
                Err(error) => {
                    proof {
                        assert(encoded::<C>(before.cipher, records[i], Err::<Seq<u8>, Error>(error)));
                        assert(!now.clear_to_send(records[i]));
                        assert(!before.clear_to_send(records[i]));
                    }
                    return Err(error);
                },
            }
            assert(self@ =~= (ConnView {
                sequences: advanced(before.sequences, epoch, i + 1),
                ..before
            }));
            proof {
                lemma_parts(len as int, mtu as int, i + 1);
                assert((i + 1) * mtu == i * mtu + mtu) by (nonlinear_arith);
                i = i + 1;
            }
            offset = end;
            if offset >= len {
                break;
            }
        }
        assert(all_encoded::<C>(before.cipher, records, content::byte_views(raws@)));
        Ok(raws)
    }

    /// Encodes a packet, and keeps it if it is a handshake message.
    fn send_packet(&mut self, p: &Packet, raws: &mut Vec<Vec<u8>>) -> (result: Result<(), Error>)
        requires
            old(self).wf(),
            packet_fits(p@),
        ensures
            final(self).wf(),
            ({
                let epoch = p@.header.epoch;
                let before = content::byte_views(old(raws)@);
                let after = content::byte_views(final(raws)@);
                let records = records_of(
                    p@,
                    old(self)@.config.maximum_transmission_unit as int,
                    counted(old(self)@.sequences, epoch)[epoch as int] as int,
                );
                &&& match result {
                    Ok(()) => {
                        &&& after.len() >= before.len()
                        &&& after.take(before.len() as int) == before
                        &&& all_encoded::<C>(
                            old(self)@.cipher,
                            records,
                            after.skip(before.len() as int),
                        )
                        &&& final(self)@ == (ConnView {
                            sequences: advanced(
                                old(self)@.sequences,
                                epoch,
                                records.len() as int,
                            ),
                            cache: kept_sent(old(self)@.cache, p@, old(self)@.is_client),
                            ..old(self)@
                        })
                    },
                    Err(error) => exists|i: int|
                        0 <= i < records.len() && encoded::<C>(
                            old(self)@.cipher,
                            #[trigger] records[i],
                            Err::<Seq<u8>, Error>(error),
                        ) && final(self)@ == (ConnView {
                            sequences: advanced(old(self)@.sequences, epoch, i + 1),
                            cache: kept_sent(old(self)@.cache, p@, old(self)@.is_client),
                            ..old(self)@
                        }),
                }
                &&& (forall|i: int|
                    0 <= i < records.len() ==> old(self)@.clear_to_send(#[trigger] records[i]))
                    ==> result is Ok
            }),
    {
        let ghost before = self@;
        let ghost first = content::byte_views(raws@);
        let ghost epoch = p@.header.epoch;
        let ghost records = records_of(
            p@,
            before.config.maximum_transmission_unit as int,
            counted(before.sequences, epoch)[epoch as int] as int,
        );
        match &p.record.content {
            Content::Handshake(h) => {
                let result: Result<Vec<Vec<u8>>, Error> = self.fragment_handshake(p, h);
                let ghost sent = self@;
                let mut handshake_raw: Vec<u8> = Vec::new();
                h.handshake_header.marshal(&mut handshake_raw);
                append(&mut handshake_raw, h.body.as_slice());
                assert(handshake_raw@ =~= h.handshake_header.bytes() + h.body@);
                self.cache.push(
                    handshake_raw,
                    p.record.record_layer_header.epoch,
                    h.handshake_header.message_sequence,
                    h.handshake_header.handshake_type,
                    self.is_client,
                );
                proof {
                    assert(self@ =~= (ConnView {
                        cache: kept_sent(before.cache, p@, before.is_client),
                        ..sent
                    }));
                    assert(self.wf());
                }
                match result {
                    Ok(encoded_parts) => {
                        let ghost second = content::byte_views(encoded_parts@);
                        let mut more: Vec<Vec<u8>> = encoded_parts;
                        raws.append(&mut more);
                        proof {
                            let after = content::byte_views(raws@);
                            assert(after =~= first + second);
                            assert(after.take(first.len() as int) =~= first);
                            assert(after.skip(first.len() as int) =~= second);
                        }
                        Ok(())
                    },
                    Err(error) => {
                        proof {
                            let i = choose|i: int|
                                0 <= i < records.len() && encoded::<C>(
                                    before.cipher,
                                    #[trigger] records[i],
                                    Err::<Seq<u8>, Error>(error),
                                ) && sent == (ConnView {
                                    sequences: advanced(before.sequences, epoch, i + 1),
                                    ..before
                                });
                            assert(encoded::<C>(
                                before.cipher,
                                records[i],
                                Err::<Seq<u8>, Error>(error),
                            ));
                        }
                        Err(error)
                    },
                }
            },
            _ => {
                assert(records.len() == 1);
                match self.process_packet(p) {
                    Ok(raw) => {
                        let ghost bytes = raw@;
                        raws.push(raw);
                        proof {
                            let after = content::byte_views(raws@);
                            assert(after =~= first.push(bytes));
                            assert(after.take(first.len() as int) =~= first);
                            assert(after.skip(first.len() as int) =~= seq![bytes]);
                        }
                        Ok(())
                    },
                    Err(error) => {
                        assert(encoded::<C>(
                            before.cipher,
                            records[0],
                            Err::<Seq<u8>, Error>(error),
                        ));
                        Err(error)
                    },
                }
            },
        }
    }

    /// Encodes what is to be sent and puts it together to datagrams. Nothing of a batch that fails
    /// part-way is sent.
    pub fn handle_outgoing_packets(&mut self) -> (result: Result<(), Error>)
        requires
            old(self).wf(),
        ensures
            final(self).wf(),
            ({
                let start = old(self)@;
                let plains = start.plan(start.outgoing.len()).plains;
                &&& match result {
                    Ok(()) => exists|raws: Seq<Seq<u8>>|
                        all_encoded::<C>(start.cipher, plains, raws) && final(self)@
                            == #[trigger] start.sent(raws),
                    Err(error) => exists|k: int, i: int|
                        start.may_stop(k, i, error) && final(self)@ == #[trigger] start.stopped(
                            k,
                            i,
                        ),
                }
                &&& start.all_clear() ==> result is Ok
            }),
    {
        let ghost start = self@;
        let ghost n = start.outgoing.len();
        let ghost plains = start.plan(n).plains;
        let mut raws: Vec<Vec<u8>> = Vec::new();
        let ghost mut k: nat = 0;
        proof {
            assert(start.outgoing.skip(0) =~= start.outgoing);
            assert(self@ =~= (ConnView {
                outgoing: start.outgoing.skip(0),
                sequences: start.plan(0).sequences,
                cache: start.plan(0).cache,
                ..start
            }));
        }
        while self.outgoing_packets.len() > 0
            invariant
                self.wf(),
                start == old(self)@,
                start.valid(),
                n == start.outgoing.len(),
                plains == start.plan(n).plains,
                k <= n,
                self@ == (ConnView {
                    outgoing: start.outgoing.skip(k as int),
                    sequences: start.plan(k).sequences,
                    cache: start.plan(k).cache,
                    ..start
                }),
                all_encoded::<C>(
                    start.cipher,
                    start.plan(k).plains,
                    content::byte_views(raws@),
                ),
            decreases n - k,
        {
            let ghost now = self@;
            let ghost waiting = self.outgoing_packets@;
            proof {
                assert(now.outgoing == start.outgoing.skip(k as int));
                assert(now.outgoing == packet_views(waiting));
                assert(now.outgoing.len() == waiting.len());
                lemma_first_gone(waiting, start.outgoing, k as int);
            }
            match self.outgoing_packets.pop_front() {
                Some(p) => {
                    let ghost packet = start.outgoing[k as int];
                    let ghost epoch = packet.header.epoch;
                    let ghost begun = start.plan(k);
                    let ghost after = start.plan(k + 1);
                    let ghost number = counted(begun.sequences, epoch)[epoch as int] as int;
                    let ghost mtu = start.config.maximum_transmission_unit as int;
                    let ghost records = records_of(packet, mtu, number);
                    let ghost rest = ConnView { outgoing: start.outgoing.skip(k as int + 1), ..now };
                    let ghost first = content::byte_views(raws@);
                    proof {
                        assert(self@ =~= rest);
                        assert(self.wf());
                        lemma_plan_grows(start, k + 1, n);
                        assert(after.plains == begun.plains + records);
                        assert forall|i: int| 0 <= i < records.len() implies #[trigger] records[i]
                            == plains[begun.plains.len() + i] by {
                            assert(after.plains[begun.plains.len() + i] == records[i]);
                        }
                    }
                    match self.send_packet(&p, &mut raws) {
                        Ok(()) => {
                            proof {
                                let second = content::byte_views(raws@).skip(first.len() as int);
                                assert(content::byte_views(raws@) =~= first + second);
                                assert(self@ =~= (ConnView {
                                    outgoing: start.outgoing.skip(k as int + 1),
                                    sequences: after.sequences,
                                    cache: after.cache,
                                    ..start
                                }));
                                k = k + 1;
                            }
                        },
                        Err(error) => {
                            proof {
                                let i = choose|i: int|
                                    0 <= i < records.len() && encoded::<C>(
                                        start.cipher,
                                        #[trigger] records[i],
                                        Err::<Seq<u8>, Error>(error),
                                    ) && self@ == (ConnView {
                                        sequences: advanced(begun.sequences, epoch, i + 1),
                                        cache: kept_sent(begun.cache, packet, start.is_client),
                                        ..rest
                                    });
                                assert(after.plains[begun.plains.len() + i] == records[i]);
                                assert(start.may_stop(k as int, i, error));
                                assert(self@ =~= start.stopped(k as int, i));
                            }
                            return Err(error);
                        },
                    }
                },
                None => {},
            }
        }
        proof {
            assert(self@.outgoing == start.outgoing.skip(k as int));
            assert(self@.outgoing.len() == self.outgoing_packets@.len());
            assert(k == n);
            assert(start.outgoing.skip(n as int) =~= Seq::<PacketView>::empty());
        }
        self.push_raw_packets(&raws);
        proof {
            assert(self@ =~= start.sent(content::byte_views(raws@)));
        }
        Ok(())
    }

    /// Puts encoded records together to datagrams.
    fn push_raw_packets(&mut self, raws: &Vec<Vec<u8>>)
        requires
            old(self).wf(),
        ensures
            final(self).wf(),
            final(self)@ == (ConnView {
                datagrams: old(self)@.datagrams + datagrams_of(
                    old(self)@.config.maximum_transmission_unit as int,
                    content::byte_views(raws@),
                ),
                ..old(self)@
            }),
    {
        let ghost before = self@;
        let ghost all = content::byte_views(raws@);
        let ghost mtu = before.config.maximum_transmission_unit as int;
        let mut datagram: Vec<u8> = Vec::new();
        let mut i: usize = 0;
        proof {
            assert(all.take(0) =~= Seq::<Seq<u8>>::empty());
            assert(datagram@ =~= Seq::<u8>::empty());
            assert(before.datagrams + Seq::<Seq<u8>>::empty() =~= before.datagrams);
        }
        while i < raws.len()
            invariant
                i <= raws@.len(),
                self.wf(),
                all == content::byte_views(raws@),
                mtu == before.config.maximum_transmission_unit,
                self@ == (ConnView {
                    datagrams: before.datagrams + packed(mtu, all.take(i as int)).0,
                    ..before
                }),
                datagram@ == packed(mtu, all.take(i as int)).1,
            decreases raws@.len() - i,
        {
            let ghost (full, begun) = packed(mtu, all.take(i as int));
            proof {
                assert(all.take(i + 1).drop_last() =~= all.take(i as int));
                assert(all.take(i + 1).last() == raws@[i as int]@);
            }
            datagram = self.push_raw_packet(datagram, raws[i].as_slice());
            proof {
                let (full_after, begun_after) = packed(mtu, all.take(i + 1));
                assert(before.datagrams + full.push(begun) =~= (before.datagrams + full).push(begun));
                assert(self@ =~= (ConnView {
                    datagrams: before.datagrams + full_after,
                    ..before
                }));
            }
            i += 1;
        }
        assert(all.take(i as int) =~= all);
        let ghost now = self@;
        if datagram.len() > 0 {
            let ghost last = datagram@;
            self.outgoing_compacted_raw_packets.push_back(datagram);
            proof {
                assert(self@.datagrams =~= now.datagrams.push(last));
                assert(self@.datagrams =~= before.datagrams + packed(mtu, all).0.push(last));
            }
        }
        proof {
            assert(self@.pending == now.pending);
            assert(self@.detectors == now.detectors);
            assert(self@ =~= (ConnView {
                datagrams: before.datagrams + datagrams_of(mtu, all),
                ..before
            }));
        }
    }

    /// Appends an encoded record to the datagram being built, first queueing that datagram if the
    /// record would take it to the limit. Returns the datagram being built.
    fn push_raw_packet(&mut self, datagram: Vec<u8>, raw_packet: &[u8]) -> (building: Vec<u8>)
        requires
            old(self).wf(),
        ensures
            final(self).wf(),
            if datagram@.len() > 0 && datagram@.len() + raw_packet@.len()
                >= old(self)@.config.maximum_transmission_unit {
                &&& building@ == raw_packet@
                &&& final(self)@ == (ConnView {
                    datagrams: old(self)@.datagrams.push(datagram@),
                    ..old(self)@
                })
            } else {
                building@ == datagram@ + raw_packet@ && final(self)@ == old(self)@
            },
    {
        let mtu: usize = self.config.maximum_transmission_unit;
        let len: usize = datagram.len();
        if len > 0 && (len >= mtu || raw_packet.len() >= mtu - len) {
            let ghost before = self@;
            let ghost full = datagram@;
            self.outgoing_compacted_raw_packets.push_back(datagram);
            proof {
                assert(self@.datagrams =~= before.datagrams.push(full));
                assert(self@.pending == before.pending);
                assert(self@.detectors == before.detectors);
                assert(self@ =~= (ConnView { datagrams: before.datagrams.push(full), ..before }));
            }
            slice_to_vec(raw_packet)
        } else {
            let mut building: Vec<u8> = datagram;
            append(&mut building, raw_packet);
            building
        }
    }

    /// Takes the next datagram to send. What cannot be encoded is dropped.
    pub fn outgoing_raw_packet(&mut self) -> (datagram: Option<Vec<u8>>)
        requires
            old(self).wf(),
        ensures
            final(self).wf(),
            old(self)@.polled(
                final(self)@,
                match datagram {
                    Some(datagram) => Some(datagram@),
                    None => None,
                },
            ),
    {
        let result: Result<(), Error> = self.handle_outgoing_packets();
        let ghost flushed = self@;
        match self.outgoing_compacted_raw_packets.pop_front() {
            Some(datagram) => {
                proof {
                    assert(flushed.datagrams[0] == datagram@);
                    assert(self@.datagrams =~= flushed.datagrams.skip(1));
                    assert(self@.pending == flushed.pending);
                    assert(self@.detectors == flushed.detectors);
                    assert(self@ =~= flushed.without_datagram());
                    reveal(ConnView::may_flush);
                    assert(old(self)@.may_flush(flushed));
                }
                Some(datagram)
            },
            None => {
                proof {
                    assert(self@ =~= flushed);
                    reveal(ConnView::may_flush);
                    assert(old(self)@.may_flush(flushed));
                }
                None
            },
        }
    }

    /// Queues application data, which is encrypted when it is sent. A connection that is closed, and
    /// one whose handshake is not done, takes none.
    pub fn write(&mut self, p: &[u8]) -> (result: Result<(), Error>)
        requires
            old(self).wf(),
            cipher_suite::fits(25 + p@.len() as int),
        ensures
            final(self).wf(),
            if old(self)@.closed {
                result == Err::<(), Error>(Error::ErrConnClosed) && final(self)@ == old(self)@
            } else if !old(self)@.completed {
                result == Err::<(), Error>(Error::ErrHandshakeInProgress) && final(self)@ == old(
                    self,
                )@
            } else {
                result is Ok && final(self)@ == old(self)@.written(p@)
            },
    {
        if self.closed {
            return Err(Error::ErrConnClosed);
        }
        if !self.handshake_completed {
            return Err(Error::ErrHandshakeInProgress);
        }
        let ghost before = self@;
        let pkt = Packet {
            record: RecordLayer::new(
                protocol_version1_2(),
                self.state.local_epoch,
                Content::ApplicationData(slice_to_vec(p)),
            ),
            should_encrypt: true,
            reset_local_sequence_number: false,
        };
        let ghost packet = pkt@;
        assert(packet == before.data_packet(p@));
        self.outgoing_packets.push_back(pkt);
        proof {
            assert(self@.outgoing =~= before.outgoing.push(packet));
            assert(self@.pending == before.pending);
            assert(self@.detectors == before.detectors);
            assert(self@ =~= before.written(p@));
        }
        Ok(())
    }

    /// Begins an orderly shutdown by queueing a closing alert, once.
    pub fn close(&mut self)
        requires
            old(self).wf(),
        ensures
            final(self).wf(),
            final(self)@ == if old(self)@.closed {
                old(self)@
            } else {
                (ConnView { closed: true, ..old(self)@ }).notified(
                    Alert {
                        alert_level: AlertLevel::Warning,
                        alert_description: AlertDescription::CloseNotify,
                    },
                )
            },
    {
        if !self.closed {
            let ghost before = self@;
            self.closed = true;
            assert(self@ =~= (ConnView { closed: true, ..before }));
            self.notify(AlertLevel::Warning, AlertDescription::CloseNotify);
        }
    }

    /// Takes the next application data, once the handshake is done.
    pub fn incoming_application_data(&mut self) -> (data: Option<Vec<u8>>)
        requires
            old(self).wf(),
        ensures
            final(self).wf(),
            if old(self)@.completed && old(self)@.decrypted.len() > 0 {
                &&& data matches Some(data)
                &&& data@ == old(self)@.decrypted[0]
                &&& final(self)@ == (ConnView {
                    decrypted: old(self)@.decrypted.skip(1),
                    ..old(self)@
                })
            } else {
                data is None && final(self)@ == old(self)@
            },
    {
        if !self.handshake_completed {
            return None;
        }
        let ghost before = self@;
        match self.incoming_decrypted_packets.pop_front() {
            Some(data) => {
                proof {
                    assert(before.decrypted[0] == data@);
                    assert(self@.decrypted =~= before.decrypted.skip(1));
                    assert(self@.pending == before.pending);
                    assert(self@.detectors == before.detectors);
                    assert(self@ =~= (ConnView {
                        decrypted: before.decrypted.skip(1),
                        ..before
                    }));
                }
                Some(data)
            },
            None => {
                assert(self@ =~= before);
                None
            },
        }
    }

    /// Queues the packets of a flight.
    pub fn write_packets(&mut self, pkts: Vec<Packet>)
        requires
            old(self).wf(),
            all_fit(packet_views(pkts@)),
        ensures
            final(self).wf(),
            final(self)@ == (ConnView {
                outgoing: old(self)@.outgoing + packet_views(pkts@),
                ..old(self)@
            }),
    {
        let ghost before = self@;
        let ghost all = pkts@;
        let mut queue: VecDeque<Packet> = VecDeque::new();
        let mut pkts: Vec<Packet> = pkts;
        while pkts.len() > 0
            invariant
                pkts@ + queue@ == all,
            decreases pkts@.len(),
        {
            let ghost (front, back) = (pkts@, queue@);
            match pkts.pop() {
                Some(pkt) => {
                    queue.push_front(pkt);
                    assert(pkts@ + queue@ =~= front + back);
                },
                None => {},
            }
        }
        assert(queue@ =~= all);
        self.outgoing_packets.append(&mut queue);
        proof {
            assert(self@.outgoing =~= before.outgoing + packet_views(all));
            assert(self@.pending == before.pending);
            assert(self@.detectors == before.detectors);
            assert(self@ =~= (ConnView {
                outgoing: before.outgoing + packet_views(all),
                ..before
            }));
        }
    }

    /// What two ends have agreed on.
    pub fn connection_state(&self) -> (state: &State<C>)
        ensures
            state.local_epoch == self@.local_epoch,
            state.remote_epoch == self@.remote_epoch,
            state.local_sequence_number@ == self@.sequences,
            suite_keys(state.cipher_suite) == self@.cipher,
    {
        &self.state
    }

    /// The handshake messages that were kept.
    pub fn handshake_cache(&self) -> (cache: &HandshakeCache)
        ensures
            cache@ == self@.cache,
    {
        &self.cache
    }

    /// How many records are held for the keys of the next epoch.
    pub fn pending_records(&self) -> (records: usize)
        ensures
            records == self@.pending.len(),
    {
        self.incoming_encrypted_packets.len()
    }

    /// The handshake is done.
    pub fn set_handshake_completed(&mut self)
        requires
            old(self).wf(),
        ensures
            final(self).wf(),
            final(self)@ == (ConnView { completed: true, ..old(self)@ }),
    {
        let ghost before = self@;
        self.handshake_completed = true;
        assert(self@ =~= (ConnView { completed: true, ..before }));
    }

    /// Whether the handshake is done.
    pub fn is_handshake_completed(&self) -> (completed: bool)
        ensures
            completed == self@.completed,
    {
        self.handshake_completed
    }

    /// Whether the connection was closed here.
    pub fn is_connection_closed(&self) -> (closed: bool)
        ensures
            closed == self@.closed,
    {
        self.closed
    }

    /// Sets the epoch of what is sent.
    pub fn set_local_epoch(&mut self, epoch: u16)
        requires
            old(self).wf(),
        ensures
            final(self).wf(),
            final(self)@ == (ConnView { local_epoch: epoch, ..old(self)@ }),
    {
        let ghost before = self@;
        self.state.local_epoch = epoch;
        assert(self@ =~= (ConnView { local_epoch: epoch, ..before }));
    }

    /// The epoch of what is sent.
    pub fn get_local_epoch(&self) -> (epoch: u16)
        ensures
            epoch == self@.local_epoch,
    {
        self.state.local_epoch
    }

    /// Where the handshake is.
    pub fn handshake_state(&self) -> (state: HandshakeState)
        ensures
            state == self@.handshake_state,
    {
        self.current_handshake_state
    }

    /// When the flight is to be sent again.
    pub fn retransmit_timer(&self) -> (timer: Option<Instant>)
        ensures
            timer == self@.timer,
    {
        self.current_retransmit_timer
    }

    /// Sets when the flight is to be sent again.
    pub fn set_retransmit_timer(&mut self, timer: Option<Instant>)
        requires
            old(self).wf(),
        ensures
            final(self).wf(),
            final(self)@ == (ConnView { timer, ..old(self)@ }),
    {
        let ghost before = self@;
        self.current_retransmit_timer = timer;
        assert(self@ =~= (ConnView { timer, ..before }));
    }

    /// Sets the cipher.
    pub fn set_cipher_suite(&mut self, suite: C)
        requires
            old(self).wf(),
            suite.valid(),
        ensures
            final(self).wf(),
            final(self)@ == (ConnView { cipher: Some(suite.keys()), ..old(self)@ }),
    {
        let ghost before = self@;
        self.state.cipher_suite = Some(suite);
        assert(self@ =~= (ConnView { cipher: Some(suite.keys()), ..before }));
    }

    /// Sends an alert.
    pub fn notify(&mut self, alert_level: AlertLevel, alert_description: AlertDescription)
        requires
            old(self).wf(),
        ensures
            final(self).wf(),
            final(self)@ == old(self)@.notified(Alert { alert_level, alert_description }),
    {
        let ghost before = self@;
        let packet = Packet {
            record: RecordLayer::new(
                protocol_version1_2(),
                self.state.local_epoch,
                Content::Alert(Alert { alert_level, alert_description }),
            ),
            should_encrypt: self.handshake_completed,
            reset_local_sequence_number: false,
        };
        self.outgoing_packets.push_back(packet);
        proof {
            assert(self@.outgoing =~= before.outgoing.push(packet@));
            assert(self@ =~= before.notified(Alert { alert_level, alert_description }));
        }
    }

    /// Frees what is buffered for a handshake that can no longer complete: records waiting for keys
    /// and partially reassembled handshake messages.
    pub fn release_handshake_buffers(&mut self)
        requires
            old(self).wf(),
        ensures
            final(self).wf(),
            final(self)@ == old(self)@.released(),
    {
        let ghost before = self@;
        self.incoming_encrypted_packets = VecDeque::new();
        self.incoming_encrypted_bytes = 0;
        self.fragment_buffer.release();
        proof {
            assert(self@.pending =~= Seq::empty());
            assert(self@ =~= before.released());
        }
    }

    /// Does what a record called for.
    fn answer(&mut self, reply: Reply) -> (error: Option<Error>)
        requires
            old(self).wf(),
        ensures
            final(self).wf(),
            (final(self)@, error) == old(self)@.answered(reply),
    {
        match reply.alert {
            Some(alert) => {
                self.notify(alert.alert_level, alert.alert_description);
                if alert.is_final() {
                    self.release_handshake_buffers();
                    return Some(Error::ErrAlertFatalOrClose);
                }
            },
            None => {},
        }
        if reply.error.is_some() {
            return reply.error;
        }
        let ghost before = self@;
        if reply.is_handshake {
            self.handshake_rx = true;
        }
        assert(self@ =~= (ConnView {
            handshake_rx: before.handshake_rx || reply.is_handshake,
            ..before
        }));
        None
    }

    /// Takes in one datagram. Records of the next epoch are held only until the handshake is done.
    ///
    /// A record that is malformed or not authentic makes it fail, once the rest of the datagram is
    /// taken in; nothing of such a record is handed on.
    pub fn read(&mut self, buf: &[u8]) -> (result: Result<(), Error>)
        requires
            old(self).wf(),
            old(self)@.remote_epoch + buf@.len() / 13 < u16::MAX,
        ensures
            final(self).wf(),
            (final(self)@, result) == old(self)@.read(buf@),
    {
        let enqueue: bool = !self.handshake_completed;
        let records: Vec<Vec<u8>> = match unpack_datagram(buf) {
            Ok(records) => records,
            Err(error) => { return Err(error); },
        };
        let ghost all = content::byte_views(records@);
        let mut k: usize = 0;
        let mut fault: Option<Error> = None;
        assert(all.skip(0) =~= all);
        while k < records.len()
            invariant
                k <= records@.len(),
                self.wf(),
                all == content::byte_views(records@),
                forall|i: int|
                    0 <= i < records@.len() ==> (#[trigger] records@[i])@.len() <= MAX_RECORD_LEN,
                self@.remote_epoch + (records@.len() - k) < u16::MAX,
                enqueue == !old(self)@.completed,
                content::unpacked(buf@) == Ok::<Seq<Seq<u8>>, Error>(all),
                old(self)@.read_all(all, enqueue) == match self@.read_all(
                    all.skip(k as int),
                    enqueue,
                ) {
                    (done, Ok(())) => (done, verdict(fault)),
                    (done, Err(error)) => (done, Err::<(), Error>(error)),
                },
            decreases records@.len() - k,
        {
            let record: Vec<u8> = slice_to_vec(records[k].as_slice());
            proof {
                assert(record@ =~= all[k as int]);
                assert(all.skip(k as int)[0] == record@);
                assert(all.skip(k as int).drop_first() =~= all.skip(k + 1));
                lemma_received(self@, record@, enqueue);
            }
            let reply: Reply = self.handle_incoming_packet(record, enqueue);
            match self.answer(reply) {
                Some(error) => { return Err(error); },
                None => {},
            }
            if reply.fault.is_some() {
                fault = reply.fault;
            }
            k += 1;
        }
        match fault {
            Some(fault) => Err(fault),
            None => Ok(()),
        }
    }

    /// Takes in what was held for keys, once there are any, and says whether that was handshake
    /// data. A record that is still ahead goes back, until the handshake is done. Another pass runs
    /// where a change of cipher in this one brought the epoch up to records held before it.
    ///
    /// A record that proves to be malformed or not authentic is passed over: it was taken in by an
    /// earlier read.
    pub fn handle_incoming_queued_packets(&mut self) -> (result: Result<bool, Error>)
        requires
            old(self).wf(),
            old(self)@.remote_epoch + old(self)@.pending.len() < u16::MAX,
        ensures
            final(self).wf(),
            if old(self)@.ready() {
                (final(self)@, result) == old(self)@.flushed(!old(self)@.completed)
            } else {
                final(self)@ == old(self)@ && result == Ok::<bool, Error>(false)
            },
    {
        if !self.cipher_ready() {
            return Ok(false);
        }
        let enqueue: bool = !self.handshake_completed;
        let mut is_handshake: bool = false;
        let ghost begun = self@;
        loop
            invariant
                self.wf(),
                self@.remote_epoch + self@.pending.len() < u16::MAX,
                begun == old(self)@,
                begun.ready(),
                enqueue == !begun.completed,
                match self@.flushed(enqueue) {
                    (done, Ok(more)) => begun.flushed(enqueue) == (
                        done,
                        Ok::<bool, Error>(is_handshake || more),
                    ),
                    (done, Err(error)) => begun.flushed(enqueue) == (done, Err::<bool, Error>(error)),
                },
            decreases u16::MAX - self@.remote_epoch,
        {
            let remote_epoch: u16 = self.state.remote_epoch;
            let ghost pass = self@;
            let mut held: VecDeque<Vec<u8>> = VecDeque::new();
            held.append(&mut self.incoming_encrypted_packets);
            self.incoming_encrypted_bytes = 0;
            let ghost emptied = ConnView { pending: Seq::empty(), ..pass };
            let ghost records = content::byte_views(held@);
            let mut some: bool = false;
            proof {
                assert(self@.pending =~= Seq::empty());
                assert(self@ =~= emptied);
                assert(records =~= pass.pending);
                assert forall|i: int| 0 <= i < held@.len() implies (#[trigger] held@[i])@.len()
                    <= MAX_RECORD_LEN by {
                    assert(held@[i]@ == pass.pending[i]);
                }
                lemma_retried(emptied, records, enqueue);
            }
            while held.len() > 0
                invariant
                    self.wf(),
                    begun == old(self)@,
                    begun.ready(),
                    enqueue == !begun.completed,
                    emptied == (ConnView { pending: Seq::<Seq<u8>>::empty(), ..pass }),
                    records == pass.pending,
                    forall|i: int|
                        0 <= i < held@.len() ==> (#[trigger] held@[i])@.len() <= MAX_RECORD_LEN,
                    self@.remote_epoch + self@.pending.len() + held@.len() < u16::MAX,
                    match self@.retried(content::byte_views(held@), enqueue) {
                        (done, Ok(more)) => emptied.retried(records, enqueue) == (
                            done,
                            Ok::<bool, Error>(some || more),
                        ),
                        (done, Err(error)) => emptied.retried(records, enqueue) == (
                            done,
                            Err::<bool, Error>(error),
                        ),
                    },
                    match pass.flushed(enqueue) {
                        (done, Ok(more)) => begun.flushed(enqueue) == (
                            done,
                            Ok::<bool, Error>(is_handshake || more),
                        ),
                        (done, Err(error)) => begun.flushed(enqueue) == (
                            done,
                            Err::<bool, Error>(error),
                        ),
                    },
                decreases held@.len(),
            {
                let ghost before = held@;
                match held.pop_front() {
                    Some(record) => {
                        proof {
                            let views = content::byte_views(before);
                            assert(views[0] == record@);
                            assert(views.drop_first() =~= content::byte_views(held@));
                            assert(record@.len() <= MAX_RECORD_LEN) by {
                                assert(before[0]@.len() <= MAX_RECORD_LEN);
                            }
                            assert forall|i: int| 0 <= i < held@.len() implies (
                            #[trigger] held@[i])@.len() <= MAX_RECORD_LEN by {
                                assert(before[i + 1]@.len() <= MAX_RECORD_LEN);
                            }
                            lemma_received(self@, record@, enqueue);
                        }
                        let reply: Reply = self.handle_incoming_packet(record, enqueue);
                        let error: Option<Error> = self.answer(reply);
                        match error {
                            Some(error) => {
                                let ends: bool = match reply.alert {
                                    Some(alert) => alert.is_final(),
                                    None => false,
                                };
                                if !ends {
                                    self.enqueue_all(held);
                                }
                                return Err(error);
                            },
                            None => {},
                        }
                        if reply.is_handshake {
                            some = true;
                        }
                    },
                    None => {},
                }
            }
            proof {
                assert(content::byte_views(held@) =~= Seq::<Seq<u8>>::empty());
            }
            if some {
                is_handshake = true;
            }
            if self.state.remote_epoch == remote_epoch || self.incoming_encrypted_packets.len() == 0 {
                return Ok(is_handshake);
            }
        }
    }

    /// Holds records again, as far as there is room for them.
    fn enqueue_all(&mut self, records: VecDeque<Vec<u8>>)
        requires
            old(self).wf(),
            forall|i: int|
                0 <= i < records@.len() ==> (#[trigger] records@[i])@.len() <= MAX_RECORD_LEN,
        ensures
            final(self).wf(),
            final(self)@ == old(self)@.all_enqueued(content::byte_views(records@)),
    {
        let mut records: VecDeque<Vec<u8>> = records;
        let ghost all = content::byte_views(records@);
        while records.len() > 0
            invariant
                self.wf(),
                forall|i: int|
                    0 <= i < records@.len() ==> (#[trigger] records@[i])@.len() <= MAX_RECORD_LEN,
                self@.all_enqueued(content::byte_views(records@)) == old(self)@.all_enqueued(all),
            decreases records@.len(),
        {
            let ghost before = records@;
            match records.pop_front() {
                Some(record) => {
                    proof {
                        let views = content::byte_views(before);
                        assert(views[0] == record@);
                        assert(views.drop_first() =~= content::byte_views(records@));
                        assert(before[0]@.len() <= MAX_RECORD_LEN);
                        assert forall|i: int| 0 <= i < records@.len() implies (
                        #[trigger] records@[i])@.len() <= MAX_RECORD_LEN by {
                            assert(before[i + 1]@.len() <= MAX_RECORD_LEN);
                        }
                    }
                    self.enqueue_encrypted_packet(record);
                },
                None => {},
            }
        }
        assert(content::byte_views(records@) =~= Seq::<Seq<u8>>::empty());
    }

    /// Takes the complete handshake messages out and keeps them.
    fn drain_messages(&mut self)
        requires
            old(self).wf(),
        ensures
            final(self).wf(),
            ({
                let (fragments, cache) = drained(
                    old(self)@.fragments,
                    old(self)@.cache,
                    old(self)@.is_client,
                );
                final(self)@ == (ConnView { fragments, cache, ..old(self)@ })
            }),
    {
        let ghost before = self@;
        proof {
            self.fragment_buffer.lemma_messages_finite();
        }
        loop
            invariant
                self.wf(),
                self@ == (ConnView {
                    fragments: self@.fragments,
                    cache: self@.cache,
                    ..before
                }),
                self@.fragments.messages.dom().finite(),
                drained(self@.fragments, self@.cache, before.is_client) == drained(
                    before.fragments,
                    before.cache,
                    before.is_client,
                ),
            ensures
                !self@.fragments.ready(),
            decreases self@.fragments.messages.dom().len(),
        {
            let ghost now = self@;
            match self.fragment_buffer.pop() {
                Ok((out, epoch)) => {
                    let ghost raw = out@;
                    proof {
                        self.fragment_buffer.lemma_messages_finite();
                    }
                    match HandshakeHeader::unmarshal(out.as_slice()) {
                        Ok(header) => {
                            if header.handshake_type != HandshakeType::Invalid {
                                self.cache.push(
                                    out,
                                    epoch,
                                    header.message_sequence,
                                    header.handshake_type,
                                    !self.is_client,
                                );
                            }
                        },
                        Err(_) => {},
                    }
                    proof {
                        let message = now.fragments.messages[now.fragments.current];
                        assert(raw.len() >= 12);
                        assert(self@.pending == now.pending);
                        assert(self@.detectors == now.detectors);
                        assert(self.wf());
                        assert(self@.cache == kept(now.cache, raw, message.epoch, before.is_client));
                        assert(self@ =~= (ConnView {
                            fragments: self@.fragments,
                            cache: self@.cache,
                            ..before
                        }));
                    }
                },
                Err(_) => {
                    assert(self@ =~= now);
                    break;
                },
            }
        }
    }

    /// Takes in one record, as it came.
    pub fn handle_incoming_packet(&mut self, pkt: Vec<u8>, enqueue: bool) -> (reply: Reply)
        requires
            old(self).wf(),
            pkt@.len() <= HASH_MAX_LEN,
            old(self)@.remote_epoch < u16::MAX,
        ensures
            final(self).wf(),
            (final(self)@, reply) == old(self)@.received(pkt@, enqueue),
            final(self)@.remote_epoch == old(self)@.remote_epoch + if old(self)@.changes_cipher(
                pkt@,
            ) {
                1int
            } else {
                0int
            },
    {
        proof {
            law_epoch_moves_by_one(self@, pkt@, enqueue);
        }
        let h: RecordLayerHeader = match RecordLayerHeader::unmarshal(pkt.as_slice()) {
            Ok(h) => h,
            Err(fault) => {
                return Reply { is_handshake: false, alert: None, error: None, fault: Some(fault) };
            },
        };
        let epoch: u16 = self.state.remote_epoch;
        if h.epoch > epoch {
            if h.epoch > epoch + 1 {
                return Reply { is_handshake: false, alert: None, error: None, fault: None };
            }
            if enqueue {
                self.enqueue_encrypted_packet(pkt);
            }
            return Reply { is_handshake: false, alert: None, error: None, fault: None };
        }
        self.watch(h.epoch);
        let ghost watched = self@;
        assert(self@.detectors[h.epoch as int] == self.replay_detector@[h.epoch as int]@);
        if !self.replay_detector[h.epoch as usize].check(h.sequence_number) {
            return Reply { is_handshake: false, alert: None, error: None, fault: None };
        }
        let mut plain: Vec<u8> = pkt;
        if h.epoch != 0 {
            if !self.cipher_ready() {
                if enqueue {
                    self.enqueue_encrypted_packet(plain);
                }
                return Reply { is_handshake: false, alert: None, error: None, fault: None };
            }
            let ghost raw = plain@;
            let mut refused: Option<(Error, bool)> = None;
            match &mut self.state.cipher_suite {
                Some(suite) => {
                    match suite.decrypt_in_place(&mut plain) {
                        Ok(()) => {},
                        Err(fault) => {
                            refused = Some((fault, suite.is_psk()));
                        },
                    }
                },
                None => {},
            }
            assert(self@ =~= watched);
            match refused {
                Some((fault, psk)) => {
                    if psk {
                        return Reply {
                            is_handshake: false,
                            alert: Some(
                                Alert {
                                    alert_level: AlertLevel::Fatal,
                                    alert_description: AlertDescription::UnknownPskIdentity,
                                },
                            ),
                            error: None,
                            fault: None,
                        };
                    }
                    return Reply {
                        is_handshake: false,
                        alert: None,
                        error: None,
                        fault: Some(fault),
                    };
                },
                None => {},
            }
        }
        self.handle_opened_packet(&h, plain, enqueue)
    }

    /// Takes in one record that was opened.
    fn handle_opened_packet(&mut self, h: &RecordLayerHeader, plain: Vec<u8>, enqueue: bool) -> (reply:
        Reply)
        requires
            old(self).wf(),
            h.epoch < old(self)@.detectors.len(),
            h.epoch <= old(self)@.remote_epoch < u16::MAX,
        ensures
            final(self).wf(),
            (final(self)@, reply) == old(self)@.opened(*h, plain@, enqueue),
    {
        let ghost before = self@;
        let pushed: Result<bool, Error> = self.fragment_buffer.push(plain.as_slice());
        let ghost buffered = ConnView { fragments: self.fragment_buffer@, ..before };
        assert(self@ =~= buffered);
        let is_handshake: bool = match pushed {
            Ok(is_handshake) => is_handshake,
            Err(fault) => {
                return Reply { is_handshake: false, alert: None, error: None, fault: Some(fault) };
            },
        };
        if is_handshake {
            self.drain_messages();
            self.accept(h);
            return Reply { is_handshake: true, alert: None, error: None, fault: None };
        }
        if h.content_type == ContentType::ApplicationData {
            if h.epoch == 0 {
                return Reply {
                    is_handshake: false,
                    alert: Some(
                        Alert {
                            alert_level: AlertLevel::Fatal,
                            alert_description: AlertDescription::UnexpectedMessage,
                        },
                    ),
                    error: Some(Error::ErrApplicationDataEpochZero),
                    fault: None,
                };
            }
            let payload: Vec<u8> = slice_to_vec(
                &plain.as_slice()[RECORD_LAYER_HEADER_SIZE..plain.len()],
            );
            assert(payload@ =~= plain@.skip(13));
            self.incoming_decrypted_packets.push_back(payload);
            proof {
                assert(self@.decrypted =~= before.decrypted.push(plain@.skip(13)));
                assert(self@ =~= (ConnView {
                    decrypted: before.decrypted.push(plain@.skip(13)),
                    ..buffered
                }));
            }
            self.accept(h);
            return Reply { is_handshake: false, alert: None, error: None, fault: None };
        }
        match Content::unmarshal(plain.as_slice()) {
            Err(error) => Reply {
                is_handshake: false,
                alert: Some(
                    Alert {
                        alert_level: AlertLevel::Fatal,
                        alert_description: AlertDescription::DecodeError,
                    },
                ),
                error: Some(error),
                fault: None,
            },
            Ok(Content::Alert(alert)) => {
                let mut answer: Alert = alert;
                if alert.alert_description == AlertDescription::CloseNotify {
                    // A closing alert is answered by a closing alert.
                    answer = Alert {
                        alert_level: AlertLevel::Warning,
                        alert_description: AlertDescription::CloseNotify,
                    };
                }
                self.accept(h);
                Reply {
                    is_handshake: false,
                    alert: Some(answer),
                    error: Some(Error::ErrAlert(answer)),
                    fault: None,
                }
            },
            Ok(Content::ChangeCipherSpec) => {
                if !self.cipher_ready() {
                    if enqueue {
                        self.enqueue_encrypted_packet(plain);
                    }
                    return Reply { is_handshake: false, alert: None, error: None, fault: None };
                }
                let new_remote_epoch: u16 = h.epoch + 1;
                if self.state.remote_epoch + 1 == new_remote_epoch {
                    self.state.remote_epoch = new_remote_epoch;
                    assert(self@ =~= (ConnView { remote_epoch: new_remote_epoch, ..buffered }));
                    self.accept(h);
                }
                Reply { is_handshake: false, alert: None, error: None, fault: None }
            },
            Ok(_) => Reply {
                is_handshake: false,
                alert: Some(
                    Alert {
                        alert_level: AlertLevel::Fatal,
                        alert_description: AlertDescription::UnexpectedMessage,
                    },
                ),
                error: Some(Error::ErrUnhandledContextType),
                fault: None,
            },
        }
    }

    /// Whether there are keys.
    fn cipher_ready(&self) -> (ready: bool)
        ensures
            ready == self@.ready(),
    {
        match &self.state.cipher_suite {
            Some(suite) => suite.is_initialized(),
            None => false,
        }
    }
}

/// Records that agree in all of the header but the length have the same type, epoch and number.
proof fn lemma_same_header(a: Seq<u8>, b: Seq<u8>)
    requires
        a.len() >= 13,
        b.len() >= 13,
        a.take(11) == b.take(11),
    ensures
        ({
            let x = RecordLayerHeader::read(a);
            let y = RecordLayerHeader::read(b);
            &&& x.content_type == y.content_type
            &&& x.protocol_version == y.protocol_version
            &&& x.epoch == y.epoch
            &&& x.sequence_number == y.sequence_number
        }),
{
    assert forall|i: int| 0 <= i < 11 implies a[i] == b[i] by {
        assert(a.take(11)[i] == a[i]);
        assert(b.take(11)[i] == b[i]);
    }
}

/// What one end encrypts as application data arrives at the other end: where the other end has the
/// same keys the other way round, has come to the epoch, and has not seen the record's number, the
/// data is handed on.
pub proof fn law_sent_data_arrives<C: CipherSuite>(
    keys: C::Keys,
    header: RecordLayerHeader,
    data: Seq<u8>,
    raw: Seq<u8>,
    receiver: ConnView<C>,
    enqueue: bool,
)
    requires
        header.content_type == ContentType::ApplicationData,
        header.sequence_number <= MAX_SEQUENCE_NUMBER,
        encoded::<C>(
            Some(keys),
            Plain { header, bytes: content::record_bytes(header, data), encrypt: true },
            Ok::<Seq<u8>, Error>(raw),
        ),
        receiver.cipher == Some(C::mirrored(keys)),
        C::ready(C::mirrored(keys)),
        1 <= header.epoch <= receiver.remote_epoch,
        receiver.watched(header.epoch).detectors[header.epoch as int].fresh(header.sequence_number),
    ensures
        ({
            let (after, reply) = receiver.received(raw, enqueue);
            after.decrypted == receiver.decrypted.push(data) && reply == silence()
        }),
{
    reveal(content::record_bytes);
    let bytes = content::record_bytes(header, data);
    record::law_record_header_round_trip(header, data);
    assert(bytes.take(11) =~= header.bytes().take(11));
    assert(bytes.skip(13) =~= data);
    lemma_same_header(raw, bytes);
    let plain = raw.take(13) + data;
    assert(plain.take(11) =~= raw.take(11));
    lemma_same_header(plain, raw);
    assert(plain.skip(13) =~= data);
}

/// What is written is read: where the handshake is done and nothing else waits to be sent, the
/// datagram that comes of a write is taken in by an end that has the same keys the other way round,
/// has come to the epoch and has not seen the record's number, and the data is handed on there. A
/// record of more than 65535 bytes cannot give its length, and is left out.
pub proof fn law_written_data_is_read<C: CipherSuite>(
    sender: ConnView<C>,
    data: Seq<u8>,
    after: ConnView<C>,
    datagram: Seq<u8>,
    receiver: ConnView<C>,
)
    requires
        sender.completed,
        sender.outgoing.len() == 0,
        sender.datagrams.len() == 0,
        sender.local_epoch >= 1,
        sender.cipher is Some,
        sender.written(data).polled(after, Some(datagram)),
        datagram.len() <= MAX_RECORD_LEN,
        receiver.cipher == Some(C::mirrored(sender.cipher->Some_0)),
        receiver.ready(),
        sender.local_epoch <= receiver.remote_epoch,
        receiver.watched(sender.local_epoch).detectors[sender.local_epoch as int].fresh(
            counted(sender.sequences, sender.local_epoch)[sender.local_epoch as int],
        ),
    ensures
        receiver.read(datagram).1 is Ok,
        receiver.read(datagram).0.decrypted == receiver.decrypted.push(data),
        after.outgoing.len() == 0,
        after.datagrams.len() == 0,
        after.sequences == advanced(sender.sequences, sender.local_epoch, 1),
{
    let written = sender.written(data);
    let packet = sender.data_packet(data);
    assert(written.outgoing =~= seq![packet]);
    let epoch = sender.local_epoch;
    let number = counted(sender.sequences, epoch)[epoch as int] as int;
    let mtu = sender.config.maximum_transmission_unit as int;
    let flushed = choose|flushed: ConnView<C>| #[trigger]
        written.may_flush(flushed) && flushed.datagrams.len() > 0 && datagram
            == flushed.datagrams[0] && after == flushed.without_datagram();
    reveal(ConnView::may_flush);
    let raws = choose|raws: Seq<Seq<u8>>|
        all_encoded::<C>(written.cipher, written.plan(written.outgoing.len()).plains, raws) && flushed
            == #[trigger] written.sent(raws);
    reveal_with_fuel(ConnView::plan, 2);
    let plan = written.plan(1);
    let header = RecordLayerHeader { sequence_number: number as u64, ..packet.header };
    let plain = Plain { header, bytes: content::record_bytes(header, data), encrypt: true };
    assert(records_of(packet, mtu, number) =~= seq![plain]);
    assert(plan.plains =~= seq![plain]);
    let raw = raws[0];
    assert(encoded::<C>(sender.cipher, plan.plains[0], Ok::<Seq<u8>, Error>(raw)));
    reveal_with_fuel(packed, 2);
    assert(raws.drop_last() =~= Seq::<Seq<u8>>::empty());
    assert(Seq::<u8>::empty() + raw =~= raw);
    assert(datagrams_of(mtu, raws) =~= seq![raw]);
    assert(datagram == raw);
    law_sent_data_arrives(
        sender.cipher->Some_0,
        header,
        data,
        raw,
        receiver,
        !receiver.completed,
    );
    lemma_one_record(raw);
    let records = seq![raw];
    let (got, reply) = receiver.received(raw, !receiver.completed);
    reveal_with_fuel(ConnView::read_all, 2);
    assert(records.drop_first() =~= Seq::<Seq<u8>>::empty());
}

/// What is written is sent: where the handshake is done, there are keys and room for the data, and
/// nothing else waits to be sent, asking for the next datagram gives one.
pub proof fn law_written_data_is_sent<C: CipherSuite>(
    sender: ConnView<C>,
    data: Seq<u8>,
    after: ConnView<C>,
    datagram: Option<Seq<u8>>,
)
    requires
        sender.completed,
        sender.outgoing.len() == 0,
        sender.datagrams.len() == 0,
        sender.ready(),
        C::reliable(sender.cipher->Some_0),
        data.len() <= AEAD_MAX_LEN,
        counted(sender.sequences, sender.local_epoch)[sender.local_epoch as int]
            <= MAX_SEQUENCE_NUMBER,
        sender.written(data).polled(after, datagram),
    ensures
        datagram is Some,
{
    let written = sender.written(data);
    let packet = sender.data_packet(data);
    assert(written.outgoing =~= seq![packet]);
    let epoch = sender.local_epoch;
    let number = counted(sender.sequences, epoch)[epoch as int] as int;
    let mtu = sender.config.maximum_transmission_unit as int;
    reveal_with_fuel(ConnView::plan, 2);
    let plan = written.plan(1);
    let header = RecordLayerHeader { sequence_number: number as u64, ..packet.header };
    let plain = Plain { header, bytes: content::record_bytes(header, data), encrypt: true };
    assert(records_of(packet, mtu, number) =~= seq![plain]);
    assert(plan.plains =~= seq![plain]);
    reveal(content::record_bytes);
    assert(plain.bytes.len() == 13 + data.len());
    assert(written.all_clear());
    let flushed = choose|flushed: ConnView<C>| #[trigger]
        written.may_flush(flushed) && match datagram {
            Some(datagram) => {
                &&& flushed.datagrams.len() > 0
                &&& datagram == flushed.datagrams[0]
                &&& after == flushed.without_datagram()
            },
            None => flushed.datagrams.len() == 0 && after == flushed,
        };
    reveal(ConnView::may_flush);
    let raws = choose|raws: Seq<Seq<u8>>|
        all_encoded::<C>(written.cipher, written.plan(written.outgoing.len()).plains, raws)
            && flushed == #[trigger] written.sent(raws);
    let raw = raws[0];
    assert(encoded::<C>(sender.cipher, plan.plains[0], Ok::<Seq<u8>, Error>(raw)));
    reveal_with_fuel(packed, 2);
    assert(raws.drop_last() =~= Seq::<Seq<u8>>::empty());
    assert(Seq::<u8>::empty() + raw =~= raw);
    assert(datagrams_of(mtu, raws) =~= seq![raw]);
}

/// A record that gives its own length is a datagram of one record.
proof fn lemma_one_record(raw: Seq<u8>)
    requires
        13 < raw.len() <= MAX_RECORD_LEN,
        record_cipher::framed(raw),
    ensures
        content::unpacked(raw) == Ok::<Seq<Seq<u8>>, Error>(seq![raw]),
{
    let len = raw.len() - 13;
    assert(raw.subrange(11, 13)[0] == raw[11] && raw.subrange(11, 13)[1] == raw[12]);
    assert(record::be16(raw, 11) == len);
    assert(raw.skip(raw.len() as int) =~= Seq::<u8>::empty());
    assert(raw.take(raw.len() as int) =~= raw);
    assert(seq![raw] + Seq::<Seq<u8>>::empty() =~= seq![raw]);
    reveal_with_fuel(content::unpacked, 2);
}

/// What the application data in a record is, where it opens.
pub open spec fn data_in<C: CipherSuite>(keys: C::Keys, pkt: Seq<u8>) -> Seq<u8> {
    C::opened(keys, pkt)->Ok_0.skip(13)
}

/// Whether a record of this connection's keys holds application data of an epoch that has begun.
pub open spec fn holds_data<C: CipherSuite>(conn: ConnView<C>, pkt: Seq<u8>) -> bool {
    let h = RecordLayerHeader::read(pkt);
    &&& pkt.len() >= 13
    &&& h.content_type == ContentType::ApplicationData
    &&& 1 <= h.epoch <= conn.remote_epoch
    &&& conn.ready()
    &&& C::opened(conn.cipher->Some_0, pkt) matches Ok(plain)
    &&& plain.len() >= 13
    &&& plain[0] == ContentType::ApplicationData.byte()
}

/// A record of application data that is no repeat is handed on, and changes nothing else but what is
/// remembered of record numbers.
pub proof fn law_data_record_is_handed_on<C: CipherSuite>(
    conn: ConnView<C>,
    pkt: Seq<u8>,
    enqueue: bool,
)
    requires
        holds_data(conn, pkt),
        conn.is_news(pkt),
    ensures
        ({
            let (after, reply) = conn.received(pkt, enqueue);
            &&& reply == silence()
            &&& after == (ConnView {
                decrypted: conn.decrypted.push(data_in::<C>(conn.cipher->Some_0, pkt)),
                detectors: after.detectors,
                ..conn
            })
            &&& after.answered(reply) == (after, None::<Error>)
        }),
{
    let h = RecordLayerHeader::read(pkt);
    let plain = C::opened(conn.cipher->Some_0, pkt)->Ok_0;
    assert(conn.fragments.push(plain) == (conn.fragments, Ok::<bool, Error>(false)));
    let watched = conn.watched(h.epoch);
    assert(conn.received(pkt, enqueue) == watched.opened(h, plain, enqueue));
    let after = conn.received(pkt, enqueue).0;
    assert(after =~= (ConnView {
        decrypted: conn.decrypted.push(data_in::<C>(conn.cipher->Some_0, pkt)),
        detectors: after.detectors,
        ..conn
    }));
    assert(after.answered(silence()).0 =~= after);
}

/// Application data is handed on record by record: where each of a datagram's records opens, holds
/// application data and is not a repeat when its turn comes, what is handed on is what was there and
/// then the data of each record, in order, once each. Nothing is answered.
#[verifier::spinoff_prover]
pub proof fn law_every_data_record_is_handed_on<C: CipherSuite>(
    conn: ConnView<C>,
    records: Seq<Seq<u8>>,
    enqueue: bool,
)
    requires
        forall|i: int| 0 <= i < records.len() ==> holds_data(conn, #[trigger] records[i]),
        forall|i: int|
            0 <= i < records.len() ==> conn.read_all(#[trigger] records.take(i), enqueue).0.is_news(
                records[i],
            ),
    ensures
        ({
            let (after, result) = conn.read_all(records, enqueue);
            &&& result is Ok
            &&& after.decrypted == conn.decrypted + Seq::new(
                records.len(),
                |i: int| data_in::<C>(conn.cipher->Some_0, records[i]),
            )
            &&& after.outgoing == conn.outgoing
            &&& after.cache == conn.cache
            &&& after.remote_epoch == conn.remote_epoch
            &&& after.completed == conn.completed
            &&& after.cipher == conn.cipher
        }),
    decreases records.len(),
{
    if records.len() == 0 {
        assert(conn.decrypted + Seq::new(
            records.len(),
            |i: int| data_in::<C>(conn.cipher->Some_0, records[i]),
        ) =~= conn.decrypted);
    } else {
        let first = records[0];
        let rest = records.drop_first();
        assert(records.take(0) =~= Seq::<Seq<u8>>::empty());
        assert(conn.is_news(first));
        let data = data_in::<C>(conn.cipher->Some_0, first);
        law_data_record_is_handed_on(conn, first, enqueue);
        let answered = conn.received(first, enqueue).0;
        assert forall|i: int| 0 <= i < rest.len() implies holds_data(
            answered,
            #[trigger] rest[i],
        ) by {
            assert(rest[i] == records[i + 1]);
            assert(holds_data(conn, records[i + 1]));
        }
        assert forall|i: int| 0 <= i < rest.len() implies answered.read_all(
            #[trigger] rest.take(i),
            enqueue,
        ).0.is_news(rest[i]) by {
            let longer = records.take(i + 1);
            assert(longer[0] == first);
            assert(longer.drop_first() =~= rest.take(i));
            assert(conn.read_all(longer, enqueue).0.is_news(records[i + 1]));
        }
        law_every_data_record_is_handed_on(answered, rest, enqueue);
        assert(conn.decrypted.push(data) + Seq::new(
            rest.len(),
            |i: int| data_in::<C>(conn.cipher->Some_0, rest[i]),
        ) =~= conn.decrypted + Seq::new(
            records.len(),
            |i: int| data_in::<C>(conn.cipher->Some_0, records[i]),
        ));
    }
}

/// A record that was taken in is not taken in again: when the same bytes come once more, nothing is
/// handed on, kept or answered.
pub proof fn law_replay_is_dropped<C: CipherSuite>(
    conn: ConnView<C>,
    pkt: Seq<u8>,
    enqueue: bool,
    again: bool,
)
    requires
        conn.valid(),
        conn.remote_epoch < u16::MAX,
        conn.received(pkt, enqueue).0.decrypted != conn.decrypted,
    ensures
        conn.received(pkt, enqueue).0.received(pkt, again) == (
            conn.received(pkt, enqueue).0,
            silence(),
        ),
{
    let h = RecordLayerHeader::read(pkt);
    let watched = conn.watched(h.epoch);
    let (after, reply) = conn.received(pkt, enqueue);
    assert(watched.detectors[h.epoch as int].valid());
    replay_detector::law_accepted_is_not_fresh(watched.detectors[h.epoch as int], h.sequence_number);
    assert(after.watched(h.epoch) == after);
}

/// Where a handshake message of so many bytes is cut.
pub open spec fn cuts(len: int, mtu: int) -> Seq<(int, int)> {
    Seq::new(parts(len, mtu) as nat, |i: int| (i * mtu, part_end(len, mtu, i)))
}

/// A handshake message that is cut to the limit is put together again: once each of its parts has
/// come, in whatever order and however often, the message is complete and is the one that was cut.
/// No part is longer than the limit.
pub proof fn law_cut_messages_are_rebuilt(
    epoch: u16,
    first: HandshakeHeader,
    message: Seq<u8>,
    mtu: int,
    arrived: Seq<(int, int)>,
)
    requires
        mtu > 0,
        first.length == message.len(),
        forall|k: int|
            0 <= k < arrived.len() ==> cuts(message.len() as int, mtu).contains(
                #[trigger] arrived[k],
            ),
        forall|k: int|
            0 <= k < cuts(message.len() as int, mtu).len() ==> arrived.contains(
                #[trigger] cuts(message.len() as int, mtu)[k],
            ),
    ensures
        ({
            let view = fragment_buffer::write_parts(
                fragment_buffer::MessageView::begun(epoch, first),
                message,
                arrived,
            );
            view.complete() && view.body == message
        }),
        forall|k: int|
            0 <= k < cuts(message.len() as int, mtu).len() ==> {
                let cut = #[trigger] cuts(message.len() as int, mtu)[k];
                0 <= cut.0 <= cut.1 <= message.len() && cut.1 - cut.0 <= mtu
            },
{
    let len = message.len() as int;
    let all = cuts(len, mtu);
    assert forall|k: int| 0 <= k < all.len() implies {
        let cut = #[trigger] all[k];
        0 <= cut.0 <= cut.1 <= len && cut.1 - cut.0 <= mtu
    } by {
        lemma_parts(len, mtu, k);
        assert(k * mtu >= 0) by (nonlinear_arith)
            requires
                k >= 0,
                mtu > 0,
        ;
        if len == 0 {
            assert(k * mtu == 0) by (nonlinear_arith)
                requires
                    k == 0,
            ;
        }
    }
    assert forall|k: int| 0 <= k < arrived.len() implies 0 <= (#[trigger] arrived[k]).0
        <= arrived[k].1 <= len by {
        let j = all.index_of(arrived[k]);
        assert(all[j] == arrived[k]);
    }
    assert forall|o: int| 0 <= o < len implies fragment_buffer::covered(arrived, o) by {
        let k = o / mtu;
        vstd::arithmetic::div_mod::lemma_fundamental_div_mod(o, mtu);
        vstd::arithmetic::div_mod::lemma_div_pos_is_pos(o, mtu);
        assert(k * mtu <= o < k * mtu + mtu) by (nonlinear_arith)
            requires
                o == mtu * k + o % mtu,
                0 <= o % mtu < mtu,
        ;
        lemma_parts(len, mtu, k);
        assert(all[k] == (k * mtu, part_end(len, mtu, k)));
        let j = arrived.index_of(all[k]);
        assert(arrived[j].0 <= o < arrived[j].1);
    }
    fragment_buffer::law_reassembles(epoch, first, message, arrived);
}

/// The first packets of what is sent: the messages that were kept stay, those that are new are
/// messages of these packets under this end's own role, and each of these packets is kept so, unless
/// a message with its number and this end's role is there.
#[verifier::spinoff_prover]
#[verifier::rlimit(30)]
proof fn lemma_plan_keeps<C: CipherSuite>(conn: ConnView<C>, n: nat)
    requires
        n <= conn.outgoing.len(),
    ensures
        ({
            let cache = conn.plan(n).cache;
            &&& conn.cache.len() <= cache.len()
            &&& cache.take(conn.cache.len() as int) == conn.cache
            &&& forall|i: int|
                conn.cache.len() <= i < cache.len() ==> exists|k: int|
                    0 <= k < n && is_kept_as(
                        #[trigger] conn.outgoing[k],
                        conn.is_client,
                        #[trigger] cache[i],
                    )
            &&& forall|k: int|
                0 <= k < n && (#[trigger] conn.outgoing[k]).content is Handshake ==> exists|i: int|
                    0 <= i < cache.len() && (#[trigger] cache[i]).is_client == conn.is_client
                        && cache[i].message_sequence
                        == conn.outgoing[k].content->Handshake_0.message_sequence
            &&& forall|k: int|
                0 <= k < n && conn.is_first_with_number(k) ==> exists|i: int|
                    0 <= i < cache.len() && is_kept_as(
                        #[trigger] conn.outgoing[k],
                        conn.is_client,
                        #[trigger] cache[i],
                    )
        }),
    decreases n,
{
    let cache = conn.plan(n).cache;
    if n == 0 {
        assert(cache.take(conn.cache.len() as int) =~= conn.cache);
    } else {
        let m = (n - 1) as nat;
        lemma_plan_keeps(conn, m);
        let before = conn.plan(m).cache;
        assert(before.len() <= cache.len() && cache.take(before.len() as int) =~= before);
        assert forall|i: int| 0 <= i < before.len() implies cache[i] == before[i] by {
            assert(cache.take(before.len() as int)[i] == cache[i]);
        }
        assert(cache.take(conn.cache.len() as int) =~= conn.cache) by {
            assert forall|i: int| 0 <= i < conn.cache.len() implies cache[i] == conn.cache[i] by {
                assert(before.take(conn.cache.len() as int)[i] == before[i]);
            }
        }
        let packet = conn.outgoing[m as int];
        assert forall|i: int| conn.cache.len() <= i < cache.len() implies exists|k: int|
            0 <= k < n && is_kept_as(
                #[trigger] conn.outgoing[k],
                conn.is_client,
                #[trigger] cache[i],
            ) by {
            if i < before.len() {
                let k = choose|k: int|
                    0 <= k < m && is_kept_as(
                        #[trigger] conn.outgoing[k],
                        conn.is_client,
                        before[i],
                    );
                assert(is_kept_as(conn.outgoing[k], conn.is_client, cache[i]));
            } else {
                assert(is_kept_as(conn.outgoing[m as int], conn.is_client, cache[i]));
            }
        }
        assert forall|k: int|
            0 <= k < n && (#[trigger] conn.outgoing[k]).content is Handshake implies exists|i: int|
            0 <= i < cache.len() && (#[trigger] cache[i]).is_client == conn.is_client
                && cache[i].message_sequence
                == conn.outgoing[k].content->Handshake_0.message_sequence by {
            let number = conn.outgoing[k].content->Handshake_0.message_sequence;
            if k < m {
                let i = choose|i: int|
                    0 <= i < before.len() && (#[trigger] before[i]).is_client == conn.is_client
                        && before[i].message_sequence == number;
                assert(cache[i] == before[i]);
            } else if handshake_cache::is_cached(before, number, conn.is_client) {
                let i = choose|i: int|
                    0 <= i < before.len() && (#[trigger] before[i]).message_sequence == number
                        && before[i].is_client == conn.is_client;
                assert(cache[i] == before[i]);
            } else {
                assert(cache[before.len() as int].message_sequence == number);
            }
        }
        assert forall|k: int| 0 <= k < n && conn.is_first_with_number(k) implies exists|i: int|
            0 <= i < cache.len() && is_kept_as(
                #[trigger] conn.outgoing[k],
                conn.is_client,
                #[trigger] cache[i],
            ) by {
            if k < m {
                let i = choose|i: int|
                    0 <= i < before.len() && is_kept_as(
                        conn.outgoing[k],
                        conn.is_client,
                        #[trigger] before[i],
                    );
                assert(is_kept_as(conn.outgoing[k], conn.is_client, cache[i]));
            } else {
                let number = packet.content->Handshake_0.message_sequence;
                if handshake_cache::is_cached(before, number, conn.is_client) {
                    let i = choose|i: int|
                        0 <= i < before.len() && (#[trigger] before[i]).message_sequence == number
                            && before[i].is_client == conn.is_client;
                    if i < conn.cache.len() {
                        assert(before.take(conn.cache.len() as int)[i] == conn.cache[i]);
                    } else {
                        let j = choose|j: int|
                            0 <= j < m && is_kept_as(
                                #[trigger] conn.outgoing[j],
                                conn.is_client,
                                before[i],
                            );
                        assert(conn.outgoing[j].content is Handshake);
                    }
                }
                assert(is_kept_as(
                    conn.outgoing[k],
                    conn.is_client,
                    cache[before.len() as int],
                ));
            }
        }
    }
}

/// Whether what is kept is a handshake message that was sent by the end with this role.
pub open spec fn is_kept_as(packet: PacketView, is_client: bool, item: CachedView) -> bool {
    &&& packet.content matches ContentView::Handshake(h, body)
    &&& item.typ == h.handshake_type
    &&& item.message_sequence == h.message_sequence
    &&& item.epoch == packet.header.epoch
    &&& item.is_client == is_client
    &&& item.data == h.bytes() + body
}

impl<C: CipherSuite> ConnView<C> {
    /// Whether packet `k` to send is a handshake message, and no message with its number was kept
    /// for this end's role or is to be sent before it.
    pub open spec fn is_first_with_number(self, k: int) -> bool {
        &&& self.outgoing[k].content matches ContentView::Handshake(h, _)
        &&& forall|i: int|
            0 <= i < self.cache.len() ==> !((#[trigger] self.cache[i]).message_sequence
                == h.message_sequence && self.cache[i].is_client == self.is_client)
        &&& forall|j: int|
            0 <= j < k ==> ((#[trigger] self.outgoing[j]).content matches ContentView::Handshake(
                other,
                _,
            ) ==> other.message_sequence != h.message_sequence)
    }
}

/// The handshake messages that an end sends are kept under that end's own role, be it the client or
/// the server: each one with a new number is there with its type, number, epoch and bytes. What was
/// kept before stays in front, and nothing else is kept.
pub proof fn law_sent_messages_are_kept<C: CipherSuite>(conn: ConnView<C>, raws: Seq<Seq<u8>>)
    ensures
        ({
            let cache = conn.sent(raws).cache;
            &&& conn.cache.len() <= cache.len()
            &&& cache.take(conn.cache.len() as int) == conn.cache
            &&& forall|i: int|
                conn.cache.len() <= i < cache.len() ==> exists|k: int|
                    0 <= k < conn.outgoing.len() && is_kept_as(
                        #[trigger] conn.outgoing[k],
                        conn.is_client,
                        #[trigger] cache[i],
                    )
            &&& forall|k: int|
                0 <= k < conn.outgoing.len() && conn.is_first_with_number(k) ==> exists|i: int|
                    0 <= i < cache.len() && is_kept_as(
                        #[trigger] conn.outgoing[k],
                        conn.is_client,
                        #[trigger] cache[i],
                    )
        }),
{
    lemma_plan_keeps(conn, conn.outgoing.len());
    assert(conn.sent(raws).cache == conn.plan(conn.outgoing.len()).cache);
}

/// What a record of a handshake message opens to at the other end.
spec fn opened_part(plain: Plain, raw: Seq<u8>) -> Seq<u8> {
    if plain.header.epoch == 0 {
        raw
    } else {
        raw.take(13) + plain.bytes.skip(13)
    }
}

/// A handshake message that is sent whole.
pub open spec fn is_whole(packet: PacketView, h: HandshakeHeader, body: Seq<u8>) -> bool {
    &&& packet.content == ContentView::Handshake(h, body)
    &&& packet.header.content_type == ContentType::Handshake
    &&& packet.should_encrypt == (packet.header.epoch > 0)
    &&& h.handshake_type != HandshakeType::Invalid
    &&& h.length == body.len() <= fragment_buffer::FRAGMENT_BUFFER_MAX_MESSAGE_LENGTH
    &&& h.fragment_offset == 0
    &&& h.fragment_length == h.length
}

/// Where a cut of a message begins and ends.
proof fn lemma_cut_bounds(len: int, mtu: int, i: int)
    requires
        len >= 0,
        mtu > 0,
        0 <= i < parts(len, mtu),
    ensures
        0 <= i * mtu <= part_end(len, mtu, i) <= len,
{
    let offset = i * mtu;
    lemma_parts(len, mtu, i);
    assert(offset >= 0) by (nonlinear_arith)
        requires
            offset == i * mtu,
            i >= 0,
            mtu > 0,
    ;
    if len == 0 {
        assert(offset == 0) by (nonlinear_arith)
            requires
                offset == i * mtu,
                i == 0,
        ;
    }
}

/// Bytes that hold one part of a message and nothing else are read as that part.
#[verifier::spinoff_prover]
proof fn lemma_one_fragment(part: HandshakeHeader, payload: Seq<u8>)
    requires
        part.handshake_type != HandshakeType::Invalid,
        part.fragment_length == payload.len(),
        part.fragment_offset + part.fragment_length <= part.length <= 0xff_ffff,
    ensures
        fragment_buffer::fragments(content::part_bytes(part, payload)) == Ok::<
            Seq<fragment_buffer::Fragment>,
            Error,
        >(seq![fragment_buffer::Fragment { header: part, payload }]),
{
    reveal(content::part_bytes);
    let inner = part.bytes() + payload;
    record::law_handshake_header_round_trip(part, payload);
    let fragment = fragment_buffer::Fragment { header: part, payload };
    let end = 12 + part.fragment_length;
    assert(inner.len() == end);
    assert(inner.subrange(12, end) =~= payload);
    assert(inner.subrange(end, end) =~= Seq::<u8>::empty());
    reveal_with_fuel(fragment_buffer::fragments, 2);
    assert(seq![fragment] + Seq::<fragment_buffer::Fragment>::empty() =~= seq![fragment]);
}

/// A record's bytes give back its header and what it holds.
#[verifier::spinoff_prover]
proof fn lemma_record_bytes(header: RecordLayerHeader, inner: Seq<u8>)
    requires
        header.sequence_number <= MAX_SEQUENCE_NUMBER,
        header.content_type != ContentType::Invalid,
    ensures
        content::record_bytes(header, inner).len() == 13 + inner.len(),
        content::record_bytes(header, inner).skip(13) == inner,
        content::record_bytes(header, inner).take(11) == header.bytes().take(11),
        RecordLayerHeader::read(content::record_bytes(header, inner)) == header,
{
    reveal(content::record_bytes);
    record::law_record_header_round_trip(header, inner);
    let bytes = header.bytes() + inner;
    assert(bytes.skip(13) =~= inner);
    assert(bytes.take(11) =~= header.bytes().take(11));
}

/// What an encoded record says of itself, and what the other end reads in it.
#[verifier::spinoff_prover]
proof fn lemma_encoded_opens<C: CipherSuite>(
    cipher: Option<C::Keys>,
    plain: Plain,
    inner: Seq<u8>,
    raw: Seq<u8>,
)
    requires
        plain.bytes == content::record_bytes(plain.header, inner),
        plain.header.sequence_number <= MAX_SEQUENCE_NUMBER,
        plain.header.content_type == ContentType::Handshake,
        plain.encrypt == (plain.header.epoch > 0),
        plain.header.epoch > 0 ==> cipher is Some,
        encoded::<C>(cipher, plain, Ok::<Seq<u8>, Error>(raw)),
    ensures
        ({
            let opened = opened_part(plain, raw);
            let head = RecordLayerHeader::read(raw);
            &&& raw.len() >= 13
            &&& head.epoch == plain.header.epoch
            &&& head.sequence_number == plain.header.sequence_number
            &&& plain.header.epoch > 0 ==> C::opened(C::mirrored(cipher->Some_0), raw) == Ok::<
                Seq<u8>,
                Error,
            >(opened)
            &&& opened.len() >= 13
            &&& opened.subrange(13, opened.len() as int) == inner
            &&& RecordLayerHeader::read(opened).content_type == ContentType::Handshake
            &&& RecordLayerHeader::read(opened).epoch == plain.header.epoch
        }),
{
    lemma_record_bytes(plain.header, inner);
    let opened = opened_part(plain, raw);
    assert(raw.len() >= 13 && raw.take(11) == plain.bytes.take(11));
    lemma_same_header(raw, plain.bytes);
    assert(opened.take(11) =~= raw.take(11));
    lemma_same_header(opened, raw);
    assert(opened.skip(13) =~= inner);
    assert(opened.subrange(13, opened.len() as int) =~= opened.skip(13));
}

/// The other end finds in a record the part of the message that it was made of.
#[verifier::spinoff_prover]
proof fn lemma_part_opens<C: CipherSuite>(
    cipher: Option<C::Keys>,
    packet: PacketView,
    h: HandshakeHeader,
    body: Seq<u8>,
    mtu: int,
    number: int,
    i: int,
    raw: Seq<u8>,
)
    requires
        is_whole(packet, h, body),
        mtu > 0,
        0 <= number,
        0 <= i < parts(body.len() as int, mtu),
        number + i <= MAX_SEQUENCE_NUMBER,
        packet.header.epoch > 0 ==> cipher is Some,
        encoded::<C>(
            cipher,
            records_of(packet, mtu, number)[i],
            Ok::<Seq<u8>, Error>(raw),
        ),
    ensures
        ({
            let plain = records_of(packet, mtu, number)[i];
            let opened = opened_part(plain, raw);
            let head = RecordLayerHeader::read(raw);
            &&& raw.len() >= 13
            &&& head.epoch == packet.header.epoch
            &&& head.sequence_number == number + i
            &&& plain.header.epoch == packet.header.epoch
            &&& packet.header.epoch > 0 ==> C::opened(C::mirrored(cipher->Some_0), raw) == Ok::<
                Seq<u8>,
                Error,
            >(opened)
            &&& fragment_buffer::carries(opened, packet.header.epoch, h, body)
            &&& fragment_buffer::fragments_of(opened) matches Ok(held)
            &&& fragment_buffer::spans(held) == seq![cuts(body.len() as int, mtu)[i]]
        }),
{
    let len = body.len() as int;
    let plain = records_of(packet, mtu, number)[i];
    let offset = i * mtu;
    let end = part_end(len, mtu, i);
    lemma_cut_bounds(len, mtu, i);
    assert(plain == part_record(packet, offset, end, number + i));
    let part = HandshakeHeader {
        fragment_offset: offset as u32,
        fragment_length: (end - offset) as u32,
        ..h
    };
    let payload = body.subrange(offset, end);
    lemma_encoded_opens::<C>(cipher, plain, content::part_bytes(part, payload), raw);
    lemma_one_fragment(part, payload);
    let opened = opened_part(plain, raw);
    let fragment = fragment_buffer::Fragment { header: part, payload };
    assert(fragment_buffer::fragments_of(opened) == Ok::<
        Seq<fragment_buffer::Fragment>,
        Error,
    >(seq![fragment]));
    assert(fragment_buffer::is_part(fragment, h, body));
    assert(fragment_buffer::spans(seq![fragment]) =~= seq![cuts(len, mtu)[i]]);
}

/// The parts that the first records of a message hold are its first cuts.
proof fn lemma_arrived(opens: Seq<Seq<u8>>, len: int, mtu: int, j: int)
    requires
        0 <= j <= opens.len(),
        opens.len() == parts(len, mtu),
        mtu > 0,
        len >= 0,
        forall|i: int|
            0 <= i < opens.len() ==> fragment_buffer::spans(
                (fragment_buffer::fragments_of(#[trigger] opens[i])->Ok_0),
            ) == seq![cuts(len, mtu)[i]],
    ensures
        fragment_buffer::arrived(opens.take(j)) == cuts(len, mtu).take(j),
    decreases j,
{
    if j == 0 {
        assert(fragment_buffer::arrived(opens.take(0)) =~= cuts(len, mtu).take(0));
    } else {
        lemma_arrived(opens, len, mtu, j - 1);
        assert(opens.take(j).drop_last() =~= opens.take(j - 1));
        assert(opens.take(j).last() == opens[j - 1]);
        assert(cuts(len, mtu).take(j) =~= cuts(len, mtu).take(j - 1) + seq![cuts(len, mtu)[j - 1]]);
    }
}

/// The first cuts of a message cover it exactly where they are all of them.
proof fn lemma_cuts_cover(len: int, mtu: int, j: int)
    requires
        len >= 0,
        mtu > 0,
        1 <= j <= parts(len, mtu),
    ensures
        (forall|o: int| 0 <= o < len ==> fragment_buffer::covered(cuts(len, mtu).take(j), o))
            <==> j == parts(len, mtu),
{
    let all = cuts(len, mtu);
    if j == parts(len, mtu) {
        assert(all.take(j) =~= all);
        assert forall|o: int| 0 <= o < len implies fragment_buffer::covered(all, o) by {
            let k = o / mtu;
            vstd::arithmetic::div_mod::lemma_fundamental_div_mod(o, mtu);
            vstd::arithmetic::div_mod::lemma_div_pos_is_pos(o, mtu);
            assert(k * mtu <= o < k * mtu + mtu) by (nonlinear_arith)
                requires
                    o == mtu * k + o % mtu,
                    0 <= o % mtu < mtu,
            ;
            lemma_parts(len, mtu, k);
            assert(all[k].0 <= o < all[k].1);
        }
    } else {
        let o = j * mtu;
        lemma_parts(len, mtu, j);
        assert(o >= 0) by (nonlinear_arith)
            requires
                o == j * mtu,
                j >= 0,
                mtu > 0,
        ;
        assert(len > 0);
        assert(!fragment_buffer::covered(all.take(j), o)) by {
            assert forall|k: int| 0 <= k < all.take(j).len() implies !((#[trigger] all.take(j)[k]).0
                <= o < all.take(j)[k].1) by {
                assert(k * mtu + mtu <= j * mtu) by (nonlinear_arith)
                    requires
                        k + 1 <= j,
                        mtu > 0,
                ;
                assert(all.take(j)[k] == (k * mtu, part_end(len, mtu, k)));
            }
        }
    }
}

/// Records that are parts of one message: what the first of them come to is taken in, and nothing is
/// drained until the last one has come. Then the message is kept.
#[verifier::spinoff_prover]
proof fn lemma_parts_drain(
    packet: PacketView,
    h: HandshakeHeader,
    body: Seq<u8>,
    mtu: int,
    opens: Seq<Seq<u8>>,
    start: BufferView,
    cache: Cached,
    is_client: bool,
    i: int,
)
    requires
        is_whole(packet, h, body),
        mtu > 0,
        opens.len() == parts(body.len() as int, mtu),
        forall|j: int|
            0 <= j < opens.len() ==> fragment_buffer::carries(
                #[trigger] opens[j],
                packet.header.epoch,
                h,
                body,
            ) && fragment_buffer::spans(fragment_buffer::fragments_of(opens[j])->Ok_0) == seq![
                cuts(body.len() as int, mtu)[j],
            ],
        start.messages == Map::<u16, fragment_buffer::MessageView>::empty(),
        start.current == h.message_sequence,
        0 <= i < opens.len(),
    ensures
        ({
            let before = fragment_buffer::after_pushes(start, opens.take(i));
            let pushed = fragment_buffer::after_pushes(start, opens.take(i + 1));
            let (fragments, kept_now) = drained(pushed, cache, is_client);
            &&& before.push(opens[i]) == (pushed, Ok::<bool, Error>(true))
            &&& i + 1 < opens.len() ==> (fragments, kept_now) == (pushed, cache)
            &&& i + 1 == opens.len() ==> {
                &&& fragments.messages == Map::<u16, fragment_buffer::MessageView>::empty()
                &&& fragments.current == h.message_sequence.wrapping_add(1)
                &&& kept_now == handshake_cache::with_item(
                    cache,
                    CachedView {
                        typ: h.handshake_type,
                        is_client: !is_client,
                        epoch: packet.header.epoch,
                        message_sequence: h.message_sequence,
                        data: h.bytes() + body,
                    },
                )
            }
        }),
{
    let len = body.len() as int;
    let epoch = packet.header.epoch;
    let sofar = opens.take(i + 1);
    assert(sofar.drop_last() =~= opens.take(i));
    assert(sofar.last() == opens[i]);
    assert forall|j: int| 0 <= j < sofar.len() implies fragment_buffer::carries(
        #[trigger] sofar[j],
        epoch,
        h,
        body,
    ) by {
        assert(sofar[j] == opens[j]);
    }
    lemma_arrived(opens, len, mtu, i + 1);
    lemma_cuts_cover(len, mtu, i + 1);
    fragment_buffer::law_pushed_parts_pop_as_the_message(start, epoch, h, body, sofar);
    fragment_buffer::lemma_pushed_finite(start, epoch, h, body, sofar);
    let pushed = fragment_buffer::after_pushes(start, sofar);
    if i + 1 < opens.len() {
        assert(!pushed.ready());
    } else {
        assert(pushed.ready());
        let message = pushed.messages[pushed.current];
        let whole = h.bytes() + body;
        assert(message.header().bytes() + message.body == whole);
        record::law_handshake_header_round_trip(h, body);
        assert(HandshakeHeader::read(whole) == h);
        assert(!pushed.popped().ready());
        reveal_with_fuel(drained, 2);
    }
}

/// One record of the message comes.
#[verifier::spinoff_prover]
proof fn lemma_part_arrives<C: CipherSuite>(
    cipher: Option<C::Keys>,
    packet: PacketView,
    h: HandshakeHeader,
    body: Seq<u8>,
    mtu: int,
    number: int,
    raws: Seq<Seq<u8>>,
    opens: Seq<Seq<u8>>,
    start: BufferView,
    receiver: ConnView<C>,
    enqueue: bool,
    i: int,
    limit: int,
)
    requires
        is_whole(packet, h, body),
        mtu > 0,
        0 <= number,
        number + parts(body.len() as int, mtu) <= MAX_SEQUENCE_NUMBER + 1,
        packet.header.epoch > 0 ==> cipher is Some && receiver.cipher == Some(
            C::mirrored(cipher->Some_0),
        ) && receiver.ready(),
        all_encoded::<C>(cipher, records_of(packet, mtu, number), raws),
        opens.len() == raws.len(),
        forall|j: int|
            0 <= j < opens.len() ==> #[trigger] opens[j] == opened_part(
                records_of(packet, mtu, number)[j],
                raws[j],
            ),
        start.messages == Map::<u16, fragment_buffer::MessageView>::empty(),
        start.current == h.message_sequence,
        0 <= i < raws.len(),
        receiver.fragments == fragment_buffer::after_pushes(start, opens.take(i)),
        packet.header.epoch <= receiver.remote_epoch,
        forall|n: int|
            number + i <= n < limit ==> receiver.watched(
                packet.header.epoch,
            ).detectors[packet.header.epoch as int].fresh(#[trigger] (n as u64)),
        number + raws.len() <= limit <= MAX_SEQUENCE_NUMBER + 1,
    ensures
        ({
            let (after, reply) = receiver.received(raws[i], enqueue);
            let (answered, error) = after.answered(reply);
            let pushed = fragment_buffer::after_pushes(start, opens.take(i + 1));
            let (fragments, cache) = drained(pushed, receiver.cache, receiver.is_client);
            &&& error is None
            &&& reply.fault is None
            &&& answered == (ConnView {
                fragments,
                cache,
                detectors: answered.detectors,
                handshake_rx: true,
                ..receiver
            })
            &&& forall|n: int|
                number + i + 1 <= n < limit ==> answered.watched(
                    packet.header.epoch,
                ).detectors[packet.header.epoch as int].fresh(#[trigger] (n as u64))
        }),
{
    let epoch = packet.header.epoch;
    let records = records_of(packet, mtu, number);
    lemma_all_open::<C>(cipher, packet, h, body, mtu, number, raws, opens);
    assert(encoded::<C>(cipher, records[i], Ok::<Seq<u8>, Error>(raws[i])));
    lemma_part_opens::<C>(cipher, packet, h, body, mtu, number, i, raws[i]);
    lemma_parts_drain(
        packet,
        h,
        body,
        mtu,
        opens,
        start,
        receiver.cache,
        receiver.is_client,
        i,
    );
    let raw = raws[i];
    let plain = opens[i];
    let head = RecordLayerHeader::read(raw);
    let pushed = fragment_buffer::after_pushes(start, opens.take(i + 1));
    let watched = receiver.watched(epoch);
    assert(watched.detectors[epoch as int].fresh((number + i) as u64));
    let (after, reply) = receiver.received(raw, enqueue);
    assert((after, reply) == watched.opened(head, plain, enqueue));
    let answered = after.answered(reply).0;
    assert forall|n: int| number + i + 1 <= n < limit implies answered.watched(
        epoch,
    ).detectors[epoch as int].fresh(#[trigger] (n as u64)) by {
        let before = watched.detectors[epoch as int];
        assert(before.fresh(n as u64));
        assert(answered.watched(epoch).detectors[epoch as int] == before.accept(
            (number + i) as u64,
        ));
    }
}

/// Every record of a message opens to the part that it was made of.
proof fn lemma_all_open<C: CipherSuite>(
    cipher: Option<C::Keys>,
    packet: PacketView,
    h: HandshakeHeader,
    body: Seq<u8>,
    mtu: int,
    number: int,
    raws: Seq<Seq<u8>>,
    opens: Seq<Seq<u8>>,
)
    requires
        is_whole(packet, h, body),
        mtu > 0,
        0 <= number,
        number + parts(body.len() as int, mtu) <= MAX_SEQUENCE_NUMBER + 1,
        packet.header.epoch > 0 ==> cipher is Some,
        all_encoded::<C>(cipher, records_of(packet, mtu, number), raws),
        opens.len() == raws.len(),
        forall|j: int|
            0 <= j < opens.len() ==> #[trigger] opens[j] == opened_part(
                records_of(packet, mtu, number)[j],
                raws[j],
            ),
    ensures
        opens.len() == parts(body.len() as int, mtu),
        forall|j: int|
            0 <= j < opens.len() ==> fragment_buffer::carries(
                #[trigger] opens[j],
                packet.header.epoch,
                h,
                body,
            ) && fragment_buffer::spans(fragment_buffer::fragments_of(opens[j])->Ok_0) == seq![
                cuts(body.len() as int, mtu)[j],
            ],
{
    let records = records_of(packet, mtu, number);
    lemma_parts(body.len() as int, mtu, 0);
    assert forall|j: int| 0 <= j < opens.len() implies fragment_buffer::carries(
        #[trigger] opens[j],
        packet.header.epoch,
        h,
        body,
    ) && fragment_buffer::spans(fragment_buffer::fragments_of(opens[j])->Ok_0) == seq![
        cuts(body.len() as int, mtu)[j],
    ] by {
        assert(encoded::<C>(cipher, records[j], Ok::<Seq<u8>, Error>(raws[j])));
        lemma_part_opens::<C>(cipher, packet, h, body, mtu, number, j, raws[j]);
    }
}

/// Where record `i` and those after it are still to come, the other end keeps the message once they
/// have.
#[verifier::spinoff_prover]
#[verifier::rlimit(40)]
proof fn lemma_rest_arrives<C: CipherSuite>(
    cipher: Option<C::Keys>,
    packet: PacketView,
    h: HandshakeHeader,
    body: Seq<u8>,
    mtu: int,
    number: int,
    raws: Seq<Seq<u8>>,
    opens: Seq<Seq<u8>>,
    start: BufferView,
    receiver: ConnView<C>,
    enqueue: bool,
    i: int,
    limit: int,
)
    requires
        is_whole(packet, h, body),
        mtu > 0,
        0 <= number,
        number + parts(body.len() as int, mtu) <= MAX_SEQUENCE_NUMBER + 1,
        packet.header.epoch > 0 ==> cipher is Some && receiver.cipher == Some(
            C::mirrored(cipher->Some_0),
        ) && receiver.ready(),
        all_encoded::<C>(cipher, records_of(packet, mtu, number), raws),
        opens.len() == raws.len(),
        forall|j: int|
            0 <= j < opens.len() ==> #[trigger] opens[j] == opened_part(
                records_of(packet, mtu, number)[j],
                raws[j],
            ),
        start.messages == Map::<u16, fragment_buffer::MessageView>::empty(),
        start.current == h.message_sequence,
        0 <= i < raws.len(),
        receiver.fragments == fragment_buffer::after_pushes(start, opens.take(i)),
        packet.header.epoch <= receiver.remote_epoch,
        forall|n: int|
            number + i <= n < limit ==> receiver.watched(
                packet.header.epoch,
            ).detectors[packet.header.epoch as int].fresh(#[trigger] (n as u64)),
        number + raws.len() <= limit <= MAX_SEQUENCE_NUMBER + 1,
    ensures
        ({
            let (after, result) = receiver.read_all(raws.skip(i), enqueue);
            &&& result is Ok
            &&& after.cache == handshake_cache::with_item(
                receiver.cache,
                CachedView {
                    typ: h.handshake_type,
                    is_client: !receiver.is_client,
                    epoch: packet.header.epoch,
                    message_sequence: h.message_sequence,
                    data: h.bytes() + body,
                },
            )
            &&& after.decrypted == receiver.decrypted
            &&& after.fragments.messages == Map::<u16, fragment_buffer::MessageView>::empty()
            &&& after.fragments.current == h.message_sequence.wrapping_add(1)
            &&& after == (ConnView {
                cache: after.cache,
                fragments: after.fragments,
                detectors: after.detectors,
                handshake_rx: true,
                ..receiver
            })
            &&& forall|n: int|
                number + raws.len() <= n < limit ==> after.watched(
                    packet.header.epoch,
                ).detectors[packet.header.epoch as int].fresh(#[trigger] (n as u64))
        }),
    decreases raws.len() - i,
{
    lemma_part_arrives(
        cipher,
        packet,
        h,
        body,
        mtu,
        number,
        raws,
        opens,
        start,
        receiver,
        enqueue,
        i,
        limit,
    );
    lemma_all_open::<C>(cipher, packet, h, body, mtu, number, raws, opens);
    lemma_parts_drain(
        packet,
        h,
        body,
        mtu,
        opens,
        start,
        receiver.cache,
        receiver.is_client,
        i,
    );
    let (after, reply) = receiver.received(raws[i], enqueue);
    let answered = after.answered(reply).0;
    assert(raws.skip(i)[0] == raws[i]);
    assert(raws.skip(i).drop_first() =~= raws.skip(i + 1));
    if i + 1 < raws.len() {
        lemma_rest_arrives(
            cipher,
            packet,
            h,
            body,
            mtu,
            number,
            raws,
            opens,
            start,
            answered,
            enqueue,
            i + 1,
            limit,
        );
    } else {
        assert(raws.skip(i + 1) =~= Seq::<Seq<u8>>::empty());
    }
}

/// A handshake message arrives: once its records have come, the other end keeps it under the role
/// that it has not, and is ready for the next message and the next records.
pub proof fn lemma_message_arrives<C: CipherSuite>(
    cipher: Option<C::Keys>,
    packet: PacketView,
    h: HandshakeHeader,
    body: Seq<u8>,
    mtu: int,
    number: int,
    raws: Seq<Seq<u8>>,
    receiver: ConnView<C>,
    enqueue: bool,
    limit: int,
)
    requires
        is_whole(packet, h, body),
        mtu > 0,
        0 <= number,
        number + parts(body.len() as int, mtu) <= limit <= MAX_SEQUENCE_NUMBER + 1,
        packet.header.epoch > 0 ==> cipher is Some && receiver.cipher == Some(
            C::mirrored(cipher->Some_0),
        ) && receiver.ready(),
        all_encoded::<C>(cipher, records_of(packet, mtu, number), raws),
        receiver.fragments.messages == Map::<u16, fragment_buffer::MessageView>::empty(),
        receiver.fragments.current == h.message_sequence,
        packet.header.epoch <= receiver.remote_epoch,
        forall|n: int|
            number <= n < limit ==> receiver.watched(
                packet.header.epoch,
            ).detectors[packet.header.epoch as int].fresh(#[trigger] (n as u64)),
    ensures
        ({
            let (after, result) = receiver.read_all(raws, enqueue);
            &&& result is Ok
            &&& after.cache == handshake_cache::with_item(
                receiver.cache,
                CachedView {
                    typ: h.handshake_type,
                    is_client: !receiver.is_client,
                    epoch: packet.header.epoch,
                    message_sequence: h.message_sequence,
                    data: h.bytes() + body,
                },
            )
            &&& after.fragments.messages == Map::<u16, fragment_buffer::MessageView>::empty()
            &&& after.fragments.current == h.message_sequence.wrapping_add(1)
            &&& after == (ConnView {
                cache: after.cache,
                fragments: after.fragments,
                detectors: after.detectors,
                handshake_rx: true,
                ..receiver
            })
            &&& forall|n: int|
                number + raws.len() <= n < limit ==> after.watched(
                    packet.header.epoch,
                ).detectors[packet.header.epoch as int].fresh(#[trigger] (n as u64))
        }),
{
    let records = records_of(packet, mtu, number);
    lemma_parts(body.len() as int, mtu, 0);
    let opens = Seq::new(raws.len(), |j: int| opened_part(records[j], raws[j]));
    assert(opens.take(0) =~= Seq::<Seq<u8>>::empty());
    assert(raws.skip(0) =~= raws);
    lemma_rest_arrives(
        cipher,
        packet,
        h,
        body,
        mtu,
        number,
        raws,
        opens,
        receiver.fragments,
        receiver,
        enqueue,
        0,
        limit,
    );
}

/// Both ends keep the same: a handshake message that one end sends is kept there, and at the other
/// end once its records have come, as the same item, with the role of the end that sent it. This
/// holds for the client as for the server, however the message is cut, and whether or not it is
/// encrypted.
pub proof fn law_both_ends_keep_the_same<C: CipherSuite>(
    sender: ConnView<C>,
    h: HandshakeHeader,
    body: Seq<u8>,
    raws: Seq<Seq<u8>>,
    receiver: ConnView<C>,
    enqueue: bool,
)
    requires
        sender.outgoing.len() == 1,
        is_whole(sender.outgoing[0], h, body),
        sender.config.maximum_transmission_unit > 0,
        ({
            let epoch = sender.outgoing[0].header.epoch;
            let number = counted(sender.sequences, epoch)[epoch as int] as int;
            let count = parts(body.len() as int, sender.config.maximum_transmission_unit as int);
            &&& number + count <= MAX_SEQUENCE_NUMBER + 1
            &&& epoch > 0 ==> sender.cipher is Some && receiver.cipher == Some(
                C::mirrored(sender.cipher->Some_0),
            ) && receiver.ready()
            &&& epoch <= receiver.remote_epoch
            &&& forall|n: int|
                number <= n < number + count ==> receiver.watched(
                    epoch,
                ).detectors[epoch as int].fresh(#[trigger] (n as u64))
        }),
        all_encoded::<C>(sender.cipher, sender.plan(1).plains, raws),
        receiver.is_client == !sender.is_client,
        receiver.fragments.messages == Map::<u16, fragment_buffer::MessageView>::empty(),
        receiver.fragments.current == h.message_sequence,
        !handshake_cache::is_cached(sender.cache, h.message_sequence, sender.is_client),
        !handshake_cache::is_cached(receiver.cache, h.message_sequence, sender.is_client),
    ensures
        ({
            let item = CachedView {
                typ: h.handshake_type,
                is_client: sender.is_client,
                epoch: sender.outgoing[0].header.epoch,
                message_sequence: h.message_sequence,
                data: h.bytes() + body,
            };
            &&& sender.sent(raws).cache == sender.cache.push(item)
            &&& receiver.read_all(raws, enqueue).1 is Ok
            &&& receiver.read_all(raws, enqueue).0.cache == receiver.cache.push(item)
        }),
{
    let packet = sender.outgoing[0];
    let epoch = packet.header.epoch;
    let mtu = sender.config.maximum_transmission_unit as int;
    let number = counted(sender.sequences, epoch)[epoch as int] as int;
    reveal_with_fuel(ConnView::plan, 2);
    let records = records_of(packet, mtu, number);
    assert(sender.plan(1).plains =~= records);
    lemma_message_arrives(
        sender.cipher,
        packet,
        h,
        body,
        mtu,
        number,
        raws,
        receiver,
        enqueue,
        number + parts(body.len() as int, mtu),
    );
}

/// How many of the first `n` records are of an epoch.
pub open spec fn earlier(plains: Seq<Plain>, epoch: u16, n: int) -> int
    decreases n,
{
    if n <= 0 {
        0
    } else if plains[n - 1].header.epoch == epoch {
        earlier(plains, epoch, n - 1) + 1
    } else {
        earlier(plains, epoch, n - 1)
    }
}

/// The number of the next record of an epoch: 0 where none was sent.
pub open spec fn next_number(sequences: Seq<u64>, epoch: u16) -> int {
    if epoch < sequences.len() {
        sequences[epoch as int] as int
    } else {
        0
    }
}

/// Records that stand before others are counted in the same way.
proof fn lemma_earlier_of_longer(plains: Seq<Plain>, more: Seq<Plain>, epoch: u16, n: int)
    requires
        0 <= n <= plains.len(),
    ensures
        earlier(plains + more, epoch, n) == earlier(plains, epoch, n),
        0 <= earlier(plains, epoch, n) <= n,
    decreases n,
{
    if n > 0 {
        lemma_earlier_of_longer(plains, more, epoch, n - 1);
        assert((plains + more)[n - 1] == plains[n - 1]);
    }
}

/// Records of one epoch that follow are all counted for it, and not for another one.
proof fn lemma_earlier_of_packet(
    plains: Seq<Plain>,
    more: Seq<Plain>,
    of: u16,
    epoch: u16,
    n: int,
)
    requires
        0 <= n <= more.len(),
        forall|i: int| 0 <= i < more.len() ==> (#[trigger] more[i]).header.epoch == of,
    ensures
        earlier(plains + more, epoch, plains.len() + n) == earlier(
            plains,
            epoch,
            plains.len() as int,
        ) + if of == epoch {
            n
        } else {
            0
        },
    decreases n,
{
    if n == 0 {
        lemma_earlier_of_longer(plains, more, epoch, plains.len() as int);
    } else {
        lemma_earlier_of_packet(plains, more, of, epoch, n - 1);
        assert((plains + more)[plains.len() + n - 1] == more[n - 1]);
    }
}

/// The records of the first packets, and the numbers after them.
proof fn lemma_numbered<C: CipherSuite>(conn: ConnView<C>, k: nat)
    requires
        k <= conn.outgoing.len(),
        conn.config.maximum_transmission_unit > 0,
        forall|epoch: u16|
            #![trigger next_number(conn.sequences, epoch)]
            next_number(conn.sequences, epoch) + conn.plan(k).plains.len() < u64::MAX,
    ensures
        ({
            let plan = conn.plan(k);
            &&& forall|j: int|
                0 <= j < plan.plains.len() ==> (#[trigger] plan.plains[j]).header.sequence_number
                    == next_number(conn.sequences, plan.plains[j].header.epoch) + earlier(
                    plan.plains,
                    plan.plains[j].header.epoch,
                    j,
                )
            &&& forall|epoch: u16| #[trigger]
                next_number(plan.sequences, epoch) == next_number(conn.sequences, epoch) + earlier(
                    plan.plains,
                    epoch,
                    plan.plains.len() as int,
                )
        }),
    decreases k,
{
    if k > 0 {
        let m = (k - 1) as nat;
        let before = conn.plan(m);
        let plan = conn.plan(k);
        let packet = conn.outgoing[m as int];
        let of = packet.header.epoch;
        let number = counted(before.sequences, of)[of as int] as int;
        let mtu = conn.config.maximum_transmission_unit as int;
        let records = records_of(packet, mtu, number);
        assert(plan.plains == before.plains + records);
        assert forall|epoch: u16|
            #![trigger next_number(conn.sequences, epoch)]
            next_number(conn.sequences, epoch) + before.plains.len() < u64::MAX by {
            assert(next_number(conn.sequences, epoch) + plan.plains.len() < u64::MAX);
        }
        lemma_numbered(conn, m);
        assert(number == next_number(before.sequences, of));
        lemma_earlier_of_longer(before.plains, records, of, before.plains.len() as int);
        assert(next_number(conn.sequences, of) + plan.plains.len() < u64::MAX);
        assert forall|i: int| 0 <= i < records.len() implies (#[trigger] records[i]).header.epoch
            == of && records[i].header.sequence_number == number + i by {}
        assert forall|j: int| 0 <= j < plan.plains.len() implies (
        #[trigger] plan.plains[j]).header.sequence_number == next_number(
            conn.sequences,
            plan.plains[j].header.epoch,
        ) + earlier(plan.plains, plan.plains[j].header.epoch, j) by {
            let epoch = plan.plains[j].header.epoch;
            if j < before.plains.len() {
                lemma_earlier_of_longer(before.plains, records, epoch, j);
                assert(plan.plains[j] == before.plains[j]);
            } else {
                let i = j - before.plains.len();
                lemma_earlier_of_packet(before.plains, records, of, of, i);
                assert(plan.plains[j] == records[i]);
            }
        }
        assert forall|epoch: u16| #[trigger]
            next_number(plan.sequences, epoch) == next_number(conn.sequences, epoch) + earlier(
                plan.plains,
                epoch,
                plan.plains.len() as int,
            ) by {
            lemma_earlier_of_packet(before.plains, records, of, epoch, records.len() as int);
            lemma_earlier_of_longer(before.plains, records, epoch, before.plains.len() as int);
            assert(next_number(before.sequences, epoch) >= 0);
        }
    }
}

/// Records are numbered on, each epoch for itself: the first record of an epoch has the number that
/// is next there, each other one the number after that of the record of its epoch before it, and
/// what is sent later goes on behind them. This is said of numbers that can be counted.
pub proof fn law_records_are_numbered_on<C: CipherSuite>(conn: ConnView<C>, raws: Seq<Seq<u8>>)
    requires
        conn.config.maximum_transmission_unit > 0,
        forall|epoch: u16|
            #![trigger next_number(conn.sequences, epoch)]
            next_number(conn.sequences, epoch) + conn.plan(conn.outgoing.len()).plains.len()
                < u64::MAX,
    ensures
        ({
            let plains = conn.plan(conn.outgoing.len()).plains;
            &&& forall|j: int|
                0 <= j < plains.len() ==> (#[trigger] plains[j]).header.sequence_number
                    == next_number(conn.sequences, plains[j].header.epoch) + earlier(
                    plains,
                    plains[j].header.epoch,
                    j,
                )
            &&& forall|epoch: u16| #[trigger]
                next_number(conn.sent(raws).sequences, epoch) == next_number(conn.sequences, epoch)
                    + earlier(plains, epoch, plains.len() as int)
        }),
{
    lemma_numbered(conn, conn.outgoing.len());
}

/// No record number is used twice: of two records of one epoch, the later one has the greater
/// number, and what is sent after them has a greater one still.
pub proof fn law_no_number_is_used_twice<C: CipherSuite>(
    conn: ConnView<C>,
    raws: Seq<Seq<u8>>,
    i: int,
    j: int,
)
    requires
        conn.config.maximum_transmission_unit > 0,
        forall|epoch: u16|
            #![trigger next_number(conn.sequences, epoch)]
            next_number(conn.sequences, epoch) + conn.plan(conn.outgoing.len()).plains.len()
                < u64::MAX,
        0 <= i < j < conn.plan(conn.outgoing.len()).plains.len(),
        ({
            let plains = conn.plan(conn.outgoing.len()).plains;
            plains[i].header.epoch == plains[j].header.epoch
        }),
    ensures
        ({
            let plains = conn.plan(conn.outgoing.len()).plains;
            plains[i].header.sequence_number < plains[j].header.sequence_number < next_number(
                conn.sent(raws).sequences,
                plains[j].header.epoch,
            )
        }),
{
    law_records_are_numbered_on(conn, raws);
    let plains = conn.plan(conn.outgoing.len()).plains;
    let epoch = plains[i].header.epoch;
    lemma_earlier_grows(plains, epoch, i + 1, j);
    lemma_earlier_grows(plains, epoch, j + 1, plains.len() as int);
    assert(earlier(plains, epoch, i + 1) == earlier(plains, epoch, i) + 1);
    assert(earlier(plains, epoch, j + 1) == earlier(plains, epoch, j) + 1);
}

proof fn lemma_earlier_grows(plains: Seq<Plain>, epoch: u16, i: int, j: int)
    requires
        0 <= i <= j,
    ensures
        earlier(plains, epoch, i) <= earlier(plains, epoch, j),
    decreases j - i,
{
    if i < j {
        lemma_earlier_grows(plains, epoch, i, j - 1);
    }
}

/// Where the records of a packet that waits to be sent begin.
pub open spec fn records_begin<C: CipherSuite>(conn: ConnView<C>, k: int) -> int {
    conn.plan(k as nat).plains.len() as int
}

/// Every packet that waits is sent, whole and in order: its records follow those of the packets
/// before it, with its epoch, type and version, and encrypted where it is to be. One that is no
/// handshake message is one record that holds its content.
#[verifier::spinoff_prover]
pub proof fn law_every_packet_is_sent<C: CipherSuite>(conn: ConnView<C>, k: int)
    requires
        0 <= k < conn.outgoing.len(),
        conn.config.maximum_transmission_unit > 0,
    ensures
        ({
            let plains = conn.plan(conn.outgoing.len()).plains;
            let packet = conn.outgoing[k];
            let begin = records_begin(conn, k);
            let end = records_begin(conn, k + 1);
            &&& records_begin(conn, 0) == 0
            &&& records_begin(conn, conn.outgoing.len() as int) == plains.len()
            &&& 0 <= begin < end <= plains.len()
            &&& forall|j: int|
                begin <= j < end ==> {
                    &&& (#[trigger] plains[j]).header.epoch == packet.header.epoch
                    &&& plains[j].header.content_type == packet.header.content_type
                    &&& plains[j].header.protocol_version == packet.header.protocol_version
                    &&& plains[j].encrypt == packet.should_encrypt
                }
            &&& !(packet.content is Handshake) ==> {
                &&& end == begin + 1
                &&& plains[begin].bytes.len() == 13 + packet.content.bytes().len()
                &&& plains[begin].bytes.skip(13) == packet.content.bytes()
                &&& plains[begin].header.content_len == packet.header.content_len
            }
        }),
{
    let packet = conn.outgoing[k];
    let number = number_of(conn, k);
    let mtu = conn.config.maximum_transmission_unit as int;
    lemma_packet_records(conn, k);
    match packet.content {
        ContentView::Handshake(_, body) => {
            lemma_parts(body.len() as int, mtu, 0);
        },
        _ => {
            lemma_bytes_behind_header(
                records_of(packet, mtu, number)[0].header,
                packet.content.bytes(),
            );
        },
    }
}

/// The number of the first record of a packet.
pub open spec fn number_of<C: CipherSuite>(conn: ConnView<C>, k: int) -> int {
    let epoch = conn.outgoing[k].header.epoch;
    counted(conn.plan(k as nat).sequences, epoch)[epoch as int] as int
}

/// The records of a packet stand among all records behind those of the packets before it.
#[verifier::spinoff_prover]
pub proof fn lemma_packet_records<C: CipherSuite>(conn: ConnView<C>, k: int)
    requires
        0 <= k < conn.outgoing.len(),
    ensures
        ({
            let plains = conn.plan(conn.outgoing.len()).plains;
            let records = records_of(
                conn.outgoing[k],
                conn.config.maximum_transmission_unit as int,
                number_of(conn, k),
            );
            let begin = records_begin(conn, k);
            &&& records_begin(conn, k + 1) == begin + records.len() <= plains.len()
            &&& forall|j: int|
                begin <= j < begin + records.len() ==> #[trigger] plains[j] == records[j - begin]
            &&& plains.subrange(begin, begin + records.len()) == records
        }),
{
    let n = conn.outgoing.len();
    let before = conn.plan(k as nat).plains;
    let now = conn.plan((k + 1) as nat).plains;
    lemma_plan_grows(conn, (k + 1) as nat, n);
    let records = records_of(
        conn.outgoing[k],
        conn.config.maximum_transmission_unit as int,
        number_of(conn, k),
    );
    assert(now == before + records);
    let plains = conn.plan(n).plains;
    assert forall|j: int| before.len() <= j < now.len() implies #[trigger] plains[j] == records[j
        - before.len()] by {
        assert(now[j] == records[j - before.len()]);
    }
    assert(plains.subrange(before.len() as int, now.len() as int) =~= records);
}

/// Whether records hold the parts of a handshake message one after the other: each says which part
/// it holds, the first part begins at the beginning, each other one where the one before it ends,
/// and the last one ends at the end.
#[verifier::opaque]
pub open spec fn in_parts(
    records: Seq<Plain>,
    h: HandshakeHeader,
    body: Seq<u8>,
    mtu: int,
) -> bool {
    &&& records.len() >= 1
    &&& forall|i: int|
        0 <= i < records.len() ==> is_part_of_message(#[trigger] records[i], h, body, mtu)
    &&& part_of(records[0]).fragment_offset == 0
    &&& forall|i: int|
        0 <= i < records.len() - 1 ==> part_of(#[trigger] records[i]).fragment_offset + part_of(
            records[i],
        ).fragment_length == part_of(records[i + 1]).fragment_offset
    &&& part_of(records[records.len() - 1]).fragment_offset + part_of(
        records[records.len() - 1],
    ).fragment_length == body.len()
}

/// A handshake message is sent in parts that together are the message, each no longer than the
/// limit. Its records follow those of the packets before it.
pub proof fn law_message_is_sent_in_parts<C: CipherSuite>(
    conn: ConnView<C>,
    k: int,
    h: HandshakeHeader,
    body: Seq<u8>,
)
    requires
        0 <= k < conn.outgoing.len(),
        conn.config.maximum_transmission_unit > 0,
        conn.outgoing[k].content == ContentView::Handshake(h, body),
        h.handshake_type != HandshakeType::Invalid,
        h.length == body.len() <= 0xff_ffff,
    ensures
        in_parts(
            conn.plan(conn.outgoing.len()).plains.subrange(
                records_begin(conn, k),
                records_begin(conn, k + 1),
            ),
            h,
            body,
            conn.config.maximum_transmission_unit as int,
        ),
{
    let mtu = conn.config.maximum_transmission_unit as int;
    lemma_packet_records(conn, k);
    lemma_message_parts(conn.outgoing[k], h, body, mtu, number_of(conn, k));
}

/// The records of a handshake message hold its parts one after the other.
#[verifier::spinoff_prover]
proof fn lemma_message_parts(
    packet: PacketView,
    h: HandshakeHeader,
    body: Seq<u8>,
    mtu: int,
    number: int,
)
    requires
        mtu > 0,
        packet.content == ContentView::Handshake(h, body),
        h.handshake_type != HandshakeType::Invalid,
        h.length == body.len() <= 0xff_ffff,
    ensures
        in_parts(records_of(packet, mtu, number), h, body, mtu),
{
    let records = records_of(packet, mtu, number);
    lemma_parts(body.len() as int, mtu, 0);
    assert forall|i: int| 0 <= i < records.len() implies is_part_of_message(
        #[trigger] records[i],
        h,
        body,
        mtu,
    ) by {
        lemma_message_part(packet, h, body, mtu, number, i);
    }
    lemma_message_part(packet, h, body, mtu, number, 0);
    lemma_message_part(packet, h, body, mtu, number, records.len() - 1);
    assert(0 * mtu == 0);
    assert forall|i: int| 0 <= i < records.len() - 1 implies part_of(
        #[trigger] records[i],
    ).fragment_offset + part_of(records[i]).fragment_length == part_of(
        records[i + 1],
    ).fragment_offset by {
        lemma_message_part(packet, h, body, mtu, number, i);
        lemma_message_part(packet, h, body, mtu, number, i + 1);
    }
    reveal(in_parts);
}

/// One record of a handshake message.
#[verifier::spinoff_prover]
proof fn lemma_message_part(
    packet: PacketView,
    h: HandshakeHeader,
    body: Seq<u8>,
    mtu: int,
    number: int,
    i: int,
)
    requires
        mtu > 0,
        packet.content == ContentView::Handshake(h, body),
        h.handshake_type != HandshakeType::Invalid,
        h.length == body.len() <= 0xff_ffff,
        0 <= i < parts(body.len() as int, mtu),
    ensures
        ({
            let record = records_of(packet, mtu, number)[i];
            &&& records_of(packet, mtu, number).len() == parts(body.len() as int, mtu)
            &&& is_part_of_message(record, h, body, mtu)
            &&& part_of(record).fragment_offset == i * mtu
            &&& part_of(record).fragment_offset + part_of(record).fragment_length == if i + 1
                < parts(body.len() as int, mtu) {
                (i + 1) * mtu
            } else {
                body.len() as int
            }
        }),
{
    let len = body.len() as int;
    lemma_cut_bounds(len, mtu, i);
    lemma_sent_part(packet, h, body, i * mtu, part_end(len, mtu, i), number + i, mtu);
    lemma_parts(len, mtu, i + 1);
    assert((i + 1) * mtu == i * mtu + mtu) by (nonlinear_arith);
}

/// What the record of a part of a handshake message says of the part.
#[verifier::opaque]
pub open spec fn part_of(plain: Plain) -> HandshakeHeader {
    HandshakeHeader::read(plain.bytes.skip(13))
}

/// Whether a record holds what it says it holds of a handshake message, and no more than the limit.
#[verifier::opaque]
pub open spec fn is_part_of_message(
    plain: Plain,
    h: HandshakeHeader,
    body: Seq<u8>,
    mtu: int,
) -> bool {
    let part = part_of(plain);
    let start = part.fragment_offset as int;
    let end = start + part.fragment_length;
    &&& part.handshake_type == h.handshake_type
    &&& part.length == h.length
    &&& part.message_sequence == h.message_sequence
    &&& start <= end <= body.len()
    &&& end - start <= mtu
    &&& plain.bytes.skip(13).skip(12) == body.subrange(start, end)
}

/// The record of the part from `offset` to `end`.
#[verifier::spinoff_prover]
proof fn lemma_sent_part(
    packet: PacketView,
    h: HandshakeHeader,
    body: Seq<u8>,
    offset: int,
    end: int,
    number: int,
    mtu: int,
)
    requires
        packet.content == ContentView::Handshake(h, body),
        h.handshake_type != HandshakeType::Invalid,
        h.length == body.len() <= 0xff_ffff,
        0 <= offset <= end <= body.len(),
        end - offset <= mtu,
    ensures
        ({
            let plain = part_record(packet, offset, end, number);
            &&& part_of(plain).fragment_offset == offset
            &&& part_of(plain).fragment_length == end - offset
            &&& is_part_of_message(plain, h, body, mtu)
        }),
{
    let plain = part_record(packet, offset, end, number);
    let part = HandshakeHeader {
        fragment_offset: offset as u32,
        fragment_length: (end - offset) as u32,
        ..h
    };
    let payload = body.subrange(offset, end);
    reveal(part_of);
    reveal(is_part_of_message);
    lemma_bytes_behind_header(plain.header, content::part_bytes(part, payload));
    lemma_part_bytes(part, payload);
}

/// What stands behind a record's header.
proof fn lemma_bytes_behind_header(header: RecordLayerHeader, inner: Seq<u8>)
    ensures
        content::record_bytes(header, inner).len() == 13 + inner.len(),
        content::record_bytes(header, inner).skip(13) == inner,
{
    reveal(content::record_bytes);
    assert(header.bytes().len() == 13);
    assert(content::record_bytes(header, inner).skip(13) =~= inner);
}

/// A part of a message is read as it was written.
proof fn lemma_part_bytes(part: HandshakeHeader, payload: Seq<u8>)
    requires
        part.fits(),
        part.handshake_type != HandshakeType::Invalid,
    ensures
        HandshakeHeader::read(content::part_bytes(part, payload)) == part,
        content::part_bytes(part, payload).skip(12) == payload,
{
    reveal(content::part_bytes);
    record::law_handshake_header_round_trip(part, payload);
    assert(content::part_bytes(part, payload).skip(12) =~= payload);
}

/// However many records come that there are no keys for yet, what is held stays within its limits:
/// a record that does not fit beside what is held is dropped, and every other one is held behind it.
/// Nothing else changes, in particular not what is remembered of record numbers.
pub proof fn law_held_records_are_bounded<C: CipherSuite>(conn: ConnView<C>, pkt: Seq<u8>)
    requires
        conn.valid(),
    ensures
        conn.enqueued(pkt).valid(),
        conn.enqueued(pkt).pending.len() <= MAX_PENDING_RECORDS,
        total(conn.enqueued(pkt).pending) <= MAX_PENDING_RECORD_BYTES,
        conn.enqueued(pkt).detectors == conn.detectors,
        if conn.pending.len() >= MAX_PENDING_RECORDS || total(conn.pending) + pkt.len()
            > MAX_PENDING_RECORD_BYTES {
            conn.enqueued(pkt) == conn
        } else {
            &&& conn.enqueued(pkt) == (ConnView { pending: conn.pending.push(pkt), ..conn })
            &&& total(conn.enqueued(pkt).pending) == total(conn.pending) + pkt.len()
        },
{
    lemma_total_push(conn.pending, pkt);
    lemma_total_not_negative(conn.pending);
}

proof fn lemma_total_not_negative(all: Seq<Seq<u8>>)
    ensures
        total(all) >= 0,
    decreases all.len(),
{
    if all.len() > 0 {
        lemma_total_not_negative(all.drop_last());
    }
}

impl<C: CipherSuite> ConnView<C> {
    /// What a record opens to. Those of the first epoch are not protected.
    pub open spec fn plain_of(self, pkt: Seq<u8>) -> Result<Seq<u8>, Error> {
        if RecordLayerHeader::read(pkt).epoch == 0 {
            Ok(pkt)
        } else {
            C::opened(self.cipher->Some_0, pkt)
        }
    }

    /// Whether a record is one that was not taken in yet, of an epoch that has begun.
    pub open spec fn is_news(self, pkt: Seq<u8>) -> bool {
        let h = RecordLayerHeader::read(pkt);
        &&& pkt.len() >= 13
        &&& h.epoch <= self.remote_epoch
        &&& self.watched(h.epoch).detectors[h.epoch as int].fresh(h.sequence_number)
    }

    /// Whether a record changes the cipher: it is a new one of the epoch that there is, holds a
    /// change of cipher, and there are keys.
    pub open spec fn changes_cipher(self, pkt: Seq<u8>) -> bool {
        let h = RecordLayerHeader::read(pkt);
        &&& self.is_news(pkt)
        &&& h.epoch == self.remote_epoch
        &&& self.ready()
        &&& self.plain_of(pkt) matches Ok(plain)
        &&& self.fragments.push(plain).1 == Ok::<bool, Error>(false)
        &&& h.content_type != ContentType::ApplicationData
        &&& ContentView::read(plain) == Ok::<ContentView, Error>(ContentView::ChangeCipherSpec)
    }
}

/// The remote epoch moves only by one, and exactly on a change of cipher of the epoch that there is,
/// with keys. Where it is the last that can be counted, there is no next one.
pub proof fn law_epoch_moves_by_one<C: CipherSuite>(
    conn: ConnView<C>,
    pkt: Seq<u8>,
    enqueue: bool,
)
    requires
        conn.remote_epoch < u16::MAX,
    ensures
        ({
            let after = conn.received(pkt, enqueue).0;
            &&& after.remote_epoch == conn.remote_epoch || after.remote_epoch == conn.remote_epoch
                + 1
            &&& after.remote_epoch == conn.remote_epoch + 1 <==> conn.changes_cipher(pkt)
            &&& conn.changes_cipher(pkt) && conn.remote_epoch == 0 ==> RecordLayerHeader::read(
                pkt,
            ).content_type == ContentType::ChangeCipherSpec
        }),
{
    let h = RecordLayerHeader::read(pkt);
    let watched = conn.watched(h.epoch);
    assert(watched.ready() == conn.ready());
    assert(watched.fragments == conn.fragments);
    if conn.is_news(pkt) && (h.epoch == 0 || conn.ready()) {
        match conn.plain_of(pkt) {
            Ok(plain) => {
                lemma_opened_epoch(watched, h, plain, enqueue);
                assert(conn.received(pkt, enqueue) == watched.opened(h, plain, enqueue));
            },
            Err(_) => {},
        }
    }
    if conn.changes_cipher(pkt) && conn.remote_epoch == 0 {
        assert(ContentView::read(pkt) == Ok::<ContentView, Error>(ContentView::ChangeCipherSpec));
    }
}

proof fn lemma_opened_epoch<C: CipherSuite>(
    conn: ConnView<C>,
    h: RecordLayerHeader,
    plain: Seq<u8>,
    enqueue: bool,
)
    requires
        conn.remote_epoch < u16::MAX,
    ensures
        conn.opened(h, plain, enqueue).0.remote_epoch == if conn.fragments.push(plain).1 == Ok::<
            bool,
            Error,
        >(false) && h.content_type != ContentType::ApplicationData && ContentView::read(plain)
            == Ok::<ContentView, Error>(ContentView::ChangeCipherSpec) && conn.ready() && h.epoch
            == conn.remote_epoch {
            conn.remote_epoch + 1
        } else {
            conn.remote_epoch as int
        },
{
    let (fragments, pushed) = conn.fragments.push(plain);
    match pushed {
        Ok(true) => {
            let (fragments, cache) = drained(fragments, conn.cache, conn.is_client);
        },
        _ => {},
    }
}

/// A datagram of one record that is new, but not authentic, makes reading fail, and nothing of it is
/// handed on.
pub proof fn law_forged_record_fails<C: CipherSuite>(conn: ConnView<C>, pkt: Seq<u8>)
    requires
        conn.is_news(pkt),
        RecordLayerHeader::read(pkt).epoch > 0,
        conn.ready(),
        conn.plain_of(pkt) is Err,
        13 < pkt.len() <= MAX_RECORD_LEN,
        record_cipher::framed(pkt),
    ensures
        conn.read(pkt).1 is Err,
        conn.read(pkt).0.decrypted == conn.decrypted,
        conn.read(pkt).0.cache == conn.cache,
        conn.read(pkt).0.remote_epoch == conn.remote_epoch,
{
    lemma_one_record(pkt);
    let records = seq![pkt];
    reveal_with_fuel(ConnView::read_all, 2);
    assert(records.drop_first() =~= Seq::<Seq<u8>>::empty());
}

/// No record is lost: the datagrams one after the other are the records one after the other.
pub proof fn law_datagrams_hold_all_records(mtu: int, raws: Seq<Seq<u8>>)
    ensures
        packed(mtu, raws).0.flatten() + packed(mtu, raws).1 == raws.flatten(),
        datagrams_of(mtu, raws).flatten() == raws.flatten(),
    decreases raws.len(),
{
    let (full, begun) = packed(mtu, raws);
    if raws.len() == 0 {
        assert(full.flatten() =~= raws.flatten());
    } else {
        let rest = raws.drop_last();
        law_datagrams_hold_all_records(mtu, rest);
        let (before, open) = packed(mtu, rest);
        assert(raws =~= rest.push(raws.last()));
        lemma_flatten_push(rest, raws.last());
        if open.len() > 0 && open.len() + raws.last().len() >= mtu {
            lemma_flatten_push(before, open);
        }
        assert(full.flatten() + begun =~= raws.flatten());
    }
    if begun.len() > 0 {
        lemma_flatten_push(full, begun);
    } else {
        assert(full.flatten() + begun =~= full.flatten());
    }
}

/// Whether a datagram is below the limit, or one record alone.
pub open spec fn small_or_single(mtu: int, raws: Seq<Seq<u8>>, datagram: Seq<u8>) -> bool {
    datagram.len() < mtu || raws.contains(datagram)
}

/// A datagram reaches the limit only where it is one record alone.
pub proof fn law_datagrams_stay_small(mtu: int, raws: Seq<Seq<u8>>)
    ensures
        forall|j: int|
            0 <= j < datagrams_of(mtu, raws).len() ==> small_or_single(
                mtu,
                raws,
                #[trigger] datagrams_of(mtu, raws)[j],
            ),
{
    lemma_packed_small(mtu, raws);
}

proof fn lemma_packed_small(mtu: int, raws: Seq<Seq<u8>>)
    ensures
        forall|j: int|
            0 <= j < packed(mtu, raws).0.len() ==> small_or_single(
                mtu,
                raws,
                #[trigger] packed(mtu, raws).0[j],
            ),
        packed(mtu, raws).1.len() == 0 || small_or_single(mtu, raws, packed(mtu, raws).1),
    decreases raws.len(),
{
    if raws.len() > 0 {
        let rest = raws.drop_last();
        lemma_packed_small(mtu, rest);
        let (before, open) = packed(mtu, rest);
        let last = raws.last();
        assert forall|d: Seq<u8>| small_or_single(mtu, rest, d) implies #[trigger] small_or_single(
            mtu,
            raws,
            d,
        ) by {
            if rest.contains(d) {
                let k = rest.index_of(d);
                assert(raws[k] == d);
            }
        }
        assert(raws[raws.len() - 1] == last);
        assert(raws.contains(last));
        if open.len() == 0 {
            assert(open + last =~= last);
        }
    }
}

proof fn lemma_flatten_push(all: Seq<Seq<u8>>, one: Seq<u8>)
    ensures
        all.push(one).flatten() == all.flatten() + one,
    decreases all.len(),
{
    if all.len() == 0 {
        assert(all.push(one).drop_first() =~= Seq::<Seq<u8>>::empty());
        assert(all.push(one).flatten() =~= one + Seq::<Seq<u8>>::empty().flatten());
        assert(all.flatten() =~= Seq::<u8>::empty());
        assert(all.push(one).flatten() =~= all.flatten() + one);
    } else {
        lemma_flatten_push(all.drop_first(), one);
        assert(all.push(one).drop_first() =~= all.drop_first().push(one));
        assert(all.push(one).first() == all.first());
        assert(all.push(one).flatten() =~= all.flatten() + one);
    }
}

} // verus!
