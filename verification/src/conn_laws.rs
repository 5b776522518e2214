//! What holds of a DTLS association whatever records come.

use crate::alert::{Alert, AlertDescription, AlertLevel};
use crate::cipher_suite::CipherSuite;
use crate::conn;
use crate::conn::ConnView;
use crate::content::{ContentView, PacketView};
use crate::error::Error;
use crate::fragment_buffer;
use crate::handshake_cache;
use crate::handshake_cache::CachedView;
use crate::record::{ContentType, HandshakeHeader, RecordLayerHeader, MAX_SEQUENCE_NUMBER};
use crate::replay_detector;
use vstd::prelude::*;

verus! {

/// Whether `after` waits to send what `before` did, and then an alert: of the epoch of what is sent,
/// in a DTLS 1.2 record, and encrypted once the handshake is done.
pub open spec fn alerts<C: CipherSuite>(
    before: ConnView<C>,
    after: ConnView<C>,
    level: AlertLevel,
    description: AlertDescription,
) -> bool {
    &&& after.outgoing.len() == before.outgoing.len() + 1
    &&& after.outgoing.drop_last() == before.outgoing
    &&& ({
        let packet = after.outgoing.last();
        &&& packet.content == ContentView::Alert(
            Alert { alert_level: level, alert_description: description },
        )
        &&& packet.should_encrypt == before.completed
        &&& packet.header.content_type == ContentType::Alert
        &&& packet.header.epoch == before.local_epoch
        &&& packet.header.protocol_version.major == 0xfe
        &&& packet.header.protocol_version.minor == 0xfd
        &&& packet.header.content_len == 2
    })
}

/// Whether the buffers of a handshake are empty.
pub open spec fn is_released<C: CipherSuite>(conn: ConnView<C>) -> bool {
    conn.pending.len() == 0 && conn.fragments.messages.dom() == Set::<u16>::empty()
}

/// Whether a record is a new one that can be opened, and opens to this.
pub open spec fn opens<C: CipherSuite>(conn: ConnView<C>, pkt: Seq<u8>, plain: Seq<u8>) -> bool {
    &&& conn.is_news(pkt)
    &&& RecordLayerHeader::read(pkt).epoch > 0 ==> conn.ready()
    &&& conn.plain_of(pkt) == Ok::<Seq<u8>, Error>(plain)
    &&& plain.len() >= 13
    &&& plain[0] == pkt[0]
}

/// A record that opens is looked into.
proof fn lemma_opens<C: CipherSuite>(
    conn: ConnView<C>,
    pkt: Seq<u8>,
    plain: Seq<u8>,
    enqueue: bool,
)
    requires
        opens(conn, pkt, plain),
    ensures
        ({
            let h = RecordLayerHeader::read(pkt);
            &&& conn.received(pkt, enqueue) == conn.watched(h.epoch).opened(h, plain, enqueue)
            &&& RecordLayerHeader::read(plain).content_type == h.content_type
            &&& h.content_type == ContentType::of(pkt[0])
        }),
{
}

/// Where a record is the last that can be gone on after, what follows is not read.
proof fn lemma_stops<C: CipherSuite>(
    conn: ConnView<C>,
    pkt: Seq<u8>,
    rest: Seq<Seq<u8>>,
    enqueue: bool,
)
    requires
        ({
            let (got, reply) = conn.received(pkt, enqueue);
            got.answered(reply).1 is Some
        }),
    ensures
        ({
            let (got, reply) = conn.received(pkt, enqueue);
            let (after, error) = got.answered(reply);
            conn.read_all(seq![pkt] + rest, enqueue) == (after, Err::<(), Error>(error->Some_0))
        }),
{
    assert((seq![pkt] + rest)[0] == pkt);
}

/// What a record that opens to an alert calls for.
proof fn lemma_alert_received<C: CipherSuite>(
    conn: ConnView<C>,
    pkt: Seq<u8>,
    plain: Seq<u8>,
    enqueue: bool,
)
    requires
        opens(conn, pkt, plain),
        pkt[0] == 21,
        plain.len() >= 15,
    ensures
        ({
            let (got, reply) = conn.received(pkt, enqueue);
            let answer = conn::alert_answer(
                Alert {
                    alert_level: AlertLevel::of(plain[13]),
                    alert_description: AlertDescription::of(plain[14]),
                },
            );
            &&& got == (ConnView { detectors: got.detectors, ..conn })
            &&& reply.alert == Some(answer)
            &&& reply.error == Some(Error::ErrAlert(answer))
        }),
{
    lemma_opens(conn, pkt, plain, enqueue);
    assert(plain.skip(13)[0] == plain[13] && plain.skip(13)[1] == plain[14]);
}

/// An alert of the peer's is answered: one that closes by one that closes, with a warning's level,
/// and every other one by itself. Where it is fatal or closes, the connection is at its end: what was
/// buffered is freed, and what follows is not read. Else reading stops there too, with the alert as
/// its error. Nothing is handed on.
pub proof fn law_alert_is_answered<C: CipherSuite>(
    conn: ConnView<C>,
    pkt: Seq<u8>,
    plain: Seq<u8>,
    rest: Seq<Seq<u8>>,
    enqueue: bool,
)
    requires
        opens(conn, pkt, plain),
        pkt[0] == 21,
        plain.len() >= 15,
    ensures
        ({
            let (after, result) = conn.read_all(seq![pkt] + rest, enqueue);
            let level = AlertLevel::of(plain[13]);
            let description = AlertDescription::of(plain[14]);
            &&& description == AlertDescription::CloseNotify ==> alerts(
                conn,
                after,
                AlertLevel::Warning,
                AlertDescription::CloseNotify,
            )
            &&& description != AlertDescription::CloseNotify ==> alerts(
                conn,
                after,
                level,
                description,
            )
            &&& level == AlertLevel::Fatal || description == AlertDescription::CloseNotify ==> {
                &&& result == Err::<(), Error>(Error::ErrAlertFatalOrClose)
                &&& is_released(after)
            }
            &&& level != AlertLevel::Fatal && description != AlertDescription::CloseNotify ==> {
                &&& result == Err::<(), Error>(
                    Error::ErrAlert(
                        Alert { alert_level: level, alert_description: description },
                    ),
                )
                &&& after.pending == conn.pending
                &&& after.fragments == conn.fragments
            }
            &&& after.decrypted == conn.decrypted
            &&& after.cache == conn.cache
            &&& after.remote_epoch == conn.remote_epoch
            &&& after.completed == conn.completed
        }),
{
    lemma_alert_received(conn, pkt, plain, enqueue);
    lemma_stops(conn, pkt, rest, enqueue);
    let (got, reply) = conn.received(pkt, enqueue);
    let (after, error) = got.answered(reply);
    assert(after.outgoing.drop_last() =~= conn.outgoing);
    if reply.alert->Some_0.ends() {
        assert(after.fragments.messages.dom() =~= Set::<u16>::empty());
    }
}

/// Application data that is not protected is refused: a fatal alert says that it came out of turn,
/// the connection is at its end, and the data is not handed on.
pub proof fn law_unprotected_data_is_refused<C: CipherSuite>(
    conn: ConnView<C>,
    pkt: Seq<u8>,
    rest: Seq<Seq<u8>>,
    enqueue: bool,
)
    requires
        conn.is_news(pkt),
        pkt[0] == 23,
        RecordLayerHeader::read(pkt).epoch == 0,
    ensures
        ({
            let (after, result) = conn.read_all(seq![pkt] + rest, enqueue);
            &&& alerts(conn, after, AlertLevel::Fatal, AlertDescription::UnexpectedMessage)
            &&& result == Err::<(), Error>(Error::ErrAlertFatalOrClose)
            &&& is_released(after)
            &&& after.decrypted == conn.decrypted
            &&& after.cache == conn.cache
        }),
{
    lemma_opens(conn, pkt, pkt, enqueue);
    lemma_stops(conn, pkt, rest, enqueue);
    let (got, reply) = conn.received(pkt, enqueue);
    let (after, error) = got.answered(reply);
    assert(after.outgoing.drop_last() =~= conn.outgoing);
    assert(after.fragments.messages.dom() =~= Set::<u16>::empty());
}

/// A record of a kind that there is none of, a change of cipher that is empty or holds anything but
/// 1, and an alert that is cut short cannot be read: a fatal alert says so, and the connection is at
/// its end.
pub proof fn law_unreadable_record_is_refused<C: CipherSuite>(
    conn: ConnView<C>,
    pkt: Seq<u8>,
    plain: Seq<u8>,
    rest: Seq<Seq<u8>>,
    enqueue: bool,
)
    requires
        opens(conn, pkt, plain),
        ({
            ||| pkt[0] < 20
            ||| pkt[0] > 23
            ||| pkt[0] == 20 && (plain.len() == 13 || plain[13] != 1)
            ||| pkt[0] == 21 && plain.len() < 15
        }),
    ensures
        ({
            let (after, result) = conn.read_all(seq![pkt] + rest, enqueue);
            &&& alerts(conn, after, AlertLevel::Fatal, AlertDescription::DecodeError)
            &&& result == Err::<(), Error>(Error::ErrAlertFatalOrClose)
            &&& is_released(after)
            &&& after.decrypted == conn.decrypted
            &&& after.remote_epoch == conn.remote_epoch
        }),
{
    lemma_opens(conn, pkt, plain, enqueue);
    if plain.len() > 13 {
        assert(plain.skip(13)[0] == plain[13]);
    }
    lemma_stops(conn, pkt, rest, enqueue);
    let (got, reply) = conn.received(pkt, enqueue);
    let (after, error) = got.answered(reply);
    assert(after.outgoing.drop_last() =~= conn.outgoing);
    assert(after.fragments.messages.dom() =~= Set::<u16>::empty());
}

/// A change of cipher of the epoch that there is raises it by one where there are keys. Before that
/// it is held, where records are held and there is room, and the epoch stays.
pub proof fn law_cipher_is_changed<C: CipherSuite>(
    conn: ConnView<C>,
    pkt: Seq<u8>,
    plain: Seq<u8>,
    enqueue: bool,
)
    requires
        opens(conn, pkt, plain),
        pkt[0] == 20,
        plain.len() >= 14,
        plain[13] == 1,
        RecordLayerHeader::read(pkt).epoch == conn.remote_epoch < u16::MAX,
    ensures
        ({
            let (after, result) = conn.read_all(seq![pkt], enqueue);
            &&& result is Ok
            &&& conn.ready() ==> {
                &&& after.remote_epoch == conn.remote_epoch + 1
                &&& after.pending == conn.pending
            }
            &&& !conn.ready() ==> {
                &&& after.remote_epoch == conn.remote_epoch
                &&& after.pending == if enqueue && conn.has_room(plain) {
                    conn.pending.push(plain)
                } else {
                    conn.pending
                }
                &&& after.is_news(pkt)
            }
            &&& after.cipher == conn.cipher
            &&& after.outgoing == conn.outgoing
            &&& after.decrypted == conn.decrypted
            &&& after.cache == conn.cache
            &&& after.fragments == conn.fragments
        }),
{
    let records = seq![pkt];
    let h = RecordLayerHeader::read(pkt);
    lemma_opens(conn, pkt, plain, enqueue);
    assert(plain.skip(13)[0] == plain[13]);
    assert(records.drop_first() =~= Seq::<Seq<u8>>::empty());
    reveal_with_fuel(ConnView::read_all, 2);
    let (after, reply) = conn.received(pkt, enqueue);
    assert(conn.watched(h.epoch).watched(h.epoch) == conn.watched(h.epoch));
}

impl<C: CipherSuite> ConnView<C> {
    /// Whether one more record can be held.
    pub open spec fn has_room(self, pkt: Seq<u8>) -> bool {
        self.pending.len() < 64 && conn::total(self.pending) + pkt.len() <= 65536
    }
}

/// A record of the next epoch, or of one that there are no keys for yet, is held as it came, where
/// records are held and there is room. One of an epoch after the next is dropped. Neither is answered,
/// and neither uses up its number.
pub proof fn law_early_record_is_held<C: CipherSuite>(
    conn: ConnView<C>,
    pkt: Seq<u8>,
    enqueue: bool,
)
    requires
        pkt.len() >= 13,
        ({
            let epoch = RecordLayerHeader::read(pkt).epoch;
            ||| epoch > conn.remote_epoch
            ||| epoch > 0 && !conn.ready() && conn.is_news(pkt)
        }),
    ensures
        ({
            let (after, result) = conn.read_all(seq![pkt], enqueue);
            let epoch = RecordLayerHeader::read(pkt).epoch;
            &&& result is Ok
            &&& after.pending == if enqueue && epoch <= conn.remote_epoch + 1 && conn.has_room(
                pkt,
            ) {
                conn.pending.push(pkt)
            } else {
                conn.pending
            }
            &&& after == (ConnView {
                pending: after.pending,
                detectors: after.detectors,
                ..conn
            })
            &&& epoch > conn.remote_epoch ==> after.detectors == conn.detectors
            &&& conn.is_news(pkt) ==> after.is_news(pkt)
        }),
{
    let records = seq![pkt];
    let h = RecordLayerHeader::read(pkt);
    assert(records.drop_first() =~= Seq::<Seq<u8>>::empty());
    reveal_with_fuel(ConnView::read_all, 2);
    let (after, reply) = conn.received(pkt, enqueue);
    assert(conn.watched(h.epoch).watched(h.epoch) == conn.watched(h.epoch));
}

/// A record that is not authentic is not taken in, and does not use up its number. With a pre-shared
/// key a fatal alert says that the key is not known, and the connection is at its end. Else nothing
/// is answered, and what was wrong is reported.
pub proof fn law_forged_record_uses_up_nothing<C: CipherSuite>(
    conn: ConnView<C>,
    pkt: Seq<u8>,
    fault: Error,
    enqueue: bool,
)
    requires
        conn.is_news(pkt),
        RecordLayerHeader::read(pkt).epoch > 0,
        conn.ready(),
        conn.plain_of(pkt) == Err::<Seq<u8>, Error>(fault),
    ensures
        ({
            let (after, result) = conn.read_all(seq![pkt], enqueue);
            &&& after.is_news(pkt)
            &&& after.decrypted == conn.decrypted
            &&& after.cache == conn.cache
            &&& after.remote_epoch == conn.remote_epoch
            &&& C::psk(conn.cipher->Some_0) ==> {
                &&& alerts(conn, after, AlertLevel::Fatal, AlertDescription::UnknownPskIdentity)
                &&& result == Err::<(), Error>(Error::ErrAlertFatalOrClose)
                &&& is_released(after)
            }
            &&& !C::psk(conn.cipher->Some_0) ==> {
                &&& after == (ConnView { detectors: after.detectors, ..conn })
                &&& result == Err::<(), Error>(fault)
            }
        }),
{
    let records = seq![pkt];
    let h = RecordLayerHeader::read(pkt);
    assert(records.drop_first() =~= Seq::<Seq<u8>>::empty());
    reveal_with_fuel(ConnView::read_all, 2);
    let (got, reply) = conn.received(pkt, enqueue);
    assert(conn.watched(h.epoch).watched(h.epoch) == conn.watched(h.epoch));
    let (after, error) = got.answered(reply);
    if C::psk(conn.cipher->Some_0) {
        assert(after.outgoing.drop_last() =~= conn.outgoing);
        assert(after.fragments.messages.dom() =~= Set::<u16>::empty());
    }
}

/// A record that was taken in is no news when it comes again: application data, handshake messages,
/// changes of cipher and alerts alike.
pub proof fn law_record_is_taken_in_once<C: CipherSuite>(
    conn: ConnView<C>,
    pkt: Seq<u8>,
    plain: Seq<u8>,
    enqueue: bool,
    again: bool,
)
    requires
        conn.valid(),
        conn.remote_epoch < u16::MAX,
        opens(conn, pkt, plain),
        ({
            let epoch = RecordLayerHeader::read(pkt).epoch;
            ||| pkt[0] == 23 && epoch > 0
            ||| pkt[0] == 22 && conn.fragments.push(plain).1 is Ok
            ||| pkt[0] == 21 && plain.len() >= 15
            ||| pkt[0] == 20 && plain.len() >= 14 && plain[13] == 1 && conn.ready() && epoch
                == conn.remote_epoch
        }),
    ensures
        ({
            let after = conn.received(pkt, enqueue).0;
            &&& !after.is_news(pkt)
            &&& after.received(pkt, again) == (after, conn::silence())
        }),
{
    let h = RecordLayerHeader::read(pkt);
    let watched = conn.watched(h.epoch);
    lemma_opens(conn, pkt, plain, enqueue);
    if plain.len() > 13 {
        assert(plain.skip(13)[0] == plain[13]);
    }
    let (after, reply) = conn.received(pkt, enqueue);
    assert(watched.detectors[h.epoch as int].valid());
    replay_detector::law_accepted_is_not_fresh(watched.detectors[h.epoch as int], h.sequence_number);
    assert(after.detectors == watched.accepted(h).detectors);
    assert(after.watched(h.epoch) == after);
}

/// Whether a record is of an epoch that there are keys for, but is not authentic, and no alert is
/// due for it.
pub open spec fn is_forged<C: CipherSuite>(conn: ConnView<C>, pkt: Seq<u8>) -> bool {
    let h = RecordLayerHeader::read(pkt);
    &&& pkt.len() >= 13
    &&& 1 <= h.epoch <= conn.remote_epoch
    &&& conn.ready()
    &&& C::opened(conn.cipher->Some_0, pkt) is Err
    &&& !C::psk(conn.cipher->Some_0)
}

/// The application data in those of the records that hold some, in order.
pub open spec fn data_among<C: CipherSuite>(
    conn: ConnView<C>,
    records: Seq<Seq<u8>>,
) -> Seq<Seq<u8>>
    decreases records.len(),
{
    if records.len() == 0 {
        Seq::empty()
    } else {
        let rest = data_among(conn, records.drop_first());
        if conn::holds_data(conn, records[0]) {
            seq![conn::data_in::<C>(conn.cipher->Some_0, records[0])] + rest
        } else {
            rest
        }
    }
}

/// What is data in the records does not depend on what was taken in before.
proof fn lemma_data_among<C: CipherSuite>(
    conn: ConnView<C>,
    other: ConnView<C>,
    records: Seq<Seq<u8>>,
)
    requires
        other.cipher == conn.cipher,
        other.remote_epoch == conn.remote_epoch,
    ensures
        data_among(conn, records) == data_among(other, records),
    decreases records.len(),
{
    if records.len() > 0 {
        lemma_data_among(conn, other, records.drop_first());
        assert(conn::holds_data(conn, records[0]) == conn::holds_data(other, records[0]));
    }
}

/// A record that is not authentic changes nothing but what is remembered of record numbers.
proof fn lemma_forged<C: CipherSuite>(conn: ConnView<C>, pkt: Seq<u8>, enqueue: bool)
    requires
        is_forged(conn, pkt),
        conn.is_news(pkt),
    ensures
        ({
            let (after, reply) = conn.received(pkt, enqueue);
            &&& after == (ConnView { detectors: after.detectors, ..conn })
            &&& after.answered(reply) == (after, None::<Error>)
            &&& reply.fault is Some
        }),
{
    let (after, reply) = conn.received(pkt, enqueue);
    assert(after.answered(reply).0 =~= after);
}

/// A record that is not authentic stops nothing: the data in the others of its datagram is handed
/// on, in order. Reading fails exactly where there is such a record.
#[verifier::spinoff_prover]
pub proof fn law_forged_record_stops_nothing<C: CipherSuite>(
    conn: ConnView<C>,
    records: Seq<Seq<u8>>,
    enqueue: bool,
)
    requires
        forall|i: int|
            0 <= i < records.len() ==> conn::holds_data(conn, #[trigger] records[i]) || is_forged(
                conn,
                records[i],
            ),
        forall|i: int|
            0 <= i < records.len() ==> conn.read_all(#[trigger] records.take(i), enqueue).0.is_news(
                records[i],
            ),
    ensures
        ({
            let (after, result) = conn.read_all(records, enqueue);
            &&& result is Err <==> exists|i: int|
                0 <= i < records.len() && is_forged(conn, #[trigger] records[i])
            &&& after.decrypted == conn.decrypted + data_among(conn, records)
            &&& after.outgoing == conn.outgoing
            &&& after.remote_epoch == conn.remote_epoch
            &&& after.cipher == conn.cipher
        }),
    decreases records.len(),
{
    if records.len() == 0 {
        assert(conn.decrypted + data_among(conn, records) =~= conn.decrypted);
    } else {
        let first = records[0];
        let rest = records.drop_first();
        assert(records.take(0) =~= Seq::<Seq<u8>>::empty());
        assert(conn.is_news(first));
        let (answered, reply) = conn.received(first, enqueue);
        if conn::holds_data(conn, first) {
            conn::law_data_record_is_handed_on(conn, first, enqueue);
        } else {
            lemma_forged(conn, first, enqueue);
        }
        assert forall|i: int| 0 <= i < rest.len() implies conn::holds_data(
            answered,
            #[trigger] rest[i],
        ) || is_forged(answered, rest[i]) by {
            assert(rest[i] == records[i + 1]);
            assert(conn::holds_data(conn, records[i + 1]) || is_forged(conn, records[i + 1]));
        }
        assert forall|i: int| 0 <= i < rest.len() implies answered.read_all(
            #[trigger] rest.take(i),
            enqueue,
        ).0.is_news(rest[i]) by {
            let longer = records.take(i + 1);
            assert(longer[0] == first);
            assert(longer.drop_first() =~= rest.take(i));
            assert(conn.read_all(longer, enqueue).0.is_news(records[i + 1]));
        }
        law_forged_record_stops_nothing(answered, rest, enqueue);
        lemma_data_among(conn, answered, rest);
        assert(answered.decrypted + data_among(conn, rest) =~= conn.decrypted + data_among(
            conn,
            records,
        ));
        let result = answered.read_all(rest, enqueue).1;
        if result is Err {
            let i = choose|i: int| 0 <= i < rest.len() && is_forged(answered, #[trigger] rest[i]);
            assert(is_forged(conn, records[i + 1]));
        }
        if exists|i: int| 0 <= i < records.len() && is_forged(conn, #[trigger] records[i]) {
            let i = choose|i: int| 0 <= i < records.len() && is_forged(conn, #[trigger] records[i]);
            if i > 0 {
                assert(is_forged(answered, rest[i - 1]));
            } else {
                assert(!conn::holds_data(conn, first));
            }
        }
    }
}

/// Data that was held is handed on: where each record opens, holds application data and is not a
/// repeat when its turn comes, the data of each is handed on, in order, once each.
#[verifier::spinoff_prover]
pub proof fn law_held_data_is_retried<C: CipherSuite>(
    conn: ConnView<C>,
    records: Seq<Seq<u8>>,
    enqueue: bool,
)
    requires
        forall|i: int| 0 <= i < records.len() ==> conn::holds_data(conn, #[trigger] records[i]),
        forall|i: int|
            0 <= i < records.len() ==> conn.retried(#[trigger] records.take(i), enqueue).0.is_news(
                records[i],
            ),
    ensures
        ({
            let (after, result) = conn.retried(records, enqueue);
            &&& result == Ok::<bool, Error>(false)
            &&& after.decrypted == conn.decrypted + Seq::new(
                records.len(),
                |i: int| conn::data_in::<C>(conn.cipher->Some_0, records[i]),
            )
            &&& after.pending == conn.pending
            &&& after.outgoing == conn.outgoing
            &&& after.remote_epoch == conn.remote_epoch
        }),
    decreases records.len(),
{
    if records.len() == 0 {
        assert(conn.decrypted + Seq::new(
            records.len(),
            |i: int| conn::data_in::<C>(conn.cipher->Some_0, records[i]),
        ) =~= conn.decrypted);
    } else {
        let first = records[0];
        let rest = records.drop_first();
        assert(records.take(0) =~= Seq::<Seq<u8>>::empty());
        assert(conn.is_news(first));
        let data = conn::data_in::<C>(conn.cipher->Some_0, first);
        conn::law_data_record_is_handed_on(conn, first, enqueue);
        let answered = conn.received(first, enqueue).0;
        assert forall|i: int| 0 <= i < rest.len() implies conn::holds_data(
            answered,
            #[trigger] rest[i],
        ) by {
            assert(rest[i] == records[i + 1]);
            assert(conn::holds_data(conn, records[i + 1]));
        }
        assert forall|i: int| 0 <= i < rest.len() implies answered.retried(
            #[trigger] rest.take(i),
            enqueue,
        ).0.is_news(rest[i]) by {
            let longer = records.take(i + 1);
            assert(longer[0] == first);
            assert(longer.drop_first() =~= rest.take(i));
            assert(conn.retried(longer, enqueue).0.is_news(records[i + 1]));
        }
        law_held_data_is_retried(answered, rest, enqueue);
        assert(conn.decrypted.push(data) + Seq::new(
            rest.len(),
            |i: int| conn::data_in::<C>(conn.cipher->Some_0, rest[i]),
        ) =~= conn.decrypted + Seq::new(
            records.len(),
            |i: int| conn::data_in::<C>(conn.cipher->Some_0, records[i]),
        ));
    }
}

/// Once there are keys for it, the data in the records that were held is handed on, all of it and in
/// order, and nothing is held any more.
pub proof fn law_held_data_is_handed_on<C: CipherSuite>(conn: ConnView<C>, enqueue: bool)
    requires
        forall|i: int|
            0 <= i < conn.pending.len() ==> conn::holds_data(conn, #[trigger] conn.pending[i]),
        forall|i: int|
            0 <= i < conn.pending.len() ==> (ConnView {
                pending: Seq::empty(),
                ..conn
            }).retried(#[trigger] conn.pending.take(i), enqueue).0.is_news(conn.pending[i]),
    ensures
        ({
            let (after, result) = conn.flushed(enqueue);
            &&& result == Ok::<bool, Error>(false)
            &&& after.decrypted == conn.decrypted + Seq::new(
                conn.pending.len(),
                |i: int| conn::data_in::<C>(conn.cipher->Some_0, conn.pending[i]),
            )
            &&& after.pending.len() == 0
        }),
{
    let emptied = ConnView { pending: Seq::empty(), ..conn };
    assert forall|i: int| 0 <= i < conn.pending.len() implies conn::holds_data(
        emptied,
        #[trigger] conn.pending[i],
    ) by {
        assert(conn::holds_data(conn, conn.pending[i]));
    }
    law_held_data_is_retried(emptied, conn.pending, enqueue);
}

/// What was held behind a change of cipher is not lost: where the change comes first and there are
/// keys, the epoch is raised, and the records behind it are looked at in the new epoch.
pub proof fn law_held_change_of_cipher_is_made<C: CipherSuite>(
    conn: ConnView<C>,
    pkt: Seq<u8>,
    rest: Seq<Seq<u8>>,
    plain: Seq<u8>,
    enqueue: bool,
)
    requires
        opens(conn, pkt, plain),
        pkt[0] == 20,
        plain.len() >= 14,
        plain[13] == 1,
        conn.ready(),
        RecordLayerHeader::read(pkt).epoch == conn.remote_epoch < u16::MAX,
    ensures
        ({
            let raised = conn.read_all(seq![pkt], enqueue).0;
            &&& raised.remote_epoch == conn.remote_epoch + 1
            &&& raised.pending == conn.pending
            &&& conn.retried(seq![pkt] + rest, enqueue).0 == raised.retried(rest, enqueue).0
            &&& conn.retried(seq![pkt] + rest, enqueue).1 is Ok <==> raised.retried(
                rest,
                enqueue,
            ).1 is Ok
        }),
{
    law_cipher_is_changed(conn, pkt, plain, enqueue);
    lemma_opens(conn, pkt, plain, enqueue);
    assert(plain.skip(13)[0] == plain[13]);
    let records = seq![pkt] + rest;
    assert(records[0] == pkt);
    assert(records.drop_first() =~= rest);
    assert(seq![pkt].drop_first() =~= Seq::<Seq<u8>>::empty());
    reveal_with_fuel(ConnView::read_all, 2);
    let (got, reply) = conn.received(pkt, enqueue);
    assert(got.answered(reply).0 =~= conn.read_all(seq![pkt], enqueue).0);
}

/// Where one of the records that were held makes reading stop without ending the connection, those
/// behind it are held again, in order, as far as there is room. Where it ends the connection, they
/// are not.
pub proof fn law_rest_is_held_again<C: CipherSuite>(
    conn: ConnView<C>,
    pkt: Seq<u8>,
    plain: Seq<u8>,
    rest: Seq<Seq<u8>>,
    enqueue: bool,
)
    requires
        opens(conn, pkt, plain),
        pkt[0] == 21,
        plain.len() >= 15,
        conn.pending.len() + rest.len() <= 64,
        conn::total(conn.pending) + conn::total(rest) <= 65536,
    ensures
        ({
            let (after, result) = conn.retried(seq![pkt] + rest, enqueue);
            let level = AlertLevel::of(plain[13]);
            let description = AlertDescription::of(plain[14]);
            &&& result is Err
            &&& level == AlertLevel::Fatal || description == AlertDescription::CloseNotify
                ==> after.pending.len() == 0
            &&& level != AlertLevel::Fatal && description != AlertDescription::CloseNotify
                ==> after.pending == conn.pending + rest
        }),
{
    lemma_alert_received(conn, pkt, plain, enqueue);
    let records = seq![pkt] + rest;
    assert(records[0] == pkt);
    assert(records.drop_first() =~= rest);
    let (got, reply) = conn.received(pkt, enqueue);
    let (answered, error) = got.answered(reply);
    if !reply.alert->Some_0.ends() {
        lemma_all_held(answered, rest);
    }
}

/// Records that there is room for are all held, in order.
proof fn lemma_all_held<C: CipherSuite>(conn: ConnView<C>, records: Seq<Seq<u8>>)
    requires
        conn.pending.len() + records.len() <= 64,
        conn::total(conn.pending) + conn::total(records) <= 65536,
    ensures
        conn.all_enqueued(records).pending == conn.pending + records,
    decreases records.len(),
{
    if records.len() == 0 {
        assert(conn.pending + records =~= conn.pending);
    } else {
        let rest = records.drop_first();
        lemma_total_first(records);
        lemma_total_first(conn.pending.push(records[0]));
        lemma_total_from(rest);
        assert(conn.pending.push(records[0]).drop_last() =~= conn.pending);
        lemma_all_held(conn.enqueued(records[0]), rest);
        assert(conn.pending.push(records[0]) + rest =~= conn.pending + records);
    }
}

proof fn lemma_total_from(all: Seq<Seq<u8>>)
    ensures
        conn::total(all) >= 0,
    decreases all.len(),
{
    if all.len() > 0 {
        lemma_total_from(all.drop_last());
    }
}

proof fn lemma_total_first(all: Seq<Seq<u8>>)
    requires
        all.len() > 0,
    ensures
        conn::total(all) == all[0].len() + conn::total(all.drop_first()),
    decreases all.len(),
{
    reveal_with_fuel(conn::total, 2);
    if all.len() > 1 {
        lemma_total_first(all.drop_last());
        assert(all.drop_last().drop_first() =~= all.drop_first().drop_last());
    }
}

/// Reading records together comes to reading them in two groups, one after the other, as long as the
/// first group is read without an error.
pub proof fn law_records_are_read_one_by_one<C: CipherSuite>(
    conn: ConnView<C>,
    first: Seq<Seq<u8>>,
    second: Seq<Seq<u8>>,
    enqueue: bool,
)
    requires
        conn.read_all(first, enqueue).1 is Ok,
    ensures
        conn.read_all(first + second, enqueue) == conn.read_all(first, enqueue).0.read_all(
            second,
            enqueue,
        ),
    decreases first.len(),
{
    if first.len() == 0 {
        assert(first + second =~= second);
    } else {
        let (got, reply) = conn.received(first[0], enqueue);
        let answered = got.answered(reply).0;
        assert((first + second)[0] == first[0]);
        assert((first + second).drop_first() =~= first.drop_first() + second);
        law_records_are_read_one_by_one(answered, first.drop_first(), second, enqueue);
    }
}

/// The items that both ends keep of a flight.
pub open spec fn flight_items(
    is_client: bool,
    epoch: u16,
    headers: Seq<HandshakeHeader>,
    bodies: Seq<Seq<u8>>,
) -> Seq<CachedView> {
    Seq::new(
        headers.len(),
        |k: int|
            CachedView {
                typ: headers[k].handshake_type,
                is_client,
                epoch,
                message_sequence: headers[k].message_sequence,
                data: headers[k].bytes() + bodies[k],
            },
    )
}

/// Whether what an end has to send is a flight of whole handshake messages of one epoch, numbered one
/// after the other from `first` on.
pub open spec fn is_flight_of<C: CipherSuite>(
    sender: ConnView<C>,
    epoch: u16,
    first: u16,
    headers: Seq<HandshakeHeader>,
    bodies: Seq<Seq<u8>>,
) -> bool {
    &&& sender.outgoing.len() == headers.len() == bodies.len()
    &&& headers.len() <= 65536
    &&& forall|k: int|
        0 <= k < headers.len() ==> {
            &&& conn::is_whole(#[trigger] sender.outgoing[k], headers[k], bodies[k])
            &&& sender.outgoing[k].header.epoch == epoch
            &&& headers[k].message_sequence == (first + k) % 65536
        }
}

/// Whether an end is where it takes in a flight of the other end's: of the other role, with the same
/// keys the other way round where the flight is encrypted, at the first message of the flight, with
/// nothing of it there, and with the numbers of its records not seen yet.
pub open spec fn awaits_flight<C: CipherSuite>(
    sender: ConnView<C>,
    receiver: ConnView<C>,
    epoch: u16,
    headers: Seq<HandshakeHeader>,
    number: int,
    limit: int,
) -> bool {
    &&& receiver.is_client == !sender.is_client
    &&& epoch > 0 ==> sender.cipher is Some && receiver.cipher == Some(
        C::mirrored(sender.cipher->Some_0),
    ) && receiver.ready()
    &&& epoch <= receiver.remote_epoch
    &&& receiver.fragments.messages == Map::<u16, fragment_buffer::MessageView>::empty()
    &&& forall|n: int|
        number <= n < limit ==> receiver.watched(epoch).detectors[epoch as int].fresh(
            #[trigger] (n as u64),
        )
    &&& forall|k: int|
        0 <= k < headers.len() ==> {
            &&& !handshake_cache::is_cached(
                sender.cache,
                (#[trigger] headers[k]).message_sequence,
                sender.is_client,
            )
            &&& !handshake_cache::is_cached(
                receiver.cache,
                headers[k].message_sequence,
                sender.is_client,
            )
        }
}

/// Items with other numbers than a message's do not stand in its way.
proof fn lemma_not_in_the_way(
    cache: Seq<CachedView>,
    items: Seq<CachedView>,
    k: int,
    first: u16,
    is_client: bool,
    number: u16,
)
    requires
        0 <= k <= items.len() <= 65536,
        k < 65536,
        forall|j: int|
            0 <= j < items.len() ==> (#[trigger] items[j]).message_sequence == (first + j) % 65536,
        number == (first + k) % 65536,
        !handshake_cache::is_cached(cache, number, is_client),
    ensures
        !handshake_cache::is_cached(cache + items.take(k), number, is_client),
{
    let all = cache + items.take(k);
    assert forall|i: int| 0 <= i < all.len() implies !((#[trigger] all[i]).message_sequence
        == number && all[i].is_client == is_client) by {
        if i < cache.len() {
            assert(all[i] == cache[i]);
        } else {
            let j = i - cache.len();
            assert(all[i] == items[j]);
            assert((first + j) % 65536 != (first + k) % 65536);
        }
    }
}

/// The numbers of a flight's items.
proof fn lemma_flight_items<C: CipherSuite>(
    sender: ConnView<C>,
    epoch: u16,
    first: u16,
    headers: Seq<HandshakeHeader>,
    bodies: Seq<Seq<u8>>,
)
    requires
        is_flight_of(sender, epoch, first, headers, bodies),
    ensures
        ({
            let items = flight_items(sender.is_client, epoch, headers, bodies);
            &&& items.len() == headers.len()
            &&& forall|j: int|
                0 <= j < items.len() ==> (#[trigger] items[j]).message_sequence == (first + j)
                    % 65536
        }),
{
    let items = flight_items(sender.is_client, epoch, headers, bodies);
    assert forall|i: int| 0 <= i < items.len() implies (#[trigger] items[i]).message_sequence == (
    first + i) % 65536 by {
        assert(conn::is_whole(sender.outgoing[i], headers[i], bodies[i]));
    }
}

/// The records of one packet, as they were encoded.
proof fn lemma_segment<C: CipherSuite>(sender: ConnView<C>, raws: Seq<Seq<u8>>, j: int)
    requires
        0 <= j < sender.outgoing.len(),
        conn::all_encoded::<C>(sender.cipher, sender.plan(sender.outgoing.len()).plains, raws),
    ensures
        ({
            let records = conn::records_of(
                sender.outgoing[j],
                sender.config.maximum_transmission_unit as int,
                conn::number_of(sender, j),
            );
            let n = sender.plan(j as nat).plains.len() as int;
            let m = sender.plan((j + 1) as nat).plains.len() as int;
            &&& m == n + records.len() <= raws.len()
            &&& raws.len() == sender.plan(sender.outgoing.len()).plains.len()
            &&& conn::all_encoded::<C>(sender.cipher, records, raws.subrange(n, m))
            &&& raws.take(m) == raws.take(n) + raws.subrange(n, m)
        }),
{
    let plains = sender.plan(sender.outgoing.len()).plains;
    let records = conn::records_of(
        sender.outgoing[j],
        sender.config.maximum_transmission_unit as int,
        conn::number_of(sender, j),
    );
    conn::lemma_packet_records(sender, j);
    let n = sender.plan(j as nat).plains.len() as int;
    let m = n + records.len();
    let segment = raws.subrange(n, m);
    assert forall|i: int| 0 <= i < records.len() implies conn::encoded::<C>(
        sender.cipher,
        records[i],
        Ok::<Seq<u8>, Error>(#[trigger] segment[i]),
    ) by {
        assert(plains[n + i] == records[i]);
        assert(segment[i] == raws[n + i]);
        assert(conn::encoded::<C>(
            sender.cipher,
            plains[n + i],
            Ok::<Seq<u8>, Error>(raws[n + i]),
        ));
    }
    assert(raws.take(m) =~= raws.take(n) + segment);
}

/// The end that sends after the first messages of a flight.
#[verifier::spinoff_prover]
proof fn lemma_flight_sent<C: CipherSuite>(
    sender: ConnView<C>,
    epoch: u16,
    first: u16,
    headers: Seq<HandshakeHeader>,
    bodies: Seq<Seq<u8>>,
    k: int,
)
    requires
        is_flight_of(sender, epoch, first, headers, bodies),
        conn::next_number(sender.sequences, epoch) + sender.plan(
            sender.outgoing.len(),
        ).plains.len() <= MAX_SEQUENCE_NUMBER + 1,
        forall|j: int|
            0 <= j < headers.len() ==> !handshake_cache::is_cached(
                sender.cache,
                (#[trigger] headers[j]).message_sequence,
                sender.is_client,
            ),
        0 <= k <= headers.len(),
    ensures
        ({
            let so_far = sender.plan(k as nat);
            let items = flight_items(sender.is_client, epoch, headers, bodies);
            &&& so_far.cache == sender.cache + items.take(k)
            &&& conn::next_number(so_far.sequences, epoch) == conn::next_number(
                sender.sequences,
                epoch,
            ) + so_far.plains.len()
            &&& so_far.plains.len() <= sender.plan(sender.outgoing.len()).plains.len()
        }),
    decreases k,
{
    let items = flight_items(sender.is_client, epoch, headers, bodies);
    if k == 0 {
        assert(sender.cache + items.take(0) =~= sender.cache);
    } else {
        let j = k - 1;
        lemma_flight_sent(sender, epoch, first, headers, bodies, j);
        lemma_flight_items(sender, epoch, first, headers, bodies);
        conn::lemma_packet_records(sender, j);
        let packet = sender.outgoing[j];
        assert(conn::is_whole(packet, headers[j], bodies[j]));
        lemma_not_in_the_way(
            sender.cache,
            items,
            j,
            first,
            sender.is_client,
            headers[j].message_sequence,
        );
        assert((sender.cache + items.take(j)).push(items[j]) =~= sender.cache + items.take(k));
    }
}

/// Whether the end that receives may be so after the first messages of a flight.
#[verifier::opaque]
pub open spec fn took_in_flight<C: CipherSuite>(
    receiver: ConnView<C>,
    after: ConnView<C>,
    epoch: u16,
    items: Seq<CachedView>,
    k: int,
    number: int,
    limit: int,
) -> bool {
    &&& after.cache == receiver.cache + items.take(k)
    &&& after.fragments.messages == Map::<u16, fragment_buffer::MessageView>::empty()
    &&& after.fragments.current == (receiver.fragments.current + k) % 65536
    &&& after == (ConnView {
        cache: after.cache,
        fragments: after.fragments,
        detectors: after.detectors,
        handshake_rx: after.handshake_rx,
        ..receiver
    })
    &&& forall|m: int|
        number <= m < limit ==> after.watched(epoch).detectors[epoch as int].fresh(
            #[trigger] (m as u64),
        )
}

/// Whether records are read without an error and leave the connection so.
#[verifier::opaque]
pub open spec fn reads_to<C: CipherSuite>(
    before: ConnView<C>,
    records: Seq<Seq<u8>>,
    enqueue: bool,
    after: ConnView<C>,
) -> bool {
    before.read_all(records, enqueue) == (after, Ok::<(), Error>(()))
}

proof fn lemma_reads_on<C: CipherSuite>(
    before: ConnView<C>,
    one: Seq<Seq<u8>>,
    middle: ConnView<C>,
    other: Seq<Seq<u8>>,
    after: ConnView<C>,
    enqueue: bool,
)
    requires
        reads_to(before, one, enqueue, middle),
        reads_to(middle, other, enqueue, after),
    ensures
        reads_to(before, one + other, enqueue, after),
{
    reveal(reads_to);
    law_records_are_read_one_by_one(before, one, other, enqueue);
}

/// A handshake message arrives.
#[verifier::spinoff_prover]
proof fn lemma_arrives<C: CipherSuite>(
    cipher: Option<C::Keys>,
    packet: PacketView,
    h: HandshakeHeader,
    body: Seq<u8>,
    mtu: int,
    number: int,
    raws: Seq<Seq<u8>>,
    receiver: ConnView<C>,
    enqueue: bool,
    limit: int,
) -> (after: ConnView<C>)
    requires
        conn::is_whole(packet, h, body),
        mtu > 0,
        0 <= number,
        number + raws.len() <= limit <= MAX_SEQUENCE_NUMBER + 1,
        packet.header.epoch > 0 ==> cipher is Some && receiver.cipher == Some(
            C::mirrored(cipher->Some_0),
        ) && receiver.ready(),
        conn::all_encoded::<C>(cipher, conn::records_of(packet, mtu, number), raws),
        receiver.fragments.messages == Map::<u16, fragment_buffer::MessageView>::empty(),
        receiver.fragments.current == h.message_sequence,
        packet.header.epoch <= receiver.remote_epoch,
        forall|n: int|
            number <= n < limit ==> receiver.watched(
                packet.header.epoch,
            ).detectors[packet.header.epoch as int].fresh(#[trigger] (n as u64)),
    ensures
        reads_to(receiver, raws, enqueue, after),
        after.cache == handshake_cache::with_item(
            receiver.cache,
            CachedView {
                typ: h.handshake_type,
                is_client: !receiver.is_client,
                epoch: packet.header.epoch,
                message_sequence: h.message_sequence,
                data: h.bytes() + body,
            },
        ),
        after.fragments.messages == Map::<u16, fragment_buffer::MessageView>::empty(),
        after.fragments.current == h.message_sequence.wrapping_add(1),
        after == (ConnView {
            cache: after.cache,
            fragments: after.fragments,
            detectors: after.detectors,
            handshake_rx: true,
            ..receiver
        }),
        forall|n: int|
            number + raws.len() <= n < limit ==> after.watched(
                packet.header.epoch,
            ).detectors[packet.header.epoch as int].fresh(#[trigger] (n as u64)),
{
    conn::lemma_message_arrives(
        cipher,
        packet,
        h,
        body,
        mtu,
        number,
        raws,
        receiver,
        enqueue,
        limit,
    );
    reveal(reads_to);
    receiver.read_all(raws, enqueue).0
}

/// One more message of a flight arrives.
#[verifier::spinoff_prover]
proof fn lemma_flight_goes_on<C: CipherSuite>(
    sender: ConnView<C>,
    epoch: u16,
    headers: Seq<HandshakeHeader>,
    bodies: Seq<Seq<u8>>,
    segment: Seq<Seq<u8>>,
    receiver: ConnView<C>,
    middle: ConnView<C>,
    enqueue: bool,
    j: int,
    number: int,
    at: int,
    limit: int,
) -> (after: ConnView<C>)
    requires
        is_flight_of(sender, epoch, receiver.fragments.current, headers, bodies),
        awaits_flight(sender, receiver, epoch, headers, number, limit),
        sender.config.maximum_transmission_unit > 0,
        0 <= j < headers.len(),
        0 <= number <= at,
        at + segment.len() <= limit <= MAX_SEQUENCE_NUMBER + 1,
        conn::all_encoded::<C>(
            sender.cipher,
            conn::records_of(
                sender.outgoing[j],
                sender.config.maximum_transmission_unit as int,
                at,
            ),
            segment,
        ),
        took_in_flight(
            receiver,
            middle,
            epoch,
            flight_items(sender.is_client, epoch, headers, bodies),
            j,
            at,
            limit,
        ),
    ensures
        reads_to(middle, segment, enqueue, after),
        took_in_flight(
            receiver,
            after,
            epoch,
            flight_items(sender.is_client, epoch, headers, bodies),
            j + 1,
            at + segment.len(),
            limit,
        ),
{
    reveal(took_in_flight);
    let first = receiver.fragments.current;
    let items = flight_items(sender.is_client, epoch, headers, bodies);
    let packet = sender.outgoing[j];
    let seq = headers[j].message_sequence;
    assert(conn::is_whole(packet, headers[j], bodies[j]));
    let after = lemma_arrives(
        sender.cipher,
        packet,
        headers[j],
        bodies[j],
        sender.config.maximum_transmission_unit as int,
        at,
        segment,
        middle,
        enqueue,
        limit,
    );
    lemma_flight_items(sender, epoch, first, headers, bodies);
    assert(!handshake_cache::is_cached(receiver.cache, headers[j].message_sequence, sender.is_client));
    lemma_not_in_the_way(receiver.cache, items, j, first, sender.is_client, seq);
    assert((receiver.cache + items.take(j)).push(items[j]) =~= receiver.cache + items.take(j + 1));
    assert(seq.wrapping_add(1) == (first + j + 1) % 65536);
    after
}

/// The end that receives before the first message of a flight.
proof fn lemma_flight_begins<C: CipherSuite>(
    sender: ConnView<C>,
    epoch: u16,
    headers: Seq<HandshakeHeader>,
    items: Seq<CachedView>,
    receiver: ConnView<C>,
    enqueue: bool,
    number: int,
    limit: int,
)
    requires
        awaits_flight(sender, receiver, epoch, headers, number, limit),
    ensures
        reads_to(receiver, Seq::<Seq<u8>>::empty(), enqueue, receiver),
        took_in_flight(receiver, receiver, epoch, items, 0, number, limit),
{
    reveal(took_in_flight);
    reveal(reads_to);
    assert(receiver.cache + items.take(0) =~= receiver.cache);
}

/// The end that receives after the first messages of a flight.
#[verifier::spinoff_prover]
proof fn lemma_flight_so_far<C: CipherSuite>(
    sender: ConnView<C>,
    epoch: u16,
    headers: Seq<HandshakeHeader>,
    bodies: Seq<Seq<u8>>,
    raws: Seq<Seq<u8>>,
    receiver: ConnView<C>,
    enqueue: bool,
    k: int,
) -> (after: ConnView<C>)
    requires
        ({
            let number = conn::next_number(sender.sequences, epoch);
            let plains = sender.plan(sender.outgoing.len()).plains;
            &&& is_flight_of(sender, epoch, receiver.fragments.current, headers, bodies)
            &&& sender.config.maximum_transmission_unit > 0
            &&& number + plains.len() <= MAX_SEQUENCE_NUMBER + 1
            &&& conn::all_encoded::<C>(sender.cipher, plains, raws)
            &&& awaits_flight(sender, receiver, epoch, headers, number, number + plains.len())
        }),
        0 <= k <= headers.len(),
    ensures
        reads_to(receiver, raws.take(sender.plan(k as nat).plains.len() as int), enqueue, after),
        took_in_flight(
            receiver,
            after,
            epoch,
            flight_items(sender.is_client, epoch, headers, bodies),
            k,
            conn::next_number(sender.sequences, epoch) + sender.plan(k as nat).plains.len(),
            conn::next_number(sender.sequences, epoch) + sender.plan(
                sender.outgoing.len(),
            ).plains.len(),
        ),
    decreases k,
{
    let first = receiver.fragments.current;
    let number = conn::next_number(sender.sequences, epoch);
    let limit = number + sender.plan(sender.outgoing.len()).plains.len();
    let items = flight_items(sender.is_client, epoch, headers, bodies);
    if k == 0 {
        assert(sender.plan(0).plains.len() == 0);
        assert(raws.take(0) =~= Seq::<Seq<u8>>::empty());
        lemma_flight_begins(sender, epoch, headers, items, receiver, enqueue, number, limit);
        receiver
    } else {
        let j = k - 1;
        let middle = lemma_flight_so_far(
            sender,
            epoch,
            headers,
            bodies,
            raws,
            receiver,
            enqueue,
            j,
        );
        lemma_flight_sent(sender, epoch, first, headers, bodies, j);
        lemma_segment(sender, raws, j);
        let n = sender.plan(j as nat).plains.len() as int;
        let m = sender.plan(k as nat).plains.len() as int;
        assert(sender.outgoing[j].header.epoch == epoch) by {
            assert(conn::is_whole(sender.outgoing[j], headers[j], bodies[j]));
        }
        assert(conn::number_of(sender, j) == number + n);
        let segment = raws.subrange(n, m);
        let after = lemma_flight_goes_on(
            sender,
            epoch,
            headers,
            bodies,
            segment,
            receiver,
            middle,
            enqueue,
            j,
            number,
            number + n,
            limit,
        );
        lemma_reads_on(receiver, raws.take(n), middle, segment, after, enqueue);
        after
    }
}

/// Both ends keep the same of a whole flight: once the other end has taken in everything that was
/// sent, each end has kept every message of the flight, in order, behind what it had, as the same
/// items, with the role of the end that sent them. This holds for the client as for the server.
pub proof fn law_both_ends_keep_the_same_flight<C: CipherSuite>(
    sender: ConnView<C>,
    epoch: u16,
    headers: Seq<HandshakeHeader>,
    bodies: Seq<Seq<u8>>,
    raws: Seq<Seq<u8>>,
    receiver: ConnView<C>,
    enqueue: bool,
)
    requires
        ({
            let number = conn::next_number(sender.sequences, epoch);
            let plains = sender.plan(sender.outgoing.len()).plains;
            &&& is_flight_of(sender, epoch, receiver.fragments.current, headers, bodies)
            &&& sender.config.maximum_transmission_unit > 0
            &&& number + plains.len() <= MAX_SEQUENCE_NUMBER + 1
            &&& conn::all_encoded::<C>(sender.cipher, plains, raws)
            &&& awaits_flight(sender, receiver, epoch, headers, number, number + plains.len())
        }),
    ensures
        sender.sent(raws).cache == sender.cache + flight_items(
            sender.is_client,
            epoch,
            headers,
            bodies,
        ),
        receiver.read_all(raws, enqueue).1 is Ok,
        receiver.read_all(raws, enqueue).0.cache == receiver.cache + flight_items(
            sender.is_client,
            epoch,
            headers,
            bodies,
        ),
{
    let items = flight_items(sender.is_client, epoch, headers, bodies);
    let n = headers.len() as int;
    let after = lemma_flight_so_far(
        sender,
        epoch,
        headers,
        bodies,
        raws,
        receiver,
        enqueue,
        n,
    );
    reveal(took_in_flight);
    reveal(reads_to);
    lemma_flight_sent(sender, epoch, receiver.fragments.current, headers, bodies, n);
    assert(items.take(n) =~= items);
    assert(raws.take(raws.len() as int) =~= raws);
}

/// Where a record cannot be sent, its packet and those before it are gone and the others wait on, in
/// order. No datagram is made, and the handshake messages among those that are gone are kept under
/// this end's own role, as those that were sent are.
pub proof fn law_failure_leaves_the_rest_waiting<C: CipherSuite>(conn: ConnView<C>, k: int, i: int)
    requires
        0 <= k < conn.outgoing.len(),
    ensures
        ({
            let after = conn.stopped(k, i);
            &&& after.outgoing.len() == conn.outgoing.len() - k - 1
            &&& forall|j: int|
                0 <= j < after.outgoing.len() ==> #[trigger] after.outgoing[j] == conn.outgoing[k + 1
                    + j]
            &&& after.datagrams == conn.datagrams
            &&& after.decrypted == conn.decrypted
            &&& conn.cache.len() <= after.cache.len()
            &&& after.cache.take(conn.cache.len() as int) == conn.cache
            &&& forall|j: int|
                conn.cache.len() <= j < after.cache.len() ==> (
                #[trigger] after.cache[j]).is_client == conn.is_client
        }),
{
    let after = conn.stopped(k, i);
    let next = conn.plan((k + 1) as nat);
    assert(after.cache == next.cache);
    let upto = ConnView { outgoing: conn.outgoing.take(k + 1), ..conn };
    lemma_plan_of_prefix(conn, upto, (k + 1) as nat);
    conn::law_sent_messages_are_kept(upto, Seq::empty());
    let cache = upto.sent(Seq::empty()).cache;
    assert(cache == next.cache);
    assert forall|j: int| conn.cache.len() <= j < cache.len() implies (
    #[trigger] cache[j]).is_client == conn.is_client by {
        let p = choose|p: int|
            0 <= p < upto.outgoing.len() && conn::is_kept_as(
                #[trigger] upto.outgoing[p],
                upto.is_client,
                cache[j],
            );
        assert(conn::is_kept_as(upto.outgoing[p], upto.is_client, cache[j]));
    }
}

proof fn lemma_plan_of_prefix<C: CipherSuite>(conn: ConnView<C>, upto: ConnView<C>, n: nat)
    requires
        n <= upto.outgoing.len() <= conn.outgoing.len(),
        upto == (ConnView { outgoing: conn.outgoing.take(upto.outgoing.len() as int), ..conn }),
    ensures
        upto.plan(n) == conn.plan(n),
    decreases n,
{
    if n > 0 {
        lemma_plan_of_prefix(conn, upto, (n - 1) as nat);
        assert(upto.outgoing[n - 1] == conn.outgoing[n - 1]);
    }
}

/// What was held in the wrong order is not lost: where data of the next epoch was held before the
/// change of cipher that begins it, and there are keys now, the change is made, and then the data is
/// handed on.
pub proof fn law_held_data_waits_for_its_epoch<C: CipherSuite>(
    conn: ConnView<C>,
    data: Seq<u8>,
    change: Seq<u8>,
    plain: Seq<u8>,
)
    requires
        conn.pending == seq![data, change],
        conn.remote_epoch < u16::MAX,
        data.len() >= 13,
        data.len() <= 65536,
        RecordLayerHeader::read(data).epoch == conn.remote_epoch + 1,
        opens((ConnView { pending: Seq::empty(), ..conn }), change, plain),
        change[0] == 20,
        plain.len() >= 14,
        plain[13] == 1,
        RecordLayerHeader::read(change).epoch == conn.remote_epoch,
        conn.ready(),
        ({
            let raised = (ConnView { pending: seq![data], ..conn }).read_all(seq![change], true).0;
            let next = ConnView { pending: Seq::empty(), ..raised };
            conn::holds_data(next, data) && next.is_news(data)
        }),
    ensures
        ({
            let (after, result) = conn.flushed(true);
            &&& result is Ok
            &&& after.remote_epoch == conn.remote_epoch + 1
            &&& after.pending.len() == 0
            &&& after.decrypted == conn.decrypted.push(
                conn::data_in::<C>(conn.cipher->Some_0, data),
            )
        }),
{
    let emptied = ConnView { pending: Seq::<Seq<u8>>::empty(), ..conn };
    let holding = ConnView { pending: seq![data], ..conn };
    lemma_next_epoch_is_held(emptied, data);
    assert(emptied.pending.push(data) =~= seq![data]);
    lemma_watched_alike(emptied, holding, change);
    law_cipher_is_changed(holding, change, plain, true);
    let raised = holding.read_all(seq![change], true).0;
    lemma_change_is_retried(holding, change, plain);
    lemma_retried_first(emptied, data, seq![change], holding);
    assert(seq![data] + seq![change] =~= seq![data, change]);
    lemma_flushed_again(conn, raised);
    lemma_one_is_handed_on(raised, data);
}

/// A record of the next epoch is held, and nothing else comes of it.
proof fn lemma_next_epoch_is_held<C: CipherSuite>(conn: ConnView<C>, pkt: Seq<u8>)
    requires
        conn.pending.len() == 0,
        13 <= pkt.len() <= 65536,
        RecordLayerHeader::read(pkt).epoch == conn.remote_epoch + 1,
    ensures
        ({
            let held = ConnView { pending: conn.pending.push(pkt), ..conn };
            &&& conn.received(pkt, true) == (held, conn::silence())
            &&& held.answered(conn::silence()) == (held, None::<Error>)
        }),
{
    let held = ConnView { pending: conn.pending.push(pkt), ..conn };
    assert(held.answered(conn::silence()).0 =~= held);
}

/// A change of cipher that was held is made.
proof fn lemma_change_is_retried<C: CipherSuite>(
    conn: ConnView<C>,
    change: Seq<u8>,
    plain: Seq<u8>,
)
    requires
        opens(conn, change, plain),
        change[0] == 20,
        plain.len() >= 14,
        plain[13] == 1,
        conn.ready(),
        RecordLayerHeader::read(change).epoch == conn.remote_epoch < u16::MAX,
    ensures
        conn.retried(seq![change], true).0 == conn.read_all(seq![change], true).0,
        conn.retried(seq![change], true).1 is Ok,
{
    law_held_change_of_cipher_is_made(conn, change, Seq::empty(), plain, true);
    assert(seq![change] + Seq::<Seq<u8>>::empty() =~= seq![change]);
}

/// A first record that only moves the connection on.
proof fn lemma_retried_first<C: CipherSuite>(
    conn: ConnView<C>,
    pkt: Seq<u8>,
    rest: Seq<Seq<u8>>,
    next: ConnView<C>,
)
    requires
        conn.received(pkt, true) == (next, conn::silence()),
        next.answered(conn::silence()) == (next, None::<Error>),
    ensures
        conn.retried(seq![pkt] + rest, true).0 == next.retried(rest, true).0,
        conn.retried(seq![pkt] + rest, true).1 is Ok <==> next.retried(rest, true).1 is Ok,
{
    assert((seq![pkt] + rest)[0] == pkt);
    assert((seq![pkt] + rest).drop_first() =~= rest);
}

/// Where what was held raised the epoch and something is still held, that is looked at again.
proof fn lemma_flushed_again<C: CipherSuite>(conn: ConnView<C>, raised: ConnView<C>)
    requires
        (ConnView { pending: Seq::empty(), ..conn }).retried(conn.pending, true).0 == raised,
        (ConnView { pending: Seq::empty(), ..conn }).retried(conn.pending, true).1 is Ok,
        raised.remote_epoch > conn.remote_epoch,
        raised.pending.len() > 0,
    ensures
        conn.flushed(true).0 == raised.flushed(true).0,
        conn.flushed(true).1 is Ok <==> raised.flushed(true).1 is Ok,
{
}

/// One record of data that was held is handed on.
proof fn lemma_one_is_handed_on<C: CipherSuite>(conn: ConnView<C>, data: Seq<u8>)
    requires
        conn.pending == seq![data],
        conn::holds_data((ConnView { pending: Seq::empty(), ..conn }), data),
        (ConnView { pending: Seq::empty(), ..conn }).is_news(data),
    ensures
        conn.flushed(true).1 is Ok,
        conn.flushed(true).0.pending.len() == 0,
        conn.flushed(true).0.remote_epoch == conn.remote_epoch,
        conn.flushed(true).0.decrypted == conn.decrypted.push(
            conn::data_in::<C>(conn.cipher->Some_0, data),
        ),
{
    let next = ConnView { pending: Seq::<Seq<u8>>::empty(), ..conn };
    assert(seq![data].drop_first() =~= Seq::<Seq<u8>>::empty());
    assert(seq![data][0] == data);
    conn::law_data_record_is_handed_on(next, data, true);
    let after = next.received(data, true).0;
    assert(after.retried(Seq::<Seq<u8>>::empty(), true) == (after, Ok::<bool, Error>(false)));
    assert(next.retried(seq![data], true).0 == after);
}

proof fn lemma_watched_alike<C: CipherSuite>(one: ConnView<C>, other: ConnView<C>, pkt: Seq<u8>)
    requires
        other == (ConnView { pending: other.pending, ..one }),
    ensures
        one.is_news(pkt) == other.is_news(pkt),
        one.plain_of(pkt) == other.plain_of(pkt),
        one.ready() == other.ready(),
{
}

/// A record that could join a datagram does: two datagrams one after the other are together at least
/// as long as the limit.
pub proof fn law_datagrams_are_filled(mtu: int, raws: Seq<Seq<u8>>)
    ensures
        ({
            let datagrams = conn::datagrams_of(mtu, raws);
            forall|j: int|
                0 <= j < datagrams.len() - 1 ==> (#[trigger] datagrams[j]).len() + datagrams[j
                    + 1].len() >= mtu
        }),
{
    lemma_packed_filled(mtu, raws);
}

proof fn lemma_packed_filled(mtu: int, raws: Seq<Seq<u8>>)
    ensures
        ({
            let (full, begun) = conn::packed(mtu, raws);
            &&& forall|j: int|
                0 <= j < full.len() - 1 ==> (#[trigger] full[j]).len() + full[j + 1].len() >= mtu
            &&& full.len() > 0 ==> full.last().len() + begun.len() >= mtu
        }),
    decreases raws.len(),
{
    if raws.len() > 0 {
        lemma_packed_filled(mtu, raws.drop_last());
    }
}

/// No complete message waits behind another one: once those that are complete are taken out, the next
/// one is not. What was kept stays in front, and what is new has the role of the other end.
pub proof fn law_complete_messages_are_taken_out(
    fragments: fragment_buffer::BufferView,
    cache: Seq<CachedView>,
    is_client: bool,
)
    requires
        fragments.messages.dom().finite(),
    ensures
        ({
            let (left, kept) = conn::drained(fragments, cache, is_client);
            &&& !left.ready()
            &&& cache.len() <= kept.len()
            &&& kept.take(cache.len() as int) == cache
            &&& forall|i: int|
                cache.len() <= i < kept.len() ==> (#[trigger] kept[i]).is_client == !is_client
        }),
    decreases fragments.messages.dom().len(),
{
    if !fragments.ready() {
        assert(cache.take(cache.len() as int) =~= cache);
    } else {
        let message = fragments.messages[fragments.current];
        let raw = message.header().bytes() + message.body;
        let next = conn::kept(cache, raw, message.epoch, is_client);
        law_complete_messages_are_taken_out(fragments.popped(), next, is_client);
        let kept = conn::drained(fragments, cache, is_client).1;
        assert(next.take(cache.len() as int) =~= cache);
        assert(kept.take(cache.len() as int) =~= cache) by {
            assert forall|i: int| 0 <= i < cache.len() implies kept[i] == cache[i] by {
                assert(kept.take(next.len() as int)[i] == next[i]);
                assert(next.take(cache.len() as int)[i] == cache[i]);
            }
        }
        assert forall|i: int| cache.len() <= i < kept.len() implies (#[trigger] kept[i]).is_client
            == !is_client by {
            if i < next.len() {
                assert(kept.take(next.len() as int)[i] == next[i]);
            }
        }
    }
}

/// Handshake data is noted, so that the handshake goes on, and nothing is answered to it.
pub proof fn law_handshake_data_is_noted<C: CipherSuite>(
    conn: ConnView<C>,
    pkt: Seq<u8>,
    plain: Seq<u8>,
    enqueue: bool,
)
    requires
        opens(conn, pkt, plain),
        pkt[0] == 22,
        conn.fragments.push(plain).1 is Ok,
    ensures
        conn.read_all(seq![pkt], enqueue).1 is Ok,
        conn.read_all(seq![pkt], enqueue).0.handshake_rx,
        conn.read_all(seq![pkt], enqueue).0.outgoing == conn.outgoing,
        conn.read_all(seq![pkt], enqueue).0.decrypted == conn.decrypted,
        conn.read_all(seq![pkt], enqueue).0.remote_epoch == conn.remote_epoch,
{
    lemma_opens(conn, pkt, plain, enqueue);
    assert(seq![pkt].drop_first() =~= Seq::<Seq<u8>>::empty());
    reveal_with_fuel(ConnView::read_all, 2);
    let (fragments, _) = conn.fragments.push(plain);
    let (left, cache) = conn::drained(fragments, conn.cache, conn.is_client);
}

/// A handshake record that cannot be taken in is dropped: it is reported, its number is not used up,
/// no alert is sent, and what comes behind it is read.
pub proof fn law_malformed_handshake_record_is_dropped<C: CipherSuite>(
    conn: ConnView<C>,
    pkt: Seq<u8>,
    plain: Seq<u8>,
    fault: Error,
    enqueue: bool,
)
    requires
        opens(conn, pkt, plain),
        pkt[0] == 22,
        conn.fragments.push(plain).1 == Err::<bool, Error>(fault),
    ensures
        ({
            let (after, result) = conn.read_all(seq![pkt], enqueue);
            &&& result == Err::<(), Error>(fault)
            &&& after.outgoing == conn.outgoing
            &&& after.decrypted == conn.decrypted
            &&& after.cache == conn.cache
            &&& after.pending == conn.pending
            &&& after.is_news(pkt)
        }),
{
    lemma_opens(conn, pkt, plain, enqueue);
    let h = RecordLayerHeader::read(pkt);
    assert(seq![pkt].drop_first() =~= Seq::<Seq<u8>>::empty());
    reveal_with_fuel(ConnView::read_all, 2);
    assert(conn.watched(h.epoch).watched(h.epoch) == conn.watched(h.epoch));
}

/// A record whose number is more than 48 bits hold is not sent, and a record that is not to be
/// encrypted is sent as it is.
pub proof fn law_numbers_end_at_48_bits<C: CipherSuite>(
    cipher: Option<C::Keys>,
    plain: conn::Plain,
    raw: Result<Seq<u8>, Error>,
)
    requires
        conn::encoded::<C>(cipher, plain, raw),
    ensures
        plain.header.sequence_number > 0xffff_ffff_ffff ==> raw == Err::<Seq<u8>, Error>(
            Error::ErrSequenceNumberOverflow,
        ),
        plain.header.sequence_number <= 0xffff_ffff_ffff && !plain.encrypt ==> raw == Ok::<
            Seq<u8>,
            Error,
        >(plain.bytes),
{
}

/// Every epoch has its own numbers: the first record of an epoch that nothing came of yet is news,
/// whatever came in other epochs, as long as its number is one that there is. Taking it in leaves the
/// others as they are.
pub proof fn law_epochs_count_for_themselves<C: CipherSuite>(
    conn: ConnView<C>,
    pkt: Seq<u8>,
    other: u16,
)
    requires
        pkt.len() >= 13,
        conn.config.replay_protection_window > 0,
        RecordLayerHeader::read(pkt).epoch <= conn.remote_epoch,
        conn.detectors.len() <= RecordLayerHeader::read(pkt).epoch,
        other < conn.detectors.len(),
    ensures
        conn.is_news(pkt) <==> RecordLayerHeader::read(pkt).sequence_number <= 0xffff_ffff_ffff,
        ({
            let h = RecordLayerHeader::read(pkt);
            conn.watched(h.epoch).accepted(h).detectors[other as int]
                == conn.detectors[other as int]
        }),
{
    replay_detector::law_all_is_fresh_at_first(
        conn.config.replay_protection_window as nat,
        MAX_SEQUENCE_NUMBER,
        RecordLayerHeader::read(pkt).sequence_number,
    );
}

} // verus!
