//! What holds of an endpoint whatever its associations send and receive.

use crate::alert::{AlertDescription, AlertLevel};
use crate::cipher_suite::CipherSuite;
use crate::conn;
use crate::conn::{ConnView, Flight, HandshakeConfig, HandshakeState, State};
use crate::conn_laws;
use crate::endpoint;
use crate::endpoint::{EndpointView, Farewell, Handshaker, TransmitView};
use crate::error::Error;
use crate::time::Instant;
use crate::transport::SocketAddr;
use vstd::prelude::*;

verus! {

/// A new connection has nothing behind it: no record was sent or received, nothing is kept or waits,
/// and it is neither done nor closed. A client's handshake begins with the first flight, a server's
/// waits for it.
pub proof fn law_connection_begins_empty<C: CipherSuite>(config: HandshakeConfig, is_client: bool)
    ensures
        ({
            let conn = endpoint::begun::<C>(config, is_client, None::<State<C>>);
            &&& conn.is_client == is_client
            &&& conn.config == config
            &&& conn.local_epoch == 0 && conn.remote_epoch == 0
            &&& conn.cipher is None
            &&& forall|epoch: u16| #[trigger] conn::next_number(conn.sequences, epoch) == 0
            &&& conn.decrypted.len() == 0 && conn.pending.len() == 0 && conn.cache.len() == 0
            &&& conn.outgoing.len() == 0 && conn.datagrams.len() == 0
            &&& conn.fragments.current == 0
            &&& conn.fragments.messages.dom() == Set::<u16>::empty()
            &&& !conn.completed && !conn.closed && !conn.handshake_rx
            &&& conn.timer is None
            &&& conn.handshake_state == HandshakeState::Preparing
            &&& is_client ==> conn.flight == Flight::Flight1
            &&& !is_client ==> conn.flight == Flight::Flight0
        }),
{
    let conn = endpoint::begun::<C>(config, is_client, None::<State<C>>);
    assert(conn.fragments.messages.dom() =~= Set::<u16>::empty());
}

/// A connection that takes up what was agreed on before goes on with its epochs, numbers and keys, at
/// the last flight of its end. It is not done until its handshake says so.
pub proof fn law_connection_is_taken_up<C: CipherSuite>(
    config: HandshakeConfig,
    is_client: bool,
    state: State<C>,
)
    ensures
        ({
            let conn = endpoint::begun::<C>(config, is_client, Some(state));
            &&& conn.is_client == is_client
            &&& conn.config == config
            &&& conn.local_epoch == state.local_epoch
            &&& conn.remote_epoch == state.remote_epoch
            &&& conn.sequences == state.local_sequence_number@
            &&& state.cipher_suite matches Some(suite) ==> conn.cipher == Some(suite.keys())
            &&& state.cipher_suite is None ==> conn.cipher is None
            &&& conn.handshake_state == HandshakeState::Finished
            &&& !conn.completed && !conn.closed
            &&& conn.decrypted.len() == 0 && conn.pending.len() == 0 && conn.cache.len() == 0
            &&& conn.outgoing.len() == 0 && conn.datagrams.len() == 0
            &&& is_client ==> conn.flight == Flight::Flight5
            &&& !is_client ==> conn.flight == Flight::Flight6
        }),
{
}

/// A peer is told once that a connection is closed from here: a warning that says so is the last of
/// what is sent, and closing again sends nothing more.
pub proof fn law_peer_is_told_once<C: CipherSuite>(conn: ConnView<C>)
    ensures
        ({
            let closing = EndpointView::closing(conn);
            &&& closing.closed
            &&& !conn.closed ==> conn_laws::alerts(
                conn,
                closing,
                AlertLevel::Warning,
                AlertDescription::CloseNotify,
            )
            &&& conn.closed ==> closing == conn
            &&& EndpointView::closing(closing) == closing
            &&& closing.decrypted == conn.decrypted
            &&& closing.cache == conn.cache
        }),
{
    let closing = EndpointView::closing(conn);
    if !conn.closed {
        assert(closing.outgoing.drop_last() =~= conn.outgoing);
    }
}

/// Where nothing keeps what waits from being sent, all of it is sent: there are records for every
/// packet, encoded with the connection's cipher, and the datagrams that are given are those that
/// waited and then those that the records make up. Nothing waits any more.
pub proof fn law_all_that_waits_is_sent<C: CipherSuite>(
    before: ConnView<C>,
    after: ConnView<C>,
    payloads: Seq<Seq<u8>>,
)
    requires
        endpoint::took_all(before, after, payloads),
        before.all_clear(),
    ensures
        after.outgoing.len() == 0,
        after.datagrams.len() == 0,
        exists|raws: Seq<Seq<u8>>| #[trigger]
            conn::all_encoded::<C>(before.cipher, before.plan(before.outgoing.len()).plains, raws)
                && payloads == before.datagrams + conn::datagrams_of(
                before.config.maximum_transmission_unit as int,
                raws,
            ),
{
    reveal(endpoint::took_all);
    let middle = choose|middle: ConnView<C>| #[trigger]
        endpoint::took(before, middle, payloads) && middle.polled(after, None);
    let mtu = before.config.maximum_transmission_unit as int;
    if payloads.len() == 0 {
        let flushed = choose|flushed: ConnView<C>| #[trigger]
            before.may_flush(flushed) && flushed.datagrams.len() == 0 && after == flushed;
        let raws = lemma_flushed(before, flushed);
        assert(before.datagrams + conn::datagrams_of(mtu, raws) =~= payloads);
    } else {
        let raws = lemma_took(before, middle, payloads);
        let flushed = choose|flushed: ConnView<C>| #[trigger]
            middle.may_flush(flushed) && flushed.datagrams.len() == 0 && after == flushed;
        lemma_nothing_to_flush(middle, flushed);
        let all = before.datagrams + conn::datagrams_of(mtu, raws);
        assert(all.skip(payloads.len() as int).len() == 0);
        assert(all.take(payloads.len() as int) =~= all);
    }
}

/// What is flushed where nothing keeps it from being sent.
proof fn lemma_flushed<C: CipherSuite>(before: ConnView<C>, flushed: ConnView<C>) -> (raws: Seq<
    Seq<u8>,
>)
    requires
        before.may_flush(flushed),
        before.all_clear(),
    ensures
        conn::all_encoded::<C>(before.cipher, before.plan(before.outgoing.len()).plains, raws),
        flushed == before.sent(raws),
{
    reveal(ConnView::may_flush);
    choose|raws: Seq<Seq<u8>>|
        conn::all_encoded::<C>(before.cipher, before.plan(before.outgoing.len()).plains, raws)
            && flushed == #[trigger] before.sent(raws)
}

/// Where no packet waits, flushing changes nothing.
proof fn lemma_nothing_to_flush<C: CipherSuite>(before: ConnView<C>, flushed: ConnView<C>)
    requires
        before.may_flush(flushed),
        before.outgoing.len() == 0,
    ensures
        flushed == before,
{
    assert(before.plan(0).plains.len() == 0);
    assert(before.all_clear());
    let raws = lemma_flushed(before, flushed);
    assert(raws =~= Seq::<Seq<u8>>::empty());
    assert(before.datagrams + conn::datagrams_of(
        before.config.maximum_transmission_unit as int,
        raws,
    ) =~= before.datagrams);
    assert(before.outgoing =~= Seq::empty());
    assert(flushed =~= before);
}

/// The datagrams that were taken are the first of those that waited and of those that the records
/// make up, and the others are left.
proof fn lemma_took<C: CipherSuite>(
    before: ConnView<C>,
    middle: ConnView<C>,
    payloads: Seq<Seq<u8>>,
) -> (raws: Seq<Seq<u8>>)
    requires
        endpoint::took(before, middle, payloads),
        before.all_clear(),
        payloads.len() > 0,
    ensures
        conn::all_encoded::<C>(before.cipher, before.plan(before.outgoing.len()).plains, raws),
        ({
            let all = before.datagrams + conn::datagrams_of(
                before.config.maximum_transmission_unit as int,
                raws,
            );
            &&& payloads.len() <= all.len()
            &&& payloads == all.take(payloads.len() as int)
            &&& middle == (ConnView {
                datagrams: all.skip(payloads.len() as int),
                ..before.sent(raws)
            })
        }),
    decreases payloads.len(),
{
    let earlier = payloads.drop_last();
    let last = payloads.last();
    let start = choose|start: ConnView<C>|
        endpoint::took(before, start, earlier) && #[trigger] start.polled(middle, Some(last));
    let flushed = choose|flushed: ConnView<C>| #[trigger]
        start.may_flush(flushed) && flushed.datagrams.len() > 0 && last == flushed.datagrams[0]
            && middle == flushed.without_datagram();
    let mtu = before.config.maximum_transmission_unit as int;
    if earlier.len() == 0 {
        let raws = lemma_flushed(before, flushed);
        let all = before.datagrams + conn::datagrams_of(mtu, raws);
        assert(payloads =~= all.take(1));
        assert(middle =~= (ConnView { datagrams: all.skip(1), ..before.sent(raws) }));
        raws
    } else {
        let raws = lemma_took(before, start, earlier);
        let all = before.datagrams + conn::datagrams_of(mtu, raws);
        lemma_nothing_to_flush(start, flushed);
        let n = earlier.len() as int;
        assert(last == all[n]);
        assert(payloads =~= all.take(n + 1));
        assert(all.skip(n).skip(1) =~= all.skip(n + 1));
        assert(middle =~= (ConnView { datagrams: all.skip(n + 1), ..before.sent(raws) }));
        raws
    }
}

/// How many datagrams the farewells to all peers come to.
pub open spec fn farewell_count<C: CipherSuite>(all: Seq<Farewell<C>>, n: int) -> int
    decreases n,
{
    if n <= 0 {
        0
    } else {
        farewell_count(all, n - 1) + all[n - 1].payloads.len()
    }
}

/// Whether a datagram stands at a place among those that are sent, for this peer.
pub open spec fn goes_out<C: CipherSuite>(
    endpoint: EndpointView<C>,
    sent: Seq<TransmitView>,
    at: int,
    message: Seq<u8>,
    remote: SocketAddr,
    now: Instant,
) -> bool {
    &&& 0 <= at < sent.len()
    &&& sent[at].message == message
    &&& sent[at].transport.peer_addr == remote
    &&& sent[at].transport.local_addr == endpoint.local_addr
    &&& sent[at].transport.transport_protocol == endpoint.transport_protocol
    &&& sent[at].now == now
}

/// Every datagram of every farewell is sent, to the peer that it is for, and the farewells one after
/// the other: what closing an endpoint sends is for each association in turn all that closing that
/// association gives.
pub proof fn law_every_farewell_is_sent<C: CipherSuite>(
    endpoint: EndpointView<C>,
    all: Seq<Farewell<C>>,
    now: Instant,
)
    ensures
        ({
            let sent = endpoint.farewells(all, now);
            &&& sent.len() == farewell_count(all, all.len() as int)
            &&& forall|k: int, i: int|
                0 <= k < all.len() && 0 <= i < all[k].payloads.len() ==> goes_out(
                    endpoint,
                    sent,
                    farewell_count(all, k) + i,
                    #[trigger] all[k].payloads[i],
                    all[k].remote,
                    now,
                )
        }),
    decreases all.len(),
{
    let sent = endpoint.farewells(all, now);
    if all.len() > 0 {
        let before = all.drop_last();
        law_every_farewell_is_sent(endpoint, before, now);
        lemma_farewell_count(all, before, before.len() as int);
        let earlier = endpoint.farewells(before, now);
        let last = all.len() - 1;
        let more = endpoint.addressed(all.last().payloads, now, all.last().remote, None);
        assert(sent == earlier + more);
        assert(more.len() == all[last].payloads.len());
        assert(farewell_count(all, all.len() as int) == farewell_count(all, last)
            + all[last].payloads.len());
        assert(sent.len() == farewell_count(all, all.len() as int));
        assert forall|k: int, i: int|
            0 <= k < all.len() && 0 <= i < all[k].payloads.len() implies goes_out(
            endpoint,
            sent,
            farewell_count(all, k) + i,
            #[trigger] all[k].payloads[i],
            all[k].remote,
            now,
        ) by {
            if k < last {
                lemma_farewell_count(all, before, k);
                assert(before[k] == all[k]);
                assert(goes_out(
                    endpoint,
                    earlier,
                    farewell_count(before, k) + i,
                    before[k].payloads[i],
                    before[k].remote,
                    now,
                ));
                let at = farewell_count(all, k) + i;
                assert(sent[at] == earlier[at]);
            } else {
                assert(farewell_count(all, k) == earlier.len());
                assert(sent[earlier.len() + i] == more[i]);
            }
        }
    }
}

proof fn lemma_farewell_count<C: CipherSuite>(
    all: Seq<Farewell<C>>,
    before: Seq<Farewell<C>>,
    n: int,
)
    requires
        all.len() > 0,
        before == all.drop_last(),
        0 <= n <= before.len(),
    ensures
        farewell_count(all, n) == farewell_count(before, n),
    decreases n,
{
    if n > 0 {
        lemma_farewell_count(all, before, n - 1);
    }
}

/// A datagram that cannot be read is reported as that, and the handshake does not go on for it. One
/// that is read once the handshake is done does not touch the handshake either.
pub proof fn law_handshake_rests<C: CipherSuite, H: Handshaker<C>>(
    before: ConnView<C>,
    now: Instant,
    data: Seq<u8>,
    after: ConnView<C>,
    failure: Option<Error>,
)
    requires
        endpoint::takes_in::<C, H>(before, now, data, after, failure),
        before.read(data).1 is Err || before.read(data).0.completed,
    ensures
        after == before.read(data).0,
        match before.read(data).1 {
            Ok(_) => failure is None,
            Err(error) => failure == Some(error),
        },
{
    reveal(endpoint::takes_in);
}

/// Data that was held for keys is handed on once the handshake has brought them: all of it, in order,
/// and nothing is held any more.
pub proof fn law_held_data_comes_with_the_keys<C: CipherSuite, H: Handshaker<C>>(
    stepped: ConnView<C>,
    now: Instant,
    after: ConnView<C>,
    failure: Option<Error>,
)
    requires
        endpoint::goes_on::<C, H>(stepped, Ok::<(), Error>(()), now, after, failure),
        stepped.ready(),
        forall|i: int|
            0 <= i < stepped.pending.len() ==> conn::holds_data(
                stepped,
                #[trigger] stepped.pending[i],
            ),
        forall|i: int|
            0 <= i < stepped.pending.len() ==> (ConnView {
                pending: Seq::empty(),
                ..stepped
            }).retried(#[trigger] stepped.pending.take(i), !stepped.completed).0.is_news(
                stepped.pending[i],
            ),
    ensures
        failure is None,
        after.pending.len() == 0,
        after.decrypted == stepped.decrypted + Seq::new(
            stepped.pending.len(),
            |i: int| conn::data_in::<C>(stepped.cipher->Some_0, stepped.pending[i]),
        ),
{
    reveal(endpoint::goes_on);
    conn_laws::law_held_data_is_handed_on(stepped, !stepped.completed);
}

/// A peer that is not known is met as a server meets it, from the beginning and with the server's
/// configuration. One that is known goes on where it was, whatever the configuration is now.
pub proof fn law_unknown_peer_is_met_as_a_server<C: CipherSuite>(
    endpoint: EndpointView<C>,
    remote: SocketAddr,
)
    ensures
        endpoint.connections.contains_key(remote) ==> endpoint.association(remote)
            == endpoint.connections[remote],
        !endpoint.connections.contains_key(remote) ==> {
            let conn = endpoint.association(remote);
            &&& !conn.is_client
            &&& conn.config == endpoint.server_config->Some_0
            &&& conn.local_epoch == 0 && conn.remote_epoch == 0
            &&& conn.cipher is None
            &&& conn.cache.len() == 0 && conn.outgoing.len() == 0 && conn.decrypted.len() == 0
            &&& !conn.completed && !conn.closed
            &&& conn.flight == Flight::Flight0
        },
{
}

} // verus!
