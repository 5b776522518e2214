//! NACK generator: asks for missing RTP packets again.

use crate::error::Error;
use crate::maps::keys_of;
use crate::message::{Attribute, AttributedPacket, Packet, TaggedPacket};
use crate::random::random_u32;
use crate::receive_log;
use crate::receive_log::{LogView, ReceiveLog};
use crate::rtcp;
use crate::rtcp::{nack_pairs_from_sequence_numbers, RtcpPacket, TransportLayerNack};
use crate::stream_info::{stream_supports_nack, StreamInfo};
use crate::time::{Duration, Instant, MILLISECOND};
use crate::transport;
use crate::transport::TransportContext;
use std::collections::{HashMap, VecDeque};
use vstd::prelude::*;

verus! {

broadcast use vstd::std_specs::hash::group_hash_axioms;

/// Builder for the [`NackGeneratorInterceptor`].
pub struct NackGeneratorBuilder {
    /// Size of the receive log (must be power of 2: 64, 128, ..., 32768).
    pub size: u16,
    /// Interval between NACK generation cycles.
    pub interval: Duration,
    /// Number of most recent packets to skip when generating NACKs.
    pub skip_last_n: u16,
    /// Maximum number of NACKs to send per missing packet (0 = unlimited).
    pub max_nacks_per_packet: u16,
}

impl Default for NackGeneratorBuilder {
    fn default() -> (builder: Self)
        ensures
            builder == (NackGeneratorBuilder {
                size: 512,
                interval: 100_000_000,
                skip_last_n: 0,
                max_nacks_per_packet: 0,
            }),
    {
        NackGeneratorBuilder {
            size: 512,
            interval: 100 * MILLISECOND,
            skip_last_n: 0,
            max_nacks_per_packet: 0,
        }
    }
}

impl NackGeneratorBuilder {
    /// Create a new builder with default settings.
    pub fn new() -> (builder: Self)
        ensures
            builder == (NackGeneratorBuilder {
                size: 512,
                interval: 100_000_000,
                skip_last_n: 0,
                max_nacks_per_packet: 0,
            }),
    {
        NackGeneratorBuilder::default()
    }

    /// Set the size of the receive log.
    ///
    /// Size must be a power of 2 between 64 and 32768 (inclusive).
    pub fn with_size(self, size: u16) -> (builder: Self)
        ensures
            builder == (NackGeneratorBuilder { size, ..self }),
    {
        NackGeneratorBuilder { size, ..self }
    }

    /// Set the interval between NACK generation cycles.
    pub fn with_interval(self, interval: Duration) -> (builder: Self)
        ensures
            builder == (NackGeneratorBuilder { interval, ..self }),
    {
        NackGeneratorBuilder { interval, ..self }
    }

    /// Set the number of most recent packets to skip when generating NACKs.
    ///
    /// This helps avoid generating NACKs for packets that are simply delayed and haven't arrived
    /// yet.
    pub fn with_skip_last_n(self, skip_last_n: u16) -> (builder: Self)
        ensures
            builder == (NackGeneratorBuilder { skip_last_n, ..self }),
    {
        NackGeneratorBuilder { skip_last_n, ..self }
    }

    /// Set the maximum number of NACKs to send per missing packet.
    ///
    /// Set to 0 (default) for unlimited NACKs.
    pub fn with_max_nacks_per_packet(self, max: u16) -> (builder: Self)
        ensures
            builder == (NackGeneratorBuilder { max_nacks_per_packet: max, ..self }),
    {
        NackGeneratorBuilder { max_nacks_per_packet: max, ..self }
    }

    /// Build the interceptor.
    pub fn build(self) -> (generator: NackGeneratorInterceptor)
        ensures
            generator.wf(),
            generator.fresh(self, generator@.sender_ssrc),
    {
        NackGeneratorInterceptor::with_sender_ssrc(self, random_u32())
    }
}

/// How often a packet was asked for so far.
pub open spec fn count(counts: Map<u16, u16>, seq: u16) -> u16 {
    if counts.contains_key(seq) {
        counts[seq]
    } else {
        0
    }
}

/// Of the missing packets, those that may be asked for once more.
pub open spec fn allowed(missing: Seq<u16>, counts: Map<u16, u16>, max: u16) -> Seq<u16>
    decreases missing.len(),
{
    if missing.len() == 0 {
        Seq::empty()
    } else {
        let before = allowed(missing.drop_last(), counts, max);
        if count(counts, missing.last()) < max {
            before.push(missing.last())
        } else {
            before
        }
    }
}

/// The counts after a round: one for each missing packet and for no other, raised by one where the
/// packet was asked for.
pub open spec fn counted(missing: Seq<u16>, counts: Map<u16, u16>, max: u16) -> Map<u16, u16> {
    Map::new(
        |seq: u16| missing.contains(seq),
        |seq: u16|
            if count(counts, seq) < max {
                (count(counts, seq) + 1) as u16
            } else {
                count(counts, seq)
            },
    )
}

/// One stream's part in a round.
pub struct Round {
    /// The packets asked for.
    pub asked: Seq<u16>,
    /// The stream's counts afterwards, where it has any.
    pub counts: Option<Map<u16, u16>>,
}

/// What a round does for one stream. Without missing packets its counts are dropped; without a
/// limit every missing packet is asked for and nothing is counted.
pub open spec fn round(
    log: LogView,
    counts: Option<Map<u16, u16>>,
    skip_last_n: u16,
    max: u16,
) -> Round {
    let missing = log.missing(skip_last_n);
    let before = match counts {
        Some(counts) => counts,
        None => Map::empty(),
    };
    if missing.len() == 0 {
        Round { asked: Seq::empty(), counts: None }
    } else if max == 0 {
        Round { asked: missing, counts }
    } else {
        Round {
            asked: allowed(missing, before, max),
            counts: Some(counted(missing, before, max)),
        }
    }
}

/// A request for packets of one stream.
pub struct Request {
    /// The stream.
    pub media_ssrc: u32,
    /// The packets.
    pub asked: Seq<u16>,
}

/// Whether a message is the NACK for a request, made at `now`.
pub open spec fn is_nack(message: TaggedPacket, now: Instant, sender_ssrc: u32, request: Request) -> bool {
    &&& message.now == now
    &&& message.transport == transport::unaddressed()
    &&& message.message.attributes@ == Seq::<Attribute>::empty()
    &&& message.message.packet matches Packet::Rtcp(packets)
    &&& packets@.len() == 1
    &&& packets@[0] matches RtcpPacket::TransportLayerNack(nack)
    &&& nack.sender_ssrc == sender_ssrc
    &&& nack.media_ssrc == request.media_ssrc
    &&& rtcp::listed(nack.nacks@) == request.asked
    &&& rtcp::tight(nack.nacks@)
}

/// The missing numbers ascend from the last consecutive one on.
proof fn lemma_missing_ascends(log: LogView, skip_last_n: u16)
    ensures
        rtcp::ascends_from(log.last_consecutive, log.missing(skip_last_n)),
        log.missing(skip_last_n).no_duplicates(),
{
    let missing = log.missing(skip_last_n);
    let last = log.last_consecutive;
    assert forall|i: int, j: int| 0 <= i < j < missing.len() implies (#[trigger] missing[i]).wrapping_sub(
        last,
    ) < (#[trigger] missing[j]).wrapping_sub(last) by {
        crate::receive_log::law_missing_ascends(log, skip_last_n, i, j);
    }
}

/// What may be asked for is part of what is missing, in the same order.
proof fn lemma_allowed(base: u16, missing: Seq<u16>, counts: Map<u16, u16>, max: u16)
    requires
        rtcp::ascends_from(base, missing),
    ensures
        rtcp::ascends_from(base, allowed(missing, counts, max)),
        forall|k: int|
            0 <= k < allowed(missing, counts, max).len() ==> missing.contains(
                #[trigger] allowed(missing, counts, max)[k],
            ),
    decreases missing.len(),
{
    if missing.len() > 0 {
        let shorter = missing.drop_last();
        let before = allowed(shorter, counts, max);
        let all = allowed(missing, counts, max);
        let last = missing.len() - 1;
        lemma_allowed(base, shorter, counts, max);
        assert forall|k: int| 0 <= k < all.len() implies missing.contains(#[trigger] all[k]) by {
            if k < before.len() {
                let i = choose|i: int| 0 <= i < shorter.len() && shorter[i] == before[k];
                assert(missing[i] == all[k]);
            } else {
                assert(missing[last] == all[k]);
            }
        }
        assert forall|i: int, j: int| 0 <= i < j < all.len() implies (#[trigger] all[i]).wrapping_sub(
            base,
        ) < (#[trigger] all[j]).wrapping_sub(base) by {
            if j < before.len() {
                assert(before[i].wrapping_sub(base) < before[j].wrapping_sub(base));
            } else {
                let a = choose|a: int| 0 <= a < shorter.len() && shorter[a] == before[i];
                assert(missing[a].wrapping_sub(base) < missing[last].wrapping_sub(base));
            }
        }
    }
}

/// One round for one stream under a limit: the packets asked for, and the counts afterwards.
fn limited_round(missing: &Vec<u16>, counts: &HashMap<u16, u16>, max: u16) -> (out: (
    Vec<u16>,
    HashMap<u16, u16>,
))
    requires
        missing@.no_duplicates(),
    ensures
        out.0@ == allowed(missing@, counts@, max),
        out.1@ == counted(missing@, counts@, max),
{
    let mut asked: Vec<u16> = Vec::new();
    let mut after: HashMap<u16, u16> = HashMap::new();
    let mut i: usize = 0;
    assert(after@ =~= counted(missing@.subrange(0, 0), counts@, max));
    while i < missing.len()
        invariant
            i <= missing@.len(),
            missing@.no_duplicates(),
            asked@ == allowed(missing@.subrange(0, i as int), counts@, max),
            after@ == counted(missing@.subrange(0, i as int), counts@, max),
        decreases missing@.len() - i,
    {
        let seq: u16 = missing[i];
        let so_far: u16 = match counts.get(&seq) {
            Some(so_far) => *so_far,
            None => 0,
        };
        let ghost done = missing@.subrange(0, i as int);
        let ghost next = missing@.subrange(0, i + 1);
        proof {
            assert(next.drop_last() =~= done);
            assert(next.last() == seq);
            assert forall|s: u16| #[trigger] next.contains(s) == (done.contains(s) || s == seq) by {
                if next.contains(s) {
                    let k = choose|k: int| 0 <= k < next.len() && next[k] == s;
                    if k < i {
                        assert(done[k] == s);
                    }
                }
                if done.contains(s) {
                    let k = choose|k: int| 0 <= k < done.len() && done[k] == s;
                    assert(next[k] == s);
                }
                if s == seq {
                    assert(next[i as int] == s);
                }
            }
        }
        if so_far < max {
            asked.push(seq);
            after.insert(seq, so_far + 1);
        } else {
            after.insert(seq, so_far);
        }
        assert(after@ =~= counted(next, counts@, max));
        i = i + 1;
    }
    assert(missing@.subrange(0, missing@.len() as int) =~= missing@);
    (asked, after)
}

/// Interceptor that generates NACK requests for missing RTP packets.
///
/// This interceptor monitors incoming RTP packets on remote streams, tracks which sequence numbers
/// have been received, and periodically generates RTCP TransportLayerNack packets for missing
/// sequences.
pub struct NackGeneratorInterceptor {
    size: u16,
    interval: Duration,
    skip_last_n: u16,
    max_nacks_per_packet: u16,
    /// Next timeout for NACK generation
    next_timeout: Option<Instant>,
    /// Sender SSRC for NACK packets
    sender_ssrc: u32,
    /// Receive logs per remote stream SSRC
    receive_logs: HashMap<u32, ReceiveLog>,
    /// NACK count per (SSRC, sequence number) for limiting
    pub nack_counts: HashMap<u32, HashMap<u16, u16>>,
    /// Queue for outgoing packets
    write_queue: VecDeque<TaggedPacket>,
    /// Inbound packets ready for the next interceptor.
    read_queue: VecDeque<TaggedPacket>,
}

/// The model of a [`NackGeneratorInterceptor`].
#[verifier::ext_equal]
pub struct GeneratorView {
    /// Size of a receive log.
    pub size: u16,
    /// Interval between rounds.
    pub interval: Duration,
    /// Number of most recent packets to skip.
    pub skip_last_n: u16,
    /// Maximum number of requests per missing packet (0 = unlimited).
    pub max_nacks_per_packet: u16,
    /// When the next round is due, once a packet has been tracked.
    pub next_timeout: Option<Instant>,
    /// Who asks.
    pub sender_ssrc: u32,
    /// The log of each stream.
    pub logs: Map<u32, LogView>,
    /// How often each missing packet of each stream was asked for.
    pub counts: Map<u32, Map<u16, u16>>,
    /// Outgoing packets.
    pub write_queue: Seq<TaggedPacket>,
    /// Incoming packets.
    pub read_queue: Seq<TaggedPacket>,
}

impl View for NackGeneratorInterceptor {
    type V = GeneratorView;

    closed spec fn view(&self) -> GeneratorView {
        GeneratorView {
            size: self.size,
            interval: self.interval,
            skip_last_n: self.skip_last_n,
            max_nacks_per_packet: self.max_nacks_per_packet,
            next_timeout: self.next_timeout,
            sender_ssrc: self.sender_ssrc,
            logs: self.receive_logs@.map_values(|log: ReceiveLog| log@),
            counts: self.nack_counts@.map_values(|counts: HashMap<u16, u16>| counts@),
            write_queue: self.write_queue@,
            read_queue: self.read_queue@,
        }
    }
}

impl GeneratorView {
    /// One stream's part in a round.
    pub open spec fn round(self, ssrc: u32) -> Round {
        round(
            self.logs[ssrc],
            self.counts_of(ssrc),
            self.skip_last_n,
            self.max_nacks_per_packet,
        )
    }

    /// The counts of one stream, where it has any.
    pub open spec fn counts_of(self, ssrc: u32) -> Option<Map<u16, u16>> {
        if self.counts.contains_key(ssrc) {
            Some(self.counts[ssrc])
        } else {
            None
        }
    }

    /// The requests of a round that takes the streams in this order: one for each stream with
    /// something to ask for.
    pub open spec fn requests(self, order: Seq<u32>) -> Seq<Request>
        decreases order.len(),
    {
        if order.len() == 0 {
            Seq::empty()
        } else {
            let before = self.requests(order.drop_last());
            let asked = self.round(order.last()).asked;
            if asked.len() == 0 {
                before
            } else {
                before.push(Request { media_ssrc: order.last(), asked })
            }
        }
    }

    /// Whether `after` is the state after a round at `now` that took the streams in this order:
    /// the requests are queued behind what was queued before, and the counts of each stream are
    /// those of its part in the round.
    pub open spec fn after_round(self, now: Instant, order: Seq<u32>, after: GeneratorView) -> bool {
        let requests = self.requests(order);
        let queued = self.write_queue.len();
        &&& after == (GeneratorView {
            counts: after.counts,
            write_queue: after.write_queue,
            ..self
        })
        &&& after.write_queue.len() == queued + requests.len()
        &&& after.write_queue.subrange(0, queued as int) == self.write_queue
        &&& forall|k: int|
            0 <= k < requests.len() ==> is_nack(
                #[trigger] after.write_queue[queued + k],
                now,
                self.sender_ssrc,
                requests[k],
            )
        &&& forall|ssrc: u32| #[trigger]
            after.counts_of(ssrc) == if order.contains(ssrc) {
                self.round(ssrc).counts
            } else {
                self.counts_of(ssrc)
            }
    }

    /// Whether this is each stream once, in some order.
    pub open spec fn is_order(self, order: Seq<u32>) -> bool {
        order.no_duplicates() && order.to_set() == self.logs.dom()
    }
}

impl NackGeneratorInterceptor {
    /// Every log is well formed.
    pub closed spec fn wf(&self) -> bool {
        forall|ssrc: u32| #[trigger]
            self.receive_logs@.contains_key(ssrc) ==> self.receive_logs@[ssrc].wf()
    }

    /// Whether this is a generator that has seen nothing.
    pub open spec fn fresh(&self, builder: NackGeneratorBuilder, sender_ssrc: u32) -> bool {
        self@ == (GeneratorView {
            size: builder.size,
            interval: builder.interval,
            skip_last_n: builder.skip_last_n,
            max_nacks_per_packet: builder.max_nacks_per_packet,
            next_timeout: None,
            sender_ssrc,
            logs: Map::empty(),
            counts: Map::empty(),
            write_queue: Seq::empty(),
            read_queue: Seq::empty(),
        })
    }

    /// A generator that has seen nothing and asks under `sender_ssrc`.
    pub fn with_sender_ssrc(builder: NackGeneratorBuilder, sender_ssrc: u32) -> (generator: Self)
        ensures
            generator.wf(),
            generator.fresh(builder, sender_ssrc),
    {
        let generator = NackGeneratorInterceptor {
            read_queue: VecDeque::new(),
            size: builder.size,
            interval: builder.interval,
            skip_last_n: builder.skip_last_n,
            max_nacks_per_packet: builder.max_nacks_per_packet,
            next_timeout: None,
            sender_ssrc,
            receive_logs: HashMap::new(),
            nack_counts: HashMap::new(),
            write_queue: VecDeque::new(),
        };
        proof {
            assert(generator@.logs =~= Map::empty());
            assert(generator@.counts =~= Map::empty());
            assert(generator@.write_queue =~= Seq::empty());
            assert(generator@.read_queue =~= Seq::empty());
        }
        generator
    }

    /// One stream's part in a round: what to ask for. The stream's counts are brought up to date.
    fn round(&mut self, ssrc: u32) -> (asked: Vec<u16>)
        requires
            old(self).wf(),
            old(self)@.logs.contains_key(ssrc),
        ensures
            final(self).wf(),
            asked@ == old(self)@.round(ssrc).asked,
            rtcp::ascends(asked@),
            final(self)@ == (GeneratorView { counts: final(self)@.counts, ..old(self)@ }),
            forall|other: u32| #[trigger]
                final(self)@.counts_of(other) == if other == ssrc {
                    old(self)@.round(ssrc).counts
                } else {
                    old(self)@.counts_of(other)
                },
    {
        let ghost before = self@;
        let missing: Vec<u16> = match self.receive_logs.get(&ssrc) {
            Some(log) => log.missing_seq_numbers(self.skip_last_n),
            None => Vec::new(),
        };
        let ghost log = before.logs[ssrc];
        proof {
            lemma_missing_ascends(log, self.skip_last_n);
        }
        if missing.len() == 0 {
            // Forget the counts of a stream without missing packets
            self.nack_counts.remove(&ssrc);
            return missing;
        }
        if self.max_nacks_per_packet > 0 {
            // Packets no longer missing (arrived late, or slid out of the log) are forgotten
            // whether or not this round goes on to send anything.
            let counts: HashMap<u16, u16> = match self.nack_counts.remove(&ssrc) {
                Some(counts) => counts,
                None => HashMap::new(),
            };
            let (asked, after) = limited_round(&missing, &counts, self.max_nacks_per_packet);
            proof {
                lemma_allowed(
                    log.last_consecutive,
                    missing@,
                    counts@,
                    self.max_nacks_per_packet,
                );
            }
            self.nack_counts.insert(ssrc, after);
            asked
        } else {
            missing
        }
    }

    /// Generate NACKs for all streams with missing packets.
    fn generate_nacks(&mut self, now: Instant)
        requires
            old(self).wf(),
        ensures
            final(self).wf(),
            exists|order: Seq<u32>|
                old(self)@.is_order(order) && #[trigger] old(self)@.after_round(
                    now,
                    order,
                    final(self)@,
                ),
    {
        let ghost before = self@;
        let order: Vec<u32> = keys_of(&self.receive_logs);
        assert(before.is_order(order@)) by {
            assert(before.logs.dom() =~= self.receive_logs@.dom());
        }
        let mut i: usize = 0;
        proof {
            let none = order@.subrange(0, 0);
            assert(before.write_queue.subrange(0, before.write_queue.len() as int)
                =~= before.write_queue);
            assert(before.requests(none) =~= Seq::empty());
            assert(before.after_round(now, none, self@));
        }
        while i < order.len()
            invariant
                self.wf(),
                i <= order@.len(),
                before.is_order(order@),
                before.after_round(now, order@.subrange(0, i as int), self@),
            decreases order@.len() - i,
        {
            let ssrc: u32 = order[i];
            let ghost done = order@.subrange(0, i as int);
            let ghost next = order@.subrange(0, i + 1);
            let ghost middle = self@;
            proof {
                assert(order@.to_set().contains(ssrc));
                assert(!done.contains(ssrc)) by {
                    if done.contains(ssrc) {
                        let k = choose|k: int| 0 <= k < done.len() && done[k] == ssrc;
                        assert(order@[k] == order@[i as int]);
                    }
                }
                assert(middle.counts_of(ssrc) == before.counts_of(ssrc));
                assert(next.drop_last() =~= done);
                assert(next.last() == ssrc);
                assert forall|s: u32| next.contains(s) == (done.contains(s) || s == ssrc) by {
                    if next.contains(s) {
                        let k = choose|k: int| 0 <= k < next.len() && next[k] == s;
                        if k < i {
                            assert(done[k] == s);
                        }
                    }
                    if done.contains(s) {
                        let k = choose|k: int| 0 <= k < done.len() && done[k] == s;
                        assert(next[k] == s);
                    }
                    if s == ssrc {
                        assert(next[i as int] == s);
                    }
                }
            }
            let asked: Vec<u16> = self.round(ssrc);
            let ghost counted = self@;
            if asked.len() != 0 {
                let nack = TransportLayerNack {
                    sender_ssrc: self.sender_ssrc,
                    media_ssrc: ssrc,
                    nacks: nack_pairs_from_sequence_numbers(&asked),
                };
                let mut packets: Vec<RtcpPacket> = Vec::new();
                packets.push(RtcpPacket::TransportLayerNack(nack));
                self.write_queue.push_back(
                    TaggedPacket {
                        now,
                        transport: TransportContext::default(),
                        message: AttributedPacket::new(Packet::Rtcp(packets)),
                    },
                );
                assert(self@ =~= (GeneratorView { write_queue: self@.write_queue, ..counted }));
            }
            proof {
                let requests = before.requests(next);
                let queued = before.write_queue.len();
                assert(self@.write_queue.subrange(0, queued as int) =~= before.write_queue) by {
                    assert(middle.write_queue.subrange(0, queued as int) == before.write_queue);
                    assert forall|k: int| 0 <= k < queued implies self@.write_queue[k]
                        == before.write_queue[k] by {
                        assert(middle.write_queue.subrange(0, queued as int)[k]
                            == middle.write_queue[k]);
                    }
                }
                assert forall|k: int| 0 <= k < requests.len() implies is_nack(
                    #[trigger] self@.write_queue[queued + k],
                    now,
                    before.sender_ssrc,
                    requests[k],
                ) by {
                    if k < before.requests(done).len() {
                        assert(self@.write_queue[queued + k] == middle.write_queue[queued + k]);
                    }
                }
                assert forall|s: u32| #[trigger] self@.counts_of(s) == if next.contains(s) {
                    before.round(s).counts
                } else {
                    before.counts_of(s)
                } by {
                    assert(counted.counts_of(s) == self@.counts_of(s));
                    assert(middle.counts_of(s) == if done.contains(s) {
                        before.round(s).counts
                    } else {
                        before.counts_of(s)
                    });
                }
            }
            i = i + 1;
        }
        assert(order@.subrange(0, order@.len() as int) =~= order@);
    }

    /// Take in an inbound packet: track it where it is media of a bound stream, and hand it on.
    ///
    /// The first tracked packet arms the timer. Until then nothing is scheduled, so no wake-up is
    /// asked for until a stream is actually flowing.
    pub fn handle_read(&mut self, msg: TaggedPacket) -> (result: Result<(), Error>)
        requires
            old(self).wf(),
            msg.now + old(self)@.interval <= u64::MAX,
        ensures
            final(self).wf(),
            result is Ok,
            final(self)@ == old(self)@.noted(msg).handed_on(msg),
    {
        let ghost before = self@;
        if let Packet::Rtp(rtp_packet) = &msg.message.packet {
            let ssrc: u32 = rtp_packet.header.ssrc;
            let seq: u16 = rtp_packet.header.sequence_number;
            if let Some(log) = self.receive_logs.remove(&ssrc) {
                let mut log = log;
                log.add(seq);
                self.receive_logs.insert(ssrc, log);
                if self.next_timeout.is_none() {
                    self.next_timeout = Some(msg.now + self.interval);
                }
                assert(self@.logs =~= before.logs.insert(ssrc, before.logs[ssrc].add(seq)));
                assert(self@ =~= before.noted(msg));
            } else {
                assert(self@.logs =~= before.logs);
            }
        }
        assert(self@ =~= before.noted(msg));
        self.read_queue.push_back(msg);
        assert(self@ =~= before.noted(msg).handed_on(msg));
        Ok(())
    }

    /// The next inbound packet for the next interceptor.
    pub fn poll_read(&mut self) -> (msg: Option<TaggedPacket>)
        requires
            old(self).wf(),
        ensures
            final(self).wf(),
            match msg {
                Some(msg) => old(self)@.read_queue.len() > 0 && msg == old(self)@.read_queue[0]
                    && final(self)@ == (GeneratorView {
                    read_queue: old(self)@.read_queue.drop_first(),
                    ..old(self)@
                }),
                None => old(self)@.read_queue.len() == 0 && final(self)@ == old(self)@,
            },
    {
        let msg = self.read_queue.pop_front();
        proof {
            if old(self)@.read_queue.len() > 0 {
                assert(self@ =~= (GeneratorView {
                    read_queue: old(self)@.read_queue.drop_first(),
                    ..old(self)@
                }));
            } else {
                assert(self@ =~= old(self)@);
            }
        }
        msg
    }

    /// Take in an outbound packet and hand it on.
    pub fn handle_write(&mut self, msg: TaggedPacket) -> (result: Result<(), Error>)
        requires
            old(self).wf(),
        ensures
            final(self).wf(),
            result is Ok,
            final(self)@ == (GeneratorView {
                write_queue: old(self)@.write_queue.push(msg),
                ..old(self)@
            }),
    {
        self.write_queue.push_back(msg);
        Ok(())
    }

    /// The next outbound packet.
    pub fn poll_write(&mut self) -> (msg: Option<TaggedPacket>)
        requires
            old(self).wf(),
        ensures
            final(self).wf(),
            match msg {
                Some(msg) => old(self)@.write_queue.len() > 0 && msg == old(self)@.write_queue[0]
                    && final(self)@ == (GeneratorView {
                    write_queue: old(self)@.write_queue.drop_first(),
                    ..old(self)@
                }),
                None => old(self)@.write_queue.len() == 0 && final(self)@ == old(self)@,
            },
    {
        let msg = self.write_queue.pop_front();
        proof {
            if old(self)@.write_queue.len() > 0 {
                assert(self@ =~= (GeneratorView {
                    write_queue: old(self)@.write_queue.drop_first(),
                    ..old(self)@
                }));
            } else {
                assert(self@ =~= old(self)@);
            }
        }
        msg
    }

    /// A round, where one is due at `now`; the next one is due an interval later.
    pub fn handle_timeout(&mut self, now: Instant) -> (result: Result<(), Error>)
        requires
            old(self).wf(),
            now + old(self)@.interval <= u64::MAX,
        ensures
            final(self).wf(),
            result is Ok,
            old(self)@.due(now) ==> exists|order: Seq<u32>|
                old(self)@.is_order(order) && #[trigger] old(self)@.rescheduled(now).after_round(
                    now,
                    order,
                    final(self)@,
                ),
            !old(self)@.due(now) ==> final(self)@ == old(self)@,
    {
        if let Some(next_timeout) = self.next_timeout {
            if now >= next_timeout {
                let ghost before = self@;
                self.next_timeout = Some(now + self.interval);
                assert(self@ =~= before.rescheduled(now));
                self.generate_nacks(now);
                proof {
                    let order = choose|order: Seq<u32>|
                        before.rescheduled(now).is_order(order) && #[trigger] before.rescheduled(
                            now,
                        ).after_round(now, order, self@);
                    assert(before.is_order(order));
                }
            }
        }
        Ok(())
    }

    /// When the next round is due.
    pub fn poll_timeout(&mut self) -> (at: Option<Instant>)
        ensures
            *final(self) == *old(self),
            at == old(self)@.next_timeout,
    {
        self.next_timeout
    }

    /// Track a remote stream from now on, where it takes generic NACK feedback and the configured
    /// log size is valid.
    pub fn bind_remote_stream(&mut self, info: &StreamInfo)
        requires
            old(self).wf(),
        ensures
            final(self).wf(),
            final(self)@ == if info.supports_nack() && receive_log::is_log_size(old(self)@.size as int) {
                GeneratorView {
                    logs: old(self)@.logs.insert(
                        info.ssrc,
                        LogView {
                            slots: Seq::new(old(self)@.size as nat, |p: int| false),
                            end: 0,
                            started: false,
                            last_consecutive: 0,
                        },
                    ),
                    ..old(self)@
                }
            } else {
                old(self)@
            },
    {
        if stream_supports_nack(info) {
            if let Some(log) = ReceiveLog::new(self.size) {
                let ghost fresh = log@;
                self.receive_logs.insert(info.ssrc, log);
                assert(self@.logs =~= old(self)@.logs.insert(info.ssrc, fresh));
            }
        }
    }

    /// Stop tracking a remote stream.
    pub fn unbind_remote_stream(&mut self, info: &StreamInfo)
        requires
            old(self).wf(),
        ensures
            final(self).wf(),
            final(self)@ == (GeneratorView {
                logs: old(self)@.logs.remove(info.ssrc),
                counts: old(self)@.counts.remove(info.ssrc),
                ..old(self)@
            }),
    {
        self.receive_logs.remove(&info.ssrc);
        self.nack_counts.remove(&info.ssrc);
        assert(self@.logs =~= old(self)@.logs.remove(info.ssrc));
        assert(self@.counts =~= old(self)@.counts.remove(info.ssrc));
    }
}

impl GeneratorView {
    /// The state with a message tracked, where it is media of a bound stream.
    pub open spec fn noted(self, msg: TaggedPacket) -> GeneratorView {
        match msg.message.packet {
            Packet::Rtp(packet) if self.logs.contains_key(packet.header.ssrc) => GeneratorView {
                logs: self.logs.insert(
                    packet.header.ssrc,
                    self.logs[packet.header.ssrc].add(packet.header.sequence_number),
                ),
                next_timeout: match self.next_timeout {
                    Some(at) => Some(at),
                    None => Some((msg.now + self.interval) as u64),
                },
                ..self
            },
            _ => self,
        }
    }

    /// The state with a message queued for the next interceptor.
    pub open spec fn handed_on(self, msg: TaggedPacket) -> GeneratorView {
        GeneratorView { read_queue: self.read_queue.push(msg), ..self }
    }

    /// Whether a round is due.
    pub open spec fn due(self, now: Instant) -> bool {
        self.next_timeout matches Some(at) && at <= now
    }

    /// The state with the next round an interval after `now`.
    pub open spec fn rescheduled(self, now: Instant) -> GeneratorView {
        GeneratorView { next_timeout: Some((now + self.interval) as u64), ..self }
    }
}

/// A packet is asked for where it is missing and has allowance left, and that uses up one of its
/// allowance. Under no limit, every missing packet is asked for and nothing is counted.
pub proof fn law_asked_within_allowance(
    log: LogView,
    counts: Option<Map<u16, u16>>,
    skip_last_n: u16,
    max: u16,
    seq: u16,
)
    ensures
        ({
            let before = count_of(counts, seq);
            let after = count_of(round(log, counts, skip_last_n, max).counts, seq);
            let asked = round(log, counts, skip_last_n, max).asked.contains(seq);
            let missing = log.is_missing(seq, skip_last_n);
            &&& asked == (missing && (max == 0 || before < max))
            &&& max > 0 && missing ==> after == before + if asked {
                1int
            } else {
                0int
            }
            &&& max > 0 && !missing ==> after == 0
        }),
{
    let missing = log.missing(skip_last_n);
    crate::receive_log::law_is_missing(log, seq, skip_last_n);
    let before = match counts {
        Some(counts) => counts,
        None => Map::empty(),
    };
    if missing.len() > 0 && max > 0 {
        lemma_allowed_members(missing, before, max, seq);
    } else if missing.len() == 0 {
        assert(!missing.contains(seq));
    }
}

/// How often a packet was asked for so far, of a stream that may have no counts.
pub open spec fn count_of(counts: Option<Map<u16, u16>>, seq: u16) -> u16 {
    match counts {
        Some(counts) => count(counts, seq),
        None => 0,
    }
}

proof fn lemma_allowed_members(missing: Seq<u16>, counts: Map<u16, u16>, max: u16, seq: u16)
    ensures
        allowed(missing, counts, max).contains(seq) == (missing.contains(seq) && count(counts, seq)
            < max),
    decreases missing.len(),
{
    if missing.len() == 0 {
        assert(!missing.contains(seq));
    } else {
        let shorter = missing.drop_last();
        let before = allowed(shorter, counts, max);
        let all = allowed(missing, counts, max);
        lemma_allowed_members(shorter, counts, max, seq);
        if missing.contains(seq) {
            let k = choose|k: int| 0 <= k < missing.len() && missing[k] == seq;
            if k < shorter.len() {
                assert(shorter[k] == seq);
            }
        }
        if shorter.contains(seq) {
            let k = choose|k: int| 0 <= k < shorter.len() && shorter[k] == seq;
            assert(missing[k] == seq);
        }
        if before.contains(seq) {
            let k = choose|k: int| 0 <= k < before.len() && before[k] == seq;
            assert(all[k] == seq);
        }
        if all.contains(seq) {
            let k = choose|k: int| 0 <= k < all.len() && all[k] == seq;
            if k < before.len() {
                assert(before[k] == seq);
            }
        }
        if seq == missing.last() {
            assert(missing[missing.len() - 1] == seq);
            if count(counts, seq) < max {
                assert(all[all.len() - 1] == seq);
            }
        }
    }
}

/// A stream's counts after rounds over these logs, one after the other.
pub open spec fn counts_after(
    logs: Seq<LogView>,
    counts: Option<Map<u16, u16>>,
    skip_last_n: u16,
    max: u16,
) -> Option<Map<u16, u16>>
    decreases logs.len(),
{
    if logs.len() == 0 {
        counts
    } else {
        let before = counts_after(logs.drop_last(), counts, skip_last_n, max);
        round(logs.last(), before, skip_last_n, max).counts
    }
}

/// In how many of these rounds a packet is asked for.
pub open spec fn times_asked(
    logs: Seq<LogView>,
    counts: Option<Map<u16, u16>>,
    skip_last_n: u16,
    max: u16,
    seq: u16,
) -> nat
    decreases logs.len(),
{
    if logs.len() == 0 {
        0
    } else {
        let before = counts_after(logs.drop_last(), counts, skip_last_n, max);
        let times = times_asked(logs.drop_last(), counts, skip_last_n, max, seq);
        if round(logs.last(), before, skip_last_n, max).asked.contains(seq) {
            times + 1
        } else {
            times
        }
    }
}

/// A packet that stays missing and was not asked for before is asked for in every round until its
/// allowance is used up, and never again after that.
pub proof fn law_retry_limit(
    logs: Seq<LogView>,
    counts: Option<Map<u16, u16>>,
    skip_last_n: u16,
    max: u16,
    seq: u16,
)
    requires
        max > 0,
        count_of(counts, seq) == 0,
        forall|i: int| 0 <= i < logs.len() ==> (#[trigger] logs[i]).is_missing(seq, skip_last_n),
    ensures
        times_asked(logs, counts, skip_last_n, max, seq) == if logs.len() < max {
            logs.len()
        } else {
            max as nat
        },
        count_of(counts_after(logs, counts, skip_last_n, max), seq) == times_asked(
            logs,
            counts,
            skip_last_n,
            max,
            seq,
        ),
    decreases logs.len(),
{
    if logs.len() > 0 {
        let shorter = logs.drop_last();
        assert forall|i: int| 0 <= i < shorter.len() implies (#[trigger] shorter[i]).is_missing(
            seq,
            skip_last_n,
        ) by {
            assert(logs[i].is_missing(seq, skip_last_n));
        }
        law_retry_limit(shorter, counts, skip_last_n, max, seq);
        assert(logs[logs.len() - 1].is_missing(seq, skip_last_n));
        law_asked_within_allowance(
            logs.last(),
            counts_after(shorter, counts, skip_last_n, max),
            skip_last_n,
            max,
            seq,
        );
    }
}

/// Whether a message is one request of this kind for packets of a stream, and names `seq` as one.
pub open spec fn asks_for(message: TaggedPacket, ssrc: u32, seq: u16) -> bool {
    &&& asks_of(message, ssrc)
    &&& message.message.packet matches Packet::Rtcp(packets)
    &&& packets@[0] matches RtcpPacket::TransportLayerNack(nack)
    &&& exists|k: int| 0 <= k < nack.nacks@.len() && rtcp::pair_names(#[trigger] nack.nacks@[k], seq)
}

/// Whether a message is one request for packets of a stream.
pub open spec fn asks_of(message: TaggedPacket, ssrc: u32) -> bool {
    &&& message.message.packet matches Packet::Rtcp(packets)
    &&& packets@.len() == 1
    &&& packets@[0] matches RtcpPacket::TransportLayerNack(nack)
    &&& nack.media_ssrc == ssrc
}

/// Where the request for a stream stands among the requests of a round, if it has one.
proof fn lemma_requests(view: GeneratorView, order: Seq<u32>, ssrc: u32)
    requires
        order.no_duplicates(),
    ensures
        forall|k: int|
            0 <= k < view.requests(order).len() ==> {
                let request = #[trigger] view.requests(order)[k];
                &&& order.contains(request.media_ssrc)
                &&& request.asked == view.round(request.media_ssrc).asked
                &&& request.asked.len() > 0
            },
        forall|i: int, j: int|
            0 <= i < j < view.requests(order).len() ==> (
            #[trigger] view.requests(order)[i]).media_ssrc != (
            #[trigger] view.requests(order)[j]).media_ssrc,
        order.contains(ssrc) && view.round(ssrc).asked.len() > 0 ==> exists|k: int|
            0 <= k < view.requests(order).len() && (#[trigger] view.requests(order)[k]).media_ssrc
                == ssrc,
    decreases order.len(),
{
    if order.len() > 0 {
        let before = order.drop_last();
        let last = order.len() - 1;
        assert(before.no_duplicates());
        lemma_requests(view, before, ssrc);
        let some = view.requests(before);
        let all = view.requests(order);
        assert(!before.contains(order[last])) by {
            if before.contains(order[last]) {
                let i = choose|i: int| 0 <= i < before.len() && before[i] == order[last];
                assert(order[i] == order[last]);
            }
        }
        assert forall|k: int| 0 <= k < all.len() implies {
            let request = #[trigger] all[k];
            &&& order.contains(request.media_ssrc)
            &&& request.asked == view.round(request.media_ssrc).asked
            &&& request.asked.len() > 0
        } by {
            if k < some.len() {
                assert(all[k] == some[k]);
                let i = choose|i: int| 0 <= i < before.len() && before[i] == some[k].media_ssrc;
                assert(order[i] == some[k].media_ssrc);
            } else {
                assert(order[last] == all[k].media_ssrc);
            }
        }
        assert forall|i: int, j: int| 0 <= i < j < all.len() implies (#[trigger] all[i]).media_ssrc
            != (#[trigger] all[j]).media_ssrc by {
            assert(all[i] == some[i]);
            assert(before.contains(some[i].media_ssrc));
            if j < some.len() {
                assert(all[j] == some[j]);
            }
        }
        if order.contains(ssrc) && view.round(ssrc).asked.len() > 0 {
            if ssrc == order[last] {
                assert(all[all.len() - 1].media_ssrc == ssrc);
            } else {
                let i = choose|i: int| 0 <= i < order.len() && order[i] == ssrc;
                assert(before[i] == ssrc);
                let k = choose|k: int| 0 <= k < some.len() && (#[trigger] some[k]).media_ssrc
                    == ssrc;
                assert(all[k] == some[k]);
            }
        }
    }
}

/// The NACK for a request names exactly the numbers of the request.
proof fn lemma_nack_names(
    message: TaggedPacket,
    now: Instant,
    sender_ssrc: u32,
    request: Request,
    seq: u16,
)
    requires
        is_nack(message, now, sender_ssrc, request),
    ensures
        asks_of(message, request.media_ssrc),
        asks_for(message, request.media_ssrc, seq) <==> request.asked.contains(seq),
{
    let nack = message.message.packet->Rtcp_0@[0]->TransportLayerNack_0;
    let pairs = nack.nacks@;
    rtcp::law_pairs_ask_for(pairs, seq);
    if request.asked.contains(seq) {
        let k = choose|k: int| 0 <= k < pairs.len() && (#[trigger] pairs[k]).numbers().contains(seq);
        rtcp::law_pair_asks_for(pairs[k], seq);
        assert(rtcp::pair_names(pairs[k], seq));
    }
    if asks_for(message, request.media_ssrc, seq) {
        let k = choose|k: int| 0 <= k < pairs.len() && rtcp::pair_names(#[trigger] pairs[k], seq);
        rtcp::law_pair_asks_for(pairs[k], seq);
        assert(pairs[k].numbers().contains(seq));
    }
}

/// A round asks every stream for what it lacks: a number of a bound stream is named in a request
/// for that stream exactly where it is missing and has allowance left. A stream gets one request at
/// most, one that is not bound gets none, everything that a round queues is a request, and what was
/// queued before stays in front.
pub proof fn law_round_asks_every_stream(
    view: GeneratorView,
    now: Instant,
    order: Seq<u32>,
    after: GeneratorView,
    ssrc: u32,
    seq: u16,
)
    requires
        view.is_order(order),
        view.after_round(now, order, after),
    ensures
        ({
            let queued = view.write_queue.len() as int;
            let asked = exists|k: int|
                queued <= k < after.write_queue.len() && asks_for(
                    #[trigger] after.write_queue[k],
                    ssrc,
                    seq,
                );
            &&& queued <= after.write_queue.len()
            &&& after.write_queue.take(queued) == view.write_queue
            &&& asked <==> {
                &&& view.logs.contains_key(ssrc)
                &&& view.logs[ssrc].is_missing(seq, view.skip_last_n)
                &&& view.max_nacks_per_packet == 0 || count_of(view.counts_of(ssrc), seq)
                    < view.max_nacks_per_packet
            }
            &&& forall|k: int|
                queued <= k < after.write_queue.len() ==> {
                    let message = #[trigger] after.write_queue[k];
                    &&& message.now == now
                    &&& exists|s: u32| view.logs.contains_key(s) && #[trigger] asks_of(message, s)
                }
            &&& forall|i: int, j: int|
                queued <= i < j < after.write_queue.len() ==> !(asks_of(
                    #[trigger] after.write_queue[i],
                    ssrc,
                ) && asks_of(#[trigger] after.write_queue[j], ssrc))
            &&& after.logs == view.logs
            &&& after.read_queue == view.read_queue
        }),
{
    let queued = view.write_queue.len() as int;
    let requests = view.requests(order);
    lemma_requests(view, order, ssrc);
    assert(after.write_queue.take(queued) =~= after.write_queue.subrange(0, queued));
    assert forall|k: int| queued <= k < after.write_queue.len() implies is_nack(
        #[trigger] after.write_queue[k],
        now,
        view.sender_ssrc,
        requests[k - queued],
    ) by {
        assert(after.write_queue[queued + (k - queued)] == after.write_queue[k]);
    }
    assert forall|k: int| queued <= k < after.write_queue.len() implies {
        let message = #[trigger] after.write_queue[k];
        &&& message.now == now
        &&& exists|s: u32| view.logs.contains_key(s) && #[trigger] asks_of(message, s)
    } by {
        let request = requests[k - queued];
        lemma_nack_names(after.write_queue[k], now, view.sender_ssrc, request, seq);
        assert(order.to_set().contains(request.media_ssrc));
        assert(asks_of(after.write_queue[k], request.media_ssrc));
    }
    if view.logs.contains_key(ssrc) {
        assert(order.to_set().contains(ssrc));
        law_asked_within_allowance(
            view.logs[ssrc],
            view.counts_of(ssrc),
            view.skip_last_n,
            view.max_nacks_per_packet,
            seq,
        );
        if view.round(ssrc).asked.contains(seq) {
            let k = choose|k: int| 0 <= k < requests.len() && (#[trigger] requests[k]).media_ssrc
                == ssrc;
            lemma_nack_names(
                after.write_queue[queued + k],
                now,
                view.sender_ssrc,
                requests[k],
                seq,
            );
            assert(asks_for(after.write_queue[queued + k], ssrc, seq));
        }
    }
    if exists|k: int|
        queued <= k < after.write_queue.len() && asks_for(
            #[trigger] after.write_queue[k],
            ssrc,
            seq,
        ) {
        let k = choose|k: int|
            queued <= k < after.write_queue.len() && asks_for(
                #[trigger] after.write_queue[k],
                ssrc,
                seq,
            );
        let request = requests[k - queued];
        lemma_nack_names(after.write_queue[k], now, view.sender_ssrc, request, seq);
        assert(request.media_ssrc == ssrc);
        assert(order.to_set().contains(ssrc));
    }
    assert forall|i: int, j: int| queued <= i < j < after.write_queue.len() implies !(asks_of(
        #[trigger] after.write_queue[i],
        ssrc,
    ) && asks_of(#[trigger] after.write_queue[j], ssrc)) by {
        lemma_nack_names(after.write_queue[i], now, view.sender_ssrc, requests[i - queued], seq);
        lemma_nack_names(after.write_queue[j], now, view.sender_ssrc, requests[j - queued], seq);
        assert(requests[i - queued].media_ssrc != requests[j - queued].media_ssrc);
    }
}

/// A round uses up one of the allowance of what it asks for, forgets what is no longer missing, and
/// leaves streams that are not bound alone.
pub proof fn law_round_counts_what_it_asks(
    view: GeneratorView,
    now: Instant,
    order: Seq<u32>,
    after: GeneratorView,
    ssrc: u32,
    seq: u16,
)
    requires
        view.is_order(order),
        view.after_round(now, order, after),
        view.max_nacks_per_packet > 0,
    ensures
        count_of(after.counts_of(ssrc), seq) == if !view.logs.contains_key(ssrc) {
            count_of(view.counts_of(ssrc), seq) as int
        } else if !view.logs[ssrc].is_missing(seq, view.skip_last_n) {
            0
        } else if count_of(view.counts_of(ssrc), seq) < view.max_nacks_per_packet {
            count_of(view.counts_of(ssrc), seq) + 1
        } else {
            count_of(view.counts_of(ssrc), seq) as int
        },
{
    assert(order.contains(ssrc) == order.to_set().contains(ssrc));
    if view.logs.contains_key(ssrc) {
        law_asked_within_allowance(
            view.logs[ssrc],
            view.counts_of(ssrc),
            view.skip_last_n,
            view.max_nacks_per_packet,
            seq,
        );
    }
    assert(after.counts_of(ssrc) == if order.contains(ssrc) {
        view.round(ssrc).counts
    } else {
        view.counts_of(ssrc)
    });
}

/// Media of a bound stream is noted in the log of that stream and in no other, whatever the stream.
/// It arms the timer where it is not armed; nothing else does, and every packet is handed on.
pub proof fn law_arrival_is_noted_in_its_stream(view: GeneratorView, msg: TaggedPacket, other: u32)
    ensures
        ({
            let after = view.noted(msg).handed_on(msg);
            let of_a_bound_stream = match msg.message.packet {
                Packet::Rtp(packet) => view.logs.contains_key(packet.header.ssrc),
                Packet::Rtcp(_) => false,
            };
            &&& after.read_queue == view.read_queue.push(msg)
            &&& after.write_queue == view.write_queue
            &&& after.counts == view.counts
            &&& after.logs.contains_key(other) == view.logs.contains_key(other)
            &&& view.logs.contains_key(other) ==> after.logs[other] == match msg.message.packet {
                Packet::Rtp(packet) => if packet.header.ssrc == other {
                    view.logs[other].add(packet.header.sequence_number)
                } else {
                    view.logs[other]
                },
                Packet::Rtcp(_) => view.logs[other],
            }
            &&& after.next_timeout == if view.next_timeout is None && of_a_bound_stream {
                Some((msg.now + view.interval) as u64)
            } else {
                view.next_timeout
            }
        }),
{
}

/// Every request of a round is one NACK under the sender's own source, at the time of the round,
/// with nothing attached, and asks for something.
pub proof fn law_requests_come_from_the_sender(
    view: GeneratorView,
    now: Instant,
    order: Seq<u32>,
    after: GeneratorView,
    k: int,
)
    requires
        view.after_round(now, order, after),
        view.write_queue.len() <= k < after.write_queue.len(),
    ensures
        ({
            let message = after.write_queue[k];
            &&& message.now == now
            &&& message.message.attributes@.len() == 0
            &&& message.message.packet matches Packet::Rtcp(packets)
            &&& packets@.len() == 1
            &&& packets@[0] matches RtcpPacket::TransportLayerNack(nack)
            &&& nack.sender_ssrc == view.sender_ssrc
            &&& nack.nacks@.len() > 0
        }),
{
    let queued = view.write_queue.len() as int;
    let requests = view.requests(order);
    let i = k - queued;
    assert(is_nack(after.write_queue[queued + i], now, view.sender_ssrc, requests[i]));
    lemma_requests_ask(view, order, i);
}

proof fn lemma_requests_ask(view: GeneratorView, order: Seq<u32>, i: int)
    requires
        0 <= i < view.requests(order).len(),
    ensures
        view.requests(order)[i].asked.len() > 0,
    decreases order.len(),
{
    if order.len() > 0 {
        let before = view.requests(order.drop_last());
        if i < before.len() {
            lemma_requests_ask(view, order.drop_last(), i);
        }
    }
}

/// A round is due from the time on that is set for it, and the next one is set an interval later. Where
/// no time is set, none is due.
pub proof fn law_rounds_are_an_interval_apart(view: GeneratorView, now: Instant, later: Instant)
    requires
        now + view.interval <= u64::MAX,
    ensures
        view.next_timeout is None ==> !view.due(now),
        view.next_timeout matches Some(at) ==> (view.due(now) <==> now >= at),
        view.rescheduled(now).due(later) <==> later >= now + view.interval,
        view.rescheduled(now).logs == view.logs,
        view.rescheduled(now).write_queue == view.write_queue,
{
}

} // verus!
