//! RTCP packets, as far as the interceptors read and write them.

use vstd::prelude::*;

verus! {

/// A sender report.
#[derive(Debug, Clone, Copy, PartialEq, Eq, Structural)]
pub struct SenderReport {
    /// Source of the report.
    pub ssrc: u32,
    /// NTP timestamp of the report, 32 bits of seconds and 32 bits of fraction.
    pub ntp_time: u64,
    /// The same instant on the media clock.
    pub rtp_time: u32,
    /// Packets sent.
    pub packet_count: u32,
    /// Payload octets sent.
    pub octet_count: u32,
}

/// What a receiver reports about one source.
#[derive(Debug, Clone, Copy, PartialEq, Eq, Structural)]
pub struct ReceptionReport {
    /// The source reported on.
    pub ssrc: u32,
    /// Fraction of the packets lost since the last report, in 256ths.
    pub fraction_lost: u8,
    /// Packets lost in all, at most 24 bits.
    pub total_lost: u32,
    /// Highest sequence number received, extended by the number of cycles.
    pub last_sequence_number: u32,
    /// Interarrival jitter, in timestamp units.
    pub jitter: u32,
    /// The middle 32 bits of the last sender report's NTP timestamp.
    pub last_sender_report: u32,
    /// Time since that report, in 65536ths of a second.
    pub delay: u32,
}

/// A receiver report.
#[derive(Debug, Clone, PartialEq, Eq)]
pub struct ReceiverReport {
    /// Source of the report.
    pub ssrc: u32,
    /// One entry for each source reported on.
    pub reports: Vec<ReceptionReport>,
}

/// Sequence numbers asked for again: one, and a mask over the sixteen after it.
#[derive(Debug, Clone, Copy, PartialEq, Eq, Structural)]
pub struct NackPair {
    /// The first of them.
    pub packet_id: u16,
    /// Bit `i` asks for the number `i + 1` after it.
    pub lost_packets: u16,
}

/// Bit `i` of a mask over sixteen packets.
pub open spec fn mask_bit(mask: u16, i: int) -> bool {
    (mask >> (i as u16)) & 1 == 1
}

impl NackPair {
    /// Of the `n` numbers after the first, those that the mask asks for, ascending.
    pub open spec fn masked(self, n: nat) -> Seq<u16>
        decreases n,
    {
        if n == 0 {
            Seq::empty()
        } else {
            let before = self.masked((n - 1) as nat);
            if mask_bit(self.lost_packets, n - 1) {
                before.push(self.packet_id.wrapping_add(n as u16))
            } else {
                before
            }
        }
    }

    /// The numbers asked for, in order: the first, and then those that the mask names, ascending
    /// and wrapping.
    pub open spec fn numbers(self) -> Seq<u16> {
        seq![self.packet_id] + self.masked(16)
    }

    /// The numbers asked for, in order.
    pub fn packet_list(&self) -> (list: Vec<u16>)
        ensures
            list@ == self.numbers(),
    {
        let mut list: Vec<u16> = Vec::new();
        list.push(self.packet_id);
        let mut i: u16 = 0;
        while i < 16
            invariant
                i <= 16,
                list@ == seq![self.packet_id] + self.masked(i as nat),
            decreases 16 - i,
        {
            if (self.lost_packets >> i) & 1 == 1 {
                list.push(self.packet_id.wrapping_add(i + 1));
            }
            i = i + 1;
        }
        list
    }
}

/// The numbers that a list of pairs asks for, in order.
pub open spec fn listed(pairs: Seq<NackPair>) -> Seq<u16>
    decreases pairs.len(),
{
    if pairs.len() == 0 {
        Seq::empty()
    } else {
        listed(pairs.drop_last()) + pairs.last().numbers()
    }
}

impl NackPair {
    /// Whether the mask can ask for a number.
    pub open spec fn reaches(self, number: u16) -> bool {
        self.packet_id < number <= self.packet_id + 16
    }
}

/// Whether no pair begins with a number that the pair before it could ask for.
pub open spec fn tight(pairs: Seq<NackPair>) -> bool {
    forall|i: int|
        0 < i < pairs.len() ==> !pairs[i - 1].reaches((#[trigger] pairs[i]).packet_id)
}

/// A request to send packets again.
#[derive(Debug)]
pub struct TransportLayerNack {
    /// Who asks.
    pub sender_ssrc: u32,
    /// The stream that the packets belong to.
    pub media_ssrc: u32,
    /// The packets.
    pub nacks: Vec<NackPair>,
}

/// One packet of a compound RTCP packet.
#[derive(Debug)]
pub enum RtcpPacket {
    /// A request to send packets again.
    TransportLayerNack(TransportLayerNack),
    /// Transport-wide congestion control feedback, serialised.
    TransportLayerCc(Vec<u8>),
    /// RFC 8888 congestion control feedback, serialised.
    CcFeedbackReport(Vec<u8>),
    /// Anything else, serialised.
    Other(Vec<u8>),
}

/// The model of an [`RtcpPacket`].
pub enum RtcpView {
    /// A request to send packets again.
    TransportLayerNack {
        /// Who asks.
        sender_ssrc: u32,
        /// The stream that the packets belong to.
        media_ssrc: u32,
        /// The packets.
        nacks: Seq<NackPair>,
    },
    /// Transport-wide congestion control feedback, serialised.
    TransportLayerCc(Seq<u8>),
    /// RFC 8888 congestion control feedback, serialised.
    CcFeedbackReport(Seq<u8>),
    /// Anything else, serialised.
    Other(Seq<u8>),
}

impl View for RtcpPacket {
    type V = RtcpView;

    open spec fn view(&self) -> RtcpView {
        match self {
            RtcpPacket::TransportLayerNack(nack) => RtcpView::TransportLayerNack {
                sender_ssrc: nack.sender_ssrc,
                media_ssrc: nack.media_ssrc,
                nacks: nack.nacks@,
            },
            RtcpPacket::TransportLayerCc(bytes) => RtcpView::TransportLayerCc(bytes@),
            RtcpPacket::CcFeedbackReport(bytes) => RtcpView::CcFeedbackReport(bytes@),
            RtcpPacket::Other(bytes) => RtcpView::Other(bytes@),
        }
    }
}

/// Whether the numbers ascend, counted from `base` on and wrapping.
pub open spec fn ascends_from(base: u16, numbers: Seq<u16>) -> bool {
    forall|i: int, j: int|
        0 <= i < j < numbers.len() ==> (#[trigger] numbers[i]).wrapping_sub(base) < (
        #[trigger] numbers[j]).wrapping_sub(base)
}

/// Whether the numbers ascend, counted from somewhere on and wrapping.
pub open spec fn ascends(numbers: Seq<u16>) -> bool {
    exists|base: u16| ascends_from(base, numbers)
}

/// Setting a bit above all others adds its number at the end.
proof fn lemma_mask_or(pair: NackPair, k: u16, n: nat)
    requires
        k < 16,
        n <= 16,
        forall|i: int| k <= i < 16 ==> !mask_bit(pair.lost_packets, i),
    ensures
        ({
            let more = NackPair { lost_packets: pair.lost_packets | (1u16 << k), ..pair };
            &&& forall|i: int|
                0 <= i < 16 ==> #[trigger] mask_bit(more.lost_packets, i) == (mask_bit(
                    pair.lost_packets,
                    i,
                ) || i == k)
            &&& more.masked(n) == if n <= k {
                pair.masked(n)
            } else {
                pair.masked(n).push(pair.packet_id.wrapping_add((k + 1) as u16))
            }
        }),
    decreases n,
{
    let more = NackPair { lost_packets: pair.lost_packets | (1u16 << k), ..pair };
    let m = pair.lost_packets;
    assert forall|i: int| 0 <= i < 16 implies #[trigger] mask_bit(more.lost_packets, i) == (
    mask_bit(m, i) || i == k) by {
        let s = i as u16;
        assert(((m | (1u16 << k)) >> s) & 1 == 1 <==> ((m >> s) & 1 == 1 || s == k)) by (bit_vector)
            requires
                s < 16,
                k < 16,
        ;
    }
    if n > 0 {
        lemma_mask_or(pair, k, (n - 1) as nat);
        assert(mask_bit(more.lost_packets, n - 1) == (mask_bit(m, n - 1) || n - 1 == k));
    }
}

/// No bits, no numbers.
proof fn lemma_no_mask(packet_id: u16, n: nat)
    requires
        n <= 16,
    ensures
        (NackPair { packet_id, lost_packets: 0 }).masked(n) == Seq::<u16>::empty(),
        forall|i: int| 0 <= i < 16 ==> !#[trigger] mask_bit(0, i),
    decreases n,
{
    assert forall|i: int| 0 <= i < 16 implies !#[trigger] mask_bit(0, i) by {
        let s = i as u16;
        assert((0u16 >> s) & 1 == 0) by (bit_vector);
    }
    if n > 0 {
        lemma_no_mask(packet_id, (n - 1) as nat);
        assert(!mask_bit(0, n - 1));
    }
}

/// Packs ascending sequence numbers into pairs: a number joins the pair before it where the pair's
/// mask reaches it, and begins a new one otherwise.
pub fn nack_pairs_from_sequence_numbers(seq_nos: &Vec<u16>) -> (pairs: Vec<NackPair>)
    requires
        ascends(seq_nos@),
    ensures
        listed(pairs@) == seq_nos@,
        tight(pairs@),
{
    let ghost base = choose|base: u16| ascends_from(base, seq_nos@);
    let mut pairs: Vec<NackPair> = Vec::new();
    if seq_nos.len() == 0 {
        assert(listed(pairs@) =~= seq_nos@);
        return pairs;
    }
    let mut pair = NackPair { packet_id: seq_nos[0], lost_packets: 0 };
    proof {
        lemma_no_mask(seq_nos@[0], 16);
        assert(listed(pairs@) + pair.numbers() =~= seq_nos@.subrange(0, 1));
    }
    let mut i: usize = 1;
    while i < seq_nos.len()
        invariant
            ascends_from(base, seq_nos@),
            1 <= i <= seq_nos@.len(),
            listed(pairs@) + pair.numbers() == seq_nos@.subrange(0, i as int),
            tight(pairs@.push(pair)),
            pair.packet_id <= seq_nos@[i - 1] <= pair.packet_id + 16,
            pair.packet_id.wrapping_sub(base) + (seq_nos@[i - 1] - pair.packet_id) == seq_nos@[i
                - 1].wrapping_sub(base),
            forall|b: int|
                seq_nos@[i - 1] - pair.packet_id <= b < 16 ==> !#[trigger] mask_bit(
                    pair.lost_packets,
                    b,
                ),
        decreases seq_nos@.len() - i,
    {
        let seq: u16 = seq_nos[i];
        let ghost done = seq_nos@.subrange(0, i as int);
        let ghost last = seq_nos@[i - 1];
        proof {
            assert(seq_nos@[i - 1].wrapping_sub(base) < seq_nos@[i as int].wrapping_sub(base));
            assert(seq_nos@.subrange(0, i + 1) =~= done.push(seq));
        }
        if seq <= pair.packet_id || seq > pair.packet_id.saturating_add(16) {
            let ghost before = pairs@;
            pairs.push(pair);
            assert(pairs@.drop_last() =~= before);
            pair = NackPair { packet_id: seq, lost_packets: 0 };
            proof {
                lemma_no_mask(seq, 16);
                assert(listed(pairs@) + pair.numbers() =~= seq_nos@.subrange(0, i + 1));
            }
        } else {
            let k: u16 = seq - pair.packet_id - 1;
            let ghost before = pair;
            proof {
                assert(last < seq);
                lemma_mask_or(pair, k, 16);
            }
            pair.lost_packets = pair.lost_packets | (1u16 << k);
            proof {
                assert(pair.numbers() =~= before.numbers().push(seq));
                assert(tight(pairs@.push(pair))) by {
                    assert forall|j: int| 0 < j < pairs@.len() + 1 implies !pairs@.push(
                        pair,
                    )[j - 1].reaches((#[trigger] pairs@.push(pair)[j]).packet_id) by {
                        assert(pairs@.push(before)[j].packet_id == pairs@.push(pair)[j].packet_id);
                    }
                }
                assert(listed(pairs@) + pair.numbers() =~= seq_nos@.subrange(0, i + 1));
            }
        }
        i = i + 1;
    }
    let ghost before = pairs@;
    pairs.push(pair);
    proof {
        assert(pairs@.drop_last() =~= before);
        assert(seq_nos@.subrange(0, seq_nos@.len() as int) =~= seq_nos@);
    }
    pairs
}

/// Whether a pair names a number: as its first, or by a bit of its mask.
pub open spec fn pair_names(pair: NackPair, seq: u16) -> bool {
    let d = seq.wrapping_sub(pair.packet_id);
    d == 0 || (d <= 16 && (pair.lost_packets >> ((d - 1) as u16)) & 1 == 1)
}

proof fn lemma_masked_members(pair: NackPair, n: nat, seq: u16)
    requires
        n <= 16,
    ensures
        pair.masked(n).contains(seq) <==> 1 <= seq.wrapping_sub(pair.packet_id) <= n && (
        pair.lost_packets >> ((seq.wrapping_sub(pair.packet_id) - 1) as u16)) & 1 == 1,
    decreases n,
{
    if n > 0 {
        let before = pair.masked((n - 1) as nat);
        let all = pair.masked(n);
        lemma_masked_members(pair, (n - 1) as nat, seq);
        let number = pair.packet_id.wrapping_add(n as u16);
        if before.contains(seq) {
            let k = choose|k: int| 0 <= k < before.len() && before[k] == seq;
            assert(all[k] == seq);
        }
        if all.contains(seq) {
            let k = choose|k: int| 0 <= k < all.len() && all[k] == seq;
            if k < before.len() {
                assert(before[k] == seq);
            }
        }
        if seq == number && mask_bit(pair.lost_packets, n - 1) {
            assert(all[all.len() - 1] == seq);
        }
        assert(number.wrapping_sub(pair.packet_id) == n);
        if seq.wrapping_sub(pair.packet_id) == n {
            assert(seq == number);
        }
    } else {
        assert(pair.masked(n).len() == 0);
    }
}

/// A pair asks for its first number, and for the number `d` after it, wrapping, exactly where
/// `d` is from 1 to 16 and bit `d - 1` of the mask is set.
pub proof fn law_pair_asks_for(pair: NackPair, seq: u16)
    ensures
        pair.numbers().contains(seq) <==> pair_names(pair, seq),
        pair.numbers()[0] == pair.packet_id,
{
    lemma_masked_members(pair, 16, seq);
    let all = pair.numbers();
    let masked = pair.masked(16);
    assert(all[0] == pair.packet_id);
    if masked.contains(seq) {
        let k = choose|k: int| 0 <= k < masked.len() && masked[k] == seq;
        assert(all[k + 1] == seq);
    }
    if all.contains(seq) {
        let k = choose|k: int| 0 <= k < all.len() && all[k] == seq;
        if k > 0 {
            assert(masked[k - 1] == seq);
        }
    }
}

/// A pair lists its numbers in the order in which they follow its first one, each once.
pub proof fn law_pair_lists_in_order(pair: NackPair, i: int, j: int)
    requires
        0 <= i < j < pair.numbers().len(),
    ensures
        pair.numbers()[i].wrapping_sub(pair.packet_id) < pair.numbers()[j].wrapping_sub(
            pair.packet_id,
        ) <= 16,
{
    lemma_masked_order(pair, 16);
    let masked = pair.masked(16);
    assert(pair.numbers()[j] == masked[j - 1]);
    if i > 0 {
        assert(pair.numbers()[i] == masked[i - 1]);
    }
}

proof fn lemma_masked_order(pair: NackPair, n: nat)
    requires
        n <= 16,
    ensures
        forall|i: int|
            0 <= i < pair.masked(n).len() ==> 1 <= (#[trigger] pair.masked(n)[i]).wrapping_sub(
                pair.packet_id,
            ) <= n,
        forall|i: int, j: int|
            0 <= i < j < pair.masked(n).len() ==> (#[trigger] pair.masked(n)[i]).wrapping_sub(
                pair.packet_id,
            ) < (#[trigger] pair.masked(n)[j]).wrapping_sub(pair.packet_id),
    decreases n,
{
    if n > 0 {
        lemma_masked_order(pair, (n - 1) as nat);
        let before = pair.masked((n - 1) as nat);
        let all = pair.masked(n);
        assert forall|i: int| 0 <= i < all.len() implies 1 <= (#[trigger] all[i]).wrapping_sub(
            pair.packet_id,
        ) <= n by {
            if i < before.len() {
                assert(all[i] == before[i]);
            }
        }
        assert forall|i: int, j: int| 0 <= i < j < all.len() implies (
        #[trigger] all[i]).wrapping_sub(pair.packet_id) < (#[trigger] all[j]).wrapping_sub(
            pair.packet_id,
        ) by {
            assert(all[i] == before[i]);
            if j < before.len() {
                assert(all[j] == before[j]);
            }
        }
    }
}

/// A list of pairs asks for what its pairs ask for, pair by pair.
pub proof fn law_pairs_ask_one_after_the_other(one: Seq<NackPair>, other: Seq<NackPair>)
    ensures
        listed(one + other) == listed(one) + listed(other),
        forall|pair: NackPair| #[trigger] listed(seq![pair]) == pair.numbers(),
        listed(Seq::<NackPair>::empty()) == Seq::<u16>::empty(),
    decreases other.len(),
{
    assert forall|pair: NackPair| #[trigger] listed(seq![pair]) == pair.numbers() by {
        assert(seq![pair].drop_last() =~= Seq::<NackPair>::empty());
        reveal_with_fuel(listed, 2);
        assert(listed(seq![pair]) =~= pair.numbers());
    }
    if other.len() == 0 {
        assert(one + other =~= one);
        assert(listed(one) + listed(other) =~= listed(one));
    } else {
        law_pairs_ask_one_after_the_other(one, other.drop_last());
        assert((one + other).drop_last() =~= one + other.drop_last());
        assert(listed(one + other) =~= listed(one) + listed(other));
    }
}

/// A list of pairs asks for a number exactly where one of them does.
pub proof fn law_pairs_ask_for(pairs: Seq<NackPair>, seq: u16)
    ensures
        listed(pairs).contains(seq) <==> exists|k: int|
            0 <= k < pairs.len() && (#[trigger] pairs[k]).numbers().contains(seq),
    decreases pairs.len(),
{
    if pairs.len() > 0 {
        let before = pairs.drop_last();
        let last = pairs.len() - 1;
        law_pairs_ask_for(before, seq);
        let all = listed(pairs);
        let head = listed(before);
        let tail = pairs[last].numbers();
        if all.contains(seq) {
            let k = choose|k: int| 0 <= k < all.len() && all[k] == seq;
            if k < head.len() {
                assert(head[k] == seq);
                let m = choose|m: int|
                    0 <= m < before.len() && (#[trigger] before[m]).numbers().contains(seq);
                assert(pairs[m].numbers().contains(seq));
            } else {
                assert(tail[k - head.len()] == seq);
                assert(pairs[last].numbers().contains(seq));
            }
        }
        if exists|k: int| 0 <= k < pairs.len() && (#[trigger] pairs[k]).numbers().contains(seq) {
            let k = choose|k: int|
                0 <= k < pairs.len() && (#[trigger] pairs[k]).numbers().contains(seq);
            if k < last {
                assert(before[k].numbers().contains(seq));
                let m = choose|m: int| 0 <= m < head.len() && head[m] == seq;
                assert(all[m] == seq);
            } else {
                let m = choose|m: int| 0 <= m < tail.len() && tail[m] == seq;
                assert(all[head.len() + m] == seq);
            }
        }
    } else {
        assert(listed(pairs).len() == 0);
    }
}

} // verus!
