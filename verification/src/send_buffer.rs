//! Send buffer for storing RTP packets for NACK retransmission.

use crate::bitmap;
use crate::rtp::{bytes_len, Packet, PacketView};
use crate::seqnum;
use crate::seqnum::{window_size, UINT16_SIZE_HALF};
use crate::time;
use crate::time::{Duration, Instant};
use vstd::prelude::*;

verus! {

/// A stored packet and when it was sent.
struct Entry {
    packet: Packet,
    /// Nanoseconds after the buffer's `epoch`.
    sent_at: u64,
}

/// How much retransmission history a [`SendBuffer`] keeps, beyond its packet count.
#[derive(Debug, Clone, Copy, PartialEq, Eq, Structural)]
pub struct HistoryLimits {
    /// Payload bytes the stored packets may reference. The most recent packet is always kept,
    /// even if it alone exceeds this.
    pub max_bytes: usize,
    /// How long a packet stays retransmittable after it was sent. `None` keeps it until the
    /// packet count or byte limit displaces it.
    pub max_age: Option<Duration>,
}

/// The model of a stored packet.
pub struct Sent {
    /// The packet.
    pub packet: PacketView,
    /// When it was sent, in nanoseconds after the buffer's epoch.
    pub sent_at: u64,
}

/// The payload bytes that a slot keeps alive.
pub open spec fn weight(slot: Option<Sent>) -> nat {
    match slot {
        Some(sent) => sent.packet.payload.len(),
        None => 0,
    }
}

/// The payload bytes that the slots keep alive together.
pub open spec fn held(slots: Seq<Option<Sent>>) -> nat
    decreases slots.len(),
{
    if slots.len() == 0 {
        0
    } else {
        held(slots.drop_last()) + weight(slots.last())
    }
}

/// What a send buffer holds.
#[verifier::ext_equal]
pub struct SendView {
    /// One slot for each number of the window; `seq` owns slot `seq % slots.len()`.
    pub slots: Seq<Option<Sent>>,
    /// Highest sequence number added.
    pub highest_added: u16,
    /// Whether any packet has been added.
    pub started: bool,
    /// The oldest sequence number that may still be stored.
    pub oldest: u16,
    /// When the most recent packet was added, while anything is stored.
    pub newest_sent_at: Option<Instant>,
    /// What send times count from.
    pub epoch: Option<Instant>,
    /// The limits beside the packet count.
    pub limits: HistoryLimits,
}

impl SendView {
    /// The packet stored under `seq`.
    pub open spec fn stored(self, seq: u16) -> Option<Sent> {
        match self.slots[seq as int % self.slots.len() as int] {
            Some(sent) if sent.packet.header.sequence_number == seq => Some(sent),
            _ => None,
        }
    }

    /// The payload bytes that the stored packets reference.
    pub open spec fn bytes(self) -> nat {
        held(self.slots)
    }

    /// Whether a packet has outlived the age limit.
    pub open spec fn expired(self, sent: Sent, now: Instant) -> bool {
        match (self.limits.max_age, self.epoch) {
            (Some(max_age), Some(epoch)) => time::since(time::since(now, epoch), sent.sent_at) >= max_age,
            _ => false,
        }
    }

    /// The buffer with the slots of the `len` numbers from `first` emptied.
    pub open spec fn forget(self, first: u16, len: int) -> SendView {
        SendView {
            slots: Seq::new(
                self.slots.len(),
                |p: int|
                    if bitmap::covers(self.slots.len() as int, first as int, len, p) {
                        None
                    } else {
                        self.slots[p]
                    },
            ),
            ..self
        }
    }

    /// The buffer with `packet` in its slot, in place of what was there.
    pub open spec fn put(self, packet: PacketView, now: Instant) -> SendView {
        let epoch = match self.epoch {
            Some(epoch) => epoch,
            None => now,
        };
        SendView {
            slots: self.slots.update(
                packet.header.sequence_number as int % self.slots.len() as int,
                Some(Sent { packet, sent_at: time::since(now, epoch) }),
            ),
            epoch: Some(epoch),
            newest_sent_at: match self.newest_sent_at {
                Some(newest) if newest >= now => Some(newest),
                _ => Some(now),
            },
            ..self
        }
    }

    /// How many numbers eviction has still to look at.
    pub open spec fn ahead(self) -> u16 {
        self.highest_added.wrapping_add(1).wrapping_sub(self.oldest)
    }

    /// Whether eviction keeps what is stored under the oldest number. The byte limit spares the
    /// newest packet.
    pub open spec fn keeps_oldest(self, now: Instant) -> bool {
        match self.stored(self.oldest) {
            Some(sent) => !(self.bytes() > self.limits.max_bytes && self.oldest
                != self.highest_added) && !self.expired(sent, now),
            None => false,
        }
    }

    /// The buffer without what is stored under the oldest number.
    pub open spec fn without_oldest(self) -> SendView {
        let rest = if self.stored(self.oldest) is Some {
            self.forget(self.oldest, 1)
        } else {
            self
        };
        SendView { oldest: self.oldest.wrapping_add(1), ..rest }
    }

    /// The buffer after eviction from its oldest end: packets go, oldest first, while the byte
    /// limit is exceeded or they have aged out, and eviction stops at the first packet that stays.
    pub open spec fn evict(self, now: Instant) -> SendView
        decreases self.ahead(),
    {
        if !self.started {
            self
        } else if self.ahead() == 0 {
            SendView { oldest: self.highest_added, newest_sent_at: None, ..self }
        } else if self.keeps_oldest(now) {
            self
        } else {
            self.without_oldest().evict(now)
        }
    }

    /// Whether a packet with the number `seq` is stored: not where it is the newest one again, nor
    /// where it is older than the whole window.
    pub open spec fn accepts(self, seq: u16) -> bool {
        let ahead = seq.wrapping_sub(self.highest_added);
        !self.started || 0 < ahead < UINT16_SIZE_HALF || (ahead >= UINT16_SIZE_HALF
            && self.highest_added.wrapping_sub(seq) < self.slots.len())
    }

    /// The buffer with its window moved so that `seq` lies in it.
    pub open spec fn make_room(self, seq: u16) -> SendView {
        let size = self.slots.len();
        let ahead = seq.wrapping_sub(self.highest_added);
        let window_start = seq.wrapping_sub((size - 1) as u16);
        if !self.started {
            SendView { highest_added: seq, oldest: seq, started: true, ..self }
        } else if ahead < UINT16_SIZE_HALF {
            // The packets that the window leaves behind go.
            let oldest = if ahead >= size {
                seq
            } else if window_start.wrapping_sub(self.oldest) < UINT16_SIZE_HALF {
                window_start
            } else {
                self.oldest
            };
            SendView {
                highest_added: seq,
                oldest,
                ..self.forget(self.highest_added.wrapping_add(1), ahead as int)
            }
        } else if self.oldest.wrapping_sub(seq) < UINT16_SIZE_HALF {
            SendView { oldest: seq, ..self }
        } else {
            self
        }
    }

    /// The buffer after `packet` was added at `now`.
    pub open spec fn add(self, packet: PacketView, now: Instant) -> SendView {
        let seq = packet.header.sequence_number;
        if self.accepts(seq) {
            self.make_room(seq).put(packet, now).evict(now)
        } else {
            self
        }
    }

    /// The packet that can be retransmitted for `seq` at `now`.
    pub open spec fn get(self, seq: u16, now: Instant) -> Option<PacketView> {
        match self.stored(seq) {
            Some(sent) if !self.expired(sent, now) => Some(sent.packet),
            _ => None,
        }
    }

    /// When everything stored will have aged out.
    pub open spec fn expires_at(self) -> Option<int> {
        match (self.newest_sent_at, self.limits.max_age) {
            (Some(newest), Some(max_age)) => Some(newest + max_age),
            _ => None,
        }
    }

    /// Whether `seq` lies between the oldest number that may be stored and the highest one.
    pub open spec fn spans(self, seq: u16) -> bool {
        seq.wrapping_sub(self.oldest) < self.ahead()
    }

    /// Every stored packet stands in its own slot, between the oldest number and the highest, and
    /// was not sent after the newest one.
    pub open spec fn consistent(self) -> bool {
        &&& seqnum::is_window_size(self.slots.len() as int)
        &&& self.ahead() <= self.slots.len()
        &&& forall|p: int|
            0 <= p < self.slots.len() ==> (#[trigger] self.slots[p] matches Some(sent) ==> {
                &&& sent.packet.header.sequence_number as int % self.slots.len() as int == p
                &&& self.spans(sent.packet.header.sequence_number)
                &&& self.epoch is Some
                &&& self.newest_sent_at is Some
                &&& sent.sent_at <= time::since(self.newest_sent_at->0, self.epoch->0)
            })
    }

    /// What holds of every send buffer.
    pub open spec fn valid(self) -> bool {
        &&& self.consistent()
        &&& self.ahead() >= 1
        &&& !self.started ==> self.epoch is None && self.newest_sent_at is None
    }
}

/// Replacing one slot changes what is held by the difference.
proof fn lemma_held_update(slots: Seq<Option<Sent>>, p: int, slot: Option<Sent>)
    requires
        0 <= p < slots.len(),
    ensures
        held(slots.update(p, slot)) + weight(slots[p]) == held(slots) + weight(slot),
    decreases slots.len(),
{
    let updated = slots.update(p, slot);
    if p == slots.len() - 1 {
        assert(updated.drop_last() =~= slots.drop_last());
    } else {
        lemma_held_update(slots.drop_last(), p, slot);
        assert(updated.drop_last() =~= slots.drop_last().update(p, slot));
    }
}

/// Empty slots hold nothing.
proof fn lemma_held_none(slots: Seq<Option<Sent>>)
    requires
        forall|p: int| 0 <= p < slots.len() ==> #[trigger] slots[p] is None,
    ensures
        held(slots) == 0,
    decreases slots.len(),
{
    if slots.len() > 0 {
        assert(slots[slots.len() - 1] is None);
        assert forall|p: int| 0 <= p < slots.drop_last().len() implies #[trigger] slots.drop_last()[p] is None by {
            assert(slots[p] is None);
        }
        lemma_held_none(slots.drop_last());
    }
}

/// Forgetting one number more empties its slot as well.
proof fn lemma_forget_next(view: SendView, first: u16, len: int)
    requires
        seqnum::is_window_size(view.slots.len() as int),
        0 <= len < view.slots.len(),
    ensures
        view.forget(first, len + 1).slots == view.forget(first, len).slots.update(
            first.wrapping_add(len as u16) as int % view.slots.len() as int,
            None,
        ),
{
    let size = view.slots.len() as int;
    let seq = first.wrapping_add(len as u16);
    let slot = seq as int % size;
    assert(slot == (first + len) % size) by {
        seqnum::lemma_round(first + len, size);
        seqnum::lemma_round(seq as int, size);
        assert((first + len) % 65536 == seq as int % 65536);
    }
    assert forall|p: int| 0 <= p < size implies #[trigger] view.forget(first, len + 1).slots[p]
        == view.forget(first, len).slots.update(slot, None)[p] by {
        vstd::arithmetic::div_mod::lemma_small_mod(p as nat, size as nat);
        bitmap::lemma_covers_on(size, first as int, len, 1, p);
    }
    assert(view.forget(first, len + 1).slots =~= view.forget(first, len).slots.update(slot, None));
}

/// Forgetting nothing changes nothing.
proof fn lemma_forget_none(view: SendView, first: u16)
    requires
        seqnum::is_window_size(view.slots.len() as int),
    ensures
        view.forget(first, 0).slots == view.slots,
{
    assert(view.forget(first, 0).slots =~= view.slots);
}

/// Taking away the oldest keeps the buffer consistent.
proof fn lemma_without_oldest(view: SendView)
    requires
        view.consistent(),
        view.ahead() >= 1,
    ensures
        view.without_oldest().consistent(),
        view.without_oldest().ahead() == view.ahead() - 1,
        view.without_oldest().slots == if view.stored(view.oldest) is Some {
            view.slots.update(view.oldest as int % view.slots.len() as int, None)
        } else {
            view.slots
        },
{
    let size = view.slots.len() as int;
    let rest = view.without_oldest();
    assert(0 <= view.oldest as int % size < size);
    lemma_forget_none(view, view.oldest);
    lemma_forget_next(view, view.oldest, 0);
    assert forall|p: int| 0 <= p < size implies (#[trigger] rest.slots[p] matches Some(sent)
        ==> rest.spans(sent.packet.header.sequence_number)) by {
        if let Some(sent) = rest.slots[p] {
            assert(view.slots[p] == Some(sent));
            assert(view.spans(sent.packet.header.sequence_number));
            assert(sent.packet.header.sequence_number != view.oldest);
        }
    }
}

/// Eviction keeps the buffer consistent, and leaves at least the highest number to look at.
proof fn lemma_evict_consistent(view: SendView, now: Instant)
    requires
        view.consistent(),
        view.started,
    ensures
        view.evict(now).consistent(),
        view.evict(now).ahead() >= 1,
        view.evict(now).slots.len() == view.slots.len(),
        view.evict(now).highest_added == view.highest_added,
        view.evict(now).started,
        view.evict(now).limits == view.limits,
        view.evict(now).epoch == view.epoch,
    decreases view.ahead(),
{
    if view.ahead() > 0 && !view.keeps_oldest(now) {
        lemma_without_oldest(view);
        lemma_evict_consistent(view.without_oldest(), now);
    }
}

/// After eviction the byte limit is met, or nothing but the newest packet is stored.
pub proof fn law_evict_meets_byte_limit(view: SendView, now: Instant, seq: u16)
    requires
        view.consistent(),
        view.started,
    ensures
        view.evict(now).bytes() <= view.limits.max_bytes || (view.evict(now).stored(seq) is Some
            ==> seq == view.highest_added),
    decreases view.ahead(),
{
    let size = view.slots.len() as int;
    assert(0 <= seq as int % size < size);
    if view.ahead() == 0 {
        if view.stored(seq) is Some {
            assert(view.slots[seq as int % size] is Some);
        }
    } else if view.keeps_oldest(now) {
        if view.oldest == view.highest_added && view.stored(seq) is Some {
            assert(view.slots[seq as int % size] is Some);
            assert(view.spans(seq));
        }
    } else {
        lemma_without_oldest(view);
        law_evict_meets_byte_limit(view.without_oldest(), now, seq);
    }
}

/// Buffer for storing sent RTP packets to enable NACK-based retransmission.
///
/// The buffer uses a circular array indexed by sequence number to store packets. When a NACK is
/// received, packets can be retrieved by sequence number for retransmission.
///
/// Bounded three ways: by packet count (the array), and optionally by the payload bytes the stored
/// packets reference and by their age. RTP payloads are shared `Bytes`, so storing a packet copies
/// no payload, but it keeps the payload's allocation alive, which is what the byte and age limits
/// bound.
pub struct SendBuffer {
    /// Circular buffer of packets.
    packets: Vec<Option<Entry>>,
    /// Size of the buffer, a power of 2.
    size: u16,
    /// `size - 1`, used to index the circular buffer with `& mask`.
    mask: u16,
    /// Highest sequence number added.
    highest_added: u16,
    /// Whether any packet has been added yet.
    started: bool,
    /// The oldest sequence number that may still be stored: where eviction by bytes or age
    /// resumes. Everything before it, back to the start of the window, is empty.
    oldest: u16,
    /// Payload bytes referenced by the stored packets.
    bytes: usize,
    /// When the most recent packet was added. Once it has aged out, everything has.
    newest_sent_at: Option<Instant>,
    /// What `Entry::sent_at` counts from: the first packet's send time.
    epoch: Option<Instant>,
    limits: HistoryLimits,
}

spec fn slot_view(slot: Option<Entry>) -> Option<Sent> {
    match slot {
        Some(entry) => Some(Sent { packet: entry.packet@, sent_at: entry.sent_at }),
        None => None,
    }
}

spec fn slots_of(packets: Seq<Option<Entry>>) -> Seq<Option<Sent>> {
    Seq::new(packets.len(), |p: int| slot_view(packets[p]))
}

impl View for SendBuffer {
    type V = SendView;

    closed spec fn view(&self) -> SendView {
        SendView {
            slots: slots_of(self.packets@),
            highest_added: self.highest_added,
            started: self.started,
            oldest: self.oldest,
            newest_sent_at: self.newest_sent_at,
            epoch: self.epoch,
            limits: self.limits,
        }
    }
}

impl SendBuffer {
    /// The array has the size it says, and the bytes are counted.
    spec fn fits(&self) -> bool {
        &&& seqnum::is_window_size(self.size as int)
        &&& self.packets@.len() == self.size
        &&& self.mask == self.size - 1
        &&& self.bytes == held(slots_of(self.packets@))
    }

    /// The parts of the buffer fit together.
    pub closed spec fn wf(&self) -> bool {
        self.fits() && self@.valid()
    }

    /// A send buffer of `size` packets that also enforces `limits`.
    ///
    /// Size must be a power of 2 between 1 and 32768 (inclusive). Returns `None` if the size is
    /// invalid.
    pub fn with_limits(size: u16, limits: HistoryLimits) -> (buffer: Option<Self>)
        ensures
            buffer is Some <==> seqnum::is_window_size(size as int),
            buffer matches Some(buffer) ==> buffer.wf() && buffer@.bytes() == 0 && buffer@ == (SendView {
                slots: Seq::new(size as nat, |p: int| None),
                highest_added: 0,
                started: false,
                oldest: 0,
                newest_sent_at: None,
                epoch: None,
                limits,
            }),
    {
        if !window_size(size) {
            return None;
        }
        let mut packets: Vec<Option<Entry>> = Vec::new();
        let mut i: u16 = 0;
        while i < size
            invariant
                i <= size,
                packets@.len() == i,
                forall|p: int| 0 <= p < i ==> #[trigger] packets@[p] is None,
            decreases size - i,
        {
            packets.push(None);
            i = i + 1;
        }
        proof {
            assert(slots_of(packets@) =~= Seq::new(size as nat, |p: int| None));
            lemma_held_none(slots_of(packets@));
        }
        Some(
            SendBuffer {
                packets,
                size,
                mask: size - 1,
                highest_added: 0,
                started: false,
                oldest: 0,
                bytes: 0,
                newest_sent_at: None,
                epoch: None,
                limits,
            },
        )
    }

    /// Create a new send buffer with the specified size, bounded by packet count alone.
    ///
    /// Size must be a power of 2 between 1 and 32768 (inclusive). Returns `None` if the size is
    /// invalid.
    pub fn new(size: u16) -> (buffer: Option<Self>)
        ensures
            buffer is Some <==> seqnum::is_window_size(size as int),
            buffer matches Some(buffer) ==> buffer.wf() && buffer@.bytes() == 0 && buffer@ == (SendView {
                slots: Seq::new(size as nat, |p: int| None),
                highest_added: 0,
                started: false,
                oldest: 0,
                newest_sent_at: None,
                epoch: None,
                limits: HistoryLimits { max_bytes: usize::MAX, max_age: None },
            }),
    {
        SendBuffer::with_limits(size, HistoryLimits { max_bytes: usize::MAX, max_age: None })
    }

    /// Payload bytes referenced by the stored packets.
    pub fn bytes(&self) -> (bytes: usize)
        requires
            self.wf(),
        ensures
            bytes == self@.bytes(),
    {
        self.bytes
    }

    /// Empty the slot `seq` maps to, whichever packet is in it.
    fn clear(&mut self, seq: u16)
        requires
            old(self).fits(),
        ensures
            final(self).fits(),
            final(self)@ == (SendView {
                slots: old(self)@.slots.update(
                    seq as int % old(self)@.slots.len() as int,
                    None,
                ),
                ..old(self)@
            }),
            final(self).size == old(self).size,
    {
        proof {
            seqnum::lemma_mask(seq, self.size);
        }
        let idx: usize = (seq & self.mask) as usize;
        let len: usize = match &self.packets[idx] {
            Some(entry) => bytes_len(&entry.packet.payload),
            None => 0,
        };
        proof {
            lemma_held_update(self@.slots, idx as int, None);
        }
        self.bytes = self.bytes - len;
        self.packets[idx] = None;
        proof {
            assert(slots_of(self.packets@) =~= slots_of(old(self).packets@).update(
                idx as int,
                None,
            ));
        }
    }

    fn expired(&self, entry: &Entry, now: Instant) -> (expired: bool)
        ensures
            expired == self@.expired(
                (Sent { packet: entry.packet@, sent_at: entry.sent_at }),
                now,
            ),
    {
        match (self.limits.max_age, self.epoch) {
            (Some(max_age), Some(epoch)) => {
                let age: u64 = now.saturating_sub(epoch);
                age.saturating_sub(entry.sent_at) >= max_age
            },
            _ => false,
        }
    }

    /// Evict from the oldest end while over the byte limit or aged out.
    ///
    /// Amortised constant time per packet added: `oldest` only moves forward past what it evicts
    /// or finds empty, and stops at the first packet it keeps.
    fn evict(&mut self, now: Instant)
        requires
            old(self).fits(),
            old(self)@.consistent(),
        ensures
            final(self).fits(),
            final(self)@ == old(self)@.evict(now),
    {
        if !self.started {
            return;
        }
        let end: u16 = self.highest_added.wrapping_add(1);
        while self.oldest != end
            invariant
                self.fits(),
                self@.consistent(),
                self.started,
                end == self.highest_added.wrapping_add(1),
                self@.evict(now) == old(self)@.evict(now),
            decreases self@.ahead(),
        {
            proof {
                seqnum::lemma_mask(self.oldest, self.size);
                lemma_without_oldest(self@);
            }
            let ghost before = self@;
            let idx: usize = (self.oldest & self.mask) as usize;
            let mut present = false;
            if let Some(entry) = &self.packets[idx] {
                if entry.packet.header.sequence_number == self.oldest {
                    let is_newest = self.oldest == self.highest_added;
                    let over_budget = self.bytes > self.limits.max_bytes && !is_newest;
                    if !(over_budget || self.expired(entry, now)) {
                        return;
                    }
                    present = true;
                }
            }
            assert(present == self@.stored(self.oldest) is Some);
            if present {
                self.clear(self.oldest);
            }
            self.oldest = self.oldest.wrapping_add(1);
            assert(self@ =~= before.without_oldest());
        }
        // Everything has gone: nothing left to age out.
        self.oldest = self.highest_added;
        self.newest_sent_at = None;
    }

    /// `now` as nanoseconds after the epoch, which the first call sets.
    fn stamp(&mut self, now: Instant) -> (sent_at: u64)
        requires
            old(self).fits(),
        ensures
            final(self).fits(),
            final(self)@ == (SendView {
                epoch: Some(
                    match old(self)@.epoch {
                        Some(epoch) => epoch,
                        None => now,
                    },
                ),
                ..old(self)@
            }),
            sent_at == time::since(now, final(self)@.epoch->0),
    {
        let epoch: Instant = match self.epoch {
            Some(epoch) => epoch,
            None => now,
        };
        self.epoch = Some(epoch);
        now.saturating_sub(epoch)
    }

    /// Empty every slot.
    fn clear_all(&mut self)
        requires
            old(self).fits(),
        ensures
            final(self).fits(),
            final(self)@ == (SendView {
                slots: Seq::new(old(self)@.slots.len(), |p: int| None),
                ..old(self)@
            }),
            final(self).size == old(self).size,
    {
        let mut i: usize = 0;
        while i < self.packets.len()
            invariant
                i <= self.packets@.len(),
                self.packets@.len() == old(self).packets@.len(),
                *self == (SendBuffer { packets: self.packets, ..*old(self) }),
                forall|p: int| 0 <= p < i ==> #[trigger] self.packets@[p] is None,
            decreases self.packets@.len() - i,
        {
            self.packets[i] = None;
            i = i + 1;
        }
        self.bytes = 0;
        proof {
            assert(slots_of(self.packets@) =~= Seq::new(old(self)@.slots.len(), |p: int| None));
            lemma_held_none(slots_of(self.packets@));
        }
    }

    /// Empty the slots of the `len` numbers from `first`.
    fn clear_gap(&mut self, first: u16, len: u16)
        requires
            old(self).fits(),
            len <= old(self).size,
        ensures
            final(self).fits(),
            final(self)@ == old(self)@.forget(first, len as int),
            final(self).size == old(self).size,
    {
        proof {
            lemma_forget_none(self@, first);
            assert(self@ =~= self@.forget(first, 0));
        }
        let mut i: u16 = 0;
        while i < len
            invariant
                i <= len <= old(self).size,
                self.fits(),
                old(self).fits(),
                self.size == old(self).size,
                self@ == old(self)@.forget(first, i as int),
            decreases len - i,
        {
            proof {
                lemma_forget_next(old(self)@, first, i as int);
            }
            self.clear(first.wrapping_add(i));
            i = i + 1;
            assert(self@ =~= old(self)@.forget(first, i as int));
        }
    }

    /// Move the window so that `seq`, which is accepted, lies in it.
    fn make_room(&mut self, seq: u16)
        requires
            old(self).fits(),
            old(self)@.accepts(seq),
        ensures
            final(self).fits(),
            final(self)@ == old(self)@.make_room(seq),
            final(self).size == old(self).size,
    {
        if !self.started {
            self.highest_added = seq;
            self.oldest = seq;
            self.started = true;
            return;
        }
        let diff: u16 = seq.wrapping_sub(self.highest_added);
        if diff < UINT16_SIZE_HALF {
            let first: u16 = self.highest_added.wrapping_add(1);
            if diff >= self.size {
                // A jump of a whole buffer or more leaves nothing inside the new window, so clear
                // everything at once rather than visiting each skipped sequence number.
                self.clear_all();
                self.oldest = seq;
                proof {
                    let size = self.size as int;
                    let cleared = old(self)@.forget(first, diff as int);
                    assert forall|p: int| 0 <= p < size implies #[trigger] cleared.slots[p] is None by {
                        assert(bitmap::covers(size, first as int, diff as int, p));
                    }
                    assert(self@.slots =~= cleared.slots);
                }
            } else {
                self.clear_gap(first, diff);
                // The window now starts `size - 1` behind `seq`.
                let window_start: u16 = seq.wrapping_sub(self.size - 1);
                if window_start.wrapping_sub(self.oldest) < UINT16_SIZE_HALF {
                    self.oldest = window_start;
                }
            }
            self.highest_added = seq;
            assert(self@ =~= old(self)@.make_room(seq));
        } else if self.oldest.wrapping_sub(seq) < UINT16_SIZE_HALF {
            // Out of order, before where eviction resumes: move that back so that eviction still
            // reaches it.
            self.oldest = seq;
        }
    }

    /// Add an RTP packet, sent at `now`, to the buffer.
    pub fn add(&mut self, packet: Packet, now: Instant)
        requires
            old(self).wf(),
            old(self)@.bytes() + packet@.payload.len() <= usize::MAX,
        ensures
            final(self).wf(),
            final(self)@ == old(self)@.add(packet@, now),
    {
        let seq: u16 = packet.header.sequence_number;
        if self.started {
            let diff: u16 = seq.wrapping_sub(self.highest_added);
            if diff == 0 {
                // Duplicate, ignore
                return;
            }
            if diff >= UINT16_SIZE_HALF && self.highest_added.wrapping_sub(seq) >= self.size {
                // Out of order and older than the whole window: its slot belongs to a newer
                // packet, which storing it would displace. Nothing could retrieve it anyway.
                return;
            }
        }
        let ghost before = self@;
        proof {
            lemma_add_consistent(before, packet@, now);
        }
        self.make_room(seq);
        let ghost moved = self@;
        // Whatever held this slot is displaced: an older packet a full window back, or a duplicate
        // of this one.
        self.clear(seq);
        let sent_at: u64 = self.stamp(now);
        proof {
            seqnum::lemma_mask(seq, self.size);
            lemma_held_le(moved.slots, before.slots);
            lemma_held_update(moved.slots, seq as int % self.size as int, None);
            lemma_held_update(
                self@.slots,
                seq as int % self.size as int,
                Some(Sent { packet: packet@, sent_at }),
            );
        }
        self.bytes = self.bytes + bytes_len(&packet.payload);
        let ghost view = packet@;
        let idx: usize = (seq & self.mask) as usize;
        let ghost emptied = self.packets@;
        self.packets[idx] = Some(Entry { packet, sent_at });
        proof {
            assert(slots_of(self.packets@) =~= slots_of(emptied).update(
                idx as int,
                Some(Sent { packet: view, sent_at }),
            ));
        }
        let newer = match self.newest_sent_at {
            Some(newest) => newest < now,
            None => true,
        };
        if newer {
            self.newest_sent_at = Some(now);
        }
        assert(self@ =~= moved.put(view, now));
        self.evict(now);
    }

    /// Get a packet by sequence number, as of `now`.
    ///
    /// Returns `None` if the packet is not in the buffer (either too old, never received, or was
    /// cleared) or has outlived the age limit.
    pub fn get(&self, seq: u16, now: Instant) -> (packet: Option<&Packet>)
        requires
            self.wf(),
        ensures
            match packet {
                Some(packet) => self@.get(seq, now) == Some(packet@),
                None => self@.get(seq, now) is None,
            },
    {
        proof {
            seqnum::lemma_mask(seq, self.size);
            assert(self@.slots[seq as int % self.size as int] == slot_view(
                self.packets@[seq as int % self.size as int],
            ));
        }
        if !self.started {
            return None;
        }
        let diff: u16 = self.highest_added.wrapping_sub(seq);
        if diff >= UINT16_SIZE_HALF {
            // Ahead of the highest number
            return None;
        }
        if diff >= self.size {
            // Too old, outside buffer range
            return None;
        }
        let idx: usize = (seq & self.mask) as usize;
        match &self.packets[idx] {
            Some(entry) => {
                // Verify the sequence number matches (handle wraparound collisions)
                if entry.packet.header.sequence_number != seq || self.expired(entry, now) {
                    return None;
                }
                Some(&entry.packet)
            },
            None => None,
        }
    }

    /// When the whole history will have aged out, if it is not empty and has an age limit.
    ///
    /// The *newest* packet's expiry rather than the oldest's: while packets keep being added,
    /// `add` evicts what has aged, so a timer is needed only once the stream goes idle, and a
    /// per-packet deadline would ask for a wake-up every packet interval.
    pub fn expires_at(&self) -> (at: Option<Instant>)
        requires
            self@.expires_at() matches Some(at) ==> at <= u64::MAX,
        ensures
            match at {
                Some(at) => self@.expires_at() == Some(at as int),
                None => self@.expires_at() is None,
            },
    {
        match (self.newest_sent_at, self.limits.max_age) {
            (Some(newest), Some(max_age)) => Some(newest + max_age),
            _ => None,
        }
    }

    /// Drop every packet that has aged out as of `now`, from the oldest end.
    pub fn expire(&mut self, now: Instant)
        requires
            old(self).wf(),
        ensures
            final(self).wf(),
            final(self)@ == old(self)@.evict(now),
    {
        proof {
            if self.started {
                lemma_evict_consistent(self@, now);
            }
        }
        self.evict(now);
    }
}

/// Emptying slots does not add to what is held.
proof fn lemma_held_le(fewer: Seq<Option<Sent>>, slots: Seq<Option<Sent>>)
    requires
        fewer.len() == slots.len(),
        forall|p: int|
            0 <= p < slots.len() ==> #[trigger] fewer[p] == slots[p] || fewer[p] is None,
    ensures
        held(fewer) <= held(slots),
    decreases slots.len(),
{
    if slots.len() > 0 {
        let last = slots.len() - 1;
        assert(fewer[last] == slots[last] || fewer[last] is None);
        assert forall|p: int| 0 <= p < slots.drop_last().len() implies #[trigger] fewer.drop_last()[p]
            == slots.drop_last()[p] || fewer.drop_last()[p] is None by {
            assert(fewer[p] == slots[p] || fewer[p] is None);
        }
        lemma_held_le(fewer.drop_last(), slots.drop_last());
    }
}

/// Moving the window keeps the buffer consistent, and puts `seq` in it.
proof fn lemma_make_room(view: SendView, seq: u16)
    requires
        view.valid(),
        view.accepts(seq),
    ensures
        view.make_room(seq).consistent(),
        view.make_room(seq).started,
        view.make_room(seq).spans(seq),
        view.make_room(seq).slots.len() == view.slots.len(),
        forall|p: int|
            0 <= p < view.slots.len() ==> #[trigger] view.make_room(seq).slots[p] == view.slots[p]
                || view.make_room(seq).slots[p] is None,
{
    let size = view.slots.len() as int;
    let moved = view.make_room(seq);
    let ahead = seq.wrapping_sub(view.highest_added);
    assert forall|p: int| 0 <= p < size implies (#[trigger] moved.slots[p] matches Some(sent)
        ==> moved.spans(sent.packet.header.sequence_number)) by {
        if let Some(sent) = moved.slots[p] {
            let other = sent.packet.header.sequence_number;
            assert(view.slots[p] == Some(sent));
            assert(view.spans(other));
            if !view.started {
            } else if ahead < UINT16_SIZE_HALF {
                let first = view.highest_added.wrapping_add(1);
                seqnum::lemma_covers_number(first, ahead as int, other, size);
                seqnum::lemma_just_behind(view.highest_added, other, size);
            }
        }
    }
}

proof fn lemma_add_consistent(view: SendView, packet: PacketView, now: Instant)
    requires
        view.valid(),
    ensures
        view.add(packet, now).valid(),
        view.accepts(packet.header.sequence_number) ==> ({
            let moved = view.make_room(packet.header.sequence_number);
            &&& moved.put(packet, now).consistent()
            &&& moved.slots.len() == view.slots.len()
            &&& forall|p: int|
                0 <= p < view.slots.len() ==> #[trigger] moved.slots[p] == view.slots[p]
                    || moved.slots[p] is None
        }),
{
    let seq = packet.header.sequence_number;
    let size = view.slots.len() as int;
    assert(0 <= seq as int % size < size);
    if view.accepts(seq) {
        lemma_make_room(view, seq);
        let moved = view.make_room(seq);
        let put = moved.put(packet, now);
        assert forall|p: int| 0 <= p < size implies (#[trigger] put.slots[p] matches Some(sent) ==> {
            &&& sent.packet.header.sequence_number as int % size == p
            &&& put.spans(sent.packet.header.sequence_number)
            &&& sent.sent_at <= time::since(put.newest_sent_at->0, put.epoch->0)
        }) by {
            if p != seq as int % size {
                assert(put.slots[p] == moved.slots[p]);
            }
        }
        lemma_evict_consistent(put, now);
    }
}

/// Whatever is added, a valid buffer stays valid: the stored packets lie in one window, each in its
/// own slot.
pub proof fn law_add_keeps_valid(view: SendView, packet: PacketView, now: Instant)
    requires
        view.valid(),
    ensures
        view.add(packet, now).valid(),
{
    lemma_add_consistent(view, packet, now);
}

/// Eviction leaves the newest send time alone, or forgets it with the last packet.
pub proof fn lemma_evict_newest(view: SendView, now: Instant)
    ensures
        view.evict(now).newest_sent_at == view.newest_sent_at || view.evict(now).newest_sent_at is None,
        view.evict(now).limits == view.limits,
    decreases view.ahead(),
{
    if view.started && view.ahead() > 0 && !view.keeps_oldest(now) {
        lemma_evict_newest(view.without_oldest(), now);
    }
}

/// The newest send time is one that a packet was added at.
pub proof fn lemma_add_newest(view: SendView, packet: PacketView, now: Instant)
    ensures
        view.add(packet, now).newest_sent_at == view.newest_sent_at || view.add(
            packet,
            now,
        ).newest_sent_at == Some(now) || view.add(packet, now).newest_sent_at is None,
        view.add(packet, now).limits == view.limits,
{
    let seq = packet.header.sequence_number;
    if view.accepts(seq) {
        lemma_evict_newest(view.make_room(seq).put(packet, now), now);
    }
}

/// Eviction spares the newest packet while it has not aged out.
proof fn lemma_evict_spares_newest(view: SendView, now: Instant, sent: Sent)
    requires
        view.consistent(),
        view.started,
        view.stored(view.highest_added) == Some(sent),
        !view.expired(sent, now),
    ensures
        view.evict(now).stored(view.highest_added) == Some(sent),
    decreases view.ahead(),
{
    let size = view.slots.len() as int;
    assert(0 <= view.highest_added as int % size < size);
    assert(view.slots[view.highest_added as int % size] == Some(sent));
    assert(view.spans(view.highest_added));
    if !view.keeps_oldest(now) {
        assert(view.oldest != view.highest_added);
        lemma_without_oldest(view);
        seqnum::lemma_slots_differ(view.oldest, view.highest_added, size);
        lemma_evict_spares_newest(view.without_oldest(), now, sent);
    }
}

/// The most recent packet is always kept, whatever the byte limit: it can be retransmitted right
/// after it was added, unless nothing may grow old at all.
pub proof fn law_newest_is_kept(view: SendView, packet: PacketView, now: Instant)
    requires
        view.valid(),
        !view.started || 0 < packet.header.sequence_number.wrapping_sub(view.highest_added)
            < UINT16_SIZE_HALF,
        view.limits.max_age != Some(0u64),
    ensures
        view.add(packet, now).get(packet.header.sequence_number, now) == Some(packet),
{
    let seq = packet.header.sequence_number;
    let size = view.slots.len() as int;
    assert(0 <= seq as int % size < size);
    lemma_add_consistent(view, packet, now);
    lemma_make_room(view, seq);
    let put = view.make_room(seq).put(packet, now);
    let sent = put.slots[seq as int % size]->0;
    assert(put.stored(seq) == Some(sent));
    lemma_evict_spares_newest(put, now, sent);
    lemma_evict_consistent(put, now);
}

/// A late packet older than the whole window displaces nothing.
pub proof fn law_late_packet_is_ignored(view: SendView, packet: PacketView, now: Instant)
    requires
        view.valid(),
        view.started,
        packet.header.sequence_number.wrapping_sub(view.highest_added) >= UINT16_SIZE_HALF,
        view.highest_added.wrapping_sub(packet.header.sequence_number) >= view.slots.len(),
    ensures
        view.add(packet, now) == view,
{
}

/// Moving the window keeps the packets that are still in it, and no others.
pub proof fn law_window_moves(view: SendView, seq: u16, other: u16)
    requires
        view.valid(),
        view.accepts(seq),
    ensures
        view.make_room(seq).stored(other) == if view.make_room(seq).highest_added.wrapping_sub(
            other,
        ) < view.slots.len() {
            view.stored(other)
        } else {
            None
        },
{
    let size = view.slots.len() as int;
    let moved = view.make_room(seq);
    let ahead = seq.wrapping_sub(view.highest_added);
    assert(0 <= other as int % size < size);
    if view.stored(other) is Some {
        assert(view.slots[other as int % size] is Some);
        assert(view.spans(other));
        if view.started && ahead < UINT16_SIZE_HALF {
            let first = view.highest_added.wrapping_add(1);
            seqnum::lemma_covers_number(first, ahead as int, other, size);
            seqnum::lemma_just_behind(view.highest_added, other, size);
        }
    }
}

/// Once the deadline that the buffer reports has passed, expiry leaves nothing behind and asks for
/// no other deadline.
pub proof fn law_expiry_empties(view: SendView, now: Instant)
    requires
        view.consistent(),
        view.started,
        view.expires_at() matches Some(at) && at <= now,
        view.epoch matches Some(epoch) && epoch <= view.newest_sent_at->0,
    ensures
        forall|seq: u16| #[trigger] view.evict(now).stored(seq) is None,
        view.evict(now).bytes() == 0,
        view.evict(now).expires_at() is None,
    decreases view.ahead(),
{
    let size = view.slots.len() as int;
    if view.ahead() == 0 {
        assert forall|p: int| 0 <= p < size implies #[trigger] view.slots[p] is None by {
            if let Some(sent) = view.slots[p] {
                assert(view.spans(sent.packet.header.sequence_number));
            }
        }
        lemma_held_none(view.slots);
        assert forall|seq: u16| #[trigger] view.evict(now).stored(seq) is None by {
            assert(0 <= seq as int % size < size);
            assert(view.slots[seq as int % size] is None);
        }
    } else {
        assert(0 <= view.oldest as int % size < size);
        if let Some(sent) = view.stored(view.oldest) {
            assert(view.slots[view.oldest as int % size] == Some(sent));
            assert(view.expired(sent, now));
        }
        assert(!view.keeps_oldest(now));
        lemma_without_oldest(view);
        law_expiry_empties(view.without_oldest(), now);
    }
}

/// Eviction takes nothing away while the limits are kept.
proof fn lemma_evict_spares(view: SendView, now: Instant)
    requires
        view.bytes() <= view.limits.max_bytes,
        view.limits.max_age is None,
    ensures
        view.evict(now).slots == view.slots,
        view.evict(now).limits == view.limits,
    decreases view.ahead(),
{
    if view.started && view.ahead() > 0 && !view.keeps_oldest(now) {
        assert(view.stored(view.oldest) is None);
        lemma_evict_spares(view.without_oldest(), now);
    }
}

/// What fits is kept: where packets do not grow old and there is room for the bytes, a packet that is
/// newer than all others, or late but within the window and not the newest one again, can be sent
/// again from then on, and so can everything else that was there and is still in the window.
pub proof fn law_what_fits_is_kept(
    view: SendView,
    packet: PacketView,
    now: Instant,
    other: u16,
    later: Instant,
)
    requires
        view.valid(),
        view.limits.max_age is None,
        view.bytes() + packet.payload.len() <= view.limits.max_bytes,
        view.started ==> 0 < packet.header.sequence_number.wrapping_sub(view.highest_added) < 32768
            || 0 < view.highest_added.wrapping_sub(packet.header.sequence_number)
            < view.slots.len(),
    ensures
        ({
            let seq = packet.header.sequence_number;
            let after = view.add(packet, now);
            let newer = !view.started || seq.wrapping_sub(view.highest_added) < 32768;
            let highest = if newer {
                seq
            } else {
                view.highest_added
            };
            &&& after.get(seq, later) == Some(packet)
            &&& other != seq && highest.wrapping_sub(other) < view.slots.len() ==> after.get(
                other,
                later,
            ) == view.get(other, later)
            &&& other != seq && highest.wrapping_sub(other) >= view.slots.len() ==> after.get(
                other,
                later,
            ) is None
        }),
{
    let seq = packet.header.sequence_number;
    let size = view.slots.len() as int;
    assert(0 <= seq as int % size < size);
    assert(0 <= other as int % size < size);
    assert(view.accepts(seq));
    lemma_add_consistent(view, packet, now);
    lemma_make_room(view, seq);
    law_window_moves(view, seq, other);
    let moved = view.make_room(seq);
    let put = moved.put(packet, now);
    let slot = Some(Sent { packet, sent_at: put.slots[seq as int % size]->0.sent_at });
    lemma_held_le(moved.slots, view.slots);
    lemma_held_update(moved.slots, seq as int % size, slot);
    assert(put.slots =~= moved.slots.update(seq as int % size, slot));
    lemma_evict_spares(put, now);
    if other != seq {
        let newer = !view.started || seq.wrapping_sub(view.highest_added) < 32768;
        let highest = if newer {
            seq
        } else {
            view.highest_added
        };
        assert(moved.highest_added == highest);
        if other as int % size == seq as int % size {
            assert(put.stored(other) is None);
            if highest.wrapping_sub(other) < size {
                let far = highest.wrapping_sub(other);
                if highest.wrapping_sub(seq) >= far {
                    seqnum::lemma_slots_differ(seq, other, size);
                } else {
                    seqnum::lemma_slots_differ(other, seq, size);
                }
            }
        } else {
            assert(put.stored(other) == moved.stored(other));
        }
    }
}

/// Nothing is sent again that has grown too old: a packet that was added so long ago as the age limit
/// says, or longer, is not given out.
pub proof fn law_aged_packet_is_not_given(view: SendView, seq: u16, now: Instant)
    ensures
        view.stored(seq) matches Some(sent) && view.limits.max_age matches Some(max_age)
            && view.epoch matches Some(epoch) && now >= epoch + sent.sent_at + max_age ==> view.get(
            seq,
            now,
        ) is None,
        view.stored(seq) matches Some(sent) && view.limits.max_age matches Some(max_age)
            && view.epoch matches Some(epoch) && epoch + sent.sent_at <= now < epoch + sent.sent_at
            + max_age ==> view.get(seq, now) is Some,
        view.get(seq, now) matches Some(packet) ==> packet.header.sequence_number == seq,
{
}

/// Eviction goes by age of the numbers: what stays is what was there, and where a packet stays, so do
/// all that are newer.
pub proof fn law_oldest_go_first(view: SendView, now: Instant, seq: u16, newer: u16)
    requires
        view.consistent(),
        view.started,
    ensures
        ({
            let after = view.evict(now);
            &&& after.stored(seq) is Some ==> after.stored(seq) == view.stored(seq)
            &&& after.stored(seq) is Some && view.stored(newer) is Some && seq.wrapping_sub(
                view.oldest,
            ) <= newer.wrapping_sub(view.oldest) ==> after.stored(newer) == view.stored(newer)
        }),
    decreases view.ahead(),
{
    let size = view.slots.len() as int;
    assert(0 <= seq as int % size < size);
    assert(0 <= newer as int % size < size);
    if view.ahead() > 0 && !view.keeps_oldest(now) {
        let rest = view.without_oldest();
        lemma_without_oldest(view);
        law_oldest_go_first(rest, now, seq, newer);
        assert(0 <= view.oldest as int % size < size);
        if rest.stored(seq) is Some {
            assert(rest.slots[seq as int % size] is Some);
            assert(rest.spans(seq));
            assert(seq != view.oldest);
            assert(view.stored(seq) == rest.stored(seq));
            if view.stored(newer) is Some && seq.wrapping_sub(view.oldest) <= newer.wrapping_sub(
                view.oldest,
            ) {
                assert(view.slots[newer as int % size] is Some);
                assert(view.spans(newer));
                assert(newer != view.oldest);
                if view.stored(view.oldest) is Some {
                    seqnum::lemma_slots_differ(view.oldest, newer, size);
                }
                assert(rest.stored(newer) == view.stored(newer));
            }
        }
    }
}

} // verus!
