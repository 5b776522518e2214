//! Receive log for tracking received RTP packets and finding missing sequence numbers.

use crate::bitmap;
use crate::seqnum;
use crate::seqnum::{window_size, UINT16_SIZE_HALF};
use vstd::prelude::*;

verus! {

/// The window sizes that a receive log can have: the powers of two from 64 to 32768.
pub open spec fn is_log_size(size: int) -> bool {
    64 <= size && seqnum::is_window_size(size)
}

/// What a receive log remembers.
#[verifier::ext_equal]
pub struct LogView {
    /// One slot for each number of the window; `seq` owns slot `seq % slots.len()`, and a true
    /// slot means that its latest owner was received.
    pub slots: Seq<bool>,
    /// The newest sequence number received.
    pub end: u16,
    /// Whether anything was received.
    pub started: bool,
    /// The number up to which nothing is asked for again.
    pub last_consecutive: u16,
}

impl LogView {
    /// Whether the slot that `seq` owns is marked.
    pub open spec fn marked(self, seq: u16) -> bool {
        self.slots[seq as int % self.slots.len() as int]
    }

    /// The log with the slot of `seq` marked.
    pub open spec fn mark(self, seq: u16) -> LogView {
        LogView { slots: self.slots.update(seq as int % self.slots.len() as int, true), ..self }
    }

    /// The log with the slots of the `len` numbers from `first` cleared.
    pub open spec fn forget(self, first: u16, len: int) -> LogView {
        LogView {
            slots: Seq::new(
                self.slots.len(),
                |p: int| self.slots[p] && !bitmap::covers(self.slots.len() as int, first as int, len, p),
            ),
            ..self
        }
    }

    /// `last`, moved on over the marked numbers that follow it, stopping before the first one
    /// that is not marked or at `end`.
    pub open spec fn advance(self, last: u16) -> u16
        decreases self.end.wrapping_sub(last),
    {
        if last == self.end || !self.marked(last.wrapping_add(1)) {
            last
        } else {
            self.advance(last.wrapping_add(1))
        }
    }

    /// The log after `seq` was received.
    pub open spec fn add(self, seq: u16) -> LogView {
        let ahead = seq.wrapping_sub(self.end);
        let size = self.slots.len();
        if !self.started {
            LogView { end: seq, started: true, last_consecutive: seq, ..self.mark(seq) }
        } else if ahead == 0 {
            self
        } else if ahead < UINT16_SIZE_HALF {
            // The numbers between the newest one so far and `seq` were skipped.
            let moved = LogView { end: seq, ..self.forget(self.end.wrapping_add(1), ahead - 1) };
            let last_consecutive = if self.last_consecutive.wrapping_add(1) == seq {
                seq
            } else if seq.wrapping_sub(self.last_consecutive) > size {
                moved.advance(seq.wrapping_sub(size as u16))
            } else {
                self.last_consecutive
            };
            LogView { last_consecutive, ..moved.mark(seq) }
        } else {
            let last_consecutive = if self.last_consecutive.wrapping_add(1) == seq {
                self.advance(seq)
            } else {
                self.last_consecutive
            };
            LogView { last_consecutive, ..self.mark(seq) }
        }
    }

    /// Whether `seq` lies in the window and was received.
    pub open spec fn get(self, seq: u16) -> bool {
        let behind = self.end.wrapping_sub(seq);
        behind < UINT16_SIZE_HALF && behind < self.slots.len() && self.marked(seq)
    }

    /// How many numbers after `last_consecutive` are looked at when the newest `skip_last_n` are
    /// left out.
    pub open spec fn span(self, skip_last_n: u16) -> u16 {
        let span = self.end.wrapping_sub(skip_last_n).wrapping_sub(self.last_consecutive);
        if span >= UINT16_SIZE_HALF {
            0
        } else {
            span
        }
    }

    /// The first `n` numbers after `last_consecutive`, without those that are marked.
    pub open spec fn unmarked(self, n: nat) -> Seq<u16>
        decreases n,
    {
        if n == 0 {
            Seq::empty()
        } else {
            let before = self.unmarked((n - 1) as nat);
            let seq = self.last_consecutive.wrapping_add(n as u16);
            if self.marked(seq) {
                before
            } else {
                before.push(seq)
            }
        }
    }

    /// The missing numbers, from the oldest on, with the newest `skip_last_n` left out.
    pub open spec fn missing(self, skip_last_n: u16) -> Seq<u16> {
        self.unmarked(self.span(skip_last_n) as nat)
    }

    /// Whether `seq` is missing when the newest `skip_last_n` numbers are left out.
    pub open spec fn is_missing(self, seq: u16, skip_last_n: u16) -> bool {
        let offset = seq.wrapping_sub(self.last_consecutive);
        offset != 0 && offset <= self.span(skip_last_n) && !self.marked(seq)
    }

    /// What holds of every log.
    pub open spec fn valid(self) -> bool {
        &&& is_log_size(self.slots.len() as int)
        &&& self.end.wrapping_sub(self.last_consecutive) <= self.slots.len()
        &&& self.started ==> self.marked(self.end)
        &&& !self.started ==> self.end == 0 && self.last_consecutive == 0 && forall|p: int|
            0 <= p < self.slots.len() ==> !#[trigger] self.slots[p]
    }
}

/// Tracks received RTP packets using a bitmap and identifies missing sequence numbers.
///
/// The receive log uses a circular bitmap to track which sequence numbers have been received. It
/// can efficiently report missing sequence numbers for NACK generation.
pub struct ReceiveLog {
    /// Bitmap for tracking received packets. Each word tracks 64 packets.
    pub packets: Vec<u64>,
    /// Size of the tracking window.
    pub size: u16,
    /// `size - 1`. The size is a power of two, so packets are indexed with `& size_mask`.
    pub size_mask: u16,
    /// Newest sequence number received.
    pub end: u16,
    /// Whether any packet has been received yet.
    pub started: bool,
    /// Last consecutive sequence number.
    pub last_consecutive: u16,
}

impl View for ReceiveLog {
    type V = LogView;

    closed spec fn view(&self) -> LogView {
        LogView {
            slots: slots_of(self.packets@),
            end: self.end,
            started: self.started,
            last_consecutive: self.last_consecutive,
        }
    }
}

spec fn slots_of(packets: Seq<u64>) -> Seq<bool> {
    Seq::new(bitmap::capacity(packets) as nat, |p: int| bitmap::bit_at(packets, p))
}

/// Reading the bitmap at any position reads the slot of the number there.
proof fn lemma_slot(packets: Seq<u64>, pos: int)
    requires
        bitmap::is_bitmap(packets),
    ensures
        bitmap::bit_at(packets, pos) == slots_of(packets)[pos % bitmap::capacity(packets)],
{
    vstd::arithmetic::div_mod::lemma_mod_twice(pos, bitmap::capacity(packets));
}

/// The bit at distance `n - 1` from the number after `last` is the slot of the number at distance
/// `n` from `last`.
proof fn lemma_number_after(packets: Seq<u64>, last: u16, n: int)
    requires
        is_log_size(bitmap::capacity(packets)),
        1 <= n <= u16::MAX,
    ensures
        bitmap::bit_at(packets, last.wrapping_add(1) + n - 1) == slots_of(packets)[last.wrapping_add(
            n as u16,
        ) as int % slots_of(packets).len() as int],
{
    let size = bitmap::capacity(packets);
    let first = last.wrapping_add(1);
    let seq = last.wrapping_add(n as u16);
    lemma_slot(packets, first + n - 1);
    seqnum::lemma_round(first + n - 1, size);
    assert((first + n - 1) % 65536 == seq as int % 65536);
    seqnum::lemma_round(seq as int, size);
}

impl ReceiveLog {
    /// The parts of the log fit together.
    pub closed spec fn wf(&self) -> bool {
        &&& self.size == self.packets@.len() * 64
        &&& self.size_mask == self.size - 1
        &&& self@.valid()
    }

    /// A log of a valid size is a bitmap of as many bits.
    proof fn lemma_bitmap(&self)
        requires
            self.wf(),
        ensures
            bitmap::is_bitmap(self.packets@),
            bitmap::capacity(self.packets@) == self.size == self@.slots.len(),
            is_log_size(self.size as int),
    {
    }

    /// Create a new receive log with the specified size.
    ///
    /// Size must be a power of 2 between 64 and 32768 (inclusive). Returns `None` if the size is
    /// invalid.
    pub fn new(size: u16) -> (log: Option<Self>)
        ensures
            log is Some <==> is_log_size(size as int),
            log matches Some(log) ==> log.wf() && log@ == (LogView {
                slots: Seq::new(size as nat, |p: int| false),
                end: 0,
                started: false,
                last_consecutive: 0,
            }),
    {
        let is_valid = 64 <= size && window_size(size);
        if !is_valid {
            return None;
        }
        let log = ReceiveLog {
            packets: vec![0u64; (size / 64) as usize],
            size,
            size_mask: size - 1,
            end: 0,
            started: false,
            last_consecutive: 0,
        };
        assert(size % 64 == 0);
        assert forall|p: int| 0 <= p < size implies !#[trigger] slots_of(log.packets@)[p] by {
            crate::bits::lemma_zero(p % 64);
            vstd::arithmetic::div_mod::lemma_small_mod(p as nat, size as nat);
            assert(log.packets@[p / 64] == 0);
        }
        assert(log@.slots =~= Seq::new(size as nat, |p: int| false));
        Some(log)
    }

    fn set_received(&mut self, seq: u16)
        requires
            old(self).size == old(self).packets@.len() * 64,
            old(self).size_mask == old(self).size - 1,
            is_log_size(old(self).size as int),
        ensures
            final(self).size == old(self).size,
            final(self).size_mask == old(self).size_mask,
            final(self).packets@.len() == old(self).packets@.len(),
            final(self)@ == old(self)@.mark(seq),
    {
        let pos: u16 = seq & self.size_mask;
        proof {
            seqnum::lemma_mask(seq, self.size);
        }
        let word: usize = (pos / 64) as usize;
        let before: u64 = self.packets[word];
        let after: u64 = before | (1u64 << ((pos % 64) as u64));
        self.packets[word] = after;
        proof {
            let size = self.size as int;
            assert(self@.slots.len() == size);
            assert forall|p: int| 0 <= p < size implies #[trigger] self@.slots[p] == old(
                self,
            )@.mark(seq).slots[p] by {
                vstd::arithmetic::div_mod::lemma_small_mod(p as nat, size as nat);
                crate::bits::lemma_or(before, 1u64 << ((pos % 64) as u64), p % 64);
                crate::bits::lemma_single((pos % 64) as u64, p % 64);
                assert(p == (p / 64) * 64 + p % 64);
            }
            assert(self@ =~= old(self)@.mark(seq));
        }
    }

    fn get_received(&self, seq: u16) -> (received: bool)
        requires
            self.wf(),
        ensures
            received == self@.marked(seq),
    {
        let pos: u16 = seq & self.size_mask;
        proof {
            self.lemma_bitmap();
            seqnum::lemma_mask(seq, self.size);
            lemma_slot(self.packets@, seq as int);
            crate::bits::lemma_test(self.packets@[(pos / 64) as int], (pos % 64) as u64);
        }
        (self.packets[(pos / 64) as usize] & (1u64 << ((pos % 64) as u64))) != 0
    }

    /// Advances `last_consecutive` over the received packets that follow it, stopping before the
    /// first missing one or at `end`.
    ///
    /// Searches a word at a time for the first clear bit after `last_consecutive`. Only one pass
    /// over the bitmap is needed even if `end` is further than the window: a pass with no clear
    /// bit means the cyclic re-reads would find none either.
    pub fn fix_last_consecutive(&mut self)
        requires
            old(self).size == old(self).packets@.len() * 64,
            is_log_size(old(self).size as int),
        ensures
            final(self).size == old(self).size,
            final(self).size_mask == old(self).size_mask,
            final(self).packets == old(self).packets,
            final(self)@ == (LogView {
                last_consecutive: old(self)@.advance(old(self).last_consecutive),
                ..old(self)@
            }),
            final(self).last_consecutive == old(self)@.advance(old(self).last_consecutive),
    {
        let ghost view = self@;
        let last: u16 = self.last_consecutive;
        let first: u16 = last.wrapping_add(1);
        let span: u16 = self.end.wrapping_sub(last);
        let found = bitmap::first_zero(self.packets.as_slice(), first as usize, span as usize);
        proof {
            assert forall|i: int| 0 <= i < span implies #[trigger] bitmap::bit_at(
                self.packets@,
                first + i,
            ) == view.marked(last.wrapping_add((i + 1) as u16)) by {
                lemma_number_after(self.packets@, last, i + 1);
            }
            match found {
                Some(offset) => {
                    assert(bitmap::bit_at(self.packets@, first + offset) == view.marked(
                        last.wrapping_add((offset + 1) as u16),
                    ));
                    assert forall|i: int| 1 <= i <= offset implies #[trigger] view.marked(
                        last.wrapping_add(i as u16),
                    ) by {
                        assert(bitmap::bit_at(self.packets@, first + (i - 1)));
                    }
                    lemma_advance_over(view, last, offset as nat);
                },
                None => {
                    assert forall|i: int| 1 <= i <= span implies #[trigger] view.marked(
                        last.wrapping_add(i as u16),
                    ) by {
                        assert(bitmap::bit_at(self.packets@, first + (i - 1)));
                    }
                    lemma_advance_over(view, last, span as nat);
                },
            }
        }
        self.last_consecutive = match found {
            // The number before the first missing one.
            Some(offset) => last.wrapping_add(offset as u16),
            None => self.end,
        };
        assert(self@ =~= (LogView { last_consecutive: self.last_consecutive, ..view }));
    }
}

impl ReceiveLog {
    /// Last consecutive sequence number.
    pub fn last_consecutive(&self) -> (last: u16)
        ensures
            last == self@.last_consecutive,
    {
        self.last_consecutive
    }

    /// Add a received sequence number to the log.
    pub fn add(&mut self, seq: u16)
        requires
            old(self).wf(),
        ensures
            final(self).wf(),
            final(self)@ == old(self)@.add(seq),
    {
        proof {
            self.lemma_bitmap();
            law_add_keeps_valid(self@, seq);
        }
        if !self.started {
            self.set_received(seq);
            self.end = seq;
            self.started = true;
            self.last_consecutive = seq;
            assert(self@ =~= old(self)@.add(seq));
            return;
        }
        let diff: u16 = seq.wrapping_sub(self.end);
        if diff == 0 {
            // Duplicate packet, ignore
            return;
        }
        if diff < UINT16_SIZE_HALF {
            // The skipped numbers may hold a receipt from a window ago. A gap at least as wide as
            // the window covers every bit and clears the whole bitmap. A narrower gap leaves
            // `seq`'s own bit alone; either way it is set below, after `fix_last_consecutive` has
            // looked.
            let first: u16 = self.end.wrapping_add(1);
            bitmap::clear(self.packets.as_mut_slice(), first as usize, (diff - 1) as usize);
            self.end = seq;
            let ghost moved = LogView { end: seq, ..old(self)@.forget(first, diff - 1) };
            proof {
                assert forall|p: int| 0 <= p < self.size implies #[trigger] self@.slots[p]
                    == moved.slots[p] by {
                    assert(bitmap::bit_at(self.packets@, p) == (bitmap::bit_at(old(self).packets@, p) && !bitmap::covers(
                        self.size as int,
                        first as int,
                        diff - 1,
                        p,
                    )));
                }
                assert(self@ =~= moved);
            }
            if self.last_consecutive.wrapping_add(1) == seq {
                self.last_consecutive = seq;
            } else if seq.wrapping_sub(self.last_consecutive) > self.size {
                self.last_consecutive = seq.wrapping_sub(self.size);
                proof {
                    lemma_advance_ignores_last(self@, moved, self.last_consecutive);
                }
                self.fix_last_consecutive();
            }
        } else {
            // Negative diff: out of order packet
            if self.last_consecutive.wrapping_add(1) == seq {
                self.last_consecutive = seq;
                proof {
                    lemma_advance_ignores_last(self@, old(self)@, seq);
                }
                self.fix_last_consecutive();
            }
        }
        self.set_received(seq);
        assert(self@ =~= old(self)@.add(seq));
    }

    /// Check if a sequence number has been received.
    pub fn get(&self, seq: u16) -> (received: bool)
        requires
            self.wf(),
        ensures
            received == self@.get(seq),
    {
        proof {
            self.lemma_bitmap();
        }
        let diff: u16 = self.end.wrapping_sub(seq);
        if diff >= UINT16_SIZE_HALF {
            return false;
        }
        if diff >= self.size {
            return false;
        }
        self.get_received(seq)
    }

    /// Get missing sequence numbers, optionally skipping the last N packets.
    ///
    /// Returns the sequence numbers from `last_consecutive + 1` through `end - skip_last_n`
    /// (inclusive, wrapping) whose bit is clear, in ascending sequence order.
    ///
    /// A span longer than the window re-reads the bitmap cyclically, reporting a clear bit once
    /// per pass, exactly as reading one sequence number at a time would.
    pub fn missing_seq_numbers(&self, skip_last_n: u16) -> (missing: Vec<u16>)
        requires
            self.wf(),
        ensures
            missing@ == self@.missing(skip_last_n),
    {
        proof {
            self.lemma_bitmap();
        }
        let until: u16 = self.end.wrapping_sub(skip_last_n);
        let span: u16 = until.wrapping_sub(self.last_consecutive);
        if span >= UINT16_SIZE_HALF {
            return Vec::new();
        }
        let first: u16 = self.last_consecutive.wrapping_add(1);
        let offsets = bitmap::for_each_zero(self.packets.as_slice(), first as usize, span as usize);
        let mut missing: Vec<u16> = Vec::new();
        let mut i: usize = 0;
        proof {
            bitmap::lemma_zero_offsets(self.packets@, first as int, span as nat);
        }
        while i < offsets.len()
            invariant
                i <= offsets@.len(),
                span < UINT16_SIZE_HALF,
                forall|k: int| 0 <= k < offsets@.len() ==> #[trigger] offsets@[k] < span,
                missing@.len() == i,
                forall|k: int|
                    0 <= k < i ==> #[trigger] missing@[k] == first.wrapping_add(offsets@[k] as u16),
            decreases offsets@.len() - i,
        {
            // Fewer than half of the numbers are looked at, so every offset fits one.
            missing.push(first.wrapping_add(offsets[i] as u16));
            i = i + 1;
        }
        proof {
            self.lemma_unmarked(span as nat);
            assert(missing@ =~= self@.missing(skip_last_n));
        }
        missing
    }

    /// Walking the bitmap finds what the log says is not marked.
    proof fn lemma_unmarked(&self, n: nat)
        requires
            self.wf(),
            n < UINT16_SIZE_HALF,
        ensures
            ({
                let first = self.last_consecutive.wrapping_add(1);
                let offsets = bitmap::zero_offsets(self.packets@, first as int, n);
                &&& self@.unmarked(n).len() == offsets.len()
                &&& forall|k: int|
                    0 <= k < offsets.len() ==> #[trigger] self@.unmarked(n)[k]
                        == first.wrapping_add(offsets[k] as u16)
            }),
        decreases n,
    {
        if n > 0 {
            self.lemma_unmarked((n - 1) as nat);
            self.lemma_bitmap();
            lemma_number_after(self.packets@, self.last_consecutive, n as int);
        }
    }

    /// Whether `seq` is one [`Self::missing_seq_numbers`] would report for `skip_last_n`, in
    /// constant time.
    pub fn is_missing(&self, seq: u16, skip_last_n: u16) -> (missing: bool)
        requires
            self.wf(),
        ensures
            missing == self@.is_missing(seq, skip_last_n),
            missing == self@.missing(skip_last_n).contains(seq),
    {
        proof {
            law_is_missing(self@, seq, skip_last_n);
        }
        let until: u16 = self.end.wrapping_sub(skip_last_n);
        let span: u16 = until.wrapping_sub(self.last_consecutive);
        if span >= UINT16_SIZE_HALF {
            return false;
        }
        let offset: u16 = seq.wrapping_sub(self.last_consecutive);
        offset != 0 && offset <= span && !self.get_received(seq)
    }
}

/// How far `last_consecutive` can move does not depend on where it stands.
proof fn lemma_advance_ignores_last(a: LogView, b: LogView, last: u16)
    requires
        a.slots == b.slots,
        a.end == b.end,
    ensures
        a.advance(last) == b.advance(last),
    decreases a.end.wrapping_sub(last),
{
    if last != a.end && a.marked(last.wrapping_add(1)) {
        lemma_advance_ignores_last(a, b, last.wrapping_add(1));
    }
}

/// Moving on never goes back, nor past the newest number.
proof fn lemma_advance_bounds(view: LogView, last: u16)
    ensures
        view.end.wrapping_sub(view.advance(last)) <= view.end.wrapping_sub(last),
    decreases view.end.wrapping_sub(last),
{
    if last != view.end && view.marked(last.wrapping_add(1)) {
        lemma_advance_bounds(view, last.wrapping_add(1));
    }
}

/// Whatever arrives, a valid log stays valid: what is asked for again never reaches further back
/// than the window.
pub proof fn law_add_keeps_valid(view: LogView, seq: u16)
    requires
        view.valid(),
    ensures
        view.add(seq).valid(),
{
    let size = view.slots.len() as int;
    let ahead = seq.wrapping_sub(view.end);
    assert(0 <= seq as int % size < size);
    if view.started && ahead != 0 {
        if ahead < UINT16_SIZE_HALF {
            let moved = LogView {
                end: seq,
                ..view.forget(view.end.wrapping_add(1), ahead - 1)
            };
            lemma_advance_bounds(moved, seq.wrapping_sub(size as u16));
        } else {
            lemma_advance_bounds(view, seq);
        }
    }
}

/// `is_missing` answers exactly the membership question that the list of missing numbers implies,
/// for every sequence number.
pub proof fn law_is_missing(view: LogView, seq: u16, skip_last_n: u16)
    ensures
        view.is_missing(seq, skip_last_n) == view.missing(skip_last_n).contains(seq),
{
    lemma_unmarked_members(view, view.span(skip_last_n) as nat);
    let offset = seq.wrapping_sub(view.last_consecutive);
    assert(view.last_consecutive.wrapping_add(offset) == seq);
    let missing = view.missing(skip_last_n);
    if missing.contains(seq) {
        let k = choose|k: int| 0 <= k < missing.len() && missing[k] == seq;
        let o = choose|o: int|
            1 <= o <= view.span(skip_last_n) && missing[k] == #[trigger] view.last_consecutive.wrapping_add(o as u16)
                && !view.marked(missing[k]);
        assert(offset == o);
    }
    if view.is_missing(seq, skip_last_n) {
        assert(missing.contains(view.last_consecutive.wrapping_add(offset)));
    }
}

proof fn lemma_unmarked_members(view: LogView, n: nat)
    requires
        n <= u16::MAX,
    ensures
        forall|k: int|
            0 <= k < view.unmarked(n).len() ==> exists|o: int|
                1 <= o <= n && #[trigger] view.unmarked(n)[k]
                    == #[trigger] view.last_consecutive.wrapping_add(o as u16) && !view.marked(
                    view.unmarked(n)[k],
                ),
        forall|o: u16|
            1 <= o <= n && !view.marked(view.last_consecutive.wrapping_add(o))
                ==> view.unmarked(n).contains(#[trigger] view.last_consecutive.wrapping_add(o)),
    decreases n,
{
    if n > 0 {
        let m = (n - 1) as nat;
        lemma_unmarked_members(view, m);
        let all = view.unmarked(n);
        let before = view.unmarked(m);
        assert forall|k: int| 0 <= k < all.len() implies exists|o: int|
            1 <= o <= n && #[trigger] all[k] == #[trigger] view.last_consecutive.wrapping_add(
                o as u16,
            ) && !view.marked(all[k]) by {
            if k < before.len() {
                let o = choose|o: int|
                    1 <= o <= m && before[k] == #[trigger] view.last_consecutive.wrapping_add(
                        o as u16,
                    ) && !view.marked(before[k]);
                assert(all[k] == view.last_consecutive.wrapping_add(o as u16));
            } else {
                assert(all[k] == view.last_consecutive.wrapping_add(n as u16));
            }
        }
        assert forall|o: u16|
            1 <= o <= n && !view.marked(view.last_consecutive.wrapping_add(o)) implies all.contains(
            #[trigger] view.last_consecutive.wrapping_add(o),
        ) by {
            if o <= m {
                let seq = view.last_consecutive.wrapping_add(o);
                assert(before.contains(seq));
                let k = choose|k: int| 0 <= k < before.len() && before[k] == seq;
                assert(all[k] == seq);
            } else {
                assert(all[all.len() - 1] == view.last_consecutive.wrapping_add(o));
            }
        }
    }
}

/// Marked numbers are passed over.
proof fn lemma_advance_over(view: LogView, last: u16, n: nat)
    requires
        n <= view.end.wrapping_sub(last),
        forall|i: int| 1 <= i <= n ==> #[trigger] view.marked(last.wrapping_add(i as u16)),
    ensures
        view.advance(last) == view.advance(last.wrapping_add(n as u16)),
    decreases n,
{
    if n > 0 {
        let next = last.wrapping_add(1);
        assert(view.marked(last.wrapping_add(1int as u16)));
        assert forall|i: int| 1 <= i <= n - 1 implies #[trigger] view.marked(
            next.wrapping_add(i as u16),
        ) by {
            assert(view.marked(last.wrapping_add((i + 1) as u16)));
        }
        lemma_advance_over(view, next, (n - 1) as nat);
    }
}

/// What arrived counts as received for as long as it lies in the window.
pub proof fn law_added_is_received(view: LogView, seq: u16)
    requires
        view.valid(),
    ensures
        view.add(seq).get(seq) == ({
            let behind = view.add(seq).end.wrapping_sub(seq);
            behind < UINT16_SIZE_HALF && behind < view.slots.len()
        }),
{
    let size = view.slots.len() as int;
    assert(0 <= seq as int % size < size);
}

/// A number that was skipped by a jump ahead does not count as received, whatever its slot held
/// from a window ago.
pub proof fn law_skipped_is_not_received(view: LogView, seq: u16, skipped: u16)
    requires
        view.valid(),
        view.started,
        seq.wrapping_sub(view.end) < UINT16_SIZE_HALF,
        0 < skipped.wrapping_sub(view.end) < seq.wrapping_sub(view.end),
    ensures
        !view.add(seq).get(skipped),
{
    let size = view.slots.len() as int;
    let first = view.end.wrapping_add(1);
    let ahead = seq.wrapping_sub(view.end);
    let behind = seq.wrapping_sub(skipped);
    if behind < size {
        seqnum::lemma_slots_differ(skipped, seq, size);
        seqnum::lemma_covers_number(first, ahead - 1, skipped, size);
        let t = skipped.wrapping_sub(first) as int;
        assert(t % size <= t) by {
            vstd::arithmetic::div_mod::lemma_mod_decreases(t as nat, size as nat);
        }
    }
}

/// An arrival that is not older than the window changes nothing for the other numbers that were
/// seen before and are still in the window.
pub proof fn law_add_keeps_others(view: LogView, seq: u16, other: u16)
    requires
        view.valid(),
        seq.wrapping_sub(view.end) < UINT16_SIZE_HALF || view.end.wrapping_sub(seq)
            < view.slots.len(),
        other != seq,
        view.started ==> view.end.wrapping_sub(other) < UINT16_SIZE_HALF,
        view.add(seq).end.wrapping_sub(other) < UINT16_SIZE_HALF,
        view.add(seq).end.wrapping_sub(other) < view.slots.len(),
    ensures
        view.add(seq).get(other) == view.get(other),
{
    let size = view.slots.len() as int;
    let ahead = seq.wrapping_sub(view.end);
    assert(0 <= seq as int % size < size);
    assert(0 <= other as int % size < size);
    if !view.started {
        seqnum::lemma_slots_differ(other, seq, size);
    } else if ahead == 0 {
    } else if ahead < UINT16_SIZE_HALF {
        let first = view.end.wrapping_add(1);
        let behind = view.end.wrapping_sub(other);
        assert(ahead + behind < size);
        seqnum::lemma_slots_differ(other, seq, size);
        seqnum::lemma_covers_number(first, ahead - 1, other, size);
        seqnum::lemma_just_behind(view.end, other, size);
    } else {
        if view.end.wrapping_sub(other) < view.end.wrapping_sub(seq) {
            seqnum::lemma_slots_differ(seq, other, size);
        } else {
            seqnum::lemma_slots_differ(other, seq, size);
        }
    }
}

/// The missing numbers are listed in ascending order from the one after `last_consecutive`, and
/// none is newer than the newest one that is not left out.
pub proof fn law_missing_ascends(view: LogView, skip_last_n: u16, i: int, j: int)
    requires
        0 <= i < j < view.missing(skip_last_n).len(),
    ensures
        0 < view.missing(skip_last_n)[i].wrapping_sub(view.last_consecutive) < view.missing(
            skip_last_n,
        )[j].wrapping_sub(view.last_consecutive) <= view.span(skip_last_n),
{
    lemma_unmarked_ascends(view, view.span(skip_last_n) as nat, i, j);
}

proof fn lemma_unmarked_ascends(view: LogView, n: nat, i: int, j: int)
    requires
        n <= u16::MAX,
        0 <= i < j < view.unmarked(n).len(),
    ensures
        0 < view.unmarked(n)[i].wrapping_sub(view.last_consecutive) < view.unmarked(
            n,
        )[j].wrapping_sub(view.last_consecutive) <= n,
    decreases n,
{
    let m = (n - 1) as nat;
    let before = view.unmarked(m);
    if j < before.len() {
        lemma_unmarked_ascends(view, m, i, j);
    } else {
        lemma_unmarked_members(view, m);
        assert(before[i] == view.unmarked(n)[i]);
        let o = choose|o: int|
            1 <= o <= m && before[i] == #[trigger] view.last_consecutive.wrapping_add(o as u16)
                && !view.marked(before[i]);
        assert(before[i].wrapping_sub(view.last_consecutive) == o);
    }
}

/// A log once `first` arrived and then, in this order, the numbers so far ahead of it.
pub open spec fn after_adds(view: LogView, first: u16, offsets: Seq<u16>) -> LogView
    decreases offsets.len(),
{
    if offsets.len() == 0 {
        view.add(first)
    } else {
        after_adds(view, first, offsets.drop_last()).add(first.wrapping_add(offsets.last()))
    }
}

/// Whether the number so far ahead of the first one arrived.
pub open spec fn came(offsets: Seq<u16>, k: int) -> bool {
    k == 0 || exists|i: int| 0 <= i < offsets.len() && #[trigger] offsets[i] == k
}

/// How far the newest number is ahead of the first one.
pub open spec fn furthest(offsets: Seq<u16>) -> u16
    decreases offsets.len(),
{
    if offsets.len() == 0 {
        0
    } else {
        let before = furthest(offsets.drop_last());
        if offsets.last() > before {
            offsets.last()
        } else {
            before
        }
    }
}

/// Of the `n` numbers from the first one on, those that never arrived, ascending.
pub open spec fn never_came(first: u16, offsets: Seq<u16>, n: nat) -> Seq<u16>
    decreases n,
{
    if n == 0 {
        Seq::empty()
    } else {
        let before = never_came(first, offsets, (n - 1) as nat);
        if came(offsets, n - 1) {
            before
        } else {
            before.push(first.wrapping_add((n - 1) as u16))
        }
    }
}

/// The furthest offset is one that came, and none is further.
proof fn lemma_furthest(offsets: Seq<u16>)
    ensures
        came(offsets, furthest(offsets) as int),
        forall|k: int| #[trigger] came(offsets, k) ==> k <= furthest(offsets),
    decreases offsets.len(),
{
    if offsets.len() > 0 {
        let before = offsets.drop_last();
        lemma_furthest(before);
        lemma_came_more(offsets);
        assert(came(before, furthest(before) as int));
        assert(came(offsets, furthest(before) as int));
        assert(came(offsets, offsets.last() as int));
        assert forall|k: int| #[trigger] came(offsets, k) implies k <= furthest(offsets) by {
            assert(came(before, k) || k == offsets.last());
        }
    }
}

/// What came with one more arrival is what came before it, and the arrival.
proof fn lemma_came_more(offsets: Seq<u16>)
    requires
        offsets.len() > 0,
    ensures
        forall|k: int| #[trigger]
            came(offsets, k) == (came(offsets.drop_last(), k) || k == offsets.last()),
{
    let before = offsets.drop_last();
    assert forall|k: int| #[trigger] came(offsets, k) == (came(before, k) || k
        == offsets.last()) by {
        if came(before, k) && k != 0 {
            let i = choose|i: int| 0 <= i < before.len() && #[trigger] before[i] == k;
            assert(offsets[i] == k);
        }
        if k == offsets.last() {
            assert(offsets[offsets.len() - 1] == k);
        }
        if came(offsets, k) && k != 0 {
            let i = choose|i: int| 0 <= i < offsets.len() && #[trigger] offsets[i] == k;
            if i < before.len() {
                assert(before[i] == k);
            }
        }
    }
}

/// Every number that is moved on over is marked, and none is newer than the newest.
proof fn lemma_advance_marked(view: LogView, last: u16)
    ensures
        view.advance(last).wrapping_sub(last) <= view.end.wrapping_sub(last),
        forall|i: u16|
            1 <= i <= view.advance(last).wrapping_sub(last) ==> #[trigger] view.marked(
                last.wrapping_add(i),
            ),
    decreases view.end.wrapping_sub(last),
{
    if last != view.end && view.marked(last.wrapping_add(1)) {
        let next = last.wrapping_add(1);
        lemma_advance_marked(view, next);
        let to = view.advance(last);
        assert forall|i: u16| 1 <= i <= to.wrapping_sub(last) implies #[trigger] view.marked(
            last.wrapping_add(i),
        ) by {
            if i > 1 {
                assert(next.wrapping_add((i - 1) as u16) == last.wrapping_add(i));
                assert(view.marked(next.wrapping_add((i - 1) as u16)));
            }
        }
    }
}

/// What holds after numbers of one window arrived.
spec fn holds_exactly(view: LogView, first: u16, offsets: Seq<u16>) -> bool {
    let furthest = furthest(offsets);
    let contiguous = view.last_consecutive.wrapping_sub(first);
    &&& view.valid()
    &&& view.started
    &&& furthest < view.slots.len()
    &&& view.end == first.wrapping_add(furthest)
    &&& contiguous <= furthest
    &&& forall|k: u16| k <= contiguous ==> #[trigger] came(offsets, k as int)
    &&& forall|k: u16|
        k <= furthest ==> #[trigger] view.get(first.wrapping_add(k)) == came(offsets, k as int)
}

/// One more number of the window changes nothing for the others.
proof fn lemma_one_more(held: LogView, first: u16, offsets: Seq<u16>, j: u16)
    requires
        offsets.len() > 0,
        holds_exactly(held, first, offsets.drop_last()),
        offsets.last() < held.slots.len(),
        j <= furthest(offsets),
    ensures
        held.add(first.wrapping_add(offsets.last())).get(first.wrapping_add(j)) == came(
            offsets,
            j as int,
        ),
{
    let before = offsets.drop_last();
    let k = offsets.last();
    let seq = first.wrapping_add(k);
    let other = first.wrapping_add(j);
    lemma_came_more(offsets);
    lemma_furthest(before);
    assert(came(offsets, j as int) == (came(before, j as int) || j == k));
    if j == k {
        law_added_is_received(held, seq);
    } else if j <= furthest(before) {
        law_add_keeps_others(held, seq, other);
        assert(held.get(first.wrapping_add(j)) == came(before, j as int));
    } else {
        assert(!came(before, j as int));
        law_skipped_is_not_received(held, seq, other);
    }
}

/// With one more number of the window, everything up to the last consecutive one came.
proof fn lemma_one_more_consecutive(held: LogView, first: u16, offsets: Seq<u16>)
    requires
        offsets.len() > 0,
        holds_exactly(held, first, offsets.drop_last()),
        offsets.last() < held.slots.len(),
    ensures
        ({
            let after = held.add(first.wrapping_add(offsets.last()));
            &&& after.last_consecutive.wrapping_sub(first) <= furthest(offsets)
            &&& forall|j: u16|
                j <= after.last_consecutive.wrapping_sub(first) ==> #[trigger] came(
                    offsets,
                    j as int,
                )
        }),
{
    let before = offsets.drop_last();
    let k = offsets.last();
    let seq = first.wrapping_add(k);
    let after = held.add(seq);
    let contiguous = held.last_consecutive.wrapping_sub(first);
    lemma_came_more(offsets);
    lemma_advance_marked(held, seq);
    assert forall|j: u16| j <= after.last_consecutive.wrapping_sub(first) implies #[trigger] came(
        offsets,
        j as int,
    ) by {
        if j <= contiguous {
            assert(came(before, j as int));
        } else if j > k {
            let i = (j - k) as u16;
            assert(held.marked(seq.wrapping_add(i)));
            assert(seq.wrapping_add(i) == first.wrapping_add(j));
            assert(held.get(first.wrapping_add(j)));
            assert(came(before, j as int));
        }
    }
}

proof fn lemma_holds_exactly(view: LogView, first: u16, offsets: Seq<u16>)
    requires
        view.valid(),
        !view.started,
        forall|i: int| 0 <= i < offsets.len() ==> #[trigger] offsets[i] < view.slots.len(),
    ensures
        holds_exactly(after_adds(view, first, offsets), first, offsets),
        after_adds(view, first, offsets).slots.len() == view.slots.len(),
    decreases offsets.len(),
{
    let after = after_adds(view, first, offsets);
    if offsets.len() == 0 {
        law_add_keeps_valid(view, first);
        law_added_is_received(view, first);
        assert(first.wrapping_add(0) == first);
        assert forall|k: u16| k <= furthest(offsets) implies #[trigger] after.get(
            first.wrapping_add(k),
        ) == came(offsets, k as int) by {
            assert(k == 0);
        }
    } else {
        let before = offsets.drop_last();
        assert forall|i: int| 0 <= i < before.len() implies #[trigger] before[i]
            < view.slots.len() by {
            assert(before[i] == offsets[i]);
        }
        lemma_holds_exactly(view, first, before);
        let held = after_adds(view, first, before);
        assert(offsets[offsets.len() - 1] == offsets.last());
        law_add_keeps_valid(held, first.wrapping_add(offsets.last()));
        assert forall|j: u16| j <= furthest(offsets) implies #[trigger] after.get(
            first.wrapping_add(j),
        ) == came(offsets, j as int) by {
            lemma_one_more(held, first, offsets, j);
        }
        lemma_one_more_consecutive(held, first, offsets);
    }
}

/// After numbers of one window arrived, in any order and however often, the missing numbers are
/// exactly those from the first one on that never arrived, ascending, with the newest
/// `skip_last_n` left out.
pub proof fn law_missing_are_never_added(
    view: LogView,
    first: u16,
    offsets: Seq<u16>,
    skip_last_n: u16,
)
    requires
        view.valid(),
        !view.started,
        forall|i: int| 0 <= i < offsets.len() ==> #[trigger] offsets[i] < view.slots.len(),
        skip_last_n <= 32768,
    ensures
        after_adds(view, first, offsets).missing(skip_last_n) == never_came(
            first,
            offsets,
            (if furthest(offsets) >= skip_last_n {
                furthest(offsets) - skip_last_n + 1
            } else {
                0
            }) as nat,
        ),
{
    lemma_holds_exactly(view, first, offsets);
    let after = after_adds(view, first, offsets);
    let contiguous = after.last_consecutive.wrapping_sub(first);
    let reach = furthest(offsets);
    let span = after.span(skip_last_n);
    lemma_all_came(first, offsets, contiguous as nat + 1);
    if reach >= skip_last_n && reach - skip_last_n >= contiguous {
        assert(span == reach - skip_last_n - contiguous);
        lemma_unmarked_never_came(after, first, offsets, span as nat);
    } else {
        assert(span == 0);
        if reach >= skip_last_n {
            lemma_all_came(first, offsets, (reach - skip_last_n + 1) as nat);
        }
    }
}

/// Where everything came, nothing is missing.
proof fn lemma_all_came(first: u16, offsets: Seq<u16>, n: nat)
    requires
        n <= 65536,
        forall|k: u16| k < n ==> #[trigger] came(offsets, k as int),
    ensures
        never_came(first, offsets, n) == Seq::<u16>::empty(),
    decreases n,
{
    if n > 0 {
        lemma_all_came(first, offsets, (n - 1) as nat);
        assert(came(offsets, ((n - 1) as u16) as int));
    }
}

proof fn lemma_unmarked_never_came(view: LogView, first: u16, offsets: Seq<u16>, n: nat)
    requires
        holds_exactly(view, first, offsets),
        view.last_consecutive.wrapping_sub(first) + n <= furthest(offsets),
        never_came(first, offsets, view.last_consecutive.wrapping_sub(first) as nat + 1)
            == Seq::<u16>::empty(),
    ensures
        view.unmarked(n) == never_came(
            first,
            offsets,
            view.last_consecutive.wrapping_sub(first) as nat + 1 + n,
        ),
    decreases n,
{
    let contiguous = view.last_consecutive.wrapping_sub(first);
    if n > 0 {
        lemma_unmarked_never_came(view, first, offsets, (n - 1) as nat);
        let k = (contiguous + n) as u16;
        assert(view.last_consecutive.wrapping_add(n as u16) == first.wrapping_add(k));
        assert(view.get(first.wrapping_add(k)) == came(offsets, k as int));
    }
}

/// The missing numbers depend on which numbers of the window arrived, not on the order in which
/// they did or how often.
pub proof fn law_order_does_not_matter(
    view: LogView,
    first: u16,
    one: Seq<u16>,
    other: Seq<u16>,
    skip_last_n: u16,
)
    requires
        view.valid(),
        !view.started,
        forall|i: int| 0 <= i < one.len() ==> #[trigger] one[i] < view.slots.len(),
        forall|i: int| 0 <= i < other.len() ==> #[trigger] other[i] < view.slots.len(),
        forall|k: int| #[trigger] came(one, k) == came(other, k),
        skip_last_n <= 32768,
    ensures
        after_adds(view, first, one).missing(skip_last_n) == after_adds(view, first, other).missing(
            skip_last_n,
        ),
{
    law_missing_are_never_added(view, first, one, skip_last_n);
    law_missing_are_never_added(view, first, other, skip_last_n);
    lemma_furthest(one);
    lemma_furthest(other);
    assert(came(other, furthest(one) as int));
    assert(came(one, furthest(other) as int));
    lemma_same_never_came(
        first,
        one,
        other,
        (if furthest(one) >= skip_last_n {
            furthest(one) - skip_last_n + 1
        } else {
            0
        }) as nat,
    );
}

proof fn lemma_same_never_came(first: u16, one: Seq<u16>, other: Seq<u16>, n: nat)
    requires
        forall|k: int| #[trigger] came(one, k) == came(other, k),
    ensures
        never_came(first, one, n) == never_came(first, other, n),
    decreases n,
{
    if n > 0 {
        lemma_same_never_came(first, one, other, (n - 1) as nat);
        assert(came(one, n - 1) == came(other, n - 1));
    }
}

/// Moving on over marked numbers passes none that is not marked.
proof fn lemma_advance_passes_none(view: LogView, last: u16, other: u16)
    requires
        0 < other.wrapping_sub(last) <= view.end.wrapping_sub(last),
        !view.marked(other),
    ensures
        ({
            let after = view.advance(last);
            0 < other.wrapping_sub(after) <= view.end.wrapping_sub(after) <= view.end.wrapping_sub(
                last,
            )
        }),
    decreases view.end.wrapping_sub(last),
{
    if last != view.end && view.marked(last.wrapping_add(1)) {
        lemma_advance_passes_none(view, last.wrapping_add(1), other);
    }
}

/// A newer number makes nothing forgotten that is still in the window: what has not arrived of the
/// numbers between the last consecutive one and the new one is missing from then on, as far as the
/// window reaches back.
pub proof fn law_jump_leaves_the_window_missing(view: LogView, seq: u16, other: u16)
    requires
        view.valid(),
        view.started,
        view.slots.len() < 32768,
        0 < seq.wrapping_sub(view.end) < 32768,
        0 < seq.wrapping_sub(other) < view.slots.len(),
        0 < other.wrapping_sub(view.last_consecutive) < seq.wrapping_sub(view.last_consecutive),
        !view.add(seq).get(other),
    ensures
        view.add(seq).is_missing(other, 0),
{
    let size = view.slots.len() as int;
    let ahead = seq.wrapping_sub(view.end);
    let after = view.add(seq);
    assert(0 <= seq as int % size < size);
    assert(0 <= other as int % size < size);
    seqnum::lemma_slots_differ(other, seq, size);
    assert(!after.marked(other));
    let moved = LogView { end: seq, ..view.forget(view.end.wrapping_add(1), ahead - 1) };
    assert(!moved.marked(other));
    if seq.wrapping_sub(view.last_consecutive) > size {
        let from = seq.wrapping_sub(size as u16);
        lemma_advance_passes_none(moved, from, other);
    }
}

} // verus!
