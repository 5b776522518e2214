//! Packet arrival times for transport-wide congestion control feedback, by unwrapped sequence
//! number.

use crate::bitmap;
use crate::seqnum;
use vstd::prelude::*;
use wide::i64x4;

verus! {

/// The smallest buffer that is kept.
pub const MIN_CAPACITY: usize = 128;

/// The longest window that is kept.
pub const MAX_NUMBER_OF_PACKETS: i64 = 32768;

/// What stands in the slot of a packet that has not arrived.
pub const NOT_RECEIVED: i64 = -1;

/// The buffer sizes that occur: the powers of two from [`MIN_CAPACITY`] to
/// [`MAX_NUMBER_OF_PACKETS`].
pub open spec fn is_capacity(capacity: int) -> bool {
    128 <= capacity && seqnum::is_window_size(capacity)
}

/// `capacity`, doubled until `size` fits.
pub open spec fn grown(capacity: int, size: int) -> int
    decreases
            (if size > capacity {
                size - capacity
            } else {
                0
            }),
{
    if capacity <= 0 || capacity >= size {
        capacity
    } else {
        grown(capacity * 2, size)
    }
}

/// `capacity`, halved while at least twice `floor`.
pub open spec fn shrunk(capacity: int, floor: int) -> int
    decreases capacity,
{
    if floor <= 0 || capacity < 2 * floor {
        capacity
    } else {
        shrunk(capacity / 2, floor)
    }
}

/// The newest number before `end` that owns slot `p` of a buffer with `capacity` slots.
pub open spec fn owner(end: int, capacity: int, p: int) -> int {
    end - 1 - (end - 1 - p) % capacity
}

/// The model of the map: a circular buffer, in which `sn` owns slot `sn % slots.len()`, and the
/// window of numbers from `begin` up to but not including `end` that it says something about.
#[verifier::ext_equal]
pub struct ArrivalView {
    /// The arrival time in each slot; -1 for none.
    pub slots: Seq<i64>,
    /// First number of the window.
    pub begin: int,
    /// First number after the window.
    pub end: int,
}

impl ArrivalView {
    /// How many slots there are.
    pub open spec fn capacity(self) -> int {
        self.slots.len() as int
    }

    /// What the slot of `sn` holds.
    pub open spec fn at(self, sn: int) -> i64 {
        self.slots[sn % self.capacity()]
    }

    /// The arrival time of `sn`, and -1 where it has not arrived or lies outside of the window.
    pub open spec fn get(self, sn: int) -> i64 {
        if self.begin <= sn < self.end {
            self.at(sn)
        } else {
            NOT_RECEIVED
        }
    }

    /// The map with `time` in the slot of `sn`.
    pub open spec fn put(self, sn: int, time: i64) -> ArrivalView {
        ArrivalView { slots: self.slots.update(sn % self.capacity(), time), ..self }
    }

    /// The map with the slots of the numbers from `from` up to but not including `to` set to -1.
    pub open spec fn cleared(self, from: int, to: int) -> ArrivalView {
        if to <= from {
            self
        } else {
            ArrivalView {
                slots: Seq::new(
                    self.slots.len(),
                    |p: int|
                        if bitmap::covers(self.capacity(), from, to - from, p) {
                            NOT_RECEIVED
                        } else {
                            self.slots[p]
                        },
                ),
                ..self
            }
        }
    }

    /// The map with its window moved to a buffer of `capacity` slots; every other slot holds -1.
    /// Where the window is longer than the buffer, its newest numbers keep their slots.
    pub open spec fn resized(self, capacity: int) -> ArrivalView {
        ArrivalView {
            slots: Seq::new(
                capacity as nat,
                |p: int|
                    if owner(self.end, capacity, p) >= self.begin {
                        self.at(owner(self.end, capacity, p))
                    } else {
                        NOT_RECEIVED
                    },
            ),
            ..self
        }
    }

    /// The map with a buffer that suits a window of `size` numbers: large enough for it, and not
    /// over four times as large unless it is the smallest one.
    pub open spec fn adjusted(self, size: int) -> ArrivalView {
        let floor = if size > MIN_CAPACITY {
            size
        } else {
            MIN_CAPACITY as int
        };
        let large = if size > self.capacity() {
            self.resized(grown(self.capacity(), size))
        } else {
            self
        };
        if large.capacity() > MIN_CAPACITY && large.capacity() > size * 4 {
            large.resized(shrunk(large.capacity(), floor))
        } else {
            large
        }
    }

    /// The map after `sn` arrived at `time`.
    pub open spec fn add_packet(self, sn: int, time: i64) -> ArrivalView {
        if self.capacity() == 0 {
            ArrivalView { begin: sn, end: sn + 1, ..self.resized(MIN_CAPACITY as int) }.put(sn, time)
        } else if self.begin <= sn < self.end {
            self.put(sn, time)
        } else if sn < self.begin {
            if self.end - sn > MAX_NUMBER_OF_PACKETS {
                // It would remove newer packets.
                self
            } else {
                ArrivalView {
                    begin: sn,
                    ..self.adjusted(self.end - sn).put(sn, time).cleared(sn + 1, self.begin)
                }
            }
        } else if sn + 1 >= self.end + MAX_NUMBER_OF_PACKETS {
            // All old packets have to be removed.
            ArrivalView { begin: sn, end: sn + 1, ..self }.put(sn, time)
        } else {
            let begin = if self.begin < sn + 1 - MAX_NUMBER_OF_PACKETS {
                sn + 1 - MAX_NUMBER_OF_PACKETS
            } else {
                self.begin
            };
            ArrivalView {
                end: sn + 1,
                ..ArrivalView { begin, ..self }.adjusted(sn + 1 - begin).cleared(self.end, sn)
            }.put(sn, time)
        }
    }

    /// The first number from `from` on whose slot holds a time after `limit`, or `to` where there
    /// is none before it.
    pub open spec fn first_after(self, from: int, to: int, limit: i64) -> int
        decreases to - from,
    {
        if from >= to || self.at(from) > limit {
            from
        } else {
            self.first_after(from + 1, to, limit)
        }
    }

    /// `sn`, moved into the window or to its end.
    pub open spec fn clamp(self, sn: int) -> int {
        if sn < self.begin {
            self.begin
        } else if sn > self.end {
            self.end
        } else {
            sn
        }
    }

    /// The next packet at or after `sn` that has arrived, and when it arrived.
    pub open spec fn find_next(self, sn: int) -> Option<(int, i64)> {
        let next = self.first_after(self.clamp(sn), self.end, NOT_RECEIVED);
        if next < self.end {
            Some((next, self.at(next)))
        } else {
            None
        }
    }

    /// The map without the numbers before `sn`.
    pub open spec fn erase_to(self, sn: int) -> ArrivalView {
        if sn < self.begin {
            self
        } else if sn >= self.end {
            ArrivalView { begin: self.end, ..self }
        } else {
            ArrivalView { begin: sn, ..self }.adjusted(self.end - sn)
        }
    }

    /// The map without the numbers at its beginning that lie before `sn` and arrived no later than
    /// `limit`, up to the first that arrived later. Those that have not arrived count as -1.
    pub open spec fn remove_old_packets(self, sn: int, limit: i64) -> ArrivalView {
        let check_to = if sn < self.end {
            sn
        } else {
            self.end
        };
        let begin = if self.begin < check_to {
            self.first_after(self.begin, check_to, limit)
        } else {
            self.begin
        };
        ArrivalView { begin, ..self }.adjusted(self.end - begin)
    }

    /// Whether adding `sn` stays within the numbers that an `i64` can hold.
    pub open spec fn addable(self, sn: int) -> bool {
        &&& i64::MIN <= sn < i64::MAX
        &&& self.capacity() != 0 ==> {
            &&& i64::MIN + MAX_NUMBER_OF_PACKETS <= self.end <= i64::MAX - MAX_NUMBER_OF_PACKETS
            &&& self.end - sn <= i64::MAX
        }
    }

    /// The window fits the buffer.
    pub open spec fn fits(self) -> bool {
        &&& self.capacity() >= 1
        &&& self.begin <= self.end <= self.begin + self.capacity()
    }

    /// What holds of every map: nothing was added yet, or the buffer has one of the sizes that
    /// occur and the window fits it.
    pub open spec fn valid(self) -> bool {
        ||| self.capacity() == 0 && self.begin == 0 && self.end == 0
        ||| is_capacity(self.capacity()) && self.fits()
    }
}

/// Whether one of four values is greater than `threshold`: `simd_gt` of `wide::i64x4` compares
/// lane by lane, and `any` says whether a lane of the resulting mask is set.
#[verifier::external_body]
fn any_after(values: [i64; 4], threshold: i64) -> (any: bool)
    ensures
        any == (values@[0] > threshold || values@[1] > threshold || values@[2] > threshold
            || values@[3] > threshold),
{
    i64x4::new(values).simd_gt(i64x4::splat(threshold)).any()
}

/// Values [`first_after`] checks one at a time before switching to vectors.
const SCALAR_PREFIX: usize = 8;

/// The index of the first value in `values[from..to]` greater than `threshold`, checked one at a
/// time.
fn position(values: &[i64], from: usize, to: usize, threshold: i64) -> (found: Option<usize>)
    requires
        from <= to <= values@.len(),
    ensures
        match found {
            Some(index) => {
                &&& from <= index < to
                &&& values@[index as int] > threshold
                &&& forall|i: int| from <= i < index ==> #[trigger] values@[i] <= threshold
            },
            None => forall|i: int| from <= i < to ==> #[trigger] values@[i] <= threshold,
        },
{
    let mut index: usize = from;
    while index < to
        invariant
            from <= index <= to <= values@.len(),
            forall|i: int| from <= i < index ==> #[trigger] values@[i] <= threshold,
        decreases to - index,
    {
        if values[index] > threshold {
            return Some(index);
        }
        index = index + 1;
    }
    None
}

/// The index of the first value in `values` greater than `threshold`.
///
/// Without loss the answer is almost always among the first few values, so the first
/// [`SCALAR_PREFIX`] are checked one at a time. Only a longer scan, typically a run of lost packets
/// (`-1`s), goes on to compare eight values per step as two vectors; the block holding the first
/// match, and any tail shorter than a block, is then searched one value at a time.
pub fn first_after(values: &[i64], threshold: i64) -> (found: Option<usize>)
    ensures
        match found {
            Some(index) => {
                &&& index < values@.len()
                &&& values@[index as int] > threshold
                &&& forall|i: int| 0 <= i < index ==> #[trigger] values@[i] <= threshold
            },
            None => forall|i: int| 0 <= i < values@.len() ==> #[trigger] values@[i] <= threshold,
        },
{
    let len: usize = values.len();
    let prefix: usize = if len <= SCALAR_PREFIX { len } else { SCALAR_PREFIX };
    if let Some(index) = position(values, 0, prefix, threshold) {
        return Some(index);
    }
    let mut skipped: usize = prefix;
    while len - skipped >= 8
        invariant_except_break
            len == values@.len(),
            prefix <= skipped <= len,
            forall|i: int| 0 <= i < skipped ==> #[trigger] values@[i] <= threshold,
        ensures
            skipped <= len,
            forall|i: int| 0 <= i < skipped ==> #[trigger] values@[i] <= threshold,
        decreases len - skipped,
    {
        let low = [
            values[skipped],
            values[skipped + 1],
            values[skipped + 2],
            values[skipped + 3],
        ];
        let high = [
            values[skipped + 4],
            values[skipped + 5],
            values[skipped + 6],
            values[skipped + 7],
        ];
        if any_after(low, threshold) || any_after(high, threshold) {
            break;
        }
        assert forall|i: int| skipped <= i < skipped + 8 implies #[trigger] values@[i]
            <= threshold by {
            assert(low@[0] <= threshold && low@[1] <= threshold && low@[2] <= threshold && low@[3]
                <= threshold);
            assert(high@[0] <= threshold && high@[1] <= threshold && high@[2] <= threshold
                && high@[3] <= threshold);
        }
        skipped = skipped + 8;
    }
    position(values, skipped, len, threshold)
}

/// A map tracking packet arrival times, indexed by unwrapped sequence number.
///
/// Uses a circular buffer where packets are stored at index `seq % capacity`. Automatically
/// grows and shrinks as needed.
pub struct PacketArrivalTimeMap {
    /// Circular buffer of arrival times. -1 indicates not received.
    pub arrival_times: Vec<i64>,
    /// First valid sequence number (inclusive).
    pub begin_sequence_number: i64,
    /// First sequence number after the valid range (exclusive).
    pub end_sequence_number: i64,
}

impl View for PacketArrivalTimeMap {
    type V = ArrivalView;

    open spec fn view(&self) -> ArrivalView {
        ArrivalView {
            slots: self.arrival_times@,
            begin: self.begin_sequence_number as int,
            end: self.end_sequence_number as int,
        }
    }
}

/// Stepping on from a number stays in consecutive slots until the buffer wraps.
proof fn lemma_step(sn: int, k: int, capacity: int)
    requires
        capacity > 0,
        0 <= k,
        sn % capacity + k < capacity,
    ensures
        (sn + k) % capacity == sn % capacity + k,
{
    crate::bitmap::lemma_mod_step(sn, k, capacity);
}

/// Past the wrap, the slots go on from the first.
proof fn lemma_step_round(sn: int, k: int, capacity: int)
    requires
        capacity > 0,
        capacity <= sn % capacity + k < 2 * capacity,
    ensures
        (sn + k) % capacity == sn % capacity + k - capacity,
{
    vstd::arithmetic::div_mod::lemma_add_mod_noop(sn, k, capacity);
    vstd::arithmetic::div_mod::lemma_fundamental_div_mod(sn, capacity);
    vstd::arithmetic::mul::lemma_mul_is_commutative(capacity, sn / capacity);
    assert((sn / capacity + 1) * capacity == (sn / capacity) * capacity + capacity)
        by (nonlinear_arith);
    vstd::arithmetic::div_mod::lemma_fundamental_div_mod_converse(
        sn + k,
        capacity,
        sn / capacity + 1,
        sn % capacity + k - capacity,
    );
}

impl PacketArrivalTimeMap {
    /// A map that nothing has been added to.
    pub fn new() -> (map: Self)
        ensures
            map@.valid(),
            map@ == (ArrivalView { slots: Seq::empty(), begin: 0, end: 0 }),
    {
        PacketArrivalTimeMap {
            arrival_times: Vec::new(),
            begin_sequence_number: 0,
            end_sequence_number: 0,
        }
    }

    /// The number of slots in the buffer.
    pub fn capacity(&self) -> (capacity: usize)
        ensures
            capacity == self@.capacity(),
    {
        self.arrival_times.len()
    }

    /// Returns the first valid sequence number in the map.
    pub fn begin_sequence_number(&self) -> (begin: i64)
        ensures
            begin == self@.begin,
    {
        self.begin_sequence_number
    }

    /// Returns the first sequence number after the last valid sequence number.
    pub fn end_sequence_number(&self) -> (end: i64)
        ensures
            end == self@.end,
    {
        self.end_sequence_number
    }

    /// The slot of a sequence number, which may be negative.
    fn index(&self, sequence_number: i64) -> (index: usize)
        requires
            1 <= self@.capacity() <= i64::MAX,
        ensures
            index == sequence_number as int % self@.capacity(),
            index < self@.capacity(),
    {
        slot(sequence_number, self.arrival_times.len())
    }

    /// Marks `start_inclusive..end_exclusive` as not received (`-1`).
    ///
    /// The range is split where it wraps the circular buffer into at most two contiguous slices. A
    /// range longer than the buffer covers every slot.
    pub fn set_not_received(&mut self, start_inclusive: i64, end_exclusive: i64)
        requires
            1 <= old(self)@.capacity() <= i64::MAX,
            end_exclusive - start_inclusive <= i64::MAX,
        ensures
            final(self)@ == old(self)@.cleared(start_inclusive as int, end_exclusive as int),
    {
        if end_exclusive <= start_inclusive {
            return;
        }
        let len: u64 = (end_exclusive - start_inclusive) as u64;
        let capacity: usize = self.capacity();
        let ghost before = self.arrival_times@;
        if len >= capacity as u64 {
            self.fill(0, capacity);
            assert(self@ =~= old(self)@.cleared(start_inclusive as int, end_exclusive as int));
            return;
        }
        let len: usize = len as usize;
        let index: usize = self.index(start_inclusive);
        let room: usize = capacity - index;
        let head_len: usize = if len <= room { len } else { room };
        self.fill(index, index + head_len);
        self.fill(0, len - head_len);
        proof {
            assert forall|p: int| 0 <= p < capacity implies bitmap::covers(
                capacity as int,
                start_inclusive as int,
                len as int,
                p,
            ) == (index <= p < index + head_len || p < len - head_len) by {
                lemma_distance(start_inclusive as int, p, capacity as int);
            }
            assert(self@ =~= old(self)@.cleared(start_inclusive as int, end_exclusive as int));
        }
    }

    /// Marks the slots from `from` up to but not including `to` as not received.
    fn fill(&mut self, from: usize, to: usize)
        requires
            from <= to <= old(self)@.capacity(),
        ensures
            final(self).begin_sequence_number == old(self).begin_sequence_number,
            final(self).end_sequence_number == old(self).end_sequence_number,
            final(self).arrival_times@ == Seq::new(
                old(self).arrival_times@.len(),
                |p: int|
                    if from <= p < to {
                        NOT_RECEIVED
                    } else {
                        old(self).arrival_times@[p]
                    },
            ),
    {
        let mut i: usize = from;
        while i < to
            invariant
                from <= i <= to <= self.arrival_times@.len(),
                self.begin_sequence_number == old(self).begin_sequence_number,
                self.end_sequence_number == old(self).end_sequence_number,
                self.arrival_times@.len() == old(self).arrival_times@.len(),
                forall|p: int|
                    0 <= p < self.arrival_times@.len() ==> #[trigger] self.arrival_times@[p] == if from
                        <= p < i {
                        NOT_RECEIVED
                    } else {
                        old(self).arrival_times@[p]
                    },
            decreases to - i,
        {
            self.arrival_times[i] = NOT_RECEIVED;
            i = i + 1;
        }
        assert(self.arrival_times@ =~= Seq::new(
            old(self).arrival_times@.len(),
            |p: int|
                if from <= p < to {
                    NOT_RECEIVED
                } else {
                    old(self).arrival_times@[p]
                },
        ));
    }
}

/// The slot that a sequence number owns in a buffer of `capacity` slots.
fn slot(sequence_number: i64, capacity: usize) -> (index: usize)
    requires
        1 <= capacity <= i64::MAX,
    ensures
        index == sequence_number as int % capacity as int,
        index < capacity,
{
    match sequence_number.checked_rem_euclid(capacity as i64) {
        Some(index) => index as usize,
        None => 0,
    }
}

/// How far slot `p` lies from the slot of `start`, going round.
proof fn lemma_distance(start: int, p: int, capacity: int)
    requires
        capacity > 0,
        0 <= p < capacity,
    ensures
        (p - start) % capacity == if p >= start % capacity {
            p - start % capacity
        } else {
            p - start % capacity + capacity
        },
{
    let i = start % capacity;
    vstd::arithmetic::div_mod::lemma_sub_mod_noop(p, start, capacity);
    vstd::arithmetic::div_mod::lemma_small_mod(p as nat, capacity as nat);
    if p >= i {
        vstd::arithmetic::div_mod::lemma_small_mod((p - i) as nat, capacity as nat);
    } else {
        vstd::arithmetic::div_mod::lemma_mod_add_multiples_vanish(p - i, capacity);
        vstd::arithmetic::div_mod::lemma_small_mod((p - i + capacity) as nat, capacity as nat);
    }
}

/// A slot belongs to its owner.
proof fn lemma_owner(end: int, capacity: int, p: int)
    requires
        capacity > 0,
        0 <= p < capacity,
    ensures
        end - capacity <= owner(end, capacity, p) < end,
        owner(end, capacity, p) % capacity == p,
{
    let d = (end - 1 - p) % capacity;
    vstd::arithmetic::div_mod::lemma_sub_mod_noop(end - 1, d, capacity);
    vstd::arithmetic::div_mod::lemma_mod_twice(end - 1 - p, capacity);
    vstd::arithmetic::div_mod::lemma_sub_mod_noop(end - 1, end - 1 - p, capacity);
    vstd::arithmetic::div_mod::lemma_small_mod(p as nat, capacity as nat);
    assert(end - 1 - (end - 1 - p) == p);
}

/// One of the newest numbers owns its slot.
proof fn lemma_owns(end: int, capacity: int, sn: int)
    requires
        capacity > 0,
        end - capacity <= sn < end,
    ensures
        owner(end, capacity, sn % capacity) == sn,
{
    let d = end - 1 - sn;
    vstd::arithmetic::div_mod::lemma_sub_mod_noop(end - 1, sn, capacity);
    vstd::arithmetic::div_mod::lemma_sub_mod_noop(end - 1, sn % capacity, capacity);
    vstd::arithmetic::div_mod::lemma_mod_twice(sn, capacity);
    vstd::arithmetic::div_mod::lemma_small_mod(d as nat, capacity as nat);
}

impl PacketArrivalTimeMap {
    /// Moves the window's arrival times into a buffer of `new_capacity` slots, leaving every other
    /// slot not received.
    ///
    /// Copies runs of consecutive sequence numbers that are contiguous in both the old and the new
    /// buffer, split where either buffer wraps.
    pub fn reallocate(&mut self, new_capacity: usize)
        requires
            1 <= new_capacity <= i64::MAX,
            old(self)@.capacity() <= i64::MAX,
            old(self)@.capacity() >= 1 || old(self)@.begin >= old(self)@.end,
            old(self)@.end - old(self)@.begin <= i64::MAX,
            i64::MIN <= old(self)@.end - new_capacity,
        ensures
            final(self)@ == old(self)@.resized(new_capacity as int),
    {
        let mut new_buffer: Vec<i64> = vec![NOT_RECEIVED; new_capacity];
        let old_capacity: usize = self.capacity();
        let begin: i64 = self.begin_sequence_number;
        let end: i64 = self.end_sequence_number;
        let newest: i64 = end - new_capacity as i64;
        let first: i64 = if begin >= newest { begin } else { newest };
        let mut sn: i64 = first;
        while sn < end
            invariant
                *self == *old(self),
                begin == self@.begin,
                end == self@.end,
                old_capacity == self@.capacity(),
                1 <= new_capacity <= i64::MAX,
                old_capacity <= i64::MAX,
                old_capacity >= 1 || begin >= end,
                end - begin <= i64::MAX,
                begin <= first,
                end - new_capacity <= first <= sn,
                first == begin || first == end - new_capacity,
                sn <= end || sn == first,
                new_buffer@.len() == new_capacity,
                forall|p: int|
                    0 <= p < new_capacity ==> #[trigger] new_buffer@[p] == ({
                        let o = owner(end as int, new_capacity as int, p);
                        if first <= o < sn {
                            self@.at(o)
                        } else {
                            NOT_RECEIVED
                        }
                    }),
            decreases end - sn,
        {
            let old_index: usize = slot(sn, old_capacity);
            let new_index: usize = slot(sn, new_capacity);
            let left: u64 = (end - sn) as u64;
            let old_room: usize = old_capacity - old_index;
            let new_room: usize = new_capacity - new_index;
            let room: usize = if old_room <= new_room { old_room } else { new_room };
            let run: usize = if left <= room as u64 { left as usize } else { room };
            let mut k: usize = 0;
            while k < run
                invariant
                    *self == *old(self),
                    end == self@.end,
                    old_capacity == self@.capacity(),
                    1 <= old_capacity,
                    1 <= new_capacity,
                    k <= run,
                    run <= end - sn,
                    old_index == sn as int % old_capacity as int,
                    new_index == sn as int % new_capacity as int,
                    old_index + run <= old_capacity,
                    new_index + run <= new_capacity,
                    end - new_capacity <= first <= sn,
                    new_buffer@.len() == new_capacity,
                    forall|p: int|
                        0 <= p < new_capacity ==> #[trigger] new_buffer@[p] == ({
                            let o = owner(end as int, new_capacity as int, p);
                            if first <= o < sn + k {
                                self@.at(o)
                            } else {
                                NOT_RECEIVED
                            }
                        }),
                decreases run - k,
            {
                proof {
                    lemma_step(sn as int, k as int, old_capacity as int);
                    lemma_step(sn as int, k as int, new_capacity as int);
                    lemma_owns(end as int, new_capacity as int, sn + k);
                    assert forall|p: int| 0 <= p < new_capacity && p != new_index + k implies owner(
                        end as int,
                        new_capacity as int,
                        p,
                    ) != sn + k by {
                        lemma_owner(end as int, new_capacity as int, p);
                    }
                }
                new_buffer[new_index + k] = self.arrival_times[old_index + k];
                k = k + 1;
            }
            sn = sn + run as i64;
        }
        self.arrival_times = new_buffer;
        proof {
            assert forall|p: int| 0 <= p < new_capacity implies #[trigger] new_buffer@[p] == old(
                self,
            )@.resized(new_capacity as int).slots[p] by {
                lemma_owner(end as int, new_capacity as int, p);
            }
            assert(self@ =~= old(self)@.resized(new_capacity as int));
        }
    }

    /// The offset from `start` of the first of the `len` sequence numbers from `start`, in
    /// sequence order, whose stored arrival time is greater than `threshold`.
    fn position_after(&self, start: i64, len: usize, threshold: i64) -> (found: Option<usize>)
        requires
            1 <= self@.capacity() <= i64::MAX,
            len <= self@.capacity(),
        ensures
            match found {
                Some(offset) => {
                    &&& offset < len
                    &&& self@.at(start + offset) > threshold
                    &&& forall|i: int|
                        0 <= i < offset ==> #[trigger] self@.at(start + i) <= threshold
                },
                None => forall|i: int| 0 <= i < len ==> #[trigger] self@.at(start + i) <= threshold,
            },
    {
        let capacity: usize = self.capacity();
        let index: usize = self.index(start);
        let room: usize = capacity - index;
        let head_len: usize = if len <= room { len } else { room };
        let head = &self.arrival_times.as_slice()[index..index + head_len];
        let tail = &self.arrival_times.as_slice()[0..len - head_len];
        proof {
            assert forall|i: int| 0 <= i < head_len implies #[trigger] self@.at(start + i)
                == head@[i] by {
                lemma_step(start as int, i, capacity as int);
            }
            assert forall|i: int| head_len <= i < len implies #[trigger] self@.at(start + i)
                == tail@[i - head_len] by {
                lemma_step_round(start as int, i, capacity as int);
            }
        }
        if let Some(offset) = first_after(head, threshold) {
            assert(self@.at(start + offset) == head@[offset as int]);
            return Some(offset);
        }
        match first_after(tail, threshold) {
            Some(offset) => {
                assert(self@.at(start + (head_len + offset)) == tail@[offset as int]);
                Some(head_len + offset)
            },
            None => None,
        }
    }
}

/// The first later time is where a scan stops.
proof fn lemma_first_after(view: ArrivalView, from: int, stop: int, to: int, limit: i64)
    requires
        from <= stop <= to,
        forall|i: int| from <= i < stop ==> #[trigger] view.at(i) <= limit,
        stop == to || view.at(stop) > limit,
    ensures
        view.first_after(from, to, limit) == stop,
    decreases to - from,
{
    if from < stop {
        assert(view.at(from) <= limit);
        lemma_first_after(view, from + 1, stop, to, limit);
    }
}

/// Doubling reaches a buffer size that fits, and no larger one than needed.
proof fn lemma_grown(capacity: int, size: int)
    requires
        is_capacity(capacity),
        size <= MAX_NUMBER_OF_PACKETS,
    ensures
        is_capacity(grown(capacity, size)),
        grown(capacity, size) >= size,
        grown(capacity, size) >= capacity,
    decreases
            (if size > capacity {
                size - capacity
            } else {
                0
            }),
{
    if capacity < size {
        assert(is_capacity(capacity * 2));
        lemma_grown(capacity * 2, size);
    }
}

/// Halving reaches a buffer size that is at least `floor`.
proof fn lemma_shrunk(capacity: int, floor: int)
    requires
        is_capacity(capacity),
        MIN_CAPACITY <= floor <= capacity,
    ensures
        is_capacity(shrunk(capacity, floor)),
        floor <= shrunk(capacity, floor) <= capacity,
        shrunk(capacity, floor) < 2 * floor,
    decreases capacity,
{
    if capacity >= 2 * floor {
        assert(is_capacity(capacity / 2));
        lemma_shrunk(capacity / 2, floor);
    }
}

/// A buffer that the window fits holds the same times as before.
proof fn lemma_resized(view: ArrivalView, capacity: int)
    requires
        capacity >= 1,
        view.begin <= view.end <= view.begin + capacity,
    ensures
        view.resized(capacity).fits(),
        view.resized(capacity).capacity() == capacity,
        forall|sn: int| #[trigger] view.resized(capacity).get(sn) == view.get(sn),
{
    assert forall|sn: int| #[trigger] view.resized(capacity).get(sn) == view.get(sn) by {
        if view.begin <= sn < view.end {
            lemma_owns(view.end, capacity, sn);
        }
    }
}

/// Adjusting the buffer to a window of `size` numbers that the current window is part of keeps
/// every arrival time.
proof fn lemma_adjusted(view: ArrivalView, size: int)
    requires
        is_capacity(view.capacity()),
        view.begin <= view.end <= view.begin + size,
        view.fits(),
        size <= MAX_NUMBER_OF_PACKETS,
    ensures
        is_capacity(view.adjusted(size).capacity()),
        view.adjusted(size).capacity() >= size,
        view.adjusted(size).fits(),
        view.adjusted(size).begin == view.begin,
        view.adjusted(size).end == view.end,
        forall|sn: int| #[trigger] view.adjusted(size).get(sn) == view.get(sn),
{
    let floor = if size > MIN_CAPACITY {
        size
    } else {
        MIN_CAPACITY as int
    };
    let large = if size > view.capacity() {
        view.resized(grown(view.capacity(), size))
    } else {
        view
    };
    lemma_grown(view.capacity(), size);
    if size > view.capacity() {
        lemma_resized(view, grown(view.capacity(), size));
    }
    if large.capacity() > MIN_CAPACITY && large.capacity() > size * 4 {
        lemma_shrunk(large.capacity(), floor);
        lemma_resized(large, shrunk(large.capacity(), floor));
        assert forall|sn: int| #[trigger] view.adjusted(size).get(sn) == view.get(sn) by {
            assert(large.get(sn) == view.get(sn));
            assert(large.resized(shrunk(large.capacity(), floor)).get(sn) == large.get(sn));
        }
    }
}

impl PacketArrivalTimeMap {
    /// Gives the map a buffer that suits a window of `new_size` numbers.
    fn adjust_to_size(&mut self, new_size: usize)
        requires
            is_capacity(old(self)@.capacity()) || old(self)@.capacity() == 0 && new_size == 0,
            new_size <= MAX_NUMBER_OF_PACKETS,
            old(self)@.end - old(self)@.begin <= i64::MAX,
            i64::MIN + MAX_NUMBER_OF_PACKETS <= old(self)@.end,
        ensures
            final(self)@ == old(self)@.adjusted(new_size as int),
    {
        if new_size > self.capacity() {
            let mut new_capacity: usize = self.capacity();
            proof {
                lemma_grown(new_capacity as int, new_size as int);
            }
            while new_capacity < new_size
                invariant
                    new_size <= MAX_NUMBER_OF_PACKETS,
                    is_capacity(new_capacity as int),
                    grown(new_capacity as int, new_size as int) == grown(
                        old(self)@.capacity(),
                        new_size as int,
                    ),
                decreases
                        (if new_size > new_capacity {
                            new_size - new_capacity
                        } else {
                            0
                        }),
            {
                assert(is_capacity(new_capacity * 2));
                new_capacity = new_capacity * 2;
            }
            self.reallocate(new_capacity);
        }
        let ghost large = self@;
        let capacity: usize = self.capacity();
        if capacity > MIN_CAPACITY && capacity > new_size * 4 {
            let floor: usize = if new_size > MIN_CAPACITY { new_size } else { MIN_CAPACITY };
            let mut new_capacity: usize = capacity;
            while new_capacity >= 2 * floor
                invariant
                    MIN_CAPACITY <= floor <= MAX_NUMBER_OF_PACKETS,
                    is_capacity(new_capacity as int),
                    floor <= new_capacity,
                    shrunk(new_capacity as int, floor as int) == shrunk(
                        large.capacity(),
                        floor as int,
                    ),
                decreases new_capacity,
            {
                assert(is_capacity(new_capacity as int / 2));
                new_capacity = new_capacity / 2;
            }
            self.reallocate(new_capacity);
        }
    }
}

impl PacketArrivalTimeMap {
    /// Record that a packet with the given sequence number arrived at the given time.
    pub fn add_packet(&mut self, sequence_number: i64, arrival_time: i64)
        requires
            old(self)@.valid(),
            old(self)@.addable(sequence_number as int),
        ensures
            final(self)@.valid(),
            final(self)@ == old(self)@.add_packet(sequence_number as int, arrival_time),
    {
        let ghost before = self@;
        let ghost sn = sequence_number as int;
        proof {
            law_add_keeps_valid(before, sn, arrival_time);
        }
        if self.arrival_times.is_empty() {
            // First packet
            self.reallocate(MIN_CAPACITY);
            self.begin_sequence_number = sequence_number;
            self.end_sequence_number = sequence_number + 1;
            let idx: usize = self.index(sequence_number);
            self.arrival_times[idx] = arrival_time;
            assert(self@ =~= before.add_packet(sn, arrival_time));
            return;
        }
        if sequence_number >= self.begin_sequence_number && sequence_number
            < self.end_sequence_number {
            // The packet is within the buffer, no need to resize.
            let idx: usize = self.index(sequence_number);
            self.arrival_times[idx] = arrival_time;
            assert(self@ =~= before.add_packet(sn, arrival_time));
            return;
        }
        if sequence_number < self.begin_sequence_number {
            // The packet goes before the current buffer. Expand to add packet, but only if it
            // fits within the maximum number of packets.
            let new_size: i64 = self.end_sequence_number - sequence_number;
            if new_size > MAX_NUMBER_OF_PACKETS {
                // Don't expand the buffer back for this packet, as it would remove newer received
                // packets.
                return;
            }
            proof {
                lemma_adjusted(before, new_size as int);
            }
            self.adjust_to_size(new_size as usize);
            let idx: usize = self.index(sequence_number);
            self.arrival_times[idx] = arrival_time;
            let begin: i64 = self.begin_sequence_number;
            assert(self@ =~= before.adjusted(new_size as int).put(sn, arrival_time));
            self.set_not_received(sequence_number + 1, begin);
            self.begin_sequence_number = sequence_number;
            assert(self@ =~= before.add_packet(sn, arrival_time));
            return;
        }
        // The packet goes after the buffer.
        let new_end_sequence_number: i64 = sequence_number + 1;
        if new_end_sequence_number >= self.end_sequence_number + MAX_NUMBER_OF_PACKETS {
            // All old packets have to be removed.
            self.begin_sequence_number = sequence_number;
            self.end_sequence_number = new_end_sequence_number;
            let idx: usize = self.index(sequence_number);
            self.arrival_times[idx] = arrival_time;
            assert(self@ =~= before.add_packet(sn, arrival_time));
            return;
        }
        if self.begin_sequence_number < new_end_sequence_number - MAX_NUMBER_OF_PACKETS {
            // Remove oldest entries.
            self.begin_sequence_number = new_end_sequence_number - MAX_NUMBER_OF_PACKETS;
        }
        let ghost moved = self@;
        let new_size: usize = (new_end_sequence_number - self.begin_sequence_number) as usize;
        proof {
            lemma_adjusted(moved, new_size as int);
        }
        self.adjust_to_size(new_size);
        // Packets can be received out of order. If this isn't the next expected packet, add enough
        // placeholders to fill the gap.
        let end: i64 = self.end_sequence_number;
        self.set_not_received(end, sequence_number);
        self.end_sequence_number = new_end_sequence_number;
        let idx: usize = self.index(sequence_number);
        self.arrival_times[idx] = arrival_time;
        assert(self@ =~= before.add_packet(sn, arrival_time));
    }

    /// Find the next received packet at or after the given sequence number. Returns
    /// (sequence_number, arrival_time) if found.
    ///
    /// Scans the stored times in sequence order as at most two contiguous slices (split where the
    /// range wraps the buffer), eight at a time ([`first_after`]).
    pub fn find_next_at_or_after(&self, sequence_number: i64) -> (found: Option<(i64, i64)>)
        requires
            self@.valid(),
        ensures
            match found {
                Some((next, time)) => self@.find_next(sequence_number as int) == Some(
                    (next as int, time),
                ),
                None => self@.find_next(sequence_number as int) is None,
            },
    {
        let start: i64 = self.clamp(sequence_number);
        if start >= self.end_sequence_number {
            return None;
        }
        let len: usize = (self.end_sequence_number - start) as usize;
        // Received packets have a non-negative arrival time: greater than -1.
        match self.position_after(start, len, NOT_RECEIVED) {
            Some(offset) => {
                let next: i64 = start + offset as i64;
                proof {
                    assert forall|i: int| start <= i < next implies #[trigger] self@.at(i)
                        <= NOT_RECEIVED by {
                        assert(self@.at(start + (i - start)) <= NOT_RECEIVED);
                    }
                    lemma_first_after(
                        self@,
                        start as int,
                        next as int,
                        self@.end,
                        NOT_RECEIVED,
                    );
                }
                Some((next, self.arrival_times[self.index(next)]))
            },
            None => {
                proof {
                    assert forall|i: int| start <= i < self@.end implies #[trigger] self@.at(i)
                        <= NOT_RECEIVED by {
                        assert(self@.at(start + (i - start)) <= NOT_RECEIVED);
                    }
                    lemma_first_after(
                        self@,
                        start as int,
                        self@.end,
                        self@.end,
                        NOT_RECEIVED,
                    );
                }
                None
            },
        }
    }

    /// Erase all elements from the beginning of the map until sequence_number.
    pub fn erase_to(&mut self, sequence_number: i64)
        requires
            old(self)@.valid(),
            i64::MIN + MAX_NUMBER_OF_PACKETS <= old(self)@.end,
        ensures
            final(self)@.valid(),
            final(self)@ == old(self)@.erase_to(sequence_number as int),
    {
        proof {
            law_erase_keeps_valid(self@, sequence_number as int);
        }
        if sequence_number < self.begin_sequence_number {
            return;
        }
        if sequence_number >= self.end_sequence_number {
            // Erase all.
            self.begin_sequence_number = self.end_sequence_number;
            return;
        }
        // Remove some
        self.begin_sequence_number = sequence_number;
        self.adjust_to_size((self.end_sequence_number - self.begin_sequence_number) as usize);
    }

    /// Remove packets from the beginning as long as they are before sequence_number and older than
    /// arrival_time_limit.
    ///
    /// Stops at the first packet, in sequence order, whose arrival time is after the limit, even
    /// if later ones are older. Packets not received are stored as `-1`, so they count as old for
    /// any limit of `-1` or more.
    pub fn remove_old_packets(&mut self, sequence_number: i64, arrival_time_limit: i64)
        requires
            old(self)@.valid(),
            i64::MIN + MAX_NUMBER_OF_PACKETS <= old(self)@.end,
        ensures
            final(self)@.valid(),
            final(self)@ == old(self)@.remove_old_packets(
                sequence_number as int,
                arrival_time_limit,
            ),
    {
        let ghost before = self@;
        proof {
            law_remove_keeps_valid(before, sequence_number as int, arrival_time_limit);
        }
        let check_to: i64 = if sequence_number < self.end_sequence_number {
            sequence_number
        } else {
            self.end_sequence_number
        };
        if self.begin_sequence_number < check_to {
            let begin: i64 = self.begin_sequence_number;
            let len: usize = (check_to - begin) as usize;
            let removed: usize = match self.position_after(begin, len, arrival_time_limit) {
                Some(offset) => offset,
                None => len,
            };
            proof {
                assert forall|i: int| begin <= i < begin + removed implies #[trigger] before.at(i)
                    <= arrival_time_limit by {
                    assert(before.at(begin + (i - begin)) <= arrival_time_limit);
                }
                lemma_first_after(
                    before,
                    begin as int,
                    begin + removed,
                    check_to as int,
                    arrival_time_limit,
                );
            }
            self.begin_sequence_number = begin + removed as i64;
        }
        assert(self@ =~= (ArrivalView { begin: self@.begin, ..before }));
        self.adjust_to_size((self.end_sequence_number - self.begin_sequence_number) as usize);
    }

    /// Check if a packet with the given sequence number has been received.
    pub fn has_received(&self, sequence_number: i64) -> (received: bool)
        requires
            self@.valid(),
        ensures
            received == (self@.get(sequence_number as int) >= 0),
    {
        self.get(sequence_number) >= 0
    }

    /// Clamp sequence_number to [begin_sequence_number, end_sequence_number].
    pub fn clamp(&self, sequence_number: i64) -> (clamped: i64)
        requires
            self@.valid(),
        ensures
            clamped == self@.clamp(sequence_number as int),
    {
        if sequence_number < self.begin_sequence_number {
            self.begin_sequence_number
        } else if sequence_number > self.end_sequence_number {
            self.end_sequence_number
        } else {
            sequence_number
        }
    }

    fn get(&self, sequence_number: i64) -> (time: i64)
        requires
            self@.valid(),
        ensures
            time == self@.get(sequence_number as int),
    {
        if sequence_number < self.begin_sequence_number || sequence_number
            >= self.end_sequence_number {
            return NOT_RECEIVED;
        }
        self.arrival_times[self.index(sequence_number)]
    }
}

/// The map after `sn` was added, number by number: `sn` arrived at `time`, what was in the window
/// before and still is keeps its time, and what the window took in beside it has not arrived.
pub proof fn law_add_records(view: ArrivalView, sn: int, time: i64, other: int)
    requires
        view.valid(),
    ensures
        ({
            let after = view.add_packet(sn, time);
            let refused = view.capacity() != 0 && sn < view.begin && view.end - sn
                > MAX_NUMBER_OF_PACKETS;
            &&& refused ==> after == view
            &&& !refused ==> after.begin <= sn < after.end && after.get(sn) == time
            &&& other != sn && after.begin <= other < after.end ==> after.get(other) == view.get(
                other,
            )
        }),
{
    let after = view.add_packet(sn, time);
    let refused = view.capacity() != 0 && sn < view.begin && view.end - sn > MAX_NUMBER_OF_PACKETS;
    if view.capacity() == 0 {
        lemma_resized(view, MIN_CAPACITY as int);
    } else if view.begin <= sn < view.end {
        if view.begin <= other < view.end && other != sn {
            lemma_apart(sn, other, view.capacity());
        }
    } else if refused {
    } else if sn < view.begin {
        let large = view.adjusted(view.end - sn);
        lemma_adjusted(view, view.end - sn);
        let put = large.put(sn, time);
        let c = large.capacity();
        assert(large.get(other) == view.get(other));
        if sn + 1 < view.begin {
            lemma_covers_slot(c, sn + 1, view.begin - sn - 1, sn);
            if sn < other < view.end {
                lemma_covers_slot(c, sn + 1, view.begin - sn - 1, other);
            }
        }
        if sn < other < view.end {
            lemma_apart(sn, other, c);
        }
    } else if sn + 1 >= view.end + MAX_NUMBER_OF_PACKETS {
    } else {
        let begin = after.begin;
        let moved = ArrivalView { begin, ..view };
        let large = moved.adjusted(sn + 1 - begin);
        lemma_adjusted(moved, sn + 1 - begin);
        let c = large.capacity();
        assert(large.get(other) == moved.get(other));
        if begin <= other < sn {
            lemma_apart(sn, other, c);
            if view.end < sn {
                lemma_covers_slot(c, view.end, sn - view.end, other);
            }
        }
    }
}

/// Two different numbers less than a buffer apart own different slots.
proof fn lemma_apart(a: int, b: int, capacity: int)
    requires
        capacity >= 1,
        a != b,
        -capacity < b - a < capacity,
    ensures
        a % capacity != b % capacity,
{
    if a < b {
        lemma_owns(b + 1, capacity, a);
        lemma_owns(b + 1, capacity, b);
    } else {
        lemma_owns(a + 1, capacity, a);
        lemma_owns(a + 1, capacity, b);
    }
}

/// Of the numbers less than a buffer apart from its start on either side, a range covers the slots
/// of those that it holds.
proof fn lemma_covers_slot(capacity: int, start: int, len: int, sn: int)
    requires
        capacity >= 1,
        0 <= len,
        start + len - capacity <= sn < start + capacity,
    ensures
        bitmap::covers(capacity, start, len, sn % capacity) == (start <= sn < start + len),
{
    vstd::arithmetic::div_mod::lemma_sub_mod_noop(sn, start, capacity);
    vstd::arithmetic::div_mod::lemma_sub_mod_noop(sn % capacity, start, capacity);
    vstd::arithmetic::div_mod::lemma_mod_twice(sn, capacity);
    if sn >= start {
        vstd::arithmetic::div_mod::lemma_small_mod((sn - start) as nat, capacity as nat);
    } else {
        vstd::arithmetic::div_mod::lemma_mod_add_multiples_vanish(sn - start, capacity);
        vstd::arithmetic::div_mod::lemma_small_mod(
            (sn - start + capacity) as nat,
            capacity as nat,
        );
    }
}

/// A valid map stays valid when a packet is added: the window never exceeds
/// [`MAX_NUMBER_OF_PACKETS`] nor the buffer.
pub proof fn law_add_keeps_valid(view: ArrivalView, sn: int, time: i64)
    requires
        view.valid(),
    ensures
        view.add_packet(sn, time).valid(),
        view.add_packet(sn, time).end - view.add_packet(sn, time).begin <= MAX_NUMBER_OF_PACKETS,
{
    if view.capacity() == 0 {
        assert(is_capacity(128));
    } else if view.begin <= sn < view.end {
    } else if sn < view.begin {
        if view.end - sn <= MAX_NUMBER_OF_PACKETS {
            lemma_adjusted(view, view.end - sn);
        }
    } else if sn + 1 >= view.end + MAX_NUMBER_OF_PACKETS {
    } else {
        let begin = view.add_packet(sn, time).begin;
        lemma_adjusted(ArrivalView { begin, ..view }, sn + 1 - begin);
    }
}

/// A scan stops between its bounds, at a later time or at its end, and passes over none.
pub proof fn law_first_after(view: ArrivalView, from: int, to: int, limit: i64)
    requires
        from <= to,
    ensures
        from <= view.first_after(from, to, limit) <= to,
        view.first_after(from, to, limit) < to ==> view.at(view.first_after(from, to, limit))
            > limit,
        forall|i: int|
            from <= i < view.first_after(from, to, limit) ==> #[trigger] view.at(i) <= limit,
    decreases to - from,
{
    if from < to && view.at(from) <= limit {
        law_first_after(view, from + 1, to, limit);
    }
}

/// Erasing keeps the map valid, and every time from `sn` on.
pub proof fn law_erase_keeps_valid(view: ArrivalView, sn: int)
    requires
        view.valid(),
    ensures
        view.erase_to(sn).valid(),
        forall|other: int|
            #![trigger view.erase_to(sn).get(other)]
            view.erase_to(sn).get(other) == if other >= sn {
                view.get(other)
            } else if sn < view.begin {
                view.get(other)
            } else {
                NOT_RECEIVED
            },
{
    if view.begin <= sn < view.end {
        let moved = ArrivalView { begin: sn, ..view };
        lemma_adjusted(moved, view.end - sn);
        assert forall|other: int| #[trigger] view.erase_to(sn).get(other) == if other >= sn {
            view.get(other)
        } else {
            NOT_RECEIVED
        } by {
            assert(moved.adjusted(view.end - sn).get(other) == moved.get(other));
        }
    }
}

/// Removing old packets keeps the map valid, removes nothing from `sn` on and nothing that arrived
/// after the limit, and keeps the time of everything from the first packet that stays.
pub proof fn law_remove_keeps_valid(view: ArrivalView, sn: int, limit: i64)
    requires
        view.valid(),
    ensures
        view.remove_old_packets(sn, limit).valid(),
        view.remove_old_packets(sn, limit).end == view.end,
        view.begin <= view.remove_old_packets(sn, limit).begin,
        forall|other: int|
            #![trigger view.remove_old_packets(sn, limit).get(other)]
            view.remove_old_packets(sn, limit).get(other) == if other
                >= view.remove_old_packets(sn, limit).begin {
                view.get(other)
            } else {
                NOT_RECEIVED
            },
        forall|other: int|
            view.begin <= other < view.remove_old_packets(sn, limit).begin ==> other < sn
                && #[trigger] view.get(other) <= limit,
{
    let after = view.remove_old_packets(sn, limit);
    let check_to = if sn < view.end {
        sn
    } else {
        view.end
    };
    if view.begin < check_to {
        law_first_after(view, view.begin, check_to, limit);
    }
    if view.capacity() > 0 {
        let begin = if view.begin < check_to {
            view.first_after(view.begin, check_to, limit)
        } else {
            view.begin
        };
        let moved = ArrivalView { begin, ..view };
        lemma_adjusted(moved, view.end - begin);
        assert forall|other: int| #[trigger] after.get(other) == if other >= after.begin {
            view.get(other)
        } else {
            NOT_RECEIVED
        } by {
            assert(moved.adjusted(view.end - begin).get(other) == moved.get(other));
        }
        assert forall|other: int| view.begin <= other < after.begin implies other < sn
            && #[trigger] view.get(other) <= limit by {
            assert(view.at(other) <= limit);
        }
    }
}

/// The window after `sn` was added: it reaches up to the newest number that came, and back to where
/// it began or to `sn`, but never over more than 32768 numbers, where the newest ones count. Where
/// nothing of it is left, it begins with `sn`.
pub proof fn law_window_after_add(view: ArrivalView, sn: int, time: i64)
    requires
        view.valid(),
    ensures
        ({
            let after = view.add_packet(sn, time);
            let refused = view.capacity() != 0 && view.end - sn > 32768 && sn < view.begin;
            &&& view.capacity() == 0 ==> after.begin == sn && after.end == sn + 1
            &&& view.capacity() != 0 && !refused ==> after.end == if sn >= view.end {
                sn + 1
            } else {
                view.end
            }
            &&& view.capacity() != 0 && !refused && sn < view.begin ==> after.begin == sn
            &&& view.capacity() != 0 && view.begin <= sn < view.end ==> after.begin == view.begin
            &&& view.capacity() != 0 && sn >= view.end ==> after.begin == if sn + 1 >= view.end
                + 32768 {
                sn
            } else if sn + 1 - view.begin > 32768 {
                sn + 1 - 32768
            } else {
                view.begin
            }
        }),
{
}

/// What is found is the next packet that has arrived: nothing between where the search begins and it
/// has, and nothing is found exactly where none has.
pub proof fn law_next_arrival_is_found(view: ArrivalView, sn: int)
    requires
        view.valid(),
        view.begin <= view.end,
    ensures
        match view.find_next(sn) {
            Some((next, time)) => {
                &&& sn <= next < view.end
                &&& view.begin <= next
                &&& time == view.get(next)
                &&& time > NOT_RECEIVED
                &&& forall|other: int|
                    sn <= other < next ==> #[trigger] view.get(other) <= NOT_RECEIVED
            },
            None => forall|other: int| sn <= other ==> #[trigger] view.get(other) <= NOT_RECEIVED,
        },
{
    law_first_after(view, view.clamp(sn), view.end, NOT_RECEIVED);
}

/// Removing old packets goes as far as it may: it stops at `sn`, at the end, or at a packet that
/// arrived after the limit.
pub proof fn law_old_packets_are_removed(view: ArrivalView, sn: int, limit: i64)
    requires
        view.valid(),
        view.begin <= view.end,
    ensures
        ({
            let after = view.remove_old_packets(sn, limit);
            ||| after.begin >= sn
            ||| after.begin == view.end
            ||| view.get(after.begin) > limit
        }),
{
    let check_to = if sn < view.end {
        sn
    } else {
        view.end
    };
    if view.begin < check_to {
        law_first_after(view, view.begin, check_to, limit);
    }
}

} // verus!
