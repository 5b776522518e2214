//! Heap-allocation counting, for reports of allocations per packet or per message.
//!
//! Timing says how long the packet path takes; allocation counts say something of why. The
//! counters only ever grow, so the cost of a piece of work is the difference of two readings.

use vstd::prelude::*;

verus! {

/// Allocations made, and bytes requested by them.
#[derive(Debug, Clone, Copy, PartialEq, Eq, Structural)]
pub struct Allocations {
    /// How many allocations were made.
    pub count: u64,
    /// The bytes they requested.
    pub bytes: u64,
}

impl Default for Allocations {
    fn default() -> (none: Self)
        ensures
            none == (Allocations { count: 0, bytes: 0 }),
    {
        Allocations { count: 0, bytes: 0 }
    }
}

impl Allocations {
    /// Whether every total here has reached that of `earlier`.
    pub open spec fn follows(self, earlier: Allocations) -> bool {
        earlier.count <= self.count && earlier.bytes <= self.bytes
    }

    /// The totals of `self` and `other` together.
    pub open spec fn plus(self, other: Allocations) -> (int, int) {
        (self.count + other.count, self.bytes + other.bytes)
    }

    /// Whether totals can hold what `self` and `other` come to together.
    pub open spec fn fits_with(self, other: Allocations) -> bool {
        self.plus(other).0 <= u64::MAX && self.plus(other).1 <= u64::MAX
    }

    /// What was allocated since `earlier` was read.
    pub fn sub(self, earlier: Allocations) -> (since: Allocations)
        requires
            self.follows(earlier),
        ensures
            earlier.plus(since) == (self.count as int, self.bytes as int),
    {
        Allocations { count: self.count - earlier.count, bytes: self.bytes - earlier.bytes }
    }

    /// Adds what `other` counts.
    pub fn add_assign(&mut self, other: Allocations)
        requires
            old(self).fits_with(other),
        ensures
            old(self).plus(other) == (final(self).count as int, final(self).bytes as int),
    {
        self.count = self.count + other.count;
        self.bytes = self.bytes + other.bytes;
    }
}

/// The running totals of an allocator that counts every allocation it forwards.
///
/// Growing a buffer counts as an allocation, since it usually is one. Frees are not counted: this
/// measures allocation traffic, not retained memory.
#[derive(Debug, Clone, Copy, PartialEq, Eq, Structural)]
pub struct CountingAllocator {
    /// Allocations so far, counted modulo 2^64.
    pub count: u64,
    /// Bytes requested so far, counted modulo 2^64.
    pub bytes: u64,
}

impl Default for CountingAllocator {
    fn default() -> (allocator: Self)
        ensures
            allocator == (CountingAllocator { count: 0, bytes: 0 }),
    {
        CountingAllocator { count: 0, bytes: 0 }
    }
}

/// The totals after one more allocation.
pub open spec fn recorded(allocator: CountingAllocator, bytes: int) -> CountingAllocator {
    CountingAllocator {
        count: ((allocator.count + 1) % 0x1_0000_0000_0000_0000) as u64,
        bytes: ((allocator.bytes + bytes) % 0x1_0000_0000_0000_0000) as u64,
    }
}

impl CountingAllocator {
    /// Counts one allocation of `bytes` bytes. A total that runs over starts again from zero.
    pub fn record(&mut self, bytes: usize)
        ensures
            *final(self) == recorded(*old(self), bytes as int),
    {
        self.count = self.count.wrapping_add(1);
        self.bytes = self.bytes.wrapping_add(bytes as u64);
    }
}

/// The totals so far.
pub fn snapshot(allocator: &CountingAllocator) -> (totals: Allocations)
    ensures
        totals == (Allocations { count: allocator.count, bytes: allocator.bytes }),
{
    Allocations { count: allocator.count, bytes: allocator.bytes }
}

/// The totals after allocations of the given sizes.
pub open spec fn recorded_all(allocator: CountingAllocator, sizes: Seq<usize>) -> CountingAllocator
    decreases sizes.len(),
{
    if sizes.len() == 0 {
        allocator
    } else {
        recorded(recorded_all(allocator, sizes.drop_last()), sizes.last() as int)
    }
}

/// The sum of sizes.
pub open spec fn total(sizes: Seq<usize>) -> int
    decreases sizes.len(),
{
    if sizes.len() == 0 {
        0
    } else {
        total(sizes.drop_last()) + sizes.last()
    }
}

/// The difference of two readings is what was allocated between them: as many allocations as were
/// made, and their bytes, as long as no total ran over.
pub proof fn law_difference_is_what_was_made(allocator: CountingAllocator, sizes: Seq<usize>)
    requires
        allocator.count + sizes.len() <= u64::MAX,
        allocator.bytes + total(sizes) <= u64::MAX,
    ensures
        recorded_all(allocator, sizes).count - allocator.count == sizes.len(),
        recorded_all(allocator, sizes).bytes - allocator.bytes == total(sizes),
        total(sizes) >= 0,
    decreases sizes.len(),
{
    if sizes.len() > 0 {
        law_difference_is_what_was_made(allocator, sizes.drop_last());
    }
}

} // verus!
