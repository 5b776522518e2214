//! Points in time and lengths of time.
//!
//! Both are whole nanoseconds: an [`Instant`] counts them on one monotonic clock, from wherever
//! that clock begins.

use vstd::prelude::*;

verus! {

/// A point on the clock, in nanoseconds.
pub type Instant = u64;

/// A length of time, in nanoseconds.
pub type Duration = u64;

/// The nanoseconds in a millisecond.
pub const MILLISECOND: Duration = 1_000_000;

/// The nanoseconds in a second.
pub const SECOND: Duration = 1_000_000_000;

/// How long after `earlier` the instant `later` is, and nothing where it is not after it.
pub open spec fn since(later: Instant, earlier: Instant) -> Duration {
    if later >= earlier {
        (later - earlier) as u64
    } else {
        0
    }
}

} // verus!
