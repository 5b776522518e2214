//! Anti-replay: a window over the record numbers of an epoch.

use vstd::prelude::*;

verus! {

/// What a detector remembers.
#[verifier::ext_equal]
pub struct ReplayView {
    /// The highest number that was accepted, or 0.
    pub latest: u64,
    /// The highest number there is.
    pub max_seq: u64,
    /// How far behind the highest a number may be.
    pub window: nat,
    /// The numbers in the window that were accepted.
    pub accepted: Set<u64>,
}

impl ReplayView {
    /// A detector that has seen nothing.
    pub open spec fn unused(window: nat, max_seq: u64) -> ReplayView {
        ReplayView { latest: 0, max_seq, window, accepted: Set::empty() }
    }

    /// Whether a number has not been accepted yet, as far as the window reaches.
    pub open spec fn fresh(self, seq: u64) -> bool {
        &&& seq <= self.max_seq
        &&& seq > self.latest || (self.latest < self.window + seq && !self.accepted.contains(seq))
    }

    /// The detector once `seq` was accepted.
    pub open spec fn accept(self, seq: u64) -> ReplayView {
        let latest = if seq > self.latest {
            seq
        } else {
            self.latest
        };
        ReplayView {
            latest,
            accepted: self.accepted.insert(seq).filter(|s: u64| latest < self.window + s),
            ..self
        }
    }

    /// What is remembered lies in the window.
    pub open spec fn valid(self) -> bool {
        forall|s: u64| #[trigger]
            self.accepted.contains(s) ==> s <= self.latest < self.window + s
    }
}

/// A number that was accepted is not fresh again.
pub proof fn law_accepted_is_not_fresh(detector: ReplayView, seq: u64)
    requires
        detector.valid(),
    ensures
        detector.accept(seq).valid(),
        !detector.accept(seq).fresh(seq),
{
    assert forall|s: u64| #[trigger] detector.accept(seq).accepted.contains(s) implies s
        <= detector.accept(seq).latest < detector.window + s by {
        if s != seq {
            assert(detector.accepted.contains(s));
        }
    }
}

/// Accepting another number makes no number fresh again.
pub proof fn law_stale_stays_stale(detector: ReplayView, seq: u64, other: u64)
    requires
        !detector.fresh(seq),
    ensures
        !detector.accept(other).fresh(seq),
{
}

/// A number that was not accepted stays fresh, whatever else is accepted, until the window has moved
/// past it.
pub proof fn law_fresh_stays_fresh(detector: ReplayView, seq: u64, other: u64)
    requires
        detector.valid(),
        detector.fresh(seq),
        seq != other,
        other < detector.window + seq,
    ensures
        detector.accept(other).fresh(seq),
{
}

/// A number is not fresh once the window has moved past it, or where it is greater than the highest
/// there is.
pub proof fn law_window_moves_past(detector: ReplayView, seq: u64, other: u64)
    requires
        seq > detector.max_seq || other >= detector.window + seq,
    ensures
        !detector.accept(other).fresh(seq),
{
}

/// Before anything was accepted, every number up to the highest there is is fresh.
pub proof fn law_all_is_fresh_at_first(window: nat, max_seq: u64, seq: u64)
    requires
        window > 0,
    ensures
        ReplayView::unused(window, max_seq).fresh(seq) <==> seq <= max_seq,
{
}

/// A sliding window over record numbers.
pub struct SlidingWindowDetector {
    latest: u64,
    max_seq: u64,
    /// Whether the number so far behind the latest was accepted.
    mask: Vec<bool>,
}

impl View for SlidingWindowDetector {
    type V = ReplayView;

    closed spec fn view(&self) -> ReplayView {
        ReplayView {
            latest: self.latest,
            max_seq: self.max_seq,
            window: self.mask@.len(),
            accepted: Set::new(
                |s: u64| s <= self.latest && self.latest - s < self.mask@.len() && self.mask@[self.latest - s],
            ),
        }
    }
}

impl SlidingWindowDetector {
    /// A detector that has seen nothing.
    pub fn new(window_size: usize, max_seq: u64) -> (detector: SlidingWindowDetector)
        ensures
            detector@ == ReplayView::unused(window_size as nat, max_seq),
    {
        let mut mask: Vec<bool> = Vec::new();
        let mut i: usize = 0;
        while i < window_size
            invariant
                i <= window_size,
                mask@.len() == i,
                forall|j: int| 0 <= j < i ==> !(#[trigger] mask@[j]),
            decreases window_size - i,
        {
            mask.push(false);
            i += 1;
        }
        let detector = SlidingWindowDetector { latest: 0, max_seq, mask };
        assert(detector@.accepted =~= Set::empty());
        detector
    }

    /// Whether a number has not been accepted yet, as far as the window reaches.
    pub fn check(&self, seq: u64) -> (fresh: bool)
        ensures
            fresh == self@.fresh(seq),
    {
        if seq > self.max_seq {
            return false;
        }
        if seq <= self.latest {
            let behind: u64 = self.latest - seq;
            if behind >= self.mask.len() as u64 {
                return false;
            }
            if self.mask[behind as usize] {
                return false;
            }
        }
        true
    }

    /// Remembers a number.
    pub fn accept(&mut self, seq: u64)
        ensures
            final(self)@ == old(self)@.accept(seq),
    {
        let ghost before = self@;
        let ghost bits = self.mask@;
        let ghost was = self.latest;
        let len: usize = self.mask.len();
        if seq > self.latest {
            let ahead: u64 = seq - self.latest;
            let mut mask: Vec<bool> = Vec::new();
            let mut i: usize = 0;
            while i < len
                invariant
                    i <= len,
                    len == self.mask@.len(),
                    bits == self.mask@,
                    mask@.len() == i,
                    forall|j: int|
                        0 <= j < i ==> #[trigger] mask@[j] == (j >= ahead && bits[j - ahead]),
                decreases len - i,
            {
                if i as u64 >= ahead {
                    mask.push(self.mask[i - ahead as usize]);
                } else {
                    mask.push(false);
                }
                i += 1;
            }
            self.mask = mask;
            self.latest = seq;
        }
        let behind: u64 = self.latest - seq;
        if behind < len as u64 {
            self.mask.set(behind as usize, true);
        }
        proof {
            let after = before.accept(seq);
            assert forall|s: u64| self@.accepted.contains(s) == after.accepted.contains(s) by {
                if s <= self.latest && self.latest - s < len {
                    let d = self.latest - s;
                    if s <= was {
                        assert(before.accepted.contains(s) == (was - s < len && bits[was - s]));
                    }
                }
            }
            assert(self@.accepted =~= after.accepted);
        }
    }
}

} // verus!
