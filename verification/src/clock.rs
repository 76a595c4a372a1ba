//! The node's own scalar logical clock.

use vstd::prelude::*;

verus! {

/// The value a logical clock takes after observing `observed`: one past the
/// larger of the current value and the observation (Lamport's rule).
pub open spec fn advanced(current: u64, observed: u64) -> int {
    if current >= observed {
        current + 1
    } else {
        observed + 1
    }
}

/// This node's logical clock. It only ever moves forward.
pub struct ClockState {
    pub value: u64,
}

impl ClockState {
    /// A fresh clock, starting at zero.
    pub fn new() -> (c: ClockState)
        ensures
            c.value == 0,
    {
        ClockState { value: 0 }
    }

    /// Advances the clock past an observed timestamp and returns the new
    /// value. Used both when admitting a remote message (with the message's
    /// timestamp) and when stamping a locally generated one (with the current
    /// clock, a plain increment).
    pub fn advance_on_event(&mut self, observed: u64) -> (t: u64)
        requires
            old(self).value < u64::MAX,
            observed < u64::MAX,
        ensures
            final(self).value == advanced(old(self).value, observed),
            t == final(self).value,
            final(self).value > old(self).value,
            final(self).value > observed,
    {
        let base = if self.value >= observed {
            self.value
        } else {
            observed
        };
        self.value = base + 1;
        self.value
    }
}

} // verus!
