//! The concurrency slot limiter: bounds how many fetches are in flight at once.
//!
//! A slot must be acquired before a fetch starts and released when the
//! worker finishes (or declines to work). The bound `max_slots` is a
//! positive integer fixed at construction. This module models the limiter's
//! accounting; an embedding that blocks callers until a slot frees (a
//! counting semaphore) must enforce `acquire`'s precondition by waiting.

use vstd::prelude::*;

verus! {

/// Slot accounting for a bounded number of concurrent fetches.
pub struct SlotLimiter {
    max_slots: usize,
    held: usize,
}

impl SlotLimiter {
    /// How many slots are currently held.
    pub closed spec fn held_slots(self) -> nat {
        self.held as nat
    }

    /// The bound supplied at construction.
    pub closed spec fn max(self) -> nat {
        self.max_slots as nat
    }

    /// The limiter never hands out more slots than its bound.
    pub open spec fn wf(self) -> bool {
        self.held_slots() <= self.max() && self.max() >= 1
    }

    /// A limiter with `max_slots` slots, none held. `max_slots` must be
    /// positive; validating a configuration that may say zero is the
    /// caller's job.
    pub fn new(max_slots: usize) -> (r: SlotLimiter)
        requires
            max_slots >= 1,
        ensures
            r.wf(),
            r.max() == max_slots,
            r.held_slots() == 0,
    {
        SlotLimiter { max_slots, held: 0 }
    }

    /// Whether a slot is free right now.
    pub fn has_free_slot(&self) -> (r: bool)
        ensures
            r == (self.held_slots() < self.max()),
    {
        self.held < self.max_slots
    }

    /// Take one slot. A caller that finds no slot free must wait until one
    /// is released; it may not acquire past the bound.
    pub fn acquire(&mut self)
        requires
            old(self).wf(),
            old(self).held_slots() < old(self).max(),
        ensures
            final(self).wf(),
            final(self).held_slots() == old(self).held_slots() + 1,
            final(self).max() == old(self).max(),
    {
        self.held = self.held + 1;
    }

    /// Give one slot back.
    pub fn release(&mut self)
        requires
            old(self).wf(),
            old(self).held_slots() >= 1,
        ensures
            final(self).wf(),
            final(self).held_slots() == old(self).held_slots() - 1,
            final(self).max() == old(self).max(),
    {
        self.held = self.held - 1;
    }
}

} // verus!
