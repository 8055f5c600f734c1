//! The termination signal: a single shared flag, initially false, that
//! transitions false-to-true exactly once and never resets.
//!
//! The driver and every worker observe it to decide whether to start new
//! work; the worker that first sees an absent resource triggers it. This
//! module gives the signal's sequential contract; an embedding that shares
//! one signal between threads must provide the synchronisation itself (an
//! atomic flag with compare-and-set semantics) and gets the same behaviour,
//! because `trigger` is insensitive to the order in which racing calls land.

use vstd::prelude::*;

verus! {

/// A one-way boolean flag: once set, it stays set.
pub struct TerminationSignal {
    set: bool,
}

/// The state a signal is in after one `trigger`, whatever it held before.
pub closed spec fn triggered(s: TerminationSignal) -> TerminationSignal {
    TerminationSignal { set: true }
}

impl TerminationSignal {
    /// Whether the signal has been triggered.
    pub closed spec fn is_set(self) -> bool {
        self.set
    }

    /// A fresh signal, not yet triggered.
    pub fn new() -> (r: TerminationSignal)
        ensures
            !r.is_set(),
    {
        TerminationSignal { set: false }
    }

    /// Read the flag without changing it.
    pub fn observe(&self) -> (r: bool)
        ensures
            r == self.is_set(),
    {
        self.set
    }

    /// Set the flag. Calling this when the flag is already set is a no-op:
    /// the result does not depend on the previous state.
    pub fn trigger(&mut self)
        ensures
            *final(self) == triggered(*old(self)),
            final(self).is_set(),
    {
        self.set = true;
    }
}

/// Triggering is idempotent: a second trigger (and any later one) leaves the
/// signal exactly as the first did, and the signal reads true after any
/// number of triggers — it never flips back to false. Because `triggered`
/// ignores the prior state, any interleaving of concurrent triggers ends in
/// this same state.
pub proof fn lemma_trigger_idempotent(s: TerminationSignal)
    ensures
        triggered(triggered(s)) == triggered(s),
        triggered(s).is_set(),
{
}

} // verus!
