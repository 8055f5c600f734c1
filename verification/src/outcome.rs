//! The outcome of attempting to fetch one numbered resource, and the
//! spec-level functions that describe a whole sequence of outcomes.
//!
//! A resource source, asked for the resource at a given index, either hands
//! back its payload (`Found`), reports that no such resource exists
//! (`NotFound`), or fails in a way that says nothing about whether the
//! resource exists (`TransientFailure`).
//!
//! Throughout this crate a source is modelled as a sequence `outcomes` of
//! `FetchOutcome`: `outcomes[k]` is what the source answers for the index
//! `k + 1` (indices are one-based). Any index beyond the end of the sequence
//! is treated as absent.

use vstd::prelude::*;

verus! {

/// What the resource source answered for one index.
#[derive(Debug)]
pub enum FetchOutcome {
    /// The resource exists; its payload.
    Found(Vec<u8>),
    /// The resource does not exist. The sequence of resources ends strictly
    /// before this index.
    NotFound,
    /// The attempt failed without saying whether the resource exists.
    TransientFailure,
}

impl FetchOutcome {
    /// The payload of a `Found` outcome, or the empty sequence otherwise.
    pub open spec fn payload(self) -> Seq<u8> {
        match self {
            FetchOutcome::Found(p) => p@,
            _ => Seq::empty(),
        }
    }
}

/// Whether two outcomes say the same thing: the same classification, and
/// for `Found` the same payload bytes.
pub open spec fn outcome_equiv(a: FetchOutcome, b: FetchOutcome) -> bool {
    match (a, b) {
        (FetchOutcome::Found(p), FetchOutcome::Found(q)) => p@ == q@,
        (FetchOutcome::NotFound, FetchOutcome::NotFound) => true,
        (FetchOutcome::TransientFailure, FetchOutcome::TransientFailure) => true,
        _ => false,
    }
}

/// The zero-based position of the first `NotFound` in `outcomes`, or
/// `outcomes.len()` if there is none. Since a position past the end of the
/// sequence counts as absent, this is the number of indices the driver
/// attempts before the terminating one: the boundary index (one-based) is
/// `first_absent(outcomes) + 1`.
pub open spec fn first_absent(outcomes: Seq<FetchOutcome>) -> int
    decreases outcomes.len(),
{
    if outcomes.len() == 0 {
        0
    } else if outcomes[0] is NotFound {
        0
    } else {
        1 + first_absent(outcomes.drop_first())
    }
}

/// Concatenation, in index order, of the payloads of the `Found` outcomes
/// among the first `k` positions of `outcomes`. Positions whose outcome is
/// `TransientFailure` contribute nothing: they are gaps, not terminators.
pub open spec fn concat_found(outcomes: Seq<FetchOutcome>, k: int) -> Seq<u8>
    decreases k,
{
    if k <= 0 {
        Seq::empty()
    } else if k > outcomes.len() {
        concat_found(outcomes, outcomes.len() as int)
    } else {
        concat_found(outcomes, k - 1) + outcomes[k - 1].payload()
    }
}

/// The one-based indices, in increasing order, of the `TransientFailure`
/// outcomes among the first `k` positions of `outcomes`.
pub open spec fn transient_indices(outcomes: Seq<FetchOutcome>, k: int) -> Seq<u64>
    decreases k,
{
    if k <= 0 {
        Seq::empty()
    } else if k > outcomes.len() {
        transient_indices(outcomes, outcomes.len() as int)
    } else if outcomes[k - 1] is TransientFailure {
        transient_indices(outcomes, k - 1).push(k as u64)
    } else {
        transient_indices(outcomes, k - 1)
    }
}

/// The one-based indices, in increasing order, of the `Found` outcomes among
/// the first `k` positions of `outcomes`.
pub open spec fn found_indices(outcomes: Seq<FetchOutcome>, k: int) -> Seq<u64>
    decreases k,
{
    if k <= 0 {
        Seq::empty()
    } else if k > outcomes.len() {
        found_indices(outcomes, outcomes.len() as int)
    } else if outcomes[k - 1] is Found {
        found_indices(outcomes, k - 1).push(k as u64)
    } else {
        found_indices(outcomes, k - 1)
    }
}

/// `first_absent` is never past the end of the sequence, and everything
/// before it is not `NotFound`.
pub proof fn lemma_first_absent(outcomes: Seq<FetchOutcome>)
    ensures
        0 <= first_absent(outcomes) <= outcomes.len(),
        forall|i: int| 0 <= i < first_absent(outcomes) ==> !(outcomes[i] is NotFound),
        first_absent(outcomes) < outcomes.len() ==> outcomes[first_absent(outcomes)] is NotFound,
    decreases outcomes.len(),
{
    if outcomes.len() > 0 && !(outcomes[0] is NotFound) {
        lemma_first_absent(outcomes.drop_first());
        assert forall|i: int| 0 <= i < first_absent(outcomes) implies !(outcomes[i] is NotFound) by {
            if i > 0 {
                assert(outcomes.drop_first()[i - 1] == outcomes[i]);
            }
        }
        if first_absent(outcomes) < outcomes.len() {
            assert(outcomes.drop_first()[first_absent(outcomes) - 1] == outcomes[first_absent(outcomes)]);
        }
    }
}

} // verus!
