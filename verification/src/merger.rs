//! The merger: turns the drained result collector into the final artifact.
//!
//! It walks the indices in ascending order, starting at 1 and stopping
//! strictly before the boundary (the smallest index that produced
//! `NotFound`), and concatenates the payloads stored for them. An index
//! with no stored payload contributes nothing; an index at or beyond the
//! boundary is discarded even if a payload was stored for it — a worker
//! spawned in the race right after the boundary was found may still have
//! completed and inserted one, and the artifact must stay a contiguous run.
//! The merger never runs concurrently with workers: it takes the collector
//! after the full drain.

use vstd::prelude::*;

use crate::collector::ResultSet;

verus! {

/// Concatenation, in ascending index order, of the payloads that `m` stores
/// for the indices `1 .. bound` (exclusive). Indices without a payload are
/// skipped; indices at or beyond `bound` are ignored.
pub open spec fn concat_below(m: Map<u64, Seq<u8>>, bound: int) -> Seq<u8>
    decreases bound,
{
    if bound <= 1 {
        Seq::empty()
    } else {
        concat_below(m, bound - 1) + (if m.contains_key((bound - 1) as u64) {
            m[(bound - 1) as u64]
        } else {
            Seq::empty()
        })
    }
}

/// A payload stored at or beyond the bound never reaches the artifact: the
/// merge of a collector with such an entry equals the merge without it.
pub proof fn lemma_concat_below_ignores_beyond(
    m: Map<u64, Seq<u8>>,
    bound: int,
    k: u64,
    p: Seq<u8>,
)
    requires
        k >= bound,
    ensures
        concat_below(m.insert(k, p), bound) == concat_below(m, bound),
    decreases bound,
{
    if bound > 1 {
        lemma_concat_below_ignores_beyond(m, bound - 1, k, p);
    }
}

/// Assemble the final artifact from the drained collector: the payloads of
/// the indices `1 .. boundary`, concatenated in ascending index order.
pub fn merge(results: &ResultSet, boundary: u64) -> (artifact: Vec<u8>)
    requires
        results.wf(),
    ensures
        artifact@ == concat_below(results@, boundary as int),
{
    let mut artifact: Vec<u8> = Vec::new();
    let mut idx: u64 = 1;
    while idx < boundary
        invariant
            results.wf(),
            1 <= idx,
            idx <= boundary || (boundary == 0 && idx == 1),
            artifact@ == concat_below(results@, idx as int),
        decreases boundary - idx,
    {
        match results.get(idx) {
            Some(payload) => {
                artifact.extend_from_slice(payload.as_slice());
                proof {
                    assert(artifact@ =~= concat_below(results@, idx as int + 1));
                }
            },
            None => {
                proof {
                    assert(artifact@ =~= concat_below(results@, idx as int + 1));
                }
            },
        }
        idx = idx + 1;
    }
    proof {
        if boundary == 0 {
            assert(concat_below(results@, 0) =~= concat_below(results@, 1));
        }
    }
    artifact
}

} // verus!
