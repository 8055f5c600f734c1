//! The driver, the workers and their shared state, as one explicit state
//! machine over a fixed resource source.
//!
//! A `FetchRun` holds everything the concurrent system shares: the limiter, the
//! termination signal, the result collector, the recorded boundary and the
//! transient-failure report, together with the driver's issue counter and
//! the set of workers in flight. Two operations move it forward:
//!
//! - [`FetchRun::spawn`] is the driver issuing the next index: it takes a
//!   limiter slot and starts a worker — unless the termination signal is
//!   already set, in which case the issued worker declines the fetch and
//!   gives its slot straight back (the race where the driver spawns past
//!   the boundary before observing the signal).
//! - [`FetchRun::complete`] is any one in-flight worker finishing: its fetch
//!   is answered by the source, and the worker records the outcome — a
//!   payload into the collector and the cache record on `Found`, the signal
//!   and the boundary on `NotFound`, the report on `TransientFailure`.
//!
//! Which worker completes at each step is the caller's choice: any
//! interleaving of these two operations models one possible scheduling of
//! the real concurrent run. The central theorem is the postcondition of
//! [`FetchRun::finish`]: once drained, *every* interleaving yields the same
//! final artifact — the payloads of the contiguous indices up to the first
//! absent resource, in order. [`run_fetch`] drives one schedule to the end
//! and is the deterministic embodiment of a whole run.

use vstd::prelude::*;

use crate::collector::ResultSet;
use crate::config::ConfigError;
use crate::limiter::SlotLimiter;
use crate::merger::{concat_below, merge};
use crate::outcome::{concat_found, first_absent, found_indices, lemma_first_absent, outcome_equiv, transient_indices, FetchOutcome};
use crate::signal::TerminationSignal;

verus! {

/// What the source answers when one-based index `i` is fetched: the recorded
/// outcome while `i` is within the source, and `NotFound` beyond its end.
pub open spec fn source_answer(outcomes: Seq<FetchOutcome>, i: u64) -> FetchOutcome {
    if 1 <= i && i <= outcomes.len() {
        outcomes[i - 1]
    } else {
        FetchOutcome::NotFound
    }
}

/// The shared state of one fetch run over a fixed source.
pub struct FetchRun {
    /// The source's answer for each index, `source[k]` answering `k + 1`;
    /// indices beyond the end are absent.
    source: Vec<FetchOutcome>,
    limiter: SlotLimiter,
    next_index: u64,
    in_flight: Vec<u64>,
    signal: TerminationSignal,
    results: ResultSet,
    /// Indices whose payload was written to the cache sink, in write order.
    cached: Vec<u64>,
    /// The smallest index observed to be absent, once any is.
    boundary: Option<u64>,
    /// Indices whose fetch failed transiently, in completion order.
    transients: Vec<u64>,
    /// Which issued indices have completed their worker.
    completed: Ghost<Set<u64>>,
    /// Which issued indices were declined because the signal was already set.
    skipped: Ghost<Set<u64>>,
}

impl FetchRun {
    /// The source's outcomes, index `i` answered by position `i - 1`.
    pub closed spec fn outcomes(self) -> Seq<FetchOutcome> {
        self.source@
    }

    /// The next index the driver will issue.
    pub closed spec fn next(self) -> u64 {
        self.next_index
    }

    /// The indices issued so far whose workers have neither completed nor
    /// been skipped, in issue order.
    pub closed spec fn in_flight_seq(self) -> Seq<u64> {
        self.in_flight@
    }

    /// Whether the termination signal has been triggered.
    pub closed spec fn signal_set(self) -> bool {
        self.signal.is_set()
    }

    /// The payloads collected so far, by index.
    pub closed spec fn results_map(self) -> Map<u64, Seq<u8>> {
        self.results@
    }

    /// The indices cached so far, in write order.
    pub closed spec fn cached_seq(self) -> Seq<u64> {
        self.cached@
    }

    /// The smallest index observed absent, once any is.
    pub closed spec fn boundary_found(self) -> Option<u64> {
        self.boundary
    }

    /// The transiently failed indices, in completion order.
    pub closed spec fn transients_seq(self) -> Seq<u64> {
        self.transients@
    }

    /// The indices whose worker has completed.
    pub closed spec fn completed_set(self) -> Set<u64> {
        self.completed@
    }

    /// The indices issued while the signal was already set, whose workers
    /// declined to fetch.
    pub closed spec fn skipped_set(self) -> Set<u64> {
        self.skipped@
    }

    /// The bound on simultaneous fetches.
    pub closed spec fn max_concurrency(self) -> nat {
        self.limiter.max()
    }

    /// Everything the run's operations preserve. In particular: in-flight
    /// workers hold exactly the limiter's slots, so at most `max_concurrency`
    /// fetches are ever in flight; every issued index is in flight,
    /// completed, or skipped, and the three never overlap; the signal is set
    /// exactly when some completed index was absent; the boundary is the
    /// smallest completed absent index; the collector holds exactly the
    /// payloads of the completed present indices; the cache was written for
    /// exactly the collected indices; the report lists exactly the completed
    /// transient indices; and an index is only ever skipped when a smaller
    /// one was already observed absent.
    pub closed spec fn wf(self) -> bool {
        &&& self.limiter.wf()
        &&& self.results.wf()
        &&& self.next() >= 1
        &&& self.limiter.held_slots() == self.in_flight_seq().len()
        &&& self.in_flight_seq().len() <= self.max_concurrency()
        &&& forall|p: int, q: int|
            0 <= p < q < self.in_flight_seq().len() ==> self.in_flight_seq()[p]
                != self.in_flight_seq()[q]
        &&& forall|i: u64| self.in_flight_seq().contains(i) ==> 1 <= i < self.next()
        &&& forall|i: u64| self.completed_set().contains(i) ==> 1 <= i < self.next()
        &&& forall|i: u64| self.skipped_set().contains(i) ==> 1 <= i < self.next()
        &&& forall|i: u64|
            !(self.in_flight_seq().contains(i) && self.completed_set().contains(i))
        &&& forall|i: u64| !(self.in_flight_seq().contains(i) && self.skipped_set().contains(i))
        &&& forall|i: u64| !(self.completed_set().contains(i) && self.skipped_set().contains(i))
        &&& forall|i: u64|
            1 <= i < self.next() ==> self.in_flight_seq().contains(i)
                || self.completed_set().contains(i) || self.skipped_set().contains(i)
        &&& (self.signal_set() <==> exists|b: u64|
            self.completed_set().contains(b) && source_answer(self.outcomes(), b) is NotFound)
        &&& match self.boundary_found() {
            None => !self.signal_set(),
            Some(b) => {
                &&& self.signal_set()
                &&& self.completed_set().contains(b)
                &&& source_answer(self.outcomes(), b) is NotFound
                &&& forall|b2: u64|
                    self.completed_set().contains(b2) && source_answer(self.outcomes(), b2)
                        is NotFound ==> b <= b2
            },
        }
        &&& forall|i: u64|
            self.skipped_set().contains(i) ==> exists|b: u64|
                self.completed_set().contains(b) && source_answer(self.outcomes(), b) is NotFound
                    && b < i
        &&& forall|i: u64|
            #![trigger self.results_map().contains_key(i)]
            self.results_map().contains_key(i) <==> (self.completed_set().contains(i)
                && source_answer(self.outcomes(), i) is Found)
        &&& forall|i: u64|
            self.results_map().contains_key(i) ==> self.results_map()[i] == source_answer(
                self.outcomes(),
                i,
            ).payload()
        &&& forall|k: u64| self.cached_seq().contains(k) <==> self.results_map().contains_key(k)
        &&& forall|p: int, q: int|
            0 <= p < q < self.cached_seq().len() ==> self.cached_seq()[p] != self.cached_seq()[q]
        &&& forall|j: int|
            0 <= j < self.transients_seq().len() ==> self.completed_set().contains(
                self.transients_seq()[j],
            ) && source_answer(self.outcomes(), self.transients_seq()[j]) is TransientFailure
        &&& forall|i: u64|
            self.completed_set().contains(i) && source_answer(self.outcomes(), i)
                is TransientFailure ==> self.transients_seq().contains(i)
        &&& forall|p: int, q: int|
            0 <= p < q < self.transients_seq().len() ==> self.transients_seq()[p]
                != self.transients_seq()[q]
    }

    /// The limiter's bound is never exceeded: in every reachable state of a
    /// run, the number of fetches in flight is at most `max_concurrency`.
    pub proof fn lemma_slot_bound(self)
        requires
            self.wf(),
        ensures
            self.in_flight_seq().len() <= self.max_concurrency(),
    {
    }

    /// Set up a run over `source` with at most `max_concurrency` fetches in
    /// flight. A bound of zero is a configuration error, rejected before any
    /// work starts.
    pub fn new(source: Vec<FetchOutcome>, max_concurrency: usize) -> (r: Result<FetchRun, ConfigError>)
        ensures
            match r {
                Ok(run) => {
                    &&& max_concurrency >= 1
                    &&& run.wf()
                    &&& run.outcomes() == source@
                    &&& run.next() == 1
                    &&& run.in_flight_seq() == Seq::<u64>::empty()
                    &&& !run.signal_set()
                    &&& run.results_map() == Map::<u64, Seq<u8>>::empty()
                    &&& run.cached_seq() == Seq::<u64>::empty()
                    &&& run.boundary_found() is None
                    &&& run.transients_seq() == Seq::<u64>::empty()
                    &&& run.completed_set() == Set::<u64>::empty()
                    &&& run.skipped_set() == Set::<u64>::empty()
                    &&& run.max_concurrency() == max_concurrency
                },
                Err(e) => max_concurrency == 0 && e is ZeroMaxConcurrency,
            },
    {
        if max_concurrency == 0 {
            return Err(ConfigError::ZeroMaxConcurrency);
        }
        let run = FetchRun {
            source,
            limiter: SlotLimiter::new(max_concurrency),
            next_index: 1,
            in_flight: Vec::new(),
            signal: TerminationSignal::new(),
            results: ResultSet::new(),
            cached: Vec::new(),
            boundary: None,
            transients: Vec::new(),
            completed: Ghost(Set::empty()),
            skipped: Ghost(Set::empty()),
        };
        Ok(run)
    }

    /// Whether the limiter has a free slot, so the driver may issue an index.
    pub fn can_spawn(&self) -> (r: bool)
        requires
            self.wf(),
        ensures
            r == (self.in_flight_seq().len() < self.max_concurrency()),
    {
        self.limiter.has_free_slot()
    }

    /// Whether the termination signal has been observed set.
    pub fn observe_signal(&self) -> (r: bool)
        ensures
            r == self.signal_set(),
    {
        self.signal.observe()
    }

    /// How many workers are in flight.
    pub fn in_flight_count(&self) -> (r: usize)
        ensures
            r == self.in_flight_seq().len(),
    {
        self.in_flight.len()
    }

    /// The driver issues the next index: it acquires a limiter slot and starts
    /// a worker for it. The started worker first observes the signal; if the
    /// signal is already set, it declines the fetch and releases its slot at
    /// once — the issued index is then skipped, never fetched. The driver
    /// normally stops issuing when it observes the signal, but issuing past
    /// it is harmless, which is exactly what this models.
    #[verifier::rlimit(100)]
    pub fn spawn(&mut self)
        requires
            old(self).wf(),
            old(self).in_flight_seq().len() < old(self).max_concurrency(),
            old(self).next() < u64::MAX,
        ensures
            final(self).wf(),
            final(self).outcomes() == old(self).outcomes(),
            final(self).max_concurrency() == old(self).max_concurrency(),
            final(self).next() == old(self).next() + 1,
            final(self).signal_set() == old(self).signal_set(),
            final(self).results_map() == old(self).results_map(),
            final(self).cached_seq() == old(self).cached_seq(),
            final(self).boundary_found() == old(self).boundary_found(),
            final(self).transients_seq() == old(self).transients_seq(),
            final(self).completed_set() == old(self).completed_set(),
            if old(self).signal_set() {
                final(self).in_flight_seq() == old(self).in_flight_seq()
                    && final(self).skipped_set() == old(self).skipped_set().insert(old(self).next())
            } else {
                final(self).in_flight_seq() == old(self).in_flight_seq().push(old(self).next())
                    && final(self).skipped_set() == old(self).skipped_set()
            },
    {
        let index = self.next_index;
        self.next_index = self.next_index + 1;
        self.limiter.acquire();
        proof {
            assert forall|i: u64| self.completed@.contains(i) implies 1 <= i
                < self.next_index by {
                assert(old(self).completed_set().contains(i));
            }
        }
        if self.signal.observe() {
            // The worker saw the signal: decline the fetch, give the slot back.
            self.limiter.release();
            proof {
                self.skipped@ = self.skipped@.insert(index);
                assert(old(self).signal_set());
                let b = choose|b: u64|
                    old(self).completed_set().contains(b) && source_answer(
                        old(self).outcomes(),
                        b,
                    ) is NotFound;
                assert(self.completed_set().contains(b) && source_answer(self.outcomes(), b)
                    is NotFound);
                assert(b < index);
                assert(self.signal_set());
                assert(!old(self).completed_set().contains(index));
                assert(!old(self).skipped_set().contains(index));
                assert(!old(self).in_flight_seq().contains(index));
                assert forall|i: u64| !(self.completed@.contains(i)
                    && self.skipped@.contains(i)) by {
                    if i == index {
                        assert(!old(self).completed_set().contains(index));
                    } else {
                        assert(!(old(self).completed_set().contains(i) && old(
                            self,
                        ).skipped_set().contains(i)));
                    }
                }
                assert forall|i: u64| !(self.in_flight@.contains(i)
                    && self.skipped@.contains(i)) by {
                    if i == index {
                        assert(!old(self).in_flight_seq().contains(index));
                    } else {
                        assert(!(old(self).in_flight_seq().contains(i) && old(
                            self,
                        ).skipped_set().contains(i)));
                    }
                }
                assert forall|i: u64| self.skipped@.contains(i) implies 1 <= i
                    < self.next_index by {
                    if i != index {
                        assert(old(self).skipped_set().contains(i));
                    }
                }
                assert forall|i: u64| self.skipped@.contains(i) implies exists|b2: u64|
                    self.completed@.contains(b2) && source_answer(self.source@, b2) is NotFound
                        && b2 < i by {
                    if i == index {
                        assert(self.completed@.contains(b) && source_answer(self.source@, b)
                            is NotFound && b < i);
                    } else {
                        assert(old(self).skipped_set().contains(i));
                    }
                }
                assert forall|i: u64| 1 <= i < self.next_index implies self.in_flight@.contains(i)
                    || self.completed@.contains(i) || self.skipped@.contains(i) by {
                    if i < index {
                        assert(old(self).in_flight_seq().contains(i) || old(
                            self,
                        ).completed_set().contains(i) || old(self).skipped_set().contains(i));
                    }
                }
            }
        } else {
            proof {
                assert forall|i: u64| self.in_flight@.contains(i) implies i < index by {
                    assert(old(self).in_flight_seq().contains(i));
                }
            }
            self.in_flight.push(index);
            proof {
                assert(!self.signal_set());
                assert forall|b2: u64| !(self.completed_set().contains(b2) && source_answer(
                    self.outcomes(),
                    b2,
                ) is NotFound) by {
                    assert(!(old(self).completed_set().contains(b2) && source_answer(
                        old(self).outcomes(),
                        b2,
                    ) is NotFound));
                }
                assert(!old(self).skipped_set().contains(index));
                assert forall|i: u64| self.skipped@.contains(i) implies 1 <= i
                    < self.next_index by {
                    assert(old(self).skipped_set().contains(i));
                }
                assert forall|p: int, q: int|
                    0 <= p < q < self.in_flight@.len() implies self.in_flight@[p]
                        != self.in_flight@[q] by {
                    if q == self.in_flight@.len() - 1 {
                        assert(old(self).in_flight@.contains(old(self).in_flight@[p]));
                    }
                }
                assert forall|i: u64| self.in_flight@.contains(i) implies 1 <= i
                    < self.next_index by {
                    if i != index {
                        let p = choose|p: int|
                            0 <= p < self.in_flight@.len() && self.in_flight@[p] == i;
                        assert(old(self).in_flight@.contains(i));
                    }
                }
                assert forall|i: u64| !(self.in_flight@.contains(i)
                    && self.completed@.contains(i)) by {
                    if i == index {
                        assert(!old(self).completed_set().contains(index));
                    } else if self.in_flight@.contains(i) {
                        let p = choose|p: int|
                            0 <= p < self.in_flight@.len() && self.in_flight@[p] == i;
                        if p < self.in_flight@.len() - 1 {
                            assert(old(self).in_flight@.contains(i));
                            assert(!old(self).completed_set().contains(i));
                        }
                    }
                }
                assert forall|i: u64| !(self.in_flight@.contains(i)
                    && self.skipped@.contains(i)) by {
                    if i == index {
                        assert(!old(self).skipped_set().contains(index));
                    } else if self.in_flight@.contains(i) {
                        let p = choose|p: int|
                            0 <= p < self.in_flight@.len() && self.in_flight@[p] == i;
                        if p < self.in_flight@.len() - 1 {
                            assert(old(self).in_flight@.contains(i));
                            assert(!old(self).skipped_set().contains(i));
                        }
                    }
                }
                assert forall|i: u64| 1 <= i < self.next_index implies self.in_flight@.contains(i)
                    || self.completed@.contains(i) || self.skipped@.contains(i) by {
                    if i == index {
                        assert(self.in_flight@.last() == index);
                        assert(self.in_flight@.contains(index));
                    } else {
                        if old(self).in_flight@.contains(i) {
                            let p = choose|p: int|
                                0 <= p < old(self).in_flight@.len() && old(self).in_flight@[p]
                                    == i;
                            assert(self.in_flight@[p] == i);
                            assert(self.in_flight@.contains(i));
                        }
                    }
                }
            }
        }
        proof {
            assert(self.results_map() == old(self).results_map());
            assert(self.completed_set() == old(self).completed_set());
            assert(self.outcomes() == old(self).outcomes());
            assert(self.cached_seq() == old(self).cached_seq());
            assert(self.transients_seq() == old(self).transients_seq());
            assert forall|i: u64| self.results_map().contains_key(i) <==> (
            self.completed_set().contains(i) && source_answer(self.outcomes(), i)
                is Found) by {
                assert(old(self).results_map().contains_key(i) <==> (old(
                    self,
                ).completed_set().contains(i) && source_answer(old(self).outcomes(), i) is Found));
            }
            assert forall|i: u64| self.results_map().contains_key(i) implies self.results_map()[i]
                == source_answer(self.outcomes(), i).payload() by {
                assert(old(self).results_map().contains_key(i));
            }
            assert forall|k: u64| self.cached_seq().contains(k) <==> self.results_map().contains_key(
                k,
            ) by {
                assert(old(self).cached_seq().contains(k) <==> old(self).results_map().contains_key(
                    k,
                ));
            }
            assert forall|j: int| 0 <= j < self.transients_seq().len() implies
            self.completed_set().contains(self.transients_seq()[j]) && source_answer(
                self.outcomes(),
                self.transients_seq()[j],
            ) is TransientFailure by {
                assert(old(self).completed_set().contains(old(self).transients_seq()[j])
                    && source_answer(old(self).outcomes(), old(self).transients_seq()[j])
                    is TransientFailure);
            }
            assert forall|i: u64| self.completed_set().contains(i) && source_answer(
                self.outcomes(),
                i,
            ) is TransientFailure implies self.transients_seq().contains(i) by {
                assert(old(self).transients_seq().contains(i));
            }
            match self.boundary {
                None => {
                    assert(!old(self).signal_set());
                },
                Some(b) => {
                    assert(old(self).completed_set().contains(b));
                    assert forall|b2: u64| self.completed_set().contains(b2) && source_answer(
                        self.outcomes(),
                        b2,
                    ) is NotFound implies b <= b2 by {
                        assert(old(self).completed_set().contains(b2) && source_answer(
                            old(self).outcomes(),
                            b2,
                        ) is NotFound);
                    }
                },
            }
        }
    }

    /// One worker's fetch, answered by the run's own source: the recorded
    /// outcome for `i`, or `NotFound` beyond the source's end.
    fn fetch_outcome(&self, i: u64) -> (r: FetchOutcome)
        requires
            1 <= i,
        ensures
            outcome_equiv(r, source_answer(self.outcomes(), i)),
    {
        let n = self.source.len();
        if i <= n as u64 {
            let k = (i - 1) as usize;
            match &self.source[k] {
                FetchOutcome::Found(p) => FetchOutcome::Found(clone_payload(p)),
                FetchOutcome::NotFound => FetchOutcome::NotFound,
                FetchOutcome::TransientFailure => FetchOutcome::TransientFailure,
            }
        } else {
            FetchOutcome::NotFound
        }
    }

    /// One in-flight worker — the caller picks which — finishes: the source
    /// answers its fetch, the worker records the outcome in the shared
    /// state, and its limiter slot is released. On `Found` the payload joins
    /// the collector and the cache; on `NotFound` the worker triggers the
    /// termination signal and lowers the recorded boundary to its index if
    /// that is smaller; on `TransientFailure` it only appends its index to
    /// the report — a transient failure neither terminates the sequence nor
    /// counts as a boundary.
    #[verifier::rlimit(100)]
    pub fn complete(&mut self, j: usize)
        requires
            old(self).wf(),
            j < old(self).in_flight_seq().len(),
        ensures
            final(self).wf(),
            final(self).outcomes() == old(self).outcomes(),
            final(self).max_concurrency() == old(self).max_concurrency(),
            final(self).next() == old(self).next(),
            final(self).in_flight_seq() == old(self).in_flight_seq().remove(j as int),
            final(self).skipped_set() == old(self).skipped_set(),
            final(self).completed_set() == old(self).completed_set().insert(
                old(self).in_flight_seq()[j as int],
            ),
            ({
                let i = old(self).in_flight_seq()[j as int];
                match source_answer(old(self).outcomes(), i) {
                    FetchOutcome::Found(p) => {
                        &&& final(self).results_map() == old(self).results_map().insert(i, p@)
                        &&& final(self).signal_set() == old(self).signal_set()
                        &&& final(self).boundary_found() == old(self).boundary_found()
                        &&& final(self).transients_seq() == old(self).transients_seq()
                        &&& final(self).cached_seq() == old(self).cached_seq().push(i)
                    },
                    FetchOutcome::NotFound => {
                        &&& final(self).signal_set()
                        &&& final(self).results_map() == old(self).results_map()
                        &&& final(self).transients_seq() == old(self).transients_seq()
                        &&& final(self).cached_seq() == old(self).cached_seq()
                        &&& final(self).boundary_found() == Some(
                            match old(self).boundary_found() {
                                None => i,
                                Some(b0) => if i < b0 { i } else { b0 },
                            },
                        )
                    },
                    FetchOutcome::TransientFailure => {
                        &&& final(self).signal_set() == old(self).signal_set()
                        &&& final(self).results_map() == old(self).results_map()
                        &&& final(self).boundary_found() == old(self).boundary_found()
                        &&& final(self).transients_seq() == old(self).transients_seq().push(i)
                        &&& final(self).cached_seq() == old(self).cached_seq()
                    },
                }
            }),
    {
        let i = self.in_flight[j];
        self.in_flight.remove(j);
        self.limiter.release();
        proof {
            assert(old(self).in_flight_seq().contains(i));
            assert(!old(self).completed_set().contains(i));
            assert(!old(self).skipped_set().contains(i));
            assert(!old(self).results_map().contains_key(i));
            assert(!old(self).cached_seq().contains(i));
            assert(!old(self).transients_seq().contains(i));
            assert forall|x: u64| self.in_flight@.contains(x) implies old(
                self,
            ).in_flight_seq().contains(x) by {
                let p = choose|p: int| 0 <= p < self.in_flight@.len() && self.in_flight@[p] == x;
                if p < j {
                    assert(old(self).in_flight_seq()[p] == x);
                } else {
                    assert(old(self).in_flight_seq()[p + 1] == x);
                }
            }
            assert(!self.in_flight@.contains(i));
            assert forall|p: int, q: int|
                0 <= p < q < self.in_flight@.len() implies self.in_flight@[p]
                    != self.in_flight@[q] by {
                let p0: int = if p < j { p } else { p + 1 };
                let q0: int = if q < j { q } else { q + 1 };
                assert(self.in_flight@[p] == old(self).in_flight_seq()[p0]);
                assert(self.in_flight@[q] == old(self).in_flight_seq()[q0]);
            }
        }
        let outcome = self.fetch_outcome(i);
        match outcome {
            FetchOutcome::Found(p) => {
                self.results.insert(i, p);
                self.cached.push(i);
            },
            FetchOutcome::NotFound => {
                self.signal.trigger();
                self.boundary = match self.boundary {
                    None => Some(i),
                    Some(b) => if i < b {
                        Some(i)
                    } else {
                        Some(b)
                    },
                };
            },
            FetchOutcome::TransientFailure => {
                self.transients.push(i);
            },
        }
        proof {
            self.completed@ = self.completed@.insert(i);
            let outs = old(self).outcomes();
            assert(self.outcomes() == outs);
            // The three families stay disjoint and inside the issued range.
            assert forall|x: u64| self.completed@.contains(x) implies 1 <= x
                < self.next_index by {
                if x != i {
                    assert(old(self).completed_set().contains(x));
                }
            }
            assert forall|x: u64| self.skipped@.contains(x) implies 1 <= x < self.next_index by {
                assert(old(self).skipped_set().contains(x));
            }
            assert forall|x: u64| self.in_flight@.contains(x) implies 1 <= x
                < self.next_index by {
                assert(old(self).in_flight_seq().contains(x));
            }
            assert forall|x: u64| !(self.in_flight@.contains(x)
                && self.completed@.contains(x)) by {
                if x == i {
                    assert(!self.in_flight@.contains(i));
                } else if self.in_flight@.contains(x) {
                    assert(old(self).in_flight_seq().contains(x));
                    assert(!old(self).completed_set().contains(x));
                }
            }
            assert forall|x: u64| !(self.in_flight@.contains(x) && self.skipped@.contains(x)) by {
                if self.in_flight@.contains(x) {
                    assert(old(self).in_flight_seq().contains(x));
                    assert(!old(self).skipped_set().contains(x));
                }
            }
            assert forall|x: u64| !(self.completed@.contains(x) && self.skipped@.contains(x)) by {
                if x == i {
                    assert(!old(self).skipped_set().contains(i));
                } else {
                    assert(!(old(self).completed_set().contains(x) && old(
                        self,
                    ).skipped_set().contains(x)));
                }
            }
            assert forall|x: u64| 1 <= x < self.next_index implies self.in_flight@.contains(x)
                || self.completed@.contains(x) || self.skipped@.contains(x) by {
                if x == i {
                    assert(self.completed@.contains(i));
                } else {
                    assert(old(self).in_flight_seq().contains(x) || old(
                        self,
                    ).completed_set().contains(x) || old(self).skipped_set().contains(x));
                    if old(self).in_flight_seq().contains(x) {
                        let p = choose|p: int|
                            0 <= p < old(self).in_flight_seq().len() && old(
                                self,
                            ).in_flight_seq()[p] == x;
                        if p < j {
                            assert(self.in_flight@[p] == x);
                        } else {
                            assert(p > j);
                            assert(self.in_flight@[p - 1] == x);
                        }
                        assert(self.in_flight@.contains(x));
                    }
                }
            }
            // Skip justification: any witness for a skipped index persists.
            assert forall|x: u64| self.skipped@.contains(x) implies exists|b: u64|
                self.completed@.contains(b) && source_answer(outs, b) is NotFound && b < x by {
                assert(old(self).skipped_set().contains(x));
                let b = choose|b: u64|
                    old(self).completed_set().contains(b) && source_answer(outs, b) is NotFound
                        && b < x;
                assert(self.completed@.contains(b) && source_answer(outs, b) is NotFound
                    && b < x);
            }
            // The signal, the boundary, the collector, the cache and the
            // report, per outcome.
            match source_answer(outs, i) {
                FetchOutcome::Found(q) => {
                    assert(self.signal.is_set() == old(self).signal_set());
                    assert forall|x: u64| self.results@.contains_key(x) <==> (
                    self.completed@.contains(x) && source_answer(outs, x) is Found) by {
                        if x != i {
                            assert(old(self).results_map().contains_key(x) <==> (old(
                                self,
                            ).completed_set().contains(x) && source_answer(outs, x) is Found));
                        }
                    }
                    assert forall|x: u64| self.results@.contains_key(x) implies self.results@[x]
                        == source_answer(outs, x).payload() by {
                        if x != i {
                            assert(old(self).results_map().contains_key(x));
                        }
                    }
                    assert forall|k: u64| self.cached@.contains(k) <==> self.results@.contains_key(
                        k,
                    ) by {
                        if k != i {
                            assert(old(self).cached_seq().contains(k) <==> old(
                                self,
                            ).results_map().contains_key(k));
                            if old(self).cached_seq().contains(k) {
                                let p = choose|p: int|
                                    0 <= p < old(self).cached_seq().len() && old(
                                        self,
                                    ).cached_seq()[p] == k;
                                assert(self.cached@[p] == k);
                            }
                            if self.cached@.contains(k) {
                                let p = choose|p: int|
                                    0 <= p < self.cached@.len() && self.cached@[p] == k;
                                assert(old(self).cached_seq()[p] == k);
                            }
                        } else {
                            assert(self.cached@.last() == i);
                        }
                    }
                    assert forall|p: int, q: int|
                        0 <= p < q < self.cached@.len() implies self.cached@[p]
                            != self.cached@[q] by {
                        if q == self.cached@.len() - 1 {
                            assert(old(self).cached_seq().contains(old(self).cached_seq()[p]));
                        }
                    }
                    assert forall|x: int| 0 <= x < self.transients@.len() implies
                    self.completed@.contains(self.transients@[x]) && source_answer(
                        outs,
                        self.transients@[x],
                    ) is TransientFailure by {
                        assert(old(self).completed_set().contains(old(self).transients_seq()[x]));
                    }
                    assert forall|x: u64| self.completed@.contains(x) && source_answer(outs, x)
                        is TransientFailure implies self.transients@.contains(x) by {
                        assert(old(self).completed_set().contains(x));
                        assert(old(self).transients_seq().contains(x));
                    }
                    match self.boundary {
                        None => {
                            assert(!old(self).signal_set());
                            assert forall|b2: u64| !(self.completed@.contains(b2)
                                && source_answer(outs, b2) is NotFound) by {
                                if b2 != i {
                                    assert(!(old(self).completed_set().contains(b2)
                                        && source_answer(outs, b2) is NotFound));
                                }
                            }
                        },
                        Some(b) => {
                            assert(old(self).completed_set().contains(b));
                            assert(self.completed@.contains(b));
                            assert forall|b2: u64| self.completed@.contains(b2) && source_answer(
                                outs,
                                b2,
                            ) is NotFound implies b <= b2 by {
                                if b2 != i {
                                    assert(old(self).completed_set().contains(b2));
                                }
                            }
                        },
                    }
                },
                FetchOutcome::NotFound => {
                    assert(self.signal.is_set());
                    assert(self.completed@.contains(i) && source_answer(outs, i) is NotFound);
                    assert forall|x: u64| self.results@.contains_key(x) <==> (
                    self.completed@.contains(x) && source_answer(outs, x) is Found) by {
                        if x != i {
                            assert(old(self).results_map().contains_key(x) <==> (old(
                                self,
                            ).completed_set().contains(x) && source_answer(outs, x) is Found));
                        } else {
                            assert(!old(self).results_map().contains_key(i));
                        }
                    }
                    assert forall|x: u64| self.results@.contains_key(x) implies self.results@[x]
                        == source_answer(outs, x).payload() by {
                        assert(old(self).results_map().contains_key(x));
                    }
                    assert forall|k: u64| self.cached@.contains(k) <==> self.results@.contains_key(
                        k,
                    ) by {
                        assert(old(self).cached_seq().contains(k) <==> old(
                            self,
                        ).results_map().contains_key(k));
                    }
                    assert forall|x: int| 0 <= x < self.transients@.len() implies
                    self.completed@.contains(self.transients@[x]) && source_answer(
                        outs,
                        self.transients@[x],
                    ) is TransientFailure by {
                        assert(old(self).completed_set().contains(old(self).transients_seq()[x]));
                    }
                    assert forall|x: u64| self.completed@.contains(x) && source_answer(outs, x)
                        is TransientFailure implies self.transients@.contains(x) by {
                        if x != i {
                            assert(old(self).completed_set().contains(x));
                            assert(old(self).transients_seq().contains(x));
                        }
                    }
                    let b_new = self.boundary->0;
                    assert(self.completed@.contains(b_new) && source_answer(outs, b_new)
                        is NotFound);
                    assert forall|b2: u64| self.completed@.contains(b2) && source_answer(
                        outs,
                        b2,
                    ) is NotFound implies b_new <= b2 by {
                        if b2 != i {
                            assert(old(self).completed_set().contains(b2));
                            match old(self).boundary_found() {
                                None => {
                                    assert(!old(self).signal_set());
                                    assert(false);
                                },
                                Some(b0) => {
                                    assert(b0 <= b2);
                                },
                            }
                        }
                    }
                },
                FetchOutcome::TransientFailure => {
                    assert(self.signal.is_set() == old(self).signal_set());
                    assert forall|x: u64| self.results@.contains_key(x) <==> (
                    self.completed@.contains(x) && source_answer(outs, x) is Found) by {
                        if x != i {
                            assert(old(self).results_map().contains_key(x) <==> (old(
                                self,
                            ).completed_set().contains(x) && source_answer(outs, x) is Found));
                        } else {
                            assert(!old(self).results_map().contains_key(i));
                        }
                    }
                    assert forall|x: u64| self.results@.contains_key(x) implies self.results@[x]
                        == source_answer(outs, x).payload() by {
                        assert(old(self).results_map().contains_key(x));
                    }
                    assert forall|k: u64| self.cached@.contains(k) <==> self.results@.contains_key(
                        k,
                    ) by {
                        assert(old(self).cached_seq().contains(k) <==> old(
                            self,
                        ).results_map().contains_key(k));
                    }
                    assert forall|x: int| 0 <= x < self.transients@.len() implies
                    self.completed@.contains(self.transients@[x]) && source_answer(
                        outs,
                        self.transients@[x],
                    ) is TransientFailure by {
                        if x < self.transients@.len() - 1 {
                            assert(old(self).completed_set().contains(old(
                                self,
                            ).transients_seq()[x]));
                        } else {
                            assert(self.transients@[x] == i);
                        }
                    }
                    assert forall|x: u64| self.completed@.contains(x) && source_answer(outs, x)
                        is TransientFailure implies self.transients@.contains(x) by {
                        if x != i {
                            assert(old(self).completed_set().contains(x));
                            assert(old(self).transients_seq().contains(x));
                            let p = choose|p: int|
                                0 <= p < old(self).transients_seq().len() && old(
                                    self,
                                ).transients_seq()[p] == x;
                            assert(self.transients@[p] == x);
                        } else {
                            assert(self.transients@.last() == i);
                        }
                    }
                    assert forall|p: int, q: int|
                        0 <= p < q < self.transients@.len() implies self.transients@[p]
                            != self.transients@[q] by {
                        if q == self.transients@.len() - 1 {
                            assert(old(self).transients_seq().contains(old(
                                self,
                            ).transients_seq()[p]));
                        }
                    }
                    match self.boundary {
                        None => {
                            assert(!old(self).signal_set());
                            assert forall|b2: u64| !(self.completed@.contains(b2)
                                && source_answer(outs, b2) is NotFound) by {
                                if b2 != i {
                                    assert(!(old(self).completed_set().contains(b2)
                                        && source_answer(outs, b2) is NotFound));
                                }
                            }
                        },
                        Some(b) => {
                            assert(old(self).completed_set().contains(b));
                            assert(self.completed@.contains(b));
                            assert forall|b2: u64| self.completed@.contains(b2) && source_answer(
                                outs,
                                b2,
                            ) is NotFound implies b <= b2 by {
                                if b2 != i {
                                    assert(old(self).completed_set().contains(b2));
                                }
                            }
                        },
                    }
                },
            }
        }
        proof {
            assert(self.limiter.wf());
            assert(self.results.wf());
            assert(self.next() >= 1);
            assert(self.limiter.held_slots() == self.in_flight_seq().len());
            assert(self.in_flight_seq().len() <= self.max_concurrency());
            assert(forall|p: int, q: int|
                0 <= p < q < self.in_flight_seq().len() ==> self.in_flight_seq()[p]
                    != self.in_flight_seq()[q]);
            assert(forall|i2: u64| self.in_flight_seq().contains(i2) ==> 1 <= i2 < self.next());
            assert(forall|i2: u64| self.completed_set().contains(i2) ==> 1 <= i2 < self.next());
            assert(forall|i2: u64| self.skipped_set().contains(i2) ==> 1 <= i2 < self.next());
            assert(forall|i2: u64|
                !(self.in_flight_seq().contains(i2) && self.completed_set().contains(i2)));
            assert(forall|i2: u64|
                !(self.in_flight_seq().contains(i2) && self.skipped_set().contains(i2)));
            assert(forall|i2: u64|
                !(self.completed_set().contains(i2) && self.skipped_set().contains(i2)));
            assert(forall|i2: u64|
                1 <= i2 < self.next() ==> self.in_flight_seq().contains(i2)
                    || self.completed_set().contains(i2) || self.skipped_set().contains(i2));
            assert(self.signal_set() <==> exists|b: u64|
                self.completed_set().contains(b) && source_answer(self.outcomes(), b)
                    is NotFound);
            assert(match self.boundary_found() {
                None => !self.signal_set(),
                Some(b) => {
                    &&& self.signal_set()
                    &&& self.completed_set().contains(b)
                    &&& source_answer(self.outcomes(), b) is NotFound
                    &&& forall|b2: u64|
                        self.completed_set().contains(b2) && source_answer(self.outcomes(), b2)
                            is NotFound ==> b <= b2
                },
            });
            assert(forall|i2: u64|
                self.skipped_set().contains(i2) ==> exists|b: u64|
                    self.completed_set().contains(b) && source_answer(self.outcomes(), b)
                        is NotFound && b < i2);
            assert(forall|i2: u64|
                self.results_map().contains_key(i2) <==> (self.completed_set().contains(i2)
                    && source_answer(self.outcomes(), i2) is Found));
            assert(forall|i2: u64|
                self.results_map().contains_key(i2) ==> self.results_map()[i2] == source_answer(
                    self.outcomes(),
                    i2,
                ).payload());
            assert(forall|k: u64|
                self.cached_seq().contains(k) <==> self.results_map().contains_key(k));
            assert(forall|p: int, q: int|
                0 <= p < q < self.cached_seq().len() ==> self.cached_seq()[p]
                    != self.cached_seq()[q]);
            assert(forall|j2: int|
                0 <= j2 < self.transients_seq().len() ==> self.completed_set().contains(
                    self.transients_seq()[j2],
                ) && source_answer(self.outcomes(), self.transients_seq()[j2])
                    is TransientFailure);
            assert(forall|i2: u64|
                self.completed_set().contains(i2) && source_answer(self.outcomes(), i2)
                    is TransientFailure ==> self.transients_seq().contains(i2));
            assert(forall|p: int, q: int|
                0 <= p < q < self.transients_seq().len() ==> self.transients_seq()[p]
                    != self.transients_seq()[q]);
        }
    }
}

/// What one finished run hands to its consumers.
#[derive(Debug)]
pub struct RunOutput {
    /// The final artifact: the payloads of the contiguous indices before
    /// the boundary, concatenated in index order.
    pub artifact: Vec<u8>,
    /// The boundary: the smallest index whose resource is absent.
    pub boundary: u64,
    /// The indices whose fetch failed transiently, reported rather than
    /// silently swallowed.
    pub transients: Vec<u64>,
    /// The indices whose payload was written to the cache sink.
    pub cached: Vec<u64>,
    /// How many workers the driver spawned.
    pub spawned: u64,
}

/// The bridge from the collector's map to the source's payloads: if the map
/// stores, for each of the indices `1 ..= k`, exactly the present payloads,
/// then merging below `k + 1` concatenates the source's payloads up to `k`.
proof fn lemma_merge_matches_source(m: Map<u64, Seq<u8>>, outcomes: Seq<FetchOutcome>, k: int)
    requires
        0 <= k <= outcomes.len(),
        outcomes.len() <= u64::MAX,
        forall|i: u64|
            1 <= i <= k ==> (m.contains_key(i) <==> source_answer(outcomes, i) is Found),
        forall|i: u64|
            1 <= i <= k && m.contains_key(i) ==> m[i] == source_answer(outcomes, i).payload(),
    ensures
        concat_below(m, k + 1) == concat_found(outcomes, k),
    decreases k,
{
    if k > 0 {
        lemma_merge_matches_source(m, outcomes, k - 1);
        assert(source_answer(outcomes, k as u64) == outcomes[k - 1]);
        if !(outcomes[k - 1] is Found) {
            assert(!m.contains_key(k as u64));
            assert(outcomes[k - 1].payload() == Seq::<u8>::empty());
            assert(concat_below(m, k + 1) =~= concat_found(outcomes, k));
        }
    }
}

impl FetchRun {
    /// The terminal step: every worker has been joined and the signal is
    /// set, so the boundary is known and the collector is complete. The
    /// merger turns them into the final artifact.
    ///
    /// This is the run's central theorem, and it holds of *every*
    /// interleaving of `spawn` and `complete` that reaches the drained
    /// state: the boundary equals the position of the first absent
    /// resource, and the artifact is exactly the concatenation, in index
    /// order, of the payloads present before it — however late the fetches
    /// beyond it completed, and whatever order the others landed in.
    #[verifier::rlimit(100)]
    pub fn finish(self) -> (r: RunOutput)
        requires
            self.wf(),
            self.signal_set(),
            self.in_flight_seq().len() == 0,
        ensures
            r.boundary == first_absent(self.outcomes()) + 1,
            r.artifact@ == concat_found(self.outcomes(), first_absent(self.outcomes())),
            r.transients@ == self.transients_seq(),
            r.cached@ == self.cached_seq(),
            r.spawned == self.next() - 1,
    {
        let ghost outs = self.outcomes();
        let ghost fa = first_absent(outs);
        proof {
            lemma_first_absent(outs);
            // The recorded boundary exists and is the first absent index.
            let b = self.boundary_found()->0;
            assert(self.completed_set().contains(b) && source_answer(outs, b) is NotFound);
            // Any completed absent index lies at or beyond the first absent
            // position.
            assert(b >= fa + 1) by {
                if b <= outs.len() {
                    assert(outs[b - 1] is NotFound);
                }
            }
            // Every index up to the first absent one was issued, was never
            // skipped, and has completed.
            assert forall|x: u64| 1 <= x <= fa + 1 implies self.completed_set().contains(x) by {
                assert(b < self.next());
                assert(x < self.next());
                assert(self.in_flight_seq().contains(x) || self.completed_set().contains(x)
                    || self.skipped_set().contains(x));
                assert(!self.in_flight_seq().contains(x));
                if self.skipped_set().contains(x) {
                    let b2 = choose|b2: u64|
                        self.completed_set().contains(b2) && source_answer(outs, b2) is NotFound
                            && b2 < x;
                    assert(b2 <= fa);
                    assert(1 <= b2);
                    assert(b2 <= outs.len());
                    assert(outs[b2 - 1] is NotFound);
                    assert(false);
                }
            }
            // So the boundary is exactly the first absent index.
            assert(self.completed_set().contains((fa + 1) as u64));
            assert(source_answer(outs, (fa + 1) as u64) is NotFound) by {
                if fa < outs.len() {
                    assert(outs[fa] is NotFound);
                }
            }
            assert(b <= fa + 1);
            assert(b == fa + 1);
            // Below the boundary, the collector stores exactly the present
            // payloads.
            assert forall|i: u64| 1 <= i <= fa implies (self.results_map().contains_key(i) <==> 
            source_answer(outs, i) is Found) by {
                assert(self.completed_set().contains(i));
            }
            lemma_merge_matches_source(self.results_map(), outs, fa);
        }
        let boundary: u64 = match self.boundary {
            Some(b) => b,
            None => 0,
        };
        let artifact = merge(&self.results, boundary);
        RunOutput {
            artifact,
            boundary,
            transients: self.transients,
            cached: self.cached,
            spawned: self.next_index - 1,
        }
    }
}

/// One whole run, driven to the end: the driver issues indices from 1 on,
/// each under a limiter slot, and stops as soon as the termination signal is
/// observed; then the merger assembles the artifact. This schedule completes
/// each worker before the next spawn, so the driver spawns a worker for
/// every index up to and including the boundary, and for no other — and by
/// `FetchRun::finish`, any other schedule would have produced the same
/// artifact.
///
/// The run reports, besides the artifact and the boundary: the indices that
/// failed transiently (the driver kept issuing past them — a transient
/// failure is not a boundary), the indices cached, and how many workers
/// were spawned. A `max_concurrency` of zero is rejected before any work.
pub fn run_fetch(source: Vec<FetchOutcome>, max_concurrency: usize) -> (r: Result<
    RunOutput,
    ConfigError,
>)
    requires
        source@.len() + 2 < u64::MAX,
    ensures
        match r {
            Ok(out) => {
                &&& max_concurrency >= 1
                &&& out.artifact@ == concat_found(source@, first_absent(source@))
                &&& out.boundary == first_absent(source@) + 1
                &&& out.spawned == first_absent(source@) + 1
                &&& out.transients@ == transient_indices(source@, first_absent(source@))
                &&& out.cached@ == found_indices(source@, first_absent(source@))
            },
            Err(e) => max_concurrency == 0 && e is ZeroMaxConcurrency,
        },
{
    let ghost outs = source@;
    let ghost fa = first_absent(outs);
    proof {
        lemma_first_absent(outs);
    }
    let mut run = match FetchRun::new(source, max_concurrency) {
        Ok(run) => run,
        Err(e) => {
            return Err(e);
        },
    };
    while !run.observe_signal()
        invariant
            run.wf(),
            run.outcomes() == outs,
            fa == first_absent(outs),
            0 <= fa <= outs.len(),
            outs.len() + 2 < u64::MAX,
            forall|i: int| 0 <= i < fa ==> !(outs[i] is NotFound),
            fa < outs.len() ==> outs[fa] is NotFound,
            run.max_concurrency() == max_concurrency,
            max_concurrency >= 1,
            run.in_flight_seq().len() == 0,
            1 <= run.next() <= fa + 2,
            forall|x: u64| run.completed_set().contains(x) <==> 1 <= x < run.next(),
            run.skipped_set() == Set::<u64>::empty(),
            run.signal_set() <==> run.next() == fa + 2,
            run.transients_seq() == transient_indices(outs, run.next() - 1),
            run.cached_seq() == found_indices(outs, run.next() - 1),
        decreases fa + 2 - run.next(),
    {
        let ghost i = run.next();
        proof {
            assert(i <= fa + 1);
        }
        run.spawn();
        run.complete(0);
        proof {
            if i <= fa {
                assert(1 <= i <= outs.len());
                assert(!(outs[i - 1] is NotFound));
                assert(source_answer(outs, i) == outs[i - 1]);
                assert(!run.signal_set());
                if outs[i - 1] is TransientFailure {
                    assert(run.transients_seq() == transient_indices(outs, i - 1).push(i));
                    assert(transient_indices(outs, i as int) == transient_indices(
                        outs,
                        i - 1,
                    ).push(i));
                } else {
                    assert(transient_indices(outs, i as int) == transient_indices(outs, i - 1));
                }
                if outs[i - 1] is Found {
                    assert(found_indices(outs, i as int) == found_indices(outs, i - 1).push(i));
                } else {
                    assert(found_indices(outs, i as int) == found_indices(outs, i - 1));
                }
            } else {
                assert(i == fa + 1);
                assert(source_answer(outs, i) is NotFound) by {
                    if fa < outs.len() {
                        assert(outs[fa] is NotFound);
                    }
                }
                assert(run.signal_set());
                assert(run.transients_seq() == transient_indices(outs, i - 1));
                assert(transient_indices(outs, i as int) == transient_indices(outs, i - 1)) by {
                    if i <= outs.len() {
                        assert(!(outs[i - 1] is TransientFailure));
                    }
                }
                assert(found_indices(outs, i as int) == found_indices(outs, i - 1)) by {
                    if i <= outs.len() {
                        assert(!(outs[i - 1] is Found));
                    }
                }
            }
        }
    }
    proof {
        assert(run.next() == fa + 2);
        assert(transient_indices(outs, fa + 1) == transient_indices(outs, fa)) by {
            if fa + 1 <= outs.len() {
                assert(outs[fa] is NotFound);
            }
        }
        assert(found_indices(outs, fa + 1) == found_indices(outs, fa)) by {
            if fa + 1 <= outs.len() {
                assert(outs[fa] is NotFound);
            }
        }
    }
    Ok(run.finish())
}

/// An owned copy of one payload's bytes.
fn clone_payload(p: &Vec<u8>) -> (r: Vec<u8>)
    ensures
        r@ == p@,
{
    let mut r: Vec<u8> = Vec::new();
    let mut k: usize = 0;
    while k < p.len()
        invariant
            0 <= k <= p@.len(),
            r@ == p@.subrange(0, k as int),
        decreases p@.len() - k,
    {
        r.push(p[k]);
        proof {
            assert(r@ =~= p@.subrange(0, k as int + 1));
        }
        k = k + 1;
    }
    proof {
        assert(r@ =~= p@);
    }
    r
}

} // verus!
