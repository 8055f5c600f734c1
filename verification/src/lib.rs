//! A bounded-concurrency fetcher of numbered resources, with an
//! order-preserving merge, and word statistics over the merged text.
//!
//! The core retrieves a sequence of resources numbered from 1 whose length
//! is not known in advance: a driver issues indices in increasing order,
//! each fetch runs under a slot of a concurrency limiter, the first absent
//! resource triggers a shared termination signal, and a merger reassembles
//! the payloads — completed in arbitrary order — into one artifact in index
//! order, cut off at the boundary. The whole coordination is modelled as an
//! explicit state machine ([`FetchRun`]); its central theorem says that
//! every schedule that drains yields the same artifact: the payloads of the
//! contiguous indices before the first absent one.
//!
//! Around the core stand the run configuration, a word-frequency counter
//! over the merged text, and a substring search over cached files.

use vstd::prelude::*;

mod collector;
mod config;
mod fetcher;
mod limiter;
mod merger;
mod outcome;
mod search;
mod signal;
mod words;

pub use collector::ResultSet;
pub use config::{plan_run, resolve_config, Config, ConfigError, RunPlan};
pub use fetcher::{run_fetch, FetchRun, RunOutput};
pub use limiter::SlotLimiter;
pub use merger::merge;
pub use outcome::FetchOutcome;
pub use search::contains_word;
pub use signal::TerminationSignal;
pub use words::{
    calculate_word_frequencies, top_n_common_words, word_with_unique_occurrences, WordCounts,
};

verus! {

} // verus!
