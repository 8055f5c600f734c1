//! Run configuration, resolved once at startup and passed into the driver.
//!
//! The surrounding program reads its environment (variables, a dotenv file,
//! the machine's CPU count) and hands the raw findings here; this module
//! decides what the run's settings are. The base URL of the resource source
//! is required; everything else has a default. A `max_concurrency` of zero
//! is invalid and rejected before any fetching begins.

use vstd::prelude::*;

verus! {

/// Why a configuration or a run could not be constructed.
#[derive(Debug)]
pub enum ConfigError {
    /// No base URL for the resource source was supplied.
    MissingBaseDataUrl,
    /// `max_concurrency` was zero; the limiter needs at least one slot.
    ZeroMaxConcurrency,
}

/// The resolved settings of one run.
#[derive(Debug)]
pub struct Config {
    /// Where the numbered resources live.
    pub base_data_url: String,
    /// Logging verbosity for the surrounding program.
    pub log_level: String,
    /// How many fetches may be in flight at once.
    pub max_concurrency: usize,
    /// Whether a merged artifact and cache left by an earlier run are kept.
    pub keep_cached_data: bool,
}

/// Resolve the run's settings from what the environment offered. The base
/// URL is required; a missing log level defaults to `"info"`, a missing
/// concurrency bound to the CPU count, and a missing cache flag to keeping
/// cached data. A supplied concurrency bound of zero is an error.
pub fn resolve_config(
    base_data_url: Option<String>,
    log_level: Option<String>,
    max_concurrency: Option<usize>,
    keep_cached_data: Option<bool>,
    cpu_count: usize,
) -> (r: Result<Config, ConfigError>)
    requires
        cpu_count >= 1,
    ensures
        match r {
            Ok(c) => {
                &&& base_data_url matches Some(u) && c.base_data_url@ == u@
                &&& match log_level {
                    Some(l) => c.log_level@ == l@,
                    None => c.log_level@ == "info"@,
                }
                &&& match max_concurrency {
                    Some(m) => c.max_concurrency == m,
                    None => c.max_concurrency == cpu_count,
                }
                &&& c.max_concurrency >= 1
                &&& match keep_cached_data {
                    Some(k) => c.keep_cached_data == k,
                    None => c.keep_cached_data,
                }
            },
            Err(e) => match e {
                ConfigError::MissingBaseDataUrl => base_data_url is None,
                ConfigError::ZeroMaxConcurrency => max_concurrency == Some(0usize),
            },
        },
{
    let url = match base_data_url {
        Some(u) => u,
        None => {
            return Err(ConfigError::MissingBaseDataUrl);
        },
    };
    let bound = match max_concurrency {
        Some(m) => {
            if m == 0 {
                return Err(ConfigError::ZeroMaxConcurrency);
            }
            m
        },
        None => cpu_count,
    };
    let level = match log_level {
        Some(l) => l,
        None => String::from_str("info"),
    };
    let keep = match keep_cached_data {
        Some(k) => k,
        None => true,
    };
    Ok(Config { base_data_url: url, log_level: level, max_concurrency: bound, keep_cached_data: keep })
}

/// What a run must do with what an earlier run left behind: wipe it first,
/// fetch anew, or reuse it as it stands. Cached data is wiped unless it is
/// kept; fetching happens exactly when no merged artifact will be on disk —
/// either because it was just wiped or because none was there.
#[derive(Debug)]
pub struct RunPlan {
    /// Remove the merged artifact and the cache directory before running.
    pub wipe_first: bool,
    /// Fetch the resources and build a fresh artifact.
    pub fetch: bool,
}

/// Decide the run plan from the cache flag and whether a merged artifact
/// already exists on disk.
pub fn plan_run(keep_cached_data: bool, merged_exists: bool) -> (r: RunPlan)
    ensures
        r.wipe_first == !keep_cached_data,
        r.fetch == (!keep_cached_data || !merged_exists),
{
    let wipe_first = !keep_cached_data;
    RunPlan { wipe_first, fetch: wipe_first || !merged_exists }
}

} // verus!
