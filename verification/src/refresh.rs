//! The server's timing rules: the page's refresh interval, how long a built summary is
//! served again, and whether a request is answered from it.
use vstd::prelude::*;

verus! {

/// At least one.
pub open spec fn at_least_one(n: u64) -> nat {
    if n == 0 { 1 } else { n as nat }
}

/// The page's refresh interval in milliseconds for a setting in seconds: at least one
/// second.
pub fn refresh_interval_ms(refresh_seconds: u64) -> (ms: u64)
    requires
        at_least_one(refresh_seconds) * 1000 <= u64::MAX,
    ensures
        ms == at_least_one(refresh_seconds) * 1000,
{
    let s = if refresh_seconds == 0 { 1 } else { refresh_seconds };
    s * 1000
}

/// How many seconds a built summary is served again: at least one.
pub fn summary_ttl_seconds(cache_seconds: u64) -> (ttl: u64)
    ensures
        ttl == at_least_one(cache_seconds),
{
    if cache_seconds == 0 { 1 } else { cache_seconds }
}

/// Whether a summary built `age_seconds` whole seconds ago (none when no summary was
/// built yet) may be served again when summaries live `ttl_seconds`.
pub open spec fn fresh(age_seconds: Option<u64>, ttl_seconds: u64) -> bool {
    match age_seconds {
        Some(age) => age < ttl_seconds,
        None => false,
    }
}

/// What a summary request does.
#[derive(Debug, Clone, Copy, PartialEq, Eq, Structural)]
pub enum SummaryStep {
    /// Answer with the summary built before.
    ServeCached,
    /// Build a new summary, keep it and answer with it.
    Rebuild,
}

/// Whether a summary built `age_seconds` ago may be served again.
pub fn summary_is_fresh(age_seconds: Option<u64>, ttl_seconds: u64) -> (r: bool)
    ensures
        r == fresh(age_seconds, ttl_seconds),
{
    match age_seconds {
        Some(age) => age < ttl_seconds,
        None => false,
    }
}

/// What a summary request does: serve the kept summary when there is one and it is
/// fresh, else rebuild.
pub fn next_summary_step(age_seconds: Option<u64>, ttl_seconds: u64, has_summary: bool) -> (step: SummaryStep)
    ensures
        step == (if fresh(age_seconds, ttl_seconds) && has_summary {
            SummaryStep::ServeCached
        } else {
            SummaryStep::Rebuild
        }),
{
    if summary_is_fresh(age_seconds, ttl_seconds) && has_summary {
        SummaryStep::ServeCached
    } else {
        SummaryStep::Rebuild
    }
}

/// A summary that was just built is served again by a request in the same second,
/// whatever the setting; one that has lived its time is rebuilt.
pub proof fn lemma_kept_summary_served(cache_seconds: u64, age: u64)
    ensures
        fresh(Some(0), at_least_one(cache_seconds) as u64),
        age >= at_least_one(cache_seconds) ==> !fresh(Some(age), at_least_one(cache_seconds) as u64),
{
}

} // verus!
