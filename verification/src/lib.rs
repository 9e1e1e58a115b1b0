//! Chat message statistics: a verified counter store with a resumable,
//! crash-consistent log ingestion protocol and a windowed aggregation
//! query engine.
//!
//! Write path: a per-provider normalizer ([`events`], [`tg`], [`mx`])
//! decodes log lines into message and reply events; the replayer
//! ([`process_log`]) feeds them through a transactional processor
//! ([`processor`], [`tx`]) into the counter store ([`store`]), committing
//! every batch of lines together with the stream's byte offset as one
//! atomic unit.  Read path: the query engine ([`query`]) validates the
//! request, resolves its chat and user references, and aggregates the
//! counters into daily series, hour and weekday histograms and a
//! per-user leaderboard.  [`laws`] states and proves the crate-level
//! guarantees: resuming a finished run is a no-op, a failed run never
//! tears a batch, and repeated events accumulate exactly.

use vstd::prelude::*;

verus! {

/// Number of seconds in one hour; message timestamps are bucketed by
/// absolute hour since the epoch.
pub const SECONDS_PER_HOUR: i64 = 3600;

/// Absolute hour bucket of an epoch timestamp: `floor(ts / 3600)`.
pub open spec fn spec_hour_of(ts: int) -> int {
    ts / 3600
}

/// Computes the absolute hour bucket of an epoch-seconds timestamp,
/// flooring for negative timestamps as well.
pub fn hour_of_timestamp(ts: i64) -> (r: i64)
    ensures
        r == spec_hour_of(ts as int),
{
    let q = ts / SECONDS_PER_HOUR;
    if ts % SECONDS_PER_HOUR != 0 && ts < 0 {
        q - 1
    } else {
        q
    }
}

} // verus!

pub mod error;
pub mod events;
pub mod json;
pub mod laws;
pub mod mx;
pub mod process_log;
pub mod processor;
pub mod query;
pub mod store;
pub mod tg;
pub mod tx;
pub mod util;
