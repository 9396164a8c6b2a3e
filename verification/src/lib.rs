//! Network traffic accounting: a verified recorder that turns cumulative,
//! resettable per-interface byte counters into non-negative deltas, an
//! append-only event store with store-assigned timestamps, and an
//! aggregation engine that rolls stored events up into calendar periods
//! (hour/day/week/month) and rolling recency windows.

pub mod calendar;
pub mod db;
pub mod recorder;
