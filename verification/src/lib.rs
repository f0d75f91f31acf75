//! Per-day keyboard and mouse activity counters.
//!
//! Input events flow from a platform capture hook through an ordered channel
//! into an aggregator, which batches them and commits each batch as a series
//! of idempotent counter increments into a keyed counter store. Readers query
//! the same store for per-day and per-range statistics at any time.
//!
//! This crate holds the verified core of that pipeline: the calendar dates
//! that key the counters, the counter store with its consistency invariant
//! (per-day summaries always equal the sum of the per-entity counters), the
//! aggregator's buffering and flush rules, and the capture-source running
//! flag. The platform hook, the durable backing file and the export
//! formatters live outside, in the surrounding application.

pub mod aggregator;
pub mod clock;
pub mod date;
pub mod laws;
pub mod listener;
pub mod schema;
pub mod stats;
pub mod store;
