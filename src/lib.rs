//! Group-by aggregation of ranked search results: candidates are keyed by a
//! scalar payload field, deduplicated by identity, and collected into a bounded
//! number of capacity-bounded, score-ordered groups over rounds of growing size.
//! Alongside it: memory-map advice, CPU permits and logger settings.

pub mod aggregator;
pub mod cpu;
pub mod dedup;
pub mod group;
pub mod log_config;
pub mod log_default;
pub mod log_helpers;
pub mod log_on_disk;
pub mod madvise;
pub mod session;
pub mod types;
