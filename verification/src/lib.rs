//! Aggregation engine for web-server access logs: frequency counters, a
//! time-window tracker, adaptive latency buckets and ordered report rows.

pub mod arrange;
pub mod buckets;
pub mod default_map;
pub mod entry;
pub mod frequency;
pub mod labels;
pub mod order;
pub mod report;
pub mod stats;
pub mod summary;
pub mod window;
