//! An in-memory request-timing collector.
//!
//! Latency samples, in whole milliseconds, are recorded under a
//! (route pattern, HTTP method) key and summarized on demand as a
//! sortable tab-separated report.

pub mod interceptor;
pub mod measured;
pub mod model;
pub mod report;
pub mod store;
pub mod text;

pub use interceptor::duration_millis;
pub use interceptor::metric_path;
pub use measured::Measured;
pub use report::SortOptions;
pub use store::Store;
