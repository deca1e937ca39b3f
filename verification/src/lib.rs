//! Verified core of a sidecar exporter that turns FoundationDB JSON trace
//! logs into Prometheus-style gauges and counters.
//!
//! Numeric trace fields are textual decimals; this crate models them exactly
//! as fixed-point integers scaled by `10^9` so every recorder decision and
//! every emitted value is stated and proved over integer arithmetic. The
//! surrounding process (file tailing, the HTTP scrape endpoint, and the
//! floating-point evaluation of the exponential tail interpolation) lives in
//! the unverified application layer and consumes the values produced here.

pub mod assoc;
pub mod errors;
pub mod fdb_counter;
pub mod fdb_gauge;
pub mod gauge_config;
pub mod histogram;
pub mod labels;
pub mod log_metrics;
pub mod numbers;
pub mod text;
pub mod trace_event;
pub mod watch_logs;
pub mod window;

pub use numbers::Frac;
