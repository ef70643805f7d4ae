//! Foreground-application time tracking: a sampler that notices focus
//! changes, a table that accumulates the time spent in each application,
//! and the textual summary produced on shutdown.
//!
//! The library holds no clock and asks no window system. Its host reads
//! both and hands over plain values: the name of the application in the
//! foreground, and the reading of a monotonic clock in nanoseconds.

pub mod decimal;
pub mod laws;
pub mod table;
pub mod tracker;
