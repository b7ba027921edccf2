//! Parsing, addition and canonical rendering of human-readable durations:
//! strings of space-separated components, each a non-negative decimal
//! magnitude followed by a unit letter (`s`, `m` or `h`).

pub mod digits;
pub mod interval;
pub mod unit;

pub use interval::DurationError;
pub use interval::TimeInterval;
pub use unit::ParseError;
pub use unit::TimeUnit;
