//! Task scheduling.
pub mod stride;
