//! Synchronisation primitives and deadlock detection.
pub mod summation;
pub mod deadlock;
pub mod semaphore;
pub mod mutex;
