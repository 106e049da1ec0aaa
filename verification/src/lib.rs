//! Core logic of a small RISC-V teaching kernel: Sv39 page tables over a
//! model of physical memory, deadlock detection by the banker's safety
//! check, mutexes and semaphores as state machines, stride scheduling
//! passes and system-call decoding.
use vstd::prelude::*;

pub mod mm;
pub mod sync;
pub mod syscall;
pub mod task;

