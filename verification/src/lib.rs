//! Verified core of a small RISC-V (SV39) teaching kernel: page-table
//! entries and three-level page tables over a model of physical memory,
//! user-memory access checked against page permissions, the stride
//! scheduler's ready queue, and the process-management system calls.
use vstd::prelude::*;

pub mod config;
pub mod mm;
pub mod syscall;
pub mod task;

verus! {

} // verus!
