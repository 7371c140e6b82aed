//! Core of tongOS: a small preemptive multicore kernel for a RISC-V-class
//! 64-bit machine, modeled as a family of verified state machines.
//!
//! The hardware itself (CSR access, MMIO, the context-switch stub) lives
//! outside this crate; here every kernel decision is a function from plain
//! state and a plain event to the next state and an action, with a contract.

use vstd::prelude::*;

pub mod cpu;
pub mod kmem;
pub mod lock;
pub mod page;
pub mod process;
pub mod scheduler;
pub mod trap;

verus! {

/// Number of harts (hardware thread contexts) on the target machine.
pub const N_HARTS: usize = 4;

/// Preemptive scheduling is a compile-time tunable; this build keeps it on.
pub const ENABLE_PREEMPTION: bool = true;

} // verus!
