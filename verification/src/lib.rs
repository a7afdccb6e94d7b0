//! Scheduling and synchronization core of a small cooperative kernel.
//!
//! The crate models the part of the kernel that decides which runnable task
//! executes next on a single processor and that provides mutual-exclusion,
//! counting and condition-wait primitives to threads, guarded by an online
//! deadlock detector.  Everything is expressed over explicit state: the
//! surrounding system (trap dispatch, timer hardware, address spaces, the
//! filesystem) stays outside and drives the entry points in `syscall`.

pub mod task;
pub mod manager;
pub mod detect;
pub mod sync;
pub mod syscall;
