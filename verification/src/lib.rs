//! Kernel-side service layer of a teaching operating system, modelled as a
//! verified library.
//!
//! Two components are covered:
//! - a user-memory accessor, which turns a user virtual pointer plus a byte
//!   length into page-bounded physically addressed fragments and copies raw
//!   byte images across them;
//! - a per-process synchronization manager: registries of mutexes,
//!   semaphores and condition variables, sparse allocation/need matrices,
//!   and a Banker's-algorithm safety check run before blocking acquisitions.
//!
//! The collaborators that the real kernel consults (page-table walker,
//! scheduler, timer, memory mapper) are out of scope; the syscall handlers
//! here take their replies as plain arguments and return the decisions the
//! dispatch loop must act on.

pub mod matrix;

pub mod banker;

pub mod mem;

pub mod abi;

pub mod process;

pub mod state;

pub mod sync;
