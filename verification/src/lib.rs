//! Core of a cooperative, interrupt-driven kernel: a free-list heap
//! allocator, a millisecond clock, a single-threaded task executor with
//! waker-based scheduling, timer wakers, interrupt-fed bounded queues, and
//! the spinlock / one-time-initialization primitives that guard shared state.
//!
//! Hardware effects (the actual timer and keyboard interrupts, the `hlt`
//! instruction, the CPU interrupt-enable flag) are represented by explicit
//! values passed into the library, so that every scheduling and bookkeeping
//! decision is ordinary verified code.

pub mod arrayvec;
pub mod clock;
pub mod memory;
pub mod spinlock;
pub mod task;

