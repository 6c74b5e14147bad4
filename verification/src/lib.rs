//! Runtime-agnostic synchronization primitives, written as verified state machines.
//!
//! Every primitive keeps its state in a plain value that is changed through `&mut self`;
//! the asynchronous plumbing (wakers, futures, sharing between tasks) drives these
//! state machines from the outside.

pub mod internal;
pub mod semaphore;
pub mod latch;
pub mod atomicbox;
pub mod mutex;
pub mod rwlock;
pub mod barrier;
pub mod condvar;
pub mod oneshot;
pub mod mpsc;
pub mod once;
