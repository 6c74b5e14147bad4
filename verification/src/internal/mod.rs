//! Building blocks shared by the public primitives.

pub mod waitlist;
pub mod semaphore;
pub mod countdown;
