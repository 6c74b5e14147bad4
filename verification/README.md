# mea

Runtime-agnostic synchronization primitives for asynchronous Rust, with their state
machines proved correct by Verus.

## Layout

- `src/` is the verified library. Each primitive is a state machine that a caller drives
  through `&mut` methods: a task that has to wait is given an acquisition (or a
  generation, a key) to poll, and every method that may let waiting tasks go on returns
  the keys of the tasks to wake.
  - `internal/waitlist.rs`: the first-in, first-out list of waiters, kept in a slab.
  - `internal/semaphore.rs`: the counting semaphore that the other primitives share:
    permits are handed to queued waiters strictly in queue order, and every permit is
    accounted for.
  - `semaphore.rs`, `mutex.rs`, `rwlock.rs`, `condvar.rs`, `once.rs`, `mpsc.rs`: the
    primitives built on that semaphore.
  - `barrier.rs`, `latch.rs`, `oneshot.rs`, `atomicbox.rs`: the primitives that stand on
    their own.
- `tests/` runs the library on concrete scenarios.
- `app/` wraps the state machines in thread-safe futures: it keeps each state machine
  behind a `std::sync::Mutex`, stores the wakers of waiting tasks under the keys that
  the state machine hands out, and wakes the tasks whose keys come back.

## What is proved

Among others: a mutex has at most one holder and hands the lock to the first waiter; the
holders of a reader-writer lock never have more than its permits, so a writer holds it
alone; a semaphore serves waiters in queue order, never loses a permit when an
acquisition is given up, and keeps permits available only while nobody waits; a
condition variable wakes its waiters in the order in which they started waiting; a
bounded channel delivers values in the order in which they were sent; a `Once` has at
most one initializer at a time.
