//! Synchronisation primitives.
//!
//! The primitives are the states that locks protect and futures work on: what a task
//! that gets the lock, or a future that is polled, does to the state. Functions that
//! wake tasks return the wakers; whoever holds the lock wakes them.
use vstd::prelude::*;

pub mod condvar;
pub mod mpsc;
pub mod mutex;
pub mod once_lock;
pub mod per_cpu;
pub mod rwlock;
pub mod waker_set;

verus! {

} // verus!
