//! Verified state machines for asynchronous synchronization primitives.
//!
//! * [`broadcast::unbounded`]: a broadcast channel that keeps each message until every active
//!   receiver has read it.
//! * [`once::lazy_lock`]: a value that is initialized on first access.
//!
//! The library decides; it does not lock, wait or wake. An asynchronous program keeps the state
//! behind its lock, calls the library while it holds the lock, and carries out what comes back.

pub mod broadcast;
pub mod internal;
pub mod once;
