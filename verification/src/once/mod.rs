//! One-time initialization.

pub mod lazy_lock;
