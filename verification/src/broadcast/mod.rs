//! A multi-producer multi-consumer broadcast channel.
//!
//! * [`unbounded`]: messages are retained until every active receiver consumes them or leaves.

pub mod unbounded;
