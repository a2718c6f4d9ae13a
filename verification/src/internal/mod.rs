//! Storage that the primitives share.

pub mod arena;
pub mod counting;
pub mod std_items;
pub mod waitset;
