//! The persistent, copy-on-write key-value tree stored inside the lake.

pub mod leaf;
pub mod node;
