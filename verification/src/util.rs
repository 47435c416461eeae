//! Helpers that the protocol layers share.

pub mod packing;
pub mod wire;
