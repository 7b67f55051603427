//! The producing side of the protocol.

pub mod client;
pub mod laws;
