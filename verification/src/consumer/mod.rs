//! The consuming side of the protocol.

pub mod client;
pub mod laws;
pub mod poll_laws;
