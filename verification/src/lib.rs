//! StreamForge, an event streaming engine: an append-only commit log in segments,
//! a broker with topics and consumer groups, its wire protocol, and its clients.
//!
//! The library holds no handle to a file or a connection. It works on bytes, and
//! says which changes to files and which frames its surroundings are to make.

pub mod broker;
pub mod cli;
pub mod cli_laws;
pub mod client_error;
pub mod compression;
pub mod consumer;
pub mod log;
pub mod number_laws;
pub mod producer;
pub mod text;
pub mod wire;
