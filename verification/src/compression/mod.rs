//! Compression of records and of batches of records.

pub mod laws;
pub mod lz4;

pub use lz4::{compress, compress_batch, decompress, decompress_batch};
