//! Content-addressed immutable data: self-encrypted chunking, an optional
//! symmetric envelope around the data map, and a packing engine that folds
//! any payload into one root object that fits a single network chunk.

pub mod error;
pub mod wire;
pub mod idata;
pub mod data_map;
pub mod envelope;
pub mod client;
pub mod self_encryptor;
pub mod immutable_data;
