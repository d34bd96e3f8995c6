//! Verified core of a sparse-tensor dataflow simulator: the stream
//! semantics of its primitives (scanners, writers, joiners, repeaters,
//! droppers, reducers), its memory request bookkeeping and its graph
//! description helpers.
pub mod templates;
pub mod proto_driver;
pub mod config;
pub mod cli_common;
pub mod channel_file;
