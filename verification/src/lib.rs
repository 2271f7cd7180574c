//! A Redis-style key-value store speaking the RESP2 wire protocol.
//!
//! The verified library holds the protocol codec, the store and the
//! per-connection request handling; the network and file plumbing lives in
//! the application around it.

pub mod decimal;
pub mod export_type;
pub mod text;
pub mod serial_deserial;
pub mod codec_laws;
pub mod db_ops;
pub mod hash_operations;
pub mod handle_connection;
