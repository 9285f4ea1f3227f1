//! An in-memory key-value store speaking the RESP protocol: the request
//! parser, the compact listpack encoding, a radix tree, streams, the keyspace
//! with its command handlers, and the decisions of the event loop.

pub mod decimal;
pub mod commands;
pub mod data_structures;
pub mod reply;
pub mod resp;
pub mod server;
pub mod types;
