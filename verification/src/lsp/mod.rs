//! Language-server support: the document store, position conversion
//! between UTF-8 byte offsets and the protocol's UTF-16 positions, and the
//! protocol's message shapes.

pub mod docstore;
pub mod jsonrpc;
pub mod position;
pub mod server;
pub mod services;
pub mod types;
