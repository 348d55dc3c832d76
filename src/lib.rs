//! An in-memory key-value server core: the wire codec, the keyed store with
//! expiry, server identity, the command dispatcher and the replica handshake.
pub mod text;
pub mod resp;
pub mod data;
pub mod info;
pub mod file;
pub mod command;
pub mod replication;
