//! A small in-memory key-value server core: request framing, a keyspace with
//! lazy expiry, a snapshot-file decoder, a command dispatcher and the
//! replica-side handshake, each with a verified contract.

pub mod bytes;
pub mod command;
pub mod config;
pub mod handler;
pub mod handshake;
pub mod keyspace;
pub mod rdb;
pub mod resp;
pub mod text;
