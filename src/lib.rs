//! An in-memory key/value server core speaking the RESP wire format:
//! a resumable frame codec, a keyspace with expiry and pub/sub channels,
//! and the command executor that ties them together.

pub mod resp;
pub mod db;
pub mod commands;
pub mod connection;
