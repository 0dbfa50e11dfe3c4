//! An in-memory key-value cache that speaks a line-framed, length-prefixed
//! wire protocol: the codec, the store with per-key expiration, and the
//! command dispatcher that ties them together.
pub mod decimal;
pub mod resp;
pub mod db;
pub mod commands;
pub mod client;
