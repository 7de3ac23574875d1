//! An in-memory key-value store served over a request/reply wire protocol:
//! the codec for the protocol, the keyspace with lazy expiration, and the
//! interpreter that turns requests into keyspace operations and replies.
pub mod text;
pub mod database;
pub mod codec;
pub mod interpreter;
pub mod error;
