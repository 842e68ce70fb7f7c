//! The core of a small in-memory key-value server that speaks a Redis-style
//! wire protocol: the frame codec, the expiring store, and the commands that
//! join them.
pub mod command;
pub mod decimal;
pub mod message;
pub mod state;
