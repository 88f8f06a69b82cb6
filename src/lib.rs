//! Connection layer of a small key-value server: the frame codec, the
//! incremental frame reader, the in-memory store and the command dispatcher.

pub mod frame;
pub mod reader;
pub mod store;
pub mod dispatch;
