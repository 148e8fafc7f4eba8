//! A single-threaded actor runtime: actors hold state, subscribe to message
//! tags, and react to queued messages one dispatch pass at a time.
pub mod arena;
pub mod actors;
pub mod delay;
pub mod registry;
