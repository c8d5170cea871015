//! A small Redis-compatible server core: the RESP wire format, the commands
//! it understands with their key-value store, and the decisions of the
//! connection handler and the worker pool.
pub mod executor;
pub mod redis;
