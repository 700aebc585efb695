//! A small key-value server core speaking a line-oriented, length-prefixed
//! wire protocol: an incremental frame decoder, a frame encoder, a shared
//! byte-string store, and the per-request dispatch logic.
//!
//! The surrounding process (socket handling, the accept loop) lives outside
//! this crate; the library works on plain byte slices and values.

pub mod resp;
pub mod server;
pub mod storage;
