//! rustkv: the decision logic of a Raft-replicated key-value store.
//!
//! Every rule of the store lives here as ordinary Rust with a contract: the
//! consensus node as a state machine that answers messages with effects, the
//! durable log as a mirror plus an ordered list of disk writes, the key-value
//! state machine with its retry windows, and the text formats at the edges.
//! Clocks, sockets, files and JSON stay outside; they hand plain values in
//! and carry the answers out.

pub mod api;
pub mod config;
pub mod dedup;
pub mod kv;
pub mod kvmap;
pub mod raft;
pub mod rng;
pub mod store;
pub mod text;
