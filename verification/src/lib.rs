//! Verified logic for a set of small network protocol servers.
//!
//! The heart of the crate is the speed-daemon subsystem: a binary wire
//! codec over partial reads (`wire`), a shared domain store with speeding
//! ticket rules (`db`), and a per-connection state machine (`conn`).
//! Lighter collaborators share the same framing idiom: a chat room
//! (`chat`), a line-rewriting proxy (`proxy`) and a key/value store
//! (`kv`). All I/O lives outside this crate; every function here is a
//! pure state transformer with a verified contract.

pub mod chat;
pub mod conn;
pub mod kv;
pub mod db;
pub mod proxy;
pub mod wire;
