//! Storage adapter and single-node driving loop for a Raft-based replicated
//! key-value store.
//!
//! The crate persists the replicated log in an ordered key-value engine,
//! produces and installs snapshots, and turns committed log entries into
//! mutations on a local data namespace while correlating results back to
//! waiting callers.  The consensus algorithm itself and the storage engine's
//! durability are external collaborators; everything this crate decides is
//! specified and verified.

pub mod order;
pub mod keys;
pub mod kv;
pub mod types;
pub mod codec;
pub mod storage;
pub mod node;
