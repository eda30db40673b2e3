//! Core of a distributed content-addressed registry: a replicated action
//! log ordered by a Raft-like consensus machine, a deterministic state
//! machine projecting committed actions into a graph of blobs, manifests
//! and tags, an object mirror that copies missing objects from peers, and
//! a two-phase garbage collector.
pub mod types;
pub mod state;
pub mod log;
pub mod config;
pub mod machine;
pub mod hashing;
pub mod paths;
pub mod mirror;
pub mod gc;
pub mod uploads;
