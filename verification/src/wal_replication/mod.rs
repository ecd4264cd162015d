//! Raft-based distributed replication on top of the write-ahead log.
//!
//! A client writes to the leader, which puts the entry into its own log, sends it
//! to the peers, and commits it once a majority has acknowledged it. Every node
//! keeps its log in a write-ahead log of its own, and its term and vote in a file
//! next to it.
pub mod config;
pub mod error;
pub mod persistent_state;
pub mod raft;
pub mod server;

pub use config::{ClusterConfig, NodeId, NodeInfo};
pub use error::RaftError;
pub use raft::{LogEntry, RaftNode};
