//! The Raft log, its snapshots, and the node that drives them.
pub mod consensus;
pub mod entries;
pub mod history;
pub mod log;
pub mod message;
pub mod node;
pub mod protocol;
pub mod recovery;
pub mod snapshot;
pub mod voting;

pub use log::{LogEntry, RaftLog};
pub use node::{RaftNode, Role};
pub use snapshot::Snapshot;
