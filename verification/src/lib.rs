//! A crash-safe, segment-based write-ahead log, replicated by Raft.
//!
//! - [`wal_core`] is the log of one node: entries with checksums in segment
//!   files, a checkpoint, recovery and truncation.
//! - [`wal_replication`] keeps a log in step across a cluster: terms and votes,
//!   the replicated log, its snapshots, and the node that drives them.
//! - [`wal_server`] reads the arguments of a standalone server and routes its
//!   HTTP requests.
//!
//! No module touches a file, a socket or a clock. What has to be done on disk is
//! handed out as a list of [`storage::FileAction`]s and its outcome handed back;
//! messages, answers and the time come in as arguments. What holds across a
//! restart or a crash is stated over the disk as a map from paths to bytes, in
//! [`wal_core::durability`] and [`wal_replication::raft::recovery`], and of whole
//! runs of calls, failures, crashes and restarts in [`wal_core::history`] and
//! [`wal_replication::raft::history`]; what a loss of power leaves, in
//! [`wal_core::power`]; what the nodes of a cluster promise each other, in
//! [`wal_replication::raft::consensus`] and [`wal_replication::raft::voting`]. What
//! single calls come to, whatever went before, is told in [`wal_core::calls`],
//! [`wal_replication::raft::entries`] and [`wal_replication::raft::protocol`].
pub mod bytes;
pub mod storage;
pub mod text;
pub mod wal_core;
pub mod wal_replication;
pub mod wal_server;
