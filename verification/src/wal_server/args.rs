//! The command line of the server.
use vstd::prelude::*;

use crate::wal_replication::config;
use crate::wal_replication::config::{ClusterConfig, NodeInfo};

verus! {

/// What the server is started with.
#[derive(Debug)]
pub struct Args {
    /// Unique node identifier (e.g. "node-1")
    pub id: String,
    /// Advertised address of *this* node, used by peers for gRPC connections
    /// (e.g. "http://127.0.0.1:7001")
    pub addr: String,
    /// Port the gRPC server listens on
    pub grpc_port: u16,
    /// HTTP addresses of *all other* nodes
    pub peers: Vec<String>,
    /// IDs matching `peers` (same order)
    pub peer_ids: Vec<String>,
    /// Directory for WAL segments and persistent Raft state
    pub data_dir: String,
    /// Port the HTTP health/metrics server listens on
    pub http_port: u16,
}

/// What is wrong with the arguments.
#[derive(Debug)]
pub enum ArgsError {
    /// The node has no name.
    EmptyId,
    /// Not every peer has an ID and an address.
    PeerCountMismatch { peer_ids: usize, peers: usize },
}

/// Check the arguments: the node needs a name, and every peer an ID and an
/// address. A missing name is reported first.
pub fn validate_args(args: &Args) -> (result: Result<(), ArgsError>)
    ensures
        result is Ok <==> args.id@.len() > 0 && args.peer_ids@.len() == args.peers@.len(),
        args.id@.len() == 0 <==> (result matches Err(e) && e is EmptyId),
        result matches Err(ArgsError::PeerCountMismatch { peer_ids, peers }) ==> peer_ids
            == args.peer_ids@.len() && peers == args.peers@.len(),
{
    if args.id.as_str().unicode_len() == 0 {
        return Err(ArgsError::EmptyId);
    }
    if args.peer_ids.len() != args.peers.len() {
        return Err(
            ArgsError::PeerCountMismatch {
                peer_ids: args.peer_ids.len(),
                peers: args.peers.len(),
            },
        );
    }
    Ok(())
}

/// The configuration that the arguments describe: each peer ID goes with the
/// address at its place. Where one list is longer, its rest goes without.
pub fn cluster_config(args: &Args) -> (config: ClusterConfig)
    ensures
        config.this_node.id@ == args.id@,
        config.this_node.addr@ == args.addr@,
        config.data_dir@ == args.data_dir@,
        config.peers@.len() == if args.peer_ids@.len() < args.peers@.len() {
            args.peer_ids@.len()
        } else {
            args.peers@.len()
        },
        forall|i: int|
            0 <= i < config.peers@.len() ==> (#[trigger] config.peers@[i]).id@
                == args.peer_ids@[i]@ && config.peers@[i].addr@ == args.peers@[i]@,
        config.election_timeout_min == 150 * config::NANOS_PER_MILLI,
        config.election_timeout_max == 300 * config::NANOS_PER_MILLI,
        config.heartbeat_interval == 50 * config::NANOS_PER_MILLI,
{
    let mut peers: Vec<NodeInfo> = Vec::new();
    let mut i: usize = 0;
    while i < args.peer_ids.len() && i < args.peers.len()
        invariant
            i <= args.peer_ids@.len(),
            i <= args.peers@.len(),
            peers@.len() == i,
            forall|j: int|
                0 <= j < i ==> (#[trigger] peers@[j]).id@ == args.peer_ids@[j]@
                    && peers@[j].addr@ == args.peers@[j]@,
        decreases args.peer_ids@.len() - i,
    {
        peers.push(NodeInfo { id: args.peer_ids[i].clone(), addr: args.peers[i].clone() });
        i = i + 1;
    }
    let this_node = NodeInfo { id: args.id.clone(), addr: args.addr.clone() };
    ClusterConfig::new(this_node, peers, args.data_dir.clone())
}

} // verus!
