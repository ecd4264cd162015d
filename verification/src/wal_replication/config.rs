//! Cluster and node configuration.
use vstd::prelude::*;

use crate::wal_core::segment::DEFAULT_MAX_SEGMENT_BYTES;
use crate::wal_core::wal::WalConfig;
use crate::text;

verus! {

/// A unique name for a node within the cluster (e.g. `"node-1"`).
pub type NodeId = String;

/// A span of time, or a reading of a monotonic clock, in nanoseconds.
pub type Nanos = u128;

/// Nanoseconds in a millisecond.
pub const NANOS_PER_MILLI: u128 = 1_000_000;

/// Address + identity of a single cluster member.
#[derive(Debug)]
pub struct NodeInfo {
    pub id: NodeId,
    /// gRPC endpoint, e.g. `"http://127.0.0.1:7001"`.
    pub addr: String,
}

impl Clone for NodeInfo {
    fn clone(&self) -> (copy: Self)
        ensures
            copy == self,
    {
        NodeInfo { id: self.id.clone(), addr: self.addr.clone() }
    }
}

/// Full configuration for one node and the cluster it belongs to.
#[derive(Debug)]
pub struct ClusterConfig {
    /// This node's identity and address.
    pub this_node: NodeInfo,
    /// All *other* members of the cluster.
    pub peers: Vec<NodeInfo>,
    /// Directory for this node's WAL segments and persistent Raft state.
    pub data_dir: String,
    /// Minimum election timeout (Raft recommends 150–300 ms).
    pub election_timeout_min: Nanos,
    /// Maximum election timeout.
    pub election_timeout_max: Nanos,
    /// How often the leader sends heartbeats (must be << election timeout).
    pub heartbeat_interval: Nanos,
}

impl Clone for ClusterConfig {
    fn clone(&self) -> (copy: Self)
        ensures
            copy.this_node == self.this_node,
            copy.peers@ == self.peers@,
            copy.data_dir == self.data_dir,
            copy.election_timeout_min == self.election_timeout_min,
            copy.election_timeout_max == self.election_timeout_max,
            copy.heartbeat_interval == self.heartbeat_interval,
    {
        let mut peers: Vec<NodeInfo> = Vec::new();
        let mut i: usize = 0;
        while i < self.peers.len()
            invariant
                i <= self.peers@.len(),
                peers@ == self.peers@.take(i as int),
            decreases self.peers@.len() - i,
        {
            peers.push(self.peers[i].clone());
            assert(peers@ =~= self.peers@.take(i + 1));
            i = i + 1;
        }
        assert(peers@ =~= self.peers@);
        ClusterConfig {
            this_node: self.this_node.clone(),
            peers,
            data_dir: self.data_dir.clone(),
            election_timeout_min: self.election_timeout_min,
            election_timeout_max: self.election_timeout_max,
            heartbeat_interval: self.heartbeat_interval,
        }
    }
}

/// The votes or acknowledgements that make a majority of `size` members.
pub open spec fn majority(size: int) -> int {
    size / 2 + 1
}

/// A span of time in whole milliseconds, as far as 64 bits hold it.
pub open spec fn millis(span: Nanos) -> u64 {
    (span / NANOS_PER_MILLI) as u64
}

impl ClusterConfig {
    /// Sensible defaults. Override fields as needed.
    pub fn new(this_node: NodeInfo, peers: Vec<NodeInfo>, data_dir: String) -> (config:
        ClusterConfig)
        ensures
            config.this_node == this_node,
            config.peers == peers,
            config.data_dir == data_dir,
            config.election_timeout_min == 150 * NANOS_PER_MILLI,
            config.election_timeout_max == 300 * NANOS_PER_MILLI,
            config.heartbeat_interval == 50 * NANOS_PER_MILLI,
    {
        ClusterConfig {
            this_node,
            peers,
            data_dir,
            election_timeout_min: 150 * NANOS_PER_MILLI,
            election_timeout_max: 300 * NANOS_PER_MILLI,
            heartbeat_interval: 50 * NANOS_PER_MILLI,
        }
    }

    /// Total cluster size (this node + peers).
    pub fn cluster_size(&self) -> (size: usize)
        requires
            self.peers@.len() < usize::MAX,
        ensures
            size == self.peers@.len() + 1,
    {
        self.peers.len() + 1
    }

    /// Minimum votes needed to win an election or commit an entry.
    pub fn quorum(&self) -> (quorum: usize)
        requires
            self.peers@.len() < usize::MAX,
        ensures
            quorum == majority(self.peers@.len() as int + 1),
    {
        self.cluster_size() / 2 + 1
    }

    /// The configuration of the WAL under the replicated log.
    pub fn wal_config(&self) -> (config: WalConfig)
        ensures
            config.dir@ == text::joined(self.data_dir@, "wal"@),
            config.max_segment_bytes == 64 * 1024 * 1024,
            config.sync_writes,
    {
        WalConfig {
            dir: text::join(self.data_dir.as_str(), "wal"),
            max_segment_bytes: DEFAULT_MAX_SEGMENT_BYTES,
            sync_writes: true,
        }
    }

    /// Whether the election timeouts leave something to choose from.
    pub fn has_timeout_range(&self) -> (r: bool)
        ensures
            r == (millis(self.election_timeout_min) <= millis(self.election_timeout_max)),
    {
        (self.election_timeout_min / NANOS_PER_MILLI) as u64 <= (self.election_timeout_max
            / NANOS_PER_MILLI) as u64
    }
}

/// Calls `rand::Rng::random_range` on the thread's generator, `rand::rng`, with
/// the range `min..=max`: some number of that range comes back. Which one is left
/// to chance. An empty range panics, so there is none; where the operating system
/// has no randomness to give, `rand::rng` panics too.
#[verifier::external_body]
fn random_between(min: u64, max: u64) -> (n: u64)
    requires
        min <= max,
    ensures
        min <= n <= max,
{
    rand::Rng::random_range(&mut rand::rng(), min..=max)
}

/// A random election timeout between the configured bounds, in whole
/// milliseconds.
pub fn random_election_timeout(config: &ClusterConfig) -> (timeout: Nanos)
    requires
        millis(config.election_timeout_min) <= millis(config.election_timeout_max),
    ensures
        timeout % NANOS_PER_MILLI == 0,
        millis(config.election_timeout_min) * NANOS_PER_MILLI <= timeout,
        timeout <= millis(config.election_timeout_max) * NANOS_PER_MILLI,
{
    let min: u64 = (config.election_timeout_min / NANOS_PER_MILLI) as u64;
    let max: u64 = (config.election_timeout_max / NANOS_PER_MILLI) as u64;
    let ms: u64 = random_between(min, max);
    timeout_of(ms)
}

/// A timeout of `ms` milliseconds.
pub fn timeout_of(ms: u64) -> (timeout: Nanos)
    ensures
        timeout == ms * NANOS_PER_MILLI,
        timeout % NANOS_PER_MILLI == 0,
{
    ms as u128 * NANOS_PER_MILLI
}

// ─── Laws ────────────────────────────────────────────────────────────────────

/// A majority is within reach, and two majorities do not fit side by side into
/// one cluster.
pub proof fn majorities_overlap(size: int)
    requires
        size >= 1,
    ensures
        1 <= majority(size) <= size,
        2 * majority(size) > size,
{
}

/// Any two majorities of one cluster have a member in common: that is why two
/// candidates cannot both win a term, and why a committed entry is known to
/// every later leader's electorate.
pub proof fn two_quorums_share_a_member<A>(members: Set<A>, a: Set<A>, b: Set<A>)
    requires
        members.finite(),
        a.subset_of(members),
        b.subset_of(members),
        a.len() >= majority(members.len() as int),
        b.len() >= majority(members.len() as int),
    ensures
        exists|m: A| a.contains(m) && b.contains(m),
{
    vstd::set_lib::lemma_len_subset(a, members);
    vstd::set_lib::lemma_len_subset(b, members);
    if a.disjoint(b) {
        vstd::set_lib::lemma_set_disjoint_lens(a, b);
        assert((a + b).subset_of(members));
        vstd::set_lib::lemma_len_subset(a + b, members);
    }
}

/// A majority is the least number of members that is more than half of the cluster.
pub proof fn majority_is_the_least_above_half(size: int, n: int)
    requires
        size >= 0,
    ensures
        n >= majority(size) <==> 2 * n > size,
{
}

/// A span in milliseconds is how many whole milliseconds fit into it.
pub proof fn milliseconds_that_fit(span: Nanos)
    requires
        span / 1_000_000 <= u64::MAX,
    ensures
        millis(span) * 1_000_000 <= span < (millis(span) + 1) * 1_000_000,
{
}

} // verus!
