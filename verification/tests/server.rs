use replicated_wal::wal_replication::config::{
    random_election_timeout, timeout_of, ClusterConfig, NodeInfo, NANOS_PER_MILLI,
};
use replicated_wal::wal_replication::error::RaftError;
use replicated_wal::wal_replication::server::write_response;
use replicated_wal::wal_server::args::{cluster_config, validate_args, Args, ArgsError};
use replicated_wal::wal_server::route::{body, content_type, route, status_code, Route};
use serde_json::Value;

fn info(id: &str) -> NodeInfo {
    NodeInfo { id: id.to_string(), addr: format!("http://{id}") }
}

fn config(peers: usize) -> ClusterConfig {
    let peers = (0..peers).map(|i| info(&format!("p{i}"))).collect();
    ClusterConfig::new(info("me"), peers, "/data".to_string())
}

fn args(id: &str, peer_ids: &[&str], peers: &[&str]) -> Args {
    Args {
        id: id.to_string(),
        addr: "http://127.0.0.1:7001".to_string(),
        grpc_port: 7001,
        peers: peers.iter().map(|s| s.to_string()).collect(),
        peer_ids: peer_ids.iter().map(|s| s.to_string()).collect(),
        data_dir: "/tmp/node".to_string(),
        http_port: 8080,
    }
}

#[test]
fn quorum_is_a_majority() {
    let cases = [(0, 1), (1, 2), (2, 2), (3, 3), (4, 3), (5, 4)];
    for (peers, quorum) in cases {
        let config = config(peers);
        assert_eq!(config.cluster_size(), peers + 1);
        assert_eq!(config.quorum(), quorum);
        assert!(2 * config.quorum() > config.cluster_size());
    }
}

#[test]
fn defaults_of_the_cluster_configuration() {
    let config = config(2);
    assert_eq!(config.election_timeout_min, 150 * NANOS_PER_MILLI);
    assert_eq!(config.election_timeout_max, 300 * NANOS_PER_MILLI);
    assert_eq!(config.heartbeat_interval, 50 * NANOS_PER_MILLI);
    let wal = config.wal_config();
    assert_eq!(wal.dir, "/data/wal");
    assert_eq!(wal.max_segment_bytes, 64 * 1024 * 1024);
    assert!(wal.sync_writes);
}

#[test]
fn election_timeouts_are_drawn_from_the_configured_range() {
    let mut config = config(2);
    let mut seen = Vec::new();
    for _ in 0..200 {
        let timeout = random_election_timeout(&config);
        assert!(timeout >= 150 * NANOS_PER_MILLI && timeout <= 300 * NANOS_PER_MILLI);
        assert_eq!(timeout % NANOS_PER_MILLI, 0);
        if !seen.contains(&timeout) {
            seen.push(timeout);
        }
    }
    assert!(seen.len() > 1);
    // Parts of a millisecond do not count.
    config.election_timeout_min = 7 * NANOS_PER_MILLI + 5;
    config.election_timeout_max = 7 * NANOS_PER_MILLI + 9;
    assert!(config.has_timeout_range());
    assert_eq!(random_election_timeout(&config), 7 * NANOS_PER_MILLI);
    config.election_timeout_min = 8 * NANOS_PER_MILLI;
    assert!(!config.has_timeout_range());
    assert_eq!(timeout_of(3), 3_000_000);
}

#[test]
fn write_results_become_answers() {
    let ok = write_response(Ok(12)).unwrap();
    assert_eq!((ok.success, ok.index, ok.leader_hint.as_str()), (true, 12, ""));
    let hint = Some("node-2".to_string());
    let other = write_response(Err(RaftError::NotLeader { hint })).unwrap();
    assert_eq!((other.success, other.index, other.leader_hint.as_str()), (false, 0, "node-2"));
    let nobody = write_response(Err(RaftError::NotLeader { hint: None })).unwrap();
    assert_eq!((nobody.success, nobody.index, nobody.leader_hint.as_str()), (false, 0, ""));
    let failed = write_response(Err(RaftError::QuorumNotReached));
    assert!(matches!(failed, Err(RaftError::QuorumNotReached)));
    let down = write_response(Err(RaftError::Shutdown));
    assert!(matches!(down, Err(RaftError::Shutdown)));
}

#[test]
fn arguments_need_a_name_and_matching_peers() {
    assert!(validate_args(&args("node-1", &["a", "b"], &["x", "y"])).is_ok());
    assert!(validate_args(&args("node-1", &[], &[])).is_ok());
    assert!(matches!(validate_args(&args("", &["a"], &[])), Err(ArgsError::EmptyId)));
    match validate_args(&args("node-1", &["a", "b"], &["x"])) {
        Err(ArgsError::PeerCountMismatch { peer_ids, peers }) => assert_eq!((peer_ids, peers), (2, 1)),
        _ => panic!("one peer has no address"),
    }
}

#[test]
fn arguments_describe_the_cluster() {
    let config = cluster_config(&args("node-1", &["node-2", "node-3"], &["http://b", "http://c"]));
    assert_eq!(config.this_node.id, "node-1");
    assert_eq!(config.this_node.addr, "http://127.0.0.1:7001");
    assert_eq!(config.data_dir, "/tmp/node");
    assert_eq!(config.peers.len(), 2);
    assert_eq!(config.peers[1].id, "node-3");
    assert_eq!(config.peers[1].addr, "http://c");
    assert_eq!(config.quorum(), 2);
    assert_eq!(cluster_config(&args("n", &["a", "b"], &["x"])).peers.len(), 1);
}

#[test]
fn routes_and_their_status() {
    let cases = [
        ("/health", Route::Health, 200),
        ("/healthz", Route::Health, 200),
        ("/metrics", Route::Metrics, 200),
        ("/status", Route::Status, 200),
        ("/", Route::NotFound, 404),
        ("/health/", Route::NotFound, 404),
        ("", Route::NotFound, 404),
    ];
    for (path, expected, status) in cases {
        assert_eq!(route(path), expected);
        assert_eq!(status_code(route(path)), status);
    }
}

/// A JSON object as text.
fn object(fields: &[(&str, Value)]) -> String {
    let mut map = serde_json::Map::new();
    for (name, value) in fields {
        map.insert(name.to_string(), value.clone());
    }
    Value::Object(map).to_string()
}

#[test]
fn answers_are_json_but_for_the_metrics() {
    let metrics = || "wal_appends_total 3\n".to_string();
    let ok = Value::from("ok");
    assert_eq!(body(Route::Health, metrics()), object(&[("status", ok.clone())]));
    assert_eq!(
        body(Route::Status, metrics()),
        object(&[("status", ok), ("service", Value::from("wal-server"))])
    );
    assert_eq!(
        body(Route::NotFound, metrics()),
        object(&[
            ("error", Value::from("not found")),
            ("available", Value::from(vec!["/health", "/metrics", "/status"])),
        ])
    );
    assert_eq!(body(Route::Metrics, metrics()), "wal_appends_total 3\n");
    assert_eq!(content_type(), "application/json");
}
