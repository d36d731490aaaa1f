//! Configuration from environment variables.

use rustkv::config::{bootstrap_addrs, parse_peer_map, NodeConfig};
use rustkv::raft::types::MemberAddr;

fn vars<'a>(pairs: &'a [(&'a str, &'a str)]) -> impl Fn(&str) -> Option<String> + 'a {
    move |name| {
        pairs
            .iter()
            .find(|(k, _)| *k == name)
            .map(|(_, v)| v.to_string())
    }
}

#[test]
fn defaults_to_a_single_node_cluster() {
    let config = NodeConfig::from_vars(|_| None).unwrap();
    assert_eq!(config.id, 1);
    assert_eq!(config.listen, "127.0.0.1:8080");
    assert_eq!(config.raft_listen, "127.0.0.1:9080");
    assert_eq!(config.data_dir, "./rustkv-data");
    assert!(config.peers.is_empty());
    assert!(config.peer_client_urls.is_empty());
    assert_eq!(config.snapshot_threshold, None, "snapshotting is opt-in");
    assert!(!config.join, "join mode is opt-in");
    assert_eq!(config.rpc_timeout_ms, 150, "rpc timeout defaults to 150ms");
    assert_eq!(
        config.max_append_bytes,
        Some(1024 * 1024),
        "the batch cap defaults ON in the binary (phase 20a)"
    );
    assert_eq!(
        config.assumed_bandwidth,
        Some(8 * 1024 * 1024),
        "the size-aware timeout defaults ON in the binary (phase 20b)"
    );
    assert_eq!(
        config.snapshot_chunk_bytes,
        Some(4 * 1024 * 1024),
        "snapshot chunking defaults ON in the binary (phase 20c)"
    );
}

#[test]
fn parses_the_snapshot_chunk_size() {
    let config = NodeConfig::from_vars(vars(&[("RUSTKV_SNAPSHOT_CHUNK_BYTES", "1024")])).unwrap();
    assert_eq!(config.snapshot_chunk_bytes, Some(1024));
    // 0 is the explicit opt-out: single-shot.
    let config = NodeConfig::from_vars(vars(&[("RUSTKV_SNAPSHOT_CHUNK_BYTES", "0")])).unwrap();
    assert_eq!(config.snapshot_chunk_bytes, None);
    assert!(NodeConfig::from_vars(vars(&[("RUSTKV_SNAPSHOT_CHUNK_BYTES", "big")])).is_err());
}

#[test]
fn parses_the_assumed_bandwidth() {
    let config = NodeConfig::from_vars(vars(&[("RUSTKV_ASSUMED_BANDWIDTH", "1048576")])).unwrap();
    assert_eq!(config.assumed_bandwidth, Some(1048576));
    // 0 is the explicit opt-out: flat timeout.
    let config = NodeConfig::from_vars(vars(&[("RUSTKV_ASSUMED_BANDWIDTH", "0")])).unwrap();
    assert_eq!(config.assumed_bandwidth, None);
    assert!(NodeConfig::from_vars(vars(&[("RUSTKV_ASSUMED_BANDWIDTH", "gigabit")])).is_err());
}

#[test]
fn parses_the_append_batch_cap() {
    let config = NodeConfig::from_vars(vars(&[("RUSTKV_MAX_APPEND_BYTES", "65536")])).unwrap();
    assert_eq!(config.max_append_bytes, Some(65536));
    // 0 is the explicit opt-out: unbounded.
    let config = NodeConfig::from_vars(vars(&[("RUSTKV_MAX_APPEND_BYTES", "0")])).unwrap();
    assert_eq!(config.max_append_bytes, None);
    assert!(NodeConfig::from_vars(vars(&[("RUSTKV_MAX_APPEND_BYTES", "big")])).is_err());
}

#[test]
fn parses_and_validates_the_rpc_timeout() {
    let config = NodeConfig::from_vars(vars(&[("RUSTKV_RPC_TIMEOUT_MS", "2000")])).unwrap();
    assert_eq!(config.rpc_timeout_ms, 2000);
    assert!(NodeConfig::from_vars(vars(&[("RUSTKV_RPC_TIMEOUT_MS", "0")])).is_err());
    assert!(NodeConfig::from_vars(vars(&[("RUSTKV_RPC_TIMEOUT_MS", "fast")])).is_err());
}

/// Advertise addresses default to the listen addresses (the membership log
/// embeds whatever is advertised, so nodes binding 0.0.0.0 must override
/// them).
#[test]
fn advertise_addresses_default_to_listen_and_can_be_overridden() {
    let config = NodeConfig::from_vars(vars(&[
        ("RUSTKV_LISTEN", "0.0.0.0:8080"),
        ("RUSTKV_RAFT_LISTEN", "0.0.0.0:9080"),
    ]))
    .unwrap();
    assert_eq!(config.advertise_raft_addr, "0.0.0.0:9080");
    assert_eq!(config.advertise_client_url, "http://0.0.0.0:8080");

    let config = NodeConfig::from_vars(vars(&[
        ("RUSTKV_LISTEN", "0.0.0.0:8080"),
        ("RUSTKV_RAFT_LISTEN", "0.0.0.0:9080"),
        ("RUSTKV_ADVERTISE_RAFT_ADDR", "node2-raft:9080"),
        ("RUSTKV_ADVERTISE_CLIENT_URL", "http://localhost:8082"),
    ]))
    .unwrap();
    assert_eq!(config.advertise_raft_addr, "node2-raft:9080");
    assert_eq!(config.advertise_client_url, "http://localhost:8082");
}

#[test]
fn parses_the_join_flag() {
    for (value, expected) in [("1", true), ("true", true), ("0", false), ("false", false)] {
        let config = NodeConfig::from_vars(vars(&[("RUSTKV_JOIN", value)])).unwrap();
        assert_eq!(config.join, expected, "RUSTKV_JOIN={value}");
    }
    assert!(NodeConfig::from_vars(vars(&[("RUSTKV_JOIN", "yes")])).is_err());
}

#[test]
fn parses_and_validates_the_snapshot_threshold() {
    let config = NodeConfig::from_vars(vars(&[("RUSTKV_SNAPSHOT_THRESHOLD", "1000")])).unwrap();
    assert_eq!(config.snapshot_threshold, Some(1000));
    assert_eq!(config.snapshot_trailing, 0, "trailing defaults to 0");
    // 0 would mean "compact on every apply, even at the boundary": rejected
    // rather than silently clamped.
    assert!(NodeConfig::from_vars(vars(&[("RUSTKV_SNAPSHOT_THRESHOLD", "0")])).is_err());
    assert!(NodeConfig::from_vars(vars(&[("RUSTKV_SNAPSHOT_THRESHOLD", "abc")])).is_err());
}

#[test]
fn parses_the_snapshot_trailing_window() {
    let config = NodeConfig::from_vars(vars(&[
        ("RUSTKV_SNAPSHOT_THRESHOLD", "1000"),
        ("RUSTKV_SNAPSHOT_TRAILING", "5000"),
    ]))
    .unwrap();
    assert_eq!(config.snapshot_trailing, 5000);
    // 0 is legal (compact immediately, the default behavior).
    let config = NodeConfig::from_vars(vars(&[("RUSTKV_SNAPSHOT_TRAILING", "0")])).unwrap();
    assert_eq!(config.snapshot_trailing, 0);
    assert!(NodeConfig::from_vars(vars(&[("RUSTKV_SNAPSHOT_TRAILING", "abc")])).is_err());
}

#[test]
fn parses_a_full_cluster_config() {
    let config = NodeConfig::from_vars(vars(&[
        ("RUSTKV_NODE_ID", "2"),
        ("RUSTKV_LISTEN", "0.0.0.0:8082"),
        ("RUSTKV_RAFT_LISTEN", "0.0.0.0:9082"),
        ("RUSTKV_DATA_DIR", "/data"),
        ("RUSTKV_PEERS", "1=n1:9080, 3=n3:9080"),
        (
            "RUSTKV_PEER_CLIENT_URLS",
            "1=http://n1:8080,3=http://n3:8080",
        ),
    ]))
    .unwrap();
    assert_eq!(config.id, 2);
    assert_eq!(config.peers[&1], "n1:9080");
    assert_eq!(config.peers[&3], "n3:9080");
    assert_eq!(config.peer_client_urls[&3], "http://n3:8080");
}

#[test]
fn rejects_bad_input() {
    assert!(NodeConfig::from_vars(vars(&[("RUSTKV_NODE_ID", "abc")])).is_err());
    assert!(NodeConfig::from_vars(vars(&[("RUSTKV_PEERS", "nonsense")])).is_err());
    assert!(NodeConfig::from_vars(vars(&[("RUSTKV_PEERS", "x=addr")])).is_err());
    assert!(NodeConfig::from_vars(vars(&[("RUSTKV_PEERS", "2=a,2=b")])).is_err());
    // A node must not list itself as a peer.
    assert!(NodeConfig::from_vars(vars(&[("RUSTKV_PEERS", "1=self:9080")])).is_err());
}

fn complaint(pairs: &[(&str, &str)]) -> String {
    NodeConfig::from_vars(vars(pairs)).unwrap_err()
}

#[test]
fn complaints_name_the_variable_and_quote_the_value() {
    assert_eq!(
        complaint(&[("RUSTKV_NODE_ID", "a\"b\n")]),
        "RUSTKV_NODE_ID must be a number, got \"a\\\"b\\n\""
    );
    assert_eq!(
        complaint(&[("RUSTKV_PEERS", "nonsense")]),
        "RUSTKV_PEERS: expected id=value, got \"nonsense\""
    );
    assert_eq!(
        complaint(&[("RUSTKV_PEERS", "x=addr")]),
        "RUSTKV_PEERS: bad node id in \"x=addr\""
    );
    assert_eq!(
        complaint(&[("RUSTKV_PEER_CLIENT_URLS", "2=a,2=b")]),
        "RUSTKV_PEER_CLIENT_URLS: duplicate node id 2"
    );
    assert_eq!(
        complaint(&[("RUSTKV_PEERS", "1=self:9080")]),
        "RUSTKV_PEERS must list only OTHER members, but contains this node's id 1"
    );
    assert_eq!(
        complaint(&[("RUSTKV_SNAPSHOT_THRESHOLD", "0")]),
        "RUSTKV_SNAPSHOT_THRESHOLD must be a number >= 1, got \"0\""
    );
    assert_eq!(
        complaint(&[("RUSTKV_SNAPSHOT_TRAILING", "-1")]),
        "RUSTKV_SNAPSHOT_TRAILING must be a number, got \"-1\""
    );
    assert_eq!(
        complaint(&[("RUSTKV_MAX_APPEND_BYTES", "big")]),
        "RUSTKV_MAX_APPEND_BYTES must be a number (0 = unbounded), got \"big\""
    );
    assert_eq!(
        complaint(&[("RUSTKV_SNAPSHOT_CHUNK_BYTES", "")]),
        "RUSTKV_SNAPSHOT_CHUNK_BYTES must be a number (0 = single-shot), got \"\""
    );
    assert_eq!(
        complaint(&[("RUSTKV_RPC_TIMEOUT_MS", "0")]),
        "RUSTKV_RPC_TIMEOUT_MS must be a number >= 1, got \"0\""
    );
    assert_eq!(
        complaint(&[("RUSTKV_ASSUMED_BANDWIDTH", "x")]),
        "RUSTKV_ASSUMED_BANDWIDTH must be bytes/sec (0 = flat timeout), got \"x\""
    );
    assert_eq!(
        complaint(&[("RUSTKV_JOIN", "yes")]),
        "RUSTKV_JOIN must be 0/1/true/false, got \"yes\""
    );
}

#[test]
fn the_first_fault_counts() {
    assert_eq!(
        complaint(&[("RUSTKV_JOIN", "yes"), ("RUSTKV_NODE_ID", "?")]),
        "RUSTKV_NODE_ID must be a number, got \"?\""
    );
    assert_eq!(
        complaint(&[("RUSTKV_RPC_TIMEOUT_MS", "?"), ("RUSTKV_PEERS", "1")]),
        "RUSTKV_PEERS: expected id=value, got \"1\""
    );
}

#[test]
fn numbers_follow_the_usual_grammar() {
    let id = |raw: &str| NodeConfig::from_vars(vars(&[("RUSTKV_NODE_ID", raw)])).map(|c| c.id);
    assert_eq!(id("+7"), Ok(7));
    assert_eq!(id("007"), Ok(7));
    assert_eq!(id("18446744073709551615"), Ok(u64::MAX));
    for bad in ["", "+", "18446744073709551616", " 7", "7 ", "1_000", "0x10", "٣"] {
        assert!(id(bad).is_err(), "{bad:?}");
    }
}

#[test]
fn peer_maps_tolerate_blanks_and_keep_later_equals_signs() {
    let map = parse_peer_map(" 2 = a=b ,, \u{2003}3=\u{a0}c ,").unwrap();
    assert_eq!(map.len(), 2);
    assert_eq!(map[&2], "a=b");
    assert_eq!(map[&3], "c");
    assert!(parse_peer_map("").unwrap().is_empty());
    assert_eq!(
        parse_peer_map("2=a, =b").unwrap_err(),
        "bad node id in \"=b\""
    );
}

#[test]
fn peer_lists_join_and_their_order_does_not_matter() {
    let table = |raw: &str| parse_peer_map(raw);
    let joined = table("1=a, 2=b,3=c").unwrap();
    assert_eq!(joined.len(), 3);
    assert_eq!(table("3=c,1=a, 2=b").unwrap(), joined);
    assert_eq!(table(",,").unwrap().len(), 0);
    assert!(table("1=a,2=b,1=a").is_err(), "a repeated id, same value");
    assert!(table("1=a,oops").is_err());
    assert!(table("oops,1=a").is_err());
}

#[test]
fn only_the_documented_variables_are_asked() {
    let asked = std::cell::RefCell::new(Vec::new());
    let config = NodeConfig::from_vars(|name| {
        asked.borrow_mut().push(name.to_string());
        None
    });
    assert!(config.is_ok());
    let mut names = asked.into_inner();
    names.sort();
    names.dedup();
    assert_eq!(
        names,
        vec![
            "RUSTKV_ADVERTISE_CLIENT_URL",
            "RUSTKV_ADVERTISE_RAFT_ADDR",
            "RUSTKV_ASSUMED_BANDWIDTH",
            "RUSTKV_DATA_DIR",
            "RUSTKV_JOIN",
            "RUSTKV_LISTEN",
            "RUSTKV_MAX_APPEND_BYTES",
            "RUSTKV_NODE_ID",
            "RUSTKV_PEERS",
            "RUSTKV_PEER_CLIENT_URLS",
            "RUSTKV_RAFT_LISTEN",
            "RUSTKV_RPC_TIMEOUT_MS",
            "RUSTKV_SNAPSHOT_CHUNK_BYTES",
            "RUSTKV_SNAPSHOT_THRESHOLD",
            "RUSTKV_SNAPSHOT_TRAILING",
        ]
    );
    // Whatever else is set changes nothing.
    let plain = [("RUSTKV_NODE_ID", "3"), ("RUSTKV_PEERS", "1=a:1")];
    let noisy = [
        ("RUSTKV_NODE_ID", "3"),
        ("RUSTKV_OTHER", "x"),
        ("RUSTKV_PEERS", "1=a:1"),
    ];
    assert_eq!(
        NodeConfig::from_vars(vars(&plain)),
        NodeConfig::from_vars(vars(&noisy))
    );
}

fn addr(raft: &str, client: &str) -> MemberAddr {
    MemberAddr {
        raft: raft.to_string(),
        client: client.to_string(),
    }
}

#[test]
fn the_bootstrap_members_are_the_peers_and_the_node_as_advertised() {
    let config = NodeConfig::from_vars(vars(&[
        ("RUSTKV_NODE_ID", "2"),
        ("RUSTKV_LISTEN", "0.0.0.0:8080"),
        ("RUSTKV_RAFT_LISTEN", "0.0.0.0:9080"),
        ("RUSTKV_PEERS", "3=c:9080,1=a:9080"),
        ("RUSTKV_PEER_CLIENT_URLS", "1=http://a:8080,9=http://x:1"),
        ("RUSTKV_ADVERTISE_RAFT_ADDR", "b:9080"),
        ("RUSTKV_ADVERTISE_CLIENT_URL", "http://b:8080"),
    ]))
    .unwrap();
    let members = bootstrap_addrs(&config);
    assert_eq!(members.to_ids(), vec![1, 2, 3]);
    assert_eq!(members.get(1), Some(&addr("a:9080", "http://a:8080")));
    assert_eq!(members.get(2), Some(&addr("b:9080", "http://b:8080")));
    assert_eq!(members.get(3), Some(&addr("c:9080", "")));
    assert_eq!(members.get(9), None, "a client URL makes no member");

    // The books leave out the node itself and whoever has no address.
    let raft = members.raft_addrs(2);
    assert_eq!(raft.len(), 2);
    assert_eq!((raft[&1].as_str(), raft[&3].as_str()), ("a:9080", "c:9080"));
    let client = members.client_urls(2);
    assert_eq!(client.len(), 1);
    assert_eq!(client[&1], "http://a:8080");
    assert_eq!(members.client_urls(1).len(), 1, "seen from another member");
}
