use axon::identity::AgentId;
use axon::net::{parse_socket_addr, SocketAddress};
use axon::peer_table::{canonical_agent_id, ConnectionStatus, KnownPeer, PeerSource, PeerTable, StaticPeerConfig};

const SECOND: u64 = 1_000_000_000;

fn addr(text: &str) -> SocketAddress {
    parse_socket_addr(&text.chars().collect()).expect("valid address")
}

fn pinned(table: &PeerTable) -> Vec<String> {
    table.pubkey_map().into_iter().map(|(k, _)| k).collect()
}

#[test]
fn canonical_agent_id_lowercases_ascii() {
    assert_eq!(canonical_agent_id("ED25519.ABCdef").as_str(), "ed25519.abcdef");
}

#[test]
fn upsert_discovered_inserts_and_refreshes() {
    let mut table = PeerTable::new();
    table.upsert_discovered(AgentId::new("Peer_A"), addr("127.0.0.1:7100"), "key1".to_string(), SECOND);
    let rec = table.get("peer_a").expect("canonical lookup");
    assert_eq!(rec.source, PeerSource::Discovered);
    assert_eq!(rec.status, ConnectionStatus::Discovered);
    table.upsert_discovered(AgentId::new("peer_a"), addr("127.0.0.1:7101"), "key2".to_string(), 2 * SECOND);
    let rec = table.get("PEER_A").unwrap();
    assert_eq!(rec.addr, addr("127.0.0.1:7101"));
    assert_eq!(rec.pubkey, "key2");
    assert_eq!(rec.last_seen, 2 * SECOND);
    assert_eq!(table.list().len(), 1);
}

#[test]
fn upsert_discovered_evicts_stale_cached_at_same_addr() {
    let mut table = PeerTable::new();
    table.upsert_cached(
        &KnownPeer { agent_id: AgentId::new("old_peer"), addr: addr("10.0.0.1:7100"), pubkey: "old".to_string(), last_seen_unix_ms: 0 },
        SECOND,
    );
    assert!(table.get("old_peer").is_some());
    table.upsert_discovered(AgentId::new("new_peer"), addr("10.0.0.1:7100"), "new".to_string(), 2 * SECOND);
    assert!(table.get("old_peer").is_none(), "stale cached peer at the same address must be evicted");
    assert!(table.get("new_peer").is_some());
    assert_eq!(pinned(&table), vec!["new_peer".to_string()]);
}

#[test]
fn upsert_discovered_blocked_by_static_at_same_addr() {
    let mut table = PeerTable::new();
    table.upsert_static(
        &StaticPeerConfig { agent_id: AgentId::new("static_peer"), addr: addr("10.0.0.2:7100"), pubkey: "s".to_string() },
        SECOND,
    );
    table.upsert_discovered(AgentId::new("discovered_peer"), addr("10.0.0.2:7100"), "d".to_string(), 2 * SECOND);
    assert!(table.get("discovered_peer").is_none());
    assert!(table.get("static_peer").is_some());
    assert_eq!(pinned(&table), vec!["static_peer".to_string()]);
}

#[test]
fn discovered_refresh_never_rewrites_a_static_record() {
    let mut table = PeerTable::new();
    table.upsert_static(
        &StaticPeerConfig { agent_id: AgentId::new("peer"), addr: addr("10.0.0.3:7100"), pubkey: "s".to_string() },
        SECOND,
    );
    table.upsert_discovered(AgentId::new("peer"), addr("10.0.0.4:7100"), "d".to_string(), 5 * SECOND);
    let rec = table.get("peer").unwrap();
    assert_eq!(rec.source, PeerSource::Static);
    assert_eq!(rec.addr, addr("10.0.0.3:7100"));
    assert_eq!(rec.pubkey, "s");
    assert_eq!(rec.last_seen, 5 * SECOND);
}

#[test]
fn upsert_static_evicts_all_at_same_addr() {
    let mut table = PeerTable::new();
    table.upsert_discovered(AgentId::new("disc_a"), addr("10.0.0.5:7100"), "a".to_string(), SECOND);
    table.upsert_static(
        &StaticPeerConfig { agent_id: AgentId::new("static_new"), addr: addr("10.0.0.5:7100"), pubkey: "n".to_string() },
        SECOND,
    );
    assert_eq!(table.list().len(), 1);
    assert!(table.get("static_new").is_some());
    assert!(table.get("disc_a").is_none());
    assert_eq!(pinned(&table), vec!["static_new".to_string()]);
}

#[test]
fn upsert_cached_keeps_an_existing_record() {
    let mut table = PeerTable::new();
    table.upsert_discovered(AgentId::new("peer"), addr("10.0.0.6:7100"), "live".to_string(), SECOND);
    table.upsert_cached(
        &KnownPeer { agent_id: AgentId::new("peer"), addr: addr("10.0.0.7:7100"), pubkey: "cached".to_string(), last_seen_unix_ms: 0 },
        2 * SECOND,
    );
    let rec = table.get("peer").unwrap();
    assert_eq!(rec.source, PeerSource::Discovered);
    assert_eq!(rec.pubkey, "live");
}

#[test]
fn status_transitions_and_removal() {
    let mut table = PeerTable::new();
    table.upsert_discovered(AgentId::new("peer"), addr("10.0.0.8:7100"), "k".to_string(), SECOND);
    assert_eq!(table.peers_needing_connection().len(), 1);
    table.set_status("peer", ConnectionStatus::Connecting);
    assert!(table.peers_needing_connection().is_empty());
    table.set_connected("peer", Some(1.5f64.to_bits()));
    let rec = table.get("peer").unwrap();
    assert_eq!(rec.status, ConnectionStatus::Connected);
    assert_eq!(rec.rtt_ms.map(f64::from_bits), Some(1.5));
    table.set_rtt("peer", 2.0f64.to_bits());
    assert_eq!(table.get("peer").unwrap().rtt_ms.map(f64::from_bits), Some(2.0));
    table.set_disconnected("peer");
    let rec = table.get("peer").unwrap();
    assert_eq!(rec.status, ConnectionStatus::Disconnected);
    assert_eq!(rec.rtt_ms, None);
    assert!(table.remove("PEER").is_some());
    assert!(table.remove("peer").is_none());
    assert!(pinned(&table).is_empty());
}

#[test]
fn stale_cleanup_boundary_exactly_at_ttl() {
    let mut table = PeerTable::new();
    let ttl = 60 * SECOND;
    table.upsert_discovered(AgentId::new("peer"), addr("10.0.0.9:7100"), "k".to_string(), 100 * SECOND);
    table.upsert_static(
        &StaticPeerConfig { agent_id: AgentId::new("static"), addr: addr("10.0.0.10:7100"), pubkey: "s".to_string() },
        0,
    );
    assert!(table.remove_stale(100 * SECOND + ttl, ttl).is_empty(), "exactly at TTL the peer survives");
    let removed = table.remove_stale(100 * SECOND + ttl + 1, ttl);
    assert_eq!(removed.len(), 1);
    assert_eq!(removed[0].as_str(), "peer");
    assert!(table.get("static").is_some(), "static peers never go stale");
    table.touch("static", 5);
    assert_eq!(table.get("static").unwrap().last_seen, 5);
}

#[test]
fn list_is_ordered_and_known_peers_carry_the_stamp() {
    let mut table = PeerTable::new();
    table.upsert_discovered(AgentId::new("b"), addr("10.0.1.2:7100"), "kb".to_string(), SECOND);
    table.upsert_discovered(AgentId::new("a"), addr("10.0.1.1:7100"), "ka".to_string(), SECOND);
    let ids: Vec<String> = table.list().into_iter().map(|r| r.agent_id.as_str().to_string()).collect();
    assert_eq!(ids, vec!["a".to_string(), "b".to_string()]);
    let known = table.to_known_peers(42);
    assert_eq!(known.len(), 2);
    assert!(known.iter().all(|k| k.last_seen_unix_ms == 42));
    assert_eq!(known[0].pubkey, "ka");
}
