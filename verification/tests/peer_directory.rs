use base64::engine::general_purpose::STANDARD;
use base64::Engine as _;

use axon::identity::{AgentId, PeerIdentity};
use axon::net::{parse_socket_addr, SocketAddress};
use axon::peer_directory::directory::{LoadError, PeerDirectory};
use axon::peer_directory::state::{
    MAX_ENROLLED_PEERS, MAX_LOCATORS_PER_PEER, MAX_OBSERVATIONS_PER_PEER, OBSERVATION_STALE_TIMEOUT,
};
use axon::peer_directory::store::{PeerStore, StoreError, StoredPeer, MAX_PEER_STORE_BYTES};
use axon::peer_directory::types::{
    DialTarget, DirectoryError, ObservationId, ObservationSource, ObserveOutcome, PeerLocator, PeerObservation, PeerTrust,
};

const SECOND: u64 = 1_000_000_000;
const TTL: u64 = OBSERVATION_STALE_TIMEOUT;

fn identity(seed: u8) -> PeerIdentity {
    PeerIdentity::from_public_key(&STANDARD.encode([seed; 32])).expect("valid test key")
}

fn addr(text: &str) -> SocketAddress {
    parse_socket_addr(&text.chars().collect()).expect("valid endpoint")
}

fn observation_at(seed: u8, id: &str, endpoint: &str, observed_at: u64) -> PeerObservation {
    let identity = identity(seed);
    PeerObservation::new(
        ObservationId::new(id).expect("valid observation id"),
        identity.agent_id().clone(),
        identity.public_key(),
        Some(addr(endpoint)),
        None,
        ObservationSource::Mdns,
        observed_at,
    )
    .expect("valid observation")
}

fn observation(seed: u8, id: &str, endpoint: &str) -> PeerObservation {
    observation_at(seed, id, endpoint, 100 * SECOND)
}

fn directory() -> PeerDirectory {
    PeerDirectory::load(identity(99).agent_id().clone(), &Vec::new()).expect("load empty directory")
}

fn stored(seed: u8, locators: Vec<PeerLocator>) -> StoredPeer {
    let peer = identity(seed);
    StoredPeer { agent_id: peer.agent_id().clone(), public_key: peer.public_key().to_string(), locators }
}

fn locator(text: &str) -> PeerLocator {
    PeerLocator::parse(text).expect("valid locator")
}

fn observed_endpoints(targets: &[DialTarget]) -> Vec<SocketAddress> {
    targets
        .iter()
        .filter_map(|t| match t {
            DialTarget::Observed(a) => Some(*a),
            DialTarget::Configured(_) => None,
        })
        .collect()
}

#[test]
fn locator_parse_rejects_empty_hosts() {
    assert!(PeerLocator::parse(":7100").is_err(), "empty host must be rejected");
    assert!(PeerLocator::parse("host with space:7100").is_err(), "whitespace in host must be rejected");
}

#[test]
fn store_decode_rejects_oversized_enrolled_set() {
    let peers: Vec<StoredPeer> = (0..=MAX_ENROLLED_PEERS).map(|index| stored(index as u8, Vec::new())).collect();
    assert!(
        PeerStore::decode_document(1, peers).is_err(),
        "more than MAX_ENROLLED_PEERS records must fail validation"
    );
}

#[test]
fn store_decode_rejects_oversized_locator_set() {
    let locators: Vec<PeerLocator> =
        (0..=MAX_LOCATORS_PER_PEER).map(|index| locator(&format!("svc-{index}.internal:{}", 7100 + index))).collect();
    assert!(
        PeerStore::decode_document(1, vec![stored(1, locators)]).is_err(),
        "more than MAX_LOCATORS_PER_PEER locators must fail validation"
    );
}

#[test]
fn store_decode_rejects_wrong_version() {
    assert!(PeerStore::decode_document(999, vec![stored(2, Vec::new())]).is_err());
}

fn store_key(seed: u16) -> (AgentId, String) {
    let mut key_bytes = [0u8; 32];
    key_bytes[..2].copy_from_slice(&seed.to_be_bytes());
    let key = STANDARD.encode(key_bytes);
    let agent_id = AgentId::from_pubkey_base64(&key).expect("valid test key");
    (agent_id, key)
}

#[test]
fn store_decode_accepts_exactly_max_enrolled_peers() {
    let peers: Vec<StoredPeer> = (0..MAX_ENROLLED_PEERS)
        .map(|index| {
            let (agent_id, public_key) = store_key(index as u16);
            StoredPeer { agent_id, public_key, locators: Vec::new() }
        })
        .collect();
    let decoded = PeerStore::decode_document(1, peers).expect("a store at exactly MAX_ENROLLED_PEERS is valid");
    assert_eq!(decoded.len(), MAX_ENROLLED_PEERS);
}

#[test]
fn store_decode_accepts_exactly_max_locators_per_peer() {
    let (agent_id, public_key) = store_key(0);
    let locators: Vec<PeerLocator> =
        (0..MAX_LOCATORS_PER_PEER).map(|index| locator(&format!("svc-{index}.internal:{}", 7100 + index))).collect();
    let decoded = PeerStore::decode_document(1, vec![StoredPeer { agent_id, public_key, locators }])
        .expect("a peer at exactly MAX_LOCATORS_PER_PEER is valid");
    assert_eq!(decoded[0].locators.len(), MAX_LOCATORS_PER_PEER);
}

#[test]
fn decode_refuses_oversized_input_before_parsing() {
    let data = vec![b' '; MAX_PEER_STORE_BYTES + 1];
    let err = PeerStore::check_size(data.len()).expect_err("oversized input must be refused");
    assert!(err.message().contains("maximum"), "unexpected error: {}", err.message());
    assert!(PeerStore::check_size(MAX_PEER_STORE_BYTES).is_ok());
}

#[test]
fn store_decode_rejects_duplicate_agent_ids_and_locators() {
    assert_eq!(
        PeerStore::decode_document(1, vec![stored(3, Vec::new()), stored(3, Vec::new())]).err(),
        Some(StoreError::DuplicateAgentId)
    );
    let dup = vec![locator("a.internal:1"), locator("a.internal:1")];
    assert_eq!(PeerStore::decode_document(1, vec![stored(3, dup)]).err(), Some(StoreError::DuplicateLocators));
}

#[test]
fn discovery_candidate_is_listed_but_not_pinned() {
    let mut directory = directory();
    assert_eq!(directory.observe(observation(1, "mdns:a", "127.0.0.1:7101")), ObserveOutcome::CandidateAdded);
    assert!(directory.pinning_snapshot().is_empty());
    let listed = directory.list();
    assert_eq!(listed.len(), 1);
    assert_eq!(listed[0].trust, PeerTrust::Candidate);
    assert_eq!(listed[0].observed_endpoints, vec![addr("127.0.0.1:7101")]);
    assert!(!directory.is_enrolled(identity(1).agent_id()));
    assert_eq!(directory.observe(observation(1, "mdns:a", "127.0.0.1:7101")), ObserveOutcome::CandidateRefreshed);
}

#[test]
fn observing_the_local_agent_is_ignored() {
    let mut directory = directory();
    assert_eq!(directory.observe(observation(99, "mdns:self", "127.0.0.1:7199")), ObserveOutcome::IgnoredSelf);
    assert!(directory.list().is_empty());
}

#[test]
fn observation_id_reused_by_another_identity_is_refused() {
    let mut directory = directory();
    directory.observe(observation(1, "mdns:shared", "127.0.0.1:7101"));
    assert_eq!(directory.observe(observation(2, "mdns:shared", "127.0.0.1:7102")), ObserveOutcome::IdentityConflict);
    assert_eq!(directory.list().len(), 1);
}

#[test]
fn enroll_candidate_pins_the_peer_and_is_idempotent() {
    let mut directory = directory();
    directory.observe(observation(1, "mdns:a", "127.0.0.1:7101"));
    let enrolled = directory.enroll_candidate(identity(1).agent_id()).expect("candidate enrollment succeeds");
    assert_eq!(enrolled, identity(1));
    let again = directory.enroll_candidate(identity(1).agent_id()).expect("re-enrolling succeeds");
    assert_eq!(again, identity(1));
    let pins = directory.pinning_snapshot();
    assert_eq!(pins, vec![(identity(1).agent_id().as_str().to_string(), identity(1).public_key().to_string())]);
    assert_eq!(
        observed_endpoints(&directory.dial_targets(identity(1).agent_id())),
        vec![addr("127.0.0.1:7101")],
        "the candidate's observations move with the promotion"
    );
    assert_eq!(directory.observe(observation(1, "mdns:a", "127.0.0.1:7101")), ObserveOutcome::EnrolledPeerRefreshed);
}

#[test]
fn enrolling_an_unobserved_candidate_fails() {
    let mut directory = directory();
    match directory.enroll_candidate(identity(5).agent_id()) {
        Err(DirectoryError::NotObserved(a)) => assert_eq!(&a, identity(5).agent_id()),
        other => panic!("unexpected {other:?}"),
    }
}

#[test]
fn enroll_refuses_the_local_agent() {
    let mut directory = directory();
    assert!(matches!(directory.enroll(identity(99), Vec::new()), Err(DirectoryError::LocalAgentId(_))));
    assert!(directory.pinning_snapshot().is_empty());
}

#[test]
fn conflicting_endpoint_is_quarantined_not_evicting() {
    let mut directory = directory();
    directory.enroll(identity(1), Vec::new()).expect("enroll");
    assert_eq!(directory.observe(observation(1, "mdns:a", "127.0.0.1:7200")), ObserveOutcome::EnrolledPeerRefreshed);
    assert_eq!(directory.observe(observation(1, "mdns:a2", "127.0.0.1:7201")), ObserveOutcome::EnrolledPeerRefreshed);
    assert_eq!(directory.observe(observation(2, "mdns:b", "127.0.0.1:7200")), ObserveOutcome::LocatorConflict);
    let targets = directory.dial_targets(identity(1).agent_id());
    assert_eq!(observed_endpoints(&targets), vec![addr("127.0.0.1:7201")], "only the unconflicted endpoint is dialable");
    for view in directory.list() {
        assert!(!view.observed_endpoints.contains(&addr("127.0.0.1:7200")), "the conflicted endpoint is hidden");
    }
    directory.remove_observation(&ObservationId::new("mdns:b").unwrap());
    let targets = directory.dial_targets(identity(1).agent_id());
    assert_eq!(observed_endpoints(&targets), vec![addr("127.0.0.1:7200"), addr("127.0.0.1:7201")]);
}

#[test]
fn dial_targets_list_configured_locators_first() {
    let mut directory = directory();
    directory.enroll(identity(1), vec![locator("b.internal:2"), locator("a.internal:1")]).expect("enroll");
    directory.observe(observation(1, "mdns:a", "127.0.0.1:7300"));
    let targets = directory.dial_targets(identity(1).agent_id());
    assert_eq!(
        targets,
        vec![
            DialTarget::Configured(locator("a.internal:1")),
            DialTarget::Configured(locator("b.internal:2")),
            DialTarget::Observed(addr("127.0.0.1:7300")),
        ]
    );
    assert!(directory.dial_targets(identity(7).agent_id()).is_empty());
}

#[test]
fn locators_accumulate_and_the_bound_is_enforced() {
    let mut directory = directory();
    let first: Vec<PeerLocator> = (0..MAX_LOCATORS_PER_PEER).map(|i| locator(&format!("svc-{i}.internal:{}", 7100 + i))).collect();
    directory.enroll(identity(1), first.clone()).expect("within bounds");
    directory.enroll(identity(1), first).expect("the same locators again stay within bounds");
    let result = directory.enroll(identity(1), vec![locator("extra.internal:1")]);
    assert!(matches!(result, Err(DirectoryError::LocatorCapacity)));
    let pins = directory.pinning_snapshot();
    assert_eq!(pins.len(), 1, "a rejected update keeps the enrollment");
}

#[test]
fn enrolled_capacity_refuses_new_peers_but_not_updates() {
    let mut directory = directory();
    for index in 0..MAX_ENROLLED_PEERS {
        let mut key_bytes = [0u8; 32];
        key_bytes[..2].copy_from_slice(&(index as u16).to_be_bytes());
        let peer = PeerIdentity::from_public_key(&STANDARD.encode(key_bytes)).expect("valid test key");
        directory.enroll(peer, Vec::new()).expect("fill peers");
    }
    assert!(matches!(directory.enroll(identity(200), Vec::new()), Err(DirectoryError::EnrolledCapacity)));
    let mut key_bytes = [0u8; 32];
    key_bytes[..2].copy_from_slice(&3u16.to_be_bytes());
    let existing = PeerIdentity::from_public_key(&STANDARD.encode(key_bytes)).unwrap();
    directory.enroll(existing, vec![locator("svc.internal:9")]).expect("re-enrolling at capacity updates locators");
}

#[test]
fn remove_peer_revokes_trust_and_forgets_its_observations() {
    let mut directory = directory();
    directory.enroll(identity(1), Vec::new()).expect("enroll");
    directory.observe(observation(1, "mdns:a", "127.0.0.1:7400"));
    let revoked = directory.remove_peer(identity(1).agent_id()).expect("revoke");
    assert_eq!(revoked, identity(1));
    assert!(directory.pinning_snapshot().is_empty());
    assert!(directory.list().is_empty());
    assert_eq!(
        directory.observe(observation(1, "mdns:a", "127.0.0.1:7400")),
        ObserveOutcome::CandidateAdded,
        "a post-revocation observation is fresh discovery"
    );
    assert!(matches!(directory.remove_peer(identity(3).agent_id()), Err(DirectoryError::NotEnrolled(_))));
}

#[test]
fn expire_observations_removes_only_stale_claims() {
    let mut directory = directory();
    let now = 1000 * SECOND;
    directory.observe(observation_at(21, "mdns:fresh", "127.0.0.1:7142", now));
    directory.observe(observation_at(22, "mdns:stale", "127.0.0.1:7141", now - TTL - SECOND));
    let removed = directory.expire_observations(now, TTL);
    assert_eq!(removed, vec![identity(22).agent_id().clone()]);
    assert_eq!(
        directory.observe(observation_at(22, "mdns:stale", "127.0.0.1:7143", now)),
        ObserveOutcome::CandidateAdded,
        "expired candidates must be fully forgotten"
    );
}

#[test]
fn expiry_is_strictly_greater_than_the_ttl() {
    let mut directory = directory();
    let seen = 500 * SECOND;
    directory.observe(observation_at(23, "mdns:edge", "127.0.0.1:7150", seen));
    assert!(directory.expire_observations(seen + TTL, TTL).is_empty(), "an observation exactly at TTL survives");
    assert_eq!(directory.expire_observations(seen + TTL + 1, TTL).len(), 1, "one nanosecond past TTL it expires");
}

#[test]
fn expiry_reports_enrolled_owners_too() {
    let mut directory = directory();
    directory.enroll(identity(1), Vec::new()).expect("enroll");
    directory.observe(observation_at(1, "mdns:a", "127.0.0.1:7500", 0));
    assert_eq!(directory.expire_observations(TTL + 1, TTL), vec![identity(1).agent_id().clone()]);
    assert!(directory.is_enrolled(identity(1).agent_id()), "expiry never revokes trust");
}

#[test]
fn per_peer_observation_capacity_is_bounded() {
    let mut directory = directory();
    for slot in 0..MAX_OBSERVATIONS_PER_PEER {
        let outcome = directory.observe(observation(4, &format!("mdns:slot-{slot}"), &format!("127.0.0.1:{}", 7600 + slot)));
        assert_ne!(outcome, ObserveOutcome::CapacityReached);
    }
    assert_eq!(directory.observe(observation(4, "mdns:one-more", "127.0.0.1:7699")), ObserveOutcome::CapacityReached);
}

#[test]
fn display_name_is_the_newest_named_observation() {
    let mut directory = directory();
    let identity = identity(6);
    for (id, name, at) in [("mdns:x", "old", 10u64), ("mdns:y", "new", 30u64), ("mdns:z", "mid", 20u64)] {
        let obs = PeerObservation::new(
            ObservationId::new(id).unwrap(),
            identity.agent_id().clone(),
            identity.public_key(),
            None,
            Some(name.to_string()),
            ObservationSource::Mdns,
            at,
        )
        .unwrap();
        directory.observe(obs);
    }
    assert_eq!(directory.list()[0].display_name.as_deref(), Some("new"));
}

#[test]
fn plans_save_exactly_the_state_the_commit_produces() {
    let mut directory = directory();
    directory.observe(observation(1, "mdns:a", "127.0.0.1:7101"));
    let plan = directory.enroll_candidate_plan(identity(1).agent_id()).expect("plan");
    directory.commit_enroll_candidate(&plan.value);
    let saved: Vec<(String, String)> = plan
        .saved
        .into_values()
        .into_iter()
        .map(|p| (p.agent_id.as_str().to_string(), p.public_key))
        .collect();
    assert_eq!(saved, directory.pinning_snapshot());

    let plan = directory.remove_peer_plan(identity(1).agent_id()).expect("plan");
    directory.commit_remove_peer(identity(1).agent_id());
    assert_eq!(plan.saved.len(), directory.pinning_snapshot().len());
}

#[test]
fn load_restores_pins_and_rejects_bad_stores() {
    let peers = vec![stored(1, vec![locator("b.internal:2"), locator("a.internal:1")]), stored(2, Vec::new())];
    let directory = PeerDirectory::load(identity(99).agent_id().clone(), &peers).expect("load");
    let pins = directory.pinning_snapshot();
    assert_eq!(pins.len(), 2);
    assert!(directory.is_enrolled(identity(2).agent_id()));
    let targets = directory.dial_targets(identity(1).agent_id());
    assert_eq!(targets[0], DialTarget::Configured(locator("a.internal:1")));

    let dup = vec![stored(1, Vec::new()), stored(1, Vec::new())];
    assert!(matches!(PeerDirectory::load(identity(99).agent_id().clone(), &dup), Err(LoadError::DuplicateAgentId(_))));
    let local = vec![stored(99, Vec::new())];
    assert!(matches!(PeerDirectory::load(identity(99).agent_id().clone(), &local), Err(LoadError::LocalAgentId(_))));
    let mut bad = stored(1, Vec::new());
    bad.agent_id = identity(2).agent_id().clone();
    assert!(matches!(PeerDirectory::load(identity(99).agent_id().clone(), &vec![bad]), Err(LoadError::Identity(_))));
}

#[test]
fn no_ghost_observations_after_a_mixed_history() {
    let mut directory = directory();
    directory.observe(observation(1, "mdns:a", "127.0.0.1:7101"));
    directory.enroll_candidate(identity(1).agent_id()).unwrap();
    directory.observe(observation(2, "mdns:b", "127.0.0.1:7101"));
    directory.remove_peer(identity(1).agent_id()).unwrap();
    directory.expire_observations(u64::MAX, 0);
    directory.assert_no_ghost_observations();
    assert!(directory.list().is_empty());
}

#[test]
fn reloading_the_saved_records_restores_the_enrolled_peers() {
    let mut directory = directory();
    directory.observe(observation(1, "mdns:a", "127.0.0.1:7101"));
    directory.enroll_candidate(identity(1).agent_id()).unwrap();
    let plan = directory.enroll_plan(&identity(2), &vec![locator("b.internal:2"), locator("a.internal:1")]).expect("plan");
    directory.commit_enroll(&identity(2), &vec![locator("b.internal:2"), locator("a.internal:1")]);
    let reloaded = PeerDirectory::load(identity(99).agent_id().clone(), &plan.saved.into_values()).expect("reload");
    assert_eq!(reloaded.pinning_snapshot(), directory.pinning_snapshot());
    assert_eq!(reloaded.enrolled_agent_ids(), directory.enrolled_agent_ids());
    assert_eq!(
        reloaded.dial_targets(identity(2).agent_id()),
        vec![DialTarget::Configured(locator("a.internal:1")), DialTarget::Configured(locator("b.internal:2"))]
    );
    assert!(reloaded.dial_targets(identity(1).agent_id()).is_empty(), "live observations are not durable");
}

#[test]
fn discovery_never_changes_the_pin_set() {
    let mut directory = directory();
    directory.observe(observation(1, "mdns:a", "127.0.0.1:7101"));
    directory.enroll_candidate(identity(1).agent_id()).unwrap();
    let pins = directory.pinning_snapshot();
    directory.observe(observation(2, "mdns:b", "127.0.0.1:7102"));
    directory.observe(observation(1, "mdns:c", "127.0.0.1:7103"));
    directory.remove_observation(&ObservationId::new("mdns:a").unwrap());
    directory.expire_observations(u64::MAX, 0);
    assert_eq!(directory.pinning_snapshot(), pins);
    assert!(!directory.is_enrolled(identity(2).agent_id()));
}

#[test]
fn directory_errors_read_as_the_daemon_reports_them() {
    let a = identity(1).agent_id().clone();
    assert_eq!(DirectoryError::NotEnrolled(a.clone()).to_text(), format!("peer {} is not enrolled", a.as_str()));
    assert_eq!(
        DirectoryError::NotObserved(a.clone()).to_text(),
        format!("peer candidate {} is not currently observed", a.as_str())
    );
    assert_eq!(DirectoryError::EnrolledCapacity.to_text(), "enrolled-peer limit reached");
    assert_eq!(DirectoryError::LocatorCapacity.to_text(), "per-peer locator limit reached");
    assert_eq!(
        DirectoryError::LocalAgentId(a.clone()).to_text(),
        format!("cannot enroll or target the local Agent ID {}", a.as_str())
    );
    assert_eq!(
        DirectoryError::Persist(anyhow::Error::msg("disk full")).to_text(),
        "peer-store persistence failed: disk full"
    );
}

#[test]
fn saved_records_pass_the_store_checks() {
    let mut directory = directory();
    directory.observe(observation(1, "mdns:a", "127.0.0.1:7101"));
    directory.enroll_candidate(identity(1).agent_id()).unwrap();
    let locators = vec![locator("b.internal:2"), locator("a.internal:1")];
    let plan = directory.enroll_plan(&identity(2), &locators).expect("plan");
    let records = plan.saved.into_values();
    let checked = PeerStore::decode_document(1, records.clone()).expect("what is saved passes the checks");
    assert_eq!(checked, records);
}

#[test]
fn the_store_reads_and_writes_its_configured_path() {
    let path = std::path::PathBuf::from("/var/lib/axon/peers.json");
    let store = axon::peer_directory::store::PeerStore::new(path.clone());
    assert_eq!(store.path(), path.as_path());
}
