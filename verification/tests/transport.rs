use std::time::{Duration, Instant};

use axon::identity::AgentId;
use axon::keyed::KeyedMap;
use axon::transport::reconnect::{AttemptTicket, ReconnectBook, INITIAL_BACKOFF, MAX_BACKOFF};
use axon::transport::epochs::EnrollmentEpochs;
use axon::transport::PairRequest;
use axon::transport::registry::{Admission, Direction, RegistryState};
use axon::transport::send::{
    auto_response, hello_request_supports_protocol_v1, hello_selected_version_is_supported, remaining_budget, AutoReply,
    MessageKind, SendError, DIAL_TIMEOUT,
};
use axon::transport::tls::{
    canonicalize_agent_id, derive_agent_id_from_pubkey_bytes, extract_ed25519_pubkey_from_cert_der, lookup_expected_pubkey,
    maybe_emit_pair_request, verify_client_cert, verify_server_cert, CertKeyError, CertVerdict, PairRequestLog,
};
use base64::engine::general_purpose::STANDARD;
use base64::Engine;

const SECOND: u64 = 1_000_000_000;

const REQUEST_ID: u128 = 0x00112233_44556677_8899aabb_ccddeeff;

/// The automatic answer of agent B to agent A's request of `kind`, whose
/// hello offers `versions`.
fn answer(kind: MessageKind, versions: Option<Vec<Option<u64>>>) -> axon::transport::send::AutoEnvelope {
    let offers_v1 = hello_request_supports_protocol_v1(versions.as_ref());
    let received = format!("{:?}", versions);
    let a = AgentId::parse("ed25519.a1b2c3d4e5f6a1b2c3d4e5f6a1b2c3d4").unwrap();
    let b = AgentId::parse("ed25519.f6e5d4c3b2a1f6e5d4c3b2a1f6e5d4c3").unwrap();
    let resp = auto_envelope(REQUEST_ID, kind, offers_v1, &received, &b, &a);
    assert_eq!(resp.kind, auto_response(kind, offers_v1).kind());
    assert_eq!(resp.ref_id, REQUEST_ID, "the answer refers to the request");
    assert_eq!((resp.from.as_str(), resp.to.as_str()), (b.as_str(), a.as_str()));
    resp
}

fn error_code(resp: &axon::transport::send::AutoEnvelope) -> Option<String> {
    match &resp.payload {
        AutoPayload::Error(e) => Some(e.code.clone()),
        _ => None,
    }
}

fn v1() -> Option<Vec<Option<u64>>> {
    Some(vec![Some(1)])
}

fn check_hello_success() {
    let resp = answer(MessageKind::Hello, v1());
    assert_eq!(resp.kind, MessageKind::Hello);
    match resp.payload {
        AutoPayload::Hello { selected_version, .. } => assert_eq!(selected_version, 1),
        other => panic!("unexpected payload {:?}", other),
    }
    assert_eq!(auto_response(MessageKind::Hello, true), AutoReply::HelloAccepted);
}

fn check_hello_incompatible() {
    let resp = answer(MessageKind::Hello, Some(vec![Some(2)]));
    assert_eq!(resp.kind, MessageKind::Error);
    assert_eq!(error_code(&resp).as_deref(), Some("incompatible_version"));
    assert_eq!(auto_response(MessageKind::Hello, false), AutoReply::IncompatibleVersion);
}

fn check_unknown_kind() {
    let resp = answer(MessageKind::Pong, None);
    assert_eq!(resp.kind, MessageKind::Error);
    assert_eq!(error_code(&resp).as_deref(), Some("unknown_kind"));
    assert_eq!(auto_response(MessageKind::Pong, false), AutoReply::UnknownKind);
}

#[test]
fn handshake_tests_auto_response_hello_success() {
    check_hello_success();
}

#[test]
fn handshake_tests_auto_response_hello_incompatible_version() {
    check_hello_incompatible();
}

#[test]
fn handshake_tests_auto_response_ping() {
    assert_eq!(answer(MessageKind::Ping, None).kind, MessageKind::Pong);
}

#[test]
fn handshake_tests_auto_response_discover() {
    assert_eq!(answer(MessageKind::Discover, None).kind, MessageKind::Capabilities);
}

#[test]
fn handshake_tests_auto_response_query() {
    assert_eq!(answer(MessageKind::Query, None).kind, MessageKind::Response);
}

#[test]
fn handshake_tests_auto_response_delegate() {
    assert_eq!(answer(MessageKind::Delegate, None).kind, MessageKind::Ack);
}

#[test]
fn handshake_tests_auto_response_cancel() {
    assert_eq!(answer(MessageKind::Cancel, None).kind, MessageKind::Ack);
}

#[test]
fn handshake_tests_auto_response_unknown_kind() {
    check_unknown_kind();
}

#[test]
fn handshake_tests_hello_selected_version_parser() {
    assert!(hello_selected_version_is_supported(Some(1)));
    assert!(!hello_selected_version_is_supported(Some(2)));
    assert!(!hello_selected_version_is_supported(None));
}

#[test]
fn handshake_tests_hello_v1_protocol_check() {
    assert!(hello_request_supports_protocol_v1(Some(&vec![Some(1)])));
    assert!(hello_request_supports_protocol_v1(Some(&vec![Some(1), Some(2)])));
    assert!(!hello_request_supports_protocol_v1(Some(&vec![Some(2), Some(3)])));
    assert!(!hello_request_supports_protocol_v1(None));
}

#[test]
fn transport_auto_response_hello_success() {
    check_hello_success();
}

#[test]
fn transport_auto_response_hello_incompatible_version() {
    check_hello_incompatible();
}

#[test]
fn transport_auto_response_ping() {
    assert_eq!(answer(MessageKind::Ping, None).kind, MessageKind::Pong);
}

#[test]
fn transport_auto_response_discover() {
    assert_eq!(answer(MessageKind::Discover, None).kind, MessageKind::Capabilities);
}

#[test]
fn transport_auto_response_query() {
    assert_eq!(answer(MessageKind::Query, None).kind, MessageKind::Response);
}

#[test]
fn transport_auto_response_delegate() {
    assert_eq!(answer(MessageKind::Delegate, None).kind, MessageKind::Ack);
}

#[test]
fn transport_auto_response_cancel() {
    assert_eq!(answer(MessageKind::Cancel, None).kind, MessageKind::Ack);
}

#[test]
fn transport_auto_response_unknown_kind() {
    check_unknown_kind();
}

#[test]
fn transport_hello_selected_version_parser() {
    assert!(hello_selected_version_is_supported(Some(1)));
    assert!(!hello_selected_version_is_supported(Some(2)));
    assert!(!hello_selected_version_is_supported(None));
}

#[test]
fn transport_hello_v1_protocol_check() {
    assert!(hello_request_supports_protocol_v1(Some(&vec![Some(1)])));
    assert!(hello_request_supports_protocol_v1(Some(&vec![Some(1), Some(2)])));
    assert!(!hello_request_supports_protocol_v1(Some(&vec![Some(2), Some(3)])));
    assert!(!hello_request_supports_protocol_v1(None));
}

#[test]
fn remaining_budget_is_recomputed_against_the_absolute_deadline() {
    let now = 100 * SECOND;
    let future = now + 5 * SECOND;
    let budget = remaining_budget(future, now + 1, "test phase").expect("future deadline has budget");
    assert!(budget <= 5 * SECOND);
    assert!(budget > 4 * SECOND);

    let past = now - SECOND;
    let error = remaining_budget(past, now, "test phase").expect_err("exhausted deadline");
    assert!(error.timed_out);
    assert!(!error.ambiguous, "nothing was delivered yet");
}

#[test]
fn checked_deadline_overflow_never_panics() {
    assert!(Instant::now().checked_add(Duration::from_secs(u64::MAX)).is_none());
}

#[test]
fn tls_tests_derive_agent_id_deterministic() {
    let key = vec![42u8; 32];
    let id1 = derive_agent_id_from_pubkey_bytes(&key);
    let id2 = derive_agent_id_from_pubkey_bytes(&key);
    assert_eq!(id1, id2);
    assert_eq!(id1.len(), 40);
    assert!(id1.starts_with("ed25519."));
}

#[test]
fn send_error_constructors_record_ambiguity_and_timeouts() {
    let e = SendError::pre_send(anyhow::Error::msg("x"));
    assert!(!e.ambiguous && !e.timed_out);
    let e = SendError::ambiguous(anyhow::Error::msg("x"));
    assert!(e.ambiguous && !e.timed_out);
    let e = SendError::pre_send_timeout(anyhow::Error::msg("x"));
    assert!(!e.ambiguous && e.timed_out);
    let e = SendError::timeout(anyhow::Error::msg("x"));
    assert!(e.ambiguous && e.timed_out);
    assert_eq!(Duration::from_nanos(DIAL_TIMEOUT), Duration::from_secs(10));
}

#[test]
fn canonicalize_agent_id_accepts_only_the_canonical_shape() {
    assert_eq!(
        canonicalize_agent_id("ED25519.A1B2C3D4E5F6A1B2C3D4E5F6A1B2C3D4").as_deref(),
        Some("ed25519.a1b2c3d4e5f6a1b2c3d4e5f6a1b2c3d4")
    );
    assert_eq!(canonicalize_agent_id("ed25519.xyz"), None);
    assert_eq!(canonicalize_agent_id("nodot"), None);
    assert_eq!(canonicalize_agent_id("ed25519.g1b2c3d4e5f6a1b2c3d4e5f6a1b2c3d4"), None);
}

#[test]
fn lookup_prefers_the_exact_key_then_a_canonical_match() {
    let mut expected: KeyedMap<String> = KeyedMap::new();
    expected.insert("ED25519.A1B2C3D4E5F6A1B2C3D4E5F6A1B2C3D4".chars().collect(), "upper".to_string());
    let id: Vec<char> = "ed25519.a1b2c3d4e5f6a1b2c3d4e5f6a1b2c3d4".chars().collect();
    assert_eq!(lookup_expected_pubkey(&expected, &id).as_deref(), Some("upper"));
    expected.insert(id.clone(), "exact".to_string());
    assert_eq!(lookup_expected_pubkey(&expected, &id).as_deref(), Some("exact"));
    let other: Vec<char> = "ed25519.00000000000000000000000000000000".chars().collect();
    assert_eq!(lookup_expected_pubkey(&expected, &other), None);
}

#[test]
fn unknown_peer_pair_request_is_rate_limited() {
    let mut log = PairRequestLog::new();
    assert!(log.should_emit("ed25519.aa", 0));
    assert!(!log.should_emit("ed25519.aa", 10 * SECOND));
    assert!(log.should_emit("ed25519.bb", 10 * SECOND));
    assert!(log.should_emit("ed25519.aa", 30 * SECOND));
}

#[test]
fn unparsable_certificates_are_refused() {
    let expected: KeyedMap<String> = KeyedMap::new();
    assert_eq!(verify_client_cert(&[1, 2, 3], &expected), CertVerdict::Unreadable(CertKeyError::Unparsable));
}

#[test]
fn reconnect_attempts_are_single_flight_with_doubling_backoff() {
    let peer = AgentId::new("ed25519.peer");
    let mut book = ReconnectBook::new();
    let ticket = book.claim(&peer, 0).expect("first claim");
    assert!(book.claim(&peer, 0).is_none(), "an attempt is already in flight");
    assert_eq!(book.failed(&peer, ticket, 0), Some(INITIAL_BACKOFF));
    assert!(book.claim(&peer, INITIAL_BACKOFF - 1).is_none(), "not due yet");
    let ticket = book.claim(&peer, INITIAL_BACKOFF).expect("due");
    assert_eq!(book.failed(&peer, ticket, INITIAL_BACKOFF), Some(2 * INITIAL_BACKOFF));
    assert_eq!(book.failed(&peer, AttemptTicket { version: ticket.version + 7 }, 0), None, "stale tickets change nothing");
    let mut now = 10 * SECOND;
    let mut last = 0;
    for _ in 0..10 {
        let t = book.claim(&peer, now).expect("due");
        last = book.failed(&peer, t, now).unwrap();
        now += MAX_BACKOFF;
    }
    assert_eq!(last, MAX_BACKOFF);
    let t = book.claim(&peer, now).unwrap();
    book.succeeded(&peer, t);
    let fresh = book.claim(&peer, now).expect("a success clears the record");
    assert_ne!(fresh.version, t.version);
    book.retain(&Vec::new());
    assert!(book.claim(&peer, now).is_some());
}

#[test]
fn registry_keeps_a_healthy_incumbent_and_breaks_cross_dial_ties() {
    let local = AgentId::new("ed25519.a");
    let peer = AgentId::new("ed25519.b");
    let mut reg = RegistryState::new();
    assert_eq!(
        reg.admit_gated(&local, &peer, 10, Direction::Inbound, true, false, 0, DIAL_TIMEOUT),
        Admission::Accepted { generation: 0, replaced: None }
    );
    assert_eq!(
        reg.admit_gated(&local, &peer, 10, Direction::Inbound, true, false, 1, DIAL_TIMEOUT),
        Admission::Existing { incumbent: 10, close_candidate: false }
    );
    // local < peer, so outbound is preferred: within the window it replaces.
    assert_eq!(
        reg.admit_gated(&local, &peer, 11, Direction::Outbound, true, false, SECOND, DIAL_TIMEOUT),
        Admission::Accepted { generation: 0, replaced: Some(10) }
    );
    // A later candidate in either direction loses to the incumbent.
    assert_eq!(
        reg.admit_gated(&local, &peer, 12, Direction::Outbound, true, false, 30 * SECOND, DIAL_TIMEOUT),
        Admission::Existing { incumbent: 11, close_candidate: true }
    );
    assert_eq!(reg.admit_gated(&local, &peer, 13, Direction::Outbound, false, false, 0, DIAL_TIMEOUT), Admission::Rejected);
    reg.release_if_current(&peer, 5, 11);
    assert_eq!(reg.count(), 1, "a stale release changes nothing");
    reg.release_if_current(&peer, 0, 11);
    assert_eq!(reg.count(), 0);
    assert_eq!(
        reg.admit_gated(&local, &peer, 14, Direction::Inbound, true, false, 0, DIAL_TIMEOUT),
        Admission::Accepted { generation: 1, replaced: None },
        "the generation advanced when the slot was vacated"
    );
    assert_eq!(reg.retire_if_current_connection(&peer, 99), None);
    assert_eq!(reg.retire_if_current_connection(&peer, 14), Some(14));
    assert_eq!(reg.close_peer(&peer), None);
    reg.admit_gated(&local, &peer, 15, Direction::Inbound, true, false, 0, DIAL_TIMEOUT);
    assert_eq!(reg.live_slot(&peer, true), None, "a closed incumbent is reaped on read");
    reg.admit_gated(&local, &peer, 16, Direction::Inbound, true, false, 0, DIAL_TIMEOUT);
    assert_eq!(reg.close_all(), vec![16]);
}

fn der(tag: u8, content: &[u8]) -> Vec<u8> {
    let mut out = vec![tag];
    let n = content.len();
    if n < 128 {
        out.push(n as u8);
    } else if n < 256 {
        out.extend_from_slice(&[0x81, n as u8]);
    } else {
        out.extend_from_slice(&[0x82, (n >> 8) as u8, n as u8]);
    }
    out.extend_from_slice(content);
    out
}

/// A self-signed-shaped X.509 v3 certificate (signature not checked) whose
/// subject key is the Ed25519 key `key`.
fn ed25519_cert_der(key: &[u8]) -> Vec<u8> {
    let alg = der(0x30, &der(0x06, &[0x2B, 0x65, 0x70]));
    let version = der(0xA0, &der(0x02, &[0x02]));
    let serial = der(0x02, &[0x01]);
    let cn = [der(0x06, &[0x55, 0x04, 0x03]), der(0x0C, b"axon")].concat();
    let name = der(0x30, &der(0x31, &der(0x30, &cn)));
    let validity = der(0x30, &[der(0x17, b"240101000000Z"), der(0x17, b"340101000000Z")].concat());
    let bits = [&[0u8][..], key].concat();
    let spki = der(0x30, &[alg.clone(), der(0x03, &bits)].concat());
    let tbs = der(0x30, &[version, serial, alg.clone(), name.clone(), validity, name, spki].concat());
    let signature = der(0x03, &[0u8; 65]);
    der(0x30, &[tbs, alg, signature].concat())
}

/// A fixed identity: its key, Agent ID, base64 key and certificate.
fn test_identity() -> (Vec<u8>, String, String, Vec<u8>) {
    let key: Vec<u8> = (1..=32).collect();
    let agent_id = derive_agent_id_from_pubkey_bytes(&key);
    let b64 = STANDARD.encode(&key);
    let cert = ed25519_cert_der(&key);
    (key, agent_id, b64, cert)
}

fn pinned(entries: &[(&str, &str)]) -> KeyedMap<String> {
    let mut m: KeyedMap<String> = KeyedMap::new();
    for (k, v) in entries {
        m.insert(k.chars().collect(), v.to_string());
    }
    m
}

#[test]
fn tls_tests_cert_pubkey_extraction_matches_identity() {
    let (key, agent_id, b64, cert) = test_identity();
    let extracted = extract_ed25519_pubkey_from_cert_der(&cert).expect("extract pubkey");
    assert_eq!(STANDARD.encode(&extracted), b64);
    assert_eq!(derive_agent_id_from_pubkey_bytes(&extracted), agent_id);
    assert_eq!(extracted, key);
}

#[test]
fn transport_cert_pubkey_extraction_matches_identity() {
    let (_key, agent_id, b64, cert) = test_identity();
    let extracted = extract_ed25519_pubkey_from_cert_der(&cert).expect("extract pubkey");
    assert_eq!(STANDARD.encode(&extracted), b64);
    assert_eq!(derive_agent_id_from_pubkey_bytes(&extracted), agent_id);
}

#[test]
fn certificate_with_a_short_key_reports_its_length() {
    let cert = ed25519_cert_der(&[5u8; 31]);
    assert_eq!(extract_ed25519_pubkey_from_cert_der(&cert), Err(CertKeyError::KeyLength(31)));
}

#[test]
fn server_verifier_rejects_unknown_peer() {
    let (_key, agent_id, b64, cert) = test_identity();
    let result = verify_server_cert(&agent_id, &cert, &pinned(&[]));
    assert_ne!(result, CertVerdict::Accepted, "unknown peer must be rejected");
    assert_eq!(result, CertVerdict::UnknownPeer { agent_id, pubkey: b64 }, "no public key on record");
}

#[test]
fn server_verifier_accepts_known_peer() {
    let (_key, agent_id, b64, cert) = test_identity();
    let expected = pinned(&[(&agent_id, &b64)]);
    assert_eq!(verify_server_cert(&agent_id, &cert, &expected), CertVerdict::Accepted, "known peer with matching key must be accepted");
}

#[test]
fn server_verifier_accepts_uppercase_expected_agent_id() {
    let (_key, agent_id, b64, cert) = test_identity();
    let uppercase_id = agent_id.to_ascii_uppercase();
    let expected = pinned(&[(&uppercase_id, &b64)]);
    assert_eq!(
        verify_server_cert(&uppercase_id, &cert, &expected),
        CertVerdict::Accepted,
        "server verifier should accept uppercase expected agent id"
    );
}

#[test]
fn server_verifier_rejects_pubkey_mismatch() {
    let (_key, agent_id, _b64, cert) = test_identity();
    let expected = pinned(&[(&agent_id, &STANDARD.encode([99u8; 32]))]);
    let result = verify_server_cert(&agent_id, &cert, &expected);
    assert_ne!(result, CertVerdict::Accepted, "mismatched pubkey must be rejected");
    assert_eq!(result, CertVerdict::KeyMismatch, "error should mention key mismatch");
}

#[test]
fn server_verifier_rejects_a_key_of_another_agent() {
    let (_key, _agent_id, b64, cert) = test_identity();
    let other = derive_agent_id_from_pubkey_bytes(&vec![9u8; 32]);
    let expected = pinned(&[(&other, &b64)]);
    assert_eq!(verify_server_cert(&other, &cert, &expected), CertVerdict::IdentityMismatch);
    assert_eq!(verify_server_cert("not-an-agent", &cert, &expected), CertVerdict::InvalidServerName);
}

#[test]
fn client_verifier_rejects_unknown_peer() {
    let (_key, agent_id, b64, cert) = test_identity();
    let result = verify_client_cert(&cert, &pinned(&[]));
    assert_ne!(result, CertVerdict::Accepted, "unknown client must be rejected");
    assert_eq!(result, CertVerdict::UnknownPeer { agent_id, pubkey: b64 });
}

#[test]
fn client_verifier_accepts_uppercase_peer_table_key() {
    let (_key, agent_id, b64, cert) = test_identity();
    let expected = pinned(&[(&agent_id.to_ascii_uppercase(), &b64)]);
    assert_eq!(
        verify_client_cert(&cert, &expected),
        CertVerdict::Accepted,
        "client verifier should accept uppercase peer-table key"
    );
}

#[test]
fn unknown_peer_raises_one_pair_request_per_window() {
    let mut log = PairRequestLog::new();
    let first = maybe_emit_pair_request(&mut log, "ed25519.aa", "key", Some("10.0.0.1:7100".to_string()), 5 * SECOND);
    assert_eq!(
        first,
        Some(PairRequest { agent_id: "ed25519.aa".to_string(), pubkey: "key".to_string(), addr: Some("10.0.0.1:7100".to_string()) })
    );
    assert_eq!(maybe_emit_pair_request(&mut log, "ed25519.aa", "key", None, 20 * SECOND), None);
    assert!(maybe_emit_pair_request(&mut log, "ed25519.aa", "key", None, 35 * SECOND).is_some());
}

#[test]
fn revoking_one_peer_does_not_reject_an_unrelated_peers_attempt() {
    let b = AgentId::new("ed25519.bbbb");
    let c = AgentId::new("ed25519.cccc");
    let mut epochs = EnrollmentEpochs::new();
    let captured_c = epochs.peer_enrollment_epoch(&c);
    let at_handshake = epochs.capture_enrollment_epochs();
    epochs.advance_enrollment_epoch(&b);
    assert!(!epochs.admission_gate(&b, 0, true), "the pre-revocation attempt is refused");
    assert_eq!(epochs.peer_enrollment_epoch(&c), captured_c);
    assert!(epochs.admission_gate(&c, captured_c, true));
    assert!(!epochs.admission_gate(&c, captured_c, false), "an unpinned peer is refused");
    assert_eq!(at_handshake.peer_enrollment_epoch(&b), 0, "a capture keeps its epochs");
}

#[test]
fn stale_epoch_attempt_is_rejected_while_fresh_capture_is_admissible() {
    let b = AgentId::new("ed25519.bbbb");
    let mut epochs = EnrollmentEpochs::new();
    epochs.advance_enrollment_epoch(&b);
    let bumped = epochs.peer_enrollment_epoch(&b);
    assert_eq!(bumped, 1);
    assert!(!epochs.admission_gate(&b, 0, true));
    assert!(epochs.admission_gate(&b, bumped, true));
    epochs.advance_enrollment_epoch(&b);
    assert_eq!(epochs.peer_enrollment_epoch(&b), 2);
}

#[test]
fn a_stale_release_never_touches_a_reinstalled_slot() {
    let local = AgentId::new("ed25519.a");
    let peer = AgentId::new("ed25519.b");
    let mut reg = RegistryState::new();
    let first = reg.admit_gated(&local, &peer, 20, Direction::Inbound, true, false, 0, DIAL_TIMEOUT);
    assert_eq!(first, Admission::Accepted { generation: 0, replaced: None });
    assert_eq!(reg.close_peer(&peer), Some(20));
    reg.release_if_current(&peer, 0, 20);
    assert_eq!(reg.count(), 0, "the emptied slot is not resurrected");
    let second = reg.admit_gated(&local, &peer, 20, Direction::Inbound, true, false, 0, DIAL_TIMEOUT);
    assert_eq!(second, Admission::Accepted { generation: 1, replaced: None });
    reg.release_if_current(&peer, 0, 20);
    assert_eq!(reg.live_slot(&peer, false), Some(20), "the stale holder cannot release the new slot");
}

use axon::reply::ErrorReply;
use axon::transport::connection::{
    bidi_request_check, connection_step, default_error_response, hello_identity_check, HelloIdentityError,
    InboundAction, InboundEvent,
};
use axon::transport::send::{
    auto_envelope, budget_exhausted_message, hello_response_verdict, AutoEnvelope, AutoPayload, HelloRejection,
};

fn err_reply(code: &str, message: &str, retryable: bool) -> ErrorReply {
    ErrorReply { code: code.to_string(), message: message.to_string(), retryable }
}

#[test]
fn auto_envelopes_answer_with_fixed_contents() {
    let me = AgentId::new("ed25519.me");
    let them = AgentId::new("ed25519.them");
    let hello = auto_envelope(77, MessageKind::Hello, true, "", &me, &them);
    assert_eq!(hello.ref_id, 77);
    assert_eq!(hello.kind, MessageKind::Hello);
    assert_eq!(hello.from, me);
    assert_eq!(hello.to, them);
    assert_eq!(hello.payload, AutoPayload::Hello { protocol_versions: vec![1], selected_version: 1 });
    let refused = auto_envelope(78, MessageKind::Hello, false, "Some(Array [Number(2)])", &me, &them);
    assert_eq!(refused.kind, MessageKind::Error);
    assert_eq!(refused.ref_id, 78);
    assert_eq!(
        refused.payload,
        AutoPayload::Error(err_reply(
            "incompatible_version",
            "no mutually supported protocol version. This agent supports: [1]. Received: Some(Array [Number(2)])",
            false
        ))
    );
    let unknown = auto_envelope(79, MessageKind::Notify, false, "", &me, &them);
    assert_eq!(
        unknown.payload,
        AutoPayload::Error(err_reply("unknown_kind", "unsupported request kind 'notify' for bidirectional stream", false))
    );
    assert_eq!(auto_envelope(80, MessageKind::Delegate, false, "", &me, &them).payload, AutoPayload::Ack { accepted: true });
    assert_eq!(
        auto_envelope(81, MessageKind::Ping, false, "", &me, &them).payload,
        AutoPayload::Pong { status: "idle".to_string(), uptime_secs: 0, active_tasks: 0 }
    );
}

#[test]
fn hello_authenticates_only_the_certificate_identity() {
    let (_key, agent_id, b64, _cert) = test_identity();
    let me = AgentId::new(&agent_id);
    assert_eq!(hello_identity_check(&me, &b64, None), Ok(()));
    assert_eq!(hello_identity_check(&me, &b64, Some(&b64)), Ok(()));
    assert_eq!(hello_identity_check(&me, &b64, Some("other")), Err(HelloIdentityError::KeyMismatch));
    assert_eq!(hello_identity_check(&AgentId::new("ed25519.spoof"), &b64, None), Err(HelloIdentityError::SenderMismatch));
    assert_eq!(hello_identity_check(&me, "!!", None), Err(HelloIdentityError::CertKeyNotBase64));
}

#[test]
fn nothing_is_served_before_hello() {
    let (_key, agent_id, b64, _cert) = test_identity();
    let local = AgentId::new("ed25519.local");
    let peer = AgentId::new(&agent_id);
    let none = pinned(&[]);
    let request = |kind: MessageKind, from: &AgentId| InboundEvent::Request {
        request_id: 5,
        kind,
        from: from.clone(),
        offers_v1: true,
        received_versions: String::new(),
    };
    let refusal = |message: &str, to: &AgentId| {
        InboundAction::NotAuthorized(AutoEnvelope {
            ref_id: 5,
            kind: MessageKind::Error,
            from: local.clone(),
            to: to.clone(),
            payload: AutoPayload::Error(err_reply("not_authorized", message, false)),
        })
    };
    let (auth, action) = connection_step(&local, None, &InboundEvent::OneWay { from: peer.clone() }, &b64, &none);
    assert_eq!((auth, action), (None, InboundAction::Drop));
    let (auth, action) = connection_step(&local, None, &request(MessageKind::Ping, &peer), &b64, &none);
    assert!(auth.is_none());
    assert_eq!(action, refusal("hello handshake must complete before other requests", &peer));
    let spoof = AgentId::new("ed25519.spoof");
    let (auth, action) = connection_step(&local, None, &request(MessageKind::Hello, &spoof), &b64, &none);
    assert!(auth.is_none());
    assert_eq!(action, refusal("peer hello 'from' does not match certificate public key identity", &spoof));
    let wrong_pin = pinned(&[(&agent_id, "other")]);
    let (auth, action) = connection_step(&local, None, &request(MessageKind::Hello, &peer), &b64, &wrong_pin);
    assert!(auth.is_none());
    assert!(matches!(action, InboundAction::NotAuthorized(_)));
    let (auth, action) = connection_step(&local, None, &request(MessageKind::Hello, &peer), &b64, &none);
    assert_eq!(auth, Some(peer.clone()));
    match action {
        InboundAction::Answer { forward, reply } => {
            assert!(forward);
            assert_eq!((reply.ref_id, reply.kind, reply.from, reply.to), (5, MessageKind::Hello, local.clone(), peer.clone()));
        }
        other => panic!("unexpected action {:?}", other),
    }
    let (auth, action) = connection_step(&local, Some(&peer), &InboundEvent::OneWay { from: peer.clone() }, &b64, &none);
    assert_eq!((auth, action), (Some(peer.clone()), InboundAction::Forward));
    let stranger = AgentId::new("ed25519.stranger");
    let (_, action) = connection_step(&local, Some(&peer), &InboundEvent::OneWay { from: stranger }, &b64, &none);
    assert_eq!(action, InboundAction::Drop, "only the authenticated peer's messages are forwarded");
}

#[test]
fn hello_answers_are_judged_by_kind_and_version() {
    assert_eq!(hello_response_verdict(MessageKind::Hello, Some(1), None, None), Ok(()));
    assert_eq!(
        hello_response_verdict(MessageKind::Hello, Some(2), None, None),
        Err(HelloRejection::VersionNotNegotiated(Some(2)))
    );
    assert_eq!(
        hello_response_verdict(MessageKind::Hello, None, None, None),
        Err(HelloRejection::VersionNotNegotiated(None))
    );
    assert_eq!(
        hello_response_verdict(MessageKind::Error, None, Some("incompatible_version"), Some("no")),
        Err(HelloRejection::Rejected { code: "incompatible_version".to_string(), message: "no".to_string() })
    );
    assert_eq!(
        hello_response_verdict(MessageKind::Error, None, None, None),
        Err(HelloRejection::Rejected { code: "unknown_error".to_string(), message: "peer rejected hello".to_string() })
    );
    assert_eq!(
        hello_response_verdict(MessageKind::Pong, Some(1), None, None),
        Err(HelloRejection::UnexpectedKind(MessageKind::Pong))
    );
}

#[test]
fn bidirectional_requests_are_checked_before_dispatch() {
    assert_eq!(
        bidi_request_check(MessageKind::Request, "", Some("missing id")),
        Some(err_reply("invalid_envelope", "envelope validation failed: missing id", false))
    );
    assert_eq!(
        bidi_request_check(MessageKind::Unknown, "frobnicate", None),
        Some(err_reply("unsupported_kind", "unsupported message kind 'frobnicate' on bidirectional stream", false))
    );
    assert_eq!(
        bidi_request_check(MessageKind::Message, "", None),
        Some(err_reply("invalid_envelope", "message kind 'message' cannot initiate a bidirectional stream", false))
    );
    assert_eq!(bidi_request_check(MessageKind::Request, "", None), None);
    let long = "k".repeat(100);
    let e = bidi_request_check(MessageKind::Unknown, &long, None).unwrap();
    assert!(e.message.contains(&"k".repeat(64)) && !e.message.contains(&"k".repeat(65)));
    let a = AgentId::new("ed25519.a1b2c3d4e5f6a1b2c3d4e5f6a1b2c3d4");
    let b = AgentId::new("ed25519.f6e5d4c3b2a1f6e5d4c3b2a1f6e5d4c3");
    let reply = default_error_response(1, &b, &a);
    assert_eq!(reply.kind, MessageKind::Error);
    assert_eq!(reply.ref_id, 1);
    assert_eq!(reply.from, b);
    assert_eq!(reply.to, a);
    assert_eq!(
        reply.payload,
        AutoPayload::Error(err_reply(
            "unhandled",
            "no application handler registered for request '00000000-0000-0000-0000-000000000001'",
            false
        ))
    );
    assert_eq!(budget_exhausted_message("dial"), "send budget exhausted before dial");
}

#[test]
fn default_error_response_contract() {
    let agent_a = AgentId::parse("ed25519.a1b2c3d4e5f6a1b2c3d4e5f6a1b2c3d4").unwrap();
    let agent_b = AgentId::parse("ed25519.f6e5d4c3b2a1f6e5d4c3b2a1f6e5d4c3").unwrap();
    let request_id: u128 = 0x1234_5678_9abc_def0_1234_5678_9abc_def0;
    let resp = default_error_response(request_id, &agent_b, &agent_a);
    assert_eq!(resp.kind, MessageKind::Error);
    assert_eq!(resp.ref_id, request_id);
    assert_eq!(resp.from.as_str(), agent_b.as_str());
    assert_eq!(resp.to.as_str(), agent_a.as_str());
    match resp.payload {
        AutoPayload::Error(e) => {
            assert_eq!(e.code, "unhandled");
            assert!(e.message.contains("12345678-9abc-def0-1234-56789abcdef0"));
            assert!(!e.retryable);
        }
        other => panic!("unexpected payload {:?}", other),
    }
}

#[test]
fn successive_failures_wait_one_two_four_eight_sixteen_then_thirty_seconds() {
    let peer = AgentId::new("ed25519.peer");
    let mut book = ReconnectBook::new();
    let mut now = 0;
    let mut waits = Vec::new();
    for _ in 0..7 {
        let ticket = book.claim(&peer, now).expect("due");
        let wait = book.failed(&peer, ticket, now).unwrap();
        assert!(book.claim(&peer, now + wait - 1).is_none());
        waits.push(wait / SECOND);
        now += wait;
    }
    assert_eq!(waits, vec![1, 2, 4, 8, 16, 30, 30]);
}

use axon::net::SocketAddress;
use axon::transport::dial::{dial_step, DialAction, DialEvent, DialFailure, DialState};

fn v4(ip: u32, port: u16) -> SocketAddress {
    SocketAddress { v6: false, ip: ip as u128, port, flowinfo: 0, scope_id: 0 }
}

fn step(s: DialState, ev: DialEvent) -> (DialState, DialAction) {
    dial_step(s, ev)
}

#[test]
fn dials_gathered_addresses_in_order_each_once() {
    let (s, a) = step(DialState::new(), DialEvent::Resolved(vec![v4(2, 7100), v4(1, 7100)]));
    assert_eq!(a, DialAction::NextTarget);
    let (s, a) = step(s, DialEvent::ResolveFailed("no such host".to_string()));
    assert_eq!(a, DialAction::NextTarget);
    let (s, _) = step(s, DialEvent::Resolved(vec![v4(1, 7100)]));
    assert_eq!(s.addresses, vec![v4(1, 7100), v4(2, 7100)], "sorted and deduplicated");
    let (s, a) = step(s, DialEvent::TargetsDone);
    assert_eq!(a, DialAction::CheckReady);
    let (s, a) = step(s, DialEvent::Ready { cancelled: false, budget_left: true });
    assert_eq!(a, DialAction::Dial(v4(1, 7100)));
    let (s, a) = step(s, DialEvent::DialFailed("refused".to_string()));
    assert_eq!(a, DialAction::CheckReady);
    let (s, a) = step(s, DialEvent::Ready { cancelled: false, budget_left: true });
    assert_eq!(a, DialAction::Dial(v4(2, 7100)));
    let (s, _) = step(s, DialEvent::DialFailed("reset".to_string()));
    let (_, a) = step(s, DialEvent::Ready { cancelled: false, budget_left: true });
    assert_eq!(a, DialAction::Fail(DialFailure::Dial("reset".to_string())), "the last failure is reported");
}

#[test]
fn dial_without_targets_or_budget_or_after_cancel_fails() {
    let (s, _) = step(DialState::new(), DialEvent::TargetsDone);
    let (_, a) = step(s, DialEvent::Ready { cancelled: false, budget_left: true });
    assert_eq!(a, DialAction::Fail(DialFailure::NoTarget));

    let (s, _) = step(DialState::new(), DialEvent::Resolved(vec![v4(9, 1)]));
    let (s, a) = step(s, DialEvent::NoBudgetToResolve("dns:peer.example:7100".to_string()));
    assert_eq!(a, DialAction::CheckReady);
    let (_, a) = step(s, DialEvent::Ready { cancelled: false, budget_left: false });
    assert_eq!(a, DialAction::Fail(DialFailure::BudgetBeforeDial(v4(9, 1))));
    assert!(DialFailure::BudgetBeforeDial(v4(9, 1)).timed_out());

    let (s, _) = step(DialState::new(), DialEvent::NoBudgetToResolve("dns:peer.example:7100".to_string()));
    let (_, a) = step(s, DialEvent::Ready { cancelled: false, budget_left: false });
    assert_eq!(a, DialAction::Fail(DialFailure::BudgetBeforeResolve("dns:peer.example:7100".to_string())));

    let (s, _) = step(DialState::new(), DialEvent::Resolved(vec![v4(9, 1)]));
    let (s, _) = step(s, DialEvent::CancelledWhileResolving);
    let (_, a) = step(s, DialEvent::Ready { cancelled: true, budget_left: true });
    assert_eq!(a, DialAction::Fail(DialFailure::Cancelled));
    assert!(!DialFailure::Cancelled.timed_out());

    let (s, a) = step(DialState::new(), DialEvent::DialFailed("early".to_string()));
    assert_eq!(a, DialAction::Ignore);
    assert!(s.gathering && s.last_error.is_none());
}

use axon::transport::teardown::{close_peer, Teardown};

#[test]
fn closing_a_peer_shuts_out_its_handshakes_dials_and_connection() {
    let local = AgentId::new("ed25519.a");
    let peer = AgentId::new("ed25519.b");
    let other = AgentId::new("ed25519.c");
    let mut epochs = EnrollmentEpochs::new();
    let mut reg = RegistryState::new();
    reg.admit_gated(&local, &peer, 20, Direction::Inbound, true, false, 0, DIAL_TIMEOUT);
    reg.admit_gated(&local, &other, 21, Direction::Inbound, true, false, 0, DIAL_TIMEOUT);
    let mut tokens: KeyedMap<u64> = KeyedMap::new();
    tokens.insert(peer.to_chars(), 7);
    tokens.insert(other.to_chars(), 8);
    let captured = epochs.peer_enrollment_epoch(&peer);
    let t = close_peer(&mut epochs, &mut tokens, &mut reg, &peer);
    assert_eq!(t, Teardown { close_connection: Some(20), cancel_dial: Some(7) });
    assert!(!epochs.admission_gate(&peer, captured, true), "a handshake begun before the close is refused");
    assert_eq!(reg.live_slot(&peer, false), None);
    assert_eq!(reg.live_slot(&other, false), Some(21));
    assert!(!tokens.contains(&peer.to_chars()) && tokens.contains(&other.to_chars()));
    let again = close_peer(&mut epochs, &mut tokens, &mut reg, &peer);
    assert_eq!(again, Teardown { close_connection: None, cancel_dial: None });
    assert_eq!(epochs.peer_enrollment_epoch(&peer), 2, "every close advances the epoch");
}

use axon::transport::connection::{dialed_peer_check, overwrite_authenticated_identity, PeerMismatch};
use axon::transport::tls::extract_subject_dn_from_cert_der;

#[test]
fn subject_dn_is_the_raw_subject_name() {
    let (_key, _id, _b64, cert) = test_identity();
    let cn = [der(0x06, &[0x55, 0x04, 0x03]), der(0x0C, b"axon")].concat();
    let name = der(0x30, &der(0x31, &der(0x30, &cn)));
    assert_eq!(extract_subject_dn_from_cert_der(&cert), Ok(name));
    assert_eq!(extract_subject_dn_from_cert_der(&[0x30, 0x03, 0x02]), Err(CertKeyError::Unparsable));
}

#[test]
fn a_dial_authenticates_only_the_dialed_peer() {
    let (key, agent_id, _b64, _cert) = test_identity();
    let dialed = AgentId::parse(&agent_id).unwrap();
    assert_eq!(dialed_peer_check(&dialed, &key), Ok(dialed.clone()));
    let other = AgentId::parse("ed25519.f6e5d4c3b2a1f6e5d4c3b2a1f6e5d4c3").unwrap();
    let err = dialed_peer_check(&other, &key).unwrap_err();
    assert_eq!(err, PeerMismatch { authenticated: dialed.clone(), expected: other.clone() });
    assert_eq!(
        err.message(),
        format!("authenticated peer {} does not match {}", agent_id, other.as_str())
    );
}

#[test]
fn authenticated_requests_carry_the_certificate_identity() {
    let local = AgentId::parse("ed25519.a1b2c3d4e5f6a1b2c3d4e5f6a1b2c3d4").unwrap();
    let mut from = Some(AgentId::new("ed25519.spoofed"));
    let mut to = None;
    overwrite_authenticated_identity(&mut from, &mut to, "ed25519.f6e5d4c3b2a1f6e5d4c3b2a1f6e5d4c3", &local);
    assert_eq!(from.unwrap().as_str(), "ed25519.f6e5d4c3b2a1f6e5d4c3b2a1f6e5d4c3");
    assert_eq!(to, Some(local));
}
