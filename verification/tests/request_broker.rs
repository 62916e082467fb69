use axon::identity::AgentId;
use axon::request_broker::broker::{
    begin_reply, sweep_reply, wait_failure_reply, BeginAction, BrokerError, BrokerState, Sweep, MAX_PENDING_REQUESTS,
};
use axon::reply::ErrorReply;
use axon::transport::send::MAX_MESSAGE_SIZE;
use axon::request_broker::cache::{CompletedCache, RequestKey, Tombstone, MAX_COMPLETED_CACHE_BYTES, MAX_COMPLETED_CACHE_ENTRIES};

const SECOND: u64 = 1_000_000_000;
const TTL: u64 = 30 * SECOND;

fn agent(c: char) -> AgentId {
    AgentId::new(&format!("ed25519.{}", c.to_string().repeat(32)))
}

fn key(c: char, id: u128) -> RequestKey {
    RequestKey { peer: agent(c), id }
}

fn tomb(text: &str) -> Tombstone<String> {
    Tombstone { response: text.to_string(), wire_bytes: text.len() }
}

fn begin(b: &mut BrokerState<String>, k: RequestKey, now: u64) -> (BeginAction, Vec<RequestKey>) {
    b.begin(Some(k), false, now, TTL, tomb("timeout"), tomb("orphaned"))
}

#[test]
fn one_connection_owns_handler_lease() {
    let mut b: BrokerState<String> = BrokerState::new();
    assert_eq!(b.register(1, None), Ok(()));
    assert_eq!(b.register(1, None), Ok(()));
    assert_eq!(b.register(2, None), Err(BrokerError::HandlerBusy));
}

#[test]
fn no_origin_and_no_handler_are_answered_immediately() {
    let mut b: BrokerState<String> = BrokerState::new();
    assert_eq!(b.begin(None, false, 0, TTL, tomb("t"), tomb("o")).0, BeginAction::InvalidEnvelope);
    assert_eq!(begin(&mut b, key('a', 1), 0).0, BeginAction::Unhandled);
    assert_eq!(b.pending_count(), 0);
}

#[test]
fn handler_can_reply_exactly_once() {
    let mut b: BrokerState<String> = BrokerState::new();
    b.register(1, None).unwrap();
    assert_eq!(begin(&mut b, key('a', 7), 0).0, BeginAction::Deliver(1));
    let i = b.resolve_reply(1, 7, None, true).expect("pending");
    let done = b.complete(i, "answer".to_string(), Some(6)).expect("fits");
    assert_eq!(done.id, 7);
    assert_eq!(b.resolve_reply(1, 7, None, true), Err(BrokerError::RequestNotFound));
    assert_eq!(b.replay(&key('a', 7)).map(|s| s.as_str()), Some("answer"));
}

#[test]
fn non_handler_cannot_reply_and_payload_must_be_an_object() {
    let mut b: BrokerState<String> = BrokerState::new();
    b.register(1, None).unwrap();
    begin(&mut b, key('a', 7), 0);
    assert_eq!(b.resolve_reply(2, 7, None, true), Err(BrokerError::NotHandler));
    assert_eq!(b.resolve_reply(1, 7, None, false), Err(BrokerError::InvalidPayload));
    assert_eq!(b.pending_count(), 1);
}

#[test]
fn oversized_reply_is_rejected_without_consuming_the_request() {
    let mut b: BrokerState<String> = BrokerState::new();
    b.register(1, None).unwrap();
    begin(&mut b, key('a', 7), 0);
    let i = b.resolve_reply(1, 7, None, true).unwrap();
    assert!(matches!(b.complete(i, "huge".to_string(), Some(MAX_MESSAGE_SIZE + 1)), Err(BrokerError::InvalidPayload)));
    assert!(matches!(b.complete(i, "?".to_string(), None), Err(BrokerError::InvalidPayload)));
    assert_eq!(b.pending_count(), 1);
    let i = b.resolve_reply(1, 7, None, true).unwrap();
    assert!(b.complete(i, "fits".to_string(), Some(4)).is_ok());
}

#[test]
fn duplicate_of_inflight_request_is_rejected_and_retries_replay() {
    let mut b: BrokerState<String> = BrokerState::new();
    b.register(1, None).unwrap();
    assert_eq!(begin(&mut b, key('a', 9), 0).0, BeginAction::Deliver(1));
    assert_eq!(begin(&mut b, key('a', 9), SECOND).0, BeginAction::Duplicate);
    let i = b.resolve_reply(1, 9, None, true).unwrap();
    b.complete(i, "done".to_string(), Some(4)).unwrap();
    assert_eq!(begin(&mut b, key('a', 9), 2 * SECOND).0, BeginAction::Replay);
    assert_eq!(b.replay(&key('a', 9)).map(|s| s.as_str()), Some("done"));
}

#[test]
fn same_uuid_from_another_peer_is_a_different_request() {
    let mut b: BrokerState<String> = BrokerState::new();
    b.register(1, None).unwrap();
    begin(&mut b, key('a', 5), 0);
    let i = b.resolve_reply(1, 5, None, true).unwrap();
    b.complete(i, "from-a".to_string(), Some(6)).unwrap();
    assert_eq!(begin(&mut b, key('c', 5), 0).0, BeginAction::Deliver(1));
}

#[test]
fn uuid_collision_reply_is_ambiguous_without_peer_and_scoped_with_it() {
    let mut b: BrokerState<String> = BrokerState::new();
    b.register(1, None).unwrap();
    begin(&mut b, key('a', 5), 0);
    begin(&mut b, key('c', 5), 0);
    assert_eq!(b.resolve_reply(1, 5, None, true), Err(BrokerError::AmbiguousRequest));
    assert_eq!(b.pending_count(), 2);
    let i = b.resolve_reply(1, 5, Some(&agent('c')), true).unwrap();
    let k = b.complete(i, "c".to_string(), Some(1)).unwrap();
    assert_eq!(k.peer, agent('c'));
    assert!(b.resolve_reply(1, 5, None, true).is_ok());
}

#[test]
fn expired_requests_are_swept_and_tombstoned() {
    let mut b: BrokerState<String> = BrokerState::new();
    b.register(1, None).unwrap();
    begin(&mut b, key('a', 1), 0);
    let (action, swept) = begin(&mut b, key('a', 1), TTL + 1);
    assert_eq!(action, BeginAction::Replay, "a retry after the sweep replays the tombstone");
    assert_eq!(swept.len(), 1);
    assert_eq!(b.replay(&key('a', 1)).map(|s| s.as_str()), Some("timeout"));
    assert_eq!(b.pending_count(), 0);
    let (action, swept) = begin(&mut b, key('a', 2), TTL + 1);
    assert_eq!(action, BeginAction::Deliver(1));
    assert!(swept.is_empty());
}

#[test]
fn disconnect_releases_lease_and_terminates_pending_requests() {
    let mut b: BrokerState<String> = BrokerState::new();
    b.register(1, None).unwrap();
    begin(&mut b, key('a', 1), 0);
    assert!(b.disconnect(2).is_empty(), "only the holder can release the lease");
    let ended = b.disconnect(1);
    assert_eq!(ended.len(), 1);
    assert_eq!(b.pending_count(), 0);
    assert_eq!(b.replay(&key('a', 1)).map(|s| s.as_str()), Some("orphaned"));
    assert_eq!(b.register(2, None), Ok(()));
    let waiter = sweep_reply(&Sweep::OwnedBy(1));
    assert_eq!(waiter.code, "unhandled");
    assert!(waiter.retryable);
    assert_eq!(waiter.message, "application handler disconnected before replying");
}

#[test]
fn reconcile_clients_revokes_leases_and_pending_for_gone_clients() {
    let mut b: BrokerState<String> = BrokerState::new();
    b.register(1, None).unwrap();
    begin(&mut b, key('a', 1), 0);
    let ended = b.reconcile_clients(&vec![7]);
    assert_eq!(ended.len(), 1);
    assert!(b.handler.is_none());
    assert_eq!(b.register(2, None), Ok(()));
}

#[test]
fn fail_ends_a_pending_request_once() {
    let mut b: BrokerState<String> = BrokerState::new();
    b.register(1, None).unwrap();
    begin(&mut b, key('a', 3), 0);
    assert!(b.fail(&key('a', 3), tomb("failed")));
    assert!(!b.fail(&key('a', 3), tomb("again")));
    assert_eq!(b.replay(&key('a', 3)).map(|s| s.as_str()), Some("failed"));
}

#[test]
fn pending_request_capacity_is_bounded() {
    let mut b: BrokerState<String> = BrokerState::new();
    b.register(1, None).unwrap();
    for id in 0..MAX_PENDING_REQUESTS as u128 {
        assert_eq!(begin(&mut b, key('a', id), 0).0, BeginAction::Deliver(1));
    }
    assert_eq!(begin(&mut b, key('a', 1_000_000), 0).0, BeginAction::Overloaded);
    assert_eq!(b.pending_count(), MAX_PENDING_REQUESTS);
    let e = begin_reply(BeginAction::Overloaded, 1_000_000).expect("an error reply");
    assert_eq!(e.code, "overloaded");
    assert!(e.retryable);
}

#[test]
fn completed_cache_keeps_newest_within_both_budgets() {
    let mut c: CompletedCache<u32> = CompletedCache::new();
    for i in 0..(MAX_COMPLETED_CACHE_ENTRIES as u128 + 10) {
        c.remember(key('a', i), i as u32, 1);
    }
    assert_eq!(c.queue.len(), MAX_COMPLETED_CACHE_ENTRIES);
    assert!(c.replay(&key('a', 0)).is_none(), "the oldest entries leave first");
    assert_eq!(c.replay(&key('a', MAX_COMPLETED_CACHE_ENTRIES as u128 + 9)), Some(&(MAX_COMPLETED_CACHE_ENTRIES as u32 + 9)));

    let mut c: CompletedCache<u32> = CompletedCache::new();
    c.remember(key('a', 1), 1, MAX_COMPLETED_CACHE_BYTES + 1);
    assert!(c.replay(&key('a', 1)).is_none(), "an entry over the whole budget is not cached");
    c.remember(key('a', 2), 2, MAX_COMPLETED_CACHE_BYTES - 10);
    c.remember(key('a', 3), 3, 20);
    assert!(c.replay(&key('a', 2)).is_none(), "room is made by evicting the oldest");
    assert_eq!(c.total_bytes, 20);
}

#[test]
fn swept_request_is_never_redelivered_and_its_late_reply_finds_nothing() {
    let mut b: BrokerState<String> = BrokerState::new();
    b.register(1, None).unwrap();
    assert_eq!(begin(&mut b, key('a', 7), 0).0, BeginAction::Deliver(1));
    for now in [TTL + 1, TTL + 2, 10 * TTL] {
        assert_eq!(begin(&mut b, key('a', 7), now).0, BeginAction::Replay, "the tombstone wins over a fresh delivery");
    }
    assert_eq!(b.resolve_reply(1, 7, Some(&agent('a')), true), Err(BrokerError::RequestNotFound));
    assert_eq!(b.pending_count(), 0);
}

fn reply(code: &str, message: &str, retryable: bool) -> ErrorReply {
    ErrorReply { code: code.to_string(), message: message.to_string(), retryable }
}

#[test]
fn error_replies_carry_code_message_and_retryability() {
    let id: u128 = 0x67e5_5044_10b1_426f_9247_bb68_0e5f_e0c8;
    assert_eq!(
        begin_reply(BeginAction::Unhandled, id),
        Some(reply("unhandled", "no application handler registered for request '67e55044-10b1-426f-9247-bb680e5fe0c8'", false))
    );
    assert_eq!(
        begin_reply(BeginAction::Duplicate, id),
        Some(reply("overloaded", "duplicate of an in-flight request; retry after it resolves", true))
    );
    assert_eq!(
        begin_reply(BeginAction::InvalidEnvelope, id),
        Some(reply("invalid_envelope", "request lacks an authenticated origin identity", false))
    );
    assert_eq!(begin_reply(BeginAction::Deliver(1), id), None);
    assert_eq!(begin_reply(BeginAction::Replay, id), None);
    assert_eq!(
        sweep_reply(&Sweep::Expired { now: 1, ttl: 0 }),
        reply("timeout", "request timed out waiting for a response", true)
    );
    assert_eq!(wait_failure_reply(true), reply("timeout", "request handler timed out", true));
    assert_eq!(wait_failure_reply(false), reply("unhandled", "request handler disconnected", true));
}

#[test]
fn expired_request_replays_its_timeout_reply() {
    let mut b: BrokerState<ErrorReply> = BrokerState::new();
    b.register(1, None).unwrap();
    let timeout = || {
        let e = sweep_reply(&Sweep::Expired { now: 0, ttl: 0 });
        Tombstone { wire_bytes: e.message.len(), response: e }
    };
    let orphan = || {
        let e = sweep_reply(&Sweep::OwnerGone);
        Tombstone { wire_bytes: e.message.len(), response: e }
    };
    assert_eq!(b.begin(Some(key('a', 9)), false, 0, TTL, timeout(), orphan()).0, BeginAction::Deliver(1));
    let (action, swept) = b.begin(Some(key('a', 9)), false, TTL + 1, TTL, timeout(), orphan());
    assert_eq!(action, BeginAction::Replay);
    assert_eq!(swept.len(), 1);
    let replayed = b.replay(&key('a', 9)).expect("tombstone");
    assert_eq!(replayed.code, "timeout");
    assert!(replayed.retryable);
    assert_eq!(b.resolve_reply(1, 9, Some(&agent('a')), true), Err(BrokerError::RequestNotFound));
}

#[test]
fn describe_is_answered_from_the_manifest_without_waking_the_handler() {
    let mut b: BrokerState<String> = BrokerState::new();
    assert_eq!(b.begin(Some(key('a', 1)), true, 0, TTL, tomb("t"), tomb("o")).0, BeginAction::Describe);
    let e = b.describe(Some(10)).expect_err("no manifest yet");
    assert_eq!(e.code, "no_manifest");
    assert!(!e.retryable);
    assert!(e.message.contains("serve with a manifest"));
    b.register(1, Some("forge".to_string())).unwrap();
    assert_eq!(b.begin(Some(key('a', 2)), true, 0, TTL, tomb("t"), tomb("o")).0, BeginAction::Describe);
    assert_eq!(b.describe(Some(100)).map(|m| m.as_str()), Ok("forge"));
    assert_eq!(b.pending_count(), 0, "the handler is never involved");
    assert_eq!(b.describe(Some(MAX_MESSAGE_SIZE + 1)).map_err(|e| e.code), Err("manifest_too_large".to_string()));
    b.register(1, Some("forge-v2".to_string())).unwrap();
    assert_eq!(b.describe(Some(100)).map(|m| m.as_str()), Ok("forge-v2"), "a refreshed manifest answers fresh");
    assert_eq!(begin(&mut b, key('a', 3), 0).0, BeginAction::Deliver(1), "ordinary requests are still delivered");
    b.disconnect(1);
    assert_eq!(b.describe(Some(100)).map_err(|e| e.code), Err("no_manifest".to_string()));
}
