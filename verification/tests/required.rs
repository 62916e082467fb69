use std::time::Duration;

use axon::peer_directory::types::ObservationId;
use axon::transport::send::{retry_permitted, MessageKind, SendError, IDLE_TIMEOUT, KEEPALIVE_INTERVAL, REQUEST_TIMEOUT};

#[test]
fn observation_id_display_preserves_the_value() {
    let id = ObservationId::new("mdns:instance:1").expect("valid observation id");
    assert_eq!(id.as_str().to_string(), "mdns:instance:1");
}

#[test]
fn mod_tests_transport_constants() {
    assert_eq!(Duration::from_nanos(REQUEST_TIMEOUT), Duration::from_secs(30));
}

#[test]
fn transport_transport_constants() {
    assert_eq!(Duration::from_nanos(KEEPALIVE_INTERVAL), Duration::from_secs(15));
    assert_eq!(Duration::from_nanos(IDLE_TIMEOUT), Duration::from_secs(60));
    assert_eq!(Duration::from_nanos(REQUEST_TIMEOUT), Duration::from_secs(30));
}

#[test]
fn retry_permitted_allows_only_at_most_once_safe_combinations() {
    let pre_send = SendError {
        inner: anyhow::Error::msg("dial failed"),
        ambiguous: false,
        timed_out: false,
    };
    let ambiguous = SendError {
        inner: anyhow::Error::msg("stream died mid-exchange"),
        ambiguous: true,
        timed_out: false,
    };

    // Requests keep the single transport-level retry: reply correlation is
    // at-most-one-reply.
    assert!(retry_permitted(&MessageKind::Request, &pre_send));
    assert!(retry_permitted(&MessageKind::Request, &ambiguous));

    // Fire-and-forget kinds may only be retried when provably undelivered.
    assert!(retry_permitted(&MessageKind::Message, &pre_send));
    assert!(!retry_permitted(&MessageKind::Message, &ambiguous));
}
