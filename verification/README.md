# axon

The decision logic of an agent-to-agent messaging daemon, written in Verus
and proved against its contracts.

## Layout

- `src/` — the verified library.
  - `text`, `keyed`, `codec`, `net`, `ipv6`: text and key ordering, an
    ordered map keyed by text, base64 / SHA-256 / hex encodings, socket
    addresses and their IPv4 and bracketed IPv6 text forms.
  - `identity`: Agent IDs and the binding of an Agent ID to the Ed25519 key
    it derives from (always canonical, by type invariant).
  - `peer_token`: `axon://` share tokens, with an encode/decode round trip.
  - `peer_directory`: the durable enrollment set and live discovery
    candidates; persistent edits are planned (the records to save) and then
    committed, and a reload of the saved records restores the enrolled set.
  - `peer_table`: the discovery-facing peer table, where configured peers
    are authoritative for their address.
  - `request_broker`: inbound request correlation, the handler lease and
    its published manifest, the error replies, and the bounded
    completed-response cache used to replay retried requests.
  - `reply`: error replies (`code`, `message`, `retryable`) and the text
    of request UUIDs.
  - `transport`: send/retry rules and the automatic answers, the hello
    authentication step of an inbound connection and the judgement of a
    hello answer, the steps of an outbound dial (addresses tried in order,
    each once, under one deadline), closing a peer, reconnect backoff,
    the connection registry and its generations, per-peer enrollment
    epochs, and certificate pinning.
- `app/` — I/O around the library: the peer-store file, name resolution,
  shared async handles for the directory, the peer table and the request
  broker, and the driver that runs a dial.
- `tests/` — executable tests of the library.

The QUIC endpoint, its TLS configuration and the connection manager that
binds, accepts, keeps alive and closes connections are not part of this
crate. Their decisions are in `transport` (the connection step, the dial
steps, admission gates, the dialed-peer check, closing a peer, the
subject name the endpoint trusts client certificates under, and the
keep-alive, idle and request timeouts); whatever runs the endpoint calls
them.

Times are monotonic nanoseconds (`u64`) throughout the library.
