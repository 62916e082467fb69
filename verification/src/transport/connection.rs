//! The decisions of an inbound connection: a peer authenticates with a
//! hello whose sender is the Agent ID its certificate key derives (and
//! whose key matches any key on record); until then its requests are
//! refused as not authorized and its one-way messages dropped. Afterwards
//! one-way messages from it are forwarded and its requests answered.
use vstd::prelude::*;

use crate::codec::{std_base64_decode, std_base64_decoded};
use crate::identity::{AgentId, derive_agent_id, derived_agent_id, well_formed_agent_id};
use crate::reply::{ErrorReply, ErrorReplyView, error_reply, error_reply_of, text_with_uuid, uuid_text};
use crate::text::{chars_equal, chars_of, slice_chars, string_from_chars};
use crate::keyed::KeyedMap;
use crate::transport::send::{
    AutoEnvelope, MessageKind, auto_envelope, auto_envelope_fits, awaits_reply, error_envelope, error_envelope_fits, kind_name,
};

verus! {

/// Why a hello does not authenticate its peer.
#[derive(Debug, Clone, Copy, PartialEq, Eq, Structural)]
pub enum HelloIdentityError {
    /// The certificate key text is not base64.
    CertKeyNotBase64,
    /// The hello's sender is not the Agent ID the certificate key derives.
    SenderMismatch,
    /// The certificate key differs from the key on record for the sender.
    KeyMismatch,
}

pub open spec fn hello_identity_error_text(e: HelloIdentityError) -> Seq<char> {
    match e {
        HelloIdentityError::CertKeyNotBase64 => "peer certificate key was not valid base64"@,
        HelloIdentityError::SenderMismatch => "peer hello 'from' does not match certificate public key identity"@,
        HelloIdentityError::KeyMismatch => "peer certificate public key does not match discovered key"@,
    }
}

impl HelloIdentityError {
    pub fn message(&self) -> (s: &'static str)
        ensures
            s@ == hello_identity_error_text(*self),
    {
        match self {
            HelloIdentityError::CertKeyNotBase64 => "peer certificate key was not valid base64",
            HelloIdentityError::SenderMismatch => "peer hello 'from' does not match certificate public key identity",
            HelloIdentityError::KeyMismatch => "peer certificate public key does not match discovered key",
        }
    }
}

/// The verdict on a hello from `from` over a connection whose certificate
/// key is `cert_key` (base64), with `expected` the key on record for
/// `from`, if any.
pub open spec fn hello_identity_of(from: Seq<char>, cert_key: Seq<char>, expected: Option<Seq<char>>) -> Result<
    (),
    HelloIdentityError,
> {
    match std_base64_decoded(cert_key) {
        None => Err(HelloIdentityError::CertKeyNotBase64),
        Some(k) => if derived_agent_id(k) != from {
            Err(HelloIdentityError::SenderMismatch)
        } else if expected matches Some(e) && e != cert_key {
            Err(HelloIdentityError::KeyMismatch)
        } else {
            Ok(())
        },
    }
}

pub open spec fn opt_text(s: Option<&str>) -> Option<Seq<char>> {
    match s {
        Some(t) => Some(t@),
        None => None,
    }
}

/// Check a hello's sender against the connection's certificate key and
/// the key on record (see `hello_identity_of`).
pub fn hello_identity_check(from: &AgentId, cert_pubkey_b64: &str, expected: Option<&str>) -> (r: Result<
    (),
    HelloIdentityError,
>)
    ensures
        r == hello_identity_of(from@, cert_pubkey_b64@, opt_text(expected)),
{
    let key = match std_base64_decode(cert_pubkey_b64) {
        None => return Err(HelloIdentityError::CertKeyNotBase64),
        Some(k) => k,
    };
    let derived = derive_agent_id(&key);
    if !derived.same_as(from) {
        return Err(HelloIdentityError::SenderMismatch);
    }
    match expected {
        Some(e) => {
            if !chars_equal(&chars_of(e), &chars_of(cert_pubkey_b64)) {
                return Err(HelloIdentityError::KeyMismatch);
            }
        },
        None => {},
    }
    Ok(())
}

/// What arrives on an inbound connection.
pub enum InboundEvent {
    /// A one-way message claiming sender `from`.
    OneWay { from: AgentId },
    /// A request on a bidirectional stream: its ID, kind and claimed
    /// sender, whether a hello offers protocol version 1, and the text of
    /// the versions it offered.
    Request { request_id: u128, kind: MessageKind, from: AgentId, offers_v1: bool, received_versions: String },
}

/// What the connection does with an inbound event.
#[derive(Debug, Clone, PartialEq, Eq)]
pub enum InboundAction {
    /// Hand the message to local subscribers.
    Forward,
    /// Discard it.
    Drop,
    /// Answer with `reply`, handing the request to subscribers too when
    /// `forward`.
    Answer { forward: bool, reply: AutoEnvelope },
    /// Answer with a `not_authorized` error envelope.
    NotAuthorized(AutoEnvelope),
}

pub open spec fn not_authorized_of(message: Seq<char>) -> ErrorReplyView {
    error_reply_of("not_authorized"@, message, false)
}

/// The key on record for `a` among the pinned keys, if any.
pub open spec fn pinned_key(expected: Map<Seq<char>, String>, a: Seq<char>) -> Option<Seq<char>> {
    if expected.contains_key(a) {
        Some(expected[a]@)
    } else {
        None
    }
}

/// The connection's step on `ev` for local agent `local`, over a
/// connection whose certificate key is `cert_key` (base64), with
/// `authenticated` the peer a hello authenticated so far and `expected`
/// the pinned keys by Agent ID: the peer authenticated afterwards, and the
/// action.
pub open spec fn connection_step_fits(
    local: Seq<char>,
    authenticated: Option<Seq<char>>,
    ev: InboundEvent,
    cert_key: Seq<char>,
    expected: Map<Seq<char>, String>,
    r: (Option<AgentId>, InboundAction),
) -> bool {
    let after = match r.0 {
        Some(a) => Some(a@),
        None => None,
    };
    match ev {
        InboundEvent::OneWay { from } => after == authenticated && (if authenticated == Some(from@) {
            r.1 == InboundAction::Forward
        } else {
            r.1 == InboundAction::Drop
        }),
        InboundEvent::Request { request_id, kind, from, offers_v1, received_versions } => if kind == MessageKind::Hello {
            match hello_identity_of(from@, cert_key, pinned_key(expected, from@)) {
                Err(e) => {
                    &&& after == authenticated
                    &&& r.1 matches InboundAction::NotAuthorized(x)
                    &&& error_envelope_fits(x, request_id, local, from@, not_authorized_of(hello_identity_error_text(e)))
                },
                Ok(_) => {
                    &&& after == (if offers_v1 {
                        Some(from@)
                    } else {
                        authenticated
                    })
                    &&& r.1 matches InboundAction::Answer { forward, reply }
                    &&& forward == offers_v1
                    &&& auto_envelope_fits(reply, request_id, kind, offers_v1, received_versions@, local, from@)
                },
            }
        } else if authenticated != Some(from@) {
            &&& after == authenticated
            &&& r.1 matches InboundAction::NotAuthorized(x)
            &&& error_envelope_fits(
                x,
                request_id,
                local,
                from@,
                not_authorized_of("hello handshake must complete before other requests"@),
            )
        } else {
            &&& after == authenticated
            &&& r.1 matches InboundAction::Answer { forward, reply }
            &&& forward
            &&& auto_envelope_fits(reply, request_id, kind, offers_v1, received_versions@, local, from@)
        },
    }
}

pub open spec fn opt_id(a: Option<&AgentId>) -> Option<Seq<char>> {
    match a {
        Some(x) => Some(x@),
        None => None,
    }
}

/// One step of the connection (see `connection_step_fits`): a hello whose
/// sender is the Agent ID the certificate key derives, whose key matches
/// any pinned key, and that offers version 1, authenticates its sender and
/// is answered with the hello reply; before that, requests are refused and
/// one-way messages dropped.
pub fn connection_step(
    local: &AgentId,
    authenticated: Option<&AgentId>,
    ev: &InboundEvent,
    cert_pubkey_b64: &str,
    expected: &KeyedMap<String>,
) -> (r: (Option<AgentId>, InboundAction))
    requires
        expected.wf(),
    ensures
        connection_step_fits(local@, opt_id(authenticated), *ev, cert_pubkey_b64@, expected.as_map(), r),
{
    let kept = match authenticated {
        Some(a) => Some(a.duplicate()),
        None => None,
    };
    let is_peer = |from: &AgentId| -> (b: bool)
        ensures
            b == (opt_id(authenticated) == Some(from@)),
        {
            match authenticated {
                Some(a) => a.same_as(from),
                None => false,
            }
        };
    match ev {
        InboundEvent::OneWay { from } => {
            if is_peer(from) {
                (kept, InboundAction::Forward)
            } else {
                (kept, InboundAction::Drop)
            }
        },
        InboundEvent::Request { request_id, kind, from, offers_v1, received_versions } => {
            if *kind == MessageKind::Hello {
                let pinned = match expected.get_value(&from.to_chars()) {
                    Some(k) => Some(k.as_str()),
                    None => None,
                };
                proof {
                    lemma_has_as_map(expected, from@);
                }
                match hello_identity_check(from, cert_pubkey_b64, pinned) {
                    Err(e) => {
                        let reply = error_reply("not_authorized", e.message().to_string(), false);
                        (kept, InboundAction::NotAuthorized(error_envelope(*request_id, local, from, reply)))
                    },
                    Ok(_) => {
                        let reply = auto_envelope(*request_id, *kind, *offers_v1, received_versions.as_str(), local, from);
                        if *offers_v1 {
                            (Some(from.duplicate()), InboundAction::Answer { forward: true, reply })
                        } else {
                            (kept, InboundAction::Answer { forward: false, reply })
                        }
                    },
                }
            } else if !is_peer(from) {
                let reply = error_reply("not_authorized", "hello handshake must complete before other requests".to_string(), false);
                (kept, InboundAction::NotAuthorized(error_envelope(*request_id, local, from, reply)))
            } else {
                let reply = auto_envelope(*request_id, *kind, *offers_v1, received_versions.as_str(), local, from);
                (kept, InboundAction::Answer { forward: true, reply })
            }
        },
    }
}

/// The membership and value of a key, as the map view has them.
proof fn lemma_has_as_map(m: &KeyedMap<String>, k: Seq<char>)
    ensures
        m.has(k) == m.as_map().contains_key(k),
        m.has(k) ==> m.as_map()[k] == m.get(k),
{
}

/// The reply to a request nothing handles: `unhandled`, naming it.
pub open spec fn default_error_reply_of(request_id: u128) -> ErrorReplyView {
    error_reply_of(
        "unhandled"@,
        "no application handler registered for request '"@ + uuid_text(request_id) + "'"@,
        false,
    )
}

/// The answer from `local` to `requester`'s bidirectional request
/// `request_id` that no handler answers: an error envelope carrying
/// `default_error_reply_of`.
pub fn default_error_response(request_id: u128, local: &AgentId, requester: &AgentId) -> (r: AutoEnvelope)
    ensures
        error_envelope_fits(r, request_id, local@, requester@, default_error_reply_of(request_id)),
{
    let reply = error_reply("unhandled", text_with_uuid("no application handler registered for request '", request_id, "'"), false);
    error_envelope(request_id, local, requester, reply)
}

/// At most the first 64 characters of `s`.
pub open spec fn first64(s: Seq<char>) -> Seq<char> {
    if s.len() <= 64 {
        s
    } else {
        s.subrange(0, 64)
    }
}

/// The check of an authenticated bidirectional request of `kind` (with
/// `unknown_name` the raw kind text of an unknown kind, and `invalid` the
/// validation failure, if any): refused as an invalid envelope when it
/// failed validation, as an unsupported kind when its kind is unknown, and
/// as an invalid envelope when its kind awaits no reply; else it goes on.
pub open spec fn bidi_check_of(kind: MessageKind, unknown_name: Seq<char>, invalid: Option<Seq<char>>) -> Option<
    ErrorReplyView,
> {
    match invalid {
        Some(err) => Some(error_reply_of("invalid_envelope"@, "envelope validation failed: "@ + err, false)),
        None => if kind == MessageKind::Unknown {
            Some(
                error_reply_of(
                    "unsupported_kind"@,
                    "unsupported message kind '"@ + first64(unknown_name) + "' on bidirectional stream"@,
                    false,
                ),
            )
        } else if !awaits_reply(kind) {
            Some(
                error_reply_of(
                    "invalid_envelope"@,
                    "message kind '"@ + kind_name(kind) + "' cannot initiate a bidirectional stream"@,
                    false,
                ),
            )
        } else {
            None
        },
    }
}

fn concat3(a: &str, b: &Vec<char>, c: &str) -> (s: String)
    ensures
        s@ == a@ + b@ + c@,
{
    let mut v = chars_of(a);
    let mut m = slice_chars(b, 0, b.len());
    v.append(&mut m);
    let mut t = chars_of(c);
    v.append(&mut t);
    proof {
        assert(b@.subrange(0, b@.len() as int) =~= b@);
    }
    string_from_chars(&v)
}

/// The refusal of an authenticated bidirectional request, if any (see
/// `bidi_check_of`).
pub fn bidi_request_check(kind: MessageKind, unknown_name: &str, invalid: Option<&str>) -> (r: Option<ErrorReply>)
    ensures
        match r {
            Some(e) => bidi_check_of(kind, unknown_name@, opt_text(invalid)) == Some(e@),
            None => bidi_check_of(kind, unknown_name@, opt_text(invalid)) is None,
        },
{
    match invalid {
        Some(err) => {
            let mut v = chars_of("envelope validation failed: ");
            let mut e = chars_of(err);
            v.append(&mut e);
            Some(error_reply("invalid_envelope", string_from_chars(&v), false))
        },
        None => {
            if kind == MessageKind::Unknown {
                let name = chars_of(unknown_name);
                let cut = if name.len() <= 64 {
                    slice_chars(&name, 0, name.len())
                } else {
                    slice_chars(&name, 0, 64)
                };
                proof {
                    assert(name@.subrange(0, name@.len() as int) =~= name@);
                }
                Some(error_reply("unsupported_kind", concat3("unsupported message kind '", &cut, "' on bidirectional stream"), false))
            } else if !kind.expects_response() {
                let n = chars_of(kind.name());
                Some(error_reply("invalid_envelope", concat3("message kind '", &n, "' cannot initiate a bidirectional stream"), false))
            } else {
                None
            }
        },
    }
}

/// A dialed connection whose certificate authenticates another peer than
/// the one dialed.
#[derive(Debug, Clone, PartialEq, Eq)]
pub struct PeerMismatch {
    /// The Agent ID the certificate key derives.
    pub authenticated: AgentId,
    /// The Agent ID that was dialed.
    pub expected: AgentId,
}

impl PeerMismatch {
    /// `authenticated peer <authenticated> does not match <expected>`.
    pub fn message(&self) -> (s: String)
        ensures
            s@ == "authenticated peer "@ + self.authenticated@ + " does not match "@ + self.expected@,
    {
        let mut v = chars_of("authenticated peer ");
        let mut a = self.authenticated.to_chars();
        v.append(&mut a);
        let mut rest = chars_of(" does not match ");
        v.append(&mut rest);
        let mut e = self.expected.to_chars();
        v.append(&mut e);
        string_from_chars(&v)
    }
}

/// After the handshake of a dial to `expected`, the peer the certificate
/// key `cert_pubkey` authenticates (the Agent ID it derives) must be the
/// one dialed; otherwise the connection is closed with this mismatch.
pub fn dialed_peer_check(expected: &AgentId, cert_pubkey: &Vec<u8>) -> (r: Result<AgentId, PeerMismatch>)
    ensures
        r is Ok <==> derived_agent_id(cert_pubkey@) == expected@,
        r matches Ok(a) ==> a@ == expected@,
        r matches Err(m) ==> m.authenticated@ == derived_agent_id(cert_pubkey@) && m.expected@ == expected@,
{
    let authenticated = derive_agent_id(cert_pubkey);
    if authenticated.same_as(expected) {
        Ok(authenticated)
    } else {
        Err(PeerMismatch { authenticated, expected: expected.duplicate() })
    }
}

/// Stamp a request read from an authenticated connection with the
/// authenticated sender `peer_id` (an Agent ID the peer's certificate key
/// derived, so of the canonical shape) and the local agent as recipient,
/// whatever the envelope claimed.
pub fn overwrite_authenticated_identity(
    from: &mut Option<AgentId>,
    to: &mut Option<AgentId>,
    peer_id: &str,
    local_agent_id: &AgentId,
)
    requires
        well_formed_agent_id(peer_id@),
    ensures
        *final(from) matches Some(a) && a@ == peer_id@,
        *final(to) matches Some(b) && b@ == local_agent_id@,
{
    match AgentId::parse(peer_id) {
        Ok(a) => *from = Some(a),
        Err(_) => {},
    }
    *to = Some(local_agent_id.duplicate());
}

/// Once a hello has authenticated a peer, every later request from that
/// peer other than a hello is handed to local subscribers and answered:
/// its action is an answer with `forward` set, addressed from the local
/// agent back to the peer.
pub proof fn lemma_authenticated_requests_are_forwarded(
    local: Seq<char>,
    ev: InboundEvent,
    cert_key: Seq<char>,
    expected: Map<Seq<char>, String>,
    r: (Option<AgentId>, InboundAction),
)
    requires
        ev is Request,
        ev->Request_kind != MessageKind::Hello,
        connection_step_fits(local, Some(ev->Request_from@), ev, cert_key, expected, r),
    ensures
        r.1 matches InboundAction::Answer { forward, reply } && forward && reply.from@ == local && reply.to@ == ev->Request_from@,
        r.0 matches Some(a) && a@ == ev->Request_from@,
{
}

/// Who an inbound connection serves: a one-way message is forwarded
/// exactly when its sender is the authenticated peer, and is otherwise
/// dropped; a request other than a hello from anyone but the authenticated
/// peer is refused as not authorized; neither changes who is
/// authenticated. Only a hello can authenticate, and only its own sender.
pub proof fn lemma_only_the_authenticated_peer_is_served(
    local: Seq<char>,
    authenticated: Option<Seq<char>>,
    ev: InboundEvent,
    cert_key: Seq<char>,
    expected: Map<Seq<char>, String>,
    r: (Option<AgentId>, InboundAction),
)
    requires
        connection_step_fits(local, authenticated, ev, cert_key, expected, r),
    ensures
        ev is OneWay ==> (r.1 == InboundAction::Forward <==> authenticated == Some(ev->OneWay_from@)),
        ev is OneWay ==> (r.1 == InboundAction::Forward || r.1 == InboundAction::Drop),
        ev is Request && ev->Request_kind != MessageKind::Hello && authenticated != Some(ev->Request_from@)
            ==> r.1 is NotAuthorized,
        !(ev is Request && ev->Request_kind == MessageKind::Hello) ==> opt_id_of(r.0) == authenticated,
        opt_id_of(r.0) != authenticated ==> ev is Request && ev->Request_kind == MessageKind::Hello
            && opt_id_of(r.0) == Some(ev->Request_from@),
{
}

/// The Agent ID held, if any, as a plain value.
pub open spec fn opt_id_of(a: Option<AgentId>) -> Option<Seq<char>> {
    match a {
        Some(x) => Some(x@),
        None => None,
    }
}

} // verus!
