//! Send semantics: message kinds, the failure record of a send, when a
//! failed exchange may be retried, and the shared exchange deadline.
use vstd::prelude::*;

use crate::identity::AgentId;
use crate::reply::{ErrorReply, ErrorReplyView, error_reply, error_reply_of};
use crate::text::{chars_of, string_from_chars};

verus! {

/// The largest encoded envelope (64 KiB); larger messages are refused.
pub const MAX_MESSAGE_SIZE: usize = 65536;

/// How long a request waits for its response (30 s, in nanoseconds).
pub const REQUEST_TIMEOUT: u64 = 30_000_000_000;

/// The keep-alive interval of a peer connection (15 s, in nanoseconds).
pub const KEEPALIVE_INTERVAL: u64 = 15_000_000_000;

/// How long a peer connection may stay idle before it closes (60 s, in
/// nanoseconds).
pub const IDLE_TIMEOUT: u64 = 60_000_000_000;

/// How long one outbound dial, handshake included, may take (10 s, in
/// nanoseconds).
pub const DIAL_TIMEOUT: u64 = 10_000_000_000;

/// The kinds of envelope on the wire.
#[derive(Debug, Clone, Copy, PartialEq, Eq, Structural)]
pub enum MessageKind {
    Hello,
    Ping,
    Pong,
    Query,
    Response,
    Delegate,
    Ack,
    Cancel,
    Discover,
    Capabilities,
    Describe,
    Request,
    Notify,
    Message,
    Error,
    Unknown,
}

/// The kinds sent on a bidirectional stream, where one reply is awaited.
pub open spec fn awaits_reply(kind: MessageKind) -> bool {
    match kind {
        MessageKind::Hello | MessageKind::Ping | MessageKind::Query | MessageKind::Delegate | MessageKind::Cancel
        | MessageKind::Discover | MessageKind::Describe | MessageKind::Request => true,
        _ => false,
    }
}

impl MessageKind {
    /// Whether a send of this kind awaits a reply.
    pub fn expects_response(&self) -> (r: bool)
        ensures
            r == awaits_reply(*self),
    {
        match self {
            MessageKind::Hello | MessageKind::Ping | MessageKind::Query | MessageKind::Delegate | MessageKind::Cancel
            | MessageKind::Discover | MessageKind::Describe | MessageKind::Request => true,
            _ => false,
        }
    }
}

/// A transport send failure annotated with delivery ambiguity: once payload
/// bytes may have reached the peer a retry could deliver twice.
#[derive(Debug)]
pub struct SendError {
    /// Underlying failure.
    pub inner: anyhow::Error,
    /// True once payload bytes may already have reached the peer.
    pub ambiguous: bool,
    /// True when the failure was budget exhaustion rather than an error.
    pub timed_out: bool,
}

impl SendError {
    /// A failure before any payload byte was written.
    pub fn pre_send(inner: anyhow::Error) -> (r: SendError)
        ensures
            r.inner == inner,
            !r.ambiguous,
            !r.timed_out,
    {
        SendError { inner, ambiguous: false, timed_out: false }
    }

    /// A failure after payload bytes may have been written.
    pub fn ambiguous(inner: anyhow::Error) -> (r: SendError)
        ensures
            r.inner == inner,
            r.ambiguous,
            !r.timed_out,
    {
        SendError { inner, ambiguous: true, timed_out: false }
    }

    /// Budget exhaustion before delivery.
    pub fn pre_send_timeout(inner: anyhow::Error) -> (r: SendError)
        ensures
            r.inner == inner,
            !r.ambiguous,
            r.timed_out,
    {
        SendError { inner, ambiguous: false, timed_out: true }
    }

    /// Budget exhaustion after bytes may have been written.
    pub fn timeout(inner: anyhow::Error) -> (r: SendError)
        ensures
            r.inner == inner,
            r.ambiguous,
            r.timed_out,
    {
        SendError { inner, ambiguous: true, timed_out: true }
    }
}

/// Whether a failed exchange may be retried on a refreshed connection: a
/// send awaiting a reply keeps its single retry; any other kind only when
/// the failure is provably before delivery.
pub fn retry_permitted(kind: &MessageKind, error: &SendError) -> (r: bool)
    ensures
        r == (awaits_reply(*kind) || !error.ambiguous),
{
    kind.expects_response() || !error.ambiguous
}

/// `anyhow::Error::msg` on `text`.
#[verifier::external_body]
fn error_with_text(text: String) -> anyhow::Error {
    anyhow::Error::msg(text)
}

/// The text of a send that ran out of budget before `phase`.
pub open spec fn budget_exhausted_text(phase: Seq<char>) -> Seq<char> {
    "send budget exhausted before "@ + phase
}

/// The exhausted-budget text for `phase`.
pub fn budget_exhausted_message(phase: &str) -> (s: String)
    ensures
        s@ == budget_exhausted_text(phase@),
{
    let mut v = chars_of("send budget exhausted before ");
    let mut p = chars_of(phase);
    v.append(&mut p);
    string_from_chars(&v)
}

/// The time left before the exchange deadline `deadline` at `now`
/// (nanoseconds), or a pre-send timeout once none is left; every phase of
/// an exchange draws on the same deadline.
pub fn remaining_budget(deadline: u64, now: u64, phase: &str) -> (r: Result<u64, SendError>)
    ensures
        r matches Ok(left) ==> now <= deadline && left == deadline - now,
        r matches Err(e) ==> now > deadline && !e.ambiguous && e.timed_out,
{
    if now <= deadline {
        Ok(deadline - now)
    } else {
        Err(SendError::pre_send_timeout(error_with_text(budget_exhausted_message(phase))))
    }
}

/// How the transport answers an inbound bidirectional request by itself.
#[derive(Debug, Clone, Copy, PartialEq, Eq, Structural)]
pub enum AutoReply {
    /// A hello without protocol version 1: `incompatible_version` error.
    IncompatibleVersion,
    /// A hello offering version 1: hello with version 1 selected.
    HelloAccepted,
    /// A ping: pong with an idle status.
    Pong,
    /// A discover: the agent's capabilities.
    Capabilities,
    /// A query: a response accepting it.
    QueryAccepted,
    /// A delegate or cancel: an ack accepting it.
    Ack,
    /// Any other kind: `unknown_kind` error.
    UnknownKind,
}

pub open spec fn auto_reply_of(kind: MessageKind, offers_v1: bool) -> AutoReply {
    match kind {
        MessageKind::Hello => if offers_v1 {
            AutoReply::HelloAccepted
        } else {
            AutoReply::IncompatibleVersion
        },
        MessageKind::Ping => AutoReply::Pong,
        MessageKind::Discover => AutoReply::Capabilities,
        MessageKind::Query => AutoReply::QueryAccepted,
        MessageKind::Delegate | MessageKind::Cancel => AutoReply::Ack,
        _ => AutoReply::UnknownKind,
    }
}

/// The automatic answer to a request of `kind`; `offers_v1` tells whether
/// a hello's protocol versions include 1.
pub fn auto_response(kind: MessageKind, offers_v1: bool) -> (r: AutoReply)
    ensures
        r == auto_reply_of(kind, offers_v1),
{
    match kind {
        MessageKind::Hello => if offers_v1 {
            AutoReply::HelloAccepted
        } else {
            AutoReply::IncompatibleVersion
        },
        MessageKind::Ping => AutoReply::Pong,
        MessageKind::Discover => AutoReply::Capabilities,
        MessageKind::Query => AutoReply::QueryAccepted,
        MessageKind::Delegate | MessageKind::Cancel => AutoReply::Ack,
        _ => AutoReply::UnknownKind,
    }
}

impl AutoReply {
    /// The kind of the answering envelope.
    pub fn kind(&self) -> (k: MessageKind)
        ensures
            k == (match *self {
                AutoReply::IncompatibleVersion | AutoReply::UnknownKind => MessageKind::Error,
                AutoReply::HelloAccepted => MessageKind::Hello,
                AutoReply::Pong => MessageKind::Pong,
                AutoReply::Capabilities => MessageKind::Capabilities,
                AutoReply::QueryAccepted => MessageKind::Response,
                AutoReply::Ack => MessageKind::Ack,
            }),
    {
        match self {
            AutoReply::IncompatibleVersion | AutoReply::UnknownKind => MessageKind::Error,
            AutoReply::HelloAccepted => MessageKind::Hello,
            AutoReply::Pong => MessageKind::Pong,
            AutoReply::Capabilities => MessageKind::Capabilities,
            AutoReply::QueryAccepted => MessageKind::Response,
            AutoReply::Ack => MessageKind::Ack,
        }
    }
}

/// Whether a hello's `protocol_versions` entries (each read as an unsigned
/// integer where it is one) include version 1; no list offers nothing.
pub fn hello_request_supports_protocol_v1(versions: Option<&Vec<Option<u64>>>) -> (r: bool)
    ensures
        r == (versions matches Some(vs) && exists|i: int| 0 <= i < vs@.len() && vs@[i] == Some(1u64)),
{
    let vs = match versions {
        Some(vs) => vs,
        None => return false,
    };
    let mut i: usize = 0;
    while i < vs.len()
        invariant
            versions == Some(vs),
            i <= vs@.len(),
            forall|j: int| 0 <= j < i ==> vs@[j] != Some(1u64),
        decreases vs@.len() - i,
    {
        if let Some(v) = vs[i] {
            if v == 1 {
                assert(vs@[i as int] == Some(1u64));
                return true;
            }
        }
        i = i + 1;
    }
    false
}

/// Whether a hello response's `selected_version` is 1.
pub fn hello_selected_version_is_supported(selected_version: Option<u64>) -> (r: bool)
    ensures
        r == (selected_version == Some(1u64)),
{
    match selected_version {
        Some(v) => v == 1,
        None => false,
    }
}

/// The wire name of a message kind.
pub open spec fn kind_name(kind: MessageKind) -> Seq<char> {
    match kind {
        MessageKind::Hello => "hello"@,
        MessageKind::Ping => "ping"@,
        MessageKind::Pong => "pong"@,
        MessageKind::Query => "query"@,
        MessageKind::Response => "response"@,
        MessageKind::Delegate => "delegate"@,
        MessageKind::Ack => "ack"@,
        MessageKind::Cancel => "cancel"@,
        MessageKind::Discover => "discover"@,
        MessageKind::Capabilities => "capabilities"@,
        MessageKind::Describe => "describe"@,
        MessageKind::Request => "request"@,
        MessageKind::Notify => "notify"@,
        MessageKind::Message => "message"@,
        MessageKind::Error => "error"@,
        MessageKind::Unknown => "unknown"@,
    }
}

impl MessageKind {
    /// The kind's wire name (see `kind_name`).
    pub fn name(&self) -> (s: &'static str)
        ensures
            s@ == kind_name(*self),
    {
        match self {
            MessageKind::Hello => "hello",
            MessageKind::Ping => "ping",
            MessageKind::Pong => "pong",
            MessageKind::Query => "query",
            MessageKind::Response => "response",
            MessageKind::Delegate => "delegate",
            MessageKind::Ack => "ack",
            MessageKind::Cancel => "cancel",
            MessageKind::Discover => "discover",
            MessageKind::Capabilities => "capabilities",
            MessageKind::Describe => "describe",
            MessageKind::Request => "request",
            MessageKind::Notify => "notify",
            MessageKind::Message => "message",
            MessageKind::Error => "error",
            MessageKind::Unknown => "unknown",
        }
    }
}

/// The payload of an automatic answer.
#[derive(Debug, Clone, PartialEq, Eq)]
pub enum AutoPayload {
    Hello { protocol_versions: Vec<u64>, selected_version: u64 },
    Pong { status: String, uptime_secs: u64, active_tasks: u64 },
    Capabilities { agent_name: String, domains: Vec<String>, tools: Vec<String>, max_concurrent_tasks: u64 },
    Query { accepted: bool, summary: String, tokens_used: u64, truncated: bool },
    Ack { accepted: bool },
    Error(ErrorReply),
}

/// An answer envelope: the request it answers, its kind, its sender (the
/// local agent) and recipient (the requester), and its payload.
#[derive(Debug, Clone, PartialEq, Eq)]
pub struct AutoEnvelope {
    pub ref_id: u128,
    pub kind: MessageKind,
    pub from: AgentId,
    pub to: AgentId,
    pub payload: AutoPayload,
}

/// `r` is the error answer `e` from `local` to `requester` for request
/// `request_id`.
pub open spec fn error_envelope_fits(r: AutoEnvelope, request_id: u128, local: Seq<char>, requester: Seq<char>, e: ErrorReplyView) -> bool {
    &&& r.ref_id == request_id
    &&& r.kind == MessageKind::Error
    &&& r.from@ == local
    &&& r.to@ == requester
    &&& r.payload matches AutoPayload::Error(x)
    &&& x@ == e
}

/// The error answer `e` from `local` to `requester` for request
/// `request_id`.
pub fn error_envelope(request_id: u128, local: &AgentId, requester: &AgentId, e: ErrorReply) -> (r: AutoEnvelope)
    ensures
        error_envelope_fits(r, request_id, local@, requester@, e@),
{
    AutoEnvelope {
        ref_id: request_id,
        kind: MessageKind::Error,
        from: local.duplicate(),
        to: requester.duplicate(),
        payload: AutoPayload::Error(e),
    }
}

pub open spec fn texts(v: Seq<String>) -> Seq<Seq<char>> {
    v.map_values(|s: String| s@)
}

/// What the automatic answer from `local` to `requester`'s request
/// `request_id` of `kind` holds;
/// `received_versions` is the text of the protocol versions a hello
/// offered, quoted in an `incompatible_version` error.
pub open spec fn auto_envelope_fits(
    r: AutoEnvelope,
    request_id: u128,
    kind: MessageKind,
    offers_v1: bool,
    received_versions: Seq<char>,
    local: Seq<char>,
    requester: Seq<char>,
) -> bool {
    &&& r.ref_id == request_id
    &&& r.from@ == local
    &&& r.to@ == requester
    &&& r.kind == auto_reply_kind(auto_reply_of(kind, offers_v1))
    &&& match auto_reply_of(kind, offers_v1) {
        AutoReply::HelloAccepted => r.payload matches AutoPayload::Hello { protocol_versions, selected_version }
            && protocol_versions@ == seq![1u64] && selected_version == 1,
        AutoReply::Pong => r.payload matches AutoPayload::Pong { status, uptime_secs, active_tasks }
            && status@ == "idle"@ && uptime_secs == 0 && active_tasks == 0,
        AutoReply::Capabilities => r.payload matches AutoPayload::Capabilities { agent_name, domains, tools, max_concurrent_tasks }
            && agent_name@ == "AXON Agent"@ && texts(domains@) == seq!["meta.status"@] && texts(tools@) == seq!["axon"@]
            && max_concurrent_tasks == 1,
        AutoReply::QueryAccepted => r.payload matches AutoPayload::Query { accepted, summary, tokens_used, truncated }
            && accepted && summary@ == "Query received"@ && tokens_used == 0 && !truncated,
        AutoReply::Ack => r.payload matches AutoPayload::Ack { accepted } && accepted,
        AutoReply::IncompatibleVersion => r.payload matches AutoPayload::Error(e) && e@ == error_reply_of(
            "incompatible_version"@,
            "no mutually supported protocol version. This agent supports: [1]. Received: "@ + received_versions,
            false,
        ),
        AutoReply::UnknownKind => r.payload matches AutoPayload::Error(e) && e@ == error_reply_of(
            "unknown_kind"@,
            "unsupported request kind '"@ + kind_name(kind) + "' for bidirectional stream"@,
            false,
        ),
    }
}

pub open spec fn auto_reply_kind(a: AutoReply) -> MessageKind {
    match a {
        AutoReply::IncompatibleVersion | AutoReply::UnknownKind => MessageKind::Error,
        AutoReply::HelloAccepted => MessageKind::Hello,
        AutoReply::Pong => MessageKind::Pong,
        AutoReply::Capabilities => MessageKind::Capabilities,
        AutoReply::QueryAccepted => MessageKind::Response,
        AutoReply::Ack => MessageKind::Ack,
    }
}

/// The automatic answer to request `request_id` of `kind` (see
/// `auto_envelope_fits`).
pub fn auto_envelope(
    request_id: u128,
    kind: MessageKind,
    offers_v1: bool,
    received_versions: &str,
    local: &AgentId,
    requester: &AgentId,
) -> (r: AutoEnvelope)
    ensures
        auto_envelope_fits(r, request_id, kind, offers_v1, received_versions@, local@, requester@),
{
    let a = auto_response(kind, offers_v1);
    let k = a.kind();
    let payload = match a {
        AutoReply::HelloAccepted => {
            let mut v: Vec<u64> = Vec::new();
            v.push(1);
            assert(v@ =~= seq![1u64]);
            AutoPayload::Hello { protocol_versions: v, selected_version: 1 }
        },
        AutoReply::Pong => AutoPayload::Pong { status: "idle".to_string(), uptime_secs: 0, active_tasks: 0 },
        AutoReply::Capabilities => {
            let mut domains: Vec<String> = Vec::new();
            domains.push("meta.status".to_string());
            let mut tools: Vec<String> = Vec::new();
            tools.push("axon".to_string());
            assert(texts(domains@) =~= seq!["meta.status"@]);
            assert(texts(tools@) =~= seq!["axon"@]);
            AutoPayload::Capabilities { agent_name: "AXON Agent".to_string(), domains, tools, max_concurrent_tasks: 1 }
        },
        AutoReply::QueryAccepted => AutoPayload::Query {
            accepted: true,
            summary: "Query received".to_string(),
            tokens_used: 0,
            truncated: false,
        },
        AutoReply::Ack => AutoPayload::Ack { accepted: true },
        AutoReply::IncompatibleVersion => {
            let mut v = chars_of("no mutually supported protocol version. This agent supports: [1]. Received: ");
            let mut r = chars_of(received_versions);
            v.append(&mut r);
            AutoPayload::Error(error_reply("incompatible_version", string_from_chars(&v), false))
        },
        AutoReply::UnknownKind => {
            let mut v = chars_of("unsupported request kind '");
            let mut n = chars_of(kind.name());
            v.append(&mut n);
            let mut t = chars_of("' for bidirectional stream");
            v.append(&mut t);
            AutoPayload::Error(error_reply("unknown_kind", string_from_chars(&v), false))
        },
    };
    AutoEnvelope { ref_id: request_id, kind: k, from: local.duplicate(), to: requester.duplicate(), payload }
}

/// Why a peer's answer to our hello ends the handshake.
#[derive(Debug, Clone, PartialEq, Eq)]
pub enum HelloRejection {
    /// A hello answer that selected this version (or none), not 1.
    VersionNotNegotiated(Option<u64>),
    /// An error answer with this code and message.
    Rejected { code: String, message: String },
    /// An answer of another kind.
    UnexpectedKind(MessageKind),
}

pub enum HelloRejectionView {
    VersionNotNegotiated(Option<u64>),
    Rejected { code: Seq<char>, message: Seq<char> },
    UnexpectedKind(MessageKind),
}

impl View for HelloRejection {
    type V = HelloRejectionView;

    open spec fn view(&self) -> HelloRejectionView {
        match self {
            HelloRejection::VersionNotNegotiated(v) => HelloRejectionView::VersionNotNegotiated(*v),
            HelloRejection::Rejected { code, message } => HelloRejectionView::Rejected { code: code@, message: message@ },
            HelloRejection::UnexpectedKind(k) => HelloRejectionView::UnexpectedKind(*k),
        }
    }
}

/// The verdict on the answer to our hello, of `kind`, with the
/// `selected_version`, `code` and `message` it carries (each where it is
/// present as a number or a string): a hello answer passes only with
/// version 1 selected; an error answer is a rejection with its code and
/// message (`unknown_error` and `peer rejected hello` where absent); any
/// other kind is unexpected.
pub open spec fn hello_verdict_of(kind: MessageKind, selected: Option<u64>, code: Option<Seq<char>>, message: Option<Seq<char>>) -> Result<
    (),
    HelloRejectionView,
> {
    match kind {
        MessageKind::Hello => if selected == Some(1u64) {
            Ok(())
        } else {
            Err(HelloRejectionView::VersionNotNegotiated(selected))
        },
        MessageKind::Error => Err(
            HelloRejectionView::Rejected {
                code: match code {
                    Some(c) => c,
                    None => "unknown_error"@,
                },
                message: match message {
                    Some(m) => m,
                    None => "peer rejected hello"@,
                },
            },
        ),
        _ => Err(HelloRejectionView::UnexpectedKind(kind)),
    }
}

pub open spec fn opt_str(s: Option<&str>) -> Option<Seq<char>> {
    match s {
        Some(t) => Some(t@),
        None => None,
    }
}

/// The verdict on the answer to our hello (see `hello_verdict_of`).
pub fn hello_response_verdict(kind: MessageKind, selected: Option<u64>, code: Option<&str>, message: Option<&str>) -> (r: Result<
    (),
    HelloRejection,
>)
    ensures
        match r {
            Ok(_) => hello_verdict_of(kind, selected, opt_str(code), opt_str(message)) is Ok,
            Err(e) => hello_verdict_of(kind, selected, opt_str(code), opt_str(message)) == Err::<(), HelloRejectionView>(e@),
        },
{
    match kind {
        MessageKind::Hello => if hello_selected_version_is_supported(selected) {
            Ok(())
        } else {
            Err(HelloRejection::VersionNotNegotiated(selected))
        },
        MessageKind::Error => {
            let code = match code {
                Some(c) => c.to_string(),
                None => "unknown_error".to_string(),
            };
            let message = match message {
                Some(m) => m.to_string(),
                None => "peer rejected hello".to_string(),
            };
            Err(HelloRejection::Rejected { code, message })
        },
        _ => Err(HelloRejection::UnexpectedKind(kind)),
    }
}

/// Every kind that gets an answer of its own (any automatic answer but
/// `unknown_kind`: hello, ping, query, delegate, cancel, discover) is sent
/// as a request that awaits its reply, so it also keeps its single retry
/// whatever the failure. A `request` awaits its `response` or `error`;
/// a `message` is fire-and-forget.
pub proof fn lemma_answered_kinds_await_replies(kind: MessageKind, offers_v1: bool)
    ensures
        auto_reply_of(kind, offers_v1) != AutoReply::UnknownKind ==> awaits_reply(kind),
        awaits_reply(MessageKind::Request),
        !awaits_reply(MessageKind::Message),
{
}

} // verus!
