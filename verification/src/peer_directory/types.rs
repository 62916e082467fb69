//! Values that flow in and out of the peer directory.
use vstd::prelude::*;
use vstd::string::StringSliceAdditionalSpecFns;

use crate::identity::{AgentId, IdentityError, PeerIdentity, PeerIdentityView, identity_from_parts};
use crate::net::{SocketAddress, addr_less, addr_lt, parse_socket_addr, parsed_socket_addr, lemma_addr_lt_order};
use crate::text::{
    any_ws, ascii_lower, ascii_lowercase, chars_lt, chars_of, compare_chars, contains_whitespace,
    find_last, lemma_chars_lt_asymmetric, lemma_chars_lt_irreflexive, lemma_chars_lt_total,
    lemma_chars_lt_transitive, parse_u16, parsed_u16, slice_chars, split_last, string_from_chars,
    trim, trim_chars, join3, Order,
};

verus! {

#[verifier::external_type_specification]
#[verifier::external_body]
pub struct ExAnyhowError(anyhow::Error);

/// Typed failure for a persistent directory edit.
#[derive(Debug)]
pub enum DirectoryError {
    /// The target agent is not enrolled.
    NotEnrolled(AgentId),
    /// The candidate has no live observation to enroll from.
    NotObserved(AgentId),
    /// The enrolled-peer capacity bound was reached.
    EnrolledCapacity,
    /// The per-peer locator capacity bound was reached.
    LocatorCapacity,
    /// The local Agent ID cannot be enrolled or targeted.
    LocalAgentId(AgentId),
    /// Peer-store persistence failed; live memory remains the authority.
    Persist(anyhow::Error),
}

/// The text of an outside error: its `Display` rendering.
#[verifier::external_body]
fn error_text(err: &anyhow::Error) -> String {
    format!("{err}")
}

impl DirectoryError {
    /// How the error reads: the Agent ID it concerns, or the bound reached;
    /// a persistence failure reads as its prefix and then the store error.
    pub fn to_text(&self) -> (s: String)
        ensures
            match self {
                DirectoryError::NotEnrolled(a) => s@ == "peer "@ + a@ + " is not enrolled"@,
                DirectoryError::NotObserved(a) => s@ == "peer candidate "@ + a@ + " is not currently observed"@,
                DirectoryError::EnrolledCapacity => s@ == "enrolled-peer limit reached"@,
                DirectoryError::LocatorCapacity => s@ == "per-peer locator limit reached"@,
                DirectoryError::LocalAgentId(a) => s@ == "cannot enroll or target the local Agent ID "@ + a@ + ""@,
                DirectoryError::Persist(_) => "peer-store persistence failed: "@.is_prefix_of(s@),
            },
    {
        match self {
            DirectoryError::NotEnrolled(a) => join3("peer ", &a.to_chars(), " is not enrolled"),
            DirectoryError::NotObserved(a) => join3("peer candidate ", &a.to_chars(), " is not currently observed"),
            DirectoryError::EnrolledCapacity => "enrolled-peer limit reached".to_string(),
            DirectoryError::LocatorCapacity => "per-peer locator limit reached".to_string(),
            DirectoryError::LocalAgentId(a) => join3("cannot enroll or target the local Agent ID ", &a.to_chars(), ""),
            DirectoryError::Persist(err) => {
                let detail = chars_of(error_text(err).as_str());
                let s = join3("peer-store persistence failed: ", &detail, "");
                proof {
                    let p = "peer-store persistence failed: "@;
                    assert(s@.subrange(0, p.len() as int) =~= p);
                }
                s
            },
        }
    }
}

/// Where a configured peer can be dialed: a socket address, or a host name
/// (lower-cased) and a port to resolve at dial time.
#[derive(Debug, Clone, PartialEq, Eq, Hash, PartialOrd, Ord)]
pub enum PeerLocator {
    Socket(SocketAddress),
    Host { host: String, port: u16 },
}

pub enum LocatorView {
    Socket(SocketAddress),
    Host(Seq<char>, u16),
}

impl View for PeerLocator {
    type V = LocatorView;

    open spec fn view(&self) -> LocatorView {
        match self {
            PeerLocator::Socket(a) => LocatorView::Socket(*a),
            PeerLocator::Host { host, port } => LocatorView::Host(host@, *port),
        }
    }
}

/// The locator order: socket addresses first (by address order), then host
/// locators by host text and port.
pub open spec fn locator_lt(a: LocatorView, b: LocatorView) -> bool {
    match (a, b) {
        (LocatorView::Socket(x), LocatorView::Socket(y)) => addr_lt(x, y),
        (LocatorView::Socket(_), LocatorView::Host(_, _)) => true,
        (LocatorView::Host(_, _), LocatorView::Socket(_)) => false,
        (LocatorView::Host(h1, p1), LocatorView::Host(h2, p2)) => chars_lt(h1, h2) || (h1 == h2 && p1 < p2),
    }
}

pub proof fn lemma_locator_lt_order(a: LocatorView, b: LocatorView, c: LocatorView)
    ensures
        !locator_lt(a, a),
        locator_lt(a, b) && locator_lt(b, c) ==> locator_lt(a, c),
        a != b ==> locator_lt(a, b) || locator_lt(b, a),
        locator_lt(a, b) ==> !locator_lt(b, a),
{
    match (a, b, c) {
        (LocatorView::Socket(x), LocatorView::Socket(y), LocatorView::Socket(z)) => {
            lemma_addr_lt_order(x, y, z);
        },
        _ => {},
    }
    match a {
        LocatorView::Host(h, _) => lemma_chars_lt_irreflexive(h),
        _ => {},
    }
    match (a, b) {
        (LocatorView::Host(h1, _), LocatorView::Host(h2, _)) => {
            if h1 != h2 {
                lemma_chars_lt_total(h1, h2);
            }
            if chars_lt(h1, h2) {
                lemma_chars_lt_asymmetric(h1, h2);
            }
            if chars_lt(h2, h1) {
                lemma_chars_lt_asymmetric(h2, h1);
            }
        },
        (LocatorView::Socket(x), LocatorView::Socket(y)) => {
            lemma_addr_lt_order(x, y, y);
        },
        _ => {},
    }
    match (a, b, c) {
        (LocatorView::Host(h1, _), LocatorView::Host(h2, _), LocatorView::Host(h3, _)) => {
            if chars_lt(h1, h2) && chars_lt(h2, h3) {
                lemma_chars_lt_transitive(h1, h2, h3);
            }
        },
        _ => {},
    }
}

/// Why a locator text was refused.
#[derive(Debug, Clone, Copy, PartialEq, Eq, Structural)]
pub enum LocatorError {
    Empty,
    NotHostPort,
    InvalidHost,
    InvalidPort,
    ZeroPort,
}

/// How each locator error reads.
pub open spec fn locator_error_text(e: LocatorError) -> Seq<char> {
    match e {
        LocatorError::Empty => "peer locator cannot be empty"@,
        LocatorError::NotHostPort => "peer locator must be host:port or ip:port"@,
        LocatorError::InvalidHost => "peer locator host is invalid"@,
        LocatorError::InvalidPort => "peer locator has invalid port"@,
        LocatorError::ZeroPort => "peer locator port must be non-zero"@,
    }
}

impl LocatorError {
    pub fn message(&self) -> (s: &'static str)
        ensures
            s@ == locator_error_text(*self),
    {
        match self {
            LocatorError::Empty => "peer locator cannot be empty",
            LocatorError::NotHostPort => "peer locator must be host:port or ip:port",
            LocatorError::InvalidHost => "peer locator host is invalid",
            LocatorError::InvalidPort => "peer locator has invalid port",
            LocatorError::ZeroPort => "peer locator port must be non-zero",
        }
    }
}

/// What `PeerLocator::parse` decides for a text.
pub open spec fn locator_parsed(input: Seq<char>) -> Result<LocatorView, LocatorError> {
    let t = trim(input);
    if t.len() == 0 {
        Err(LocatorError::Empty)
    } else if parsed_socket_addr(t) is Some {
        Ok(LocatorView::Socket(parsed_socket_addr(t).unwrap()))
    } else {
        match split_last(t, ':') {
            None => Err(LocatorError::NotHostPort),
            Some((host, port)) => if host.len() == 0 || any_ws(host) {
                Err(LocatorError::InvalidHost)
            } else {
                match parsed_u16(port) {
                    None => Err(LocatorError::InvalidPort),
                    Some(p) => if p == 0 {
                        Err(LocatorError::ZeroPort)
                    } else {
                        Ok(LocatorView::Host(ascii_lower(host), p))
                    },
                }
            },
        }
    }
}

impl PeerLocator {
    #[verifier::spinoff_prover]
    #[verifier::rlimit(40)]
    pub fn parse(input: &str) -> (r: Result<PeerLocator, LocatorError>)
        ensures
            r matches Ok(l) ==> locator_parsed(input@) == Ok::<LocatorView, LocatorError>(l@),
            r matches Err(e) ==> locator_parsed(input@) == Err::<LocatorView, LocatorError>(e),
    {
        let t = trim_chars(&chars_of(input));
        if t.len() == 0 {
            return Err(LocatorError::Empty);
        }
        if let Some(a) = parse_socket_addr(&t) {
            return Ok(PeerLocator::Socket(a));
        }
        let i = match find_last(&t, ':') {
            None => return Err(LocatorError::NotHostPort),
            Some(i) => i,
        };
        let host = slice_chars(&t, 0, i);
        let port_text = slice_chars(&t, i + 1, t.len());
        if host.len() == 0 || contains_whitespace(&host) {
            return Err(LocatorError::InvalidHost);
        }
        let port = match parse_u16(&port_text) {
            None => return Err(LocatorError::InvalidPort),
            Some(p) => p,
        };
        if port == 0 {
            return Err(LocatorError::ZeroPort);
        }
        let lower = ascii_lowercase(&host);
        Ok(PeerLocator::Host { host: string_from_chars(&lower), port })
    }

    pub fn duplicate(&self) -> (r: PeerLocator)
        ensures
            r@ == self@,
    {
        match self {
            PeerLocator::Socket(a) => PeerLocator::Socket(*a),
            PeerLocator::Host { host, port } => PeerLocator::Host { host: host.clone(), port: *port },
        }
    }

    pub fn less_than(&self, other: &PeerLocator) -> (r: bool)
        ensures
            r == locator_lt(self@, other@),
    {
        match (self, other) {
            (PeerLocator::Socket(x), PeerLocator::Socket(y)) => addr_less(x, y),
            (PeerLocator::Socket(_), PeerLocator::Host { .. }) => true,
            (PeerLocator::Host { .. }, PeerLocator::Socket(_)) => false,
            (PeerLocator::Host { host: h1, port: p1 }, PeerLocator::Host { host: h2, port: p2 }) => {
                let c1 = chars_of(h1.as_str());
                let c2 = chars_of(h2.as_str());
                let o = compare_chars(&c1, &c2);
                if o == Order::Less {
                    true
                } else if o == Order::Equal {
                    proof {
                        if chars_lt(h1@, h2@) {
                            lemma_chars_lt_irreflexive(h1@);
                        }
                    }
                    *p1 < *p2
                } else {
                    false
                }
            },
        }
    }

    pub fn equals(&self, other: &PeerLocator) -> (r: bool)
        ensures
            r == (self@ == other@),
    {
        let a = self.less_than(other);
        let b = other.less_than(self);
        proof {
            lemma_locator_lt_order(self@, other@, other@);
        }
        !a && !b
    }
}

/// A discovery instance's identifier: 1 to 512 bytes of text.
#[derive(Debug, Clone, PartialEq, Eq, Hash, PartialOrd, Ord)]
pub struct ObservationId {
    value: String,
}

impl View for ObservationId {
    type V = Seq<char>;

    closed spec fn view(&self) -> Seq<char> {
        self.value@
    }
}

/// Why an observation identifier was refused.
#[derive(Debug, Clone, Copy, PartialEq, Eq, Structural)]
pub enum ObservationIdError {
    /// Empty, or longer than 512 bytes.
    BadLength,
}

/// How an observation-ID error reads.
pub open spec fn observation_id_error_text(e: ObservationIdError) -> Seq<char> {
    "observation id must contain 1 to 512 bytes"@}

impl ObservationIdError {
    pub fn message(&self) -> (s: &'static str)
    ensures
        s@ == observation_id_error_text(*self),
    {
    "observation id must contain 1 to 512 bytes"
    }
}

impl ObservationId {
    pub fn new(value: &str) -> (r: Result<ObservationId, ObservationIdError>)
        ensures
            r is Ok <==> (1 <= value.len() <= 512),
            r matches Ok(id) ==> id@ == value@,
    {
        let n = value.len();
        if n == 0 || n > 512 {
            return Err(ObservationIdError::BadLength);
        }
        Ok(ObservationId { value: value.to_owned() })
    }

    /// The identifier's text (its `Display` form).
    pub fn as_str(&self) -> (s: &str)
        ensures
            s@ == self@,
    {
        self.value.as_str()
    }

    pub fn to_chars(&self) -> (v: Vec<char>)
        ensures
            v@ == self@,
    {
        chars_of(self.value.as_str())
    }

    pub fn duplicate(&self) -> (r: ObservationId)
        ensures
            r@ == self@,
    {
        ObservationId { value: self.value.clone() }
    }
}

#[derive(Debug, Clone, Copy, PartialEq, Eq, Structural)]
pub enum ObservationSource {
    Mdns,
    Handshake,
}

/// A live discovery observation of a peer. `observed_at` is a monotonic
/// timestamp in nanoseconds.
#[derive(Debug)]
pub struct PeerObservation {
    pub id: ObservationId,
    pub identity: PeerIdentity,
    pub endpoint: Option<SocketAddress>,
    pub display_name: Option<String>,
    pub source: ObservationSource,
    pub observed_at: u64,
}

impl PeerObservation {
    /// An observation whose identity is validated like `PeerIdentity::from_parts`.
    pub fn new(
        id: ObservationId,
        agent_id: AgentId,
        public_key: &str,
        endpoint: Option<SocketAddress>,
        display_name: Option<String>,
        source: ObservationSource,
        observed_at: u64,
    ) -> (r: Result<PeerObservation, IdentityError>)
        ensures
            r matches Ok(o) ==> identity_from_parts(agent_id@, public_key@) == Ok::<PeerIdentityView, IdentityError>(o.identity@)
                && o.id@ == id@ && o.endpoint == endpoint && o.source == source && o.observed_at == observed_at
                && o.display_name == display_name,
            r matches Err(e) ==> identity_from_parts(agent_id@, public_key@) == Err::<PeerIdentityView, IdentityError>(e),
    {
        let identity = PeerIdentity::from_parts(agent_id, public_key)?;
        Ok(PeerObservation { id, identity, endpoint, display_name, source, observed_at })
    }
}

#[derive(Debug, Clone, Copy, PartialEq, Eq, Structural)]
pub enum PeerTrust {
    Candidate,
    Enrolled,
}

/// A peer as listed to users.
#[derive(Debug)]
pub struct PeerView {
    pub identity: PeerIdentity,
    pub trust: PeerTrust,
    pub configured_locators: Vec<PeerLocator>,
    pub observed_endpoints: Vec<SocketAddress>,
    pub display_name: Option<String>,
}

/// One place to dial an enrolled peer.
#[derive(Debug, Clone, PartialEq, Eq)]
pub enum DialTarget {
    Configured(PeerLocator),
    Observed(SocketAddress),
}

pub enum DialTargetView {
    Configured(LocatorView),
    Observed(SocketAddress),
}

impl View for DialTarget {
    type V = DialTargetView;

    open spec fn view(&self) -> DialTargetView {
        match self {
            DialTarget::Configured(l) => DialTargetView::Configured(l@),
            DialTarget::Observed(e) => DialTargetView::Observed(*e),
        }
    }
}

/// A listed peer as plain values.
#[verifier::ext_equal]
pub struct ListedPeer {
    pub identity: PeerIdentityView,
    pub trust: PeerTrust,
    pub configured_locators: Seq<LocatorView>,
    pub observed_endpoints: Seq<SocketAddress>,
    pub display_name: Option<Seq<char>>,
}

impl View for PeerView {
    type V = ListedPeer;

    open spec fn view(&self) -> ListedPeer {
        ListedPeer {
            identity: self.identity@,
            trust: self.trust,
            configured_locators: self.configured_locators@.map_values(|l: PeerLocator| l@),
            observed_endpoints: self.observed_endpoints@,
            display_name: match &self.display_name {
                Some(n) => Some(n@),
                None => None,
            },
        }
    }
}

#[derive(Debug, Clone, Copy, PartialEq, Eq, Structural)]
pub enum ObserveOutcome {
    IgnoredSelf,
    CandidateAdded,
    CandidateRefreshed,
    EnrolledPeerRefreshed,
    IdentityConflict,
    LocatorConflict,
    CapacityReached,
}

} // verus!
