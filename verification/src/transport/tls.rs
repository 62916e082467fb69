//! Certificate pinning: a peer's certificate key must derive its Agent ID
//! and match the key on record; an unknown peer is refused and may raise a
//! rate-limited pairing request.
use vstd::prelude::*;

use crate::codec::{std_base64_encode, std_base64_encoded};
use crate::identity::{derive_agent_id, derived_agent_id};
use crate::keyed::{KeyedMap, group_map_values};
use crate::text::{ascii_lower, ascii_lowercase, chars_equal, find_first, slice_chars, split_first, string_from_chars, chars_of};

verus! {

broadcast use group_map_values;

/// How long an unknown peer's pairing request stays suppressed (30 s, in
/// nanoseconds).
pub const PAIR_REQUEST_LOG_WINDOW: u64 = 30_000_000_000;

/// The subject public key bits of the certificate that `x509-parser`
/// reads from DER `der` (`None`: the DER does not parse).
pub uninterp spec fn x509_subject_public_key(der: Seq<u8>) -> Option<Seq<u8>>;

/// `x509_parser::parse_x509_certificate`, then the subject public key's
/// bit string data.
#[verifier::external_body]
fn cert_subject_public_key(cert_der: &[u8]) -> (r: Option<Vec<u8>>)
    ensures
        match r {
            Some(k) => x509_subject_public_key(cert_der@) == Some(k@),
            None => x509_subject_public_key(cert_der@) is None,
        },
{
    match x509_parser::parse_x509_certificate(cert_der) {
        Ok((_rest, cert)) => Some(cert.public_key().subject_public_key.data.to_vec()),
        Err(_) => None,
    }
}

/// Why a certificate's key could not be read.
#[derive(Debug, Clone, Copy, PartialEq, Eq, Structural)]
pub enum CertKeyError {
    /// The DER does not parse as an X.509 certificate.
    Unparsable,
    /// The subject key is not 32 bytes long (its length).
    KeyLength(usize),
}

/// The Ed25519 public key of a DER certificate: its subject key, which must
/// be 32 bytes.
pub fn extract_ed25519_pubkey_from_cert_der(cert_der: &[u8]) -> (r: Result<Vec<u8>, CertKeyError>)
    ensures
        match x509_subject_public_key(cert_der@) {
            None => r == Err::<Vec<u8>, CertKeyError>(CertKeyError::Unparsable),
            Some(k) => if k.len() == 32 {
                (r matches Ok(v) && v@ == k)
            } else {
                r == Err::<Vec<u8>, CertKeyError>(CertKeyError::KeyLength(k.len() as usize))
            },
        },
{
    let key = match cert_subject_public_key(cert_der) {
        Some(k) => k,
        None => return Err(CertKeyError::Unparsable),
    };
    if key.len() != 32 {
        return Err(CertKeyError::KeyLength(key.len()));
    }
    Ok(key)
}

/// The raw DER bytes of the subject name of the certificate that
/// `x509-parser` reads from DER `der` (`None`: the DER does not parse).
pub uninterp spec fn x509_subject_dn(der: Seq<u8>) -> Option<Seq<u8>>;

/// `x509_parser::parse_x509_certificate`, then the subject name's raw
/// bytes (`X509Name::as_raw`).
#[verifier::external_body]
fn cert_subject_dn(cert_der: &[u8]) -> (r: Option<Vec<u8>>)
    ensures
        match r {
            Some(d) => x509_subject_dn(cert_der@) == Some(d@),
            None => x509_subject_dn(cert_der@) is None,
        },
{
    match x509_parser::parse_x509_certificate(cert_der) {
        Ok((_rest, cert)) => Some(cert.tbs_certificate.subject.as_raw().to_vec()),
        Err(_) => None,
    }
}

/// The subject distinguished name of a DER certificate, as raw DER: the
/// name the local certificate trusts client certificates under.
pub fn extract_subject_dn_from_cert_der(cert_der: &[u8]) -> (r: Result<Vec<u8>, CertKeyError>)
    ensures
        match x509_subject_dn(cert_der@) {
            None => r == Err::<Vec<u8>, CertKeyError>(CertKeyError::Unparsable),
            Some(d) => r matches Ok(v) && v@ == d,
        },
{
    match cert_subject_dn(cert_der) {
        Some(d) => Ok(d),
        None => Err(CertKeyError::Unparsable),
    }
}

/// The Agent ID a public key derives (`ed25519.` and the hex of the first
/// 16 SHA-256 digest bytes).
pub fn derive_agent_id_from_pubkey_bytes(pubkey: &Vec<u8>) -> (r: String)
    ensures
        r@ == derived_agent_id(pubkey@),
{
    let a = derive_agent_id(pubkey);
    a.as_str().to_owned()
}

pub open spec fn is_hex_char(c: char) -> bool {
    ('0' <= c && c <= '9') || ('a' <= c && c <= 'f') || ('A' <= c && c <= 'F')
}

/// The canonical form of an Agent ID text: a prefix, a dot, then exactly 32
/// hex digits (the first dot splits); both parts lower-cased.
pub open spec fn canonical_form(input: Seq<char>) -> Option<Seq<char>> {
    match split_first(input, '.') {
        None => None,
        Some((prefix, hex)) => if hex.len() == 32 && forall|i: int| 0 <= i < hex.len() ==> is_hex_char(#[trigger] hex[i]) {
            Some(ascii_lower(prefix) + seq!['.'] + ascii_lower(hex))
        } else {
            None
        },
    }
}

fn all_hex(hex: &Vec<char>) -> (r: bool)
    ensures
        r == forall|i: int| 0 <= i < hex@.len() ==> is_hex_char(#[trigger] hex@[i]),
{
    let mut i: usize = 0;
    while i < hex.len()
        invariant
            i <= hex@.len(),
            forall|j: int| 0 <= j < i ==> is_hex_char(#[trigger] hex@[j]),
        decreases hex@.len() - i,
    {
        let c = hex[i];
        if !(('0' <= c && c <= '9') || ('a' <= c && c <= 'f') || ('A' <= c && c <= 'F')) {
            assert(!is_hex_char(hex@[i as int]));
            return false;
        }
        i = i + 1;
    }
    true
}

fn join_lower(prefix: &Vec<char>, hex: &Vec<char>) -> (r: Vec<char>)
    ensures
        r@ == ascii_lower(prefix@) + seq!['.'] + ascii_lower(hex@),
{
    let mut out = ascii_lowercase(prefix);
    let ghost p = out@;
    out.push('.');
    let lower_hex = ascii_lowercase(hex);
    let mut j: usize = 0;
    while j < lower_hex.len()
        invariant
            j <= lower_hex@.len(),
            out@ == p + seq!['.'] + lower_hex@.subrange(0, j as int),
        decreases lower_hex@.len() - j,
    {
        out.push(lower_hex[j]);
        proof {
            assert(lower_hex@.subrange(0, j + 1) =~= lower_hex@.subrange(0, j as int).push(lower_hex@[j as int]));
        }
        j = j + 1;
    }
    proof {
        assert(lower_hex@.subrange(0, lower_hex@.len() as int) =~= lower_hex@);
    }
    out
}

/// Canonicalize an Agent ID text (see `canonical_form`).
pub fn canonicalize_agent_id(input: &str) -> (r: Option<String>)
    ensures
        match r {
            Some(s) => canonical_form(input@) == Some(s@),
            None => canonical_form(input@) is None,
        },
{
    let chars = chars_of(input);
    let dot = match find_first(&chars, '.') {
        Some(i) => i,
        None => return None,
    };
    let prefix = slice_chars(&chars, 0, dot);
    let hex = slice_chars(&chars, dot + 1, chars.len());
    assert(split_first(input@, '.') == Some((prefix@, hex@)));
    if hex.len() != 32 || !all_hex(&hex) {
        return None;
    }
    Some(string_from_chars(&join_lower(&prefix, &hex)))
}

/// The pinned key for `canonical_agent_id`: the entry under that exact
/// text, else one whose text canonicalizes to it.
pub fn lookup_expected_pubkey(expected: &KeyedMap<String>, canonical_agent_id: &Vec<char>) -> (r: Option<String>)
    requires
        expected.wf(),
    ensures
        expected.has(canonical_agent_id@) ==> (r matches Some(k) && k@ == expected.get(canonical_agent_id@)@),
        !expected.has(canonical_agent_id@) ==> match r {
            Some(k) => exists|i: int| 0 <= i < expected.entries@.len() && canonical_form(#[trigger] expected.key_at(i))
                == Some(canonical_agent_id@) && k@ == expected.val_at(i)@,
            None => forall|i: int| 0 <= i < expected.entries@.len() ==> canonical_form(#[trigger] expected.key_at(i))
                != Some(canonical_agent_id@),
        },
{
    match expected.get_value(canonical_agent_id) {
        Some(k) => return Some(k.clone()),
        None => {},
    }
    let mut i: usize = 0;
    while i < expected.len()
        invariant
            expected.wf(),
            !expected.has(canonical_agent_id@),
            i <= expected.entries@.len(),
            forall|j: int| 0 <= j < i ==> canonical_form(#[trigger] expected.key_at(j)) != Some(canonical_agent_id@),
        decreases expected.entries@.len() - i,
    {
        let key_text = string_from_chars(&expected.entries[i].0);
        match canonicalize_agent_id(key_text.as_str()) {
            Some(c) => {
                if chars_equal(&chars_of(c.as_str()), canonical_agent_id) {
                    assert(canonical_form(expected.key_at(i as int)) == Some(canonical_agent_id@));
                    return Some(expected.entries[i].1.clone());
                }
            },
            None => {},
        }
        i = i + 1;
    }
    None
}

/// Whether an unknown peer's pairing request is raised at `now`, given
/// when each peer last raised one: not within the window of its last one.
pub open spec fn pair_request_due(seen: Map<Seq<char>, u64>, agent_id: Seq<char>, now: u64) -> bool {
    !(seen.contains_key(agent_id) && (now <= seen[agent_id] || now - seen[agent_id] < PAIR_REQUEST_LOG_WINDOW))
}

/// A request to pair with an unknown peer that presented its key.
#[derive(Debug, Clone, PartialEq, Eq)]
pub struct PairRequest {
    pub agent_id: String,
    pub pubkey: String,
    pub addr: Option<String>,
}

/// When an unknown peer last raised a pairing request.
pub struct PairRequestLog {
    pub seen: KeyedMap<u64>,
}

impl PairRequestLog {
    pub fn new() -> (l: PairRequestLog)
        ensures
            l.seen.wf(),
            l.seen.as_map() == Map::<Seq<char>, u64>::empty(),
    {
        let l = PairRequestLog { seen: KeyedMap::new() };
        assert(l.seen.as_map() =~= Map::<Seq<char>, u64>::empty());
        l
    }

    /// Whether `agent_id`'s pairing request is raised at `now`: not within
    /// the window of its last one; a raised request restarts the window.
    pub fn should_emit(&mut self, agent_id: &str, now: u64) -> (r: bool)
        requires
            old(self).seen.wf(),
        ensures
            final(self).seen.wf(),
            r == pair_request_due(old(self).seen.as_map(), agent_id@, now),
            r ==> final(self).seen.as_map() == old(self).seen.as_map().insert(agent_id@, now),
            !r ==> final(self).seen.as_map() == old(self).seen.as_map(),
    {
        let key = chars_of(agent_id);
        match self.seen.get_value(&key) {
            Some(last) => {
                if now <= *last || now - *last < PAIR_REQUEST_LOG_WINDOW {
                    return false;
                }
            },
            None => {},
        }
        self.seen.insert(key, now);
        true
    }
}

/// How a peer certificate was judged.
#[derive(Debug, Clone, PartialEq, Eq)]
pub enum CertVerdict {
    /// The key derives the expected Agent ID and matches the pinned key.
    Accepted,
    /// The expected Agent ID (from the server name) is not canonical.
    InvalidServerName,
    /// The certificate key could not be read.
    Unreadable(CertKeyError),
    /// The key does not derive the expected Agent ID.
    IdentityMismatch,
    /// The key differs from the pinned key.
    KeyMismatch,
    /// No key is pinned for the peer: its Agent ID and base64 key, for a
    /// pairing request.
    UnknownPeer { agent_id: String, pubkey: String },
}

/// Judge a server certificate against the expected Agent ID from the
/// server name `server_name` and the pinned keys.
pub fn verify_server_cert(server_name: &str, cert_der: &[u8], expected: &KeyedMap<String>) -> (r: CertVerdict)
    requires
        expected.wf(),
    ensures
        canonical_form(server_name@) is None ==> r == CertVerdict::InvalidServerName,
        canonical_form(server_name@) matches Some(id) ==> match x509_subject_public_key(cert_der@) {
            None => r == CertVerdict::Unreadable(CertKeyError::Unparsable),
            Some(k) => if k.len() != 32 {
                r == CertVerdict::Unreadable(CertKeyError::KeyLength(k.len() as usize))
            } else if derived_agent_id(k) != id {
                r == CertVerdict::IdentityMismatch
            } else {
                pinned_verdict(r, expected, id, std_base64_encoded(k))
            },
        },
{
    let id = match canonicalize_agent_id(server_name) {
        Some(id) => id,
        None => return CertVerdict::InvalidServerName,
    };
    let key = match extract_ed25519_pubkey_from_cert_der(cert_der) {
        Ok(k) => k,
        Err(e) => return CertVerdict::Unreadable(e),
    };
    let derived = derive_agent_id_from_pubkey_bytes(&key);
    let id_chars = chars_of(id.as_str());
    if !chars_equal(&chars_of(derived.as_str()), &id_chars) {
        return CertVerdict::IdentityMismatch;
    }
    let b64 = std_base64_encode(key.as_slice());
    judge_pinned(expected, &id_chars, b64)
}

/// Judge a client certificate: its key derives the client's Agent ID,
/// which must have a matching pinned key.
pub fn verify_client_cert(cert_der: &[u8], expected: &KeyedMap<String>) -> (r: CertVerdict)
    requires
        expected.wf(),
    ensures
        match x509_subject_public_key(cert_der@) {
            None => r == CertVerdict::Unreadable(CertKeyError::Unparsable),
            Some(k) => if k.len() != 32 {
                r == CertVerdict::Unreadable(CertKeyError::KeyLength(k.len() as usize))
            } else {
                pinned_verdict(r, expected, derived_agent_id(k), std_base64_encoded(k))
            },
        },
{
    let key = match extract_ed25519_pubkey_from_cert_der(cert_der) {
        Ok(k) => k,
        Err(e) => return CertVerdict::Unreadable(e),
    };
    let derived = derive_agent_id_from_pubkey_bytes(&key);
    let b64 = std_base64_encode(key.as_slice());
    judge_pinned(expected, &chars_of(derived.as_str()), b64)
}

/// The verdict on a key (base64 `b64`) that derives `id`, against the
/// pinned keys: unknown without a pinned key for `id` (see
/// `lookup_expected_pubkey`), a mismatch unless it equals the pinned key.
pub open spec fn pinned_verdict(r: CertVerdict, expected: &KeyedMap<String>, id: Seq<char>, b64: Seq<char>) -> bool {
    if expected.has(id) {
        if expected.get(id)@ == b64 {
            r == CertVerdict::Accepted
        } else {
            r == CertVerdict::KeyMismatch
        }
    } else if exists|i: int| 0 <= i < expected.entries@.len() && canonical_form(#[trigger] expected.key_at(i)) == Some(id) {
        exists|i: int| 0 <= i < expected.entries@.len() && canonical_form(#[trigger] expected.key_at(i)) == Some(id) && (if expected.val_at(i)@ == b64 {
            r == CertVerdict::Accepted
        } else {
            r == CertVerdict::KeyMismatch
        })
    } else {
        (r matches CertVerdict::UnknownPeer { agent_id, pubkey } && agent_id@ == id && pubkey@ == b64)
    }
}

fn judge_pinned(expected: &KeyedMap<String>, id: &Vec<char>, b64: String) -> (r: CertVerdict)
    requires
        expected.wf(),
    ensures
        pinned_verdict(r, expected, id@, b64@),
{
    match lookup_expected_pubkey(expected, id) {
        Some(pinned) => {
            if chars_equal(&chars_of(pinned.as_str()), &chars_of(b64.as_str())) {
                CertVerdict::Accepted
            } else {
                CertVerdict::KeyMismatch
            }
        },
        None => CertVerdict::UnknownPeer { agent_id: string_from_chars(id), pubkey: b64 },
    }
}

/// The pairing request that an unknown peer `agent_id` with key `pubkey`
/// (seen from `addr`, when known) raises at `now`, unless it raised one
/// within the window (see `PairRequestLog::should_emit`).
pub fn maybe_emit_pair_request(log: &mut PairRequestLog, agent_id: &str, pubkey: &str, addr: Option<String>, now: u64) -> (r:
    Option<PairRequest>)
    requires
        old(log).seen.wf(),
    ensures
        final(log).seen.wf(),
        r is Some == pair_request_due(old(log).seen.as_map(), agent_id@, now),
        r matches Some(p) ==> p.agent_id@ == agent_id@ && p.pubkey@ == pubkey@ && p.addr == addr,
        r is Some ==> final(log).seen.as_map() == old(log).seen.as_map().insert(agent_id@, now),
        r is None ==> final(log).seen.as_map() == old(log).seen.as_map(),
{
    if log.should_emit(agent_id, now) {
        Some(PairRequest { agent_id: agent_id.to_owned(), pubkey: pubkey.to_owned(), addr })
    } else {
        None
    }
}

} // verus!
