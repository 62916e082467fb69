//! Agent IDs and the Agent-ID/public-key binding of a peer.
//!
//! An Agent ID is `ed25519.` followed by the lower-case hexadecimal of the
//! first 16 bytes of the SHA-256 digest of the peer's 32-byte Ed25519 public
//! key.
use vstd::prelude::*;

use crate::codec::{
    hex_digit, hex_of, lemma_hex_of_digits, push_hex, sha256, sha256_of, std_base64_decode, std_base64_decoded,
    std_base64_encode, std_base64_encoded, is_std_base64_char,
};
use crate::text::{chars_of, is_ws, lemma_trim_noop, string_from_chars, trim, trim_chars};

verus! {

pub open spec fn agent_prefix() -> Seq<char> {
    seq!['e', 'd', '2', '5', '5', '1', '9', '.']
}

/// The Agent ID that a public key's bytes derive.
pub open spec fn derived_agent_id(key: Seq<u8>) -> Seq<char> {
    agent_prefix() + hex_of(sha256_of(key).subrange(0, 16))
}

pub open spec fn is_lower_hex(c: char) -> bool {
    ('0' <= c && c <= '9') || ('a' <= c && c <= 'f')
}

/// The canonical Agent ID shape: `ed25519.` and 32 lower-case hex digits.
pub open spec fn well_formed_agent_id(s: Seq<char>) -> bool {
    &&& s.len() == 40
    &&& s.subrange(0, 8) == agent_prefix()
    &&& forall|i: int| 8 <= i < 40 ==> is_lower_hex(#[trigger] s[i])
}

/// An agent's identifier.
#[derive(Debug, Clone, PartialEq, Eq, Hash, PartialOrd, Ord)]
pub struct AgentId {
    id: String,
}

impl View for AgentId {
    type V = Seq<char>;

    closed spec fn view(&self) -> Seq<char> {
        self.id@
    }
}

/// Why an Agent ID or a public key was refused.
#[derive(Debug, Clone, Copy, PartialEq, Eq, Structural)]
pub enum IdentityError {
    /// The text is not an Agent ID of the canonical shape.
    MalformedAgentId,
    /// The public key is not valid base64.
    InvalidBase64,
    /// The public key does not decode to 32 bytes.
    InvalidKeyLength,
    /// The claimed Agent ID is not the one the public key derives.
    AgentIdMismatch,
}

/// How each identity error reads.
pub open spec fn identity_error_text(e: IdentityError) -> Seq<char> {
    match e {
        IdentityError::MalformedAgentId => "agent id must be ed25519. followed by 32 lower-case hex digits"@,
        IdentityError::InvalidBase64 => "peer public key is not valid base64"@,
        IdentityError::InvalidKeyLength => "public key must decode to 32 bytes"@,
        IdentityError::AgentIdMismatch => "agent_id does not match public key-derived identity"@,
    }
}

impl IdentityError {
    pub fn message(&self) -> (s: &'static str)
        ensures
            s@ == identity_error_text(*self),
    {
        match self {
            IdentityError::MalformedAgentId => "agent id must be ed25519. followed by 32 lower-case hex digits",
            IdentityError::InvalidBase64 => "peer public key is not valid base64",
            IdentityError::InvalidKeyLength => "public key must decode to 32 bytes",
            IdentityError::AgentIdMismatch => "agent_id does not match public key-derived identity",
        }
    }
}

impl AgentId {
    /// An Agent ID holding exactly the given text (no validation).
    pub fn new(text: &str) -> (a: AgentId)
        ensures
            a@ == text@,
    {
        AgentId { id: text.to_owned() }
    }

    /// An Agent ID holding exactly the given string (no validation).
    pub fn from_string(id: String) -> (a: AgentId)
        ensures
            a@ == id@,
    {
        AgentId { id }
    }

    pub fn as_str(&self) -> (s: &str)
        ensures
            s@ == self@,
    {
        self.id.as_str()
    }

    pub fn to_chars(&self) -> (v: Vec<char>)
        ensures
            v@ == self@,
    {
        chars_of(self.id.as_str())
    }

    pub fn duplicate(&self) -> (a: AgentId)
        ensures
            a@ == self@,
    {
        AgentId { id: self.id.clone() }
    }

    pub fn same_as(&self, other: &AgentId) -> (r: bool)
        ensures
            r == (self@ == other@),
    {
        self.id == other.id
    }

    /// Accept only the canonical shape: `ed25519.` and 32 lower-case hex digits.
    pub fn parse(text: &str) -> (r: Result<AgentId, IdentityError>)
        ensures
            r matches Ok(a) ==> a@ == text@,
            r is Ok <==> well_formed_agent_id(text@),
            r matches Err(e) ==> e == IdentityError::MalformedAgentId,
    {
        let chars = chars_of(text);
        if chars.len() != 40 {
            return Err(IdentityError::MalformedAgentId);
        }
        let prefix = agent_prefix_chars();
        let mut i: usize = 0;
        while i < 8
            invariant
                chars@ == text@,
                chars@.len() == 40,
                prefix@ == agent_prefix(),
                i <= 8,
                forall|k: int| 0 <= k < i ==> chars@[k] == prefix@[k],
            decreases 8 - i,
        {
            if chars[i] != prefix[i] {
                proof {
                    assert(chars@.subrange(0, 8)[i as int] == chars@[i as int]);
                }
                return Err(IdentityError::MalformedAgentId);
            }
            i = i + 1;
        }
        assert(chars@.subrange(0, 8) =~= agent_prefix());
        while i < 40
            invariant
                chars@ == text@,
                chars@.len() == 40,
                8 <= i <= 40,
                forall|k: int| 8 <= k < i ==> is_lower_hex(#[trigger] chars@[k]),
            decreases 40 - i,
        {
            let c = chars[i];
            if !(('0' <= c && c <= '9') || ('a' <= c && c <= 'f')) {
                return Err(IdentityError::MalformedAgentId);
            }
            i = i + 1;
        }
        Ok(AgentId { id: text.to_owned() })
    }

    /// The Agent ID a 32-byte public key derives.
    pub fn from_pubkey_bytes(key: &Vec<u8>) -> (r: Result<AgentId, IdentityError>)
        ensures
            r is Ok <==> key@.len() == 32,
            r matches Ok(a) ==> a@ == derived_agent_id(key@),
            r matches Err(e) ==> e == IdentityError::InvalidKeyLength,
    {
        if key.len() != 32 {
            return Err(IdentityError::InvalidKeyLength);
        }
        Ok(derive_agent_id(key))
    }

    /// The Agent ID of a base64 (`STANDARD`) public key, surrounding
    /// whitespace ignored.
    pub fn from_pubkey_base64(public_key: &str) -> (r: Result<AgentId, IdentityError>)
        ensures
            r matches Ok(a) ==> pubkey_agent_id(public_key@) == Ok::<Seq<char>, IdentityError>(a@),
            r matches Err(e) ==> pubkey_agent_id(public_key@) == Err::<Seq<char>, IdentityError>(e),
    {
        let trimmed = string_from_chars(&trim_chars(&chars_of(public_key)));
        match std_base64_decode(trimmed.as_str()) {
            None => Err(IdentityError::InvalidBase64),
            Some(bytes) => AgentId::from_pubkey_bytes(&bytes),
        }
    }
}

/// What `AgentId::from_pubkey_base64` gives for a public key text.
pub open spec fn pubkey_agent_id(public_key: Seq<char>) -> Result<Seq<char>, IdentityError> {
    match std_base64_decoded(trim(public_key)) {
        None => Err(IdentityError::InvalidBase64),
        Some(bytes) => if bytes.len() == 32 {
            Ok(derived_agent_id(bytes))
        } else {
            Err(IdentityError::InvalidKeyLength)
        },
    }
}

fn agent_prefix_chars() -> (v: Vec<char>)
    ensures
        v@ == agent_prefix(),
{
    let v = vec!['e', 'd', '2', '5', '5', '1', '9', '.'];
    assert(v@ =~= agent_prefix());
    v
}

/// `ed25519.` plus the hex of the first 16 digest bytes.
pub fn derive_agent_id(key: &Vec<u8>) -> (a: AgentId)
    ensures
        a@ == derived_agent_id(key@),
{
    let digest = sha256(key.as_slice());
    let mut out = agent_prefix_chars();
    push_hex(&mut out, &digest, 16);
    AgentId { id: string_from_chars(&out) }
}

/// The binding of an Agent ID to the public key it derives from. Copies
/// are made with `duplicate`, which keeps the binding canonical.
#[derive(Debug, PartialEq, Eq)]
pub struct PeerIdentity {
    agent_id: AgentId,
    public_key: String,
}

pub struct PeerIdentityView {
    pub agent_id: Seq<char>,
    pub public_key: Seq<char>,
}

impl View for PeerIdentity {
    type V = PeerIdentityView;

    closed spec fn view(&self) -> PeerIdentityView {
        PeerIdentityView { agent_id: self.agent_id@, public_key: self.public_key@ }
    }
}

/// What `PeerIdentity::from_parts` decides for a claimed Agent ID and a
/// public key text: the key must be base64 of 32 bytes whose derived
/// Agent ID is the claimed one; the stored key is the canonical re-encoding.
pub open spec fn identity_from_parts(agent_id: Seq<char>, public_key: Seq<char>) -> Result<
    PeerIdentityView,
    IdentityError,
> {
    match std_base64_decoded(trim(public_key)) {
        None => Err(IdentityError::InvalidBase64),
        Some(bytes) => if bytes.len() != 32 {
            Err(IdentityError::InvalidKeyLength)
        } else if agent_id != derived_agent_id(bytes) {
            Err(IdentityError::AgentIdMismatch)
        } else {
            Ok(PeerIdentityView { agent_id, public_key: std_base64_encoded(bytes) })
        },
    }
}

/// A binding that `from_parts` reproduces from its own Agent ID and key:
/// the key is the canonical encoding of 32 bytes that derive the Agent ID.
pub open spec fn canonical_identity(id: PeerIdentityView) -> bool {
    identity_from_parts(id.agent_id, id.public_key) == Ok::<PeerIdentityView, IdentityError>(id)
}

impl PeerIdentity {
    /// Every identity is canonical.
    #[verifier::type_invariant]
    pub(crate) open spec fn canonical(self) -> bool {
        canonical_identity(self@)
    }

    /// A copy of the identity's binding, known canonical.
    pub fn binding(&self) -> (r: (String, String))
        ensures
            r.0@ == self@.agent_id,
            r.1@ == self@.public_key,
            canonical_identity(self@),
    {
        proof {
            use_type_invariant(self);
        }
        (self.agent_id.as_str().to_owned(), self.public_key.clone())
    }

    pub fn from_parts(agent_id: AgentId, public_key: &str) -> (r: Result<PeerIdentity, IdentityError>)
        ensures
            r matches Ok(id) ==> identity_from_parts(agent_id@, public_key@) == Ok::<PeerIdentityView, IdentityError>(id@),
            r matches Err(e) ==> identity_from_parts(agent_id@, public_key@) == Err::<PeerIdentityView, IdentityError>(e),
    {
        let trimmed = string_from_chars(&trim_chars(&chars_of(public_key)));
        let bytes = match std_base64_decode(trimmed.as_str()) {
            None => return Err(IdentityError::InvalidBase64),
            Some(b) => b,
        };
        let derived = match AgentId::from_pubkey_bytes(&bytes) {
            Ok(d) => d,
            Err(e) => return Err(e),
        };
        if !agent_id.same_as(&derived) {
            return Err(IdentityError::AgentIdMismatch);
        }
        let encoded = std_base64_encode(bytes.as_slice());
        proof {
            assert forall|i: int| 0 <= i < encoded@.len() implies !is_ws(#[trigger] encoded@[i]) by {
                assert(is_std_base64_char(encoded@[i]));
            }
            lemma_trim_noop(encoded@);
        }
        Ok(PeerIdentity { agent_id: derived, public_key: encoded })
    }

    pub fn from_public_key(public_key: &str) -> (r: Result<PeerIdentity, IdentityError>)
        ensures
            r matches Ok(id) ==> identity_from_public_key(public_key@) == Ok::<PeerIdentityView, IdentityError>(id@),
            r matches Err(e) ==> identity_from_public_key(public_key@) == Err::<PeerIdentityView, IdentityError>(e),
    {
        let agent_id = AgentId::from_pubkey_base64(public_key)?;
        PeerIdentity::from_parts(agent_id, public_key)
    }

    pub fn agent_id(&self) -> (a: &AgentId)
        ensures
            a@ == self@.agent_id,
    {
        &self.agent_id
    }

    pub fn public_key(&self) -> (k: &str)
        ensures
            k@ == self@.public_key,
    {
        self.public_key.as_str()
    }

    pub fn duplicate(&self) -> (r: PeerIdentity)
        ensures
            r@ == self@,
    {
        proof {
            use_type_invariant(self);
        }
        PeerIdentity { agent_id: self.agent_id.duplicate(), public_key: self.public_key.clone() }
    }
}

/// What `PeerIdentity::from_public_key` decides: the key's own derived
/// Agent ID, bound to its canonical re-encoding.
pub open spec fn identity_from_public_key(public_key: Seq<char>) -> Result<PeerIdentityView, IdentityError> {
    match std_base64_decoded(trim(public_key)) {
        None => Err(IdentityError::InvalidBase64),
        Some(bytes) => if bytes.len() != 32 {
            Err(IdentityError::InvalidKeyLength)
        } else {
            Ok(PeerIdentityView { agent_id: derived_agent_id(bytes), public_key: std_base64_encoded(bytes) })
        },
    }
}

/// The value of a lower-case hex digit.
pub open spec fn lower_hex_value(c: char) -> int {
    if '0' <= c && c <= '9' {
        (c as int) - ('0' as int)
    } else {
        (c as int) - ('a' as int) + 10
    }
}

proof fn lemma_hex_digit_reads_back(n: u8)
    requires
        n < 16,
    ensures
        is_lower_hex(hex_digit(n)),
        lower_hex_value(hex_digit(n)) == n,
{
}

/// An Agent ID spells out its key's digest: `ed25519.` followed by 32
/// lower-case hex digits, where digits `2i` and `2i + 1` after the prefix
/// are the high and low nibble of byte `i` of the SHA-256 digest of the
/// key, for the first 16 bytes (`i` from 0 to 15).
pub proof fn lemma_agent_id_spells_digest_prefix(key: Seq<u8>)
    requires
        sha256_of(key).len() >= 16,
    ensures
        derived_agent_id(key).len() == 40,
        derived_agent_id(key).subrange(0, 8) == seq!['e', 'd', '2', '5', '5', '1', '9', '.'],
        forall|i: int| 0 <= i < 16 ==> {
            &&& is_lower_hex(#[trigger] derived_agent_id(key)[8 + 2 * i])
            &&& is_lower_hex(derived_agent_id(key)[9 + 2 * i])
            &&& lower_hex_value(derived_agent_id(key)[8 + 2 * i]) == sha256_of(key)[i] / 16
            &&& lower_hex_value(derived_agent_id(key)[9 + 2 * i]) == sha256_of(key)[i] % 16
        },
{
    let d = sha256_of(key).subrange(0, 16);
    let s = derived_agent_id(key);
    lemma_hex_of_digits(d, 0);
    assert(s.subrange(0, 8) =~= seq!['e', 'd', '2', '5', '5', '1', '9', '.']);
    assert forall|i: int| 0 <= i < 16 implies {
        &&& is_lower_hex(#[trigger] s[8 + 2 * i])
        &&& is_lower_hex(s[9 + 2 * i])
        &&& lower_hex_value(s[8 + 2 * i]) == sha256_of(key)[i] / 16
        &&& lower_hex_value(s[9 + 2 * i]) == sha256_of(key)[i] % 16
    } by {
        lemma_hex_of_digits(d, i);
        assert(d[i] == sha256_of(key)[i]);
        assert(s[8 + 2 * i] == hex_of(d)[2 * i]);
        assert(s[9 + 2 * i] == hex_of(d)[2 * i + 1]);
        lemma_hex_digit_reads_back(d[i] / 16);
        lemma_hex_digit_reads_back(d[i] % 16);
    }
}

} // verus!
