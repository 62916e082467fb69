//! Shareable peer tokens: `axon://<base64url public key>@<host:port>`.
use vstd::prelude::*;

use crate::codec::{
    std_base64_decode, std_base64_decoded, std_base64_encode, std_base64_encoded,
    url_base64_decode, url_base64_decoded, url_base64_encode, url_base64_encoded, is_url_base64_char,
};
use crate::identity::{derive_agent_id, derived_agent_id, AgentId};
use crate::net::{parse_socket_addr, parsed_socket_addr};
use crate::text::{
    chars_of, find_first, find_last, parse_u16, parsed_u16, slice_chars, split_first,
    split_last, starts_with_chars, string_from_chars, trim, trim_chars, first_index_of, lemma_trim_idempotent,
    decimal_chars, decimal_text,
};

verus! {

pub open spec fn scheme_prefix() -> Seq<char> {
    seq!['a', 'x', 'o', 'n', ':', '/', '/']
}

/// Why a token or an address was refused.
#[derive(Debug, Clone, PartialEq, Eq)]
pub enum TokenError {
    /// The public key is not valid base64.
    InvalidBase64,
    /// The token's public key is not valid base64url.
    InvalidBase64Url,
    /// The public key decodes to this many bytes, not 32.
    InvalidKeyLength(usize),
    /// The public key given for an Agent ID is not valid base64.
    PubkeyNotBase64,
    /// The token does not start with `axon://`.
    BadScheme,
    /// The token has no `@` between public key and address.
    MissingSeparator,
    /// The token's public-key segment is empty.
    EmptyPubkey,
    /// The address is empty.
    EmptyAddr,
    /// The address is neither `ip:port` nor `host:port`.
    AddrNotHostPort,
    /// The address host is empty.
    EmptyHost,
    /// The address port (this text) is not a valid port number.
    InvalidPort(String),
}

/// A `TokenError` as a plain value.
pub enum TokenFailure {
    InvalidBase64,
    InvalidBase64Url,
    InvalidKeyLength(usize),
    PubkeyNotBase64,
    BadScheme,
    MissingSeparator,
    EmptyPubkey,
    EmptyAddr,
    AddrNotHostPort,
    EmptyHost,
    InvalidPort(Seq<char>),
}

impl View for TokenError {
    type V = TokenFailure;

    open spec fn view(&self) -> TokenFailure {
        match self {
            TokenError::InvalidBase64 => TokenFailure::InvalidBase64,
            TokenError::InvalidBase64Url => TokenFailure::InvalidBase64Url,
            TokenError::InvalidKeyLength(n) => TokenFailure::InvalidKeyLength(*n),
            TokenError::PubkeyNotBase64 => TokenFailure::PubkeyNotBase64,
            TokenError::BadScheme => TokenFailure::BadScheme,
            TokenError::MissingSeparator => TokenFailure::MissingSeparator,
            TokenError::EmptyPubkey => TokenFailure::EmptyPubkey,
            TokenError::EmptyAddr => TokenFailure::EmptyAddr,
            TokenError::AddrNotHostPort => TokenFailure::AddrNotHostPort,
            TokenError::EmptyHost => TokenFailure::EmptyHost,
            TokenError::InvalidPort(p) => TokenFailure::InvalidPort(p@),
        }
    }
}

/// How each token error reads.
pub open spec fn token_error_text(e: TokenFailure) -> Seq<char> {
    match e {
        TokenFailure::InvalidBase64 => "public_key is not valid base64"@,
        TokenFailure::InvalidBase64Url => "peer token pubkey is not valid base64url"@,
        TokenFailure::InvalidKeyLength(n) => "peer token pubkey must decode to 32 bytes, got "@ + decimal_text(n as nat),
        TokenFailure::PubkeyNotBase64 => "pubkey is not valid base64"@,
        TokenFailure::BadScheme => "peer token must start with 'axon://'"@,
        TokenFailure::MissingSeparator => "peer token must contain '@' between pubkey and addr"@,
        TokenFailure::EmptyPubkey => "peer token pubkey segment is empty"@,
        TokenFailure::EmptyAddr => "peer token addr cannot be empty"@,
        TokenFailure::AddrNotHostPort => "peer token addr must be host:port or ip:port"@,
        TokenFailure::EmptyHost => "peer token addr host cannot be empty"@,
        TokenFailure::InvalidPort(port) => "peer token addr has invalid port '"@ + port + "'"@,
    }
}

impl TokenError {
    pub fn message(&self) -> (s: String)
        ensures
            s@ == token_error_text(self@),
    {
        match self {
            TokenError::InvalidBase64 => "public_key is not valid base64".to_string(),
            TokenError::InvalidBase64Url => "peer token pubkey is not valid base64url".to_string(),
            TokenError::InvalidKeyLength(n) => {
                let mut v = chars_of("peer token pubkey must decode to 32 bytes, got ");
                let mut d = decimal_chars(*n as u64);
                v.append(&mut d);
                string_from_chars(&v)
            },
            TokenError::PubkeyNotBase64 => "pubkey is not valid base64".to_string(),
            TokenError::BadScheme => "peer token must start with 'axon://'".to_string(),
            TokenError::MissingSeparator => "peer token must contain '@' between pubkey and addr".to_string(),
            TokenError::EmptyPubkey => "peer token pubkey segment is empty".to_string(),
            TokenError::EmptyAddr => "peer token addr cannot be empty".to_string(),
            TokenError::AddrNotHostPort => "peer token addr must be host:port or ip:port".to_string(),
            TokenError::EmptyHost => "peer token addr host cannot be empty".to_string(),
            TokenError::InvalidPort(port) => {
                let mut v = chars_of("peer token addr has invalid port '");
                let mut p = chars_of(port.as_str());
                v.append(&mut p);
                v.push('\'');
                proof {
                    reveal_strlit("'");
                    assert(v@ =~= "peer token addr has invalid port '"@ + port@ + "'"@);
                }
                string_from_chars(&v)
            },
        }
    }
}

/// A decoded token: the canonical base64 public key, the address and the
/// Agent ID the key derives.
pub struct DecodedPeerToken {
    pub pubkey: String,
    pub addr: String,
    pub agent_id: AgentId,
}

/// The address check: `ip:port`, or a non-empty host, a `:` and a port.
pub open spec fn addr_check(addr: Seq<char>) -> Result<(), TokenFailure> {
    let a = trim(addr);
    if a.len() == 0 {
        Err(TokenFailure::EmptyAddr)
    } else if parsed_socket_addr(a) is Some {
        Ok(())
    } else {
        match split_last(a, ':') {
            None => Err(TokenFailure::AddrNotHostPort),
            Some((host, port)) => if host.len() == 0 {
                Err(TokenFailure::EmptyHost)
            } else if parsed_u16(port) is None {
                Err(TokenFailure::InvalidPort(port))
            } else {
                Ok(())
            },
        }
    }
}

/// What `encode` produces for a standard-base64 key and an address.
pub open spec fn encoded_token(pubkey_base64: Seq<char>, addr: Seq<char>) -> Result<Seq<char>, TokenFailure> {
    match std_base64_decoded(trim(pubkey_base64)) {
        None => Err(TokenFailure::InvalidBase64),
        Some(key) => if key.len() != 32 {
            Err(TokenFailure::InvalidKeyLength(key.len() as usize))
        } else {
            match addr_check(addr) {
                Err(e) => Err(e),
                Ok(_) => Ok(scheme_prefix() + url_base64_encoded(key) + seq!['@'] + trim(addr)),
            }
        },
    }
}

/// The plain values of a decoded token.
pub struct TokenView {
    pub pubkey: Seq<char>,
    pub addr: Seq<char>,
    pub agent_id: Seq<char>,
}

/// What `decode` produces for a token text.
pub open spec fn decoded_token(token: Seq<char>) -> Result<TokenView, TokenFailure> {
    let p = scheme_prefix();
    if !(p.len() <= token.len() && token.subrange(0, p.len() as int) == p) {
        Err(TokenFailure::BadScheme)
    } else {
        let rest = token.subrange(p.len() as int, token.len() as int);
        match split_first(rest, '@') {
            None => Err(TokenFailure::MissingSeparator),
            Some((key_text, addr_raw)) => if key_text.len() == 0 {
                Err(TokenFailure::EmptyPubkey)
            } else {
                match addr_check(addr_raw) {
                    Err(e) => Err(e),
                    Ok(_) => match url_base64_decoded(key_text) {
                        None => Err(TokenFailure::InvalidBase64Url),
                        Some(key) => if key.len() != 32 {
                            Err(TokenFailure::InvalidKeyLength(key.len() as usize))
                        } else {
                            Ok(
                                TokenView {
                                    pubkey: std_base64_encoded(key),
                                    addr: trim(addr_raw),
                                    agent_id: derived_agent_id(key),
                                },
                            )
                        },
                    },
                }
            },
        }
    }
}

/// What `derive_agent_id_from_pubkey_base64` produces.
pub open spec fn agent_id_of_pubkey(pubkey_base64: Seq<char>) -> Result<Seq<char>, TokenFailure> {
    match std_base64_decoded(trim(pubkey_base64)) {
        None => Err(TokenFailure::PubkeyNotBase64),
        Some(key) => if key.len() != 32 {
            Err(TokenFailure::InvalidKeyLength(key.len() as usize))
        } else {
            Ok(derived_agent_id(key))
        },
    }
}

fn trimmed_string(text: &str) -> (r: (Vec<char>, String))
    ensures
        r.0@ == trim(text@),
        r.1@ == trim(text@),
{
    let t = trim_chars(&chars_of(text));
    let s = string_from_chars(&t);
    (t, s)
}

pub fn ensure_pubkey_length(key: &Vec<u8>) -> (r: Result<(), TokenError>)
    ensures
        r is Ok <==> key@.len() == 32,
        r matches Err(e) ==> e@ == TokenFailure::InvalidKeyLength(key@.len() as usize),
{
    if key.len() != 32 {
        return Err(TokenError::InvalidKeyLength(key.len()));
    }
    Ok(())
}

/// The canonical base64 key and the Agent ID of 32 key bytes.
pub fn decode_pubkey_bytes(key: &Vec<u8>) -> (r: Result<(String, AgentId), TokenError>)
    ensures
        r is Ok <==> key@.len() == 32,
        r matches Ok(p) ==> p.0@ == std_base64_encoded(key@) && p.1@ == derived_agent_id(key@),
        r matches Err(e) ==> e@ == TokenFailure::InvalidKeyLength(key@.len() as usize),
{
    ensure_pubkey_length(key)?;
    let pubkey = std_base64_encode(key.as_slice());
    let agent_id = derive_agent_id(key);
    Ok((pubkey, agent_id))
}

#[verifier::spinoff_prover]
#[verifier::rlimit(50)]
pub fn validate_addr(addr: &str) -> (r: Result<(), TokenError>)
    ensures
        r is Ok <==> addr_check(addr@) is Ok,
        r matches Err(e) ==> addr_check(addr@) == Err::<(), TokenFailure>(e@),
{
    let (a, a_str) = trimmed_string(addr);
    if a.len() == 0 {
        assert(addr_check(addr@) == Err::<(), TokenFailure>(TokenFailure::EmptyAddr));
        return Err(TokenError::EmptyAddr);
    }
    if parse_socket_addr(&a).is_some() {
        assert(addr_check(addr@) is Ok);
        return Ok(());
    }
    match find_last(&a, ':') {
        None => {
            assert(addr_check(addr@) == Err::<(), TokenFailure>(TokenFailure::AddrNotHostPort));
            Err(TokenError::AddrNotHostPort)
        },
        Some(i) => {
            let ghost host = a@.subrange(0, i as int);
            let ghost port_g = a@.subrange(i + 1, a@.len() as int);
            assert(split_last(a@, ':') == Some((host, port_g)));
            if i == 0 {
                assert(addr_check(addr@) == Err::<(), TokenFailure>(TokenFailure::EmptyHost));
                return Err(TokenError::EmptyHost);
            }
            let port = slice_chars(&a, i + 1, a.len());
            if parse_u16(&port).is_none() {
                let text = string_from_chars(&port);
                assert(addr_check(addr@) == Err::<(), TokenFailure>(TokenFailure::InvalidPort(port_g)));
                return Err(TokenError::InvalidPort(text));
            }
            assert(addr_check(addr@) is Ok);
            Ok(())
        },
    }
}

/// A token built from URL-safe key text `u` of `key` and an address that
/// passes the address check decodes back to the key, the trimmed address
/// and the key's Agent ID.
#[verifier::spinoff_prover]
#[verifier::rlimit(100)]
proof fn lemma_token_decodes(key: Seq<u8>, u: Seq<char>, addr: Seq<char>)
    requires
    url_base64_decoded(u) == Some(key),
    forall|i: int| 0 <= i < u.len() ==> is_url_base64_char(#[trigger] u[i]),
    u.len() > 0,
    key.len() == 32,
    addr_check(addr) is Ok,
    ensures
    decoded_token(scheme_prefix() + u + seq!['@'] + trim(addr)) == Ok::<TokenView, TokenFailure>(
        TokenView { pubkey: std_base64_encoded(key), addr: trim(addr), agent_id: derived_agent_id(key) },
    ),
{
    let tok = scheme_prefix() + u + seq!['@'] + trim(addr);
    let t = trim(addr);
    let p = scheme_prefix();
    assert(tok.subrange(0, p.len() as int) =~= p);
    let rest = tok.subrange(p.len() as int, tok.len() as int);
    assert(rest =~= u + seq!['@'] + t);
    assert(rest[u.len() as int] == '@');
    assert forall|j: int| 0 <= j < u.len() implies rest[j] != '@' by {
        assert(rest[j] == u[j]);
        assert(is_url_base64_char(u[j]));
    }
    let i = choose|i: int| 0 <= i < rest.len() && rest[i] == '@' && forall|j: int| 0 <= j < i ==> rest[j] != '@';
    assert(0 <= i < rest.len() && rest[i] == '@' && forall|j: int| 0 <= j < i ==> rest[j] != '@');
    if i < u.len() {
        assert(rest[i] != '@');
    }
    if i > u.len() {
        assert(rest[u.len() as int] != '@');
    }
    assert(first_index_of(rest, '@') == Some(u.len() as int));
    assert(rest.subrange(0, u.len() as int) =~= u);
    assert(rest.subrange(u.len() as int + 1, rest.len() as int) =~= t);
    lemma_trim_idempotent(addr);
    assert(addr_check(t) == addr_check(addr));
}

/// Build a token for a standard-base64 public key and an address (see
/// `encoded_token`). What it builds decodes back to the same key (in its
/// canonical encoding), the trimmed address and the key's Agent ID.
pub fn encode(pubkey_base64: &str, addr: &str) -> (r: Result<String, TokenError>)
    ensures
        r matches Ok(s) ==> encoded_token(pubkey_base64@, addr@) == Ok::<Seq<char>, TokenFailure>(s@),
        r matches Err(e) ==> encoded_token(pubkey_base64@, addr@) == Err::<Seq<char>, TokenFailure>(e@),
        r matches Ok(s) ==> std_base64_decoded(trim(pubkey_base64@)) matches Some(key) && decoded_token(s@) == Ok::<
            TokenView,
            TokenFailure,
        >(TokenView { pubkey: std_base64_encoded(key), addr: trim(addr@), agent_id: derived_agent_id(key) }),
{
    let (_k, key_text) = trimmed_string(pubkey_base64);
    let key = match std_base64_decode(key_text.as_str()) {
        None => return Err(TokenError::InvalidBase64),
        Some(k) => k,
    };
    ensure_pubkey_length(&key)?;
    validate_addr(addr)?;
    let key_url = url_base64_encode(key.as_slice());
    let mut out = scheme_chars();
    let url_chars = chars_of(key_url.as_str());
    append_chars(&mut out, &url_chars);
    out.push('@');
    let (addr_chars, _a) = trimmed_string(addr);
    append_chars(&mut out, &addr_chars);
    proof {
        assert(out@ =~= scheme_prefix() + url_base64_encoded(key@) + seq!['@'] + trim(addr@));
        lemma_token_decodes(key@, url_base64_encoded(key@), addr@);
    }
    Ok(string_from_chars(&out))
}

#[verifier::spinoff_prover]
#[verifier::rlimit(50)]
pub fn decode(token: &str) -> (r: Result<DecodedPeerToken, TokenError>)
    ensures
        r matches Ok(t) ==> decoded_token(token@) == Ok::<TokenView, TokenFailure>(
            TokenView { pubkey: t.pubkey@, addr: t.addr@, agent_id: t.agent_id@ },
        ),
        r matches Err(e) ==> decoded_token(token@) == Err::<TokenView, TokenFailure>(e@),
{
    let chars = chars_of(token);
    let prefix = scheme_chars();
    if !starts_with_chars(&chars, &prefix) {
        return Err(TokenError::BadScheme);
    }
    let rest = slice_chars(&chars, prefix.len(), chars.len());
    let at = match find_first(&rest, '@') {
        None => return Err(TokenError::MissingSeparator),
        Some(i) => i,
    };
    let key_chars = slice_chars(&rest, 0, at);
    let addr_chars = slice_chars(&rest, at + 1, rest.len());
    if key_chars.len() == 0 {
        return Err(TokenError::EmptyPubkey);
    }
    let addr_raw = string_from_chars(&addr_chars);
    validate_addr(addr_raw.as_str())?;
    let key_text = string_from_chars(&key_chars);
    let key = match url_base64_decode(key_text.as_str()) {
        None => return Err(TokenError::InvalidBase64Url),
        Some(k) => k,
    };
    let (pubkey, agent_id) = decode_pubkey_bytes(&key)?;
    let (_t, addr) = trimmed_string(addr_raw.as_str());
    Ok(DecodedPeerToken { pubkey, addr, agent_id })
}

pub fn derive_agent_id_from_pubkey_base64(pubkey_base64: &str) -> (r: Result<AgentId, TokenError>)
    ensures
        r matches Ok(a) ==> agent_id_of_pubkey(pubkey_base64@) == Ok::<Seq<char>, TokenFailure>(a@),
        r matches Err(e) ==> agent_id_of_pubkey(pubkey_base64@) == Err::<Seq<char>, TokenFailure>(e@),
{
    let (_k, key_text) = trimmed_string(pubkey_base64);
    let key = match std_base64_decode(key_text.as_str()) {
        None => return Err(TokenError::PubkeyNotBase64),
        Some(k) => k,
    };
    let (_pubkey, agent_id) = decode_pubkey_bytes(&key)?;
    Ok(agent_id)
}

fn scheme_chars() -> (v: Vec<char>)
    ensures
        v@ == scheme_prefix(),
{
    let v = vec!['a', 'x', 'o', 'n', ':', '/', '/'];
    assert(v@ =~= scheme_prefix());
    v
}

pub fn append_chars(out: &mut Vec<char>, more: &Vec<char>)
    ensures
        final(out)@ == old(out)@ + more@,
{
    let mut i: usize = 0;
    while i < more.len()
        invariant
            i <= more.len(),
            out@ == old(out)@ + more@.subrange(0, i as int),
        decreases more.len() - i,
    {
        out.push(more[i]);
        proof {
            assert(more@.subrange(0, i + 1) =~= more@.subrange(0, i as int).push(more@[i as int]));
        }
        i = i + 1;
    }
    proof {
        assert(more@.subrange(0, more.len() as int) =~= more@);
    }
}

} // verus!
