//! Calls into the `base64` and `sha2` crates, and the hexadecimal rendering
//! that Agent IDs use.
use vstd::prelude::*;
use base64::Engine;
use sha2::Digest;

verus! {

/// What `base64`'s `STANDARD` engine decodes the text to (`None`: rejected).
pub uninterp spec fn std_base64_decoded(text: Seq<char>) -> Option<Seq<u8>>;

/// What `base64`'s `STANDARD` engine encodes the bytes to.
pub uninterp spec fn std_base64_encoded(bytes: Seq<u8>) -> Seq<char>;

/// What `base64`'s `URL_SAFE_NO_PAD` engine decodes the text to (`None`: rejected).
pub uninterp spec fn url_base64_decoded(text: Seq<char>) -> Option<Seq<u8>>;

/// What `base64`'s `URL_SAFE_NO_PAD` engine encodes the bytes to.
pub uninterp spec fn url_base64_encoded(bytes: Seq<u8>) -> Seq<char>;

/// The SHA-256 digest of the bytes.
pub uninterp spec fn sha256_of(bytes: Seq<u8>) -> Seq<u8>;

/// `base64::engine::general_purpose::STANDARD.decode`: the decoded bytes, or
/// `None` where the engine returns an error. The result is named, not stated.
#[verifier::external_body]
pub(crate) fn std_base64_decode(text: &str) -> (r: Option<Vec<u8>>)
    ensures
        r matches Some(v) ==> std_base64_decoded(text@) == Some(v@),
        r is None ==> std_base64_decoded(text@) is None,
{
    base64::engine::general_purpose::STANDARD.decode(text).ok()
}

/// The characters of the standard base64 alphabet, with its `=` padding.
pub open spec fn is_std_base64_char(c: char) -> bool {
    ('A' <= c && c <= 'Z') || ('a' <= c && c <= 'z') || ('0' <= c && c <= '9') || c == '+' || c == '/' || c == '='
}

/// The characters of the URL-safe base64 alphabet.
pub open spec fn is_url_base64_char(c: char) -> bool {
    ('A' <= c && c <= 'Z') || ('a' <= c && c <= 'z') || ('0' <= c && c <= '9') || c == '-' || c == '_'
}

/// `base64::engine::general_purpose::STANDARD.encode`. The engine panics
/// only when the encoded length overflows `usize`, which the bound rules out.
/// Its output is padded standard-alphabet text that the same engine decodes
/// back to the input.
#[verifier::external_body]
pub(crate) fn std_base64_encode(bytes: &[u8]) -> (r: String)
    requires
        bytes@.len() <= 0x1_0000_0000,
    ensures
        r@ == std_base64_encoded(bytes@),
        std_base64_decoded(r@) == Some(bytes@),
        forall|i: int| 0 <= i < r@.len() ==> is_std_base64_char(#[trigger] r@[i]),
{
    base64::engine::general_purpose::STANDARD.encode(bytes)
}

/// `base64::engine::general_purpose::URL_SAFE_NO_PAD.decode`: the decoded
/// bytes, or `None` where the engine returns an error.
#[verifier::external_body]
pub(crate) fn url_base64_decode(text: &str) -> (r: Option<Vec<u8>>)
    ensures
        r matches Some(v) ==> url_base64_decoded(text@) == Some(v@),
        r is None ==> url_base64_decoded(text@) is None,
{
    base64::engine::general_purpose::URL_SAFE_NO_PAD.decode(text).ok()
}

/// `base64::engine::general_purpose::URL_SAFE_NO_PAD.encode`; the bound
/// rules out the engine's length-overflow panic. Its output is unpadded
/// URL-safe text, non-empty for non-empty input, that the same engine
/// decodes back to the input.
#[verifier::external_body]
pub(crate) fn url_base64_encode(bytes: &[u8]) -> (r: String)
    requires
        bytes@.len() <= 0x1_0000_0000,
    ensures
        r@ == url_base64_encoded(bytes@),
        url_base64_decoded(r@) == Some(bytes@),
        forall|i: int| 0 <= i < r@.len() ==> is_url_base64_char(#[trigger] r@[i]),
        bytes@.len() > 0 ==> r@.len() > 0,
{
    base64::engine::general_purpose::URL_SAFE_NO_PAD.encode(bytes)
}

/// `sha2::Sha256::digest`: the digest, whose type fixes it at 32 bytes.
#[verifier::external_body]
pub(crate) fn sha256(bytes: &[u8]) -> (r: Vec<u8>)
    ensures
        r@ == sha256_of(bytes@),
        r@.len() == 32,
{
    sha2::Sha256::digest(bytes).to_vec()
}

pub open spec fn hex_digit(n: u8) -> char {
    if n < 10 {
        ((n + 48) as u8) as char
    } else {
        ((n + 87) as u8) as char
    }
}

/// Lower-case hexadecimal, two digits per byte (`format!("{b:02x}")`).
pub open spec fn hex_of(bytes: Seq<u8>) -> Seq<char>
    decreases bytes.len(),
{
    if bytes.len() == 0 {
        Seq::empty()
    } else {
        hex_of(bytes.drop_last()) + seq![hex_digit(bytes.last() / 16), hex_digit(bytes.last() % 16)]
    }
}

/// The digits of `hex_of(bytes)`: two per byte, high nibble first.
pub proof fn lemma_hex_of_digits(bytes: Seq<u8>, i: int)
    requires
        0 <= i < bytes.len(),
    ensures
        hex_of(bytes).len() == 2 * bytes.len(),
        hex_of(bytes)[2 * i] == hex_digit(bytes[i] / 16),
        hex_of(bytes)[2 * i + 1] == hex_digit(bytes[i] % 16),
    decreases bytes.len(),
{
    lemma_hex_of_len(bytes);
    if i < bytes.len() - 1 {
        lemma_hex_of_digits(bytes.drop_last(), i);
    } else {
        lemma_hex_of_len(bytes.drop_last());
    }
}

proof fn lemma_hex_of_len(bytes: Seq<u8>)
    ensures
        hex_of(bytes).len() == 2 * bytes.len(),
    decreases bytes.len(),
{
    if bytes.len() > 0 {
        lemma_hex_of_len(bytes.drop_last());
    }
}

pub(crate) fn hex_digit_exec(n: u8) -> (c: char)
    requires
        n < 16,
    ensures
        c == hex_digit(n),
{
    if n < 10 {
        (n + 48) as char
    } else {
        (n + 87) as char
    }
}

/// Append the lower-case hexadecimal of `bytes[..count]` to `out`.
pub fn push_hex(out: &mut Vec<char>, bytes: &Vec<u8>, count: usize)
    requires
        count <= bytes.len(),
    ensures
        final(out)@ == old(out)@ + hex_of(bytes@.subrange(0, count as int)),
{
    let mut i: usize = 0;
    while i < count
        invariant
            i <= count <= bytes.len(),
            out@ == old(out)@ + hex_of(bytes@.subrange(0, i as int)),
        decreases count - i,
    {
        let b = bytes[i];
        out.push(hex_digit_exec(b / 16));
        out.push(hex_digit_exec(b % 16));
        proof {
            let p = bytes@.subrange(0, i + 1);
            assert(p.drop_last() =~= bytes@.subrange(0, i as int));
            assert(p.last() == b);
        }
        i = i + 1;
    }
}

} // verus!
