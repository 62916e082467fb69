//! Error replies: the `code`, `message` and `retryable` fields of an error
//! envelope's payload, and the hyphenated text of a request UUID.
use vstd::prelude::*;

use crate::codec::{hex_digit, hex_digit_exec};
use crate::text::{chars_of, slice_chars, string_from_chars};

verus! {

/// An error payload.
#[derive(Debug, Clone, PartialEq, Eq)]
pub struct ErrorReply {
    pub code: String,
    pub message: String,
    pub retryable: bool,
}

pub struct ErrorReplyView {
    pub code: Seq<char>,
    pub message: Seq<char>,
    pub retryable: bool,
}

impl View for ErrorReply {
    type V = ErrorReplyView;

    open spec fn view(&self) -> ErrorReplyView {
        ErrorReplyView { code: self.code@, message: self.message@, retryable: self.retryable }
    }
}

pub open spec fn error_reply_of(code: Seq<char>, message: Seq<char>, retryable: bool) -> ErrorReplyView {
    ErrorReplyView { code, message, retryable }
}

/// The error reply with the given fields.
pub fn error_reply(code: &str, message: String, retryable: bool) -> (r: ErrorReply)
    ensures
        r@ == error_reply_of(code@, message@, retryable),
{
    ErrorReply { code: code.to_string(), message, retryable }
}

/// The last `n` hexadecimal digits of `v`, most significant first.
pub open spec fn low_hex(v: nat, n: nat) -> Seq<char>
    decreases n,
{
    if n == 0 {
        Seq::empty()
    } else {
        low_hex(v / 16, (n - 1) as nat).push(hex_digit((v % 16) as u8))
    }
}

/// A UUID's text: its 32 lower-case hexadecimal digits grouped 8-4-4-4-12
/// by hyphens.
pub open spec fn uuid_text(id: u128) -> Seq<char> {
    let d = low_hex(id as nat, 32);
    d.subrange(0, 8) + seq!['-'] + d.subrange(8, 12) + seq!['-'] + d.subrange(12, 16) + seq!['-'] + d.subrange(16, 20)
        + seq!['-'] + d.subrange(20, 32)
}

fn low_hex_chars(v: u128, n: usize) -> (r: Vec<char>)
    ensures
        r@ == low_hex(v as nat, n as nat),
        r@.len() == n,
    decreases n,
{
    if n == 0 {
        let r: Vec<char> = Vec::new();
        assert(r@ =~= Seq::<char>::empty());
        r
    } else {
        let mut r = low_hex_chars(v / 16, n - 1);
        r.push(hex_digit_exec((v % 16) as u8));
        r
    }
}

/// The text of UUID `id` (see `uuid_text`).
pub fn uuid_chars(id: u128) -> (r: Vec<char>)
    ensures
        r@ == uuid_text(id),
{
    let d = low_hex_chars(id, 32);
    let mut out = slice_chars(&d, 0, 8);
    out.push('-');
    let mut p = slice_chars(&d, 8, 12);
    out.append(&mut p);
    out.push('-');
    let mut p = slice_chars(&d, 12, 16);
    out.append(&mut p);
    out.push('-');
    let mut p = slice_chars(&d, 16, 20);
    out.append(&mut p);
    out.push('-');
    let mut p = slice_chars(&d, 20, 32);
    out.append(&mut p);
    proof {
        let s = d@;
        assert(out@ =~= s.subrange(0, 8) + seq!['-'] + s.subrange(8, 12) + seq!['-'] + s.subrange(12, 16) + seq!['-']
            + s.subrange(16, 20) + seq!['-'] + s.subrange(20, 32));
    }
    out
}

/// `prefix`, the text of UUID `id`, then `suffix`.
pub fn text_with_uuid(prefix: &str, id: u128, suffix: &str) -> (s: String)
    ensures
        s@ == prefix@ + uuid_text(id) + suffix@,
{
    let mut v = chars_of(prefix);
    let mut u = uuid_chars(id);
    v.append(&mut u);
    let mut t = chars_of(suffix);
    v.append(&mut t);
    string_from_chars(&v)
}

} // verus!
