//! The few calls into std that the core relies on, each behind a declaration
//! whose contract states only what std's documentation plainly promises.

use vstd::prelude::*;
use vstd::utf8::*;

verus! {

/// Whether Unicode classifies `c` as alphanumeric; the result of
/// `char::is_alphanumeric` depends on the character alone.
pub uninterp spec fn alphanumeric(c: char) -> bool;

/// Whether `c` has the Unicode `White_Space` property; the result of
/// `char::is_whitespace` depends on the character alone.
pub uninterp spec fn whitespace(c: char) -> bool;

/// Relies on char::is_alphanumeric: a pure classification by character; of
/// the ASCII characters, exactly the letters and digits are alphanumeric.
#[verifier::external_body]
pub(crate) fn char_is_alphanumeric(c: char) -> (r: bool)
    ensures
        r == alphanumeric(c),
        (c as u32) < 128 ==> (r <==> (('a' <= c && c <= 'z') || ('A' <= c && c <= 'Z') || ('0' <= c
            && c <= '9'))),
{
    c.is_alphanumeric()
}

/// Relies on char::is_whitespace: a pure classification by character; the
/// ASCII whitespace characters are space, tab, line feed, vertical tab, form
/// feed and carriage return.
#[verifier::external_body]
pub(crate) fn char_is_whitespace(c: char) -> (r: bool)
    ensures
        r == whitespace(c),
        (c as u32) < 128 ==> (r <==> (c == ' ' || c == '\t' || c == '\n' || (c as u32) == 0x0B || (
        c as u32) == 0x0C || c == '\r')),
{
    c.is_whitespace()
}

/// Relies on char::from_u32: returns Some exactly for Unicode scalar values,
/// and the returned character has the given value.
#[verifier::external_body]
pub(crate) fn char_from_u32(u: u32) -> (r: Option<char>)
    ensures
        r is Some <==> is_scalar(u),
        r matches Some(c) ==> c as u32 == u,
{
    char::from_u32(u)
}

/// Relies on String::from_utf8: for valid UTF-8 input it returns the string
/// holding exactly those bytes.
#[verifier::external_body]
pub(crate) fn bytes_to_string(v: Vec<u8>) -> (r: String)
    requires
        valid_utf8(v@),
    ensures
        encode_utf8(r@) == v@,
{
    match String::from_utf8(v) {
        Ok(s) => s,
        Err(_) => String::new(),
    }
}

/// Relies on std::time::SystemTime: the current time in milliseconds since
/// the Unix epoch. Nothing is assumed of the value; callers state what holds
/// of the editor whatever time comes back.
#[verifier::external_body]
pub(crate) fn now_millis() -> u64 {
    match std::time::SystemTime::now().duration_since(std::time::UNIX_EPOCH) {
        Ok(d) => d.as_millis() as u64,
        Err(_) => 0,
    }
}

} // verus!
