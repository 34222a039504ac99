//! HTTP status codes as the model server's answers carry them.
use vstd::prelude::*;
use crate::text::{decimal, push_decimal, push_str_chars, string_of};

verus! {

/// A status in 200..=299.
pub open spec fn success_status(code: u16) -> bool {
    200 <= code && code < 300
}

pub fn is_success(code: u16) -> (b: bool)
    ensures
        b == success_status(code),
{
    200 <= code && code < 300
}

/// The reason phrase registered for a status code, if any: a table kept by
/// the HTTP crate.
pub uninterp spec fn canonical_reason(code: u16) -> Option<Seq<char>>;

/// `StatusCode::canonical_reason` of the status `code` (made by
/// `StatusCode::from_u16`, which accepts 100..=999): the phrase is
/// `canonical_reason` of the code.
#[verifier::external_body]
fn reason_phrase(code: u16) -> (r: Option<&'static str>)
    requires
        100 <= code <= 999,
    ensures
        match r {
            Some(p) => canonical_reason(code) == Some(p@),
            None => canonical_reason(code) is None,
        },
{
    match reqwest::StatusCode::from_u16(code) {
        Ok(status) => status.canonical_reason(),
        Err(_) => None,
    }
}

/// A status line: the code, a space and the reason phrase, or a note that
/// the code has none.
pub open spec fn status_line_text(code: u16, reason: Option<Seq<char>>) -> Seq<char> {
    decimal(code as nat) + " "@ + match reason {
        Some(p) => p,
        None => "<unknown status code>"@,
    }
}

/// How a status is displayed: its number, a space and its reason phrase.
pub open spec fn status_text(code: u16) -> Seq<char> {
    status_line_text(code, canonical_reason(code))
}

pub open spec fn opt_phrase(o: Option<&str>) -> Option<Seq<char>> {
    match o {
        Some(p) => Some(p@),
        None => None,
    }
}

/// Writes a status with the given reason phrase.
pub fn status_line(code: u16, reason: Option<&str>) -> (r: String)
    ensures
        r@ == status_line_text(code, opt_phrase(reason)),
{
    let mut out: Vec<char> = Vec::new();
    push_decimal(&mut out, code as u64);
    out.push(' ');
    match reason {
        Some(p) => push_str_chars(&mut out, p),
        None => push_str_chars(&mut out, "<unknown status code>"),
    }
    proof {
        reveal_strlit(" ");
    }
    assert(out@ =~= status_line_text(code, opt_phrase(reason)));
    string_of(out.as_slice())
}

/// How the HTTP crate displays a status.
pub fn status_display(code: u16) -> (r: String)
    requires
        100 <= code <= 999,
    ensures
        r@ == status_text(code),
{
    status_line(code, reason_phrase(code))
}

} // verus!
