//! The document that shows a response.

use vstd::prelude::*;

use crate::number::{decimal, push_decimal};
use crate::text::{contains, occurs, text_view};

verus! {

/// The text that `serde_json` makes of a JSON text when it reads it and prints
/// it with indentation, if the text is one.
pub uninterp spec fn json_reprinted(body: Seq<char>) -> Option<Seq<char>>;

/// `serde_json::from_str` into a `serde_json::Value`, then
/// `serde_json::to_string_pretty`: the body printed with indentation, or `None`
/// where it is not JSON.
#[verifier::external_body]
fn reprint_json(body: &str) -> (r: Option<String>)
    ensures
        text_view(r) == json_reprinted(body@),
{
    let value: serde_json::Value = serde_json::from_str(body).ok()?;
    serde_json::to_string_pretty(&value).ok()
}

/// The reason phrase that belongs to a status code, if the code is a known one.
pub uninterp spec fn canonical_reason(status: u16) -> Option<Seq<char>>;

/// `reqwest::StatusCode::canonical_reason`, behind `StatusCode::from_u16`: the
/// reason phrase of the status code, or `None` where the code has none.
#[verifier::external_body]
pub(crate) fn reason_of(status: u16) -> (r: Option<String>)
    ensures
        text_view(r) == canonical_reason(status),
{
    let code = reqwest::StatusCode::from_u16(status).ok()?;
    code.canonical_reason().map(|reason| reason.to_string())
}

/// Whether a content type is one of JSON.
pub open spec fn is_json(content_type: Option<Seq<char>>) -> bool {
    content_type is Some && occurs(content_type->0, "application/json"@)
}

/// The body as it is shown: reprinted where it is JSON by its type and by what
/// it holds, else as it came.
pub open spec fn shown_body(
    content_type: Option<Seq<char>>,
    body: Seq<char>,
    reprinted: Option<Seq<char>>,
) -> Seq<char> {
    if is_json(content_type) && reprinted is Some {
        reprinted->0
    } else {
        body
    }
}

/// The document for a response whose body is shown as `shown`.
pub open spec fn response_document(
    status: u16,
    status_text: Seq<char>,
    elapsed_ms: u128,
    shown: Seq<char>,
) -> Seq<char> {
    "HTTP/1.1 "@ + decimal(status as nat) + " "@ + status_text + " | "@ + decimal(
        elapsed_ms as nat,
    ) + "ms\n\n"@ + shown
}

/// The text that an optional string slice holds.
pub open spec fn slice_view(text: Option<&str>) -> Option<Seq<char>> {
    match text {
        Some(t) => Some(t@),
        None => None,
    }
}

/// Whether a content type is one of JSON.
fn json_type(content_type: Option<&str>) -> (r: bool)
    ensures
        r == is_json(slice_view(content_type)),
{
    match content_type {
        Some(t) => contains(t, "application/json"),
        None => false,
    }
}

/// The document for a response, given its body reprinted as JSON if it can be.
pub fn format_response_with(
    status: u16,
    status_text: &str,
    elapsed_ms: u128,
    content_type: Option<&str>,
    body: &str,
    reprinted: &Option<String>,
) -> (r: String)
    ensures
        r@ == response_document(
            status,
            status_text@,
            elapsed_ms,
            shown_body(slice_view(content_type), body@, text_view(*reprinted)),
        ),
{
    let mut out: String = "HTTP/1.1 ".to_owned();
    push_decimal(&mut out, status as u128);
    out.append(" ");
    out.append(status_text);
    out.append(" | ");
    push_decimal(&mut out, elapsed_ms);
    out.append("ms\n\n");
    match reprinted {
        Some(text) => {
            if json_type(content_type) {
                out.append(text.as_str());
            } else {
                out.append(body);
            }
        },
        None => {
            out.append(body);
        },
    }
    out
}

/// The document for a response: a line with the status and the time that it
/// took, an empty line, and the body, printed with indentation where it is JSON.
pub fn format_response(
    status: u16,
    status_text: &str,
    elapsed_ms: u128,
    content_type: Option<&str>,
    body: &str,
) -> (r: String)
    ensures
        r@ == response_document(
            status,
            status_text@,
            elapsed_ms,
            shown_body(slice_view(content_type), body@, json_reprinted(body@)),
        ),
{
    let reprinted: Option<String> = if json_type(content_type) {
        reprint_json(body)
    } else {
        None
    };
    format_response_with(status, status_text, elapsed_ms, content_type, body, &reprinted)
}

} // verus!
