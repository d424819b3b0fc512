//! What holds of the documents that show responses.

use vstd::prelude::*;

use crate::number::decimal;
use crate::response::{canonical_reason, json_reprinted};
use crate::session::{reply_document, Reply};
use crate::text::occurs;

verus! {

/// Law: the document for a response is a line with the status code, its reason
/// phrase and the time that it took, an empty line, and the body. A body that is
/// JSON, by the content type and by itself, is printed with indentation; any other
/// stands there as it came, and where it could not be read, the reason does.
pub proof fn law_response_is_shown(reply: Reply, elapsed_ms: u128)
    requires
        reply is Response,
    ensures
        reply matches Reply::Response { status, content_type, body } ==> {
            let reason = match canonical_reason(status) {
                Some(text) => text,
                None => Seq::empty(),
            };
            let head = "HTTP/1.1 "@ + decimal(status as nat) + " "@ + reason + " | "@ + decimal(
                elapsed_ms as nat,
            ) + "ms\n\n"@;
            let came = match body {
                Ok(text) => text@,
                Err(e) => "<read error: "@ + e@ + ">"@,
            };
            let json = match content_type {
                Some(kind) => occurs(kind@, "application/json"@),
                None => false,
            };
            let shown = if json && json_reprinted(came) is Some {
                json_reprinted(came)->0
            } else {
                came
            };
            &&& reply_document(reply, elapsed_ms) == head + shown
            &&& shown.is_suffix_of(reply_document(reply, elapsed_ms))
        },
{
    let all = reply_document(reply, elapsed_ms);
    if let Reply::Response { status, content_type, body } = reply {
        let came = match body {
            Ok(text) => text@,
            Err(e) => "<read error: "@ + e@ + ">"@,
        };
        let json = match content_type {
            Some(kind) => occurs(kind@, "application/json"@),
            None => false,
        };
        let shown = if json && json_reprinted(came) is Some {
            json_reprinted(came)->0
        } else {
            came
        };
        assert(all.subrange(all.len() - shown.len(), all.len() as int) == shown);
    }
}

/// Law: where no response came, the document says so, with the time that it took
/// and the reason.
pub proof fn law_failure_is_shown(error: String, elapsed_ms: u128)
    ensures
        reply_document((Reply::Failure { error }), elapsed_ms) == "REQUEST ERROR | "@ + decimal(
            elapsed_ms as nat,
        ) + "ms\n\n"@ + error@,
{
}

} // verus!
