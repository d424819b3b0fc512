//! The open documents, and the places in them from which a request can be sent.

use vstd::prelude::*;

use crate::request::{is_http_method_line, request_line};
use crate::store::TextMap;
use crate::text::{byte_len_u32, lines_in, split_lines, utf8_len, views};

verus! {

/// The command that sends a request.
pub const SEND_COMMAND: &'static str = "http-lsp.send";

/// What the button over a request says.
pub const SEND_TITLE: &'static str = "▶ Send Request";

/// A document is open from now on, with this text.
pub fn did_open(docs: &mut TextMap, uri: String, text: String)
    ensures
        final(docs)@ == old(docs)@.insert(uri@, text@),
{
    docs.insert(uri, text);
}

/// The text of a document is now the first of the given ones, if there is one.
pub fn did_change(docs: &mut TextMap, uri: String, changes: &Vec<String>)
    ensures
        final(docs)@ == (if changes@.len() > 0 {
            old(docs)@.insert(uri@, changes@[0]@)
        } else {
            old(docs)@
        }),
{
    if changes.len() > 0 {
        docs.insert(uri, changes[0].clone());
    }
}

/// A document is no longer open.
pub fn did_close(docs: &mut TextMap, uri: &str)
    ensures
        final(docs)@ == old(docs)@.remove(uri@),
{
    docs.remove(uri);
}

/// A button over a line of a document, which sends the request there.
#[derive(Debug)]
pub struct Lens {
    /// The line that the button stands over.
    pub line: u32,
    /// Where the line ends.
    pub end_character: u32,
    pub title: String,
    pub command: String,
    /// The arguments of the command: the document and the line.
    pub uri: String,
    pub index: usize,
}

/// The lines before the `n`-th that are request lines.
pub open spec fn request_lines(lines: Seq<Seq<char>>, n: int) -> Seq<int>
    decreases n,
{
    if n <= 0 {
        Seq::empty()
    } else if request_line(lines[n - 1]) is Some {
        request_lines(lines, n - 1).push(n - 1)
    } else {
        request_lines(lines, n - 1)
    }
}

/// Whether `lens` is the button over the line `i`. Positions are told modulo two
/// to the power 32.
pub open spec fn lens_over(lens: Lens, uri: Seq<char>, lines: Seq<Seq<char>>, i: int) -> bool {
    &&& lens.line == i % 0x1_0000_0000
    &&& lens.end_character == utf8_len(lines[i]) % 0x1_0000_0000
    &&& lens.title@ == SEND_TITLE@
    &&& lens.command@ == SEND_COMMAND@
    &&& lens.uri@ == uri
    &&& lens.index == i
}

/// Whether `lenses` are the buttons over the given lines, in order.
pub open spec fn lenses_over(
    lenses: Seq<Lens>,
    uri: Seq<char>,
    lines: Seq<Seq<char>>,
    places: Seq<int>,
) -> bool {
    lenses.len() == places.len() && forall|k: int|
        0 <= k < places.len() ==> lens_over(#[trigger] lenses[k], uri, lines, places[k])
}

/// The lines of an open document; of any other, none.
pub open spec fn open_lines(docs: Map<Seq<char>, Seq<char>>, uri: Seq<char>) -> Seq<Seq<char>> {
    if docs.contains_key(uri) {
        lines_in(docs[uri])
    } else {
        Seq::empty()
    }
}

/// The buttons over the document `uri`: one over each request line.
pub fn code_lens(docs: &TextMap, uri: &str) -> (r: Vec<Lens>)
    ensures
        lenses_over(
            r@,
            uri@,
            open_lines(docs@, uri@),
            request_lines(open_lines(docs@, uri@), open_lines(docs@, uri@).len() as int),
        ),
{
    let mut lenses: Vec<Lens> = Vec::new();
    let text: &String = match docs.get(uri) {
        Some(text) => text,
        None => {
            return lenses;
        },
    };
    let lines: Vec<String> = split_lines(text.as_str());
    let ghost all = lines_in(text@);
    for i in 0..lines.len()
        invariant
            all == views(lines@),
            lenses_over(lenses@, uri@, all, request_lines(all, i as int)),
    {
        proof {
            assert(all[i as int] == lines@[i as int]@);
        }
        if is_http_method_line(lines[i].as_str()) {
            let ghost before = lenses@;
            lenses.push(
                Lens {
                    line: (i as u64 % 0x1_0000_0000) as u32,
                    end_character: byte_len_u32(lines[i].as_str()),
                    title: SEND_TITLE.to_owned(),
                    command: SEND_COMMAND.to_owned(),
                    uri: uri.to_owned(),
                    index: i,
                },
            );
            proof {
                let places = request_lines(all, i + 1);
                assert forall|k: int| 0 <= k < places.len() implies lens_over(
                    #[trigger] lenses@[k],
                    uri@,
                    all,
                    places[k],
                ) by {
                    if k < before.len() {
                        assert(lenses@[k] == before[k]);
                    }
                }
            }
        }
    }
    lenses
}

} // verus!
