//! Requests as they stand in a document: a request line, headers and a body.

use vstd::prelude::*;
use vstd::slice::slice_subrange;

use crate::text::{
    chars_of, find_char, first, is_white, join_lines, joined, lines_in, split_lines, starts_with,
    string_of, text_view, trim, trim_start, trimmed, trimmed_start, views, white,
};

verus! {

/// The methods that a request line can start with, in the order in which they are tried.
pub open spec fn methods() -> Seq<Seq<char>> {
    seq![
        "GET"@,
        "POST"@,
        "PUT"@,
        "DELETE"@,
        "PATCH"@,
        "HEAD"@,
        "OPTIONS"@,
        "TRACE"@,
        "CONNECT"@,
    ]
}

/// Whether `s` starts with `c` twice.
pub open spec fn doubled(s: Seq<char>, c: char) -> bool {
    s.len() >= 2 && s[0] == c && s[1] == c
}

/// How many characters at the start of `s` belong to the URL, where `depth`
/// placeholders are open: all up to the first white space outside double braces.
pub open spec fn url_len(s: Seq<char>, depth: int) -> int
    decreases s.len(),
{
    if s.len() == 0 {
        0
    } else if doubled(s, '{') {
        2 + url_len(s.skip(2), depth + 1)
    } else if doubled(s, '}') {
        2 + url_len(s.skip(2), depth - 1)
    } else if white(s[0]) && depth <= 0 {
        0
    } else {
        1 + url_len(s.skip(1), depth)
    }
}

/// The URL at the start of `s`.
pub open spec fn url_of(s: Seq<char>) -> Seq<char> {
    s.take(url_len(s, 0))
}

/// The URL of the request line `line` with the method `method`.
pub open spec fn url_with(line: Seq<char>, method: Seq<char>) -> Option<Seq<char>> {
    let t = trimmed_start(line);
    let url = url_of(trimmed(t.skip(method.len() as int + 1)));
    if method.push(' ').is_prefix_of(t) && url.len() > 0 {
        Some(url)
    } else {
        None
    }
}

/// The first method from the `k`-th on that fits `line`, with its URL.
pub open spec fn request_line_from(line: Seq<char>, k: int) -> Option<(Seq<char>, Seq<char>)>
    decreases methods().len() - k,
{
    if k < 0 || k >= methods().len() {
        None
    } else {
        match url_with(line, methods()[k]) {
            Some(url) => Some((methods()[k], url)),
            None => request_line_from(line, k + 1),
        }
    }
}

/// The method and the URL of `line`, if it is a request line.
pub open spec fn request_line(line: Seq<char>) -> Option<(Seq<char>, Seq<char>)> {
    request_line_from(line, 0)
}

/// Whether `line` holds nothing but white space.
pub open spec fn blank(line: Seq<char>) -> bool {
    trimmed(line).len() == 0
}

/// Whether `line` ends a request.
pub open spec fn separator(line: Seq<char>) -> bool {
    "###"@.is_prefix_of(line)
}

/// Whether `line` can stand among the headers.
pub open spec fn header_line(line: Seq<char>) -> bool {
    !blank(line) && !separator(line) && first(line, ':') < line.len()
}

/// The name and the value in a header line.
pub open spec fn header_of(line: Seq<char>) -> (Seq<char>, Seq<char>) {
    let k = first(line, ':');
    (trimmed(line.take(k)), trimmed(line.skip(k + 1)))
}

/// The first line from `i` on that is no header line, or the number of lines.
pub open spec fn headers_end(lines: Seq<Seq<char>>, i: int) -> int
    decreases lines.len() - i,
{
    if i >= lines.len() || !header_line(lines[i]) {
        i
    } else {
        headers_end(lines, i + 1)
    }
}

/// Where the body starts: behind the headers and one blank line.
pub open spec fn body_start(lines: Seq<Seq<char>>, i: int) -> int {
    let end = headers_end(lines, i);
    if end < lines.len() && blank(lines[end]) {
        end + 1
    } else {
        end
    }
}

/// The first separator from `i` on, or the number of lines.
pub open spec fn body_end(lines: Seq<Seq<char>>, i: int) -> int
    decreases lines.len() - i,
{
    if i >= lines.len() || separator(lines[i]) {
        i
    } else {
        body_end(lines, i + 1)
    }
}

/// A request as plain texts.
#[verifier::ext_equal]
pub struct Request {
    pub method: Seq<char>,
    pub url: Seq<char>,
    pub headers: Seq<(Seq<char>, Seq<char>)>,
    pub body: Option<Seq<char>>,
}

/// The headers in the lines from `i` to before `end`.
pub open spec fn headers_between(lines: Seq<Seq<char>>, i: int, end: int) -> Seq<
    (Seq<char>, Seq<char>),
> {
    Seq::new((end - i) as nat, |j: int| header_of(lines[i + j]))
}

/// The body that the lines from `i` on hold.
pub open spec fn body_of(lines: Seq<Seq<char>>, i: int) -> Option<Seq<char>> {
    let body = trimmed(joined(lines.subrange(i, body_end(lines, i))));
    if body.len() > 0 {
        Some(body)
    } else {
        None
    }
}

/// The request whose request line is the line `start`.
pub open spec fn request_in(lines: Seq<Seq<char>>, start: int) -> Option<Request> {
    if 0 <= start < lines.len() {
        match request_line(lines[start]) {
            Some((method, url)) => Some(
                Request {
                    method,
                    url,
                    headers: headers_between(lines, start + 1, headers_end(lines, start + 1)),
                    body: body_of(lines, body_start(lines, start + 1)),
                },
            ),
            None => None,
        }
    } else {
        None
    }
}

/// A request as it stands in a document.
#[derive(Debug)]
pub struct ParsedRequest {
    pub method: String,
    pub url: String,
    pub headers: Vec<(String, String)>,
    pub body: Option<String>,
}

/// The names and values that the headers hold.
pub open spec fn header_views(headers: Seq<(String, String)>) -> Seq<(Seq<char>, Seq<char>)> {
    Seq::new(headers.len(), |i: int| (headers[i].0@, headers[i].1@))
}

impl View for ParsedRequest {
    type V = Request;

    open spec fn view(&self) -> Request {
        Request {
            method: self.method@,
            url: self.url@,
            headers: header_views(self.headers@),
            body: text_view(self.body),
        }
    }
}

/// The URL at the start of `input`: all up to the first white space outside
/// double braces.
pub fn extract_url(input: &str) -> (r: String)
    ensures
        r@ == url_of(input@),
{
    let s: Vec<char> = chars_of(input);
    let mut i: usize = 0;
    let mut depth: i128 = 0;
    proof {
        assert(s@.skip(0) == s@);
    }
    while i < s.len()
        invariant
            s@ == input@,
            0 <= i <= s@.len(),
            -i <= depth <= i,
            url_len(s@, 0) == i + url_len(s@.skip(i as int), depth as int),
        ensures
            i <= s@.len(),
            url_len(s@, 0) == i,
        decreases s@.len() - i,
    {
        let ghost rest = s@.skip(i as int);
        let c: char = s[i];
        let twice: bool = i + 1 < s.len() && s[i + 1] == c;
        proof {
            assert(rest.len() >= 2 ==> rest[1] == s@[i + 1]);
        }
        if c == '{' && twice {
            proof {
                assert(rest.skip(2) == s@.skip(i + 2));
            }
            depth += 1;
            i += 2;
        } else if c == '}' && twice {
            proof {
                assert(rest.skip(2) == s@.skip(i + 2));
            }
            depth -= 1;
            i += 2;
        } else if is_white(c) && depth <= 0 {
            break;
        } else {
            proof {
                assert(rest.skip(1) == s@.skip(i + 1));
            }
            i += 1;
        }
    }
    string_of(slice_subrange(s.as_slice(), 0, i))
}

/// The methods that a request line can start with.
fn method_names() -> (r: Vec<&'static str>)
    ensures
        r@.len() == methods().len(),
        forall|i: int| 0 <= i < r@.len() ==> (#[trigger] r@[i])@ == methods()[i],
{
    vec!["GET", "POST", "PUT", "DELETE", "PATCH", "HEAD", "OPTIONS", "TRACE", "CONNECT"]
}

/// The method and the URL of `line`, if it is a request line: a method, a
/// space and a URL, behind optional white space.
pub fn method_from_line(line: &str) -> (r: Option<(String, String)>)
    ensures
        match r {
            Some((method, url)) => request_line(line@) == Some((method@, url@)),
            None => request_line(line@) is None,
        },
{
    let all: Vec<char> = chars_of(line);
    let trimmed: &[char] = trim_start(all.as_slice());
    let names: Vec<&'static str> = method_names();
    let mut k: usize = 0;
    while k < names.len()
        invariant
            trimmed@ == trimmed_start(line@),
            names@.len() == methods().len(),
            forall|i: int| 0 <= i < names@.len() ==> (#[trigger] names@[i])@ == methods()[i],
            0 <= k <= names@.len(),
            request_line(line@) == request_line_from(line@, k as int),
        decreases names@.len() - k,
    {
        let method: &'static str = names[k];
        let n: usize = chars_of(method).len();
        let ghost m = methods()[k as int];
        if starts_with(trimmed, method) && n < trimmed.len() && trimmed[n] == ' ' {
            proof {
                assert(m.push(' ') == trimmed@.subrange(0, n + 1)) by {
                    assert(m == trimmed@.subrange(0, n as int));
                }
            }
            let rest: &[char] = slice_subrange(trimmed, n + 1, trimmed.len());
            proof {
                assert(rest@ == trimmed@.skip(n + 1));
            }
            let url: String = extract_url(string_of(trim(rest)).as_str());
            if chars_of(url.as_str()).len() > 0 {
                return Some((method.to_owned(), url));
            }
        } else {
            proof {
                if m.push(' ').is_prefix_of(trimmed@) {
                    assert(trimmed@.subrange(0, n + 1)[n as int] == ' ');
                    assert(m.push(' ').drop_last() == m);
                    assert(trimmed@.subrange(0, n + 1).drop_last() == trimmed@.subrange(
                        0,
                        n as int,
                    ));
                }
            }
        }
        k += 1;
    }
    None
}

/// Whether `line` is a request line.
pub fn is_http_method_line(line: &str) -> (r: bool)
    ensures
        r == (request_line(line@) is Some),
{
    method_from_line(line).is_some()
}

/// The name and the value in `line`, split at its first colon.
fn header_from_line(line: &[char]) -> (r: Option<(String, String)>)
    ensures
        match r {
            Some((name, value)) => first(line@, ':') < line@.len() && header_of(line@)
                == (name@, value@),
            None => first(line@, ':') == line@.len(),
        },
{
    let k: usize = find_char(line, ':');
    if k == line.len() {
        return None;
    }
    let name: &[char] = slice_subrange(line, 0, k);
    let value: &[char] = slice_subrange(line, k + 1, line.len());
    proof {
        assert(name@ == line@.take(k as int));
        assert(value@ == line@.skip(k + 1));
    }
    Some((string_of(trim(name)), string_of(trim(value))))
}

/// The request whose request line is the line `start_line` of `text`: headers
/// up to a blank line or a line that is none, then a body up to a line that
/// starts with `###`.
pub fn parse_request_at(text: &str, start_line: usize) -> (r: Option<ParsedRequest>)
    ensures
        match r {
            Some(request) => request_in(lines_in(text@), start_line as int) == Some(request@),
            None => request_in(lines_in(text@), start_line as int) is None,
        },
{
    let lines: Vec<String> = split_lines(text);
    let ghost all = lines_in(text@);
    proof {
        assert(all == views(lines@));
    }
    if start_line >= lines.len() {
        return None;
    }
    let (method, url) = match method_from_line(lines[start_line].as_str()) {
        Some(found) => found,
        None => {
            return None;
        },
    };
    let first_header: usize = start_line + 1;
    let mut headers: Vec<(String, String)> = Vec::new();
    let mut cursor: usize = first_header;
    while cursor < lines.len()
        invariant
            all == views(lines@),
            first_header <= cursor <= lines@.len(),
            header_views(headers@) == headers_between(all, first_header as int, cursor as int),
            headers_end(all, first_header as int) == headers_end(all, cursor as int),
        ensures
            first_header <= cursor <= lines@.len(),
            header_views(headers@) == headers_between(all, first_header as int, cursor as int),
            headers_end(all, first_header as int) == cursor,
        decreases lines@.len() - cursor,
    {
        let line: Vec<char> = chars_of(lines[cursor].as_str());
        proof {
            assert(line@ == all[cursor as int]);
        }
        if trim(line.as_slice()).len() == 0 || starts_with(line.as_slice(), "###") {
            break;
        }
        match header_from_line(line.as_slice()) {
            Some(header) => {
                let ghost before = headers@;
                headers.push(header);
                proof {
                    let h = header_of(line@);
                    let done = headers_between(all, first_header as int, cursor as int);
                    assert(header_views(headers@) == header_views(before).push(h));
                    assert(headers_between(all, first_header as int, cursor + 1) == done.push(h));
                }
                cursor += 1;
            },
            None => {
                break;
            },
        }
    }
    if cursor < lines.len() && trim(chars_of(lines[cursor].as_str()).as_slice()).len() == 0 {
        cursor += 1;
    }
    let body_first: usize = cursor;
    proof {
        assert(body_first == body_start(all, first_header as int));
    }
    while cursor < lines.len() && !starts_with(chars_of(lines[cursor].as_str()).as_slice(), "###")
        invariant
            all == views(lines@),
            body_first <= cursor <= lines@.len(),
            body_end(all, body_first as int) == body_end(all, cursor as int),
        decreases lines@.len() - cursor,
    {
        cursor += 1;
    }
    let body_lines: &[String] = slice_subrange(lines.as_slice(), body_first, cursor);
    proof {
        assert(views(body_lines@) == all.subrange(body_first as int, cursor as int));
    }
    let joined: Vec<char> = chars_of(join_lines(body_lines).as_str());
    let trimmed: &[char] = trim(joined.as_slice());
    let body: Option<String> = if trimmed.len() == 0 {
        None
    } else {
        Some(string_of(trimmed))
    };
    Some(ParsedRequest { method, url, headers, body })
}

} // verus!
