//! What holds of requests in documents.

use vstd::prelude::*;

use super::texts::lemma_trimmed_start_of_two;
use super::{
    all_white, free_of, lemma_lines_of_two_texts, lemma_solid_is_trimmed, lemma_trimmed_ends,
    lemma_trimmed_is, lemma_trimmed_padded, solid, without_braces,
};
use crate::request::{
    blank, body_end, body_start, doubled, header_line, header_of, headers_between, headers_end,
    methods, request_in, request_line, request_line_from, separator, url_len, url_of, url_with,
    Request,
};
use crate::text::{
    first, joined, lemma_first, lemma_first_is, lemma_solid_run_is, lemma_trimmed_end,
    lemma_trimmed_start, lines_in, solid_run, trimmed, trimmed_end, trimmed_start, white,
    without_return,
};

verus! {

/// Law: taking the URL of a URL changes nothing, and a URL is the start of the
/// text that it is taken from.
pub proof fn law_url_of_url(s: Seq<char>)
    ensures
        url_of(s).is_prefix_of(s),
        url_of(url_of(s)) == url_of(s),
{
    lemma_url_len_of_prefix(s, 0);
    let n = url_len(s, 0);
    assert(s.take(n).take(n) == s.take(n));
}

proof fn lemma_url_len_of_prefix(s: Seq<char>, depth: int)
    ensures
        0 <= url_len(s, depth) <= s.len(),
        url_len(s.take(url_len(s, depth)), depth) == url_len(s, depth),
    decreases s.len(),
{
    let n = url_len(s, depth);
    if s.len() == 0 {
    } else if doubled(s, '{') {
        lemma_url_len_of_prefix(s.skip(2), depth + 1);
        let p = s.take(n);
        assert(p.skip(2) == s.skip(2).take(n - 2));
    } else if doubled(s, '}') {
        lemma_url_len_of_prefix(s.skip(2), depth - 1);
        let p = s.take(n);
        assert(p.skip(2) == s.skip(2).take(n - 2));
    } else if white(s[0]) && depth <= 0 {
    } else {
        lemma_url_len_of_prefix(s.skip(1), depth);
        let p = s.take(n);
        assert(p.skip(1) == s.skip(1).take(n - 1));
        assert(p.len() >= 2 ==> p[1] == s[1]);
    }
}

/// Law: in a text without double braces that open, the URL is all up to the first
/// white space.
pub proof fn law_url_without_placeholders(s: Seq<char>)
    requires
        without_braces(s),
    ensures
        url_of(s) == s.take(solid_run(s)),
{
    lemma_url_len_without_placeholders(s, 0);
}

proof fn lemma_url_len_without_placeholders(s: Seq<char>, depth: int)
    requires
        without_braces(s),
        depth <= 0,
    ensures
        url_len(s, depth) == solid_run(s),
    decreases s.len(),
{
    if s.len() == 0 {
    } else if doubled(s, '}') {
        lemma_without_braces_behind(s, 2);
        lemma_url_len_without_placeholders(s.skip(2), depth - 1);
        assert(s.skip(1).skip(1) == s.skip(2));
        assert(s.skip(1)[0] == '}');
        assert(solid_run(s.skip(1)) == 1 + solid_run(s.skip(1).skip(1)));
        assert(solid_run(s) == 1 + solid_run(s.skip(1)));
    } else {
        assert(!doubled(s, '{'));
        if !white(s[0]) {
            lemma_without_braces_behind(s, 1);
            lemma_url_len_without_placeholders(s.skip(1), depth);
        }
    }
}

proof fn lemma_without_braces_behind(s: Seq<char>, k: int)
    requires
        without_braces(s),
        0 <= k <= s.len(),
    ensures
        without_braces(s.skip(k)),
{
    let r = s.skip(k);
    assert forall|i: int| 0 <= i < r.len() - 1 && (#[trigger] r[i]) == '{' implies r[i + 1]
        != '{' by {
        assert(s[i + k] == '{');
        assert(r[i + 1] == s[i + k + 1]);
    }
}

proof fn lemma_methods(k: int)
    requires
        0 <= k < methods().len(),
    ensures
        methods()[k].len() > 0,
        solid(methods()[k]),
        free_of(methods()[k], ' '),
{
    reveal_strlit("GET");
    reveal_strlit("POST");
    reveal_strlit("PUT");
    reveal_strlit("DELETE");
    reveal_strlit("PATCH");
    reveal_strlit("HEAD");
    reveal_strlit("OPTIONS");
    reveal_strlit("TRACE");
    reveal_strlit("CONNECT");
}

/// Whether `url` is a URL as a whole: not empty, without white space at its ends
/// or outside double braces.
pub open spec fn whole_url(url: Seq<char>) -> bool {
    url.len() > 0 && trimmed(url) == url && url_of(url) == url
}

/// Law: a text without white space and without double braces that open is a URL as
/// a whole.
pub proof fn law_solid_url(url: Seq<char>)
    requires
        url.len() > 0,
        solid(url),
        without_braces(url),
    ensures
        whole_url(url),
{
    lemma_solid_is_trimmed(url);
    law_url_without_placeholders(url);
    lemma_solid_run_is(url, url.len() as int);
    assert(url.take(url.len() as int) == url);
}

/// Law: a line that is made of a method, a space and a URL is the request line
/// of that method and that URL.
pub proof fn law_request_line(k: int, url: Seq<char>)
    requires
        0 <= k < methods().len(),
        whole_url(url),
    ensures
        request_line(methods()[k] + seq![' '] + url) == Some((methods()[k], url)),
{
    let m = methods()[k];
    let line = m + seq![' '] + url;
    lemma_methods(k);
    assert(line[0] == m[0]);
    assert(trimmed_start(line) == line);
    assert(line.skip(m.len() as int + 1) == url);
    assert(m.push(' ') == line.subrange(0, m.len() as int + 1));
    lemma_request_line_from(k, url, 0);
}

proof fn lemma_request_line_from(k: int, url: Seq<char>, j: int)
    requires
        0 <= j <= k < methods().len(),
        url_with(methods()[k] + seq![' '] + url, methods()[k]) == Some(url),
        trimmed_start(methods()[k] + seq![' '] + url) == methods()[k] + seq![' '] + url,
    ensures
        request_line_from(methods()[k] + seq![' '] + url, j) == Some((methods()[k], url)),
    decreases k - j,
{
    let m = methods()[k];
    let o = methods()[j];
    let line = m + seq![' '] + url;
    lemma_methods(k);
    lemma_methods(j);
    if j < k {
        if o.push(' ').is_prefix_of(line) {
            let a = o.len() as int;
            let b = m.len() as int;
            assert(o.push(' ') == line.subrange(0, a + 1));
            assert(line[a] == o.push(' ')[a]);
            if a < b {
                assert(line[a] == m[a]);
            } else if a > b {
                assert(line[b] == o.push(' ')[b]);
                assert(o[b] == ' ');
            } else {
                assert(o =~= m) by {
                    assert forall|i: int| 0 <= i < a implies o[i] == m[i] by {
                        assert(o.push(' ')[i] == line.subrange(0, a + 1)[i]);
                    }
                }
            }
        } else {
            lemma_request_line_from(k, url, j + 1);
        }
    }
}

/// Law: a request line names one of the methods, and its URL is not empty.
pub proof fn law_request_line_parts(line: Seq<char>)
    ensures
        request_line(line) matches Some((method, url)) ==> methods().contains(method) && url.len()
            > 0,
{
    lemma_request_line_parts(line, 0);
}

proof fn lemma_request_line_parts(line: Seq<char>, k: int)
    ensures
        request_line_from(line, k) matches Some((method, url)) ==> methods().contains(method)
            && url.len() > 0,
    decreases methods().len() - k,
{
    if 0 <= k < methods().len() {
        assert(methods().contains(methods()[k]));
        lemma_request_line_parts(line, k + 1);
    }
}

proof fn lemma_separator_is_not_blank(line: Seq<char>)
    requires
        separator(line),
    ensures
        !blank(line),
{
    reveal_strlit("###");
    assert(line[0] == line.subrange(0, 3)[0]);
    lemma_trimmed_end(line);
    assert(trimmed_start(line) == line);
    if trimmed_end(line).len() == 0 {
        assert(white(line[0]));
    }
}

proof fn lemma_method_prefix(j: int, k: int, rest: Seq<char>)
    requires
        0 <= j < methods().len(),
        0 <= k < methods().len(),
        methods()[j].push(' ').is_prefix_of(methods()[k] + seq![' '] + rest),
    ensures
        methods()[j] == methods()[k],
{
    let m = methods()[k];
    let o = methods()[j];
    let line = m + seq![' '] + rest;
    let a = o.len() as int;
    let b = m.len() as int;
    lemma_methods(k);
    lemma_methods(j);
    assert(o.push(' ') == line.subrange(0, a + 1));
    assert(line[a] == o.push(' ')[a]);
    if a < b {
        assert(line[a] == m[a]);
    } else if a > b {
        assert(line[b] == o.push(' ')[b]);
        assert(o[b] == ' ');
    } else {
        assert forall|i: int| 0 <= i < a implies o[i] == m[i] by {
            assert(o.push(' ')[i] == line.subrange(0, a + 1)[i]);
        }
        assert(o =~= m);
    }
}

/// Law: a line that is made of white space, a method, a space and a text is a
/// request line if and only if a URL stands in the text behind white space, and
/// then it is that of the method and that URL.
pub proof fn law_request_line_reads(lead: Seq<char>, k: int, rest: Seq<char>)
    requires
        all_white(lead),
        0 <= k < methods().len(),
    ensures
        request_line(lead + (methods()[k] + seq![' '] + rest)) == if url_of(trimmed(rest)).len()
            > 0 {
            Some((methods()[k], url_of(trimmed(rest))))
        } else {
            None
        },
{
    let m = methods()[k];
    let t = m + seq![' '] + rest;
    lemma_methods(k);
    assert(t[0] == m[0]);
    lemma_trimmed_start_of_two(lead, t);
    lemma_trimmed_start(lead);
    if trimmed_start(lead).len() > 0 {
        assert(trimmed_start(lead)[0] == lead[lead.len() - trimmed_start(lead).len()]);
    }
    assert(trimmed_start(t) == t);
    assert(t.skip(m.len() as int + 1) == rest);
    assert(m.push(' ') == t.subrange(0, m.len() as int + 1));
    lemma_request_line_of(lead + t, k, rest, 0);
}

proof fn lemma_request_line_of(line: Seq<char>, k: int, rest: Seq<char>, j: int)
    requires
        0 <= k < methods().len(),
        trimmed_start(line) == methods()[k] + seq![' '] + rest,
        url_with(line, methods()[k]) == if url_of(trimmed(rest)).len() > 0 {
            Some(url_of(trimmed(rest)))
        } else {
            None
        },
        0 <= j <= methods().len(),
    ensures
        j <= k || url_of(trimmed(rest)).len() == 0 ==> request_line_from(line, j) == if url_of(
            trimmed(rest),
        ).len() > 0 {
            Some((methods()[k], url_of(trimmed(rest))))
        } else {
            None
        },
    decreases methods().len() - j,
{
    if j < methods().len() {
        if methods()[j].push(' ').is_prefix_of(trimmed_start(line)) {
            lemma_method_prefix(j, k, rest);
        }
        lemma_request_line_of(line, k, rest, j + 1);
    }
}

/// Law: a request line is made of white space, a method, a space, and a text in
/// which its URL stands behind white space.
pub proof fn law_request_line_shape(line: Seq<char>)
    ensures
        request_line(line) matches Some((method, url)) ==> methods().contains(method) && exists|
            rest: Seq<char>,
        |
            trimmed_start(line) == #[trigger] (method + seq![' '] + rest) && url == url_of(
                trimmed(rest),
            ),
{
    lemma_request_line_shape(line, 0);
}

proof fn lemma_request_line_shape(line: Seq<char>, k: int)
    ensures
        request_line_from(line, k) matches Some((method, url)) ==> methods().contains(method)
            && exists|rest: Seq<char>|
            trimmed_start(line) == #[trigger] (method + seq![' '] + rest) && url == url_of(
                trimmed(rest),
            ),
    decreases methods().len() - k,
{
    if 0 <= k < methods().len() {
        let m = methods()[k];
        if url_with(line, m) is Some {
            assert(methods().contains(m));
            let t = trimmed_start(line);
            let n = m.len() as int + 1;
            let rest = t.skip(n);
            assert(t == t.subrange(0, n) + rest);
            assert(m.push(' ') == m + seq![' ']);
            assert(t == m + seq![' '] + rest);
        } else {
            lemma_request_line_shape(line, k + 1);
        }
    }
}

/// Whether no two closing braces stand side by side in `t`.
pub open spec fn without_closing_braces(t: Seq<char>) -> bool {
    forall|i: int| 0 <= i < t.len() - 1 && (#[trigger] t[i]) == '}' ==> t[i + 1] != '}'
}

proof fn lemma_url_len_behind(p: Seq<char>, r: Seq<char>, depth: int)
    requires
        without_braces(p),
        without_closing_braces(p),
        depth > 0 || solid(p),
        p.len() > 0 && r.len() > 0 && p.last() == '{' ==> r[0] != '{',
        p.len() > 0 && r.len() > 0 && p.last() == '}' ==> r[0] != '}',
    ensures
        url_len(p + r, depth) == p.len() + url_len(r, depth),
    decreases p.len(),
{
    if p.len() == 0 {
        assert(p + r == r);
    } else {
        let t = p + r;
        let q = p.skip(1);
        assert(t.skip(1) == q + r);
        lemma_without_braces_behind(p, 1);
        assert forall|i: int| 0 <= i < q.len() - 1 && (#[trigger] q[i]) == '}' implies q[i + 1]
            != '}' by {
            assert(p[i + 1] == '}');
            assert(q[i + 1] == p[i + 2]);
        }
        if p.len() > 1 {
            assert(t[1] == p[1]);
            assert(q.last() == p.last());
        } else if r.len() > 0 {
            assert(t[1] == r[0]);
        }
        assert(t[0] == p[0]);
        assert(!doubled(t, '{') && !doubled(t, '}'));
        lemma_url_len_behind(q, r, depth);
    }
}

/// Law: a placeholder belongs to the URL, with the white space in it, and the URL
/// goes on behind it.
pub proof fn law_url_with_placeholder(p: Seq<char>, inner: Seq<char>, rest: Seq<char>)
    requires
        solid(p) && without_braces(p) && without_closing_braces(p),
        p.len() > 0 ==> p.last() != '{',
        without_braces(inner) && without_closing_braces(inner),
        inner.len() > 0 ==> inner.last() != '}',
    ensures
        url_of(p + (seq!['{', '{'] + (inner + (seq!['}', '}'] + rest)))) == p + (seq!['{', '{'] + (
        inner + (seq!['}', '}'] + url_of(rest)))),
{
    let closed = seq!['}', '}'] + rest;
    let behind = inner + closed;
    let open = seq!['{', '{'] + behind;
    let t = p + open;
    lemma_url_len_behind(p, open, 0);
    assert(open.skip(2) == behind);
    assert(url_len(open, 0) == 2 + url_len(behind, 1));
    lemma_url_len_behind(inner, closed, 1);
    assert(closed.skip(2) == rest);
    assert(url_len(closed, 1) == 2 + url_len(rest, 0));
    let n = url_len(rest, 0);
    lemma_url_len_of_prefix(rest, 0);
    assert(t.take(url_len(t, 0)) == p + (seq!['{', '{'] + (inner + (seq!['}', '}'] + rest.take(
        n,
    )))));
}

/// Law: where a placeholder is not closed, all that follows belongs to the URL.
pub proof fn law_url_with_open_placeholder(p: Seq<char>, inner: Seq<char>)
    requires
        solid(p) && without_braces(p) && without_closing_braces(p),
        p.len() > 0 ==> p.last() != '{',
        without_braces(inner) && without_closing_braces(inner),
    ensures
        url_of(p + (seq!['{', '{'] + inner)) == p + (seq!['{', '{'] + inner),
{
    let open = seq!['{', '{'] + inner;
    let none = Seq::<char>::empty();
    lemma_url_len_behind(p, open, 0);
    assert(open.skip(2) == inner);
    lemma_url_len_behind(inner, none, 1);
    assert(inner + none == inner);
    assert(url_len(none, 1) == 0);
    let t = p + open;
    assert(t.take(t.len() as int) == t);
}

/// Law: where the URL ends, by the number of double braces that are open: a doubled
/// brace opens or closes and belongs to the URL, white space outside ends it, and any
/// other character belongs to it.
pub proof fn law_url_ends(c: char, s: Seq<char>, depth: int)
    ensures
        url_len(Seq::<char>::empty(), depth) == 0,
        url_len(seq!['{', '{'] + s, depth) == 2 + url_len(s, depth + 1),
        url_len(seq!['}', '}'] + s, depth) == 2 + url_len(s, depth - 1),
        white(c) ==> url_len(seq![c] + s, depth) == if depth <= 0 {
            0
        } else {
            1 + url_len(s, depth)
        },
        !white(c) && (c == '{' || c == '}' ==> s.len() == 0 || s[0] != c) ==> url_len(
            seq![c] + s,
            depth,
        ) == 1 + url_len(s, depth),
{
    assert((seq!['{', '{'] + s).skip(2) == s);
    assert((seq!['}', '}'] + s).skip(2) == s);
    assert((seq![c] + s).skip(1) == s);
    assert(s.len() > 0 ==> (seq![c] + s)[1] == s[0]);
}

/// Law: a line is split at its first colon into the name and the value of a header,
/// whatever white space, none included, stands around them.
pub proof fn law_header(name: Seq<char>, value: Seq<char>)
    requires
        free_of(name, ':'),
    ensures
        header_of(name + seq![':'] + value) == (trimmed(name), trimmed(value)),
        header_line(name + seq![':'] + value) <==> !separator(name + seq![':'] + value),
{
    let line = name + seq![':'] + value;
    let n = name.len() as int;
    assert(line[n] == ':');
    assert forall|i: int| 0 <= i < n implies #[trigger] line[i] != ':' by {
        assert(line[i] == name[i]);
    }
    lemma_first_is(line, ':', n);
    assert(line.take(n) == name);
    assert(line.skip(n + 1) == value);
    lemma_not_blank(line, n);
}

/// Law: a blank line, a separator and a line without a colon are no headers.
pub proof fn law_no_header(line: Seq<char>)
    ensures
        all_white(line) ==> !header_line(line),
        free_of(line, ':') ==> !header_line(line),
        "###"@.is_prefix_of(line) ==> !header_line(line),
{
    if all_white(line) {
        lemma_trimmed_is(line, 0, 0);
    }
    if free_of(line, ':') {
        lemma_first_is(line, ':', line.len() as int);
    }
}

proof fn lemma_not_blank(line: Seq<char>, n: int)
    requires
        0 <= n < line.len(),
        !white(line[n]),
    ensures
        !blank(line),
{
    lemma_trimmed_start(line);
    let s = trimmed_start(line);
    lemma_trimmed_end(s);
    let a = line.len() - s.len();
    if a <= n {
        assert(s[n - a] == line[n]);
    } else {
        assert(white(line[n]));
    }
}

/// The line of a header: its name, a colon and its value.
pub open spec fn line_of_header(header: (Seq<char>, Seq<char>)) -> Seq<char> {
    header.0 + seq![':'] + header.1
}

/// A request line, the lines of headers, and further lines.
pub open spec fn lines_of(
    line: Seq<char>,
    headers: Seq<(Seq<char>, Seq<char>)>,
    rest: Seq<Seq<char>>,
) -> Seq<Seq<char>> {
    seq![line] + Seq::new(headers.len(), |i: int| line_of_header(headers[i])) + rest
}

/// Law: behind a request line stand its headers, each with its trimmed name and
/// value, up to a line that is blank or holds no colon. All that stands from there
/// on is the body, as the lines are, but for white space at its ends. Without any
/// other character there is none.
pub proof fn law_request_reads(
    line: Seq<char>,
    headers: Seq<(Seq<char>, Seq<char>)>,
    rest: Seq<Seq<char>>,
)
    requires
        request_line(line) is Some,
        forall|i: int|
            0 <= i < headers.len() ==> free_of((#[trigger] headers[i]).0, ':') && !separator(
                line_of_header(headers[i]),
            ),
        rest.len() > 0 ==> all_white(rest[0]) || free_of(rest[0], ':'),
        forall|i: int| 0 <= i < rest.len() ==> !separator(#[trigger] rest[i]),
    ensures
        request_in(lines_of(line, headers, rest), 0) matches Some(request) && {
            &&& Some((request.method, request.url)) == request_line(line)
            &&& request.headers == Seq::new(
                headers.len(),
                |i: int| (trimmed(headers[i].0), trimmed(headers[i].1)),
            )
            &&& request.body == if trimmed(joined(rest)).len() > 0 {
                Some(trimmed(joined(rest)))
            } else {
                None
            }
        },
{
    let lines = lines_of(line, headers, rest);
    let n = headers.len() as int;
    assert(lines[0] == line);
    assert forall|i: int| 1 <= i < n + 1 implies (#[trigger] lines[i]) == line_of_header(
        headers[i - 1],
    ) by {}
    assert forall|i: int| n + 1 <= i < lines.len() implies (#[trigger] lines[i]) == rest[i - n
        - 1] by {}
    if rest.len() > 0 {
        law_no_header(rest[0]);
        assert(lines[n + 1] == rest[0]);
    }
    lemma_headers_end_at(lines, headers, 1);
    let expected = Seq::new(n as nat, |i: int| (trimmed(headers[i].0), trimmed(headers[i].1)));
    assert(headers_between(lines, 1, n + 1) =~= expected) by {
        assert forall|j: int| 0 <= j < n implies header_of(lines[1 + j]) == expected[j] by {
            assert(lines[1 + j] == line_of_header(headers[1 + j - 1]));
            law_header(headers[j].0, headers[j].1);
        }
    }
    let b = body_start(lines, 1);
    assert forall|i: int| b <= i < lines.len() implies !separator(#[trigger] lines[i]) by {
        assert(lines[i] == rest[i - n - 1]);
    }
    lemma_body_to_the_end(lines, b);
    if b == n + 1 {
        assert(lines.subrange(b, lines.len() as int) == rest);
    } else {
        assert(lines.subrange(b, lines.len() as int) == rest.skip(1));
        lemma_blank_line_before(rest);
    }
}

/// A blank line before a body changes nothing but white space at its start.
proof fn lemma_blank_line_before(rest: Seq<Seq<char>>)
    requires
        rest.len() > 0,
        blank(rest[0]),
    ensures
        trimmed(joined(rest)) == trimmed(joined(rest.skip(1))),
{
    let none = Seq::<char>::empty();
    let line = rest[0];
    lemma_trimmed_start(line);
    lemma_trimmed_end(trimmed_start(line));
    assert forall|i: int| 0 <= i < line.len() implies white(#[trigger] line[i]) by {
        lemma_blank_is_white(line, i);
    }
    if rest.len() == 1 {
        assert(joined(rest.skip(1)) == none);
        lemma_trimmed_is(line, 0, 0);
    } else {
        lemma_joined_from_front(rest);
        let lead = line + seq!['\n'];
        assert forall|i: int| 0 <= i < lead.len() implies white(#[trigger] lead[i]) by {
            if i < line.len() {
                assert(lead[i] == line[i]);
            }
        }
        lemma_trimmed_padded(lead, joined(rest.skip(1)), none);
        assert(lead + joined(rest.skip(1)) + none == joined(rest));
    }
}

proof fn lemma_blank_is_white(line: Seq<char>, i: int)
    requires
        blank(line),
        0 <= i < line.len(),
    ensures
        white(line[i]),
{
    if !white(line[i]) {
        lemma_not_blank(line, i);
    }
}

proof fn lemma_headers_end_at(
    lines: Seq<Seq<char>>,
    headers: Seq<(Seq<char>, Seq<char>)>,
    i: int,
)
    requires
        1 <= i <= headers.len() + 1 <= lines.len(),
        forall|j: int|
            0 <= j < headers.len() ==> free_of((#[trigger] headers[j]).0, ':') && !separator(
                line_of_header(headers[j]),
            ),
        forall|j: int|
            1 <= j < headers.len() + 1 ==> (#[trigger] lines[j]) == line_of_header(headers[j - 1]),
        headers.len() + 1 < lines.len() ==> !header_line(lines[headers.len() as int + 1]),
    ensures
        headers_end(lines, i) == headers.len() + 1,
    decreases headers.len() + 1 - i,
{
    if i < headers.len() + 1 {
        assert(lines[i] == line_of_header(headers[i - 1]));
        law_header(headers[i - 1].0, headers[i - 1].1);
        lemma_headers_end_at(lines, headers, i + 1);
    }
}

/// Law: the methods of request lines, the lines that end a request, which start
/// with three number signs, and the blank ones, which hold only white space.
pub proof fn law_special_lines(line: Seq<char>)
    ensures
        methods() == seq![
            "GET"@,
            "POST"@,
            "PUT"@,
            "DELETE"@,
            "PATCH"@,
            "HEAD"@,
            "OPTIONS"@,
            "TRACE"@,
            "CONNECT"@,
        ],
        separator(line) <==> line.len() >= 3 && line[0] == '#' && line[1] == '#' && line[2] == '#',
        blank(line) <==> all_white(line),
{
    reveal_strlit("###");
    if separator(line) {
        assert(line.subrange(0, 3) == "###"@);
        assert(line[0] == line.subrange(0, 3)[0]);
        assert(line[1] == line.subrange(0, 3)[1]);
        assert(line[2] == line.subrange(0, 3)[2]);
    }
    if line.len() >= 3 && line[0] == '#' && line[1] == '#' && line[2] == '#' {
        assert(line.subrange(0, 3) =~= "###"@);
    }
    if blank(line) {
        assert forall|i: int| 0 <= i < line.len() implies white(#[trigger] line[i]) by {
            lemma_blank_is_white(line, i);
        }
    }
    if all_white(line) {
        lemma_trimmed_is(line, 0, 0);
    }
}

/// Law: there is a request at a line if and only if it is a request line.
pub proof fn law_request_starts(lines: Seq<Seq<char>>, i: int)
    ensures
        request_in(lines, i) is Some <==> 0 <= i < lines.len() && request_line(lines[i]) is Some,
{
}

/// Law: what stands from a separator on has no part in the requests before it.
pub proof fn law_requests_are_apart(lines: Seq<Seq<char>>, start: int, k: int)
    requires
        0 <= start < k < lines.len(),
        separator(lines[k]),
    ensures
        request_in(lines, start) == request_in(lines.take(k), start),
{
    let p = lines.take(k);
    lemma_separator_is_not_blank(lines[k]);
    lemma_headers_end_before(lines, start + 1, k);
    let end = headers_end(lines, start + 1);
    assert(headers_between(lines, start + 1, end) == headers_between(p, start + 1, end));
    let b = body_start(lines, start + 1);
    assert(b == body_start(p, start + 1));
    lemma_body_end_before(lines, b, k);
    let e = body_end(lines, b);
    assert(lines.subrange(b, e) == p.subrange(b, e));
}

proof fn lemma_headers_end_before(lines: Seq<Seq<char>>, i: int, k: int)
    requires
        0 <= i <= k < lines.len(),
        separator(lines[k]),
    ensures
        i <= headers_end(lines, i) <= k,
        headers_end(lines, i) == headers_end(lines.take(k), i),
    decreases k - i,
{
    if i < k && header_line(lines[i]) {
        lemma_headers_end_before(lines, i + 1, k);
    }
}

proof fn lemma_body_end_before(lines: Seq<Seq<char>>, i: int, k: int)
    requires
        0 <= i <= k < lines.len(),
        separator(lines[k]),
    ensures
        i <= body_end(lines, i) <= k,
        body_end(lines, i) == body_end(lines.take(k), i),
    decreases k - i,
{
    if i < k && !separator(lines[i]) {
        lemma_body_end_before(lines, i + 1, k);
    }
}

/// A header as a line: the name, a colon, a space and the value.
pub open spec fn written_header(header: (Seq<char>, Seq<char>)) -> Seq<char> {
    header.0 + seq![':', ' '] + header.1
}

/// A request as lines: the request line, the headers, an empty line and the body.
pub open spec fn written_request(
    method: Seq<char>,
    url: Seq<char>,
    headers: Seq<(Seq<char>, Seq<char>)>,
    body: Seq<Seq<char>>,
) -> Seq<Seq<char>> {
    seq![method + seq![' '] + url] + headers.map_values(
        |h: (Seq<char>, Seq<char>)| written_header(h),
    ) + seq![Seq::<char>::empty()] + body
}

/// Whether a header can be written as a line: no white space at the ends of the
/// name and the value, no colon in the name, and no name that starts like a
/// separator.
pub open spec fn writable_header(header: (Seq<char>, Seq<char>)) -> bool {
    &&& trimmed(header.0) == header.0
    &&& trimmed(header.1) == header.1
    &&& free_of(header.0, ':')
    &&& !separator(header.0)
}

proof fn lemma_written_header(h: (Seq<char>, Seq<char>))
    requires
        writable_header(h),
    ensures
        header_line(written_header(h)),
        header_of(written_header(h)) == h,
{
    let (name, value) = h;
    let line = written_header(h);
    let n = name.len() as int;
    reveal_strlit("###");
    assert(line[n] == ':');
    assert forall|i: int| 0 <= i < n implies #[trigger] line[i] != ':' by {
        assert(line[i] == name[i]);
    }
    lemma_first_is(line, ':', n);
    assert(line.take(n) == name);
    let rest = line.skip(n + 1);
    assert(rest == seq![' '] + value);
    lemma_trimmed_ends(value);
    if value.len() == 0 {
        lemma_trimmed_is(rest, 1, 1);
        assert(rest.subrange(1, 1) == value);
    } else {
        lemma_trimmed_is(rest, 1, rest.len() as int);
        assert(rest.subrange(1, rest.len() as int) == value);
    }
    assert(!blank(line)) by {
        if blank(line) {
            lemma_trimmed_start(line);
            lemma_trimmed_end(trimmed_start(line));
            let s = trimmed_start(line);
            let a = line.len() - s.len();
            if a <= n {
                assert(s[n - a] == line[n]);
                assert(white(s[n - a]));
            } else {
                assert(white(line[n]));
            }
        }
    }
    if separator(line) {
        let start = line.subrange(0, 3);
        assert(start == "###"@);
        if n >= 3 {
            assert(name.subrange(0, 3) == start);
        } else {
            assert(start[n] == line[n]);
            assert("###"@[n] == '#');
        }
    }
}

/// Law: a request that is written as lines reads back from them.
pub proof fn law_written_request(
    k: int,
    url: Seq<char>,
    headers: Seq<(Seq<char>, Seq<char>)>,
    body: Seq<Seq<char>>,
)
    requires
        0 <= k < methods().len(),
        whole_url(url),
        forall|i: int| 0 <= i < headers.len() ==> writable_header(#[trigger] headers[i]),
        forall|i: int| 0 <= i < body.len() ==> !separator(#[trigger] body[i]),
        trimmed(joined(body)) == joined(body),
    ensures
        request_in(written_request(methods()[k], url, headers, body), 0) == Some(
            Request {
                method: methods()[k],
                url,
                headers,
                body: if joined(body).len() > 0 {
                    Some(joined(body))
                } else {
                    None
                },
            },
        ),
{
    let lines = written_request(methods()[k], url, headers, body);
    let n = headers.len() as int;
    law_request_line(k, url);
    assert(lines[0] == methods()[k] + seq![' '] + url);
    assert forall|i: int| 1 <= i < n + 1 implies (#[trigger] lines[i]) == written_header(
        headers[i - 1],
    ) by {}
    assert(lines[n + 1] == Seq::<char>::empty());
    assert(blank(lines[n + 1]));
    lemma_written_headers_end(lines, headers, 1);
    assert(headers_between(lines, 1, n + 1) =~= headers) by {
        assert forall|j: int| 0 <= j < n implies header_of(lines[1 + j]) == headers[j] by {
            assert(lines[1 + j] == written_header(headers[1 + j - 1]));
            lemma_written_header(headers[j]);
        }
    }
    let b = n + 2;
    assert(body_start(lines, 1) == b);
    assert forall|i: int| b <= i < lines.len() implies !separator(#[trigger] lines[i]) by {
        assert(lines[i] == body[i - b]);
    }
    lemma_body_to_the_end(lines, b);
    assert(lines.subrange(b, lines.len() as int) == body);
}

proof fn lemma_written_headers_end(
    lines: Seq<Seq<char>>,
    headers: Seq<(Seq<char>, Seq<char>)>,
    i: int,
)
    requires
        1 <= i <= headers.len() + 1 < lines.len(),
        forall|j: int| 0 <= j < headers.len() ==> writable_header(#[trigger] headers[j]),
        forall|j: int|
            1 <= j < headers.len() + 1 ==> (#[trigger] lines[j]) == written_header(headers[j - 1]),
        blank(lines[headers.len() as int + 1]),
    ensures
        headers_end(lines, i) == headers.len() + 1,
    decreases headers.len() + 1 - i,
{
    if i < headers.len() + 1 {
        assert(lines[i] == written_header(headers[i - 1]));
        lemma_written_header(headers[i - 1]);
        lemma_written_headers_end(lines, headers, i + 1);
    }
}

proof fn lemma_body_to_the_end(lines: Seq<Seq<char>>, i: int)
    requires
        0 <= i <= lines.len(),
        forall|j: int| i <= j < lines.len() ==> !separator(#[trigger] lines[j]),
    ensures
        body_end(lines, i) == lines.len(),
    decreases lines.len() - i,
{
    if i < lines.len() {
        lemma_body_to_the_end(lines, i + 1);
    }
}

/// Law: lines that are joined into a text are the lines of that text.
pub proof fn law_joined_lines(lines: Seq<Seq<char>>)
    requires
        forall|i: int| 0 <= i < lines.len() ==> free_of(#[trigger] lines[i], '\n'),
        forall|i: int|
            0 <= i < lines.len() - 1 ==> without_return(#[trigger] lines[i]) == lines[i],
        lines.len() > 0 ==> lines.last().len() > 0,
    ensures
        lines_in(joined(lines)) == lines,
    decreases lines.len(),
{
    if lines.len() == 1 {
        let line = lines[0];
        lemma_first_is(line, '\n', line.len() as int);
        assert(lines_in(line) =~= lines);
    } else if lines.len() > 1 {
        let rest = lines.skip(1);
        let line = lines[0];
        let text = line + seq!['\n'] + joined(rest);
        let n = line.len() as int;
        assert forall|i: int| 0 <= i < rest.len() implies free_of(#[trigger] rest[i], '\n') by {
            assert(rest[i] == lines[i + 1]);
        }
        assert forall|i: int| 0 <= i < rest.len() - 1 implies without_return(#[trigger] rest[i])
            == rest[i] by {
            assert(rest[i] == lines[i + 1]);
        }
        law_joined_lines(rest);
        lemma_joined_from_front(lines);
        assert forall|i: int| 0 <= i < n implies #[trigger] text[i] != '\n' by {
            assert(text[i] == line[i]);
        }
        lemma_first_is(text, '\n', n);
        assert(text.take(n) == line);
        assert(text.skip(n + 1) == joined(rest));
        assert(without_return(lines[0]) == lines[0]);
        assert(lines_in(text) == seq![line] + lines_in(joined(rest)));
        assert(lines =~= seq![line] + rest);
    }
}

proof fn lemma_joined_from_front(lines: Seq<Seq<char>>)
    requires
        lines.len() > 1,
    ensures
        joined(lines) == lines[0] + seq!['\n'] + joined(lines.skip(1)),
    decreases lines.len(),
{
    let p = lines.drop_last();
    let rest = lines.skip(1);
    if lines.len() == 2 {
        assert(joined(p) == lines[0]);
        assert(joined(rest) == lines[1]);
    } else {
        lemma_joined_from_front(p);
        assert(p.skip(1) == rest.drop_last());
        assert(joined(rest) == joined(rest.drop_last()) + seq!['\n'] + rest.last());
        assert(joined(lines) =~= lines[0] + seq!['\n'] + joined(rest));
    }
}

/// Law: text above a request, ended by a line feed, does not change the request.
pub proof fn law_text_above(t: Seq<char>, s: Seq<char>, i: int)
    requires
        0 <= i,
    ensures
        request_in(lines_in(t.push('\n') + s), lines_in(t.push('\n')).len() + i) == request_in(
            lines_in(s),
            i,
        ),
{
    lemma_lines_of_two_texts(t, s);
    lemma_request_below(lines_in(t.push('\n')), lines_in(s), i);
}

proof fn lemma_request_below(a: Seq<Seq<char>>, b: Seq<Seq<char>>, i: int)
    requires
        0 <= i,
    ensures
        request_in(a + b, a.len() + i) == request_in(b, i),
{
    let lines = a + b;
    let n = a.len() as int;
    if i < b.len() {
        assert(lines[n + i] == b[i]);
        lemma_headers_end_below(a, b, i + 1);
        let end = headers_end(b, i + 1);
        assert(headers_between(lines, n + i + 1, n + end) == headers_between(b, i + 1, end));
        assert(end < b.len() ==> lines[n + end] == b[end]);
        let start = body_start(b, i + 1);
        assert(body_start(lines, n + i + 1) == n + start);
        lemma_body_end_below(a, b, start);
        let stop = body_end(b, start);
        assert(lines.subrange(n + start, n + stop) == b.subrange(start, stop));
    }
}

proof fn lemma_headers_end_below(a: Seq<Seq<char>>, b: Seq<Seq<char>>, i: int)
    requires
        0 <= i <= b.len(),
    ensures
        i <= headers_end(b, i) <= b.len(),
        headers_end(a + b, a.len() + i) == a.len() + headers_end(b, i),
    decreases b.len() - i,
{
    if i < b.len() {
        assert((a + b)[a.len() + i] == b[i]);
        if header_line(b[i]) {
            lemma_headers_end_below(a, b, i + 1);
        }
    }
}

proof fn lemma_body_end_below(a: Seq<Seq<char>>, b: Seq<Seq<char>>, i: int)
    requires
        0 <= i <= b.len(),
    ensures
        i <= body_end(b, i) <= b.len(),
        body_end(a + b, a.len() + i) == a.len() + body_end(b, i),
    decreases b.len() - i,
{
    if i < b.len() {
        assert((a + b)[a.len() + i] == b[i]);
        if !separator(b[i]) {
            lemma_body_end_below(a, b, i + 1);
        }
    }
}

/// `t` with a carriage return before each line feed.
pub open spec fn with_returns(t: Seq<char>) -> Seq<char>
    decreases t.len(),
{
    if t.len() == 0 {
        Seq::empty()
    } else if t[0] == '\n' {
        seq!['\r', '\n'] + with_returns(t.skip(1))
    } else {
        seq![t[0]] + with_returns(t.skip(1))
    }
}

/// Law: a text in which a bare line feed ends each line has the same lines, and so
/// the same requests, with a carriage return before each line feed.
pub proof fn law_line_endings(t: Seq<char>, i: int)
    requires
        forall|j: int| 0 <= j < t.len() - 1 && (#[trigger] t[j]) == '\r' ==> t[j + 1] != '\n',
    ensures
        lines_in(with_returns(t)) == lines_in(t),
        request_in(lines_in(with_returns(t)), i) == request_in(lines_in(t), i),
    decreases t.len(),
{
    let w = with_returns(t);
    let k = first(t, '\n');
    lemma_first(t, '\n');
    lemma_with_returns(t);
    if k < t.len() {
        let head = t.take(k);
        let rest = t.skip(k + 1);
        assert forall|j: int| 0 <= j < rest.len() - 1 && (
        #[trigger] rest[j]) == '\r' implies rest[j + 1] != '\n' by {
            assert(t[j + k + 1] == '\r');
            assert(rest[j + 1] == t[j + k + 2]);
        }
        law_line_endings(rest, i);
        assert forall|j: int| 0 <= j < k + 1 implies #[trigger] w[j] != '\n' by {
            if j < k {
                assert(w[j] == t[j]);
            }
        }
        lemma_first_is(w, '\n', k + 1);
        assert(w.take(k + 1) == head.push('\r'));
        assert(head.push('\r').drop_last() == head);
        assert(w.skip(k + 2) == with_returns(rest));
        if k > 0 {
            assert(head.last() == t[k - 1]);
        }
        assert(without_return(head) == head);
        assert(lines_in(w) == seq![head] + lines_in(with_returns(rest)));
        assert(lines_in(t) == seq![head] + lines_in(rest));
    }
}

proof fn lemma_with_returns(t: Seq<char>)
    ensures
        ({
            let k = first(t, '\n');
            with_returns(t) == if k < t.len() {
                t.take(k) + seq!['\r', '\n'] + with_returns(t.skip(k + 1))
            } else {
                t
            }
        }),
    decreases t.len(),
{
    if t.len() > 0 {
        let k = first(t, '\n');
        let rest = t.skip(1);
        lemma_first(rest, '\n');
        if t[0] != '\n' {
            lemma_with_returns(rest);
            if k < t.len() {
                assert(rest.skip(k) == t.skip(k + 1));
                assert(t.take(k) == seq![t[0]] + rest.take(k - 1));
            } else {
                assert(t == seq![t[0]] + rest);
            }
        } else {
            assert(t.take(0) + seq!['\r', '\n'] == seq!['\r', '\n']);
        }
    }
}

/// Law: the body of a request is not empty, and no white space stands at its
/// ends.
pub proof fn law_body_is_trimmed(lines: Seq<Seq<char>>, start: int)
    ensures
        request_in(lines, start) matches Some(request) ==> (request.body matches Some(body)
            ==> body.len() > 0 && trimmed(body) == body),
{
    if request_in(lines, start) is Some {
        let b = body_start(lines, start + 1);
        let text = joined(lines.subrange(b, body_end(lines, b)));
        lemma_trimmed_ends(text);
        lemma_solid_is_trimmed(trimmed(text));
    }
}

} // verus!
