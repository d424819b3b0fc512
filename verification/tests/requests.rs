//! Requests in documents, and the buttons over them.

use http_lsp::documents::{code_lens, did_change, did_close, did_open};
use http_lsp::request::{extract_url, is_http_method_line, method_from_line, parse_request_at};
use http_lsp::store::TextMap;

fn line(method: &str, url: &str) -> Option<(String, String)> {
    Some((method.to_string(), url.to_string()))
}

#[test]
fn url_stops_at_white_space() {
    assert_eq!(extract_url("http://a.b/c d"), "http://a.b/c");
    assert_eq!(extract_url("http://a.b/c\td"), "http://a.b/c");
    assert_eq!(extract_url(""), "");
    assert_eq!(extract_url(" x"), "");
}

#[test]
fn url_keeps_white_space_in_placeholders() {
    assert_eq!(extract_url("{{ host }}/a b"), "{{ host }}/a");
    assert_eq!(extract_url("{{ a {{ b }} c }} d"), "{{ a {{ b }} c }}");
    assert_eq!(extract_url("{{ open"), "{{ open");
    assert_eq!(extract_url("}}{{ a b"), "}}{{");
    assert_eq!(extract_url("{a b}"), "{a");
    assert_eq!(extract_url("{{{ a }}} b"), "{{{ a }}}");
}

#[test]
fn url_of_a_url_is_itself() {
    for s in ["http://x y", "{{ a }} b", "}} {{", "a\u{a0}b"] {
        let url = extract_url(s);
        assert!(s.starts_with(&url));
        assert_eq!(extract_url(&url), url);
    }
}

#[test]
fn single_braces_open_no_placeholder() {
    assert_eq!(extract_url("http://x/{id}/y z"), "http://x/{id}/y");
    assert_eq!(method_from_line("GET http://x/{id}"), line("GET", "http://x/{id}"));
}

#[test]
fn request_lines_name_a_method() {
    let methods = [
        "GET", "POST", "PUT", "DELETE", "PATCH", "HEAD", "OPTIONS", "TRACE", "CONNECT",
    ];
    for m in methods {
        assert_eq!(method_from_line(&format!("{m} http://x")), line(m, "http://x"));
    }
    assert_eq!(method_from_line("  \tGET   http://x HTTP/1.1"), line("GET", "http://x"));
    assert_eq!(method_from_line("GET {{ host }}/x y"), line("GET", "{{ host }}/x"));
}

#[test]
fn other_lines_are_no_request_lines() {
    for s in ["", "GET", "GET ", "GET\thttp://x", "get http://x", "GETS http://x", "x GET http://x"]
    {
        assert_eq!(method_from_line(s), None, "{s:?}");
        assert!(!is_http_method_line(s));
    }
    assert!(is_http_method_line("PUT x"));
}

#[test]
fn request_with_headers_and_body() {
    let text = "# comment\nPOST http://x/y\nContent-Type: text/plain\nX-Time:  a:b \n\n\
        one\ntwo\n\n### next\nGET http://z\n";
    let r = parse_request_at(text, 1).unwrap();
    assert_eq!(r.method, "POST");
    assert_eq!(r.url, "http://x/y");
    assert_eq!(
        r.headers,
        vec![
            ("Content-Type".to_string(), "text/plain".to_string()),
            ("X-Time".to_string(), "a:b".to_string())
        ]
    );
    assert_eq!(r.body.as_deref(), Some("one\ntwo"));
    let z = parse_request_at(text, 9).unwrap();
    assert_eq!(z.url, "http://z");
    assert!(z.headers.is_empty() && z.body.is_none());
}

#[test]
fn no_request_where_none_starts() {
    let text = "# comment\nPOST http://x/y\nA: b";
    assert!(parse_request_at(text, 0).is_none());
    assert!(parse_request_at(text, 2).is_none());
    assert!(parse_request_at(text, 3).is_none());
    assert!(parse_request_at(text, usize::MAX).is_none());
    assert!(parse_request_at("", 0).is_none());
}

#[test]
fn headers_end_at_a_separator() {
    let r = parse_request_at("GET http://x\nA: b\n### next: one\nC: d", 0).unwrap();
    assert_eq!(r.headers, vec![("A".to_string(), "b".to_string())]);
    assert!(r.body.is_none());
}

#[test]
fn a_line_without_a_colon_starts_the_body() {
    let r = parse_request_at("GET http://x\nA: b\nbody\nC: d\n", 0).unwrap();
    assert_eq!(r.headers, vec![("A".to_string(), "b".to_string())]);
    assert_eq!(r.body.as_deref(), Some("body\nC: d"));
}

#[test]
fn an_empty_header_line_is_a_header() {
    let r = parse_request_at("GET http://x\n:\n", 0).unwrap();
    assert_eq!(r.headers, vec![(String::new(), String::new())]);
}

#[test]
fn a_blank_body_is_none() {
    let r = parse_request_at("GET http://x\n\n  \n\t\n", 0).unwrap();
    assert!(r.body.is_none());
    let r = parse_request_at("GET http://x\n\n\r\n  a \r\n b\r\n\n", 0).unwrap();
    assert_eq!(r.body.as_deref(), Some("a \n b"));
}

#[test]
fn what_follows_a_separator_is_no_part_of_a_request() {
    let head = "PUT http://x\nA: b\n\nbody";
    let whole = format!("{head}\n###\nGET http://y\n");
    let a = parse_request_at(head, 0).unwrap();
    let b = parse_request_at(&whole, 0).unwrap();
    assert_eq!((a.method, a.url, a.headers, a.body), (b.method, b.url, b.headers, b.body));
}

#[test]
fn a_written_request_reads_back() {
    let r = parse_request_at("PATCH {{ host }}/a\nX: 1\nY: \n\none\n\ntwo", 0).unwrap();
    assert_eq!(r.method, "PATCH");
    assert_eq!(r.url, "{{ host }}/a");
    assert_eq!(
        r.headers,
        vec![
            ("X".to_string(), "1".to_string()),
            ("Y".to_string(), String::new())
        ]
    );
    assert_eq!(r.body.as_deref(), Some("one\n\ntwo"));
}

#[test]
fn lenses_stand_over_request_lines() {
    let mut docs = TextMap::new();
    let text = "@a = 1\nGET http://ż\n\n###\n  POST http://y x\nGET \n";
    did_open(&mut docs, "file:///a.http".to_string(), text.to_string());
    let lenses = code_lens(&docs, "file:///a.http");
    let places: Vec<(u32, u32, usize)> =
        lenses.iter().map(|l| (l.line, l.end_character, l.index)).collect();
    assert_eq!(places, vec![(1, 13, 1), (4, 17, 4)]);
    for l in &lenses {
        assert_eq!(l.title, "▶ Send Request");
        assert_eq!(l.command, "http-lsp.send");
        assert_eq!(l.uri, "file:///a.http");
        assert!(parse_request_at(text, l.index).is_some());
    }
    assert!(code_lens(&docs, "file:///b.http").is_empty());
}

#[test]
fn documents_open_change_and_close() {
    let mut docs = TextMap::new();
    let uri = "file:///a.http";
    did_open(&mut docs, uri.to_string(), "one".to_string());
    did_open(&mut docs, "file:///b.http".to_string(), "other".to_string());
    did_change(&mut docs, uri.to_string(), &vec![]);
    assert_eq!(docs.get(uri).map(String::as_str), Some("one"));
    did_change(&mut docs, uri.to_string(), &vec!["two".to_string(), "three".to_string()]);
    assert_eq!(docs.get(uri).map(String::as_str), Some("two"));
    did_close(&mut docs, uri);
    assert!(docs.get(uri).is_none());
    assert_eq!(docs.get("file:///b.http").map(String::as_str), Some("other"));
}

fn parts(text: &str, i: usize) -> Option<(String, String, Vec<(String, String)>, Option<String>)> {
    parse_request_at(text, i).map(|r| (r.method, r.url, r.headers, r.body))
}

#[test]
fn text_above_a_request_does_not_change_it() {
    let request = "PUT http://x\nA: b\n\nbody\n### end\n";
    for above in ["", "# comment", "GET http://y\nC: d\n", "a\r", "###\n\n"] {
        let lines = format!("{above}\n").lines().count();
        let whole = format!("{above}\n{request}");
        for i in 0..7 {
            assert_eq!(parts(&whole, lines + i), parts(request, i), "{above:?} {i}");
        }
    }
}

#[test]
fn both_line_endings_give_the_same_request() {
    let text = "# a\nPOST http://x\nA: b\n\none\n two \n\n###\nGET http://y";
    let other = text.replace('\n', "\r\n");
    for i in 0..10 {
        assert_eq!(parts(&other, i), parts(text, i), "{i}");
    }
    assert!(parts(text, 1).is_some());
}
