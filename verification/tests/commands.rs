//! Commands: what is sent, what is answered, and how a response is shown.

use http_lsp::documents::{code_lens, did_open};
use http_lsp::request::{parse_request_at, ParsedRequest};
use http_lsp::response::{format_response, format_response_with};
use http_lsp::session::{
    command_env_names, complete_request, find_method, is_awaited, locate, locate_at, on_command, send_or_refuse,
    show_reply, show_reply_with, step, take_header, take_part, Answer, Argument, Effect, Event, Located, Method,
    Phase, Reply,
};
use http_lsp::store::TextMap;

const URI: &str = "file:///a.http";

fn open(text: &str) -> TextMap {
    let mut docs = TextMap::new();
    did_open(&mut docs, URI.to_string(), text.to_string());
    docs
}

fn arguments(uri: &str, line: u64) -> Vec<Argument> {
    vec![Argument::Text(uri.to_string()), Argument::Number(line)]
}

fn send(docs: &TextMap, line: u64) -> Option<Effect> {
    on_command(docs, &TextMap::new(), "http-lsp.send", &arguments(URI, line))
}

fn message_of(effect: Option<Effect>) -> String {
    match effect {
        Some(Effect::Finish { message: Some(message), answer: Answer::Nothing }) => message,
        other => panic!("{other:?}"),
    }
}

#[test]
fn a_plain_request_goes_out_as_it_stands() {
    let docs = open("POST http://x/y\nA: b\n\nbody {c}\n");
    match send(&docs, 0) {
        Some(Effect::Send { method, url, headers, body }) => {
            assert_eq!(method, Method::Post);
            assert_eq!(url, "http://x/y");
            assert_eq!(headers, vec![("A".to_string(), "b".to_string())]);
            assert_eq!(body.as_deref(), Some("body {c}"));
        }
        other => panic!("{other:?}"),
    }
}

#[test]
fn values_take_the_place_of_placeholders() {
    let docs = open(
        "@host = x.y\n@key = K\nGET http://{{host}}/{{ $processEnv USER }}\n\
         {{key}}: {{host}}\n{{nope}}: 1\n\n{\"a\": \"{{key}}\"}\n",
    );
    let mut env = TextMap::new();
    env.insert("USER".to_string(), "me".to_string());
    match on_command(&docs, &env, "http-lsp.send", &arguments(URI, 2)) {
        Some(Effect::Send { method, url, headers, body }) => {
            assert_eq!(method, Method::Get);
            assert_eq!(url, "http://x.y/me");
            assert_eq!(
                headers,
                vec![
                    ("K".to_string(), "x.y".to_string()),
                    ("{{nope}}".to_string(), "1".to_string())
                ]
            );
            assert_eq!(body.as_deref(), Some("{\"a\": \"K\"}"));
        }
        other => panic!("{other:?}"),
    }
}

#[test]
fn failed_substitutions_are_told() {
    let docs = open("GET http://{{x}}\nA: {{y}}\n\n{{z}}\n");
    assert_eq!(message_of(send(&docs, 0)), "URL: nieznana zmienna: {{x}}");
    let docs = open("GET http://x\nA: {{y}}\n\n{{z}}\n");
    assert_eq!(message_of(send(&docs, 0)), "header: nieznana zmienna: {{y}}");
    let docs = open("GET http://x\nA: b\n\n{{z}}\n");
    assert_eq!(message_of(send(&docs, 0)), "body: nieznana zmienna: {{z}}");
}

#[test]
fn nothing_is_done_where_a_placeholder_has_no_answer() {
    assert!(send(&open("GET http://{{$datetime %Q}}"), 0).is_none());
    assert!(send(&open("GET http://x\n{{$datetime %Q}}: {{y}}"), 0).is_none());
    assert!(send(&open("GET http://x\nA: {{$datetime %Q}}"), 0).is_none());
    assert!(send(&open("GET http://x\n\n{{$datetime %Q}}"), 0).is_none());
}

#[test]
fn commands_that_cannot_be_followed_are_refused() {
    let docs = open("GET http://x\n");
    let env = TextMap::new();
    let run = |a: &Vec<Argument>| message_of(on_command(&docs, &env, "http-lsp.send", a));
    assert_eq!(run(&vec![]), "Brak uri w argumentach");
    assert_eq!(run(&vec![Argument::Text(URI.to_string())]), "Brak line w argumentach");
    assert_eq!(run(&vec![Argument::Other, Argument::Number(0)]), "Nieprawidłowe URI");
    assert_eq!(run(&arguments("not a uri", 0)), "Nieprawidłowe URI");
    assert_eq!(run(&arguments("file:///b.http", 0)), "Dokument nie jest otwarty");
    assert_eq!(run(&arguments(URI, 1)), "Nie udało się sparsować requestu");
    assert_eq!(run(&arguments(URI, u64::MAX)), "Nie udało się sparsować requestu");
    match on_command(&docs, &env, "other", &arguments(URI, 0)) {
        Some(Effect::Finish { message: None, answer: Answer::Nothing }) => {}
        other => panic!("{other:?}"),
    }
}

#[test]
fn a_line_that_is_no_number_is_the_first() {
    let docs = open("GET http://x\n");
    let a = vec![Argument::Text(URI.to_string()), Argument::Other];
    assert!(matches!(
        on_command(&docs, &TextMap::new(), "http-lsp.send", &a),
        Some(Effect::Send { .. })
    ));
}

#[test]
fn uris_are_found_in_their_normal_form() {
    let docs = open("GET http://x\n");
    match locate(&docs, "http-lsp.send", &arguments("FILE:///x/../a.http", 0)) {
        Located::Found(text, request) => {
            assert_eq!(text, "GET http://x\n");
            assert_eq!(request.url, "http://x");
        }
        _ => panic!("not found"),
    }
    assert!(matches!(
        locate_at(&docs, &Some("FILE:///x/../a.http".to_string()), 0),
        Located::Refused(reason) if reason == "Dokument nie jest otwarty"
    ));
    assert!(matches!(
        locate_at(&docs, &None, 0),
        Located::Refused(reason) if reason == "Nieprawidłowe URI"
    ));
    assert!(matches!(locate_at(&docs, &Some(URI.to_string()), 0), Located::Found(..)));
}

#[test]
fn a_lens_leads_to_its_request() {
    let docs = open("# a\nGET http://x\n###\nPUT http://y\n");
    let mut urls = Vec::new();
    for lens in code_lens(&docs, URI) {
        let a = vec![Argument::Text(lens.uri), Argument::Number(lens.index as u64)];
        match on_command(&docs, &TextMap::new(), &lens.command, &a) {
            Some(Effect::Send { url, .. }) => urls.push(url),
            other => panic!("{other:?}"),
        }
    }
    assert_eq!(urls, vec!["http://x", "http://y"]);
}

#[test]
fn methods_that_are_sent() {
    for (name, method) in [
        ("GET", Method::Get),
        ("POST", Method::Post),
        ("PUT", Method::Put),
        ("DELETE", Method::Delete),
        ("PATCH", Method::Patch),
        ("HEAD", Method::Head),
        ("OPTIONS", Method::Options),
    ] {
        assert_eq!(find_method(name), Some(method));
    }
    assert_eq!(find_method("get"), None);
    for name in ["TRACE", "CONNECT"] {
        assert_eq!(find_method(name), None);
        let docs = open(&format!("{name} http://x"));
        assert_eq!(message_of(send(&docs, 0)), format!("Nieobsługiwana metoda: {name}"));
    }
    let request = ParsedRequest {
        method: "BREW".to_string(),
        url: "x".to_string(),
        headers: vec![],
        body: None,
    };
    assert_eq!(message_of(Some(send_or_refuse(request))), "Nieobsługiwana metoda: BREW");
}

#[test]
fn parts_take_the_outcomes_of_substitutions() {
    assert_eq!(take_part("URL: ", Some(Ok("x".to_string()))), Ok("x".to_string()));
    assert_eq!(
        take_part("URL: ", Some(Err("e".to_string()))),
        Err(Some("URL: e".to_string()))
    );
    assert_eq!(take_part("URL: ", None), Err(None));
    let ok = |s: &str| Ok(s.to_string());
    assert_eq!(
        take_header("k", ok("K"), Some(ok("v"))),
        Ok(("K".to_string(), "v".to_string()))
    );
    assert_eq!(
        take_header("k", Err("e".to_string()), Some(ok("v"))),
        Ok(("k".to_string(), "v".to_string()))
    );
    assert_eq!(
        take_header("k", ok("K"), Some(Err("e".to_string()))),
        Err(Some("header: e".to_string()))
    );
    assert_eq!(take_header("k", ok("K"), None), Err(None));
}

#[test]
fn requests_are_completed() {
    let request = parse_request_at("GET {{a}}\n{{a}}: {{a}}{{a}}\n\n{{ a }}", 0).unwrap();
    let mut vars = TextMap::new();
    vars.insert("a".to_string(), "1".to_string());
    let done = complete_request(request, &vars, &TextMap::new()).unwrap();
    assert_eq!(done.method, "GET");
    assert_eq!(done.url, "1");
    assert_eq!(done.headers, vec![("1".to_string(), "11".to_string())]);
    assert_eq!(done.body.as_deref(), Some("1"));
}

#[test]
fn responses_are_shown() {
    let json = Some("application/json; charset=utf-8");
    let body = "{\"b\":1,\"a\":[true,null],\"c\":{}}";
    assert_eq!(
        format_response(200, "OK", 12, json, body),
        "HTTP/1.1 200 OK | 12ms\n\n{\n  \"a\": [\n    true,\n    null\n  ],\n  \"b\": 1,\n  \"c\": {}\n}"
    );
    assert_eq!(
        format_response(404, "Not Found", 0, Some("text/plain"), body),
        format!("HTTP/1.1 404 Not Found | 0ms\n\n{body}")
    );
    assert_eq!(format_response(99, "", 7, json, "{oops"), "HTTP/1.1 99  | 7ms\n\n{oops");
    assert_eq!(
        format_response(204, "No Content", u128::MAX, None, ""),
        format!("HTTP/1.1 204 No Content | {}ms\n\n", u128::MAX)
    );
    assert_eq!(
        format_response(200, "OK", 1, Some("APPLICATION/JSON"), "[1]"),
        "HTTP/1.1 200 OK | 1ms\n\n[1]"
    );
}

#[test]
fn reprinted_bodies_are_shown_for_json_only() {
    let reprinted = Some("R".to_string());
    let with = |kind, reprinted: &Option<String>| {
        format_response_with(200, "OK", 1, kind, "B", reprinted)
    };
    assert_eq!(with(Some("application/json"), &reprinted), "HTTP/1.1 200 OK | 1ms\n\nR");
    assert_eq!(with(Some("application/json"), &None), "HTTP/1.1 200 OK | 1ms\n\nB");
    assert_eq!(with(Some("text/html"), &reprinted), "HTTP/1.1 200 OK | 1ms\n\nB");
    assert_eq!(with(None, &reprinted), "HTTP/1.1 200 OK | 1ms\n\nB");
}

#[test]
fn replies_are_shown() {
    let reply = Reply::Response {
        status: 200,
        content_type: Some("application/json".to_string()),
        body: Ok("[]".to_string()),
    };
    assert_eq!(show_reply(&reply, 3), "HTTP/1.1 200 OK | 3ms\n\n[]");
    let reply = Reply::Response {
        status: 200,
        content_type: None,
        body: Err("cut".to_string()),
    };
    assert_eq!(show_reply(&reply, 3), "HTTP/1.1 200 OK | 3ms\n\n<read error: cut>");
    let reply = Reply::Failure { error: "no route".to_string() };
    assert_eq!(show_reply(&reply, 40), "REQUEST ERROR | 40ms\n\nno route");
}

#[test]
fn status_codes_have_their_reason_phrases() {
    let reply = |status: u16| Reply::Response {
        status,
        content_type: None,
        body: Ok("b".to_string()),
    };
    assert_eq!(show_reply(&reply(404), 1), "HTTP/1.1 404 Not Found | 1ms\n\nb");
    assert_eq!(show_reply(&reply(418), 1), "HTTP/1.1 418 I'm a teapot | 1ms\n\nb");
    for status in [299, 999, 99, 1000] {
        assert_eq!(show_reply(&reply(status), 1), format!("HTTP/1.1 {status}  | 1ms\n\nb"));
    }
    assert_eq!(
        show_reply_with(&reply(200), Some("Fine".to_string()), 1),
        "HTTP/1.1 200 Fine | 1ms\n\nb"
    );
    assert_eq!(show_reply_with(&reply(200), None, 1), "HTTP/1.1 200  | 1ms\n\nb");
}

#[test]
fn a_command_goes_through_its_phases() {
    let docs = open("GET http://x\n");
    let env = TextMap::new();
    let event = Event::Command {
        command: "http-lsp.send".to_string(),
        arguments: arguments(URI, 0),
    };
    assert!(is_awaited(Phase::Idle, &event) && !is_awaited(Phase::Sent, &event));
    let (phase, effect) = step(Phase::Idle, &event, &docs, &env).unwrap();
    assert_eq!(phase, Phase::Sent);
    assert!(matches!(effect, Effect::Send { .. }));

    let reply = Reply::Failure { error: "e".to_string() };
    let event = Event::Reply { reply, elapsed_ms: 1 };
    assert!(is_awaited(phase, &event));
    let (phase, effect) = step(phase, &event, &docs, &env).unwrap();
    assert_eq!(phase, Phase::Saving);
    assert!(matches!(effect, Effect::Save { content } if content == "REQUEST ERROR | 1ms\n\ne"));

    let event = Event::Saved { result: Ok(()) };
    let (phase, effect) = step(phase, &event, &docs, &env).unwrap();
    assert_eq!(phase, Phase::Opening);
    assert!(matches!(effect, Effect::Open));

    let event = Event::Opened { result: Ok(()) };
    assert!(is_awaited(phase, &event) && !is_awaited(Phase::Finished, &event));
    let (phase, effect) = step(phase, &event, &docs, &env).unwrap();
    assert_eq!(phase, Phase::Finished);
    assert!(matches!(effect, Effect::Finish { message: None, answer: Answer::Done }));
}

#[test]
fn failures_on_the_way_are_told() {
    let docs = TextMap::new();
    let env = TextMap::new();
    let event = Event::Saved { result: Err("full".to_string()) };
    match step(Phase::Saving, &event, &docs, &env) {
        Some((Phase::Finished, Effect::Finish { message, answer })) => {
            assert_eq!(message.as_deref(), Some("zapis do tmp poległ: full"));
            assert_eq!(answer, Answer::DoneUnsaved);
        }
        other => panic!("{other:?}"),
    }
    let event = Event::Opened { result: Err("no zed".to_string()) };
    match step(Phase::Opening, &event, &docs, &env) {
        Some((Phase::Finished, Effect::Finish { message, answer })) => {
            assert_eq!(
                message.as_deref(),
                Some(
                    "nie udało się odpalić `zed` CLI: no zed. Sprawdź czy CLI jest \
                     zainstalowane (cmd+shift+p → cli: install)"
                )
            );
            assert_eq!(answer, Answer::Done);
        }
        other => panic!("{other:?}"),
    }
    let event = Event::Command { command: "x".to_string(), arguments: vec![] };
    match step(Phase::Idle, &event, &docs, &env) {
        Some((Phase::Finished, Effect::Finish { message: None, answer })) => {
            assert_eq!(answer, Answer::Nothing);
        }
        other => panic!("{other:?}"),
    }
    let docs = open("GET {{$datetime %Q}}");
    let event = Event::Command {
        command: "http-lsp.send".to_string(),
        arguments: arguments(URI, 0),
    };
    assert!(step(Phase::Idle, &event, &docs, &env).is_none());
}

#[test]
fn commands_ask_for_names_in_every_part() {
    let docs = open(
        "@who = USER\nGET http://{{$processEnv HOST}}\n{{$processEnv K}}: {{$processEnv V}}\n\
         X: {{$processEnv {{who}} }}\n\n{{$processEnv BODY}}\n###\n{{$processEnv NOT}}\n",
    );
    let run = |command: &str, line: u64| command_env_names(&docs, command, &arguments(URI, line));
    assert_eq!(run("http-lsp.send", 1), vec!["HOST", "K", "V", "USER", "BODY"]);
    assert!(run("http-lsp.send", 0).is_empty());
    assert!(run("other", 1).is_empty());
}
