//! What holds of open documents and of the work on a command.

use vstd::prelude::*;

use super::variables::{law_environment, law_text_without_placeholders, same_for};
use super::without_braces;
use crate::documents::{lens_over, lenses_over, open_lines, request_lines, Lens, SEND_COMMAND};
use crate::request::{methods, request_in, request_line, ParsedRequest, Request};
use crate::response::{is_json, json_reprinted, response_document, shown_body};
use crate::session::{
    argument_line, argument_text, awaited, can_come_out, command_deed, completed, deed,
    effect_view, event_can_come_out, event_did_come_out, header_names, headers_part,
    lemma_headers_stopped, method_named, phase_of, reply_document, request_names, sending, target,
    target_can_come_out, target_did_come_out, target_names, uri_form, Answer, Argument, Deed,
    Effect, Event, Method, Outcome, Outcomes, Phase, Stop, Target,
};
use crate::text::{lines_in, utf8_len};
use crate::variables::{asked_names, can_become, defined_by, did_become};

verus! {

/// Law: a button stands over a line if and only if there is a request to send at
/// that line, and the lines are told in order, each once.
pub proof fn law_lenses_are_requests(lines: Seq<Seq<char>>, i: int)
    requires
        0 <= i < lines.len(),
    ensures
        request_lines(lines, lines.len() as int).contains(i) <==> request_in(lines, i) is Some,
        increasing(request_lines(lines, lines.len() as int)),
{
    lemma_request_lines(lines, lines.len() as int);
    let places = request_lines(lines, lines.len() as int);
    if request_line(lines[i]) is Some {
        assert(places.contains(i));
    }
}

/// Whether each number is greater than those before it.
pub open spec fn increasing(s: Seq<int>) -> bool {
    forall|a: int, b: int| 0 <= a < b < s.len() ==> #[trigger] s[a] < #[trigger] s[b]
}

proof fn lemma_request_lines(lines: Seq<Seq<char>>, n: int)
    requires
        n <= lines.len(),
    ensures
        forall|k: int|
            0 <= k < request_lines(lines, n).len() ==> 0 <= #[trigger] request_lines(lines, n)[k]
                < n && request_line(lines[request_lines(lines, n)[k]]) is Some,
        forall|i: int|
            0 <= i < n && request_line(#[trigger] lines[i]) is Some ==> request_lines(
                lines,
                n,
            ).contains(i),
        increasing(request_lines(lines, n)),
    decreases n,
{
    if n > 0 {
        lemma_request_lines(lines, n - 1);
        let p = request_lines(lines, n - 1);
        let q = request_lines(lines, n);
        assert forall|i: int|
            0 <= i < n && request_line(#[trigger] lines[i]) is Some implies q.contains(i) by {
            if i == n - 1 {
                assert(q[q.len() - 1] == i);
            } else {
                assert(p.contains(i));
                let k = choose|k: int| 0 <= k < p.len() && p[k] == i;
                assert(q[k] == i);
            }
        }
    }
}

/// Law: the command behind a button leads to the request at its line, in a
/// document whose URI is in its normal form.
pub proof fn law_lens_leads_to_request(
    docs: Map<Seq<char>, Seq<char>>,
    uri: String,
    index: usize,
)
    requires
        index < open_lines(docs, uri@).len(),
        request_lines(
            open_lines(docs, uri@),
            open_lines(docs, uri@).len() as int,
        ).contains(index as int),
    ensures
        uri_form(uri@) == Some(uri@) ==> target(
            docs,
            SEND_COMMAND@,
            seq![Argument::Text(uri), Argument::Number(index as u64)],
        ) == Target::Found(
            docs[uri@],
            request_in(lines_in(docs[uri@]), index as int)->0,
        ),
{
    law_lenses_are_requests(open_lines(docs, uri@), index as int);
    let arguments = seq![Argument::Text(uri), Argument::Number(index as u64)];
    assert(argument_text(arguments[0]) == uri@);
    assert(argument_line(arguments[1]) == index);
}

/// Law: the request that goes out is the one at the named line with values in
/// place of its placeholders, and nothing goes out for any other command.
pub proof fn law_only_found_requests_are_sent(target: Target, o: Outcomes)
    ensures
        command_deed(target, o) matches Some(Deed::Send(method, url, headers, body)) ==> {
            &&& target matches Target::Found(_, request)
            &&& completed(request, o) matches Ok(done)
            &&& done.method == request.method
            &&& method_named(request.method) == Some(method)
            &&& done.url == url
            &&& done.headers == headers
            &&& done.body == body
        },
{
}

/// Law: a command that is refused is answered with nothing, and a message says
/// why; a command of another name gets no message.
pub proof fn law_refusals(target: Target, o: Outcomes)
    ensures
        command_deed(target, o) matches Some(Deed::Finish(message, answer)) ==> answer
            == Answer::Nothing && (message is None <==> target is Nothing),
        target is Refused ==> command_deed(target, o) == Some(
            Deed::Finish(Some(target->Refused_0), Answer::Nothing),
        ),
{
}

/// Whether no part of `request` holds a placeholder.
pub open spec fn plain(request: Request) -> bool {
    &&& without_braces(request.url)
    &&& forall|i: int|
        0 <= i < request.headers.len() ==> without_braces((#[trigger] request.headers[i]).0)
            && without_braces(request.headers[i].1)
    &&& request.body matches Some(body) ==> without_braces(body)
}

/// Law: a request without placeholders goes out as it stands in the document.
pub proof fn law_plain_request(
    text: Seq<char>,
    request: Request,
    env: Map<Seq<char>, Seq<char>>,
    o: Outcomes,
)
    requires
        plain(request),
        target_can_come_out(Target::Found(text, request), env, o),
    ensures
        completed(request, o) == Ok::<Request, Stop>(request),
        command_deed(Target::Found(text, request), o) == Some(sending(request)),
{
    let vars = defined_by(lines_in(text));
    law_text_without_placeholders(request.url, vars, env, o.url);
    lemma_plain_headers(request, vars, env, o, request.headers.len() as int);
    assert(request.headers.take(request.headers.len() as int) == request.headers);
    if let Some(body) = request.body {
        law_text_without_placeholders(body, vars, env, o.body);
    }
}

proof fn lemma_plain_headers(
    request: Request,
    vars: Map<Seq<char>, Seq<char>>,
    env: Map<Seq<char>, Seq<char>>,
    o: Outcomes,
    n: int,
)
    requires
        plain(request),
        can_come_out(request, vars, env, o),
        0 <= n <= request.headers.len(),
    ensures
        headers_part(request.headers, o.headers, n) == Ok::<Seq<(Seq<char>, Seq<char>)>, Stop>(
            request.headers.take(n),
        ),
    decreases n,
{
    if n > 0 {
        lemma_plain_headers(request, vars, env, o, n - 1);
        let header = request.headers[n - 1];
        let outcome = o.headers[n - 1];
        law_text_without_placeholders(header.0, vars, env, outcome.0);
        law_text_without_placeholders(header.1, vars, env, outcome.1);
        assert(request.headers.take(n) == request.headers.take(n - 1).push(header));
    } else {
        assert(request.headers.take(0) == Seq::<(Seq<char>, Seq<char>)>::empty());
    }
}

/// Law: the work on a command rests on nothing in the environment but what it gives
/// for the names that the command asks for.
pub proof fn law_command_environment(
    target: Target,
    a: Map<Seq<char>, Seq<char>>,
    b: Map<Seq<char>, Seq<char>>,
    o: Outcomes,
)
    requires
        same_for(target_names(target), a, b),
    ensures
        target_can_come_out(target, a, o) <==> target_can_come_out(target, b, o),
{
    if let Target::Found(text, request) = target {
        let vars = defined_by(lines_in(text));
        let n = request.headers.len() as int;
        let url = asked_names(request.url, vars);
        let headers = header_names(request.headers, vars, n);
        let all = request_names(request, vars);
        let upto = url + headers;
        let none = Seq::<Seq<char>>::empty();
        let body = match request.body {
            Some(body) => asked_names(body, vars),
            None => none,
        };
        assert(all == none + upto + body);
        lemma_same_for_part(none, upto, body, a, b);
        assert(all == upto + body + none);
        lemma_same_for_part(upto, body, none, a, b);
        assert(upto == none + url + headers);
        lemma_same_for_part(none, url, headers, a, b);
        assert(upto == url + headers + none);
        lemma_same_for_part(url, headers, none, a, b);
        law_environment(request.url, vars, a, b, o.url);
        if let Some(text) = request.body {
            law_environment(text, vars, a, b, o.body);
        }
        assert forall|i: int| 0 <= i < n implies can_become(
            request.headers[i].0,
            vars,
            a,
            (#[trigger] o.headers[i]).0,
        ) == can_become(request.headers[i].0, vars, b, o.headers[i].0) && can_become(
            request.headers[i].1,
            vars,
            a,
            o.headers[i].1,
        ) == can_become(request.headers[i].1, vars, b, o.headers[i].1) by {
            lemma_same_for_header(request.headers, vars, n, i, a, b);
            law_environment(request.headers[i].0, vars, a, b, o.headers[i].0);
            law_environment(request.headers[i].1, vars, a, b, o.headers[i].1);
        }
    }
}

proof fn lemma_same_for_part(
    before: Seq<Seq<char>>,
    part: Seq<Seq<char>>,
    after: Seq<Seq<char>>,
    a: Map<Seq<char>, Seq<char>>,
    b: Map<Seq<char>, Seq<char>>,
)
    requires
        same_for(before + part + after, a, b),
    ensures
        same_for(part, a, b),
{
    let all = before + part + after;
    assert forall|i: int| 0 <= i < part.len() implies a.contains_key(#[trigger] part[i])
        == b.contains_key(part[i]) && (a.contains_key(part[i]) ==> a[part[i]] == b[part[i]]) by {
        assert(all[before.len() + i] == part[i]);
    }
}

proof fn lemma_same_for_header(
    headers: Seq<(Seq<char>, Seq<char>)>,
    vars: Map<Seq<char>, Seq<char>>,
    n: int,
    i: int,
    a: Map<Seq<char>, Seq<char>>,
    b: Map<Seq<char>, Seq<char>>,
)
    requires
        0 <= i < n <= headers.len(),
        same_for(header_names(headers, vars, n), a, b),
    ensures
        same_for(asked_names(headers[i].0, vars), a, b),
        same_for(asked_names(headers[i].1, vars), a, b),
    decreases n,
{
    let before = header_names(headers, vars, n - 1);
    let name = asked_names(headers[n - 1].0, vars);
    let value = asked_names(headers[n - 1].1, vars);
    let none = Seq::<Seq<char>>::empty();
    if i < n - 1 {
        assert(header_names(headers, vars, n) == none + before + (name + value));
        lemma_same_for_part(none, before, name + value, a, b);
        lemma_same_for_header(headers, vars, n - 1, i, a, b);
    } else {
        lemma_same_for_part(before, name, value, a, b);
        assert(header_names(headers, vars, n) == (before + name) + value + none);
        lemma_same_for_part(before + name, value, none, a, b);
    }
}

/// Law: where a substitution fails, nothing goes out, and the message tells the
/// part of the request and the error. The URL counts before the headers, a header
/// before those behind it, and the headers before the body; a header whose name
/// alone fails does not count.
pub proof fn law_failed_substitution(
    text: Seq<char>,
    request: Request,
    o: Outcomes,
    e: Seq<char>,
    i: int,
)
    ensures
        o.url == Some(Err::<Seq<char>, Seq<char>>(e)) ==> command_deed(
            Target::Found(text, request),
            o,
        ) == Some(Deed::Finish(Some("URL: "@ + e), Answer::Nothing)),
        (o.url matches Some(Ok(_))) && 0 <= i < request.headers.len() && headers_part(
            request.headers,
            o.headers,
            i,
        ) is Ok && o.headers[i].0 is Some && o.headers[i].1 == Some(
            Err::<Seq<char>, Seq<char>>(e),
        ) ==> command_deed(Target::Found(text, request), o) == Some(
            Deed::Finish(Some("header: "@ + e), Answer::Nothing),
        ),
        (o.url matches Some(Ok(_))) && headers_part(
            request.headers,
            o.headers,
            request.headers.len() as int,
        ) is Ok && request.body is Some && o.body == Some(Err::<Seq<char>, Seq<char>>(e))
            ==> command_deed(Target::Found(text, request), o) == Some(
            Deed::Finish(Some("body: "@ + e), Answer::Nothing),
        ),
{
    let n = request.headers.len() as int;
    if 0 <= i < n && headers_part(request.headers, o.headers, i + 1) is Err {
        lemma_headers_stopped(request.headers, o.headers, i + 1, n);
    }
}

/// Law: of the methods that a request line can name, all but `TRACE` and
/// `CONNECT` are sent.
pub proof fn law_methods_sent(k: int)
    requires
        0 <= k < methods().len(),
    ensures
        method_named(methods()[k]) is None <==> methods()[k] == "TRACE"@ || methods()[k]
            == "CONNECT"@,
{
    reveal_strlit("GET");
    reveal_strlit("POST");
    reveal_strlit("PUT");
    reveal_strlit("DELETE");
    reveal_strlit("PATCH");
    reveal_strlit("HEAD");
    reveal_strlit("OPTIONS");
    reveal_strlit("TRACE");
    reveal_strlit("CONNECT");
    assert("TRACE"@[0] == 'T' && "CONNECT"@[0] == 'C');
    assert("GET"@[0] == 'G' && "POST"@[0] == 'P' && "PUT"@[0] == 'P' && "DELETE"@[0] == 'D');
    assert("PATCH"@[0] == 'P' && "HEAD"@[0] == 'H' && "OPTIONS"@[0] == 'O');
}

/// The outcome of a substitution that gave a text.
pub open spec fn gave(outcome: Outcome) -> bool {
    outcome matches Some(Ok(_))
}

/// The text that a substitution gave.
pub open spec fn text_of(outcome: Outcome) -> Seq<char> {
    outcome->0->Ok_0
}

/// Whether the outcomes let a request go out: a text for the URL, for the value of
/// each header and for the body, and an outcome for the name of each header.
pub open spec fn all_gave(request: Request, o: Outcomes) -> bool {
    &&& gave(o.url)
    &&& forall|i: int|
        0 <= i < request.headers.len() ==> (#[trigger] o.headers[i]).0 is Some && gave(
            o.headers[i].1,
        )
    &&& request.body is Some ==> gave(o.body)
}

/// The headers with the texts that the substitutions gave. A name for which the
/// substitution failed stays.
pub open spec fn given_headers(request: Request, o: Outcomes) -> Seq<(Seq<char>, Seq<char>)> {
    Seq::new(
        request.headers.len(),
        |i: int|
            (
                match o.headers[i].0->0 {
                    Ok(name) => name,
                    Err(_) => request.headers[i].0,
                },
                text_of(o.headers[i].1),
            ),
    )
}

proof fn lemma_headers_given(request: Request, o: Outcomes, n: int)
    requires
        0 <= n <= request.headers.len(),
        forall|i: int|
            0 <= i < n ==> (#[trigger] o.headers[i]).0 is Some && gave(o.headers[i].1),
    ensures
        headers_part(request.headers, o.headers, n) == Ok::<Seq<(Seq<char>, Seq<char>)>, Stop>(
            given_headers(request, o).take(n),
        ),
    decreases n,
{
    let all = given_headers(request, o);
    if n > 0 {
        lemma_headers_given(request, o, n - 1);
        assert(o.headers[n - 1].0 is Some);
        assert(all.take(n) == all.take(n - 1).push(all[n - 1]));
    } else {
        assert(all.take(0) == Seq::<(Seq<char>, Seq<char>)>::empty());
    }
}

proof fn lemma_headers_gave(request: Request, o: Outcomes, n: int)
    requires
        0 <= n <= request.headers.len(),
        headers_part(request.headers, o.headers, n) is Ok,
    ensures
        forall|i: int|
            0 <= i < n ==> (#[trigger] o.headers[i]).0 is Some && gave(o.headers[i].1),
    decreases n,
{
    if n > 0 {
        lemma_headers_gave(request, o, n - 1);
    }
}

/// Law: a request whose substitutions all gave a text goes out with its own method,
/// if it is one of the seven that are sent, and with the texts that the
/// substitutions gave for its URL, for each of its headers and for its body. With
/// another method it is refused, and the message names the method.
pub proof fn law_requests_go_out(text: Seq<char>, request: Request, o: Outcomes)
    requires
        all_gave(request, o),
    ensures
        ({
            let body = match request.body {
                Some(_) => Some(text_of(o.body)),
                None => None,
            };
            let headers = given_headers(request, o);
            let done = command_deed(Target::Found(text, request), o);
            let m = request.method;
            &&& m == "GET"@ ==> done == Some(
                Deed::Send(Method::Get, text_of(o.url), headers, body),
            )
            &&& m == "POST"@ ==> done == Some(
                Deed::Send(Method::Post, text_of(o.url), headers, body),
            )
            &&& m == "PUT"@ ==> done == Some(
                Deed::Send(Method::Put, text_of(o.url), headers, body),
            )
            &&& m == "DELETE"@ ==> done == Some(
                Deed::Send(Method::Delete, text_of(o.url), headers, body),
            )
            &&& m == "PATCH"@ ==> done == Some(
                Deed::Send(Method::Patch, text_of(o.url), headers, body),
            )
            &&& m == "HEAD"@ ==> done == Some(
                Deed::Send(Method::Head, text_of(o.url), headers, body),
            )
            &&& m == "OPTIONS"@ ==> done == Some(
                Deed::Send(Method::Options, text_of(o.url), headers, body),
            )
            &&& m != "GET"@ && m != "POST"@ && m != "PUT"@ && m != "DELETE"@ && m != "PATCH"@ && m
                != "HEAD"@ && m != "OPTIONS"@ ==> done == Some(
                Deed::Finish(Some("Nieobsługiwana metoda: "@ + m), Answer::Nothing),
            )
        }),
{
    let n = request.headers.len() as int;
    lemma_headers_given(request, o, n);
    assert(given_headers(request, o).take(n) == given_headers(request, o));
    reveal_strlit("GET");
    reveal_strlit("POST");
    reveal_strlit("PUT");
    reveal_strlit("DELETE");
    reveal_strlit("PATCH");
    reveal_strlit("HEAD");
    reveal_strlit("OPTIONS");
    assert("GET"@[0] == 'G' && "POST"@[1] == 'O' && "PUT"@[1] == 'U' && "PATCH"@[1] == 'A');
    assert("DELETE"@[0] == 'D' && "HEAD"@[0] == 'H' && "OPTIONS"@[0] == 'O');
    assert("POST"@[0] == 'P' && "PUT"@[0] == 'P' && "PATCH"@[0] == 'P');
}

/// Law: a request goes out only where its substitutions all gave a text, and then
/// the value of each header that goes out, and the URL and the body, are those texts.
pub proof fn law_what_goes_out(
    text: Seq<char>,
    request: Request,
    o: Outcomes,
    method: Method,
    url: Seq<char>,
    headers: Seq<(Seq<char>, Seq<char>)>,
    body: Option<Seq<char>>,
)
    requires
        command_deed(Target::Found(text, request), o) == Some(
            Deed::Send(method, url, headers, body),
        ),
    ensures
        all_gave(request, o),
        o.url == Some(Ok::<Seq<char>, Seq<char>>(url)),
        headers.len() == request.headers.len(),
        forall|i: int|
            0 <= i < headers.len() ==> o.headers[i].1 == Some(
                Ok::<Seq<char>, Seq<char>>((#[trigger] headers[i]).1),
            ),
        forall|i: int|
            0 <= i < headers.len() ==> (match o.headers[i].0 {
                Some(Ok(name)) => (#[trigger] headers[i]).0 == name,
                Some(Err(_)) => headers[i].0 == request.headers[i].0,
                None => false,
            }),
        body is Some <==> request.body is Some,
        body is Some ==> o.body == Some(Ok::<Seq<char>, Seq<char>>(body->0)),
{
    let n = request.headers.len() as int;
    lemma_headers_gave(request, o, n);
    lemma_headers_given(request, o, n);
    assert(given_headers(request, o).take(n) == given_headers(request, o));
    assert forall|i: int| 0 <= i < headers.len() implies o.headers[i].1 == Some(
        Ok::<Seq<char>, Seq<char>>((#[trigger] headers[i]).1),
    ) by {
        assert(headers[i] == given_headers(request, o)[i]);
    }
}

/// Law: the texts that go out are those that became of the parts of the request in
/// the document, with the variables that the document defines: of the URL, of each
/// header's value, of each header's name unless that failed, and of the body.
pub proof fn law_sent_texts(
    text: Seq<char>,
    request: Request,
    env: Map<Seq<char>, Seq<char>>,
    o: Outcomes,
    method: Method,
    url: Seq<char>,
    headers: Seq<(Seq<char>, Seq<char>)>,
    body: Option<Seq<char>>,
)
    requires
        target_did_come_out(Target::Found(text, request), env, o),
        command_deed(Target::Found(text, request), o) == Some(
            Deed::Send(method, url, headers, body),
        ),
    ensures
        ({
            let vars = defined_by(lines_in(text));
            &&& did_become(request.url, vars, env, Some(Ok(url)))
            &&& headers.len() == request.headers.len()
            &&& forall|i: int|
                0 <= i < headers.len() ==> did_become(
                    request.headers[i].1,
                    vars,
                    env,
                    Some(Ok((#[trigger] headers[i]).1)),
                )
            &&& forall|i: int|
                0 <= i < headers.len() ==> did_become(
                    request.headers[i].0,
                    vars,
                    env,
                    Some(Ok((#[trigger] headers[i]).0)),
                ) || (headers[i].0 == request.headers[i].0 && exists|e: Seq<char>|
                    did_become(request.headers[i].0, vars, env, #[trigger] failed(e)))
            &&& body matches Some(b) ==> request.body is Some && did_become(
                request.body->0,
                vars,
                env,
                Some(Ok(b)),
            )
            &&& body is None ==> request.body is None
        }),
{
    let vars = defined_by(lines_in(text));
    law_what_goes_out(text, request, o, method, url, headers, body);
    assert forall|i: int| 0 <= i < headers.len() implies did_become(
        request.headers[i].1,
        vars,
        env,
        Some(Ok((#[trigger] headers[i]).1)),
    ) by {
        assert(o.headers[i].1 == Some(Ok::<Seq<char>, Seq<char>>(headers[i].1)));
    }
    assert forall|i: int| 0 <= i < headers.len() implies did_become(
        request.headers[i].0,
        vars,
        env,
        Some(Ok((#[trigger] headers[i]).0)),
    ) || (headers[i].0 == request.headers[i].0 && exists|e: Seq<char>|
        did_become(request.headers[i].0, vars, env, #[trigger] failed(e))) by {
        let h = headers[i];
        let name = o.headers[i].0;
        assert(did_become(request.headers[i].0, vars, env, name));
        if let Some(Err(e)) = name {
            assert(name == failed(e));
        }
    }
}

/// The outcome of a substitution that failed.
pub open spec fn failed(e: Seq<char>) -> Outcome {
    Some(Err(e))
}

/// Law: where one of the substitutions that are tried has no outcome, nothing can be
/// done: the URL first, then the name and the value of each header, then the body.
pub proof fn law_no_outcome(text: Seq<char>, request: Request, o: Outcomes, i: int)
    ensures
        o.url is None ==> command_deed(Target::Found(text, request), o) is None,
        gave(o.url) && 0 <= i < request.headers.len() && (forall|j: int|
            0 <= j < i ==> (#[trigger] o.headers[j]).0 is Some && gave(o.headers[j].1)) && (
        o.headers[i].0 is None || o.headers[i].1 is None) ==> command_deed(
            Target::Found(text, request),
            o,
        ) is None,
        gave(o.url) && (forall|j: int|
            0 <= j < request.headers.len() ==> (#[trigger] o.headers[j]).0 is Some && gave(
                o.headers[j].1,
            )) && request.body is Some && o.body is None ==> command_deed(
            Target::Found(text, request),
            o,
        ) is None,
{
    let n = request.headers.len() as int;
    if gave(o.url) && 0 <= i < n && (forall|j: int|
        0 <= j < i ==> (#[trigger] o.headers[j]).0 is Some && gave(o.headers[j].1)) {
        lemma_headers_given(request, o, i);
        if headers_part(request.headers, o.headers, i + 1) is Err {
            lemma_headers_stopped(request.headers, o.headers, i + 1, n);
        }
    }
    if forall|j: int|
        0 <= j < n ==> (#[trigger] o.headers[j]).0 is Some && gave(o.headers[j].1) {
        lemma_headers_given(request, o, n);
    }
}

/// Law: the send command leads to a request if and only if it names a URI whose
/// document is open and a line of it at which a request starts; the text of the
/// document comes with it. Otherwise the message tells what is missing.
pub proof fn law_target(
    docs: Map<Seq<char>, Seq<char>>,
    command: Seq<char>,
    arguments: Seq<Argument>,
)
    ensures
        ({
            let t = target(docs, command, arguments);
            let uri = uri_form(
                match arguments[0] {
                    Argument::Text(text) => text@,
                    _ => Seq::empty(),
                },
            );
            let line: int = match arguments[1] {
                Argument::Number(n) => if n <= usize::MAX {
                    n as int
                } else {
                    n as int % 0x1_0000_0000
                },
                _ => 0,
            };
            let text = docs[uri->0];
            if command != "http-lsp.send"@ {
                t == Target::Nothing
            } else if arguments.len() == 0 {
                t == Target::Refused("Brak uri w argumentach"@)
            } else if arguments.len() == 1 {
                t == Target::Refused("Brak line w argumentach"@)
            } else if uri is None {
                t == Target::Refused("Nieprawidłowe URI"@)
            } else if !docs.contains_key(uri->0) {
                t == Target::Refused("Dokument nie jest otwarty"@)
            } else if request_in(lines_in(text), line) is None {
                t == Target::Refused("Nie udało się sparsować requestu"@)
            } else {
                t == Target::Found(text, request_in(lines_in(text), line)->0)
            }
        }),
{
}

/// Law: what the server does about each event, and what it then waits for: a request
/// that is out is followed by a reply, the reply is saved, the document is opened,
/// and what fails on the way is told.
pub proof fn law_events(event: Event, docs: Map<Seq<char>, Seq<char>>, o: Outcomes)
    ensures
        match event {
            Event::Command { command, arguments } => deed(event, docs, o) == command_deed(
                target(docs, command@, arguments@),
                o,
            ) && (awaited(Phase::Idle, event)),
            Event::Reply { reply, elapsed_ms } => deed(event, docs, o) == Some(
                Deed::Save(reply_document(reply, elapsed_ms)),
            ) && awaited(Phase::Sent, event),
            Event::Saved { result: Ok(_) } => deed(event, docs, o) == Some(Deed::Open) && awaited(
                Phase::Saving,
                event,
            ),
            Event::Saved { result: Err(e) } => deed(event, docs, o) == Some(
                Deed::Finish(Some("zapis do tmp poległ: "@ + e@), Answer::DoneUnsaved),
            ) && awaited(Phase::Saving, event),
            Event::Opened { result: Ok(_) } => deed(event, docs, o) == Some(
                Deed::Finish(None, Answer::Done),
            ) && awaited(Phase::Opening, event),
            Event::Opened { result: Err(e) } => deed(event, docs, o) == Some(
                Deed::Finish(
                    Some(
                        "nie udało się odpalić `zed` CLI: "@ + e@
                            + ". Sprawdź czy CLI jest zainstalowane (cmd+shift+p → cli: install)"@,
                    ),
                    Answer::Done,
                ),
            ) && awaited(Phase::Opening, event),
        },
        match deed(event, docs, o) {
            Some(Deed::Finish(message, answer)) => phase_of(Deed::Finish(message, answer))
                == Phase::Finished,
            Some(Deed::Send(method, url, headers, body)) => phase_of(
                Deed::Send(method, url, headers, body),
            ) == Phase::Sent,
            Some(Deed::Save(content)) => phase_of(Deed::Save(content)) == Phase::Saving,
            Some(Deed::Open) => phase_of(Deed::Open) == Phase::Opening,
            None => event is Command,
        },
{
}

/// Law: the substitutions of a command are those in the request that it leads to,
/// with the variables that the document defines, and all others need none.
pub proof fn law_outcomes_of_a_command(
    text: Seq<char>,
    request: Request,
    env: Map<Seq<char>, Seq<char>>,
    o: Outcomes,
)
    ensures
        target_can_come_out(Target::Found(text, request), env, o) <==> {
            let vars = defined_by(lines_in(text));
            &&& can_become(request.url, vars, env, o.url)
            &&& o.headers.len() == request.headers.len()
            &&& forall|i: int|
                0 <= i < request.headers.len() ==> can_become(
                    request.headers[i].0,
                    vars,
                    env,
                    (#[trigger] o.headers[i]).0,
                ) && can_become(request.headers[i].1, vars, env, o.headers[i].1)
            &&& request.body matches Some(body) ==> can_become(body, vars, env, o.body)
        },
        target_did_come_out(Target::Found(text, request), env, o) <==> {
            let vars = defined_by(lines_in(text));
            &&& did_become(request.url, vars, env, o.url)
            &&& o.headers.len() == request.headers.len()
            &&& forall|i: int|
                0 <= i < request.headers.len() ==> did_become(
                    request.headers[i].0,
                    vars,
                    env,
                    (#[trigger] o.headers[i]).0,
                ) && did_become(request.headers[i].1, vars, env, o.headers[i].1)
            &&& request.body matches Some(body) ==> did_become(body, vars, env, o.body)
        },
{
}

/// Law: the substitutions that an event leads to are those of the command that it
/// brings, and others lead to none.
pub proof fn law_outcomes_of_an_event(
    event: Event,
    docs: Map<Seq<char>, Seq<char>>,
    env: Map<Seq<char>, Seq<char>>,
    o: Outcomes,
)
    ensures
        event matches Event::Command { command, arguments } ==> event_can_come_out(
            event,
            docs,
            env,
            o,
        ) == target_can_come_out(target(docs, command@, arguments@), env, o),
        event matches Event::Command { command, arguments } ==> event_did_come_out(
            event,
            docs,
            env,
            o,
        ) == target_did_come_out(target(docs, command@, arguments@), env, o),
{
}

/// Law: what an effect asks for is what it holds.
pub proof fn law_effects(effect: Effect)
    ensures
        match effect {
            Effect::Finish { message, answer } => effect@ == Deed::Finish(
                match message {
                    Some(text) => Some(text@),
                    None => None,
                },
                answer,
            ),
            Effect::Send { method, url, headers, body } => effect@ matches Deed::Send(m, u, h, b)
                && {
                &&& m == method
                &&& u == url@
                &&& h.len() == headers@.len()
                &&& forall|i: int|
                    0 <= i < h.len() ==> (#[trigger] h[i]).0 == headers@[i].0@ && h[i].1
                        == headers@[i].1@
                &&& b == match body {
                    Some(text) => Some(text@),
                    None => None,
                }
            },
            Effect::Save { content } => effect@ == Deed::Save(content@),
            Effect::Open => effect@ == Deed::Open,
        },
        effect_view(Some(effect)) == Some(effect@),
        effect_view(None) is None,
{
}

/// Law: what a request in a document is told to be is what it holds.
pub proof fn law_requests_held(request: ParsedRequest)
    ensures
        request@.method == request.method@,
        request@.url == request.url@,
        request@.headers.len() == request.headers@.len(),
        forall|i: int|
            0 <= i < request.headers@.len() ==> (#[trigger] request@.headers[i]).0
                == request.headers@[i].0@ && request@.headers[i].1 == request.headers@[i].1@,
        request@.body == match request.body {
            Some(text) => Some(text@),
            None => None,
        },
{
}

/// Law: there is one button for each place, in order, and each stands over its line.
pub proof fn law_lenses(lenses: Seq<Lens>, uri: Seq<char>, lines: Seq<Seq<char>>, places: Seq<int>)
    requires
        lenses_over(lenses, uri, lines, places),
    ensures
        lenses.len() == places.len(),
        forall|k: int|
            0 <= k < places.len() ==> lens_over(#[trigger] lenses[k], uri, lines, places[k]),
{
}

/// Law: a button stands over the whole of its line, counted in bytes, and carries the
/// command, the document and the line.
pub proof fn law_lens(lens: Lens, uri: Seq<char>, lines: Seq<Seq<char>>, i: int)
    requires
        0 <= i,
        lens_over(lens, uri, lines, i),
    ensures
        i < 0x1_0000_0000 ==> lens.line == i,
        utf8_len(lines[i]) < 0x1_0000_0000 ==> lens.end_character == utf8_len(lines[i]),
        lens.title@ == "▶ Send Request"@,
        lens.command@ == "http-lsp.send"@,
        lens.uri@ == uri,
        lens.index == i,
{
}

/// The place of a phase in the order of the work.
pub open spec fn rank(phase: Phase) -> int {
    match phase {
        Phase::Idle => 0,
        Phase::Sent => 1,
        Phase::Saving => 2,
        Phase::Opening => 3,
        Phase::Finished => 4,
    }
}

/// Law: each step leads to a later phase, so that a command is answered after
/// four steps at the latest; and once it is answered, nothing more is awaited.
pub proof fn law_steps_go_on(
    phase: Phase,
    event: Event,
    docs: Map<Seq<char>, Seq<char>>,
    o: Outcomes,
)
    requires
        awaited(phase, event),
    ensures
        deed(event, docs, o) matches Some(d) ==> rank(phase) < rank(phase_of(d)) <= 4,
        phase != Phase::Finished,
{
}

/// Law: the document that shows a response ends with the body as it came, unless
/// the response says that it is JSON and it is.
pub proof fn law_body_is_shown(
    status: u16,
    status_text: Seq<char>,
    elapsed_ms: u128,
    content_type: Option<Seq<char>>,
    body: Seq<char>,
)
    ensures
        !is_json(content_type) || json_reprinted(body) is None ==> body.is_suffix_of(
            response_document(
                status,
                status_text,
                elapsed_ms,
                shown_body(content_type, body, json_reprinted(body)),
            ),
        ),
{
    let shown = shown_body(content_type, body, json_reprinted(body));
    let all = response_document(status, status_text, elapsed_ms, shown);
    assert(all.subrange(all.len() - shown.len(), all.len() as int) == shown);
}

/// Law: a document that is opened, or whose text changes, is open with that text;
/// one that is closed is not open, and the others stay as they are.
pub proof fn law_documents(
    docs: Map<Seq<char>, Seq<char>>,
    uri: Seq<char>,
    text: Seq<char>,
    other: Seq<char>,
)
    requires
        other != uri,
    ensures
        open_lines(docs.insert(uri, text), uri) == lines_in(text),
        open_lines(docs.insert(uri, text), other) == open_lines(docs, other),
        open_lines(docs.remove(uri), uri) == Seq::<Seq<char>>::empty(),
        open_lines(docs.remove(uri), other) == open_lines(docs, other),
{
}

} // verus!
