//! Sending a request: from the command to the request that goes out, and from
//! the reply to the document that shows it.

use vstd::prelude::*;

use crate::documents::SEND_COMMAND;
use crate::number::{decimal, push_decimal};
use crate::request::{header_views, parse_request_at, request_in, ParsedRequest, Request};
use crate::response::{
    canonical_reason, format_response, json_reprinted, reason_of, response_document, shown_body,
};
use crate::store::TextMap;
use crate::text::{around, chars_of, lines_in, same, text_view, views};
use crate::variables::{
    answer_view, asked_names, can_become, defined_by, did_become, env_names, lemma_some_outcome,
    outcome_view, parse_file_variables, substitute_all, surely_becomes,
};

verus! {

/// An argument of a command, as far as the server reads it.
#[derive(Debug)]
pub enum Argument {
    /// A text.
    Text(String),
    /// A whole number that is not negative.
    Number(u64),
    /// Anything else.
    Other,
}

/// The text that an argument holds; of any other, the empty one.
pub open spec fn argument_text(a: Argument) -> Seq<char> {
    match a {
        Argument::Text(t) => t@,
        _ => Seq::empty(),
    }
}

/// The line that an argument tells; of any other, the first. Of a number that
/// `usize` cannot hold, which takes a `usize` of 32 bits, the low 32 bits count.
pub open spec fn argument_line(a: Argument) -> usize {
    match a {
        Argument::Number(n) => if n <= usize::MAX {
            n as usize
        } else {
            (n % 0x1_0000_0000) as usize
        },
        _ => 0,
    }
}

/// The form that a URI has in the table of open documents, if it is a URI.
pub uninterp spec fn uri_form(uri: Seq<char>) -> Option<Seq<char>>;

/// `url::Url::parse`, by the name under which `tower_lsp` hands it on: the URI
/// as it is written in its normal form, or `None` where it is no absolute URI.
#[verifier::external_body]
fn parse_uri(uri: &str) -> (r: Option<String>)
    ensures
        text_view(r) == uri_form(uri@),
{
    tower_lsp::lsp_types::Url::parse(uri).ok().map(|u| u.to_string())
}

/// What a command leads to in the open documents.
#[verifier::ext_equal]
pub enum Target {
    /// The command is another one.
    Nothing,
    /// The request cannot be found, for this reason.
    Refused(Seq<char>),
    /// The document, and the request in it.
    Found(Seq<char>, Request),
}

/// The request at the line `line` of the document that `uri` leads to.
pub open spec fn target_at(
    docs: Map<Seq<char>, Seq<char>>,
    uri: Option<Seq<char>>,
    line: int,
) -> Target {
    match uri {
        Some(uri) => if docs.contains_key(uri) {
            match request_in(lines_in(docs[uri]), line) {
                Some(request) => Target::Found(docs[uri], request),
                None => Target::Refused("Nie udało się sparsować requestu"@),
            }
        } else {
            Target::Refused("Dokument nie jest otwarty"@)
        },
        None => Target::Refused("Nieprawidłowe URI"@),
    }
}

/// What the command with these arguments leads to.
pub open spec fn target(
    docs: Map<Seq<char>, Seq<char>>,
    command: Seq<char>,
    arguments: Seq<Argument>,
) -> Target {
    if command != SEND_COMMAND@ {
        Target::Nothing
    } else if arguments.len() < 1 {
        Target::Refused("Brak uri w argumentach"@)
    } else if arguments.len() < 2 {
        Target::Refused("Brak line w argumentach"@)
    } else {
        target_at(docs, uri_form(argument_text(arguments[0])), argument_line(arguments[1]) as int)
    }
}

/// What a command leads to: nothing, a reason why not, or a document and the
/// request in it.
pub enum Located {
    Nothing,
    Refused(String),
    Found(String, ParsedRequest),
}

impl View for Located {
    type V = Target;

    open spec fn view(&self) -> Target {
        match self {
            Located::Nothing => Target::Nothing,
            Located::Refused(reason) => Target::Refused(reason@),
            Located::Found(text, request) => Target::Found(text@, request@),
        }
    }
}

/// Finds the request at a line of the document that the URI leads to.
pub fn locate_at(docs: &TextMap, uri: &Option<String>, line: usize) -> (r: Located)
    ensures
        r@ == target_at(docs@, text_view(*uri), line as int),
{
    match uri {
        Some(uri) => match docs.get(uri.as_str()) {
            Some(text) => match parse_request_at(text.as_str(), line) {
                Some(request) => Located::Found(text.clone(), request),
                None => Located::Refused("Nie udało się sparsować requestu".to_owned()),
            },
            None => Located::Refused("Dokument nie jest otwarty".to_owned()),
        },
        None => Located::Refused("Nieprawidłowe URI".to_owned()),
    }
}

/// Finds the request that the command with these arguments is about.
pub fn locate(docs: &TextMap, command: &str, arguments: &Vec<Argument>) -> (r: Located)
    ensures
        r@ == target(docs@, command@, arguments@),
{
    if !same(chars_of(command).as_slice(), SEND_COMMAND) {
        return Located::Nothing;
    }
    if arguments.len() < 1 {
        return Located::Refused("Brak uri w argumentach".to_owned());
    }
    if arguments.len() < 2 {
        return Located::Refused("Brak line w argumentach".to_owned());
    }
    let uri: String = match &arguments[0] {
        Argument::Text(t) => t.clone(),
        _ => String::new(),
    };
    let line: usize = match &arguments[1] {
        Argument::Number(n) => if *n <= usize::MAX as u64 {
            *n as usize
        } else {
            (*n % 0x1_0000_0000) as usize
        },
        _ => 0,
    };
    locate_at(docs, &parse_uri(uri.as_str()), line)
}

/// The names that the substitutions in the first `n` headers ask the environment
/// for.
pub open spec fn header_names(
    headers: Seq<(Seq<char>, Seq<char>)>,
    vars: Map<Seq<char>, Seq<char>>,
    n: int,
) -> Seq<Seq<char>>
    decreases n,
{
    if n <= 0 {
        Seq::empty()
    } else {
        header_names(headers, vars, n - 1) + asked_names(headers[n - 1].0, vars) + asked_names(
            headers[n - 1].1,
            vars,
        )
    }
}

/// The names that the substitutions in `request` ask the environment for.
pub open spec fn request_names(request: Request, vars: Map<Seq<char>, Seq<char>>) -> Seq<
    Seq<char>,
> {
    asked_names(request.url, vars) + header_names(
        request.headers,
        vars,
        request.headers.len() as int,
    ) + (match request.body {
        Some(body) => asked_names(body, vars),
        None => Seq::empty(),
    })
}

/// The names that the work on what a command leads to asks the environment for.
pub open spec fn target_names(target: Target) -> Seq<Seq<char>> {
    match target {
        Target::Found(text, request) => request_names(request, defined_by(lines_in(text))),
        _ => Seq::empty(),
    }
}

/// Appends the names that the substitution in `part` asks the environment for.
fn push_env_names(names: &mut Vec<String>, part: &str, vars: &TextMap)
    ensures
        views(final(names)@) == views(old(names)@) + asked_names(part@, vars@),
{
    let mut more: Vec<String> = env_names(part, vars);
    let ghost asked = more@;
    names.append(&mut more);
    proof {
        assert(views(names@) == views(old(names)@) + views(asked));
    }
}

/// The names that a command asks the environment for. What the environment gives
/// for them is for the caller to find out before the command is followed.
pub fn command_env_names(docs: &TextMap, command: &str, arguments: &Vec<Argument>) -> (r: Vec<
    String,
>)
    ensures
        views(r@) == target_names(target(docs@, command@, arguments@)),
{
    let mut names: Vec<String> = Vec::new();
    proof {
        assert(views(names@) == Seq::<Seq<char>>::empty());
    }
    match locate(docs, command, arguments) {
        Located::Found(text, request) => {
            let vars: TextMap = parse_file_variables(text.as_str());
            let ghost asked = request@;
            push_env_names(&mut names, request.url.as_str(), &vars);
            let ghost first = asked_names(asked.url, vars@);
            proof {
                assert(views(names@) == first + header_names(asked.headers, vars@, 0));
            }
            for i in 0..request.headers.len()
                invariant
                    asked == request@,
                    views(names@) == first + header_names(asked.headers, vars@, i as int),
            {
                let ghost before = header_names(asked.headers, vars@, i as int);
                push_env_names(&mut names, request.headers[i].0.as_str(), &vars);
                push_env_names(&mut names, request.headers[i].1.as_str(), &vars);
                proof {
                    let h = asked.headers[i as int];
                    assert(h == (request.headers@[i as int].0@, request.headers@[i as int].1@));
                    assert(views(names@) == first + (before + asked_names(h.0, vars@)
                        + asked_names(h.1, vars@)));
                }
            }
            match &request.body {
                Some(body) => {
                    push_env_names(&mut names, body.as_str(), &vars);
                },
                None => {},
            }
            proof {
                assert(views(names@) == request_names(asked, vars@));
            }
        },
        _ => {},
    }
    names
}

/// Why a request does not go out: a message, or no answer at all.
pub type Stop = Option<Seq<char>>;

/// What a substitution gives: a text, an error, or no answer at all.
pub type Outcome = Option<Result<Seq<char>, Seq<char>>>;

/// What becomes of a part of a request by the outcome of its substitution.
pub open spec fn part(label: Seq<char>, outcome: Outcome) -> Result<Seq<char>, Stop> {
    match outcome {
        Some(Ok(text)) => Ok(text),
        Some(Err(e)) => Err(Some(label + e)),
        None => Err(None),
    }
}

/// What becomes of a header by the outcomes for its name and its value. A name
/// whose substitution fails stays as it is.
pub open spec fn header_part(
    name: Seq<char>,
    name_outcome: Outcome,
    value_outcome: Outcome,
) -> Result<(Seq<char>, Seq<char>), Stop> {
    match name_outcome {
        Some(found) => match part("header: "@, value_outcome) {
            Ok(value) => Ok(
                (
                    match found {
                        Ok(new_name) => new_name,
                        Err(_) => name,
                    },
                    value,
                ),
            ),
            Err(stop) => Err(stop),
        },
        None => Err(None),
    }
}

/// What becomes of the first `n` headers.
pub open spec fn headers_part(
    headers: Seq<(Seq<char>, Seq<char>)>,
    outcomes: Seq<(Outcome, Outcome)>,
    n: int,
) -> Result<Seq<(Seq<char>, Seq<char>)>, Stop>
    decreases n,
{
    if n <= 0 {
        Ok(Seq::empty())
    } else {
        match headers_part(headers, outcomes, n - 1) {
            Ok(done) => match header_part(headers[n - 1].0, outcomes[n - 1].0, outcomes[n - 1].1) {
                Ok(header) => Ok(done.push(header)),
                Err(stop) => Err(stop),
            },
            Err(stop) => Err(stop),
        }
    }
}

/// The outcomes of all substitutions in a request.
pub struct Outcomes {
    pub url: Outcome,
    pub headers: Seq<(Outcome, Outcome)>,
    pub body: Outcome,
}

/// Whether the substitutions in the headers can have these outcomes.
pub open spec fn headers_can_come_out(
    headers: Seq<(Seq<char>, Seq<char>)>,
    vars: Map<Seq<char>, Seq<char>>,
    env: Map<Seq<char>, Seq<char>>,
    outcomes: Seq<(Outcome, Outcome)>,
) -> bool {
    outcomes.len() == headers.len() && forall|i: int|
        0 <= i < headers.len() ==> can_become(headers[i].0, vars, env, (#[trigger] outcomes[i]).0)
            && can_become(headers[i].1, vars, env, outcomes[i].1)
}

/// Whether the substitutions in the headers had these outcomes.
pub open spec fn headers_did_come_out(
    headers: Seq<(Seq<char>, Seq<char>)>,
    vars: Map<Seq<char>, Seq<char>>,
    env: Map<Seq<char>, Seq<char>>,
    outcomes: Seq<(Outcome, Outcome)>,
) -> bool {
    outcomes.len() == headers.len() && forall|i: int|
        0 <= i < headers.len() ==> did_become(headers[i].0, vars, env, (#[trigger] outcomes[i]).0)
            && did_become(headers[i].1, vars, env, outcomes[i].1)
}

/// Whether the substitutions in `request` had these outcomes.
pub open spec fn did_come_out(
    request: Request,
    vars: Map<Seq<char>, Seq<char>>,
    env: Map<Seq<char>, Seq<char>>,
    o: Outcomes,
) -> bool {
    &&& did_become(request.url, vars, env, o.url)
    &&& headers_did_come_out(request.headers, vars, env, o.headers)
    &&& request.body matches Some(body) ==> did_become(body, vars, env, o.body)
}

/// Whether the substitutions in `request` can have these outcomes.
pub open spec fn can_come_out(
    request: Request,
    vars: Map<Seq<char>, Seq<char>>,
    env: Map<Seq<char>, Seq<char>>,
    o: Outcomes,
) -> bool {
    &&& can_become(request.url, vars, env, o.url)
    &&& headers_can_come_out(request.headers, vars, env, o.headers)
    &&& request.body matches Some(body) ==> can_become(body, vars, env, o.body)
}

/// The request with values in place of its placeholders: the URL first, then
/// the headers in order, then the body. The first part that fails stops it.
pub open spec fn completed(request: Request, o: Outcomes) -> Result<Request, Stop> {
    match part("URL: "@, o.url) {
        Ok(url) => match headers_part(request.headers, o.headers, request.headers.len() as int) {
            Ok(headers) => match request.body {
                Some(_) => match part("body: "@, o.body) {
                    Ok(body) => Ok(
                        Request { method: request.method, url, headers, body: Some(body) },
                    ),
                    Err(stop) => Err(stop),
                },
                None => Ok(Request { method: request.method, url, headers, body: None }),
            },
            Err(stop) => Err(stop),
        },
        Err(stop) => Err(stop),
    }
}

/// Whether the substitutions in the headers have outcomes whatever the clock shows.
pub open spec fn headers_surely_come_out(
    headers: Seq<(Seq<char>, Seq<char>)>,
    vars: Map<Seq<char>, Seq<char>>,
) -> bool {
    forall|i: int|
        0 <= i < headers.len() ==> surely_becomes((#[trigger] headers[i]).0, vars)
            && surely_becomes(headers[i].1, vars)
}

/// Whether the substitutions in `request` have outcomes whatever the clock shows.
pub open spec fn surely_comes_out(request: Request, vars: Map<Seq<char>, Seq<char>>) -> bool {
    &&& surely_becomes(request.url, vars)
    &&& headers_surely_come_out(request.headers, vars)
    &&& request.body matches Some(body) ==> surely_becomes(body, vars)
}

/// What a part of a request holds.
pub open spec fn part_view(r: Result<String, Option<String>>) -> Result<Seq<char>, Stop> {
    match r {
        Ok(text) => Ok(text@),
        Err(stop) => Err(text_view(stop)),
    }
}

/// Takes the outcome of a substitution into a part of a request.
pub fn take_part(label: &str, outcome: Option<Result<String, String>>) -> (r: Result<
    String,
    Option<String>,
>)
    ensures
        part_view(r) == part(label@, outcome_view(outcome)),
{
    match outcome {
        Some(Ok(text)) => Ok(text),
        Some(Err(e)) => {
            let mut message: String = label.to_owned();
            message.append(e.as_str());
            Err(Some(message))
        },
        None => Err(None),
    }
}

/// What a header holds.
pub open spec fn header_view(r: Result<(String, String), Option<String>>) -> Result<
    (Seq<char>, Seq<char>),
    Stop,
> {
    match r {
        Ok((name, value)) => Ok((name@, value@)),
        Err(stop) => Err(text_view(stop)),
    }
}

/// Takes the outcomes for the name and the value of a header into it.
pub fn take_header(
    name: &str,
    name_outcome: Result<String, String>,
    value_outcome: Option<Result<String, String>>,
) -> (r: Result<(String, String), Option<String>>)
    ensures
        header_view(r) == header_part(
            name@,
            Some(answer_view(name_outcome)),
            outcome_view(value_outcome),
        ),
{
    let value: String = match take_part("header: ", value_outcome) {
        Ok(value) => value,
        Err(stop) => {
            return Err(stop);
        },
    };
    let new_name: String = match name_outcome {
        Ok(new_name) => new_name,
        Err(_) => name.to_owned(),
    };
    Ok((new_name, value))
}

/// Once a header stops the request, the headers behind it change nothing.
pub proof fn lemma_headers_stopped(
    headers: Seq<(Seq<char>, Seq<char>)>,
    outcomes: Seq<(Outcome, Outcome)>,
    n: int,
    m: int,
)
    requires
        0 <= n <= m,
        headers_part(headers, outcomes, n) is Err,
    ensures
        headers_part(headers, outcomes, m) == headers_part(headers, outcomes, n),
    decreases m,
{
    if n < m {
        lemma_headers_stopped(headers, outcomes, n, m - 1);
    }
}

proof fn lemma_headers_part_of_prefix(
    headers: Seq<(Seq<char>, Seq<char>)>,
    a: Seq<(Outcome, Outcome)>,
    b: Seq<(Outcome, Outcome)>,
    n: int,
)
    requires
        n <= a.len() <= b.len(),
        forall|i: int| 0 <= i < n ==> a[i] == b[i],
    ensures
        headers_part(headers, a, n) == headers_part(headers, b, n),
    decreases n,
{
    if n > 0 {
        lemma_headers_part_of_prefix(headers, a, b, n - 1);
    }
}

/// Fills up the outcomes for headers whose substitution was not tried.
proof fn lemma_remaining_headers(
    headers: Seq<(Seq<char>, Seq<char>)>,
    vars: Map<Seq<char>, Seq<char>>,
    env: Map<Seq<char>, Seq<char>>,
    tried: Seq<(Outcome, Outcome)>,
) -> (r: Seq<(Outcome, Outcome)>)
    requires
        tried.len() <= headers.len(),
        forall|i: int|
            0 <= i < tried.len() ==> can_become(headers[i].0, vars, env, (#[trigger] tried[i]).0)
                && can_become(headers[i].1, vars, env, tried[i].1),
    ensures
        r.len() == headers.len(),
        forall|i: int| 0 <= i < tried.len() ==> r[i] == tried[i],
        forall|i: int|
            0 <= i < r.len() ==> can_become(headers[i].0, vars, env, (#[trigger] r[i]).0)
                && can_become(headers[i].1, vars, env, r[i].1),
    decreases headers.len() - tried.len(),
{
    if tried.len() == headers.len() {
        tried
    } else {
        let n = tried.len() as int;
        let name = lemma_some_outcome(headers[n].0, vars, env);
        let value = lemma_some_outcome(headers[n].1, vars, env);
        let more = tried.push((name, value));
        let r = lemma_remaining_headers(headers, vars, env, more);
        assert forall|i: int| 0 <= i < tried.len() implies r[i] == tried[i] by {
            assert(more[i] == tried[i]);
        }
        r
    }
}

/// What a request that is completed or stopped holds.
pub open spec fn completed_view(r: Result<ParsedRequest, Option<String>>) -> Result<Request, Stop> {
    match r {
        Ok(request) => Ok(request@),
        Err(stop) => Err(text_view(stop)),
    }
}

/// What headers that are completed or stopped hold.
pub open spec fn headers_done_view(r: Result<Vec<(String, String)>, Option<String>>) -> Result<
    Seq<(Seq<char>, Seq<char>)>,
    Stop,
> {
    match r {
        Ok(headers) => Ok(header_views(headers@)),
        Err(stop) => Err(text_view(stop)),
    }
}

/// Puts values in place of the placeholders in the headers.
fn complete_headers(headers: &Vec<(String, String)>, vars: &TextMap, env: &TextMap) -> (r: Result<
    Vec<(String, String)>,
    Option<String>,
>)
    ensures
        exists|outcomes: Seq<(Outcome, Outcome)>|
            #![trigger headers_can_come_out(header_views(headers@), vars@, env@, outcomes)]
            headers_can_come_out(header_views(headers@), vars@, env@, outcomes)
                && headers_done_view(r) == headers_part(
                header_views(headers@),
                outcomes,
                headers@.len() as int,
            ) && (r is Ok ==> headers_did_come_out(
                header_views(headers@),
                vars@,
                env@,
                outcomes,
            )),
        headers_surely_come_out(header_views(headers@), vars@) ==> (r matches Err(stop) ==> stop
            is Some),
{
    let ghost all = header_views(headers@);
    let ghost mut tried: Seq<(Outcome, Outcome)> = Seq::empty();
    let mut done: Vec<(String, String)> = Vec::new();
    proof {
        assert(header_views(done@) == Seq::<(Seq<char>, Seq<char>)>::empty());
    }
    for i in 0..headers.len()
        invariant
            all == header_views(headers@),
            tried.len() == i,
            forall|j: int|
                0 <= j < i ==> can_become(all[j].0, vars@, env@, (#[trigger] tried[j]).0)
                    && can_become(all[j].1, vars@, env@, tried[j].1),
            forall|j: int|
                0 <= j < i ==> did_become(all[j].0, vars@, env@, (#[trigger] tried[j]).0)
                    && did_become(all[j].1, vars@, env@, tried[j].1),
            headers_part(all, tried, i as int) == Ok::<Seq<(Seq<char>, Seq<char>)>, Stop>(
                header_views(done@),
            ),
    {
        let ghost before = tried;
        let ghost finished = done@;
        proof {
            assert(all[i as int] == (headers@[i as int].0@, headers@[i as int].1@));
        }
        let found: Result<String, String> = match substitute_all(
            headers[i].0.as_str(),
            vars,
            env,
        ) {
            Some(found) => found,
            None => {
                proof {
                    let value = lemma_some_outcome(all[i as int].1, vars@, env@);
                    tried = tried.push((None, value));
                    let rest = lemma_remaining_headers(all, vars@, env@, tried);
                    lemma_headers_part_of_prefix(all, before, rest, i as int);
                    assert(rest[i as int] == tried[i as int]);
                    lemma_headers_stopped(all, rest, i + 1, all.len() as int);
                    assert(headers_can_come_out(all, vars@, env@, rest));
                }
                return Err(None);
            },
        };
        let value: Option<Result<String, String>> = substitute_all(
            headers[i].1.as_str(),
            vars,
            env,
        );
        proof {
            tried = tried.push((Some(answer_view(found)), outcome_view(value)));
            lemma_headers_part_of_prefix(all, before, tried, i as int);
        }
        match take_header(headers[i].0.as_str(), found, value) {
            Ok(header) => {
                let ghost h = (header.0@, header.1@);
                done.push(header);
                proof {
                    assert(header_views(done@) == header_views(finished).push(h));
                }
            },
            Err(stop) => {
                proof {
                    let rest = lemma_remaining_headers(all, vars@, env@, tried);
                    lemma_headers_part_of_prefix(all, tried, rest, i + 1);
                    lemma_headers_stopped(all, rest, i + 1, all.len() as int);
                    assert(headers_can_come_out(all, vars@, env@, rest));
                }
                return Err(stop);
            },
        }
    }
    proof {
        assert(headers_can_come_out(all, vars@, env@, tried));
        assert(headers_did_come_out(all, vars@, env@, tried));
    }
    Ok(done)
}

/// Puts values in place of the placeholders in a request: the variables of the
/// document and the system variables. It stops at the first part for which that
/// fails, but a header's name that fails stays as it is.
pub fn complete_request(request: ParsedRequest, vars: &TextMap, env: &TextMap) -> (r: Result<
    ParsedRequest,
    Option<String>,
>)
    ensures
        exists|o: Outcomes|
            #![trigger completed(request@, o)]
            can_come_out(request@, vars@, env@, o) && completed_view(r) == completed(request@, o)
                && (r is Ok ==> did_come_out(request@, vars@, env@, o)),
        surely_comes_out(request@, vars@) ==> (r matches Err(stop) ==> stop is Some),
{
    let ghost whole = request@;
    let url_outcome: Option<Result<String, String>> = substitute_all(
        request.url.as_str(),
        vars,
        env,
    );
    let ghost first = outcome_view(url_outcome);
    let ghost no_body = match whole.body {
        Some(body) => lemma_some_outcome(body, vars@, env@),
        None => None,
    };
    let url: String = match take_part("URL: ", url_outcome) {
        Ok(url) => url,
        Err(stop) => {
            proof {
                let rest = lemma_remaining_headers(whole.headers, vars@, env@, Seq::empty());
                let o = Outcomes { url: first, headers: rest, body: no_body };
                assert(can_come_out(whole, vars@, env@, o));
                assert(completed(whole, o) == Err::<Request, Stop>(text_view(stop)));
            }
            return Err(stop);
        },
    };
    let headers_done: Result<Vec<(String, String)>, Option<String>> = complete_headers(
        &request.headers,
        vars,
        env,
    );
    let ghost outs = choose|outcomes: Seq<(Outcome, Outcome)>|
        #![trigger headers_can_come_out(whole.headers, vars@, env@, outcomes)]
        headers_can_come_out(whole.headers, vars@, env@, outcomes) && headers_done_view(
            headers_done,
        ) == headers_part(whole.headers, outcomes, whole.headers.len() as int) && (headers_done
            is Ok ==> headers_did_come_out(whole.headers, vars@, env@, outcomes));
    let headers: Vec<(String, String)> = match headers_done {
        Ok(headers) => headers,
        Err(stop) => {
            proof {
                let o = Outcomes { url: first, headers: outs, body: no_body };
                assert(can_come_out(whole, vars@, env@, o));
                assert(completed(whole, o) == Err::<Request, Stop>(text_view(stop)));
            }
            return Err(stop);
        },
    };
    let body: Option<String> = match &request.body {
        Some(body) => {
            let outcome: Option<Result<String, String>> = substitute_all(body.as_str(), vars, env);
            let ghost o = Outcomes {
                url: first,
                headers: outs,
                body: outcome_view(outcome),
            };
            proof {
                assert(can_come_out(whole, vars@, env@, o));
            }
            match take_part("body: ", outcome) {
                Ok(new_body) => {
                    proof {
                        assert(completed(whole, o) is Ok);
                    }
                    Some(new_body)
                },
                Err(stop) => {
                    proof {
                        assert(completed(whole, o) == Err::<Request, Stop>(text_view(stop)));
                    }
                    return Err(stop);
                },
            }
        },
        None => {
            proof {
                let o = Outcomes { url: first, headers: outs, body: no_body };
                assert(can_come_out(whole, vars@, env@, o));
                assert(completed(whole, o) is Ok);
            }
            None
        },
    };
    Ok(ParsedRequest { method: request.method, url, headers, body })
}

/// A method that a request can be sent with.
#[derive(Debug, Clone, Copy, PartialEq, Eq, Structural)]
pub enum Method {
    Get,
    Post,
    Put,
    Delete,
    Patch,
    Head,
    Options,
}

/// The method of that name, if requests can be sent with it.
pub open spec fn method_named(name: Seq<char>) -> Option<Method> {
    if name == "GET"@ {
        Some(Method::Get)
    } else if name == "POST"@ {
        Some(Method::Post)
    } else if name == "PUT"@ {
        Some(Method::Put)
    } else if name == "DELETE"@ {
        Some(Method::Delete)
    } else if name == "PATCH"@ {
        Some(Method::Patch)
    } else if name == "HEAD"@ {
        Some(Method::Head)
    } else if name == "OPTIONS"@ {
        Some(Method::Options)
    } else {
        None
    }
}

/// The method of that name, if requests can be sent with it.
pub fn find_method(name: &str) -> (r: Option<Method>)
    ensures
        r == method_named(name@),
{
    let name: Vec<char> = chars_of(name);
    let name: &[char] = name.as_slice();
    if same(name, "GET") {
        Some(Method::Get)
    } else if same(name, "POST") {
        Some(Method::Post)
    } else if same(name, "PUT") {
        Some(Method::Put)
    } else if same(name, "DELETE") {
        Some(Method::Delete)
    } else if same(name, "PATCH") {
        Some(Method::Patch)
    } else if same(name, "HEAD") {
        Some(Method::Head)
    } else if same(name, "OPTIONS") {
        Some(Method::Options)
    } else {
        None
    }
}

/// What the server answers to the command.
#[derive(Debug, Clone, Copy, PartialEq, Eq, Structural)]
pub enum Answer {
    /// Nothing.
    Nothing,
    /// That the response is there.
    Done,
    /// That the response came but could not be saved.
    DoneUnsaved,
}

/// What is to be done next, in plain texts.
#[verifier::ext_equal]
pub enum Deed {
    Finish(Option<Seq<char>>, Answer),
    Send(Method, Seq<char>, Seq<(Seq<char>, Seq<char>)>, Option<Seq<char>>),
    Save(Seq<char>),
    Open,
}

/// What is to be done next.
#[derive(Debug)]
pub enum Effect {
    /// Show the message, if there is one, and answer the command.
    Finish { message: Option<String>, answer: Answer },
    /// Send a request.
    Send { method: Method, url: String, headers: Vec<(String, String)>, body: Option<String> },
    /// Save the document that shows the response.
    Save { content: String },
    /// Open that document in the editor.
    Open,
}

impl View for Effect {
    type V = Deed;

    open spec fn view(&self) -> Deed {
        match self {
            Effect::Finish { message, answer } => Deed::Finish(text_view(*message), *answer),
            Effect::Send { method, url, headers, body } => Deed::Send(
                *method,
                url@,
                header_views(headers@),
                text_view(*body),
            ),
            Effect::Save { content } => Deed::Save(content@),
            Effect::Open => Deed::Open,
        }
    }
}

/// The request that goes out, or why none does.
pub open spec fn sending(request: Request) -> Deed {
    match method_named(request.method) {
        Some(method) => Deed::Send(method, request.url, request.headers, request.body),
        None => Deed::Finish(
            Some("Nieobsługiwana metoda: "@ + request.method),
            Answer::Nothing,
        ),
    }
}

/// What is to be done about what a command leads to, by the outcomes of the
/// substitutions. Nothing can be done where one of them has no outcome.
pub open spec fn command_deed(target: Target, o: Outcomes) -> Option<Deed> {
    match target {
        Target::Nothing => Some(Deed::Finish(None, Answer::Nothing)),
        Target::Refused(reason) => Some(Deed::Finish(Some(reason), Answer::Nothing)),
        Target::Found(_, request) => match completed(request, o) {
            Ok(request) => Some(sending(request)),
            Err(Some(message)) => Some(Deed::Finish(Some(message), Answer::Nothing)),
            Err(None) => None,
        },
    }
}

/// Whether the substitutions in the request that a command leads to can have
/// these outcomes, with the variables that its document defines.
pub open spec fn target_can_come_out(
    target: Target,
    env: Map<Seq<char>, Seq<char>>,
    o: Outcomes,
) -> bool {
    target matches Target::Found(text, request) ==> can_come_out(
        request,
        defined_by(lines_in(text)),
        env,
        o,
    )
}

/// Whether the substitutions in the request that a command leads to had these
/// outcomes, with the variables that its document defines.
pub open spec fn target_did_come_out(
    target: Target,
    env: Map<Seq<char>, Seq<char>>,
    o: Outcomes,
) -> bool {
    target matches Target::Found(text, request) ==> did_come_out(
        request,
        defined_by(lines_in(text)),
        env,
        o,
    )
}

/// Whether what a command leads to has an outcome whatever the clock shows.
pub open spec fn target_surely_comes_out(target: Target) -> bool {
    target matches Target::Found(text, request) ==> surely_comes_out(
        request,
        defined_by(lines_in(text)),
    )
}

/// The deed in an optional effect.
pub open spec fn effect_view(r: Option<Effect>) -> Option<Deed> {
    match r {
        Some(effect) => Some(effect@),
        None => None,
    }
}

/// The request that goes out, or the message why none does.
pub fn send_or_refuse(request: ParsedRequest) -> (r: Effect)
    ensures
        r@ == sending(request@),
{
    match find_method(request.method.as_str()) {
        Some(method) => Effect::Send {
            method,
            url: request.url,
            headers: request.headers,
            body: request.body,
        },
        None => {
            let mut message: String = "Nieobsługiwana metoda: ".to_owned();
            message.append(request.method.as_str());
            Effect::Finish { message: Some(message), answer: Answer::Nothing }
        },
    }
}

/// What is to be done about a command: nothing, a message, or a request to send.
/// `env` holds what the environment gives for the names that `command_env_names`
/// lists. There is no answer where a placeholder in the request has none.
pub fn on_command(
    docs: &TextMap,
    env: &TextMap,
    command: &str,
    arguments: &Vec<Argument>,
) -> (r: Option<Effect>)
    ensures
        exists|o: Outcomes|
            #![trigger target_can_come_out(target(docs@, command@, arguments@), env@, o)]
            target_can_come_out(target(docs@, command@, arguments@), env@, o) && effect_view(r)
                == command_deed(target(docs@, command@, arguments@), o) && (r matches Some(
                Effect::Send { .. },
            ) ==> target_did_come_out(target(docs@, command@, arguments@), env@, o)),
        target_surely_comes_out(target(docs@, command@, arguments@)) ==> r is Some,
{
    let ghost goal = target(docs@, command@, arguments@);
    let ghost none = Outcomes { url: None, headers: Seq::empty(), body: None };
    match locate(docs, command, arguments) {
        Located::Nothing => {
            proof {
                assert(target_can_come_out(goal, env@, none));
            }
            Some(Effect::Finish { message: None, answer: Answer::Nothing })
        },
        Located::Refused(reason) => {
            proof {
                assert(target_can_come_out(goal, env@, none));
            }
            Some(Effect::Finish { message: Some(reason), answer: Answer::Nothing })
        },
        Located::Found(text, request) => {
            let vars: TextMap = parse_file_variables(text.as_str());
            let ghost asked = request@;
            let done: Result<ParsedRequest, Option<String>> = complete_request(
                request,
                &vars,
                env,
            );
            proof {
                let o = choose|o: Outcomes|
                    #![trigger completed(asked, o)]
                    can_come_out(asked, vars@, env@, o) && completed_view(done) == completed(
                        asked,
                        o,
                    ) && (done is Ok ==> did_come_out(asked, vars@, env@, o));
                assert(target_can_come_out(goal, env@, o));
            }
            match done {
                Ok(request) => Some(send_or_refuse(request)),
                Err(Some(message)) => Some(
                    Effect::Finish { message: Some(message), answer: Answer::Nothing },
                ),
                Err(None) => None,
            }
        },
    }
}

/// What came back for a request.
#[derive(Debug)]
pub enum Reply {
    /// A response; its body, or why it could not be read.
    Response {
        status: u16,
        content_type: Option<String>,
        body: Result<String, String>,
    },
    /// No response, for this reason.
    Failure { error: String },
}

/// The body of a response as text.
pub open spec fn body_text(body: Result<String, String>) -> Seq<char> {
    match body {
        Ok(text) => text@,
        Err(e) => "<read error: "@ + e@ + ">"@,
    }
}

/// The document that shows a reply, given the reason phrase of its status code if
/// the code has one.
pub open spec fn reply_document_with(
    reply: Reply,
    reason: Option<Seq<char>>,
    elapsed_ms: u128,
) -> Seq<char> {
    match reply {
        Reply::Response { status, content_type, body } => {
            response_document(
                status,
                match reason {
                    Some(text) => text,
                    None => Seq::empty(),
                },
                elapsed_ms,
                shown_body(
                    text_view(content_type),
                    body_text(body),
                    json_reprinted(body_text(body)),
                ),
            )
        },
        Reply::Failure { error } => "REQUEST ERROR | "@ + decimal(elapsed_ms as nat) + "ms\n\n"@
            + error@,
    }
}

/// The document that shows a reply.
pub open spec fn reply_document(reply: Reply, elapsed_ms: u128) -> Seq<char> {
    match reply {
        Reply::Response { status, .. } => reply_document_with(
            reply,
            canonical_reason(status),
            elapsed_ms,
        ),
        Reply::Failure { .. } => reply_document_with(reply, None, elapsed_ms),
    }
}

/// The document that shows a reply, which took so many milliseconds, given the
/// reason phrase of its status code if the code has one.
pub fn show_reply_with(reply: &Reply, reason: Option<String>, elapsed_ms: u128) -> (r: String)
    ensures
        r@ == reply_document_with(*reply, text_view(reason), elapsed_ms),
{
    match reply {
        Reply::Response { status, content_type, body } => {
            let status_text: String = match reason {
                Some(text) => text,
                None => String::new(),
            };
            let text: String = match body {
                Ok(text) => text.clone(),
                Err(e) => around("<read error: ", e.as_str(), ">"),
            };
            let kind: Option<&str> = match content_type {
                Some(t) => Some(t.as_str()),
                None => None,
            };
            format_response(*status, status_text.as_str(), elapsed_ms, kind, text.as_str())
        },
        Reply::Failure { error } => {
            let mut out: String = "REQUEST ERROR | ".to_owned();
            push_decimal(&mut out, elapsed_ms);
            out.append("ms\n\n");
            out.append(error.as_str());
            out
        },
    }
}

/// The document that shows a reply, which took so many milliseconds.
pub fn show_reply(reply: &Reply, elapsed_ms: u128) -> (r: String)
    ensures
        r@ == reply_document(*reply, elapsed_ms),
{
    let reason: Option<String> = match reply {
        Reply::Response { status, .. } => reason_of(*status),
        Reply::Failure { .. } => None,
    };
    show_reply_with(reply, reason, elapsed_ms)
}

/// How far the server is with a command.
#[derive(Debug, Clone, Copy, PartialEq, Eq, Structural)]
pub enum Phase {
    /// No command came yet.
    Idle,
    /// The request is out.
    Sent,
    /// The document is being saved.
    Saving,
    /// The editor is being asked to open the document.
    Opening,
    /// The command is answered.
    Finished,
}

/// What happens while the server works on a command.
#[derive(Debug)]
pub enum Event {
    Command { command: String, arguments: Vec<Argument> },
    Reply { reply: Reply, elapsed_ms: u128 },
    /// The document was saved, or why not.
    Saved { result: Result<(), String> },
    /// The editor was started, or why not.
    Opened { result: Result<(), String> },
}

/// Whether `event` is what the server waits for.
pub open spec fn awaited(phase: Phase, event: Event) -> bool {
    match event {
        Event::Command { .. } => phase == Phase::Idle,
        Event::Reply { .. } => phase == Phase::Sent,
        Event::Saved { .. } => phase == Phase::Saving,
        Event::Opened { .. } => phase == Phase::Opening,
    }
}

/// Whether `event` is what the server waits for.
pub fn is_awaited(phase: Phase, event: &Event) -> (r: bool)
    ensures
        r == awaited(phase, *event),
{
    match event {
        Event::Command { .. } => phase == Phase::Idle,
        Event::Reply { .. } => phase == Phase::Sent,
        Event::Saved { .. } => phase == Phase::Saving,
        Event::Opened { .. } => phase == Phase::Opening,
    }
}

/// The phase in which the server waits for the deed to be done.
pub open spec fn phase_of(deed: Deed) -> Phase {
    match deed {
        Deed::Finish(..) => Phase::Finished,
        Deed::Send(..) => Phase::Sent,
        Deed::Save(_) => Phase::Saving,
        Deed::Open => Phase::Opening,
    }
}

/// What is to be done about an event other than the command.
pub open spec fn later_deed(event: Event) -> Deed {
    match event {
        Event::Reply { reply, elapsed_ms } => Deed::Save(reply_document(reply, elapsed_ms)),
        Event::Saved { result: Ok(_) } => Deed::Open,
        Event::Saved { result: Err(e) } => Deed::Finish(
            Some("zapis do tmp poległ: "@ + e@),
            Answer::DoneUnsaved,
        ),
        Event::Opened { result: Ok(_) } => Deed::Finish(None, Answer::Done),
        Event::Opened { result: Err(e) } => Deed::Finish(
            Some(
                "nie udało się odpalić `zed` CLI: "@ + e@
                    + ". Sprawdź czy CLI jest zainstalowane (cmd+shift+p → cli: install)"@,
            ),
            Answer::Done,
        ),
        Event::Command { .. } => Deed::Finish(None, Answer::Nothing),
    }
}

/// What is to be done about an event, by the outcomes of the substitutions in
/// the request.
pub open spec fn deed(event: Event, docs: Map<Seq<char>, Seq<char>>, o: Outcomes) -> Option<Deed> {
    match event {
        Event::Command { command, arguments } => command_deed(
            target(docs, command@, arguments@),
            o,
        ),
        _ => Some(later_deed(event)),
    }
}

/// Whether the substitutions that an event leads to can have these outcomes.
pub open spec fn event_can_come_out(
    event: Event,
    docs: Map<Seq<char>, Seq<char>>,
    env: Map<Seq<char>, Seq<char>>,
    o: Outcomes,
) -> bool {
    event matches Event::Command { command, arguments } ==> target_can_come_out(
        target(docs, command@, arguments@),
        env,
        o,
    )
}

/// Whether the substitutions that an event leads to had these outcomes.
pub open spec fn event_did_come_out(
    event: Event,
    docs: Map<Seq<char>, Seq<char>>,
    env: Map<Seq<char>, Seq<char>>,
    o: Outcomes,
) -> bool {
    event matches Event::Command { command, arguments } ==> target_did_come_out(
        target(docs, command@, arguments@),
        env,
        o,
    )
}

/// The next phase for an effect.
fn next_phase(effect: &Effect) -> (r: Phase)
    ensures
        r == phase_of(effect@),
{
    match effect {
        Effect::Finish { .. } => Phase::Finished,
        Effect::Send { .. } => Phase::Sent,
        Effect::Save { .. } => Phase::Saving,
        Effect::Open => Phase::Opening,
    }
}

/// One step of the work on a command: what is to be done about `event`, and the
/// phase in which the server then is. `env` holds what the environment gives for
/// the names that `command_env_names` lists. There is no answer where a
/// placeholder in the request has none.
pub fn step(phase: Phase, event: &Event, docs: &TextMap, env: &TextMap) -> (r: Option<
    (Phase, Effect),
>)
    requires
        awaited(phase, *event),
    ensures
        exists|o: Outcomes|
            #![trigger event_can_come_out(*event, docs@, env@, o)]
            event_can_come_out(*event, docs@, env@, o) && (match r {
                Some((next, effect)) => deed(*event, docs@, o) == Some(effect@) && next == phase_of(
                    effect@,
                ) && (effect is Send ==> event_did_come_out(*event, docs@, env@, o)),
                None => deed(*event, docs@, o) is None,
            }),
        (event matches Event::Command { command, arguments } ==> target_surely_comes_out(
            target(docs@, command@, arguments@),
        )) ==> r is Some,
{
    let ghost none = Outcomes { url: None, headers: Seq::empty(), body: None };
    let effect: Effect = match event {
        Event::Command { command, arguments } => {
            let r: Option<Effect> = on_command(docs, env, command.as_str(), arguments);
            proof {
                let goal = target(docs@, command@, arguments@);
                let o = choose|o: Outcomes|
                    #![trigger target_can_come_out(goal, env@, o)]
                    target_can_come_out(goal, env@, o) && effect_view(r) == command_deed(goal, o)
                        && (r matches Some(Effect::Send { .. }) ==> target_did_come_out(
                        goal,
                        env@,
                        o,
                    ));
                assert(event_can_come_out(*event, docs@, env@, o));
            }
            match r {
                Some(effect) => effect,
                None => {
                    return None;
                },
            }
        },
        Event::Reply { reply, elapsed_ms } => {
            proof {
                assert(event_can_come_out(*event, docs@, env@, none));
            }
            Effect::Save { content: show_reply(reply, *elapsed_ms) }
        },
        Event::Saved { result } => {
            proof {
                assert(event_can_come_out(*event, docs@, env@, none));
            }
            match result {
                Ok(_) => Effect::Open,
                Err(e) => {
                    let mut message: String = "zapis do tmp poległ: ".to_owned();
                    message.append(e.as_str());
                    Effect::Finish { message: Some(message), answer: Answer::DoneUnsaved }
                },
            }
        },
        Event::Opened { result } => {
            proof {
                assert(event_can_come_out(*event, docs@, env@, none));
            }
            match result {
                Ok(_) => Effect::Finish { message: None, answer: Answer::Done },
                Err(e) => Effect::Finish {
                    message: Some(
                        around(
                            "nie udało się odpalić `zed` CLI: ",
                            e.as_str(),
                            ". Sprawdź czy CLI jest zainstalowane (cmd+shift+p → cli: install)",
                        ),
                    ),
                    answer: Answer::Done,
                },
            }
        },
    };
    let next: Phase = next_phase(&effect);
    Some((next, effect))
}

} // verus!
