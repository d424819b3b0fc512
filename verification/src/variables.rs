//! Variables: what a document defines, and what takes the place of the
//! placeholders in a text.

use vstd::prelude::*;

use crate::clock::{
    apply_offset, clock_gave, datetime_args, format_datetime, format_named, formatted, offset_from,
    offset_seconds, read_clock, split_datetime_args, sure_format, sure_offset, Moment,
};
use crate::number::{parse_i64, parsed_i64, signed_decimal, signed_string};
use crate::pattern::{
    after, before, definition_in, find_definition, find_system, find_user, groups, lemma_after,
    lemma_place_from, match_at, place, Captured, Kind,
};
use crate::store::TextMap;
use crate::text::{
    around, chars_of, first, lemma_first, lines_in, same, split_lines, split_words, string_of,
    text_view, trim, trimmed, views, without_return, words,
};

verus! {

/// What a result with texts holds.
pub open spec fn answer_view(r: Result<String, String>) -> Result<Seq<char>, Seq<char>> {
    match r {
        Ok(text) => Ok(text@),
        Err(message) => Err(message@),
    }
}

/// What an optional result with texts holds.
pub open spec fn outcome_view(r: Option<Result<String, String>>) -> Option<
    Result<Seq<char>, Seq<char>>,
> {
    match r {
        Some(a) => Some(answer_view(a)),
        None => None,
    }
}

/// `t` with the value of each variable that `vars` knows in place of its
/// placeholders. The other placeholders stay.
pub open spec fn user_expanded(t: Seq<char>, vars: Map<Seq<char>, Seq<char>>) -> Seq<char>
    decreases t.len(),
    when true
    via user_expanded_shrinks
{
    match place(Kind::User, t) {
        Some(_) => {
            let g = groups(Kind::User, t);
            before(Kind::User, t) + (if vars.contains_key(g[1]) {
                vars[g[1]]
            } else {
                g[0]
            }) + user_expanded(after(Kind::User, t), vars)
        },
        None => t,
    }
}

#[via_fn]
proof fn user_expanded_shrinks(t: Seq<char>, vars: Map<Seq<char>, Seq<char>>) {
    if place(Kind::User, t) is Some {
        lemma_after(Kind::User, t);
    }
}

/// `input` with the value of each variable that `vars` knows in place of its
/// placeholders.
pub fn substitute_user_vars(input: &str, vars: &TextMap) -> (r: String)
    ensures
        r@ == user_expanded(input@, vars@),
{
    let mut out = String::new();
    let mut rest: String = input.to_owned();
    proof {
        assert(out@ + user_expanded(rest@, vars@) == user_expanded(input@, vars@));
    }
    loop
        invariant
            out@ + user_expanded(rest@, vars@) == user_expanded(input@, vars@),
        ensures
            out@ + rest@ == user_expanded(input@, vars@),
        decreases rest@.len(),
    {
        let found: Captured = match find_user(rest.as_str()) {
            Some(found) => found,
            None => {
                break;
            },
        };
        let ghost whole = rest@;
        let ghost done = out@;
        proof {
            lemma_after(Kind::User, whole);
            assert(views(found.groups@)[0] == found.groups@[0]@);
            assert(views(found.groups@)[1] == found.groups@[1]@);
        }
        out.append(found.before.as_str());
        match vars.get(found.groups[1].as_str()) {
            Some(value) => {
                out.append(value.as_str());
            },
            None => {
                out.append(found.groups[0].as_str());
            },
        }
        rest = found.after;
        proof {
            assert(out@ + user_expanded(rest@, vars@) == done + user_expanded(whole, vars@));
        }
    }
    out.append(rest.as_str());
    out
}

/// The variables that the lines define. A value may use the variables that the
/// lines before it define; a later definition of a name takes the place of an
/// earlier one.
pub open spec fn defined_by(lines: Seq<Seq<char>>) -> Map<Seq<char>, Seq<char>>
    decreases lines.len(),
{
    if lines.len() == 0 {
        Map::empty()
    } else {
        let vars = defined_by(lines.drop_last());
        match definition_in(lines.last()) {
            Some(g) => vars.insert(g[1], user_expanded(g[2], vars)),
            None => vars,
        }
    }
}

proof fn lemma_definition_place(t: Seq<char>)
    ensures
        place(Kind::Definition, t) is Some
            == definition_in(t) is Some,
        definition_in(t) is Some ==> groups(Kind::Definition, t)
            == definition_in(t)->0,
{
    lemma_place_from(Kind::Definition, t, 0);
    if definition_in(t) is Some {
        assert(match_at(Kind::Definition, t, 0) is Some);
    }
}

/// No line of a text holds a line feed.
proof fn lemma_lines_hold_no_feed(t: Seq<char>)
    ensures
        forall|i: int|
            0 <= i < lines_in(t).len() ==> !(
            #[trigger] lines_in(t)[i]).contains('\n'),
    decreases t.len(),
{
    lemma_first(t, '\n');
    let k = first(t, '\n');
    if t.len() == 0 {
    } else if k == t.len() {
    } else {
        let head = without_return(t.take(k));
        assert(!head.contains('\n')) by {
            if head.contains('\n') {
                let j = choose|j: int| 0 <= j < head.len() && head[j] == '\n';
                assert(t[j] == head[j]);
            }
        }
        lemma_lines_hold_no_feed(t.skip(k + 1));
        let all = lines_in(t);
        assert forall|i: int| 0 <= i < all.len() implies !(#[trigger] all[i]).contains('\n') by {
            if i > 0 {
                assert(all[i] == lines_in(t.skip(k + 1))[i - 1]);
            }
        }
    }
}

/// The variables that `text` defines, each in a line such as `@name = value`.
pub fn parse_file_variables(text: &str) -> (r: TextMap)
    ensures
        r@ == defined_by(lines_in(text@)),
{
    let lines: Vec<String> = split_lines(text);
    let ghost all = lines_in(text@);
    let mut vars: TextMap = TextMap::new();
    proof {
        lemma_lines_hold_no_feed(text@);
        assert(all.take(0) == Seq::<Seq<char>>::empty());
    }
    for i in 0..lines.len()
        invariant
            all == views(lines@),
            forall|j: int| 0 <= j < all.len() ==> !(#[trigger] all[j]).contains('\n'),
            vars@ == defined_by(all.take(i as int)),
    {
        proof {
            let upto = all.take(i + 1);
            assert(upto.drop_last() == all.take(i as int));
            assert(upto.last() == lines@[i as int]@);
            assert(!all[i as int].contains('\n'));
            lemma_definition_place(lines@[i as int]@);
        }
        match find_definition(lines[i].as_str()) {
            Some(found) => {
                proof {
                    let g = definition_in(lines@[i as int]@)->0;
                    assert(views(found.groups@) == g);
                    assert(views(found.groups@)[1] == found.groups@[1]@);
                    assert(views(found.groups@)[2] == found.groups@[2]@);
                }
                let name: String = found.groups[1].clone();
                let value: String = substitute_user_vars(found.groups[2].as_str(), &vars);
                vars.insert(name, value);
            },
            None => {},
        }
    }
    proof {
        assert(all.take(all.len() as int) == all);
    }
    vars
}

/// The system variables that `t` calls for, in order, each with its arguments.
pub open spec fn system_calls(t: Seq<char>) -> Seq<(Seq<char>, Seq<char>)>
    decreases t.len(),
    when true
    via system_calls_shrink
{
    match place(Kind::System, t) {
        Some(_) => {
            let g = groups(Kind::System, t);
            seq![(g[1], trimmed(g[2]))] + system_calls(
                after(Kind::System, t),
            )
        },
        None => Seq::empty(),
    }
}

#[via_fn]
proof fn system_calls_shrink(t: Seq<char>) {
    if place(Kind::System, t) is Some {
        lemma_after(Kind::System, t);
    }
}

/// `t` with the answers in place of its calls for system variables, in order.
/// A call whose answer is an error stays.
pub open spec fn filled(t: Seq<char>, answers: Seq<Result<Seq<char>, Seq<char>>>) -> Seq<char>
    decreases t.len(),
    when true
    via filled_shrinks
{
    match place(Kind::System, t) {
        Some(_) => {
            let g = groups(Kind::System, t);
            before(Kind::System, t) + (match answers[0] {
                Ok(value) => value,
                Err(_) => g[0],
            }) + filled(after(Kind::System, t), answers.skip(1))
        },
        None => t,
    }
}

#[via_fn]
proof fn filled_shrinks(t: Seq<char>, answers: Seq<Result<Seq<char>, Seq<char>>>) {
    if place(Kind::System, t) is Some {
        lemma_after(Kind::System, t);
    }
}

/// The last error among the answers.
pub open spec fn last_error(answers: Seq<Result<Seq<char>, Seq<char>>>) -> Option<Seq<char>>
    decreases answers.len(),
{
    if answers.len() == 0 {
        None
    } else {
        match answers.last() {
            Err(e) => Some(e),
            Ok(_) => last_error(answers.drop_last()),
        }
    }
}

/// What becomes of `t` with these answers to its calls: the last error, or the
/// text with the answers in place.
pub open spec fn system_filled(t: Seq<char>, answers: Seq<Result<Seq<char>, Seq<char>>>) -> Result<
    Seq<char>,
    Seq<char>,
> {
    match last_error(answers) {
        Some(e) => Err(e),
        None => Ok(filled(t, answers)),
    }
}

/// A call for a system variable.
#[derive(Debug)]
pub struct SystemCall {
    pub name: String,
    pub args: String,
}

/// The names and arguments in the calls.
pub open spec fn call_views(calls: Seq<SystemCall>) -> Seq<(Seq<char>, Seq<char>)> {
    Seq::new(calls.len(), |i: int| (calls[i].name@, calls[i].args@))
}

/// What the answers hold.
pub open spec fn answer_views(answers: Seq<Result<String, String>>) -> Seq<
    Result<Seq<char>, Seq<char>>,
> {
    Seq::new(answers.len(), |i: int| answer_view(answers[i]))
}

/// The system variables that `input` calls for, in order.
pub fn find_system_calls(input: &str) -> (r: Vec<SystemCall>)
    ensures
        call_views(r@) == system_calls(input@),
{
    let mut out: Vec<SystemCall> = Vec::new();
    let mut rest: String = input.to_owned();
    proof {
        assert(call_views(out@) + system_calls(rest@) == system_calls(input@));
    }
    loop
        invariant
            call_views(out@) + system_calls(rest@) == system_calls(input@),
        ensures
            call_views(out@) == system_calls(input@),
        decreases rest@.len(),
    {
        let found: Captured = match find_system(rest.as_str()) {
            Some(found) => found,
            None => {
                proof {
                    assert(call_views(out@) + system_calls(rest@) == call_views(out@));
                }
                break;
            },
        };
        let ghost whole = rest@;
        let ghost done = out@;
        proof {
            lemma_after(Kind::System, whole);
            assert(views(found.groups@)[1] == found.groups@[1]@);
            assert(views(found.groups@)[2] == found.groups@[2]@);
        }
        let name: String = found.groups[1].clone();
        let args: String = string_of(trim(chars_of(found.groups[2].as_str()).as_slice()));
        let ghost call = (name@, args@);
        out.push(SystemCall { name, args });
        rest = found.after;
        proof {
            assert(call_views(out@) == call_views(done).push(call));
            assert(call_views(out@) + system_calls(rest@) == call_views(done) + (seq![call]
                + system_calls(rest@)));
        }
    }
    out
}

proof fn lemma_last_error_pushed(
    answers: Seq<Result<Seq<char>, Seq<char>>>,
    answer: Result<Seq<char>, Seq<char>>,
)
    ensures
        last_error(answers.push(answer)) == (match answer {
            Err(e) => Some(e),
            Ok(_) => last_error(answers),
        }),
{
    assert(answers.push(answer).drop_last() == answers);
}

/// `input` with the answers in place of its calls for system variables, or the
/// last error among the answers.
pub fn fill_system_vars(input: &str, answers: &Vec<Result<String, String>>) -> (r: Result<
    String,
    String,
>)
    requires
        answers@.len() == system_calls(input@).len(),
    ensures
        answer_view(r) == system_filled(input@, answer_views(answers@)),
{
    let ghost all = answer_views(answers@);
    let mut out = String::new();
    let mut rest: String = input.to_owned();
    let mut error: Option<String> = None;
    let n: usize = answers.len();
    let mut i: usize = 0;
    proof {
        assert(all.skip(0) == all);
        assert(all.take(0) == Seq::<Result<Seq<char>, Seq<char>>>::empty());
        assert(out@ + filled(rest@, all.skip(0)) == filled(input@, all));
    }
    loop
        invariant
            all == answer_views(answers@),
            i <= n == answers@.len(),
            system_calls(rest@).len() == answers@.len() - i,
            out@ + filled(rest@, all.skip(i as int)) == filled(input@, all),
            text_view(error) == last_error(all.take(i as int)),
        ensures
            i == answers@.len(),
            out@ + rest@ == filled(input@, all),
            text_view(error) == last_error(all.take(i as int)),
        decreases rest@.len(),
    {
        let found: Captured = match find_system(rest.as_str()) {
            Some(found) => found,
            None => {
                break;
            },
        };
        let ghost whole = rest@;
        let ghost done = out@;
        proof {
            lemma_after(Kind::System, whole);
            assert(views(found.groups@)[0] == found.groups@[0]@);
            assert(all.skip(i as int)[0] == answer_view(answers@[i as int]));
            assert(all.skip(i as int).skip(1) == all.skip(i + 1));
            assert(all.take(i + 1) == all.take(i as int).push(all[i as int]));
            lemma_last_error_pushed(all.take(i as int), all[i as int]);
        }
        out.append(found.before.as_str());
        match &answers[i] {
            Ok(value) => {
                out.append(value.as_str());
            },
            Err(e) => {
                out.append(found.groups[0].as_str());
                error = Some(e.clone());
            },
        }
        rest = found.after;
        i += 1;
        proof {
            assert(out@ + filled(rest@, all.skip(i as int)) == done + filled(
                whole,
                all.skip(i - 1),
            ));
        }
    }
    proof {
        assert(all.take(i as int) == all);
    }
    match error {
        Some(e) => Err(e),
        None => {
            out.append(rest.as_str());
            Ok(out)
        },
    }
}

/// The bounds in the arguments of `$randomInt`, or what is wrong with them.
pub open spec fn random_bounds(args: Seq<char>) -> Result<(i64, i64), Seq<char>> {
    let parts = words(args);
    if parts.len() != 2 {
        Err("$randomInt wymaga 2 argumentów (min max), dostałem: '"@ + args + "'"@)
    } else {
        match (parsed_i64(parts[0]), parsed_i64(parts[1])) {
            (None, _) => Err("$randomInt: '"@ + parts[0] + "' nie jest liczbą"@),
            (Some(_), None) => Err("$randomInt: '"@ + parts[1] + "' nie jest liczbą"@),
            (Some(min), Some(max)) => if min < max {
                Ok((min, max))
            } else {
                Err(
                    "$randomInt: min ("@ + signed_decimal(min as int) + ") musi być < max ("@
                        + signed_decimal(max as int) + ")"@,
                )
            },
        }
    }
}

/// Reads the bounds in the arguments of `$randomInt`.
pub fn parse_random_bounds(args: &str) -> (r: Result<(i64, i64), String>)
    ensures
        match r {
            Ok(bounds) => random_bounds(args@) == Ok::<(i64, i64), Seq<char>>(bounds),
            Err(e) => random_bounds(args@) == Err::<(i64, i64), Seq<char>>(e@),
        },
        r matches Ok((min, max)) ==> min < max,
{
    let parts: Vec<String> = split_words(chars_of(args).as_slice());
    proof {
        assert(words(args@) == views(parts@));
    }
    if parts.len() != 2 {
        return Err(around("$randomInt wymaga 2 argumentów (min max), dostałem: '", args, "'"));
    }
    let min: i64 = match parse_i64(parts[0].as_str()) {
        Some(n) => n,
        None => {
            return Err(around("$randomInt: '", parts[0].as_str(), "' nie jest liczbą"));
        },
    };
    let max: i64 = match parse_i64(parts[1].as_str()) {
        Some(n) => n,
        None => {
            return Err(around("$randomInt: '", parts[1].as_str(), "' nie jest liczbą"));
        },
    };
    if min >= max {
        let mut message: String = around(
            "$randomInt: min (",
            signed_string(min).as_str(),
            ") musi być < max (",
        );
        message.append(signed_string(max).as_str());
        message.append(")");
        return Err(message);
    }
    Ok((min, max))
}

/// Whether `s` is a random UUID: 32 lower-case hexadecimal digits in five groups
/// with hyphens between them, of version 4 and of the variant of RFC 9562.
pub open spec fn random_uuid(s: Seq<char>) -> bool {
    s.len() == 36 && forall|i: int| 0 <= i < 36 ==> uuid_char(i, #[trigger] s[i])
}

/// Whether `c` can stand at position `i` of a random UUID.
pub open spec fn uuid_char(i: int, c: char) -> bool {
    if i == 8 || i == 13 || i == 18 || i == 23 {
        c == '-'
    } else if i == 14 {
        c == '4'
    } else if i == 19 {
        c == '8' || c == '9' || c == 'a' || c == 'b'
    } else {
        ('0' <= c <= '9') || ('a' <= c <= 'f')
    }
}

/// `uuid::Uuid::new_v4`: some random UUID, written out.
#[verifier::external_body]
fn new_guid() -> (r: String)
    ensures
        random_uuid(r@),
{
    uuid::Uuid::new_v4().to_string()
}

/// `rand::Rng::gen_range`: some number not below `min` and below `max`.
#[verifier::external_body]
fn random_between(min: i64, max: i64) -> (r: i64)
    requires
        min < max,
    ensures
        min <= r < max,
{
    rand::Rng::gen_range(&mut rand::thread_rng(), min..max)
}

/// Whether `guid` is a UUID that was made new.
pub closed spec fn guid_was_made(guid: Seq<char>) -> bool {
    exists|g: String| #[trigger] call_ensures(new_guid, (), g) && g@ == guid
}

/// Whether `draw` is a number that was drawn between `min` and `max`.
pub closed spec fn was_drawn(min: i64, max: i64, draw: i64) -> bool {
    call_ensures(random_between, (min, max), draw)
}

/// Law: a UUID was made new, and a number drawn, by a call that returned it.
proof fn law_chance_was_asked(guid: Seq<char>, min: i64, max: i64, draw: i64)
    ensures
        guid_was_made(guid) <==> exists|g: String| #[trigger]
            call_ensures(new_guid, (), g) && g@ == guid,
        guid_was_made(guid) ==> random_uuid(guid),
        was_drawn(min, max, draw) <==> call_ensures(random_between, (min, max), draw),
        min < max && was_drawn(min, max, draw) ==> min <= draw < max,
{
}

/// What the clock and the random numbers may give to one call for a system
/// variable.
pub struct Chance {
    /// What the clock shows.
    pub now: Moment,
    /// A new UUID.
    pub guid: Seq<char>,
    /// A random number.
    pub draw: i64,
}

/// Whether the clock and the random numbers can give `c` to a call with these
/// arguments.
pub open spec fn can_happen(c: Chance, args: Seq<char>) -> bool {
    &&& c.now.valid()
    &&& c.now.secs >= 0
    &&& random_uuid(c.guid)
    &&& random_bounds(args) matches Ok((min, max)) ==> min <= c.draw < max
}

/// Whether a call for the system variable `name` got what it asked for: the time
/// from the clock, a UUID that was made new, or a number that was drawn.
pub open spec fn given(c: Chance, name: Seq<char>, args: Seq<char>) -> bool {
    &&& name == "timestamp"@ || name == "datetime"@ ==> clock_gave(c.now)
    &&& name == "guid"@ ==> guid_was_made(c.guid)
    &&& name == "randomInt"@ ==> (random_bounds(args) matches Ok((min, max)) ==> was_drawn(
        min,
        max,
        c.draw,
    ))
}

/// The answer to the call `$timestamp`.
pub open spec fn timestamp_answer(args: Seq<char>, now: Moment) -> Option<
    Result<Seq<char>, Seq<char>>,
> {
    if args.len() == 0 {
        Some(Ok(signed_decimal(now.secs as int)))
    } else {
        match offset_from(now, args) {
            Some(Ok(m)) => Some(Ok(signed_decimal(m.secs as int))),
            Some(Err(e)) => Some(Err(e)),
            None => None,
        }
    }
}

/// The answer to the call `$datetime`.
pub open spec fn datetime_answer(args: Seq<char>, now: Moment) -> Option<
    Result<Seq<char>, Seq<char>>,
> {
    let (format, offset) = datetime_args(args);
    let moment = if offset.len() == 0 {
        Some(Ok(now))
    } else {
        offset_from(now, offset)
    };
    match moment {
        Some(Ok(m)) => match formatted(m, format) {
            Some(text) => Some(Ok(text)),
            None => None,
        },
        Some(Err(e)) => Some(Err(e)),
        None => None,
    }
}

/// The answer to the call `$processEnv`, where `env` holds what the environment
/// gives for each name that is asked for.
pub open spec fn env_answer(args: Seq<char>, env: Map<Seq<char>, Seq<char>>) -> Result<
    Seq<char>,
    Seq<char>,
> {
    let name = trimmed(args);
    if name.len() == 0 {
        Err("$processEnv wymaga nazwy zmiennej"@)
    } else if env.contains_key(name) {
        Ok(env[name])
    } else {
        Err("$processEnv: zmienna '"@ + name + "' nie jest ustawiona"@)
    }
}

/// The answer to a call for a system variable: a text or an error; nothing where
/// a moment cannot be told or a format is not one.
pub open spec fn answer(
    name: Seq<char>,
    args: Seq<char>,
    env: Map<Seq<char>, Seq<char>>,
    c: Chance,
) -> Option<Result<Seq<char>, Seq<char>>> {
    if name == "guid"@ {
        Some(Ok(c.guid))
    } else if name == "timestamp"@ {
        timestamp_answer(args, c.now)
    } else if name == "datetime"@ {
        datetime_answer(args, c.now)
    } else if name == "randomInt"@ {
        match random_bounds(args) {
            Ok(_) => Some(Ok(signed_decimal(c.draw as int))),
            Err(e) => Some(Err(e)),
        }
    } else if name == "processEnv"@ {
        Some(env_answer(args, env))
    } else {
        Some(Err("nieznana system variable: $"@ + name))
    }
}

/// Whether a call for a system variable has an answer whatever the clock shows.
pub open spec fn surely_answered(name: Seq<char>, args: Seq<char>) -> bool {
    if name == "timestamp"@ {
        args.len() == 0 || sure_offset(args)
    } else if name == "datetime"@ {
        let (format, offset) = datetime_args(args);
        ||| offset.len() > 0 && offset_seconds(offset) is Err
        ||| (offset.len() == 0 || sure_offset(offset)) && sure_format(format)
    } else {
        true
    }
}

/// Answers a call for a system variable, given what the clock shows, a new UUID
/// and a random number. `env` holds what the environment gives for each name that
/// is asked for.
pub fn resolve_with(
    name: &str,
    args: &str,
    env: &TextMap,
    now: Moment,
    guid: &str,
    draw: i64,
) -> (r: Option<Result<String, String>>)
    requires
        now.valid(),
    ensures
        outcome_view(r) == answer(name@, args@, env@, (Chance { now, guid: guid@, draw })),
        name@ == "datetime"@ && sure_format(datetime_args(args@).0) && (datetime_args(
            args@,
        ).1.len() == 0 || offset_from(now, datetime_args(args@).1) is Some) ==> r is Some,
        name@ == "datetime"@ && !format_named(datetime_args(args@).0).contains('%') && (
        datetime_args(args@).1.len() == 0 || (offset_from(now, datetime_args(args@).1) matches Some(
            Ok(_),
        ))) ==> outcome_view(r) == Some(
            Ok::<Seq<char>, Seq<char>>(format_named(datetime_args(args@).0)),
        ),
{
    proof {
        reveal_strlit("guid");
        reveal_strlit("timestamp");
        reveal_strlit("datetime");
        assert("guid"@.len() == 4 && "timestamp"@.len() == 9 && "datetime"@.len() == 8);
    }
    let called: Vec<char> = chars_of(name);
    let called: &[char] = called.as_slice();
    if same(called, "guid") {
        Some(Ok(guid.to_owned()))
    } else if same(called, "timestamp") {
        if chars_of(args).len() == 0 {
            return Some(Ok(signed_string(now.secs)));
        }
        match apply_offset(now, args) {
            Some(Ok(m)) => Some(Ok(signed_string(m.secs))),
            Some(Err(e)) => Some(Err(e)),
            None => None,
        }
    } else if same(called, "datetime") {
        let (format, offset) = split_datetime_args(args);
        let moment: Moment = if chars_of(offset.as_str()).len() == 0 {
            now
        } else {
            match apply_offset(now, offset.as_str()) {
                Some(Ok(m)) => m,
                Some(Err(e)) => {
                    return Some(Err(e));
                },
                None => {
                    return None;
                },
            }
        };
        match format_datetime(moment, format.as_str()) {
            Some(text) => Some(Ok(text)),
            None => None,
        }
    } else if same(called, "randomInt") {
        match parse_random_bounds(args) {
            Ok(_) => Some(Ok(signed_string(draw))),
            Err(e) => Some(Err(e)),
        }
    } else if same(called, "processEnv") {
        let all: Vec<char> = chars_of(args);
        let wanted: String = string_of(trim(all.as_slice()));
        if chars_of(wanted.as_str()).len() == 0 {
            return Some(Err("$processEnv wymaga nazwy zmiennej".to_owned()));
        }
        match env.get(wanted.as_str()) {
            Some(value) => Some(Ok(value.clone())),
            None => Some(
                Err(around("$processEnv: zmienna '", wanted.as_str(), "' nie jest ustawiona")),
            ),
        }
    } else {
        let mut message: String = "nieznana system variable: $".to_owned();
        message.append(name);
        Some(Err(message))
    }
}

/// Something that the clock and the random numbers can give.
proof fn lemma_some_chance(args: Seq<char>) -> (c: Chance)
    ensures
        can_happen(c, args),
{
    let guid = Seq::new(
        36,
        |i: int|
            if i == 8 || i == 13 || i == 18 || i == 23 {
                '-'
            } else if i == 14 {
                '4'
            } else {
                '8'
            },
    );
    let draw: i64 = match random_bounds(args) {
        Ok((min, _)) => min,
        Err(_) => 0,
    };
    Chance { now: Moment { secs: 0, nanos: 0 }, guid, draw }
}

/// Answers a call for a system variable: `guid`, `timestamp`, `datetime`,
/// `randomInt` and `processEnv`. `env` holds what the environment gives for each
/// name that is asked for. There is no answer where a moment cannot be told or a
/// format is not one.
pub fn resolve_system_var(name: &str, args: &str, env: &TextMap) -> (r: Option<
    Result<String, String>,
>)
    ensures
        exists|c: Chance|
            #![trigger can_happen(c, args@)]
            can_happen(c, args@) && given(c, name@, args@) && outcome_view(r) == answer(
                name@,
                args@,
                env@,
                c,
            ),
        surely_answered(name@, args@) ==> r is Some,
        name@ == "datetime"@ && !format_named(datetime_args(args@).0).contains('%')
            && datetime_args(args@).1.len() == 0 ==> outcome_view(r) == Some(
            Ok::<Seq<char>, Seq<char>>(format_named(datetime_args(args@).0)),
        ),
{
    let called: Vec<char> = chars_of(name);
    let called: &[char] = called.as_slice();
    let wants_guid: bool = same(called, "guid");
    let wants_time: bool = same(called, "timestamp") || same(called, "datetime");
    let wants_draw: bool = same(called, "randomInt");
    let guid: String = if wants_guid {
        new_guid()
    } else {
        String::new()
    };
    let moment: Moment = if wants_time {
        read_clock()
    } else {
        Moment { secs: 0, nanos: 0 }
    };
    let draw: i64 = if wants_draw {
        match parse_random_bounds(args) {
            Ok((min, max)) => random_between(min, max),
            Err(_) => 0,
        }
    } else {
        0
    };
    let r: Option<Result<String, String>> = resolve_with(
        name,
        args,
        env,
        moment,
        guid.as_str(),
        draw,
    );
    proof {
        let spare = lemma_some_chance(args@);
        let c = Chance {
            now: moment,
            guid: if wants_guid {
                guid@
            } else {
                spare.guid
            },
            draw: if wants_draw {
                draw
            } else {
                spare.draw
            },
        };
        assert(can_happen(c, args@));
        assert(given(c, name@, args@));
        assert(outcome_view(r) == answer(name@, args@, env@, c));
    }
    r
}

/// The name that a call asks the environment for, if it asks for one.
pub open spec fn env_name(call: (Seq<char>, Seq<char>)) -> Option<Seq<char>> {
    if call.0 == "processEnv"@ && trimmed(call.1).len() > 0 {
        Some(trimmed(call.1))
    } else {
        None
    }
}

/// The names that the calls ask the environment for, in order.
pub open spec fn env_names_of(calls: Seq<(Seq<char>, Seq<char>)>) -> Seq<Seq<char>>
    decreases calls.len(),
{
    if calls.len() == 0 {
        Seq::empty()
    } else {
        match env_name(calls.last()) {
            Some(name) => env_names_of(calls.drop_last()).push(name),
            None => env_names_of(calls.drop_last()),
        }
    }
}

/// The names that the substitution in `t` asks the environment for.
pub open spec fn asked_names(t: Seq<char>, vars: Map<Seq<char>, Seq<char>>) -> Seq<Seq<char>> {
    env_names_of(system_calls(user_expanded(t, vars)))
}

/// The names that the substitution in `input` asks the environment for, when the
/// document variables are `file_vars`. What the environment gives for them is for
/// the caller to find out.
pub fn env_names(input: &str, file_vars: &TextMap) -> (r: Vec<String>)
    ensures
        views(r@) == asked_names(input@, file_vars@),
{
    let calls: Vec<SystemCall> = find_system_calls(
        substitute_user_vars(input, file_vars).as_str(),
    );
    let ghost all = call_views(calls@);
    let mut names: Vec<String> = Vec::new();
    proof {
        assert(all.take(0) == Seq::<(Seq<char>, Seq<char>)>::empty());
        assert(views(names@) == Seq::<Seq<char>>::empty());
    }
    for i in 0..calls.len()
        invariant
            all == call_views(calls@),
            views(names@) == env_names_of(all.take(i as int)),
    {
        proof {
            assert(all.take(i + 1).drop_last() == all.take(i as int));
            assert(all.take(i + 1).last() == (calls@[i as int].name@, calls@[i as int].args@));
        }
        let args: Vec<char> = chars_of(calls[i].args.as_str());
        let name: &[char] = trim(args.as_slice());
        if same(chars_of(calls[i].name.as_str()).as_slice(), "processEnv") && name.len() > 0 {
            let ghost before = names@;
            names.push(string_of(name));
            proof {
                assert(views(names@) == views(before).push(name@));
            }
        }
    }
    proof {
        assert(all.take(all.len() as int) == all);
    }
    names
}

/// The answers to the calls in `t`, given what each call gets.
pub open spec fn answers_to(
    t: Seq<char>,
    env: Map<Seq<char>, Seq<char>>,
    chances: Seq<Chance>,
) -> Seq<Option<Result<Seq<char>, Seq<char>>>> {
    let calls = system_calls(t);
    Seq::new(calls.len(), |i: int| answer(calls[i].0, calls[i].1, env, chances[i]))
}

/// What becomes of `t` when its calls for system variables get `chances`: the
/// last error among the answers, or the text with the answers in place; nothing
/// where one call has no answer.
pub open spec fn system_outcome(
    t: Seq<char>,
    env: Map<Seq<char>, Seq<char>>,
    chances: Seq<Chance>,
) -> Option<Result<Seq<char>, Seq<char>>> {
    let answers = answers_to(t, env, chances);
    if exists|i: int| 0 <= i < answers.len() && (#[trigger] answers[i]) is None {
        None
    } else {
        Some(system_filled(t, Seq::new(answers.len(), |i: int| answers[i]->0)))
    }
}

/// Whether the calls in `t` can get `chances`.
pub open spec fn can_all_happen(t: Seq<char>, chances: Seq<Chance>) -> bool {
    let calls = system_calls(t);
    chances.len() == calls.len() && forall|i: int|
        0 <= i < calls.len() ==> can_happen(#[trigger] chances[i], calls[i].1)
}

/// Whether all calls in `t` got what they asked for.
pub open spec fn all_given(t: Seq<char>, chances: Seq<Chance>) -> bool {
    let calls = system_calls(t);
    forall|i: int| 0 <= i < calls.len() ==> given(#[trigger] chances[i], calls[i].0, calls[i].1)
}

proof fn lemma_some_chances(calls: Seq<(Seq<char>, Seq<char>)>, first: Seq<Chance>) -> (r: Seq<
    Chance,
>)
    requires
        first.len() <= calls.len(),
        forall|i: int| 0 <= i < first.len() ==> can_happen(#[trigger] first[i], calls[i].1),
    ensures
        r.len() == calls.len(),
        first.is_prefix_of(r),
        forall|i: int| 0 <= i < r.len() ==> can_happen(#[trigger] r[i], calls[i].1),
    decreases calls.len() - first.len(),
{
    if first.len() == calls.len() {
        first
    } else {
        let c = lemma_some_chance(calls[first.len() as int].1);
        let r = lemma_some_chances(calls, first.push(c));
        assert(first =~= r.subrange(0, first.len() as int)) by {
            assert(first.push(c) == r.subrange(0, first.len() as int + 1));
            assert forall|i: int| 0 <= i < first.len() implies first[i] == r[i] by {
                assert(first.push(c)[i] == r.subrange(0, first.len() as int + 1)[i]);
            }
        }
        r
    }
}

/// Whether all calls in `t` have answers whatever the clock shows.
pub open spec fn all_surely_answered(t: Seq<char>) -> bool {
    forall|i: int|
        0 <= i < system_calls(t).len() ==> surely_answered(
            (#[trigger] system_calls(t)[i]).0,
            system_calls(t)[i].1,
        )
}

/// `input` with the answers in place of its calls for system variables, or the
/// last error among the answers. There is no answer where one call has none.
pub fn substitute_system_vars(input: &str, env: &TextMap) -> (r: Option<Result<String, String>>)
    ensures
        exists|chances: Seq<Chance>|
            #![trigger can_all_happen(input@, chances)]
            can_all_happen(input@, chances) && outcome_view(r) == system_outcome(
                input@,
                env@,
                chances,
            ) && (r is Some ==> all_given(input@, chances)),
        all_surely_answered(input@) ==> r is Some,
{
    let calls: Vec<SystemCall> = find_system_calls(input);
    let mut answers: Vec<Result<String, String>> = Vec::new();
    let ghost wanted = system_calls(input@);
    let ghost mut chances: Seq<Chance> = Seq::empty();
    for i in 0..calls.len()
        invariant
            wanted == system_calls(input@),
            wanted == call_views(calls@),
            answers@.len() == i,
            chances.len() == i,
            forall|j: int|
                0 <= j < i ==> can_happen(#[trigger] chances[j], wanted[j].1) && given(
                    chances[j],
                    wanted[j].0,
                    wanted[j].1,
                ),
            forall|j: int|
                0 <= j < i ==> Some(answer_view(#[trigger] answers@[j])) == answer(
                    wanted[j].0,
                    wanted[j].1,
                    env@,
                    chances[j],
                ),
    {
        let r: Option<Result<String, String>> = resolve_system_var(
            calls[i].name.as_str(),
            calls[i].args.as_str(),
            env,
        );
        let ghost c = choose|c: Chance|
            #![trigger can_happen(c, wanted[i as int].1)]
            can_happen(c, wanted[i as int].1) && given(
                c,
                wanted[i as int].0,
                wanted[i as int].1,
            ) && outcome_view(r) == answer(
                wanted[i as int].0,
                wanted[i as int].1,
                env@,
                c,
            );
        proof {
            assert(wanted[i as int] == (calls@[i as int].name@, calls@[i as int].args@));
            assert(all_surely_answered(input@) ==> surely_answered(
                system_calls(input@)[i as int].0,
                system_calls(input@)[i as int].1,
            ));
            chances = chances.push(c);
        }
        match r {
            Some(a) => {
                answers.push(a);
            },
            None => {
                proof {
                    let all = lemma_some_chances(wanted, chances);
                    assert(all[i as int] == c) by {
                        assert(all.subrange(0, chances.len() as int)[i as int]
                            == chances[i as int]);
                    }
                    assert(can_all_happen(input@, all));
                    assert(answers_to(input@, env@, all)[i as int] is None);
                }
                return None;
            },
        }
    }
    let r: Result<String, String> = fill_system_vars(input, &answers);
    proof {
        assert(can_all_happen(input@, chances));
        assert(all_given(input@, chances));
        let found = answers_to(input@, env@, chances);
        assert forall|j: int| 0 <= j < found.len() implies (#[trigger] found[j]) is Some by {
            assert(Some(answer_view(answers@[j])) == found[j]);
        }
        assert(Seq::new(found.len(), |j: int| found[j]->0) =~= answer_views(answers@)) by {
            assert forall|j: int| 0 <= j < found.len() implies found[j]->0 == answer_view(
                answers@[j],
            ) by {
                assert(Some(answer_view(answers@[j])) == found[j]);
            }
        }
    }
    Some(r)
}

/// What becomes of `input` when the document variables are `vars` and the calls
/// for system variables get `chances`.
pub open spec fn substituted(
    input: Seq<char>,
    vars: Map<Seq<char>, Seq<char>>,
    env: Map<Seq<char>, Seq<char>>,
    chances: Seq<Chance>,
) -> Option<Result<Seq<char>, Seq<char>>> {
    let t = user_expanded(input, vars);
    match place(Kind::User, t) {
        Some(_) => Some(
            Err("nieznana zmienna: {{"@ + groups(Kind::User, t)[1] + "}}"@),
        ),
        None => system_outcome(t, env, chances),
    }
}

/// Whether `r` can become of `input`.
pub open spec fn can_become(
    input: Seq<char>,
    vars: Map<Seq<char>, Seq<char>>,
    env: Map<Seq<char>, Seq<char>>,
    r: Option<Result<Seq<char>, Seq<char>>>,
) -> bool {
    exists|chances: Seq<Chance>|
        #![trigger can_all_happen(user_expanded(input, vars), chances)]
        can_all_happen(user_expanded(input, vars), chances) && r == substituted(
            input,
            vars,
            env,
            chances,
        )
}

/// Whether `r` became of `input` with what its calls asked for: a reading of the
/// clock for the time, new UUIDs and drawn numbers.
pub open spec fn did_become(
    input: Seq<char>,
    vars: Map<Seq<char>, Seq<char>>,
    env: Map<Seq<char>, Seq<char>>,
    r: Option<Result<Seq<char>, Seq<char>>>,
) -> bool {
    exists|chances: Seq<Chance>|
        #![trigger can_all_happen(user_expanded(input, vars), chances)]
        can_all_happen(user_expanded(input, vars), chances) && r == substituted(
            input,
            vars,
            env,
            chances,
        ) && (place(Kind::User, user_expanded(input, vars)) is None ==> all_given(
            user_expanded(input, vars),
            chances,
        ))
}

/// Whether something becomes of `input` whatever the clock shows.
pub open spec fn surely_becomes(input: Seq<char>, vars: Map<Seq<char>, Seq<char>>) -> bool {
    let t = user_expanded(input, vars);
    place(Kind::User, t) is Some || all_surely_answered(t)
}

/// Something can become of every text.
pub proof fn lemma_some_outcome(
    input: Seq<char>,
    vars: Map<Seq<char>, Seq<char>>,
    env: Map<Seq<char>, Seq<char>>,
) -> (r: Option<Result<Seq<char>, Seq<char>>>)
    ensures
        can_become(input, vars, env, r),
{
    let t = user_expanded(input, vars);
    let chances = lemma_some_chances(system_calls(t), Seq::empty());
    assert(can_all_happen(t, chances));
    substituted(input, vars, env, chances)
}

/// `input` with values in place of its placeholders: first the variables of the
/// document, then the system variables. A variable that the document does not
/// define is an error, and so is a call for a system variable that cannot be
/// answered. `env` holds what the environment gives for the names that `env_names`
/// lists. There is no answer at all where a moment cannot be told or a format is
/// not one.
pub fn substitute_all(input: &str, file_vars: &TextMap, env: &TextMap) -> (r: Option<
    Result<String, String>,
>)
    ensures
        can_become(input@, file_vars@, env@, outcome_view(r)),
        r is Some ==> did_become(input@, file_vars@, env@, outcome_view(r)),
        surely_becomes(input@, file_vars@) ==> r is Some,
{
    let after_user: String = substitute_user_vars(input, file_vars);
    match find_user(after_user.as_str()) {
        Some(found) => {
            proof {
                lemma_after(Kind::User, after_user@);
                assert(views(found.groups@)[1] == found.groups@[1]@);
                let all = lemma_some_chances(system_calls(after_user@), Seq::empty());
                assert(can_all_happen(after_user@, all));
            }
            Some(Err(around("nieznana zmienna: {{", found.groups[1].as_str(), "}}")))
        },
        None => substitute_system_vars(after_user.as_str(), env),
    }
}

} // verus!
