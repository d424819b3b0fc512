//! What holds of variables and their placeholders.

use vstd::prelude::*;

use super::texts::law_two_words;
use super::times::lemma_signed_decimal_is_solid;
use super::{
    all_white, free_of, lemma_lines_of_ended_text, lemma_lines_of_two_texts,
    lemma_trimmed_is, lemma_trimmed_of_trimmed_end, without_braces,
};
use crate::clock::{clock_gave, datetime_args, formatted, offset_from, strftime, Moment};
use crate::number::{law_number_round_trip, parsed_i64, signed_decimal};
use crate::pattern::{
    after, before, definition_in, groups, inside_braces, lemma_after, lemma_match_at,
    lemma_place_from, match_at, place, system_at, user_at, word_char, word_run, Kind,
};
use crate::text::{
    first, lemma_first, lemma_first_is, lemma_trimmed_end, lemma_trimmed_start, lines_in, trimmed,
    trimmed_end, trimmed_start, white, words,
};
use crate::variables::{
    all_given, answer, answers_to, asked_names, can_all_happen, can_become, can_happen, defined_by,
    did_become, env_name, env_names_of, filled, given, guid_was_made, last_error, outcome_view,
    random_bounds, substituted, system_calls, system_filled, user_expanded, was_drawn, Chance,
};

verus! {

/// A placeholder: double braces around `inner`.
pub open spec fn braced(inner: Seq<char>) -> Seq<char> {
    seq!['{', '{'] + inner + seq!['}', '}']
}

proof fn lemma_no_place(kind: Kind, t: Seq<char>)
    requires
        kind is User || kind is System,
        without_braces(t),
    ensures
        place(kind, t) is None,
{
    lemma_place_from(kind, t, 0);
    if place(kind, t) is Some {
        let p = place(kind, t)->0;
        assert(match_at(kind, t, p) is Some);
        assert(inside_braces(t, p) is Some);
        assert(t[p] == '{');
    }
}

/// Law: a text without double braces is not changed by the variables of a
/// document, and substitution gives it back as it is.
pub proof fn law_text_without_placeholders(
    t: Seq<char>,
    vars: Map<Seq<char>, Seq<char>>,
    env: Map<Seq<char>, Seq<char>>,
    r: Option<Result<Seq<char>, Seq<char>>>,
)
    requires
        without_braces(t),
    ensures
        user_expanded(t, vars) == t,
        can_become(t, vars, env, r) ==> r == Some(Ok::<Seq<char>, Seq<char>>(t)),
{
    lemma_no_place(Kind::User, t);
    lemma_no_place(Kind::System, t);
    if can_become(t, vars, env, r) {
        let chances = choose|chances: Seq<Chance>|
            #![trigger can_all_happen(user_expanded(t, vars), chances)]
            can_all_happen(user_expanded(t, vars), chances) && r == substituted(
                t,
                vars,
                env,
                chances,
            );
        let answers = answers_to(t, env, chances);
        assert(answers.len() == 0);
        assert(last_error(Seq::new(answers.len(), |i: int| answers[i]->0)) is None);
    }
}

/// Whether no two opening braces stand side by side in `p` with braces behind it.
pub open spec fn without_braces_before(p: Seq<char>) -> bool {
    without_braces(p) && (p.len() > 0 ==> p.last() != '{')
}

/// A placeholder is found at its place, with what stands between its braces.
proof fn lemma_braced_inside(p: Seq<char>, inner: Seq<char>, rest: Seq<char>)
    requires
        free_of(inner, '}'),
    ensures
        inside_braces(p + braced(inner) + rest, p.len() as int) == Some(inner),
        (p + braced(inner) + rest).subrange(p.len() as int, p.len() as int + inner.len() + 4)
            == braced(inner),
{
    let t = p + braced(inner) + rest;
    let n = p.len() as int;
    let s = t.skip(n + 2);
    let k = inner.len() as int;
    assert(braced(inner)[k + 2] == '}' && braced(inner)[k + 3] == '}');
    assert(s[k] == braced(inner)[k + 2]);
    assert forall|i: int| 0 <= i < k implies #[trigger] s[i] != '}' by {
        assert(s[i] == braced(inner)[i + 2]);
        assert(s[i] == inner[i]);
    }
    lemma_first_is(s, '}', k);
    assert(t[n] == braced(inner)[0]);
    assert(t[n + 1] == braced(inner)[1]);
    assert(t[n + 3 + k] == braced(inner)[k + 3]);
    assert(t.subrange(n + 2, n + 2 + k) == inner);
    assert(t.subrange(n, n + k + 4) == braced(inner));
}

/// No placeholder starts within a text without double braces, so that one behind
/// it is the first.
proof fn lemma_place_behind(kind: Kind, p: Seq<char>, rest: Seq<char>)
    requires
        kind is User || kind is System,
        without_braces_before(p),
        match_at(kind, p + rest, p.len() as int) is Some,
    ensures
        place(kind, p + rest) == Some(p.len() as int),
{
    let t = p + rest;
    lemma_place_from(kind, t, 0);
    let q = place(kind, t);
    assert(q is Some);
    if q->0 < p.len() {
        let j = q->0;
        assert(t[j] == p[j]);
        assert(j + 1 < p.len() ==> t[j + 1] == p[j + 1]);
        assert(match_at(kind, t, j) is None);
    }
}

/// Where a text without double braces stands before a placeholder, the
/// placeholder is the first of the text.
proof fn lemma_first_placeholder(kind: Kind, p: Seq<char>, inner: Seq<char>, rest: Seq<char>)
    requires
        kind is User || kind is System,
        without_braces_before(p),
        free_of(inner, '}'),
    ensures
        inside_braces(p + braced(inner) + rest, p.len() as int) == Some(inner),
        (p + braced(inner) + rest).subrange(p.len() as int, p.len() as int + inner.len() + 4)
            == braced(inner),
        match_at(kind, p + braced(inner) + rest, p.len() as int) is Some ==> {
            &&& place(kind, p + braced(inner) + rest) == Some(p.len() as int)
            &&& before(kind, p + braced(inner) + rest) == p
            &&& groups(kind, p + braced(inner) + rest)[0] == braced(inner)
            &&& after(kind, p + braced(inner) + rest) == rest
        },
{
    let t = p + braced(inner) + rest;
    let n = p.len() as int;
    lemma_braced_inside(p, inner, rest);
    if match_at(kind, t, n) is Some {
        assert(t == p + (braced(inner) + rest));
        lemma_place_behind(kind, p, braced(inner) + rest);
        assert(t.take(n) == p);
        assert(t.skip(n + inner.len() + 4) == rest);
    }
}

/// Law: the first placeholder of a document variable gives way to the value of
/// the variable, or stays where the variable is not known; the text before it
/// stays, and the text behind it is treated alike. White space around the name
/// does not matter.
pub proof fn law_user_placeholder(
    p: Seq<char>,
    inner: Seq<char>,
    rest: Seq<char>,
    vars: Map<Seq<char>, Seq<char>>,
)
    requires
        without_braces_before(p),
        free_of(inner, '}'),
        trimmed(inner).len() > 0,
        trimmed(inner)[0] != '$',
    ensures
        user_expanded(p + braced(inner) + rest, vars) == p + (if vars.contains_key(trimmed(inner)) {
            vars[trimmed(inner)]
        } else {
            braced(inner)
        }) + user_expanded(rest, vars),
{
    lemma_first_placeholder(Kind::User, p, inner, rest);
}

/// Law: where the first placeholder of a text names a variable that the document
/// does not define, substitution is refused, and the message names the variable.
pub proof fn law_unknown_variable(
    p: Seq<char>,
    inner: Seq<char>,
    rest: Seq<char>,
    vars: Map<Seq<char>, Seq<char>>,
    env: Map<Seq<char>, Seq<char>>,
    r: Option<Result<Seq<char>, Seq<char>>>,
)
    requires
        without_braces_before(p),
        free_of(inner, '}'),
        trimmed(inner).len() > 0,
        trimmed(inner)[0] != '$',
        !vars.contains_key(trimmed(inner)),
        can_become(p + braced(inner) + rest, vars, env, r),
    ensures
        r == Some(
            Err::<Seq<char>, Seq<char>>("nieznana zmienna: {{"@ + trimmed(inner) + "}}"@),
        ),
{
    law_user_placeholder(p, inner, rest, vars);
    lemma_first_placeholder(Kind::User, p, inner, user_expanded(rest, vars));
}

/// Law: where substitution gives a text, every placeholder of a document variable
/// was known: none is left behind when the values are in place.
pub proof fn law_no_unknown_variable(
    t: Seq<char>,
    vars: Map<Seq<char>, Seq<char>>,
    env: Map<Seq<char>, Seq<char>>,
    r: Option<Result<Seq<char>, Seq<char>>>,
)
    requires
        can_become(t, vars, env, r),
        r matches Some(Ok(_)),
    ensures
        place(Kind::User, user_expanded(t, vars)) is None,
{
}

proof fn lemma_word_run_is(s: Seq<char>, k: int)
    requires
        0 <= k <= s.len(),
        k < s.len() ==> !word_char(s[k]),
        forall|i: int| 0 <= i < k ==> word_char(#[trigger] s[i]),
    ensures
        word_run(s) == k,
    decreases s.len(),
{
    if k > 0 {
        let r = s.skip(1);
        assert(word_char(s[0]));
        assert forall|i: int| 0 <= i < k - 1 implies word_char(#[trigger] r[i]) by {
            assert(r[i] == s[i + 1]);
        }
        assert(k < s.len() ==> r[k - 1] == s[k]);
        lemma_word_run_is(r, k - 1);
    }
}

/// Whether `s` is a word: word characters, and at least one.
pub open spec fn is_word(s: Seq<char>) -> bool {
    s.len() > 0 && forall|i: int| 0 <= i < s.len() ==> word_char(#[trigger] s[i])
}

/// Law: a line that is made of an at sign, a name, an equals sign and a value
/// defines the name with that value. White space around the equals sign and at
/// the ends does not matter.
pub proof fn law_definition(
    lead: Seq<char>,
    name: Seq<char>,
    gap: Seq<char>,
    value: Seq<char>,
)
    requires
        all_white(lead),
        is_word(name),
        all_white(gap),
        trimmed(value).len() > 0,
    ensures
        definition_in(lead + (seq!['@'] + name + (gap + (seq!['='] + value)))) matches Some(g)
            && g[1] == name && g[2] == trimmed(value),
{
    let tail = gap + (seq!['='] + value);
    let s = seq!['@'] + name + tail;
    let t = lead + s;
    let n = name.len() as int;
    lemma_white_before(lead, s);
    lemma_white_before(gap, seq!['='] + value);
    assert((seq!['='] + value).skip(1) == value);
    assert(value.len() > 0) by {
        lemma_trimmed_start(value);
        lemma_trimmed_end(trimmed_start(value));
    }
    assert(word_run(s.skip(1)) == n) by {
        assert(!word_char(tail[0]));
        assert(s.skip(1) == name + tail);
        lemma_word_before(name, tail);
    }
    assert(s.skip(1 + n) == tail);
    assert(s.subrange(1, 1 + n) == name);
}

proof fn lemma_white_before(lead: Seq<char>, s: Seq<char>)
    requires
        all_white(lead),
        s.len() > 0,
        !white(s[0]),
    ensures
        trimmed_start(lead + s) == s,
{
    let t = lead + s;
    assert forall|i: int| 0 <= i < lead.len() implies white(#[trigger] t[i]) by {
        assert(t[i] == lead[i]);
    }
    lemma_trimmed_start_is(t, lead.len() as int);
    assert(t.skip(lead.len() as int) == s);
}

proof fn lemma_word_before(name: Seq<char>, tail: Seq<char>)
    requires
        is_word(name),
        tail.len() > 0 ==> !word_char(tail[0]),
    ensures
        word_run(name + tail) == name.len(),
{
    let w = name + tail;
    assert forall|i: int| 0 <= i < name.len() implies word_char(#[trigger] w[i]) by {
        assert(w[i] == name[i]);
    }
    lemma_word_run_is(w, name.len() as int);
}

proof fn lemma_trimmed_start_is(s: Seq<char>, k: int)
    requires
        0 <= k <= s.len(),
        forall|i: int| 0 <= i < k ==> white(#[trigger] s[i]),
        k < s.len() ==> !white(s[k]),
    ensures
        trimmed_start(s) == s.skip(k),
{
    lemma_trimmed_start(s);
    let a = s.len() - trimmed_start(s).len();
    if a < k {
        assert(trimmed_start(s)[0] == s[a]);
    } else if a > k {
        assert(white(s[k]));
    }
}

/// Law: the last line that defines a name decides its value, in which the
/// variables stand for what they stand for in the lines before.
pub proof fn law_last_definition(lines: Seq<Seq<char>>, k: int)
    requires
        0 <= k < lines.len(),
        definition_in(lines[k]) is Some,
        forall|j: int|
            k < j < lines.len() ==> (definition_in(#[trigger] lines[j]) matches Some(g) ==> g[1]
                != (definition_in(lines[k])->0)[1]),
    ensures
        ({
            let g = definition_in(lines[k])->0;
            let vars = defined_by(lines);
            vars.contains_key(g[1]) && vars[g[1]] == user_expanded(g[2], defined_by(lines.take(k)))
        }),
    decreases lines.len(),
{
    let n = lines.len() as int;
    let p = lines.drop_last();
    if k == n - 1 {
        assert(lines.take(k) == p);
    } else {
        assert forall|j: int| k < j < p.len() implies (definition_in(#[trigger] p[j]) matches Some(
            g,
        ) ==> g[1] != (definition_in(p[k])->0)[1]) by {
            assert(p[j] == lines[j]);
        }
        law_last_definition(p, k);
        assert(p.take(k) == lines.take(k));
        assert(lines[n - 1] == lines.last());
    }
}

/// Law: a name that no line defines is not a variable.
pub proof fn law_undefined(lines: Seq<Seq<char>>, name: Seq<char>)
    requires
        forall|j: int|
            0 <= j < lines.len() ==> (definition_in(#[trigger] lines[j]) matches Some(g) ==> g[1]
                != name),
    ensures
        !defined_by(lines).contains_key(name),
    decreases lines.len(),
{
    if lines.len() > 0 {
        let p = lines.drop_last();
        assert forall|j: int| 0 <= j < p.len() implies (definition_in(#[trigger] p[j]) matches Some(
            g,
        ) ==> g[1] != name) by {
            assert(p[j] == lines[j]);
        }
        law_undefined(p, name);
        assert(lines[lines.len() - 1] == lines.last());
    }
}

/// Law: the variables of two texts with a line feed between them are those of
/// both, and a name that the second does not define keeps its value from the
/// first. The line feed changes nothing about the first text, unless it takes a
/// carriage return there for a part of itself.
pub proof fn law_variables_of_two_texts(t: Seq<char>, s: Seq<char>, name: Seq<char>)
    ensures
        defined_by(lines_in(t.push('\n') + s)).contains_key(name) <==> defined_by(
            lines_in(t.push('\n')),
        ).contains_key(name) || defined_by(lines_in(s)).contains_key(name),
        !defined_by(lines_in(s)).contains_key(name) && defined_by(
            lines_in(t.push('\n')),
        ).contains_key(name) ==> defined_by(lines_in(t.push('\n') + s))[name] == defined_by(
            lines_in(t.push('\n')),
        )[name],
        (t.len() > 0 ==> t.last() != '\r') ==> defined_by(lines_in(t.push('\n'))) == defined_by(
            lines_in(t),
        ),
{
    lemma_lines_of_two_texts(t, s);
    lemma_variables_of_both(lines_in(t.push('\n')), lines_in(s), name);
    if t.len() > 0 ==> t.last() != '\r' {
        lemma_lines_of_ended_text(t);
        let none = Seq::<char>::empty();
        assert(definition_in(none) is None);
        assert(lines_in(t).push(none).drop_last() == lines_in(t));
        assert(defined_by(lines_in(t).push(none)) == defined_by(lines_in(t)));
    }
}

proof fn lemma_variables_of_both(a: Seq<Seq<char>>, b: Seq<Seq<char>>, name: Seq<char>)
    ensures
        defined_by(a + b).contains_key(name) <==> defined_by(a).contains_key(name)
            || defined_by(b).contains_key(name),
        !defined_by(b).contains_key(name) && defined_by(a).contains_key(name) ==> defined_by(
            a + b,
        )[name] == defined_by(a)[name],
    decreases b.len(),
{
    if b.len() == 0 {
        assert(a + b == a);
    } else {
        assert((a + b).drop_last() == a + b.drop_last());
        assert((a + b).last() == b.last());
        lemma_variables_of_both(a, b.drop_last(), name);
    }
}

/// Law: with answers to all calls, the text is refused if and only if one of
/// them is an error.
pub proof fn law_refused_by_an_error(t: Seq<char>, answers: Seq<Result<Seq<char>, Seq<char>>>)
    ensures
        system_filled(t, answers) is Err <==> exists|i: int|
            0 <= i < answers.len() && (#[trigger] answers[i]) is Err,
{
    lemma_last_error(answers);
}

proof fn lemma_last_error(answers: Seq<Result<Seq<char>, Seq<char>>>)
    ensures
        last_error(answers) is Some <==> exists|i: int|
            0 <= i < answers.len() && (#[trigger] answers[i]) is Err,
    decreases answers.len(),
{
    if answers.len() > 0 {
        let p = answers.drop_last();
        lemma_last_error(p);
        if answers.last() is Err {
            assert(answers[answers.len() - 1] is Err);
        } else {
            assert forall|i: int| 0 <= i < answers.len() && (
            #[trigger] answers[i]) is Err implies exists|j: int|
                0 <= j < p.len() && (#[trigger] p[j]) is Err by {
                assert(p[i] == answers[i]);
            }
            assert forall|j: int| 0 <= j < p.len() && (
            #[trigger] p[j]) is Err implies exists|i: int|
                0 <= i < answers.len() && (#[trigger] answers[i]) is Err by {
                assert(answers[j] == p[j]);
            }
        }
    }
}

/// The call for the system variable `name`, with what follows the name.
pub open spec fn call_for(name: Seq<char>, tail: Seq<char>) -> Seq<char> {
    braced(seq!['$'] + name + tail)
}

/// Whether `tail` can follow a name in a call.
pub open spec fn call_tail(tail: Seq<char>) -> bool {
    (tail.len() > 0 ==> !word_char(tail[0])) && without_braces(tail) && free_of(tail, '}')
}

proof fn lemma_call_inner(name: Seq<char>, tail: Seq<char>)
    requires
        is_word(name),
        call_tail(tail),
    ensures
        without_braces(seq!['$'] + name + tail),
        free_of(seq!['$'] + name + tail, '}'),
{
    let inner = seq!['$'] + name + tail;
    let n = name.len() as int;
    assert forall|i: int| 0 <= i < inner.len() implies #[trigger] inner[i] != '}' && (inner[i]
        == '{' ==> i > n) by {
        if i > n {
            assert(inner[i] == tail[i - n - 1]);
        } else if i > 0 {
            assert(inner[i] == name[i - 1]);
            assert(word_char(name[i - 1]));
        }
    }
    assert forall|i: int| 0 <= i < inner.len() - 1 && (#[trigger] inner[i]) == '{' implies inner[i
        + 1] != '{' by {
        assert(tail[i - n - 1] == '{');
        assert(inner[i + 1] == tail[i - n]);
    }
}

/// A call is not a placeholder of a document variable.
proof fn lemma_call_is_no_user_placeholder(name: Seq<char>, tail: Seq<char>)
    requires
        is_word(name),
        call_tail(tail),
    ensures
        place(Kind::User, call_for(name, tail)) is None,
{
    let inner = seq!['$'] + name + tail;
    let t = call_for(name, tail);
    let none = Seq::<char>::empty();
    lemma_call_inner(name, tail);
    assert(none + t + none == t);
    lemma_first_placeholder(Kind::User, none, inner, none);
    lemma_place_from(Kind::User, t, 0);
    if place(Kind::User, t) is Some {
        let p = place(Kind::User, t)->0;
        assert(match_at(Kind::User, t, p) is Some);
        assert(inside_braces(t, p) is Some);
        if p == 0 {
            lemma_trimmed_start_is(inner, 0);
            assert(inner.skip(0) == inner);
            lemma_trimmed_end(inner);
            if trimmed_end(inner).len() == 0 {
                assert(white(inner[0]));
            }
            assert(trimmed(inner)[0] == inner[0]);
            assert(false);
        } else if p == 1 {
            assert(t[2] == inner[0]);
            assert(false);
        } else if p < inner.len() + 2 {
            assert(t[p] == inner[p - 2]);
            if p + 1 < inner.len() + 2 {
                assert(t[p + 1] == inner[p - 1]);
            } else {
                assert(t[p + 1] == '}');
            }
            assert(false);
        } else {
            assert(t[p] == '}');
            assert(false);
        }
    }
}

/// A call is one call, with the name and the trimmed arguments.
proof fn lemma_one_call(name: Seq<char>, tail: Seq<char>)
    requires
        is_word(name),
        call_tail(tail),
    ensures
        system_calls(call_for(name, tail)) == seq![(name, trimmed(tail))],
        forall|answers: Seq<Result<Seq<char>, Seq<char>>>|
            answers.len() == 1 && answers[0] is Ok ==> #[trigger] filled(
                call_for(name, tail),
                answers,
            ) == answers[0]->Ok_0,
{
    let inner = seq!['$'] + name + tail;
    let t = call_for(name, tail);
    let none = Seq::<char>::empty();
    lemma_call_inner(name, tail);
    assert(none + t + none == t);
    lemma_first_placeholder(Kind::System, none, inner, none);
    lemma_trimmed_start_is(inner, 0);
    assert(inner.skip(0) == inner);
    let n = name.len() as int;
    assert(inner.skip(1) == name + tail);
    lemma_word_before(name, tail);
    assert(inner.subrange(1, 1 + n) == name);
    assert(inner.skip(1 + n) == tail);
    lemma_trimmed_of_trimmed_end(tail);
    assert(match_at(Kind::System, t, 0) is Some);
    let g = groups(Kind::System, t);
    assert(g[1] == name && g[2] == trimmed_end(tail));
    lemma_no_place(Kind::System, none);
    assert(system_calls(none) == Seq::<(Seq<char>, Seq<char>)>::empty());
    assert(system_calls(t) =~= seq![(name, trimmed(tail))]);
    assert forall|answers: Seq<Result<Seq<char>, Seq<char>>>|
        answers.len() == 1 && answers[0] is Ok implies #[trigger] filled(t, answers)
        == answers[0]->Ok_0 by {
        assert(filled(none, answers.skip(1)) == none);
        assert(filled(t, answers) == none + answers[0]->Ok_0 + none);
    }
}

/// Law: what becomes of a text that is one call for a system variable is the
/// answer to that call, whatever the clock and the random numbers give.
pub proof fn law_system_placeholder(
    name: Seq<char>,
    tail: Seq<char>,
    vars: Map<Seq<char>, Seq<char>>,
    env: Map<Seq<char>, Seq<char>>,
    r: Option<Result<Seq<char>, Seq<char>>>,
)
    requires
        is_word(name),
        call_tail(tail),
        can_become(call_for(name, tail), vars, env, r),
    ensures
        exists|c: Chance|
            #![trigger can_happen(c, trimmed(tail))]
            can_happen(c, trimmed(tail)) && r == answer(name, trimmed(tail), env, c),
{
    let t = call_for(name, tail);
    let args = trimmed(tail);
    lemma_call_is_no_user_placeholder(name, tail);
    lemma_one_call(name, tail);
    assert(user_expanded(t, vars) == t);
    let chances = choose|chances: Seq<Chance>|
        #![trigger can_all_happen(user_expanded(t, vars), chances)]
        can_all_happen(user_expanded(t, vars), chances) && r == substituted(t, vars, env, chances);
    let c = chances[0];
    assert(can_happen(c, system_calls(t)[0].1));
    let a = answer(name, args, env, c);
    let found = answers_to(t, env, chances);
    assert(found.len() == 1 && found[0] == a);
    if a is Some {
        let answers = Seq::new(found.len(), |i: int| found[i]->0);
        assert(answers.drop_last() =~= Seq::<Result<Seq<char>, Seq<char>>>::empty());
        assert(last_error(answers.drop_last()) is None);
        assert(answers.last() == a->0);
    }
    assert(can_happen(c, args) && r == answer(name, args, env, c));
}

/// The call for the system variable `name`, with white space behind the braces and
/// with what follows the name.
pub open spec fn padded_call(lead: Seq<char>, name: Seq<char>, tail: Seq<char>) -> Seq<char> {
    braced(lead + (seq!['$'] + name + tail))
}

/// The call is the first of a text in which no double braces stand before it.
proof fn lemma_call_found(
    p: Seq<char>,
    lead: Seq<char>,
    name: Seq<char>,
    tail: Seq<char>,
    rest: Seq<char>,
)
    requires
        without_braces_before(p),
        all_white(lead),
        is_word(name),
        tail.len() > 0 ==> !word_char(tail[0]),
        free_of(tail, '}'),
    ensures
        ({
            let t = p + padded_call(lead, name, tail) + rest;
            &&& place(Kind::System, t) is Some
            &&& before(Kind::System, t) == p
            &&& groups(Kind::System, t)[0] == padded_call(lead, name, tail)
            &&& groups(Kind::System, t)[1] == name
            &&& trimmed(groups(Kind::System, t)[2]) == trimmed(tail)
            &&& after(Kind::System, t) == rest
        }),
{
    let call = seq!['$'] + name + tail;
    let inner = lead + call;
    let n = name.len() as int;
    assert forall|i: int| 0 <= i < inner.len() implies #[trigger] inner[i] != '}' by {
        if i < lead.len() {
            assert(inner[i] == lead[i]);
        } else if i > lead.len() {
            let j = i - lead.len();
            assert(inner[i] == call[j]);
            if j > n {
                assert(call[j] == tail[j - n - 1]);
            } else {
                assert(call[j] == name[j - 1]);
                assert(word_char(name[j - 1]));
            }
        }
    }
    assert(call[0] == '$');
    lemma_white_before(lead, call);
    assert(call.skip(1) == name + tail);
    lemma_word_before(name, tail);
    assert(call.subrange(1, 1 + n) == name);
    assert(call.skip(1 + n) == tail);
    lemma_trimmed_of_trimmed_end(tail);
    lemma_first_placeholder(Kind::System, p, inner, rest);
}

/// Law: the first call of a text is answered first, and its answer takes its place;
/// where the answer is an error, the call stays. The text before it stays, and the
/// text behind it is treated alike.
pub proof fn law_first_call(
    p: Seq<char>,
    lead: Seq<char>,
    name: Seq<char>,
    tail: Seq<char>,
    rest: Seq<char>,
    a: Result<Seq<char>, Seq<char>>,
    answers: Seq<Result<Seq<char>, Seq<char>>>,
)
    requires
        without_braces_before(p),
        all_white(lead),
        is_word(name),
        tail.len() > 0 ==> !word_char(tail[0]),
        free_of(tail, '}'),
    ensures
        system_calls(p + padded_call(lead, name, tail) + rest) == seq![(name, trimmed(tail))]
            + system_calls(rest),
        filled(p + padded_call(lead, name, tail) + rest, seq![a] + answers) == p + (match a {
            Ok(value) => value,
            Err(_) => padded_call(lead, name, tail),
        }) + filled(rest, answers),
{
    lemma_call_found(p, lead, name, tail, rest);
    assert((seq![a] + answers).skip(1) == answers);
}

/// Law: a text without double braces calls for nothing, and stays as it is.
pub proof fn law_no_call(t: Seq<char>, answers: Seq<Result<Seq<char>, Seq<char>>>)
    requires
        without_braces(t),
    ensures
        system_calls(t) == Seq::<(Seq<char>, Seq<char>)>::empty(),
        filled(t, answers) == t,
{
    lemma_no_place(Kind::System, t);
}

/// What stands before a text has no part in what a pattern matches in the text.
proof fn lemma_match_behind(kind: Kind, q: Seq<char>, rest: Seq<char>, j: int)
    requires
        kind is User || kind is System,
        0 <= j,
    ensures
        match_at(kind, q + rest, q.len() + j) == match_at(kind, rest, j),
{
    let t = q + rest;
    let n = q.len() as int;
    if j + 2 <= rest.len() {
        assert(t.skip(n + j + 2) == rest.skip(j + 2));
        lemma_first(rest.skip(j + 2), '}');
        let k = j + 2 + first(rest.skip(j + 2), '}');
        assert(t[n + j] == rest[j]);
        assert(t[n + j + 1] == rest[j + 1]);
        assert(k + 1 < rest.len() ==> t[n + k + 1] == rest[k + 1]);
        assert(t.subrange(n + j + 2, n + k) == rest.subrange(j + 2, k)) by {
            if k <= rest.len() {
                assert(t.subrange(n + j + 2, n + k) =~= rest.subrange(j + 2, k));
            }
        }
        if inside_braces(rest, j) is Some {
            let inner = inside_braces(rest, j)->0;
            assert(t.subrange(n + j, n + j + inner.len() + 4) =~= rest.subrange(
                j,
                j + inner.len() + 4,
            ));
        }
    }
}

/// Where no placeholder starts in the text before, the first is that of the text
/// behind.
proof fn lemma_place_of_rest(kind: Kind, q: Seq<char>, rest: Seq<char>)
    requires
        kind is User || kind is System,
        forall|j: int| 0 <= j < q.len() ==> (#[trigger] match_at(kind, q + rest, j)) is None,
    ensures
        place(kind, rest) is None ==> place(kind, q + rest) is None,
        place(kind, rest) is Some ==> {
            &&& place(kind, q + rest) is Some
            &&& before(kind, q + rest) == q + before(kind, rest)
            &&& groups(kind, q + rest) == groups(kind, rest)
            &&& after(kind, q + rest) == after(kind, rest)
        },
{
    let t = q + rest;
    let n = q.len() as int;
    lemma_place_from(kind, t, 0);
    lemma_place_from(kind, rest, 0);
    if place(kind, t) is Some {
        let x = place(kind, t)->0;
        assert(match_at(kind, t, x) is Some);
        assert(x >= n);
        lemma_match_behind(kind, q, rest, x - n);
        assert(match_at(kind, rest, x - n) is Some);
        assert(place(kind, rest) is Some);
    }
    if place(kind, rest) is Some {
        let y = place(kind, rest)->0;
        lemma_match_behind(kind, q, rest, y);
        assert(match_at(kind, t, n + y) is Some);
        let x = place(kind, t)->0;
        if x < n + y {
            lemma_match_behind(kind, q, rest, x - n);
            assert(match_at(kind, rest, x - n) is Some);
            assert(match_at(kind, rest, x - n) is None);
        } else if x > n + y {
            assert(match_at(kind, t, n + y) is None);
        }
        lemma_after(kind, rest);
        lemma_match_at(kind, rest, y);
        assert(t.take(n + y) == q + rest.take(y));
        let len = groups(kind, rest)[0].len();
        assert(t.skip(n + y + len) == rest.skip(y + len));
    }
}

/// Law: a text in which no placeholder starts stays as it is, whatever braces it
/// holds, and the text behind it is treated as if it stood alone.
pub proof fn law_text_before_placeholders(
    q: Seq<char>,
    rest: Seq<char>,
    vars: Map<Seq<char>, Seq<char>>,
    answers: Seq<Result<Seq<char>, Seq<char>>>,
)
    ensures
        (forall|j: int| 0 <= j < q.len() ==> (#[trigger] user_at(q + rest, j)) is None)
            ==> user_expanded(q + rest, vars) == q + user_expanded(rest, vars),
        (forall|j: int| 0 <= j < q.len() ==> (#[trigger] system_at(q + rest, j)) is None)
            ==> system_calls(q + rest) == system_calls(rest) && filled(q + rest, answers) == q
            + filled(rest, answers),
{
    if forall|j: int| 0 <= j < q.len() ==> (#[trigger] user_at(q + rest, j)) is None {
        assert forall|j: int| 0 <= j < q.len() implies (#[trigger] match_at(
            Kind::User,
            q + rest,
            j,
        )) is None by {
            assert(user_at(q + rest, j) is None);
        }
        lemma_place_of_rest(Kind::User, q, rest);
        assert(user_expanded(q + rest, vars) =~= q + user_expanded(rest, vars));
    }
    if forall|j: int| 0 <= j < q.len() ==> (#[trigger] system_at(q + rest, j)) is None {
        assert forall|j: int| 0 <= j < q.len() implies (#[trigger] match_at(
            Kind::System,
            q + rest,
            j,
        )) is None by {
            assert(system_at(q + rest, j) is None);
        }
        lemma_place_of_rest(Kind::System, q, rest);
        assert(filled(q + rest, answers) =~= q + filled(rest, answers));
    }
}

/// Law: double braces around nothing but white space are no placeholder.
pub proof fn law_empty_braces(
    p: Seq<char>,
    inner: Seq<char>,
    rest: Seq<char>,
    vars: Map<Seq<char>, Seq<char>>,
)
    requires
        without_braces_before(p),
        all_white(inner),
    ensures
        user_expanded(p + braced(inner) + rest, vars) == p + braced(inner) + user_expanded(
            rest,
            vars,
        ),
{
    let q = p + braced(inner);
    let t = q + rest;
    let n = p.len() as int;
    assert forall|j: int| 0 <= j < q.len() implies (#[trigger] user_at(t, j)) is None by {
        if j < n {
            assert(t[j] == p[j]);
            assert(j + 1 < n ==> t[j + 1] == p[j + 1]);
        } else if j == n {
            assert forall|i: int| 0 <= i < inner.len() implies #[trigger] inner[i] != '}' by {
                assert(white(inner[i]));
            }
            lemma_braced_inside(p, inner, rest);
            lemma_trimmed_is(inner, 0, 0);
        } else if j == n + 1 {
            assert(t[j + 1] == if inner.len() > 0 {
                inner[0]
            } else {
                '}'
            });
        } else if j < n + 2 + inner.len() {
            assert(t[j] == inner[j - n - 2]);
        } else {
            assert(t[j] == '}');
        }
    }
    law_text_before_placeholders(q, rest, vars, Seq::empty());
}

/// Law: a definition is made of white space, an at sign, a word, white space, an
/// equals sign, and at least one more character. Its value is what follows the equals
/// sign, trimmed, or the last character where that is all white space.
pub proof fn law_definition_shape(t: Seq<char>)
    ensures
        definition_in(t) matches Some(g) ==> is_word(g[1]) && exists|
            gap: Seq<char>,
            value: Seq<char>,
        |
            all_white(gap) && value.len() > 0 && trimmed_start(t) == #[trigger] (seq!['@'] + g[1]
                + (gap + (seq!['='] + value))) && g[2] == if all_white(value) {
                seq![value.last()]
            } else {
                trimmed(value)
            },
{
    if definition_in(t) is Some {
        let g = definition_in(t)->0;
        let s = trimmed_start(t);
        let w = s.skip(1);
        let n = word_run(w);
        lemma_word_run(w);
        let rest = s.skip(1 + n);
        let behind = trimmed_start(rest);
        lemma_trimmed_start(rest);
        let gap = rest.take(rest.len() - behind.len());
        let value = behind.skip(1);
        assert forall|i: int| 0 <= i < gap.len() implies white(#[trigger] gap[i]) by {
            assert(gap[i] == rest[i]);
        }
        assert forall|i: int| 0 <= i < g[1].len() implies word_char(#[trigger] g[1][i]) by {
            assert(g[1][i] == w[i]);
        }
        assert(behind == seq!['='] + value);
        assert(rest == gap + behind);
        assert(s == seq!['@'] + g[1] + (gap + (seq!['='] + value)));
        lemma_blank_or_not(value);
    }
}

proof fn lemma_blank_or_not(s: Seq<char>)
    ensures
        trimmed(s).len() == 0 <==> all_white(s),
{
    if all_white(s) {
        lemma_trimmed_is(s, 0, 0);
    } else {
        let i = choose|i: int| 0 <= i < s.len() && !white(#[trigger] s[i]);
        lemma_trimmed_start(s);
        let t = trimmed_start(s);
        lemma_trimmed_end(t);
        let a = s.len() - t.len();
        if i < a {
            assert(white(s[i]));
        } else {
            assert(t[i - a] == s[i]);
        }
    }
}

proof fn lemma_word_run(s: Seq<char>)
    ensures
        0 <= word_run(s) <= s.len(),
        forall|i: int| 0 <= i < word_run(s) ==> word_char(#[trigger] s[i]),
    decreases s.len(),
{
    if s.len() > 0 && word_char(s[0]) {
        let r = s.skip(1);
        lemma_word_run(r);
        assert forall|i: int| 0 <= i < word_run(s) implies word_char(#[trigger] s[i]) by {
            if i > 0 {
                assert(s[i] == r[i - 1]);
            }
        }
    }
}

/// Law: a call for a system variable is no placeholder of a document variable: it
/// stays when those get their values.
pub proof fn law_call_is_no_user_placeholder(
    p: Seq<char>,
    lead: Seq<char>,
    name: Seq<char>,
    tail: Seq<char>,
    rest: Seq<char>,
    vars: Map<Seq<char>, Seq<char>>,
)
    requires
        without_braces_before(p),
        all_white(lead),
        is_word(name),
        call_tail(tail),
    ensures
        user_expanded(p + padded_call(lead, name, tail) + rest, vars) == p + padded_call(
            lead,
            name,
            tail,
        ) + user_expanded(rest, vars),
{
    let call = padded_call(lead, name, tail);
    let q = p + call;
    let t = q + rest;
    assert forall|j: int|
        0 <= j < q.len() implies (#[trigger] match_at(Kind::User, t, j)) is None by {
        lemma_no_user_match_in_call(p, lead, name, tail, rest, j);
    }
    lemma_place_of_rest(Kind::User, q, rest);
    if place(Kind::User, rest) is Some {
        let g = groups(Kind::User, rest);
        let value = if vars.contains_key(g[1]) {
            vars[g[1]]
        } else {
            g[0]
        };
        assert(user_expanded(t, vars) == q + before(Kind::User, rest) + value + user_expanded(
            after(Kind::User, rest),
            vars,
        ));
        assert(user_expanded(t, vars) =~= q + user_expanded(rest, vars));
    }
}

proof fn lemma_no_user_match_in_call(
    p: Seq<char>,
    lead: Seq<char>,
    name: Seq<char>,
    tail: Seq<char>,
    rest: Seq<char>,
    j: int,
)
    requires
        without_braces_before(p),
        all_white(lead),
        is_word(name),
        call_tail(tail),
        0 <= j < p.len() + padded_call(lead, name, tail).len(),
    ensures
        match_at(Kind::User, p + padded_call(lead, name, tail) + rest, j) is None,
{
    let call = seq!['$'] + name + tail;
    let inner = lead + call;
    let t = p + padded_call(lead, name, tail) + rest;
    let n = p.len() as int;
    let m = lead.len() as int;
    lemma_call_inner(name, tail);
    assert forall|i: int| 0 <= i < inner.len() implies #[trigger] inner[i] != '}' by {
        if i < m {
            assert(inner[i] == lead[i]);
        } else {
            assert(inner[i] == call[i - m]);
        }
    }
    if j < n {
        assert(t[j] == p[j]);
        assert(j + 1 < n ==> t[j + 1] == p[j + 1]);
    } else if j == n {
        lemma_braced_inside(p, inner, rest);
        assert(call[0] == '$');
        lemma_white_before(lead, call);
        lemma_trimmed_end(call);
        if trimmed_end(call).len() == 0 {
            assert(white(call[0]));
        }
        assert(trimmed(inner)[0] == '$');
    } else if j == n + 1 {
        assert(t[j + 1] == inner[0]);
        assert(inner[0] == if m > 0 {
            lead[0]
        } else {
            '$'
        });
    } else if j < n + 2 + inner.len() {
        let i = j - n - 2;
        assert(t[j] == inner[i]);
        if i < m {
            assert(inner[i] == lead[i]);
        } else {
            assert(inner[i] == call[i - m]);
            if i + 1 < inner.len() {
                assert(t[j + 1] == inner[i + 1]);
                assert(inner[i + 1] == call[i - m + 1]);
            } else {
                assert(t[j + 1] == '}');
            }
        }
    } else {
        assert(t[j] == '}');
    }
}

/// Law: the last error among the answers is what becomes of the text, and without
/// an error the answers take their places.
pub proof fn law_last_error_counts(
    t: Seq<char>,
    answers: Seq<Result<Seq<char>, Seq<char>>>,
    k: int,
)
    ensures
        (forall|i: int| 0 <= i < answers.len() ==> (#[trigger] answers[i]) is Ok) ==> system_filled(
            t,
            answers,
        ) == Ok::<Seq<char>, Seq<char>>(filled(t, answers)),
        0 <= k < answers.len() && answers[k] is Err && (forall|i: int|
            k < i < answers.len() ==> (#[trigger] answers[i]) is Ok) ==> system_filled(t, answers)
            == Err::<Seq<char>, Seq<char>>(answers[k]->Err_0),
{
    lemma_last_error(answers);
    if 0 <= k < answers.len() && answers[k] is Err && (forall|i: int|
        k < i < answers.len() ==> (#[trigger] answers[i]) is Ok) {
        lemma_last_error_is(answers, k);
    }
}

proof fn lemma_last_error_is(answers: Seq<Result<Seq<char>, Seq<char>>>, k: int)
    requires
        0 <= k < answers.len(),
        answers[k] is Err,
        forall|i: int| k < i < answers.len() ==> (#[trigger] answers[i]) is Ok,
    ensures
        last_error(answers) == Some(answers[k]->Err_0),
    decreases answers.len(),
{
    if k < answers.len() - 1 {
        assert(answers[answers.len() - 1] is Ok);
        let p = answers.drop_last();
        assert forall|i: int| k < i < p.len() implies (#[trigger] p[i]) is Ok by {
            assert(p[i] == answers[i]);
        }
        lemma_last_error_is(p, k);
    }
}

/// Whether `a` is the answer to a call that got `c`: the time is a reading of the
/// clock, a UUID was made new, and a random number was drawn within the bounds.
pub open spec fn answered_with(
    call: (Seq<char>, Seq<char>),
    env: Map<Seq<char>, Seq<char>>,
    c: Chance,
    a: Result<Seq<char>, Seq<char>>,
) -> bool {
    &&& answer(call.0, call.1, env, c) == Some(a)
    &&& can_happen(c, call.1)
    &&& call.0 == "timestamp"@ ==> clock_gave(c.now)
    &&& call.0 == "datetime"@ ==> clock_gave(c.now)
    &&& call.0 == "guid"@ ==> guid_was_made(c.guid)
    &&& call.0 == "randomInt"@ ==> (random_bounds(call.1) matches Ok((min, max)) ==> was_drawn(
        min,
        max,
        c.draw,
    ))
}

/// Whether `a` is an answer that a call got.
pub open spec fn answered(
    call: (Seq<char>, Seq<char>),
    env: Map<Seq<char>, Seq<char>>,
    a: Result<Seq<char>, Seq<char>>,
) -> bool {
    exists|c: Chance| answered_with(call, env, c, a)
}

/// Law: a text that leaves no document variable unknown becomes what the answers to
/// its calls make of it, one answer for each call, and each got what it asked for.
pub proof fn law_every_call_is_answered(
    t: Seq<char>,
    vars: Map<Seq<char>, Seq<char>>,
    env: Map<Seq<char>, Seq<char>>,
    r: Result<Seq<char>, Seq<char>>,
)
    requires
        place(Kind::User, user_expanded(t, vars)) is None,
        did_become(t, vars, env, Some(r)),
    ensures
        exists|answers: Seq<Result<Seq<char>, Seq<char>>>| #[trigger]
            system_filled(user_expanded(t, vars), answers) == r && answers.len() == system_calls(
                user_expanded(t, vars),
            ).len() && forall|i: int|
                0 <= i < answers.len() ==> answered(
                    system_calls(user_expanded(t, vars))[i],
                    env,
                    #[trigger] answers[i],
                ),
{
    let u = user_expanded(t, vars);
    let calls = system_calls(u);
    let chances = choose|chances: Seq<Chance>|
        #![trigger can_all_happen(u, chances)]
        can_all_happen(u, chances) && Some(r) == substituted(t, vars, env, chances) && all_given(
            u,
            chances,
        );
    let found = answers_to(u, env, chances);
    let answers = Seq::new(found.len(), |i: int| found[i]->0);
    assert(system_filled(u, answers) == r);
    assert forall|i: int| 0 <= i < answers.len() implies answered(
        calls[i],
        env,
        #[trigger] answers[i],
    ) by {
        assert(found[i] is Some);
        assert(can_happen(chances[i], calls[i].1));
        assert(given(chances[i], calls[i].0, calls[i].1));
        assert(answered_with(calls[i], env, chances[i], answers[i]));
    }
}

/// Law: where a variable is left unknown, the text is refused, and the message names
/// the first one; where there is no answer at all, a call for the time has none.
pub proof fn law_what_becomes(
    t: Seq<char>,
    vars: Map<Seq<char>, Seq<char>>,
    env: Map<Seq<char>, Seq<char>>,
    r: Option<Result<Seq<char>, Seq<char>>>,
)
    requires
        can_become(t, vars, env, r),
    ensures
        place(Kind::User, user_expanded(t, vars)) is Some ==> r == Some(
            Err::<Seq<char>, Seq<char>>(
                "nieznana zmienna: {{"@ + groups(Kind::User, user_expanded(t, vars))[1] + "}}"@,
            ),
        ),
        r is None ==> exists|i: int|
            0 <= i < system_calls(user_expanded(t, vars)).len() && ((#[trigger] system_calls(
                user_expanded(t, vars),
            )[i]).0 == "timestamp"@ || system_calls(user_expanded(t, vars))[i].0 == "datetime"@),
{
    let u = user_expanded(t, vars);
    let calls = system_calls(u);
    let chances = choose|chances: Seq<Chance>|
        #![trigger can_all_happen(u, chances)]
        can_all_happen(u, chances) && r == substituted(t, vars, env, chances);
    if r is None {
        let found = answers_to(u, env, chances);
        let i = choose|i: int| 0 <= i < found.len() && (#[trigger] found[i]) is None;
        assert(calls[i].0 == "timestamp"@ || calls[i].0 == "datetime"@);
    }
}

/// Law: texts and errors are told as they are.
pub proof fn law_told(r: Option<Result<String, String>>)
    ensures
        match r {
            Some(Ok(text)) => outcome_view(r) == Some(Ok::<Seq<char>, Seq<char>>(text@)),
            Some(Err(e)) => outcome_view(r) == Some(Err::<Seq<char>, Seq<char>>(e@)),
            None => outcome_view(r) is None,
        },
{
}

/// Law: what became of a text can become of it.
pub proof fn law_did_and_can(
    t: Seq<char>,
    vars: Map<Seq<char>, Seq<char>>,
    env: Map<Seq<char>, Seq<char>>,
    r: Option<Result<Seq<char>, Seq<char>>>,
)
    requires
        did_become(t, vars, env, r),
    ensures
        can_become(t, vars, env, r),
{
}

/// Law: a text that is the call `$datetime` becomes the date that a reading of the
/// clock gives, and one that is the call `$timestamp` its seconds.
pub proof fn law_time_is_read(
    vars: Map<Seq<char>, Seq<char>>,
    env: Map<Seq<char>, Seq<char>>,
    r: Result<Seq<char>, Seq<char>>,
)
    ensures
        did_become(call_for("datetime"@, Seq::empty()), vars, env, Some(r)) ==> exists|m: Moment|
            #[trigger] clock_gave(m) && strftime(m.secs, m.nanos, "%Y-%m-%dT%H:%M:%SZ"@) is Some && r
                == Ok::<Seq<char>, Seq<char>>(
                strftime(m.secs, m.nanos, "%Y-%m-%dT%H:%M:%SZ"@)->0,
            ),
        did_become(call_for("timestamp"@, Seq::empty()), vars, env, Some(r)) ==> exists|m: Moment|
            #[trigger] clock_gave(m) && r == Ok::<Seq<char>, Seq<char>>(
                signed_decimal(m.secs as int),
            ),
{
    let none = Seq::<char>::empty();
    reveal_strlit("guid");
    reveal_strlit("timestamp");
    reveal_strlit("datetime");
    reveal_strlit("iso8601");
    reveal_strlit("rfc1123");
    assert("guid"@.len() == 4 && "timestamp"@.len() == 9 && "datetime"@.len() == 8);
    assert("rfc1123"@[0] == 'r' && "iso8601"@[0] == 'i');
    assert(is_word("datetime"@));
    assert(is_word("timestamp"@));
    assert(trimmed(none).len() == 0);
    if did_become(call_for("datetime"@, none), vars, env, Some(r)) {
        lemma_one_answer("datetime"@, vars, env, r);
        let c = choose|c: Chance| answered_with(("datetime"@, trimmed(none)), env, c, r);
        assert(clock_gave(c.now));
    }
    if did_become(call_for("timestamp"@, none), vars, env, Some(r)) {
        lemma_one_answer("timestamp"@, vars, env, r);
        let c = choose|c: Chance| answered_with(("timestamp"@, trimmed(none)), env, c, r);
        assert(clock_gave(c.now));
    }
}

proof fn lemma_one_answer(
    name: Seq<char>,
    vars: Map<Seq<char>, Seq<char>>,
    env: Map<Seq<char>, Seq<char>>,
    r: Result<Seq<char>, Seq<char>>,
)
    requires
        is_word(name),
        did_become(call_for(name, Seq::empty()), vars, env, Some(r)),
    ensures
        answered((name, trimmed(Seq::<char>::empty())), env, r),
{
    let none = Seq::<char>::empty();
    let t = call_for(name, none);
    lemma_call_is_no_user_placeholder(name, none);
    lemma_one_call(name, none);
    assert(user_expanded(t, vars) == t);
    law_every_call_is_answered(t, vars, env, r);
    let answers = choose|answers: Seq<Result<Seq<char>, Seq<char>>>| #[trigger]
        system_filled(t, answers) == r && answers.len() == system_calls(t).len() && forall|i: int|
            0 <= i < answers.len() ==> answered(system_calls(t)[i], env, #[trigger] answers[i]);
    assert(answered(system_calls(t)[0], env, answers[0]));
    law_last_error_counts(t, answers, 0);
}

/// Law: the answer to each call for a system variable, given what the clock shows, a
/// UUID and a random number.
pub proof fn law_answers(
    name: Seq<char>,
    args: Seq<char>,
    env: Map<Seq<char>, Seq<char>>,
    c: Chance,
)
    ensures
        answer("guid"@, args, env, c) == Some(Ok::<Seq<char>, Seq<char>>(c.guid)),
        args.len() == 0 ==> answer("timestamp"@, args, env, c) == Some(
            Ok::<Seq<char>, Seq<char>>(signed_decimal(c.now.secs as int)),
        ),
        args.len() > 0 ==> answer("timestamp"@, args, env, c) == (match offset_from(c.now, args) {
            Some(Ok(m)) => Some(Ok::<Seq<char>, Seq<char>>(signed_decimal(m.secs as int))),
            Some(Err(e)) => Some(Err(e)),
            None => None,
        }),
        datetime_args(args).1.len() == 0 ==> answer("datetime"@, args, env, c) == (match formatted(
            c.now,
            datetime_args(args).0,
        ) {
            Some(text) => Some(Ok::<Seq<char>, Seq<char>>(text)),
            None => None,
        }),
        datetime_args(args).1.len() > 0 ==> answer("datetime"@, args, env, c) == (
        match offset_from(c.now, datetime_args(args).1) {
            Some(Ok(m)) => match formatted(m, datetime_args(args).0) {
                Some(text) => Some(Ok::<Seq<char>, Seq<char>>(text)),
                None => None,
            },
            Some(Err(e)) => Some(Err(e)),
            None => None,
        }),
        answer("randomInt"@, args, env, c) == (match random_bounds(args) {
            Ok(_) => Some(Ok::<Seq<char>, Seq<char>>(signed_decimal(c.draw as int))),
            Err(e) => Some(Err(e)),
        }),
        trimmed(args).len() == 0 ==> answer("processEnv"@, args, env, c) == Some(
            Err::<Seq<char>, Seq<char>>("$processEnv wymaga nazwy zmiennej"@),
        ),
        trimmed(args).len() > 0 && env.contains_key(trimmed(args)) ==> answer(
            "processEnv"@,
            args,
            env,
            c,
        ) == Some(Ok::<Seq<char>, Seq<char>>(env[trimmed(args)])),
        trimmed(args).len() > 0 && !env.contains_key(trimmed(args)) ==> answer(
            "processEnv"@,
            args,
            env,
            c,
        ) == Some(
            Err::<Seq<char>, Seq<char>>(
                "$processEnv: zmienna '"@ + trimmed(args) + "' nie jest ustawiona"@,
            ),
        ),
        name != "guid"@ && name != "timestamp"@ && name != "datetime"@ && name != "randomInt"@
            && name != "processEnv"@ ==> answer(name, args, env, c) == Some(
            Err::<Seq<char>, Seq<char>>("nieznana system variable: $"@ + name),
        ),
{
    reveal_strlit("guid");
    reveal_strlit("timestamp");
    reveal_strlit("datetime");
    reveal_strlit("randomInt");
    reveal_strlit("processEnv");
    assert("guid"@.len() == 4 && "datetime"@.len() == 8 && "processEnv"@.len() == 10);
    assert("timestamp"@[0] == 't' && "randomInt"@[0] == 'r' && "timestamp"@.len() == 9
        && "randomInt"@.len() == 9);
}

/// Law: the bounds of a random number are two numbers, the first below the second,
/// and anything else is refused with the reason.
pub proof fn law_random_bounds(args: Seq<char>)
    ensures
        words(args).len() != 2 ==> random_bounds(args) == Err::<(i64, i64), Seq<char>>(
            "$randomInt wymaga 2 argumentów (min max), dostałem: '"@ + args + "'"@,
        ),
        words(args).len() == 2 && parsed_i64(words(args)[0]) is None ==> random_bounds(args)
            == Err::<(i64, i64), Seq<char>>(
            "$randomInt: '"@ + words(args)[0] + "' nie jest liczbą"@,
        ),
        words(args).len() == 2 && parsed_i64(words(args)[0]) is Some && parsed_i64(words(args)[1])
            is None ==> random_bounds(args) == Err::<(i64, i64), Seq<char>>(
            "$randomInt: '"@ + words(args)[1] + "' nie jest liczbą"@,
        ),
{
}

/// Law: two numbers with white space between and around them are the bounds of a
/// random number, unless the first is not below the second.
pub proof fn law_written_bounds(
    lead: Seq<char>,
    min: i64,
    gap: Seq<char>,
    max: i64,
    tail: Seq<char>,
)
    requires
        all_white(lead) && all_white(gap) && gap.len() > 0 && all_white(tail),
    ensures
        random_bounds(lead + signed_decimal(min as int) + gap + signed_decimal(max as int) + tail)
            == if min < max {
            Ok::<(i64, i64), Seq<char>>((min, max))
        } else {
            Err(
                "$randomInt: min ("@ + signed_decimal(min as int) + ") musi być < max ("@
                    + signed_decimal(max as int) + ")"@,
            )
        },
{
    lemma_signed_decimal_is_solid(min as int);
    lemma_signed_decimal_is_solid(max as int);
    law_number_round_trip(min);
    law_number_round_trip(max);
    law_two_words(lead, signed_decimal(min as int), gap, signed_decimal(max as int), tail);
}

/// Whether two environments give the same for each of the names.
pub open spec fn same_for(
    names: Seq<Seq<char>>,
    a: Map<Seq<char>, Seq<char>>,
    b: Map<Seq<char>, Seq<char>>,
) -> bool {
    forall|i: int|
        0 <= i < names.len() ==> a.contains_key(#[trigger] names[i]) == b.contains_key(names[i])
            && (a.contains_key(names[i]) ==> a[names[i]] == b[names[i]])
}

proof fn lemma_asked_name(calls: Seq<(Seq<char>, Seq<char>)>, i: int)
    requires
        0 <= i < calls.len(),
        env_name(calls[i]) is Some,
    ensures
        env_names_of(calls).contains(env_name(calls[i])->0),
    decreases calls.len(),
{
    let names = env_names_of(calls);
    if i == calls.len() - 1 {
        assert(names.last() == env_name(calls[i])->0);
    } else {
        let p = calls.drop_last();
        lemma_asked_name(p, i);
        let before = env_names_of(p);
        let k = choose|k: int| 0 <= k < before.len() && before[k] == env_name(calls[i])->0;
        assert(names[k] == before[k]);
    }
}

proof fn lemma_answers_for_names(
    t: Seq<char>,
    a: Map<Seq<char>, Seq<char>>,
    b: Map<Seq<char>, Seq<char>>,
    chances: Seq<Chance>,
)
    requires
        same_for(env_names_of(system_calls(t)), a, b),
    ensures
        answers_to(t, a, chances) == answers_to(t, b, chances),
{
    let calls = system_calls(t);
    assert forall|i: int| 0 <= i < calls.len() implies answer(
        (#[trigger] calls[i]).0,
        calls[i].1,
        a,
        chances[i],
    ) == answer(calls[i].0, calls[i].1, b, chances[i]) by {
        if env_name(calls[i]) is Some {
            lemma_asked_name(calls, i);
            let names = env_names_of(calls);
            let k = choose|k: int| 0 <= k < names.len() && names[k] == env_name(calls[i])->0;
            assert(a.contains_key(names[k]) == b.contains_key(names[k]));
        }
    }
    assert(answers_to(t, a, chances) =~= answers_to(t, b, chances));
}

/// Law: what becomes of a text rests on nothing in the environment but what it
/// gives for the names that the text asks for.
pub proof fn law_environment(
    t: Seq<char>,
    vars: Map<Seq<char>, Seq<char>>,
    a: Map<Seq<char>, Seq<char>>,
    b: Map<Seq<char>, Seq<char>>,
    r: Option<Result<Seq<char>, Seq<char>>>,
)
    requires
        same_for(asked_names(t, vars), a, b),
    ensures
        can_become(t, vars, a, r) <==> can_become(t, vars, b, r),
{
    let u = user_expanded(t, vars);
    assert forall|chances: Seq<Chance>| #[trigger]
        substituted(t, vars, a, chances) == substituted(t, vars, b, chances) by {
        lemma_answers_for_names(u, a, b, chances);
    }
    if can_become(t, vars, a, r) {
        let chances = choose|chances: Seq<Chance>|
            #![trigger can_all_happen(u, chances)]
            can_all_happen(u, chances) && r == substituted(t, vars, a, chances);
        assert(r == substituted(t, vars, b, chances));
    }
    if can_become(t, vars, b, r) {
        let chances = choose|chances: Seq<Chance>|
            #![trigger can_all_happen(u, chances)]
            can_all_happen(u, chances) && r == substituted(t, vars, b, chances);
        assert(substituted(t, vars, a, chances) == r);
    }
}

/// Law: a random number lies within the bounds that the call names.
pub proof fn law_random_in_bounds(
    args: Seq<char>,
    env: Map<Seq<char>, Seq<char>>,
    c: Chance,
)
    requires
        can_happen(c, args),
        random_bounds(args) is Ok,
    ensures
        answer("randomInt"@, args, env, c) == Some(
            Ok::<Seq<char>, Seq<char>>(signed_decimal(c.draw as int)),
        ),
        (random_bounds(args)->Ok_0).0 <= c.draw < (random_bounds(args)->Ok_0).1,
{
    reveal_strlit("guid");
    reveal_strlit("timestamp");
    reveal_strlit("datetime");
    reveal_strlit("randomInt");
    assert("timestamp"@[0] == 't' && "randomInt"@[0] == 'r');
}

} // verus!
