//! What stands for a variable in a text, and what defines one: the patterns,
//! what they match, and the search for the first match.

use vstd::prelude::*;

use crate::text::{
    chars_of, first, lemma_first, trim_start, trimmed, trimmed_end, trimmed_start, views, white,
};

verus! {

/// A placeholder for a variable of the document, such as `{{host}}`. Its group
/// is the name.
pub const USER_PATTERN: &'static str = r"\{\{\s*([^$\s\}][^}]*?)\s*\}\}";

/// A placeholder for a system variable, such as `{{$timestamp 1 d}}`. Its
/// groups are the name and the arguments.
pub const SYSTEM_PATTERN: &'static str = r"\{\{\s*\$(\w+)([^}]*?)\s*\}\}";

/// A line that defines a variable, such as `@host = example.com`. Its groups
/// are the name and the value.
pub const DEFINITION_PATTERN: &'static str = r"^\s*@(\w+)\s*=\s*(.+?)\s*$";

/// The patterns.
pub enum Kind {
    User,
    System,
    Definition,
}

/// Whether `\w` matches the character `c`, which is neither an ASCII character nor
/// white space.
pub uninterp spec fn word_beyond_ascii(c: char) -> bool;

/// Whether `\w` matches `c`.
pub open spec fn word_char(c: char) -> bool {
    if (c as u32) < 0x80 {
        ('a' <= c <= 'z') || ('A' <= c <= 'Z') || ('0' <= c <= '9') || c == '_'
    } else {
        !white(c) && word_beyond_ascii(c)
    }
}

/// How many characters at the start of `s` are word characters.
pub open spec fn word_run(s: Seq<char>) -> int
    decreases s.len(),
{
    if s.len() == 0 || !word_char(s[0]) {
        0
    } else {
        1 + word_run(s.skip(1))
    }
}

/// What stands between the double braces that open at `i`, up to the first
/// closing brace, if that brace is doubled.
pub open spec fn inside_braces(t: Seq<char>, i: int) -> Option<Seq<char>> {
    let n = first(t.skip(i + 2), '}');
    let k = i + 2 + n;
    if 0 <= i && i + 2 <= t.len() && t[i] == '{' && t[i + 1] == '{' && k + 1 < t.len() && t[k + 1]
        == '}' {
        Some(t.subrange(i + 2, k))
    } else {
        None
    }
}

/// The placeholder of a document variable that starts at `i`, if one does:
/// the whole placeholder, then the name, which is not empty and does not start
/// with a dollar sign.
pub open spec fn user_at(t: Seq<char>, i: int) -> Option<Seq<Seq<char>>> {
    match inside_braces(t, i) {
        Some(inner) => {
            let name = trimmed(inner);
            if name.len() > 0 && name[0] != '$' {
                Some(seq![t.subrange(i, i + inner.len() + 4), name])
            } else {
                None
            }
        },
        None => None,
    }
}

/// The placeholder of a system variable that starts at `i`, if one does: the
/// whole placeholder, the word behind the dollar sign, and the rest.
pub open spec fn system_at(t: Seq<char>, i: int) -> Option<Seq<Seq<char>>> {
    match inside_braces(t, i) {
        Some(inner) => {
            let call = trimmed_start(inner);
            let n = word_run(call.skip(1));
            if call.len() > 0 && call[0] == '$' && n > 0 {
                Some(
                    seq![
                        t.subrange(i, i + inner.len() + 4),
                        call.subrange(1, 1 + n),
                        trimmed_end(call.skip(1 + n)),
                    ],
                )
            } else {
                None
            }
        },
        None => None,
    }
}

/// The value of a definition, out of what stands behind the equals sign: that
/// text trimmed, or its last character where it is all white space.
pub open spec fn definition_value(s: Seq<char>) -> Seq<char> {
    let value = trimmed(s);
    if value.len() > 0 {
        value
    } else {
        seq![s.last()]
    }
}

/// The definition that the line `t` is, if it is one: the line, the name, and
/// the value.
pub open spec fn definition_in(t: Seq<char>) -> Option<Seq<Seq<char>>> {
    let s = trimmed_start(t);
    let n = word_run(s.skip(1));
    let behind = trimmed_start(s.skip(1 + n));
    if s.len() > 0 && s[0] == '@' && n > 0 && behind.len() > 1 && behind[0] == '=' {
        Some(seq![t, s.subrange(1, 1 + n), definition_value(behind.skip(1))])
    } else {
        None
    }
}

/// The definition that starts at `i`: a definition takes its whole line.
pub open spec fn definition_at(t: Seq<char>, i: int) -> Option<Seq<Seq<char>>> {
    if i == 0 {
        definition_in(t)
    } else {
        None
    }
}

/// What the pattern matches at `i`, if it matches there: the whole match, then
/// what its groups match.
pub open spec fn match_at(kind: Kind, t: Seq<char>, i: int) -> Option<Seq<Seq<char>>> {
    match kind {
        Kind::User => user_at(t, i),
        Kind::System => system_at(t, i),
        Kind::Definition => definition_at(t, i),
    }
}

/// The first place from `i` on where the pattern matches.
pub open spec fn place_from(kind: Kind, t: Seq<char>, i: int) -> Option<int>
    decreases t.len() + 1 - i,
{
    if i > t.len() {
        None
    } else if match_at(kind, t, i) is Some {
        Some(i)
    } else {
        place_from(kind, t, i + 1)
    }
}

/// The first place where the pattern matches.
pub open spec fn place(kind: Kind, t: Seq<char>) -> Option<int> {
    place_from(kind, t, 0)
}

/// What the pattern matches at the first place where it does.
pub open spec fn groups(kind: Kind, t: Seq<char>) -> Seq<Seq<char>> {
    match_at(kind, t, place(kind, t)->0)->0
}

/// What stands before the first match.
pub open spec fn before(kind: Kind, t: Seq<char>) -> Seq<char> {
    t.take(place(kind, t)->0)
}

/// What stands behind the first match.
pub open spec fn after(kind: Kind, t: Seq<char>) -> Seq<char> {
    t.skip(place(kind, t)->0 + groups(kind, t)[0].len())
}

/// A match of a pattern in a text.
#[derive(Debug)]
pub struct Captured {
    /// What stands before the match.
    pub before: String,
    /// The whole match, then what its groups matched.
    pub groups: Vec<String>,
    /// What stands behind the match.
    pub after: String,
}

/// Whether `r` is the first match of the pattern in `t`.
pub open spec fn first_match(r: Option<Captured>, kind: Kind, t: Seq<char>) -> bool {
    match r {
        Some(c) => {
            &&& place(kind, t) is Some
            &&& c.before@ == before(kind, t)
            &&& views(c.groups@) == groups(kind, t)
            &&& c.after@ == after(kind, t)
        },
        None => place(kind, t) is None,
    }
}

/// `regex::Regex::captures`: the leftmost match of `pattern` in `text`, for the
/// three patterns above. `\s` is the Unicode property `White_Space`. Of `\w`,
/// it is stated that ASCII letters, digits and the underscore belong to it, and no
/// white space; which other characters do has a name. What the definition pattern
/// finds in a text with line feeds is not stated.
#[verifier::external_body]
fn captures(pattern: &str, text: &str) -> (r: Option<Captured>)
    requires
        pattern@ == USER_PATTERN@ || pattern@ == SYSTEM_PATTERN@ || pattern@ == DEFINITION_PATTERN@,
    ensures
        pattern@ == USER_PATTERN@ ==> first_match(r, Kind::User, text@),
        pattern@ == SYSTEM_PATTERN@ ==> first_match(r, Kind::System, text@),
        pattern@ == DEFINITION_PATTERN@ && !text@.contains('\n') ==> first_match(
            r,
            Kind::Definition,
            text@,
        ),
        pattern@ != USER_PATTERN@ && r is Some ==> forall|j: int|
            0 <= j < r->0.groups@[1]@.len() ==> ((#[trigger] r->0.groups@[1]@[j]) as u32) < 0x80
                || word_beyond_ascii(r->0.groups@[1]@[j]),
{
    let found = regex::Regex::new(pattern).unwrap().captures(text)?;
    let whole = found.get(0)?;
    Some(Captured {
        before: text[..whole.start()].to_string(),
        groups: found.iter().map(|g| g.map_or(String::new(), |m| m.as_str().to_string())).collect(),
        after: text[whole.end()..].to_string(),
    })
}

/// The first placeholder of a document variable in `text`.
pub(crate) fn find_user(text: &str) -> (r: Option<Captured>)
    ensures
        first_match(r, Kind::User, text@),
{
    captures(USER_PATTERN, text)
}

/// The first placeholder of a system variable in `text`.
pub(crate) fn find_system(text: &str) -> (r: Option<Captured>)
    ensures
        first_match(r, Kind::System, text@),
{
    captures(SYSTEM_PATTERN, text)
}

/// The name and the value that `line` defines, if it is a definition. The pattern
/// is tried only where an at sign is the first character that is not white space.
pub(crate) fn find_definition(line: &str) -> (r: Option<Captured>)
    requires
        !line@.contains('\n'),
    ensures
        first_match(r, Kind::Definition, line@),
{
    let all: Vec<char> = chars_of(line);
    let head: &[char] = trim_start(all.as_slice());
    if head.len() == 0 || head[0] != '@' {
        proof {
            lemma_place_from(Kind::Definition, line@, 0);
        }
        return None;
    }
    captures(DEFINITION_PATTERN, line)
}

proof fn lemma_inside_braces(t: Seq<char>, i: int)
    ensures
        inside_braces(t, i) matches Some(inner) ==> 0 <= i && i + inner.len() + 4 <= t.len()
            && t.subrange(i, i + inner.len() + 4) == seq!['{', '{'] + inner + seq!['}', '}'],
{
    if inside_braces(t, i) is Some {
        let s = t.skip(i + 2);
        lemma_first(s, '}');
        let n = first(s, '}');
        assert(s[n] == t[i + 2 + n]);
        let inner = t.subrange(i + 2, i + 2 + n);
        assert(t.subrange(i, i + n + 4) =~= seq!['{', '{'] + inner + seq!['}', '}']);
    }
}

/// Where a placeholder starts, it lies within the text and is not empty.
pub proof fn lemma_match_at(kind: Kind, t: Seq<char>, i: int)
    requires
        kind is User || kind is System,
    ensures
        match_at(kind, t, i) matches Some(g) ==> {
            &&& g.len() == (if kind is User { 2int } else { 3int })
            &&& 0 <= i
            &&& g[0].len() >= 4
            &&& i + g[0].len() <= t.len()
            &&& g[0] == t.subrange(i, i + g[0].len())
        },
{
    lemma_inside_braces(t, i);
}

/// The first place is a place, within the text, and no earlier one is.
pub proof fn lemma_place_from(kind: Kind, t: Seq<char>, i: int)
    ensures
        place_from(kind, t, i) matches Some(p) ==> i <= p <= t.len() && match_at(kind, t, p) is
            Some,
        place_from(kind, t, i) matches Some(p) ==> forall|j: int| i <= j < p ==> (
            #[trigger] match_at(kind, t, j)) is None,
        place_from(kind, t, i) is None ==> forall|j: int| i <= j <= t.len() ==> (
            #[trigger] match_at(kind, t, j)) is None,
    decreases t.len() + 1 - i,
{
    if i <= t.len() && match_at(kind, t, i) is None {
        lemma_place_from(kind, t, i + 1);
    }
}

/// The text behind a placeholder is shorter than the text.
pub proof fn lemma_after(kind: Kind, t: Seq<char>)
    requires
        kind is User || kind is System,
        place(kind, t) is Some,
    ensures
        after(kind, t).len() < t.len(),
        groups(kind, t).len() == (if kind is User { 2int } else { 3int }),
        t == before(kind, t) + groups(kind, t)[0] + after(kind, t),
{
    lemma_place_from(kind, t, 0);
    lemma_match_at(kind, t, place(kind, t)->0);
}

} // verus!
