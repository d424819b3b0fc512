//! What holds of the library as a whole.

use vstd::prelude::*;

use crate::text::{
    first, lemma_first, lemma_first_is, lemma_trimmed_end, lemma_trimmed_start, lines_in, trimmed,
    trimmed_end, trimmed_start, white, without_return,
};

pub mod commands;
pub mod requests;
pub mod responses;
pub mod texts;
pub mod times;
pub mod variables;

verus! {

/// Whether no character of `s` is `c`.
pub open spec fn free_of(s: Seq<char>, c: char) -> bool {
    forall|i: int| 0 <= i < s.len() ==> #[trigger] s[i] != c
}

/// Whether no character of `s` is white space.
pub open spec fn solid(s: Seq<char>) -> bool {
    forall|i: int| 0 <= i < s.len() ==> !white(#[trigger] s[i])
}

/// Whether no two opening braces stand side by side in `t`.
pub open spec fn without_braces(t: Seq<char>) -> bool {
    forall|i: int| 0 <= i < t.len() - 1 && (#[trigger] t[i]) == '{' ==> t[i + 1] != '{'
}

/// Whether `s` is nothing but white space.
pub open spec fn all_white(s: Seq<char>) -> bool {
    forall|i: int| 0 <= i < s.len() ==> white(#[trigger] s[i])
}

/// A text without white space at its ends stays as it is when it is trimmed.
pub proof fn lemma_solid_is_trimmed(s: Seq<char>)
    requires
        s.len() > 0 ==> !white(s[0]) && !white(s.last()),
    ensures
        trimmed_start(s) == s,
        trimmed_end(s) == s,
        trimmed(s) == s,
{
}

/// White space around a text that has none at its own ends is what trimming
/// drops.
pub proof fn lemma_trimmed_is(s: Seq<char>, i: int, j: int)
    requires
        0 <= i <= j <= s.len(),
        forall|k: int| 0 <= k < i ==> white(#[trigger] s[k]),
        forall|k: int| j <= k < s.len() ==> white(#[trigger] s[k]),
        i < j ==> !white(s[i]) && !white(s[j - 1]),
    ensures
        trimmed(s) == s.subrange(i, j),
{
    lemma_trimmed_start(s);
    let t = trimmed_start(s);
    let a = s.len() - t.len();
    lemma_trimmed_end(t);
    let r = trimmed_end(t);
    if i < j {
        if a < i {
            assert(t[0] == s[a]);
        } else if a > i {
            assert(white(s[i]));
        }
        assert(a == i);
        let b = a + r.len();
        if b > j {
            assert(r.last() == t[r.len() - 1]);
            assert(t[r.len() - 1] == s[b - 1]);
        } else if b < j {
            assert(white(t[j - 1 - a]));
            assert(t[j - 1 - a] == s[j - 1]);
        }
        assert(r == s.subrange(i, j));
    } else {
        if t.len() > 0 {
            assert(t[0] == s[a]);
            assert(white(s[a]));
        }
        assert(r == s.subrange(i, j));
    }
}

/// What trimming leaves has no white space at its ends.
pub proof fn lemma_trimmed_ends(s: Seq<char>)
    ensures
        trimmed(s).len() > 0 ==> !white(trimmed(s)[0]) && !white(trimmed(s).last()),
{
    lemma_trimmed_start(s);
    let t = trimmed_start(s);
    lemma_trimmed_end(t);
    if trimmed(s).len() > 0 {
        assert(trimmed(s)[0] == t[0]);
    }
}

/// White space at the end changes nothing about what trimming leaves.
pub proof fn lemma_trimmed_of_trimmed_end(s: Seq<char>)
    ensures
        trimmed(trimmed_end(s)) == trimmed(s),
{
    lemma_trimmed_end(s);
    let e = trimmed_end(s);
    lemma_trimmed_start(e);
    let i = e.len() - trimmed_start(e).len();
    let j = e.len() as int;
    if i < j {
        assert(trimmed_start(e)[0] == e[i]);
        assert(e.last() == e[j - 1]);
        assert(forall|k: int| 0 <= k < e.len() ==> s[k] == #[trigger] e[k]);
        assert forall|k: int| 0 <= k < i implies white(#[trigger] s[k]) by {
            assert(white(e[k]));
        }
        assert(s[j - 1] == e[j - 1]);
        lemma_trimmed_is(s, i, j);
        lemma_trimmed_is(e, i, j);
        assert(s.subrange(i, j) == e.subrange(i, j));
    } else {
        if j > 0 {
            assert(white(e[j - 1]));
        }
        lemma_trimmed_is(s, 0, 0);
        lemma_trimmed_is(e, 0, 0);
    }
}

/// White space around a text changes nothing about what trimming leaves.
pub proof fn lemma_trimmed_padded(lead: Seq<char>, s: Seq<char>, tail: Seq<char>)
    requires
        all_white(lead),
        all_white(tail),
    ensures
        trimmed(lead + s + tail) == trimmed(s),
{
    let whole = lead + s + tail;
    let n = lead.len() as int;
    lemma_trimmed_start(s);
    let t = trimmed_start(s);
    lemma_trimmed_end(t);
    let r = trimmed_end(t);
    let i = s.len() - t.len();
    let j = i + r.len();
    assert(r == s.subrange(i, j));
    assert forall|k: int| 0 <= k < n + i implies white(#[trigger] whole[k]) by {
        if k < n {
            assert(whole[k] == lead[k]);
        } else {
            assert(whole[k] == s[k - n]);
        }
    }
    assert forall|k: int| n + j <= k < whole.len() implies white(#[trigger] whole[k]) by {
        if k < n + s.len() {
            assert(whole[k] == s[k - n]);
            assert(s[k - n] == t[k - n - i]);
        } else {
            assert(whole[k] == tail[k - n - s.len()]);
        }
    }
    if i < j {
        lemma_trimmed_ends(s);
        assert(whole[n + i] == r[0]);
        assert(whole[n + j - 1] == r.last());
    }
    lemma_trimmed_is(whole, n + i, n + j);
    assert(whole.subrange(n + i, n + j) == r);
}

/// The lines of two texts with a line feed between them are those of the first,
/// ended by the line feed, and then those of the second.
pub proof fn lemma_lines_of_two_texts(t: Seq<char>, s: Seq<char>)
    ensures
        lines_in(t.push('\n') + s) == lines_in(t.push('\n')) + lines_in(s),
    decreases t.len(),
{
    let above = t.push('\n');
    let whole = above + s;
    let k = first(t, '\n');
    lemma_first(t, '\n');
    assert(forall|i: int| 0 <= i < k ==> above[i] == #[trigger] t[i]);
    assert(forall|i: int| 0 <= i < k ==> whole[i] == #[trigger] t[i]);
    assert forall|i: int| 0 <= i < k implies #[trigger] above[i] != '\n' by {
        assert(above[i] == t[i]);
    }
    assert forall|i: int| 0 <= i < k implies #[trigger] whole[i] != '\n' by {
        assert(whole[i] == t[i]);
    }
    lemma_first_is(above, '\n', k);
    lemma_first_is(whole, '\n', k);
    assert(whole.take(k) == above.take(k));
    let head = without_return(above.take(k));
    if k == t.len() {
        assert(above.skip(k + 1) == Seq::<char>::empty());
        assert(whole.skip(k + 1) == s);
        assert(lines_in(above) == seq![head] + lines_in(Seq::<char>::empty()));
        assert(lines_in(above) == seq![head]);
    } else {
        let rest = t.skip(k + 1);
        lemma_lines_of_two_texts(rest, s);
        assert(above.skip(k + 1) == rest.push('\n'));
        assert(whole.skip(k + 1) == rest.push('\n') + s);
        assert(lines_in(above) == seq![head] + lines_in(rest.push('\n')));
        assert(lines_in(whole) == seq![head] + (lines_in(rest.push('\n')) + lines_in(s)));
    }
}

/// A line feed at the end of a text ends its last line, or adds an empty one.
pub proof fn lemma_lines_of_ended_text(t: Seq<char>)
    requires
        t.len() > 0 ==> t.last() != '\r',
    ensures
        lines_in(t.push('\n')) == lines_in(t) || lines_in(t.push('\n')) == lines_in(t).push(
            Seq::empty(),
        ),
    decreases t.len(),
{
    let above = t.push('\n');
    let k = first(t, '\n');
    lemma_first(t, '\n');
    assert forall|i: int| 0 <= i < k implies #[trigger] above[i] != '\n' by {
        assert(above[i] == t[i]);
    }
    lemma_first_is(above, '\n', k);
    assert(above.take(k) == t.take(k));
    let none = Seq::<char>::empty();
    if k == t.len() {
        assert(above.skip(k + 1) == none);
        assert(t.take(k) == t);
        assert(lines_in(above) == seq![t] + lines_in(none));
        assert(lines_in(above) == seq![t]);
        if t.len() == 0 {
            assert(t == none);
            assert(lines_in(above) == lines_in(t).push(none));
        }
    } else {
        let rest = t.skip(k + 1);
        let head = without_return(t.take(k));
        lemma_lines_of_ended_text(rest);
        assert(above.skip(k + 1) == rest.push('\n'));
        assert(lines_in(above) == seq![head] + lines_in(rest.push('\n')));
        assert(lines_in(t) == seq![head] + lines_in(rest));
        assert(seq![head] + lines_in(rest).push(none) == (seq![head] + lines_in(rest)).push(none));
    }
}

} // verus!
