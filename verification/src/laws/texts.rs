//! What holds of texts and numbers.

use vstd::prelude::*;

use super::{all_white, solid};
use crate::number::{digits_value, is_digit, is_number, lemma_digits_value_bounds, parsed_i64};
use crate::text::{
    lemma_solid_run, lemma_solid_run_is, lemma_trimmed_end, lemma_trimmed_start, occurs, occurs_at,
    solid_run, trimmed, trimmed_start, utf8_len, white, words,
};

verus! {

/// Trimming at the start stops at the first character that is not white space.
pub proof fn lemma_trimmed_start_of_two(a: Seq<char>, b: Seq<char>)
    ensures
        trimmed_start(a + b) == if trimmed_start(a).len() > 0 {
            trimmed_start(a) + b
        } else {
            trimmed_start(b)
        },
    decreases a.len(),
{
    if a.len() == 0 {
        assert(a + b == b);
    } else if white(a[0]) {
        assert((a + b).skip(1) == a.skip(1) + b);
        lemma_trimmed_start_of_two(a.skip(1), b);
    } else {
        assert((a + b)[0] == a[0]);
    }
}

/// Law: trimming drops white space at both ends, and nothing else: what it leaves
/// has none at its ends, and stands in the text with only white space around it.
pub proof fn law_trimmed(s: Seq<char>)
    ensures
        trimmed(s).len() > 0 ==> !white(trimmed(s)[0]) && !white(trimmed(s).last()),
        exists|lead: Seq<char>, tail: Seq<char>|
            all_white(lead) && all_white(tail) && s == #[trigger] (lead + trimmed(s) + tail),
{
    lemma_trimmed_start(s);
    let t = trimmed_start(s);
    lemma_trimmed_end(t);
    let r = trimmed(s);
    let i = s.len() - t.len();
    let lead = s.take(i);
    let tail = t.skip(r.len() as int);
    assert forall|k: int| 0 <= k < lead.len() implies white(#[trigger] lead[k]) by {
        assert(lead[k] == s[k]);
    }
    assert forall|k: int| 0 <= k < tail.len() implies white(#[trigger] tail[k]) by {
        assert(tail[k] == t[k + r.len()]);
    }
    assert(s == lead + r + tail);
    if r.len() > 0 {
        assert(r[0] == t[0]);
    }
}

/// Law: a text without white space is one word, and a text of nothing but white
/// space holds none.
pub proof fn law_one_word(s: Seq<char>)
    ensures
        s.len() > 0 && solid(s) ==> words(s) == seq![s],
        all_white(s) ==> words(s) == Seq::<Seq<char>>::empty(),
{
    lemma_trimmed_start(s);
    if s.len() > 0 && solid(s) {
        assert(trimmed_start(s) == s);
        lemma_solid_run_is(s, s.len() as int);
        assert(s.take(s.len() as int) == s);
        let none = s.skip(s.len() as int);
        assert(words(none) == Seq::<Seq<char>>::empty());
        assert(words(s) =~= seq![s]);
    }
    if all_white(s) {
        let t = trimmed_start(s);
        if t.len() > 0 {
            assert(t[0] == s[s.len() - t.len()]);
        }
    }
}

/// Law: the words of two texts with white space between them are those of the
/// first and then those of the second.
pub proof fn law_words_around_white(a: Seq<char>, c: char, b: Seq<char>)
    requires
        white(c),
    ensures
        words(a + seq![c] + b) == words(a) + words(b),
    decreases a.len(),
{
    let r = seq![c] + b;
    let whole = a + seq![c] + b;
    assert(whole == a + r);
    lemma_trimmed_start_of_two(a, r);
    lemma_trimmed_start(a);
    assert(r.skip(1) == b);
    assert(trimmed_start(r) == trimmed_start(b));
    let t = trimmed_start(a);
    if t.len() == 0 {
        assert(words(a) == Seq::<Seq<char>>::empty());
        assert(words(whole) == words(b));
        assert(words(a) + words(b) == words(b));
    } else {
        let n = solid_run(t);
        lemma_solid_run(t);
        let u = t + r;
        assert forall|i: int| 0 <= i < n implies !white(#[trigger] u[i]) by {
            assert(u[i] == t[i]);
        }
        assert(u[n] == if n < t.len() {
            t[n]
        } else {
            c
        });
        lemma_solid_run_is(u, n);
        assert(u.take(n) == t.take(n));
        let rest = t.skip(n);
        assert(u.skip(n) == rest + seq![c] + b);
        law_words_around_white(rest, c, b);
        assert(words(whole) == seq![t.take(n)] + (words(rest) + words(b)));
        assert(words(a) == seq![t.take(n)] + words(rest));
    }
}

/// Law: leading and trailing white space, and how much of it stands between two
/// words, does not matter.
pub proof fn law_two_words(
    lead: Seq<char>,
    a: Seq<char>,
    gap: Seq<char>,
    b: Seq<char>,
    tail: Seq<char>,
)
    requires
        all_white(lead),
        a.len() > 0 && solid(a),
        all_white(gap) && gap.len() > 0,
        b.len() > 0 && solid(b),
        all_white(tail),
    ensures
        words(lead + a + gap + b + tail) == seq![a, b],
{
    law_one_word(a);
    law_one_word(b);
    lemma_words_padded(lead, a, gap);
    lemma_words_padded(Seq::empty(), b, tail);
    let none = Seq::<char>::empty();
    assert(none + b + tail == b + tail);
    let front = lead + a + gap;
    let back = b + tail;
    let c = gap.last();
    let body = lead + a + gap.drop_last();
    assert(front + back == body + seq![c] + back);
    assert(white(c));
    law_words_around_white(body, c, back);
    lemma_words_padded(lead, a, gap.drop_last());
    assert(lead + a + gap + b + tail == front + back);
    assert(seq![a] + seq![b] =~= seq![a, b]);
}

proof fn lemma_words_padded(lead: Seq<char>, s: Seq<char>, tail: Seq<char>)
    requires
        all_white(lead),
        all_white(tail),
    ensures
        words(lead + s + tail) == words(s),
    decreases tail.len(),
{
    if tail.len() > 0 {
        let p = tail.drop_last();
        let c = tail.last();
        lemma_words_padded(lead, s, p);
        let none = Seq::<char>::empty();
        assert(lead + s + tail == (lead + s + p) + seq![c] + none);
        assert(white(c));
        law_words_around_white(lead + s + p, c, none);
        law_one_word(none);
        assert(words(s) + Seq::<Seq<char>>::empty() == words(s));
    } else {
        assert(lead + s + tail == lead + s);
        lemma_trimmed_start_of_two(lead, s);
        lemma_trimmed_start(lead);
        if trimmed_start(lead).len() > 0 {
            assert(trimmed_start(lead)[0] == lead[lead.len() - trimmed_start(lead).len()]);
        }
    }
}

/// Law: a text occurs in another if and only if the other is made of it and what
/// stands before and behind it.
pub proof fn law_occurs(s: Seq<char>, p: Seq<char>)
    ensures
        occurs(s, p) <==> exists|a: Seq<char>, b: Seq<char>| s == #[trigger] (a + p + b),
{
    if occurs(s, p) {
        let i = choose|i: int| occurs_at(s, p, i);
        assert(s == s.take(i) + p + s.skip(i + p.len()));
    }
    if exists|a: Seq<char>, b: Seq<char>| s == #[trigger] (a + p + b) {
        let (a, b) = choose|a: Seq<char>, b: Seq<char>| s == #[trigger] (a + p + b);
        assert(s.subrange(a.len() as int, a.len() as int + p.len()) == p);
        assert(occurs_at(s, p, a.len() as int));
    }
}

/// Law: the bytes of two texts add up, and a character takes one to four of them.
pub proof fn law_utf8_len(a: Seq<char>, b: Seq<char>, c: char)
    ensures
        utf8_len(a + b) == utf8_len(a) + utf8_len(b),
        utf8_len(seq![c]) == if c <= '\u{7f}' {
            1nat
        } else if c <= '\u{7ff}' {
            2
        } else if c <= '\u{ffff}' {
            3
        } else {
            4
        },
    decreases b.len(),
{
    assert(seq![c].drop_last() == Seq::<char>::empty());
    assert(utf8_len(Seq::<char>::empty()) == 0);
    if b.len() == 0 {
        assert(a + b == a);
    } else {
        assert((a + b).drop_last() == a + b.drop_last());
        law_utf8_len(a, b.drop_last(), c);
    }
}

/// Law: digits stand for a number by their places, and a text reads as a 64-bit
/// number if and only if it is digits behind at most one sign and the number is
/// one of 64 bits.
pub proof fn law_parsed_number(s: Seq<char>, c: char)
    requires
        is_number(s),
    ensures
        '0' <= c <= '9' ==> digits_value(s.push(c)) == 10 * digits_value(s) + (c as int
            - '0' as int),
        '0' <= c <= '9' ==> digits_value(seq![c]) == c as int - '0' as int,
        parsed_i64(s) == if digits_value(s) <= i64::MAX {
            Some(digits_value(s) as i64)
        } else {
            None
        },
        parsed_i64(seq!['+'] + s) == parsed_i64(s),
        parsed_i64(seq!['-'] + s) == if -digits_value(s) >= i64::MIN {
            Some((-digits_value(s)) as i64)
        } else {
            None
        },
{
    lemma_digits_value_bounds(s);
    assert(s.push(c).drop_last() == s);
    assert(seq![c].drop_last() == Seq::<char>::empty());
    assert(digits_value(Seq::<char>::empty()) == 0);
    assert((seq!['+'] + s).skip(1) == s);
    assert((seq!['-'] + s).skip(1) == s);
    assert(s[0] != '-' && s[0] != '+') by {
        assert(is_digit(s[0]));
    }
}

/// Law: a number is written in the digits from 0 to 9, at least one.
pub proof fn law_digits(s: Seq<char>)
    ensures
        is_number(s) <==> s.len() > 0 && forall|i: int|
            0 <= i < s.len() ==> '0' <= #[trigger] s[i] <= '9',
{
    if s.len() > 0 && forall|i: int| 0 <= i < s.len() ==> '0' <= #[trigger] s[i] <= '9' {
        assert forall|i: int| 0 <= i < s.len() implies is_digit(#[trigger] s[i]) by {
            assert('0' <= s[i] <= '9');
        }
    }
    if is_number(s) {
        assert forall|i: int| 0 <= i < s.len() implies '0' <= #[trigger] s[i] <= '9' by {
            assert(is_digit(s[i]));
        }
    }
}

/// Law: nothing but digits behind at most one sign reads as a number.
pub proof fn law_no_number(s: Seq<char>)
    ensures
        parsed_i64(s) is Some ==> is_number(s) || (s.len() > 1 && (s[0] == '+' || s[0] == '-')
            && is_number(s.skip(1))),
{
}

} // verus!
