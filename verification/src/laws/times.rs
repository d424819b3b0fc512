//! What holds of moments and offsets.

use vstd::prelude::*;

use super::texts::law_two_words;
use super::{
    all_white, free_of, lemma_solid_is_trimmed, lemma_trimmed_is, lemma_trimmed_of_trimmed_end,
    lemma_trimmed_padded, solid,
};
use crate::clock::{
    datetime_args, formatted, moved, offset_from, strftime, unit_seconds, Moment,
};
use crate::number::{decimal, law_number_round_trip, parsed_i64, signed_decimal};
use crate::text::{
    lemma_first_is, lemma_solid_run_is, lemma_trimmed_end, trimmed, trimmed_end, trimmed_start,
    white, words,
};

verus! {

/// Law: an offset that can be applied is undone by its opposite.
pub proof fn law_offset_undone(base: Moment, delta: int)
    requires
        base.valid(),
    ensures
        moved(base, delta) matches Some(m) ==> m.valid() && moved(m, -delta) == Some(base),
{
}

/// Law: two offsets one after another are one offset, where the moment between
/// them can be told.
pub proof fn law_offsets_add_up(base: Moment, a: int, b: int)
    requires
        moved(base, a) is Some,
    ensures
        moved(moved(base, a)->0, b) == moved(base, a + b),
{
}

/// Law: a moment moves by whole seconds, and stays where it is within its second. It
/// cannot move out of the range of moments.
pub proof fn law_moved(base: Moment, delta: int)
    ensures
        moved(base, delta) == if -8_334_601_228_800 <= base.secs + delta <= 8_210_266_876_799 {
            Some(Moment { secs: (base.secs + delta) as i64, nanos: base.nanos })
        } else {
            None
        },
{
}

/// Law: a minute is sixty seconds, an hour sixty minutes, a day twenty-four
/// hours, a week seven days, and a year 365 days.
pub proof fn law_units()
    ensures
        unit_seconds("s"@) == Some(1int),
        unit_seconds("m"@) == Some(60 * unit_seconds("s"@)->0),
        unit_seconds("h"@) == Some(60 * unit_seconds("m"@)->0),
        unit_seconds("d"@) == Some(24 * unit_seconds("h"@)->0),
        unit_seconds("w"@) == Some(7 * unit_seconds("d"@)->0),
        unit_seconds("y"@) == Some(365 * unit_seconds("d"@)->0),
        forall|unit: Seq<char>| #[trigger]
            unit_seconds(unit) is Some ==> unit == "s"@ || unit == "m"@ || unit == "h"@ || unit
                == "d"@ || unit == "w"@ || unit == "y"@,
{
    reveal_strlit("s");
    reveal_strlit("m");
    reveal_strlit("h");
    reveal_strlit("d");
    reveal_strlit("w");
    reveal_strlit("y");
    assert("s"@[0] == 's' && "m"@[0] == 'm' && "h"@[0] == 'h' && "d"@[0] == 'd' && "w"@[0] == 'w'
        && "y"@[0] == 'y');
}

/// Law: the offset that is written as a number, a space and a unit moves a moment
/// by that number of that unit.
pub proof fn law_offset(base: Moment, n: i64, unit: Seq<char>)
    requires
        unit.len() > 0,
        solid(unit),
        unit_seconds(unit) is Some,
    ensures
        offset_from(base, signed_decimal(n as int) + seq![' '] + unit) == (match moved(
            base,
            n * unit_seconds(unit)->0,
        ) {
            Some(m) => Some(Ok::<Moment, Seq<char>>(m)),
            None => None,
        }),
{
    let number = signed_decimal(n as int);
    lemma_signed_decimal_is_solid(n as int);
    law_number_round_trip(n);
    lemma_two_words(number, unit);
}

/// Law: white space between the number and the unit of an offset, and around them,
/// does not matter, however much it is.
pub proof fn law_padded_offset(
    base: Moment,
    lead: Seq<char>,
    n: i64,
    gap: Seq<char>,
    unit: Seq<char>,
    tail: Seq<char>,
)
    requires
        all_white(lead) && all_white(gap) && gap.len() > 0 && all_white(tail),
        unit_seconds(unit) is Some,
    ensures
        offset_from(base, lead + signed_decimal(n as int) + gap + unit + tail) == (match moved(
            base,
            n * unit_seconds(unit)->0,
        ) {
            Some(m) => Some(Ok::<Moment, Seq<char>>(m)),
            None => None,
        }),
{
    let number = signed_decimal(n as int);
    lemma_signed_decimal_is_solid(n as int);
    law_number_round_trip(n);
    lemma_unit_is_solid(unit);
    law_two_words(lead, number, gap, unit, tail);
}

/// Law: an offset that is not a number and a unit is refused, and the message says
/// what is wrong with it.
pub proof fn law_wrong_offset(base: Moment, args: Seq<char>)
    ensures
        words(args).len() != 2 ==> offset_from(base, args) == Some(
            Err::<Moment, Seq<char>>("offset wymaga 'N unit', dostałem: '"@ + args + "'"@),
        ),
        words(args).len() == 2 && parsed_i64(words(args)[0]) is None ==> offset_from(base, args)
            == Some(Err::<Moment, Seq<char>>("offset: '"@ + words(args)[0] + "' nie jest liczbą"@)),
        words(args).len() == 2 && parsed_i64(words(args)[0]) is Some && unit_seconds(
            words(args)[1],
        ) is None ==> offset_from(base, args) == Some(
            Err::<Moment, Seq<char>>(
                "nieznana jednostka offsetu: '"@ + words(args)[1] + "' (oczekiwane: s/m/h/d/w/y)"@,
            ),
        ),
        words(args).len() == 2 && parsed_i64(words(args)[0]) is Some && unit_seconds(
            words(args)[1],
        ) is Some ==> offset_from(base, args) == (match moved(
            base,
            parsed_i64(words(args)[0])->0 * unit_seconds(words(args)[1])->0,
        ) {
            Some(m) => Some(Ok::<Moment, Seq<char>>(m)),
            None => None,
        }),
{
}

proof fn lemma_unit_is_solid(unit: Seq<char>)
    requires
        unit_seconds(unit) is Some,
    ensures
        unit.len() > 0,
        solid(unit),
{
    reveal_strlit("s");
    reveal_strlit("m");
    reveal_strlit("h");
    reveal_strlit("d");
    reveal_strlit("w");
    reveal_strlit("y");
}

/// A number that is written out holds no white space.
pub proof fn lemma_decimal_is_solid(n: nat)
    ensures
        decimal(n).len() > 0,
        solid(decimal(n)),
    decreases n,
{
    if n >= 10 {
        lemma_decimal_is_solid(n / 10);
        let d = decimal(n);
        let e = decimal(n / 10);
        assert forall|i: int| 0 <= i < d.len() implies !white(#[trigger] d[i]) by {
            if i < e.len() {
                assert(d[i] == e[i]);
            }
        }
    }
}

/// A signed number that is written out holds no white space.
pub proof fn lemma_signed_decimal_is_solid(n: int)
    ensures
        signed_decimal(n).len() > 0,
        solid(signed_decimal(n)),
{
    if n < 0 {
        let d = decimal((-n) as nat);
        lemma_decimal_is_solid((-n) as nat);
        assert forall|i: int| 0 <= i < signed_decimal(n).len() implies !white(
            #[trigger] signed_decimal(n)[i],
        ) by {
            if i > 0 {
                assert(signed_decimal(n)[i] == d[i - 1]);
            }
        }
    } else {
        lemma_decimal_is_solid(n as nat);
    }
}

proof fn lemma_two_words(a: Seq<char>, b: Seq<char>)
    requires
        a.len() > 0,
        solid(a),
        b.len() > 0,
        solid(b),
    ensures
        words(a + seq![' '] + b) == seq![a, b],
{
    let s = a + seq![' '] + b;
    let n = a.len() as int;
    assert(s[0] == a[0]);
    assert(trimmed_start(s) == s);
    assert forall|i: int| 0 <= i < n implies !white(#[trigger] s[i]) by {
        assert(s[i] == a[i]);
    }
    lemma_solid_run_is(s, n);
    assert(s.take(n) == a);
    let t = s.skip(n);
    assert(t.skip(1) == b);
    assert(trimmed_start(b) == b);
    assert(trimmed_start(t) == b);
    lemma_solid_run_is(b, b.len() as int);
    assert(b.take(b.len() as int) == b);
    let e = b.skip(b.len() as int);
    assert(trimmed_start(e) == e);
    assert(words(e) == Seq::<Seq<char>>::empty());
    assert(words(t) == seq![b] + words(e));
    assert(words(s) == seq![a] + words(t));
    assert(words(s) =~= seq![a, b]);
}

/// Law: a format in quotes, with white space in it or not, is told apart from the
/// offset, which is all that follows the closing quote.
pub proof fn law_quoted_format(quote: char, format: Seq<char>, rest: Seq<char>)
    requires
        quote == '"' || quote == '\'',
        free_of(format, quote),
    ensures
        datetime_args(seq![quote] + format + seq![quote] + rest) == (format, trimmed(rest)),
{
    let s = seq![quote] + format + seq![quote] + rest;
    let n = format.len() as int;
    lemma_trimmed_end(rest);
    let e = trimmed_end(rest);
    let j = n + 2 + e.len();
    let t = s.subrange(0, j);
    assert forall|k: int| j <= k < s.len() implies white(#[trigger] s[k]) by {
        assert(s[k] == rest[k - n - 2]);
    }
    if e.len() > 0 {
        assert(s[j - 1] == e.last());
    } else {
        assert(s[j - 1] == quote);
    }
    lemma_trimmed_is(s, 0, j);
    let inner = t.skip(1);
    assert forall|i: int| 0 <= i < n implies #[trigger] inner[i] != quote by {
        assert(inner[i] == format[i]);
    }
    assert(inner[n] == quote);
    lemma_first_is(inner, quote, n);
    assert(t.subrange(1, 1 + n) == format);
    assert(t.skip(n + 2) == e);
    lemma_trimmed_of_trimmed_end(rest);
}

/// Law: a format without quotes ends at white space, and what follows that is the
/// offset.
pub proof fn law_unquoted_format(word: Seq<char>, c: char, rest: Seq<char>)
    requires
        word.len() > 0,
        solid(word),
        word[0] != '"' && word[0] != '\'',
        white(c),
    ensures
        datetime_args(word) == (word, Seq::<char>::empty()),
        datetime_args(word + seq![c] + rest) == (word, trimmed(rest)),
{
    let n = word.len() as int;
    lemma_solid_is_trimmed(word);
    lemma_solid_run_is(word, n);
    let s = word + seq![c] + rest;
    lemma_trimmed_end(rest);
    let e = trimmed_end(rest);
    if e.len() == 0 {
        assert forall|k: int| n <= k < s.len() implies white(#[trigger] s[k]) by {
            if k > n {
                assert(s[k] == rest[k - n - 1]);
            }
        }
        lemma_trimmed_is(s, 0, n);
        assert(s.subrange(0, n) == word);
        lemma_trimmed_of_trimmed_end(rest);
        lemma_trimmed_is(e, 0, 0);
        assert(trimmed(rest) == Seq::<char>::empty());
    } else {
        let j = n + 1 + e.len();
        assert forall|k: int| j <= k < s.len() implies white(#[trigger] s[k]) by {
            assert(s[k] == rest[k - n - 1]);
        }
        assert(s[j - 1] == e.last());
        lemma_trimmed_is(s, 0, j);
        let t = s.subrange(0, j);
        assert forall|i: int| 0 <= i < n implies !white(#[trigger] t[i]) by {
            assert(t[i] == word[i]);
        }
        lemma_solid_run_is(t, n);
        assert(t.take(n) == word);
        assert(t.skip(n + 1) == e);
        lemma_trimmed_of_trimmed_end(rest);
    }
}

/// Law: without arguments the format is `iso8601`, and a quote that is not closed
/// is no quote.
pub proof fn law_special_formats(args: Seq<char>, quote: char, rest: Seq<char>)
    ensures
        all_white(args) ==> datetime_args(args) == ("iso8601"@, Seq::<char>::empty()),
        (quote == '"' || quote == '\'') && free_of(rest, quote) ==> datetime_args(
            seq![quote] + rest,
        ) == (trimmed_end(seq![quote] + rest), Seq::<char>::empty()),
{
    if all_white(args) {
        lemma_trimmed_is(args, 0, 0);
    }
    if (quote == '"' || quote == '\'') && free_of(rest, quote) {
        let s = seq![quote] + rest;
        assert(trimmed_start(s) == s);
        lemma_trimmed_end(s);
        let t = trimmed_end(s);
        if t.len() == 0 {
            assert(white(s[0]));
        }
        assert(t[0] == s[0]);
        let inner = t.skip(1);
        assert forall|i: int| 0 <= i < inner.len() implies #[trigger] inner[i] != quote by {
            assert(inner[i] == s[i + 1]);
            assert(s[i + 1] == rest[i]);
        }
        lemma_first_is(inner, quote, inner.len() as int);
    }
}

/// Law: two names stand for formats, that of HTTP and that of ISO 8601; any other
/// text is a format itself.
pub proof fn law_named_formats(name: Seq<char>, m: Moment)
    ensures
        formatted(m, "rfc1123"@) == strftime(m.secs, m.nanos, "%a, %d %b %Y %H:%M:%S GMT"@),
        formatted(m, "iso8601"@) == strftime(m.secs, m.nanos, "%Y-%m-%dT%H:%M:%SZ"@),
        name != "rfc1123"@ && name != "iso8601"@ ==> formatted(m, name) == strftime(
            m.secs,
            m.nanos,
            name,
        ),
{
    reveal_strlit("rfc1123");
    reveal_strlit("iso8601");
    assert("rfc1123"@[0] == 'r' && "iso8601"@[0] == 'i');
}

/// Law: white space around the arguments of `$datetime` does not matter.
pub proof fn law_datetime_white_space(lead: Seq<char>, args: Seq<char>, tail: Seq<char>)
    requires
        all_white(lead),
        all_white(tail),
    ensures
        datetime_args(lead + args + tail) == datetime_args(args),
{
    lemma_trimmed_padded(lead, args, tail);
}

} // verus!
