//! Text as sequences of characters: white space, trimming, searching, lines and words.

use vstd::prelude::*;
use vstd::slice::slice_subrange;

verus! {

/// `String::push`: appends one character to the end of the text.
pub assume_specification[ String::push ](s: &mut String, c: char)
    ensures
        final(s)@ == old(s)@.push(c),
;

/// The characters with the Unicode property `White_Space`.
pub open spec fn white(c: char) -> bool {
    let u = c as u32;
    ||| 0x09 <= u <= 0x0d
    ||| u == 0x20
    ||| u == 0x85
    ||| u == 0xa0
    ||| u == 0x1680
    ||| 0x2000 <= u <= 0x200a
    ||| u == 0x2028
    ||| u == 0x2029
    ||| u == 0x202f
    ||| u == 0x205f
    ||| u == 0x3000
}

/// Whether `c` is white space.
pub fn is_white(c: char) -> (r: bool)
    ensures
        r == white(c),
{
    let u: u32 = c as u32;
    (0x09 <= u && u <= 0x0d) || u == 0x20 || u == 0x85 || u == 0xa0 || u == 0x1680 || (0x2000 <= u
        && u <= 0x200a) || u == 0x2028 || u == 0x2029 || u == 0x202f || u == 0x205f || u == 0x3000
}

/// The text as `str::trim_start` gives it: without its leading white space.
pub open spec fn trimmed_start(s: Seq<char>) -> Seq<char>
    decreases s.len(),
{
    if s.len() > 0 && white(s[0]) {
        trimmed_start(s.skip(1))
    } else {
        s
    }
}

/// The text as `str::trim_end` gives it: without its trailing white space.
pub open spec fn trimmed_end(s: Seq<char>) -> Seq<char>
    decreases s.len(),
{
    if s.len() > 0 && white(s.last()) {
        trimmed_end(s.drop_last())
    } else {
        s
    }
}

/// The text as `str::trim` gives it: without white space at either end.
pub open spec fn trimmed(s: Seq<char>) -> Seq<char> {
    trimmed_end(trimmed_start(s))
}

/// The position of the first `c` in `s`, or the length of `s` where there is none.
pub open spec fn first(s: Seq<char>, c: char) -> int
    decreases s.len(),
{
    if s.len() == 0 || s[0] == c {
        0
    } else {
        1 + first(s.skip(1), c)
    }
}

/// How many characters at the start of `s` are not white space.
pub open spec fn solid_run(s: Seq<char>) -> int
    decreases s.len(),
{
    if s.len() == 0 || white(s[0]) {
        0
    } else {
        1 + solid_run(s.skip(1))
    }
}

/// The maximal runs of characters that are not white space, in order
/// (`str::split_whitespace`).
pub open spec fn words(s: Seq<char>) -> Seq<Seq<char>>
    decreases s.len(),
    when true
    via words_shrink
{
    let t = trimmed_start(s);
    if t.len() == 0 {
        Seq::empty()
    } else {
        seq![t.take(solid_run(t))] + words(t.skip(solid_run(t)))
    }
}

#[via_fn]
proof fn words_shrink(s: Seq<char>) {
    lemma_trimmed_start(s);
    lemma_solid_run(trimmed_start(s));
}

/// `s` without one carriage return at its end.
pub open spec fn without_return(s: Seq<char>) -> Seq<char> {
    if s.len() > 0 && s.last() == '\r' {
        s.drop_last()
    } else {
        s
    }
}

/// The lines of a text (`str::lines`): a line ends at a line feed, which a
/// carriage return may precede; what follows the last line feed is a line
/// unless it is empty.
pub open spec fn lines_in(s: Seq<char>) -> Seq<Seq<char>>
    decreases s.len(),
    when true
    via lines_shrink
{
    let k = first(s, '\n');
    if s.len() == 0 {
        Seq::empty()
    } else if k == s.len() {
        seq![s]
    } else {
        seq![without_return(s.take(k))] + lines_in(s.skip(k + 1))
    }
}

#[via_fn]
proof fn lines_shrink(s: Seq<char>) {
    lemma_first(s, '\n');
}

/// The parts one after another, with a line feed between each two.
pub open spec fn joined(parts: Seq<Seq<char>>) -> Seq<char>
    decreases parts.len(),
{
    if parts.len() == 0 {
        Seq::empty()
    } else if parts.len() == 1 {
        parts[0]
    } else {
        joined(parts.drop_last()) + seq!['\n'] + parts.last()
    }
}

/// Whether `p` occurs in `s`.
pub open spec fn occurs(s: Seq<char>, p: Seq<char>) -> bool {
    exists|i: int| occurs_at(s, p, i)
}

/// Whether `p` occurs in `s` at position `i`.
pub open spec fn occurs_at(s: Seq<char>, p: Seq<char>, i: int) -> bool {
    0 <= i <= s.len() - p.len() && s.subrange(i, i + p.len()) == p
}

/// How many bytes the UTF-8 form of `c` takes.
pub open spec fn utf8_width(c: char) -> nat {
    let u = c as u32;
    if u < 0x80 {
        1
    } else if u < 0x800 {
        2
    } else if u < 0x1_0000 {
        3
    } else {
        4
    }
}

/// How many bytes the UTF-8 form of `s` takes (`str::len`).
pub open spec fn utf8_len(s: Seq<char>) -> nat
    decreases s.len(),
{
    if s.len() == 0 {
        0
    } else {
        utf8_len(s.drop_last()) + utf8_width(s.last())
    }
}

/// The texts that the strings hold.
pub open spec fn views(v: Seq<String>) -> Seq<Seq<char>> {
    Seq::new(v.len(), |i: int| v[i]@)
}

/// The text that an optional string holds.
pub open spec fn text_view(text: Option<String>) -> Option<Seq<char>> {
    match text {
        Some(t) => Some(t@),
        None => None,
    }
}

/// Trimming at the start drops only white space, and all of it.
pub proof fn lemma_trimmed_start(s: Seq<char>)
    ensures
        trimmed_start(s).len() <= s.len(),
        trimmed_start(s) == s.skip(s.len() - trimmed_start(s).len()),
        trimmed_start(s).len() > 0 ==> !white(trimmed_start(s)[0]),
        forall|i: int| 0 <= i < s.len() - trimmed_start(s).len() ==> white(#[trigger] s[i]),
    decreases s.len(),
{
    if s.len() > 0 && white(s[0]) {
        let r = s.skip(1);
        lemma_trimmed_start(r);
        assert(trimmed_start(s) == s.skip(s.len() - trimmed_start(s).len()));
        assert forall|i: int| 0 <= i < s.len() - trimmed_start(s).len() implies white(
            #[trigger] s[i],
        ) by {
            if i > 0 {
                assert(s[i] == r[i - 1]);
            }
        }
    } else {
        assert(s == s.skip(0));
    }
}

/// Trimming at the end drops only white space, and all of it.
pub proof fn lemma_trimmed_end(s: Seq<char>)
    ensures
        trimmed_end(s).len() <= s.len(),
        trimmed_end(s) == s.take(trimmed_end(s).len() as int),
        trimmed_end(s).len() > 0 ==> !white(trimmed_end(s).last()),
        forall|i: int| trimmed_end(s).len() <= i < s.len() ==> white(#[trigger] s[i]),
    decreases s.len(),
{
    if s.len() > 0 && white(s.last()) {
        let r = s.drop_last();
        lemma_trimmed_end(r);
        assert(trimmed_end(s) == s.take(trimmed_end(s).len() as int));
        assert forall|i: int| trimmed_end(s).len() <= i < s.len() implies white(
            #[trigger] s[i],
        ) by {
            if i < s.len() - 1 {
                assert(s[i] == r[i]);
            }
        }
    } else {
        assert(s == s.take(s.len() as int));
    }
}

/// `first` finds a place of `c`, and no earlier place holds `c`.
pub proof fn lemma_first(s: Seq<char>, c: char)
    ensures
        0 <= first(s, c) <= s.len(),
        first(s, c) < s.len() ==> s[first(s, c)] == c,
        forall|i: int| 0 <= i < first(s, c) ==> #[trigger] s[i] != c,
    decreases s.len(),
{
    if s.len() == 0 || s[0] == c {
    } else {
        let r = s.skip(1);
        lemma_first(r, c);
        assert forall|i: int| 0 <= i < first(s, c) implies #[trigger] s[i] != c by {
            if i > 0 {
                assert(s[i] == r[i - 1]);
            }
        }
    }
}

/// A place of `c` before which no `c` stands is the one that `first` finds.
pub proof fn lemma_first_is(s: Seq<char>, c: char, k: int)
    requires
        0 <= k <= s.len(),
        k < s.len() ==> s[k] == c,
        forall|i: int| 0 <= i < k ==> #[trigger] s[i] != c,
    ensures
        first(s, c) == k,
{
    lemma_first(s, c);
    if first(s, c) < k {
        assert(s[first(s, c)] != c);
    }
}

/// The leading run holds no white space and ends at white space or at the end.
pub proof fn lemma_solid_run(s: Seq<char>)
    ensures
        0 <= solid_run(s) <= s.len(),
        solid_run(s) < s.len() ==> white(s[solid_run(s)]),
        forall|i: int| 0 <= i < solid_run(s) ==> !white(#[trigger] s[i]),
        s.len() > 0 && !white(s[0]) ==> solid_run(s) > 0,
    decreases s.len(),
{
    if s.len() == 0 || white(s[0]) {
    } else {
        let r = s.skip(1);
        lemma_solid_run(r);
        assert forall|i: int| 0 <= i < solid_run(s) implies !white(#[trigger] s[i]) by {
            if i > 0 {
                assert(s[i] == r[i - 1]);
            }
        }
    }
}

/// A run without white space that ends at white space or at the end is the one
/// that `solid_run` measures.
pub proof fn lemma_solid_run_is(s: Seq<char>, k: int)
    requires
        0 <= k <= s.len(),
        k < s.len() ==> white(s[k]),
        forall|i: int| 0 <= i < k ==> !white(#[trigger] s[i]),
    ensures
        solid_run(s) == k,
{
    lemma_solid_run(s);
    if solid_run(s) < k {
        assert(!white(s[solid_run(s)]));
    }
}

/// The characters of `s`, in order.
pub fn chars_of(s: &str) -> (r: Vec<char>)
    ensures
        r@ == s@,
{
    let mut out: Vec<char> = Vec::new();
    for c in it: s.chars()
        invariant
            out@ == it.seq().take(it.index() as int),
            it.seq() == s@,
    {
        out.push(c);
    }
    out
}

/// The text made of the characters `s`.
pub fn string_of(s: &[char]) -> (r: String)
    ensures
        r@ == s@,
{
    let mut out = String::new();
    for i in 0..s.len()
        invariant
            out@ == s@.take(i as int),
    {
        out.push(s[i]);
    }
    proof {
        assert(s@.take(s@.len() as int) == s@);
    }
    out
}

/// The text `before`, `middle` and `after` one after another.
pub fn around(before: &str, middle: &str, after: &str) -> (r: String)
    ensures
        r@ == before@ + middle@ + after@,
{
    let mut out = String::new();
    out.append(before);
    out.append(middle);
    out.append(after);
    out
}

/// Whether `s` and `t` hold the same characters.
pub fn same(s: &[char], t: &str) -> (r: bool)
    ensures
        r == (s@ == t@),
{
    let other: Vec<char> = chars_of(t);
    if s.len() != other.len() {
        return false;
    }
    for i in 0..s.len()
        invariant
            other@ == t@,
            s@.len() == t@.len(),
            forall|j: int| 0 <= j < i ==> s@[j] == t@[j],
    {
        if s[i] != other[i] {
            return false;
        }
    }
    proof {
        assert(s@ == t@);
    }
    true
}

/// `s` without its leading white space.
pub fn trim_start(s: &[char]) -> (r: &[char])
    ensures
        r@ == trimmed_start(s@),
{
    let mut i: usize = 0;
    proof {
        assert(s@.skip(0) == s@);
    }
    while i < s.len() && is_white(s[i])
        invariant
            0 <= i <= s@.len(),
            trimmed_start(s@.skip(i as int)) == trimmed_start(s@),
        decreases s@.len() - i,
    {
        proof {
            assert(s@.skip(i as int).skip(1) == s@.skip(i + 1));
        }
        i += 1;
    }
    slice_subrange(s, i, s.len())
}

/// `s` without its trailing white space.
pub fn trim_end(s: &[char]) -> (r: &[char])
    ensures
        r@ == trimmed_end(s@),
{
    let mut n: usize = s.len();
    proof {
        assert(s@.take(s@.len() as int) == s@);
    }
    while n > 0 && is_white(s[n - 1])
        invariant
            0 <= n <= s@.len(),
            trimmed_end(s@.take(n as int)) == trimmed_end(s@),
        decreases n,
    {
        proof {
            assert(s@.take(n as int).drop_last() == s@.take(n - 1));
        }
        n -= 1;
    }
    slice_subrange(s, 0, n)
}

/// `s` without white space at either end.
pub fn trim(s: &[char]) -> (r: &[char])
    ensures
        r@ == trimmed(s@),
{
    trim_end(trim_start(s))
}

/// The position of the first `c` in `s`, or the length of `s`.
pub fn find_char(s: &[char], c: char) -> (r: usize)
    ensures
        r == first(s@, c),
        r <= s@.len(),
{
    let mut i: usize = 0;
    while i < s.len() && s[i] != c
        invariant
            0 <= i <= s@.len(),
            forall|j: int| 0 <= j < i ==> s@[j] != c,
        decreases s@.len() - i,
    {
        i += 1;
    }
    proof {
        lemma_first_is(s@, c, i as int);
    }
    i
}

/// The position of the first white space in `s`, or the length of `s`.
pub fn find_white(s: &[char]) -> (r: usize)
    ensures
        r == solid_run(s@),
        r <= s@.len(),
{
    let mut i: usize = 0;
    while i < s.len() && !is_white(s[i])
        invariant
            0 <= i <= s@.len(),
            forall|j: int| 0 <= j < i ==> !white(s@[j]),
        decreases s@.len() - i,
    {
        i += 1;
    }
    proof {
        lemma_solid_run_is(s@, i as int);
    }
    i
}

/// Whether `s` starts with `p`.
pub fn starts_with(s: &[char], p: &str) -> (r: bool)
    ensures
        r == p@.is_prefix_of(s@),
{
    let prefix: Vec<char> = chars_of(p);
    if s.len() < prefix.len() {
        return false;
    }
    for i in 0..prefix.len()
        invariant
            prefix@ == p@,
            p@.len() <= s@.len(),
            forall|j: int| 0 <= j < i ==> s@[j] == p@[j],
    {
        if s[i] != prefix[i] {
            proof {
                assert(s@.subrange(0, p@.len() as int)[i as int] == s@[i as int]);
            }
            return false;
        }
    }
    proof {
        assert(p@ == s@.subrange(0, p@.len() as int));
    }
    true
}

/// Whether `p` occurs in `s` (`str::contains`).
pub fn contains(s: &str, p: &str) -> (r: bool)
    ensures
        r == occurs(s@, p@),
{
    let t: Vec<char> = chars_of(s);
    let n: usize = chars_of(p).len();
    let mut i: usize = 0;
    while i <= t.len() && n <= t.len() - i
        invariant
            t@ == s@,
            0 <= i <= s@.len() + 1,
            n == p@.len(),
            forall|j: int| 0 <= j < i ==> !occurs_at(s@, p@, j),
        decreases s@.len() + 1 - i,
    {
        if starts_with(slice_subrange(t.as_slice(), i, t.len()), p) {
            proof {
                let tail = s@.subrange(i as int, s@.len() as int);
                assert(tail.subrange(0, n as int) == s@.subrange(i as int, i + n));
                assert(occurs_at(s@, p@, i as int));
            }
            return true;
        }
        proof {
            let tail = s@.subrange(i as int, s@.len() as int);
            assert(tail.subrange(0, n as int) == s@.subrange(i as int, i + n));
            assert(!occurs_at(s@, p@, i as int));
        }
        if i == t.len() {
            return false;
        }
        i += 1;
    }
    false
}

/// The words of `s`.
pub fn split_words(s: &[char]) -> (r: Vec<String>)
    ensures
        views(r@) == words(s@),
{
    let mut out: Vec<String> = Vec::new();
    let mut rest: &[char] = trim_start(s);
    proof {
        assert(views(out@) + words(s@) == words(s@));
        lemma_words_of_trimmed(s@);
    }
    while rest.len() > 0
        invariant
            views(out@) + words(rest@) == words(s@),
            trimmed_start(rest@) == rest@,
        decreases rest@.len(),
    {
        let n: usize = find_white(rest);
        let word: String = string_of(slice_subrange(rest, 0, n));
        let ghost before = out@;
        out.push(word);
        let tail: &[char] = slice_subrange(rest, n, rest.len());
        proof {
            lemma_trimmed_start(rest@);
            lemma_solid_run(rest@);
            lemma_trimmed_start(tail@);
            lemma_words_of_trimmed(tail@);
            assert(views(out@) == views(before).push(word@));
            assert(rest@.subrange(0, n as int) == rest@.take(n as int));
            assert(rest@.subrange(n as int, rest@.len() as int) == rest@.skip(n as int));
            assert(words(rest@) == seq![word@] + words(tail@));
            assert(views(out@) + words(tail@) == views(before) + (seq![word@] + words(tail@)));
        }
        rest = trim_start(tail);
    }
    proof {
        assert(words(rest@) == Seq::<Seq<char>>::empty());
        assert(views(out@) + Seq::<Seq<char>>::empty() == views(out@));
    }
    out
}

/// Leading white space changes nothing about the words.
proof fn lemma_words_of_trimmed(s: Seq<char>)
    ensures
        words(trimmed_start(s)) == words(s),
        trimmed_start(trimmed_start(s)) == trimmed_start(s),
{
    lemma_trimmed_start(s);
}

/// The lines of `s`.
pub fn split_lines(s: &str) -> (r: Vec<String>)
    ensures
        views(r@) == lines_in(s@),
{
    let s: Vec<char> = chars_of(s);
    let mut out: Vec<String> = Vec::new();
    let mut rest: &[char] = s.as_slice();
    proof {
        assert(views(out@) + lines_in(s@) == lines_in(s@));
    }
    while rest.len() > 0
        invariant
            views(out@) + lines_in(rest@) == lines_in(s@),
        decreases rest@.len(),
    {
        let k: usize = find_char(rest, '\n');
        let ghost before = out@;
        let ghost whole = rest@;
        if k == rest.len() {
            let line: String = string_of(rest);
            out.push(line);
            rest = slice_subrange(rest, k, k);
            proof {
                assert(views(out@) == views(before).push(line@));
                assert(lines_in(rest@) == Seq::<Seq<char>>::empty());
                assert(views(out@) + lines_in(rest@) == views(before) + lines_in(whole));
            }
        } else {
            let m: usize = if k > 0 && rest[k - 1] == '\r' {
                k - 1
            } else {
                k
            };
            let line: String = string_of(slice_subrange(rest, 0, m));
            out.push(line);
            rest = slice_subrange(rest, k + 1, rest.len());
            proof {
                assert(line@ == without_return(whole.take(k as int)));
                assert(rest@ == whole.skip(k + 1));
                assert(views(out@) == views(before).push(line@));
                assert(views(out@) + lines_in(rest@) == views(before) + (seq![line@] + lines_in(
                    rest@,
                )));
            }
        }
    }
    proof {
        assert(views(out@) + lines_in(rest@) == views(out@));
    }
    out
}

/// The texts one after another, with a line feed between each two.
pub fn join_lines(parts: &[String]) -> (r: String)
    ensures
        r@ == joined(views(parts@)),
{
    let mut out = String::new();
    let ghost all = views(parts@);
    for i in 0..parts.len()
        invariant
            all == views(parts@),
            out@ == joined(all.take(i as int)),
    {
        proof {
            assert(all.take(i + 1).drop_last() == all.take(i as int));
            assert(all.take(i + 1).last() == parts@[i as int]@);
        }
        if i > 0 {
            out.push('\n');
        }
        out.append(parts[i].as_str());
        proof {
            assert(out@ == joined(all.take(i + 1)));
        }
    }
    proof {
        assert(all.take(parts@.len() as int) == all);
    }
    out
}

/// How many bytes the UTF-8 form of `s` takes, modulo two to the power 32.
pub fn byte_len_u32(s: &str) -> (r: u32)
    ensures
        r == utf8_len(s@) % 0x1_0000_0000,
{
    let s: Vec<char> = chars_of(s);
    let mut total: u128 = 0;
    for i in 0..s.len()
        invariant
            total == utf8_len(s@.take(i as int)),
            total <= 4 * i,
    {
        let u: u32 = s[i] as u32;
        let width: u128 = if u < 0x80 {
            1
        } else if u < 0x800 {
            2
        } else if u < 0x1_0000 {
            3
        } else {
            4
        };
        proof {
            assert(s@.take(i + 1).drop_last() == s@.take(i as int));
        }
        total = total + width;
    }
    proof {
        assert(s@.take(s@.len() as int) == s@);
    }
    (total % 0x1_0000_0000) as u32
}

} // verus!
