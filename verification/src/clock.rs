//! Moments in time: reading the clock, moving a moment by an offset such as
//! `1 d`, and writing a moment out.

use vstd::prelude::*;
use vstd::slice::slice_subrange;

use crate::number::{parse_i64, parsed_i64};
use crate::text::{
    around, chars_of, find_char, find_white, first, same, solid_run, split_words, string_of,
    text_view, trim, trimmed, views, words,
};

verus! {

/// The first second of the year -262143, from which on moments can be told.
pub const FIRST_SECOND: i64 = -8_334_601_228_800;

/// The last second of the year 262142, up to which moments can be told.
pub const LAST_SECOND: i64 = 8_210_266_876_799;

/// A moment: seconds since the start of 1970 in UTC, and nanoseconds.
#[derive(Debug, Clone, Copy, PartialEq, Eq, Structural)]
pub struct Moment {
    pub secs: i64,
    pub nanos: u32,
}

impl Moment {
    /// Whether the moment lies in the range of moments that can be told.
    pub open spec fn valid(self) -> bool {
        FIRST_SECOND <= self.secs <= LAST_SECOND && self.nanos < 1_000_000_000
    }
}

/// The moment `delta` seconds behind `base`, if it can be told.
pub open spec fn moved(base: Moment, delta: int) -> Option<Moment> {
    let secs = base.secs + delta;
    if FIRST_SECOND <= secs <= LAST_SECOND {
        Some(Moment { secs: secs as i64, nanos: base.nanos })
    } else {
        None
    }
}

/// The text that `chrono` makes of a moment by a format, if the format is one.
pub uninterp spec fn strftime(secs: i64, nanos: u32, format: Seq<char>) -> Option<Seq<char>>;

/// The format of dates in HTTP headers.
pub const RFC1123_FORMAT: &'static str = "%a, %d %b %Y %H:%M:%S GMT";

/// The format of dates by ISO 8601.
pub const ISO8601_FORMAT: &'static str = "%Y-%m-%dT%H:%M:%SZ";

/// `chrono::Utc::now`: some moment not before 1970, with the nanoseconds of the
/// second. The call stops the program where the system clock stands before 1970.
#[verifier::external_body]
pub(crate) fn now() -> (r: Moment)
    ensures
        r.valid(),
        r.secs >= 0,
{
    let t = chrono::Utc::now();
    Moment { secs: t.timestamp(), nanos: t.timestamp_subsec_nanos() }
}

/// Whether `m` is what the clock gave when it was read.
pub closed spec fn clock_gave(m: Moment) -> bool {
    call_ensures(now, (), m)
}

/// Law: what the clock gave is what a call of the clock returned.
pub(crate) proof fn law_clock_gave(m: Moment)
    ensures
        clock_gave(m) <==> call_ensures(now, (), m),
        clock_gave(m) ==> m.valid() && m.secs >= 0,
{
}

/// Reads the clock.
pub(crate) fn read_clock() -> (r: Moment)
    ensures
        clock_gave(r),
        r.valid(),
        r.secs >= 0,
{
    now()
}

/// `chrono::DateTime::checked_add_signed`: the moment `delta` seconds later, or
/// `None` where that moment lies out of range.
#[verifier::external_body]
fn add_seconds(base: Moment, delta: i64) -> (r: Option<Moment>)
    requires
        base.valid(),
    ensures
        r == moved(base, delta as int),
{
    let t = chrono::DateTime::from_timestamp(base.secs, base.nanos)?;
    let later = t.checked_add_signed(chrono::TimeDelta::try_seconds(delta)?)?;
    Some(Moment { secs: later.timestamp(), nanos: later.timestamp_subsec_nanos() })
}

/// `chrono::DateTime::format`: the text that the format makes of the moment, or
/// `None` where it is no format. The two formats above are formats, and a format
/// without a percent sign stands for itself.
#[verifier::external_body]
fn format_moment(m: Moment, format: &str) -> (r: Option<String>)
    requires
        m.valid(),
    ensures
        text_view(r) == strftime(m.secs, m.nanos, format@),
        format@ == RFC1123_FORMAT@ || format@ == ISO8601_FORMAT@ ==> r is Some,
        !format@.contains('%') ==> text_view(r) == Some(format@),
{
    let t = chrono::DateTime::from_timestamp(m.secs, m.nanos)?;
    let mut out = String::new();
    t.format(format).write_to(&mut out).ok()?;
    Some(out)
}

/// How many seconds the unit of an offset stands for: second, minute, hour, day,
/// week, or year of 365 days.
pub open spec fn unit_seconds(unit: Seq<char>) -> Option<int> {
    if unit == "s"@ {
        Some(1)
    } else if unit == "m"@ {
        Some(60)
    } else if unit == "h"@ {
        Some(3600)
    } else if unit == "d"@ {
        Some(86_400)
    } else if unit == "w"@ {
        Some(604_800)
    } else if unit == "y"@ {
        Some(31_536_000)
    } else {
        None
    }
}

/// The seconds that the offset `args` stands for, or what is wrong with it.
pub open spec fn offset_seconds(args: Seq<char>) -> Result<int, Seq<char>> {
    let parts = words(args);
    if parts.len() != 2 {
        Err("offset wymaga 'N unit', dostałem: '"@ + args + "'"@)
    } else {
        match parsed_i64(parts[0]) {
            Some(n) => match unit_seconds(parts[1]) {
                Some(seconds) => Ok(n * seconds),
                None => Err(
                    "nieznana jednostka offsetu: '"@ + parts[1]
                        + "' (oczekiwane: s/m/h/d/w/y)"@,
                ),
            },
            None => Err("offset: '"@ + parts[0] + "' nie jest liczbą"@),
        }
    }
}

/// `base` moved by the offset `args`: the moment, or what is wrong with the
/// offset; nothing where the moment cannot be told.
pub open spec fn offset_from(base: Moment, args: Seq<char>) -> Option<Result<Moment, Seq<char>>> {
    match offset_seconds(args) {
        Ok(delta) => match moved(base, delta) {
            Some(m) => Some(Ok(m)),
            None => None,
        },
        Err(e) => Some(Err(e)),
    }
}

/// The moment or the message that a result holds.
pub open spec fn moment_view(r: Option<Result<Moment, String>>) -> Option<
    Result<Moment, Seq<char>>,
> {
    match r {
        Some(Ok(m)) => Some(Ok(m)),
        Some(Err(e)) => Some(Err(e@)),
        None => None,
    }
}

/// The seconds in the unit of an offset.
fn seconds_of_unit(unit: &str) -> (r: Option<i64>)
    ensures
        match r {
            Some(n) => unit_seconds(unit@) == Some(n as int) && 1 <= n <= 31_536_000,
            None => unit_seconds(unit@) is None,
        },
{
    let u: Vec<char> = chars_of(unit);
    let u: &[char] = u.as_slice();
    if same(u, "s") {
        Some(1)
    } else if same(u, "m") {
        Some(60)
    } else if same(u, "h") {
        Some(3600)
    } else if same(u, "d") {
        Some(86_400)
    } else if same(u, "w") {
        Some(604_800)
    } else if same(u, "y") {
        Some(31_536_000)
    } else {
        None
    }
}

/// `base` moved by the offset `args`, a number and a unit. There is no answer
/// where the moment lies out of the range of moments that can be told.
pub fn apply_offset(base: Moment, args: &str) -> (r: Option<Result<Moment, String>>)
    requires
        base.valid(),
    ensures
        moment_view(r) == offset_from(base, args@),
        r matches Some(Ok(m)) ==> m.valid(),
{
    let parts: Vec<String> = split_words(chars_of(args).as_slice());
    let ghost found = words(args@);
    proof {
        assert(found == views(parts@));
    }
    if parts.len() != 2 {
        return Some(Err(around("offset wymaga 'N unit', dostałem: '", args, "'")));
    }
    let n: i64 = match parse_i64(parts[0].as_str()) {
        Some(n) => n,
        None => {
            return Some(
                Err(around("offset: '", parts[0].as_str(), "' nie jest liczbą")),
            );
        },
    };
    let seconds: i64 = match seconds_of_unit(parts[1].as_str()) {
        Some(seconds) => seconds,
        None => {
            return Some(
                Err(
                    around(
                        "nieznana jednostka offsetu: '",
                        parts[1].as_str(),
                        "' (oczekiwane: s/m/h/d/w/y)",
                    ),
                ),
            );
        },
    };
    proof {
        assert(-0x8000_0000_0000_0000 * 31_536_000 <= n * seconds <= 0x8000_0000_0000_0000
            * 31_536_000) by (nonlinear_arith)
            requires
                -0x8000_0000_0000_0000 <= n <= 0x7fff_ffff_ffff_ffff,
                1 <= seconds <= 31_536_000,
        ;
    }
    let delta: i128 = n as i128 * seconds as i128;
    if delta < i64::MIN as i128 || delta > i64::MAX as i128 {
        return None;
    }
    match add_seconds(base, delta as i64) {
        Some(m) => Some(Ok(m)),
        None => None,
    }
}

/// The format and the offset in the arguments of `$datetime`.
pub open spec fn datetime_args(args: Seq<char>) -> (Seq<char>, Seq<char>) {
    let t = trimmed(args);
    let quote = t[0];
    let end = first(t.skip(1), quote);
    let k = solid_run(t);
    if t.len() == 0 {
        ("iso8601"@, Seq::empty())
    } else if quote == '"' || quote == '\'' {
        if end + 1 < t.len() {
            (t.subrange(1, 1 + end), trimmed(t.skip(end + 2)))
        } else {
            (t, Seq::empty())
        }
    } else if k == t.len() {
        (t, Seq::empty())
    } else {
        (t.take(k), trimmed(t.skip(k + 1)))
    }
}

/// Splits the arguments of `$datetime` into a format and an offset. A format in
/// quotes ends at the closing quote, any other at white space; without
/// arguments the format is `iso8601`.
pub fn split_datetime_args(args: &str) -> (r: (String, String))
    ensures
        (r.0@, r.1@) == datetime_args(args@),
{
    let all: Vec<char> = chars_of(args);
    let t: &[char] = trim(all.as_slice());
    if t.len() == 0 {
        return ("iso8601".to_owned(), String::new());
    }
    let quote: char = t[0];
    if quote == '"' || quote == '\'' {
        let inner: &[char] = slice_subrange(t, 1, t.len());
        let end: usize = find_char(inner, quote);
        proof {
            assert(inner@ == t@.skip(1));
        }
        if end < inner.len() {
            let format: String = string_of(slice_subrange(t, 1, end + 1));
            let rest: &[char] = slice_subrange(t, end + 2, t.len());
            proof {
                assert(rest@ == t@.skip(end + 2));
            }
            return (format, string_of(trim(rest)));
        }
        return (string_of(t), String::new());
    }
    let k: usize = find_white(t);
    if k == t.len() {
        (string_of(t), String::new())
    } else {
        let head: &[char] = slice_subrange(t, 0, k);
        let rest: &[char] = slice_subrange(t, k + 1, t.len());
        proof {
            assert(head@ == t@.take(k as int));
            assert(rest@ == t@.skip(k + 1));
        }
        (string_of(head), string_of(trim(rest)))
    }
}

/// The format that a name stands for: itself, but for two names.
pub open spec fn format_named(name: Seq<char>) -> Seq<char> {
    if name == "rfc1123"@ {
        RFC1123_FORMAT@
    } else if name == "iso8601"@ {
        ISO8601_FORMAT@
    } else {
        name
    }
}

/// Whether the name stands for a format whatever the moment is: the two names do,
/// and so does a text without a percent sign.
pub open spec fn sure_format(name: Seq<char>) -> bool {
    name == "rfc1123"@ || name == "iso8601"@ || !name.contains('%')
}

/// Whether the offset `args` has an answer whatever the clock shows: it is wrong,
/// or it leads back, and not further than to the first second.
pub open spec fn sure_offset(args: Seq<char>) -> bool {
    match offset_seconds(args) {
        Ok(delta) => FIRST_SECOND <= delta <= 0,
        Err(_) => true,
    }
}

/// The text of `m` in the format that the name stands for.
pub open spec fn formatted(m: Moment, name: Seq<char>) -> Option<Seq<char>> {
    strftime(m.secs, m.nanos, format_named(name))
}

/// Writes `m` out in the named format or by a `strftime` pattern. There is no
/// answer where the pattern is not one.
pub fn format_datetime(m: Moment, format_spec: &str) -> (r: Option<String>)
    requires
        m.valid(),
    ensures
        text_view(r) == formatted(m, format_spec@),
        sure_format(format_spec@) ==> r is Some,
        !format_named(format_spec@).contains('%') ==> text_view(r) == Some(
            format_named(format_spec@),
        ),
{
    let name: Vec<char> = chars_of(format_spec);
    if same(name.as_slice(), "rfc1123") {
        format_moment(m, RFC1123_FORMAT)
    } else if same(name.as_slice(), "iso8601") {
        format_moment(m, ISO8601_FORMAT)
    } else {
        format_moment(m, format_spec)
    }
}

} // verus!
