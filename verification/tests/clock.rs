//! Moments, offsets and formats.

use http_lsp::clock::{
    apply_offset, format_datetime, split_datetime_args, Moment, FIRST_SECOND, LAST_SECOND,
};

const NOON: Moment = Moment { secs: 1_700_000_000, nanos: 5 };

fn at(secs: i64) -> Option<Result<Moment, String>> {
    Some(Ok(Moment { secs, nanos: 5 }))
}

fn refused(message: &str) -> Option<Result<Moment, String>> {
    Some(Err(message.to_string()))
}

fn split(format: &str, offset: &str) -> (String, String) {
    (format.to_string(), offset.to_string())
}

#[test]
fn the_range_is_that_of_chrono() {
    assert_eq!(FIRST_SECOND, chrono::DateTime::<chrono::Utc>::MIN_UTC.timestamp());
    assert_eq!(LAST_SECOND, chrono::DateTime::<chrono::Utc>::MAX_UTC.timestamp());
}

#[test]
fn offsets_move_a_moment() {
    assert_eq!(apply_offset(NOON, "1 s"), at(1_700_000_001));
    assert_eq!(apply_offset(NOON, " -2\tm "), at(1_699_999_880));
    assert_eq!(apply_offset(NOON, "+3 h"), at(1_700_010_800));
    assert_eq!(apply_offset(NOON, "1 d"), at(1_700_086_400));
    assert_eq!(apply_offset(NOON, "1 w"), at(1_700_604_800));
    assert_eq!(apply_offset(NOON, "1 y"), at(1_731_536_000));
    assert_eq!(apply_offset(NOON, "0 y"), at(1_700_000_000));
}

#[test]
fn wrong_offsets_are_refused() {
    assert_eq!(apply_offset(NOON, "1"), refused("offset wymaga 'N unit', dostałem: '1'"));
    assert_eq!(apply_offset(NOON, "1 d x"), refused("offset wymaga 'N unit', dostałem: '1 d x'"));
    assert_eq!(apply_offset(NOON, "x d"), refused("offset: 'x' nie jest liczbą"));
    assert_eq!(
        apply_offset(NOON, "1 D"),
        refused("nieznana jednostka offsetu: 'D' (oczekiwane: s/m/h/d/w/y)")
    );
    assert_eq!(apply_offset(NOON, "x x"), refused("offset: 'x' nie jest liczbą"));
}

#[test]
fn offsets_stop_at_the_range() {
    let last = Moment { secs: LAST_SECOND, nanos: 999_999_999 };
    let first = Moment { secs: FIRST_SECOND, nanos: 0 };
    assert_eq!(apply_offset(last, "0 s"), Some(Ok(last)));
    assert_eq!(apply_offset(last, "1 s"), None);
    assert_eq!(apply_offset(first, "0 s"), Some(Ok(first)));
    assert_eq!(apply_offset(first, "-1 s"), None);
    let width = format!("{} s", LAST_SECOND - FIRST_SECOND);
    let end = Moment { secs: LAST_SECOND, nanos: 0 };
    assert_eq!(apply_offset(first, &width), Some(Ok(end)));
    assert_eq!(apply_offset(NOON, "9223372036854775807 s"), None);
    assert_eq!(apply_offset(NOON, "-9223372036854775808 y"), None);
}

#[test]
fn offsets_are_undone_and_add_up() {
    let there = apply_offset(NOON, "5 w").unwrap().unwrap();
    assert_eq!(apply_offset(there, "-5 w"), Some(Ok(NOON)));
    let further = apply_offset(there, "7 d").unwrap().unwrap();
    assert_eq!(apply_offset(NOON, "6 w"), Some(Ok(further)));
}

#[test]
fn datetime_arguments_split() {
    assert_eq!(split_datetime_args("  "), split("iso8601", ""));
    assert_eq!(split_datetime_args("rfc1123"), split("rfc1123", ""));
    assert_eq!(split_datetime_args(" rfc1123 \t 1 d "), split("rfc1123", "1 d"));
    assert_eq!(split_datetime_args("\"%Y %m\" 1 d"), split("%Y %m", "1 d"));
    assert_eq!(split_datetime_args("'%Y \" %m'"), split("%Y \" %m", ""));
    assert_eq!(split_datetime_args("'%Y'-1 d"), split("%Y", "-1 d"));
    assert_eq!(split_datetime_args("\"open 1 d"), split("\"open 1 d", ""));
    assert_eq!(split_datetime_args("''"), split("", ""));
    assert_eq!(split_datetime_args("\""), split("\"", ""));
    assert_eq!(split_datetime_args("%Y\u{a0}ż"), split("%Y", "ż"));
    assert_eq!(split_datetime_args("'ż' ż"), split("ż", "ż"));
}

#[test]
fn moments_are_written_out() {
    let show = |format: &str| format_datetime(NOON, format);
    assert_eq!(show("rfc1123").as_deref(), Some("Tue, 14 Nov 2023 22:13:20 GMT"));
    assert_eq!(show("iso8601").as_deref(), Some("2023-11-14T22:13:20Z"));
    assert_eq!(show("%Y/%m/%d %f").as_deref(), Some("2023/11/14 000000005"));
    assert_eq!(show("").as_deref(), Some(""));
    assert_eq!(show("no format, ż").as_deref(), Some("no format, ż"));
    assert_eq!(show("%Q"), None);
    assert_eq!(show("%"), None);
}

#[test]
fn all_moments_can_be_written_out() {
    for secs in [FIRST_SECOND, -1, 0, LAST_SECOND] {
        let m = Moment { secs, nanos: 999_999_999 };
        assert!(format_datetime(m, "rfc1123").is_some());
        assert!(format_datetime(m, "iso8601").is_some());
    }
    let start = Moment { secs: 0, nanos: 0 };
    assert_eq!(format_datetime(start, "iso8601").as_deref(), Some("1970-01-01T00:00:00Z"));
}

#[test]
fn all_behind_the_closing_quote_is_the_offset() {
    assert_eq!(split_datetime_args("\"%Y\"  1 d  "), split("%Y", "1 d"));
    assert_eq!(split_datetime_args("'%Y'x'y'"), split("%Y", "x'y'"));
    assert_eq!(split_datetime_args("\"%Y\" \t"), split("%Y", ""));
}

#[test]
fn white_space_around_datetime_arguments_does_not_matter() {
    for args in ["", "rfc1123", "'%Y %m' 1 d", "\"open", "%Y\t2 w"] {
        assert_eq!(split_datetime_args(&format!("\u{a0} {args}\t\n")), split_datetime_args(args));
    }
}
