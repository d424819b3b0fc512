//! Texts, numbers and maps, held against the standard library.

use http_lsp::number::{parse_i64, push_decimal, signed_string};
use http_lsp::store::TextMap;
use http_lsp::text::{
    byte_len_u32, chars_of, contains, find_char, find_white, is_white, join_lines, same,
    split_lines, split_words, starts_with, string_of, trim, trim_end, trim_start,
};

fn samples() -> Vec<&'static str> {
    vec![
        "",
        " ",
        "a",
        "\n",
        "\r\n",
        "\r",
        "a\r",
        "a\r\nb\r\n",
        "a\n\nb",
        "a\r\r\nb",
        "a\nb\n",
        "  two  words\t ",
        "\u{a0}zażółć\u{3000}gęślą\u{2028}jaźń ",
        "\u{85}x\u{1680}y\u{205f}",
        "{{ a }} : b",
        "### end",
        "\u{200b}not white\u{200b}",
    ]
}

#[test]
fn white_space_is_that_of_char() {
    for u in 0..0x11_0000u32 {
        if let Some(c) = char::from_u32(u) {
            assert_eq!(is_white(c), c.is_whitespace(), "{u:x}");
        }
    }
}

#[test]
fn trimming_is_that_of_str() {
    for s in samples() {
        let chars = chars_of(s);
        assert_eq!(string_of(trim_start(&chars)), s.trim_start());
        assert_eq!(string_of(trim_end(&chars)), s.trim_end());
        assert_eq!(string_of(trim(&chars)), s.trim());
    }
}

#[test]
fn words_are_those_of_str() {
    for s in samples() {
        let expected: Vec<&str> = s.split_whitespace().collect();
        assert_eq!(split_words(&chars_of(s)), expected);
    }
}

#[test]
fn lines_are_those_of_str() {
    for s in samples() {
        let expected: Vec<&str> = s.lines().collect();
        assert_eq!(split_lines(s), expected, "{s:?}");
    }
}

#[test]
fn lines_join_with_line_feeds() {
    for s in samples() {
        let lines = split_lines(s);
        assert_eq!(join_lines(&lines), lines.join("\n"));
    }
}

#[test]
fn joined_lines_are_the_lines_of_the_text() {
    let lines: Vec<String> = vec!["GET http://x".into(), String::new(), "a b".into()];
    assert_eq!(split_lines(&join_lines(&lines)), lines);
}

#[test]
fn searches_are_those_of_str() {
    for s in samples() {
        let chars = chars_of(s);
        let colon = s.chars().position(|c| c == ':').unwrap_or(chars.len());
        assert_eq!(find_char(&chars, ':'), colon);
        let white = s.chars().position(char::is_whitespace).unwrap_or(chars.len());
        assert_eq!(find_white(&chars), white);
        for p in ["", "a", "###", "\r\n", "words", "jaźń"] {
            assert_eq!(contains(s, p), s.contains(p), "{s:?} {p:?}");
            assert_eq!(starts_with(&chars, p), s.starts_with(p), "{s:?} {p:?}");
            assert_eq!(same(&chars, p), s == p);
        }
    }
}

#[test]
fn byte_lengths_are_those_of_str() {
    for s in samples() {
        assert_eq!(byte_len_u32(s), s.len() as u32);
    }
    assert_eq!(byte_len_u32("aą€😀"), 10);
}

#[test]
fn numbers_read_and_write_as_in_std() {
    for n in [0, 7, -7, 10, -10, 1234567890, i64::MAX, i64::MIN, i64::MIN + 1] {
        assert_eq!(signed_string(n), n.to_string());
        assert_eq!(parse_i64(&signed_string(n)), Some(n));
    }
    let texts = [
        "",
        "+",
        "-",
        "+5",
        "-0",
        "007",
        "--1",
        "1 ",
        "1e3",
        "9223372036854775807",
        "9223372036854775808",
        "-9223372036854775808",
        "-9223372036854775809",
        "99999999999999999999999999999999999999999999",
        "00000000000000000000000000000000000000000001",
        "٣",
    ];
    for t in texts {
        assert_eq!(parse_i64(t), t.parse::<i64>().ok(), "{t:?}");
    }
}

#[test]
fn decimals_are_appended() {
    let mut out = String::from("n=");
    push_decimal(&mut out, 0);
    push_decimal(&mut out, u128::MAX);
    assert_eq!(out, format!("n=0{}", u128::MAX));
}

#[test]
fn maps_hold_one_text_per_name() {
    let mut m = TextMap::new();
    assert!(m.get("a").is_none());
    m.insert("a".to_string(), "1".to_string());
    m.insert("b".to_string(), "2".to_string());
    m.insert("a".to_string(), "3".to_string());
    assert_eq!(m.get("a").map(String::as_str), Some("3"));
    assert_eq!(m.get("b").map(String::as_str), Some("2"));
    m.remove("a");
    assert!(m.get("a").is_none());
    assert_eq!(m.get("b").map(String::as_str), Some("2"));
    m.remove("c");
    assert_eq!(m.get("b").map(String::as_str), Some("2"));
}

#[test]
fn a_copy_of_a_map_holds_the_same() {
    let mut m = TextMap::new();
    m.insert("a".to_string(), "1".to_string());
    m.insert("b".to_string(), "2".to_string());
    let copy = m.clone();
    m.insert("a".to_string(), "3".to_string());
    m.remove("b");
    assert_eq!(copy.get("a").map(String::as_str), Some("1"));
    assert_eq!(copy.get("b").map(String::as_str), Some("2"));
    assert!(copy.get("c").is_none());
}
