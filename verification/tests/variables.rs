//! Variables and what takes the place of their placeholders.

use http_lsp::clock::Moment;
use http_lsp::pattern::{DEFINITION_PATTERN, SYSTEM_PATTERN, USER_PATTERN};
use http_lsp::store::TextMap;
use http_lsp::variables::{
    env_names, fill_system_vars, find_system_calls, parse_file_variables, parse_random_bounds,
    resolve_system_var, resolve_with, substitute_all, substitute_system_vars,
    substitute_user_vars,
};

fn map(entries: &[(&str, &str)]) -> TextMap {
    let mut m = TextMap::new();
    for (k, v) in entries {
        m.insert(k.to_string(), v.to_string());
    }
    m
}

fn err(message: &str) -> Option<Result<String, String>> {
    Some(Err(message.to_string()))
}

fn ok(text: &str) -> Option<Result<String, String>> {
    Some(Ok(text.to_string()))
}

const NOON: Moment = Moment { secs: 1_700_000_000, nanos: 5 };

/// Texts in which the patterns match or almost match, `n` of them put together at
/// random.
fn corpus(n: usize) -> Vec<String> {
    let pieces = [
        "{{", "}}", "{", "}", "$", " ", "a", "x1", "@", "=", "\t", "ż", "\u{a0}", "_", "-", "\r",
    ];
    let chosen = [
        "",
        "{{host}}/{{ $guid }}",
        "{{{a}}}",
        "{{a}b}}",
        "{{ a b }}",
        "{{\n a \n}}",
        "{{$timestamp 1 d}}",
        "{{ $datetime \"%Y\" 1 d }}",
        "{{ $a}}{{$b c }}",
        "@a=b",
        " @a = b c \t",
        "@a = ",
        "@a =",
        "@a = \t ",
        "@ a = b",
        "@zażółć = gęślą",
        "@a = @b = c",
        "a @b = c",
    ];
    let mut out: Vec<String> = chosen.iter().map(|s| s.to_string()).collect();
    let mut state: u64 = 7;
    for i in 0..n {
        let mut s = String::from(if i % 3 == 0 { "@a" } else { "{{" });
        for _ in 0..10 {
            state = state.wrapping_mul(6364136223846793005).wrapping_add(1442695040888963407);
            s.push_str(pieces[(state >> 33) as usize % pieces.len()]);
        }
        out.push(s);
    }
    out
}

#[test]
fn user_placeholders_are_those_of_the_pattern() {
    let vars = map(&[("a", "<A>"), ("x1", "<X>"), ("host", "h"), ("{a", "<B>")]);
    let re = regex::Regex::new(USER_PATTERN).unwrap();
    for s in corpus(600) {
        let expected = re.replace_all(&s, |caps: &regex::Captures| {
            match vars.get(caps[1].trim()) {
                Some(v) => v.clone(),
                None => caps[0].to_string(),
            }
        });
        assert_eq!(substitute_user_vars(&s, &vars), expected, "{s:?}");
    }
}

#[test]
fn system_calls_are_those_of_the_pattern() {
    let re = regex::Regex::new(SYSTEM_PATTERN).unwrap();
    for s in corpus(300) {
        let expected: Vec<(String, String)> = re
            .captures_iter(&s)
            .map(|c| (c[1].to_string(), c[2].trim().to_string()))
            .collect();
        let found: Vec<(String, String)> =
            find_system_calls(&s).into_iter().map(|c| (c.name, c.args)).collect();
        assert_eq!(found, expected, "{s:?}");
        let answers: Vec<Result<String, String>> =
            (0..expected.len()).map(|i| Ok(format!("<{i}>"))).collect();
        let mut next = 0;
        let filled = re.replace_all(&s, |_: &regex::Captures| {
            next += 1;
            format!("<{}>", next - 1)
        });
        assert_eq!(fill_system_vars(&s, &answers), Ok(filled.to_string()), "{s:?}");
    }
}

#[test]
fn definitions_are_those_of_the_pattern() {
    let re = regex::Regex::new(DEFINITION_PATTERN).unwrap();
    for s in corpus(600) {
        for line in s.lines() {
            let vars = parse_file_variables(line);
            match re.captures(line) {
                Some(caps) => {
                    let value = vars.get(&caps[1]).map(String::as_str);
                    assert_eq!(value, Some(&caps[2]), "{line:?}");
                }
                None => assert!(vars.get("a").is_none() && vars.get("x1").is_none(), "{line:?}"),
            }
        }
    }
}

#[test]
fn variables_of_a_document() {
    let text = "@host = example.com\r\n  @port=8080\nGET http://x\n@base = http://{{host}}:{{ port }}\n\
        @late = {{never}}/{{later}}\n@later = 1\n@bad name = 2\n@empty =\n@host = other\n";
    let vars = parse_file_variables(text);
    assert_eq!(vars.get("port").map(String::as_str), Some("8080"));
    assert_eq!(vars.get("base").map(String::as_str), Some("http://example.com:8080"));
    assert_eq!(vars.get("late").map(String::as_str), Some("{{never}}/{{later}}"));
    assert_eq!(vars.get("later").map(String::as_str), Some("1"));
    assert_eq!(vars.get("host").map(String::as_str), Some("other"));
    for name in ["bad", "name", "empty", "never"] {
        assert!(vars.get(name).is_none(), "{name}");
    }
}

#[test]
fn white_space_around_a_definition_does_not_matter() {
    let vars = parse_file_variables("\t@a \u{a0}=  b  c \r\n@all = \t \n");
    assert_eq!(vars.get("a").map(String::as_str), Some("b  c"));
    assert_eq!(vars.get("all").map(String::as_str), Some(" "));
}

#[test]
fn known_variables_give_way_to_their_values() {
    let vars = map(&[("host", "h"), ("a b", "c"), ("nested", "{{host}}")]);
    assert_eq!(
        substitute_user_vars("{{host}}/{{  a b\t}}/{{x}}/{{ $guid }}", &vars),
        "h/c/{{x}}/{{ $guid }}"
    );
    assert_eq!(substitute_user_vars("{{nested}}", &vars), "{{host}}");
    assert_eq!(substitute_user_vars("no placeholders {a} }}{{", &vars), "no placeholders {a} }}{{");
}

#[test]
fn substitution_of_a_text_without_placeholders() {
    let none = TextMap::new();
    for s in ["", "http://x", "{a} {b", "}}", "$guid"] {
        assert_eq!(substitute_all(s, &none, &none), ok(s));
    }
}

#[test]
fn unknown_variables_are_refused() {
    let vars = map(&[("a", "1"), ("b", "{{ c d }}")]);
    let env = TextMap::new();
    assert_eq!(substitute_all("{{a}}{{ x }}{{y}}", &vars, &env), err("nieznana zmienna: {{x}}"));
    assert_eq!(substitute_all("{{b}}", &vars, &env), err("nieznana zmienna: {{c d}}"));
    assert_eq!(substitute_all("{{$nope}}{{x}}", &vars, &env), err("nieznana zmienna: {{x}}"));
    assert_eq!(substitute_all("{{a}}", &vars, &env), ok("1"));
}

#[test]
fn the_last_error_of_a_system_variable_counts() {
    let env = map(&[("HOME", "/root")]);
    assert_eq!(
        substitute_system_vars("{{$one}} {{$processEnv HOME}} {{$two x}}", &env),
        err("nieznana system variable: $two")
    );
    assert_eq!(substitute_system_vars("~{{ $processEnv  HOME }}~", &env), ok("~/root~"));
    let answers = vec![Ok("1".to_string()), Err("e".to_string()), Ok("3".to_string())];
    assert_eq!(fill_system_vars("{{$a}}{{$b}}{{$c}}", &answers), Err("e".to_string()));
    let answers = vec![Ok("1".to_string()), Ok("{{$c}}".to_string())];
    assert_eq!(fill_system_vars("-{{$a}}-{{$b}}-", &answers), Ok("-1-{{$c}}-".to_string()));
}

#[test]
fn process_environment() {
    let env = map(&[("A", "1"), ("B C", "2")]);
    assert_eq!(resolve_system_var("processEnv", "A", &env), ok("1"));
    assert_eq!(resolve_system_var("processEnv", " B C ", &env), ok("2"));
    assert_eq!(
        resolve_system_var("processEnv", "  ", &env),
        err("$processEnv wymaga nazwy zmiennej")
    );
    assert_eq!(
        resolve_system_var("processEnv", "X", &env),
        err("$processEnv: zmienna 'X' nie jest ustawiona")
    );
}

#[test]
fn random_numbers_lie_within_bounds() {
    let env = TextMap::new();
    for _ in 0..200 {
        let r = resolve_system_var("randomInt", "-3 4", &env).unwrap().unwrap();
        let n: i64 = r.parse().unwrap();
        assert!(-3 <= n && n < 4);
    }
    assert_eq!(resolve_system_var("randomInt", "5 6", &env), ok("5"));
    let wide = format!("{} {}", i64::MIN, i64::MAX);
    assert!(matches!(resolve_system_var("randomInt", &wide, &env), Some(Ok(_))));
}

#[test]
fn random_bounds_are_checked() {
    assert_eq!(parse_random_bounds(" 1\t+9 "), Ok((1, 9)));
    for (args, message) in [
        ("", "$randomInt wymaga 2 argumentów (min max), dostałem: ''"),
        ("1", "$randomInt wymaga 2 argumentów (min max), dostałem: '1'"),
        ("1 2 3", "$randomInt wymaga 2 argumentów (min max), dostałem: '1 2 3'"),
        ("x 2", "$randomInt: 'x' nie jest liczbą"),
        ("1 2.5", "$randomInt: '2.5' nie jest liczbą"),
        ("x y", "$randomInt: 'x' nie jest liczbą"),
        ("3 3", "$randomInt: min (3) musi być < max (3)"),
        ("3 -4", "$randomInt: min (3) musi być < max (-4)"),
    ] {
        assert_eq!(parse_random_bounds(args), Err(message.to_string()));
        assert_eq!(resolve_system_var("randomInt", args, &TextMap::new()), err(message));
    }
}

#[test]
fn guids_are_random_uuids() {
    let env = TextMap::new();
    let a = resolve_system_var("guid", "", &env).unwrap().unwrap();
    let b = resolve_system_var("guid", "ignored", &env).unwrap().unwrap();
    assert_ne!(a, b);
    let shape = regex::Regex::new("^[0-9a-f]{8}-[0-9a-f]{4}-4[0-9a-f]{3}-[89ab][0-9a-f]{3}-[0-9a-f]{12}$");
    let shape = shape.unwrap();
    assert!(shape.is_match(&a) && shape.is_match(&b));
    let twice = substitute_all("{{$guid}} {{$guid}}", &env, &env).unwrap().unwrap();
    let (x, y) = twice.split_once(' ').unwrap();
    assert!(shape.is_match(x) && shape.is_match(y) && x != y);
}

#[test]
fn timestamps_follow_the_clock() {
    let env = TextMap::new();
    let before = chrono::Utc::now().timestamp();
    let now: i64 = resolve_system_var("timestamp", "", &env).unwrap().unwrap().parse().unwrap();
    let later: i64 =
        resolve_system_var("timestamp", "2 d", &env).unwrap().unwrap().parse().unwrap();
    let after = chrono::Utc::now().timestamp();
    assert!(before <= now && now <= after);
    assert!(before + 172_800 <= later && later <= after + 172_800);
}

#[test]
fn answers_by_the_clock_and_by_chance() {
    let env = map(&[("A", "1")]);
    let at = |name: &str, args: &str| resolve_with(name, args, &env, NOON, "g", 42);
    assert_eq!(at("guid", "x"), ok("g"));
    assert_eq!(at("timestamp", ""), ok("1700000000"));
    assert_eq!(at("timestamp", "-1 h"), ok("1699996400"));
    assert_eq!(at("timestamp", "1 q"), err("nieznana jednostka offsetu: 'q' (oczekiwane: s/m/h/d/w/y)"));
    assert_eq!(at("timestamp", "9223372036854775807 y"), None);
    assert_eq!(at("datetime", ""), ok("2023-11-14T22:13:20Z"));
    assert_eq!(at("datetime", "rfc1123"), ok("Tue, 14 Nov 2023 22:13:20 GMT"));
    assert_eq!(at("datetime", "iso8601 1 y"), ok("2024-11-13T22:13:20Z"));
    assert_eq!(at("datetime", "\"%Y %m\" -1 w"), ok("2023 11"));
    assert_eq!(at("datetime", "'%d' x"), err("offset wymaga 'N unit', dostałem: 'x'"));
    assert_eq!(at("datetime", "%Q"), None);
    assert_eq!(at("randomInt", "1 100"), ok("42"));
    assert_eq!(at("randomInt", "2 1"), err("$randomInt: min (2) musi być < max (1)"));
    assert_eq!(at("processEnv", "A"), ok("1"));
    assert_eq!(at("GUID", ""), err("nieznana system variable: $GUID"));
}

#[test]
fn no_answer_where_one_call_has_none() {
    let env = TextMap::new();
    assert_eq!(substitute_all("{{$datetime %Q}}", &env, &env), None);
    assert_eq!(substitute_all("{{$nope}} {{$timestamp 9999999999 y}}", &env, &env), None);
}

#[test]
fn named_dates_always_have_an_answer() {
    let env = TextMap::new();
    for args in ["", "iso8601", "rfc1123", "rfc1123 -1 y", "plain", "'two words' -3 w", "iso8601 x"]
    {
        assert!(resolve_system_var("datetime", args, &env).is_some(), "{args:?}");
        assert!(substitute_all(&format!("{{{{$datetime {args}}}}}"), &env, &env).is_some());
    }
    assert_eq!(resolve_system_var("datetime", "'two words'", &env), ok("two words"));
    assert_eq!(resolve_with("datetime", "'two words' 1 d", &env, NOON, "", 0), ok("two words"));
}

#[test]
fn names_that_are_asked_for() {
    let vars = map(&[("n", "HOME"), ("call", "{{$processEnv  A B }}")]);
    assert_eq!(
        env_names("{{$processEnv {{n}} }}{{$processEnv X}}{{call}}{{$processEnv}}{{$guid Y}}", &vars),
        vec!["HOME", "X", "A B"]
    );
    assert!(env_names("$processEnv X {{ processEnv X }}", &vars).is_empty());
}

#[test]
fn only_names_that_are_asked_for_matter() {
    let none = TextMap::new();
    let text = "{{$processEnv A}}-{{$processEnv B}}";
    let a = map(&[("A", "1"), ("B", "2"), ("C", "3")]);
    let b = map(&[("B", "2"), ("A", "1"), ("a", "4")]);
    assert_eq!(env_names(text, &none), vec!["A", "B"]);
    assert_eq!(substitute_all(text, &none, &a), ok("1-2"));
    assert_eq!(substitute_all(text, &none, &b), ok("1-2"));
}

#[test]
fn the_caller_looks_names_up() {
    let none = TextMap::new();
    let env = map(&[("path", "/bin")]);
    assert_eq!(substitute_all("{{$processEnv path}}", &none, &env), ok("/bin"));
}

#[test]
fn variables_of_two_texts_are_those_of_both() {
    let t = "@a = 1\n@b = {{a}}2";
    let s = "@b = 3\n@c = {{a}}{{b}}";
    let both = parse_file_variables(&format!("{t}\n{s}"));
    assert_eq!(both.get("a"), parse_file_variables(t).get("a"));
    assert_eq!(both.get("b").map(String::as_str), Some("3"));
    assert_eq!(both.get("c").map(String::as_str), Some("13"));
    assert!(both.get("d").is_none());
}
