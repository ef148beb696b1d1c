use ambient::json::{
    array_of, array_of_strings, quote, quote_or_null, read_count, read_flag, read_text,
};
use ambient::text::{
    align_left, chars_of, comes_before, decimal_string, eq_ignore_ascii_case, is_white_space, join,
    jsonl_records, padded_string, parse_u32, parse_u64, path_beneath, path_name, replace,
    split_words, string_before, string_of, trimmed,
};

fn words(s: &str) -> Vec<String> {
    split_words(&chars_of(s)).iter().map(|w| string_of(w)).collect()
}

/// Splitting, trimming and padding agree with what std does.
#[test]
fn words_and_trimming_follow_white_space() {
    for s in ["", " ", "a", " a  b\tc\n", "\u{a0}x\u{3000}y\u{2003}", "a\u{200b}b", "\u{85}z\u{1680}"] {
        let want: Vec<String> = s.split_whitespace().map(str::to_string).collect();
        assert_eq!(words(s), want, "{s:?}");
        assert_eq!(string_of(&trimmed(&chars_of(s))), s.trim(), "{s:?}");
    }
    for c in '\0'..='\u{ffff}' {
        assert_eq!(is_white_space(c), c.is_whitespace(), "{c:?}");
    }
}

#[test]
fn numbers_are_written_and_read() {
    for n in [0, 9, 10, 99, 100, u64::MAX] {
        assert_eq!(decimal_string(n), n.to_string());
        assert_eq!(parse_u64(&chars_of(&n.to_string())), Some(n));
        assert_eq!(padded_string(n, 3), format!("{n:03}"));
    }
    for s in ["", "+", "+7", "-7", "4294967295", "4294967296", "18446744073709551616", " 1", "x", "0007"] {
        assert_eq!(parse_u32(&chars_of(s)), s.parse::<u32>().ok(), "{s:?}");
        let digits = if s.starts_with('+') { None } else { s.parse::<u64>().ok() };
        assert_eq!(parse_u64(&chars_of(s)), digits, "{s:?}");
    }
}

#[test]
fn replacing_goes_left_to_right() {
    for (s, a, b) in [
        ("aaa", "aa", "b"),
        ("abab", "ab", ""),
        ("hello", "l", "LL"),
        ("héé", "é", "e"),
        ("abc", "", "-"),
        ("", "", "-"),
        ("abc", "x", "y"),
    ] {
        assert_eq!(replace(s, a, b), s.replace(a, b), "{s:?} {a:?} {b:?}");
    }
}

#[test]
fn order_is_that_of_strings() {
    let all = ["", "a", "ab", "b", "2026-01-01", "é", "\u{10000}", "\u{e000}"];
    for a in all {
        for b in all {
            assert_eq!(string_before(a, b), a < b, "{a:?} {b:?}");
            assert_eq!(comes_before(&chars_of(a), &chars_of(b)), a < b);
            assert_eq!(
                eq_ignore_ascii_case(&chars_of(a), &chars_of(b)),
                a.eq_ignore_ascii_case(b)
            );
        }
    }
}

#[test]
fn records_are_the_lines_that_are_not_blank() {
    assert_eq!(jsonl_records("a\r\n\n  \nb"), ["a", "b"]);
    assert_eq!(jsonl_records(""), [""; 0]);
}

#[test]
fn paths_join_and_end_in_names() {
    assert_eq!(path_beneath("/s", "x"), "/s/x");
    assert_eq!(path_beneath("/s/", "x"), "/s/x");
    assert_eq!(path_name("/s/x").as_deref(), Some("x"));
    assert_eq!(path_name("/s/x/").as_deref(), Some("x"));
    assert_eq!(path_name("/"), None);
    assert_eq!(path_name("x/.."), None);
    assert_eq!(align_left("ab", 4), "ab  ");
    assert_eq!(align_left("abcde", 4), "abcde");
    assert_eq!(join(&["a".into(), "b".into()], ", "), "a, b");
}

#[test]
fn strings_are_quoted_as_json() {
    for s in ["", "a", "\"\\/", "\n\r\t\u{8}\u{c}\0\u{1f}", "é\u{2028}\u{10000}"] {
        assert_eq!(quote(s), serde_json::to_string(s).unwrap());
    }
    assert_eq!(quote_or_null(None), "null");
    assert_eq!(array_of(&["1".into(), "[]".into()]), "[1,[]]");
    assert_eq!(array_of_strings(&["a\"".into()]), "[\"a\\\"\"]");
}

#[test]
fn json_scalars_are_read_by_their_type() {
    assert_eq!(read_text(r#" "a\u0062\n" "#).as_deref(), Some("ab\n"));
    assert_eq!(read_text("7"), None);
    assert_eq!(read_flag("true"), Some(true));
    assert_eq!(read_flag("\"true\""), None);
    assert_eq!(read_count("18446744073709551615"), Some(u64::MAX));
    for s in ["-1", "1.0", "1e3", "\"1\"", "null", "", "{"] {
        assert_eq!(read_count(s), None, "{s}");
    }
}
