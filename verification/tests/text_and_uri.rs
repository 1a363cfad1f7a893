use hachimi_ura_plugin::json::json_error;
use hachimi_ura_plugin::text::{bounded_text, json_escape};
use hachimi_ura_plugin::uri::{parse_u64, parse_usize, query_value_chars, sniff_path};

fn chars(s: &str) -> Vec<char> {
    s.chars().collect()
}

#[test]
fn json_escape_escapes_quotes_backslashes_and_controls() {
    assert_eq!(json_escape("a\"b\\c\nd\re\tf\u{1}g"), "a\\\"b\\\\c\\nd\\re\\tf\\u0001g");
    assert_eq!(json_escape("\u{1f}"), "\\u001f");
    assert_eq!(json_escape("日本"), "日本");
}

#[test]
fn bounded_text_cuts_at_characters() {
    assert_eq!(bounded_text("héllo", 3), ("hél".to_string(), true));
    assert_eq!(bounded_text("abc", 3), ("abc".to_string(), false));
    assert_eq!(bounded_text("", 0), (String::new(), false));
    assert_eq!(bounded_text("a", 0), (String::new(), true));
}

#[test]
fn sniff_path_extracts_the_path() {
    assert_eq!(sniff_path("https://api.example.com/umamusume/load/index?x=1#f"), "/umamusume/load/index");
    assert_eq!(sniff_path("https://api.example.com"), "/");
    assert_eq!(sniff_path("https://api.example.com?x"), "/");
    assert_eq!(sniff_path("/local/path?q=1"), "/local/path");
    assert_eq!(sniff_path(""), "");
}

#[test]
fn query_values_are_found_by_name() {
    let uri = chars("/api/x?a=1&limit=20&empty&b=x=y#frag");
    assert_eq!(query_value_chars(&uri, &chars("limit")), chars("20"));
    assert_eq!(query_value_chars(&uri, &chars("b")), chars("x=y"));
    assert_eq!(query_value_chars(&uri, &chars("empty")), chars(""));
    assert_eq!(query_value_chars(&uri, &chars("missing")), chars(""));
    assert_eq!(query_value_chars(&chars("/no/query"), &chars("a")), chars(""));
}

#[test]
fn decimal_parsing_follows_str_parse() {
    assert_eq!(parse_u64(&chars("0")), Some(0));
    assert_eq!(parse_u64(&chars("+42")), Some(42));
    assert_eq!(parse_u64(&chars("18446744073709551615")), Some(u64::MAX));
    assert_eq!(parse_u64(&chars("18446744073709551616")), None);
    assert_eq!(parse_u64(&chars("")), None);
    assert_eq!(parse_u64(&chars("+")), None);
    assert_eq!(parse_u64(&chars("-1")), None);
    assert_eq!(parse_u64(&chars("1a")), None);
    assert_eq!(parse_usize(&chars("007")), Some(7));
    for n in [0u64, 9, 10, 12345, u64::MAX] {
        assert_eq!(parse_u64(&chars(&n.to_string())), Some(n));
    }
}

#[test]
fn error_replies_escape_the_message() {
    assert_eq!(json_error("bad \"x\""), r#"{"ok":false,"error":"bad \"x\""}"#);
}
