use labeler::parser::extract_tokens;
use labeler::text::{parse_decimal, split_fields, str_eq};

fn toks(s: &str) -> Vec<String> {
    extract_tokens(s)
}

#[test]
fn tokens_are_lowercased_and_split_on_separators() {
    assert_eq!(toks("Hello, World!"), vec!["hello", "world"]);
    assert_eq!(
        toks("GET /Index.HTML?user=Admin@Example.com"),
        vec!["get", "index.html", "user", "admin@example.com"]
    );
}

#[test]
fn token_chars_include_dot_underscore_dash_at() {
    assert_eq!(toks("foo.bar_baz-qux@host"), vec!["foo.bar_baz-qux@host"]);
}

#[test]
fn short_tokens_are_dropped() {
    assert_eq!(toks("a ab abc"), vec!["abc"]);
    assert!(toks("").is_empty());
    assert!(toks("  ;; ").is_empty());
}

#[test]
fn numeric_tokens_are_dropped() {
    assert_eq!(toks("12345 port 8080"), vec!["port"]);
}

#[test]
fn dotted_numbers_are_dropped() {
    assert_eq!(toks("10.0.0.1 1.2.3 v1.2"), vec!["v1.2"]);
}

#[test]
fn long_hex_runs_are_dropped() {
    // 24 hexadecimal digits: a hash
    assert!(toks("deadbeefdeadbeefdeadbeef").is_empty());
    // 19 are kept
    assert_eq!(toks("deadbeefdeadbeefdea"), vec!["deadbeefdeadbeefdea"]);
    // 20 are dropped
    assert!(toks("deadbeefdeadbeefdead").is_empty());
    // a long run that is not all hexadecimal is kept
    assert_eq!(toks("deadbeefdeadbeefdeadbeefx"), vec!["deadbeefdeadbeefdeadbeefx"]);
}

#[test]
fn duplicates_are_kept_in_order() {
    assert_eq!(toks("abc xyz abc"), vec!["abc", "xyz", "abc"]);
}

#[test]
fn unicode_letters_are_lowercased_and_measured_in_bytes() {
    assert_eq!(toks("ÄBC"), vec!["äbc"]);
    // two characters, four bytes
    assert_eq!(toks("éé"), vec!["éé"]);
    // one character, two bytes
    assert!(toks("é").is_empty());
}

#[test]
fn tokenizing_joined_texts_concatenates_their_tokens() {
    let a = "Alpha beta 42";
    let b = "GAMMA.delta x";
    let mut expected = toks(a);
    expected.extend(toks(b));
    assert_eq!(toks(&format!("{} {}", a, b)), expected);
    assert_eq!(toks(&format!("{},{}", a, b)), expected);
}

#[test]
fn every_token_is_normalized() {
    let text = "Some LOG line: 192.168.0.1 user=Root id=0xDEADBEEF a 77 ___";
    for t in toks(text) {
        assert!(t.len() >= 3);
        assert_eq!(t, t.to_lowercase());
        assert!(!t.chars().all(|c| c.is_numeric()));
        assert!(!t.chars().all(|c| c.is_numeric() || c == '.'));
    }
}

#[test]
fn decimal_literals() {
    assert_eq!(parse_decimal("42", u64::MAX), Some(42));
    assert_eq!(parse_decimal("+7", u64::MAX), Some(7));
    assert_eq!(parse_decimal("", u64::MAX), None);
    assert_eq!(parse_decimal("+", u64::MAX), None);
    assert_eq!(parse_decimal("4x", u64::MAX), None);
    assert_eq!(parse_decimal("-1", u64::MAX), None);
    assert_eq!(parse_decimal("4294967295", u32::MAX as u64), Some(4294967295));
    assert_eq!(parse_decimal("4294967296", u32::MAX as u64), None);
    assert_eq!(parse_decimal("18446744073709551615", u64::MAX), Some(u64::MAX));
    assert_eq!(parse_decimal("18446744073709551616", u64::MAX), None);
}

#[test]
fn fields_are_split_like_str_split() {
    let f: Vec<String> = split_fields("a,,b,", ',')
        .into_iter()
        .map(|v| v.into_iter().collect())
        .collect();
    assert_eq!(f, vec!["a", "", "b", ""]);
    assert_eq!(split_fields("", ',').len(), 1);
}

#[test]
fn string_equality() {
    assert!(str_eq("abc", "abc"));
    assert!(!str_eq("abc", "abd"));
    assert!(!str_eq("abc", "ab"));
}
