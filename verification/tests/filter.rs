//! Finding a query in the bytes of a message.

use mikui::kafka::filter::{Loose, Needle};

fn contains(haystack: &[u8], needle: &str, case_sensitive: bool) -> bool {
    Needle::new(needle, case_sensitive).matches(haystack)
}

#[test]
fn empty_needle_always_matches() {
    assert!(contains(b"anything", "", true));
    assert!(contains(b"", "", false));
    assert!(Needle::new("", false).is_empty());
    assert!(!Needle::new("a", false).is_empty());
}

#[test]
fn needle_longer_than_haystack_never_matches() {
    assert!(!contains(b"ab", "abc", true));
    assert!(!contains(b"ab", "abc", false));
}

#[test]
fn case_sensitive_search() {
    assert!(contains(b"hello world", "world", true));
    assert!(!contains(b"hello world", "World", true));
}

#[test]
fn case_insensitive_search() {
    assert!(contains(b"hello world", "World", false));
    assert!(contains(b"HELLO WORLD", "world", false));
    assert!(contains(b"MiXeD", "mIxEd", false));
    assert!(!contains(b"hello", "xyz", false));
}

#[test]
fn matches_at_the_very_end() {
    assert!(contains(b"abcdef", "def", true));
    assert!(contains(b"abcdef", "DEF", false));
}

#[test]
fn matches_at_the_very_start() {
    assert!(contains(b"abcdef", "abc", true));
    assert!(contains(b"abcdef", "ABC", false));
}

#[test]
fn retries_after_a_false_candidate() {
    assert!(contains(b"axxabc", "ABC", false));
    assert!(contains(b"aaaaab", "AB", false));
}

#[test]
fn works_on_non_utf8_bytes() {
    let haystack = [0xff, 0x00, b'k', b'e', b'y', 0xfe];
    assert!(contains(&haystack, "key", true));
    assert!(contains(&haystack, "KEY", false));
}

#[test]
fn digits_and_symbols_have_no_case() {
    assert!(contains(b"id-12345", "12345", false));
    assert!(contains(b"a-b-c", "-B-", false));
}

#[test]
fn cyrillic_folds_both_ways() {
    assert!(contains("Привет".as_bytes(), "привет", false));
    assert!(contains("привет".as_bytes(), "ПРИВЕТ", false));
    assert!(contains("ПРИВЕТ".as_bytes(), "привет", false));
    assert!(contains("ПрИвЕт".as_bytes(), "пРиВеТ", false));
}

#[test]
fn cyrillic_stays_exact_when_case_sensitive() {
    assert!(contains("Привет".as_bytes(), "Привет", true));
    assert!(!contains("Привет".as_bytes(), "привет", true));
}

#[test]
fn cyrillic_inside_a_longer_body() {
    let body = "{\"name\":\"Сбербанк\",\"id\":42}".as_bytes();
    assert!(contains(body, "сбербанк", false));
    assert!(contains(body, "СБЕРБАНК", false));
    assert!(!contains(body, "газпром", false));
}

#[test]
fn cyrillic_found_inside_non_utf8_payload() {
    let mut haystack = vec![0x0a, 0x0c, 0xff];
    haystack.extend_from_slice("Тинькофф".as_bytes());
    haystack.extend_from_slice(&[0xfe, 0x10]);
    assert!(contains(&haystack, "тинькофф", false));
    assert!(contains(&haystack, "ТИНЬКОФФ", false));
}

#[test]
fn match_may_not_straddle_an_invalid_byte() {
    let mut haystack = Vec::from("При".as_bytes());
    haystack.push(0xff);
    haystack.extend_from_slice("вет".as_bytes());
    assert!(!contains(&haystack, "привет", false));
    assert!(contains(&haystack, "при", false));
    assert!(contains(&haystack, "ВЕТ", false));
}

#[test]
fn ascii_needle_does_not_false_positive_on_cyrillic() {
    let haystack = "рАЯЪёЭ".as_bytes();
    for needle in ["a", "p", "e", "A", "P", "E"] {
        assert!(!contains(haystack, needle, false), "{needle}");
    }
}

#[test]
fn needle_longer_in_chars_than_haystack() {
    assert!(!contains("аб".as_bytes(), "абвг", false));
}

#[test]
fn matches_at_chunk_boundaries() {
    let mut head = vec![0xff];
    head.extend_from_slice("Юг".as_bytes());
    assert!(contains(&head, "юг", false));

    let mut tail = Vec::from("Юг".as_bytes());
    tail.push(0xff);
    assert!(contains(&tail, "юг", false));
}

#[test]
fn retries_after_a_false_candidate_in_unicode() {
    assert!(contains("аха-абв".as_bytes(), "АБВ", false));
}

#[test]
fn mixed_ascii_and_cyrillic_needle() {
    assert!(contains("id-Москва-01".as_bytes(), "id-москва-01", false));
    assert!(contains("ID-МОСКВА-01".as_bytes(), "id-Москва-01", false));
}

const COMPACT: &[u8] = br#"{"id":42,"name":"Alice","tags":["a","b"]}"#;
const PRETTY: &[u8] = br#"{
  "id": 42,
  "name": "Alice",
  "tags": [
"a",
"b"
  ]
}"#;

#[test]
fn a_pair_copied_from_the_formatted_body_is_found_in_the_compact_one() {
    assert!(contains(COMPACT, r#""name": "Alice""#, true));
    assert!(contains(COMPACT, r#""id": 42,"#, true));
    assert!(contains(COMPACT, r#""name": "alice""#, false));
}

#[test]
fn a_compact_query_is_found_in_a_formatted_body() {
    assert!(contains(PRETTY, r#""name":"Alice""#, true));
    assert!(contains(PRETTY, r#""id":42,"#, true));
    assert!(contains(PRETTY, r#"["a","b"]"#, true));
}

#[test]
fn indentation_counts_as_whitespace() {
    assert!(contains(PRETTY, "{\"id\": 42", true));
    assert!(contains(PRETTY, r#""tags": ["a""#, true));
}

#[test]
fn whitespace_inside_a_string_literal_stays_exact() {
    let body = br#"{"name":"Alice Smith"}"#;
    assert!(contains(body, r#""name": "Alice Smith""#, true));
    assert!(!contains(body, r#""name": "AliceSmith""#, true));
    assert!(!contains(body, r#""name":"Alice  Smith""#, true));
}

#[test]
fn plain_text_still_requires_its_spaces() {
    assert!(!contains(b"helloworld", "hello world", false));
    assert!(contains(b"hello world", "hello world", false));
    assert!(contains(b"hello\n  world", "hello world", false));
}

#[test]
fn a_needle_without_json_punctuation_takes_the_exact_path_only() {
    assert!(Loose::compile("hello", false).is_none());
    assert!(Loose::compile(r#""hello world""#, false).is_none());
    assert!(Loose::compile(r#""a": 1"#, false).is_some());
    assert!(Loose::compile("a,b", false).is_some());
}

#[test]
fn leading_and_trailing_whitespace_is_dropped() {
    assert!(contains(COMPACT, "  \"name\": \"Alice\",\n", true));
}

#[test]
fn the_loose_pass_folds_case_in_cyrillic_too() {
    let body = r#"{"город":"Москва"}"#.as_bytes();
    assert!(contains(body, r#""город": "москва""#, false));
    assert!(contains(body, r#""ГОРОД": "МОСКВА""#, false));
    assert!(!contains(body, r#""город": "москва""#, true));
    assert!(contains(body, r#""город": "Москва""#, true));
}

#[test]
fn loosening_whitespace_does_not_loosen_anything_else() {
    assert!(!contains(COMPACT, r#""name": "Bob""#, true));
    assert!(!contains(COMPACT, r#""nam": "Alice""#, true));
    assert!(!contains(COMPACT, r#""id": 43,"#, true));
}

#[test]
fn an_unbalanced_quote_does_not_break_the_query() {
    assert!(contains(COMPACT, r#""name": "Alice"#, true));
    assert!(contains(COMPACT, r#""tags": ["#, true));
}

#[test]
fn the_loose_pass_retries_after_a_false_candidate() {
    let body = br#"{"a":1,"aa":{"b": 2}}"#;
    assert!(contains(body, r#""aa": {"b":2}"#, true));
}

#[test]
fn loosening_loses_nothing() {
    for query in ["a: b", r#""k":"v""#, "{x}", "a,b ,c", "[ 1 ]"] {
        let body = format!("prefix {query} suffix");
        assert!(contains(body.as_bytes(), query, true), "{query}");
        assert!(contains(body.to_uppercase().as_bytes(), query, false), "{query}");
    }
}

#[test]
fn a_gap_between_words_takes_any_white_space_but_some() {
    assert!(contains("a\u{a0}\tb:1".as_bytes(), "a b: 1", true));
    assert!(!contains(b"ab:1", "a b: 1", true));
}

#[test]
fn letters_are_folded_one_by_one() {
    // One letter is compared with one: this one has two in lower case.
    assert!(!contains("İstanbul".as_bytes(), "i̇stanbul", false));
    assert!(contains("İstanbul".as_bytes(), "İSTANBUL", false));
    assert!(contains("STRASSE".as_bytes(), "strasse", false));
}

#[test]
fn white_space_at_the_ends_is_never_required() {
    let body = br#"{"name":"Alice"}"#;
    for query in ["  \"Alice\"", "\"Alice\"\n", "\t\"name\"", " Alice "] {
        assert!(contains(body, query, true), "{query:?}");
        assert!(contains(body, &query.to_lowercase(), false), "{query:?}");
    }
    assert!(contains("{\"имя\":\"Алиса\"}".as_bytes(), "  \"алиса\"", false));
    // Inside of a string literal it still is, and so it is between words.
    assert!(!contains(body, "\" Alice\"", true));
    assert!(!contains(body, "  \"Bob\"", true));
    assert!(!contains(b"helloworld", " hello world ", true));
    // White space alone asks for itself.
    assert!(!contains(body, "  ", true));
    assert!(contains(b"a  b", "  ", true));
    assert!(Loose::compile("  ", true).is_none());
    assert!(Loose::compile(" x", true).is_some());
}

#[test]
fn what_is_found_with_case_is_found_without() {
    for (body, query) in [("Привет K", "Привет"), ("{\"A\" : 1}", "\"A\": 1"), ("aKb", "K")] {
        assert!(contains(body.as_bytes(), query, true), "{query}");
        assert!(contains(body.as_bytes(), query, false), "{query}");
    }
}
