//! Texts, white space and sorting.

use mikui::kafka::filter::eq_fold;
use mikui::kafka::text::preview;
use mikui::sorting::{places, sort_texts};
use mikui::strings::{
    chars_of, is_blank, is_whitespace, push_decimal, push_signed, same_text, string_of, trim,
};

fn all_chars() -> impl Iterator<Item = char> {
    (0..=0x10_ffffu32).filter_map(char::from_u32)
}

#[test]
fn white_space_is_that_of_unicode() {
    for c in all_chars() {
        assert_eq!(is_whitespace(c), c.is_whitespace(), "{c:?}");
    }
}

#[test]
fn control_characters_are_those_of_unicode() {
    for c in all_chars() {
        let shown = preview(c.to_string().as_bytes(), 16);
        let wanted = if c.is_control() { " ".to_string() } else { c.to_string() };
        assert_eq!(shown, wanted);
    }
}

#[test]
fn letters_fold_as_their_lower_case_does() {
    for (a, b) in [('a', 'A'), ('я', 'Я'), ('ß', 'ß'), ('İ', 'İ'), ('K', 'k'), ('é', 'É')] {
        assert!(eq_fold(a, b), "{a} {b}");
        assert_eq!(eq_fold(a, b), a == b || a.to_lowercase().eq(b.to_lowercase()));
    }
    assert!(!eq_fold('a', 'b'));
    assert!(!eq_fold('ß', 's'));
}

#[test]
fn numbers_are_written_in_decimal() {
    for n in [0, 9, 10, 99, 100, u64::MAX] {
        let mut out = String::from("n=");
        push_decimal(&mut out, n);
        assert_eq!(out, format!("n={n}"));
    }
    for n in [0, -1, 10, -10, i64::MIN, i64::MAX] {
        let mut out = String::new();
        push_signed(&mut out, n);
        assert_eq!(out, n.to_string());
    }
}

#[test]
fn texts_are_cut_and_compared() {
    for text in ["", " ", " a b ", "\u{3000}я\n", "x"] {
        assert_eq!(string_of(&trim(&chars_of(text))), text.trim());
        assert_eq!(is_blank(text), text.trim().is_empty());
    }
    assert!(same_text("при", "при"));
    assert!(!same_text("при", "прив"));
    assert!(!same_text("a", "b"));
}

#[test]
fn texts_sort_as_in_a_dictionary() {
    let texts: Vec<String> =
        ["b", "", "я", "a", "ab", "b", "B"].iter().map(|s| s.to_string()).collect();
    let order = sort_texts(&texts);
    let mut wanted: Vec<usize> = (0..texts.len()).collect();
    wanted.sort_by_key(|&i| texts[i].clone());
    assert_eq!(order, wanted);
    assert_eq!(places(3), vec![0, 1, 2]);
}
