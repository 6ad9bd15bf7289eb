//! Bytes as text: previews, keys and bodies.

use mikui::kafka::hex::encode;
use mikui::kafka::text::{
    body, decode, is_text, key, preview, render, unquote, unquote_read, Decoded, Rendered,
    PREVIEW_BYTES,
};

#[test]
fn short_ascii_passes_through() {
    assert_eq!(preview(b"hello", PREVIEW_BYTES), "hello");
    assert!(is_text(b"hello"));
}

#[test]
fn control_characters_become_spaces() {
    assert_eq!(preview(b"a\nb\tc\rd", PREVIEW_BYTES), "a b c d");
}

#[test]
fn truncation_appends_ellipsis() {
    let out = preview(b"abcdefghij", 4);
    assert_eq!(out, "abcd…");
}

#[test]
fn truncation_respects_utf8_boundaries() {
    let text = "привет".as_bytes();
    let out = preview(text, 5);
    assert_eq!(out, "пр…");
    assert!(!out.contains('\u{fffd}'));
}

#[test]
fn truncation_at_exact_boundary_keeps_everything_it_can() {
    let text = "привет".as_bytes();
    assert_eq!(preview(text, 6), "при…");
}

#[test]
fn no_ellipsis_when_nothing_was_cut() {
    let text = "привет".as_bytes();
    assert_eq!(preview(text, text.len()), "привет");
}

#[test]
fn binary_payload_is_detected_and_does_not_panic() {
    let bytes = [0xff, 0xfe, 0x00, 0x01];
    assert!(!is_text(&bytes));
    let out = preview(&bytes, PREVIEW_BYTES);
    assert!(!out.is_empty());
    assert_eq!(decode(&bytes).chars().count(), 4);
}

#[test]
fn empty_input_is_empty_output() {
    assert_eq!(preview(b"", PREVIEW_BYTES), "");
    assert_eq!(decode(b""), "");
    assert!(is_text(b""));
}

#[test]
fn a_hex_body_is_shown_in_full_and_is_not_called_binary() {
    let raw = [0xff, 0x00, 0x1a];
    assert!(!is_text(&raw));

    let shown = body(Some(Ok((encode(&raw), Vec::new()))), &raw);
    assert_eq!(shown.value, "FF 00 1A");
    assert!(!shown.binary);
    assert!(shown.decode_error.is_none());
    assert!(shown.enum_values.is_empty());
}

/// Reads a body that is one string of Avro: its length in zigzag, then its bytes.
fn avro_string(raw: &[u8]) -> Decoded {
    let length = match raw.first() {
        Some(&first) if first % 2 == 0 && first < 0x80 => usize::from(first / 2),
        _ => return Some(Err("not a length".to_string())),
    };
    if raw.len() != length + 1 {
        return Some(Err("the bytes do not fit the length".to_string()));
    }
    let text = String::from_utf8(raw[1..].to_vec()).map_err(|e| e.to_string());
    Some(text.map(|t| serde_json::to_string(&t).unwrap()))
}

#[test]
fn an_avro_string_key_loses_both_its_length_byte_and_its_quotes() {
    let raw = b"\x08TCBR";
    assert_eq!(decode(raw), "\u{8}TCBR");
    assert_eq!(key(avro_string(raw), raw), "TCBR");
}

#[test]
fn a_plain_key_survives_a_decoder_that_cannot_read_it() {
    assert_eq!(key(avro_string(b"TCBR"), b"TCBR"), "TCBR");
}

#[test]
fn without_a_decoder_the_key_is_the_bytes_it_always_was() {
    assert_eq!(key(None, b"TCBR"), "TCBR");
    assert_eq!(key(None, b""), "");
}

#[test]
fn a_record_key_stays_json() {
    assert_eq!(unquote(r#"{"id":"a-1"}"#), r#"{"id":"a-1"}"#);
    assert_eq!(unquote(r#""a-1""#), "a-1");
}

#[test]
fn a_row_without_a_decoder_has_neither_text_nor_error() {
    let shown = render(None);
    assert!(shown.decoded.is_none() && shown.error.is_none());
    assert!(shown.binary(&[0xff]));
    assert!(!shown.binary(b"text"));
}

#[test]
fn a_row_is_binary_only_where_nothing_was_decoded() {
    let shown = render(Some(Ok("{}".into())));
    assert_eq!(shown.decoded.as_deref(), Some("{}"));
    assert!(!shown.binary(&[0xff]));
    let shown = render(Some(Err("bad".into())));
    assert_eq!(shown.error.as_deref(), Some("bad"));
    assert!(shown.binary(&[0xff]));
    assert!(Rendered::default().decoded.is_none());
}

#[test]
fn a_body_that_cannot_be_decoded_is_shown_as_its_bytes() {
    let shown = body(Some(Err("bad".into())), &[b'a', 0xff]);
    assert_eq!(shown.value, "a\u{fffd}");
    assert!(shown.binary);
    assert_eq!(shown.decode_error.as_deref(), Some("bad"));
    assert!(shown.enum_values.is_empty());

    let shown = body(Some(Ok(("{}".into(), vec!["RED".into()]))), &[0xff]);
    assert_eq!(shown.enum_values, vec!["RED"]);
    assert!(!shown.binary);
}

#[test]
fn bytes_are_repaired_as_the_standard_library_does() {
    for bytes in [&b"\xf0\x9f\x92"[..], b"\xc3\x28", b"a\xffb\xfe", b"\xed\xa0\x80"] {
        assert_eq!(decode(bytes), String::from_utf8_lossy(bytes));
    }
}

#[test]
fn escapes_in_a_key_are_read() {
    assert_eq!(unquote(r#""a\"bя""#), "a\"bя");
    assert_eq!(unquote("12"), "12");
    assert_eq!(unquote_read(None, "x"), "x");
    assert_eq!(unquote_read(Some("y".into()), "x"), "y");
}

#[test]
fn a_preview_is_never_longer_than_it_may_be() {
    let text = "длинный текст".repeat(100);
    for max in 0..40 {
        let out = preview(text.as_bytes(), max);
        assert!(out.chars().count() <= max + 1);
        assert!(out.ends_with('…'));
    }
}
