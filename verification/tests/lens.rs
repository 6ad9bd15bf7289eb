//! Looking through the envelopes around a message.

use mikui::kafka::lens::{
    apply, render, sniff, Document, Leaf, Lens, LensMode, LensSetting, Lensed, Node, MAX_BYTES,
};

const DEBEZIUM: &str = r#"{
    "before": null,
    "after": {"id": 1, "name": "first"},
    "source": {"table": "orders"},
    "op": "c",
    "ts_ms": 1700000000000
}"#;

const CONNECT: &str = r#"{
    "schema": {"type": "struct", "fields": [{"type": "int64", "field": "id"}]},
    "payload": {"id": 7}
}"#;

fn auto(body: &str) -> Lensed {
    apply(LensMode::Auto, body.as_bytes())
}

#[test]
fn a_debezium_body_shows_the_row_and_the_operation() {
    let out = auto(DEBEZIUM);
    assert_eq!(out.tag.as_deref(), Some("c"));
    assert_eq!(out.preview.as_deref(), Some(r#"{"id":1,"name":"first"}"#));
}

#[test]
fn a_delete_shows_the_row_that_was_removed() {
    let body = r#"{"before":{"id":9},"after":null,"op":"d","source":{}}"#;
    let out = auto(body);
    assert_eq!(out.tag.as_deref(), Some("d"));
    assert_eq!(out.preview.as_deref(), Some(r#"{"id":9}"#));
}

#[test]
fn a_connect_envelope_shows_the_payload_instead_of_the_schema() {
    let out = auto(CONNECT);
    assert_eq!(out.tag, None);
    assert_eq!(out.preview.as_deref(), Some(r#"{"id":7}"#));
}

#[test]
fn debezium_inside_a_connect_envelope_is_still_debezium() {
    let body =
        format!(r#"{{"schema": {{"type": "struct", "fields": []}}, "payload": {DEBEZIUM}}}"#);
    let out = auto(&body);
    assert_eq!(out.tag.as_deref(), Some("c"));
    assert_eq!(out.preview.as_deref(), Some(r#"{"id":1,"name":"first"}"#));
}

#[test]
fn an_ordinary_body_is_left_alone() {
    let out = auto(r#"{"id": 1, "name": "first"}"#);
    assert!(out.tag.is_none());
    assert!(out.preview.is_none());
}

#[test]
fn a_plain_message_with_an_op_field_is_not_cdc() {
    let out = auto(r#"{"op": "c", "value": 1}"#);
    assert!(out.preview.is_none());
}

#[test]
fn a_plain_message_with_schema_and_payload_is_not_a_connect_envelope() {
    let out = auto(r#"{"schema": "v1", "payload": {"id": 1}}"#);
    assert!(out.preview.is_none());

    let out = auto(r#"{"schema": {"type": "object"}, "payload": {"id": 1}}"#);
    assert!(out.preview.is_none());
}

#[test]
fn a_chosen_lens_that_does_not_fit_the_body_changes_nothing() {
    let out = apply(LensMode::Fixed(Lens::Debezium), br#"{"id": 1}"#);
    assert!(out.preview.is_none());
    assert!(out.tag.is_none());
}

#[test]
fn a_chosen_lens_applies_where_detection_would_have_stayed_silent() {
    let body = br#"{"op":"u","source":{"table":"t"},"after":{"id":3}}"#;
    assert_eq!(
        apply(LensMode::Fixed(Lens::Debezium), body).tag.as_deref(),
        Some("u")
    );
}

#[test]
fn off_means_off_even_on_an_obvious_envelope() {
    let out = apply(LensMode::Off, CONNECT.as_bytes());
    assert!(out.preview.is_none());
    assert!(out.tag.is_none());
}

#[test]
fn a_body_over_the_cap_is_left_alone() {
    let filler = "x".repeat(MAX_BYTES);
    let body = format!(r#"{{"op":"c","source":{{}},"after":{{"v":"{filler}"}}}}"#);
    assert!(body.len() > MAX_BYTES);
    assert!(auto(&body).preview.is_none());
}

#[test]
fn a_body_that_is_not_json_is_left_alone() {
    let out = auto(r#"{"op":"c","after":{"#);
    assert!(out.preview.is_none());
}

#[test]
fn the_byte_sniff_passes_envelopes_and_stops_ordinary_bodies() {
    assert_eq!(sniff(DEBEZIUM.as_bytes()), Some(Lens::Debezium));
    assert_eq!(sniff(CONNECT.as_bytes()), Some(Lens::Connect));
    assert_eq!(sniff(br#"{"id":1,"name":"first"}"#), None);
}

#[test]
fn the_stored_choice_maps_onto_the_working_mode() {
    assert_eq!(LensMode::from(None), LensMode::Auto);
    assert_eq!(LensMode::from(Some(LensSetting::Off)), LensMode::Off);
    assert_eq!(
        LensMode::from(Some(LensSetting::Connect)),
        LensMode::Fixed(Lens::Connect)
    );
    assert_eq!(
        LensMode::from(Some(LensSetting::Debezium)),
        LensMode::Fixed(Lens::Debezium)
    );
}

fn leaf(name: &str, text: &str) -> Leaf {
    Leaf {
        name: name.into(),
        text: text.into(),
        null: text == "null",
        string: serde_json::from_str::<String>(text).ok(),
    }
}

fn node(name: &str, text: &str, fields: Vec<Leaf>) -> Node {
    Node { own: leaf(name, text), object: !fields.is_empty() || text.starts_with('{'), fields }
}

#[test]
fn a_document_is_looked_through_as_it_was_parsed() {
    let document = Document {
        object: true,
        fields: vec![
            node("op", r#""u""#, vec![]),
            node("source", "{}", vec![]),
            node("before", "null", vec![]),
            node("after", r#"{"id":3}"#, vec![leaf("id", "3")]),
        ],
    };
    let out = render(Some(Lens::Debezium), &document);
    assert_eq!(out.tag.as_deref(), Some("u"));
    assert_eq!(out.preview.as_deref(), Some(r#"{"id":3}"#));
    let out = render(None, &Document { object: false, fields: vec![] });
    assert!(out.tag.is_none() && out.preview.is_none());
}

#[test]
fn what_is_recognised_is_what_would_be_chosen() {
    for (body, lens) in [(DEBEZIUM, Lens::Debezium), (CONNECT, Lens::Connect)] {
        let a = auto(body);
        let b = apply(LensMode::Fixed(lens), body.as_bytes());
        assert_eq!(a.tag, b.tag);
        assert_eq!(a.preview, b.preview);
    }
}
