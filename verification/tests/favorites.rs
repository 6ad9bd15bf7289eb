//! Saved messages.

use mikui::clock::Moment;
use mikui::favorites::store::{
    body_file, check_coordinates, delete, describe, is_stale, lookup, message, new_id,
    refresh_preview, save, target_id,
};
use mikui::favorites::types::{
    BodyFormat, FavoriteRecord, FavoritesView, SaveFavoriteRequest, SavedMessage,
};
use mikui::kafka::text::{Decoded, DecodedBody};
use mikui::kafka::types::{MessageHeader, RawBody};

const CLUSTER: &str = "prod";
const NOW: Moment = Moment { seconds: 1_750_000_000, nanos: 123_000_000 };

/// The index together with the bodies, as they lie on the disk.
#[derive(Default)]
struct Archive {
    records: Vec<FavoriteRecord>,
    bodies: Vec<(String, Vec<u8>)>,
    schema: Option<fn(&[u8]) -> Result<String, String>>,
}

impl Archive {
    fn save_in(&mut self, cluster: &str, topic: &str, raw: &RawBody) -> (String, bool) {
        let id = target_id(&self.records, cluster, topic, raw, NOW);
        self.bodies.retain(|(name, _)| *name != body_file(&id));
        self.bodies.push((body_file(&id), raw.value.clone()));
        let decoded: Decoded = self.schema.map(|decode| decode(&raw.value));
        let (saved, updated) =
            save(&mut self.records, cluster, cluster, topic, raw, decoded, NOW);
        assert_eq!(saved, id);
        (id, updated)
    }

    fn save(&mut self, topic: &str, partition: i32, offset: i64, value: &[u8]) -> String {
        self.save_in(CLUSTER, topic, &raw(partition, offset, value)).0
    }

    fn body(&self, id: &str) -> Option<&Vec<u8>> {
        self.bodies.iter().find(|(name, _)| *name == body_file(id)).map(|(_, b)| b)
    }

    fn refresh(&mut self) -> bool {
        let mut changed = false;
        for i in 0..self.records.len() {
            let raw = self.body(&self.records[i].id).cloned();
            let body = raw.as_deref().map(|b| (b, self.schema.map(|decode| decode(b))));
            let stale = is_stale(&self.records[i], self.schema.is_some());
            let did = refresh_preview(&mut self.records[i], self.schema.is_some(), body);
            assert_eq!(did, stale);
            changed |= did;
        }
        changed
    }

    fn view(&self) -> FavoritesView {
        let copies = self.records.iter().map(copy).collect();
        let sizes =
            self.records.iter().map(|r| self.body(&r.id).map(|b| b.len() as u64)).collect();
        let index = if self.records.is_empty() { None } else { Some(100) };
        describe(copies, &sizes, index)
    }

    fn open(&self, id: &str) -> Result<SavedMessage, String> {
        let at = lookup(&self.records, id)?;
        let raw = self.body(id).ok_or("can't read the saved body")?;
        let decoded: DecodedBody =
            self.schema.map(|decode| decode(raw).map(|json| (json, Vec::new())));
        let format = self.schema.map(|_| BodyFormat::Proto);
        Ok(message(&self.records[at], raw, decoded, format))
    }

    fn delete(&mut self, id: &str) -> FavoritesView {
        if delete(&mut self.records, id) {
            self.bodies.retain(|(name, _)| *name != body_file(id));
        }
        self.view()
    }
}

fn copy(r: &FavoriteRecord) -> FavoriteRecord {
    FavoriteRecord {
        id: r.id.clone(),
        cluster: r.cluster.clone(),
        cluster_name: r.cluster_name.clone(),
        topic: r.topic.clone(),
        partition: r.partition,
        offset: r.offset,
        timestamp: r.timestamp,
        key: r.key.clone(),
        preview: r.preview.clone(),
        with_schema: r.with_schema,
        value_size: r.value_size,
        binary: r.binary,
        headers: r.headers.clone(),
        saved_at: r.saved_at.clone(),
    }
}

fn raw(partition: i32, offset: i64, value: &[u8]) -> RawBody {
    RawBody {
        partition,
        offset,
        timestamp: 1_700_000_000_000,
        key: "k".into(),
        value: value.to_vec(),
        headers: vec![MessageHeader { key: "trace".into(), value: "abc".into() }],
    }
}

#[test]
fn a_saved_message_survives_a_restart() {
    let mut archive = Archive::default();
    let id = archive.save("orders", 3, 42, br#"{"id":"a-1"}"#);

    let view = archive.view();
    assert_eq!(view.items.len(), 1);
    let item = &view.items[0];
    assert_eq!(item.record.topic, "orders");
    assert_eq!(item.record.partition, 3);
    assert_eq!(item.record.offset, 42);
    assert_eq!(item.record.preview, r#"{"id":"a-1"}"#);
    assert!(!item.missing);

    let saved = archive.open(&id).unwrap();
    assert_eq!(saved.message.value, r#"{"id":"a-1"}"#);
    assert_eq!(saved.message.headers.len(), 1);
    assert_eq!(saved.message.partition, 3);
    assert_eq!(saved.format, BodyFormat::Json);
}

#[test]
fn the_body_is_stored_as_the_bytes_that_came_from_kafka() {
    let mut archive = Archive::default();
    let bytes: &[u8] = &[0x0a, 0x03, 0xff, 0xfe, 0x00, 0x42];
    let id = archive.save("orders", 0, 1, bytes);

    assert_eq!(archive.body(&id).unwrap(), bytes);

    let saved = archive.open(&id).unwrap();
    assert!(saved.message.binary);
    assert_eq!(saved.message.value_size, bytes.len());
}

#[test]
fn saving_the_same_message_twice_updates_it_in_place() {
    let mut archive = Archive::default();
    let first = archive.save("orders", 0, 7, b"before");

    let (id, updated) = archive.save_in(CLUSTER, "orders", &raw(0, 7, b"after"));
    assert!(updated);
    assert_eq!(id, first);

    assert_eq!(archive.view().items.len(), 1);
    assert_eq!(archive.open(&first).unwrap().message.value, "after");
}

#[test]
fn deleting_one_message_leaves_the_same_offset_in_another_topic() {
    let mut archive = Archive::default();
    let doomed = archive.save("orders", 0, 7, b"orders body");
    let bystander = archive.save("payments", 0, 7, b"payments body");

    let view = archive.delete(&doomed);
    assert_eq!(view.items.len(), 1);
    assert_eq!(view.items[0].record.topic, "payments");
    assert_eq!(archive.open(&bystander).unwrap().message.value, "payments body");
    assert!(archive.body(&doomed).is_none());
}

#[test]
fn the_same_topic_in_two_clusters_gives_two_records() {
    let mut archive = Archive::default();
    archive.save("orders", 0, 7, b"prod body");
    archive.save_in("dev", "orders", &raw(0, 7, b"dev body"));

    assert_eq!(archive.view().items.len(), 2);
}

#[test]
fn the_reported_size_follows_what_is_actually_on_disk() {
    let mut archive = Archive::default();
    let heavy = vec![b'x'; 50_000];
    let id = archive.save("orders", 0, 1, &heavy);
    let view = archive.view();
    assert_eq!(view.items[0].bytes, 50_000);
    assert!(view.total_bytes > view.items[0].bytes);
    assert_eq!(view.total_bytes, 50_100);

    let after = archive.delete(&id);
    assert!(after.items.is_empty());
    assert!(after.total_bytes < view.total_bytes - 50_000);
}

#[test]
fn a_body_deleted_behind_our_back_is_reported_not_fatal() {
    let mut archive = Archive::default();
    let id = archive.save("orders", 0, 1, b"body");
    archive.bodies.clear();

    let view = archive.view();
    assert_eq!(view.items.len(), 1);
    assert!(view.items[0].missing);
    assert_eq!(view.items[0].bytes, 0);
    assert!(archive.open(&id).is_err());
    assert!(archive.delete(&id).items.is_empty());
}

#[test]
fn deleting_something_that_is_already_gone_is_not_an_error() {
    let mut archive = Archive::default();
    archive.save("orders", 0, 1, b"a");
    assert_eq!(archive.delete("nope").items.len(), 1);
}

#[test]
fn an_empty_archive_reads_as_empty() {
    let view = Archive::default().view();
    assert!(view.items.is_empty());
    assert_eq!(view.total_bytes, 0);
}

#[test]
fn identifiers_separate_messages_that_only_look_alike() {
    assert_ne!(new_id(1, "c1", "x.orders", 0, 0), new_id(1, "c1x", "orders", 0, 0));
    assert_ne!(new_id(1, "c1", "orders", 0, 1), new_id(1, "c1", "orders", 1, 0));
    assert_eq!(new_id(1, "c1", "orders", 0, 1), new_id(1, "c1", "orders", 0, 1));
}

fn event_bytes(id: &str) -> Vec<u8> {
    let mut out = vec![0x0a, id.len() as u8];
    out.extend_from_slice(id.as_bytes());
    out
}

/// Reads `Event { string id = 1; }` off the wire.
fn event_text(raw: &[u8]) -> Result<String, String> {
    match raw {
        [0x0a, n, rest @ ..] if rest.len() == usize::from(*n) => {
            let id = String::from_utf8(rest.to_vec()).map_err(|e| e.to_string())?;
            Ok(format!(r#"{{"id": "{id}"}}"#))
        }
        _ => Err("not an event".to_string()),
    }
}

#[test]
fn a_schema_loaded_after_saving_decodes_the_stored_bytes() {
    let mut archive = Archive::default();
    let id = archive.save("orders", 0, 1, &event_bytes("a-1"));

    assert!(!archive.refresh());
    assert!(!archive.view().items[0].record.with_schema);
    assert!(!archive.open(&id).unwrap().message.value.contains("\"id\""));

    archive.schema = Some(event_text);

    let saved = archive.open(&id).unwrap();
    assert_eq!(saved.message.value, r#"{"id": "a-1"}"#);
    assert!(!saved.message.binary);
    assert_eq!(saved.format, BodyFormat::Proto);

    assert!(archive.refresh());
    let after = archive.view();
    assert!(after.items[0].record.preview.contains("a-1"));
    assert!(after.items[0].record.with_schema);
    assert!(!after.items[0].record.binary);
    assert!(!archive.refresh());
    let again = archive.view();
    assert_eq!(again.items[0].record.preview, after.items[0].record.preview);
}

#[test]
fn removing_the_schema_puts_the_preview_back_to_bytes() {
    let mut archive = Archive { schema: Some(event_text), ..Archive::default() };
    archive.save("orders", 0, 1, &event_bytes("a-1"));
    assert!(archive.view().items[0].record.preview.contains("a-1"));

    archive.schema = None;
    archive.refresh();
    let view = archive.view();
    assert!(!view.items[0].record.preview.contains("\"id\""));
    assert!(!view.items[0].record.with_schema);
}

#[test]
fn a_record_without_its_body_is_not_tried_again() {
    let mut archive = Archive::default();
    archive.save("orders", 0, 1, b"body");
    archive.bodies.clear();
    archive.schema = Some(event_text);
    assert!(archive.refresh());
    assert_eq!(archive.records[0].preview, "body");
    assert!(!archive.refresh());
}

#[test]
fn a_body_that_the_schema_cannot_read_is_shown_with_the_reason() {
    let mut archive = Archive { schema: Some(event_text), ..Archive::default() };
    let id = archive.save("orders", 0, 1, &[0xff]);
    assert!(archive.records[0].with_schema);
    assert!(archive.records[0].binary);
    let saved = archive.open(&id).unwrap();
    assert_eq!(saved.message.decode_error.as_deref(), Some("not an event"));
    assert_eq!(saved.message.value, "\u{fffd}");
    assert!(saved.message.binary);
}

/// FNV-1a, sixteen digits.
fn fnv(bytes: &[u8]) -> String {
    let mut hash: u64 = 0xcbf2_9ce4_8422_2325;
    for byte in bytes {
        hash = (hash ^ u64::from(*byte)).wrapping_mul(0x0000_0100_0000_01b3);
    }
    format!("{hash:016x}")
}

#[test]
fn an_identifier_is_the_time_and_a_hash() {
    assert_eq!(
        new_id(0x1234_abcd, "c", "t", -1, 42),
        format!("1234abcd-{}", fnv(b"c\0t\0-1\042"))
    );
    assert_eq!(new_id(0, "", "", 0, 0), format!("0-{}", fnv(b"\0\x000\x000")));
    assert!(new_id(-1, "c", "t", 0, 0).starts_with("ffffffffffffffff-"));
}

#[test]
fn the_time_of_saving_is_written_down() {
    let mut archive = Archive::default();
    archive.save("orders", 0, 1, b"a");
    assert_eq!(archive.records[0].saved_at, "2025-06-15T15:06:40.123+00:00");
    assert!(archive.records[0].id.starts_with(&format!("{:x}-", 1_750_000_000_123i64)));
}

#[test]
fn moments_out_of_the_calendar_are_refused() {
    assert!(NOW.is_valid());
    assert!(!Moment { seconds: -1, nanos: 0 }.is_valid());
    assert!(!Moment { seconds: 253_402_300_800, nanos: 0 }.is_valid());
    assert!(!Moment { seconds: 0, nanos: 1_000_000_000 }.is_valid());
    assert_eq!(NOW.millis(), 1_750_000_000_123);
}

#[test]
fn a_row_that_holds_another_message_is_not_saved() {
    let request = SaveFavoriteRequest {
        cluster: "c".into(),
        cluster_name: "c".into(),
        topic: "t".into(),
        index: 0,
        partition: 1,
        offset: 2,
    };
    assert!(check_coordinates(&request, &raw(1, 2, b"")).is_ok());
    let e = "the message list has changed; reopen the message and try again";
    assert_eq!(check_coordinates(&request, &raw(1, 3, b"")).unwrap_err(), e);
    assert_eq!(check_coordinates(&request, &raw(0, 2, b"")).unwrap_err(), e);
}

#[test]
fn an_unknown_identifier_is_named() {
    assert_eq!(lookup(&vec![], "x").unwrap_err(), "no saved message x");
}
