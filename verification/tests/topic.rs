//! What is shown of a topic, and links to its messages.

use mikui::favorites::types::BodyFormat;
use mikui::kafka::quota::TransferSample;
use mikui::kafka::topic::{
    describe_topic, may_ask_more, sort_config, PartitionBounds, PartitionMeta,
};
use mikui::kafka::types::TopicConfigEntry;
use mikui::link::{message_link, schema_hint, PendingLink, ShareRequest, TopicSchema};

fn meta(id: i32, replicas: usize, in_sync: usize) -> PartitionMeta {
    PartitionMeta { id, leader: 100 + id, replicas, in_sync }
}

fn bounds(id: i32, low: i64, high: i64) -> PartitionBounds {
    PartitionBounds { id, low, high }
}

fn entry(name: &str, value: &str) -> TopicConfigEntry {
    TopicConfigEntry {
        name: name.into(),
        value: Some(value.into()),
        is_default: true,
        is_read_only: false,
        is_sensitive: false,
    }
}

#[test]
fn partitions_come_by_number_and_add_up() {
    let metas = vec![meta(2, 3, 2), meta(0, 2, 2), meta(1, 3, 3)];
    let found = vec![bounds(1, 10, 110), bounds(2, 0, 50)];
    let sample = TransferSample { wire_bytes: 1, messages: 2, message_bytes: 3 };
    let d = describe_topic("orders", &metas, &found, Ok(vec![entry("a", "1")]), Some(sample));

    assert_eq!(d.name, "orders");
    let ids: Vec<i32> = d.partitions.iter().map(|p| p.id).collect();
    assert_eq!(ids, vec![0, 1, 2]);
    assert_eq!(d.partitions[0].low, None);
    assert_eq!(d.partitions[1].low, Some(10));
    assert_eq!(d.partitions[1].high, Some(110));
    assert_eq!(d.partitions[2].leader, 102);
    assert_eq!(d.replication_factor, Some(3));
    assert_eq!(d.under_replicated, 1);
    assert_eq!(d.messages, Some(150));
    assert!(d.offsets_partial);
    assert_eq!(d.sample_wire_bytes, Some(1));
    assert_eq!(d.sample_messages, Some(2));
    assert_eq!(d.sample_bytes, Some(3));
    assert_eq!(d.config.len(), 1);
    assert_eq!(d.config_error, None);
}

#[test]
fn without_bounds_the_number_of_messages_is_not_known() {
    let d = describe_topic("t", &vec![meta(0, 1, 1)], &vec![], Err("denied".into()), None);
    assert_eq!(d.messages, None);
    assert!(d.offsets_partial);
    assert_eq!(d.config_error.as_deref(), Some("denied"));
    assert!(d.config.is_empty());
    assert_eq!(d.sample_bytes, None);
}

#[test]
fn a_topic_without_partitions_has_no_replication() {
    let d = describe_topic("t", &vec![], &vec![], Ok(vec![]), None);
    assert_eq!(d.replication_factor, None);
    assert_eq!(d.messages, None);
    assert!(!d.offsets_partial);
}

#[test]
fn settings_come_by_name() {
    let sorted = sort_config(&vec![
        entry("retention.ms", "1"),
        entry("Zeta", "2"),
        entry("cleanup.policy", "3"),
        entry("retention.bytes", "4"),
    ]);
    let names: Vec<&str> = sorted.iter().map(|e| e.name.as_str()).collect();
    assert_eq!(names, vec!["Zeta", "cleanup.policy", "retention.bytes", "retention.ms"]);
    assert_eq!(sorted[1].value.as_deref(), Some("3"));
}

fn share(timestamp: i64, name: &str) -> ShareRequest {
    ShareRequest {
        cluster: None,
        cluster_name: Some(name.into()),
        topic: "orders".into(),
        partition: 3,
        offset: 42,
        timestamp,
    }
}

fn schema(format: BodyFormat) -> TopicSchema {
    TopicSchema {
        format,
        message: Some("demo.Event".into()),
        avro: Some((None, Some("demo.Record".into()))),
        json: Some(Some("orders-value".into())),
    }
}

#[test]
fn a_link_names_the_cluster_as_it_names_itself() {
    let link = message_link(share(5, "prod"), Some("kafka-1".into()), None).unwrap();
    assert_eq!(link.cluster_id, "kafka-1");
    assert_eq!(link.cluster_name.as_deref(), Some("prod"));
    assert_eq!((link.topic.as_str(), link.partition, link.offset), ("orders", 3, 42));
    assert_eq!(link.timestamp, Some(5));
    assert_eq!(link.format, None);
    assert_eq!(link.schema_type, None);

    let link = message_link(share(0, ""), Some("k".into()), Some(schema(BodyFormat::Proto))).unwrap();
    assert_eq!(link.cluster_name, None);
    assert_eq!(link.timestamp, None);
    assert_eq!(link.format, Some(BodyFormat::Proto));
    assert_eq!(link.schema_type.as_deref(), Some("demo.Event"));

    assert_eq!(
        message_link(share(1, "x"), None, None).unwrap_err(),
        "this cluster does not report a cluster id, so there is nothing a link could point at"
    );
}

#[test]
fn a_hint_names_the_type_where_there_is_a_schema() {
    let name = |s| schema_hint(s).1;
    assert_eq!(name(schema(BodyFormat::Avro)).as_deref(), Some("demo.Record"));
    let mut avro = schema(BodyFormat::Avro);
    avro.avro = Some((Some("orders-value".into()), Some("demo.Record".into())));
    assert_eq!(name(avro).as_deref(), Some("orders-value"));
    assert_eq!(name(schema(BodyFormat::JsonSchema)).as_deref(), Some("orders-value"));
    for format in [BodyFormat::Json, BodyFormat::Text, BodyFormat::Hex] {
        assert_eq!(schema_hint(schema(format)), (format, None));
    }
}

#[test]
fn a_pending_link_is_given_once() {
    let mut pending = PendingLink::default();
    assert_eq!(pending.take(), None);
    pending.put("mikui://a".into());
    pending.put("mikui://b".into());
    assert_eq!(pending.take().as_deref(), Some("mikui://b"));
    assert_eq!(pending.take(), None);
}

#[test]
fn settings_of_the_same_name_keep_their_order() {
    let sorted = sort_config(&vec![entry("b", "1"), entry("a", "2"), entry("b", "3"), entry("a", "4")]);
    let values: Vec<&str> = sorted.iter().filter_map(|e| e.value.as_deref()).collect();
    assert_eq!(values, vec!["2", "4", "1", "3"]);
}

#[test]
fn bounds_are_asked_for_while_there_is_time() {
    assert!(may_ask_more(0));
    assert!(may_ask_more(1_999));
    assert!(!may_ask_more(2_000));
}

#[test]
fn bounds_the_wrong_way_round_are_shown_as_they_are() {
    let metas = vec![meta(0, 1, 1), meta(1, 1, 1)];
    let found = vec![bounds(0, 10, 4), bounds(1, -1, 99)];
    let d = describe_topic("t", &metas, &found, Ok(vec![]), None);
    assert_eq!(d.messages, Some(94));
    assert_eq!((d.partitions[0].low, d.partitions[0].high), (Some(10), Some(4)));
    assert!(!d.offsets_partial);
}
