//! Sending a message.

use mikui::kafka::connection::{
    after_poll, after_probe, before_probe, explain_missing_reply, is_fatal, restart, worker_restarted, Fault,
    FatalError, MissingReply, Report, Wait,
};
use mikui::kafka::produce::{
    check_produce_payload, encode_payload, json_issue, produce_record, Encoding,
};
use mikui::kafka::raw_consumer::{message_time, offset_tail, OFFSET_BEGINNING};
use mikui::kafka::types::{IssueSeverity, MessageHeader, PayloadFormat, ProduceRequest};

fn request(format: PayloadFormat, payload: &str) -> ProduceRequest {
    ProduceRequest {
        topic: "orders".into(),
        partition: None,
        key: String::new(),
        headers: Vec::new(),
        format,
        payload: payload.into(),
        message: None,
        subject: None,
    }
}

fn bytes(r: Result<Encoding, String>) -> Vec<u8> {
    match r {
        Ok(Encoding::Bytes(b)) => b,
        other => panic!("{other:?}"),
    }
}

#[test]
fn text_and_json_are_sent_as_they_were_typed() {
    assert_eq!(bytes(encode_payload(&request(PayloadFormat::Text, "при"), false)), "при".as_bytes());
    assert_eq!(bytes(encode_payload(&request(PayloadFormat::Json, "{no"), false)), b"{no");
    assert_eq!(bytes(encode_payload(&request(PayloadFormat::Hex, "0x1a ff"), false)), [0x1a, 0xff]);
}

#[test]
fn a_schema_takes_a_cluster_and_a_message() {
    let mut r = request(PayloadFormat::Proto, "{}");
    assert_eq!(encode_payload(&r, false).unwrap_err(), "not connected to a cluster");
    assert_eq!(encode_payload(&r, true).unwrap_err(), "pick the message type to encode with");
    r.message = Some(String::new());
    assert_eq!(encode_payload(&r, true).unwrap_err(), "pick the message type to encode with");
    r.message = Some("demo.Event".into());
    assert!(matches!(encode_payload(&r, true), Ok(Encoding::Proto(m)) if m == "demo.Event"));

    for format in [PayloadFormat::Avro, PayloadFormat::JsonSchema] {
        let mut r = request(format, "{}");
        r.subject = Some("s".into());
        assert_eq!(encode_payload(&r, false).unwrap_err(), "not connected to a cluster");
        match encode_payload(&r, true) {
            Ok(Encoding::Avro(s)) => {
                assert_eq!(format, PayloadFormat::Avro);
                assert_eq!(s.as_deref(), Some("s"));
            }
            Ok(Encoding::JsonSchema(s)) => {
                assert_eq!(format, PayloadFormat::JsonSchema);
                assert_eq!(s.as_deref(), Some("s"));
            }
            other => panic!("{other:?}"),
        }
    }
}

#[test]
fn bad_json_is_a_warning_and_nothing_more() {
    let issue = check_produce_payload(&request(PayloadFormat::Json, "{\"a\":"), false, None).unwrap();
    assert_eq!(issue.severity, IssueSeverity::Warning);
    assert_eq!(issue.message, "EOF while parsing a value at line 1 column 5");
    assert!(check_produce_payload(&request(PayloadFormat::Json, "{\"a\": 1}"), false, None).is_none());
    assert!(check_produce_payload(&request(PayloadFormat::Json, " \n\t"), false, None).is_none());
    assert!(check_produce_payload(&request(PayloadFormat::Text, "{\"a\":"), false, None).is_none());
}

#[test]
fn the_verdict_on_json_is_passed_on() {
    assert!(json_issue("x", None).is_none());
    assert!(json_issue("  ", Some("bad".into())).is_none());
    let issue = json_issue("x", Some("bad".into())).unwrap();
    assert_eq!(issue.message, "bad");
    assert_eq!(issue.severity, IssueSeverity::Warning);
}

#[test]
fn what_cannot_be_encoded_is_an_error() {
    let issue = check_produce_payload(&request(PayloadFormat::Hex, "1a2"), false, None).unwrap();
    assert_eq!(issue.severity, IssueSeverity::Error);
    assert_eq!(
        Some(issue.message),
        encode_payload(&request(PayloadFormat::Hex, "1a2"), false).err()
    );
    let avro = request(PayloadFormat::Avro, "{}");
    assert!(check_produce_payload(&avro, true, None).is_none());
    let issue = check_produce_payload(&avro, true, Some("no field".into())).unwrap();
    assert_eq!(issue.severity, IssueSeverity::Error);
    assert_eq!(issue.message, "no field");
    let issue = check_produce_payload(&avro, false, None).unwrap();
    assert_eq!(issue.message, "not connected to a cluster");
}

#[test]
fn an_empty_key_is_no_key() {
    let record = produce_record(request(PayloadFormat::Text, "v"), b"v".to_vec());
    assert_eq!(record.key, None);
    assert_eq!(record.payload, b"v");

    let mut r = request(PayloadFormat::Text, "v");
    r.key = "ключ".into();
    r.partition = Some(3);
    r.headers = vec![MessageHeader { key: "h".into(), value: "1".into() }];
    let record = produce_record(r, Vec::new());
    assert_eq!(record.key.as_deref(), Some("ключ".as_bytes()));
    assert_eq!(record.partition, Some(3));
    assert_eq!(record.headers.len(), 1);
    assert_eq!(record.topic, "orders");
}

#[test]
fn the_report_is_waited_for() {
    assert!(matches!(after_poll(Some(7), 99_999, 30_000), Report::Done(7)));
    assert!(matches!(after_poll::<i32>(None, 30_000, 30_000), Report::Waiting));
    match after_poll::<i32>(None, 30_001, 30_000) {
        Report::Lost(e) => assert_eq!(e, "no delivery report from the cluster"),
        other => panic!("{other:?}"),
    }
}

#[test]
fn only_faults_of_the_settings_are_fatal() {
    for fault in [
        Fault::Authentication,
        Fault::SaslAuthenticationFailed,
        Fault::Ssl,
        Fault::UnsupportedSaslMechanism,
        Fault::IllegalSaslState,
    ] {
        assert!(is_fatal(fault));
    }
    assert!(!is_fatal(Fault::Other));
}

#[test]
fn the_first_fault_stays() {
    let mut fatal = FatalError::default();
    assert_eq!(fatal.take(), None);
    fatal.record("bad password");
    fatal.record("1/1 brokers are down");
    assert_eq!(fatal.take().as_deref(), Some("bad password"));
    assert_eq!(fatal.take(), None);
}

#[test]
fn a_silent_cluster_is_asked_until_time_runs_out() {
    assert!(matches!(before_probe(None), Wait::AskAgain));
    assert!(matches!(before_probe(Some("bad password".into())), Wait::Failed(e) if e == "bad password"));
    assert!(matches!(after_probe(None, 9_999, None), Wait::Ready));
    assert!(matches!(after_probe(Some("no".into()), 4_999, None), Wait::AskAgain));
    match after_probe(Some("no".into()), 0, Some("bad password".into())) {
        Wait::Failed(e) => assert_eq!(e, "bad password"),
        other => panic!("{other:?}"),
    }
    match after_probe(Some("timed out".into()), 5_000, None) {
        Wait::Failed(e) => assert_eq!(e, "can't reach cluster: timed out"),
        other => panic!("{other:?}"),
    }
    match after_probe(Some("timed out".into()), 5_000, Some("bad password".into())) {
        Wait::Failed(e) => assert_eq!(e, "bad password"),
        other => panic!("{other:?}"),
    }
}

#[test]
fn a_dead_worker_is_replaced_once() {
    assert!(matches!(explain_missing_reply(1, 2, false, 0), MissingReply::Restart));
    assert!(matches!(explain_missing_reply(1, 1, true, 0), MissingReply::Restart));
    assert!(matches!(explain_missing_reply(1, 1, false, 49), MissingReply::LookAgain));
    match explain_missing_reply(1, 1, false, 50) {
        MissingReply::Dropped(e) => assert_eq!(e, "the worker dropped the reply"),
        other => panic!("{other:?}"),
    }

    let mut live = 7;
    assert!(restart(&mut live, 7));
    assert!(!restart(&mut live, 7));
    assert_eq!(live, 8);
    let mut last = u64::MAX;
    assert!(restart(&mut last, u64::MAX));
    assert_eq!(last, 0);
}

#[test]
fn a_crash_says_where_its_record_lies() {
    let plain = "kafka worker crashed and was restarted — reconnect to the cluster to continue";
    assert_eq!(worker_restarted(None), plain);
    assert_eq!(
        worker_restarted(Some("/crashes/panic-1.log")),
        format!("{plain}. The stack trace is in /crashes/panic-1.log; send it over and it will be fixed")
    );
}

#[test]
fn offsets_count_from_the_end() {
    assert_eq!(OFFSET_BEGINNING, -2);
    assert_eq!(offset_tail(0), -2000);
    assert_eq!(offset_tail(5), -2005);
    assert_eq!(message_time(-1), 0);
    assert_eq!(message_time(0), 0);
    assert_eq!(message_time(5), 5);
}
