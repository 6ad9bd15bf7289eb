//! The configuration of a client.

use mikui::helpers::{
    base_config, consumer_config, producer_config, DEFAULT_SASL_MECHANISM, SASL_MECHANISMS,
};
use mikui::kafka::types::ClusterConnectPayload;
use rdkafka::ClientConfig;

fn payload(protocol: &str) -> ClusterConnectPayload {
    ClusterConnectPayload {
        id: None,
        user_id: None,
        brokers: "b:9092".into(),
        security_protocol: protocol.into(),
        sasl_mechanism: None,
        username: Some("alice".into()),
        password: Some("secret".into()),
        ssl_ca_bundle_path: None,
        ssl_certificate_path: None,
        ssl_key_path: None,
        ssl_key_password: None,
        ssl_skip_hostname_check: false,
        ssl_skip_certificate_verification: false,
    }
}

fn config(conf: &ClusterConnectPayload) -> ClientConfig {
    base_config(conf).expect("config should build")
}

#[test]
fn plaintext_carries_neither_credentials_nor_tls() {
    let cc = config(&payload("PLAINTEXT"));

    assert_eq!(cc.get("security.protocol"), Some("plaintext"));
    assert_eq!(cc.get("sasl.mechanism"), None);
    assert_eq!(cc.get("sasl.username"), None);
    assert_eq!(cc.get("sasl.password"), None);
}

#[test]
fn ssl_authenticates_the_broker_but_sends_no_login() {
    let mut conf = payload("SSL");
    conf.ssl_ca_bundle_path = Some("/certs/ca.pem".into());
    let cc = config(&conf);

    assert_eq!(cc.get("security.protocol"), Some("ssl"));
    assert_eq!(cc.get("ssl.ca.location"), Some("/certs/ca.pem"));
    assert_eq!(cc.get("sasl.mechanism"), None);
    assert_eq!(cc.get("sasl.username"), None);
}

#[test]
fn sasl_plaintext_sends_the_login_without_tls() {
    let mut conf = payload("SASL_PLAINTEXT");
    conf.sasl_mechanism = Some("SCRAM-SHA-256".into());
    let cc = config(&conf);

    assert_eq!(cc.get("security.protocol"), Some("sasl_plaintext"));
    assert_eq!(cc.get("sasl.mechanism"), Some("SCRAM-SHA-256"));
    assert_eq!(cc.get("sasl.username"), Some("alice"));
    assert_eq!(cc.get("sasl.password"), Some("secret"));
    assert_eq!(cc.get("ssl.ca.location"), None);
}

#[test]
fn sasl_ssl_sets_both_halves() {
    let mut conf = payload("SASL_SSL");
    conf.sasl_mechanism = Some("SCRAM-SHA-512".into());
    conf.ssl_ca_bundle_path = Some("/certs/ca.pem".into());
    let cc = config(&conf);

    assert_eq!(cc.get("security.protocol"), Some("sasl_ssl"));
    assert_eq!(cc.get("sasl.mechanism"), Some("SCRAM-SHA-512"));
    assert_eq!(cc.get("sasl.username"), Some("alice"));
    assert_eq!(cc.get("ssl.ca.location"), Some("/certs/ca.pem"));
}

#[test]
fn the_protocol_is_read_case_insensitively_and_untrimmed() {
    let cc = config(&payload("  sasl_ssl  "));
    assert_eq!(cc.get("security.protocol"), Some("sasl_ssl"));
}

#[test]
fn an_unknown_protocol_is_refused_instead_of_silently_becoming_plaintext() {
    let e = base_config(&payload("SASL-SSL")).unwrap_err();
    assert!(e.contains("unknown security protocol"), "{e}");
    assert!(e.contains("SASL-SSL"), "{e}");
}

#[test]
fn a_record_without_a_mechanism_falls_back_to_the_default() {
    let mut conf = payload("SASL_SSL");
    conf.sasl_mechanism = None;
    assert_eq!(
        config(&conf).get("sasl.mechanism"),
        Some(DEFAULT_SASL_MECHANISM)
    );

    conf.sasl_mechanism = Some("   ".into());
    assert_eq!(
        config(&conf).get("sasl.mechanism"),
        Some(DEFAULT_SASL_MECHANISM)
    );
}

#[test]
fn a_mechanism_is_normalised_to_upper_case() {
    let mut conf = payload("SASL_SSL");
    conf.sasl_mechanism = Some(" scram-sha-512 ".into());
    assert_eq!(config(&conf).get("sasl.mechanism"), Some("SCRAM-SHA-512"));
}

#[test]
fn mechanisms_this_build_cannot_do_are_refused_by_name() {
    for mech in ["GSSAPI", "OAUTHBEARER", "SCRAM-SHA-1"] {
        let mut conf = payload("SASL_SSL");
        conf.sasl_mechanism = Some(mech.into());
        let e = base_config(&conf).unwrap_err();
        assert!(e.contains("unsupported SASL mechanism"), "{mech}: {e}");
        assert!(e.contains(mech), "{mech}: {e}");
    }
}

#[test]
fn a_client_pair_turns_on_mutual_tls() {
    let mut conf = payload("SSL");
    conf.ssl_certificate_path = Some("/certs/client.pem".into());
    conf.ssl_key_path = Some("/certs/client.key".into());
    conf.ssl_key_password = Some(" pass phrase ".into());
    let cc = config(&conf);

    assert_eq!(cc.get("ssl.certificate.location"), Some("/certs/client.pem"));
    assert_eq!(cc.get("ssl.key.location"), Some("/certs/client.key"));
    assert_eq!(cc.get("ssl.key.password"), Some(" pass phrase "));
}

#[test]
fn half_a_client_pair_is_refused() {
    let mut only_cert = payload("SASL_SSL");
    only_cert.ssl_certificate_path = Some("/certs/client.pem".into());
    let e = base_config(&only_cert).unwrap_err();
    assert!(e.contains("private key is missing"), "{e}");

    let mut only_key = payload("SASL_SSL");
    only_key.ssl_key_path = Some("/certs/client.key".into());
    let e = base_config(&only_key).unwrap_err();
    assert!(e.contains("client certificate is missing"), "{e}");
}

#[test]
fn an_unencrypted_key_gets_no_password_line() {
    let mut conf = payload("SSL");
    conf.ssl_certificate_path = Some("/certs/client.pem".into());
    conf.ssl_key_path = Some("/certs/client.key".into());
    conf.ssl_key_password = Some(String::new());

    assert_eq!(config(&conf).get("ssl.key.password"), None);
}

#[test]
fn verification_is_on_unless_switched_off_explicitly() {
    let mut conf = payload("SASL_SSL");
    let cc = config(&conf);
    assert_eq!(cc.get("ssl.endpoint.identification.algorithm"), None);
    assert_eq!(cc.get("enable.ssl.certificate.verification"), None);

    conf.ssl_skip_hostname_check = true;
    conf.ssl_skip_certificate_verification = true;
    let cc = config(&conf);
    assert_eq!(
        cc.get("ssl.endpoint.identification.algorithm"),
        Some("none")
    );
    assert_eq!(cc.get("enable.ssl.certificate.verification"), Some("false"));
}

#[test]
fn tls_settings_are_ignored_by_protocols_without_tls() {
    let mut conf = payload("SASL_PLAINTEXT");
    conf.ssl_ca_bundle_path = Some("/certs/ca.pem".into());
    conf.ssl_certificate_path = Some("/certs/client.pem".into());
    conf.ssl_key_path = Some("/certs/client.key".into());
    conf.ssl_skip_certificate_verification = true;
    let cc = config(&conf);

    assert_eq!(cc.get("ssl.ca.location"), None);
    assert_eq!(cc.get("ssl.certificate.location"), None);
    assert_eq!(cc.get("enable.ssl.certificate.verification"), None);
}

#[test]
fn both_the_consumer_and_the_producer_inherit_security() {
    let mut conf = payload("SASL_SSL");
    conf.ssl_ca_bundle_path = Some("/certs/ca.pem".into());
    let base = config(&conf);

    for cc in [consumer_config(&base), producer_config(&base)] {
        assert_eq!(cc.get("security.protocol"), Some("sasl_ssl"));
        assert_eq!(cc.get("sasl.mechanism"), Some(DEFAULT_SASL_MECHANISM));
        assert_eq!(cc.get("sasl.username"), Some("alice"));
        assert_eq!(cc.get("sasl.password"), Some("secret"));
        assert_eq!(cc.get("ssl.ca.location"), Some("/certs/ca.pem"));
    }
}

#[test]
fn reading_and_sending_are_set_apart() {
    let base = config(&payload("PLAINTEXT"));
    let reading = consumer_config(&base);
    let sending = producer_config(&base);

    assert_eq!(reading.get("fetch.message.max.bytes"), Some("262144"));
    assert_eq!(reading.get("acks"), None);
    assert_eq!(sending.get("acks"), Some("all"));
    assert_eq!(sending.get("partitioner"), Some("murmur2_random"));
    assert_eq!(sending.get("message.timeout.ms"), Some("30000"));
    assert_eq!(sending.get("fetch.message.max.bytes"), None);
    assert_eq!(base.get("fetch.message.max.bytes"), None);
    assert_eq!(base.get("acks"), None);
    assert_eq!(sending.get("bootstrap.servers"), Some("b:9092"));
}

#[test]
fn every_mechanism_of_the_list_is_taken() {
    for mechanism in SASL_MECHANISMS {
        let mut conf = payload("SASL_PLAINTEXT");
        conf.sasl_mechanism = Some(mechanism.to_lowercase());
        assert_eq!(config(&conf).get("sasl.mechanism"), Some(mechanism));
    }
}
