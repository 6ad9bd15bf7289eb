//! Saved connections, their users and their secrets.

use mikui::config::clusters::{
    delete_cluster, delete_cluster_user, delete_schema_registry, missing_secrets, resolve_secrets,
    save_cluster, save_cluster_user, save_schema_registry, secret_change, touch_cluster,
    SecretChange,
};
use mikui::config::types::{migrate_all, ClusterConfig, ClusterUser, SchemaRegistry};
use mikui::kafka::types::ClusterConnectPayload;
use serde_json::Value;

/// A record as it lies on the disk.
fn parse(json: &str) -> ClusterConfig {
    let v: Value = serde_json::from_str(json).unwrap();
    let text = |name: &str| v[name].as_str().map(str::to_string);
    let flag = |name: &str| v[name].as_bool().unwrap_or(false);
    let users = v["users"].as_array().cloned().unwrap_or_default();
    let mut cfg = ClusterConfig {
        id: text("id").unwrap(),
        name: text("name").unwrap(),
        brokers: text("brokers").unwrap(),
        security_protocol: text("security_protocol").unwrap(),
        sasl_mechanism: text("sasl_mechanism"),
        ssl_ca_bundle_path: text("ssl_ca_bundle_path"),
        ssl_certificate_path: text("ssl_certificate_path"),
        ssl_key_path: text("ssl_key_path"),
        has_key_password: flag("has_key_password"),
        ssl_skip_hostname_check: flag("ssl_skip_hostname_check"),
        ssl_skip_certificate_verification: flag("ssl_skip_certificate_verification"),
        created_at: text("created_at").unwrap(),
        last_used: text("last_used"),
        kafka_cluster_id: text("kafka_cluster_id"),
        users: users
            .iter()
            .map(|u| user(u["id"].as_str().unwrap(), u["username"].as_str().unwrap(), true))
            .collect(),
        active_user_id: text("active_user_id"),
        schema_registry: None,
        legacy_username: text("username"),
        legacy_has_password: flag("has_password"),
    };
    cfg.migrate();
    cfg
}

fn user(id: &str, username: &str, has_password: bool) -> ClusterUser {
    ClusterUser { id: id.to_string(), username: username.to_string(), has_password }
}

#[test]
fn legacy_single_login_becomes_the_first_user() {
    let cfg = parse(
        r#"{
            "id": "c1", "name": "prod", "brokers": "b:9092",
            "security_protocol": "SASL_SSL", "sasl_mechanism": "PLAIN",
            "username": "alice", "has_password": true,
            "created_at": "2026-01-01T00:00:00Z"
        }"#,
    );

    assert_eq!(cfg.users.len(), 1);
    assert_eq!(cfg.users[0].username, "alice");
    assert!(cfg.users[0].has_password);
    assert_eq!(cfg.users[0].id, "c1");
    assert_eq!(cfg.active_user_id.as_deref(), Some("c1"));
}

#[test]
fn legacy_fields_are_never_written_back() {
    let cfg = parse(
        r#"{
            "id": "c1", "name": "prod", "brokers": "b:9092",
            "security_protocol": "SASL_SSL",
            "username": "alice", "has_password": true,
            "created_at": "2026-01-01T00:00:00Z"
        }"#,
    );

    assert!(cfg.legacy_username.is_none());
    assert!(!cfg.legacy_has_password);
    assert_eq!(cfg.users[0].username, "alice");
}

#[test]
fn plaintext_cluster_stays_without_users() {
    let cfg = parse(
        r#"{
            "id": "c2", "name": "local", "brokers": "localhost:9092",
            "security_protocol": "PLAINTEXT",
            "created_at": "2026-01-01T00:00:00Z"
        }"#,
    );

    assert!(cfg.users.is_empty());
    assert!(cfg.active_user_id.is_none());
}

#[test]
fn a_record_without_tls_fields_keeps_every_check_on() {
    let cfg = parse(
        r#"{
            "id": "c4", "name": "prod", "brokers": "b:9093",
            "security_protocol": "SASL_SSL",
            "created_at": "2026-01-01T00:00:00Z"
        }"#,
    );

    assert!(!cfg.ssl_skip_hostname_check);
    assert!(!cfg.ssl_skip_certificate_verification);
    assert!(cfg.ssl_certificate_path.is_none());
    assert!(!cfg.has_key_password);
}

#[test]
fn secret_keys_of_one_cluster_never_collide() {
    let cluster = "c1";
    let user = cluster.to_string();
    let registry = SchemaRegistry::secret_key(cluster);
    let key = ClusterConfig::key_password_secret_key(cluster);

    assert_ne!(user, registry);
    assert_ne!(user, key);
    assert_ne!(registry, key);
}

#[test]
fn active_user_pointing_at_a_deleted_login_falls_back_to_the_first() {
    let cfg = parse(
        r#"{
            "id": "c3", "name": "prod", "brokers": "b:9092",
            "security_protocol": "SASL_SSL",
            "created_at": "2026-01-01T00:00:00Z",
            "users": [{"id": "u1", "username": "alice", "has_password": true}],
            "active_user_id": "gone"
        }"#,
    );

    assert_eq!(cfg.active_user_id.as_deref(), Some("u1"));
}

fn cluster(id: &str, users: Vec<ClusterUser>) -> ClusterConfig {
    let mut cfg = parse(
        r#"{
            "id": "x", "name": "n", "brokers": "b:9092", "security_protocol": "PLAINTEXT",
            "created_at": "2026-01-01T00:00:00Z"
        }"#,
    );
    cfg.id = id.to_string();
    cfg.users = users;
    cfg.migrate();
    cfg
}

fn registry(url: &str) -> SchemaRegistry {
    SchemaRegistry {
        url: url.to_string(),
        username: None,
        has_password: false,
        ssl_ca_bundle_path: None,
    }
}

#[test]
fn migrating_twice_is_migrating_once() {
    let mut all = vec![cluster("a", vec![]), cluster("b", vec![user("u", "bob", true)])];
    all[0].legacy_username = Some("alice".to_string());
    all[0].legacy_has_password = true;
    migrate_all(&mut all);
    assert_eq!(all[0].users[0].id, "a");
    assert!(all[0].users[0].has_password);
    let once = format!("{all:?}");
    migrate_all(&mut all);
    assert_eq!(format!("{all:?}"), once);
}

#[test]
fn an_empty_former_login_makes_no_user() {
    let mut cfg = cluster("a", vec![]);
    cfg.legacy_username = Some(String::new());
    cfg.legacy_has_password = true;
    cfg.migrate();
    assert!(cfg.users.is_empty());
    assert!(cfg.active_user_id.is_none());
    assert!(!cfg.legacy_has_password);
}

#[test]
fn a_former_login_does_not_join_a_list_of_users() {
    let mut cfg = cluster("a", vec![user("u1", "bob", false)]);
    cfg.legacy_username = Some("alice".to_string());
    cfg.migrate();
    assert_eq!(cfg.users.len(), 1);
    assert_eq!(cfg.users[0].username, "bob");
}

#[test]
fn a_user_is_found_by_its_id() {
    let cfg = cluster("a", vec![user("u1", "bob", false), user("u2", "eve", true)]);
    assert_eq!(cfg.user("u2").unwrap().username, "eve");
    assert!(cfg.user("u3").is_none());
}

#[test]
fn a_password_is_stored_removed_or_left() {
    assert!(matches!(secret_change(None), SecretChange::Keep));
    assert!(matches!(secret_change(Some(String::new())), SecretChange::Remove));
    assert!(matches!(secret_change(Some("p".into())), SecretChange::Store(p) if p == "p"));
}

fn payload(id: Option<&str>, user_id: Option<&str>) -> ClusterConnectPayload {
    ClusterConnectPayload {
        id: id.map(str::to_string),
        user_id: user_id.map(str::to_string),
        brokers: "b:9092".into(),
        security_protocol: "SASL_SSL".into(),
        sasl_mechanism: None,
        username: None,
        password: None,
        ssl_ca_bundle_path: None,
        ssl_certificate_path: None,
        ssl_key_path: None,
        ssl_key_password: None,
        ssl_skip_hostname_check: false,
        ssl_skip_certificate_verification: false,
    }
}

#[test]
fn secrets_are_looked_up_only_where_they_are_missing() {
    let mut p = payload(Some("c1"), Some("u1"));
    let missing = missing_secrets(&p);
    assert_eq!(missing.password.as_deref(), Some("u1"));
    assert_eq!(missing.key_password, None);

    let missing = missing_secrets(&payload(Some("c1"), None));
    assert_eq!(missing.password.as_deref(), Some("c1"));
    assert_eq!(missing_secrets(&payload(None, None)).password, None);

    p.ssl_key_path = Some("  \t ".into());
    assert_eq!(missing_secrets(&p).key_password, None);
    p.ssl_key_path = Some("/k.pem".into());
    assert_eq!(missing_secrets(&p).key_password.as_deref(), Some("c1:sslkey"));
    p.ssl_key_password = Some("typed".into());
    p.password = Some("typed".into());
    let missing = missing_secrets(&p);
    assert_eq!(missing.password, None);
    assert_eq!(missing.key_password, None);
}

#[test]
fn what_was_typed_is_not_replaced_by_the_keychain() {
    let mut p = payload(Some("c1"), Some("u1"));
    p.ssl_key_path = Some("/k.pem".into());
    p.password = Some(String::new());
    resolve_secrets(&mut p, Some("kept".into()), None);
    assert_eq!(p.password.as_deref(), Some("kept"));
    assert_eq!(p.ssl_key_password, None);

    p.password = Some("typed".into());
    resolve_secrets(&mut p, Some("other".into()), Some("key".into()));
    assert_eq!(p.password.as_deref(), Some("typed"));
    assert_eq!(p.ssl_key_password.as_deref(), Some("key"));
}

#[test]
fn a_used_connection_remembers_who_and_where() {
    let mut all = vec![cluster("a", vec![user("u1", "bob", false), user("u2", "eve", false)])];
    assert!(touch_cluster(&mut all, "a", Some("u2"), Some("kafka-1".into()), "now".into()));
    assert_eq!(all[0].active_user_id.as_deref(), Some("u2"));
    assert_eq!(all[0].kafka_cluster_id.as_deref(), Some("kafka-1"));
    assert_eq!(all[0].last_used.as_deref(), Some("now"));

    // A login that is not on the list, and a cluster that did not name itself.
    assert!(touch_cluster(&mut all, "a", Some("typed"), None, "later".into()));
    assert_eq!(all[0].active_user_id.as_deref(), Some("u2"));
    assert_eq!(all[0].kafka_cluster_id.as_deref(), Some("kafka-1"));
    assert_eq!(all[0].last_used.as_deref(), Some("later"));

    assert!(!touch_cluster(&mut all, "gone", None, None, "never".into()));
    assert_eq!(all[0].last_used.as_deref(), Some("later"));
}

#[test]
fn saving_parameters_keeps_users_and_registry() {
    let mut all = vec![cluster("a", vec![user("u1", "bob", true)])];
    all[0].schema_registry = Some(registry("http://r"));
    all[0].has_key_password = true;

    let mut form = cluster("a", vec![user("stale", "stale", false)]);
    form.name = "renamed".into();
    let saved = save_cluster(&mut all, form, &SecretChange::Keep);
    assert_eq!(saved.name, "renamed");
    assert_eq!(saved.users.len(), 1);
    assert_eq!(saved.users[0].id, "u1");
    assert_eq!(saved.active_user_id.as_deref(), Some("u1"));
    assert_eq!(saved.schema_registry.as_ref().unwrap().url, "http://r");
    assert!(saved.has_key_password);
    assert_eq!(all.len(), 1);
    assert_eq!(all[0].name, "renamed");

    let saved = save_cluster(&mut all, cluster("a", vec![]), &SecretChange::Remove);
    assert!(!saved.has_key_password);
}

#[test]
fn a_former_login_of_the_form_becomes_a_user_only_where_there_is_none() {
    let mut all = vec![cluster("a", vec![])];
    all[0].schema_registry = Some(registry("http://r"));
    let mut form = cluster("a", vec![]);
    form.legacy_username = Some("alice".into());
    let saved = save_cluster(&mut all, form, &SecretChange::Keep);
    assert_eq!(saved.users[0].username, "alice");
    assert_eq!(saved.schema_registry.unwrap().url, "http://r");
}

#[test]
fn a_new_connection_is_added_with_its_own_knowledge_of_the_keychain() {
    let mut all = vec![cluster("a", vec![])];
    let mut form = cluster("b", vec![]);
    form.has_key_password = true;
    assert!(!save_cluster(&mut all, form, &SecretChange::Keep).has_key_password);
    assert_eq!(all.len(), 2);
    let form = cluster("c", vec![]);
    assert!(save_cluster(&mut all, form, &SecretChange::Store("p".into())).has_key_password);
    assert_eq!(all.len(), 3);
    assert!(all[2].has_key_password);
}

#[test]
fn a_deleted_connection_gives_up_all_its_secrets() {
    let mut all = vec![
        cluster("a", vec![]),
        cluster("b", vec![user("u1", "bob", true), user("u2", "eve", false)]),
    ];
    let keys = delete_cluster(&mut all, "b").unwrap();
    assert_eq!(keys, vec!["u1", "u2", "b:sr", "b:sslkey"]);
    assert_eq!(all.len(), 1);
    assert_eq!(all[0].id, "a");
    assert!(delete_cluster(&mut all, "b").is_none());
}

#[test]
fn the_first_user_becomes_the_active_one_and_others_do_not() {
    let mut all = vec![cluster("a", vec![])];
    let change = SecretChange::Store("p".into());
    let saved = save_cluster_user(&mut all, "a", user("u1", "bob", false), &change, false).unwrap();
    assert_eq!(saved.active_user_id.as_deref(), Some("u1"));
    assert!(saved.users[0].has_password);

    let keep = SecretChange::Keep;
    let saved = save_cluster_user(&mut all, "a", user("u2", "eve", true), &keep, false).unwrap();
    assert_eq!(saved.active_user_id.as_deref(), Some("u1"));
    assert!(!saved.users[1].has_password);

    let saved = save_cluster_user(&mut all, "a", user("u1", "rob", false), &keep, false).unwrap();
    assert_eq!(saved.users.len(), 2);
    assert_eq!(saved.users[0].username, "rob");
    assert!(saved.users[0].has_password);

    let saved = save_cluster_user(&mut all, "a", user("u2", "eve", true), &keep, true).unwrap();
    assert_eq!(saved.active_user_id.as_deref(), Some("u2"));
    assert_eq!(all[0].active_user_id.as_deref(), Some("u2"));
}

#[test]
fn deleting_the_active_user_leaves_the_first_of_the_rest() {
    let mut all = vec![cluster("a", vec![user("u1", "bob", true), user("u2", "eve", true)])];
    let left = delete_cluster_user(&mut all, "a", "u1").unwrap();
    assert_eq!(left.users.len(), 1);
    assert_eq!(left.active_user_id.as_deref(), Some("u2"));
    let left = delete_cluster_user(&mut all, "a", "u2").unwrap();
    assert!(left.users.is_empty());
    assert_eq!(left.active_user_id, None);
}

#[test]
fn a_registry_comes_and_goes() {
    let mut all = vec![cluster("a", vec![])];
    let store = SecretChange::Store("p".into());
    let saved = save_schema_registry(&mut all, "a", registry("http://r"), &store).unwrap();
    assert!(saved.schema_registry.unwrap().has_password);
    let keep = SecretChange::Keep;
    let saved = save_schema_registry(&mut all, "a", registry("http://s"), &keep).unwrap();
    assert!(saved.schema_registry.unwrap().has_password);
    let (updated, gone) = delete_schema_registry(&mut all, "a").unwrap();
    assert!(updated.schema_registry.is_none());
    assert_eq!(gone.unwrap().url, "http://s");
    let (_, gone) = delete_schema_registry(&mut all, "a").unwrap();
    assert!(gone.is_none());
}

#[test]
fn an_unknown_connection_is_named_in_the_error() {
    let mut all = vec![cluster("a", vec![])];
    let keep = SecretChange::Keep;
    let wanted = "unknown cluster b";
    assert_eq!(
        save_cluster_user(&mut all, "b", user("u", "u", false), &keep, true).unwrap_err(),
        wanted
    );
    assert_eq!(delete_cluster_user(&mut all, "b", "u").unwrap_err(), wanted);
    assert_eq!(
        save_schema_registry(&mut all, "b", registry("r"), &keep).unwrap_err(),
        wanted
    );
    assert_eq!(delete_schema_registry(&mut all, "b").unwrap_err(), wanted);
}
