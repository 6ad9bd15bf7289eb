//! How a connection to a cluster is configured.
//!
//! Addresses, network and security stand in one place, reading or sending in
//! another: both go over the same connection, and neither can miss its security.

use vstd::prelude::*;

use crate::kafka::types::ClusterConnectPayload;
use crate::strings::{
    blank, chars_of, decimal, is_white, lemma_all_white, lemma_trim_end_shrinks, push_decimal,
    same_text, string_of, trim, trim_end_of, trim_of, trim_start_of,
};

verus! {

/// The SASL mechanisms that this build can do.
pub const SASL_MECHANISMS: [&'static str; 3] = ["PLAIN", "SCRAM-SHA-256", "SCRAM-SHA-512"];

/// The mechanism of a record that names none.
pub const DEFAULT_SASL_MECHANISM: &'static str = "SCRAM-SHA-512";

/// How long the delivery of one message may take, in milliseconds: for the
/// client library and for the wait for its report alike.
pub const PRODUCE_TIMEOUT_MS: u64 = 30_000;

/// The configuration of a client of the library `rdkafka`.
#[verifier::external_type_specification]
#[verifier::external_body]
pub struct ExClientConfig(rdkafka::ClientConfig);

/// The parameters that a configuration holds, by name.
pub uninterp spec fn settings(config: rdkafka::ClientConfig) -> Map<Seq<char>, Seq<char>>;

/// No parameter at all.
pub open spec fn no_settings() -> Map<Seq<char>, Seq<char>> {
    Map::empty()
}

/// `ClientConfig::new` holds no parameter.
pub assume_specification[ rdkafka::ClientConfig::new ]() -> (r: rdkafka::ClientConfig)
    ensures
        settings(r) == no_settings(),
;

/// `ClientConfig::set` gives a parameter a value, in place of the one it had.
#[verifier::external_body]
fn set(config: &mut rdkafka::ClientConfig, name: &str, value: &str)
    ensures
        settings(*final(config)) == settings(*old(config)).insert(name@, value@),
{
    config.set(name, value);
}

/// `ClientConfig::clone` holds the same parameters.
#[verifier::external_body]
fn copy_of(config: &rdkafka::ClientConfig) -> (r: rdkafka::ClientConfig)
    ensures
        settings(r) == settings(*config),
{
    config.clone()
}

// ---------------------------------------------------------------------------
// Text of the form
// ---------------------------------------------------------------------------
/// An ASCII letter in upper case, any other character as it is.
pub open spec fn upper_char(c: char) -> char {
    if 'a' <= c <= 'z' {
        (c as u32 - 32) as char
    } else {
        c
    }
}

/// A text with its ASCII letters in upper case.
pub open spec fn upper_of(s: Seq<char>) -> Seq<char> {
    Seq::new(s.len(), |i: int| upper_char(s[i]))
}

fn to_upper(c: char) -> (r: char)
    ensures
        r == upper_char(c),
{
    if 'a' <= c && c <= 'z' {
        let v: u32 = c as u32 - 32;
        (v as u8) as char
    } else {
        c
    }
}

fn upper(chars: &Vec<char>) -> (r: String)
    ensures
        r@ == upper_of(chars@),
{
    let mut out: Vec<char> = Vec::new();
    let mut i: usize = 0;
    while i < chars.len()
        invariant
            i <= chars@.len(),
            out@ == upper_of(chars@).take(i as int),
        decreases chars@.len() - i,
    {
        out.push(to_upper(chars[i]));
        proof {
            assert(upper_of(chars@).take(i + 1) =~= upper_of(chars@).take(i as int).push(
                upper_char(chars@[i as int]),
            ));
        }
        i += 1;
    }
    proof {
        assert(upper_of(chars@).take(i as int) =~= upper_of(chars@));
    }
    string_of(out.as_slice())
}

/// The value of a field without the white space around it, where there is one.
/// An empty field of a form means the same as no field.
pub open spec fn trimmed_of(value: Option<String>) -> Option<Seq<char>> {
    match value {
        Some(s) => if trim_of(s@).len() > 0 {
            Some(trim_of(s@))
        } else {
            None
        },
        None => None,
    }
}

fn trimmed(value: &Option<String>) -> (r: Option<Vec<char>>)
    ensures
        match (r, trimmed_of(*value)) {
            (Some(a), Some(b)) => a@ == b,
            (None, None) => true,
            _ => false,
        },
{
    match value {
        Some(s) => {
            let chars = chars_of(s.as_str());
            let cut = trim(chars.as_slice());
            if cut.len() > 0 {
                Some(cut)
            } else {
                None
            }
        },
        None => None,
    }
}

// ---------------------------------------------------------------------------
// Security
// ---------------------------------------------------------------------------
pub type Settings = Map<Seq<char>, Seq<char>>;

pub open spec fn supported_mechanisms() -> Seq<char> {
    "PLAIN, SCRAM-SHA-256, SCRAM-SHA-512"@
}

/// The SASL mechanism of a record: the one it names, in upper case, or the
/// default. One that this build cannot do is refused by name.
pub open spec fn mechanism_of(conf: ClusterConnectPayload) -> Result<Seq<char>, Seq<char>> {
    match trimmed_of(conf.sasl_mechanism) {
        None => Ok(DEFAULT_SASL_MECHANISM@),
        Some(named) => {
            let upper = upper_of(named);
            if upper == "PLAIN"@ || upper == "SCRAM-SHA-256"@ || upper == "SCRAM-SHA-512"@ {
                Ok(upper)
            } else {
                Err(
                    "unsupported SASL mechanism \""@ + named + "\": this build supports "@
                        + supported_mechanisms(),
                )
            }
        },
    }
}

fn mechanism(conf: &ClusterConnectPayload) -> (r: Result<String, String>)
    ensures
        match (r, mechanism_of(*conf)) {
            (Ok(a), Ok(b)) => a@ == b,
            (Err(a), Err(b)) => a@ == b,
            _ => false,
        },
{
    let named = match trimmed(&conf.sasl_mechanism) {
        Some(named) => named,
        None => return Ok(DEFAULT_SASL_MECHANISM.to_owned()),
    };
    let upper = upper(&named);
    if same_text(upper.as_str(), "PLAIN") || same_text(upper.as_str(), "SCRAM-SHA-256")
        || same_text(upper.as_str(), "SCRAM-SHA-512") {
        return Ok(upper);
    }
    let named = string_of(named.as_slice());
    let mut message = "unsupported SASL mechanism \"".to_owned();
    message.push_str(named.as_str());
    message.push_str("\": this build supports ");
    message.push_str("PLAIN, SCRAM-SHA-256, SCRAM-SHA-512");
    Err(message)
}

/// A parameter that is set where there is a value for it.
pub open spec fn with_optional(m: Settings, name: Seq<char>, value: Option<String>) -> Settings {
    match value {
        Some(v) => m.insert(name, v@),
        None => m,
    }
}

/// The login. The password is taken as it is: white space is part of it.
pub open spec fn with_credentials(m: Settings, conf: ClusterConnectPayload) -> Settings {
    with_optional(
        with_optional(m, "sasl.username"@, conf.username),
        "sasl.password"@,
        conf.password,
    )
}

fn apply_credentials(config: &mut rdkafka::ClientConfig, conf: &ClusterConnectPayload)
    ensures
        settings(*final(config)) == with_credentials(settings(*old(config)), *conf),
{
    if let Some(user) = &conf.username {
        set(config, "sasl.username", user.as_str());
    }
    if let Some(password) = &conf.password {
        set(config, "sasl.password", password.as_str());
    }
}

/// The password of the client's key, where it is encrypted.
pub open spec fn with_key_password(m: Settings, conf: ClusterConnectPayload) -> Settings {
    match conf.ssl_key_password {
        Some(p) => if p@.len() > 0 {
            m.insert("ssl.key.password"@, p@)
        } else {
            m
        },
        None => m,
    }
}

/// The checks that are given up, on demand only.
pub open spec fn with_checks(m: Settings, conf: ClusterConnectPayload) -> Settings {
    let named = if conf.ssl_skip_hostname_check {
        m.insert("ssl.endpoint.identification.algorithm"@, "none"@)
    } else {
        m
    };
    if conf.ssl_skip_certificate_verification {
        named.insert("enable.ssl.certificate.verification"@, "false"@)
    } else {
        named
    }
}

/// TLS: by what the broker is checked, by what the client shows itself, and
/// which checks are given up. Half of a client's pair is refused.
pub open spec fn with_tls(m: Settings, conf: ClusterConnectPayload) -> Result<Settings, Seq<char>> {
    let trusted = match trimmed_of(conf.ssl_ca_bundle_path) {
        Some(path) => m.insert("ssl.ca.location"@, path),
        None => m,
    };
    match (trimmed_of(conf.ssl_certificate_path), trimmed_of(conf.ssl_key_path)) {
        (Some(certificate), Some(key)) => Ok(
            with_checks(
                with_key_password(
                    trusted.insert("ssl.certificate.location"@, certificate).insert(
                        "ssl.key.location"@,
                        key,
                    ),
                    conf,
                ),
                conf,
            ),
        ),
        (None, None) => Ok(with_checks(trusted, conf)),
        (Some(_), None) => Err(
            "client certificate is set but the private key is missing: mutual TLS needs both"@,
        ),
        (None, Some(_)) => Err(
            "private key is set but the client certificate is missing: mutual TLS needs both"@,
        ),
    }
}

fn apply_tls(config: &mut rdkafka::ClientConfig, conf: &ClusterConnectPayload) -> (r: Result<
    (),
    String,
>)
    ensures
        match (r, with_tls(settings(*old(config)), *conf)) {
            (Ok(_), Ok(m)) => settings(*final(config)) == m,
            (Err(a), Err(b)) => a@ == b,
            _ => false,
        },
{
    if let Some(path) = trimmed(&conf.ssl_ca_bundle_path) {
        let path = string_of(path.as_slice());
        set(config, "ssl.ca.location", path.as_str());
    }
    match (trimmed(&conf.ssl_certificate_path), trimmed(&conf.ssl_key_path)) {
        (Some(certificate), Some(key)) => {
            let certificate = string_of(certificate.as_slice());
            let key = string_of(key.as_slice());
            set(config, "ssl.certificate.location", certificate.as_str());
            set(config, "ssl.key.location", key.as_str());
            if let Some(password) = &conf.ssl_key_password {
                if !password.as_str().is_empty() {
                    set(config, "ssl.key.password", password.as_str());
                }
            }
        },
        (None, None) => {},
        (Some(_), None) => {
            return Err(
                "client certificate is set but the private key is missing: mutual TLS needs both".to_owned(),
            );
        },
        (None, Some(_)) => {
            return Err(
                "private key is set but the client certificate is missing: mutual TLS needs both".to_owned(),
            );
        },
    }
    if conf.ssl_skip_hostname_check {
        set(config, "ssl.endpoint.identification.algorithm", "none");
    }
    if conf.ssl_skip_certificate_verification {
        set(config, "enable.ssl.certificate.verification", "false");
    }
    Ok(())
}

pub open spec fn unknown_protocol(name: Seq<char>) -> Seq<char> {
    "unknown security protocol \""@ + name
        + "\": expected PLAINTEXT, SSL, SASL_PLAINTEXT or SASL_SSL"@
}

/// The protocol that a record names, in upper case and without white space.
pub open spec fn protocol_of(conf: ClusterConnectPayload) -> Seq<char> {
    upper_of(trim_of(conf.security_protocol@))
}

/// The security of a connection. A protocol that is not known is refused:
/// connecting in the open instead would be the worst answer to a typo.
pub open spec fn with_security(m: Settings, conf: ClusterConnectPayload) -> Result<
    Settings,
    Seq<char>,
> {
    let protocol = protocol_of(conf);
    if protocol == "PLAINTEXT"@ {
        Ok(m.insert("security.protocol"@, "plaintext"@))
    } else if protocol == "SSL"@ {
        with_tls(m.insert("security.protocol"@, "ssl"@), conf)
    } else if protocol == "SASL_PLAINTEXT"@ {
        match mechanism_of(conf) {
            Ok(mechanism) => Ok(
                with_credentials(
                    m.insert("security.protocol"@, "sasl_plaintext"@).insert(
                        "sasl.mechanism"@,
                        mechanism,
                    ),
                    conf,
                ),
            ),
            Err(e) => Err(e),
        }
    } else if protocol == "SASL_SSL"@ {
        match mechanism_of(conf) {
            Ok(mechanism) => match with_tls(
                m.insert("security.protocol"@, "sasl_ssl"@).insert("sasl.mechanism"@, mechanism),
                conf,
            ) {
                Ok(secured) => Ok(with_credentials(secured, conf)),
                Err(e) => Err(e),
            },
            Err(e) => Err(e),
        }
    } else {
        Err(unknown_protocol(protocol))
    }
}

fn apply_security(config: &mut rdkafka::ClientConfig, conf: &ClusterConnectPayload) -> (r: Result<
    (),
    String,
>)
    ensures
        match (r, with_security(settings(*old(config)), *conf)) {
            (Ok(_), Ok(m)) => settings(*final(config)) == m,
            (Err(a), Err(b)) => a@ == b,
            _ => false,
        },
{
    let chars = chars_of(conf.security_protocol.as_str());
    let cut = trim(chars.as_slice());
    let protocol = upper(&cut);
    if same_text(protocol.as_str(), "PLAINTEXT") {
        set(config, "security.protocol", "plaintext");
        Ok(())
    } else if same_text(protocol.as_str(), "SSL") {
        set(config, "security.protocol", "ssl");
        apply_tls(config, conf)
    } else if same_text(protocol.as_str(), "SASL_PLAINTEXT") {
        set(config, "security.protocol", "sasl_plaintext");
        match mechanism(conf) {
            Ok(mechanism) => {
                set(config, "sasl.mechanism", mechanism.as_str());
                apply_credentials(config, conf);
                Ok(())
            },
            Err(e) => Err(e),
        }
    } else if same_text(protocol.as_str(), "SASL_SSL") {
        set(config, "security.protocol", "sasl_ssl");
        match mechanism(conf) {
            Ok(mechanism) => {
                set(config, "sasl.mechanism", mechanism.as_str());
                match apply_tls(config, conf) {
                    Ok(_) => {
                        apply_credentials(config, conf);
                        Ok(())
                    },
                    Err(e) => Err(e),
                }
            },
            Err(e) => Err(e),
        }
    } else {
        let mut message = "unknown security protocol \"".to_owned();
        message.push_str(protocol.as_str());
        message.push_str("\": expected PLAINTEXT, SSL, SASL_PLAINTEXT or SASL_SSL");
        Err(message)
    }
}

// ---------------------------------------------------------------------------
// Connections
// ---------------------------------------------------------------------------
/// Addresses and network.
pub open spec fn network(conf: ClusterConnectPayload) -> Settings {
    no_settings().insert("bootstrap.servers"@, conf.brokers@).insert(
        "client.id"@,
        "mikui"@,
    ).insert("metadata.max.age.ms"@, "300000"@).insert("socket.timeout.ms"@, "30000"@).insert(
        "socket.nagle.disable"@,
        "true"@,
    ).insert("connections.max.idle.ms"@, "540000"@).insert("reconnect.backoff.ms"@, "300"@).insert(
        "reconnect.backoff.max.ms"@,
        "10000"@,
    )
}

/// Addresses, network and security of a connection.
///
/// There is no `group.id`: with one the client would look for the coordinator of
/// a group, which takes rights that a viewer does not have.
pub fn base_config(conf: &ClusterConnectPayload) -> (r: Result<rdkafka::ClientConfig, String>)
    ensures
        match (r, with_security(network(*conf), *conf)) {
            (Ok(config), Ok(m)) => settings(config) == m,
            (Err(a), Err(b)) => a@ == b,
            _ => false,
        },
{
    let mut config = rdkafka::ClientConfig::new();
    set(&mut config, "bootstrap.servers", conf.brokers.as_str());
    set(&mut config, "client.id", "mikui");
    set(&mut config, "metadata.max.age.ms", "300000");
    // Three times the window of a broker's quota: a shorter wait would drop
    // answers that are merely held back, and ask for them again.
    set(&mut config, "socket.timeout.ms", "30000");
    set(&mut config, "socket.nagle.disable", "true");
    // A little less than the default of a broker, to be the one that closes.
    set(&mut config, "connections.max.idle.ms", "540000");
    set(&mut config, "reconnect.backoff.ms", "300");
    set(&mut config, "reconnect.backoff.max.ms", "10000");
    match apply_security(&mut config, conf) {
        Ok(_) => Ok(config),
        Err(e) => Err(e),
    }
}

/// What reading adds to a connection.
pub open spec fn for_reading(m: Settings) -> Settings {
    m.insert("fetch.min.bytes"@, "1"@).insert("fetch.wait.max.ms"@, "500"@).insert(
        "fetch.max.bytes"@,
        "10485760"@,
    ).insert("fetch.message.max.bytes"@, "262144"@).insert("queued.min.messages"@, "100"@).insert(
        "queued.max.messages.kbytes"@,
        "16384"@,
    ).insert("allow.auto.create.topics"@, "false"@).insert("enable.partition.eof"@, "true"@).insert(
        "auto.offset.reset"@,
        "earliest"@,
    )
}

/// Reading over a connection that is already configured.
pub fn consumer_config(base: &rdkafka::ClientConfig) -> (r: rdkafka::ClientConfig)
    ensures
        settings(r) == for_reading(settings(*base)),
{
    let mut config = copy_of(base);
    set(&mut config, "fetch.min.bytes", "1");
    set(&mut config, "fetch.wait.max.ms", "500");
    set(&mut config, "fetch.max.bytes", "10485760");
    // Reading goes by windows: what a broker sends beyond one is paid for and
    // thrown away.
    set(&mut config, "fetch.message.max.bytes", "262144");
    set(&mut config, "queued.min.messages", "100");
    set(&mut config, "queued.max.messages.kbytes", "16384");
    // A viewer has no business creating topics.
    set(&mut config, "allow.auto.create.topics", "false");
    set(&mut config, "enable.partition.eof", "true");
    // An offset that retention has overtaken falls back to what is left, not to
    // the end of the partition.
    set(&mut config, "auto.offset.reset", "earliest");
    config
}

/// What sending adds to a connection.
pub open spec fn for_sending(m: Settings) -> Settings {
    m.insert("partitioner"@, "murmur2_random"@).insert("acks"@, "all"@).insert(
        "message.timeout.ms"@,
        decimal(PRODUCE_TIMEOUT_MS as nat),
    ).insert("linger.ms"@, "0"@)
}

/// Sending over a connection that is already configured.
pub fn producer_config(base: &rdkafka::ClientConfig) -> (r: rdkafka::ClientConfig)
    ensures
        settings(r) == for_sending(settings(*base)),
{
    let mut config = copy_of(base);
    // The hash of keys that the usual producers use: a message sent by hand has
    // to land where theirs do.
    set(&mut config, "partitioner", "murmur2_random");
    set(&mut config, "acks", "all");
    let mut timeout = String::new();
    push_decimal(&mut timeout, PRODUCE_TIMEOUT_MS);
    proof {
        assert(timeout@ =~= decimal(PRODUCE_TIMEOUT_MS as nat));
    }
    set(&mut config, "message.timeout.ms", timeout.as_str());
    set(&mut config, "linger.ms", "0");
    config
}

// ---------------------------------------------------------------------------
// Laws
// ---------------------------------------------------------------------------
/// A parameter that carries a login.
pub open spec fn is_login(name: Seq<char>) -> bool {
    name.len() > 4 && name[0] == 's' && name[1] == 'a' && name[2] == 's' && name[3] == 'l'
}

/// A parameter that concerns TLS.
pub open spec fn is_tls(name: Seq<char>) -> bool {
    ||| name.len() > 3 && name[0] == 's' && name[1] == 's' && name[2] == 'l'
    ||| name.len() > 10 && name[0] == 'e' && name[6] == '.' && name[7] == 's' && name[8] == 's'
        && name[9] == 'l'
}

/// A parameter that concerns security.
pub open spec fn is_secure(name: Seq<char>) -> bool {
    is_login(name) || is_tls(name) || name == "security.protocol"@
}

proof fn lemma_network_is_open(conf: ClusterConnectPayload)
    ensures
        forall|name: Seq<char>| is_secure(name) ==> !#[trigger] network(conf).dom().contains(name),
{
    reveal_strlit("bootstrap.servers");
    reveal_strlit("client.id");
    reveal_strlit("metadata.max.age.ms");
    reveal_strlit("socket.timeout.ms");
    reveal_strlit("socket.nagle.disable");
    reveal_strlit("connections.max.idle.ms");
    reveal_strlit("reconnect.backoff.ms");
    reveal_strlit("reconnect.backoff.max.ms");
    reveal_strlit("security.protocol");
}

/// An open connection carries neither a login nor anything of TLS, whatever the
/// record holds.
pub proof fn law_plaintext_carries_no_secret(conf: ClusterConnectPayload, name: Seq<char>)
    requires
        protocol_of(conf) == "PLAINTEXT"@,
        is_login(name) || is_tls(name),
    ensures
        with_security(network(conf), conf) matches Ok(m) && !m.dom().contains(name),
{
    lemma_network_is_open(conf);
    reveal_strlit("security.protocol");
    assert(!network(conf).dom().contains(name));
}

/// TLS alone sends no login.
pub proof fn law_tls_alone_sends_no_login(conf: ClusterConnectPayload, name: Seq<char>)
    requires
        protocol_of(conf) == "SSL"@,
        is_login(name),
    ensures
        with_security(network(conf), conf) matches Ok(m) ==> !m.dom().contains(name),
{
    lemma_network_is_open(conf);
    assert(!network(conf).dom().contains(name));
    reveal_strlit("PLAINTEXT");
    reveal_strlit("SSL");
    lemma_tls_names();
}

/// A login without TLS applies nothing of TLS.
pub proof fn law_login_alone_applies_no_tls(conf: ClusterConnectPayload, name: Seq<char>)
    requires
        protocol_of(conf) == "SASL_PLAINTEXT"@,
        is_tls(name),
    ensures
        with_security(network(conf), conf) matches Ok(m) ==> !m.dom().contains(name),
{
    lemma_network_is_open(conf);
    assert(!network(conf).dom().contains(name));
    reveal_strlit("PLAINTEXT");
    reveal_strlit("SSL");
    reveal_strlit("SASL_PLAINTEXT");
    reveal_strlit("security.protocol");
    lemma_login_names();
    assert(!is_tls("security.protocol"@));
    assert("SASL_PLAINTEXT"@.len() == 14 && "PLAINTEXT"@.len() == 9 && "SSL"@.len() == 3);
}

proof fn lemma_tls_names()
    ensures
        !is_login("security.protocol"@),
        is_tls("ssl.ca.location"@) && !is_login("ssl.ca.location"@),
        is_tls("ssl.certificate.location"@) && !is_login("ssl.certificate.location"@),
        is_tls("ssl.key.location"@) && !is_login("ssl.key.location"@),
        is_tls("ssl.key.password"@) && !is_login("ssl.key.password"@),
        is_tls("ssl.endpoint.identification.algorithm"@) && !is_login(
            "ssl.endpoint.identification.algorithm"@,
        ),
        is_tls("enable.ssl.certificate.verification"@) && !is_login(
            "enable.ssl.certificate.verification"@,
        ),
{
    reveal_strlit("security.protocol");
    reveal_strlit("ssl.ca.location");
    reveal_strlit("ssl.certificate.location");
    reveal_strlit("ssl.key.location");
    reveal_strlit("ssl.key.password");
    reveal_strlit("ssl.endpoint.identification.algorithm");
    reveal_strlit("enable.ssl.certificate.verification");
}

proof fn lemma_login_names()
    ensures
        is_login("sasl.mechanism"@) && !is_tls("sasl.mechanism"@),
        is_login("sasl.username"@) && !is_tls("sasl.username"@),
        is_login("sasl.password"@) && !is_tls("sasl.password"@),
{
    reveal_strlit("sasl.mechanism");
    reveal_strlit("sasl.username");
    reveal_strlit("sasl.password");
}

/// The checks of TLS are on unless they are switched off: a configuration that
/// says nothing of them checks.
pub proof fn law_checks_are_on_unless_switched_off(conf: ClusterConnectPayload)
    ensures
        with_security(network(conf), conf) matches Ok(m) ==> {
            &&& !conf.ssl_skip_hostname_check ==> !m.dom().contains(
                "ssl.endpoint.identification.algorithm"@,
            )
            &&& !conf.ssl_skip_certificate_verification ==> !m.dom().contains(
                "enable.ssl.certificate.verification"@,
            )
        },
{
    lemma_network_is_open(conf);
    lemma_tls_names();
    lemma_login_names();
    assert(!network(conf).dom().contains("ssl.endpoint.identification.algorithm"@));
    assert(!network(conf).dom().contains("enable.ssl.certificate.verification"@));
    reveal_strlit("security.protocol");
    reveal_strlit("ssl.ca.location");
    reveal_strlit("ssl.certificate.location");
    reveal_strlit("ssl.key.location");
    reveal_strlit("ssl.key.password");
    reveal_strlit("ssl.endpoint.identification.algorithm");
    reveal_strlit("enable.ssl.certificate.verification");
}

/// Reading and sending inherit the security of the connection, all of it.
pub proof fn law_security_is_inherited(base: Settings, name: Seq<char>)
    requires
        is_secure(name),
    ensures
        for_reading(base).dom().contains(name) == base.dom().contains(name),
        base.dom().contains(name) ==> for_reading(base)[name] == base[name],
        for_sending(base).dom().contains(name) == base.dom().contains(name),
        base.dom().contains(name) ==> for_sending(base)[name] == base[name],
{
    reveal_strlit("security.protocol");
    assert("security.protocol"@[0] == 's');
    reveal_strlit("fetch.min.bytes");
    reveal_strlit("fetch.wait.max.ms");
    reveal_strlit("fetch.max.bytes");
    reveal_strlit("fetch.message.max.bytes");
    reveal_strlit("queued.min.messages");
    reveal_strlit("queued.max.messages.kbytes");
    reveal_strlit("allow.auto.create.topics");
    reveal_strlit("enable.partition.eof");
    reveal_strlit("auto.offset.reset");
    reveal_strlit("partitioner");
    reveal_strlit("acks");
    reveal_strlit("message.timeout.ms");
    reveal_strlit("linger.ms");
    assert("fetch.min.bytes"@[0] == 'f' && !is_secure("fetch.min.bytes"@));
    assert("fetch.wait.max.ms"@[0] == 'f' && !is_secure("fetch.wait.max.ms"@));
    assert("fetch.max.bytes"@[0] == 'f' && !is_secure("fetch.max.bytes"@));
    assert("fetch.message.max.bytes"@[0] == 'f' && !is_secure("fetch.message.max.bytes"@));
    assert("queued.min.messages"@[0] == 'q' && !is_secure("queued.min.messages"@));
    assert("queued.max.messages.kbytes"@[0] == 'q' && !is_secure("queued.max.messages.kbytes"@));
    assert("allow.auto.create.topics"@[0] == 'a' && !is_secure("allow.auto.create.topics"@));
    assert("enable.partition.eof"@[7] == 'p' && !is_secure("enable.partition.eof"@));
    assert("auto.offset.reset"@[0] == 'a' && !is_secure("auto.offset.reset"@));
    assert("partitioner"@[0] == 'p' && !is_secure("partitioner"@));
    assert("acks"@[0] == 'a' && !is_secure("acks"@));
    assert("message.timeout.ms"@[0] == 'm' && !is_secure("message.timeout.ms"@));
    assert("linger.ms"@[0] == 'l' && !is_secure("linger.ms"@));
}

/// No other mechanism than the three that this build can do is ever set.
pub proof fn law_mechanism_is_one_of_three(conf: ClusterConnectPayload)
    ensures
        mechanism_of(conf) matches Ok(m) ==> m == "PLAIN"@ || m == "SCRAM-SHA-256"@ || m
            == "SCRAM-SHA-512"@,
{
}

/// A text is a word with nothing but blanks, tabs and line breaks around it.
pub open spec fn wrapped(text: Seq<char>, lead: Seq<char>, word: Seq<char>, trail: Seq<char>) -> bool {
    &&& text == lead + word + trail
    &&& forall|k: int|
        0 <= k < lead.len() ==> #[trigger] lead[k] == ' ' || lead[k] == '\t' || lead[k] == '\n'
    &&& forall|k: int|
        0 <= k < trail.len() ==> #[trigger] trail[k] == ' ' || trail[k] == '\t' || trail[k] == '\n'
}

/// A word spells a name, in capital letters or in small ones.
pub open spec fn spells(word: Seq<char>, name: Seq<char>) -> bool {
    &&& word.len() == name.len()
    &&& forall|k: int|
        0 <= k < name.len() ==> #[trigger] word[k] == name[k] || ('A' <= name[k] <= 'Z' && word[k]
            as u32 == name[k] as u32 + 32)
}

/// No small letter stands in a name, and no white space.
spec fn in_capitals(name: Seq<char>) -> bool {
    &&& name.len() > 0
    &&& forall|k: int| 0 <= k < name.len() ==> '!' <= #[trigger] name[k] <= '_'
}

proof fn lemma_trim_start_of_led(lead: Seq<char>, rest: Seq<char>)
    requires
        blank(lead),
        rest.len() > 0,
        !is_white(rest[0]),
    ensures
        trim_start_of(lead + rest) == rest,
    decreases lead.len(),
{
    if lead.len() == 0 {
        assert(lead + rest =~= rest);
    } else {
        assert(is_white(lead[0]));
        assert((lead + rest).drop_first() =~= lead.drop_first() + rest);
        lemma_trim_start_of_led(lead.drop_first(), rest);
    }
}

proof fn lemma_trim_end_of_trailed(front: Seq<char>, trail: Seq<char>)
    requires
        blank(trail),
        front.len() > 0,
        !is_white(front.last()),
    ensures
        trim_end_of(front + trail) == front,
    decreases trail.len(),
{
    if trail.len() == 0 {
        assert(front + trail =~= front);
    } else {
        assert(is_white(trail[trail.len() - 1]));
        assert((front + trail).drop_last() =~= front + trail.drop_last());
        assert forall|i: int| 0 <= i < trail.drop_last().len() implies is_white(
            #[trigger] trail.drop_last()[i],
        ) by {
            assert(is_white(trail[i]));
        }
        lemma_trim_end_of_trailed(front, trail.drop_last());
    }
}

proof fn lemma_wrapped(
    text: Seq<char>,
    lead: Seq<char>,
    word: Seq<char>,
    trail: Seq<char>,
    name: Seq<char>,
)
    requires
        wrapped(text, lead, word, trail),
        spells(word, name),
        in_capitals(name),
    ensures
        trim_of(text) == word,
        upper_of(word) == name,
{
    assert forall|i: int| 0 <= i < lead.len() implies is_white(#[trigger] lead[i]) by {}
    assert forall|i: int| 0 <= i < trail.len() implies is_white(#[trigger] trail[i]) by {}
    assert(word[0] == name[0] || ('A' <= name[0] <= 'Z' && word[0] as u32 == name[0] as u32 + 32));
    let n = word.len() - 1;
    assert(word[n] == name[n] || ('A' <= name[n] <= 'Z' && word[n] as u32 == name[n] as u32 + 32));
    assert('!' <= name[0] <= '_' && '!' <= name[n] <= '_');
    assert(text =~= lead + (word + trail));
    lemma_trim_start_of_led(lead, word + trail);
    lemma_trim_end_of_trailed(word, trail);
    assert forall|k: int| 0 <= k < name.len() implies upper_char(word[k]) == #[trigger] name[k] by {
        assert(word[k] == name[k] || ('A' <= name[k] <= 'Z' && word[k] as u32 == name[k] as u32
            + 32));
        assert('!' <= name[k] <= '_');
    }
    assert(upper_of(word) =~= name);
}

proof fn lemma_blank_trims(s: Seq<char>)
    requires
        blank(s),
    ensures
        trim_of(s).len() == 0,
{
    lemma_all_white(s);
    lemma_trim_end_shrinks(trim_start_of(s));
}

proof fn lemma_names_in_capitals()
    ensures
        in_capitals("PLAIN"@) && in_capitals("SCRAM-SHA-256"@) && in_capitals("SCRAM-SHA-512"@),
        in_capitals("PLAINTEXT"@) && in_capitals("SSL"@) && in_capitals("SASL_PLAINTEXT"@)
            && in_capitals("SASL_SSL"@),
        "PLAINTEXT"@.len() == 9 && "SSL"@.len() == 3 && "SASL_PLAINTEXT"@.len() == 14
            && "SASL_SSL"@.len() == 8,
        "PLAIN"@.len() == 5 && "SCRAM-SHA-256"@.len() == 13 && "SCRAM-SHA-512"@.len() == 13,
        "SCRAM-SHA-256"@ != "SCRAM-SHA-512"@,
{
    reveal_strlit("PLAIN");
    reveal_strlit("SCRAM-SHA-256");
    reveal_strlit("SCRAM-SHA-512");
    reveal_strlit("PLAINTEXT");
    reveal_strlit("SSL");
    reveal_strlit("SASL_PLAINTEXT");
    reveal_strlit("SASL_SSL");
    assert("SCRAM-SHA-256"@[10] == '2' && "SCRAM-SHA-512"@[10] == '5');
}

/// A record names one of the four protocols: in either case, with white space
/// around it or without.
pub open spec fn names_protocol(conf: ClusterConnectPayload, name: Seq<char>) -> bool {
    exists|lead: Seq<char>, word: Seq<char>, trail: Seq<char>|
        #[trigger] wrapped(conf.security_protocol@, lead, word, trail) && spells(word, name)
}

proof fn lemma_names_protocol(conf: ClusterConnectPayload, name: Seq<char>)
    requires
        names_protocol(conf, name),
        in_capitals(name),
    ensures
        protocol_of(conf) == name,
{
    let (lead, word, trail) = choose|lead: Seq<char>, word: Seq<char>, trail: Seq<char>|
        #[trigger] wrapped(conf.security_protocol@, lead, word, trail) && spells(word, name);
    lemma_wrapped(conf.security_protocol@, lead, word, trail, name);
}

/// A record names a mechanism, in the same way.
pub open spec fn names_mechanism(conf: ClusterConnectPayload, name: Seq<char>) -> bool {
    conf.sasl_mechanism is Some && exists|lead: Seq<char>, word: Seq<char>, trail: Seq<char>|
        #[trigger] wrapped(conf.sasl_mechanism->0@, lead, word, trail) && spells(word, name)
}

/// The mechanism that a record wants: the one it names, and SCRAM-SHA-512 only
/// where the field is missing or holds nothing but white space.
pub open spec fn wants_mechanism(conf: ClusterConnectPayload, name: Seq<char>) -> bool {
    ||| (name == "PLAIN"@ || name == "SCRAM-SHA-256"@ || name == "SCRAM-SHA-512"@)
        && names_mechanism(conf, name)
    ||| name == "SCRAM-SHA-512"@ && (conf.sasl_mechanism is None || forall|k: int|
        0 <= k < conf.sasl_mechanism->0@.len() ==> #[trigger] conf.sasl_mechanism->0@[k] == ' ')
}

proof fn lemma_wants_mechanism(conf: ClusterConnectPayload, name: Seq<char>)
    requires
        wants_mechanism(conf, name),
    ensures
        mechanism_of(conf) == Ok::<Seq<char>, Seq<char>>(name),
{
    lemma_names_in_capitals();
    if names_mechanism(conf, name) && (name == "PLAIN"@ || name == "SCRAM-SHA-256"@ || name
        == "SCRAM-SHA-512"@) {
        let (lead, word, trail) = choose|lead: Seq<char>, word: Seq<char>, trail: Seq<char>|
            #[trigger] wrapped(conf.sasl_mechanism->0@, lead, word, trail) && spells(word, name);
        lemma_wrapped(conf.sasl_mechanism->0@, lead, word, trail, name);
    } else if conf.sasl_mechanism is Some {
        let s = conf.sasl_mechanism->0@;
        assert forall|i: int| 0 <= i < s.len() implies is_white(#[trigger] s[i]) by {
            assert(conf.sasl_mechanism->0@[i] == ' ');
        }
        lemma_blank_trims(s);
    }
}

/// The value of a parameter, where it is set.
pub open spec fn value_of(m: Settings, name: Seq<char>) -> Option<Seq<char>> {
    if m.dom().contains(name) {
        Some(m[name])
    } else {
        None
    }
}

pub open spec fn view_of(s: Option<String>) -> Option<Seq<char>> {
    match s {
        Some(s) => Some(s@),
        None => None,
    }
}

proof fn lemma_parameters_differ()
    ensures
        "security.protocol"@.len() == 17,
        "sasl.mechanism"@.len() == 14,
        "sasl.username"@.len() == 13,
        "sasl.password"@.len() == 13,
        "sasl.username"@ != "sasl.password"@,
        "ssl.ca.location"@.len() == 15,
        "ssl.certificate.location"@.len() == 24,
        "ssl.key.location"@.len() == 16,
        "ssl.key.password"@.len() == 16,
        "ssl.key.location"@ != "ssl.key.password"@,
        "ssl.endpoint.identification.algorithm"@.len() == 37,
        "enable.ssl.certificate.verification"@.len() == 35,
{
    reveal_strlit("security.protocol");
    reveal_strlit("sasl.mechanism");
    reveal_strlit("sasl.username");
    reveal_strlit("sasl.password");
    assert("sasl.username"@[5] == 'u' && "sasl.password"@[5] == 'p');
    reveal_strlit("ssl.ca.location");
    reveal_strlit("ssl.certificate.location");
    reveal_strlit("ssl.key.location");
    reveal_strlit("ssl.key.password");
    assert("ssl.key.location"@[8] == 'l' && "ssl.key.password"@[8] == 'p');
    reveal_strlit("ssl.endpoint.identification.algorithm");
    reveal_strlit("enable.ssl.certificate.verification");
}

/// A connection with a login, over TLS or not, uses the mechanism that the
/// record wants, and the name and the password exactly as they were given.
pub proof fn law_login_is_the_one_of_the_record(
    conf: ClusterConnectPayload,
    wanted: Seq<char>,
    m: Settings,
)
    requires
        names_protocol(conf, "SASL_PLAINTEXT"@) || names_protocol(conf, "SASL_SSL"@),
        wants_mechanism(conf, wanted),
        with_security(network(conf), conf) == Ok::<Settings, Seq<char>>(m),
    ensures
        value_of(m, "sasl.mechanism"@) == Some(wanted),
        value_of(m, "sasl.username"@) == view_of(conf.username),
        value_of(m, "sasl.password"@) == view_of(conf.password),
        value_of(m, "security.protocol"@) == Some(
            if names_protocol(conf, "SASL_SSL"@) {
                "sasl_ssl"@
            } else {
                "sasl_plaintext"@
            },
        ),
{
    lemma_names_in_capitals();
    lemma_parameters_differ();
    lemma_login_names();
    lemma_network_is_open(conf);
    lemma_wants_mechanism(conf, wanted);
    assert(!network(conf).dom().contains("sasl.username"@));
    assert(!network(conf).dom().contains("sasl.password"@));
    if names_protocol(conf, "SASL_SSL"@) {
        lemma_names_protocol(conf, "SASL_SSL"@);
    } else {
        lemma_names_protocol(conf, "SASL_PLAINTEXT"@);
    }
}

/// A login is refused only for a mechanism that this build cannot do, or for half
/// of a client's pair: without TLS the first alone.
pub proof fn law_wanted_login_is_never_refused(conf: ClusterConnectPayload, wanted: Seq<char>)
    requires
        wants_mechanism(conf, wanted),
        names_protocol(conf, "SASL_PLAINTEXT"@) || (names_protocol(conf, "SASL_SSL"@) && (
        conf.ssl_certificate_path is None <==> conf.ssl_key_path is None) && (
        conf.ssl_certificate_path is Some ==> !blank(conf.ssl_certificate_path->0@) && !blank(
            conf.ssl_key_path->0@,
        ))),
    ensures
        with_security(network(conf), conf) is Ok,
{
    lemma_names_in_capitals();
    lemma_wants_mechanism(conf, wanted);
    if names_protocol(conf, "SASL_PLAINTEXT"@) {
        lemma_names_protocol(conf, "SASL_PLAINTEXT"@);
    } else {
        lemma_names_protocol(conf, "SASL_SSL"@);
        if conf.ssl_certificate_path is Some {
            lemma_not_blank_trims(conf.ssl_certificate_path->0@);
            lemma_not_blank_trims(conf.ssl_key_path->0@);
        }
    }
}

proof fn lemma_not_blank_trims(s: Seq<char>)
    requires
        !blank(s),
    ensures
        trim_of(s).len() > 0,
{
    lemma_all_white(s);
    let t = trim_start_of(s);
    lemma_trim_start_is_suffix(s);
    lemma_trim_end_keeps_first(t);
}

proof fn lemma_trim_start_is_suffix(s: Seq<char>)
    ensures
        trim_start_of(s).len() > 0 ==> !is_white(trim_start_of(s)[0]),
    decreases s.len(),
{
    if s.len() > 0 && is_white(s[0]) {
        lemma_trim_start_is_suffix(s.drop_first());
    }
}

proof fn lemma_trim_end_keeps_first(s: Seq<char>)
    requires
        s.len() > 0,
        !is_white(s[0]),
    ensures
        trim_end_of(s).len() > 0,
    decreases s.len(),
{
    if is_white(s.last()) {
        assert(s.len() > 1);
        lemma_trim_end_keeps_first(s.drop_last());
    }
}

/// A path as a form gives it: a text without white space at its ends, with blanks,
/// tabs and line breaks around it.
pub open spec fn gives_path(field: Option<String>, path: Seq<char>) -> bool {
    &&& path.len() > 0
    &&& !is_white(path[0])
    &&& !is_white(path.last())
    &&& field is Some
    &&& exists|lead: Seq<char>, trail: Seq<char>| #[trigger] wrapped(field->0@, lead, path, trail)
}

proof fn lemma_gives_path(field: Option<String>, path: Seq<char>)
    requires
        gives_path(field, path),
    ensures
        trimmed_of(field) == Some(path),
{
    let (lead, trail) = choose|lead: Seq<char>, trail: Seq<char>| #[trigger]
        wrapped(field->0@, lead, path, trail);
    assert forall|i: int| 0 <= i < lead.len() implies is_white(#[trigger] lead[i]) by {}
    assert forall|i: int| 0 <= i < trail.len() implies is_white(#[trigger] trail[i]) by {}
    assert(field->0@ =~= lead + (path + trail));
    lemma_trim_start_of_led(lead, path + trail);
    lemma_trim_end_of_trailed(path, trail);
}

/// Over TLS the broker is checked against the CA that the record names, and
/// against the names of its own where it names none. Each check is given up where
/// the record says so, and only there.
pub proof fn law_tls_checks_by_the_record(
    conf: ClusterConnectPayload,
    ca: Option<Seq<char>>,
    m: Settings,
)
    requires
        names_protocol(conf, "SSL"@) || names_protocol(conf, "SASL_SSL"@),
        match ca {
            Some(path) => gives_path(conf.ssl_ca_bundle_path, path),
            None => conf.ssl_ca_bundle_path is None,
        },
        with_security(network(conf), conf) == Ok::<Settings, Seq<char>>(m),
    ensures
        value_of(m, "ssl.ca.location"@) == ca,
        value_of(m, "ssl.endpoint.identification.algorithm"@) == (if conf.ssl_skip_hostname_check {
            Some("none"@)
        } else {
            None
        }),
        value_of(m, "enable.ssl.certificate.verification"@) == (
        if conf.ssl_skip_certificate_verification {
            Some("false"@)
        } else {
            None
        }),
        names_protocol(conf, "SSL"@) ==> value_of(m, "security.protocol"@) == Some("ssl"@),
{
    lemma_names_in_capitals();
    lemma_parameters_differ();
    lemma_tls_names();
    lemma_login_names();
    lemma_network_is_open(conf);
    assert(!network(conf).dom().contains("ssl.ca.location"@));
    assert(!network(conf).dom().contains("ssl.endpoint.identification.algorithm"@));
    assert(!network(conf).dom().contains("enable.ssl.certificate.verification"@));
    if ca is Some {
        lemma_gives_path(conf.ssl_ca_bundle_path, ca->0);
    }
    if names_protocol(conf, "SSL"@) {
        lemma_names_protocol(conf, "SSL"@);
    } else {
        lemma_names_protocol(conf, "SASL_SSL"@);
    }
}

/// Over TLS a client shows the certificate and the key that the record names, and
/// opens the key with the password of the record, where it gives one. A record
/// that names neither shows nothing; one that names half is refused.
pub proof fn law_client_shows_the_pair_of_the_record(
    conf: ClusterConnectPayload,
    certificate: Option<Seq<char>>,
    key: Option<Seq<char>>,
)
    requires
        names_protocol(conf, "SSL"@),
        match certificate {
            Some(path) => gives_path(conf.ssl_certificate_path, path),
            None => conf.ssl_certificate_path is None,
        },
        match key {
            Some(path) => gives_path(conf.ssl_key_path, path),
            None => conf.ssl_key_path is None,
        },
    ensures
        with_security(network(conf), conf) is Ok <==> (certificate is Some <==> key is Some),
        with_security(network(conf), conf) matches Ok(m) ==> {
            &&& value_of(m, "ssl.certificate.location"@) == certificate
            &&& value_of(m, "ssl.key.location"@) == key
            &&& value_of(m, "ssl.key.password"@) == (if key is Some && conf.ssl_key_password is Some
                && conf.ssl_key_password->0@.len() > 0 {
                Some(conf.ssl_key_password->0@)
            } else {
                None
            })
        },
{
    lemma_names_in_capitals();
    lemma_parameters_differ();
    lemma_tls_names();
    lemma_network_is_open(conf);
    assert(!network(conf).dom().contains("ssl.certificate.location"@));
    assert(!network(conf).dom().contains("ssl.key.location"@));
    assert(!network(conf).dom().contains("ssl.key.password"@));
    lemma_names_protocol(conf, "SSL"@);
    if certificate is Some {
        lemma_gives_path(conf.ssl_certificate_path, certificate->0);
    }
    if key is Some {
        lemma_gives_path(conf.ssl_key_path, key->0);
    }
}

/// A login changes nothing in TLS: with one and without one, a record is checked
/// and shows itself in the same way.
pub proof fn law_tls_is_the_same_with_a_login(
    login: ClusterConnectPayload,
    plain: ClusterConnectPayload,
    name: Seq<char>,
    with_login: Settings,
)
    requires
        names_protocol(login, "SASL_SSL"@),
        names_protocol(plain, "SSL"@),
        plain == (ClusterConnectPayload { security_protocol: plain.security_protocol, ..login }),
        is_tls(name),
        with_security(network(login), login) == Ok::<Settings, Seq<char>>(with_login),
    ensures
        with_security(network(plain), plain) matches Ok(without) && value_of(without, name)
            == value_of(with_login, name),
{
    lemma_names_in_capitals();
    lemma_names_protocol(login, "SASL_SSL"@);
    lemma_names_protocol(plain, "SSL"@);
    lemma_login_names();
    lemma_parameters_differ();
    reveal_strlit("security.protocol");
    assert("security.protocol"@[1] == 'e');
    assert(!is_tls("security.protocol"@));
}

/// A protocol that is none of the four is refused, and never connects.
pub proof fn law_unknown_protocol_is_refused(conf: ClusterConnectPayload)
    requires
        conf.security_protocol@.len() < 3 || conf.security_protocol@.len() > 14 && (forall|k: int|
            0 <= k < conf.security_protocol@.len() ==> 'A' <= #[trigger] conf.security_protocol@[k]
                <= '_'),
    ensures
        with_security(network(conf), conf) is Err,
{
    lemma_names_in_capitals();
    let s = conf.security_protocol@;
    lemma_trim_shrinks(s);
    if s.len() > 14 {
        assert(s[0] <= '_');
        assert('A' <= s[0] && 'A' <= s[s.len() - 1]);
        assert(trim_of(s) == s);
    }
}

proof fn lemma_trim_shrinks(s: Seq<char>)
    ensures
        trim_of(s).len() <= s.len(),
    decreases s.len(),
{
    lemma_trim_end_shrinks(trim_start_of(s));
    if s.len() > 0 && is_white(s[0]) {
        lemma_trim_shrinks(s.drop_first());
        lemma_trim_start_shrinks(s);
    }
}

proof fn lemma_trim_start_shrinks(s: Seq<char>)
    ensures
        trim_start_of(s).len() <= s.len(),
    decreases s.len(),
{
    if s.len() > 0 && is_white(s[0]) {
        lemma_trim_start_shrinks(s.drop_first());
    }
}

/// Every connection goes to the brokers of its record.
pub proof fn law_connects_to_the_brokers_of_the_record(conf: ClusterConnectPayload, m: Settings)
    requires
        with_security(network(conf), conf) == Ok::<Settings, Seq<char>>(m),
    ensures
        value_of(m, "bootstrap.servers"@) == Some(conf.brokers@),
        value_of(for_reading(m), "bootstrap.servers"@) == Some(conf.brokers@),
        value_of(for_sending(m), "bootstrap.servers"@) == Some(conf.brokers@),
        value_of(for_reading(m), "group.id"@) is None,
{
    reveal_strlit("bootstrap.servers");
    assert("bootstrap.servers"@[0] == 'b');
    reveal_strlit("group.id");
    assert("group.id"@[0] == 'g');
    lemma_parameters_differ();
    lemma_first_letters();
}

proof fn lemma_first_letters()
    ensures
        "client.id"@[0] == 'c',
        "metadata.max.age.ms"@[0] == 'm',
        "socket.timeout.ms"@[0] == 's',
        "socket.nagle.disable"@[0] == 's',
        "connections.max.idle.ms"@[0] == 'c',
        "reconnect.backoff.ms"@[0] == 'r',
        "reconnect.backoff.max.ms"@[0] == 'r',
        "security.protocol"@[0] == 's',
        "sasl.mechanism"@[0] == 's',
        "sasl.username"@[0] == 's',
        "sasl.password"@[0] == 's',
        "ssl.ca.location"@[0] == 's',
        "ssl.certificate.location"@[0] == 's',
        "ssl.key.location"@[0] == 's',
        "ssl.key.password"@[0] == 's',
        "ssl.endpoint.identification.algorithm"@[0] == 's',
        "enable.ssl.certificate.verification"@[0] == 'e',
        "fetch.min.bytes"@[0] == 'f',
        "fetch.wait.max.ms"@[0] == 'f',
        "fetch.max.bytes"@[0] == 'f',
        "fetch.message.max.bytes"@[0] == 'f',
        "queued.min.messages"@[0] == 'q',
        "queued.max.messages.kbytes"@[0] == 'q',
        "allow.auto.create.topics"@[0] == 'a',
        "enable.partition.eof"@[0] == 'e',
        "auto.offset.reset"@[0] == 'a',
        "partitioner"@[0] == 'p',
        "acks"@[0] == 'a',
        "message.timeout.ms"@[0] == 'm',
        "linger.ms"@[0] == 'l',
{
    reveal_strlit("client.id");
    reveal_strlit("metadata.max.age.ms");
    reveal_strlit("socket.timeout.ms");
    reveal_strlit("socket.nagle.disable");
    reveal_strlit("connections.max.idle.ms");
    reveal_strlit("reconnect.backoff.ms");
    reveal_strlit("reconnect.backoff.max.ms");
    reveal_strlit("security.protocol");
    reveal_strlit("sasl.mechanism");
    reveal_strlit("sasl.username");
    reveal_strlit("sasl.password");
    reveal_strlit("ssl.ca.location");
    reveal_strlit("ssl.certificate.location");
    reveal_strlit("ssl.key.location");
    reveal_strlit("ssl.key.password");
    reveal_strlit("ssl.endpoint.identification.algorithm");
    reveal_strlit("enable.ssl.certificate.verification");
    reveal_strlit("fetch.min.bytes");
    reveal_strlit("fetch.wait.max.ms");
    reveal_strlit("fetch.max.bytes");
    reveal_strlit("fetch.message.max.bytes");
    reveal_strlit("queued.min.messages");
    reveal_strlit("queued.max.messages.kbytes");
    reveal_strlit("allow.auto.create.topics");
    reveal_strlit("enable.partition.eof");
    reveal_strlit("auto.offset.reset");
    reveal_strlit("partitioner");
    reveal_strlit("acks");
    reveal_strlit("message.timeout.ms");
    reveal_strlit("linger.ms");
}

/// A viewer creates no topics, is told where a partition ends, and falls back to
/// what is left of a log; a message is sent to all replicas.
pub proof fn law_reading_leaves_no_trace(base: Settings)
    ensures
        value_of(for_reading(base), "allow.auto.create.topics"@) == Some("false"@),
        value_of(for_reading(base), "enable.partition.eof"@) == Some("true"@),
        value_of(for_reading(base), "auto.offset.reset"@) == Some("earliest"@),
        value_of(for_sending(base), "acks"@) == Some("all"@),
        value_of(for_sending(base), "partitioner"@) == Some("murmur2_random"@),
{
    lemma_first_letters();
    reveal_strlit("allow.auto.create.topics");
    reveal_strlit("auto.offset.reset");
    reveal_strlit("enable.partition.eof");
    assert("allow.auto.create.topics"@.len() == 24 && "auto.offset.reset"@.len() == 17);
    reveal_strlit("acks");
    reveal_strlit("partitioner");
    reveal_strlit("linger.ms");
    reveal_strlit("message.timeout.ms");
}

/// How a connection treats the network: it waits three times the window of a
/// broker's quota for an answer, closes what is idle a little before a broker
/// would, and comes back soon, but not too often.
pub proof fn law_patience_with_the_network(conf: ClusterConnectPayload)
    ensures
        value_of(network(conf), "bootstrap.servers"@) == Some(conf.brokers@),
        value_of(network(conf), "client.id"@) == Some("mikui"@),
        value_of(network(conf), "metadata.max.age.ms"@) == Some("300000"@),
        value_of(network(conf), "socket.timeout.ms"@) == Some("30000"@),
        value_of(network(conf), "socket.nagle.disable"@) == Some("true"@),
        value_of(network(conf), "connections.max.idle.ms"@) == Some("540000"@),
        value_of(network(conf), "reconnect.backoff.ms"@) == Some("300"@),
        value_of(network(conf), "reconnect.backoff.max.ms"@) == Some("10000"@),
{
    lemma_first_letters();
    reveal_strlit("bootstrap.servers");
    reveal_strlit("client.id");
    reveal_strlit("connections.max.idle.ms");
    reveal_strlit("socket.timeout.ms");
    reveal_strlit("socket.nagle.disable");
    reveal_strlit("reconnect.backoff.ms");
    reveal_strlit("reconnect.backoff.max.ms");
    assert("bootstrap.servers"@[0] == 'b');
    assert("client.id"@.len() == 9 && "connections.max.idle.ms"@.len() == 23);
    assert("socket.timeout.ms"@.len() == 17 && "socket.nagle.disable"@.len() == 20);
    assert("reconnect.backoff.ms"@.len() == 20 && "reconnect.backoff.max.ms"@.len() == 24);
}

/// How much is fetched at a time: little, for reading goes by windows, and what
/// comes beyond one is thrown away.
pub proof fn law_how_much_is_fetched(base: Settings)
    ensures
        value_of(for_reading(base), "fetch.min.bytes"@) == Some("1"@),
        value_of(for_reading(base), "fetch.wait.max.ms"@) == Some("500"@),
        value_of(for_reading(base), "fetch.max.bytes"@) == Some("10485760"@),
        value_of(for_reading(base), "fetch.message.max.bytes"@) == Some("262144"@),
        value_of(for_reading(base), "queued.min.messages"@) == Some("100"@),
        value_of(for_reading(base), "queued.max.messages.kbytes"@) == Some("16384"@),
{
    lemma_first_letters();
    reveal_strlit("fetch.min.bytes");
    reveal_strlit("fetch.wait.max.ms");
    reveal_strlit("fetch.max.bytes");
    reveal_strlit("fetch.message.max.bytes");
    reveal_strlit("queued.min.messages");
    reveal_strlit("queued.max.messages.kbytes");
    assert("fetch.min.bytes"@[7] == 'i' && "fetch.max.bytes"@[7] == 'a');
    assert("fetch.min.bytes"@.len() == 15 && "fetch.max.bytes"@.len() == 15);
    assert("fetch.wait.max.ms"@.len() == 17 && "fetch.message.max.bytes"@.len() == 23);
    assert("queued.min.messages"@.len() == 19 && "queued.max.messages.kbytes"@.len() == 26);
}

/// A message is sent at once, and given up after thirty seconds.
pub proof fn law_when_sending_is_given_up(base: Settings)
    ensures
        value_of(for_sending(base), "message.timeout.ms"@) == Some("30000"@),
        value_of(for_sending(base), "linger.ms"@) == Some("0"@),
{
    lemma_first_letters();
    reveal_strlit("30000");
    reveal_with_fuel(decimal, 6);
    assert(decimal(30_000) =~= "30000"@);
}

/// A record that names half of a pair is told which half is missing.
pub proof fn law_half_a_pair_is_named(conf: ClusterConnectPayload, path: Seq<char>)
    requires
        names_protocol(conf, "SSL"@),
        path.len() > 0,
    ensures
        gives_path(conf.ssl_certificate_path, path) && conf.ssl_key_path is None ==> with_security(
            network(conf),
            conf,
        ) == Err::<Settings, Seq<char>>(
            "client certificate is set but the private key is missing: mutual TLS needs both"@,
        ),
        gives_path(conf.ssl_key_path, path) && conf.ssl_certificate_path is None ==> with_security(
            network(conf),
            conf,
        ) == Err::<Settings, Seq<char>>(
            "private key is set but the client certificate is missing: mutual TLS needs both"@,
        ),
{
    lemma_names_in_capitals();
    lemma_names_protocol(conf, "SSL"@);
    if gives_path(conf.ssl_certificate_path, path) {
        lemma_gives_path(conf.ssl_certificate_path, path);
    }
    if gives_path(conf.ssl_key_path, path) {
        lemma_gives_path(conf.ssl_key_path, path);
    }
}

/// A mechanism that is refused is named as it was given, without the white space
/// around it, together with the three that there are.
pub proof fn law_refused_mechanism_is_named(conf: ClusterConnectPayload)
    requires
        mechanism_of(conf) is Err,
    ensures
        conf.sasl_mechanism is Some,
        mechanism_of(conf) == Err::<Seq<char>, Seq<char>>(
            "unsupported SASL mechanism \""@ + trim_of(conf.sasl_mechanism->0@)
                + "\": this build supports "@ + "PLAIN, SCRAM-SHA-256, SCRAM-SHA-512"@,
        ),
{
}

/// A protocol in capitals that is none of the four is refused by its name,
/// together with the four that there are.
pub proof fn law_refused_protocol_is_named(conf: ClusterConnectPayload)
    requires
        conf.security_protocol@.len() > 0,
        forall|k: int|
            0 <= k < conf.security_protocol@.len() ==> 'A' <= #[trigger] conf.security_protocol@[k]
                <= '_',
        conf.security_protocol@ != "PLAINTEXT"@,
        conf.security_protocol@ != "SSL"@,
        conf.security_protocol@ != "SASL_PLAINTEXT"@,
        conf.security_protocol@ != "SASL_SSL"@,
    ensures
        with_security(network(conf), conf) == Err::<Settings, Seq<char>>(
            "unknown security protocol \""@ + conf.security_protocol@
                + "\": expected PLAINTEXT, SSL, SASL_PLAINTEXT or SASL_SSL"@,
        ),
{
    let s = conf.security_protocol@;
    assert('A' <= s[0] && 'A' <= s[s.len() - 1]);
    assert(s[0] <= '_' && s[s.len() - 1] <= '_');
    assert(trim_of(s) == s);
    assert(upper_of(s) =~= s);
}

} // verus!
