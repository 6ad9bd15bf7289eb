//! What is remembered of clusters. No password is: those lie in the keychain of
//! the system, and a record only says whether there is one.

use vstd::prelude::*;

use crate::strings::same_text;

verus! {

/// The version of the file of settings.
pub const SETTINGS_VERSION: u32 = 1;

/// A Kafka user of a cluster. The password lies in the keychain under `id`.
#[derive(Debug)]
pub struct ClusterUser {
    pub id: String,
    pub username: String,
    pub has_password: bool,
}

/// The Schema Registry of a cluster.
#[derive(Debug)]
pub struct SchemaRegistry {
    pub url: String,
    pub username: Option<String>,
    pub has_password: bool,
    pub ssl_ca_bundle_path: Option<String>,
}

/// A saved connection.
#[derive(Debug)]
pub struct ClusterConfig {
    pub id: String,
    pub name: String,
    pub brokers: String,
    pub security_protocol: String,
    pub sasl_mechanism: Option<String>,
    pub ssl_ca_bundle_path: Option<String>,
    pub ssl_certificate_path: Option<String>,
    pub ssl_key_path: Option<String>,
    pub has_key_password: bool,
    pub ssl_skip_hostname_check: bool,
    pub ssl_skip_certificate_verification: bool,
    pub created_at: String,
    pub last_used: Option<String>,
    /// By what the cluster named itself at the last connection.
    pub kafka_cluster_id: Option<String>,
    pub users: Vec<ClusterUser>,
    /// Who connected last.
    pub active_user_id: Option<String>,
    pub schema_registry: Option<SchemaRegistry>,
    /// The one login of records of the former format.
    pub legacy_username: Option<String>,
    pub legacy_has_password: bool,
}

/// A list of users holds one with an id.
pub open spec fn knows(users: Seq<ClusterUser>, id: Seq<char>) -> bool {
    exists|i: int| 0 <= i < users.len() && (#[trigger] users[i]).id@ == id
}

/// The place of the first user with an id.
pub open spec fn first_user(users: Seq<ClusterUser>, id: Seq<char>, i: int) -> bool {
    &&& 0 <= i < users.len()
    &&& users[i].id@ == id
    &&& forall|k: int| 0 <= k < i ==> (#[trigger] users[k]).id@ != id
}

pub open spec fn text_of(s: Option<String>) -> Option<Seq<char>> {
    match s {
        Some(s) => Some(s@),
        None => None,
    }
}

/// The id of the first user, if there is one.
pub open spec fn first_id(users: Seq<ClusterUser>) -> Option<Seq<char>> {
    if users.len() > 0 {
        Some(users[0].id@)
    } else {
        None
    }
}

/// The users of a record of today's format: its own, or the one login that a
/// record of the former format has.
pub open spec fn users_after(before: ClusterConfig, users: Seq<ClusterUser>) -> bool {
    if before.users@.len() == 0 && before.legacy_username is Some
        && before.legacy_username->0@.len() > 0 {
        &&& users.len() == 1
        &&& users[0].id@ == before.id@
        &&& users[0].username == before.legacy_username->0
        &&& users[0].has_password == before.legacy_has_password
    } else {
        users == before.users@
    }
}

/// Who is active: the one who was, if still known, else the first.
pub open spec fn active_after(
    before: Option<String>,
    users: Seq<ClusterUser>,
    after: Option<String>,
) -> bool {
    if before is Some && knows(users, before->0@) {
        after == before
    } else {
        text_of(after) == first_id(users)
    }
}

/// A record brought to today's format.
pub open spec fn migrated(before: ClusterConfig, after: ClusterConfig) -> bool {
    &&& users_after(before, after.users@)
    &&& active_after(before.active_user_id, after.users@, after.active_user_id)
    &&& after == (ClusterConfig {
        users: after.users,
        active_user_id: after.active_user_id,
        legacy_username: None,
        legacy_has_password: false,
        ..before
    })
}

fn concat(head: &str, tail: &str) -> (r: String)
    ensures
        r@ == head@ + tail@,
{
    let mut out = head.to_owned();
    out.push_str(tail);
    out
}

impl SchemaRegistry {
    /// The key of the registry's password in the keychain. The suffix keeps it
    /// apart from the users' keys: a user that came from a record of the former
    /// format has the id of the cluster.
    pub fn secret_key(cluster_id: &str) -> (r: String)
        ensures
            r@ == cluster_id@ + ":sr"@,
    {
        concat(cluster_id, ":sr")
    }

    /// The same registry once more.
    pub fn copy(&self) -> (r: Self)
        ensures
            r == *self,
    {
        SchemaRegistry {
            url: self.url.clone(),
            username: self.username.clone(),
            has_password: self.has_password,
            ssl_ca_bundle_path: self.ssl_ca_bundle_path.clone(),
        }
    }
}

impl ClusterUser {
    /// The same user once more.
    pub fn copy(&self) -> (r: Self)
        ensures
            r == *self,
    {
        ClusterUser {
            id: self.id.clone(),
            username: self.username.clone(),
            has_password: self.has_password,
        }
    }
}

/// The same users once more.
pub fn copy_users(users: &Vec<ClusterUser>) -> (r: Vec<ClusterUser>)
    ensures
        r@ == users@,
{
    let mut out: Vec<ClusterUser> = Vec::new();
    let mut i: usize = 0;
    while i < users.len()
        invariant
            i <= users@.len(),
            out@ == users@.take(i as int),
        decreases users@.len() - i,
    {
        out.push(users[i].copy());
        proof {
            assert(users@.take(i + 1) =~= users@.take(i as int).push(users@[i as int]));
        }
        i += 1;
    }
    proof {
        assert(users@.take(i as int) =~= users@);
    }
    out
}

/// Two records hold the same.
pub open spec fn same_record(a: ClusterConfig, b: ClusterConfig) -> bool {
    &&& a.users@ == b.users@
    &&& a == (ClusterConfig { users: a.users, ..b })
}

impl ClusterConfig {
    /// The key of the password of the client's key in the keychain.
    pub fn key_password_secret_key(cluster_id: &str) -> (r: String)
        ensures
            r@ == cluster_id@ + ":sslkey"@,
    {
        concat(cluster_id, ":sslkey")
    }

    /// Brings a record to today's format.
    ///
    /// A user made of the one login of the former format has the id of the
    /// cluster: that is the key under which its password lies in the keychain
    /// since then. An active user that is not there any more gives way to the
    /// first.
    pub fn migrate(&mut self)
        ensures
            migrated(*old(self), *final(self)),
    {
        let legacy_username = self.legacy_username.take();
        let legacy_has_password = self.legacy_has_password;
        self.legacy_has_password = false;
        if self.users.len() == 0 {
            if let Some(username) = legacy_username {
                if !username.as_str().is_empty() {
                    self.users.push(
                        ClusterUser {
                            id: self.id.clone(),
                            username,
                            has_password: legacy_has_password,
                        },
                    );
                }
            }
        }
        let known = match &self.active_user_id {
            Some(id) => self.user(id.as_str()).is_some(),
            None => false,
        };
        if !known {
            self.active_user_id = if self.users.len() > 0 {
                Some(self.users[0].id.clone())
            } else {
                None
            };
        }
    }

    /// The user with an id.
    pub fn user(&self, id: &str) -> (r: Option<&ClusterUser>)
        ensures
            r is Some <==> knows(self.users@, id@),
            r matches Some(u) ==> exists|i: int| #[trigger]
                first_user(self.users@, id@, i) && *u == self.users@[i],
    {
        let mut i: usize = 0;
        while i < self.users.len()
            invariant
                i <= self.users@.len(),
                forall|k: int| 0 <= k < i ==> (#[trigger] self.users@[k]).id@ != id@,
            decreases self.users@.len() - i,
        {
            if same_text(self.users[i].id.as_str(), id) {
                proof {
                    assert(first_user(self.users@, id@, i as int));
                }
                return Some(&self.users[i]);
            }
            i += 1;
        }
        None
    }

    /// The same record once more.
    pub fn copy(&self) -> (r: Self)
        ensures
            same_record(r, *self),
    {
        let registry = match &self.schema_registry {
            Some(registry) => Some(registry.copy()),
            None => None,
        };
        ClusterConfig {
            id: self.id.clone(),
            name: self.name.clone(),
            brokers: self.brokers.clone(),
            security_protocol: self.security_protocol.clone(),
            sasl_mechanism: self.sasl_mechanism.clone(),
            ssl_ca_bundle_path: self.ssl_ca_bundle_path.clone(),
            ssl_certificate_path: self.ssl_certificate_path.clone(),
            ssl_key_path: self.ssl_key_path.clone(),
            has_key_password: self.has_key_password,
            ssl_skip_hostname_check: self.ssl_skip_hostname_check,
            ssl_skip_certificate_verification: self.ssl_skip_certificate_verification,
            created_at: self.created_at.clone(),
            last_used: self.last_used.clone(),
            kafka_cluster_id: self.kafka_cluster_id.clone(),
            users: copy_users(&self.users),
            active_user_id: self.active_user_id.clone(),
            schema_registry: registry,
            legacy_username: self.legacy_username.clone(),
            legacy_has_password: self.legacy_has_password,
        }
    }
}

/// Brings all records to today's format.
pub fn migrate_all(clusters: &mut Vec<ClusterConfig>)
    ensures
        final(clusters)@.len() == old(clusters)@.len(),
        forall|i: int|
            0 <= i < final(clusters)@.len() ==> migrated(
                old(clusters)@[i],
                #[trigger] final(clusters)@[i],
            ),
{
    let mut i: usize = 0;
    while i < clusters.len()
        invariant
            i <= clusters@.len(),
            clusters@.len() == old(clusters)@.len(),
            forall|k: int|
                0 <= k < i ==> migrated(old(clusters)@[k], #[trigger] clusters@[k]),
            forall|k: int|
                i <= k < clusters@.len() ==> #[trigger] clusters@[k] == old(clusters)@[k],
        decreases clusters@.len() - i,
    {
        let mut c = clusters[i].copy();
        let ghost copied = c;
        c.migrate();
        proof {
            lemma_migrated_copy(clusters@[i as int], copied, c);
        }
        clusters.set(i, c);
        i += 1;
    }
}

proof fn lemma_migrated_copy(first: ClusterConfig, copied: ClusterConfig, after: ClusterConfig)
    requires
        same_record(copied, first),
        migrated(copied, after),
    ensures
        migrated(first, after),
{
}

/// The secrets of one cluster never share a key: that of a user with the id of
/// the cluster, that of the registry and that of the client's key.
pub proof fn law_secret_keys_never_collide(cluster: Seq<char>)
    ensures
        cluster != cluster + ":sr"@,
        cluster != cluster + ":sslkey"@,
        cluster + ":sr"@ != cluster + ":sslkey"@,
{
    reveal_strlit(":sr");
    reveal_strlit(":sslkey");
    assert((cluster + ":sr"@).len() == cluster.len() + 3);
    assert((cluster + ":sslkey"@).len() == cluster.len() + 7);
}

/// In a record of today's format the active user is one of its users, and there
/// is none only where there are no users.
pub proof fn law_active_user_is_known(before: ClusterConfig, after: ClusterConfig)
    requires
        migrated(before, after),
    ensures
        after.active_user_id matches Some(id) ==> knows(after.users@, id@),
        after.active_user_id is None <==> after.users@.len() == 0,
{
    if after.users@.len() > 0 {
        assert(after.users@[0].id@ == after.users@[0].id@);
        assert(knows(after.users@, after.users@[0].id@));
    }
}

/// Bringing a record to today's format twice changes nothing the second time.
pub proof fn law_migrating_twice_is_migrating_once(
    before: ClusterConfig,
    once: ClusterConfig,
    twice: ClusterConfig,
)
    requires
        migrated(before, once),
        migrated(once, twice),
    ensures
        twice.users@ == once.users@,
        text_of(twice.active_user_id) == text_of(once.active_user_id),
        twice == (ClusterConfig {
            users: twice.users,
            active_user_id: twice.active_user_id,
            ..once
        }),
{
    law_active_user_is_known(before, once);
}

/// Bringing a record to today's format keeps everything that it says of the
/// connection, and makes its one login of the former format its only user, with
/// the id of the cluster, unless there are users already.
pub proof fn law_migrating_keeps_the_connection(before: ClusterConfig, after: ClusterConfig)
    requires
        migrated(before, after),
    ensures
        after.id == before.id,
        after.name == before.name,
        after.brokers == before.brokers,
        after.security_protocol == before.security_protocol,
        after.sasl_mechanism == before.sasl_mechanism,
        after.schema_registry == before.schema_registry,
        after.has_key_password == before.has_key_password,
        after.last_used == before.last_used,
        after.legacy_username is None,
        !after.legacy_has_password,
        before.users@.len() > 0 ==> after.users@ == before.users@,
        before.users@.len() == 0 && (before.legacy_username is None || before.legacy_username->0@
            == ""@) ==> after.users@.len() == 0 && after.active_user_id is None,
        before.users@.len() == 0 && before.legacy_username is Some && before.legacy_username->0@
            != ""@ ==> {
            &&& after.users@.len() == 1
            &&& after.users@[0].id@ == before.id@
            &&& after.users@[0].username@ == before.legacy_username->0@
            &&& after.users@[0].has_password == before.legacy_has_password
        },
{
    reveal_strlit("");
    if before.legacy_username is Some && before.legacy_username->0@.len() == 0 {
        assert(before.legacy_username->0@ =~= ""@);
    }
    law_active_user_is_known(before, after);
}

/// Who was active stays so while still among the users; else the first one is.
pub proof fn law_who_is_active_after_migrating(before: ClusterConfig, after: ClusterConfig, k: int)
    requires
        migrated(before, after),
        0 <= k < after.users@.len(),
    ensures
        before.active_user_id is Some && before.active_user_id->0@ == after.users@[k].id@
            ==> after.active_user_id is Some && after.active_user_id->0@ == after.users@[k].id@,
        before.active_user_id is None ==> after.active_user_id is Some && after.active_user_id->0@
            == after.users@[0].id@,
        before.active_user_id is Some && (forall|i: int|
            0 <= i < after.users@.len() ==> (#[trigger] after.users@[i]).id@
                != before.active_user_id->0@) ==> after.active_user_id is Some
            && after.active_user_id->0@ == after.users@[0].id@,
{
    if before.active_user_id is Some && before.active_user_id->0@ == after.users@[k].id@ {
        assert(knows(after.users@, before.active_user_id->0@));
    }
}

} // verus!
