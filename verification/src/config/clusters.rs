//! What happens to the list of saved connections, and to the secrets that
//! belong to it. The list is read, changed here, and written back; the secrets
//! are read from the keychain and written there by the caller.

use vstd::prelude::*;

use crate::config::types::{
    first_id, first_user, knows, migrated, same_record, text_of, ClusterConfig, ClusterUser,
    SchemaRegistry,
};
use crate::kafka::types::ClusterConnectPayload;
use crate::strings::{blank, is_blank, same_text};

verus! {

/// What to do to a secret in the keychain.
#[derive(Debug)]
pub enum SecretChange {
    /// Leave what lies there: the form came without a password because nobody
    /// changed it.
    Keep,
    Remove,
    Store(String),
}

/// A password in a form: one that is not given stays, an empty one is removed,
/// any other is stored.
pub fn secret_change(password: Option<String>) -> (r: SecretChange)
    ensures
        r == (match password {
            None => SecretChange::Keep,
            Some(p) => if p@.len() == 0 {
                SecretChange::Remove
            } else {
                SecretChange::Store(p)
            },
        }),
{
    match password {
        None => SecretChange::Keep,
        Some(p) => if p.as_str().is_empty() {
            SecretChange::Remove
        } else {
            SecretChange::Store(p)
        },
    }
}

/// Whether there is a secret after the change.
pub open spec fn secret_after(change: SecretChange, before: bool) -> bool {
    match change {
        SecretChange::Keep => before,
        SecretChange::Remove => false,
        SecretChange::Store(_) => true,
    }
}

fn has_secret(change: &SecretChange, before: bool) -> (r: bool)
    ensures
        r == secret_after(*change, before),
{
    match change {
        SecretChange::Keep => before,
        SecretChange::Remove => false,
        SecretChange::Store(_) => true,
    }
}

/// The secrets that a connection still lacks, by their keys in the keychain.
#[derive(Debug)]
pub struct MissingSecrets {
    pub password: Option<String>,
    pub key_password: Option<String>,
}

pub open spec fn given(s: Option<String>) -> bool {
    s is Some && s->0@.len() > 0
}

/// A text that is more than white space.
pub open spec fn says_something(s: Option<String>) -> bool {
    s is Some && !blank(s->0@)
}

pub open spec fn password_key(payload: ClusterConnectPayload) -> Option<Seq<char>> {
    if given(payload.password) {
        None
    } else if payload.user_id is Some {
        text_of(payload.user_id)
    } else {
        text_of(payload.id)
    }
}

pub open spec fn client_key_key(payload: ClusterConnectPayload) -> Option<Seq<char>> {
    if given(payload.ssl_key_password) || !says_something(payload.ssl_key_path)
        || payload.id is None {
        None
    } else {
        Some(payload.id->0@ + ":sslkey"@)
    }
}

fn is_given(s: &Option<String>) -> (r: bool)
    ensures
        r == given(*s),
{
    match s {
        Some(s) => !s.as_str().is_empty(),
        None => false,
    }
}

/// Which secrets of a connection are to be read from the keychain.
///
/// A password that the form gave is not looked up. The key is that of the user,
/// and the id of the cluster where there is no user: there the password of a
/// record of the former format lies. The password of the client's key is looked
/// up only where there is a client's key.
pub fn missing_secrets(payload: &ClusterConnectPayload) -> (r: MissingSecrets)
    ensures
        text_of(r.password) == password_key(*payload),
        text_of(r.key_password) == client_key_key(*payload),
{
    let password = if is_given(&payload.password) {
        None
    } else if payload.user_id.is_some() {
        payload.user_id.clone()
    } else {
        payload.id.clone()
    };
    let uses_client_key = match &payload.ssl_key_path {
        Some(path) => !is_blank(path.as_str()),
        None => false,
    };
    let key_password = if !is_given(&payload.ssl_key_password) && uses_client_key {
        match &payload.id {
            Some(id) => Some(ClusterConfig::key_password_secret_key(id.as_str())),
            None => None,
        }
    } else {
        None
    };
    MissingSecrets { password, key_password }
}

/// Puts in place what the keychain gave for the keys of `missing_secrets`. What
/// was not asked for stays as it came.
pub fn resolve_secrets(
    payload: &mut ClusterConnectPayload,
    password: Option<String>,
    key_password: Option<String>,
)
    ensures
        *final(payload) == (ClusterConnectPayload {
            password: if password_key(*old(payload)) is Some {
                password
            } else {
                old(payload).password
            },
            ssl_key_password: if client_key_key(*old(payload)) is Some {
                key_password
            } else {
                old(payload).ssl_key_password
            },
            ..*old(payload)
        }),
{
    let missing = missing_secrets(payload);
    if missing.password.is_some() {
        payload.password = password;
    }
    if missing.key_password.is_some() {
        payload.ssl_key_password = key_password;
    }
}

/// A password that was typed in is the one that connects, whatever the keychain
/// holds.
pub proof fn law_typed_password_wins(payload: ClusterConnectPayload)
    requires
        given(payload.password),
    ensures
        password_key(payload) is None,
{
}

/// Without a client's key its password is not looked up, and a blank path names
/// no key.
pub proof fn law_no_client_key_no_lookup(payload: ClusterConnectPayload)
    requires
        !says_something(payload.ssl_key_path),
    ensures
        client_key_key(payload) is None,
{
}

/// The place of the first connection with an id; the length of the list where
/// there is none.
pub open spec fn place(clusters: Seq<ClusterConfig>, id: Seq<char>) -> int
    decreases clusters.len(),
{
    if clusters.len() == 0 || clusters[0].id@ == id {
        0
    } else {
        1 + place(clusters.drop_first(), id)
    }
}

pub open spec fn listed(clusters: Seq<ClusterConfig>, id: Seq<char>) -> bool {
    place(clusters, id) < clusters.len()
}

pub proof fn lemma_place(clusters: Seq<ClusterConfig>, id: Seq<char>)
    ensures
        0 <= place(clusters, id) <= clusters.len(),
        listed(clusters, id) ==> clusters[place(clusters, id)].id@ == id,
        forall|k: int|
            0 <= k < place(clusters, id) ==> (#[trigger] clusters[k]).id@ != id,
    decreases clusters.len(),
{
    if clusters.len() > 0 && clusters[0].id@ != id {
        let rest = clusters.drop_first();
        lemma_place(rest, id);
        assert forall|k: int| 0 <= k < place(clusters, id) implies (#[trigger] clusters[k]).id@
            != id by {
            if k > 0 {
                assert(clusters[k] == rest[k - 1]);
            }
        }
    }
}

fn find(clusters: &Vec<ClusterConfig>, id: &str) -> (r: Option<usize>)
    ensures
        match r {
            Some(i) => i < clusters@.len() && i == place(clusters@, id@),
            None => !listed(clusters@, id@),
        },
{
    let mut i: usize = 0;
    proof {
        assert(clusters@.skip(0) =~= clusters@);
    }
    while i < clusters.len()
        invariant
            i <= clusters@.len(),
            place(clusters@, id@) == i + place(clusters@.skip(i as int), id@),
        decreases clusters@.len() - i,
    {
        if same_text(clusters[i].id.as_str(), id) {
            return Some(i);
        }
        proof {
            assert(clusters@.skip(i as int).drop_first() =~= clusters@.skip(i + 1));
        }
        i += 1;
    }
    None
}

/// The place of the first user with an id, as for connections.
pub open spec fn user_place(users: Seq<ClusterUser>, id: Seq<char>) -> int
    decreases users.len(),
{
    if users.len() == 0 || users[0].id@ == id {
        0
    } else {
        1 + user_place(users.drop_first(), id)
    }
}

pub proof fn lemma_user_place(users: Seq<ClusterUser>, id: Seq<char>)
    ensures
        0 <= user_place(users, id) <= users.len(),
        user_place(users, id) < users.len() ==> users[user_place(users, id)].id@ == id,
        forall|k: int|
            0 <= k < user_place(users, id) ==> (#[trigger] users[k]).id@ != id,
        knows(users, id) <==> user_place(users, id) < users.len(),
    decreases users.len(),
{
    if users.len() > 0 && users[0].id@ != id {
        let rest = users.drop_first();
        lemma_user_place(rest, id);
        assert forall|k: int| 0 <= k < user_place(users, id) implies (#[trigger] users[k]).id@
            != id by {
            if k > 0 {
                assert(users[k] == rest[k - 1]);
            }
        }
        if knows(users, id) {
            let i = choose|i: int| 0 <= i < users.len() && (#[trigger] users[i]).id@ == id;
            assert(rest[i - 1].id@ == id);
        }
    } else if users.len() > 0 {
        assert(users[0].id@ == id);
    }
}

fn find_user(users: &Vec<ClusterUser>, id: &str) -> (r: usize)
    ensures
        r <= users@.len(),
        r == user_place(users@, id@),
{
    let mut i: usize = 0;
    proof {
        assert(users@.skip(0) =~= users@);
    }
    while i < users.len()
        invariant
            i <= users@.len(),
            user_place(users@, id@) == i + user_place(users@.skip(i as int), id@),
        decreases users@.len() - i,
    {
        if same_text(users[i].id.as_str(), id) {
            return i;
        }
        proof {
            assert(users@.skip(i as int).drop_first() =~= users@.skip(i + 1));
        }
        i += 1;
    }
    i
}

/// A list in which one connection took another's place, the rest as it was.
pub open spec fn replaced(
    before: Seq<ClusterConfig>,
    after: Seq<ClusterConfig>,
    i: int,
) -> bool {
    &&& after.len() == before.len()
    &&& forall|k: int|
        0 <= k < before.len() && k != i ==> #[trigger] after[k] == before[k]
}

fn unknown_cluster(id: &str) -> (r: String)
    ensures
        r@ == "unknown cluster "@ + id@,
{
    let mut out = "unknown cluster ".to_owned();
    out.push_str(id);
    out
}

/// A connection after it was used.
pub open spec fn touched(
    before: ClusterConfig,
    after: ClusterConfig,
    user_id: Option<Seq<char>>,
    kafka_cluster_id: Option<String>,
    now: String,
) -> bool {
    &&& after.users@ == before.users@
    &&& text_of(after.active_user_id) == (if user_id is Some && knows(
        before.users@,
        user_id->0,
    ) {
        user_id
    } else {
        text_of(before.active_user_id)
    })
    &&& after == (ClusterConfig {
        last_used: Some(now),
        kafka_cluster_id: if kafka_cluster_id is Some {
            kafka_cluster_id
        } else {
            before.kafka_cluster_id
        },
        users: after.users,
        active_user_id: after.active_user_id,
        ..before
    })
}

/// Marks a connection as used and remembers who connected and by what the
/// cluster named itself. Tells whether there is such a connection.
///
/// A cluster that gave no name could not be asked; the name that is known
/// stays. A login that was typed in and is not on the list is not remembered.
pub fn touch_cluster(
    clusters: &mut Vec<ClusterConfig>,
    id: &str,
    user_id: Option<&str>,
    kafka_cluster_id: Option<String>,
    now: String,
) -> (r: bool)
    ensures
        r == listed(old(clusters)@, id@),
        !r ==> final(clusters)@ == old(clusters)@,
        r ==> {
            let i = place(old(clusters)@, id@);
            &&& replaced(old(clusters)@, final(clusters)@, i)
            &&& touched(
                old(clusters)@[i],
                final(clusters)@[i],
                match user_id {
                    Some(u) => Some(u@),
                    None => None,
                },
                kafka_cluster_id,
                now,
            )
        },
{
    match find(clusters, id) {
        Some(i) => {
            let mut cluster = clusters[i].copy();
            cluster.last_used = Some(now);
            if kafka_cluster_id.is_some() {
                cluster.kafka_cluster_id = kafka_cluster_id;
            }
            if let Some(user_id) = user_id {
                if cluster.user(user_id).is_some() {
                    cluster.active_user_id = Some(user_id.to_owned());
                }
            }
            proof {
                lemma_place(clusters@, id@);
            }
            clusters.set(i, cluster);
            true
        },
        None => false,
    }
}

/// A connection as it is saved: the parameters of the form, with the users, the
/// registry and the knowledge of the keychain that the saved record has.
pub open spec fn inherited(
    clusters: Seq<ClusterConfig>,
    cluster: ClusterConfig,
    change: SecretChange,
) -> ClusterConfig {
    let i = place(clusters, cluster.id@);
    if i < clusters.len() {
        let existing = clusters[i];
        ClusterConfig {
            users: existing.users,
            active_user_id: existing.active_user_id,
            schema_registry: existing.schema_registry,
            has_key_password: secret_after(change, existing.has_key_password),
            ..cluster
        }
    } else {
        ClusterConfig { has_key_password: secret_after(change, false), ..cluster }
    }
}

/// Saves the parameters of a connection and returns the record.
///
/// The users and the registry are those of the saved record, not of the form:
/// they have commands of their own, and a list that went stale in a form must
/// not overwrite them. `change` is what was done to the password of the
/// client's key.
pub fn save_cluster(
    clusters: &mut Vec<ClusterConfig>,
    cluster: ClusterConfig,
    change: &SecretChange,
) -> (r: ClusterConfig)
    ensures
        migrated(inherited(old(clusters)@, cluster, *change), r),
        ({
            let i = place(old(clusters)@, cluster.id@);
            &&& final(clusters)@.len() == (if i < old(clusters)@.len() {
                old(clusters)@.len()
            } else {
                old(clusters)@.len() + 1
            })
            &&& same_record(final(clusters)@[i], r)
            &&& forall|k: int|
                0 <= k < old(clusters)@.len() && k != i ==> #[trigger] final(clusters)@[k]
                    == old(clusters)@[k]
        }),
{
    proof {
        lemma_place(clusters@, cluster.id@);
    }
    let mut cluster = cluster;
    let ghost form = cluster;
    let found = find(clusters, cluster.id.as_str());
    match found {
        Some(i) => {
            let existing = clusters[i].copy();
            cluster.users = existing.users;
            cluster.active_user_id = existing.active_user_id;
            cluster.schema_registry = existing.schema_registry;
            cluster.has_key_password = has_secret(change, existing.has_key_password);
        },
        None => {
            cluster.has_key_password = has_secret(change, false);
        },
    }
    let ghost merged = cluster;
    cluster.migrate();
    proof {
        let wanted = inherited(old(clusters)@, form, *change);
        assert(merged.users@ == wanted.users@);
        assert(merged == (ClusterConfig { users: merged.users, ..wanted }));
        assert(migrated(wanted, cluster));
    }
    match found {
        Some(i) => clusters.set(i, cluster.copy()),
        None => clusters.push(cluster.copy()),
    }
    cluster
}

/// Saving the parameters of a known connection leaves its users, whatever the
/// form says of them. Only where it has none can a login of the former format,
/// in the form, become one.
pub proof fn law_saving_keeps_users(
    clusters: Seq<ClusterConfig>,
    cluster: ClusterConfig,
    change: SecretChange,
    saved: ClusterConfig,
)
    requires
        listed(clusters, cluster.id@),
        clusters[place(clusters, cluster.id@)].users@.len() > 0 || !given(cluster.legacy_username),
        migrated(inherited(clusters, cluster, change), saved),
    ensures
        saved.users@ == clusters[place(clusters, cluster.id@)].users@,
{
}

/// Saving the parameters of a known connection leaves its registry, whatever the
/// form says of it.
pub proof fn law_saving_keeps_registry(
    clusters: Seq<ClusterConfig>,
    cluster: ClusterConfig,
    change: SecretChange,
    saved: ClusterConfig,
)
    requires
        listed(clusters, cluster.id@),
        migrated(inherited(clusters, cluster, change), saved),
    ensures
        saved.schema_registry == clusters[place(clusters, cluster.id@)].schema_registry,
{
}

/// The keys of all secrets of a connection: of each user, of the registry, of
/// the client's key.
pub open spec fn secret_keys(cluster: ClusterConfig) -> Seq<Seq<char>> {
    Seq::new(cluster.users@.len(), |i: int| cluster.users@[i].id@).push(
        cluster.id@ + ":sr"@,
    ).push(cluster.id@ + ":sslkey"@)
}

pub open spec fn texts_of(keys: Seq<String>) -> Seq<Seq<char>> {
    Seq::new(keys.len(), |i: int| keys[i]@)
}

/// Takes a connection off the list and returns the keys of its secrets, which
/// nobody needs any more. Nothing when there is no such connection.
pub fn delete_cluster(clusters: &mut Vec<ClusterConfig>, id: &str) -> (r: Option<Vec<String>>)
    ensures
        r is Some <==> listed(old(clusters)@, id@),
        r is None ==> final(clusters)@ == old(clusters)@,
        r matches Some(keys) ==> {
            let i = place(old(clusters)@, id@);
            &&& final(clusters)@ == old(clusters)@.remove(i)
            &&& texts_of(keys@) == secret_keys(old(clusters)@[i])
        },
{
    match find(clusters, id) {
        Some(at) => {
            proof {
                lemma_place(clusters@, id@);
            }
            let removed = clusters.remove(at);
            let mut keys: Vec<String> = Vec::new();
            let mut i: usize = 0;
            while i < removed.users.len()
                invariant
                    i <= removed.users@.len(),
                    keys@.len() == i,
                    forall|k: int| 0 <= k < i ==> (#[trigger] keys@[k])@ == removed.users@[k].id@,
                decreases removed.users@.len() - i,
            {
                keys.push(removed.users[i].id.clone());
                i += 1;
            }
            keys.push(SchemaRegistry::secret_key(id));
            keys.push(ClusterConfig::key_password_secret_key(id));
            proof {
                assert(texts_of(keys@) =~= secret_keys(removed));
            }
            Some(keys)
        },
        None => None,
    }
}

/// A user as it is saved.
pub open spec fn saved_user(
    cluster: ClusterConfig,
    user: ClusterUser,
    change: SecretChange,
) -> ClusterUser {
    let at = user_place(cluster.users@, user.id@);
    ClusterUser {
        has_password: secret_after(
            change,
            at < cluster.users@.len() && cluster.users@[at].has_password,
        ),
        ..user
    }
}

/// A connection after one of its users was saved.
pub open spec fn with_user(
    before: ClusterConfig,
    after: ClusterConfig,
    user: ClusterUser,
    activate: bool,
) -> bool {
    let at = user_place(before.users@, user.id@);
    &&& after.users@ == (if at < before.users@.len() {
        before.users@.update(at, user)
    } else {
        before.users@.push(user)
    })
    &&& text_of(after.active_user_id) == (if activate || before.active_user_id is None {
        Some(user.id@)
    } else {
        text_of(before.active_user_id)
    })
    &&& after == (ClusterConfig {
        users: after.users,
        active_user_id: after.active_user_id,
        ..before
    })
}

/// Adds a user to a connection, or changes the one with its id. It becomes the
/// active one where that is asked for, or where there was none.
pub fn save_cluster_user(
    clusters: &mut Vec<ClusterConfig>,
    cluster_id: &str,
    user: ClusterUser,
    change: &SecretChange,
    activate: bool,
) -> (r: Result<ClusterConfig, String>)
    ensures
        r is Ok <==> listed(old(clusters)@, cluster_id@),
        r matches Err(e) ==> e@ == "unknown cluster "@ + cluster_id@ && final(clusters)@ == old(
            clusters,
        )@,
        r matches Ok(updated) ==> {
            let i = place(old(clusters)@, cluster_id@);
            let before = old(clusters)@[i];
            &&& replaced(old(clusters)@, final(clusters)@, i)
            &&& with_user(
                before,
                final(clusters)@[i],
                saved_user(before, user, *change),
                activate,
            )
            &&& same_record(updated, final(clusters)@[i])
        },
{
    let i = match find(clusters, cluster_id) {
        Some(i) => i,
        None => {
            return Err(unknown_cluster(cluster_id));
        },
    };
    proof {
        lemma_place(clusters@, cluster_id@);
    }
    let mut cluster = clusters[i].copy();
    let at: usize = find_user(&cluster.users, user.id.as_str());
    let known = at < cluster.users.len();
    let before = if known {
        cluster.users[at].has_password
    } else {
        false
    };
    let mut user = user;
    user.has_password = has_secret(change, before);
    if activate || cluster.active_user_id.is_none() {
        cluster.active_user_id = Some(user.id.clone());
    }
    if known {
        cluster.users.set(at, user);
    } else {
        cluster.users.push(user);
    }
    let updated = cluster.copy();
    clusters.set(i, cluster);
    Ok(updated)
}

/// The users without those that have an id.
pub open spec fn users_without(users: Seq<ClusterUser>, id: Seq<char>) -> Seq<ClusterUser> {
    users.filter(|u: ClusterUser| u.id@ != id)
}

/// A connection after a user was deleted.
pub open spec fn without_user(
    before: ClusterConfig,
    after: ClusterConfig,
    user_id: Seq<char>,
) -> bool {
    &&& after.users@ == users_without(before.users@, user_id)
    &&& text_of(after.active_user_id) == (if text_of(before.active_user_id) == Some(user_id) {
        first_id(after.users@)
    } else {
        text_of(before.active_user_id)
    })
    &&& after == (ClusterConfig {
        users: after.users,
        active_user_id: after.active_user_id,
        ..before
    })
}

fn retain_others(users: &Vec<ClusterUser>, id: &str) -> (r: Vec<ClusterUser>)
    ensures
        r@ == users_without(users@, id@),
{
    let mut out: Vec<ClusterUser> = Vec::new();
    let mut i: usize = 0;
    proof {
        reveal(Seq::filter);
    }
    while i < users.len()
        invariant
            i <= users@.len(),
            out@ == users_without(users@.take(i as int), id@),
        decreases users@.len() - i,
    {
        proof {
            reveal(Seq::filter);
            assert(users@.take(i + 1).drop_last() =~= users@.take(i as int));
            assert(users@.take(i + 1).last() == users@[i as int]);
        }
        if !same_text(users[i].id.as_str(), id) {
            out.push(users[i].copy());
        }
        i += 1;
    }
    proof {
        assert(users@.take(i as int) =~= users@);
    }
    out
}

/// Takes a user off a connection. Where it was the active one, the first of the
/// rest is.
pub fn delete_cluster_user(
    clusters: &mut Vec<ClusterConfig>,
    cluster_id: &str,
    user_id: &str,
) -> (r: Result<ClusterConfig, String>)
    ensures
        r is Ok <==> listed(old(clusters)@, cluster_id@),
        r matches Err(e) ==> e@ == "unknown cluster "@ + cluster_id@ && final(clusters)@ == old(
            clusters,
        )@,
        r matches Ok(updated) ==> {
            let i = place(old(clusters)@, cluster_id@);
            &&& replaced(old(clusters)@, final(clusters)@, i)
            &&& without_user(old(clusters)@[i], final(clusters)@[i], user_id@)
            &&& same_record(updated, final(clusters)@[i])
        },
{
    let i = match find(clusters, cluster_id) {
        Some(i) => i,
        None => {
            return Err(unknown_cluster(cluster_id));
        },
    };
    proof {
        lemma_place(clusters@, cluster_id@);
    }
    let mut cluster = clusters[i].copy();
    cluster.users = retain_others(&cluster.users, user_id);
    let was_active = match &cluster.active_user_id {
        Some(active) => same_text(active.as_str(), user_id),
        None => false,
    };
    if was_active {
        cluster.active_user_id = if cluster.users.len() > 0 {
            Some(cluster.users[0].id.clone())
        } else {
            None
        };
    }
    let updated = cluster.copy();
    clusters.set(i, cluster);
    Ok(updated)
}

/// A connection whose active user is one of its users, or which has none.
pub open spec fn sound(cluster: ClusterConfig) -> bool {
    cluster.active_user_id matches Some(id) ==> knows(cluster.users@, id@)
}

/// Saving a user leaves a connection whose active user is on its list.
pub proof fn law_saving_a_user_keeps_the_active_one_known(
    before: ClusterConfig,
    after: ClusterConfig,
    user: ClusterUser,
    activate: bool,
)
    requires
        sound(before),
        with_user(before, after, user, activate),
    ensures
        sound(after),
        knows(after.users@, user.id@),
{
    let at = user_place(before.users@, user.id@);
    lemma_user_place(before.users@, user.id@);
    assert(after.users@[at] == user);
    if !(activate || before.active_user_id is None) {
        let id = before.active_user_id->0@;
        let k = choose|k: int|
            0 <= k < before.users@.len() && (#[trigger] before.users@[k]).id@ == id;
        assert(after.users@[k].id@ == id);
    }
}

proof fn lemma_users_without(users: Seq<ClusterUser>, gone: Seq<char>, id: Seq<char>)
    ensures
        knows(users_without(users, gone), id) <==> id != gone && knows(users, id),
    decreases users.len(),
{
    reveal(Seq::filter);
    let kept = users_without(users, gone);
    if users.len() > 0 {
        let front = users.drop_last();
        lemma_users_without(front, gone, id);
        let kept_front = users_without(front, gone);
        let n = users.len() - 1;
        if users.last().id@ != gone {
            assert(kept == kept_front.push(users.last()));
            if knows(kept, id) {
                let i = choose|i: int| 0 <= i < kept.len() && (#[trigger] kept[i]).id@ == id;
                if i < kept_front.len() {
                    assert(kept_front[i].id@ == id);
                    let j = choose|j: int|
                        0 <= j < front.len() && (#[trigger] front[j]).id@ == id;
                    assert(users[j].id@ == id);
                } else {
                    assert(users[n].id@ == id);
                }
            }
            if id != gone && knows(users, id) {
                let j = choose|j: int| 0 <= j < users.len() && (#[trigger] users[j]).id@ == id;
                if j < n {
                    assert(front[j].id@ == id);
                    let i = choose|i: int|
                        0 <= i < kept_front.len() && (#[trigger] kept_front[i]).id@ == id;
                    assert(kept[i].id@ == id);
                } else {
                    assert(kept[kept_front.len() as int].id@ == id);
                }
            }
        } else {
            assert(kept == kept_front);
            if knows(kept, id) {
                let j = choose|j: int| 0 <= j < front.len() && (#[trigger] front[j]).id@ == id;
                assert(users[j].id@ == id);
            }
            if id != gone && knows(users, id) {
                let j = choose|j: int| 0 <= j < users.len() && (#[trigger] users[j]).id@ == id;
                assert(front[j].id@ == id);
            }
        }
    }
}

/// A deleted user is gone, every other stays, and the active user is still on
/// the list.
pub proof fn law_deleting_a_user_leaves_the_others(
    before: ClusterConfig,
    after: ClusterConfig,
    user_id: Seq<char>,
    other: Seq<char>,
)
    requires
        sound(before),
        without_user(before, after, user_id),
        other != user_id,
    ensures
        sound(after),
        !knows(after.users@, user_id),
        knows(after.users@, other) <==> knows(before.users@, other),
{
    lemma_users_without(before.users@, user_id, user_id);
    lemma_users_without(before.users@, user_id, other);
    if text_of(before.active_user_id) == Some(user_id) {
        if after.users@.len() > 0 {
            assert(after.users@[0].id@ == after.users@[0].id@);
        }
    } else if before.active_user_id is Some {
        lemma_users_without(before.users@, user_id, before.active_user_id->0@);
    }
}

/// A registry as it is saved.
pub open spec fn saved_registry(
    cluster: ClusterConfig,
    registry: SchemaRegistry,
    change: SecretChange,
) -> SchemaRegistry {
    SchemaRegistry {
        has_password: secret_after(
            change,
            cluster.schema_registry is Some && cluster.schema_registry->0.has_password,
        ),
        ..registry
    }
}

/// Gives a connection its registry. `change` is what was done to the password.
pub fn save_schema_registry(
    clusters: &mut Vec<ClusterConfig>,
    cluster_id: &str,
    registry: SchemaRegistry,
    change: &SecretChange,
) -> (r: Result<ClusterConfig, String>)
    ensures
        r is Ok <==> listed(old(clusters)@, cluster_id@),
        r matches Err(e) ==> e@ == "unknown cluster "@ + cluster_id@ && final(clusters)@ == old(
            clusters,
        )@,
        r matches Ok(updated) ==> {
            let i = place(old(clusters)@, cluster_id@);
            let before = old(clusters)@[i];
            &&& replaced(old(clusters)@, final(clusters)@, i)
            &&& same_record(
                final(clusters)@[i],
                (ClusterConfig {
                    schema_registry: Some(saved_registry(before, registry, *change)),
                    ..before
                }),
            )
            &&& same_record(updated, final(clusters)@[i])
        },
{
    let i = match find(clusters, cluster_id) {
        Some(i) => i,
        None => {
            return Err(unknown_cluster(cluster_id));
        },
    };
    proof {
        lemma_place(clusters@, cluster_id@);
    }
    let mut cluster = clusters[i].copy();
    let before = match &cluster.schema_registry {
        Some(r) => r.has_password,
        None => false,
    };
    let mut registry = registry;
    registry.has_password = has_secret(change, before);
    cluster.schema_registry = Some(registry);
    let updated = cluster.copy();
    clusters.set(i, cluster);
    Ok(updated)
}

/// Takes the registry from a connection. Returns the record and the registry
/// that is gone: its password and its cache are to go too.
pub fn delete_schema_registry(
    clusters: &mut Vec<ClusterConfig>,
    cluster_id: &str,
) -> (r: Result<(ClusterConfig, Option<SchemaRegistry>), String>)
    ensures
        r is Ok <==> listed(old(clusters)@, cluster_id@),
        r matches Err(e) ==> e@ == "unknown cluster "@ + cluster_id@ && final(clusters)@ == old(
            clusters,
        )@,
        r matches Ok((updated, gone)) ==> {
            let i = place(old(clusters)@, cluster_id@);
            let before = old(clusters)@[i];
            &&& replaced(old(clusters)@, final(clusters)@, i)
            &&& gone == before.schema_registry
            &&& same_record(
                final(clusters)@[i],
                (ClusterConfig { schema_registry: None, ..before }),
            )
            &&& same_record(updated, final(clusters)@[i])
        },
{
    let i = match find(clusters, cluster_id) {
        Some(i) => i,
        None => {
            return Err(unknown_cluster(cluster_id));
        },
    };
    proof {
        lemma_place(clusters@, cluster_id@);
    }
    let mut cluster = clusters[i].copy();
    let gone = cluster.schema_registry.take();
    let updated = cluster.copy();
    clusters.set(i, cluster);
    Ok((updated, gone))
}

/// A secret that nobody changed is there if it was; one that was removed is not,
/// and one that was stored is.
pub proof fn law_secret_after_a_change(before: bool, secret: String)
    ensures
        secret_after(SecretChange::Keep, before) == before,
        !secret_after(SecretChange::Remove, before),
        secret_after(SecretChange::Store(secret), before),
{
}

/// Where no password was typed, the one of the user is looked up; without a user
/// the one of the connection is.
pub proof fn law_which_password_is_looked_up(payload: ClusterConnectPayload)
    requires
        payload.password is None || payload.password->0@ == ""@,
    ensures
        payload.user_id matches Some(user) ==> password_key(payload) == Some(user@),
        payload.user_id is None ==> (payload.id matches Some(id) ==> password_key(payload) == Some(
            id@,
        )),
        payload.user_id is None && payload.id is None ==> password_key(payload) is None,
{
    reveal_strlit("");
}

/// The password of a client's key is looked up where there is a key, no password
/// was typed for it, and the connection is a saved one.
pub proof fn law_when_the_key_password_is_looked_up(payload: ClusterConnectPayload, id: Seq<char>)
    requires
        payload.id is Some && payload.id->0@ == id,
        payload.ssl_key_path is Some && !blank(payload.ssl_key_path->0@),
    ensures
        payload.ssl_key_password is None ==> client_key_key(payload) == Some(id + ":sslkey"@),
        payload.ssl_key_password is Some && payload.ssl_key_password->0@ == ""@ ==> client_key_key(
            payload,
        ) == Some(id + ":sslkey"@),
        payload.ssl_key_password is Some && payload.ssl_key_password->0@ != ""@ ==> client_key_key(
            payload,
        ) is None,
{
    reveal_strlit("");
    if payload.ssl_key_password is Some && payload.ssl_key_password->0@.len() == 0 {
        assert(payload.ssl_key_password->0@ =~= ""@);
    }
}

/// All secrets of a connection go with it, and no others: those of its users, of
/// its registry and of its client's key.
pub proof fn law_secrets_that_go_with_a_connection(cluster: ClusterConfig, key: Seq<char>)
    ensures
        secret_keys(cluster).contains(key) <==> knows(cluster.users@, key) || key == cluster.id@
            + ":sr"@ || key == cluster.id@ + ":sslkey"@,
{
    let keys = secret_keys(cluster);
    let n = cluster.users@.len() as int;
    assert(keys.len() == n + 2);
    assert(keys[n] == cluster.id@ + ":sr"@);
    assert(keys[n + 1] == cluster.id@ + ":sslkey"@);
    assert(forall|i: int| 0 <= i < n ==> keys[i] == (#[trigger] cluster.users@[i]).id@);
    if keys.contains(key) {
        let i = choose|i: int| 0 <= i < keys.len() && keys[i] == key;
        if i < n {
            assert(cluster.users@[i].id@ == key);
        }
    }
    if knows(cluster.users@, key) {
        let i = choose|i: int| 0 <= i < n && (#[trigger] cluster.users@[i]).id@ == key;
        assert(keys[i] == key);
    }
}

/// Using a connection notes when, and by what the cluster named itself if it
/// did; who connected is remembered only as one of its users. All else stays.
pub proof fn law_using_a_connection(
    before: ClusterConfig,
    after: ClusterConfig,
    user_id: Option<Seq<char>>,
    kafka_cluster_id: Option<String>,
    now: String,
    k: int,
)
    requires
        touched(before, after, user_id, kafka_cluster_id, now),
    ensures
        after.last_used == Some(now),
        kafka_cluster_id is Some ==> after.kafka_cluster_id == kafka_cluster_id,
        kafka_cluster_id is None ==> after.kafka_cluster_id == before.kafka_cluster_id,
        0 <= k < before.users@.len() && user_id == Some(before.users@[k].id@)
            ==> after.active_user_id is Some && after.active_user_id->0@ == before.users@[k].id@,
        user_id is None ==> text_of(after.active_user_id) == text_of(before.active_user_id),
        user_id is Some && (forall|i: int|
            0 <= i < before.users@.len() ==> (#[trigger] before.users@[i]).id@ != user_id->0)
            ==> text_of(after.active_user_id) == text_of(before.active_user_id),
        after.users@ == before.users@,
        after.id == before.id,
        after.brokers == before.brokers,
        after.schema_registry == before.schema_registry,
        after.has_key_password == before.has_key_password,
{
    if 0 <= k < before.users@.len() && user_id == Some(before.users@[k].id@) {
        assert(knows(before.users@, user_id->0));
    }
}

/// Saving a connection takes its parameters from the form.
pub proof fn law_saving_takes_the_form(
    clusters: Seq<ClusterConfig>,
    cluster: ClusterConfig,
    change: SecretChange,
    k: int,
)
    ensures
        ({
            let saved = inherited(clusters, cluster, change);
            &&& saved.id == cluster.id
            &&& saved.name == cluster.name
            &&& saved.brokers == cluster.brokers
            &&& saved.security_protocol == cluster.security_protocol
            &&& saved.sasl_mechanism == cluster.sasl_mechanism
            &&& saved.ssl_ca_bundle_path == cluster.ssl_ca_bundle_path
            &&& saved.ssl_certificate_path == cluster.ssl_certificate_path
            &&& saved.ssl_key_path == cluster.ssl_key_path
            &&& saved.ssl_skip_hostname_check == cluster.ssl_skip_hostname_check
            &&& saved.ssl_skip_certificate_verification
                == cluster.ssl_skip_certificate_verification
            &&& change is Store ==> saved.has_key_password
            &&& change is Remove ==> !saved.has_key_password
            &&& (forall|i: int|
                0 <= i < clusters.len() ==> (#[trigger] clusters[i]).id@ != cluster.id@) ==> {
                &&& saved.users == cluster.users
                &&& change is Keep ==> !saved.has_key_password
            }
            &&& 0 <= k < clusters.len() && clusters[k].id@ == cluster.id@ && (forall|i: int|
                0 <= i < k ==> (#[trigger] clusters[i]).id@ != cluster.id@) ==> {
                &&& saved.users == clusters[k].users
                &&& saved.active_user_id == clusters[k].active_user_id
                &&& saved.schema_registry == clusters[k].schema_registry
                &&& change is Keep ==> saved.has_key_password == clusters[k].has_key_password
            }
        }),
{
    lemma_place(clusters, cluster.id@);
    let at = place(clusters, cluster.id@);
    if at < clusters.len() {
        assert(clusters[at].id@ == cluster.id@);
        if 0 <= k < at {
            assert(clusters[k].id@ != cluster.id@);
        }
    } else if 0 <= k < clusters.len() {
        assert(clusters[k].id@ != cluster.id@);
    }
}

/// A user is saved with what the form says; whether there is a password follows
/// from what was done to it.
pub proof fn law_user_as_it_is_saved(
    cluster: ClusterConfig,
    user: ClusterUser,
    change: SecretChange,
    k: int,
)
    ensures
        ({
            let saved = saved_user(cluster, user, change);
            &&& saved.id == user.id
            &&& saved.username == user.username
            &&& change is Store ==> saved.has_password
            &&& change is Remove ==> !saved.has_password
            &&& change is Keep && !knows(cluster.users@, user.id@) ==> !saved.has_password
            &&& change is Keep && first_user(cluster.users@, user.id@, k) ==> saved.has_password
                == cluster.users@[k].has_password
        }),
{
    lemma_user_place(cluster.users@, user.id@);
    let at = user_place(cluster.users@, user.id@);
    if first_user(cluster.users@, user.id@, k) {
        if at < k {
            assert(cluster.users@[at].id@ != user.id@);
        }
        if k < at {
            assert(cluster.users@[k].id@ != user.id@);
        }
    }
}

/// Saving a user changes that user, or adds it at the end, and no other; it
/// becomes the active one where that was asked for or nobody was.
pub proof fn law_saving_a_user(
    before: ClusterConfig,
    after: ClusterConfig,
    user: ClusterUser,
    activate: bool,
    k: int,
)
    requires
        with_user(before, after, user, activate),
    ensures
        0 <= k < before.users@.len() && before.users@[k].id@ != user.id@ ==> after.users@[k]
            == before.users@[k],
        first_user(before.users@, user.id@, k) ==> after.users@[k] == user && after.users@.len()
            == before.users@.len(),
        !knows(before.users@, user.id@) ==> after.users@ == before.users@.push(user),
        activate ==> after.active_user_id is Some && after.active_user_id->0@ == user.id@,
        before.active_user_id is None ==> after.active_user_id is Some && after.active_user_id->0@
            == user.id@,
        !activate && before.active_user_id is Some ==> after.active_user_id is Some
            && after.active_user_id->0@ == before.active_user_id->0@,
        after.id == before.id,
        after.schema_registry == before.schema_registry,
{
    lemma_user_place(before.users@, user.id@);
    let at = user_place(before.users@, user.id@);
    if first_user(before.users@, user.id@, k) {
        if at < k {
            assert(before.users@[at].id@ != user.id@);
        }
        if k < at {
            assert(before.users@[k].id@ != user.id@);
        }
    }
}

/// When the active user is deleted, the first of those who are left is active,
/// and nobody where none is left; when another one is, nothing changes in that.
pub proof fn law_who_is_active_after_deleting(
    before: ClusterConfig,
    after: ClusterConfig,
    user_id: Seq<char>,
)
    requires
        without_user(before, after, user_id),
    ensures
        before.active_user_id is Some && before.active_user_id->0@ == user_id ==> {
            &&& after.users@.len() > 0 ==> after.active_user_id is Some && after.active_user_id->0@
                == after.users@[0].id@
            &&& after.users@.len() == 0 ==> after.active_user_id is None
        },
        before.active_user_id is Some && before.active_user_id->0@ != user_id
            ==> after.active_user_id is Some && after.active_user_id->0@
            == before.active_user_id->0@,
        before.active_user_id is None ==> after.active_user_id is None,
        after.id == before.id,
        after.brokers == before.brokers,
        after.schema_registry == before.schema_registry,
{
}

/// A registry is saved with what the form says; whether there is a password
/// follows from what was done to it.
pub proof fn law_registry_as_it_is_saved(
    cluster: ClusterConfig,
    registry: SchemaRegistry,
    change: SecretChange,
)
    ensures
        ({
            let saved = saved_registry(cluster, registry, change);
            &&& saved.url == registry.url
            &&& saved.username == registry.username
            &&& saved.ssl_ca_bundle_path == registry.ssl_ca_bundle_path
            &&& change is Store ==> saved.has_password
            &&& change is Remove ==> !saved.has_password
            &&& change is Keep && cluster.schema_registry is None ==> !saved.has_password
            &&& change is Keep && cluster.schema_registry is Some ==> saved.has_password
                == cluster.schema_registry->0.has_password
        }),
{
}

/// Without a path to a client's key, or with a blank one, its password is not
/// looked up; nor is that of a connection that is not saved.
pub proof fn law_key_password_without_a_key(payload: ClusterConnectPayload)
    ensures
        payload.ssl_key_path is None ==> client_key_key(payload) is None,
        payload.ssl_key_path is Some && blank(payload.ssl_key_path->0@) ==> client_key_key(payload)
            is None,
        payload.id is None ==> client_key_key(payload) is None,
{
}

/// A change of one connection touches no other.
pub proof fn law_change_touches_no_other(
    before: Seq<ClusterConfig>,
    after: Seq<ClusterConfig>,
    i: int,
    k: int,
)
    requires
        replaced(before, after, i),
        0 <= k < before.len(),
    ensures
        after.len() == before.len(),
        k != i ==> after[k] == before[k],
{
}

/// A connection is found by its id where one has it, the first one of them.
pub proof fn law_connection_is_found_by_its_id(clusters: Seq<ClusterConfig>, id: Seq<char>, k: int)
    requires
        0 <= k < clusters.len(),
    ensures
        clusters[k].id@ == id ==> listed(clusters, id) && place(clusters, id) <= k,
        clusters[k].id@ == id && (forall|i: int|
            0 <= i < k ==> (#[trigger] clusters[i]).id@ != id) ==> place(clusters, id) == k,
        listed(clusters, id) ==> clusters[place(clusters, id)].id@ == id,
{
    lemma_place(clusters, id);
    if clusters[k].id@ == id && k < place(clusters, id) {
        assert(clusters[k].id@ != id);
    }
    if listed(clusters, id) && place(clusters, id) < k {
        assert(clusters[place(clusters, id)].id@ == id);
    }
}

} // verus!
