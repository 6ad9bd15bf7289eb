//! The archive of saved messages: its index, and all that is done to it.
//!
//! The body of a message lies in a file of its own, in the bytes that came from
//! the cluster. A schema that is loaded later can still read them.

use vstd::prelude::*;
use vstd::utf8::{encode_utf8, valid_utf8};

use crate::clock::{rfc3339_text, Moment};
use crate::favorites::types::{
    BodyFormat, FavoriteRecord, FavoriteView, FavoritesView, SaveFavoriteRequest, SavedMessage,
};
use crate::kafka::text::{self, lossy, previewed, Decoded, DecodedBody, PREVIEW_BYTES};
use crate::kafka::types::{FullMessage, MessageHeader, RawBody};
use crate::strings::{decimal, push_signed, same_text, signed_decimal};

verus! {

pub const INDEX_FILE: &'static str = "favorites.json";

pub const BODIES_DIR: &'static str = "favorites";

/// The name of the file of a body.
pub fn body_file(id: &str) -> (r: String)
    ensures
        r@ == id@ + ".bin"@,
{
    let mut out = id.to_owned();
    out.push_str(".bin");
    out
}

// ---------------------------------------------------------------------------
// Identifiers
// ---------------------------------------------------------------------------
/// A step of the hash FNV-1a.
pub open spec fn fnv_step(hash: u64, byte: u8) -> u64 {
    (((hash ^ (byte as u64)) as int * 0x0000_0100_0000_01b3) % 0x1_0000_0000_0000_0000) as u64
}

/// The hash FNV-1a of bytes.
pub open spec fn fnv(bytes: Seq<u8>) -> u64
    decreases bytes.len(),
{
    if bytes.len() == 0 {
        0xcbf2_9ce4_8422_2325
    } else {
        fnv_step(fnv(bytes.drop_last()), bytes.last())
    }
}

/// What makes a message the message it is, as one text: its parts with a zero
/// character between them.
pub open spec fn seed(
    cluster: Seq<char>,
    topic: Seq<char>,
    partition: int,
    offset: int,
) -> Seq<char> {
    cluster + seq!['\0'] + (topic + seq!['\0'] + (signed_decimal(partition) + seq!['\0']
        + signed_decimal(offset)))
}

pub open spec fn hex_digit(n: nat) -> char {
    if n < 10 {
        (48 + n) as char
    } else {
        (87 + n) as char
    }
}

/// A number in hexadecimal.
pub open spec fn hex_text(n: nat) -> Seq<char>
    decreases n,
{
    if n < 16 {
        seq![hex_digit(n)]
    } else {
        hex_text(n / 16).push(hex_digit(n % 16))
    }
}

/// A number in hexadecimal, with zeros in front up to a width.
pub open spec fn hex_digits(n: nat, width: nat) -> Seq<char>
    decreases width,
{
    if width == 0 {
        Seq::empty()
    } else {
        hex_digits(n / 16, (width - 1) as nat).push(hex_digit(n % 16))
    }
}

/// The identifier of a record.
pub open spec fn id_text(
    millis: i64,
    cluster: Seq<char>,
    topic: Seq<char>,
    partition: i32,
    offset: i64,
) -> Seq<char> {
    hex_text((millis as u64) as nat) + seq!['-'] + hex_digits(
        fnv(encode_utf8(seed(cluster, topic, partition as int, offset as int))) as nat,
        16,
    )
}

fn hash_of(text: &str) -> (r: u64)
    ensures
        r == fnv(encode_utf8(text@)),
{
    let bytes = text.as_bytes();
    let mut hash: u64 = 0xcbf2_9ce4_8422_2325;
    let mut i: usize = 0;
    while i < bytes.len()
        invariant
            i <= bytes@.len(),
            hash == fnv(bytes@.take(i as int)),
        decreases bytes@.len() - i,
    {
        let mixed: u64 = hash ^ (bytes[i] as u64);
        hash = mixed.wrapping_mul(0x0000_0100_0000_01b3);
        proof {
            assert(bytes@.take(i + 1).drop_last() =~= bytes@.take(i as int));
        }
        i += 1;
    }
    proof {
        assert(bytes@.take(i as int) =~= bytes@);
    }
    hash
}

fn digit(n: u8) -> (r: char)
    requires
        n < 16,
    ensures
        r == hex_digit(n as nat),
{
    if n < 10 {
        (48 + n) as char
    } else {
        (87 + n) as char
    }
}

fn push_hex(out: &mut String, n: u64)
    ensures
        final(out)@ == old(out)@ + hex_text(n as nat),
    decreases n,
{
    if n >= 16 {
        push_hex(out, n / 16);
    }
    out.push(digit((n % 16) as u8));
    proof {
        if n >= 16 {
            assert(old(out)@ + hex_text(n as nat) =~= (old(out)@ + hex_text(
                (n / 16) as nat,
            )).push(hex_digit((n % 16) as nat)));
        } else {
            assert(old(out)@ + hex_text(n as nat) =~= old(out)@.push(hex_digit(n as nat)));
        }
    }
}

fn push_hex_digits(out: &mut String, n: u64, width: u8)
    ensures
        final(out)@ == old(out)@ + hex_digits(n as nat, width as nat),
    decreases width,
{
    if width > 0 {
        push_hex_digits(out, n / 16, width - 1);
        out.push(digit((n % 16) as u8));
    }
    proof {
        if width > 0 {
            assert(old(out)@ + hex_digits(n as nat, width as nat) =~= (old(out)@ + hex_digits(
                (n / 16) as nat,
                (width - 1) as nat,
            )).push(hex_digit((n % 16) as nat)));
        } else {
            assert(old(out)@ + hex_digits(n as nat, 0) =~= old(out)@);
        }
    }
}

/// The identifier of a new record: the time of saving and a hash of what makes
/// the message the message it is. In the name of a topic there may be anything,
/// signs that no file system takes among it.
pub fn new_id(millis: i64, cluster: &str, topic: &str, partition: i32, offset: i64) -> (r: String)
    ensures
        r@ == id_text(millis, cluster@, topic@, partition, offset),
{
    let mut text = cluster.to_owned();
    text.push('\0');
    text.push_str(topic);
    text.push('\0');
    push_signed(&mut text, partition as i64);
    text.push('\0');
    push_signed(&mut text, offset);
    proof {
        assert(text@ =~= seed(cluster@, topic@, partition as int, offset as int));
    }
    let hash: u64 = hash_of(text.as_str());
    let mut out = String::new();
    push_hex(&mut out, millis as u64);
    out.push('-');
    push_hex_digits(&mut out, hash, 16);
    proof {
        assert(out@ =~= id_text(millis, cluster@, topic@, partition, offset));
    }
    out
}

proof fn lemma_decimal(n: nat)
    ensures
        decimal(n).len() > 0,
        forall|i: int| 0 <= i < decimal(n).len() ==> '0' <= #[trigger] decimal(n)[i] <= '9',
    decreases n,
{
    if n >= 10 {
        lemma_decimal(n / 10);
        let front = decimal(n / 10);
        assert forall|i: int| 0 <= i < decimal(n).len() implies '0' <= #[trigger] decimal(n)[i]
            <= '9' by {
            if i < front.len() {
                assert(decimal(n)[i] == front[i]);
            }
        }
    }
}

proof fn lemma_decimal_tells(a: nat, b: nat)
    requires
        decimal(a) == decimal(b),
    ensures
        a == b,
    decreases a,
{
    lemma_decimal(a / 10);
    lemma_decimal(b / 10);
    let s = decimal(a);
    let t = decimal(b);
    assert(s.last() == t.last());
    if a >= 10 && b >= 10 {
        assert(s.drop_last() =~= decimal(a / 10));
        assert(t.drop_last() =~= decimal(b / 10));
        lemma_decimal_tells(a / 10, b / 10);
    } else if a >= 10 {
        assert(s.len() > 1);
    } else if b >= 10 {
        assert(t.len() > 1);
    }
}

proof fn lemma_signed_tells(a: int, b: int)
    requires
        signed_decimal(a) == signed_decimal(b),
    ensures
        a == b,
{
    lemma_decimal(if a < 0 {
        (-a) as nat
    } else {
        a as nat
    });
    lemma_decimal(if b < 0 {
        (-b) as nat
    } else {
        b as nat
    });
    let s = signed_decimal(a);
    let t = signed_decimal(b);
    if a < 0 && b < 0 {
        assert(s.skip(1) =~= decimal((-a) as nat));
        assert(t.skip(1) =~= decimal((-b) as nat));
        lemma_decimal_tells((-a) as nat, (-b) as nat);
    } else if a >= 0 && b >= 0 {
        lemma_decimal_tells(a as nat, b as nat);
    } else {
        assert(s[0] == t[0]);
    }
}

proof fn lemma_no_zero_character(n: int)
    ensures
        !signed_decimal(n).contains('\0'),
{
    lemma_decimal(if n < 0 {
        (-n) as nat
    } else {
        n as nat
    });
    let s = signed_decimal(n);
    if s.contains('\0') {
        let i = choose|i: int| 0 <= i < s.len() && s[i] == '\0';
        if n < 0 && i > 0 {
            assert(s[i] == decimal((-n) as nat)[i - 1]);
        }
    }
}

/// Where the first part ends can be told, so that both parts can.
proof fn lemma_parts_tell(a: Seq<char>, x: Seq<char>, b: Seq<char>, y: Seq<char>)
    requires
        !a.contains('\0'),
        !b.contains('\0'),
        a + seq!['\0'] + x == b + seq!['\0'] + y,
    ensures
        a == b,
        x == y,
{
    let s = a + seq!['\0'] + x;
    let t = b + seq!['\0'] + y;
    assert(s[a.len() as int] == '\0');
    assert(t[b.len() as int] == '\0');
    if a.len() < b.len() {
        assert(t[a.len() as int] == b[a.len() as int]);
        assert(b.contains('\0'));
    }
    if b.len() < a.len() {
        assert(s[b.len() as int] == a[b.len() as int]);
        assert(a.contains('\0'));
    }
    assert(a =~= s.take(a.len() as int));
    assert(b =~= t.take(b.len() as int));
    assert(x =~= s.skip(a.len() as int + 1));
    assert(y =~= t.skip(b.len() as int + 1));
}

/// What is hashed tells messages apart that only look alike: the name of a
/// cluster cannot run into that of a topic, nor a number into another.
pub proof fn law_hashed_text_tells_messages_apart(
    cluster1: Seq<char>,
    topic1: Seq<char>,
    partition1: int,
    offset1: int,
    cluster2: Seq<char>,
    topic2: Seq<char>,
    partition2: int,
    offset2: int,
)
    requires
        !cluster1.contains('\0'),
        !cluster2.contains('\0'),
        !topic1.contains('\0'),
        !topic2.contains('\0'),
        encode_utf8(seed(cluster1, topic1, partition1, offset1)) == encode_utf8(
            seed(cluster2, topic2, partition2, offset2),
        ),
    ensures
        cluster1 == cluster2,
        topic1 == topic2,
        partition1 == partition2,
        offset1 == offset2,
{
    let s = seed(cluster1, topic1, partition1, offset1);
    let t = seed(cluster2, topic2, partition2, offset2);
    vstd::utf8::encode_utf8_decode_utf8(s);
    vstd::utf8::encode_utf8_decode_utf8(t);
    assert(s == t);
    lemma_no_zero_character(partition1);
    lemma_no_zero_character(partition2);
    let tail1 = signed_decimal(partition1) + seq!['\0'] + signed_decimal(offset1);
    let tail2 = signed_decimal(partition2) + seq!['\0'] + signed_decimal(offset2);
    lemma_parts_tell(cluster1, topic1 + seq!['\0'] + tail1, cluster2, topic2 + seq!['\0'] + tail2);
    lemma_parts_tell(topic1, tail1, topic2, tail2);
    lemma_parts_tell(
        signed_decimal(partition1),
        signed_decimal(offset1),
        signed_decimal(partition2),
        signed_decimal(offset2),
    );
    lemma_signed_tells(partition1, partition2);
    lemma_signed_tells(offset1, offset2);
}

// ---------------------------------------------------------------------------
// The index
// ---------------------------------------------------------------------------
/// The place of the first record of a message; the length of the index where
/// there is none.
pub open spec fn record_place(
    records: Seq<FavoriteRecord>,
    cluster: Seq<char>,
    topic: Seq<char>,
    partition: i32,
    offset: i64,
) -> int
    decreases records.len(),
{
    if records.len() == 0 || records[0].is_of(cluster, topic, partition, offset) {
        0
    } else {
        1 + record_place(records.drop_first(), cluster, topic, partition, offset)
    }
}

pub proof fn lemma_record_place(
    records: Seq<FavoriteRecord>,
    cluster: Seq<char>,
    topic: Seq<char>,
    partition: i32,
    offset: i64,
)
    ensures
        ({
            let at = record_place(records, cluster, topic, partition, offset);
            &&& 0 <= at <= records.len()
            &&& at < records.len() ==> records[at].is_of(cluster, topic, partition, offset)
            &&& forall|k: int|
                0 <= k < at ==> !(#[trigger] records[k]).is_of(cluster, topic, partition, offset)
        }),
    decreases records.len(),
{
    if records.len() > 0 && !records[0].is_of(cluster, topic, partition, offset) {
        let rest = records.drop_first();
        lemma_record_place(rest, cluster, topic, partition, offset);
        let at = record_place(records, cluster, topic, partition, offset);
        assert forall|k: int| 0 <= k < at implies !(#[trigger] records[k]).is_of(
            cluster,
            topic,
            partition,
            offset,
        ) by {
            if k > 0 {
                assert(records[k] == rest[k - 1]);
            }
        }
    }
}

fn find_record(
    records: &Vec<FavoriteRecord>,
    cluster: &str,
    topic: &str,
    partition: i32,
    offset: i64,
) -> (r: usize)
    ensures
        r == record_place(records@, cluster@, topic@, partition, offset),
        r <= records@.len(),
{
    let mut i: usize = 0;
    proof {
        assert(records@.skip(0) =~= records@);
    }
    while i < records.len()
        invariant
            i <= records@.len(),
            record_place(records@, cluster@, topic@, partition, offset) == i + record_place(
                records@.skip(i as int),
                cluster@,
                topic@,
                partition,
                offset,
            ),
        decreases records@.len() - i,
    {
        if records[i].same_message(cluster, topic, partition, offset) {
            return i;
        }
        proof {
            assert(records@.skip(i as int).drop_first() =~= records@.skip(i + 1));
        }
        i += 1;
    }
    i
}

/// The place of the first record with an identifier.
pub open spec fn id_place(records: Seq<FavoriteRecord>, id: Seq<char>) -> int
    decreases records.len(),
{
    if records.len() == 0 || records[0].id@ == id {
        0
    } else {
        1 + id_place(records.drop_first(), id)
    }
}

fn find_id(records: &Vec<FavoriteRecord>, id: &str) -> (r: usize)
    ensures
        r == id_place(records@, id@),
        r <= records@.len(),
{
    let mut i: usize = 0;
    proof {
        assert(records@.skip(0) =~= records@);
    }
    while i < records.len()
        invariant
            i <= records@.len(),
            id_place(records@, id@) == i + id_place(records@.skip(i as int), id@),
        decreases records@.len() - i,
    {
        if same_text(records[i].id.as_str(), id) {
            return i;
        }
        proof {
            assert(records@.skip(i as int).drop_first() =~= records@.skip(i + 1));
        }
        i += 1;
    }
    i
}

/// Whether the row still holds the message that was to be saved. The table may
/// have been filtered or sorted anew meanwhile.
pub fn check_coordinates(request: &SaveFavoriteRequest, raw: &RawBody) -> (r: Result<(), String>)
    ensures
        r is Ok <==> raw.partition == request.partition && raw.offset == request.offset,
        r matches Err(e) ==> e@
            == "the message list has changed; reopen the message and try again"@,
{
    if raw.partition != request.partition || raw.offset != request.offset {
        return Err("the message list has changed; reopen the message and try again".to_owned());
    }
    Ok(())
}

/// The identifier under which a message is saved: that of its record, or a new
/// one.
pub open spec fn saved_id(
    records: Seq<FavoriteRecord>,
    cluster: Seq<char>,
    topic: Seq<char>,
    partition: i32,
    offset: i64,
    millis: int,
) -> Seq<char> {
    let at = record_place(records, cluster, topic, partition, offset);
    if at < records.len() {
        records[at].id@
    } else {
        id_text(millis as i64, cluster, topic, partition, offset)
    }
}

/// Under which identifier a message is saved. The body is written under it
/// before the index: were it the other way round, a failure would leave a record
/// without a body.
pub fn target_id(
    records: &Vec<FavoriteRecord>,
    cluster: &str,
    topic: &str,
    raw: &RawBody,
    now: Moment,
) -> (r: String)
    requires
        now.valid(),
    ensures
        r@ == saved_id(records@, cluster@, topic@, raw.partition, raw.offset, now.in_millis()),
{
    let at: usize = find_record(records, cluster, topic, raw.partition, raw.offset);
    if at < records.len() {
        records[at].id.clone()
    } else {
        new_id(now.millis(), cluster, topic, raw.partition, raw.offset)
    }
}

/// The same headers once more.
fn copy_headers(headers: &Vec<MessageHeader>) -> (r: Vec<MessageHeader>)
    ensures
        r@ == headers@,
{
    let mut out: Vec<MessageHeader> = Vec::new();
    let mut i: usize = 0;
    while i < headers.len()
        invariant
            i <= headers@.len(),
            out@ == headers@.take(i as int),
        decreases headers@.len() - i,
    {
        out.push(
            MessageHeader { key: headers[i].key.clone(), value: headers[i].value.clone() },
        );
        proof {
            assert(headers@.take(i + 1) =~= headers@.take(i as int).push(headers@[i as int]));
        }
        i += 1;
    }
    proof {
        assert(headers@.take(i as int) =~= headers@);
    }
    out
}

/// What the list shows of a body: what it was decoded to, or its bytes.
pub open spec fn preview_of(decoded: Decoded, raw: Seq<u8>) -> Seq<char> {
    match decoded {
        Some(Ok(json)) => previewed(encode_utf8(json@), PREVIEW_BYTES as int),
        _ => previewed(raw, PREVIEW_BYTES as int),
    }
}

/// Whether the list shows a body as binary.
pub open spec fn binary_of(decoded: Decoded, raw: Seq<u8>) -> bool {
    !(decoded is Some && decoded->0 is Ok) && !valid_utf8(raw)
}

fn shown(decoded: Decoded, raw: &[u8]) -> (r: (String, bool))
    ensures
        r.0@ == preview_of(decoded, raw@),
        r.1 == binary_of(decoded, raw@),
{
    let rendered = text::render(decoded);
    let binary = rendered.binary(raw);
    let preview = match &rendered.decoded {
        Some(json) => text::preview(json.as_str().as_bytes(), PREVIEW_BYTES),
        None => text::preview(raw, PREVIEW_BYTES),
    };
    (preview, binary)
}

/// A record holds a message as it came, with what its topic's schema makes of it
/// today.
pub open spec fn holds(
    record: FavoriteRecord,
    cluster: Seq<char>,
    cluster_name: Seq<char>,
    topic: Seq<char>,
    raw: RawBody,
    decoded: Decoded,
    now: Moment,
) -> bool {
    &&& record.is_of(cluster, topic, raw.partition, raw.offset)
    &&& record.cluster_name@ == cluster_name
    &&& record.timestamp == raw.timestamp
    &&& record.key == raw.key
    &&& record.preview@ == preview_of(decoded, raw.value@)
    &&& record.with_schema == (decoded is Some)
    &&& record.value_size == raw.value@.len()
    &&& record.binary == binary_of(decoded, raw.value@)
    &&& record.headers@ == raw.headers@
    &&& record.saved_at@ == rfc3339_text(now.seconds, now.nanos)
}

/// The index after a message was saved.
pub open spec fn saved(
    before: Seq<FavoriteRecord>,
    after: Seq<FavoriteRecord>,
    record: FavoriteRecord,
    at: int,
) -> bool {
    after == (if at < before.len() {
        before.update(at, record)
    } else {
        before.push(record)
    })
}

/// Saves a message. One that was saved before is updated: its identifier stays,
/// and there is no second copy. Returns the identifier, and whether the message
/// was saved before. `decoded` is what the schema of the topic made of the body.
pub fn save(
    records: &mut Vec<FavoriteRecord>,
    cluster: &str,
    cluster_name: &str,
    topic: &str,
    raw: &RawBody,
    decoded: Decoded,
    now: Moment,
) -> (r: (String, bool))
    requires
        now.valid(),
    ensures
        ({
            let at = record_place(old(records)@, cluster@, topic@, raw.partition, raw.offset);
            &&& r.0@ == saved_id(
                old(records)@,
                cluster@,
                topic@,
                raw.partition,
                raw.offset,
                now.in_millis(),
            )
            &&& r.1 == (at < old(records)@.len())
            &&& 0 <= at < final(records)@.len()
            &&& final(records)@[at].id@ == r.0@
            &&& holds(final(records)@[at], cluster@, cluster_name@, topic@, *raw, decoded, now)
            &&& saved(old(records)@, final(records)@, final(records)@[at], at)
        }),
{
    proof {
        lemma_record_place(records@, cluster@, topic@, raw.partition, raw.offset);
    }
    let at: usize = find_record(records, cluster, topic, raw.partition, raw.offset);
    let id = target_id(records, cluster, topic, raw, now);
    let with_schema = decoded.is_some();
    let (preview, binary) = shown(decoded, raw.value.as_slice());
    let record = FavoriteRecord {
        id: id.clone(),
        cluster: cluster.to_owned(),
        cluster_name: cluster_name.to_owned(),
        topic: topic.to_owned(),
        partition: raw.partition,
        offset: raw.offset,
        timestamp: raw.timestamp,
        key: raw.key.clone(),
        preview,
        with_schema,
        value_size: raw.value.len(),
        binary,
        headers: copy_headers(&raw.headers),
        saved_at: now.rfc3339(),
    };
    let updated = at < records.len();
    if updated {
        records.set(at, record);
    } else {
        records.push(record);
    }
    (id, updated)
}

/// No message has two records.
pub open spec fn one_each(records: Seq<FavoriteRecord>) -> bool {
    forall|i: int, j: int|
        0 <= i < j < records.len() ==> !(#[trigger] records[j]).is_of(
            (#[trigger] records[i]).cluster@,
            records[i].topic@,
            records[i].partition,
            records[i].offset,
        )
}

/// However often messages are saved, each has one record.
pub proof fn law_saving_keeps_one_record_each(
    before: Seq<FavoriteRecord>,
    after: Seq<FavoriteRecord>,
    record: FavoriteRecord,
    cluster: Seq<char>,
    topic: Seq<char>,
    partition: i32,
    offset: i64,
)
    requires
        one_each(before),
        record.is_of(cluster, topic, partition, offset),
        saved(before, after, record, record_place(before, cluster, topic, partition, offset)),
    ensures
        one_each(after),
{
    lemma_record_place(before, cluster, topic, partition, offset);
    let at = record_place(before, cluster, topic, partition, offset);
    assert forall|i: int, j: int| 0 <= i < j < after.len() implies !(#[trigger] after[j]).is_of(
        (#[trigger] after[i]).cluster@,
        after[i].topic@,
        after[i].partition,
        after[i].offset,
    ) by {
        if i == at {
            assert(before[j].is_of(cluster, topic, partition, offset) ==> before[at].is_of(
                cluster,
                topic,
                partition,
                offset,
            ));
            assert(!before[j].is_of(
                before[i].cluster@,
                before[i].topic@,
                before[i].partition,
                before[i].offset,
            ));
        } else if j == at {
            assert(!before[i].is_of(cluster, topic, partition, offset));
        } else {
            assert(!before[j].is_of(
                before[i].cluster@,
                before[i].topic@,
                before[i].partition,
                before[i].offset,
            ));
        }
    }
}

/// A message that is saved again keeps its identifier, at whatever time.
pub proof fn law_saved_again_keeps_its_identifier(
    before: Seq<FavoriteRecord>,
    after: Seq<FavoriteRecord>,
    record: FavoriteRecord,
    cluster: Seq<char>,
    topic: Seq<char>,
    partition: i32,
    offset: i64,
    later: int,
)
    requires
        record.is_of(cluster, topic, partition, offset),
        saved(before, after, record, record_place(before, cluster, topic, partition, offset)),
    ensures
        saved_id(after, cluster, topic, partition, offset, later) == record.id@,
        record_place(after, cluster, topic, partition, offset) < after.len(),
{
    lemma_record_place(before, cluster, topic, partition, offset);
    lemma_record_place(after, cluster, topic, partition, offset);
    let at = record_place(before, cluster, topic, partition, offset);
    let now = record_place(after, cluster, topic, partition, offset);
    assert(after[at] == record);
    assert(now <= at);
    if now < at {
        assert(after[now] == before[now]);
    }
}

/// Removes the first record with an identifier. Tells whether there was one:
/// then its body is to go too.
pub fn delete(records: &mut Vec<FavoriteRecord>, id: &str) -> (r: bool)
    ensures
        ({
            let at = id_place(old(records)@, id@);
            &&& r == (at < old(records)@.len())
            &&& final(records)@ == (if r {
                old(records)@.remove(at)
            } else {
                old(records)@
            })
        }),
{
    let at: usize = find_id(records, id);
    if at < records.len() {
        records.remove(at);
        true
    } else {
        false
    }
}

proof fn lemma_id_place(records: Seq<FavoriteRecord>, id: Seq<char>)
    ensures
        0 <= id_place(records, id) <= records.len(),
        id_place(records, id) < records.len() ==> records[id_place(records, id)].id@ == id,
        forall|k: int|
            0 <= k < id_place(records, id) ==> (#[trigger] records[k]).id@ != id,
    decreases records.len(),
{
    if records.len() > 0 && records[0].id@ != id {
        let rest = records.drop_first();
        lemma_id_place(rest, id);
        assert forall|k: int| 0 <= k < id_place(records, id) implies (#[trigger] records[k]).id@
            != id by {
            if k > 0 {
                assert(records[k] == rest[k - 1]);
            }
        }
    }
}

/// Deleting one record leaves every record with another identifier, the same
/// place of another topic among them.
pub proof fn law_deleting_leaves_the_others(records: Seq<FavoriteRecord>, id: Seq<char>, i: int)
    requires
        0 <= i < records.len(),
        records[i].id@ != id,
    ensures
        id_place(records, id) < records.len() ==> records.remove(id_place(records, id)).contains(
            records[i],
        ),
{
    lemma_id_place(records, id);
    let at = id_place(records, id);
    if at < records.len() {
        let rest = records.remove(at);
        if i < at {
            assert(rest[i] == records[i]);
        } else {
            assert(rest[i - 1] == records[i]);
        }
    }
}

// ---------------------------------------------------------------------------
// Showing
// ---------------------------------------------------------------------------
/// How much of the sizes that are known there is in all.
pub open spec fn total_size(sizes: Seq<Option<u64>>) -> int
    decreases sizes.len(),
{
    if sizes.len() == 0 {
        0
    } else {
        total_size(sizes.drop_last()) + size_or_zero(sizes.last())
    }
}

pub open spec fn size_or_zero(size: Option<u64>) -> int {
    match size {
        Some(n) => n as int,
        None => 0,
    }
}

proof fn lemma_total_size(sizes: Seq<Option<u64>>, n: int)
    requires
        0 <= n <= sizes.len(),
    ensures
        0 <= total_size(sizes.take(n)) <= total_size(sizes),
    decreases sizes.len(),
{
    if n < sizes.len() {
        assert(sizes.drop_last().take(n) =~= sizes.take(n));
        lemma_total_size(sizes.drop_last(), n);
    } else {
        assert(sizes.take(n) =~= sizes);
        if n > 0 {
            lemma_total_size(sizes.drop_last(), n - 1);
            assert(sizes.drop_last().take(n - 1) =~= sizes.drop_last());
        }
    }
}

/// All records with what they take on the disk. `sizes` are those of the bodies,
/// nothing where a file is gone; the index is counted too.
pub fn describe(
    records: Vec<FavoriteRecord>,
    sizes: &Vec<Option<u64>>,
    index_size: Option<u64>,
) -> (r: FavoritesView)
    requires
        sizes@.len() == records@.len(),
        size_or_zero(index_size) + total_size(sizes@) <= u64::MAX,
    ensures
        r.total_bytes == size_or_zero(index_size) + total_size(sizes@),
        r.items@.len() == records@.len(),
        forall|i: int|
            0 <= i < records@.len() ==> {
                &&& (#[trigger] r.items@[i]).record == records@[i]
                &&& r.items@[i].bytes == size_or_zero(sizes@[i])
                &&& r.items@[i].missing == (sizes@[i] is None)
            },
{
    let ghost all = records@;
    let mut total_bytes: u64 = match index_size {
        Some(n) => n,
        None => 0,
    };
    let mut items: Vec<FavoriteView> = Vec::new();
    let mut left = records;
    let mut i: usize = sizes.len();
    proof {
        assert(sizes@.take(i as int) =~= sizes@);
    }
    while i > 0
        invariant
            i <= sizes@.len(),
            sizes@.len() == all.len(),
            left@ == all.take(i as int),
            items@.len() == all.len() - i,
            size_or_zero(index_size) + total_size(sizes@) <= u64::MAX,
            total_bytes == size_or_zero(index_size) + total_size(sizes@) - total_size(
                sizes@.take(i as int),
            ),
            forall|k: int|
                0 <= k < items@.len() ==> {
                    &&& (#[trigger] items@[k]).record == all[all.len() - 1 - k]
                    &&& items@[k].bytes == size_or_zero(sizes@[all.len() - 1 - k])
                    &&& items@[k].missing == (sizes@[all.len() - 1 - k] is None)
                },
        decreases i,
    {
        proof {
            lemma_total_size(sizes@, i - 1);
            lemma_total_size(sizes@, i as int);
            assert(sizes@.take(i as int).drop_last() =~= sizes@.take(i - 1));
        }
        i -= 1;
        let (bytes, missing): (u64, bool) = match sizes[i] {
            Some(n) => (n, false),
            None => (0, true),
        };
        total_bytes += bytes;
        if let Some(record) = left.pop() {
            items.push(FavoriteView { record, bytes, missing });
        }
        proof {
            assert(left@ =~= all.take(i as int));
        }
    }
    let ghost backwards = items@;
    let mut ordered: Vec<FavoriteView> = Vec::new();
    while items.len() > 0
        invariant
            items@ == backwards.take(items@.len() as int),
            items@.len() <= backwards.len(),
            backwards.len() == all.len(),
            ordered@.len() == backwards.len() - items@.len(),
            forall|k: int|
                0 <= k < ordered@.len() ==> #[trigger] ordered@[k] == backwards[backwards.len() - 1
                    - k],
        decreases items@.len(),
    {
        if let Some(item) = items.pop() {
            ordered.push(item);
        }
        proof {
            assert(items@ =~= backwards.take(items@.len() as int));
        }
    }
    proof {
        assert(sizes@.take(0) =~= Seq::empty());
        assert forall|i: int| 0 <= i < all.len() implies {
            &&& (#[trigger] ordered@[i]).record == all[i]
            &&& ordered@[i].bytes == size_or_zero(sizes@[i])
            &&& ordered@[i].missing == (sizes@[i] is None)
        } by {
            assert(ordered@[i] == backwards[backwards.len() - 1 - i]);
        }
    }
    FavoritesView { items: ordered, total_bytes }
}

/// Whether the preview of a record is to be made anew: a schema came or went
/// since it was made.
pub fn is_stale(record: &FavoriteRecord, has_schema: bool) -> (r: bool)
    ensures
        r == (record.with_schema != has_schema),
{
    record.with_schema != has_schema
}

/// A record after it was brought in line with the schema of today.
pub open spec fn refreshed(
    before: FavoriteRecord,
    after: FavoriteRecord,
    has_schema: bool,
    body: Option<(Seq<u8>, Decoded)>,
) -> bool {
    if before.with_schema == has_schema {
        after == before
    } else {
        match body {
            Some((raw, decoded)) => after == (FavoriteRecord {
                with_schema: has_schema,
                preview: after.preview,
                binary: binary_of(decoded, raw),
                ..before
            }) && after.preview@ == preview_of(decoded, raw),
            None => after == (FavoriteRecord { with_schema: has_schema, ..before }),
        }
    }
}

/// Brings the preview of a record in line with the schema of today. Tells
/// whether there was anything to do. `body` is the body and what the schema made
/// of it, nothing where its file is gone: then only the mark moves, or the same
/// record would be tried at every look at the list.
pub fn refresh_preview(
    record: &mut FavoriteRecord,
    has_schema: bool,
    body: Option<(&[u8], Decoded)>,
) -> (r: bool)
    ensures
        r == (old(record).with_schema != has_schema),
        refreshed(
            *old(record),
            *final(record),
            has_schema,
            match body {
                Some((raw, decoded)) => Some((raw@, decoded)),
                None => None,
            },
        ),
{
    if record.with_schema == has_schema {
        return false;
    }
    record.with_schema = has_schema;
    if let Some((raw, decoded)) = body {
        let (preview, binary) = shown(decoded, raw);
        record.preview = preview;
        record.binary = binary;
    }
    true
}

/// A second look with the same schema finds nothing to do.
pub proof fn law_refreshing_converges(
    before: FavoriteRecord,
    after: FavoriteRecord,
    has_schema: bool,
    body: Option<(Seq<u8>, Decoded)>,
)
    requires
        refreshed(before, after, has_schema, body),
    ensures
        after.with_schema == has_schema,
{
}

/// Which record has an identifier.
pub fn lookup(records: &Vec<FavoriteRecord>, id: &str) -> (r: Result<usize, String>)
    ensures
        match r {
            Ok(at) => at < records@.len() && at == id_place(records@, id@),
            Err(e) => id_place(records@, id@) >= records@.len() && e@ == "no saved message "@ + id@,
        },
{
    let at: usize = find_id(records, id);
    if at < records.len() {
        return Ok(at);
    }
    let mut e = "no saved message ".to_owned();
    e.push_str(id);
    Err(e)
}

/// A saved message as it is opened.
pub open spec fn opened(
    saved: SavedMessage,
    record: FavoriteRecord,
    raw: Seq<u8>,
    decoded: DecodedBody,
    format: Option<BodyFormat>,
) -> bool {
    let m = saved.message;
    &&& saved.format == (match format {
        Some(f) => f,
        None => BodyFormat::Json,
    })
    &&& m.partition == record.partition
    &&& m.offset == record.offset
    &&& m.timestamp == record.timestamp
    &&& m.key == record.key
    &&& m.headers@ == record.headers@
    &&& m.value_size == raw.len()
    &&& match decoded {
        Some(Ok((value, enums))) => m.value == value && m.enum_values == enums && !m.binary
            && m.decode_error is None,
        Some(Err(e)) => m.value@ == lossy(raw) && m.enum_values@.len() == 0 && m.binary
            == !valid_utf8(raw) && m.decode_error == Some(e),
        None => m.value@ == lossy(raw) && m.enum_values@.len() == 0 && m.binary == !valid_utf8(raw)
            && m.decode_error is None,
    }
}

/// What was saved is what is opened: the place, the time, the key and the
/// headers of the message as it came, and its body, byte for byte where it is
/// text.
pub proof fn law_what_was_saved_is_opened(
    record: FavoriteRecord,
    cluster: Seq<char>,
    cluster_name: Seq<char>,
    topic: Seq<char>,
    raw: RawBody,
    decoded_then: Decoded,
    now: Moment,
    opened_message: SavedMessage,
    format: Option<BodyFormat>,
)
    requires
        holds(record, cluster, cluster_name, topic, raw, decoded_then, now),
        opened(opened_message, record, raw.value@, None, format),
    ensures
        opened_message.message.partition == raw.partition,
        opened_message.message.offset == raw.offset,
        opened_message.message.timestamp == raw.timestamp,
        opened_message.message.key == raw.key,
        opened_message.message.headers@ == raw.headers@,
        opened_message.message.value_size == raw.value@.len(),
        valid_utf8(raw.value@) ==> encode_utf8(opened_message.message.value@) == raw.value@,
        opened_message.message.binary == !valid_utf8(raw.value@),
{
    if valid_utf8(raw.value@) {
        vstd::utf8::decode_utf8_encode_utf8(raw.value@);
    }
}

/// A saved message as it is opened: made right now of its record and its body,
/// by the schema that the topic has today. `format` is that of the topic,
/// nothing where none was chosen.
pub fn message(
    record: &FavoriteRecord,
    raw: &[u8],
    decoded: DecodedBody,
    format: Option<BodyFormat>,
) -> (r: SavedMessage)
    ensures
        opened(r, *record, raw@, decoded, format),
{
    let shown = text::body(decoded, raw);
    let format = match format {
        Some(f) => f,
        None => BodyFormat::default(),
    };
    SavedMessage {
        message: FullMessage {
            partition: record.partition,
            offset: record.offset,
            timestamp: record.timestamp,
            key: record.key.clone(),
            value: shown.value,
            value_size: raw.len(),
            binary: shown.binary,
            decode_error: shown.decode_error,
            enum_values: shown.enum_values,
            headers: copy_headers(&record.headers),
        },
        format,
    }
}

/// The hash of bytes: the offset of FNV with 64 bits, and for each byte an
/// exclusive or with it and a multiplication by the prime, without the overflow.
pub proof fn law_hash_of_bytes(bytes: Seq<u8>, byte: u8)
    ensures
        fnv(Seq::empty()) == 14_695_981_039_346_656_037,
        fnv(bytes.push(byte)) == ((fnv(bytes) ^ (byte as u64)) as int * 1_099_511_628_211)
            % 18_446_744_073_709_551_616,
{
    assert(bytes.push(byte).drop_last() =~= bytes);
}

/// Digits of a number, the lowest last and in lower case: as many as were asked
/// for, or as many as it takes, without a zero in front.
pub proof fn law_digits_of_an_identifier(n: nat, width: nat)
    ensures
        hex_digits(n, width).len() == width,
        width > 0 ==> hex_digits(n, width).last() == "0123456789abcdef"@[n as int % 16],
        width > 0 ==> hex_digits(n, width).drop_last() == hex_digits(n / 16, (width - 1) as nat),
        hex_text(n).last() == "0123456789abcdef"@[n as int % 16],
        n < 16 ==> hex_text(n).len() == 1,
        n >= 16 ==> hex_text(n).drop_last() == hex_text(n / 16),
        n > 0 ==> hex_text(n)[0] != '0',
    decreases width, n,
{
    reveal_strlit("0123456789abcdef");
    if width > 0 {
        law_digits_of_an_identifier(n / 16, (width - 1) as nat);
        assert(hex_digits(n, width).drop_last() =~= hex_digits(n / 16, (width - 1) as nat));
    }
    lemma_hex_text(n);
    if n >= 16 {
        assert(hex_text(n).drop_last() =~= hex_text(n / 16));
    }
}

proof fn lemma_hex_text(n: nat)
    ensures
        hex_text(n).len() > 0,
        n > 0 ==> hex_text(n)[0] != '0',
    decreases n,
{
    if n >= 16 {
        lemma_hex_text(n / 16);
    }
}

/// An identifier is the time of saving, a hyphen and the hash of the message in
/// sixteen digits.
pub proof fn law_shape_of_an_identifier(
    millis: i64,
    cluster: Seq<char>,
    topic: Seq<char>,
    partition: i32,
    offset: i64,
)
    requires
        millis >= 0,
    ensures
        ({
            let id = id_text(millis, cluster, topic, partition, offset);
            let n = id.len() - 17;
            &&& n > 0
            &&& id.take(n) == hex_text(millis as nat)
            &&& id[n] == '-'
            &&& id.skip(n + 1) == hex_digits(
                fnv(
                    encode_utf8(
                        cluster + seq!['\0'] + topic + seq!['\0'] + signed_decimal(partition as int)
                            + seq!['\0'] + signed_decimal(offset as int),
                    ),
                ) as nat,
                16,
            )
        }),
{
    let id = id_text(millis, cluster, topic, partition, offset);
    let whole = cluster + seq!['\0'] + topic + seq!['\0'] + signed_decimal(partition as int)
        + seq!['\0'] + signed_decimal(offset as int);
    assert(whole =~= seed(cluster, topic, partition as int, offset as int));
    let tail = hex_digits(fnv(encode_utf8(whole)) as nat, 16);
    law_digits_of_an_identifier(fnv(encode_utf8(whole)) as nat, 16);
    lemma_hex_text(millis as nat);
    let n = id.len() - 17;
    assert(id.take(n) =~= hex_text(millis as nat));
    assert(id.skip(n + 1) =~= tail);
}

/// What the list shows of a body: two hundred and fifty-six bytes at most of what
/// it was decoded to, and of the body itself where it was not.
pub proof fn law_what_the_list_shows(json: String, error: String, raw: Seq<u8>)
    ensures
        preview_of(Some(Ok(json)), raw) == previewed(encode_utf8(json@), 256),
        preview_of(Some(Err(error)), raw) == previewed(raw, 256),
        preview_of(None, raw) == previewed(raw, 256),
        !binary_of(Some(Ok(json)), raw),
        binary_of(Some(Err(error)), raw) == !valid_utf8(raw),
        binary_of(None, raw) == !valid_utf8(raw),
{
}

/// A record is that of a message whose cluster, topic, partition and offset are
/// all its own.
pub proof fn law_record_of_a_message(
    record: FavoriteRecord,
    cluster: Seq<char>,
    cluster_name: Seq<char>,
    topic: Seq<char>,
    raw: RawBody,
    decoded: Decoded,
    now: Moment,
)
    requires
        holds(record, cluster, cluster_name, topic, raw, decoded, now),
    ensures
        record.cluster@ == cluster,
        record.cluster_name@ == cluster_name,
        record.topic@ == topic,
        record.partition == raw.partition,
        record.offset == raw.offset,
        record.timestamp == raw.timestamp,
        record.key@ == raw.key@,
        record.headers@ == raw.headers@,
        record.value_size == raw.value@.len(),
        record.with_schema <==> decoded is Some,
{
}

/// A message that was saved before is updated in its place, and a new one comes
/// last; the others stay where they are.
pub proof fn law_saved_in_its_place(
    before: Seq<FavoriteRecord>,
    after: Seq<FavoriteRecord>,
    record: FavoriteRecord,
    k: int,
)
    requires
        saved(
            before,
            after,
            record,
            record_place(
                before,
                record.cluster@,
                record.topic@,
                record.partition,
                record.offset,
            ),
        ),
        one_each(before),
    ensures
        0 <= k < before.len() && before[k].cluster@ == record.cluster@ && before[k].topic@
            == record.topic@ && before[k].partition == record.partition && before[k].offset
            == record.offset ==> after[k] == record && after.len() == before.len(),
        (forall|i: int|
            0 <= i < before.len() ==> !((#[trigger] before[i]).cluster@ == record.cluster@
                && before[i].topic@ == record.topic@ && before[i].partition == record.partition
                && before[i].offset == record.offset)) ==> after == before.push(record),
        0 <= k < before.len() && (before[k].cluster@ != record.cluster@ || before[k].topic@
            != record.topic@ || before[k].partition != record.partition || before[k].offset
            != record.offset) ==> after[k] == before[k],
{
    let at = record_place(
        before,
        record.cluster@,
        record.topic@,
        record.partition,
        record.offset,
    );
    lemma_record_place(
        before,
        record.cluster@,
        record.topic@,
        record.partition,
        record.offset,
    );
    if at < before.len() {
        assert(before[at].is_of(
            record.cluster@,
            record.topic@,
            record.partition,
            record.offset,
        ));
        if 0 <= k < before.len() && k != at && before[k].is_of(
            record.cluster@,
            record.topic@,
            record.partition,
            record.offset,
        ) {
            if k < at {
                assert(!before[at].is_of(
                    before[k].cluster@,
                    before[k].topic@,
                    before[k].partition,
                    before[k].offset,
                ));
            } else {
                assert(!before[k].is_of(
                    before[at].cluster@,
                    before[at].topic@,
                    before[at].partition,
                    before[at].offset,
                ));
            }
        }
    } else if 0 <= k < before.len() {
        assert(!before[k].is_of(
            record.cluster@,
            record.topic@,
            record.partition,
            record.offset,
        ));
    }
}

/// Bringing a record in line with the schema of today changes its preview alone,
/// and only where a schema came or went; without a body the preview stays too.
pub proof fn law_what_refreshing_changes(
    before: FavoriteRecord,
    after: FavoriteRecord,
    has_schema: bool,
    body: Option<(Seq<u8>, Decoded)>,
)
    requires
        refreshed(before, after, has_schema, body),
    ensures
        before.with_schema == has_schema ==> after == before,
        body is None ==> after.preview == before.preview && after.binary == before.binary,
        before.with_schema != has_schema && body is Some ==> after.preview@ == preview_of(
            (body->0).1,
            (body->0).0,
        ) && after.binary == binary_of((body->0).1, (body->0).0),
        after.id == before.id,
        after.cluster == before.cluster,
        after.topic == before.topic,
        after.partition == before.partition,
        after.offset == before.offset,
        after.timestamp == before.timestamp,
        after.key == before.key,
        after.headers == before.headers,
        after.value_size == before.value_size,
        after.saved_at == before.saved_at,
{
}

/// Sizes add up; a file that is gone takes nothing.
pub proof fn law_sizes_add_up(sizes: Seq<Option<u64>>, n: u64)
    ensures
        total_size(Seq::empty()) == 0,
        total_size(sizes.push(Some(n))) == total_size(sizes) + n,
        total_size(sizes.push(None)) == total_size(sizes),
{
    assert(sizes.push(Some(n)).drop_last() =~= sizes);
    assert(sizes.push(None).drop_last() =~= sizes);
}

/// A saved message is opened as JSON where its topic says nothing else. What the
/// schema made of its body is shown, and the body itself where it made nothing of
/// it, with the reason.
pub proof fn law_opened_by_the_schema(
    saved: SavedMessage,
    record: FavoriteRecord,
    raw: Seq<u8>,
    decoded: DecodedBody,
    format: Option<BodyFormat>,
)
    requires
        opened(saved, record, raw, decoded, format),
    ensures
        format is None ==> saved.format == BodyFormat::Json,
        format matches Some(f) ==> saved.format == f,
        decoded is Some && decoded->0 is Ok ==> saved.message.value == (decoded->0->Ok_0).0
            && !saved.message.binary && saved.message.decode_error is None,
        decoded is Some && decoded->0 is Err ==> saved.message.decode_error == Some(
            decoded->0->Err_0,
        ) && saved.message.value@ == lossy(raw),
        decoded is None ==> saved.message.decode_error is None && saved.message.value@ == lossy(raw),
        saved.message.value_size == raw.len(),
{
}

/// A body that no schema made anything of is binary where it is no text, and has
/// no names of numbers in it.
pub proof fn law_opened_without_a_schema(
    saved: SavedMessage,
    record: FavoriteRecord,
    raw: Seq<u8>,
    decoded: DecodedBody,
    format: Option<BodyFormat>,
)
    requires
        opened(saved, record, raw, decoded, format),
    ensures
        decoded is None || decoded->0 is Err ==> saved.message.enum_values@.len() == 0
            && saved.message.binary == !valid_utf8(raw),
        decoded is Some && decoded->0 is Ok ==> saved.message.enum_values == (decoded->0->Ok_0).1,
{
}

/// A record is found by its identifier where one has it, the first one of them.
pub proof fn law_record_is_found_by_its_identifier(
    records: Seq<FavoriteRecord>,
    id: Seq<char>,
    k: int,
)
    requires
        0 <= k < records.len(),
        records[k].id@ == id,
        forall|i: int| 0 <= i < k ==> (#[trigger] records[i]).id@ != id,
    ensures
        id_place(records, id) == k,
    decreases k,
{
    if k > 0 {
        assert(records[0].id@ != id);
        let rest = records.drop_first();
        assert(rest[k - 1] == records[k]);
        assert forall|i: int| 0 <= i < k - 1 implies (#[trigger] rest[i]).id@ != id by {
            assert(rest[i] == records[i + 1]);
        }
        law_record_is_found_by_its_identifier(rest, id, k - 1);
    }
}

} // verus!
