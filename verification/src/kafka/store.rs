//! A compact store of messages.
//!
//! The bytes of all messages lie one after another in a single growing buffer,
//! the arena; beside it stands a dense array of records of fixed size that
//! point into it. Bytes are copied once. Sorting moves the records only.
//!
//! The records are split by a boundary:
//!
//! * `[0, committed)` is published. This, and only this, is what a table shows.
//!   Its order is frozen for good: a row once shown under a number keeps it.
//! * `[committed, len)` is staged: read, but without a final place yet, because
//!   some partition may still bring a message that belongs above it.

use vstd::bytes::{
    lemma_auto_spec_u32_to_from_le_bytes, spec_u32_from_le_bytes, spec_u32_to_le_bytes,
    u32_from_le_bytes, u32_to_le_bytes,
};
use vstd::prelude::*;
use vstd::slice::slice_subrange;
use vstd::utf8::{decode_utf8, encode_utf8, valid_utf8};

use crate::kafka::search::text_of_utf8;
use crate::sorting::{lemma_map_rearranged, lemma_rearranged_members, sort_by_rank, Ranking};

verus! {

/// A piece of the arena.
#[derive(Clone, Copy, Debug)]
pub struct Span {
    pub start: u32,
    pub len: u32,
}

impl Span {
    spec fn end(&self) -> int {
        self.start + self.len
    }

    spec fn bytes(&self, blob: Seq<u8>) -> Seq<u8> {
        blob.subrange(self.start as int, self.end())
    }
}

/// A record of fixed size, without any string in it.
#[derive(Clone, Copy, Debug)]
pub struct MessageMeta {
    pub partition: i32,
    pub offset: i64,
    pub timestamp: i64,
    pub key: Span,
    pub value: Span,
    pub headers: Span,
    pub header_count: u32,
}

/// A message as it was given to the store.
#[verifier::ext_equal]
pub struct Stored {
    pub partition: i32,
    pub offset: i64,
    pub timestamp: i64,
    pub key: Seq<u8>,
    pub value: Seq<u8>,
    pub headers: Seq<(Seq<char>, Seq<u8>)>,
}

/// Messages in one buffer, with a published beginning that never moves.
pub struct MessageStore {
    blob: Vec<u8>,
    index: Vec<MessageMeta>,
    max_bytes: usize,
    committed: usize,
}

/// The ceiling of the buffer. When it is reached the read is cut short instead
/// of growing until memory runs out.
pub const DEFAULT_MAX_BYTES: usize = 268_435_456;

/// A piece with its length before it, as it lies in the arena.
pub open spec fn chunk(bytes: Seq<u8>) -> Seq<u8> {
    spec_u32_to_le_bytes(bytes.len() as u32) + bytes
}

/// Headers as they lie in the arena: length, name, length, value, and so on.
pub open spec fn packed(headers: Seq<(Seq<char>, Seq<u8>)>) -> Seq<u8>
    decreases headers.len(),
{
    if headers.len() == 0 {
        Seq::empty()
    } else {
        packed(headers.drop_last()) + chunk(encode_utf8(headers.last().0)) + chunk(
            headers.last().1,
        )
    }
}

/// How many bytes of the arena a message takes.
pub open spec fn footprint_of(
    key: Seq<u8>,
    value: Seq<u8>,
    headers: Seq<(Seq<char>, Seq<u8>)>,
) -> nat {
    key.len() + value.len() + packed(headers).len()
}

/// The piece that starts at a position, and where the next one starts.
spec fn chunk_at(bytes: Seq<u8>, pos: int) -> Option<(Seq<u8>, int)> {
    if 0 <= pos && pos + 4 <= bytes.len() {
        let len = spec_u32_from_le_bytes(bytes.subrange(pos, pos + 4)) as int;
        if pos + 4 + len <= bytes.len() {
            Some((bytes.subrange(pos + 4, pos + 4 + len), pos + 4 + len))
        } else {
            None
        }
    } else {
        None
    }
}

/// The first `count` headers, and where they end.
spec fn unpacked(bytes: Seq<u8>, count: nat) -> Option<(Seq<(Seq<char>, Seq<u8>)>, int)>
    decreases count,
{
    if count == 0 {
        Some((Seq::empty(), 0))
    } else {
        match unpacked(bytes, (count - 1) as nat) {
            None => None,
            Some((before, pos)) => match chunk_at(bytes, pos) {
                None => None,
                Some((name, middle)) => match chunk_at(bytes, middle) {
                    None => None,
                    Some((value, end)) => if valid_utf8(name) {
                        Some((before.push((decode_utf8(name), value)), end))
                    } else {
                        None
                    },
                },
            },
        }
    }
}

impl MessageMeta {
    /// The end of the record's bytes in the arena.
    spec fn end(&self) -> int {
        self.headers.end()
    }

    /// The record's pieces follow one another inside the arena.
    spec fn fits(&self, blob: Seq<u8>) -> bool {
        &&& self.key.end() == self.value.start
        &&& self.value.end() == self.headers.start
        &&& self.headers.end() <= blob.len()
        &&& unpacked(self.headers.bytes(blob), self.header_count as nat) is Some
    }

    spec fn read(&self, blob: Seq<u8>) -> Stored {
        Stored {
            partition: self.partition,
            offset: self.offset,
            timestamp: self.timestamp,
            key: self.key.bytes(blob),
            value: self.value.bytes(blob),
            headers: (unpacked(self.headers.bytes(blob), self.header_count as nat)->0).0,
        }
    }
}

/// The order of a read: by time, newest or oldest first, then by offset. The
/// partition comes last, so that nothing is left open.
pub open spec fn read_before(newest_first: bool, a: Stored, b: Stored) -> bool {
    if a.timestamp != b.timestamp {
        if newest_first {
            a.timestamp > b.timestamp
        } else {
            a.timestamp < b.timestamp
        }
    } else if a.offset != b.offset {
        a.offset < b.offset
    } else {
        a.partition <= b.partition
    }
}

/// What names and values a list of headers holds.
pub open spec fn headers_view(headers: Seq<(&str, &[u8])>) -> Seq<(Seq<char>, Seq<u8>)> {
    Seq::new(headers.len(), |i: int| (headers[i].0@, headers[i].1@))
}

impl MessageStore {
    /// A number of bytes that the store can hold: room for at least the useful
    /// bytes, and for at least as many records as there are.
    pub open spec fn holds_memory(&self, bytes: usize) -> bool {
        exists|arena: usize, slots: usize|
            arena >= self.used() && slots >= self.messages().len() && bytes == #[trigger] held(
                arena,
                slots,
            )
    }

    pub closed spec fn wf(&self) -> bool {
        &&& self.committed <= self.index@.len()
        &&& self.blob@.len() <= u32::MAX
        &&& forall|i: int| 0 <= i < self.index@.len() ==> (#[trigger] self.index@[i]).fits(self.blob@)
        &&& self.index@.len() == 0 ==> self.blob@.len() == 0
        &&& self.index@.len() > 0 ==> exists|i: int|
            0 <= i < self.index@.len() && (#[trigger] self.index@[i]).end() == self.blob@.len()
    }

    /// The arena ends where the bytes of some message end, and none ends behind
    /// it; without messages it is empty.
    pub open spec fn ends_with_a_message(&self) -> bool {
        &&& forall|i: int|
            0 <= i < self.messages().len() ==> 0 <= #[trigger] self.extent(i) <= self.used()
        &&& self.messages().len() == 0 ==> self.used() == 0
        &&& self.messages().len() > 0 ==> exists|i: int|
            0 <= i < self.messages().len() && #[trigger] self.extent(i) == self.used()
    }

    /// The messages, in the order of the records.
    pub closed spec fn messages(&self) -> Seq<Stored> {
        Seq::new(self.index@.len(), |i: int| self.index@[i].read(self.blob@))
    }

    /// How many of them are published.
    pub closed spec fn published(&self) -> nat {
        self.committed as nat
    }

    /// The ceiling of the arena.
    pub closed spec fn limit(&self) -> nat {
        self.max_bytes as nat
    }

    /// How many bytes of the arena are in use.
    pub closed spec fn used(&self) -> nat {
        self.blob@.len()
    }

    /// Where in the arena the bytes of a message end.
    pub closed spec fn extent(&self, i: int) -> int {
        self.index@[i].end()
    }

    /// The record of a message.
    pub closed spec fn meta(&self, i: int) -> MessageMeta {
        self.index@[i]
    }

    /// The record of a message says where the message comes from.
    pub proof fn lemma_meta(&self, i: int)
        requires
            0 <= i < self.messages().len(),
        ensures
            self.meta(i).partition == self.messages()[i].partition,
            self.meta(i).offset == self.messages()[i].offset,
            self.meta(i).timestamp == self.messages()[i].timestamp,
    {
    }

    /// What holds of every store: it is a list of messages with a boundary in
    /// it, and the arena ends where the last bytes of a message do.
    pub proof fn lemma_bounds(&self)
        requires
            self.wf(),
        ensures
            self.published() <= self.messages().len(),
            self.messages().len() <= usize::MAX,
            self.used() <= u32::MAX,
            self.limit() <= usize::MAX,
            self.ends_with_a_message(),
    {
        assert(self.index.len() == self.messages().len());
        assert forall|i: int| 0 <= i < self.messages().len() implies 0 <= #[trigger] self.extent(i)
            <= self.used() by {
            assert(self.index@[i].fits(self.blob@));
        }
        if self.messages().len() > 0 {
            let i = choose|i: int|
                0 <= i < self.index@.len() && (#[trigger] self.index@[i]).end() == self.blob@.len();
            assert(self.extent(i) == self.used());
        }
    }
}

impl Default for MessageStore {
    fn default() -> (r: Self)
        ensures
            r.wf(),
            r.messages() == Seq::<Stored>::empty(),
            r.published() == 0,
            r.used() == 0,
            r.limit() == DEFAULT_MAX_BYTES,
    {
        Self::new(DEFAULT_MAX_BYTES)
    }
}

/// Appending to the arena changes no message that is already in it.
proof fn lemma_grown(meta: MessageMeta, blob: Seq<u8>, more: Seq<u8>)
    requires
        meta.fits(blob),
    ensures
        meta.fits(blob + more),
        meta.read(blob + more) == meta.read(blob),
{
    let all = blob + more;
    assert(meta.key.bytes(all) =~= meta.key.bytes(blob));
    assert(meta.value.bytes(all) =~= meta.value.bytes(blob));
    assert(meta.headers.bytes(all) =~= meta.headers.bytes(blob));
}

/// Cutting the arena behind a message does not change the message.
proof fn lemma_cut(meta: MessageMeta, blob: Seq<u8>, len: int)
    requires
        meta.fits(blob),
        meta.end() <= len <= blob.len(),
    ensures
        meta.fits(blob.take(len)),
        meta.read(blob.take(len)) == meta.read(blob),
{
    let cut = blob.take(len);
    assert(meta.key.bytes(cut) =~= meta.key.bytes(blob));
    assert(meta.value.bytes(cut) =~= meta.value.bytes(blob));
    assert(meta.headers.bytes(cut) =~= meta.headers.bytes(blob));
}

/// A piece reads back where it was put.
proof fn lemma_chunk_reads_back(before: Seq<u8>, bytes: Seq<u8>, after: Seq<u8>)
    requires
        bytes.len() <= u32::MAX,
    ensures
        chunk_at(before + chunk(bytes) + after, before.len() as int) == Some(
            (bytes, (before.len() + 4 + bytes.len()) as int),
        ),
{
    lemma_auto_spec_u32_to_from_le_bytes();
    let all = before + chunk(bytes) + after;
    let pos = before.len() as int;
    let head = spec_u32_to_le_bytes(bytes.len() as u32);
    assert(head.len() == 4);
    assert(all.subrange(pos, pos + 4) =~= head);
    assert(all.subrange(pos + 4, pos + 4 + bytes.len()) =~= bytes);
}

/// Bytes behind the first headers do not change what is read of them.
proof fn lemma_unpacked_grown(bytes: Seq<u8>, more: Seq<u8>, count: nat)
    requires
        unpacked(bytes, count) is Some,
    ensures
        unpacked(bytes + more, count) == unpacked(bytes, count),
        0 <= (unpacked(bytes, count)->0).1 <= bytes.len(),
        (unpacked(bytes, count)->0).0.len() == count,
    decreases count,
{
    if count > 0 {
        lemma_unpacked_grown(bytes, more, (count - 1) as nat);
        let pos = (unpacked(bytes, (count - 1) as nat)->0).1;
        lemma_chunk_at_grown(bytes, more, pos);
        let middle = (chunk_at(bytes, pos)->0).1;
        lemma_chunk_at_grown(bytes, more, middle);
    }
}

proof fn lemma_chunk_at_grown(bytes: Seq<u8>, more: Seq<u8>, pos: int)
    requires
        chunk_at(bytes, pos) is Some,
    ensures
        chunk_at(bytes + more, pos) == chunk_at(bytes, pos),
        pos <= (chunk_at(bytes, pos)->0).1 <= bytes.len(),
{
    let all = bytes + more;
    assert(all.subrange(pos, pos + 4) =~= bytes.subrange(pos, pos + 4));
    let len = spec_u32_from_le_bytes(bytes.subrange(pos, pos + 4)) as int;
    assert(all.subrange(pos + 4, pos + 4 + len) =~= bytes.subrange(pos + 4, pos + 4 + len));
}

/// Packed headers unpack to what was packed.
proof fn lemma_packed_reads_back(headers: Seq<(Seq<char>, Seq<u8>)>)
    requires
        packed(headers).len() <= u32::MAX,
    ensures
        unpacked(packed(headers), headers.len()) == Some((headers, packed(headers).len() as int)),
    decreases headers.len(),
{
    lemma_auto_spec_u32_to_from_le_bytes();
    if headers.len() > 0 {
        let init = headers.drop_last();
        let (name, value) = headers.last();
        let start = packed(init);
        let name_bytes = encode_utf8(name);
        let first = chunk(name_bytes);
        let second = chunk(value);
        let all = packed(headers);
        assert(all =~= start + (first + second));
        lemma_packed_reads_back(init);
        lemma_unpacked_grown(start, first + second, init.len());
        lemma_chunk_reads_back(start, name_bytes, second);
        assert(all =~= start + first + second);
        lemma_chunk_reads_back(start + first, value, Seq::empty());
        assert((start + first) + second + Seq::empty() =~= all);
        vstd::utf8::encode_utf8_valid_utf8(name);
        vstd::utf8::encode_utf8_decode_utf8(name);
        assert((headers.len() - 1) as nat == init.len());
        assert(init.push((name, value)) =~= headers);
    } else {
        assert(headers =~= Seq::empty());
    }
}

/// `Vec::capacity` is never less than the number of elements. How much more an
/// allocator gave is not known.
#[verifier::external_body]
fn capacity_of<T>(v: &Vec<T>) -> (r: usize)
    ensures
        r >= v@.len(),
{
    v.capacity()
}

/// Copies bytes to the end of a buffer.
fn append(blob: &mut Vec<u8>, bytes: &[u8])
    ensures
        final(blob)@ == old(blob)@ + bytes@,
{
    blob.extend_from_slice(bytes);
    proof {
        assert(blob@ =~= old(blob)@ + bytes@);
    }
}

/// Copies bytes to the end of a buffer, with their length before them.
fn append_chunk(blob: &mut Vec<u8>, bytes: &[u8])
    requires
        bytes@.len() <= u32::MAX,
    ensures
        final(blob)@ == old(blob)@ + chunk(bytes@),
{
    let length = u32_to_le_bytes(bytes.len() as u32);
    append(blob, length.as_slice());
    append(blob, bytes);
    proof {
        assert(blob@ =~= old(blob)@ + chunk(bytes@));
    }
}

/// Reads the piece that starts at a position.
fn read_chunk(bytes: &[u8], pos: usize) -> (r: Option<(&[u8], usize)>)
    ensures
        match (r, chunk_at(bytes@, pos as int)) {
            (Some((found, end)), Some((piece, next))) => found@ == piece && end == next,
            (None, None) => true,
            _ => false,
        },
{
    if bytes.len() < 4 || pos > bytes.len() - 4 {
        return None;
    }
    let header_end: usize = pos + 4;
    let len_bytes = slice_subrange(bytes, pos, header_end);
    let len: u32 = u32_from_le_bytes(len_bytes);
    if len as u64 > (bytes.len() - header_end) as u64 {
        return None;
    }
    let end: usize = header_end + len as usize;
    Some((slice_subrange(bytes, header_end, end), end))
}

/// The order of the staged records.
struct StagedOrder<'a> {
    index: &'a Vec<MessageMeta>,
    newest_first: bool,
}

impl<'a> Ranking for StagedOrder<'a> {
    closed spec fn knows(&self, a: usize) -> bool {
        a < self.index@.len()
    }

    closed spec fn le(&self, a: usize, b: usize) -> bool {
        let x = self.index@[a as int];
        let y = self.index@[b as int];
        if x.timestamp != y.timestamp {
            if self.newest_first {
                x.timestamp > y.timestamp
            } else {
                x.timestamp < y.timestamp
            }
        } else if x.offset != y.offset {
            x.offset < y.offset
        } else {
            x.partition <= y.partition
        }
    }

    proof fn le_total(&self, a: usize, b: usize) {
    }

    proof fn le_transitive(&self, a: usize, b: usize, c: usize) {
    }

    fn at_most(&self, a: usize, b: usize) -> (r: bool) {
        let x = &self.index[a];
        let y = &self.index[b];
        if x.timestamp != y.timestamp {
            if self.newest_first {
                x.timestamp > y.timestamp
            } else {
                x.timestamp < y.timestamp
            }
        } else if x.offset != y.offset {
            x.offset < y.offset
        } else {
            x.partition <= y.partition
        }
    }
}

/// How many bytes an arena and so many places for records hold together, as far
/// as that can be counted.
pub open spec fn held(arena: usize, slots: usize) -> int {
    let bytes = arena + slots * vstd::layout::size_of::<MessageMeta>();
    if bytes > usize::MAX {
        usize::MAX as int
    } else {
        bytes as int
    }
}

/// The memory of an arena and of places for records.
pub fn memory_of(arena: usize, slots: usize) -> (r: usize)
    ensures
        r == held(arena, slots),
{
    let records: usize = match slots.checked_mul(core::mem::size_of::<MessageMeta>()) {
        Some(n) => n,
        None => usize::MAX,
    };
    arena.saturating_add(records)
}

/// Nothing about a store but its boundary differs.
pub open spec fn same_but_boundary(a: MessageStore, b: MessageStore) -> bool {
    &&& a.messages() == b.messages()
    &&& a.limit() == b.limit()
    &&& a.used() == b.used()
    &&& forall|i: int| #![trigger a.extent(i)] #![trigger b.extent(i)] a.extent(i) == b.extent(i)
    &&& forall|i: int| #![trigger a.meta(i)] #![trigger b.meta(i)] a.meta(i) == b.meta(i)
}

impl MessageStore {
    pub fn new(max_bytes: usize) -> (r: Self)
        ensures
            r.wf(),
            r.messages() == Seq::<Stored>::empty(),
            r.published() == 0,
            r.used() == 0,
            r.limit() == max_bytes,
    {
        let r = MessageStore { blob: Vec::new(), index: Vec::new(), max_bytes, committed: 0 };
        proof {
            assert(r.messages() =~= Seq::<Stored>::empty());
        }
        r
    }

    /// How much was read, what is still staged included.
    pub fn len(&self) -> (r: usize)
        ensures
            r == self.messages().len(),
    {
        self.index.len()
    }

    /// How many rows a table shows.
    pub fn committed_len(&self) -> (r: usize)
        ensures
            r == self.published(),
    {
        self.committed
    }

    pub fn staged_len(&self) -> (r: usize)
        requires
            self.wf(),
        ensures
            r == self.messages().len() - self.published(),
    {
        self.index.len() - self.committed
    }

    /// The useful bytes: what lies in the arena, not the memory it holds.
    pub fn byte_size(&self) -> (r: usize)
        ensures
            r == self.used(),
    {
        self.blob.len()
    }

    /// The memory that the store holds: the arena and the records, with the
    /// room that both keep for growing. How much room that is, the allocator
    /// decides.
    pub fn memory_bytes(&self) -> (r: usize)
        ensures
            self.holds_memory(r),
    {
        let arena: usize = capacity_of(&self.blob);
        let slots: usize = capacity_of(&self.index);
        memory_of(arena, slots)
    }

    /// The ceiling at which a read is cut short.
    pub fn max_bytes(&self) -> (r: usize)
        ensures
            r == self.limit(),
    {
        self.max_bytes
    }

    pub fn is_full(&self) -> (r: bool)
        ensures
            r == (self.used() >= self.limit()),
    {
        self.blob.len() >= self.max_bytes
    }

    /// Drops all messages and keeps the memory for the next ones.
    pub fn clear(&mut self)
        ensures
            final(self).wf(),
            final(self).messages() == Seq::<Stored>::empty(),
            final(self).published() == 0,
            final(self).used() == 0,
            final(self).limit() == old(self).limit(),
    {
        self.blob.clear();
        self.index.clear();
        self.committed = 0;
        proof {
            assert(self.messages() =~= Seq::<Stored>::empty());
        }
    }

    /// Drops all messages and gives the memory back.
    pub fn release(&mut self)
        ensures
            final(self).wf(),
            final(self).messages() == Seq::<Stored>::empty(),
            final(self).published() == 0,
            final(self).used() == 0,
            final(self).limit() == old(self).limit(),
    {
        self.blob = Vec::new();
        self.index = Vec::new();
        self.committed = 0;
        proof {
            assert(self.messages() =~= Seq::<Stored>::empty());
        }
    }

    /// Cuts the tail of the records off together with its bytes. A round of
    /// reading that broke off half way is undone so: what it brought is a window
    /// with holes, which can be neither published nor continued.
    ///
    /// The arena keeps everything up to the end of the last byte that a record
    /// which stays still points to, whatever order the records stand in.
    pub fn truncate(&mut self, len: usize)
        requires
            old(self).wf(),
        ensures
            final(self).wf(),
            final(self).limit() == old(self).limit(),
            len >= old(self).messages().len() ==> *final(self) == *old(self),
            len < old(self).messages().len() ==> {
                &&& final(self).messages() == old(self).messages().take(len as int)
                &&& final(self).published() == if old(self).published() < len {
                    old(self).published()
                } else {
                    len as nat
                }
            },
            forall|i: int|
                0 <= i < final(self).messages().len() ==> #[trigger] final(self).extent(i)
                    == old(self).extent(i),
            final(self).ends_with_a_message(),
    {
        if len >= self.index.len() {
            proof {
                self.lemma_bounds();
            }
            return;
        }
        let mut blob_len: usize = 0;
        let mut i: usize = 0;
        let ghost mut widest: int = -1;
        while i < len
            invariant
                i <= len < self.index@.len(),
                self.wf(),
                *self == *old(self),
                blob_len <= self.blob@.len(),
                i == 0 ==> blob_len == 0,
                i > 0 ==> 0 <= widest < i && blob_len == self.index@[widest].end(),
                forall|k: int| 0 <= k < i ==> (#[trigger] self.index@[k]).end() <= blob_len,
            decreases len - i,
        {
            let meta = &self.index[i];
            proof {
                assert(self.index@[i as int].fits(self.blob@));
            }
            let end: usize = meta.headers.start as usize + meta.headers.len as usize;
            if i == 0 || end > blob_len {
                blob_len = end;
                proof {
                    widest = i as int;
                }
            }
            i += 1;
        }
        let ghost before = *self;
        self.index.truncate(len);
        self.blob.truncate(blob_len);
        if self.committed > len {
            self.committed = len;
        }
        proof {
            assert(self.blob@ =~= before.blob@.take(blob_len as int));
            assert forall|k: int| 0 <= k < len implies (#[trigger] self.index@[k]).fits(self.blob@)
                && self.index@[k].read(self.blob@) == before.index@[k].read(before.blob@) by {
                assert(before.index@[k].fits(before.blob@));
                lemma_cut(before.index@[k], before.blob@, blob_len as int);
            }
            assert(self.messages() =~= before.messages().take(len as int));
            if len > 0 {
                assert(self.index@[widest].end() == self.blob@.len());
            }
            self.lemma_bounds();
        }
    }

    pub fn get(&self, i: usize) -> (r: Option<&MessageMeta>)
        ensures
            r is Some <==> i < self.messages().len(),
            r matches Some(m) ==> {
                &&& *m == self.meta(i as int)
                &&& m.partition == self.messages()[i as int].partition
                &&& m.offset == self.messages()[i as int].offset
                &&& m.timestamp == self.messages()[i as int].timestamp
            },
    {
        if i < self.index.len() {
            Some(&self.index[i])
        } else {
            None
        }
    }

    pub fn key(&self, i: usize) -> (r: &[u8])
        requires
            self.wf(),
            i < self.messages().len(),
        ensures
            r@ == self.messages()[i as int].key,
    {
        proof {
            assert(self.index@[i as int].fits(self.blob@));
        }
        let span: Span = self.index[i].key;
        slice_subrange(
            self.blob.as_slice(),
            span.start as usize,
            span.start as usize + span.len as usize,
        )
    }

    pub fn value(&self, i: usize) -> (r: &[u8])
        requires
            self.wf(),
            i < self.messages().len(),
        ensures
            r@ == self.messages()[i as int].value,
    {
        proof {
            assert(self.index@[i as int].fits(self.blob@));
        }
        let span: Span = self.index[i].value;
        slice_subrange(
            self.blob.as_slice(),
            span.start as usize,
            span.start as usize + span.len as usize,
        )
    }

    /// Unpacks the headers of a message: done only for one that was opened.
    pub fn headers(&self, i: usize) -> (r: Vec<(&str, &[u8])>)
        requires
            self.wf(),
            i < self.messages().len(),
        ensures
            headers_view(r@) == self.messages()[i as int].headers,
    {
        proof {
            assert(self.index@[i as int].fits(self.blob@));
        }
        let meta = &self.index[i];
        let span: Span = meta.headers;
        let bytes = slice_subrange(
            self.blob.as_slice(),
            span.start as usize,
            span.start as usize + span.len as usize,
        );
        let count: u32 = meta.header_count;
        let mut out: Vec<(&str, &[u8])> = Vec::new();
        let mut pos: usize = 0;
        let mut n: u32 = 0;
        proof {
            lemma_unpacked_prefix(bytes@, count as nat, 0);
            assert(headers_view(out@) =~= Seq::empty());
        }
        while n < count
            invariant
                n <= count,
                unpacked(bytes@, count as nat) is Some,
                unpacked(bytes@, n as nat) == Some((headers_view(out@), pos as int)),
            decreases count - n,
        {
            proof {
                lemma_unpacked_prefix(bytes@, count as nat, (n + 1) as nat);
            }
            let ghost before = headers_view(out@);
            match read_chunk(bytes, pos) {
                Some((name, middle)) => match read_chunk(bytes, middle) {
                    Some((value, end)) => {
                        let name = match text_of_utf8(name) {
                            Some(text) => text,
                            None => "<invalid utf-8>",
                        };
                        out.push((name, value));
                        pos = end;
                        proof {
                            assert(headers_view(out@) =~= before.push((name@, value@)));
                        }
                    },
                    None => {},
                },
                None => {},
            }
            n += 1;
        }
        out
    }

    /// How many bytes of the arena a message will take.
    pub fn footprint(key: &[u8], value: &[u8], headers: &[(&str, &[u8])]) -> (r: usize)
        requires
            footprint_of(key@, value@, headers_view(headers@)) <= usize::MAX,
        ensures
            r == footprint_of(key@, value@, headers_view(headers@)),
    {
        let ghost all = headers_view(headers@);
        let mut total: usize = key.len() + value.len();
        let mut i: usize = 0;
        proof {
            assert(all.take(0) =~= Seq::empty());
        }
        while i < headers.len()
            invariant
                i <= headers@.len(),
                all == headers_view(headers@),
                footprint_of(key@, value@, all) <= usize::MAX,
                total == key@.len() + value@.len() + packed(all.take(i as int)).len(),
            decreases headers@.len() - i,
        {
            let (name, val) = headers[i];
            proof {
                lemma_packed_step(all, i as int);
                lemma_packed_grows(all, i + 1);
            }
            total = total + (8 + name.len() + val.len());
            i += 1;
        }
        proof {
            assert(all.take(i as int) =~= all);
        }
        total
    }

    /// Adds a message. False when the buffer is exhausted: nothing is added then.
    ///
    /// A record points into the arena by 32-bit offsets, so a message that would
    /// end beyond them cannot be given.
    pub fn push(
        &mut self,
        partition: i32,
        offset: i64,
        timestamp: i64,
        key: &[u8],
        value: &[u8],
        headers: &[(&str, &[u8])],
    ) -> (r: bool)
        requires
            old(self).wf(),
            old(self).used() < old(self).limit() ==> old(self).used() + footprint_of(
                key@,
                value@,
                headers_view(headers@),
            ) <= u32::MAX,
        ensures
            final(self).wf(),
            final(self).limit() == old(self).limit(),
            r == (old(self).used() < old(self).limit()),
            !r ==> *final(self) == *old(self),
            r ==> {
                &&& final(self).messages() == old(self).messages().push(
                    Stored {
                        partition,
                        offset,
                        timestamp,
                        key: key@,
                        value: value@,
                        headers: headers_view(headers@),
                    },
                )
                &&& final(self).published() == old(self).published()
                &&& final(self).used() == old(self).used() + footprint_of(
                    key@,
                    value@,
                    headers_view(headers@),
                )
                &&& final(self).extent(old(self).messages().len() as int) == final(self).used()
                &&& forall|i: int|
                    0 <= i < old(self).messages().len() ==> #[trigger] final(self).extent(i)
                        == old(self).extent(i)
            },
    {
        if self.is_full() {
            return false;
        }
        let ghost before = *self;
        let ghost all = headers_view(headers@);
        let ghost taken = key@ + value@ + packed(all);
        let key_start: usize = self.blob.len();
        append(&mut self.blob, key);
        append(&mut self.blob, value);
        let headers_start: usize = self.blob.len();
        let ghost middle = self.blob@;
        let mut i: usize = 0;
        proof {
            assert(all.take(0) =~= Seq::empty());
            assert(middle + packed(all.take(0)) =~= middle);
        }
        while i < headers.len()
            invariant
                i <= headers@.len(),
                all == headers_view(headers@),
                middle.len() + packed(all).len() <= u32::MAX,
                self.blob@ == middle + packed(all.take(i as int)),
                self.index@ == before.index@,
                self.max_bytes == before.max_bytes,
                self.committed == before.committed,
                all.len() <= u32::MAX || i < all.len(),
                8 * i <= packed(all.take(i as int)).len(),
            decreases headers@.len() - i,
        {
            let (name, val) = headers[i];
            proof {
                lemma_packed_step(all, i as int);
                lemma_packed_grows(all, i + 1);
            }
            append_chunk(&mut self.blob, name.as_bytes());
            append_chunk(&mut self.blob, val);
            proof {
                assert(self.blob@ =~= middle + packed(all.take(i + 1)));
            }
            i += 1;
        }
        proof {
            assert(all.take(i as int) =~= all);
            assert(self.blob@ =~= before.blob@ + taken);
            lemma_packed_reads_back(all);
        }
        let meta = MessageMeta {
            partition,
            offset,
            timestamp,
            key: Span { start: key_start as u32, len: key.len() as u32 },
            value: Span { start: (key_start + key.len()) as u32, len: value.len() as u32 },
            headers: Span {
                start: headers_start as u32,
                len: (self.blob.len() - headers_start) as u32,
            },
            header_count: headers.len() as u32,
        };
        self.index.push(meta);
        proof {
            assert(meta.key.bytes(self.blob@) =~= key@);
            assert(meta.value.bytes(self.blob@) =~= value@);
            assert(meta.headers.bytes(self.blob@) =~= packed(all));
            assert forall|k: int| 0 <= k < before.index@.len() implies (
            #[trigger] self.index@[k]).fits(self.blob@) && self.index@[k].read(self.blob@)
                == before.index@[k].read(before.blob@) by {
                assert(before.index@[k].fits(before.blob@));
                lemma_grown(before.index@[k], before.blob@, taken);
            }
            assert(self.messages() =~= before.messages().push(
                Stored {
                    partition,
                    offset,
                    timestamp,
                    key: key@,
                    value: value@,
                    headers: headers_view(headers@),
                },
            ));
            assert(self.index@[before.index@.len() as int].end() == self.blob@.len());
        }
        true
    }

    /// Puts the staged messages in the order of the read, newest or oldest
    /// first. The published ones are not touched: they have their places.
    pub fn sort_staged(&mut self, newest_first: bool)
        requires
            old(self).wf(),
        ensures
            final(self).wf(),
            final(self).limit() == old(self).limit(),
            final(self).used() == old(self).used(),
            final(self).published() == old(self).published(),
            final(self).messages().len() == old(self).messages().len(),
            final(self).messages().take(old(self).published() as int)
                == old(self).messages().take(old(self).published() as int),
            final(self).messages().skip(old(self).published() as int).to_multiset()
                == old(self).messages().skip(old(self).published() as int).to_multiset(),
            forall|i: int, j: int|
                old(self).published() <= i < j < final(self).messages().len() ==> read_before(
                    newest_first,
                    #[trigger] final(self).messages()[i],
                    #[trigger] final(self).messages()[j],
                ),
    {
        let ghost before = *self;
        let n: usize = self.index.len();
        let mut places: Vec<usize> = Vec::new();
        let mut k: usize = self.committed;
        while k < n
            invariant
                before.wf(),
                before == *self,
                n == self.index@.len(),
                self.committed <= k <= n,
                places@.len() == k - self.committed,
                forall|i: int| 0 <= i < places@.len() ==> #[trigger] places@[i] == self.committed + i,
            decreases n - k,
        {
            places.push(k);
            k += 1;
        }
        let ghost straight = places@;
        let order = StagedOrder { index: &self.index, newest_first };
        let sorted = sort_by_rank(&order, places);
        let mut index: Vec<MessageMeta> = Vec::new();
        k = 0;
        while k < self.committed
            invariant
                before.wf(),
                before == *self,
                k <= self.committed,
                index@ == self.index@.take(k as int),
            decreases self.committed - k,
        {
            index.push(self.index[k]);
            proof {
                assert(self.index@.take(k + 1) =~= self.index@.take(k as int).push(
                    self.index@[k as int],
                ));
            }
            k += 1;
        }
        let ghost prefix = index@;
        k = 0;
        proof {
            lemma_rearranged_members(straight, sorted@);
            assert forall|i: int| 0 <= i < sorted@.len() implies before.committed <= #[trigger] sorted@[i]
                < n by {
                assert(sorted@.contains(sorted@[i]));
                assert(straight.contains(sorted@[i]));
            }
        }
        while k < sorted.len()
            invariant
                before.wf(),
                before == *self,
                k <= sorted@.len(),
                n == self.index@.len(),
                prefix == self.index@.take(self.committed as int),
                forall|i: int| 0 <= i < sorted@.len() ==> #[trigger] sorted@[i] < n,
                index@.len() == self.committed + k,
                index@.take(self.committed as int) == prefix,
                forall|i: int|
                    0 <= i < k ==> #[trigger] index@[self.committed + i]
                        == self.index@[sorted@[i] as int],
            decreases sorted@.len() - k,
        {
            let ghost so_far = index@;
            index.push(self.index[sorted[k]]);
            proof {
                assert(index@.take(self.committed as int) =~= so_far.take(self.committed as int));
                assert forall|i: int| 0 <= i < k + 1 implies #[trigger] index@[self.committed + i]
                    == self.index@[sorted@[i] as int] by {
                    if i < k {
                        assert(so_far[self.committed + i] == self.index@[sorted@[i] as int]);
                    }
                }
            }
            k += 1;
        }
        proof {
            let c = before.committed as int;
            assert forall|i: int| c <= i < n implies #[trigger] index@[i]
                == before.index@[sorted@[i - c] as int] by {
                assert(index@[c + (i - c)] == before.index@[sorted@[i - c] as int]);
            }
            assert forall|i: int| 0 <= i < c implies #[trigger] index@[i] == before.index@[i] by {
                assert(index@[i] == index@.take(c)[i]);
            }
            assert forall|i: int| 0 <= i < n implies (#[trigger] index@[i]).fits(before.blob@) by {
                if i < c {
                    assert(before.index@[i].fits(before.blob@));
                } else {
                    assert(before.index@[sorted@[i - c] as int].fits(before.blob@));
                }
            }
        }
        self.index = index;
        proof {
            let c = before.committed as int;
            if n > 0 {
                let w = choose|i: int|
                    0 <= i < before.index@.len() && (#[trigger] before.index@[i]).end()
                        == before.blob@.len();
                if w < c {
                    assert(self.index@[w].end() == self.blob@.len());
                } else {
                    assert(straight[w - c] == w);
                    assert(straight.contains(w as usize));
                    assert(sorted@.contains(w as usize));
                    let i = choose|i: int| 0 <= i < sorted@.len() && sorted@[i] == w;
                    assert(self.index@[c + i].end() == self.blob@.len());
                }
            }
            let f = |p: usize| before.messages()[p as int];
            lemma_map_rearranged(straight, sorted@, f);
            assert(straight.map_values(f) =~= before.messages().skip(c));
            assert(sorted@.map_values(f) =~= self.messages().skip(c));
            assert(self.messages().take(c) =~= before.messages().take(c));
            assert forall|i: int, j: int|
                c <= i < j < self.messages().len() implies read_before(
                newest_first,
                #[trigger] self.messages()[i],
                #[trigger] self.messages()[j],
            ) by {
                let a = sorted@[i - c];
                let b = sorted@[j - c];
                let rank = StagedOrder { index: &before.index, newest_first };
                assert(rank.le(a, b));
            }
        }
    }

    /// Publishes the staged messages from the first on for as long as `keep`
    /// holds, and says how many these were.
    pub fn commit_staged_while<F: Fn(&MessageMeta) -> bool>(&mut self, keep: F) -> (n: usize)
        requires
            old(self).wf(),
            forall|m: &MessageMeta| #[trigger] call_requires(keep, (m,)),
        ensures
            final(self).wf(),
            same_but_boundary(*final(self), *old(self)),
            final(self).published() == old(self).published() + n,
            final(self).published() <= final(self).messages().len(),
            forall|i: int|
                old(self).published() <= i < final(self).published() ==> call_ensures(
                    keep,
                    (&#[trigger] final(self).meta(i),),
                    true,
                ),
            final(self).published() < final(self).messages().len() ==> call_ensures(
                keep,
                (&final(self).meta(final(self).published() as int),),
                false,
            ),
    {
        let start: usize = self.committed;
        let staged: usize = self.staged_len();
        proof {
            self.lemma_bounds();
        }
        let mut n: usize = 0;
        let mut kept = true;
        while kept && n < staged
            invariant
                self.wf(),
                *self == *old(self),
                start == self.committed,
                start + staged == self.index@.len(),
                self.index@.len() <= usize::MAX,
                n <= staged,
                forall|m: &MessageMeta| #[trigger] call_requires(keep, (m,)),
                forall|i: int|
                    start <= i < start + n ==> call_ensures(keep, (&#[trigger] self.index@[i],), true),
                !kept ==> n < staged && call_ensures(
                    keep,
                    (&self.index@[start + n],),
                    false,
                ),
            decreases staged - n + (if kept { 1int } else { 0int }),
        {
            if keep(&self.index[start + n]) {
                n += 1;
            } else {
                kept = false;
            }
        }
        self.committed = start + n;
        proof {
            assert(self.messages() =~= old(self).messages());
        }
        n
    }

    /// Publishes everything that is staged. Right only when nothing more will be
    /// read: what came next could otherwise belong above it.
    pub fn commit_all(&mut self) -> (n: usize)
        requires
            old(self).wf(),
        ensures
            final(self).wf(),
            same_but_boundary(*final(self), *old(self)),
            n == old(self).messages().len() - old(self).published(),
            final(self).published() == final(self).messages().len(),
    {
        let n: usize = self.staged_len();
        self.committed = self.index.len();
        proof {
            assert(self.messages() =~= old(self).messages());
        }
        n
    }
}

proof fn lemma_unpacked_prefix(bytes: Seq<u8>, count: nat, upto: nat)
    requires
        unpacked(bytes, count) is Some,
        upto <= count,
    ensures
        unpacked(bytes, upto) is Some,
    decreases count,
{
    if upto < count {
        lemma_unpacked_prefix(bytes, (count - 1) as nat, upto);
    }
}

proof fn lemma_packed_step(headers: Seq<(Seq<char>, Seq<u8>)>, i: int)
    requires
        0 <= i < headers.len(),
    ensures
        packed(headers.take(i + 1)) == packed(headers.take(i)) + chunk(encode_utf8(headers[i].0))
            + chunk(headers[i].1),
        packed(headers.take(i + 1)).len() == packed(headers.take(i)).len() + 8 + encode_utf8(
            headers[i].0,
        ).len() + headers[i].1.len(),
{
    lemma_auto_spec_u32_to_from_le_bytes();
    assert(headers.take(i + 1).drop_last() =~= headers.take(i));
}

proof fn lemma_packed_grows(headers: Seq<(Seq<char>, Seq<u8>)>, i: int)
    requires
        0 <= i <= headers.len(),
    ensures
        packed(headers.take(i)).len() <= packed(headers).len(),
        8 * headers.len() <= packed(headers).len(),
    decreases headers.len() - i,
{
    assert(headers.take(headers.len() as int) =~= headers);
    if i < headers.len() {
        lemma_packed_step(headers, i);
        lemma_packed_grows(headers, i + 1);
    }
    lemma_packed_at_least(headers);
}

proof fn lemma_packed_at_least(headers: Seq<(Seq<char>, Seq<u8>)>)
    ensures
        8 * headers.len() <= packed(headers).len(),
    decreases headers.len(),
{
    lemma_auto_spec_u32_to_from_le_bytes();
    if headers.len() > 0 {
        lemma_packed_at_least(headers.drop_last());
    }
}

/// The order of a read, by the message itself: read from the newest on, the later
/// of two comes first; read from the oldest on, the earlier does. At one time the
/// lower offset comes first, and at one offset the lower partition. No two
/// messages that differ in these have the same place.
pub proof fn law_reading_order(a: Stored, b: Stored)
    ensures
        a.timestamp > b.timestamp ==> read_before(true, a, b) && !read_before(true, b, a)
            && read_before(false, b, a) && !read_before(false, a, b),
        forall|newest_first: bool|
            #![trigger read_before(newest_first, a, b)]
            a.timestamp == b.timestamp && (a.offset < b.offset || a.offset == b.offset
                && a.partition < b.partition) ==> read_before(newest_first, a, b) && !read_before(
                newest_first,
                b,
                a,
            ),
        forall|newest_first: bool|
            #![trigger read_before(newest_first, a, b)]
            read_before(newest_first, a, b) || read_before(newest_first, b, a),
{
}

/// What a message takes in the arena: its key, its body, and for each header its
/// name, its value and eight bytes for their lengths.
pub proof fn law_footprint_of_a_message(
    key: Seq<u8>,
    value: Seq<u8>,
    headers: Seq<(Seq<char>, Seq<u8>)>,
    name: Seq<char>,
    content: Seq<u8>,
)
    ensures
        footprint_of(key, value, Seq::empty()) == key.len() + value.len(),
        footprint_of(key, value, headers.push((name, content))) == footprint_of(key, value, headers)
            + encode_utf8(name).len() + content.len() + 8,
{
    lemma_auto_spec_u32_to_from_le_bytes();
    assert(headers.push((name, content)).drop_last() =~= headers);
}

/// Memory is counted whole: the arena, and a place for each record, up to the
/// largest number there is.
pub proof fn law_memory_is_counted_whole(arena: usize, slots: usize, more: usize)
    ensures
        held(arena, 0) == arena,
        arena <= held(arena, slots) <= usize::MAX,
        held(arena, slots) < usize::MAX ==> held(arena, slots) - arena == slots
            * vstd::layout::size_of::<MessageMeta>(),
        arena <= more ==> held(arena, slots) <= held(more, slots),
{
    let size = vstd::layout::size_of::<MessageMeta>() as int;
    assert(0 * size == 0) by (nonlinear_arith);
    assert(slots * size >= 0) by (nonlinear_arith)
        requires
            slots >= 0,
            size >= 0,
    ;
}

} // verus!
