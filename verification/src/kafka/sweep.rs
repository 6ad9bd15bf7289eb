//! One batch of what the brokers sent, taken into a round of reading.

use vstd::prelude::*;

use crate::kafka::cursor::{eof_exhausts, PartitionCursor, RoundPartition};
use crate::kafka::store::{footprint_of, headers_view, MessageStore, Stored};
use crate::kafka::view::{passes, PreparedFilter, Query};

verus! {

/// A message as it came from the queue.
pub struct Incoming {
    pub partition: i32,
    pub offset: i64,
    pub timestamp: i64,
    pub key: Vec<u8>,
    pub value: Vec<u8>,
    pub headers: Vec<(String, Vec<u8>)>,
    /// The decoded body, given where only it can tell whether the message
    /// passes the sieve of a search.
    pub decoded: Option<String>,
}

/// What a queue gives.
pub enum Event {
    Message(Incoming),
    /// The log of a partition ends at this offset.
    Eof { partition: i32, offset: i64 },
    /// Reading failed, with the reason.
    Failure(String),
}

/// Why a batch was not taken to its end.
pub enum Halt {
    /// The buffer is exhausted.
    Full,
    Failed(Seq<char>),
}

/// What came of taking one event.
pub enum Taken {
    On,
    Full,
    Failed(String),
}

/// The state of a round.
#[verifier::ext_equal]
pub struct Sweep {
    pub messages: Seq<Stored>,
    pub used: int,
    pub cursors: Seq<PartitionCursor>,
    pub round: Seq<RoundPartition>,
    /// Some message had a time.
    pub timed: bool,
    /// How many messages of the round were looked at, kept or not.
    pub scanned: int,
    pub scanned_bytes: int,
    pub halt: Option<Halt>,
}

/// The terms of a read.
pub struct Terms {
    pub newest_first: bool,
    pub limit: int,
    /// What a search keeps. Without it everything is kept.
    pub sieve: Option<Query>,
}

/// The largest record that Kafka can carry: its size is a positive number of 32
/// bits.
pub const MAX_RECORD_BYTES: u32 = 0x7fff_ffff;

/// No store of a reader is larger than this.
pub const MAX_STORE_BYTES: usize = 0x8000_0000;

/// The largest number of messages that a read counts.
pub const SCAN_LIMIT: u64 = 0x4000_0000_0000_0000;

pub open spec fn incoming_headers(headers: Seq<(String, Vec<u8>)>) -> Seq<(Seq<char>, Seq<u8>)> {
    Seq::new(headers.len(), |i: int| (headers[i].0@, headers[i].1@))
}

impl Incoming {
    pub open spec fn stored(&self) -> Stored {
        Stored {
            partition: self.partition,
            offset: self.offset,
            timestamp: self.timestamp,
            key: self.key@,
            value: self.value@,
            headers: incoming_headers(self.headers@),
        }
    }

    pub open spec fn footprint(&self) -> nat {
        footprint_of(self.key@, self.value@, incoming_headers(self.headers@))
    }

    pub open spec fn decoded_text(&self) -> Option<Seq<char>> {
        match self.decoded {
            Some(s) => Some(s@),
            None => None,
        }
    }
}

/// An event that Kafka can bring: no offset is the last number there is, and no
/// record is larger than a record can be.
pub open spec fn possible(e: Event) -> bool {
    e matches Event::Message(m) ==> m.offset < i64::MAX && m.footprint() <= MAX_RECORD_BYTES
}

/// The cursors after the reader of a partition moved.
pub open spec fn moved(cursors: Seq<PartitionCursor>, p: i32, offset: i64) -> Seq<PartitionCursor> {
    Seq::new(
        cursors.len(),
        |i: int|
            if cursors[i].partition == p {
                PartitionCursor { read_position: Some(offset), ..cursors[i] }
            } else {
                cursors[i]
            },
    )
}

/// The cursors after a message of a partition was looked at.
pub open spec fn seen(
    cursors: Seq<PartitionCursor>,
    p: i32,
    newest_first: bool,
    timestamp: i64,
) -> Seq<PartitionCursor> {
    Seq::new(
        cursors.len(),
        |i: int|
            if cursors[i].partition == p {
                cursors[i].observed(newest_first, timestamp)
            } else {
                cursors[i]
            },
    )
}

/// The cursors after a partition turned out to be read to its end.
pub open spec fn ended(cursors: Seq<PartitionCursor>, p: i32) -> Seq<PartitionCursor> {
    Seq::new(
        cursors.len(),
        |i: int|
            if cursors[i].partition == p {
                PartitionCursor { exhausted: true, ..cursors[i] }
            } else {
                cursors[i]
            },
    )
}

/// The window of a partition in a round.
pub open spec fn window_of(round: Seq<RoundPartition>, p: i32) -> Option<RoundPartition>
    decreases round.len(),
{
    if round.len() == 0 {
        None
    } else if round.last().partition == p {
        Some(round.last())
    } else {
        window_of(round.drop_last(), p)
    }
}

/// The round after the window of a partition was read to its end.
pub open spec fn closed(round: Seq<RoundPartition>, p: i32) -> Seq<RoundPartition> {
    Seq::new(
        round.len(),
        |i: int|
            if round[i].partition == p {
                RoundPartition { done: true, ..round[i] }
            } else {
                round[i]
            },
    )
}

/// The round after a message of a partition was counted.
pub open spec fn counted(round: Seq<RoundPartition>, p: i32) -> Seq<RoundPartition> {
    Seq::new(
        round.len(),
        |i: int|
            if round[i].partition == p {
                RoundPartition { absorbed: (round[i].absorbed + 1) as i64, ..round[i] }
            } else {
                round[i]
            },
    )
}

/// Whether the sieve keeps a message.
pub open spec fn kept(sieve: Option<Query>, m: Incoming) -> bool {
    match sieve {
        Some(q) => passes(q, m.key@, m.value@, m.decoded_text()),
        None => true,
    }
}

/// A round after a message. The reader has moved in any case: what was taken
/// from the queue is not given twice. Only what lies inside the window of its
/// partition is looked at, and all of that counts, kept or not.
pub open spec fn with_message(t: Terms, s: Sweep, m: Incoming) -> Sweep {
    let stepped = Sweep { cursors: moved(s.cursors, m.partition, (m.offset + 1) as i64), ..s };
    match window_of(s.round, m.partition) {
        None => stepped,
        Some(w) => if w.done {
            stepped
        } else if m.offset >= w.end {
            Sweep { round: closed(s.round, m.partition), ..stepped }
        } else if m.offset < w.start {
            stepped
        } else {
            let looked = Sweep {
                cursors: seen(stepped.cursors, m.partition, t.newest_first, m.timestamp),
                round: counted(s.round, m.partition),
                timed: s.timed || m.timestamp > 0,
                scanned: s.scanned + 1,
                scanned_bytes: s.scanned_bytes + m.footprint(),
                ..stepped
            };
            if !kept(t.sieve, m) {
                looked
            } else if s.used >= t.limit {
                Sweep { halt: Some(Halt::Full), ..looked }
            } else {
                Sweep {
                    messages: s.messages.push(m.stored()),
                    used: s.used + m.footprint(),
                    ..looked
                }
            }
        },
    }
}

/// A round after the end of a log: the window is done, and the partition is read
/// to its end where the log ends no further than the window.
pub open spec fn with_eof(t: Terms, s: Sweep, p: i32, offset: i64) -> Sweep {
    let stepped = Sweep { cursors: moved(s.cursors, p, offset), ..s };
    match window_of(s.round, p) {
        None => stepped,
        Some(w) => {
            let done = Sweep { round: closed(s.round, p), ..stepped };
            if !t.newest_first && offset <= w.end {
                Sweep { cursors: ended(stepped.cursors, p), ..done }
            } else {
                done
            }
        },
    }
}

/// A round after one event.
pub open spec fn swept_one(t: Terms, s: Sweep, e: Event) -> Sweep {
    match e {
        Event::Message(m) => with_message(t, s, m),
        Event::Eof { partition, offset } => with_eof(t, s, partition, offset),
        Event::Failure(reason) => Sweep {
            halt: Some(Halt::Failed("read failed: "@ + reason@)),
            ..s
        },
    }
}

/// A round after a batch: what stops it leaves the rest of the batch untaken.
pub open spec fn swept(t: Terms, s: Sweep, batch: Seq<Event>) -> Sweep
    decreases batch.len(),
{
    if batch.len() == 0 {
        s
    } else {
        let before = swept(t, s, batch.drop_last());
        if before.halt is Some {
            before
        } else {
            swept_one(t, before, batch.last())
        }
    }
}

/// The partitions of cursors follow one another, each once.
pub open spec fn in_order(cursors: Seq<PartitionCursor>) -> bool {
    &&& forall|i: int, j: int|
        0 <= i < j < cursors.len() ==> (#[trigger] cursors[i]).partition < (
        #[trigger] cursors[j]).partition
    &&& forall|i: int| 0 <= i < cursors.len() ==> 0 <= (#[trigger] cursors[i]).partition
}

pub open spec fn round_in_order(round: Seq<RoundPartition>) -> bool {
    &&& forall|i: int, j: int|
        0 <= i < j < round.len() ==> (#[trigger] round[i]).partition < (
        #[trigger] round[j]).partition
    &&& forall|i: int| 0 <= i < round.len() ==> 0 <= (#[trigger] round[i]).partition
}

/// No window has counted more messages than the round.
pub open spec fn counts_agree(round: Seq<RoundPartition>, scanned: int) -> bool {
    forall|i: int| 0 <= i < round.len() ==> 0 <= (#[trigger] round[i]).absorbed <= scanned
}

/// The counters of a round.
pub struct Tally {
    pub round: Vec<RoundPartition>,
    pub timed: bool,
    pub scanned: u64,
    pub scanned_bytes: u128,
}

/// The state of a round in its parts.
pub open spec fn sweep_of(
    store: MessageStore,
    cursors: Seq<PartitionCursor>,
    tally: Tally,
    halt: Option<Halt>,
) -> Sweep {
    Sweep {
        messages: store.messages(),
        used: store.used() as int,
        cursors,
        round: tally.round@,
        timed: tally.timed,
        scanned: tally.scanned as int,
        scanned_bytes: tally.scanned_bytes as int,
        halt,
    }
}

pub open spec fn halt_of(taken: Taken) -> Option<Halt> {
    match taken {
        Taken::On => None,
        Taken::Full => Some(Halt::Full),
        Taken::Failed(reason) => Some(Halt::Failed(reason@)),
    }
}

/// A round can go on with the parts it has.
pub open spec fn ready(store: MessageStore, cursors: Seq<PartitionCursor>, tally: Tally) -> bool {
    &&& store.wf()
    &&& store.limit() <= MAX_STORE_BYTES
    &&& in_order(cursors)
    &&& round_in_order(tally.round@)
    &&& counts_agree(tally.round@, tally.scanned as int)
    &&& tally.scanned <= SCAN_LIMIT
    &&& tally.scanned_bytes <= tally.scanned * 0x8000_0000
}

/// The bytes of the messages that were there lie where they lay.
pub open spec fn keeps_places(before: MessageStore, after: MessageStore) -> bool {
    &&& before.messages().len() <= after.messages().len()
    &&& forall|i: int|
        0 <= i < before.messages().len() ==> #[trigger] after.extent(i) == before.extent(i)
}

/// Where the cursor of a partition stands in the list.
fn cursor_at(cursors: &Vec<PartitionCursor>, p: i32) -> (r: Option<usize>)
    requires
        in_order(cursors@),
    ensures
        match r {
            Some(i) => i < cursors@.len() && cursors@[i as int].partition == p && forall|k: int|
                0 <= k < cursors@.len() && k != i ==> (#[trigger] cursors@[k]).partition != p,
            None => forall|k: int| 0 <= k < cursors@.len() ==> (#[trigger] cursors@[k]).partition
                != p,
        },
{
    let mut i: usize = 0;
    while i < cursors.len()
        invariant
            i <= cursors@.len(),
            in_order(cursors@),
            forall|k: int| 0 <= k < i ==> (#[trigger] cursors@[k]).partition != p,
        decreases cursors@.len() - i,
    {
        if cursors[i].partition == p {
            return Some(i);
        }
        i += 1;
    }
    None
}

pub(crate) fn window_at(round: &Vec<RoundPartition>, p: i32) -> (r: Option<usize>)
    requires
        round_in_order(round@),
    ensures
        match r {
            Some(i) => i < round@.len() && round@[i as int].partition == p && window_of(round@, p)
                == Some(round@[i as int]) && forall|k: int|
                0 <= k < round@.len() && k != i ==> (#[trigger] round@[k]).partition != p,
            None => window_of(round@, p) is None && forall|k: int|
                0 <= k < round@.len() ==> (#[trigger] round@[k]).partition != p,
        },
{
    let mut i: usize = 0;
    proof {
        assert(round@.take(0) =~= Seq::empty());
    }
    while i < round.len()
        invariant
            i <= round@.len(),
            round_in_order(round@),
            window_of(round@.take(i as int), p) is None,
            forall|k: int| 0 <= k < i ==> (#[trigger] round@[k]).partition != p,
        decreases round@.len() - i,
    {
        proof {
            assert(round@.take(i + 1).drop_last() =~= round@.take(i as int));
        }
        if round[i].partition == p {
            proof {
                lemma_window_stays(round@, p, i + 1);
            }
            return Some(i);
        }
        i += 1;
    }
    proof {
        assert(round@.take(i as int) =~= round@);
    }
    None
}

proof fn lemma_window_stays(round: Seq<RoundPartition>, p: i32, upto: int)
    requires
        0 < upto <= round.len(),
        round_in_order(round),
        round[upto - 1].partition == p,
        window_of(round.take(upto), p) == Some(round[upto - 1]),
    ensures
        window_of(round, p) == Some(round[upto - 1]),
    decreases round.len(),
{
    if upto == round.len() {
        assert(round.take(upto) =~= round);
    } else {
        let init = round.drop_last();
        assert(init.take(upto) =~= round.take(upto));
        assert(round.last().partition != p) by {
            assert(round[upto - 1].partition < round[round.len() - 1].partition);
        }
        assert(round_in_order(init));
        lemma_window_stays(init, p, upto);
    }
}

/// Notes where the reader of a partition stands.
pub fn note_position(cursors: &mut Vec<PartitionCursor>, p: i32, offset: i64)
    requires
        in_order(old(cursors)@),
    ensures
        final(cursors)@ == moved(old(cursors)@, p, offset),
{
    if let Some(i) = cursor_at(cursors, p) {
        let mut c: PartitionCursor = cursors[i];
        c.note_read_position(offset);
        cursors.set(i, c);
    }
    proof {
        assert(cursors@ =~= moved(old(cursors)@, p, offset));
    }
}

fn note_time(cursors: &mut Vec<PartitionCursor>, p: i32, newest_first: bool, timestamp: i64)
    requires
        in_order(old(cursors)@),
    ensures
        final(cursors)@ == seen(old(cursors)@, p, newest_first, timestamp),
{
    if let Some(i) = cursor_at(cursors, p) {
        let mut c: PartitionCursor = cursors[i];
        c.observe(newest_first, timestamp);
        cursors.set(i, c);
    }
    proof {
        assert(cursors@ =~= seen(old(cursors)@, p, newest_first, timestamp));
    }
}

fn note_end(cursors: &mut Vec<PartitionCursor>, p: i32)
    requires
        in_order(old(cursors)@),
    ensures
        final(cursors)@ == ended(old(cursors)@, p),
{
    if let Some(i) = cursor_at(cursors, p) {
        let mut c: PartitionCursor = cursors[i];
        c.exhausted = true;
        cursors.set(i, c);
    }
    proof {
        assert(cursors@ =~= ended(old(cursors)@, p));
    }
}

/// The headers of a message, borrowed.
fn borrow_headers<'a>(headers: &'a Vec<(String, Vec<u8>)>) -> (r: Vec<(&'a str, &'a [u8])>)
    ensures
        headers_view(r@) == incoming_headers(headers@),
{
    let mut out: Vec<(&'a str, &'a [u8])> = Vec::new();
    let mut i: usize = 0;
    while i < headers.len()
        invariant
            i <= headers@.len(),
            out@.len() == i,
            forall|k: int|
                0 <= k < i ==> (#[trigger] out@[k]).0@ == headers@[k].0@ && out@[k].1@
                    == headers@[k].1@,
        decreases headers@.len() - i,
    {
        out.push((headers[i].0.as_str(), headers[i].1.as_slice()));
        i += 1;
    }
    proof {
        assert(headers_view(out@) =~= incoming_headers(headers@));
    }
    out
}

/// The sieve as the contracts speak of it.
pub open spec fn sieve_query(sieve: Option<PreparedFilter>) -> Option<Query> {
    match sieve {
        Some(f) => Some(f.query()),
        None => None,
    }
}

/// Takes one message.
fn take_message(
    store: &mut MessageStore,
    cursors: &mut Vec<PartitionCursor>,
    tally: &mut Tally,
    sieve: &Option<PreparedFilter>,
    newest_first: bool,
    m: &Incoming,
) -> (r: Taken)
    requires
        ready(*old(store), old(cursors)@, *old(tally)),
        old(tally).scanned < SCAN_LIMIT,
        sieve matches Some(f) ==> f.wf(),
        possible(Event::Message(*m)),
    ensures
        ready(*final(store), final(cursors)@, *final(tally)),
        final(store).limit() == old(store).limit(),
        final(store).published() == old(store).published(),
        keeps_places(*old(store), *final(store)),
        final(tally).scanned <= old(tally).scanned + 1,
        sweep_of(*final(store), final(cursors)@, *final(tally), halt_of(r)) == with_message(
            Terms {
                newest_first,
                limit: old(store).limit() as int,
                sieve: sieve_query(*sieve),
            },
            sweep_of(*old(store), old(cursors)@, *old(tally), None),
            *m,
        ),
{
    let ghost before = sweep_of(*store, cursors@, *tally, None);
    note_position(cursors, m.partition, m.offset + 1);
    proof {
        assert(in_order(cursors@));
    }
    let i: usize = match window_at(&tally.round, m.partition) {
        Some(i) => i,
        None => return Taken::On,
    };
    let w: RoundPartition = tally.round[i];
    if w.done {
        return Taken::On;
    }
    if m.offset >= w.end {
        tally.round.set(i, RoundPartition { done: true, ..w });
        proof {
            assert(tally.round@ =~= closed(before.round, m.partition));
        }
        return Taken::On;
    }
    if m.offset < w.start {
        return Taken::On;
    }
    tally.round.set(i, RoundPartition { absorbed: w.absorbed + 1, ..w });
    tally.scanned = tally.scanned + 1;
    if m.timestamp > 0 {
        tally.timed = true;
    }
    note_time(cursors, m.partition, newest_first, m.timestamp);
    let headers = borrow_headers(&m.headers);
    let footprint: usize = MessageStore::footprint(
        m.key.as_slice(),
        m.value.as_slice(),
        headers.as_slice(),
    );
    tally.scanned_bytes = tally.scanned_bytes + footprint as u128;
    proof {
        assert(tally.round@ =~= counted(before.round, m.partition));
        assert(in_order(cursors@));
    }
    if let Some(filter) = sieve {
        let text: Option<&str> = match &m.decoded {
            Some(s) => Some(s.as_str()),
            None => None,
        };
        if !filter.matches(m.key.as_slice(), m.value.as_slice(), text) {
            return Taken::On;
        }
    }
    let stored = store.push(
        m.partition,
        m.offset,
        m.timestamp,
        m.key.as_slice(),
        m.value.as_slice(),
        headers.as_slice(),
    );
    if stored {
        Taken::On
    } else {
        Taken::Full
    }
}

/// Takes one event.
fn take_event(
    store: &mut MessageStore,
    cursors: &mut Vec<PartitionCursor>,
    tally: &mut Tally,
    sieve: &Option<PreparedFilter>,
    newest_first: bool,
    event: &Event,
) -> (r: Taken)
    requires
        ready(*old(store), old(cursors)@, *old(tally)),
        old(tally).scanned < SCAN_LIMIT,
        sieve matches Some(f) ==> f.wf(),
        possible(*event),
    ensures
        ready(*final(store), final(cursors)@, *final(tally)),
        final(store).limit() == old(store).limit(),
        final(store).published() == old(store).published(),
        keeps_places(*old(store), *final(store)),
        final(tally).scanned <= old(tally).scanned + 1,
        sweep_of(*final(store), final(cursors)@, *final(tally), halt_of(r)) == swept_one(
            Terms {
                newest_first,
                limit: old(store).limit() as int,
                sieve: sieve_query(*sieve),
            },
            sweep_of(*old(store), old(cursors)@, *old(tally), None),
            *event,
        ),
{
    match event {
        Event::Message(m) => take_message(store, cursors, tally, sieve, newest_first, m),
        Event::Eof { partition, offset } => {
            let ghost before = tally.round@;
            note_position(cursors, *partition, *offset);
            proof {
                assert(in_order(cursors@));
            }
            if let Some(i) = window_at(&tally.round, *partition) {
                let w: RoundPartition = tally.round[i];
                tally.round.set(i, RoundPartition { done: true, ..w });
                proof {
                    assert(tally.round@ =~= closed(before, *partition));
                }
                if eof_exhausts(newest_first, *offset, w.end) {
                    note_end(cursors, *partition);
                    proof {
                        assert(in_order(cursors@));
                    }
                }
            }
            Taken::On
        },
        Event::Failure(reason) => {
            let mut message = "read failed: ".to_owned();
            message.push_str(reason.as_str());
            Taken::Failed(message)
        },
    }
}

/// Takes a batch of events, up to the one that stops it.
pub fn take_batch(
    store: &mut MessageStore,
    cursors: &mut Vec<PartitionCursor>,
    tally: &mut Tally,
    sieve: &Option<PreparedFilter>,
    newest_first: bool,
    batch: &Vec<Event>,
) -> (r: Taken)
    requires
        ready(*old(store), old(cursors)@, *old(tally)),
        old(tally).scanned + batch@.len() <= SCAN_LIMIT,
        sieve matches Some(f) ==> f.wf(),
        forall|i: int| 0 <= i < batch@.len() ==> possible(#[trigger] batch@[i]),
    ensures
        ready(*final(store), final(cursors)@, *final(tally)),
        final(store).limit() == old(store).limit(),
        final(store).published() == old(store).published(),
        keeps_places(*old(store), *final(store)),
        final(tally).scanned <= old(tally).scanned + batch@.len(),
        sweep_of(*final(store), final(cursors)@, *final(tally), halt_of(r)) == swept(
            Terms {
                newest_first,
                limit: old(store).limit() as int,
                sieve: sieve_query(*sieve),
            },
            sweep_of(*old(store), old(cursors)@, *old(tally), None),
            batch@,
        ),
{
    let ghost t = Terms {
        newest_first,
        limit: store.limit() as int,
        sieve: sieve_query(*sieve),
    };
    let ghost start = sweep_of(*store, cursors@, *tally, None);
    let ghost first = tally.scanned;
    let ghost limit = store.limit();
    let ghost published = store.published();
    let mut i: usize = 0;
    proof {
        assert(batch@.take(0) =~= Seq::empty());
    }
    while i < batch.len()
        invariant
            i <= batch@.len(),
            ready(*store, cursors@, *tally),
            first + batch@.len() <= SCAN_LIMIT,
            tally.scanned <= first + i,
            sieve matches Some(f) ==> f.wf(),
            forall|k: int| 0 <= k < batch@.len() ==> possible(#[trigger] batch@[k]),
            store.limit() == limit,
            store.published() == published,
            limit == old(store).limit(),
            published == old(store).published(),
            keeps_places(*old(store), *store),
            first == old(tally).scanned,
            start == sweep_of(*old(store), old(cursors)@, *old(tally), None),
            t == (Terms { newest_first, limit: limit as int, sieve: sieve_query(*sieve) }),
            sweep_of(*store, cursors@, *tally, None) == swept(t, start, batch@.take(i as int)),
        decreases batch@.len() - i,
    {
        proof {
            assert(batch@.take(i + 1).drop_last() =~= batch@.take(i as int));
        }
        let taken = take_event(store, cursors, tally, sieve, newest_first, &batch[i]);
        match taken {
            Taken::On => {},
            other => {
                proof {
                    lemma_halted_stays(t, start, batch@, i + 1);
                }
                return other;
            },
        }
        i += 1;
    }
    proof {
        assert(batch@.take(i as int) =~= batch@);
    }
    Taken::On
}

proof fn lemma_halted_stays(t: Terms, s: Sweep, batch: Seq<Event>, upto: int)
    requires
        0 <= upto <= batch.len(),
        swept(t, s, batch.take(upto)).halt is Some,
    ensures
        swept(t, s, batch) == swept(t, s, batch.take(upto)),
    decreases batch.len() - upto,
{
    if upto == batch.len() {
        assert(batch.take(upto) =~= batch);
    } else {
        assert(batch.take(upto + 1).drop_last() =~= batch.take(upto));
        lemma_halted_stays(t, s, batch, upto + 1);
    }
}

/// A batch only ever adds: the messages that were there before it stay, in their
/// places.
pub proof fn law_batch_only_adds(t: Terms, s: Sweep, batch: Seq<Event>)
    ensures
        s.messages.len() <= swept(t, s, batch).messages.len(),
        swept(t, s, batch).messages.take(s.messages.len() as int) == s.messages,
        swept(t, s, batch).scanned >= s.scanned,
    decreases batch.len(),
{
    if batch.len() > 0 {
        law_batch_only_adds(t, s, batch.drop_last());
    }
    assert(swept(t, s, batch).messages.take(s.messages.len() as int) =~= s.messages);
}

/// What is in the buffer came from inside a window, and nothing else is counted:
/// a message outside of the window of its partition leaves messages and counters
/// alone.
pub proof fn law_outside_of_the_window_nothing_is_taken(t: Terms, s: Sweep, m: Incoming)
    requires
        window_of(s.round, m.partition) matches Some(w) ==> w.done || m.offset >= w.end || m.offset
            < w.start,
    ensures
        with_message(t, s, m).messages == s.messages,
        with_message(t, s, m).scanned == s.scanned,
        with_message(t, s, m).scanned_bytes == s.scanned_bytes,
        with_message(t, s, m).halt == s.halt,
{
}

proof fn lemma_window_found(round: Seq<RoundPartition>, i: int)
    requires
        0 <= i < round.len(),
        round_in_order(round),
    ensures
        window_of(round, round[i].partition) == Some(round[i]),
    decreases round.len(),
{
    if i < round.len() - 1 {
        assert(round[i].partition < round[round.len() - 1].partition);
        assert(round.drop_last()[i] == round[i]);
        assert(round_in_order(round.drop_last()));
        lemma_window_found(round.drop_last(), i);
    }
}

/// A message inside the open window of its partition is taken: where there is no
/// sieve and room is left, it is the last one in the buffer, with all it came
/// with, and it counts.
pub proof fn law_message_in_the_window_is_taken(t: Terms, s: Sweep, m: Incoming, i: int, h: int)
    requires
        round_in_order(s.round),
        0 <= i < s.round.len(),
        s.round[i].partition == m.partition,
        !s.round[i].done,
        s.round[i].start <= m.offset < s.round[i].end,
        t.sieve is None,
        s.used < t.limit,
        s.round[i].absorbed < i64::MAX,
        0 <= h < m.headers@.len(),
    ensures
        ({
            let after = with_message(t, s, m);
            let new = after.messages.last();
            &&& after.messages.len() == s.messages.len() + 1
            &&& after.messages.drop_last() == s.messages
            &&& new.partition == m.partition
            &&& new.offset == m.offset
            &&& new.timestamp == m.timestamp
            &&& new.key == m.key@
            &&& new.value == m.value@
            &&& new.headers.len() == m.headers@.len()
            &&& new.headers[h] == (m.headers@[h].0@, m.headers@[h].1@)
            &&& after.round[i].absorbed == s.round[i].absorbed + 1
            &&& after.round[i].done == s.round[i].done
            &&& after.scanned == s.scanned + 1
            &&& after.timed == (s.timed || m.timestamp > 0)
            &&& after.halt == s.halt
        }),
{
    lemma_window_found(s.round, i);
    assert(with_message(t, s, m).messages.drop_last() =~= s.messages);
}

/// A message that does not fit into the buffer stops the batch; one that the
/// sieve drops does not, and is not kept, but counts.
pub proof fn law_message_that_is_not_kept(t: Terms, s: Sweep, m: Incoming, i: int)
    requires
        round_in_order(s.round),
        0 <= i < s.round.len(),
        s.round[i].partition == m.partition,
        !s.round[i].done,
        s.round[i].start <= m.offset < s.round[i].end,
        s.halt is None,
        s.round[i].absorbed < i64::MAX,
    ensures
        ({
            let after = with_message(t, s, m);
            &&& after.scanned == s.scanned + 1
            &&& after.scanned_bytes == s.scanned_bytes + m.footprint()
            &&& after.round[i].absorbed == s.round[i].absorbed + 1
            &&& t.sieve is None && s.used >= t.limit ==> after.halt == Some(Halt::Full)
                && after.messages == s.messages && after.used == s.used
            &&& t.sieve matches Some(q) ==> {
                let passed = passes(q, m.key@, m.value@, m.decoded_text());
                &&& !passed ==> after.halt is None && after.messages == s.messages && after.used
                    == s.used
                &&& passed && s.used < t.limit ==> after.messages.len() == s.messages.len() + 1
                    && after.halt is None
                &&& passed && s.used >= t.limit ==> after.messages == s.messages && after.halt
                    == Some(Halt::Full)
            }
        }),
{
    lemma_window_found(s.round, i);
}

/// The first message behind the window closes it, and no other window; one before
/// the window closes none.
pub proof fn law_window_closes_behind_its_end(t: Terms, s: Sweep, m: Incoming, i: int, k: int)
    requires
        round_in_order(s.round),
        0 <= i < s.round.len(),
        0 <= k < s.round.len(),
        s.round[i].partition == m.partition,
    ensures
        ({
            let after = with_message(t, s, m);
            &&& m.offset >= s.round[i].end ==> after.round[i].done
            &&& m.offset < s.round[i].end && !s.round[i].done ==> !after.round[i].done
            &&& s.round[i].done ==> after.round[i] == s.round[i]
            &&& k != i ==> after.round[k] == s.round[k]
            &&& after.round[i].start == s.round[i].start
            &&& after.round[i].end == s.round[i].end
        }),
{
    lemma_window_found(s.round, i);
    if k != i {
        assert(s.round[k].partition != s.round[i].partition) by {
            if k < i {
                assert(s.round[k].partition < s.round[i].partition);
            } else {
                assert(s.round[i].partition < s.round[k].partition);
            }
        }
    }
}

/// Whatever comes of a message, the reader of its partition stands right behind
/// it, the time reached takes it into account only inside the window, and no
/// other partition is touched.
pub proof fn law_reader_stands_behind_the_message(t: Terms, s: Sweep, m: Incoming, k: int)
    requires
        0 <= k < s.cursors.len(),
        m.offset < i64::MAX,
    ensures
        ({
            let after = with_message(t, s, m).cursors;
            &&& after.len() == s.cursors.len()
            &&& s.cursors[k].partition == m.partition ==> after[k].read_position == Some(
                (m.offset + 1) as i64,
            )
            &&& s.cursors[k].partition != m.partition ==> after[k] == s.cursors[k]
            &&& after[k].next == s.cursors[k].next
            &&& after[k].low == s.cursors[k].low
            &&& after[k].high == s.cursors[k].high
            &&& after[k].exhausted == s.cursors[k].exhausted
        }),
{
}

/// The end of a log closes the window of its partition alone. Read from the
/// oldest on, the partition is then read to its end, unless the log ends behind
/// the window; read from the newest on, it is not.
pub proof fn law_end_of_a_log(t: Terms, s: Sweep, p: i32, offset: i64, i: int, k: int)
    requires
        round_in_order(s.round),
        0 <= i < s.round.len(),
        s.round[i].partition == p,
        0 <= k < s.cursors.len(),
    ensures
        ({
            let after = with_eof(t, s, p, offset);
            let c = s.cursors[k];
            &&& after.round[i].done
            &&& after.messages == s.messages
            &&& after.scanned == s.scanned
            &&& after.halt == s.halt
            &&& c.partition == p ==> after.cursors[k].read_position == Some(offset)
            &&& c.partition == p && !t.newest_first && offset <= s.round[i].end
                ==> after.cursors[k].exhausted
            &&& c.partition == p && (t.newest_first || offset > s.round[i].end)
                ==> after.cursors[k].exhausted == c.exhausted
            &&& c.partition != p ==> after.cursors[k] == c
        }),
{
    lemma_window_found(s.round, i);
}

/// A batch is taken event by event: a failure stops it with its reason, and what
/// comes behind a stop is not taken.
pub proof fn law_stopped_batch_takes_no_more(
    t: Terms,
    s: Sweep,
    batch: Seq<Event>,
    more: Seq<Event>,
    reason: String,
)
    ensures
        swept(t, s, Seq::empty()) == s,
        swept(t, s, batch).halt is Some ==> swept(t, s, batch + more) == swept(t, s, batch),
        swept(t, s, batch).halt is None ==> {
            let after = swept(t, s, batch.push(Event::Failure(reason)));
            &&& after.halt == Some(Halt::Failed("read failed: "@ + reason@))
            &&& after.messages == swept(t, s, batch).messages
            &&& after.cursors == swept(t, s, batch).cursors
        },
{
    assert((batch + more).take(batch.len() as int) =~= batch);
    if swept(t, s, batch).halt is Some {
        lemma_halted_stays(t, s, batch + more, batch.len() as int);
    }
    assert(batch.push(Event::Failure(reason)).drop_last() =~= batch);
}

} // verus!
