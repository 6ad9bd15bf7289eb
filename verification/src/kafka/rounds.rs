//! The rounds of a read: which windows are read next, what is taken of what
//! came, and what of it may be shown.

use vstd::prelude::*;

use crate::kafka::cursor::{
    law_window_inside_bounds, next_window, paced, PartitionCursor, RoundPartition,
    MAX_ROUND_CHUNK, MAX_WINDOW,
};
use crate::kafka::reader::{
    absorbed_within, all_behind, arena_cut, cursors_wf, elapsed, extent, lemma_reach_covers,
    lemma_same_extent, lemma_span_within_reach, round_wf,
    topics_wf, PendingRead, ReadDepth, ReadPhase, Reader, READ_BYTE_BUDGET, READ_DEADLINE_MS,
};
use crate::kafka::store::{read_before, MessageMeta, Stored};
use crate::kafka::sweep::{
    counts_agree, in_order, moved, note_position, possible, round_in_order, sieve_query, sweep_of,
    swept, swept_one, take_batch, window_of, Event, Halt, Sweep, Taken, Tally, Terms, SCAN_LIMIT,
};
use crate::kafka::types::{
    FullMessage, MemoryUsage, MessageFilter, OpenTopicProgress, OpenTopicResult, QuotaInfo,
    RawBody, ReadScope, RowPreview, SortSpec, TopicInfo,
};
use crate::kafka::lens::LensMode;
use crate::kafka::text::{Decoded, DecodedBody};
use crate::sorting::lemma_rearranged_members;
use crate::kafka::view::{
    self, full_shows, grow_view, grown, query_of, raw_holds, shows, sifted, texts, undecided,
    undecided_rows, window_end, PreparedFilter, RowTexts,
};

verus! {

// ---------------------------------------------------------------------------
// Which windows come next
// ---------------------------------------------------------------------------
/// How a partition gets to the start of its window.
#[derive(Debug, Clone, Copy, PartialEq, Eq, Structural)]
pub enum Approach {
    /// It is opened there: a partition is opened once in a read.
    Open,
    /// The reader is already there.
    Stay,
    /// The reader is moved there.
    Seek,
}

#[derive(Debug, Clone, Copy)]
pub struct Positioning {
    pub partition: i32,
    pub offset: i64,
    pub approach: Approach,
}

/// What a round begins with.
pub enum RoundStep {
    /// The read ends; `interrupted` says that it ran into a limit.
    Finish { interrupted: bool },
    /// The partitions are to be put to the starts of their windows.
    Position(Vec<Positioning>),
}

/// The windows of the next round.
pub open spec fn round_of(
    cursors: Seq<PartitionCursor>,
    newest_first: bool,
    chunk: int,
) -> Seq<RoundPartition>
    decreases cursors.len(),
{
    if cursors.len() == 0 {
        Seq::empty()
    } else {
        let before = round_of(cursors.drop_last(), newest_first, chunk);
        match cursors.last().window(newest_first, chunk) {
            Some((start, end)) => before.push(
                RoundPartition {
                    partition: cursors.last().partition,
                    start: start as i64,
                    end: end as i64,
                    absorbed: 0,
                    done: false,
                },
            ),
            None => before,
        }
    }
}

/// How the partition of a cursor gets to an offset.
pub open spec fn approach_of(open: Seq<i32>, c: PartitionCursor, start: int) -> Approach {
    if !open.contains(c.partition) {
        Approach::Open
    } else if c.read_position == Some(start as i64) {
        Approach::Stay
    } else {
        Approach::Seek
    }
}

/// Where the partitions of the next round are to be put.
pub open spec fn positions_of(
    cursors: Seq<PartitionCursor>,
    open: Seq<i32>,
    newest_first: bool,
    chunk: int,
) -> Seq<Positioning>
    decreases cursors.len(),
{
    if cursors.len() == 0 {
        Seq::empty()
    } else {
        let before = positions_of(cursors.drop_last(), open, newest_first, chunk);
        match cursors.last().window(newest_first, chunk) {
            Some((start, end)) => before.push(
                Positioning {
                    partition: cursors.last().partition,
                    offset: start as i64,
                    approach: approach_of(open, cursors.last(), start),
                },
            ),
            None => before,
        }
    }
}

/// The read has run into its deadline or its byte budget. A search has neither.
pub open spec fn spent(p: PendingRead, used: int, now: u64) -> bool {
    p.depth == ReadDepth::Window && (elapsed(now, p.started) >= READ_DEADLINE_MS || used
        - p.bytes_at_start >= READ_BYTE_BUDGET)
}

/// How many partitions still take part: there is something left in them, and
/// they are within their budget.
pub open spec fn active(cursors: Seq<PartitionCursor>) -> nat
    decreases cursors.len(),
{
    if cursors.len() == 0 {
        0
    } else {
        active(cursors.drop_last()) + if !cursors.last().exhausted && cursors.last().absorbed
            < cursors.last().budget {
            1nat
        } else {
            0nat
        }
    }
}

proof fn lemma_round_of(cursors: Seq<PartitionCursor>, newest_first: bool, chunk: int)
    requires
        in_order(cursors),
        chunk <= MAX_ROUND_CHUNK,
        forall|i: int|
            0 <= i < cursors.len() ==> (#[trigger] cursors[i]).wf(newest_first),
    ensures
        round_wf(round_of(cursors, newest_first, chunk), cursors),
        counts_agree(round_of(cursors, newest_first, chunk), 0),
        round_of(cursors, newest_first, chunk).len() <= cursors.len(),
        forall|i: int|
            0 <= i < round_of(cursors, newest_first, chunk).len() ==> cursors.len() > 0 && (
            #[trigger] round_of(cursors, newest_first, chunk)[i]).partition
                <= cursors.last().partition,
    decreases cursors.len(),
{
    if cursors.len() > 0 {
        let init = cursors.drop_last();
        let c = cursors.last();
        assert(in_order(init));
        assert forall|i: int| 0 <= i < init.len() implies (#[trigger] init[i]).wf(newest_first) by {
            assert(cursors[i].wf(newest_first));
        }
        lemma_round_of(init, newest_first, chunk);
        let before = round_of(init, newest_first, chunk);
        let all = round_of(cursors, newest_first, chunk);
        assert(cursors[cursors.len() - 1].wf(newest_first));
        law_window_inside_bounds(c, newest_first, chunk);
        assert forall|i: int| 0 <= i < before.len() implies (#[trigger] before[i]).partition
            < c.partition by {
            assert(init.len() > 0);
            assert(cursors[init.len() - 1].partition < cursors[cursors.len() - 1].partition);
        }
        assert(c.partition >= 0) by {
            assert(cursors[cursors.len() - 1].partition >= 0);
        }
        assert forall|i: int, k: int|
            0 <= i < all.len() && 0 <= k < cursors.len() && (#[trigger] all[i]).partition == (
            #[trigger] cursors[k]).partition implies cursors[k].low <= all[i].start && all[i].end
            <= cursors[k].high by {
            if i < before.len() {
                assert(all[i] == before[i]);
                assert(k < init.len());
                assert(init[k] == cursors[k]);
            } else {
                if k < init.len() {
                    assert(cursors[k].partition < cursors[cursors.len() - 1].partition);
                }
            }
        }
        assert forall|i: int| 0 <= i < all.len() implies (#[trigger] all[i]).partition
            <= c.partition && 0 <= all[i].partition && all[i].start < all[i].end && all[i].end
            - all[i].start <= MAX_WINDOW && all[i].absorbed == 0 by {
            if i < before.len() {
                assert(all[i] == before[i]);
            }
        }
        assert forall|i: int, j: int| 0 <= i < j < all.len() implies (#[trigger] all[i]).partition
            < (#[trigger] all[j]).partition by {
            assert(all[i] == before[i]);
            if j < before.len() {
                assert(all[j] == before[j]);
            }
        }
    }
}

impl Reader {
    /// How many partitions still take part.
    pub fn active_partitions(&self) -> (r: usize)
        ensures
            r == active(self.cursors@),
    {
        let mut n: usize = 0;
        let mut i: usize = 0;
        proof {
            assert(self.cursors@.take(0) =~= Seq::empty());
        }
        while i < self.cursors.len()
            invariant
                i <= self.cursors@.len(),
                n <= i,
                n == active(self.cursors@.take(i as int)),
            decreases self.cursors@.len() - i,
        {
            proof {
                assert(self.cursors@.take(i + 1).drop_last() =~= self.cursors@.take(i as int));
            }
            let c = &self.cursors[i];
            if !c.exhausted && c.absorbed < c.budget {
                n += 1;
            }
            i += 1;
        }
        proof {
            assert(self.cursors@.take(i as int) =~= self.cursors@);
        }
        n
    }

    /// Begins the next round, or ends the read. This is the one place where a
    /// read stops by itself: between rounds stopping loses nothing.
    ///
    /// `target`, `shrunk` and `floor` set the pace, as `next_window` takes them.
    pub fn begin_round(
        &mut self,
        now: u64,
        target: Option<i64>,
        shrunk: Option<i64>,
        floor: i64,
    ) -> (r: RoundStep)
        requires
            old(self).wf(),
            old(self).pending matches Some(p) && p.between_rounds(
                old(self).store.messages().len(),
            ),
        ensures
            final(self).wf(),
            ({
                let p = old(self).pending->0;
                let chunk = paced(old(self).window as int, target, shrunk, floor as int);
                let round = round_of(old(self).cursors@, old(self).newest_first, chunk);
                if spent(p, old(self).store.used() as int, now) {
                    &&& r == RoundStep::Finish { interrupted: true }
                    &&& *final(self) == *old(self)
                } else if round.len() == 0 {
                    &&& r == RoundStep::Finish { interrupted: false }
                    &&& *final(self) == (Reader { window: chunk as i64, ..*old(self) })
                } else {
                    &&& r matches RoundStep::Position(positions) && positions@ == positions_of(
                        old(self).cursors@,
                        p.open_partitions@,
                        old(self).newest_first,
                        chunk,
                    )
                    &&& final(self).pending matches Some(q) && q == (PendingRead {
                        phase: q.phase,
                        round_started: now,
                        ..p
                    }) && (q.phase matches ReadPhase::Reading(windows) && windows@ == round)
                    &&& *final(self) == (Reader {
                        window: chunk as i64,
                        pending: final(self).pending,
                        ..*old(self)
                    })
                }
            }),
    {
        let mut p = match self.pending.take() {
            Some(p) => p,
            None => return RoundStep::Finish { interrupted: false },
        };
        let page = match p.depth {
            ReadDepth::Window => true,
            ReadDepth::WholeTopic => false,
        };
        if page && (now.saturating_sub(p.started) >= READ_DEADLINE_MS
            || self.store.byte_size().saturating_sub(p.bytes_at_start) >= READ_BYTE_BUDGET) {
            self.pending = Some(p);
            return RoundStep::Finish { interrupted: true };
        }
        let newest_first = self.newest_first;
        let chunk: i64 = next_window(self.window, target, shrunk, floor);
        self.window = chunk;
        let mut round: Vec<RoundPartition> = Vec::new();
        let mut positions: Vec<Positioning> = Vec::new();
        let ghost cursors = self.cursors@;
        let ghost open = p.open_partitions@;
        let mut i: usize = 0;
        proof {
            assert(cursors.take(0) =~= Seq::empty());
        }
        while i < self.cursors.len()
            invariant
                i <= self.cursors@.len(),
                cursors == self.cursors@,
                open == p.open_partitions@,
                round@ == round_of(cursors.take(i as int), newest_first, chunk as int),
                positions@ == positions_of(cursors.take(i as int), open, newest_first, chunk as int),
            decreases self.cursors@.len() - i,
        {
            proof {
                assert(cursors.take(i + 1).drop_last() =~= cursors.take(i as int));
            }
            let c: PartitionCursor = self.cursors[i];
            if let Some((start, end)) = c.next_window(newest_first, chunk) {
                round.push(
                    RoundPartition {
                        partition: c.partition,
                        start,
                        end,
                        absorbed: 0,
                        done: false,
                    },
                );
                let here = match c.read_position {
                    Some(at) => at == start,
                    None => false,
                };
                let approach = if !listed(&p.open_partitions, c.partition) {
                    Approach::Open
                } else if here {
                    Approach::Stay
                } else {
                    Approach::Seek
                };
                positions.push(Positioning { partition: c.partition, offset: start, approach });
            }
            i += 1;
        }
        proof {
            assert(cursors.take(i as int) =~= cursors);
            lemma_round_of(cursors, newest_first, chunk as int);
        }
        if round.len() == 0 {
            self.pending = Some(p);
            return RoundStep::Finish { interrupted: false };
        }
        p.round_started = now;
        p.phase = ReadPhase::Reading(round);
        self.pending = Some(p);
        RoundStep::Position(positions)
    }

    /// Notes that a partition stands at the start of its window.
    pub fn note_positioned(&mut self, partition: i32, offset: i64)
        requires
            old(self).wf(),
        ensures
            final(self).wf(),
            final(self).cursors@ == moved(old(self).cursors@, partition, offset),
            match old(self).pending {
                None => final(self).pending is None,
                Some(p) => final(self).pending matches Some(q) && q == (PendingRead {
                    open_partitions: q.open_partitions,
                    ..p
                }) && q.open_partitions@ == (if p.open_partitions@.contains(partition) {
                    p.open_partitions@
                } else {
                    p.open_partitions@.push(partition)
                }),
            },
            *final(self) == (Reader {
                cursors: final(self).cursors,
                pending: final(self).pending,
                ..*old(self)
            }),
    {
        let ghost before = self.cursors@;
        note_position(&mut self.cursors, partition, offset);
        if let Some(mut p) = self.pending.take() {
            if !listed(&p.open_partitions, partition) {
                p.open_partitions.push(partition);
            }
            self.pending = Some(p);
        }
        proof {
            lemma_same_bounds_kept(before, self.cursors@, self.newest_first);
        }
    }
}

fn listed(list: &Vec<i32>, p: i32) -> (r: bool)
    ensures
        r == list@.contains(p),
{
    let mut i: usize = 0;
    while i < list.len()
        invariant
            i <= list@.len(),
            forall|k: int| 0 <= k < i ==> list@[k] != p,
        decreases list@.len() - i,
    {
        if list[i] == p {
            return true;
        }
        i += 1;
    }
    false
}

// ---------------------------------------------------------------------------
// What reading changes in cursors and windows, and what it does not
// ---------------------------------------------------------------------------
/// The cursors differ in where the reader stands, in the time reached and in
/// being at their end, and in nothing else.
pub open spec fn same_bounds(a: Seq<PartitionCursor>, b: Seq<PartitionCursor>) -> bool {
    &&& a.len() == b.len()
    &&& forall|i: int|
        0 <= i < a.len() ==> {
            &&& (#[trigger] a[i]).partition == b[i].partition
            &&& a[i].low == b[i].low
            &&& a[i].high == b[i].high
            &&& a[i].next == b[i].next
            &&& a[i].absorbed == b[i].absorbed
            &&& a[i].budget == b[i].budget
            &&& a[i].barren_rounds == b[i].barren_rounds
            &&& a[i].exhausted ==> b[i].exhausted
        }
}

/// The windows differ in what they counted and in being done only.
pub open spec fn same_windows(a: Seq<RoundPartition>, b: Seq<RoundPartition>) -> bool {
    &&& a.len() == b.len()
    &&& forall|i: int|
        0 <= i < a.len() ==> (#[trigger] a[i]).partition == b[i].partition && a[i].start
            == b[i].start && a[i].end == b[i].end
}

/// A batch moves no bounds and no windows.
pub proof fn law_batch_keeps_bounds(t: Terms, s: Sweep, batch: Seq<Event>)
    ensures
        same_bounds(s.cursors, swept(t, s, batch).cursors),
        same_windows(s.round, swept(t, s, batch).round),
    decreases batch.len(),
{
    if batch.len() > 0 {
        law_batch_keeps_bounds(t, s, batch.drop_last());
        let before = swept(t, s, batch.drop_last());
        if before.halt is None {
            let after = swept_one(t, before, batch.last());
            assert(same_bounds(before.cursors, after.cursors));
            assert(same_windows(before.round, after.round));
            lemma_same_bounds_chain(s.cursors, before.cursors, after.cursors);
            lemma_same_windows_chain(s.round, before.round, after.round);
        }
    }
}

proof fn lemma_same_bounds_chain(
    a: Seq<PartitionCursor>,
    b: Seq<PartitionCursor>,
    c: Seq<PartitionCursor>,
)
    requires
        same_bounds(a, b),
        same_bounds(b, c),
    ensures
        same_bounds(a, c),
{
    assert forall|i: int| 0 <= i < a.len() implies {
        &&& (#[trigger] a[i]).partition == c[i].partition
        &&& a[i].low == c[i].low
        &&& a[i].high == c[i].high
        &&& a[i].next == c[i].next
        &&& a[i].absorbed == c[i].absorbed
        &&& a[i].budget == c[i].budget
        &&& a[i].barren_rounds == c[i].barren_rounds
        &&& a[i].exhausted ==> c[i].exhausted
    } by {
        assert(b[i].partition == c[i].partition);
    }
}

proof fn lemma_same_windows_chain(
    a: Seq<RoundPartition>,
    b: Seq<RoundPartition>,
    c: Seq<RoundPartition>,
)
    requires
        same_windows(a, b),
        same_windows(b, c),
    ensures
        same_windows(a, c),
{
    assert forall|i: int| 0 <= i < a.len() implies (#[trigger] a[i]).partition == c[i].partition
        && a[i].start == c[i].start && a[i].end == c[i].end by {
        assert(b[i].partition == c[i].partition);
    }
}

/// Cursors with the same bounds are as good as before.
proof fn lemma_same_bounds_kept(
    a: Seq<PartitionCursor>,
    b: Seq<PartitionCursor>,
    newest_first: bool,
)
    requires
        same_bounds(a, b),
    ensures
        cursors_wf(a, newest_first) ==> cursors_wf(b, newest_first),
        forall|n: int| absorbed_within(a, n) ==> #[trigger] absorbed_within(b, n),
        forall|r: Seq<RoundPartition>| round_wf(r, a) ==> #[trigger] round_wf(r, b),
        forall|todo: Seq<i32>| all_behind(a, todo) ==> #[trigger] all_behind(b, todo),
{
    lemma_same_extent(a, b);
    if cursors_wf(a, newest_first) {
        assert forall|i: int| 0 <= i < b.len() implies (#[trigger] b[i]).wf(newest_first)
            && 0 <= b[i].partition by {
            assert(a[i].wf(newest_first));
        }
        assert forall|i: int, j: int| 0 <= i < j < b.len() implies (#[trigger] b[i]).partition < (
        #[trigger] b[j]).partition by {
            assert(a[i].partition < a[j].partition);
        }
    }
    assert forall|n: int| absorbed_within(a, n) implies #[trigger] absorbed_within(b, n) by {
        assert forall|i: int| 0 <= i < b.len() implies (#[trigger] b[i]).absorbed <= n by {
            assert(a[i].absorbed <= n);
        }
    }
    assert forall|r: Seq<RoundPartition>| round_wf(r, a) implies #[trigger] round_wf(r, b) by {
        assert forall|i: int, k: int|
            0 <= i < r.len() && 0 <= k < b.len() && (#[trigger] r[i]).partition == (
            #[trigger] b[k]).partition implies b[k].low <= r[i].start && r[i].end <= b[k].high by {
            assert(a[k].partition == b[k].partition);
        }
    }
    assert forall|todo: Seq<i32>| all_behind(a, todo) implies #[trigger] all_behind(b, todo) by {
        assert forall|i: int, k: int| 0 <= i < todo.len() && 0 <= k < b.len() implies (
        #[trigger] b[k]).partition < #[trigger] todo[i] by {
            assert(a[k].partition < todo[i]);
        }
    }
}

proof fn lemma_same_windows_kept(
    a: Seq<RoundPartition>,
    b: Seq<RoundPartition>,
    cursors: Seq<PartitionCursor>,
)
    requires
        same_windows(a, b),
        round_wf(a, cursors),
    ensures
        round_wf(b, cursors),
{
    assert forall|i: int| 0 <= i < b.len() implies (#[trigger] b[i]).start < b[i].end
        && b[i].end - b[i].start <= MAX_WINDOW && 0 <= b[i].partition by {
        assert(a[i].start == b[i].start);
    }
    assert forall|i: int, j: int| 0 <= i < j < b.len() implies (#[trigger] b[i]).partition < (
    #[trigger] b[j]).partition by {
        assert(a[i].partition < a[j].partition);
    }
    assert forall|i: int, k: int|
        0 <= i < b.len() && 0 <= k < cursors.len() && (#[trigger] b[i]).partition == (
        #[trigger] cursors[k]).partition implies cursors[k].low <= b[i].start && b[i].end
        <= cursors[k].high by {
        assert(a[i].partition == b[i].partition);
    }
}

// ---------------------------------------------------------------------------
// Taking a batch
// ---------------------------------------------------------------------------
/// What came of a batch.
pub enum ReadStep {
    /// The round is not over.
    More,
    /// All windows were read to their ends.
    RoundComplete,
    /// The buffer is exhausted: the round was undone, and the read ends.
    BufferFull,
    /// Reading failed: the round was undone and the read given up. The open
    /// partitions are to be closed.
    Failed { message: String, open_partitions: Vec<i32> },
}

pub open spec fn all_done(round: Seq<RoundPartition>) -> bool {
    forall|i: int| 0 <= i < round.len() ==> (#[trigger] round[i]).done
}

impl Reader {
    /// The terms of the read that goes on.
    pub open spec fn terms(&self) -> Terms {
        Terms {
            newest_first: self.newest_first,
            limit: self.store.limit() as int,
            sieve: sieve_query(self.pending->0.sieve),
        }
    }

    /// The round that goes on.
    pub open spec fn sweep(&self) -> Sweep {
        Sweep {
            messages: self.store.messages(),
            used: self.store.used() as int,
            cursors: self.cursors@,
            round: self.pending->0.phase->Reading_0@,
            timed: self.has_timestamps,
            scanned: self.pending->0.round_scanned as int,
            scanned_bytes: self.pending->0.round_scanned_bytes as int,
            halt: None,
        }
    }

    /// Takes one batch of the round that goes on.
    pub fn step_reading(&mut self, batch: &Vec<Event>) -> (r: ReadStep)
        requires
            old(self).wf(),
            old(self).pending matches Some(p) && p.reading(),
            old(self).scanned + batch@.len() <= SCAN_LIMIT,
            forall|i: int| 0 <= i < batch@.len() ==> possible(#[trigger] batch@[i]),
        ensures
            final(self).wf(),
            ({
                let p = old(self).pending->0;
                let after = swept(old(self).terms(), old(self).sweep(), batch@);
                &&& final(self).cursors@ == after.cursors
                &&& final(self).has_timestamps == after.timed
                &&& final(self).store.published() == old(self).store.published()
                &&& final(self).store.limit() == old(self).store.limit()
                &&& *final(self) == (Reader {
                    store: final(self).store,
                    cursors: final(self).cursors,
                    has_timestamps: final(self).has_timestamps,
                    scanned: final(self).scanned,
                    pending: final(self).pending,
                    ..*old(self)
                })
                &&& match after.halt {
                    None => {
                        &&& r == (if all_done(after.round) {
                            ReadStep::RoundComplete
                        } else {
                            ReadStep::More
                        })
                        &&& final(self).sweep() == after
                        &&& final(self).scanned == old(self).scanned + (after.scanned
                            - p.round_scanned)
                        &&& final(self).pending matches Some(q) && q == (PendingRead {
                            phase: q.phase,
                            round_scanned: q.round_scanned,
                            round_scanned_bytes: q.round_scanned_bytes,
                            ..p
                        }) && q.reading()
                    },
                    Some(halt) => {
                        &&& final(self).store.messages() == old(self).store.messages().take(
                            p.round_mark as int,
                        )
                        &&& arena_cut(old(self).store, final(self).store)
                        &&& final(self).scanned == old(self).scanned - p.round_scanned
                        &&& match halt {
                            Halt::Full => r is BufferFull && (final(self).pending matches Some(q)
                                && q.between_rounds(final(self).store.messages().len()) && q
                                == (PendingRead {
                                phase: q.phase,
                                round_scanned: 0,
                                round_scanned_bytes: 0,
                                ..p
                            })),
                            Halt::Failed(text) => final(self).pending is None && (
                            r matches ReadStep::Failed { message, open_partitions } && message@
                                == text && open_partitions == p.open_partitions),
                        }
                    },
                }
            }),
    {
        let mut p = match self.pending.take() {
            Some(p) => p,
            None => return ReadStep::More,
        };
        let round = match p.phase {
            ReadPhase::Reading(round) => round,
            ReadPhase::Watermarks(_) => return ReadStep::More,
        };
        let newest_first = self.newest_first;
        let mut tally = Tally {
            round,
            timed: self.has_timestamps,
            scanned: p.round_scanned,
            scanned_bytes: p.round_scanned_bytes,
        };
        let ghost start = sweep_of(self.store, self.cursors@, tally, None);
        let ghost terms = Terms {
            newest_first,
            limit: self.store.limit() as int,
            sieve: sieve_query(p.sieve),
        };
        let before: u64 = p.round_scanned;
        let taken = take_batch(
            &mut self.store,
            &mut self.cursors,
            &mut tally,
            &p.sieve,
            newest_first,
            batch,
        );
        let ghost after = swept(terms, start, batch@);
        proof {
            crate::kafka::sweep::law_batch_only_adds(terms, start, batch@);
            law_batch_keeps_bounds(terms, start, batch@);
            lemma_same_bounds_kept(start.cursors, after.cursors, newest_first);
            lemma_same_windows_kept(start.round, after.round, start.cursors);
        }
        self.has_timestamps = tally.timed;
        match taken {
            Taken::On => {
                let gained: u64 = tally.scanned - before;
                self.scanned = self.scanned + gained;
                p.round_scanned = tally.scanned;
                p.round_scanned_bytes = tally.scanned_bytes;
                let complete = windows_done(&tally.round);
                p.phase = ReadPhase::Reading(tally.round);
                self.pending = Some(p);
                proof {
                    self.store.lemma_bounds();
                    assert(self.sweep() =~= after);
                }
                if complete {
                    ReadStep::RoundComplete
                } else {
                    ReadStep::More
                }
            },
            Taken::Full => {
                self.undo_to(p.round_mark, before);
                p.round_scanned = 0;
                p.round_scanned_bytes = 0;
                p.phase = ReadPhase::Reading(Vec::new());
                proof {
                    lemma_take_of_grown(start.messages, after.messages, p.round_mark as int);
                }
                self.pending = Some(p);
                ReadStep::BufferFull
            },
            Taken::Failed(message) => {
                self.undo_to(p.round_mark, before);
                proof {
                    lemma_take_of_grown(start.messages, after.messages, p.round_mark as int);
                }
                ReadStep::Failed { message, open_partitions: p.open_partitions }
            },
        }
    }

    /// Takes back what a round brought and counted.
    fn undo_to(&mut self, mark: usize, counted: u64)
        requires
            old(self).store.wf(),
            old(self).store.published() <= mark <= old(self).store.messages().len(),
            counted <= old(self).scanned,
        ensures
            final(self).store.wf(),
            final(self).store.messages() == old(self).store.messages().take(mark as int),
            final(self).store.published() == old(self).store.published(),
            final(self).store.limit() == old(self).store.limit(),
            arena_cut(old(self).store, final(self).store),
            *final(self) == (Reader {
                store: final(self).store,
                scanned: (old(self).scanned - counted) as u64,
                ..*old(self)
            }),
    {
        let ghost before = self.store.messages();
        self.store.truncate(mark);
        self.scanned = self.scanned - counted;
        proof {
            if mark >= before.len() {
                assert(before.take(mark as int) =~= before);
            }
        }
    }
}

proof fn lemma_take_of_grown(a: Seq<Stored>, b: Seq<Stored>, mark: int)
    requires
        0 <= mark <= a.len() <= b.len(),
        b.take(a.len() as int) == a,
    ensures
        b.take(mark) == a.take(mark),
{
    assert(b.take(mark) =~= b.take(a.len() as int).take(mark));
}

fn windows_done(round: &Vec<RoundPartition>) -> (r: bool)
    ensures
        r == all_done(round@),
{
    let mut i: usize = 0;
    while i < round.len()
        invariant
            i <= round@.len(),
            forall|k: int| 0 <= k < i ==> (#[trigger] round@[k]).done,
        decreases round@.len() - i,
    {
        if !round[i].done {
            return false;
        }
        i += 1;
    }
    true
}

// ---------------------------------------------------------------------------
// Closing a round
// ---------------------------------------------------------------------------
/// How many offsets the windows of a round span.
pub open spec fn offsets_in(round: Seq<RoundPartition>) -> int
    decreases round.len(),
{
    if round.len() == 0 {
        0
    } else {
        offsets_in(round.drop_last()) + (round.last().end - round.last().start)
    }
}

/// The cursors after their windows were read to their ends.
pub open spec fn advanced_all(
    cursors: Seq<PartitionCursor>,
    round: Seq<RoundPartition>,
    newest_first: bool,
) -> Seq<PartitionCursor> {
    Seq::new(
        cursors.len(),
        |i: int|
            match window_of(round, cursors[i].partition) {
                Some(w) => cursors[i].advanced(newest_first, w),
                None => cursors[i],
            },
    )
}

proof fn lemma_offsets_bounds(round: Seq<RoundPartition>, cursors: Seq<PartitionCursor>)
    requires
        round_wf(round, cursors),
    ensures
        round.len() <= offsets_in(round) <= MAX_WINDOW * round.len(),
        round.len() <= 0x8000_0000,
    decreases round.len(),
{
    if round.len() > 0 {
        let init = round.drop_last();
        assert(round_wf(init, cursors)) by {
            assert forall|i: int| 0 <= i < init.len() implies (#[trigger] init[i]).start
                < init[i].end && init[i].end - init[i].start <= MAX_WINDOW && 0
                <= init[i].partition by {
                assert(round[i].start < round[i].end);
            }
            assert forall|i: int, j: int| 0 <= i < j < init.len() implies (
            #[trigger] init[i]).partition < (#[trigger] init[j]).partition by {
                assert(round[i].partition < round[j].partition);
            }
            assert forall|i: int, k: int|
                0 <= i < init.len() && 0 <= k < cursors.len() && (#[trigger] init[i]).partition == (
                #[trigger] cursors[k]).partition implies cursors[k].low <= init[i].start
                && init[i].end <= cursors[k].high by {
                assert(round[i].partition == cursors[k].partition);
            }
        }
        lemma_offsets_bounds(init, cursors);
        let last = round.len() - 1;
        assert(round[last].start < round[last].end);
        lemma_place_in_order(round, last);
    }
}

proof fn lemma_place_in_order(round: Seq<RoundPartition>, k: int)
    requires
        round_in_order(round),
        0 <= k < round.len(),
    ensures
        round[k].partition >= k,
    decreases k,
{
    if k > 0 {
        lemma_place_in_order(round, k - 1);
        assert(round[k - 1].partition < round[k].partition);
    } else {
        assert(round[0].partition >= 0);
    }
}

impl Reader {
    /// Closes a round that was read to its end: the cursors move to the next
    /// windows, and there is nothing left to undo. Gives the offsets that the
    /// round passed.
    ///
    /// The price of an offset is measured by what was looked at, not by what
    /// was kept: to a search offsets would look almost free otherwise.
    pub fn close_round(&mut self, elapsed_ms: u64) -> (r: i64)
        requires
            old(self).wf(),
            old(self).pending matches Some(p) && p.reading(),
        ensures
            final(self).wf(),
            ({
                let p = old(self).pending->0;
                let round = p.phase->Reading_0@;
                &&& r == offsets_in(round)
                &&& final(self).cursors@ == advanced_all(
                    old(self).cursors@,
                    round,
                    old(self).newest_first,
                )
                &&& final(self).pending matches Some(q) && q.between_rounds(
                    old(self).store.messages().len(),
                ) && q == (PendingRead {
                    phase: q.phase,
                    round_mark: q.round_mark,
                    round_scanned: 0,
                    round_scanned_bytes: 0,
                    ..p
                })
                &&& *final(self) == (Reader {
                    cursors: final(self).cursors,
                    pending: final(self).pending,
                    last_round: Some(elapsed_ms),
                    kept: if offsets_in(round) > 0 {
                        Some((p.round_scanned_bytes, offsets_in(round) as i64))
                    } else {
                        old(self).kept
                    },
                    ..*old(self)
                })
            }),
    {
        let mut p = match self.pending.take() {
            Some(p) => p,
            None => return 0,
        };
        let round = match p.phase {
            ReadPhase::Reading(round) => round,
            ReadPhase::Watermarks(_) => return 0,
        };
        let newest_first = self.newest_first;
        let ghost cursors = self.cursors@;
        let ghost moved_on = advanced_all(cursors, round@, newest_first);
        let ghost limit = self.scanned - p.round_scanned;
        let ghost counted = p.round_scanned as int;
        proof {
            lemma_offsets_bounds(round@, cursors);
            self.store.lemma_bounds();
        }
        let mut offsets: i64 = 0;
        let mut i: usize = 0;
        proof {
            assert(round@.take(0) =~= Seq::empty());
        }
        while i < round.len()
            invariant
                i <= round@.len(),
                round@.len() <= 0x8000_0000,
                forall|k: int|
                    0 <= k < round@.len() ==> (#[trigger] round@[k]).start < round@[k].end
                        && round@[k].end - round@[k].start <= MAX_WINDOW,
                offsets == offsets_in(round@.take(i as int)),
                0 <= offsets <= MAX_WINDOW * i,
            decreases round@.len() - i,
        {
            proof {
                assert(round@.take(i + 1).drop_last() =~= round@.take(i as int));
            }
            let w: RoundPartition = round[i];
            offsets = offsets + (w.end - w.start);
            i += 1;
        }
        proof {
            assert(round@.take(i as int) =~= round@);
        }
        i = 0;
        while i < self.cursors.len()
            invariant
                i <= self.cursors@.len(),
                self.cursors@.len() == cursors.len(),
                cursors_wf(cursors, newest_first),
                absorbed_within(cursors, limit),
                counts_agree(round@, counted),
                0 <= limit,
                0 <= counted,
                limit + counted <= SCAN_LIMIT,
                round_wf(round@, cursors),
                moved_on == advanced_all(cursors, round@, newest_first),
                *self == (Reader { cursors: self.cursors, pending: None, ..*old(self) }),
                forall|k: int| 0 <= k < i ==> #[trigger] self.cursors@[k] == moved_on[k],
                forall|k: int| i <= k < cursors.len() ==> #[trigger] self.cursors@[k] == cursors[k],
                forall|k: int|
                    0 <= k < i ==> (#[trigger] moved_on[k]).wf(newest_first)
                        && moved_on[k].partition == cursors[k].partition && moved_on[k].low
                        == cursors[k].low && moved_on[k].high == cursors[k].high
                        && moved_on[k].absorbed <= limit + counted,
            decreases self.cursors@.len() - i,
        {
            let mut c: PartitionCursor = self.cursors[i];
            proof {
                assert(cursors[i as int].wf(newest_first));
                assert(cursors[i as int].absorbed <= limit);
            }
            if let Some(at) = crate::kafka::sweep::window_at(&round, c.partition) {
                let w: RoundPartition = round[at];
                proof {
                    assert(round@[at as int].absorbed <= counted);
                    assert(round@[at as int].start < round@[at as int].end);
                    assert(round@[at as int].partition == cursors[i as int].partition);
                }
                c.advance(newest_first, &w);
                self.cursors.set(i, c);
            }
            i += 1;
        }
        proof {
            assert(self.cursors@ =~= moved_on);
            lemma_same_extent(cursors, moved_on);
            assert(in_order(moved_on)) by {
                assert forall|a: int, c: int| 0 <= a < c < moved_on.len() implies (
                #[trigger] moved_on[a]).partition < (#[trigger] moved_on[c]).partition by {
                    assert(cursors[a].partition < cursors[c].partition);
                }
                assert forall|a: int| 0 <= a < moved_on.len() implies 0 <= (
                #[trigger] moved_on[a]).partition by {
                    assert(cursors[a].partition >= 0);
                }
            }
            assert forall|a: int| 0 <= a < moved_on.len() implies (#[trigger] moved_on[a]).wf(
                newest_first,
            ) by {
                assert(cursors[a].wf(newest_first));
            }
        }
        self.last_round = Some(elapsed_ms);
        if offsets > 0 {
            self.kept = Some((p.round_scanned_bytes, offsets));
        }
        p.round_scanned = 0;
        p.round_scanned_bytes = 0;
        p.round_mark = self.store.len();
        p.phase = ReadPhase::Reading(Vec::new());
        self.pending = Some(p);
        offsets
    }
}

// ---------------------------------------------------------------------------
// Publishing
// ---------------------------------------------------------------------------
/// What may be published.
#[derive(Debug, Clone, Copy, PartialEq, Eq, Structural)]
pub enum Frontier {
    /// There is nothing left to read: everything.
    Everything,
    /// What lies strictly beyond this time.
    Beyond(i64),
    /// Some partition is not known at all: nothing.
    Nothing,
}

/// How deep one may publish. A partition that was read up to a time will only
/// bring what lies behind it, so everything beyond the one that lags most has
/// its place. A partition that brought nothing yet may bring anything.
pub open spec fn frontier_of(cursors: Seq<PartitionCursor>, newest_first: bool) -> Frontier
    decreases cursors.len(),
{
    if cursors.len() == 0 {
        Frontier::Everything
    } else {
        let before = frontier_of(cursors.drop_last(), newest_first);
        let c = cursors.last();
        if c.exhausted {
            before
        } else {
            match (c.frontier_ts, before) {
                (None, _) => Frontier::Nothing,
                (Some(_), Frontier::Nothing) => Frontier::Nothing,
                (Some(ts), Frontier::Everything) => Frontier::Beyond(ts),
                (Some(ts), Frontier::Beyond(f)) => Frontier::Beyond(
                    if newest_first == (ts > f) {
                        ts
                    } else {
                        f
                    },
                ),
            }
        }
    }
}

/// A time lies beyond another in the direction of the read.
pub open spec fn beyond(newest_first: bool, frontier: i64, timestamp: i64) -> bool {
    if newest_first {
        timestamp > frontier
    } else {
        timestamp < frontier
    }
}

/// How many messages are published: all of them, none more, or those beyond the
/// frontier.
pub open spec fn published_to(
    messages: Seq<Stored>,
    before: int,
    after: int,
    timed: bool,
    newest_first: bool,
    frontier: Frontier,
) -> bool {
    if !timed {
        after == messages.len()
    } else {
        match frontier {
            Frontier::Everything => after == messages.len(),
            Frontier::Nothing => after == before,
            Frontier::Beyond(f) => {
                &&& before <= after <= messages.len()
                &&& forall|i: int|
                    before <= i < after ==> beyond(
                        newest_first,
                        f,
                        (#[trigger] messages[i]).timestamp,
                    )
                &&& after < messages.len() ==> !beyond(newest_first, f, messages[after].timestamp)
            },
        }
    }
}

impl Reader {
    /// How deep one may publish now.
    pub fn safe_frontier(&self) -> (r: Frontier)
        ensures
            r == frontier_of(self.cursors@, self.newest_first),
    {
        let mut frontier = Frontier::Everything;
        let mut i: usize = 0;
        proof {
            assert(self.cursors@.take(0) =~= Seq::empty());
        }
        while i < self.cursors.len()
            invariant
                i <= self.cursors@.len(),
                frontier == frontier_of(self.cursors@.take(i as int), self.newest_first),
            decreases self.cursors@.len() - i,
        {
            proof {
                assert(self.cursors@.take(i + 1).drop_last() =~= self.cursors@.take(i as int));
            }
            let c = &self.cursors[i];
            if !c.exhausted {
                frontier = match (c.frontier_ts, frontier) {
                    (None, _) => Frontier::Nothing,
                    (Some(_), Frontier::Nothing) => Frontier::Nothing,
                    (Some(ts), Frontier::Everything) => Frontier::Beyond(ts),
                    (Some(ts), Frontier::Beyond(f)) => Frontier::Beyond(
                        if self.newest_first == (ts > f) {
                            ts
                        } else {
                            f
                        },
                    ),
                };
            }
            i += 1;
        }
        proof {
            assert(self.cursors@.take(i as int) =~= self.cursors@);
        }
        frontier
    }

    /// Sorts what is staged and publishes what nothing can get ahead of any
    /// more. Gives how many messages that were. Where no message has a time,
    /// there is nothing to order by: all of them are shown.
    pub fn publish(&mut self) -> (r: usize)
        requires
            old(self).wf(),
            old(self).pending matches Some(p) ==> p.round_mark == old(self).store.messages().len(),
        ensures
            final(self).wf(),
            *final(self) == (Reader { store: final(self).store, ..*old(self) }),
            final(self).store.limit() == old(self).store.limit(),
            final(self).store.used() == old(self).store.used(),
            final(self).store.published() == old(self).store.published() + r,
            final(self).store.messages().len() == old(self).store.messages().len(),
            ({
                let before = old(self).store.messages();
                let after = final(self).store.messages();
                let c = old(self).store.published() as int;
                &&& after.take(c) == before.take(c)
                &&& after.skip(c).to_multiset() == before.skip(c).to_multiset()
                &&& c < before.len() ==> {
                    &&& forall|i: int, j: int|
                        c <= i < j < after.len() ==> read_before(
                            old(self).newest_first,
                            #[trigger] after[i],
                            #[trigger] after[j],
                        )
                    &&& published_to(
                        after,
                        c,
                        final(self).store.published() as int,
                        old(self).has_timestamps,
                        old(self).newest_first,
                        frontier_of(old(self).cursors@, old(self).newest_first),
                    )
                }
                &&& c == before.len() ==> *final(self) == *old(self)
            }),
    {
        proof {
            self.store.lemma_bounds();
        }
        if self.store.staged_len() == 0 {
            return 0;
        }
        let newest_first = self.newest_first;
        self.store.sort_staged(newest_first);
        proof {
            self.store.lemma_bounds();
        }
        let ghost sorted = self.store;
        let r: usize = if !self.has_timestamps {
            self.store.commit_all()
        } else {
            match self.safe_frontier() {
                Frontier::Nothing => 0,
                Frontier::Everything => self.store.commit_all(),
                Frontier::Beyond(f) => {
                    let keep = |m: &MessageMeta| -> (b: bool)
                        ensures
                            b == beyond(newest_first, f, m.timestamp),
                        {
                            if newest_first {
                                m.timestamp > f
                            } else {
                                m.timestamp < f
                            }
                        };
                    let n: usize = self.store.commit_staged_while(keep);
                    proof {
                        let after = self.store;
                        assert forall|i: int|
                            sorted.published() <= i < after.published() implies beyond(
                            newest_first,
                            f,
                            (#[trigger] after.messages()[i]).timestamp,
                        ) by {
                            after.lemma_meta(i);
                            assert(call_ensures(keep, (&after.meta(i),), true));
                        }
                        if after.published() < after.messages().len() {
                            after.lemma_meta(after.published() as int);
                        }
                    }
                    n
                },
            }
        };
        proof {
            self.store.lemma_bounds();
        }
        r
    }
}

/// Nothing that is published can be overtaken: a message that a partition still
/// to be read may bring, one not beyond the time it was read up to, comes after
/// everything that was published beyond the frontier.
pub proof fn law_published_is_never_overtaken(
    cursors: Seq<PartitionCursor>,
    newest_first: bool,
    k: int,
    shown: Stored,
    later: Stored,
)
    requires
        0 <= k < cursors.len(),
        !cursors[k].exhausted,
        frontier_of(cursors, newest_first) matches Frontier::Beyond(f) && beyond(
            newest_first,
            f,
            shown.timestamp,
        ),
        cursors[k].frontier_ts matches Some(reached) && !beyond(
            newest_first,
            reached,
            later.timestamp,
        ),
    ensures
        read_before(newest_first, shown, later),
        !read_before(newest_first, later, shown),
{
    lemma_frontier_covers(cursors, newest_first, k);
}

/// The messages up to a place stand in the order of reading.
pub open spec fn in_reading_order(messages: Seq<Stored>, newest_first: bool, upto: int) -> bool {
    forall|i: int, j: int|
        0 <= i < j < upto ==> read_before(
            newest_first,
            #[trigger] messages[i],
            #[trigger] messages[j],
        )
}

/// Publishing keeps the log in order: where the published messages stand in
/// order, and none of those that wait belongs before one of them, all messages
/// stand in order afterwards, however many of them are published.
pub proof fn law_publishing_keeps_the_order(
    before: Seq<Stored>,
    after: Seq<Stored>,
    newest_first: bool,
    published: int,
)
    requires
        0 <= published <= before.len(),
        before.len() == after.len(),
        in_reading_order(before, newest_first, published),
        forall|i: int, j: int|
            0 <= i < published <= j < before.len() ==> read_before(
                newest_first,
                #[trigger] before[i],
                #[trigger] before[j],
            ),
        after.take(published) == before.take(published),
        after.skip(published).to_multiset() == before.skip(published).to_multiset(),
        forall|i: int, j: int|
            published <= i < j < after.len() ==> read_before(
                newest_first,
                #[trigger] after[i],
                #[trigger] after[j],
            ),
    ensures
        in_reading_order(after, newest_first, after.len() as int),
{
    let waiting = after.skip(published);
    let waited = before.skip(published);
    lemma_rearranged_members(waiting, waited);
    assert forall|i: int, j: int| 0 <= i < j < after.len() implies read_before(
        newest_first,
        #[trigger] after[i],
        #[trigger] after[j],
    ) by {
        if i < published {
            assert(after.take(published)[i] == before.take(published)[i]);
            if j < published {
                assert(after.take(published)[j] == before.take(published)[j]);
            } else {
                assert(waiting[j - published] == after[j]);
                assert(waiting.contains(after[j]));
                assert(waited.contains(after[j]));
                let k = choose|k: int| 0 <= k < waited.len() && waited[k] == after[j];
                assert(before[published + k] == after[j]);
            }
        }
    }
}

/// Cursors after more was read: none has gone back in time, and none that was at
/// its end is not.
pub open spec fn read_further(
    a: Seq<PartitionCursor>,
    b: Seq<PartitionCursor>,
    newest_first: bool,
) -> bool {
    &&& a.len() == b.len()
    &&& forall|i: int|
        0 <= i < a.len() ==> {
            &&& (#[trigger] a[i]).exhausted ==> b[i].exhausted
            &&& a[i].frontier_ts matches Some(x) ==> (b[i].frontier_ts matches Some(y) && !beyond(
                newest_first,
                x,
                y,
            ))
        }
}

/// Reading takes cursors further, whatever comes.
pub proof fn law_batch_reads_further(t: Terms, s: Sweep, batch: Seq<Event>)
    ensures
        read_further(s.cursors, swept(t, s, batch).cursors, t.newest_first),
    decreases batch.len(),
{
    if batch.len() > 0 {
        law_batch_reads_further(t, s, batch.drop_last());
        let before = swept(t, s, batch.drop_last());
        if before.halt is None {
            let after = swept_one(t, before, batch.last());
            assert(read_further(before.cursors, after.cursors, t.newest_first));
            assert forall|i: int| 0 <= i < s.cursors.len() implies {
                &&& (#[trigger] s.cursors[i]).exhausted ==> after.cursors[i].exhausted
                &&& s.cursors[i].frontier_ts matches Some(x) ==> (
                after.cursors[i].frontier_ts matches Some(y) && !beyond(t.newest_first, x, y))
            } by {
                assert(before.cursors[i].exhausted ==> after.cursors[i].exhausted);
            }
        }
    }
}

/// So does closing a round.
pub proof fn law_closing_reads_further(
    cursors: Seq<PartitionCursor>,
    round: Seq<RoundPartition>,
    newest_first: bool,
)
    ensures
        read_further(cursors, advanced_all(cursors, round, newest_first), newest_first),
{
}

/// The frontier only recedes: what was beyond it once stays beyond it, so that
/// what was published stays published rightly while reading goes on.
pub proof fn law_frontier_only_recedes(
    a: Seq<PartitionCursor>,
    b: Seq<PartitionCursor>,
    newest_first: bool,
)
    requires
        read_further(a, b, newest_first),
    ensures
        frontier_of(a, newest_first) is Everything ==> frontier_of(b, newest_first) is Everything,
        frontier_of(a, newest_first) matches Frontier::Beyond(f) ==> match frontier_of(
            b,
            newest_first,
        ) {
            Frontier::Everything => true,
            Frontier::Beyond(g) => !beyond(newest_first, f, g),
            Frontier::Nothing => false,
        },
    decreases a.len(),
{
    if a.len() > 0 {
        let last = a.len() - 1;
        assert(a[last].exhausted ==> b[last].exhausted);
        assert forall|i: int| 0 <= i < a.drop_last().len() implies {
            &&& (#[trigger] a.drop_last()[i]).exhausted ==> b.drop_last()[i].exhausted
            &&& a.drop_last()[i].frontier_ts matches Some(x) ==> (
            b.drop_last()[i].frontier_ts matches Some(y) && !beyond(newest_first, x, y))
        } by {
            assert(a[i].exhausted ==> b[i].exhausted);
        }
        law_frontier_only_recedes(a.drop_last(), b.drop_last(), newest_first);
    }
}

/// While a partition that is still to be read has brought nothing, nothing is
/// published beyond it.
pub proof fn law_unknown_partition_holds_back(
    cursors: Seq<PartitionCursor>,
    newest_first: bool,
    k: int,
)
    requires
        0 <= k < cursors.len(),
        !cursors[k].exhausted,
        cursors[k].frontier_ts is None,
    ensures
        frontier_of(cursors, newest_first) is Nothing,
    decreases cursors.len(),
{
    if k < cursors.len() - 1 {
        law_unknown_partition_holds_back(cursors.drop_last(), newest_first, k);
    }
}

proof fn lemma_frontier_covers(cursors: Seq<PartitionCursor>, newest_first: bool, k: int)
    requires
        0 <= k < cursors.len(),
        !cursors[k].exhausted,
        cursors[k].frontier_ts is Some,
        frontier_of(cursors, newest_first) is Beyond,
    ensures
        !beyond(
            newest_first,
            frontier_of(cursors, newest_first)->Beyond_0,
            cursors[k].frontier_ts->0,
        ),
    decreases cursors.len(),
{
    if k < cursors.len() - 1 {
        let init = cursors.drop_last();
        if frontier_of(init, newest_first) is Beyond {
            lemma_frontier_covers(init, newest_first, k);
        } else {
            lemma_live_is_no_everything(init, newest_first, k);
        }
    }
}

proof fn lemma_live_is_no_everything(cursors: Seq<PartitionCursor>, newest_first: bool, k: int)
    requires
        0 <= k < cursors.len(),
        !cursors[k].exhausted,
    ensures
        !(frontier_of(cursors, newest_first) is Everything),
    decreases cursors.len(),
{
    if k < cursors.len() - 1 {
        lemma_live_is_no_everything(cursors.drop_last(), newest_first, k);
    }
}

// ---------------------------------------------------------------------------
// What is shown
// ---------------------------------------------------------------------------
/// The view after messages from `from` on were sifted into it.
pub open spec fn view_grown(before: Reader, after: Reader, rows: Seq<usize>, from: int, decoded: Seq<Option<String>>) -> bool {
    grown(
        after.sort,
        after.store.messages(),
        rows + sifted(
            query_of(before.filter, before.has_decoder),
            before.store.messages(),
            texts(decoded),
            from,
            before.store.published() as int,
        ),
        after.view@,
    )
}

impl Reader {
    /// The messages that were published and not sifted yet, and of which only
    /// the decoded body can tell whether they pass.
    pub fn questions(&self) -> (r: Vec<usize>)
        requires
            self.wf(),
        ensures
            forall|i: int|
                0 <= i < r@.len() ==> self.view_scanned <= #[trigger] r@[i]
                    < self.store.published(),
            forall|i: int, j: int| 0 <= i < j < r@.len() ==> #[trigger] r@[i] < #[trigger] r@[j],
            forall|k: usize|
                self.view_scanned <= k < self.store.published() ==> (#[trigger] r@.contains(k)
                    <==> undecided(
                    query_of(self.filter, self.has_decoder),
                    self.store.messages()[k as int].key,
                    self.store.messages()[k as int].value,
                )),
    {
        let prepared = PreparedFilter::new(&self.filter, self.has_decoder);
        undecided_rows(&self.store, &prepared, self.view_scanned)
    }

    /// Sifts what was published since the last time into the view. `decoded`
    /// holds the decoded bodies of these messages, as far as they were asked
    /// for.
    pub fn extend_view(&mut self, decoded: &Vec<Option<String>>)
        requires
            old(self).wf(),
            decoded@.len() == old(self).store.published() - old(self).view_scanned,
        ensures
            final(self).wf(),
            *final(self) == (Reader {
                view: final(self).view,
                view_scanned: final(self).view_scanned,
                ..*old(self)
            }),
            final(self).view_scanned == old(self).store.published(),
            view_grown(
                *old(self),
                *final(self),
                old(self).view@,
                old(self).view_scanned as int,
                decoded@,
            ),
    {
        let prepared = PreparedFilter::new(&self.filter, self.has_decoder);
        self.view_scanned = grow_view(
            &self.store,
            &prepared,
            decoded,
            self.sort,
            self.view_scanned,
            &mut self.view,
        );
    }

    /// Builds the view anew from everything that is published: the filter or the
    /// order has changed. Gives the number of rows.
    pub fn rebuild_view(&mut self, decoded: &Vec<Option<String>>) -> (r: usize)
        requires
            old(self).wf(),
            decoded@.len() == old(self).store.published(),
        ensures
            final(self).wf(),
            *final(self) == (Reader {
                view: final(self).view,
                view_scanned: final(self).view_scanned,
                ..*old(self)
            }),
            final(self).view_scanned == old(self).store.published(),
            r == final(self).view@.len(),
            view_grown(*old(self), *final(self), Seq::empty(), 0, decoded@),
    {
        self.view = Vec::new();
        self.view_scanned = 0;
        self.extend_view(decoded);
        self.view.len()
    }

    /// Takes a new filter. The view has to be built anew then.
    pub fn set_filter(&mut self, filter: MessageFilter)
        requires
            old(self).wf(),
        ensures
            final(self).wf(),
            final(self).view@.len() == 0,
            *final(self) == (Reader {
                filter,
                view: final(self).view,
                view_scanned: 0,
                ..*old(self)
            }),
    {
        self.filter = filter;
        self.view = Vec::new();
        self.view_scanned = 0;
    }

    /// Takes a new order. The view has to be built anew then.
    pub fn set_sort(&mut self, sort: Option<SortSpec>)
        requires
            old(self).wf(),
        ensures
            final(self).wf(),
            final(self).view@.len() == 0,
            *final(self) == (Reader {
                sort,
                view: final(self).view,
                view_scanned: 0,
                ..*old(self)
            }),
    {
        self.sort = sort;
        self.view = Vec::new();
        self.view_scanned = 0;
    }

    /// How much memory the buffer holds, and how much it may.
    pub fn memory_usage(&self) -> (r: MemoryUsage)
        ensures
            self.store.holds_memory(r.memory_bytes),
            r.memory_limit == self.store.limit(),
    {
        MemoryUsage {
            memory_bytes: self.store.memory_bytes(),
            memory_limit: self.store.max_bytes(),
        }
    }

    /// How much of the topic was looked through, and how much there is: by the
    /// selected partitions and within the range. Not known before the bounds
    /// are.
    pub fn read_scope(&self) -> (r: ReadScope)
        requires
            self.wf(),
        ensures
            r.scanned == self.scanned,
            r.approx_total == (if self.cursors@.len() == 0 {
                None
            } else {
                Some(extent(self.cursors@) as i64)
            }),
            r.approx_total matches Some(n) ==> n == extent(self.cursors@),
    {
        if self.cursors.len() == 0 {
            return ReadScope { scanned: self.scanned, approx_total: None };
        }
        let mut total: i64 = 0;
        let mut i: usize = 0;
        proof {
            assert(self.cursors@.take(0) =~= Seq::empty());
        }
        while i < self.cursors.len()
            invariant
                i <= self.cursors@.len(),
                cursors_wf(self.cursors@, self.newest_first),
                total == extent(self.cursors@.take(i as int)),
            decreases self.cursors@.len() - i,
        {
            proof {
                assert(self.cursors@.take(i + 1).drop_last() =~= self.cursors@.take(i as int));
                assert(self.cursors@[i as int].wf(self.newest_first));
                lemma_span_within_reach(self.cursors@, i as int);
                lemma_reach_covers(self.cursors@, i + 1);
            }
            let c = &self.cursors[i];
            total = total + (c.high - c.low);
            i += 1;
        }
        proof {
            assert(self.cursors@.take(i as int) =~= self.cursors@);
        }
        ReadScope { scanned: self.scanned, approx_total: Some(total) }
    }

    /// Whether every partition was read to its end.
    fn all_exhausted(&self) -> (r: bool)
        ensures
            r == all_at_end(self.cursors@),
    {
        let mut i: usize = 0;
        while i < self.cursors.len()
            invariant
                i <= self.cursors@.len(),
                forall|k: int| 0 <= k < i ==> (#[trigger] self.cursors@[k]).exhausted,
            decreases self.cursors@.len() - i,
        {
            if !self.cursors[i].exhausted {
                return false;
            }
            i += 1;
        }
        true
    }

    /// Ends a read, after what could be was published: sifts that into the view
    /// and gives the result. `interrupted` says that the read broke off, so that
    /// there is more in the topic in any case.
    pub fn finish_read(
        &mut self,
        interrupted: bool,
        decoded: &Vec<Option<String>>,
        quota: QuotaInfo,
    ) -> (r: OpenTopicResult)
        requires
            old(self).wf(),
            old(self).pending matches Some(p) ==> p.round_scanned == 0,
            decoded@.len() == old(self).store.published() - old(self).view_scanned,
        ensures
            final(self).wf(),
            *final(self) == (Reader {
                view: final(self).view,
                view_scanned: final(self).view_scanned,
                pending: None,
                ..*old(self)
            }),
            final(self).view_scanned == old(self).store.published(),
            view_grown(
                *old(self),
                *final(self),
                old(self).view@,
                old(self).view_scanned as int,
                decoded@,
            ),
            r.total == final(self).view@.len(),
            r.loaded == old(self).store.published(),
            r.buffer_bytes == old(self).store.used(),
            old(self).store.holds_memory(r.memory.memory_bytes),
            r.memory.memory_limit == old(self).store.limit(),
            r.truncated == (interrupted || !all_at_end(old(self).cursors@)),
            r.quota == quota,
            r.scope.scanned == old(self).scanned,
            r.scope.approx_total == (if old(self).cursors@.len() == 0 {
                None
            } else {
                Some(extent(old(self).cursors@) as i64)
            }),
    {
        self.pending = None;
        self.extend_view(decoded);
        OpenTopicResult {
            total: self.view.len(),
            loaded: self.store.committed_len(),
            buffer_bytes: self.store.byte_size(),
            memory: self.memory_usage(),
            truncated: interrupted || !self.all_exhausted(),
            quota,
            scope: self.read_scope(),
        }
    }

    /// How a read stands, for asking while it goes on.
    pub fn progress(&self, quota: QuotaInfo) -> (r: OpenTopicProgress)
        requires
            self.wf(),
        ensures
            match (r.topic, self.open_topic) {
                (Some(a), Some(b)) => a@ == b@,
                (None, None) => true,
                _ => false,
            },
            r.loaded == self.store.published(),
            r.total == self.view@.len(),
            r.buffer_bytes == self.store.used(),
            self.store.holds_memory(r.memory.memory_bytes),
            r.memory.memory_limit == self.store.limit(),
            r.truncated == (self.pending is Some),
            r.done == (self.pending is None),
            r.quota == quota,
            r.scope.scanned == self.scanned,
            r.scope.approx_total == (if self.cursors@.len() == 0 {
                None
            } else {
                Some(extent(self.cursors@) as i64)
            }),
            r.searching == (self.pending matches Some(p) && p.depth == ReadDepth::WholeTopic),
    {
        OpenTopicProgress {
            topic: match &self.open_topic {
                Some(t) => Some(t.clone()),
                None => None,
            },
            loaded: self.store.committed_len(),
            total: self.view.len(),
            buffer_bytes: self.store.byte_size(),
            memory: self.memory_usage(),
            truncated: self.pending.is_some(),
            done: self.pending.is_none(),
            quota,
            scope: self.read_scope(),
            searching: match &self.pending {
                Some(p) => match p.depth {
                    ReadDepth::WholeTopic => true,
                    ReadDepth::Window => false,
                },
                None => false,
            },
        }
    }

    /// In which row a message stands. Asked without an open topic, it is an
    /// error; a message that was not read or did not pass is in no row.
    pub fn find_message(&self, partition: i32, offset: i64) -> (r: Result<Option<usize>, String>)
        requires
            self.wf(),
        ensures
            self.open_topic is None ==> (r matches Err(e) && e@ == "no topic is open"@),
            self.open_topic is Some ==> match r {
                Ok(Some(at)) => {
                    &&& at < self.view@.len()
                    &&& crate::kafka::view::comes_from(
                        self.store.messages()[self.view@[at as int] as int],
                        partition,
                        offset,
                    )
                    &&& forall|i: int|
                        0 <= i < at ==> !crate::kafka::view::comes_from(
                            self.store.messages()[#[trigger] self.view@[i] as int],
                            partition,
                            offset,
                        )
                },
                Ok(None) => forall|i: int|
                    0 <= i < self.view@.len() ==> !crate::kafka::view::comes_from(
                        self.store.messages()[#[trigger] self.view@[i] as int],
                        partition,
                        offset,
                    ),
                Err(_) => false,
            },
    {
        if self.open_topic.is_none() {
            return Err("no topic is open".to_owned());
        }
        proof {
            self.store.lemma_bounds();
        }
        Ok(crate::kafka::view::find_message(&self.store, &self.view, partition, offset))
    }
}

impl Reader {
    /// The messages behind a window of the table: what has to be decoded for it.
    pub fn window_rows(&self, start: usize, count: usize) -> (r: Vec<usize>)
        ensures
            start < window_end(self.view@, start as int, count as int) ==> r@
                == self.view@.subrange(
                start as int,
                window_end(self.view@, start as int, count as int),
            ),
            start >= window_end(self.view@, start as int, count as int) ==> r@.len() == 0,
    {
        view::window_rows(&self.view, start, count)
    }

    /// Exactly what is on the screen. `texts` holds what came of decoding the
    /// messages behind the window.
    pub fn window(&self, start: usize, count: usize, texts: Vec<RowTexts>) -> (r: Vec<RowPreview>)
        requires
            self.wf(),
            texts@.len() == (if start < window_end(self.view@, start as int, count as int) {
                window_end(self.view@, start as int, count as int) - start
            } else {
                0
            }),
        ensures
            r@.len() == texts@.len(),
            forall|k: int|
                0 <= k < r@.len() ==> shows(
                    #[trigger] r@[k],
                    start + k,
                    self.store.messages()[self.view@[start + k] as int],
                    texts@[k],
                    self.lens,
                ),
    {
        proof {
            self.store.lemma_bounds();
        }
        view::window(&self.store, &self.view, start, count, texts, self.lens)
    }

    /// Which message a row shows.
    pub fn store_index(&self, view_index: usize) -> (r: Result<usize, String>)
        ensures
            match r {
                Ok(i) => view_index < self.view@.len() && i == self.view@[view_index as int],
                Err(e) => view_index >= self.view@.len() && e@ == "message index out of range"@,
            },
    {
        if view_index < self.view.len() {
            Ok(self.view[view_index])
        } else {
            Err("message index out of range".to_owned())
        }
    }

    /// The whole message of a row; `decoded` and `key` are what came of decoding
    /// it.
    pub fn body(&self, view_index: usize, decoded: DecodedBody, key: Decoded) -> (r: Result<
        FullMessage,
        String,
    >)
        requires
            self.wf(),
        ensures
            match r {
                Ok(full) => view_index < self.view@.len() && full_shows(
                    full,
                    self.store.messages()[self.view@[view_index as int] as int],
                    decoded,
                    key,
                ),
                Err(e) => view_index >= self.view@.len() && e@ == "message index out of range"@,
            },
    {
        proof {
            self.store.lemma_bounds();
        }
        view::body(&self.store, &self.view, view_index, decoded, key)
    }

    /// The message of a row as it came, for keeping.
    pub fn raw(&self, view_index: usize, key: Decoded) -> (r: Result<RawBody, String>)
        requires
            self.wf(),
        ensures
            match r {
                Ok(raw) => view_index < self.view@.len() && raw_holds(
                    raw,
                    self.store.messages()[self.view@[view_index as int] as int],
                    key,
                ),
                Err(e) => view_index >= self.view@.len() && e@ == "message index out of range"@,
            },
    {
        proof {
            self.store.lemma_bounds();
        }
        view::raw(&self.store, &self.view, view_index, key)
    }

    /// Takes what bodies are decoded with, and through which lens they are seen.
    pub fn set_decoder(&mut self, has_decoder: bool, lens: LensMode)
        requires
            old(self).wf(),
        ensures
            final(self).wf(),
            *final(self) == (Reader { has_decoder, lens, ..*old(self) }),
    {
        self.has_decoder = has_decoder;
        self.lens = lens;
    }

    /// Takes the topics of the cluster. A list is empty where there is no
    /// cluster.
    pub fn set_topics(&mut self, topics: Vec<TopicInfo>)
        requires
            old(self).wf(),
            topics_wf(topics@),
        ensures
            final(self).wf(),
            *final(self) == (Reader { topics, ..*old(self) }),
    {
        self.topics = topics;
    }
}

/// Every partition was read to its end.
pub open spec fn all_at_end(cursors: Seq<PartitionCursor>) -> bool {
    forall|i: int| 0 <= i < cursors.len() ==> (#[trigger] cursors[i]).exhausted
}

// ---------------------------------------------------------------------------
// Rounds and publishing, partition by partition
// ---------------------------------------------------------------------------
proof fn lemma_round_member(cursors: Seq<PartitionCursor>, newest_first: bool, chunk: int, k: int)
    requires
        0 <= k < cursors.len(),
        cursors[k].window(newest_first, chunk) is Some,
    ensures
        ({
            let (start, end) = cursors[k].window(newest_first, chunk)->0;
            round_of(cursors, newest_first, chunk).contains(
                RoundPartition {
                    partition: cursors[k].partition,
                    start: start as i64,
                    end: end as i64,
                    absorbed: 0,
                    done: false,
                },
            )
        }),
    decreases cursors.len(),
{
    let all = round_of(cursors, newest_first, chunk);
    let (start, end) = cursors[k].window(newest_first, chunk)->0;
    let w = RoundPartition {
        partition: cursors[k].partition,
        start: start as i64,
        end: end as i64,
        absorbed: 0,
        done: false,
    };
    if k == cursors.len() - 1 {
        assert(all.last() == w);
    } else {
        let init = cursors.drop_last();
        assert(init[k] == cursors[k]);
        lemma_round_member(init, newest_first, chunk, k);
        let before = round_of(init, newest_first, chunk);
        let i = choose|i: int| 0 <= i < before.len() && before[i] == w;
        assert(all[i] == w);
    }
}

proof fn lemma_round_comes_from(
    cursors: Seq<PartitionCursor>,
    open: Seq<i32>,
    newest_first: bool,
    chunk: int,
    i: int,
) -> (k: int)
    requires
        0 <= i < round_of(cursors, newest_first, chunk).len(),
    ensures
        positions_of(cursors, open, newest_first, chunk).len() == round_of(
            cursors,
            newest_first,
            chunk,
        ).len(),
        0 <= k < cursors.len(),
        ({
            let w = round_of(cursors, newest_first, chunk)[i];
            let p = positions_of(cursors, open, newest_first, chunk)[i];
            &&& cursors[k].window(newest_first, chunk) matches Some((start, end)) && w.start
                == start as i64 && w.end == end as i64
            &&& w.partition == cursors[k].partition
            &&& w.absorbed == 0 && !w.done
            &&& p.partition == w.partition
            &&& p.offset == w.start
            &&& p.approach == approach_of(
                open,
                cursors[k],
                (cursors[k].window(newest_first, chunk)->0).0,
            )
        }),
    decreases cursors.len(),
{
    let init = cursors.drop_last();
    let before = round_of(init, newest_first, chunk);
    lemma_as_many_positions(init, open, newest_first, chunk);
    lemma_as_many_positions(cursors, open, newest_first, chunk);
    if i < before.len() {
        let k = lemma_round_comes_from(init, open, newest_first, chunk, i);
        assert(init[k] == cursors[k]);
        k
    } else {
        cursors.len() - 1
    }
}

proof fn lemma_as_many_positions(
    cursors: Seq<PartitionCursor>,
    open: Seq<i32>,
    newest_first: bool,
    chunk: int,
)
    ensures
        positions_of(cursors, open, newest_first, chunk).len() == round_of(
            cursors,
            newest_first,
            chunk,
        ).len(),
    decreases cursors.len(),
{
    if cursors.len() > 0 {
        lemma_as_many_positions(cursors.drop_last(), open, newest_first, chunk);
    }
}

/// A round takes every partition that has something left and is within its
/// budget, and no other. It goes on where the partition stands: back from there,
/// or on from there.
pub proof fn law_round_takes_every_live_partition(
    cursors: Seq<PartitionCursor>,
    newest_first: bool,
    chunk: int,
    k: int,
)
    requires
        in_order(cursors),
        forall|i: int| 0 <= i < cursors.len() ==> (#[trigger] cursors[i]).wf(newest_first),
        0 <= k < cursors.len(),
    ensures
        ({
            let round = round_of(cursors, newest_first, chunk);
            let c = cursors[k];
            (!c.exhausted && c.absorbed < c.budget) <==> exists|i: int|
                0 <= i < round.len() && (#[trigger] round[i]).partition == c.partition && !round[i].done
                    && round[i].absorbed == 0 && round[i].start < round[i].end && c.low
                    <= round[i].start && round[i].end <= c.high && (if newest_first {
                    round[i].end == c.next
                } else {
                    round[i].start == c.next
                })
        }),
{
    let round = round_of(cursors, newest_first, chunk);
    let c = cursors[k];
    crate::kafka::cursor::law_window_while_something_is_left(c, newest_first, chunk);
    if !c.exhausted && c.absorbed < c.budget {
        law_window_inside_bounds(c, newest_first, chunk);
        lemma_round_member(cursors, newest_first, chunk, k);
        let (start, end) = c.window(newest_first, chunk)->0;
        let w = RoundPartition {
            partition: c.partition,
            start: start as i64,
            end: end as i64,
            absorbed: 0,
            done: false,
        };
        let i = choose|i: int| 0 <= i < round.len() && round[i] == w;
        assert(round[i].partition == c.partition);
    }
    if exists|i: int| 0 <= i < round.len() && (#[trigger] round[i]).partition == c.partition {
        let i = choose|i: int| 0 <= i < round.len() && (#[trigger] round[i]).partition == c.partition;
        let j = lemma_round_comes_from(cursors, Seq::empty(), newest_first, chunk, i);
        assert(j == k) by {
            if j < k {
                assert(cursors[j].partition < cursors[k].partition);
            } else if k < j {
                assert(cursors[k].partition < cursors[j].partition);
            }
        }
    }
}

/// Each partition of a round is put to the start of its window: it is opened
/// there where it is not open, left where it is when its reader stands there
/// already, and moved there else.
pub proof fn law_partitions_are_put_to_their_windows(
    cursors: Seq<PartitionCursor>,
    open: Seq<i32>,
    newest_first: bool,
    chunk: int,
    i: int,
) -> (k: int)
    requires
        forall|j: int| 0 <= j < cursors.len() ==> (#[trigger] cursors[j]).wf(newest_first),
        0 <= i < round_of(cursors, newest_first, chunk).len(),
    ensures
        0 <= k < cursors.len(),
        positions_of(cursors, open, newest_first, chunk).len() == round_of(
            cursors,
            newest_first,
            chunk,
        ).len(),
        ({
            let w = round_of(cursors, newest_first, chunk)[i];
            let p = positions_of(cursors, open, newest_first, chunk)[i];
            &&& p.partition == w.partition == cursors[k].partition
            &&& p.offset == w.start
            &&& p.approach == Approach::Open <==> !open.contains(w.partition)
            &&& p.approach == Approach::Stay <==> open.contains(w.partition)
                && cursors[k].read_position == Some(w.start)
            &&& p.approach == Approach::Seek <==> open.contains(w.partition)
                && cursors[k].read_position != Some(w.start)
        }),
{
    let k = lemma_round_comes_from(cursors, open, newest_first, chunk, i);
    law_window_inside_bounds(cursors[k], newest_first, chunk);
    k
}

/// A read gives control back after thirty seconds or thirty-two megabytes,
/// whatever comes first; a search of the whole topic does not.
pub proof fn law_when_a_read_gives_control_back(p: PendingRead, used: int, now: u64)
    requires
        p.started <= now,
    ensures
        p.depth == ReadDepth::WholeTopic ==> !spent(p, used, now),
        p.depth == ReadDepth::Window ==> (spent(p, used, now) <==> now - p.started >= 30 * 1000
            || used - p.bytes_at_start >= 32 * 1024 * 1024),
{
}

/// No partition takes part any more exactly where all of them are at their end or
/// have used up their budget.
pub proof fn law_nobody_takes_part(cursors: Seq<PartitionCursor>)
    ensures
        active(cursors) <= cursors.len(),
        active(cursors) == 0 <==> forall|i: int|
            0 <= i < cursors.len() ==> (#[trigger] cursors[i]).exhausted || cursors[i].absorbed
                >= cursors[i].budget,
        active(cursors) == cursors.len() <==> forall|i: int|
            0 <= i < cursors.len() ==> !(#[trigger] cursors[i]).exhausted && cursors[i].absorbed
                < cursors[i].budget,
    decreases cursors.len(),
{
    if cursors.len() > 0 {
        let init = cursors.drop_last();
        law_nobody_takes_part(init);
        let last = cursors.len() - 1;
        if active(cursors) == 0 {
            assert forall|i: int| 0 <= i < cursors.len() implies (#[trigger] cursors[i]).exhausted
                || cursors[i].absorbed >= cursors[i].budget by {
                if i < last {
                    assert(init[i] == cursors[i]);
                }
            }
        } else if forall|i: int|
            0 <= i < cursors.len() ==> (#[trigger] cursors[i]).exhausted || cursors[i].absorbed
                >= cursors[i].budget {
            assert forall|i: int| 0 <= i < init.len() implies (#[trigger] init[i]).exhausted
                || init[i].absorbed >= init[i].budget by {
                assert(init[i] == cursors[i]);
            }
            assert(cursors[last].exhausted || cursors[last].absorbed >= cursors[last].budget);
        }
        if active(cursors) == cursors.len() {
            assert forall|i: int| 0 <= i < cursors.len() implies !(
            #[trigger] cursors[i]).exhausted && cursors[i].absorbed < cursors[i].budget by {
                if i < last {
                    assert(init[i] == cursors[i]);
                }
            }
        } else if forall|i: int|
            0 <= i < cursors.len() ==> !(#[trigger] cursors[i]).exhausted && cursors[i].absorbed
                < cursors[i].budget {
            assert forall|i: int| 0 <= i < init.len() implies !(#[trigger] init[i]).exhausted
                && init[i].absorbed < init[i].budget by {
                assert(init[i] == cursors[i]);
            }
            assert(!cursors[last].exhausted && cursors[last].absorbed < cursors[last].budget);
        }
    }
}

/// The offsets of a round are those of its windows together.
pub proof fn law_offsets_of_a_round(a: Seq<RoundPartition>, b: Seq<RoundPartition>)
    ensures
        offsets_in(a + b) == offsets_in(a) + offsets_in(b),
        a.len() == 1 ==> offsets_in(a) == a[0].end - a[0].start,
    decreases b.len(),
{
    if a.len() == 1 {
        assert(a.drop_last() =~= Seq::empty());
        assert(offsets_in(a.drop_last()) == 0);
    }
    if b.len() == 0 {
        assert(a + b =~= a);
    } else {
        law_offsets_of_a_round(a, b.drop_last());
        assert((a + b).drop_last() =~= a + b.drop_last());
        assert((a + b).last() == b.last());
    }
}

/// A round that was read to its end moves the partitions that had a window in it,
/// to its start or to its end, and leaves the others where they are. A partition
/// is at its end where its bounds are reached.
pub proof fn law_closed_round_moves_its_partitions(
    cursors: Seq<PartitionCursor>,
    round: Seq<RoundPartition>,
    newest_first: bool,
    k: int,
)
    requires
        round_in_order(round),
        0 <= k < cursors.len(),
    ensures
        ({
            let c = cursors[k];
            let after = advanced_all(cursors, round, newest_first);
            &&& after.len() == cursors.len()
            &&& (forall|i: int|
                0 <= i < round.len() ==> (#[trigger] round[i]).partition != c.partition)
                ==> after[k] == c
            &&& forall|i: int|
                0 <= i < round.len() && (#[trigger] round[i]).partition == c.partition ==> {
                    &&& newest_first ==> after[k].next == round[i].start
                    &&& !newest_first ==> after[k].next == round[i].end
                    &&& newest_first && round[i].start > c.low && !c.exhausted
                        ==> !after[k].exhausted
                    &&& newest_first && round[i].start <= c.low ==> after[k].exhausted
                    &&& !newest_first && round[i].end < c.high && !c.exhausted
                        ==> !after[k].exhausted
                    &&& !newest_first && round[i].end >= c.high ==> after[k].exhausted
                    &&& c.absorbed + round[i].absorbed <= i64::MAX && c.absorbed >= 0
                        && round[i].absorbed >= 0 ==> after[k].absorbed == c.absorbed
                        + round[i].absorbed
                }
        }),
{
    let c = cursors[k];
    assert forall|i: int|
        0 <= i < round.len() && (#[trigger] round[i]).partition == c.partition implies window_of(
        round,
        c.partition,
    ) == Some(round[i]) by {
        lemma_own_window(round, i);
    }
    if forall|i: int| 0 <= i < round.len() ==> (#[trigger] round[i]).partition != c.partition {
        lemma_no_window(round, c.partition);
    }
}

proof fn lemma_own_window(round: Seq<RoundPartition>, i: int)
    requires
        0 <= i < round.len(),
        round_in_order(round),
    ensures
        window_of(round, round[i].partition) == Some(round[i]),
    decreases round.len(),
{
    if i < round.len() - 1 {
        assert(round[i].partition < round[round.len() - 1].partition);
        assert(round.drop_last()[i] == round[i]);
        assert(round_in_order(round.drop_last()));
        lemma_own_window(round.drop_last(), i);
    }
}

proof fn lemma_no_window(round: Seq<RoundPartition>, p: i32)
    requires
        forall|i: int| 0 <= i < round.len() ==> (#[trigger] round[i]).partition != p,
    ensures
        window_of(round, p) is None,
    decreases round.len(),
{
    if round.len() > 0 {
        assert(round[round.len() - 1].partition != p);
        assert forall|i: int| 0 <= i < round.drop_last().len() implies (
        #[trigger] round.drop_last()[i]).partition != p by {
            assert(round[i].partition != p);
        }
        lemma_no_window(round.drop_last(), p);
    }
}

/// How deep one may publish: everything where all partitions are at their end,
/// nothing where one that is not has brought no message, and up to the time of
/// the partition that lags most else. Read from the newest on, that is the latest
/// of the times reached, read from the oldest on the earliest.
pub proof fn law_frontier_is_the_one_that_lags_most(
    cursors: Seq<PartitionCursor>,
    newest_first: bool,
)
    ensures
        frontier_of(cursors, newest_first) is Everything <==> forall|i: int|
            0 <= i < cursors.len() ==> (#[trigger] cursors[i]).exhausted,
        frontier_of(cursors, newest_first) is Nothing <==> exists|i: int|
            0 <= i < cursors.len() && !(#[trigger] cursors[i]).exhausted && cursors[i].frontier_ts
                is None,
        frontier_of(cursors, newest_first) matches Frontier::Beyond(f) ==> {
            &&& exists|i: int|
                0 <= i < cursors.len() && !(#[trigger] cursors[i]).exhausted
                    && cursors[i].frontier_ts == Some(f)
            &&& forall|i: int|
                0 <= i < cursors.len() && !(#[trigger] cursors[i]).exhausted
                    ==> cursors[i].frontier_ts is Some && (if newest_first {
                    cursors[i].frontier_ts->0 <= f
                } else {
                    cursors[i].frontier_ts->0 >= f
                })
        },
    decreases cursors.len(),
{
    if cursors.len() > 0 {
        let init = cursors.drop_last();
        let last = cursors.len() - 1;
        let c = cursors[last];
        law_frontier_is_the_one_that_lags_most(init, newest_first);
        assert(forall|i: int| 0 <= i < last ==> init[i] == #[trigger] cursors[i]);
        let before = frontier_of(init, newest_first);
        let now = frontier_of(cursors, newest_first);
        if before is Nothing {
            let i = choose|i: int|
                0 <= i < init.len() && !(#[trigger] init[i]).exhausted && init[i].frontier_ts
                    is None;
            assert(!cursors[i].exhausted && cursors[i].frontier_ts is None);
        }
        if now is Beyond {
            if before is Beyond && now->Beyond_0 == before->Beyond_0 {
                let i = choose|i: int|
                    0 <= i < init.len() && !(#[trigger] init[i]).exhausted && init[i].frontier_ts
                        == Some(before->Beyond_0);
                assert(!cursors[i].exhausted && cursors[i].frontier_ts == Some(now->Beyond_0));
            } else {
                assert(!cursors[last].exhausted && cursors[last].frontier_ts == Some(
                    now->Beyond_0,
                ));
            }
        }
        if forall|i: int| 0 <= i < cursors.len() ==> (#[trigger] cursors[i]).exhausted {
            assert(c.exhausted);
            assert forall|i: int| 0 <= i < init.len() implies (#[trigger] init[i]).exhausted by {
                assert(cursors[i].exhausted);
            }
        }
        if !(now is Nothing) && (exists|i: int|
            0 <= i < cursors.len() && !(#[trigger] cursors[i]).exhausted && cursors[i].frontier_ts
                is None) {
            let i = choose|i: int|
                0 <= i < cursors.len() && !(#[trigger] cursors[i]).exhausted
                    && cursors[i].frontier_ts is None;
            if i < last {
                assert(!init[i].exhausted && init[i].frontier_ts is None);
            }
        }
    }
}

/// What is published of messages that stand in the order of reading: where some
/// partition lags, exactly those strictly later than it was read up to, or
/// strictly earlier; a message of that very time waits.
pub proof fn law_published_up_to_the_frontier(
    messages: Seq<Stored>,
    before: int,
    after: int,
    newest_first: bool,
    f: i64,
    i: int,
)
    requires
        0 <= before <= messages.len(),
        published_to(messages, before, after, true, newest_first, Frontier::Beyond(f)),
        forall|i: int, j: int|
            before <= i < j < messages.len() ==> read_before(
                newest_first,
                #[trigger] messages[i],
                #[trigger] messages[j],
            ),
        before <= i < messages.len(),
    ensures
        newest_first ==> (i < after <==> messages[i].timestamp > f),
        !newest_first ==> (i < after <==> messages[i].timestamp < f),
        messages[i].timestamp == f ==> i >= after,
{
    if i > after {
        assert(read_before(newest_first, messages[after], messages[i]));
    }
}

/// Where there is nothing to order by, or nothing more to come, everything is
/// published; where some partition is not known at all, nothing more is.
pub proof fn law_published_all_or_nothing(
    messages: Seq<Stored>,
    before: int,
    after: int,
    timed: bool,
    newest_first: bool,
    frontier: Frontier,
)
    requires
        published_to(messages, before, after, timed, newest_first, frontier),
    ensures
        !timed ==> after == messages.len(),
        frontier is Everything ==> after == messages.len(),
        timed && frontier is Nothing ==> after == before,
{
}

/// Every partition is at its end exactly where none has anything left.
pub proof fn law_all_partitions_at_their_end(cursors: Seq<PartitionCursor>, i: int)
    requires
        0 <= i < cursors.len(),
    ensures
        !cursors[i].exhausted ==> !all_at_end(cursors),
        all_at_end(cursors) ==> cursors[i].exhausted,
        all_at_end(cursors) ==> active(cursors) == 0,
{
    law_nobody_takes_part(cursors);
}

/// A round is over exactly where each of its windows is.
pub proof fn law_round_is_over_with_its_windows(round: Seq<RoundPartition>, w: RoundPartition)
    ensures
        all_done(Seq::empty()),
        all_done(round.push(w)) <==> all_done(round) && w.done,
{
    let all = round.push(w);
    if all_done(all) {
        assert(all[round.len() as int].done);
        assert forall|i: int| 0 <= i < round.len() implies (#[trigger] round[i]).done by {
            assert(all[i].done);
        }
    }
}

} // verus!
