//! The reader of a topic: what is open, what was read, what is shown, and how a
//! read begins and ends.
//!
//! A read goes in steps. Each step decides what is to be asked of the cluster
//! next; the answer is handed back, and the next step is taken from there.

use vstd::prelude::*;

use crate::kafka::cursor::{
    describe_bounds, describe_missing_offsets, exclusive, exclusive_of, found_or, intersect,
    intersection, list_view, missing_text, bounds_text, range_problem, resolved, selected_partitions,
    selection, validate_range, PartitionCursor, RoundPartition, FIRST_ROUND_CHUNK, MAX_WINDOW,
};
use crate::kafka::lens::LensMode;
use crate::kafka::store::MessageStore;
use crate::kafka::sweep::{
    counts_agree, in_order, round_in_order, MAX_STORE_BYTES, SCAN_LIMIT,
};
use crate::kafka::types::{
    LoadMoreParams, MessageFilter, OpenTopicParams, ReadRange, SortSpec, TopicInfo,
};
use crate::kafka::view::{all_below, query_of, PreparedFilter};
use crate::strings::{push_signed, same_text, signed_decimal};

verus! {

/// What a read is answered that another one took the place of.
pub const READ_SUPERSEDED: &'static str = "read superseded";

/// What a search is answered that the user stopped.
pub const SEARCH_STOPPED: &'static str = "search stopped";

/// How long one read may take, in milliseconds. It is looked at between rounds
/// only, where stopping loses nothing.
pub const READ_DEADLINE_MS: u64 = 30_000;

/// How long one round may take, in milliseconds, before it is thrown away.
pub const ROUND_DEADLINE_MS: u64 = 20_000;

/// How many bytes one read takes before it gives control back.
pub const READ_BYTE_BUDGET: usize = 33_554_432;

/// How many partitions are asked for their bounds in one step.
pub const WATERMARK_BATCH: usize = 2;

/// The most messages per partition that can be asked for at once.
pub const MAX_PAGE: usize = 100_000;

/// How far a read goes.
#[derive(Debug, Clone, Copy, PartialEq, Eq, Structural)]
pub enum ReadDepth {
    /// A page: stops by time, by bytes and by number.
    Window,
    /// A search through the whole topic: keeps only what passes the filter.
    WholeTopic,
}

pub enum ReadPhase {
    /// The bounds of these partitions are still to be asked for.
    Watermarks(Vec<i32>),
    /// A round goes on; between rounds the list is empty.
    Reading(Vec<RoundPartition>),
}

/// A read that has not ended yet.
pub struct PendingRead {
    pub topic_name: String,
    /// The partitions that are open for reading: to be closed once, at the end.
    pub open_partitions: Vec<i32>,
    pub phase: ReadPhase,
    pub started: u64,
    pub round_started: u64,
    /// The arena at the start of the read.
    pub bytes_at_start: usize,
    /// How many messages there were at the start of the round. A round that
    /// breaks off is undone to here.
    pub round_mark: usize,
    pub budget: i64,
    pub depth: ReadDepth,
    /// What a search keeps: prepared once, so that a search ends with the
    /// question it began with.
    pub sieve: Option<PreparedFilter>,
    pub round_scanned: u64,
    pub round_scanned_bytes: u128,
    pub range: ReadRange,
}

/// The reader of a topic.
pub struct Reader {
    pub store: MessageStore,
    /// The rows of the table: which messages they show.
    pub view: Vec<usize>,
    /// Up to where the messages are sifted into `view`.
    pub view_scanned: usize,
    /// How many messages were looked at since the topic was opened. Not the
    /// same as what is in the buffer: a search looks at many and keeps few.
    pub scanned: u64,
    pub filter: MessageFilter,
    pub sort: Option<SortSpec>,
    pub open_topic: Option<String>,
    pub newest_first: bool,
    pub pending: Option<PendingRead>,
    /// The partitions of the open topic, in order.
    pub cursors: Vec<PartitionCursor>,
    /// The window of the last round, in offsets per partition.
    pub window: i64,
    /// How long the last round took, in milliseconds.
    pub last_round: Option<u64>,
    /// Some message had a time. Without any there is nothing to order by.
    pub has_timestamps: bool,
    /// Bytes looked at and offsets passed in the last round.
    pub kept: Option<(u128, i64)>,
    pub has_decoder: bool,
    pub lens: LensMode,
    /// The topics of the cluster, with the number of their partitions.
    pub topics: Vec<TopicInfo>,
}

// ---------------------------------------------------------------------------
// What holds of every reader
// ---------------------------------------------------------------------------
/// How many offsets the partitions span.
pub open spec fn extent(cursors: Seq<PartitionCursor>) -> int
    decreases cursors.len(),
{
    if cursors.len() == 0 {
        0
    } else {
        extent(cursors.drop_last()) + (cursors.last().high - cursors.last().low)
    }
}

/// How far the bounds of a partition lie apart. Bounds that were asked for while
/// the log was being cut may stand the wrong way round.
pub open spec fn span(c: PartitionCursor) -> int {
    if c.high < c.low {
        c.low - c.high
    } else {
        c.high - c.low
    }
}

/// How far the bounds of all partitions lie apart.
pub open spec fn reach(cursors: Seq<PartitionCursor>) -> int
    decreases cursors.len(),
{
    if cursors.len() == 0 {
        0
    } else {
        reach(cursors.drop_last()) + span(cursors.last())
    }
}

/// The cursors stand inside their bounds, and all offsets can be counted.
pub open spec fn cursors_wf(cursors: Seq<PartitionCursor>, newest_first: bool) -> bool {
    &&& in_order(cursors)
    &&& forall|i: int|
        0 <= i < cursors.len() ==> (#[trigger] cursors[i]).wf(newest_first)
    &&& reach(cursors) <= i64::MAX
}

/// No partition took more messages than were looked at.
pub open spec fn absorbed_within(cursors: Seq<PartitionCursor>, scanned: int) -> bool {
    forall|i: int| 0 <= i < cursors.len() ==> (#[trigger] cursors[i]).absorbed <= scanned
}

/// The windows of a round lie inside the bounds of their partitions.
pub open spec fn round_wf(round: Seq<RoundPartition>, cursors: Seq<PartitionCursor>) -> bool {
    &&& round_in_order(round)
    &&& forall|i: int|
        0 <= i < round.len() ==> (#[trigger] round[i]).start < round[i].end && round[i].end
            - round[i].start <= MAX_WINDOW
    &&& forall|i: int, k: int|
        0 <= i < round.len() && 0 <= k < cursors.len() && (#[trigger] round[i]).partition == (
        #[trigger] cursors[k]).partition ==> cursors[k].low <= round[i].start && round[i].end
            <= cursors[k].high
}

/// Partitions that follow one another, each once.
pub open spec fn list_in_order(list: Seq<i32>) -> bool {
    &&& forall|i: int, j: int| 0 <= i < j < list.len() ==> #[trigger] list[i] < #[trigger] list[j]
    &&& forall|i: int| 0 <= i < list.len() ==> 0 <= #[trigger] list[i]
}

/// The partitions of the cursors come before those of a list.
pub open spec fn all_behind(cursors: Seq<PartitionCursor>, list: Seq<i32>) -> bool {
    forall|i: int, k: int|
        0 <= i < list.len() && 0 <= k < cursors.len() ==> (#[trigger] cursors[k]).partition
            < #[trigger] list[i]
}

pub open spec fn phase_wf(phase: ReadPhase, cursors: Seq<PartitionCursor>, scanned: int) -> bool {
    match phase {
        ReadPhase::Watermarks(todo) => list_in_order(todo@) && all_behind(cursors, todo@),
        ReadPhase::Reading(round) => round_wf(round@, cursors) && counts_agree(round@, scanned),
    }
}

pub open spec fn topics_wf(topics: Seq<TopicInfo>) -> bool {
    forall|i: int| 0 <= i < topics.len() ==> (#[trigger] topics[i]).partitions <= i32::MAX
}

/// The arena after records at the end were taken away: the bytes of those that
/// stay lie where they lay, and the arena ends with them.
pub open spec fn arena_cut(before: MessageStore, after: MessageStore) -> bool {
    &&& forall|i: int|
        0 <= i < after.messages().len() ==> #[trigger] after.extent(i) == before.extent(i)
    &&& after.ends_with_a_message()
}

impl PendingRead {
    pub open spec fn sieve_wf(&self) -> bool {
        self.sieve matches Some(f) ==> f.wf()
    }

    /// A round goes on, or the next one can begin.
    pub open spec fn reading(&self) -> bool {
        self.phase is Reading
    }

    /// No round goes on: there is nothing to undo.
    pub open spec fn between_rounds(&self, len: nat) -> bool {
        &&& self.phase matches ReadPhase::Reading(round) && round@.len() == 0
        &&& self.round_mark == len
        &&& self.round_scanned == 0
        &&& self.round_scanned_bytes == 0
    }
}

impl Reader {
    pub open spec fn wf(&self) -> bool {
        &&& self.store.wf()
        &&& self.store.limit() <= MAX_STORE_BYTES
        &&& cursors_wf(self.cursors@, self.newest_first)
        &&& self.view_scanned <= self.store.published()
        &&& all_below(self.view@, self.view_scanned as int)
        &&& self.scanned <= SCAN_LIMIT
        &&& topics_wf(self.topics@)
        &&& match self.pending {
            None => absorbed_within(self.cursors@, self.scanned as int),
            Some(p) => {
                &&& p.round_scanned <= self.scanned
                &&& absorbed_within(self.cursors@, self.scanned - p.round_scanned)
                &&& self.store.published() <= p.round_mark <= self.store.messages().len()
                &&& p.sieve_wf()
                &&& p.round_scanned_bytes <= p.round_scanned * 0x8000_0000
                &&& phase_wf(p.phase, self.cursors@, p.round_scanned as int)
            },
        }
    }

    /// A reader that has read nothing.
    pub fn new() -> (r: Self)
        ensures
            r.wf(),
            r.store.messages().len() == 0,
            r.store.used() == 0,
            r.store.limit() == crate::kafka::store::DEFAULT_MAX_BYTES,
            r.view@.len() == 0,
            r.view_scanned == 0,
            r.scanned == 0,
            r.filter.key@.len() == 0,
            r.filter.value@.len() == 0,
            !r.filter.case_sensitive,
            !r.filter.search_decoded,
            r.sort is None,
            r.open_topic is None,
            !r.newest_first,
            r.pending is None,
            r.cursors@.len() == 0,
            r.window == FIRST_ROUND_CHUNK,
            r.last_round is None,
            !r.has_timestamps,
            r.kept is None,
            !r.has_decoder,
            r.lens == LensMode::Auto,
            r.topics@.len() == 0,
    {
        Reader {
            store: MessageStore::default(),
            view: Vec::new(),
            view_scanned: 0,
            scanned: 0,
            filter: MessageFilter::default(),
            sort: None,
            open_topic: None,
            newest_first: false,
            pending: None,
            cursors: Vec::new(),
            window: FIRST_ROUND_CHUNK,
            last_round: None,
            has_timestamps: false,
            kept: None,
            has_decoder: false,
            lens: LensMode::default(),
            topics: Vec::new(),
        }
    }

    /// The store after a round was undone.
    pub open spec fn undone(&self, mark: int, after: MessageStore) -> bool {
        &&& after.wf()
        &&& after.messages() == self.store.messages().take(mark)
        &&& after.published() == self.store.published()
        &&& after.limit() == self.store.limit()
        &&& arena_cut(self.store, after)
    }

    /// Undoes a round that broke off: what it brought, and what it counted. Its
    /// windows will be read again, and would count twice otherwise.
    pub fn rollback_round(&mut self)
        requires
            old(self).wf(),
            old(self).pending is Some,
            old(self).pending->0.reading(),
        ensures
            final(self).wf(),
            old(self).undone(old(self).pending->0.round_mark as int, final(self).store),
            final(self).pending matches Some(p) && p.between_rounds(
                final(self).store.messages().len(),
            ) && p == (PendingRead {
                phase: p.phase,
                round_scanned: 0,
                round_scanned_bytes: 0,
                ..old(self).pending->0
            }),
            *final(self) == (Reader {
                store: final(self).store,
                scanned: (old(self).scanned - old(self).pending->0.round_scanned) as u64,
                pending: final(self).pending,
                ..*old(self)
            }),
    {
        if let Some(mut p) = self.pending.take() {
            let ghost before = self.store.messages();
            proof {
                self.store.lemma_bounds();
            }
            self.store.truncate(p.round_mark);
            proof {
                if p.round_mark >= before.len() {
                    assert(before.take(p.round_mark as int) =~= before);
                }
            }
            self.scanned = self.scanned - p.round_scanned;
            p.round_scanned = 0;
            p.round_scanned_bytes = 0;
            p.phase = ReadPhase::Reading(Vec::new());
            self.pending = Some(p);
        }
    }

    /// Stops a read that goes on. What its round brought is of no use: a window
    /// with holes. Gives the partitions that are open, to be closed.
    pub fn cancel_pending_read(&mut self) -> (r: Option<Vec<i32>>)
        requires
            old(self).wf(),
        ensures
            final(self).wf(),
            final(self).pending is None,
            match old(self).pending {
                None => r is None && *final(self) == *old(self),
                Some(p) => {
                    &&& r == Some(p.open_partitions)
                    &&& old(self).undone(p.round_mark as int, final(self).store)
                    &&& *final(self) == (Reader {
                        store: final(self).store,
                        scanned: (old(self).scanned - p.round_scanned) as u64,
                        pending: None,
                        ..*old(self)
                    })
                },
            },
    {
        match self.pending.take() {
            None => None,
            Some(p) => {
                let ghost before = self.store.messages();
                proof {
                    self.store.lemma_bounds();
                }
                self.store.truncate(p.round_mark);
                proof {
                    if p.round_mark >= before.len() {
                        assert(before.take(p.round_mark as int) =~= before);
                    }
                }
                self.scanned = self.scanned - p.round_scanned;
                Some(p.open_partitions)
            },
        }
    }
}

// ---------------------------------------------------------------------------
// Opening
// ---------------------------------------------------------------------------
/// What is going to be read.
pub struct OpenPlan {
    pub partitions: Vec<i32>,
    /// How many messages of each partition at most.
    pub limit: i64,
}

/// What came of a request to open a topic.
pub struct OpenStep {
    /// The open partitions of the read that had to give way, if one did: they
    /// are to be closed, and it is answered that it was superseded.
    pub stopped: Option<Vec<i32>>,
    pub outcome: Result<OpenPlan, String>,
}

/// How many partitions a topic has, where the cluster shows it.
pub open spec fn partitions_of(topics: Seq<TopicInfo>, name: Seq<char>) -> Option<usize>
    decreases topics.len(),
{
    if topics.len() == 0 {
        None
    } else if topics.last().name@ == name {
        Some(topics.last().partitions)
    } else {
        partitions_of(topics.drop_last(), name)
    }
}

/// A search without a question would take the whole topic into the buffer.
pub open spec fn aimless(params: OpenTopicParams, depth: ReadDepth) -> bool {
    depth == ReadDepth::WholeTopic && params.filter.key@.len() == 0 && params.filter.value@.len()
        == 0
}

pub open spec fn aimless_text() -> Seq<char> {
    "a deep search needs a filter: without one there is nothing to sift, and the whole topic would go into the buffer"@
}

pub open spec fn unknown_topic_text(topic: Seq<char>) -> Seq<char> {
    "topic '"@ + topic
        + "' is not on this cluster, or the current Kafka user has no access to it"@
}

pub open spec fn no_partitions_text(topic: Seq<char>) -> Seq<char> {
    "topic '"@ + topic + "' has no partitions"@
}

/// How many messages of each partition are read at most: a search is not
/// limited.
pub open spec fn limit_of(limit: usize, depth: ReadDepth) -> i64 {
    match depth {
        ReadDepth::WholeTopic => i64::MAX,
        ReadDepth::Window => if limit < 1 {
            1
        } else if limit > MAX_PAGE {
            MAX_PAGE as i64
        } else {
            limit as i64
        },
    }
}

/// Which partitions are going to be read, or why the topic cannot be opened.
pub open spec fn planned(topics: Seq<TopicInfo>, params: OpenTopicParams) -> Result<
    Seq<i32>,
    Seq<char>,
> {
    match partitions_of(topics, params.topic@) {
        None => Err(unknown_topic_text(params.topic@)),
        Some(count) => if count == 0 {
            Err(no_partitions_text(params.topic@))
        } else {
            match selection(list_view(params.partitions), count as int) {
                Err(e) => Err(e),
                Ok(partitions) => match range_problem(params.range) {
                    Some(problem) => Err(problem),
                    None => Ok(partitions),
                },
            }
        },
    }
}

fn clamp_page(n: usize) -> (r: i64)
    ensures
        r == limit_of(n, ReadDepth::Window),
        1 <= r <= MAX_PAGE,
{
    if n < 1 {
        1
    } else if n > MAX_PAGE {
        MAX_PAGE as i64
    } else {
        n as i64
    }
}

impl Reader {
    /// How many partitions a topic has.
    fn partition_count(&self, topic: &str) -> (r: Option<usize>)
        requires
            topics_wf(self.topics@),
        ensures
            r == partitions_of(self.topics@, topic@),
            r matches Some(n) ==> n <= i32::MAX,
    {
        let mut i: usize = self.topics.len();
        proof {
            assert(self.topics@.take(i as int) =~= self.topics@);
        }
        while i > 0
            invariant
                i <= self.topics@.len(),
                topics_wf(self.topics@),
                partitions_of(self.topics@, topic@) == partitions_of(
                    self.topics@.take(i as int),
                    topic@,
                ),
            decreases i,
        {
            proof {
                assert(self.topics@.take(i as int).drop_last() =~= self.topics@.take(i - 1));
            }
            if same_text(self.topics[i - 1].name.as_str(), topic) {
                return Some(self.topics[i - 1].partitions);
            }
            i -= 1;
        }
        None
    }

    /// Decides on a request to open a topic. A search without a question is
    /// refused before anything else: a request that is refused must not break a
    /// read that goes on. Any other request takes the place of that read.
    pub fn prepare_open(&mut self, params: &OpenTopicParams, depth: ReadDepth) -> (r: OpenStep)
        requires
            old(self).wf(),
        ensures
            final(self).wf(),
            aimless(*params, depth) ==> {
                &&& *final(self) == *old(self)
                &&& r.stopped is None
                &&& r.outcome matches Err(e) && e@ == aimless_text()
            },
            !aimless(*params, depth) ==> {
                &&& final(self).pending is None
                &&& match old(self).pending {
                    None => r.stopped is None && *final(self) == *old(self),
                    Some(p) => r.stopped == Some(p.open_partitions) && old(self).undone(
                        p.round_mark as int,
                        final(self).store,
                    ) && *final(self) == (Reader {
                        store: final(self).store,
                        scanned: (old(self).scanned - p.round_scanned) as u64,
                        pending: None,
                        ..*old(self)
                    }),
                }
                &&& match (r.outcome, planned(old(self).topics@, *params)) {
                    (Ok(plan), Ok(partitions)) => plan.partitions@ == partitions && plan.limit
                        == limit_of(params.limit, depth) && list_in_order(plan.partitions@),
                    (Err(e), Err(problem)) => e@ == problem,
                    _ => false,
                }
            },
    {
        let search = match depth {
            ReadDepth::WholeTopic => true,
            ReadDepth::Window => false,
        };
        if search && params.filter.is_empty() {
            return OpenStep {
                stopped: None,
                outcome: Err(
                    "a deep search needs a filter: without one there is nothing to sift, and the whole topic would go into the buffer".to_owned(),
                ),
            };
        }
        let stopped = self.cancel_pending_read();
        let limit: i64 = match depth {
            ReadDepth::Window => clamp_page(params.limit),
            ReadDepth::WholeTopic => i64::MAX,
        };
        let count: usize = match self.partition_count(params.topic.as_str()) {
            Some(count) => count,
            None => {
                // A topic that the user may not see looks like one that does
                // not exist, so both reasons are named.
                let mut message = "topic '".to_owned();
                message.push_str(params.topic.as_str());
                message.push_str(
                    "' is not on this cluster, or the current Kafka user has no access to it",
                );
                return OpenStep { stopped, outcome: Err(message) };
            },
        };
        if count == 0 {
            let mut message = "topic '".to_owned();
            message.push_str(params.topic.as_str());
            message.push_str("' has no partitions");
            return OpenStep { stopped, outcome: Err(message) };
        }
        let partitions = match selected_partitions(&params.partitions, count) {
            Ok(partitions) => partitions,
            Err(e) => return OpenStep { stopped, outcome: Err(e) },
        };
        if let Err(e) = validate_range(&params.range) {
            return OpenStep { stopped, outcome: Err(e) };
        }
        proof {
            if let Some(s) = list_view(params.partitions) {
                crate::kafka::cursor::law_chosen_are_the_selected(s, count as int);
                let c = crate::kafka::cursor::chosen(s, count as int);
                assert forall|i: int| 0 <= i < c.len() implies 0 <= #[trigger] c[i] by {
                    assert(c.contains(c[i]));
                }
            }
        }
        OpenStep { stopped, outcome: Ok(OpenPlan { partitions, limit }) }
    }

    /// Starts reading a topic, once it could be opened: forgets what was read
    /// before, and asks for the bounds of the partitions first.
    pub fn start_open_topic(
        &mut self,
        params: OpenTopicParams,
        depth: ReadDepth,
        plan: OpenPlan,
        now: u64,
    )
        requires
            old(self).wf(),
            old(self).pending is None,
            list_in_order(plan.partitions@),
        ensures
            final(self).wf(),
            final(self).store.messages().len() == 0,
            final(self).store.published() == 0,
            final(self).store.used() == 0,
            final(self).store.limit() == old(self).store.limit(),
            final(self).view@.len() == 0,
            final(self).cursors@.len() == 0,
            final(self).open_topic matches Some(t) && t@ == params.topic@,
            final(self).newest_first == params.range.backwards(params.start_from),
            *final(self) == (Reader {
                store: final(self).store,
                view: final(self).view,
                view_scanned: 0,
                scanned: 0,
                filter: params.filter,
                sort: params.sort,
                open_topic: final(self).open_topic,
                newest_first: final(self).newest_first,
                pending: final(self).pending,
                cursors: final(self).cursors,
                window: FIRST_ROUND_CHUNK,
                last_round: None,
                has_timestamps: false,
                kept: None,
                ..*old(self)
            }),
            final(self).pending matches Some(p) && {
                &&& p.topic_name@ == params.topic@
                &&& p.open_partitions@.len() == 0
                &&& p.phase matches ReadPhase::Watermarks(todo) && todo@ == plan.partitions@
                &&& p.started == now
                &&& p.round_started == now
                &&& p.bytes_at_start == 0
                &&& p.round_mark == 0
                &&& p.budget == plan.limit
                &&& p.depth == depth
                &&& p.range == params.range
                &&& p.round_scanned == 0
                &&& p.round_scanned_bytes == 0
                &&& match depth {
                    ReadDepth::Window => p.sieve is None,
                    ReadDepth::WholeTopic => p.sieve matches Some(f) && f.wf() && f.query()
                        == query_of(params.filter, old(self).has_decoder),
                }
            },
    {
        self.store.clear();
        self.scanned = 0;
        self.sort = params.sort;
        self.newest_first = params.range.newest_first(params.start_from);
        self.cursors = Vec::new();
        self.window = FIRST_ROUND_CHUNK;
        self.last_round = None;
        self.kept = None;
        self.has_timestamps = false;
        self.view = Vec::new();
        self.view_scanned = 0;
        let sieve = match depth {
            ReadDepth::Window => None,
            ReadDepth::WholeTopic => Some(PreparedFilter::new(&params.filter, self.has_decoder)),
        };
        self.filter = params.filter;
        self.pending = Some(
            PendingRead {
                topic_name: params.topic.clone(),
                open_partitions: Vec::new(),
                phase: ReadPhase::Watermarks(plan.partitions),
                started: now,
                round_started: now,
                bytes_at_start: 0,
                round_mark: 0,
                budget: plan.limit,
                depth,
                sieve,
                round_scanned: 0,
                round_scanned_bytes: 0,
                range: params.range,
            },
        );
        self.open_topic = Some(params.topic);
    }

    /// Stops a search on the user's demand. The buffer is dropped: after a
    /// search it holds the finds only, and a table made of them would miss the
    /// rest without a word. A read of another kind is left alone, also one that
    /// came after the search had ended. Gives the open partitions, to be closed,
    /// where there was a search to stop.
    pub fn stop_search(&mut self) -> (r: Option<Vec<i32>>)
        requires
            old(self).wf(),
        ensures
            final(self).wf(),
            match old(self).pending {
                Some(p) => if p.depth == ReadDepth::WholeTopic {
                    &&& r == Some(p.open_partitions)
                    &&& final(self).store.messages().len() == 0
                    &&& final(self).store.published() == 0
                    &&& final(self).store.used() == 0
                    &&& final(self).store.limit() == old(self).store.limit()
                    &&& final(self).cursors@.len() == 0
                    &&& final(self).view@.len() == 0
                    &&& *final(self) == (Reader {
                        store: final(self).store,
                        cursors: final(self).cursors,
                        view: final(self).view,
                        view_scanned: 0,
                        scanned: 0,
                        window: FIRST_ROUND_CHUNK,
                        last_round: None,
                        kept: None,
                        has_timestamps: false,
                        pending: None,
                        ..*old(self)
                    })
                } else {
                    r is None && *final(self) == *old(self)
                },
                None => r is None && *final(self) == *old(self),
            },
    {
        let is_search = match &self.pending {
            Some(p) => match p.depth {
                ReadDepth::WholeTopic => true,
                ReadDepth::Window => false,
            },
            None => false,
        };
        if !is_search {
            return None;
        }
        match self.pending.take() {
            None => None,
            Some(p) => {
                self.store.release();
                self.cursors = Vec::new();
                self.view = Vec::new();
                self.view_scanned = 0;
                self.scanned = 0;
                self.window = FIRST_ROUND_CHUNK;
                self.last_round = None;
                self.kept = None;
                self.has_timestamps = false;
                Some(p.open_partitions)
            },
        }
    }

    /// Closes the topic: stops a read, and forgets everything that belongs to
    /// the topic, its schema and lens included. Gives the open partitions of a
    /// read that was stopped, to be closed.
    pub fn close_topic(&mut self) -> (r: Option<Vec<i32>>)
        requires
            old(self).wf(),
        ensures
            final(self).wf(),
            r == (match old(self).pending {
                Some(p) => Some(p.open_partitions),
                None => None,
            }),
            final(self).store.messages().len() == 0,
            final(self).store.published() == 0,
            final(self).store.used() == 0,
            final(self).store.limit() == old(self).store.limit(),
            final(self).view@.len() == 0,
            final(self).cursors@.len() == 0,
            final(self).filter.key@.len() == 0,
            final(self).filter.value@.len() == 0,
            !final(self).filter.case_sensitive,
            !final(self).filter.search_decoded,
            *final(self) == (Reader {
                store: final(self).store,
                open_topic: None,
                filter: final(self).filter,
                sort: None,
                view: final(self).view,
                view_scanned: 0,
                scanned: 0,
                cursors: final(self).cursors,
                has_timestamps: false,
                has_decoder: false,
                lens: LensMode::Auto,
                pending: None,
                ..*old(self)
            }),
    {
        let stopped = self.cancel_pending_read();
        self.open_topic = None;
        self.filter = MessageFilter::default();
        self.sort = None;
        self.view = Vec::new();
        self.view_scanned = 0;
        self.scanned = 0;
        self.cursors = Vec::new();
        self.has_timestamps = false;
        self.has_decoder = false;
        self.lens = LensMode::Auto;
        self.store.release();
        stopped
    }

    /// Whether more can be read of the open topic, and if so, how much more of
    /// each partition: raises the budget of those that have something left.
    pub fn start_load_more(&mut self, params: LoadMoreParams) -> (r: Result<i64, String>)
        requires
            old(self).wf(),
        ensures
            final(self).wf(),
            match r {
                Ok(additional) => {
                    &&& old(self).pending is None
                    &&& old(self).open_topic is Some
                    &&& old(self).cursors@.len() > 0
                    &&& additional == limit_of(params.additional, ReadDepth::Window)
                    &&& final(self).cursors@ == raised(old(self).cursors@, additional)
                    &&& *final(self) == (Reader { cursors: final(self).cursors, ..*old(self) })
                },
                Err(e) => {
                    &&& *final(self) == *old(self)
                    &&& if old(self).pending is Some {
                        e@ == "a read is already in progress"@
                    } else if old(self).open_topic is None {
                        e@ == "no topic is open"@
                    } else {
                        old(self).cursors@.len() == 0 && e@ == "nothing loaded yet"@
                    }
                },
            },
    {
        if self.pending.is_some() {
            return Err("a read is already in progress".to_owned());
        }
        if self.open_topic.is_none() {
            return Err("no topic is open".to_owned());
        }
        if self.cursors.len() == 0 {
            return Err("nothing loaded yet".to_owned());
        }
        let additional: i64 = clamp_page(params.additional);
        let ghost before = self.cursors@;
        let mut i: usize = 0;
        while i < self.cursors.len()
            invariant
                i <= self.cursors@.len(),
                self.cursors@.len() == before.len(),
                absorbed_within(before, SCAN_LIMIT as int),
                1 <= additional <= MAX_PAGE,
                *self == (Reader { cursors: self.cursors, ..*old(self) }),
                forall|k: int| 0 <= k < i ==> #[trigger] self.cursors@[k] == raised(before, additional)[k],
                forall|k: int| i <= k < before.len() ==> #[trigger] self.cursors@[k] == before[k],
            decreases self.cursors@.len() - i,
        {
            let mut c: PartitionCursor = self.cursors[i];
            if !c.exhausted {
                proof {
                    assert(before[i as int].absorbed <= SCAN_LIMIT);
                }
                c.budget = c.absorbed + additional;
                self.cursors.set(i, c);
            }
            i += 1;
        }
        proof {
            assert(self.cursors@ =~= raised(before, additional));
            lemma_same_extent(before, self.cursors@);
        }
        Ok(additional)
    }

    /// Goes on reading where the last read stopped, once the topic could be
    /// opened again. The bounds are known, and a range is built into them.
    pub fn resume(&mut self, additional: i64, now: u64)
        requires
            old(self).wf(),
            old(self).pending is None,
            old(self).open_topic is Some,
        ensures
            final(self).wf(),
            *final(self) == (Reader { pending: final(self).pending, ..*old(self) }),
            final(self).pending matches Some(p) && {
                &&& p.topic_name@ == old(self).open_topic->0@
                &&& p.open_partitions@.len() == 0
                &&& p.between_rounds(old(self).store.messages().len())
                &&& p.started == now
                &&& p.round_started == now
                &&& p.bytes_at_start == old(self).store.used()
                &&& p.budget == additional
                &&& p.depth == ReadDepth::Window
                &&& p.sieve is None
                &&& !p.range.starts() && !p.range.ends()
            },
    {
        let topic_name = match &self.open_topic {
            Some(t) => t.clone(),
            None => String::new(),
        };
        proof {
            self.store.lemma_bounds();
        }
        self.pending = Some(
            PendingRead {
                topic_name,
                open_partitions: Vec::new(),
                phase: ReadPhase::Reading(Vec::new()),
                started: now,
                round_started: now,
                bytes_at_start: self.store.byte_size(),
                round_mark: self.store.len(),
                budget: additional,
                depth: ReadDepth::Window,
                sieve: None,
                round_scanned: 0,
                round_scanned_bytes: 0,
                range: ReadRange::default(),
            },
        );
    }

    /// Gives a read up after a failure that has nothing to undo. Gives the open
    /// partitions, to be closed.
    pub fn drop_read(&mut self) -> (r: Option<Vec<i32>>)
        requires
            old(self).wf(),
            old(self).pending matches Some(p) ==> p.round_scanned == 0,
        ensures
            final(self).wf(),
            *final(self) == (Reader { pending: None, ..*old(self) }),
            r == (match old(self).pending {
                Some(p) => Some(p.open_partitions),
                None => None,
            }),
    {
        match self.pending.take() {
            Some(p) => Some(p.open_partitions),
            None => None,
        }
    }
}

/// The cursors with a higher budget, where something is left.
pub open spec fn raised(cursors: Seq<PartitionCursor>, additional: i64) -> Seq<PartitionCursor> {
    Seq::new(
        cursors.len(),
        |i: int|
            if cursors[i].exhausted {
                cursors[i]
            } else {
                PartitionCursor { budget: (cursors[i].absorbed + additional) as i64, ..cursors[i] }
            },
    )
}

pub proof fn lemma_same_extent(a: Seq<PartitionCursor>, b: Seq<PartitionCursor>)
    requires
        a.len() == b.len(),
        forall|i: int|
            0 <= i < a.len() ==> (#[trigger] a[i]).low == b[i].low && a[i].high == b[i].high,
    ensures
        extent(a) == extent(b),
        reach(a) == reach(b),
    decreases a.len(),
{
    if a.len() > 0 {
        assert forall|i: int| 0 <= i < a.drop_last().len() implies (
        #[trigger] a.drop_last()[i]).low == b.drop_last()[i].low && a.drop_last()[i].high
            == b.drop_last()[i].high by {
            assert(a[i].low == b[i].low);
        }
        lemma_same_extent(a.drop_last(), b.drop_last());
        assert(a[a.len() - 1].low == b[b.len() - 1].low);
    }
}

// ---------------------------------------------------------------------------
// Bounds of the partitions
// ---------------------------------------------------------------------------
/// What a read that goes on asks for next.
pub enum NextStep {
    /// No read goes on.
    Idle,
    /// The bounds took too long: the read ends with what it has.
    OffsetsDeadline,
    /// The bounds of these partitions are asked for.
    FetchWatermarks(Vec<i32>),
    /// The round took too long: it is thrown away, and the read ends.
    RoundStalled,
    /// The next batch is taken from the queue.
    Consume,
}

/// The bounds of a partition as the cluster gives them.
#[derive(Debug, Clone, Copy)]
pub struct Watermarks {
    pub partition: i32,
    pub low: i64,
    pub high: i64,
}

pub open spec fn elapsed(now: u64, since: u64) -> int {
    if now > since {
        now - since
    } else {
        0
    }
}

/// The cursors of partitions whose bounds became known.
pub open spec fn opened_all(
    fetched: Seq<Watermarks>,
    newest_first: bool,
    budget: i64,
) -> Seq<PartitionCursor> {
    Seq::new(
        fetched.len(),
        |i: int|
            PartitionCursor::opened(
                fetched[i].partition,
                fetched[i].low,
                fetched[i].high,
                newest_first,
                budget,
            ),
    )
}

/// The answer fits the question: bounds of the first partitions asked for, and
/// no more offsets in all than can be counted. A partition whose bounds stand the
/// wrong way round has nothing in it.
pub open spec fn answers(
    fetched: Seq<Watermarks>,
    todo: Seq<i32>,
    cursors: Seq<PartitionCursor>,
) -> bool {
    &&& fetched.len() <= todo.len()
    &&& forall|i: int|
        0 <= i < fetched.len() ==> (#[trigger] fetched[i]).partition == todo[i]
    &&& reach(cursors + opened_all(fetched, false, 0)) <= i64::MAX
}

/// The start of the range in a partition, where it has one. A moment that the
/// partition does not have lies behind everything in it: there is nothing to
/// take.
pub open spec fn range_from(range: ReadRange, from_at: Seq<(i32, i64)>, c: PartitionCursor) -> Option<
    i64,
> {
    if range.timed() {
        if range.from_timestamp is Some {
            Some(found_or(from_at, c.partition, c.high))
        } else {
            None
        }
    } else {
        range.from_offset
    }
}

/// The exclusive end of the range in a partition, where it has one. A moment
/// that the partition does not have means that nothing comes after it: it is
/// read to its end.
pub open spec fn range_to(range: ReadRange, to_at: Seq<(i32, i64)>, c: PartitionCursor) -> Option<
    i64,
> {
    if range.timed() {
        if range.to_timestamp is Some {
            Some(found_or(to_at, c.partition, c.high))
        } else {
            None
        }
    } else {
        exclusive_of(range.to_offset)
    }
}

/// A cursor cut down to the range. A range is a finished question: the budget of
/// a page does not cut it short.
pub open spec fn narrowed(
    c: PartitionCursor,
    range: ReadRange,
    from_at: Seq<(i32, i64)>,
    to_at: Seq<(i32, i64)>,
    newest_first: bool,
) -> PartitionCursor {
    let (low, high) = intersection(
        c.low,
        c.high,
        range_from(range, from_at, c),
        range_to(range, to_at, c),
    );
    PartitionCursor {
        low,
        high,
        next: if newest_first {
            high
        } else {
            low
        },
        exhausted: low >= high,
        budget: if high - low > c.budget {
            (high - low) as i64
        } else {
            c.budget
        },
        ..c
    }
}

pub open spec fn all_narrowed(
    cursors: Seq<PartitionCursor>,
    range: ReadRange,
    from_at: Seq<(i32, i64)>,
    to_at: Seq<(i32, i64)>,
    newest_first: bool,
) -> Seq<PartitionCursor> {
    Seq::new(cursors.len(), |i: int| narrowed(cursors[i], range, from_at, to_at, newest_first))
}

/// Nothing is left in any partition.
pub open spec fn all_empty(cursors: Seq<PartitionCursor>) -> bool {
    forall|i: int| 0 <= i < cursors.len() ==> (#[trigger] cursors[i]).low >= cursors[i].high
}

pub open spec fn none_negative(found: Seq<(i32, i64)>) -> bool {
    forall|i: int| 0 <= i < found.len() ==> (#[trigger] found[i]).1 >= 0
}

/// The offsets that were found by time; a negative one stands for a moment that
/// the partition does not have.
pub open spec fn only_found(found: Seq<(i32, i64)>) -> Seq<(i32, i64)>
    decreases found.len(),
{
    if found.len() == 0 {
        Seq::empty()
    } else if found.last().1 >= 0 {
        only_found(found.drop_last()).push(found.last())
    } else {
        only_found(found.drop_last())
    }
}

/// Drops the partitions in which a moment was not found.
pub fn offsets_found(found: &Vec<(i32, i64)>) -> (r: Vec<(i32, i64)>)
    ensures
        r@ == only_found(found@),
        none_negative(r@),
{
    let mut out: Vec<(i32, i64)> = Vec::new();
    let mut i: usize = 0;
    proof {
        assert(found@.take(0) =~= Seq::empty());
    }
    while i < found.len()
        invariant
            i <= found@.len(),
            out@ == only_found(found@.take(i as int)),
            none_negative(out@),
        decreases found@.len() - i,
    {
        proof {
            assert(found@.take(i + 1).drop_last() =~= found@.take(i as int));
        }
        let (p, offset) = found[i];
        if offset >= 0 {
            out.push((p, offset));
        }
        i += 1;
    }
    proof {
        assert(found@.take(i as int) =~= found@);
    }
    out
}

/// What a read is answered when the bounds of a partition cannot be had.
pub fn watermark_failure(partition: i32, reason: &str) -> (r: String)
    ensures
        r@ == "can't read offsets of partition "@ + signed_decimal(partition as int) + ": "@
            + reason@,
{
    let mut out = "can't read offsets of partition ".to_owned();
    push_signed(&mut out, partition as i64);
    out.push_str(": ");
    out.push_str(reason);
    out
}

/// What a read is answered when a partition cannot be read from where it should.
pub fn position_failure(partition: i32, reason: &str) -> (r: String)
    ensures
        r@ == "can't position partition "@ + signed_decimal(partition as int) + ": "@ + reason@,
{
    let mut out = "can't position partition ".to_owned();
    push_signed(&mut out, partition as i64);
    out.push_str(": ");
    out.push_str(reason);
    out
}

/// A range only ever takes offsets away.
pub proof fn law_range_only_narrows(
    c: PartitionCursor,
    range: ReadRange,
    from_at: Seq<(i32, i64)>,
    to_at: Seq<(i32, i64)>,
    newest_first: bool,
)
    requires
        0 <= c.absorbed,
    ensures
        ({
            let n = narrowed(c, range, from_at, to_at, newest_first);
            &&& n.wf(newest_first)
            &&& c.low <= n.low <= n.high
            &&& n.low < n.high ==> n.high <= c.high
            &&& c.low <= c.high ==> n.high - n.low <= c.high - c.low
            &&& c.low > c.high ==> n.low == n.high
        }),
{
}

/// The log of a partition: at some of its offsets there are messages, with their
/// times. Where there is none, it was compacted away.
pub open spec fn first_not_before(
    log: spec_fn(int) -> Option<int>,
    low: int,
    high: int,
    moment: int,
    offset: int,
) -> bool {
    &&& low <= offset < high
    &&& log(offset) is Some && log(offset)->0 >= moment
    &&& forall|k: int| low <= k < offset && (#[trigger] log(k)) is Some ==> log(k)->0 < moment
}

/// The cluster has answered which offset a moment has in a partition: the first
/// message that is not before it, and nothing where there is no such message.
pub open spec fn looked_up(
    found: Seq<(i32, i64)>,
    partition: i32,
    log: spec_fn(int) -> Option<int>,
    low: int,
    high: int,
    moment: int,
) -> bool {
    &&& forall|i: int|
        0 <= i < found.len() && (#[trigger] found[i]).0 == partition ==> first_not_before(
            log,
            low,
            high,
            moment,
            found[i].1 as int,
        )
    &&& (forall|i: int| 0 <= i < found.len() ==> (#[trigger] found[i]).0 != partition) ==> forall|
        k: int,
    |
        low <= k < high && (#[trigger] log(k)) is Some ==> log(k)->0 < moment
}

proof fn lemma_found(found: Seq<(i32, i64)>, partition: i32, fallback: i64)
    ensures
        ({
            ||| exists|i: int|
                0 <= i < found.len() && (#[trigger] found[i]).0 == partition && found[i].1
                    == found_or(found, partition, fallback)
            ||| found_or(found, partition, fallback) == fallback && forall|i: int|
                0 <= i < found.len() ==> (#[trigger] found[i]).0 != partition
        }),
    decreases found.len(),
{
    if found.len() > 0 {
        if found[0].0 == partition {
            assert(found[0].1 == found_or(found, partition, fallback));
        } else {
            let rest = found.drop_first();
            lemma_found(rest, partition, fallback);
            if exists|i: int|
                0 <= i < rest.len() && (#[trigger] rest[i]).0 == partition && rest[i].1 == found_or(
                    rest,
                    partition,
                    fallback,
                ) {
                let i = choose|i: int|
                    0 <= i < rest.len() && (#[trigger] rest[i]).0 == partition && rest[i].1
                        == found_or(rest, partition, fallback);
                assert(found[i + 1] == rest[i]);
            } else {
                assert forall|i: int| 0 <= i < found.len() implies (#[trigger] found[i]).0
                    != partition by {
                    if i > 0 {
                        assert(rest[i - 1] == found[i]);
                    }
                }
            }
        }
    }
}

/// A range by time, in offsets: a partition is read from the offset that was found
/// for the start, and not at all where none was found; it is read up to the offset
/// that was found behind the end, and to its own end where none was found.
pub proof fn law_time_range_in_offsets(
    c: PartitionCursor,
    range: ReadRange,
    from_at: Seq<(i32, i64)>,
    to_at: Seq<(i32, i64)>,
    newest_first: bool,
    offset: int,
    start: Option<i64>,
    behind: Option<i64>,
)
    requires
        range.from_timestamp is Some || range.to_timestamp is Some,
        c.low <= c.high,
        // One answer for each partition, or none.
        match start {
            Some(o) => (exists|i: int| 0 <= i < from_at.len() && #[trigger] from_at[i] == (
                c.partition,
                o,
            )) && forall|i: int|
                0 <= i < from_at.len() && (#[trigger] from_at[i]).0 == c.partition ==> from_at[i].1
                    == o,
            None => forall|i: int| 0 <= i < from_at.len() ==> (#[trigger] from_at[i]).0
                != c.partition,
        },
        match behind {
            Some(o) => (exists|i: int| 0 <= i < to_at.len() && #[trigger] to_at[i] == (
                c.partition,
                o,
            )) && forall|i: int|
                0 <= i < to_at.len() && (#[trigger] to_at[i]).0 == c.partition ==> to_at[i].1 == o,
            None => forall|i: int| 0 <= i < to_at.len() ==> (#[trigger] to_at[i]).0 != c.partition,
        },
    ensures
        ({
            let n = narrowed(c, range, from_at, to_at, newest_first);
            n.low <= offset < n.high <==> {
                &&& c.low <= offset < c.high
                &&& range.from_timestamp is Some ==> start is Some && start->0 <= offset
                &&& range.to_timestamp is Some && behind is Some ==> offset < behind->0
            }
        }),
{
    lemma_found(from_at, c.partition, c.high);
    lemma_found(to_at, c.partition, c.high);
}

/// A range by time, in messages: of a log that is ordered by time exactly the
/// messages are read whose time lies in the range, both ends included. An end that
/// is later than the last message cuts nothing off. `moments` are what was asked
/// for: the start, and the moment right behind the end.
pub proof fn law_time_range_holds_its_messages(
    c: PartitionCursor,
    range: ReadRange,
    from_at: Seq<(i32, i64)>,
    to_at: Seq<(i32, i64)>,
    newest_first: bool,
    log: spec_fn(int) -> Option<int>,
    offset: int,
)
    requires
        range.from_timestamp is Some || range.to_timestamp is Some,
        range.to_timestamp matches Some(t) ==> t < i64::MAX,
        c.low <= offset < c.high,
        log(offset) is Some,
        forall|a: int, b: int|
            c.low <= a <= b < c.high && (#[trigger] log(a)) is Some && (#[trigger] log(b)) is Some
                ==> log(a)->0 <= log(b)->0,
        range.from_timestamp matches Some(t) ==> looked_up(
            from_at,
            c.partition,
            log,
            c.low as int,
            c.high as int,
            t as int,
        ),
        exclusive_of(range.to_timestamp) matches Some(t) ==> looked_up(
            to_at,
            c.partition,
            log,
            c.low as int,
            c.high as int,
            t as int,
        ),
    ensures
        ({
            let n = narrowed(c, range, from_at, to_at, newest_first);
            n.low <= offset < n.high <==> {
                &&& range.from_timestamp matches Some(t) ==> t <= log(offset)->0
                &&& range.to_timestamp matches Some(t) ==> log(offset)->0 <= t
            }
        }),
{
    lemma_found(from_at, c.partition, c.high);
    lemma_found(to_at, c.partition, c.high);
    let start = found_or(from_at, c.partition, c.high) as int;
    let end = found_or(to_at, c.partition, c.high) as int;
    if range.from_timestamp is Some && start <= offset && start < c.high {
        assert(log(start) is Some ==> log(start)->0 <= log(offset)->0);
    }
    if range.to_timestamp is Some && end <= offset && end < c.high {
        assert(log(end) is Some ==> log(end)->0 <= log(offset)->0);
    }
    if range.from_timestamp is Some && offset < start {
        assert(log(offset)->0 < range.from_timestamp->0);
    }
    if range.to_timestamp is Some && offset < end {
        assert(log(offset)->0 < range.to_timestamp->0 + 1);
    }
}

/// A range by offset: exactly the offsets of the partition are read that lie in
/// the range, both ends included.
pub proof fn law_offset_range_holds_its_offsets(
    c: PartitionCursor,
    range: ReadRange,
    from_at: Seq<(i32, i64)>,
    to_at: Seq<(i32, i64)>,
    newest_first: bool,
    offset: int,
)
    requires
        range.from_timestamp is None && range.to_timestamp is None,
    ensures
        ({
            let n = narrowed(c, range, from_at, to_at, newest_first);
            n.low <= offset < n.high <==> {
                &&& c.low <= offset < c.high
                &&& range.from_offset matches Some(f) ==> f <= offset
                &&& range.to_offset matches Some(t) ==> offset <= t
            }
        }),
{
}

/// A partition that was cut down to a range is read from the side that the read
/// starts from, as long as anything is left in it, and all of it: the number of
/// messages of a page does not cut a range short. Nothing else of it changes.
pub proof fn law_range_is_read_whole(
    c: PartitionCursor,
    range: ReadRange,
    from_at: Seq<(i32, i64)>,
    to_at: Seq<(i32, i64)>,
    newest_first: bool,
)
    requires
        -0x4000_0000_0000_0000 <= c.low <= c.high <= 0x3fff_ffff_ffff_ffff,
    ensures
        ({
            let n = narrowed(c, range, from_at, to_at, newest_first);
            &&& newest_first ==> n.next == n.high
            &&& !newest_first ==> n.next == n.low
            &&& n.exhausted <==> n.low == n.high
            &&& n.budget >= n.high - n.low
            &&& n.budget >= c.budget
            &&& n.partition == c.partition
            &&& n.absorbed == c.absorbed
            &&& n.read_position == c.read_position
            &&& n.frontier_ts == c.frontier_ts
            &&& n.barren_rounds == c.barren_rounds
        }),
{
}

proof fn lemma_narrowed_reach(a: Seq<PartitionCursor>, b: Seq<PartitionCursor>)
    requires
        a.len() == b.len(),
        forall|i: int| 0 <= i < a.len() ==> span(#[trigger] a[i]) <= span(b[i]),
    ensures
        reach(a) <= reach(b),
    decreases a.len(),
{
    if a.len() > 0 {
        let x = a.drop_last();
        let y = b.drop_last();
        assert forall|i: int| 0 <= i < x.len() implies span(#[trigger] x[i]) <= span(y[i]) by {
            assert(span(a[i]) <= span(b[i]));
        }
        lemma_narrowed_reach(x, y);
        assert(span(a[a.len() - 1]) <= span(b[b.len() - 1]));
    }
}

/// Each partition is within what all span together.
pub proof fn lemma_span_within_reach(cursors: Seq<PartitionCursor>, k: int)
    requires
        0 <= k < cursors.len(),
    ensures
        0 <= span(cursors[k]) <= reach(cursors),
    decreases cursors.len(),
{
    if k < cursors.len() - 1 {
        lemma_span_within_reach(cursors.drop_last(), k);
    } else {
        lemma_reach_covers(cursors.drop_last(), cursors.len() - 1);
    }
}

/// What some of the partitions span, counted either way, is within what all do.
pub proof fn lemma_reach_covers(cursors: Seq<PartitionCursor>, upto: int)
    requires
        0 <= upto <= cursors.len(),
    ensures
        -reach(cursors) <= extent(cursors.take(upto)) <= reach(cursors),
        0 <= reach(cursors.take(upto)) <= reach(cursors),
    decreases cursors.len(),
{
    if upto < cursors.len() {
        assert(cursors.drop_last().take(upto) =~= cursors.take(upto));
        lemma_reach_covers(cursors.drop_last(), upto);
    } else {
        assert(cursors.take(upto) =~= cursors);
        if upto > 0 {
            lemma_reach_covers(cursors.drop_last(), upto - 1);
            assert(cursors.drop_last().take(upto - 1) =~= cursors.drop_last());
        }
    }
}

impl Reader {
    /// What the read that goes on asks for next. Its deadline is not looked at
    /// in the middle of a round, where stopping would cost what was read: only
    /// a round that got stuck is.
    pub fn continue_read(&self, now: u64) -> (r: NextStep)
        ensures
            match self.pending {
                None => r is Idle,
                Some(p) => match p.phase {
                    ReadPhase::Watermarks(todo) => if elapsed(now, p.started) >= READ_DEADLINE_MS {
                        r is OffsetsDeadline
                    } else {
                        r matches NextStep::FetchWatermarks(batch) && batch@ == todo@.take(
                            if todo@.len() < WATERMARK_BATCH {
                                todo@.len() as int
                            } else {
                                WATERMARK_BATCH as int
                            },
                        )
                    },
                    ReadPhase::Reading(_) => if elapsed(now, p.round_started) >= ROUND_DEADLINE_MS {
                        r is RoundStalled
                    } else {
                        r is Consume
                    },
                },
            },
    {
        match &self.pending {
            None => NextStep::Idle,
            Some(p) => match &p.phase {
                ReadPhase::Watermarks(todo) => {
                    if now.saturating_sub(p.started) >= READ_DEADLINE_MS {
                        return NextStep::OffsetsDeadline;
                    }
                    let take: usize = if todo.len() < WATERMARK_BATCH {
                        todo.len()
                    } else {
                        WATERMARK_BATCH
                    };
                    NextStep::FetchWatermarks(
                        vstd::slice::slice_to_vec(
                            vstd::slice::slice_subrange(todo.as_slice(), 0, take),
                        ),
                    )
                },
                ReadPhase::Reading(_) => {
                    if now.saturating_sub(p.round_started) >= ROUND_DEADLINE_MS {
                        NextStep::RoundStalled
                    } else {
                        NextStep::Consume
                    }
                },
            },
        }
    }

    /// Notes the bounds of partitions. True when those of all are known.
    pub fn step_watermarks(&mut self, fetched: &Vec<Watermarks>) -> (r: bool)
        requires
            old(self).wf(),
            old(self).pending matches Some(p) && (p.phase matches ReadPhase::Watermarks(todo)
                && answers(fetched@, todo@, old(self).cursors@)),
        ensures
            final(self).wf(),
            ({
                let p = old(self).pending->0;
                let todo = p.phase->Watermarks_0@;
                let left = todo.skip(fetched@.len() as int);
                &&& r == (left.len() == 0)
                &&& final(self).cursors@ == old(self).cursors@ + opened_all(
                    fetched@,
                    old(self).newest_first,
                    p.budget,
                )
                &&& final(self).pending matches Some(q) && q == (PendingRead {
                    phase: q.phase,
                    ..p
                }) && (q.phase matches ReadPhase::Watermarks(rest) && rest@ == left)
                &&& *final(self) == (Reader {
                    cursors: final(self).cursors,
                    pending: final(self).pending,
                    ..*old(self)
                })
            }),
    {
        let newest_first = self.newest_first;
        let ghost before = self.cursors@;
        let mut done = true;
        if let Some(mut p) = self.pending.take() {
            if let ReadPhase::Watermarks(mut todo) = p.phase {
                let ghost all = todo@;
                let budget: i64 = p.budget;
                let ghost added = opened_all(fetched@, newest_first, budget);
                let mut i: usize = 0;
                proof {
                    assert(added.take(0) =~= Seq::empty());
                    assert(before + added.take(0) =~= before);
                }
                while i < fetched.len()
                    invariant
                        i <= fetched@.len(),
                        added == opened_all(fetched@, newest_first, budget),
                        self.cursors@ == before + added.take(i as int),
                        *self == (Reader { cursors: self.cursors, pending: None, ..*old(self) }),
                    decreases fetched@.len() - i,
                {
                    let w: Watermarks = fetched[i];
                    self.cursors.push(
                        PartitionCursor::open(w.partition, w.low, w.high, newest_first, budget),
                    );
                    proof {
                        assert(self.cursors@ =~= before + added.take(i + 1));
                    }
                    i += 1;
                }
                proof {
                    assert(added.take(i as int) =~= added);
                }
                let rest = todo.split_off(fetched.len());
                proof {
                    assert(rest@ =~= all.skip(fetched@.len() as int));
                    let now = self.cursors@;
                    assert forall|k: int| 0 <= k < now.len() implies (#[trigger] now[k]).wf(
                        newest_first,
                    ) && now[k].partition >= 0 && now[k].absorbed
                        <= self.scanned - p.round_scanned by {
                        if k < before.len() {
                            assert(now[k] == before[k]);
                        } else {
                            let j = k - before.len();
                            assert(now[k] == added[j]);
                            assert(fetched@[j].partition == all[j]);
                        }
                    }
                    assert forall|a: int, c: int| 0 <= a < c < now.len() implies (
                    #[trigger] now[a]).partition < (#[trigger] now[c]).partition by {
                        if c < before.len() {
                            assert(now[a] == before[a] && now[c] == before[c]);
                        } else {
                            let j = c - before.len();
                            assert(now[c] == added[j]);
                            assert(fetched@[j].partition == all[j]);
                            if a < before.len() {
                                assert(before[a].partition < all[j]);
                            } else {
                                let i = a - before.len();
                                assert(now[a] == added[i]);
                                assert(fetched@[i].partition == all[i]);
                            }
                        }
                    }
                    assert forall|i: int, k: int|
                        0 <= i < rest@.len() && 0 <= k < now.len() implies (
                    #[trigger] now[k]).partition < #[trigger] rest@[i] by {
                        assert(rest@[i] == all[fetched@.len() + i]);
                        if k < before.len() {
                            assert(now[k] == before[k]);
                            assert(before[k].partition < all[fetched@.len() + i]);
                        } else {
                            let j = k - before.len();
                            assert(now[k] == added[j]);
                            assert(fetched@[j].partition == all[j]);
                            assert(all[j] < all[fetched@.len() + i]);
                        }
                    }
                    lemma_same_extent(now, before + opened_all(fetched@, false, 0));
                }
                done = rest.len() == 0;
                p.phase = ReadPhase::Watermarks(rest);
                self.pending = Some(p);
            }
        }
        done
    }

    /// The moments whose offsets have to be looked up before the range can be
    /// applied: that of its start, and the one right behind its end.
    pub fn moments(&self) -> (r: (Option<i64>, Option<i64>))
        ensures
            match self.pending {
                Some(p) => r == (p.range.from_timestamp, exclusive_of(p.range.to_timestamp)),
                None => r == (None::<i64>, None::<i64>),
            },
    {
        match &self.pending {
            Some(p) => (p.range.from_timestamp, exclusive(p.range.to_timestamp)),
            None => (None, None),
        }
    }

    /// Cuts the bounds of the partitions down to the range, and lets the rounds
    /// begin. From then on nobody has to know of the range: everything works by
    /// the bounds of the cursors.
    ///
    /// Where the range leaves nothing, the read ends with an explanation by the
    /// true bounds, and the cursors stay as they were.
    pub fn apply_range(&mut self, from_at: &Vec<(i32, i64)>, to_at: &Vec<(i32, i64)>) -> (r: Result<
        (),
        String,
    >)
        requires
            old(self).wf(),
            old(self).pending matches Some(p) && p.round_scanned == 0 && p.round_scanned_bytes == 0
                && (p.phase matches ReadPhase::Watermarks(todo)
                && todo@.len() == 0),
        ensures
            final(self).wf(),
            ({
                let p = old(self).pending->0;
                let bounded = p.range.starts() || p.range.ends();
                let cut = all_narrowed(
                    old(self).cursors@,
                    p.range,
                    from_at@,
                    to_at@,
                    old(self).newest_first,
                );
                match r {
                    Ok(_) => {
                        &&& bounded ==> !all_empty(cut) && final(self).cursors@ == cut
                        &&& !bounded ==> final(self).cursors@ == old(self).cursors@
                        &&& final(self).pending matches Some(q) && q.between_rounds(
                            old(self).store.messages().len(),
                        ) && q == (PendingRead {
                            phase: q.phase,
                            round_mark: q.round_mark,
                            ..p
                        })
                        &&& *final(self) == (Reader {
                            cursors: final(self).cursors,
                            pending: final(self).pending,
                            ..*old(self)
                        })
                    },
                    Err(e) => {
                        &&& bounded && all_empty(cut)
                        &&& e@ == (if p.range.timed() {
                            "no messages in the selected time range ("@ + bounds_text(
                                old(self).cursors@,
                            ) + ")"@
                        } else {
                            missing_text(p.range, old(self).cursors@)
                        })
                        &&& *final(self) == (Reader { pending: None, ..*old(self) })
                    },
                }
            }),
    {
        proof {
            self.store.lemma_bounds();
        }
        let mut p = match self.pending.take() {
            Some(p) => p,
            None => return Ok(()),
        };
        let range: ReadRange = p.range;
        let newest_first = self.newest_first;
        if range.is_empty() {
            p.phase = ReadPhase::Reading(Vec::new());
            p.round_mark = self.store.len();
            self.pending = Some(p);
            return Ok(());
        }
        let by_time = range.by_timestamp();
        let ghost cut = all_narrowed(self.cursors@, range, from_at@, to_at@, newest_first);
        let mut computed: Vec<PartitionCursor> = Vec::new();
        let mut any = false;
        let mut i: usize = 0;
        while i < self.cursors.len()
            invariant
                i <= self.cursors@.len(),
                cursors_wf(self.cursors@, newest_first),
                newest_first == self.newest_first,
                by_time == range.timed(),
                cut == all_narrowed(self.cursors@, range, from_at@, to_at@, newest_first),
                computed@ == cut.take(i as int),
                any ==> !all_empty(cut),
                !any ==> forall|k: int| 0 <= k < i ==> (#[trigger] cut[k]).low >= cut[k].high,
                forall|k: int| 0 <= k < i ==> (#[trigger] cut[k]).low <= cut[k].high,
            decreases self.cursors@.len() - i,
        {
            let c: PartitionCursor = self.cursors[i];
            proof {
                assert(self.cursors@[i as int].wf(newest_first));
                lemma_span_within_reach(self.cursors@, i as int);
                law_range_only_narrows(c, range, from_at@, to_at@, newest_first);
            }
            let (from, to): (Option<i64>, Option<i64>) = if by_time {
                (
                    match range.from_timestamp {
                        Some(_) => Some(resolved(from_at, c.partition, c.high)),
                        None => None,
                    },
                    match range.to_timestamp {
                        Some(_) => Some(resolved(to_at, c.partition, c.high)),
                        None => None,
                    },
                )
            } else {
                (range.from_offset, exclusive(range.to_offset))
            };
            let (low, high) = intersect(c.low, c.high, from, to);
            proof {
                assert(low == cut[i as int].low && high == cut[i as int].high);
                assert(low <= high);
            }
            let span: i64 = high - low;
            let n = PartitionCursor {
                low,
                high,
                next: if newest_first {
                    high
                } else {
                    low
                },
                exhausted: low >= high,
                budget: if span > c.budget {
                    span
                } else {
                    c.budget
                },
                ..c
            };
            if low < high {
                any = true;
            }
            computed.push(n);
            proof {
                assert(n == cut[i as int]);
                assert(computed@ =~= cut.take(i + 1));
            }
            i += 1;
        }
        proof {
            assert(cut.take(i as int) =~= cut);
        }
        if !any {
            return Err(
                if by_time {
                    let bounds = describe_bounds(&self.cursors);
                    let mut out = "no messages in the selected time range (".to_owned();
                    out.push_str(bounds.as_str());
                    out.push_str(")");
                    out
                } else {
                    describe_missing_offsets(&range, &self.cursors)
                },
            );
        }
        proof {
            let old_cursors = self.cursors@;
            assert forall|k: int| 0 <= k < cut.len() implies (#[trigger] cut[k]).wf(newest_first)
                && span(cut[k]) <= span(old_cursors[k]) && cut[k].partition
                == old_cursors[k].partition && cut[k].absorbed == old_cursors[k].absorbed by {
                assert(old_cursors[k].wf(newest_first));
                law_range_only_narrows(old_cursors[k], range, from_at@, to_at@, newest_first);
            }
            lemma_narrowed_reach(cut, old_cursors);
            assert(in_order(cut)) by {
                assert forall|a: int, c: int| 0 <= a < c < cut.len() implies (
                #[trigger] cut[a]).partition < (#[trigger] cut[c]).partition by {
                    assert(old_cursors[a].partition < old_cursors[c].partition);
                }
            }
        }
        self.cursors = computed;
        p.phase = ReadPhase::Reading(Vec::new());
        p.round_mark = self.store.len();
        self.pending = Some(p);
        Ok(())
    }
}

/// How many messages of a partition a read takes: as many as were asked for,
/// from one to a hundred thousand. A search of the whole topic takes all.
pub proof fn law_how_many_messages(limit: usize)
    ensures
        1 <= limit <= 100_000 ==> limit_of(limit, ReadDepth::Window) == limit,
        limit == 0 ==> limit_of(limit, ReadDepth::Window) == 1,
        limit > 100_000 ==> limit_of(limit, ReadDepth::Window) == 100_000,
        limit_of(limit, ReadDepth::WholeTopic) == 0x7fff_ffff_ffff_ffff,
{
}

/// A search of the whole topic needs something to look for, in the key or in the
/// body; any other read does not.
pub proof fn law_search_needs_a_question(params: OpenTopicParams, depth: ReadDepth)
    ensures
        params.filter.key@.len() > 0 || params.filter.value@.len() > 0 ==> !aimless(params, depth),
        depth == ReadDepth::Window ==> !aimless(params, depth),
        depth == ReadDepth::WholeTopic && params.filter.key@ == ""@ && params.filter.value@ == ""@
            ==> aimless(params, depth),
{
    reveal_strlit("");
}

proof fn lemma_partitions_of(topics: Seq<TopicInfo>, name: Seq<char>)
    ensures
        match partitions_of(topics, name) {
            Some(n) => exists|i: int|
                0 <= i < topics.len() && (#[trigger] topics[i]).name@ == name
                    && topics[i].partitions == n,
            None => forall|i: int| 0 <= i < topics.len() ==> (#[trigger] topics[i]).name@ != name,
        },
    decreases topics.len(),
{
    if topics.len() > 0 {
        let last = topics.len() - 1;
        if topics[last].name@ != name {
            let init = topics.drop_last();
            lemma_partitions_of(init, name);
            match partitions_of(init, name) {
                Some(n) => {
                    let i = choose|i: int|
                        0 <= i < init.len() && (#[trigger] init[i]).name@ == name
                            && init[i].partitions == n;
                    assert(topics[i].name@ == name);
                },
                None => {
                    assert forall|i: int| 0 <= i < topics.len() implies (#[trigger] topics[i]).name@
                        != name by {
                        if i < last {
                            assert(init[i] == topics[i]);
                        }
                    }
                },
            }
        } else {
            assert(topics[last].name@ == name);
        }
    }
}

/// A topic can be opened exactly where the cluster shows it with partitions, all
/// partitions that were selected are among them, and the range is not inverted.
/// A topic that the cluster does not show, and one without partitions, are
/// refused by name.
pub proof fn law_which_topics_open(topics: Seq<TopicInfo>, params: OpenTopicParams, i: int)
    requires
        0 <= i < topics.len(),
        topics[i].name@ == params.topic@,
        forall|j: int|
            0 <= j < topics.len() && j != i ==> (#[trigger] topics[j]).name@ != params.topic@,
        topics_wf(topics),
    ensures
        planned(topics, params) is Ok <==> {
            &&& topics[i].partitions > 0
            &&& params.partitions matches Some(list) ==> forall|k: int|
                0 <= k < list@.len() ==> 0 <= #[trigger] list@[k] < topics[i].partitions
            &&& crate::kafka::cursor::range_problem(params.range) is None
        },
        topics[i].partitions == 0 ==> planned(topics, params) == Err::<Seq<i32>, Seq<char>>(
            "topic '"@ + params.topic@ + "' has no partitions"@,
        ),
{
    lemma_partitions_of(topics, params.topic@);
    assert(partitions_of(topics, params.topic@) == Some(topics[i].partitions));
    assert(topics[i].partitions <= i32::MAX);
    crate::kafka::cursor::law_which_partitions_are_read(
        list_view(params.partitions),
        topics[i].partitions as int,
        0,
    );
}

/// A topic that the cluster does not show is not opened.
pub proof fn law_unknown_topic_is_not_opened(topics: Seq<TopicInfo>, params: OpenTopicParams)
    requires
        forall|j: int| 0 <= j < topics.len() ==> (#[trigger] topics[j]).name@ != params.topic@,
    ensures
        planned(topics, params) == Err::<Seq<i32>, Seq<char>>(
            "topic '"@ + params.topic@
                + "' is not on this cluster, or the current Kafka user has no access to it"@,
        ),
{
    lemma_partitions_of(topics, params.topic@);
}

/// Asking for more gives each partition that has something left so many messages
/// more than it brought, and changes nothing else.
pub proof fn law_asking_for_more(cursors: Seq<PartitionCursor>, additional: i64, k: int)
    requires
        0 <= k < cursors.len(),
        0 <= cursors[k].absorbed,
        0 <= additional,
        cursors[k].absorbed + additional <= i64::MAX,
    ensures
        ({
            let after = raised(cursors, additional);
            &&& after.len() == cursors.len()
            &&& !cursors[k].exhausted ==> after[k].budget - after[k].absorbed == additional
            &&& cursors[k].exhausted ==> after[k] == cursors[k]
            &&& after[k].absorbed == cursors[k].absorbed
            &&& after[k].next == cursors[k].next
            &&& after[k].frontier_ts == cursors[k].frontier_ts
            &&& after[k].read_position == cursors[k].read_position
        }),
{
}

/// A partition is opened with the bounds that the broker gave, at the end that is
/// read first, with nothing read and nothing known; one without offsets is at its
/// end at once.
pub proof fn law_partition_is_opened_at_its_end(
    fetched: Seq<Watermarks>,
    newest_first: bool,
    budget: i64,
    k: int,
)
    requires
        0 <= k < fetched.len(),
    ensures
        ({
            let all = opened_all(fetched, newest_first, budget);
            let c = all[k];
            &&& all.len() == fetched.len()
            &&& c.partition == fetched[k].partition
            &&& c.low == fetched[k].low
            &&& c.high == fetched[k].high
            &&& c.budget == budget
            &&& newest_first ==> c.next == fetched[k].high
            &&& !newest_first ==> c.next == fetched[k].low
            &&& c.absorbed == 0
            &&& c.read_position is None
            &&& c.frontier_ts is None
            &&& c.barren_rounds == 0
            &&& c.exhausted <==> fetched[k].low >= fetched[k].high
        }),
{
}

/// Time does not run backwards: between two moments lies their distance, and
/// nothing where the second comes before the first.
pub proof fn law_elapsed_time(now: u64, since: u64)
    ensures
        since <= now ==> since + elapsed(now, since) == now,
        now < since ==> elapsed(now, since) == 0,
{
}

/// The extent of a topic is that of its partitions together.
pub proof fn law_extent_of_a_topic(a: Seq<PartitionCursor>, c: PartitionCursor)
    ensures
        extent(a.push(c)) == extent(a) + c.high - c.low,
        extent(Seq::<PartitionCursor>::empty()) == 0,
{
    assert(a.push(c).drop_last() =~= a);
}

/// Of the offsets found by time all are kept but the negative ones, in their
/// order.
pub proof fn law_only_found_offsets(found: Seq<(i32, i64)>, p: i32, offset: i64)
    ensures
        only_found(found.push((p, offset))) == (if offset < 0 {
            only_found(found)
        } else {
            only_found(found).push((p, offset))
        }),
        only_found(Seq::empty()) == Seq::<(i32, i64)>::empty(),
{
    assert(found.push((p, offset)).drop_last() =~= found);
}

/// There is nothing in a range where no partition has an offset in it.
pub proof fn law_empty_range_has_no_offset(cursors: Seq<PartitionCursor>, i: int, offset: int)
    requires
        0 <= i < cursors.len(),
    ensures
        all_empty(cursors) ==> !(cursors[i].low <= offset < cursors[i].high),
        cursors[i].low < cursors[i].high ==> !all_empty(cursors),
        (forall|k: int| 0 <= k < cursors.len() ==> (#[trigger] cursors[k]).low == cursors[k].high)
            ==> all_empty(cursors),
{
}

} // verus!
