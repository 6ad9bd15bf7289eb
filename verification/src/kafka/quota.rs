//! Indirect measuring of the read quota.
//!
//! A cluster cannot be asked for the quota it applies. But each answer of a
//! broker says how long it was held back, and the client library counts what it
//! received, so the quota shows in what really arrives.
//!
//! * What is measured is what came over the network, not what stayed in the
//!   buffer: the quota is charged for the former.
//! * Time counts only while a read goes on: by the clock on the wall the
//!   estimate would sink to zero while a person looks at the table.
//! * The window is wider than the one of a broker: a shorter one would take a
//!   burst for the true speed.
//! * Brokers are counted, because each applies the quota by itself.

use std::collections::VecDeque;

use vstd::prelude::*;

verus! {

/// The width of the averaging window, in nanoseconds.
pub const WINDOW_NANOS: u64 = 20_000_000_000;

/// With less than this measured, in nanoseconds, an estimate is not to be
/// trusted.
pub const MIN_SPAN_NANOS: u64 = 3_000_000_000;

/// A smaller sample of the transfer is no base for the size of a topic: the
/// metadata of a large cluster alone are megabytes.
pub const MIN_SAMPLE_BYTES: u64 = 524_288;

pub const MIN_SAMPLE_MESSAGES: u64 = 200;

/// What was measured, from which the speed and the price of an offset follow by
/// division.
#[derive(Debug, Clone, Copy, PartialEq, Eq, Structural)]
pub struct Measurement {
    pub rx_bytes: u128,
    pub span_nanos: u128,
    pub offsets: i128,
    /// The longest time for which a broker held an answer back.
    pub peak_throttle_ms: u64,
    /// How many brokers gave data.
    pub brokers: usize,
    /// How many brokers the cluster showed.
    pub known_brokers: usize,
}

/// What the transfer of what was read has cost.
#[derive(Debug, Clone, Copy, PartialEq, Eq, Structural)]
pub struct TransferSample {
    /// Compressed bytes received.
    pub wire_bytes: u64,
    /// How many messages were unpacked from them.
    pub messages: u64,
    /// Their size when unpacked.
    pub message_bytes: u64,
}

/// One interval of statistics.
#[derive(Debug, Clone, Copy)]
pub struct Bucket {
    pub elapsed: u64,
    pub rx_bytes: u64,
    pub offsets: i64,
    pub brokers: usize,
}

/// What the statistics say of one broker.
#[derive(Debug, Clone, Copy)]
pub struct BrokerStats {
    /// Negative for a node that has not been identified yet.
    pub node_id: i32,
    pub rx_bytes: u64,
    /// The longest delay of the interval, in milliseconds.
    pub throttle_max: Option<i64>,
}

/// What the statistics say of one partition.
#[derive(Debug, Clone, Copy)]
pub struct PartitionStats {
    pub rx_msgs: u64,
    pub rx_bytes: u64,
}

/// Measures how fast a cluster gives data.
pub struct QuotaMeter {
    buckets: VecDeque<Bucket>,
    span: u128,
    rx_bytes: u128,
    offsets: i128,
    last_rx_total: Option<u64>,
    known: Vec<(i32, u64)>,
    last_tick: Option<u64>,
    pending_offsets: i64,
    reading: bool,
    was_reading: bool,
    peak_throttle: u64,
    sample: TransferSample,
    last_consumed: Option<(u64, u64)>,
}

/// The state of a meter.
#[verifier::ext_equal]
pub struct MeterView {
    pub buckets: Seq<Bucket>,
    pub last_rx_total: Option<int>,
    /// The last counter of each broker, in the order in which they appeared.
    pub known: Seq<(i32, u64)>,
    pub last_tick: Option<int>,
    pub pending_offsets: int,
    pub reading: bool,
    pub was_reading: bool,
    pub peak_throttle: int,
    pub wire_bytes: int,
    pub messages: int,
    pub message_bytes: int,
    pub last_consumed: Option<(int, int)>,
}

pub open spec fn span_of(buckets: Seq<Bucket>) -> int
    decreases buckets.len(),
{
    if buckets.len() == 0 {
        0
    } else {
        span_of(buckets.drop_last()) + buckets.last().elapsed
    }
}

pub open spec fn rx_of(buckets: Seq<Bucket>) -> int
    decreases buckets.len(),
{
    if buckets.len() == 0 {
        0
    } else {
        rx_of(buckets.drop_last()) + buckets.last().rx_bytes
    }
}

pub open spec fn offsets_of(buckets: Seq<Bucket>) -> int
    decreases buckets.len(),
{
    if buckets.len() == 0 {
        0
    } else {
        offsets_of(buckets.drop_last()) + buckets.last().offsets
    }
}

/// The largest number of brokers that gave data in one interval.
pub open spec fn most_brokers(buckets: Seq<Bucket>) -> usize
    decreases buckets.len(),
{
    if buckets.len() == 0 {
        0
    } else {
        let before = most_brokers(buckets.drop_last());
        if buckets.last().brokers > before {
            buckets.last().brokers
        } else {
            before
        }
    }
}

/// All bytes that the brokers have sent so far.
pub open spec fn total_of(brokers: Seq<(i32, u64)>) -> int
    decreases brokers.len(),
{
    if brokers.len() == 0 {
        0
    } else {
        total_of(brokers.drop_last()) + brokers.last().1
    }
}

/// Where a broker stands in the list, if it does.
pub open spec fn place(known: Seq<(i32, u64)>, id: i32) -> Option<int>
    decreases known.len(),
{
    if known.len() == 0 {
        None
    } else if place(known.drop_last(), id) is Some {
        place(known.drop_last(), id)
    } else if known.last().0 == id {
        Some(known.len() - 1)
    } else {
        None
    }
}

/// A new counter takes the place of the last one of its broker.
pub open spec fn noted(known: Seq<(i32, u64)>, entry: (i32, u64)) -> Seq<(i32, u64)> {
    match place(known, entry.0) {
        Some(i) => known.update(i, entry),
        None => known.push(entry),
    }
}

/// A broker gave data where its counter grew.
pub open spec fn grew(known: Seq<(i32, u64)>, entry: (i32, u64)) -> bool {
    match place(known, entry.0) {
        Some(i) => entry.1 > known[i].1,
        None => false,
    }
}

/// The counters after a snapshot, and how many brokers gave data.
pub open spec fn absorbed(known: Seq<(i32, u64)>, brokers: Seq<(i32, u64)>) -> (
    Seq<(i32, u64)>,
    int,
)
    decreases brokers.len(),
{
    if brokers.len() == 0 {
        (known, 0)
    } else {
        let (before, active) = absorbed(known, brokers.drop_last());
        (
            noted(before, brokers.last()),
            active + if grew(before, brokers.last()) {
                1int
            } else {
                0int
            },
        )
    }
}

/// The intervals that stay in the window: the oldest leave while it is too wide,
/// but one always stays.
pub open spec fn in_window(buckets: Seq<Bucket>) -> Seq<Bucket>
    decreases buckets.len(),
{
    if span_of(buckets) > WINDOW_NANOS && buckets.len() > 1 {
        in_window(buckets.drop_first())
    } else {
        buckets
    }
}

/// How much a number is above another; nothing where it is not.
pub open spec fn less(a: int, b: int) -> int {
    if a > b {
        a - b
    } else {
        0
    }
}

/// The meter after a snapshot, with the new interval in it and before the
/// oldest ones leave.
pub open spec fn grown(
    m: MeterView,
    brokers: Seq<(i32, u64)>,
    consumed: (u64, u64),
    throttle: u64,
    now: u64,
) -> MeterView {
    let (known, active) = absorbed(m.known, brokers);
    let rx_total = total_of(brokers);
    let noticed = MeterView {
        known,
        peak_throttle: if throttle > m.peak_throttle {
            throttle as int
        } else {
            m.peak_throttle
        },
        last_consumed: Some((consumed.0 as int, consumed.1 as int)),
        last_rx_total: Some(rx_total),
        last_tick: Some(now as int),
        was_reading: m.reading,
        ..m
    };
    match (m.last_rx_total, m.last_tick) {
        (Some(last_rx), Some(last_tick)) => {
            let elapsed = less(now as int, last_tick);
            let rx_bytes = less(rx_total, last_rx);
            let sampled = match m.last_consumed {
                Some((messages, bytes)) => MeterView {
                    wire_bytes: m.wire_bytes + rx_bytes,
                    messages: m.messages + less(consumed.0 as int, messages),
                    message_bytes: m.message_bytes + less(consumed.1 as int, bytes),
                    ..noticed
                },
                None => noticed,
            };
            if m.reading && m.was_reading && elapsed > 0 {
                MeterView {
                    pending_offsets: 0,
                    buckets: m.buckets.push(
                        Bucket {
                            elapsed: elapsed as u64,
                            rx_bytes: rx_bytes as u64,
                            offsets: m.pending_offsets as i64,
                            brokers: active as usize,
                        },
                    ),
                    ..sampled
                }
            } else {
                MeterView { pending_offsets: 0, ..sampled }
            }
        },
        _ => noticed,
    }
}

/// The meter after a snapshot. An interval counts only where a read went on from
/// its start to its end; the transfer is sampled in any case.
pub open spec fn ticked(
    m: MeterView,
    brokers: Seq<(i32, u64)>,
    consumed: (u64, u64),
    throttle: u64,
    now: u64,
) -> MeterView {
    let g = grown(m, brokers, consumed, throttle, now);
    MeterView { buckets: if g.buckets.len() > m.buckets.len() { in_window(g.buckets) } else { g.buckets }, ..g }
}

/// The totals of a meter fit into 64 bits.
pub open spec fn countable(m: MeterView) -> bool {
    &&& m.last_rx_total matches Some(total) ==> total <= u64::MAX
    &&& m.wire_bytes <= u64::MAX
    &&& m.messages <= u64::MAX
    &&& m.message_bytes <= u64::MAX
}

/// What a meter has measured: nothing before there is enough of it.
pub open spec fn measured(m: MeterView) -> Option<Measurement> {
    if span_of(m.buckets) < MIN_SPAN_NANOS || rx_of(m.buckets) == 0 || offsets_of(m.buckets) <= 0 {
        None
    } else {
        Some(
            Measurement {
                rx_bytes: rx_of(m.buckets) as u128,
                span_nanos: span_of(m.buckets) as u128,
                offsets: offsets_of(m.buckets) as i128,
                peak_throttle_ms: m.peak_throttle as u64,
                brokers: most_brokers(m.buckets),
                known_brokers: m.known.len() as usize,
            },
        )
    }
}

/// A meter that has seen nothing.
pub open spec fn fresh() -> MeterView {
    MeterView {
        buckets: Seq::empty(),
        last_rx_total: None,
        known: Seq::empty(),
        last_tick: None,
        pending_offsets: 0,
        reading: false,
        was_reading: false,
        peak_throttle: 0,
        wire_bytes: 0,
        messages: 0,
        message_bytes: 0,
        last_consumed: None,
    }
}

pub open spec fn widen(v: Option<u64>) -> Option<int> {
    match v {
        Some(n) => Some(n as int),
        None => None,
    }
}

/// The brokers that count: those that have been identified.
pub open spec fn identified(brokers: Seq<BrokerStats>) -> Seq<(i32, u64)>
    decreases brokers.len(),
{
    if brokers.len() == 0 {
        Seq::empty()
    } else {
        let before = identified(brokers.drop_last());
        if brokers.last().node_id >= 0 {
            before.push((brokers.last().node_id, brokers.last().rx_bytes))
        } else {
            before
        }
    }
}

/// The longest delay that any broker reports, never below zero.
pub open spec fn worst_throttle(brokers: Seq<BrokerStats>) -> u64
    decreases brokers.len(),
{
    if brokers.len() == 0 {
        0
    } else {
        let before = worst_throttle(brokers.drop_last());
        match brokers.last().throttle_max {
            Some(ms) => if ms > before {
                ms as u64
            } else {
                before
            },
            None => before,
        }
    }
}

pub open spec fn messages_in(partitions: Seq<PartitionStats>) -> int
    decreases partitions.len(),
{
    if partitions.len() == 0 {
        0
    } else {
        messages_in(partitions.drop_last()) + partitions.last().rx_msgs
    }
}

pub open spec fn bytes_in(partitions: Seq<PartitionStats>) -> int
    decreases partitions.len(),
{
    if partitions.len() == 0 {
        0
    } else {
        bytes_in(partitions.drop_last()) + partitions.last().rx_bytes
    }
}

/// A snapshot of the statistics can be counted on top of what was measured.
pub open spec fn observable(
    m: MeterView,
    brokers: Seq<BrokerStats>,
    partitions: Seq<PartitionStats>,
    now: u64,
) -> bool {
    &&& messages_in(partitions) <= u64::MAX
    &&& bytes_in(partitions) <= u64::MAX
    &&& countable(
        grown(
            m,
            identified(brokers),
            (messages_in(partitions) as u64, bytes_in(partitions) as u64),
            worst_throttle(brokers),
            now,
        ),
    )
}

impl View for QuotaMeter {
    type V = MeterView;

    closed spec fn view(&self) -> MeterView {
        MeterView {
            buckets: self.buckets@,
            last_rx_total: widen(self.last_rx_total),
            known: self.known@,
            last_tick: widen(self.last_tick),
            pending_offsets: self.pending_offsets as int,
            reading: self.reading,
            was_reading: self.was_reading,
            peak_throttle: self.peak_throttle as int,
            wire_bytes: self.sample.wire_bytes as int,
            messages: self.sample.messages as int,
            message_bytes: self.sample.message_bytes as int,
            last_consumed: match self.last_consumed {
                Some((m, b)) => Some((m as int, b as int)),
                None => None,
            },
        }
    }
}

proof fn lemma_sums_push(buckets: Seq<Bucket>, b: Bucket)
    ensures
        span_of(buckets.push(b)) == span_of(buckets) + b.elapsed,
        rx_of(buckets.push(b)) == rx_of(buckets) + b.rx_bytes,
        offsets_of(buckets.push(b)) == offsets_of(buckets) + b.offsets,
{
    assert(buckets.push(b).drop_last() =~= buckets);
}

proof fn lemma_sums_first(buckets: Seq<Bucket>)
    requires
        buckets.len() > 0,
    ensures
        span_of(buckets) == buckets[0].elapsed + span_of(buckets.drop_first()),
        rx_of(buckets) == buckets[0].rx_bytes + rx_of(buckets.drop_first()),
        offsets_of(buckets) == buckets[0].offsets + offsets_of(buckets.drop_first()),
    decreases buckets.len(),
{
    if buckets.len() == 1 {
        assert(buckets.drop_last() =~= Seq::empty());
        assert(buckets.drop_first() =~= Seq::empty());
    } else {
        let init = buckets.drop_last();
        lemma_sums_first(init);
        assert(buckets.drop_first().drop_last() =~= init.drop_first());
    }
}

/// Sums over intervals stay within what their number allows.
proof fn lemma_sums_bounds(buckets: Seq<Bucket>)
    requires
        forall|i: int| 0 <= i < buckets.len() ==> (#[trigger] buckets[i]).elapsed > 0,
    ensures
        buckets.len() <= span_of(buckets) <= 0xffff_ffff_ffff_ffff * buckets.len(),
        0 <= rx_of(buckets) <= 0xffff_ffff_ffff_ffff * buckets.len(),
        -0x8000_0000_0000_0000 * buckets.len() <= offsets_of(buckets) <= 0x7fff_ffff_ffff_ffff
            * buckets.len(),
    decreases buckets.len(),
{
    if buckets.len() > 0 {
        assert forall|i: int| 0 <= i < buckets.drop_last().len() implies (
        #[trigger] buckets.drop_last()[i]).elapsed > 0 by {
            assert(buckets[i].elapsed > 0);
        }
        lemma_sums_bounds(buckets.drop_last());
    }
}

impl QuotaMeter {
    pub closed spec fn wf(&self) -> bool {
        &&& self.span == span_of(self.buckets@)
        &&& self.rx_bytes == rx_of(self.buckets@)
        &&& self.offsets == offsets_of(self.buckets@)
        &&& forall|i: int| 0 <= i < self.buckets@.len() ==> (#[trigger] self.buckets@[i]).elapsed > 0
        &&& self.last_rx_total is Some <==> self.last_tick is Some
        &&& self.last_rx_total is Some <==> self.last_consumed is Some
    }

    /// What holds of every meter.
    pub proof fn lemma_consistent(&self)
        requires
            self.wf(),
        ensures
            consistent(self@),
    {
    }

    pub fn new() -> (r: Self)
        ensures
            r.wf(),
            r@ == fresh(),
    {
        let r = QuotaMeter {
            buckets: VecDeque::new(),
            span: 0,
            rx_bytes: 0,
            offsets: 0,
            last_rx_total: None,
            known: Vec::new(),
            last_tick: None,
            pending_offsets: 0,
            reading: false,
            was_reading: false,
            peak_throttle: 0,
            sample: TransferSample { wire_bytes: 0, messages: 0, message_bytes: 0 },
            last_consumed: None,
        };
        proof {
            assert(r@ =~= fresh());
        }
        r
    }

    /// A new connection: what was measured belongs to another cluster.
    pub fn reset(&mut self)
        ensures
            final(self).wf(),
            final(self)@ == fresh(),
    {
        *self = QuotaMeter::new();
    }

    /// Whether a read goes on: starts and stops the clock of the meter.
    pub fn set_reading(&mut self, reading: bool)
        requires
            old(self).wf(),
        ensures
            final(self).wf(),
            final(self)@ == (MeterView {
                reading,
                pending_offsets: if reading {
                    old(self)@.pending_offsets
                } else {
                    0
                },
                ..old(self)@
            }),
    {
        if !reading {
            // What was not counted goes with the read: an interval in which a
            // read broke off is no good for the sample.
            self.pending_offsets = 0;
        }
        self.reading = reading;
    }

    /// Whether more offsets can be counted in 64 bits.
    pub fn can_record(&self, offsets: i64) -> (r: bool)
        ensures
            r == (i64::MIN <= self@.pending_offsets + offsets <= i64::MAX),
    {
        self.pending_offsets.checked_add(offsets).is_some()
    }

    /// How many offsets the round that just ended has passed.
    pub fn record_offsets(&mut self, offsets: i64)
        requires
            old(self).wf(),
            i64::MIN <= old(self)@.pending_offsets + offsets <= i64::MAX,
        ensures
            final(self).wf(),
            final(self)@ == (MeterView {
                pending_offsets: old(self)@.pending_offsets + offsets,
                ..old(self)@
            }),
    {
        self.pending_offsets = self.pending_offsets + offsets;
    }

    /// Starts observing the transfer anew: another topic was opened. The
    /// measured speed stays: it belongs to the cluster.
    pub fn mark(&mut self)
        requires
            old(self).wf(),
        ensures
            final(self).wf(),
            final(self)@ == (MeterView {
                wire_bytes: 0,
                messages: 0,
                message_bytes: 0,
                ..old(self)@
            }),
    {
        self.sample = TransferSample { wire_bytes: 0, messages: 0, message_bytes: 0 };
    }

    /// What the transfer since the mark has cost. Nothing while the sample is
    /// too small to count on.
    pub fn transfer(&self) -> (r: Option<TransferSample>)
        ensures
            r is Some <==> offered(self@),
            r matches Some(s) ==> s.wire_bytes == self@.wire_bytes && s.messages == self@.messages
                && s.message_bytes == self@.message_bytes,
    {
        if self.sample.messages < MIN_SAMPLE_MESSAGES || self.sample.wire_bytes < MIN_SAMPLE_BYTES {
            None
        } else {
            Some(self.sample)
        }
    }

    /// What was measured. Nothing while it is not enough to rely on.
    pub fn measurement(&self) -> (r: Option<Measurement>)
        requires
            self.wf(),
        ensures
            r == measured(self@),
    {
        proof {
            lemma_sums_bounds(self.buckets@);
        }
        if self.span < MIN_SPAN_NANOS as u128 || self.rx_bytes == 0 || self.offsets <= 0 {
            return None;
        }
        let mut brokers: usize = 0;
        let mut i: usize = 0;
        proof {
            assert(self.buckets@.take(0) =~= Seq::empty());
        }
        while i < self.buckets.len()
            invariant
                i <= self.buckets@.len(),
                brokers == most_brokers(self.buckets@.take(i as int)),
            decreases self.buckets@.len() - i,
        {
            proof {
                assert(self.buckets@.take(i + 1).drop_last() =~= self.buckets@.take(i as int));
            }
            let here: usize = self.buckets[i].brokers;
            if here > brokers {
                brokers = here;
            }
            i += 1;
        }
        proof {
            assert(self.buckets@.take(i as int) =~= self.buckets@);
        }
        Some(
            Measurement {
                rx_bytes: self.rx_bytes,
                span_nanos: self.span,
                offsets: self.offsets,
                peak_throttle_ms: self.peak_throttle,
                brokers,
                known_brokers: self.known.len(),
            },
        )
    }

    /// Notes the counter of a broker. True where it grew.
    fn note_broker(&mut self, id: i32, total: u64) -> (r: bool)
        ensures
            final(self).known@ == noted(old(self).known@, (id, total)),
            r == grew(old(self).known@, (id, total)),
            *final(self) == (QuotaMeter { known: final(self).known, ..*old(self) }),
    {
        let ghost before = self.known@;
        let mut i: usize = 0;
        proof {
            assert(before.take(0) =~= Seq::empty());
        }
        while i < self.known.len()
            invariant
                i <= self.known@.len(),
                self.known@ == before,
                *self == *old(self),
                place(before.take(i as int), id) is None,
            decreases self.known@.len() - i,
        {
            proof {
                assert(before.take(i + 1).drop_last() =~= before.take(i as int));
            }
            let (known_id, last) = self.known[i];
            if known_id == id {
                proof {
                    lemma_place_stays(before, id, i + 1);
                }
                self.known.set(i, (id, total));
                return total > last;
            }
            i += 1;
        }
        proof {
            assert(before.take(i as int) =~= before);
        }
        self.known.push((id, total));
        false
    }

    /// A snapshot of the counters: per broker what was received, over all what
    /// was unpacked (messages and their bytes), the longest delay in
    /// milliseconds, and the time in nanoseconds.
    pub fn tick(&mut self, brokers: &[(i32, u64)], consumed: (u64, u64), throttle: u64, now: u64)
        requires
            old(self).wf(),
            countable(grown(old(self)@, brokers@, consumed, throttle, now)),
        ensures
            final(self).wf(),
            final(self)@ == ticked(old(self)@, brokers@, consumed, throttle, now),
            sample_grew(old(self)@, brokers@, consumed, final(self)@),
            offered(old(self)@) ==> offered(final(self)@),
    {
        let ghost start = *self;
        proof {
            law_sample_grows_by_what_came(self@, brokers@, consumed, throttle, now);
        }
        let ghost g = grown(self@, brokers@, consumed, throttle, now);
        if throttle > self.peak_throttle {
            self.peak_throttle = throttle;
        }
        let ghost peak = self.peak_throttle;
        let mut rx_total: u64 = 0;
        let mut active: usize = 0;
        let mut i: usize = 0;
        proof {
            assert(brokers@.take(0) =~= Seq::empty());
        }
        while i < brokers.len()
            invariant
                i <= brokers@.len(),
                total_of(brokers@) <= u64::MAX,
                rx_total == total_of(brokers@.take(i as int)),
                (self.known@, active as int) == absorbed(start.known@, brokers@.take(i as int)),
                active <= i,
                *self == (QuotaMeter { known: self.known, peak_throttle: peak, ..start }),
            decreases brokers@.len() - i,
        {
            let (id, total) = brokers[i];
            proof {
                assert(brokers@.take(i + 1).drop_last() =~= brokers@.take(i as int));
                lemma_total_grows(brokers@, i + 1);
            }
            rx_total = rx_total + total;
            if self.note_broker(id, total) {
                active = active + 1;
            }
            i += 1;
        }
        proof {
            assert(brokers@.take(i as int) =~= brokers@);
        }
        let previous = self.last_consumed;
        self.last_consumed = Some(consumed);
        let reading = self.reading;
        let was_reading = self.was_reading;
        self.was_reading = reading;
        let last = match (self.last_rx_total, self.last_tick) {
            (Some(rx), Some(at)) => Some((rx, at)),
            _ => None,
        };
        self.last_rx_total = Some(rx_total);
        self.last_tick = Some(now);
        let (last_rx, last_tick) = match last {
            Some(pair) => pair,
            None => {
                proof {
                    assert(self@ =~= ticked(start@, brokers@, consumed, throttle, now));
                }
                return ;
            },
        };
        let elapsed: u64 = now.saturating_sub(last_tick);
        let rx_bytes: u64 = rx_total.saturating_sub(last_rx);
        // The sample is about the relation of packed to unpacked, not about
        // time: every interval is good for it. A counter that went away with
        // its topic gives nothing, not less than nothing.
        if let Some((messages, bytes)) = previous {
            self.sample = TransferSample {
                wire_bytes: self.sample.wire_bytes + rx_bytes,
                messages: self.sample.messages + consumed.0.saturating_sub(messages),
                message_bytes: self.sample.message_bytes + consumed.1.saturating_sub(bytes),
            };
        }
        let offsets: i64 = self.pending_offsets;
        self.pending_offsets = 0;
        if !(reading && was_reading) || elapsed == 0 {
            proof {
                assert(self@ =~= ticked(start@, brokers@, consumed, throttle, now));
            }
            return ;
        }
        let bucket = Bucket { elapsed, rx_bytes, offsets, brokers: active };
        let intervals: usize = self.buckets.len();
        proof {
            assert(start.buckets@.len() == intervals);
            assert(g.buckets == start.buckets@.push(bucket));
            lemma_sums_push(start.buckets@, bucket);
            lemma_sums_bounds(start.buckets@);
            assert forall|k: int| 0 <= k < g.buckets.len() implies (#[trigger] g.buckets[k]).elapsed
                > 0 by {
                if k < start.buckets@.len() {
                    assert(start.buckets@[k].elapsed > 0);
                }
            }
            lemma_sums_bounds(g.buckets);
        }
        self.span = self.span + elapsed as u128;
        self.rx_bytes = self.rx_bytes + rx_bytes as u128;
        self.offsets = self.offsets + offsets as i128;
        self.buckets.push_back(bucket);
        let ghost middle = *self;
        while self.span > WINDOW_NANOS as u128 && self.buckets.len() > 1
            invariant
                self.wf(),
                in_window(self.buckets@) == in_window(g.buckets),
                *self == (QuotaMeter {
                    buckets: self.buckets,
                    span: self.span,
                    rx_bytes: self.rx_bytes,
                    offsets: self.offsets,
                    ..middle
                }),
            decreases self.buckets@.len(),
        {
            let ghost before = self.buckets@;
            proof {
                lemma_sums_first(before);
                assert forall|k: int| 0 <= k < before.drop_first().len() implies (
                #[trigger] before.drop_first()[k]).elapsed > 0 by {
                    assert(before[k + 1].elapsed > 0);
                }
                lemma_sums_bounds(before.drop_first());
                lemma_sums_bounds(before);
            }
            if let Some(oldest) = self.buckets.pop_front() {
                proof {
                    assert(self.buckets@ =~= before.drop_first());
                    assert(oldest == before[0]);
                }
                self.span = self.span - oldest.elapsed as u128;
                self.rx_bytes = self.rx_bytes - oldest.rx_bytes as u128;
                self.offsets = self.offsets - oldest.offsets as i128;
            }
        }
        proof {
            assert(self@ =~= ticked(start@, brokers@, consumed, throttle, now));
        }
    }

    /// Whether a snapshot can be counted: none of the counters runs out of its 64
    /// bits.
    pub fn can_observe(
        &self,
        brokers: &[BrokerStats],
        partitions: &[PartitionStats],
        now: u64,
    ) -> (r: bool)
        requires
            self.wf(),
        ensures
            r == observable(self@, brokers@, partitions@, now),
    {
        let mut rx_total: u128 = 0;
        let mut i: usize = 0;
        proof {
            assert(brokers@.take(0) =~= Seq::empty());
            assert(partitions@.take(0) =~= Seq::empty());
        }
        while i < brokers.len()
            invariant
                i <= brokers@.len(),
                rx_total == total_of(identified(brokers@.take(i as int))),
                rx_total <= i * 0xffff_ffff_ffff_ffff,
            decreases brokers@.len() - i,
        {
            let ghost seen = identified(brokers@.take(i as int));
            proof {
                assert(brokers@.take(i + 1).drop_last() =~= brokers@.take(i as int));
            }
            let b: BrokerStats = brokers[i];
            if b.node_id >= 0 {
                proof {
                    assert(seen.push((b.node_id, b.rx_bytes)).drop_last() =~= seen);
                }
                rx_total = rx_total + b.rx_bytes as u128;
            }
            i += 1;
        }
        proof {
            assert(brokers@.take(i as int) =~= brokers@);
        }
        let mut messages: u128 = 0;
        let mut bytes: u128 = 0;
        let mut k: usize = 0;
        while k < partitions.len()
            invariant
                k <= partitions@.len(),
                messages == messages_in(partitions@.take(k as int)),
                bytes == bytes_in(partitions@.take(k as int)),
                messages <= k * 0xffff_ffff_ffff_ffff,
                bytes <= k * 0xffff_ffff_ffff_ffff,
            decreases partitions@.len() - k,
        {
            proof {
                assert(partitions@.take(k + 1).drop_last() =~= partitions@.take(k as int));
            }
            messages = messages + partitions[k].rx_msgs as u128;
            bytes = bytes + partitions[k].rx_bytes as u128;
            k += 1;
        }
        proof {
            assert(partitions@.take(k as int) =~= partitions@);
        }
        let most: u128 = u64::MAX as u128;
        if messages > most || bytes > most || rx_total > most {
            return false;
        }
        let last_rx: u64 = match self.last_rx_total {
            Some(rx) => rx,
            None => return true,
        };
        let (last_messages, last_bytes): (u64, u64) = match self.last_consumed {
            Some(consumed) => consumed,
            None => return true,
        };
        let received: u128 = (rx_total as u64).saturating_sub(last_rx) as u128;
        if self.sample.wire_bytes as u128 + received > most {
            return false;
        }
        let unpacked: u128 = (messages as u64).saturating_sub(last_messages) as u128;
        if self.sample.messages as u128 + unpacked > most {
            return false;
        }
        let unpacked_bytes: u128 = (bytes as u64).saturating_sub(last_bytes) as u128;
        if self.sample.message_bytes as u128 + unpacked_bytes > most {
            return false;
        }
        true
    }

    /// A snapshot of the statistics of the client library: brokers that are not
    /// identified yet do not count, and what was unpacked is summed over all
    /// partitions.
    pub fn observe(
        &mut self,
        brokers: &[BrokerStats],
        partitions: &[PartitionStats],
        now: u64,
    )
        requires
            old(self).wf(),
            observable(old(self)@, brokers@, partitions@, now),
        ensures
            final(self).wf(),
            final(self)@ == ticked(
                old(self)@,
                identified(brokers@),
                (messages_in(partitions@) as u64, bytes_in(partitions@) as u64),
                worst_throttle(brokers@),
                now,
            ),
    {
        let mut counted: Vec<(i32, u64)> = Vec::new();
        let mut throttle: u64 = 0;
        let mut i: usize = 0;
        proof {
            assert(brokers@.take(0) =~= Seq::empty());
            assert(partitions@.take(0) =~= Seq::empty());
        }
        while i < brokers.len()
            invariant
                i <= brokers@.len(),
                counted@ == identified(brokers@.take(i as int)),
                counted@.len() <= i,
                throttle == worst_throttle(brokers@.take(i as int)),
            decreases brokers@.len() - i,
        {
            proof {
                assert(brokers@.take(i + 1).drop_last() =~= brokers@.take(i as int));
            }
            let b: BrokerStats = brokers[i];
            if b.node_id >= 0 {
                counted.push((b.node_id, b.rx_bytes));
            }
            if let Some(ms) = b.throttle_max {
                if ms > 0 && ms as u64 > throttle {
                    throttle = ms as u64;
                }
            }
            i += 1;
        }
        proof {
            assert(brokers@.take(i as int) =~= brokers@);
        }
        let mut messages: u64 = 0;
        let mut bytes: u64 = 0;
        let mut k: usize = 0;
        while k < partitions.len()
            invariant
                k <= partitions@.len(),
                messages_in(partitions@) <= u64::MAX,
                bytes_in(partitions@) <= u64::MAX,
                messages == messages_in(partitions@.take(k as int)),
                bytes == bytes_in(partitions@.take(k as int)),
            decreases partitions@.len() - k,
        {
            proof {
                assert(partitions@.take(k + 1).drop_last() =~= partitions@.take(k as int));
                lemma_partitions_grow(partitions@, k + 1);
            }
            messages = messages + partitions[k].rx_msgs;
            bytes = bytes + partitions[k].rx_bytes;
            k += 1;
        }
        proof {
            assert(partitions@.take(k as int) =~= partitions@);
        }
        self.tick(counted.as_slice(), (messages, bytes), throttle, now);
    }
}

impl Default for QuotaMeter {
    fn default() -> (r: Self)
        ensures
            r.wf(),
            r@ == fresh(),
    {
        Self::new()
    }
}

proof fn lemma_place_stays(known: Seq<(i32, u64)>, id: i32, upto: int)
    requires
        0 <= upto <= known.len(),
        place(known.take(upto), id) is Some,
    ensures
        place(known, id) == place(known.take(upto), id),
    decreases known.len() - upto,
{
    if upto == known.len() {
        assert(known.take(upto) =~= known);
    } else {
        assert(known.take(upto + 1).drop_last() =~= known.take(upto));
        lemma_place_stays(known, id, upto + 1);
    }
}

proof fn lemma_total_grows(brokers: Seq<(i32, u64)>, upto: int)
    requires
        0 <= upto <= brokers.len(),
    ensures
        total_of(brokers.take(upto)) <= total_of(brokers),
    decreases brokers.len() - upto,
{
    if upto == brokers.len() {
        assert(brokers.take(upto) =~= brokers);
    } else {
        assert(brokers.take(upto + 1).drop_last() =~= brokers.take(upto));
        lemma_total_grows(brokers, upto + 1);
    }
}

proof fn lemma_partitions_grow(partitions: Seq<PartitionStats>, upto: int)
    requires
        0 <= upto <= partitions.len(),
    ensures
        messages_in(partitions.take(upto)) <= messages_in(partitions),
        bytes_in(partitions.take(upto)) <= bytes_in(partitions),
    decreases partitions.len() - upto,
{
    if upto == partitions.len() {
        assert(partitions.take(upto) =~= partitions);
    } else {
        assert(partitions.take(upto + 1).drop_last() =~= partitions.take(upto));
        lemma_partitions_grow(partitions, upto + 1);
    }
}

/// Time in which nothing is read does not count: whatever a snapshot brings
/// while no read goes on, what was measured of speed and price stays.
pub proof fn law_idle_time_does_not_count(
    m: MeterView,
    brokers: Seq<(i32, u64)>,
    consumed: (u64, u64),
    throttle: u64,
    now: u64,
)
    requires
        !m.reading,
    ensures
        ({
            let after = ticked(m, brokers, consumed, throttle, now);
            &&& after.buckets == m.buckets
            &&& measured(after) is Some <==> measured(m) is Some
            &&& measured(m) matches Some(a) ==> measured(after) matches Some(b) && a.rx_bytes
                == b.rx_bytes && a.span_nanos == b.span_nanos && a.offsets == b.offsets
        }),
{
}

/// The window is never wider than it may be, but for one interval that is wider
/// by itself.
pub proof fn law_window_is_bounded(buckets: Seq<Bucket>)
    ensures
        span_of(in_window(buckets)) <= WINDOW_NANOS || in_window(buckets).len() == 1,
        buckets.len() > 0 ==> in_window(buckets).len() > 0 && in_window(buckets).last()
            == buckets.last(),
    decreases buckets.len(),
{
    if span_of(buckets) > WINDOW_NANOS && buckets.len() > 1 {
        law_window_is_bounded(buckets.drop_first());
    }
}

/// Starting the sample anew leaves what was measured of the cluster.
pub proof fn law_mark_keeps_the_speed(m: MeterView)
    ensures
        measured(MeterView { wire_bytes: 0, messages: 0, message_bytes: 0, ..m }) == measured(m),
{
}

/// The worst delay is remembered.
pub proof fn law_worst_delay_is_remembered(
    m: MeterView,
    brokers: Seq<(i32, u64)>,
    consumed: (u64, u64),
    throttle: u64,
    now: u64,
)
    ensures
        ticked(m, brokers, consumed, throttle, now).peak_throttle >= m.peak_throttle,
        ticked(m, brokers, consumed, throttle, now).peak_throttle >= throttle,
{
}

/// What was counted before belongs together: there is all of it, or none.
pub open spec fn consistent(m: MeterView) -> bool {
    &&& m.last_rx_total is Some <==> m.last_tick is Some
    &&& m.last_rx_total is Some <==> m.last_consumed is Some
}

/// The sample of the transfer is large enough to be offered.
pub open spec fn offered(m: MeterView) -> bool {
    m.messages >= MIN_SAMPLE_MESSAGES && m.wire_bytes >= MIN_SAMPLE_BYTES
}

/// The sample after a snapshot: each total has grown by what its counter grew,
/// whether a read goes on or not. A counter that shrank adds nothing and takes
/// nothing away, and the first snapshot adds nothing: it has nothing to be
/// compared with.
pub open spec fn sample_grew(
    before: MeterView,
    brokers: Seq<(i32, u64)>,
    consumed: (u64, u64),
    after: MeterView,
) -> bool {
    &&& after.last_rx_total == Some(total_of(brokers))
    &&& after.last_consumed == Some((consumed.0 as int, consumed.1 as int))
    &&& match (before.last_rx_total, before.last_consumed) {
        (Some(rx), Some((messages, bytes))) => {
            &&& after.wire_bytes == before.wire_bytes + less(total_of(brokers), rx)
            &&& after.messages == before.messages + less(consumed.0 as int, messages)
            &&& after.message_bytes == before.message_bytes + less(consumed.1 as int, bytes)
        },
        _ => {
            &&& after.wire_bytes == before.wire_bytes
            &&& after.messages == before.messages
            &&& after.message_bytes == before.message_bytes
        },
    }
}

/// A snapshot adds to the sample what came since the one before, and nothing
/// else.
pub proof fn law_sample_grows_by_what_came(
    m: MeterView,
    brokers: Seq<(i32, u64)>,
    consumed: (u64, u64),
    throttle: u64,
    now: u64,
)
    requires
        consistent(m),
    ensures
        consistent(ticked(m, brokers, consumed, throttle, now)),
        sample_grew(m, brokers, consumed, ticked(m, brokers, consumed, throttle, now)),
{
}

/// A sample that is offered stays offered, whatever the next snapshot brings.
pub proof fn law_offered_sample_stays_offered(
    m: MeterView,
    brokers: Seq<(i32, u64)>,
    consumed: (u64, u64),
    throttle: u64,
    now: u64,
)
    requires
        consistent(m),
        offered(m),
    ensures
        offered(ticked(m, brokers, consumed, throttle, now)),
{
    law_sample_grows_by_what_came(m, brokers, consumed, throttle, now);
}

/// An interval counts where a read went on from its start to its end and time
/// passed: with the time between the two snapshots, the bytes that came between
/// them and the offsets that were passed. In any other case none is added.
pub proof fn law_what_an_interval_holds(
    m: MeterView,
    brokers: Seq<(i32, u64)>,
    consumed: (u64, u64),
    throttle: u64,
    now: u64,
    then: u64,
    before: int,
)
    requires
        consistent(m),
        m.last_tick == Some(then as int),
        m.last_rx_total == Some(before),
        0 <= before <= total_of(brokers) <= u64::MAX,
        i64::MIN <= m.pending_offsets <= i64::MAX,
    ensures
        ({
            let after = ticked(m, brokers, consumed, throttle, now);
            &&& m.reading && m.was_reading && then < now ==> {
                let b = after.buckets.last();
                &&& after.buckets.len() > 0
                &&& b.elapsed == now - then
                &&& b.rx_bytes == total_of(brokers) - before
                &&& b.offsets == m.pending_offsets
            }
            &&& !m.reading || !m.was_reading || now <= then ==> after.buckets == m.buckets
            &&& after.pending_offsets == 0
            &&& after.last_tick == Some(now as int)
            &&& after.was_reading == m.reading
            &&& after.reading == m.reading
        }),
{
    let g = grown(m, brokers, consumed, throttle, now);
    law_window_is_bounded(g.buckets);
}

/// The first snapshot only begins the first interval.
pub proof fn law_first_snapshot_measures_nothing(
    brokers: Seq<(i32, u64)>,
    consumed: (u64, u64),
    throttle: u64,
    now: u64,
)
    ensures
        measured(fresh()) is None,
        !offered(fresh()),
        measured(ticked(fresh(), brokers, consumed, throttle, now)) is None,
        ticked(fresh(), brokers, consumed, throttle, now).buckets.len() == 0,
        ticked(fresh(), brokers, consumed, throttle, now).last_tick == Some(now as int),
{
}

proof fn lemma_window_is_the_end(buckets: Seq<Bucket>) -> (k: int)
    ensures
        0 <= k <= buckets.len(),
        in_window(buckets) == buckets.skip(k),
        k > 0 ==> span_of(buckets.skip(k - 1)) > WINDOW_NANOS && k < buckets.len(),
    decreases buckets.len(),
{
    if span_of(buckets) > WINDOW_NANOS && buckets.len() > 1 {
        let k = lemma_window_is_the_end(buckets.drop_first());
        assert(buckets.drop_first().skip(k) =~= buckets.skip(k + 1));
        if k > 0 {
            assert(buckets.drop_first().skip(k - 1) =~= buckets.skip(k));
        } else {
            assert(buckets.skip(0) =~= buckets);
        }
        k + 1
    } else {
        assert(buckets.skip(0) =~= buckets);
        0
    }
}

/// The window holds the last intervals: as many as fit into twenty seconds and no
/// fewer, but always one.
pub proof fn law_window_holds_the_last_twenty_seconds(buckets: Seq<Bucket>) -> (dropped: int)
    ensures
        0 <= dropped <= buckets.len(),
        in_window(buckets) == buckets.skip(dropped),
        dropped > 0 ==> span_of(buckets.skip(dropped - 1)) > 20_000_000_000,
        span_of(buckets.skip(dropped)) <= 20_000_000_000 || buckets.len() - dropped == 1,
        buckets.len() > 0 ==> dropped < buckets.len(),
{
    law_window_is_bounded(buckets);
    lemma_window_is_the_end(buckets)
}

/// The sums of a window are those of its intervals.
pub proof fn law_window_adds_up(buckets: Seq<Bucket>, b: Bucket)
    ensures
        span_of(buckets.push(b)) == span_of(buckets) + b.elapsed,
        rx_of(buckets.push(b)) == rx_of(buckets) + b.rx_bytes,
        offsets_of(buckets.push(b)) == offsets_of(buckets) + b.offsets,
        span_of(Seq::<Bucket>::empty()) == 0,
        rx_of(Seq::<Bucket>::empty()) == 0,
        offsets_of(Seq::<Bucket>::empty()) == 0,
{
    lemma_sums_push(buckets, b);
}

/// There is a measurement after three seconds of reading, once bytes came and
/// offsets were passed; it gives them as they were counted.
pub proof fn law_when_there_is_a_measurement(m: MeterView)
    requires
        0 <= rx_of(m.buckets) <= u128::MAX,
        span_of(m.buckets) <= u128::MAX,
        offsets_of(m.buckets) <= i128::MAX,
        0 <= m.peak_throttle <= u64::MAX,
        m.known.len() <= usize::MAX,
    ensures
        measured(m) is Some <==> span_of(m.buckets) >= 3_000_000_000 && rx_of(m.buckets) > 0
            && offsets_of(m.buckets) > 0,
        measured(m) matches Some(x) ==> {
            &&& x.rx_bytes == rx_of(m.buckets)
            &&& x.span_nanos == span_of(m.buckets)
            &&& x.offsets == offsets_of(m.buckets)
            &&& x.peak_throttle_ms == m.peak_throttle
            &&& x.known_brokers == m.known.len()
            &&& forall|i: int|
                0 <= i < m.buckets.len() ==> (#[trigger] m.buckets[i]).brokers <= x.brokers
            &&& x.brokers == 0 || exists|i: int|
                0 <= i < m.buckets.len() && (#[trigger] m.buckets[i]).brokers == x.brokers
        },
{
    lemma_most_brokers(m.buckets);
}

proof fn lemma_most_brokers(buckets: Seq<Bucket>)
    ensures
        forall|i: int|
            0 <= i < buckets.len() ==> (#[trigger] buckets[i]).brokers <= most_brokers(buckets),
        most_brokers(buckets) == 0 || exists|i: int|
            0 <= i < buckets.len() && (#[trigger] buckets[i]).brokers == most_brokers(buckets),
    decreases buckets.len(),
{
    if buckets.len() > 0 {
        let init = buckets.drop_last();
        let last = buckets.len() - 1;
        lemma_most_brokers(init);
        assert forall|i: int| 0 <= i < buckets.len() implies (#[trigger] buckets[i]).brokers
            <= most_brokers(buckets) by {
            if i < last {
                assert(init[i] == buckets[i]);
            }
        }
        if most_brokers(buckets) != 0 {
            if buckets[last].brokers > most_brokers(init) {
                assert(buckets[last].brokers == most_brokers(buckets));
            } else {
                let i = choose|i: int|
                    0 <= i < init.len() && (#[trigger] init[i]).brokers == most_brokers(init);
                assert(buckets[i].brokers == most_brokers(buckets));
            }
        }
    }
}

/// A sample is offered from two hundred messages and half a megabyte on.
pub proof fn law_when_a_sample_is_offered(m: MeterView)
    ensures
        offered(m) <==> m.messages >= 200 && m.wire_bytes >= 512 * 1024,
{
}

proof fn lemma_place(known: Seq<(i32, u64)>, id: i32)
    ensures
        match place(known, id) {
            Some(i) => 0 <= i < known.len() && known[i].0 == id,
            None => forall|i: int| 0 <= i < known.len() ==> (#[trigger] known[i]).0 != id,
        },
    decreases known.len(),
{
    if known.len() > 0 {
        let init = known.drop_last();
        lemma_place(init, id);
        if place(known, id) is None {
            assert forall|i: int| 0 <= i < known.len() implies (#[trigger] known[i]).0 != id by {
                if i < known.len() - 1 {
                    assert(init[i] == known[i]);
                }
            }
        }
    }
}

/// A broker counts as one that gave data where its counter is higher than it was;
/// one that was not known before does not count yet. Its new counter is kept, and
/// no other is touched.
pub proof fn law_brokers_that_gave_data(
    known: Seq<(i32, u64)>,
    brokers: Seq<(i32, u64)>,
    id: i32,
    counter: u64,
    k: int,
)
    ensures
        ({
            let (before, active) = absorbed(known, brokers);
            let (after, now) = absorbed(known, brokers.push((id, counter)));
            &&& absorbed(known, Seq::empty()) == (known, 0int)
            &&& now - active <= 1 && now >= active
            &&& 0 <= k < before.len() && before[k].0 == id && (forall|j: int|
                0 <= j < before.len() && j != k ==> (#[trigger] before[j]).0 != id) ==> {
                &&& now == active + 1 <==> counter > before[k].1
                &&& after[k] == (id, counter)
                &&& after.len() == before.len()
            }
            &&& (forall|j: int| 0 <= j < before.len() ==> (#[trigger] before[j]).0 != id) ==> {
                &&& now == active
                &&& after == before.push((id, counter))
            }
            &&& 0 <= k < before.len() && before[k].0 != id ==> after[k] == before[k]
        }),
{
    let (before, active) = absorbed(known, brokers);
    assert(brokers.push((id, counter)).drop_last() =~= brokers);
    lemma_place(before, id);
}

/// Of the brokers those count that have been identified, with what they sent.
pub proof fn law_identified_brokers_count(brokers: Seq<BrokerStats>, b: BrokerStats)
    ensures
        b.node_id >= 0 ==> identified(brokers.push(b)) == identified(brokers).push(
            (b.node_id, b.rx_bytes),
        ),
        b.node_id < 0 ==> identified(brokers.push(b)) == identified(brokers),
        identified(Seq::empty()) == Seq::<(i32, u64)>::empty(),
        b.node_id >= 0 ==> total_of(identified(brokers.push(b))) == total_of(identified(brokers))
            + b.rx_bytes,
{
    assert(brokers.push(b).drop_last() =~= brokers);
    assert(identified(brokers).push((b.node_id, b.rx_bytes)).drop_last() =~= identified(brokers));
}

/// The delay of a snapshot is the longest that any of its brokers reports.
pub proof fn law_longest_delay_counts(brokers: Seq<BrokerStats>)
    ensures
        forall|i: int|
            0 <= i < brokers.len() ==> ((#[trigger] brokers[i]).throttle_max matches Some(ms) ==> ms
                <= worst_throttle(brokers)),
        worst_throttle(brokers) == 0 || exists|i: int|
            0 <= i < brokers.len() && (#[trigger] brokers[i]).throttle_max == Some(
                worst_throttle(brokers) as i64,
            ),
        worst_throttle(brokers) <= i64::MAX,
    decreases brokers.len(),
{
    if brokers.len() > 0 {
        let init = brokers.drop_last();
        let last = brokers.len() - 1;
        law_longest_delay_counts(init);
        assert forall|i: int| 0 <= i < brokers.len() implies ((
        #[trigger] brokers[i]).throttle_max matches Some(ms) ==> ms <= worst_throttle(brokers)) by {
            if i < last {
                assert(init[i] == brokers[i]);
            }
        }
        if worst_throttle(brokers) == worst_throttle(init) {
            if worst_throttle(init) != 0 {
                let i = choose|i: int|
                    0 <= i < init.len() && (#[trigger] init[i]).throttle_max == Some(
                        worst_throttle(init) as i64,
                    );
                assert(brokers[i].throttle_max == Some(worst_throttle(brokers) as i64));
            }
        } else {
            assert(brokers[last].throttle_max == Some(worst_throttle(brokers) as i64));
        }
    }
}

/// Messages and bytes are those of all partitions together.
pub proof fn law_partitions_add_up(partitions: Seq<PartitionStats>, p: PartitionStats)
    ensures
        messages_in(partitions.push(p)) == messages_in(partitions) + p.rx_msgs,
        bytes_in(partitions.push(p)) == bytes_in(partitions) + p.rx_bytes,
        messages_in(Seq::<PartitionStats>::empty()) == 0,
        bytes_in(Seq::<PartitionStats>::empty()) == 0,
{
    assert(partitions.push(p).drop_last() =~= partitions);
}

} // verus!
