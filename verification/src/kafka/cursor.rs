//! Where a read stands in each partition, and which part of it comes next.

use vstd::prelude::*;

use crate::kafka::types::ReadRange;
use crate::strings::{decimal, push_decimal, push_signed, signed_decimal};

verus! {

/// The window never shrinks below this: each round opens the partition anew, and
/// smaller pieces are nothing but overhead.
pub const MIN_ROUND_CHUNK: i64 = 5;

/// The ceiling of the computed floor of a window.
pub const MAX_WINDOW_FLOOR: i64 = 500;

pub const MAX_ROUND_CHUNK: i64 = 5000;

/// The window of the first round: nothing is known of the cluster yet.
pub const FIRST_ROUND_CHUNK: i64 = 10;

/// How many times a window may grow in one round. It limits growing only: a
/// window has to shrink at once.
pub const CHUNK_GROWTH_LIMIT: i64 = 2;

/// How many times the window of a partition doubles at most while it brings
/// nothing.
pub const BARREN_MAX_DOUBLINGS: u32 = 6;

/// No window is wider: the largest chunk with all its doublings.
pub const MAX_WINDOW: i64 = 320_000;

/// What is known of a partition between rounds. It outlives a read: from here
/// the next one learns where to go on.
#[derive(Debug, Clone, Copy)]
pub struct PartitionCursor {
    pub partition: i32,
    /// The bounds of the partition: `high` is exclusive.
    pub low: i64,
    pub high: i64,
    /// Where the next window sits: its exclusive end when reading the newest
    /// first, its start when reading the oldest first.
    pub next: i64,
    /// How many messages were taken in all rounds.
    pub absorbed: i64,
    /// The ceiling of `absorbed` for the current read.
    pub budget: i64,
    /// Where the reader stands, if that is known.
    pub read_position: Option<i64>,
    /// Read to its end.
    pub exhausted: bool,
    /// The time beyond which this partition will bring nothing more.
    pub frontier_ts: Option<i64>,
    /// How many windows in a row brought no message.
    pub barren_rounds: u32,
}

/// The window of one partition in a round: `[start, end)`.
#[derive(Debug, Clone, Copy)]
pub struct RoundPartition {
    pub partition: i32,
    pub start: i64,
    pub end: i64,
    pub absorbed: i64,
    /// The window was read to its end.
    pub done: bool,
}

/// Two to a power.
pub open spec fn doubled(n: nat) -> int
    decreases n,
{
    if n == 0 {
        1
    } else {
        2 * doubled((n - 1) as nat)
    }
}

pub open spec fn smaller(a: int, b: int) -> int {
    if a < b {
        a
    } else {
        b
    }
}

pub open spec fn larger(a: int, b: int) -> int {
    if a > b {
        a
    } else {
        b
    }
}

impl PartitionCursor {
    /// The cursor stands inside the bounds, and short of the end where there is
    /// something left.
    pub open spec fn wf(&self, newest_first: bool) -> bool {
        &&& self.absorbed >= 0
        &&& self.exhausted || (if newest_first {
            self.low < self.next <= self.high
        } else {
            self.low <= self.next < self.high
        })
    }

    /// How many offsets the next window takes: no more than the budget still
    /// allows, no fewer than the smallest window, and doubled for each window
    /// in a row that brought nothing.
    pub open spec fn width(&self, chunk: int) -> int {
        larger(smaller(chunk, self.budget - self.absorbed), MIN_ROUND_CHUNK as int) * doubled(
            smaller(self.barren_rounds as int, BARREN_MAX_DOUBLINGS as int) as nat,
        )
    }

    /// The next window: none for a partition that was read to its end or has
    /// used up its budget.
    pub open spec fn window(&self, newest_first: bool, chunk: int) -> Option<(int, int)> {
        let (start, end) = if newest_first {
            (larger(self.next - self.width(chunk), self.low as int), self.next as int)
        } else {
            (self.next as int, smaller(self.next + self.width(chunk), self.high as int))
        };
        if self.exhausted || self.absorbed >= self.budget || start >= end {
            None
        } else {
            Some((start, end))
        }
    }

    /// The next window of this partition.
    ///
    /// Windows do not overlap and always move one way, so rounds come to an end.
    pub fn next_window(&self, newest_first: bool, chunk: i64) -> (r: Option<(i64, i64)>)
        ensures
            match (r, self.window(newest_first, chunk as int)) {
                (Some((s, e)), Some((start, end))) => s == start && e == end,
                (None, None) => true,
                _ => false,
            },
    {
        if self.exhausted || self.absorbed >= self.budget {
            return None;
        }
        let left: i128 = self.budget as i128 - self.absorbed as i128;
        let mut width: i128 = chunk as i128;
        if left < width {
            width = left;
        }
        if width < MIN_ROUND_CHUNK as i128 {
            width = MIN_ROUND_CHUNK as i128;
        }
        let times: u32 = if self.barren_rounds < BARREN_MAX_DOUBLINGS {
            self.barren_rounds
        } else {
            BARREN_MAX_DOUBLINGS
        };
        let mut factor: i128 = 1;
        let mut n: u32 = 0;
        while n < times
            invariant
                n <= times <= 6,
                factor == doubled(n as nat),
                1 <= factor <= 64,
                n == 0 ==> factor == 1,
                n == 1 ==> factor == 2,
                n == 2 ==> factor == 4,
                n == 3 ==> factor == 8,
                n == 4 ==> factor == 16,
                n == 5 ==> factor == 32,
                n == 6 ==> factor == 64,
            decreases times - n,
        {
            factor = factor * 2;
            n += 1;
        }
        assert(width * factor <= 0x1_0000_0000_0000_0000 * 64 && 0 <= width * factor)
            by (nonlinear_arith)
            requires
                5 <= width <= 0x1_0000_0000_0000_0000,
                1 <= factor <= 64,
        ;
        let width: i128 = width * factor;
        let (start, end): (i128, i128) = if newest_first {
            let from: i128 = self.next as i128 - width;
            (
                if from > self.low as i128 {
                    from
                } else {
                    self.low as i128
                },
                self.next as i128,
            )
        } else {
            let to: i128 = self.next as i128 + width;
            (
                self.next as i128,
                if to < self.high as i128 {
                    to
                } else {
                    self.high as i128
                },
            )
        };
        if start >= end {
            return None;
        }
        Some((start as i64, end as i64))
    }

    /// The cursor after a window that was read to its end.
    pub open spec fn advanced(&self, newest_first: bool, window: RoundPartition) -> PartitionCursor {
        PartitionCursor {
            absorbed: (self.absorbed + window.absorbed) as i64,
            barren_rounds: if window.absorbed == 0 {
                smaller(self.barren_rounds + 1, u32::MAX as int) as u32
            } else {
                0
            },
            next: if newest_first {
                window.start
            } else {
                window.end
            },
            exhausted: self.exhausted || (if newest_first {
                window.start <= self.low
            } else {
                window.end >= self.high
            }),
            ..*self
        }
    }

    /// Moves the cursor over a window that was read to its end. Where the reader
    /// stands is observed, and does not follow from a window being closed: to
    /// see that it is over, a message behind it had to be taken.
    pub fn advance(&mut self, newest_first: bool, window: &RoundPartition)
        requires
            i64::MIN <= old(self).absorbed + window.absorbed <= i64::MAX,
        ensures
            *final(self) == old(self).advanced(newest_first, *window),
    {
        self.absorbed = self.absorbed + window.absorbed;
        self.barren_rounds = if window.absorbed == 0 {
            self.barren_rounds.saturating_add(1)
        } else {
            0
        };
        if newest_first {
            self.next = window.start;
            self.exhausted = self.exhausted || window.start <= self.low;
        } else {
            self.next = window.end;
            self.exhausted = self.exhausted || window.end >= self.high;
        }
    }

    /// Where the reader stands: the next message comes from this offset. Noted
    /// for everything that was taken from the queue, also what was thrown away.
    pub fn note_read_position(&mut self, offset: i64)
        ensures
            *final(self) == (PartitionCursor { read_position: Some(offset), ..*old(self) }),
    {
        self.read_position = Some(offset);
    }

    /// The frontier after a message: the oldest time seen when reading the
    /// newest first, the newest one when reading the oldest first.
    pub open spec fn observed(&self, newest_first: bool, timestamp: i64) -> PartitionCursor {
        PartitionCursor {
            frontier_ts: Some(
                match self.frontier_ts {
                    None => timestamp,
                    Some(prev) => if newest_first == (timestamp < prev) {
                        timestamp
                    } else {
                        prev
                    },
                },
            ),
            ..*self
        }
    }

    /// Moves the mark beyond which this partition will bring nothing more.
    pub fn observe(&mut self, newest_first: bool, timestamp: i64)
        ensures
            *final(self) == old(self).observed(newest_first, timestamp),
    {
        let mark: i64 = match self.frontier_ts {
            None => timestamp,
            Some(prev) => {
                if newest_first == (timestamp < prev) {
                    timestamp
                } else {
                    prev
                }
            },
        };
        self.frontier_ts = Some(mark);
    }

    /// A cursor at the start of a read.
    pub open spec fn opened(
        partition: i32,
        low: i64,
        high: i64,
        newest_first: bool,
        budget: i64,
    ) -> PartitionCursor {
        PartitionCursor {
            partition,
            low,
            high,
            next: if newest_first {
                high
            } else {
                low
            },
            absorbed: 0,
            budget,
            read_position: None,
            exhausted: low >= high,
            frontier_ts: None,
            barren_rounds: 0,
        }
    }

    /// A cursor at the start of a read.
    pub fn open(partition: i32, low: i64, high: i64, newest_first: bool, budget: i64) -> (r: Self)
        ensures
            r == PartitionCursor::opened(partition, low, high, newest_first, budget),
            r.wf(newest_first),
    {
        PartitionCursor {
            partition,
            low,
            high,
            next: if newest_first {
                high
            } else {
                low
            },
            absorbed: 0,
            budget,
            read_position: None,
            exhausted: low >= high,
            frontier_ts: None,
            barren_rounds: 0,
        }
    }
}

proof fn lemma_width(c: PartitionCursor, chunk: int)
    ensures
        c.width(chunk) >= MIN_ROUND_CHUNK,
        chunk <= MAX_ROUND_CHUNK ==> c.width(chunk) <= MAX_WINDOW,
{
    let base = larger(smaller(chunk, c.budget - c.absorbed), MIN_ROUND_CHUNK as int);
    let n = smaller(c.barren_rounds as int, BARREN_MAX_DOUBLINGS as int) as nat;
    reveal_with_fuel(doubled, 8);
    assert(1 <= doubled(n) <= 64);
    assert(base * doubled(n) >= 5) by (nonlinear_arith)
        requires
            base >= 5,
            doubled(n) >= 1,
    ;
    if chunk <= MAX_ROUND_CHUNK {
        assert(base <= 5000);
        assert(base * doubled(n) <= 5000 * 64) by (nonlinear_arith)
            requires
                0 <= base <= 5000,
                0 <= doubled(n) <= 64,
        ;
    }
}

/// A window lies inside the bounds of its partition, starts or ends where the
/// cursor stands, and is never wider than the widest one.
pub proof fn law_window_inside_bounds(c: PartitionCursor, newest_first: bool, chunk: int)
    requires
        c.wf(newest_first),
    ensures
        c.window(newest_first, chunk) matches Some((start, end)) ==> {
            &&& c.low <= start < end <= c.high
            &&& if newest_first {
                end == c.next
            } else {
                start == c.next
            }
            &&& chunk <= MAX_ROUND_CHUNK ==> end - start <= MAX_WINDOW
        },
{
    lemma_width(c, chunk);
}

/// A partition that has something left and is within its budget always gets a
/// window.
pub proof fn law_window_while_something_is_left(
    c: PartitionCursor,
    newest_first: bool,
    chunk: int,
)
    requires
        c.wf(newest_first),
    ensures
        c.window(newest_first, chunk) is Some <==> !c.exhausted && c.absorbed < c.budget,
{
    lemma_width(c, chunk);
}

/// Windows follow one another without overlap and without a hole, and what is
/// left becomes smaller with each: a read comes to its end.
pub proof fn law_windows_adjoin_and_converge(
    c: PartitionCursor,
    newest_first: bool,
    chunk: int,
    later_chunk: int,
    taken: i64,
)
    requires
        c.wf(newest_first),
        0 <= taken,
        c.absorbed + taken <= i64::MAX,
        c.window(newest_first, chunk) is Some,
    ensures
        ({
            let (start, end) = c.window(newest_first, chunk)->0;
            let w = RoundPartition {
                partition: c.partition,
                start: start as i64,
                end: end as i64,
                absorbed: taken,
                done: true,
            };
            let after = c.advanced(newest_first, w);
            &&& after.wf(newest_first)
            &&& after.low == c.low && after.high == c.high
            &&& if newest_first {
                after.next == start && after.next < c.next
            } else {
                after.next == end && after.next > c.next
            }
            &&& after.exhausted <==> (if newest_first {
                start == c.low
            } else {
                end == c.high
            })
            &&& after.window(newest_first, later_chunk) matches Some((s, e)) ==> if newest_first {
                e == start
            } else {
                s == end
            }
        }),
{
    lemma_width(c, chunk);
}

/// Raising the budget changes nothing but the budget: the next window starts
/// where the last one stopped.
pub proof fn law_budget_resumes_in_place(
    c: PartitionCursor,
    newest_first: bool,
    chunk: int,
    budget: i64,
)
    requires
        c.wf(newest_first),
        !c.exhausted,
        budget > c.absorbed,
    ensures
        ({
            let more = PartitionCursor { budget, ..c };
            &&& more.wf(newest_first)
            &&& more.window(newest_first, chunk) matches Some((start, end)) && (if newest_first {
                end == c.next
            } else {
                start == c.next
            })
        }),
{
    lemma_width(PartitionCursor { budget, ..c }, chunk);
}

// ---------------------------------------------------------------------------
// The pace of rounds
// ---------------------------------------------------------------------------
pub open spec fn clamped(v: int, low: int, high: int) -> int {
    if v < low {
        low
    } else if v > high {
        high
    } else {
        v
    }
}

/// The window of the next round.
pub open spec fn paced(
    previous: int,
    target: Option<i64>,
    shrunk: Option<i64>,
    floor: int,
) -> int {
    let doubled_up = smaller(previous * CHUNK_GROWTH_LIMIT, i64::MAX as int);
    let ceiling = match shrunk {
        Some(n) => n as int,
        None => larger(doubled_up, i64::MIN as int),
    };
    let wanted = match target {
        Some(n) => smaller(n as int, ceiling),
        None => ceiling,
    };
    clamped(
        wanted,
        clamped(floor, MIN_ROUND_CHUNK as int, MAX_WINDOW_FLOOR as int),
        MAX_ROUND_CHUNK as int,
    )
}

/// The window of the next round, in offsets per partition.
///
/// `target` is what the measured quota allows, where it was measured; `shrunk`
/// is the last window cut down in proportion, where the last round took too
/// long. Two brakes, because the first may be silent: a round that overran never
/// lets the window grow, and otherwise it at most doubles.
pub fn next_window(previous: i64, target: Option<i64>, shrunk: Option<i64>, floor: i64) -> (r: i64)
    ensures
        r == paced(previous as int, target, shrunk, floor as int),
        MIN_ROUND_CHUNK <= r <= MAX_ROUND_CHUNK,
{
    let ceiling: i64 = match shrunk {
        Some(n) => n,
        None => {
            let twice: i128 = previous as i128 * CHUNK_GROWTH_LIMIT as i128;
            if twice > i64::MAX as i128 {
                i64::MAX
            } else if twice < i64::MIN as i128 {
                i64::MIN
            } else {
                twice as i64
            }
        },
    };
    let wanted: i64 = match target {
        Some(n) => {
            if n < ceiling {
                n
            } else {
                ceiling
            }
        },
        None => ceiling,
    };
    let least: i64 = if floor < MIN_ROUND_CHUNK {
        MIN_ROUND_CHUNK
    } else if floor > MAX_WINDOW_FLOOR {
        MAX_WINDOW_FLOOR
    } else {
        floor
    };
    if wanted < least {
        least
    } else if wanted > MAX_ROUND_CHUNK {
        MAX_ROUND_CHUNK
    } else {
        wanted
    }
}

/// The window below which shrinking does harm: a broker sends one fetch per
/// partition in any case, so a window of fewer offsets than a fetch holds saves
/// nothing. `offsets_per_fetch` is not known before anything was kept.
pub fn window_floor(offsets_per_fetch: Option<i64>) -> (r: i64)
    ensures
        r == (match offsets_per_fetch {
            None => MIN_ROUND_CHUNK as int,
            Some(n) => clamped(n as int, MIN_ROUND_CHUNK as int, MAX_WINDOW_FLOOR as int),
        }),
{
    match offsets_per_fetch {
        None => MIN_ROUND_CHUNK,
        Some(n) => {
            if n < MIN_ROUND_CHUNK {
                MIN_ROUND_CHUNK
            } else if n > MAX_WINDOW_FLOOR {
                MAX_WINDOW_FLOOR
            } else {
                n
            }
        },
    }
}

// ---------------------------------------------------------------------------
// Bounds named by a person
// ---------------------------------------------------------------------------
/// The bounds of a partition cut down to a range; `to` is exclusive. An empty
/// result is no error by itself: another partition may hold such offsets.
pub fn intersect(low: i64, high: i64, from: Option<i64>, to: Option<i64>) -> (r: (i64, i64))
    ensures
        r == intersection(low, high, from, to),
{
    let start: i64 = match from {
        Some(f) if f > low => f,
        _ => low,
    };
    let end: i64 = match to {
        Some(t) if t < high => t,
        _ => high,
    };
    (
        start,
        if end > start {
            end
        } else {
            start
        },
    )
}

pub open spec fn intersection(low: i64, high: i64, from: Option<i64>, to: Option<i64>) -> (
    i64,
    i64,
) {
    let start = match from {
        Some(f) => if f > low {
            f
        } else {
            low
        },
        None => low,
    };
    let end = match to {
        Some(t) => if t < high {
            t
        } else {
            high
        },
        None => high,
    };
    (
        start,
        if end > start {
            end
        } else {
            start
        },
    )
}

/// What is left of a partition is what it has in common with the range.
pub proof fn law_intersection_is_common_part(
    low: i64,
    high: i64,
    from: Option<i64>,
    to: Option<i64>,
    offset: int,
)
    ensures
        ({
            let (start, end) = intersection(low, high, from, to);
            start <= offset < end <==> low <= offset < high && (from matches Some(f) ==> offset
                >= f) && (to matches Some(t) ==> offset < t)
        }),
{
}

/// The exclusive bound of an inclusive one. The last number there is stays: one
/// more would turn the bound negative.
pub open spec fn exclusive_of(inclusive: Option<i64>) -> Option<i64> {
    match inclusive {
        Some(v) => Some(
            if v == i64::MAX {
                i64::MAX
            } else {
                (v + 1) as i64
            },
        ),
        None => None,
    }
}

/// A bound named by a person is inclusive; inside everything is half open.
pub fn exclusive(inclusive: Option<i64>) -> (r: Option<i64>)
    ensures
        r == exclusive_of(inclusive),
{
    match inclusive {
        Some(v) => Some(
            if v == i64::MAX {
                v
            } else {
                v + 1
            },
        ),
        None => None,
    }
}

/// The offset found for a partition, or a fallback where there is none.
pub open spec fn found_or(found: Seq<(i32, i64)>, partition: i32, fallback: i64) -> i64
    decreases found.len(),
{
    if found.len() == 0 {
        fallback
    } else if found[0].0 == partition {
        found[0].1
    } else {
        found_or(found.drop_first(), partition, fallback)
    }
}

/// The offset found by time, or a fallback where the partition has no such
/// moment.
pub fn resolved(found: &Vec<(i32, i64)>, partition: i32, fallback: i64) -> (r: i64)
    ensures
        r == found_or(found@, partition, fallback),
{
    let mut i: usize = 0;
    proof {
        assert(found@.skip(0) =~= found@);
    }
    while i < found.len()
        invariant
            i <= found@.len(),
            found_or(found@, partition, fallback) == found_or(
                found@.skip(i as int),
                partition,
                fallback,
            ),
        decreases found@.len() - i,
    {
        proof {
            assert(found@.skip(i as int).drop_first() =~= found@.skip(i + 1));
        }
        let (p, offset) = found[i];
        if p == partition {
            return offset;
        }
        i += 1;
    }
    fallback
}

/// What is wrong with the bounds of a range, if anything.
pub open spec fn range_problem(range: ReadRange) -> Option<Seq<char>> {
    if range.from_offset is Some && range.to_offset is Some && range.from_offset->0
        > range.to_offset->0 {
        Some(
            "offset "@ + signed_decimal(range.from_offset->0 as int) + " is after "@
                + signed_decimal(range.to_offset->0 as int),
        )
    } else if range.from_timestamp is Some && range.to_timestamp is Some && range.from_timestamp->0
        > range.to_timestamp->0 {
        Some("the start of the time range is after its end"@)
    } else if (range.from_offset is Some && range.from_offset->0 < 0) || (range.to_offset is Some
        && range.to_offset->0 < 0) {
        Some("offsets cannot be negative"@)
    } else {
        None
    }
}

/// The bounds have to agree with one another: a read would silently give nothing
/// otherwise.
pub fn validate_range(range: &ReadRange) -> (r: Result<(), String>)
    ensures
        match (r, range_problem(*range)) {
            (Ok(_), None) => true,
            (Err(e), Some(problem)) => e@ == problem,
            _ => false,
        },
{
    if let (Some(from), Some(to)) = (range.from_offset, range.to_offset) {
        if from > to {
            let mut out = "offset ".to_owned();
            push_signed(&mut out, from);
            out.push_str(" is after ");
            push_signed(&mut out, to);
            return Err(out);
        }
    }
    if let (Some(from), Some(to)) = (range.from_timestamp, range.to_timestamp) {
        if from > to {
            return Err("the start of the time range is after its end".to_owned());
        }
    }
    let negative = match range.from_offset {
        Some(o) => o < 0,
        None => false,
    } || match range.to_offset {
        Some(o) => o < 0,
        None => false,
    };
    if negative {
        return Err("offsets cannot be negative".to_owned());
    }
    Ok(())
}

/// The bounds of one partition in words.
pub open spec fn bounds_of(c: PartitionCursor) -> Seq<char> {
    "partition "@ + signed_decimal(c.partition as int) + (if c.low >= c.high {
        " is empty"@
    } else {
        " holds "@ + signed_decimal(c.low as int) + ".."@ + signed_decimal(c.high - 1)
    })
}

/// The bounds of partitions in words.
pub open spec fn bounds_text(cursors: Seq<PartitionCursor>) -> Seq<char>
    decreases cursors.len(),
{
    if cursors.len() == 0 {
        Seq::empty()
    } else if cursors.len() == 1 {
        bounds_of(cursors.last())
    } else {
        bounds_text(cursors.drop_last()) + ", "@ + bounds_of(cursors.last())
    }
}

/// The bounds of partitions in words, in the order of the cursors, which is that
/// of the partitions.
pub fn describe_bounds(cursors: &Vec<PartitionCursor>) -> (r: String)
    ensures
        r@ == bounds_text(cursors@),
{
    let mut out = String::new();
    let mut i: usize = 0;
    proof {
        assert(cursors@.take(0) =~= Seq::empty());
    }
    while i < cursors.len()
        invariant
            i <= cursors@.len(),
            out@ == bounds_text(cursors@.take(i as int)),
        decreases cursors@.len() - i,
    {
        proof {
            assert(cursors@.take(i + 1).drop_last() =~= cursors@.take(i as int));
        }
        if i > 0 {
            out.push_str(", ");
        }
        let ghost before = out@;
        let c = &cursors[i];
        out.push_str("partition ");
        push_signed(&mut out, c.partition as i64);
        if c.low >= c.high {
            out.push_str(" is empty");
        } else {
            out.push_str(" holds ");
            push_signed(&mut out, c.low);
            out.push_str("..");
            push_signed(&mut out, c.high - 1);
        }
        proof {
            assert(out@ =~= before + bounds_of(*c));
            if i == 0 {
                assert(before =~= Seq::empty());
                assert(out@ =~= bounds_of(*c));
            }
        }
        i += 1;
    }
    proof {
        assert(cursors@.take(i as int) =~= cursors@);
    }
    out
}

/// Whether the end of the log means that there is nothing left in a partition.
///
/// Not always. The reader runs ahead of the window, so the end of the log may
/// be reported while a small part of the range is read: it is the end only
/// where the log ends no further than the window. Reading the newest first it
/// means nothing at all: the first window touches the end by design.
pub fn eof_exhausts(newest_first: bool, end_of_log: i64, window_end: i64) -> (r: bool)
    ensures
        r == (!newest_first && end_of_log <= window_end),
{
    !newest_first && end_of_log <= window_end
}

/// The offsets that were asked for, in words.
pub open spec fn range_text(range: ReadRange) -> Seq<char> {
    match (range.from_offset, range.to_offset) {
        (Some(from), Some(to)) => if from == to {
            "offset "@ + signed_decimal(from as int)
        } else {
            "offsets "@ + signed_decimal(from as int) + ".."@ + signed_decimal(to as int)
        },
        (Some(from), None) => "offsets from "@ + signed_decimal(from as int),
        (None, Some(to)) => "offsets up to "@ + signed_decimal(to as int),
        (None, None) => "the selected offset range"@,
    }
}

/// All partitions start after an offset.
pub open spec fn all_start_after(cursors: Seq<PartitionCursor>, offset: i64) -> bool {
    forall|i: int| 0 <= i < cursors.len() ==> offset < (#[trigger] cursors[i]).low
}

/// All partitions end before an offset.
pub open spec fn all_end_before(cursors: Seq<PartitionCursor>, offset: i64) -> bool {
    forall|i: int| 0 <= i < cursors.len() ==> offset >= (#[trigger] cursors[i]).high
}

/// Why the offsets that were asked for are not there.
pub open spec fn missing_text(range: ReadRange, cursors: Seq<PartitionCursor>) -> Seq<char> {
    let top = if range.to_offset is Some {
        range.to_offset
    } else {
        range.from_offset
    };
    let bottom = if range.from_offset is Some {
        range.from_offset
    } else {
        range.to_offset
    };
    let what = range_text(range);
    let bounds = bounds_text(cursors);
    if top is Some && all_start_after(cursors, top->0) {
        what + " is no longer in the topic — retention or compaction dropped it ("@ + bounds + ")"@
    } else if bottom is Some && all_end_before(cursors, bottom->0) {
        what + " is not in the topic yet ("@ + bounds + ")"@
    } else {
        what + " is outside the topic ("@ + bounds + ")"@
    }
}

/// Why the offsets that were asked for are not there: they are gone, they do not
/// exist yet, or neither can be said of all partitions.
pub fn describe_missing_offsets(range: &ReadRange, cursors: &Vec<PartitionCursor>) -> (r: String)
    ensures
        r@ == missing_text(*range, cursors@),
{
    let mut out = String::new();
    match (range.from_offset, range.to_offset) {
        (Some(from), Some(to)) => {
            if from == to {
                out.push_str("offset ");
                push_signed(&mut out, from);
            } else {
                out.push_str("offsets ");
                push_signed(&mut out, from);
                out.push_str("..");
                push_signed(&mut out, to);
            }
        },
        (Some(from), None) => {
            out.push_str("offsets from ");
            push_signed(&mut out, from);
        },
        (None, Some(to)) => {
            out.push_str("offsets up to ");
            push_signed(&mut out, to);
        },
        (None, None) => {
            out.push_str("the selected offset range");
        },
    }
    proof {
        assert(out@ =~= range_text(*range));
    }
    let bounds = describe_bounds(cursors);
    let top: Option<i64> = match range.to_offset {
        Some(to) => Some(to),
        None => range.from_offset,
    };
    let bottom: Option<i64> = match range.from_offset {
        Some(from) => Some(from),
        None => range.to_offset,
    };
    let gone = match top {
        Some(top) => starts_after(cursors, top),
        None => false,
    };
    let ahead = match bottom {
        Some(bottom) => ends_before(cursors, bottom),
        None => false,
    };
    if gone {
        out.push_str(" is no longer in the topic — retention or compaction dropped it (");
    } else if ahead {
        out.push_str(" is not in the topic yet (");
    } else {
        out.push_str(" is outside the topic (");
    }
    out.push_str(bounds.as_str());
    out.push_str(")");
    out
}

fn starts_after(cursors: &Vec<PartitionCursor>, offset: i64) -> (r: bool)
    ensures
        r == all_start_after(cursors@, offset),
{
    let mut i: usize = 0;
    while i < cursors.len()
        invariant
            i <= cursors@.len(),
            forall|k: int| 0 <= k < i ==> offset < (#[trigger] cursors@[k]).low,
        decreases cursors@.len() - i,
    {
        if offset >= cursors[i].low {
            return false;
        }
        i += 1;
    }
    true
}

fn ends_before(cursors: &Vec<PartitionCursor>, offset: i64) -> (r: bool)
    ensures
        r == all_end_before(cursors@, offset),
{
    let mut i: usize = 0;
    while i < cursors.len()
        invariant
            i <= cursors@.len(),
            forall|k: int| 0 <= k < i ==> offset >= (#[trigger] cursors@[k]).high,
        decreases cursors@.len() - i,
    {
        if offset < cursors[i].high {
            return false;
        }
        i += 1;
    }
    true
}

// ---------------------------------------------------------------------------
// Which partitions to read
// ---------------------------------------------------------------------------
/// The partitions below a number that were selected, in order and each once.
pub open spec fn chosen(selected: Seq<i32>, count: int) -> Seq<i32>
    decreases count,
{
    if count <= 0 {
        Seq::empty()
    } else if selected.contains((count - 1) as i32) {
        chosen(selected, count - 1).push((count - 1) as i32)
    } else {
        chosen(selected, count - 1)
    }
}

/// The first of the selected partitions that the topic does not have.
pub open spec fn first_foreign(selected: Seq<i32>, count: int) -> Option<i32>
    decreases selected.len(),
{
    if selected.len() == 0 {
        None
    } else if !(0 <= selected[0] < count) {
        Some(selected[0])
    } else {
        first_foreign(selected.drop_first(), count)
    }
}

/// Which partitions to read, or why not.
pub open spec fn selection(selected: Option<Seq<i32>>, count: int) -> Result<Seq<i32>, Seq<char>> {
    match selected {
        None => Ok(every_partition(count)),
        Some(s) => if s.len() == 0 {
            Ok(every_partition(count))
        } else {
            match first_foreign(s, count) {
                Some(p) => Err(out_of_range(p, count)),
                None => Ok(chosen(s, count)),
            }
        },
    }
}

pub open spec fn list_view(list: Option<Vec<i32>>) -> Option<Seq<i32>> {
    match list {
        Some(v) => Some(v@),
        None => None,
    }
}

/// All partitions below a number.
pub open spec fn every_partition(count: int) -> Seq<i32> {
    Seq::new(count as nat, |i: int| i as i32)
}

pub open spec fn out_of_range(p: i32, count: int) -> Seq<char> {
    "partition "@ + signed_decimal(p as int) + " is out of range; the topic has "@ + decimal(
        count as nat,
    )
}

/// Which partitions to read: all of them where none were selected, else those
/// selected, in order and each once. The first one that the topic does not have
/// is refused by name.
pub fn selected_partitions(selected: &Option<Vec<i32>>, partition_count: usize) -> (r: Result<
    Vec<i32>,
    String,
>)
    requires
        partition_count <= i32::MAX,
    ensures
        match (r, selection(list_view(*selected), partition_count as int)) {
            (Ok(v), Ok(expected)) => v@ == expected,
            (Err(e), Err(expected)) => e@ == expected,
            _ => false,
        },
{
    let mut out: Vec<i32> = Vec::new();
    if let Some(s) = selected {
        if s.len() > 0 {
            let mut i: usize = 0;
            proof {
                assert(s@.skip(0) =~= s@);
            }
            while i < s.len()
                invariant
                    i <= s@.len(),
                    *selected == Some(*s),
                    partition_count <= i32::MAX,
                    first_foreign(s@, partition_count as int) == first_foreign(
                        s@.skip(i as int),
                        partition_count as int,
                    ),
                decreases s@.len() - i,
            {
                let p: i32 = s[i];
                proof {
                    assert(s@.skip(i as int).drop_first() =~= s@.skip(i + 1));
                }
                if p < 0 || p as usize >= partition_count {
                    let mut message = "partition ".to_owned();
                    push_signed(&mut message, p as i64);
                    message.push_str(" is out of range; the topic has ");
                    push_decimal(&mut message, partition_count as u64);
                    proof {
                        assert(message@ =~= out_of_range(p, partition_count as int));
                    }
                    return Err(message);
                }
                i += 1;
            }
            let mut p: usize = 0;
            while p < partition_count
                invariant
                    p <= partition_count <= i32::MAX,
                    out@ == chosen(s@, p as int),
                decreases partition_count - p,
            {
                if holds(s, p as i32) {
                    out.push(p as i32);
                }
                p += 1;
            }
            return Ok(out);
        }
    }
    let mut p: usize = 0;
    while p < partition_count
        invariant
            p <= partition_count <= i32::MAX,
            out@ == every_partition(p as int),
        decreases partition_count - p,
    {
        out.push(p as i32);
        p += 1;
        proof {
            assert(out@ =~= every_partition(p as int));
        }
    }
    Ok(out)
}

fn holds(list: &Vec<i32>, p: i32) -> (r: bool)
    ensures
        r == list@.contains(p),
{
    let mut i: usize = 0;
    while i < list.len()
        invariant
            i <= list@.len(),
            forall|k: int| 0 <= k < i ==> list@[k] != p,
        decreases list@.len() - i,
    {
        if list[i] == p {
            return true;
        }
        i += 1;
    }
    false
}

/// What was selected is read: each selected partition once, in order, and no
/// other.
pub proof fn law_chosen_are_the_selected(selected: Seq<i32>, count: int)
    requires
        0 <= count <= i32::MAX,
    ensures
        forall|p: i32|
            #![trigger chosen(selected, count).contains(p)]
            chosen(selected, count).contains(p) <==> 0 <= p < count && selected.contains(p),
        forall|i: int, j: int|
            0 <= i < j < chosen(selected, count).len() ==> #[trigger] chosen(selected, count)[i]
                < #[trigger] chosen(selected, count)[j],
    decreases count,
{
    if count > 0 {
        law_chosen_are_the_selected(selected, count - 1);
        let before = chosen(selected, count - 1);
        let all = chosen(selected, count);
        let last = (count - 1) as i32;
        assert forall|i: int| 0 <= i < before.len() implies #[trigger] before[i] < last by {
            assert(before.contains(before[i]));
        }
        assert forall|p: i32|
            #![trigger all.contains(p)]
            all.contains(p) <==> 0 <= p < count && selected.contains(p) by {
            if selected.contains(last) {
                assert(all == before.push(last));
                if all.contains(p) {
                    let i = choose|i: int| 0 <= i < all.len() && all[i] == p;
                    if i < before.len() {
                        assert(before[i] == p);
                        assert(before.contains(p));
                    }
                }
                if 0 <= p < count && selected.contains(p) {
                    if p == last {
                        assert(all[before.len() as int] == p);
                    } else {
                        assert(before.contains(p));
                        let i = choose|i: int| 0 <= i < before.len() && before[i] == p;
                        assert(all[i] == p);
                    }
                }
            } else {
                assert(before.contains(p) == all.contains(p));
            }
        }
    }
}

proof fn lemma_first_foreign(selected: Seq<i32>, count: int)
    ensures
        match first_foreign(selected, count) {
            Some(p) => selected.contains(p) && !(0 <= p < count),
            None => forall|i: int| 0 <= i < selected.len() ==> 0 <= #[trigger] selected[i] < count,
        },
    decreases selected.len(),
{
    if selected.len() > 0 {
        if 0 <= selected[0] < count {
            let rest = selected.drop_first();
            lemma_first_foreign(rest, count);
            match first_foreign(rest, count) {
                Some(p) => {
                    let i = choose|i: int| 0 <= i < rest.len() && rest[i] == p;
                    assert(selected[i + 1] == p);
                },
                None => {
                    assert forall|i: int| 0 <= i < selected.len() implies 0
                        <= #[trigger] selected[i] < count by {
                        if i > 0 {
                            assert(rest[i - 1] == selected[i]);
                        }
                    }
                },
            }
        } else {
            assert(selected[0] == selected[0]);
        }
    }
}

/// All partitions are read where none were selected, else those that were, each
/// once and by number. One that the topic does not have is refused.
pub proof fn law_which_partitions_are_read(selected: Option<Seq<i32>>, count: int, p: i32)
    requires
        0 <= count <= i32::MAX,
    ensures
        selection(selected, count) is Err <==> (selected is Some && exists|i: int|
            0 <= i < selected->0.len() && !(0 <= #[trigger] selected->0[i] < count)),
        selection(selected, count) matches Ok(list) ==> {
            &&& list.contains(p) <==> 0 <= p < count && (selected is None || selected->0.len() == 0
                || selected->0.contains(p))
            &&& forall|i: int, j: int|
                0 <= i < j < list.len() ==> #[trigger] list[i] < #[trigger] list[j]
        },
{
    match selected {
        Some(s) => {
            lemma_first_foreign(s, count);
            law_chosen_are_the_selected(s, count);
            if first_foreign(s, count) is Some {
                let q = first_foreign(s, count)->0;
                let i = choose|i: int| 0 <= i < s.len() && s[i] == q;
                assert(!(0 <= s[i] < count));
            }
            assert(chosen(s, count).contains(p) || !chosen(s, count).contains(p));
        },
        None => {},
    }
    let all = every_partition(count);
    if 0 <= p < count {
        assert(all[p as int] == p);
    }
}

/// Bounds are refused where the first is behind the second, by offset or by time,
/// and where an offset is negative; all others are taken.
pub proof fn law_which_ranges_are_refused(range: ReadRange)
    ensures
        range_problem(range) is Some <==> {
            ||| range.from_offset is Some && range.to_offset is Some && range.to_offset->0
                < range.from_offset->0
            ||| range.from_timestamp is Some && range.to_timestamp is Some && range.to_timestamp->0
                < range.from_timestamp->0
            ||| range.from_offset is Some && range.from_offset->0 < 0
            ||| range.to_offset is Some && range.to_offset->0 < 0
        },
{
}

/// The window of a round is between five and five thousand offsets. Above five
/// hundred it is never more than what the cluster gives in time, than what a round
/// that overran would have allowed, or than twice the window before. It reaches
/// these where they are within reason, and never falls below a floor of up to five
/// hundred.
pub proof fn law_pace_of_rounds(previous: int, target: Option<i64>, shrunk: Option<i64>, floor: int)
    requires
        0 <= previous <= 0x3fff_ffff_ffff_ffff,
    ensures
        ({
            let r = paced(previous, target, shrunk, floor);
            &&& 5 <= r <= 5000
            &&& r > 500 && target is Some ==> r <= target->0
            &&& r > 500 && shrunk is Some ==> r <= shrunk->0
            &&& r > 500 && shrunk is None ==> r <= 2 * previous
            &&& floor <= 500 ==> r >= floor
            &&& floor > 500 ==> r >= 500
            &&& shrunk is None && target is None && 500 <= 2 * previous <= 5000 ==> r == 2
                * previous
            &&& shrunk is None && target is Some && 500 <= target->0 <= 5000 && target->0 <= 2
                * previous ==> r == target->0
            &&& shrunk is Some && target is None && 500 <= shrunk->0 <= 5000 ==> r == shrunk->0
            &&& floor <= 5 && shrunk is None && target is Some && 5 <= target->0 <= 5000
                && target->0 <= 2 * previous ==> r == target->0
        }),
{
}

/// How wide a window is: as wide as the round asks for, no wider than the messages
/// that may still be taken, at least five, and cut off at the end of the
/// partition. While a partition brings nothing, its windows double.
pub proof fn law_width_of_a_window(c: PartitionCursor, newest_first: bool, chunk: int)
    requires
        c.wf(newest_first),
        !c.exhausted,
        c.absorbed < c.budget,
        5 <= chunk <= 5000,
    ensures
        ({
            let (start, end) = c.window(newest_first, chunk)->0;
            let room = if newest_first {
                c.next - c.low
            } else {
                c.high - c.next
            };
            let left = c.budget - c.absorbed;
            &&& c.barren_rounds == 0 && chunk <= left && chunk <= room ==> end - start == chunk
            &&& c.barren_rounds == 0 && 5 <= left <= chunk && left <= room ==> end - start == left
            &&& end - start <= room
            &&& c.barren_rounds == 0 ==> end - start <= chunk
            &&& chunk <= left && c.barren_rounds == 1 && 2 * chunk <= room ==> end - start == 2
                * chunk
            &&& chunk <= left && c.barren_rounds == 2 && 4 * chunk <= room ==> end - start == 4
                * chunk
            &&& chunk <= left && c.barren_rounds >= 6 && 64 * chunk <= room ==> end - start == 64
                * chunk
        }),
{
    reveal_with_fuel(doubled, 8);
    lemma_width(c, chunk);
    assert(doubled(0) == 1 && doubled(1) == 2 && doubled(2) == 4 && doubled(6) == 64);
    if chunk <= c.budget - c.absorbed {
        assert(chunk * 1 == chunk && chunk * 2 == 2 * chunk && chunk * 4 == 4 * chunk && chunk * 64
            == 64 * chunk);
    }
}

/// A partition knows the time that it was read up to: the earliest of all its
/// messages so far where the newest are read first, the latest where the oldest
/// are.
pub proof fn law_time_reached(c: PartitionCursor, newest_first: bool, timestamp: i64)
    ensures
        ({
            let after = c.observed(newest_first, timestamp);
            &&& after.frontier_ts is Some
            &&& after.frontier_ts == Some(timestamp) || after.frontier_ts == c.frontier_ts
            &&& newest_first ==> after.frontier_ts->0 <= timestamp && (c.frontier_ts matches Some(t)
                ==> after.frontier_ts->0 <= t)
            &&& !newest_first ==> after.frontier_ts->0 >= timestamp && (c.frontier_ts matches Some(
                t,
            ) ==> after.frontier_ts->0 >= t)
            &&& after == (PartitionCursor { frontier_ts: after.frontier_ts, ..c })
        }),
{
}

/// A round that took messages adds them to the count of its partition, and a round
/// that took none is remembered until one does.
pub proof fn law_what_a_round_counts(c: PartitionCursor, newest_first: bool, w: RoundPartition)
    requires
        0 <= c.absorbed,
        0 <= w.absorbed,
        c.absorbed + w.absorbed <= i64::MAX,
        c.barren_rounds < u32::MAX,
    ensures
        ({
            let after = c.advanced(newest_first, w);
            &&& after.absorbed == c.absorbed + w.absorbed
            &&& w.absorbed > 0 ==> after.barren_rounds == 0
            &&& w.absorbed == 0 ==> after.barren_rounds == c.barren_rounds + 1
            &&& after.budget == c.budget
            &&& after.read_position == c.read_position
            &&& after.frontier_ts == c.frontier_ts
            &&& c.exhausted ==> after.exhausted
        }),
{
}

/// Why offsets are not there: they are gone where every partition starts behind
/// the last of them, they are still to come where every partition ends before the
/// first, and they are outside in all other cases.
pub proof fn law_why_offsets_are_missing(
    range: ReadRange,
    cursors: Seq<PartitionCursor>,
    first: i64,
    last: i64,
)
    requires
        range.from_offset is Some || range.to_offset is Some,
        range.from_offset is Some ==> first == range.from_offset->0,
        range.from_offset is None ==> first == last,
        range.to_offset is Some ==> last == range.to_offset->0,
        range.to_offset is None ==> first == last,
    ensures
        ({
            let gone = forall|i: int| 0 <= i < cursors.len() ==> last < (#[trigger] cursors[i]).low;
            let to_come = forall|i: int|
                0 <= i < cursors.len() ==> (#[trigger] cursors[i]).high <= first;
            missing_text(range, cursors) == range_text(range) + (if gone {
                " is no longer in the topic — retention or compaction dropped it ("@
            } else if to_come {
                " is not in the topic yet ("@
            } else {
                " is outside the topic ("@
            }) + bounds_text(cursors) + ")"@
        }),
{
    assert(all_start_after(cursors, last) == (forall|i: int|
        0 <= i < cursors.len() ==> last < (#[trigger] cursors[i]).low));
    assert(all_end_before(cursors, first) == (forall|i: int|
        0 <= i < cursors.len() ==> (#[trigger] cursors[i]).high <= first));
}

/// The bounds of a partition are named by its first offset and its last.
pub proof fn law_bounds_in_words(cursors: Seq<PartitionCursor>, c: PartitionCursor)
    requires
        c.low < c.high,
    ensures
        bounds_text(cursors.push(c)) == (if cursors.len() == 0 {
            Seq::empty()
        } else {
            bounds_text(cursors) + ", "@
        }) + ("partition "@ + signed_decimal(c.partition as int) + (" holds "@ + signed_decimal(
            c.low as int,
        ) + ".."@ + signed_decimal(c.high - 1))),
{
    assert(cursors.push(c).drop_last() =~= cursors);
    if cursors.len() == 0 {
        assert(Seq::<char>::empty() + bounds_of(c) =~= bounds_of(c));
    }
}

/// The offsets that were asked for, as they are named: one by its number, a range
/// by both ends, and an open one by the end that it has.
pub proof fn law_offsets_in_words(range: ReadRange, from: i64, to: i64)
    ensures
        range.from_offset == Some(from) && range.to_offset == Some(from) ==> range_text(range)
            == "offset "@ + signed_decimal(from as int),
        range.from_offset == Some(from) && range.to_offset == Some(to) && from != to ==> range_text(
            range,
        ) == "offsets "@ + signed_decimal(from as int) + ".."@ + signed_decimal(to as int),
        range.from_offset == Some(from) && range.to_offset is None ==> range_text(range)
            == "offsets from "@ + signed_decimal(from as int),
        range.from_offset is None && range.to_offset == Some(to) ==> range_text(range)
            == "offsets up to "@ + signed_decimal(to as int),
{
}

/// An inclusive bound becomes the offset behind it, and nothing changes for a
/// bound that is not there.
pub proof fn law_bounds_include_their_ends(inclusive: i64, offset: i64)
    ensures
        exclusive_of(None) is None,
        offset < i64::MAX ==> (offset < exclusive_of(Some(inclusive))->0 <==> offset <= inclusive),
{
}

proof fn lemma_first_foreign_at(selected: Seq<i32>, count: int, i: int)
    requires
        0 <= i < selected.len(),
        !(0 <= selected[i] < count),
        forall|k: int| 0 <= k < i ==> 0 <= #[trigger] selected[k] < count,
    ensures
        first_foreign(selected, count) == Some(selected[i]),
    decreases i,
{
    if i > 0 {
        assert(0 <= selected[0] < count);
        let rest = selected.drop_first();
        assert(rest[i - 1] == selected[i]);
        assert forall|k: int| 0 <= k < i - 1 implies 0 <= #[trigger] rest[k] < count by {
            assert(rest[k] == selected[k + 1]);
        }
        lemma_first_foreign_at(rest, count, i - 1);
    }
}

/// The first partition that was selected and is not there is named, together with
/// the number of those that are.
pub proof fn law_missing_partition_is_named(selected: Seq<i32>, count: int, i: int)
    requires
        0 <= i < selected.len(),
        !(0 <= selected[i] < count),
        forall|k: int| 0 <= k < i ==> 0 <= #[trigger] selected[k] < count,
    ensures
        selection(Some(selected), count) == Err::<Seq<i32>, Seq<char>>(
            "partition "@ + signed_decimal(selected[i] as int)
                + " is out of range; the topic has "@ + decimal(count as nat),
        ),
{
    lemma_first_foreign_at(selected, count, i);
}

} // verus!
