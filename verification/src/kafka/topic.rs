//! What a topic consists of, and how it is set.

use vstd::prelude::*;
use vstd::utf8::encode_utf8;

use crate::kafka::quota::TransferSample;
use crate::kafka::types::{PartitionDetails, TopicConfigEntry, TopicDetails};
use crate::sorting::{
    lemma_bytes_before, lemma_picked, lemma_rearranged_members, lemma_reordered_distinct, picked, reordered, sort_places, sort_texts,
    text_at_most, Ranking,
};

verus! {

/// How long the bounds of partitions are asked for, in milliseconds: whoever
/// looks at the settings of a topic does not wait for a count of messages.
pub const OFFSETS_BUDGET_MS: u64 = 2_000;

/// Whether there is time to ask for the bounds of one more partition.
pub fn may_ask_more(elapsed_ms: u64) -> (r: bool)
    ensures
        r == (elapsed_ms < 2_000),
{
    elapsed_ms < OFFSETS_BUDGET_MS
}

/// What the metadata of the cluster say of a partition.
#[derive(Debug, Clone, Copy)]
pub struct PartitionMeta {
    pub id: i32,
    pub leader: i32,
    pub replicas: usize,
    pub in_sync: usize,
}

/// The bounds that were found for a partition.
#[derive(Debug, Clone, Copy)]
pub struct PartitionBounds {
    pub id: i32,
    pub low: i64,
    /// Exclusive.
    pub high: i64,
}

/// The bounds of a partition, if they were found; the last ones count.
pub open spec fn bounds_of(bounds: Seq<PartitionBounds>, id: i32) -> Option<(i64, i64)>
    decreases bounds.len(),
{
    if bounds.len() == 0 {
        None
    } else if bounds.last().id == id {
        Some((bounds.last().low, bounds.last().high))
    } else {
        bounds_of(bounds.drop_last(), id)
    }
}

/// What is shown of a partition.
pub open spec fn details_of(meta: PartitionMeta, bounds: Seq<PartitionBounds>) -> PartitionDetails {
    let found = bounds_of(bounds, meta.id);
    PartitionDetails {
        id: meta.id,
        leader: meta.leader,
        replicas: meta.replicas,
        in_sync: meta.in_sync,
        low: match found {
            Some((low, _)) => Some(low),
            None => None,
        },
        high: match found {
            Some((_, high)) => Some(high),
            None => None,
        },
    }
}

pub open spec fn all_details(
    metas: Seq<PartitionMeta>,
    bounds: Seq<PartitionBounds>,
) -> Seq<PartitionDetails> {
    Seq::new(metas.len(), |i: int| details_of(metas[i], bounds))
}

/// The bounds of a partition are known.
pub open spec fn is_known(p: PartitionDetails) -> bool {
    p.low is Some && p.high is Some
}

/// How many messages the known bounds leave room for.
pub open spec fn room(p: PartitionDetails) -> int {
    if is_known(p) {
        p.high->0 - p.low->0
    } else {
        0
    }
}

pub open spec fn total_room(partitions: Seq<PartitionDetails>) -> int
    decreases partitions.len(),
{
    if partitions.len() == 0 {
        0
    } else {
        total_room(partitions.drop_last()) + room(partitions.last())
    }
}

pub open spec fn count_known(partitions: Seq<PartitionDetails>) -> nat {
    partitions.filter(|p: PartitionDetails| is_known(p)).len()
}

pub open spec fn count_lagging(partitions: Seq<PartitionDetails>) -> nat {
    partitions.filter(|p: PartitionDetails| p.in_sync < p.replicas).len()
}

/// The greatest number of replicas: partitions that were added later may have
/// another, and the lesser would lie about the topic as a whole.
pub open spec fn is_replication_factor(
    partitions: Seq<PartitionDetails>,
    factor: Option<usize>,
) -> bool {
    match factor {
        None => partitions.len() == 0,
        Some(m) => {
            &&& exists|i: int| 0 <= i < partitions.len() && (#[trigger] partitions[i]).replicas == m
            &&& forall|i: int|
                0 <= i < partitions.len() ==> (#[trigger] partitions[i]).replicas <= m
        },
    }
}

struct IdOrder<'a> {
    items: &'a Vec<PartitionDetails>,
}

pub open spec fn id_at_most(items: Seq<PartitionDetails>, a: usize, b: usize) -> bool {
    items[a as int].id < items[b as int].id || (items[a as int].id == items[b as int].id && a <= b)
}

impl<'a> Ranking for IdOrder<'a> {
    closed spec fn knows(&self, a: usize) -> bool {
        a < self.items@.len()
    }

    closed spec fn le(&self, a: usize, b: usize) -> bool {
        id_at_most(self.items@, a, b)
    }

    proof fn le_total(&self, a: usize, b: usize) {
    }

    proof fn le_transitive(&self, a: usize, b: usize, c: usize) {
    }

    fn at_most(&self, a: usize, b: usize) -> (r: bool) {
        self.items[a].id < self.items[b].id || (self.items[a].id == self.items[b].id && a <= b)
    }
}

/// The places of the partitions, ordered by number.
pub open spec fn by_number(items: Seq<PartitionDetails>, places: Seq<usize>) -> bool {
    &&& reordered(places, items.len())
    &&& forall|i: int, j: int|
        0 <= i < j < places.len() ==> id_at_most(items, #[trigger] places[i], #[trigger] places[j])
}

fn find_bounds(bounds: &Vec<PartitionBounds>, id: i32) -> (r: Option<(i64, i64)>)
    ensures
        r == bounds_of(bounds@, id),
{
    let mut i: usize = bounds.len();
    proof {
        assert(bounds@.take(i as int) =~= bounds@);
    }
    while i > 0
        invariant
            i <= bounds@.len(),
            bounds_of(bounds@, id) == bounds_of(bounds@.take(i as int), id),
        decreases i,
    {
        proof {
            assert(bounds@.take(i as int).drop_last() =~= bounds@.take(i - 1));
            assert(bounds@.take(i as int).last() == bounds@[i - 1]);
        }
        i -= 1;
        if bounds[i].id == id {
            return Some((bounds[i].low, bounds[i].high));
        }
    }
    None
}

/// What is shown of a topic: its partitions by number, and what they add up to.
pub open spec fn described(
    r: TopicDetails,
    topic: Seq<char>,
    metas: Seq<PartitionMeta>,
    bounds: Seq<PartitionBounds>,
    config: Result<Vec<TopicConfigEntry>, String>,
    sample: Option<TransferSample>,
) -> bool {
    let all = all_details(metas, bounds);
    &&& r.name@ == topic
    &&& exists|places: Seq<usize>| #[trigger] by_number(all, places) && r.partitions@ == picked(
        all,
        places,
    )
    &&& is_replication_factor(r.partitions@, r.replication_factor)
    &&& r.under_replicated == count_lagging(r.partitions@)
    &&& r.messages == (if count_known(r.partitions@) > 0 {
        Some(total_room(r.partitions@) as i64)
    } else {
        None
    })
    &&& r.offsets_partial == (count_known(r.partitions@) < metas.len())
    &&& match sample {
        Some(s) => r.sample_wire_bytes == Some(s.wire_bytes) && r.sample_messages == Some(
            s.messages,
        ) && r.sample_bytes == Some(s.message_bytes),
        None => r.sample_wire_bytes is None && r.sample_messages is None && r.sample_bytes is None,
    }
    &&& match config {
        Ok(entries) => r.config == entries && r.config_error is None,
        Err(e) => r.config@.len() == 0 && r.config_error == Some(e),
    }
}

/// How far the known bounds of a partition lie apart, whichever way round they
/// stand.
pub open spec fn spread(p: PartitionDetails) -> int {
    if room(p) < 0 {
        -room(p)
    } else {
        room(p)
    }
}

pub open spec fn total_spread(partitions: Seq<PartitionDetails>) -> int
    decreases partitions.len(),
{
    if partitions.len() == 0 {
        0
    } else {
        total_spread(partitions.drop_last()) + spread(partitions.last())
    }
}

/// What the bounds add up to can be counted in 64 bits.
pub open spec fn countable(metas: Seq<PartitionMeta>, bounds: Seq<PartitionBounds>) -> bool {
    total_spread(all_details(metas, bounds)) <= i64::MAX
}

proof fn lemma_spread_rearranged(a: Seq<PartitionDetails>, b: Seq<PartitionDetails>)
    requires
        a.to_multiset() == b.to_multiset(),
    ensures
        total_spread(a) == total_spread(b),
    decreases a.len(),
{
    broadcast use vstd::seq_lib::group_to_multiset_ensures;

    assert(a.len() == a.to_multiset().len() && b.len() == b.to_multiset().len());
    if a.len() > 0 {
        let x = a.last();
        lemma_rearranged_members(a, b);
        assert(a.contains(x));
        let j = choose|j: int| 0 <= j < b.len() && b[j] == x;
        let rest = b.remove(j);
        assert(rest.to_multiset() =~= b.to_multiset().remove(x));
        assert(a =~= a.drop_last().push(x));
        assert(a.drop_last().to_multiset() =~= a.to_multiset().remove(x));
        lemma_spread_rearranged(a.drop_last(), rest);
        lemma_spread_without(b, j);
    }
}

proof fn lemma_spread_without(s: Seq<PartitionDetails>, j: int)
    requires
        0 <= j < s.len(),
    ensures
        total_spread(s) == total_spread(s.remove(j)) + spread(s[j]),
    decreases s.len(),
{
    if j < s.len() - 1 {
        lemma_spread_without(s.drop_last(), j);
        assert(s.remove(j).drop_last() =~= s.drop_last().remove(j));
        assert(s.remove(j).last() == s.last());
    } else {
        assert(s.remove(j) =~= s.drop_last());
    }
}

/// What some of the partitions leave room for, and what one of them does, is
/// within what the bounds of all span.
proof fn lemma_spread_covers(s: Seq<PartitionDetails>, n: int)
    requires
        0 <= n <= s.len(),
    ensures
        -total_spread(s) <= total_room(s.take(n)) <= total_spread(s),
        n < s.len() ==> spread(s[n]) <= total_spread(s),
    decreases s.len(),
{
    if s.len() > 0 {
        let init = s.drop_last();
        if n < s.len() {
            assert(init.take(n) =~= s.take(n));
            lemma_spread_covers(init, n);
        } else {
            assert(s.take(n) =~= s);
            lemma_spread_covers(init, n - 1);
            assert(init.take(n - 1) =~= init);
        }
    } else {
        assert(s.take(n) =~= s);
    }
}

proof fn lemma_count_step(s: Seq<PartitionDetails>, n: int)
    requires
        0 <= n < s.len(),
    ensures
        count_known(s.take(n + 1)) == count_known(s.take(n)) + (if is_known(s[n]) {
            1int
        } else {
            0
        }),
        count_lagging(s.take(n + 1)) == count_lagging(s.take(n)) + (if s[n].in_sync
            < s[n].replicas {
            1int
        } else {
            0
        }),
        total_room(s.take(n + 1)) == total_room(s.take(n)) + room(s[n]),
{
    reveal(Seq::filter);
    assert(s.take(n + 1).drop_last() =~= s.take(n));
    assert(s.take(n + 1).last() == s[n]);
}

/// Puts together what is shown of a topic. `bounds` are those that could be
/// found in time; `config` are its settings, or why they could not be had: that
/// takes a right of its own, and its want takes nothing from the rest. `sample`
/// is what was transferred of the topic, if it is the open one.
pub fn describe_topic(
    topic: &str,
    metas: &Vec<PartitionMeta>,
    bounds: &Vec<PartitionBounds>,
    config: Result<Vec<TopicConfigEntry>, String>,
    sample: Option<TransferSample>,
) -> (r: TopicDetails)
    requires
        countable(metas@, bounds@),
    ensures
        described(r, topic@, metas@, bounds@, config, sample),
{
    let ghost all = all_details(metas@, bounds@);
    let mut details: Vec<PartitionDetails> = Vec::new();
    let mut i: usize = 0;
    while i < metas.len()
        invariant
            i <= metas@.len(),
            all == all_details(metas@, bounds@),
            details@ == all.take(i as int),
        decreases metas@.len() - i,
    {
        let meta = metas[i];
        let (low, high): (Option<i64>, Option<i64>) = match find_bounds(bounds, meta.id) {
            Some((low, high)) => (Some(low), Some(high)),
            None => (None, None),
        };
        details.push(
            PartitionDetails {
                id: meta.id,
                leader: meta.leader,
                replicas: meta.replicas,
                in_sync: meta.in_sync,
                low,
                high,
            },
        );
        proof {
            assert(all.take(i + 1) =~= all.take(i as int).push(all[i as int]));
            assert(details@[i as int] == all[i as int]);
        }
        i += 1;
    }
    proof {
        assert(all.take(i as int) =~= all);
    }
    let order = IdOrder { items: &details };
    let places = sort_places(&order, details.len());
    proof {
        assert forall|i: int, j: int| 0 <= i < j < places@.len() implies id_at_most(
            all,
            #[trigger] places@[i],
            #[trigger] places@[j],
        ) by {
            assert(order.le(places@[i], places@[j]));
        }
        assert(by_number(all, places@));
        lemma_picked(all, places@);
        lemma_spread_rearranged(picked(all, places@), all);
    }
    let ghost sorted = picked(all, places@);
    proof {
        assert(sorted.take(0) =~= Seq::empty());
        reveal(Seq::filter);
    }
    let mut partitions: Vec<PartitionDetails> = Vec::new();
    let mut factor: Option<usize> = None;
    let mut under_replicated: usize = 0;
    let mut known: usize = 0;
    let mut total: i64 = 0;
    i = 0;
    while i < places.len()
        invariant
            i <= places@.len(),
            details@ == all,
            by_number(all, places@),
            sorted == picked(all, places@),
            all == all_details(metas@, bounds@),
            countable(metas@, bounds@),
            total_spread(sorted) == total_spread(all),
            partitions@ == sorted.take(i as int),
            is_replication_factor(partitions@, factor),
            under_replicated == count_lagging(partitions@),
            under_replicated <= i,
            known == count_known(partitions@),
            known <= i,
            total == total_room(partitions@),
        decreases places@.len() - i,
    {
        let p = details[places[i]];
        proof {
            assert(p == sorted[i as int]);
            lemma_count_step(sorted, i as int);
            lemma_spread_covers(sorted, i + 1);
            lemma_spread_covers(sorted, i as int);
        }
        let ghost before = partitions@;
        let ghost before_factor = factor;
        factor = match factor {
            Some(m) if m >= p.replicas => Some(m),
            _ => Some(p.replicas),
        };
        if p.in_sync < p.replicas {
            under_replicated += 1;
        }
        if let (Some(low), Some(high)) = (p.low, p.high) {
            known += 1;
            total += high - low;
        }
        partitions.push(p);
        proof {
            assert(partitions@ =~= sorted.take(i + 1));
            assert(partitions@[i as int] == p);
            assert forall|k: int| 0 <= k < partitions@.len() implies (
            #[trigger] partitions@[k]).replicas <= factor->0 by {
                if k < i {
                    assert(before[k].replicas <= before_factor->0);
                }
            }
            if before_factor is Some && before_factor->0 >= p.replicas {
                let k = choose|k: int|
                    0 <= k < before.len() && (#[trigger] before[k]).replicas == before_factor->0;
                assert(partitions@[k].replicas == factor->0);
            } else {
                assert(partitions@[i as int].replicas == factor->0);
            }
        }
        i += 1;
    }
    proof {
        assert(sorted.take(i as int) =~= sorted);
    }
    let offsets_partial = known < partitions.len();
    let (sample_wire_bytes, sample_messages, sample_bytes): (
        Option<u64>,
        Option<u64>,
        Option<u64>,
    ) = match sample {
        Some(s) => (Some(s.wire_bytes), Some(s.messages), Some(s.message_bytes)),
        None => (None, None, None),
    };
    let (config, config_error) = match config {
        Ok(entries) => (entries, None),
        Err(e) => (Vec::new(), Some(e)),
    };
    TopicDetails {
        name: topic.to_owned(),
        replication_factor: factor,
        under_replicated,
        messages: if known > 0 {
            Some(total)
        } else {
            None
        },
        offsets_partial,
        sample_wire_bytes,
        sample_messages,
        sample_bytes,
        partitions,
        config,
        config_error,
    }
}

/// The names of settings.
pub open spec fn names_of(entries: Seq<TopicConfigEntry>) -> Seq<String> {
    Seq::new(entries.len(), |i: int| entries[i].name)
}

/// The places of settings, ordered by name. Those of the same name keep their
/// order.
pub open spec fn by_name(entries: Seq<TopicConfigEntry>, places: Seq<usize>) -> bool {
    &&& reordered(places, entries.len())
    &&& forall|i: int, j: int|
        0 <= i < j < places.len() ==> {
            &&& text_at_most(names_of(entries), #[trigger] places[i], #[trigger] places[j])
            &&& entries[places[i] as int].name@ == entries[places[j] as int].name@ ==> places[i]
                < places[j]
        }
}

/// Orders the settings of a topic by name: that is how they are looked for.
pub fn sort_config(entries: &Vec<TopicConfigEntry>) -> (r: Vec<TopicConfigEntry>)
    ensures
        exists|places: Seq<usize>| #[trigger] by_name(entries@, places) && r@ == picked(
            entries@,
            places,
        ),
{
    let mut names: Vec<String> = Vec::new();
    let mut i: usize = 0;
    while i < entries.len()
        invariant
            i <= entries@.len(),
            names@ == names_of(entries@).take(i as int),
        decreases entries@.len() - i,
    {
        names.push(entries[i].name.clone());
        proof {
            assert(names_of(entries@).take(i + 1) =~= names_of(entries@).take(i as int).push(
                names_of(entries@)[i as int],
            ));
        }
        i += 1;
    }
    proof {
        assert(names_of(entries@).take(i as int) =~= names_of(entries@));
    }
    let places = sort_texts(&names);
    proof {
        lemma_reordered_distinct(places@, entries@.len());
        assert forall|i: int, j: int| 0 <= i < j < places@.len() implies {
            &&& text_at_most(names_of(entries@), #[trigger] places@[i], #[trigger] places@[j])
            &&& entries@[places@[i] as int].name@ == entries@[places@[j] as int].name@
                ==> places@[i] < places@[j]
        } by {
            let x = encode_utf8(entries@[places@[i] as int].name@);
            lemma_bytes_before(x, x);
        }
        assert(by_name(entries@, places@));
    }
    let mut out: Vec<TopicConfigEntry> = Vec::new();
    i = 0;
    while i < places.len()
        invariant
            i <= places@.len(),
            reordered(places@, entries@.len()),
            out@ == picked(entries@, places@).take(i as int),
        decreases places@.len() - i,
    {
        let e = &entries[places[i]];
        out.push(
            TopicConfigEntry {
                name: e.name.clone(),
                value: e.value.clone(),
                is_default: e.is_default,
                is_read_only: e.is_read_only,
                is_sensitive: e.is_sensitive,
            },
        );
        proof {
            assert(picked(entries@, places@).take(i + 1) =~= picked(entries@, places@).take(
                i as int,
            ).push(picked(entries@, places@)[i as int]));
        }
        i += 1;
    }
    proof {
        assert(picked(entries@, places@).take(i as int) =~= picked(entries@, places@));
    }
    out
}

/// Ordering shows the same partitions that the cluster named, none lost and none
/// twice.
pub proof fn law_described_partitions_are_those_of_the_topic(
    r: TopicDetails,
    topic: Seq<char>,
    metas: Seq<PartitionMeta>,
    bounds: Seq<PartitionBounds>,
    config: Result<Vec<TopicConfigEntry>, String>,
    sample: Option<TransferSample>,
)
    requires
        described(r, topic, metas, bounds, config, sample),
        metas.len() <= usize::MAX,
    ensures
        r.partitions@.to_multiset() == all_details(metas, bounds).to_multiset(),
        forall|i: int, j: int|
            0 <= i < j < r.partitions@.len() ==> (#[trigger] r.partitions@[i]).id <= (
            #[trigger] r.partitions@[j]).id,
{
    let all = all_details(metas, bounds);
    let places = choose|places: Seq<usize>| #[trigger]
        by_number(all, places) && r.partitions@ == picked(all, places);
    lemma_picked(all, places);
    assert forall|i: int, j: int| 0 <= i < j < r.partitions@.len() implies (
    #[trigger] r.partitions@[i]).id <= (#[trigger] r.partitions@[j]).id by {
        assert(id_at_most(all, places[i], places[j]));
    }
}

proof fn lemma_bounds_of(bounds: Seq<PartitionBounds>, id: i32)
    ensures
        match bounds_of(bounds, id) {
            Some((low, high)) => exists|i: int|
                0 <= i < bounds.len() && (#[trigger] bounds[i]).id == id && bounds[i].low == low
                    && bounds[i].high == high && forall|j: int|
                    i < j < bounds.len() ==> (#[trigger] bounds[j]).id != id,
            None => forall|i: int| 0 <= i < bounds.len() ==> (#[trigger] bounds[i]).id != id,
        },
    decreases bounds.len(),
{
    if bounds.len() > 0 {
        let last = bounds.len() - 1;
        if bounds[last].id == id {
            assert(bounds[last].id == id);
        } else {
            let init = bounds.drop_last();
            lemma_bounds_of(init, id);
            if bounds_of(init, id) is Some {
                let (low, high) = bounds_of(init, id)->0;
                let i = choose|i: int|
                    0 <= i < init.len() && (#[trigger] init[i]).id == id && init[i].low == low
                        && init[i].high == high && forall|j: int|
                        i < j < init.len() ==> (#[trigger] init[j]).id != id;
                assert(bounds[i].id == id);
                assert forall|j: int| i < j < bounds.len() implies (#[trigger] bounds[j]).id
                    != id by {
                    if j < last {
                        assert(init[j] == bounds[j]);
                    }
                }
            } else {
                assert forall|i: int| 0 <= i < bounds.len() implies (#[trigger] bounds[i]).id
                    != id by {
                    if i < last {
                        assert(init[i] == bounds[i]);
                    }
                }
            }
        }
    }
}

/// A partition is shown with what the cluster says of it, and with the bounds
/// that were found for it, if any were.
pub proof fn law_partition_is_shown_with_its_bounds(
    meta: PartitionMeta,
    bounds: Seq<PartitionBounds>,
    k: int,
)
    ensures
        ({
            let d = details_of(meta, bounds);
            &&& d.id == meta.id
            &&& d.leader == meta.leader
            &&& d.replicas == meta.replicas
            &&& d.in_sync == meta.in_sync
            &&& (forall|i: int| 0 <= i < bounds.len() ==> (#[trigger] bounds[i]).id != meta.id)
                ==> d.low is None && d.high is None
            &&& 0 <= k < bounds.len() && bounds[k].id == meta.id && (forall|i: int|
                0 <= i < bounds.len() && i != k ==> (#[trigger] bounds[i]).id != meta.id) ==> d.low
                == Some(bounds[k].low) && d.high == Some(bounds[k].high)
        }),
{
    lemma_bounds_of(bounds, meta.id);
}

/// What partitions add up to: messages between the bounds that are known,
/// partitions whose bounds are, and partitions that lag behind their replicas.
pub proof fn law_partitions_add_up(partitions: Seq<PartitionDetails>, p: PartitionDetails)
    ensures
        total_room(Seq::<PartitionDetails>::empty()) == 0,
        count_known(Seq::<PartitionDetails>::empty()) == 0,
        count_lagging(Seq::<PartitionDetails>::empty()) == 0,
        p.low is Some && p.high is Some ==> total_room(partitions.push(p)) == total_room(partitions)
            + p.high->0 - p.low->0 && count_known(partitions.push(p)) == count_known(partitions) + 1,
        p.low is None || p.high is None ==> total_room(partitions.push(p)) == total_room(partitions)
            && count_known(partitions.push(p)) == count_known(partitions),
        p.in_sync < p.replicas ==> count_lagging(partitions.push(p)) == count_lagging(partitions)
            + 1,
        p.in_sync >= p.replicas ==> count_lagging(partitions.push(p)) == count_lagging(partitions),
{
    reveal(Seq::filter);
    let all = partitions.push(p);
    let n = partitions.len() as int;
    assert(all.take(n) =~= partitions);
    assert(all.take(n + 1) =~= all);
    lemma_count_step(all, n);
}

/// What is said of a topic as a whole follows from what is shown of it: the
/// greatest number of replicas, the messages between all bounds that are known,
/// and whether some are not.
pub proof fn law_topic_as_a_whole(
    r: TopicDetails,
    topic: Seq<char>,
    metas: Seq<PartitionMeta>,
    bounds: Seq<PartitionBounds>,
    config: Result<Vec<TopicConfigEntry>, String>,
    sample: Option<TransferSample>,
    k: int,
)
    requires
        described(r, topic, metas, bounds, config, sample),
        countable(metas, bounds),
        metas.len() <= usize::MAX,
        0 <= k < r.partitions@.len(),
    ensures
        r.name@ == topic,
        r.replication_factor is Some,
        r.partitions@[k].replicas <= r.replication_factor->0,
        exists|i: int|
            0 <= i < r.partitions@.len() && (#[trigger] r.partitions@[i]).replicas
                == r.replication_factor->0,
        r.under_replicated == count_lagging(r.partitions@),
        r.messages is None <==> count_known(r.partitions@) == 0,
        r.messages matches Some(n) ==> n == total_room(r.partitions@),
        r.offsets_partial <==> count_known(r.partitions@) < r.partitions@.len(),
        config is Err ==> r.config@.len() == 0 && r.config_error == Some(config->Err_0),
        config is Ok ==> r.config_error is None && r.config == config->Ok_0,
        sample matches Some(s) ==> r.sample_wire_bytes == Some(s.wire_bytes) && r.sample_messages
            == Some(s.messages) && r.sample_bytes == Some(s.message_bytes),
{
    let all = all_details(metas, bounds);
    law_described_partitions_are_those_of_the_topic(r, topic, metas, bounds, config, sample);
    broadcast use vstd::seq_lib::group_to_multiset_ensures;

    assert(r.partitions@.len() == r.partitions@.to_multiset().len());
    assert(all.len() == all.to_multiset().len());
    lemma_spread_rearranged(r.partitions@, all);
    let n = r.partitions@.len() as int;
    assert(r.partitions@.take(n) =~= r.partitions@);
    lemma_spread_covers(r.partitions@, n);
}

/// Settings are shown by name in the order of dictionaries: none comes before one
/// whose name is less, byte by byte.
pub proof fn law_settings_by_name(
    entries: Seq<TopicConfigEntry>,
    places: Seq<usize>,
    i: int,
    j: int,
    k: int,
)
    requires
        by_name(entries, places),
        0 <= i < j < places.len(),
    ensures
        ({
            let x = encode_utf8(picked(entries, places)[i].name@);
            let y = encode_utf8(picked(entries, places)[j].name@);
            &&& 0 <= k < x.len() && k < y.len() && x.take(k) == y.take(k) ==> x[k] <= y[k]
            &&& x.take(k) == y && 0 <= k < x.len() ==> false
        }),
{
    let x = encode_utf8(picked(entries, places)[i].name@);
    let y = encode_utf8(picked(entries, places)[j].name@);
    assert(text_at_most(names_of(entries), places[i], places[j]));
    crate::sorting::law_order_of_dictionaries(x, y);
    crate::sorting::law_order_of_dictionaries(y, x);
    if 0 <= k < x.len() && k < y.len() && x.take(k) == y.take(k) && x[k] > y[k] {
        assert(crate::sorting::parts_lower_at(y, x, k));
        lemma_bytes_before(y, x);
    }
    if x.take(k) == y && 0 <= k < x.len() {
        assert(y.take(k) =~= y);
        assert(crate::sorting::parts_lower_at(y, x, k));
        lemma_bytes_before(y, x);
    }
}

/// Settings of the same name keep the order in which they came, and all settings
/// are shown, each once.
pub proof fn law_settings_of_one_name_keep_their_order(
    entries: Seq<TopicConfigEntry>,
    places: Seq<usize>,
    i: int,
    j: int,
)
    requires
        by_name(entries, places),
        entries.len() <= usize::MAX,
        0 <= i < j < places.len(),
    ensures
        entries[places[i] as int].name@ == entries[places[j] as int].name@ ==> places[i]
            < places[j],
        picked(entries, places).to_multiset() == entries.to_multiset(),
{
    lemma_picked(entries, places);
}

} // verus!
