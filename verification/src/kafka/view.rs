//! What the table shows of the published messages: which rows, in which order,
//! and what stands in them.

use vstd::prelude::*;
use vstd::seq_lib::group_to_multiset_ensures;
use vstd::utf8::{encode_utf8, valid_utf8};

use crate::kafka::filter::{finds, Needle};
use crate::kafka::lens::{self, applied, text_view, LensMode};
use crate::kafka::store::{MessageStore, Stored};
use crate::kafka::text::{
    self, key_text, lossy, previewed, Decoded, DecodedBody, PREVIEW_BYTES,
};
use crate::kafka::types::{
    FullMessage, MessageFilter, MessageHeader, RawBody, RowPreview, SortColumn, SortDirection,
    SortSpec,
};
use crate::sorting::{
    bytes_before, bytes_precede, law_order_of_dictionaries, lemma_bytes_before,
    lemma_bytes_transitive, lemma_rearranged_members, parts_lower_at, sort_by_rank, Ranking,
};

verus! {

// ---------------------------------------------------------------------------
// Which rows
// ---------------------------------------------------------------------------
/// What is looked for.
pub struct Query {
    pub key: Seq<char>,
    pub value: Seq<char>,
    pub case_sensitive: bool,
    /// Look in the decoded body too.
    pub decode: bool,
}

/// Whether a message passes: its key matches, and its body does, in its bytes or
/// decoded.
pub open spec fn passes(q: Query, key: Seq<u8>, value: Seq<u8>, decoded: Option<Seq<char>>) -> bool {
    &&& finds(q.key, q.case_sensitive, key)
    &&& finds(q.value, q.case_sensitive, value) || (q.decode && decoded is Some && finds(
        q.value,
        q.case_sensitive,
        encode_utf8(decoded->0),
    ))
}

/// Whether only the decoded body can tell.
pub open spec fn undecided(q: Query, key: Seq<u8>, value: Seq<u8>) -> bool {
    q.decode && finds(q.key, q.case_sensitive, key) && !finds(q.value, q.case_sensitive, value)
}

/// What a filter asks for, where there is something to decode with or not. The
/// wish to look in the decoded body means nothing without a schema.
pub open spec fn query_of(filter: MessageFilter, has_decoder: bool) -> Query {
    Query {
        key: filter.key@,
        value: filter.value@,
        case_sensitive: filter.case_sensitive,
        decode: filter.search_decoded && has_decoder,
    }
}

/// A filter with its needles prepared, once for all messages.
pub struct PreparedFilter {
    key: Needle,
    value: Needle,
    decode_value: bool,
}

impl PreparedFilter {
    pub closed spec fn wf(&self) -> bool {
        &&& self.key.wf()
        &&& self.value.wf()
        &&& self.key.case_sensitive() == self.value.case_sensitive()
    }

    pub closed spec fn query(&self) -> Query {
        Query {
            key: self.key.query(),
            value: self.value.query(),
            case_sensitive: self.key.case_sensitive(),
            decode: self.decode_value,
        }
    }

    pub fn new(filter: &MessageFilter, has_decoder: bool) -> (r: Self)
        ensures
            r.wf(),
            r.query() == query_of(*filter, has_decoder),
    {
        PreparedFilter {
            key: Needle::new(filter.key.as_str(), filter.case_sensitive),
            value: Needle::new(filter.value.as_str(), filter.case_sensitive),
            decode_value: filter.search_decoded && has_decoder,
        }
    }

    /// Both needles are empty: nothing is filtered. Where to look is not part of
    /// the question.
    pub fn is_empty(&self) -> (r: bool)
        requires
            self.wf(),
        ensures
            r == (self.query().key.len() == 0 && self.query().value.len() == 0),
    {
        self.key.is_empty() && self.value.is_empty()
    }

    /// Whether only the decoded body can tell if a message passes. The bytes are
    /// searched first: most queries are found in them, and only a true miss has
    /// to be decoded.
    pub fn needs_decoding(&self, key: &[u8], value: &[u8]) -> (r: bool)
        requires
            self.wf(),
        ensures
            r == undecided(self.query(), key@, value@),
    {
        self.decode_value && self.key.matches(key) && !self.value.matches(value)
    }

    /// Whether a message passes; `decoded` is its decoded body, where there is
    /// one.
    pub fn matches(&self, key: &[u8], value: &[u8], decoded: Option<&str>) -> (r: bool)
        requires
            self.wf(),
        ensures
            r == passes(
                self.query(),
                key@,
                value@,
                match decoded {
                    Some(text) => Some(text@),
                    None => None,
                },
            ),
    {
        if !self.key.matches(key) {
            return false;
        }
        if self.value.matches(value) {
            return true;
        }
        if !self.decode_value {
            return false;
        }
        match decoded {
            Some(text) => self.value.matches(text.as_bytes()),
            None => false,
        }
    }
}

/// A decoded body is asked for only where it decides: everywhere else the answer
/// is the same without it.
pub proof fn law_decoding_only_where_it_decides(
    q: Query,
    key: Seq<u8>,
    value: Seq<u8>,
    decoded: Option<Seq<char>>,
)
    requires
        !undecided(q, key, value),
    ensures
        passes(q, key, value, decoded) == passes(q, key, value, None),
{
}

/// The decoded bodies of a run of messages.
pub open spec fn texts(decoded: Seq<Option<String>>) -> Seq<Option<Seq<char>>> {
    Seq::new(decoded.len(), |i: int| text_view(decoded[i]))
}

/// Which of the messages from `from` to `to` pass, in order. `decoded` holds
/// their decoded bodies, the first being that of the message at `from`.
pub open spec fn sifted(
    q: Query,
    messages: Seq<Stored>,
    decoded: Seq<Option<Seq<char>>>,
    from: int,
    to: int,
) -> Seq<usize>
    decreases to - from,
{
    if to <= from {
        Seq::empty()
    } else {
        let before = sifted(q, messages, decoded, from, to - 1);
        let m = messages[to - 1];
        if passes(q, m.key, m.value, decoded[to - 1 - from]) {
            before.push((to - 1) as usize)
        } else {
            before
        }
    }
}

/// Sifting in two runs gives what sifting in one gives.
pub proof fn law_sifting_in_runs(
    q: Query,
    messages: Seq<Stored>,
    decoded: Seq<Option<Seq<char>>>,
    from: int,
    middle: int,
    to: int,
)
    requires
        0 <= from <= middle <= to,
        decoded.len() == to - from,
    ensures
        sifted(q, messages, decoded, from, to) == sifted(
            q,
            messages,
            decoded.take(middle - from),
            from,
            middle,
        ) + sifted(q, messages, decoded.skip(middle - from), middle, to),
    decreases to - middle,
{
    let first = decoded.take(middle - from);
    let second = decoded.skip(middle - from);
    if to == middle {
        assert(first =~= decoded);
        assert(sifted(q, messages, first, from, middle) + Seq::<usize>::empty() =~= sifted(
            q,
            messages,
            first,
            from,
            middle,
        ));
    } else {
        let shorter = decoded.drop_last();
        law_sifting_in_runs(q, messages, shorter, from, middle, to - 1);
        assert(shorter.take(middle - from) =~= first);
        assert(shorter.skip(middle - from) =~= second.drop_last());
        lemma_sifted_prefix(q, messages, decoded, shorter, from, to - 1);
        lemma_sifted_prefix(q, messages, second, second.drop_last(), middle, to - 1);
        assert(decoded[to - 1 - from] == second[to - 1 - middle]);
        assert(sifted(q, messages, decoded, from, to) =~= sifted(q, messages, first, from, middle)
            + sifted(q, messages, second, middle, to));
    }
}

proof fn lemma_sifted_prefix(
    q: Query,
    messages: Seq<Stored>,
    a: Seq<Option<Seq<char>>>,
    b: Seq<Option<Seq<char>>>,
    from: int,
    to: int,
)
    requires
        0 <= from,
        to - from <= a.len(),
        to - from <= b.len(),
        forall|i: int| 0 <= i < to - from ==> a[i] == b[i],
    ensures
        sifted(q, messages, a, from, to) == sifted(q, messages, b, from, to),
    decreases to - from,
{
    if to > from {
        lemma_sifted_prefix(q, messages, a, b, from, to - 1);
    }
}

/// The rows that pass are below the end, in order, and not below the start.
proof fn lemma_sifted_bounds(
    q: Query,
    messages: Seq<Stored>,
    decoded: Seq<Option<Seq<char>>>,
    from: int,
    to: int,
)
    requires
        0 <= from,
        to <= usize::MAX,
    ensures
        forall|i: int|
            0 <= i < sifted(q, messages, decoded, from, to).len() ==> from <= #[trigger] sifted(
                q,
                messages,
                decoded,
                from,
                to,
            )[i] < to,
    decreases to - from,
{
    if to > from {
        lemma_sifted_bounds(q, messages, decoded, from, to - 1);
        let before = sifted(q, messages, decoded, from, to - 1);
        let all = sifted(q, messages, decoded, from, to);
        assert forall|i: int| 0 <= i < all.len() implies from <= #[trigger] all[i] < to by {
            if i < before.len() {
                assert(all[i] == before[i]);
            }
        }
    }
}

/// The messages whose decoded bodies have to be seen before they can be sifted.
pub fn undecided_rows(
    store: &MessageStore,
    prepared: &PreparedFilter,
    from: usize,
) -> (r: Vec<usize>)
    requires
        store.wf(),
        prepared.wf(),
    ensures
        forall|i: int|
            0 <= i < r@.len() ==> from <= #[trigger] r@[i] < store.published(),
        forall|i: int, j: int| 0 <= i < j < r@.len() ==> #[trigger] r@[i] < #[trigger] r@[j],
        forall|k: usize|
            from <= k < store.published() ==> (#[trigger] r@.contains(k) <==> undecided(
                prepared.query(),
                store.messages()[k as int].key,
                store.messages()[k as int].value,
            )),
{
    let mut out: Vec<usize> = Vec::new();
    let total: usize = store.committed_len();
    proof {
        store.lemma_bounds();
    }
    let mut i: usize = from;
    while i < total
        invariant
            store.wf(),
            prepared.wf(),
            total == store.published(),
            total <= store.messages().len(),
            from <= i,
            forall|k: int| 0 <= k < out@.len() ==> from <= #[trigger] out@[k] < i && out@[k] < total,
            forall|a: int, b: int|
                0 <= a < b < out@.len() ==> #[trigger] out@[a] < #[trigger] out@[b],
            forall|k: usize|
                from <= k < i && k < total ==> (#[trigger] out@.contains(k) <==> undecided(
                    prepared.query(),
                    store.messages()[k as int].key,
                    store.messages()[k as int].value,
                )),
        decreases total - i,
    {
        let ghost before = out@;
        if prepared.needs_decoding(store.key(i), store.value(i)) {
            out.push(i);
            proof {
                assert forall|k: usize|
                    from <= k < i + 1 && k < total implies (#[trigger] out@.contains(k)
                    <==> undecided(
                    prepared.query(),
                    store.messages()[k as int].key,
                    store.messages()[k as int].value,
                )) by {
                    if k == i {
                        assert(out@[before.len() as int] == k);
                    } else {
                        assert(before.contains(k) <==> out@.contains(k)) by {
                            if before.contains(k) {
                                let j = choose|j: int| 0 <= j < before.len() && before[j] == k;
                                assert(out@[j] == k);
                            }
                            if out@.contains(k) {
                                let j = choose|j: int| 0 <= j < out@.len() && out@[j] == k;
                                assert(before[j] == k);
                            }
                        }
                    }
                }
            }
        } else {
            proof {
                assert(!out@.contains(i)) by {
                    if out@.contains(i) {
                        let j = choose|j: int| 0 <= j < out@.len() && out@[j] == i;
                        assert(out@[j] < i);
                    }
                }
            }
        }
        i += 1;
    }
    out
}

/// Appends the published messages from `from` on that pass.
pub fn append_view(
    store: &MessageStore,
    prepared: &PreparedFilter,
    decoded: &Vec<Option<String>>,
    from: usize,
    view: &mut Vec<usize>,
)
    requires
        store.wf(),
        prepared.wf(),
        from <= store.published(),
        decoded@.len() == store.published() - from,
    ensures
        final(view)@ == old(view)@ + sifted(
            prepared.query(),
            store.messages(),
            texts(decoded@),
            from as int,
            store.published() as int,
        ),
{
    let total: usize = store.committed_len();
    proof {
        store.lemma_bounds();
        assert(view@ + Seq::<usize>::empty() =~= view@);
    }
    let mut i: usize = from;
    while i < total
        invariant
            store.wf(),
            prepared.wf(),
            total == store.published(),
            total <= store.messages().len(),
            from <= i <= total,
            decoded@.len() == total - from,
            view@ == old(view)@ + sifted(
                prepared.query(),
                store.messages(),
                texts(decoded@),
                from as int,
                i as int,
            ),
        decreases total - i,
    {
        let text: Option<&str> = match &decoded[i - from] {
            Some(s) => Some(s.as_str()),
            None => None,
        };
        let ghost before = view@;
        if prepared.matches(store.key(i), store.value(i), text) {
            view.push(i);
        }
        proof {
            let next = sifted(
                prepared.query(),
                store.messages(),
                texts(decoded@),
                from as int,
                i + 1,
            );
            assert(texts(decoded@)[i - from] == text_view(decoded@[i - from]));
            assert(view@ =~= old(view)@ + next);
        }
        i += 1;
    }
}

// ---------------------------------------------------------------------------
// In which order
// ---------------------------------------------------------------------------
/// A message comes before another by a column, upwards.
pub open spec fn column_before(column: SortColumn, a: Stored, b: Stored) -> bool {
    match column {
        SortColumn::Partition => a.partition < b.partition,
        SortColumn::Offset => a.offset < b.offset,
        SortColumn::Timestamp => a.timestamp < b.timestamp,
        SortColumn::Key => bytes_before(a.key, b.key),
    }
}

/// A message comes before another by the chosen column and direction.
pub open spec fn sort_before(sort: SortSpec, a: Stored, b: Stored) -> bool {
    match sort.direction {
        SortDirection::Asc => column_before(sort.column, a, b),
        SortDirection::Desc => column_before(sort.column, b, a),
    }
}

/// A row may stand above another: by the column, and where that is the same, by
/// the order of reading.
pub open spec fn row_at_most(sort: SortSpec, messages: Seq<Stored>, a: usize, b: usize) -> bool {
    sort_before(sort, messages[a as int], messages[b as int]) || (!sort_before(
        sort,
        messages[b as int],
        messages[a as int],
    ) && a <= b)
}

/// The rows of `view` are those of `rows`, in the chosen order.
pub open spec fn arranged(
    sort: SortSpec,
    messages: Seq<Stored>,
    rows: Seq<usize>,
    view: Seq<usize>,
) -> bool {
    &&& view.to_multiset() == rows.to_multiset()
    &&& forall|i: int, j: int|
        0 <= i < j < view.len() ==> row_at_most(
            sort,
            messages,
            #[trigger] view[i],
            #[trigger] view[j],
        )
}

pub open spec fn all_below(view: Seq<usize>, n: int) -> bool {
    forall|i: int| 0 <= i < view.len() ==> #[trigger] view[i] < n
}

proof fn lemma_sort_before(sort: SortSpec, a: Stored, b: Stored, c: Stored)
    ensures
        sort_before(sort, a, b) ==> !sort_before(sort, b, a),
        sort_before(sort, a, b) && sort_before(sort, b, c) ==> sort_before(sort, a, c),
        !sort_before(sort, b, a) && !sort_before(sort, c, b) ==> !sort_before(sort, c, a),
        sort_before(sort, a, b) && !sort_before(sort, c, b) ==> sort_before(sort, a, c),
        !sort_before(sort, b, a) && sort_before(sort, b, c) ==> sort_before(sort, a, c),
{
    lemma_bytes_before(a.key, b.key);
    lemma_bytes_before(b.key, c.key);
    lemma_bytes_before(a.key, c.key);
    if bytes_before(a.key, b.key) && bytes_before(b.key, c.key) {
        lemma_bytes_transitive(a.key, b.key, c.key);
    }
    if bytes_before(c.key, b.key) && bytes_before(b.key, a.key) {
        lemma_bytes_transitive(c.key, b.key, a.key);
    }
}

/// The order of rows by a column.
struct RowOrder<'a> {
    store: &'a MessageStore,
    sort: SortSpec,
}

impl<'a> Ranking for RowOrder<'a> {
    closed spec fn knows(&self, a: usize) -> bool {
        self.store.wf() && a < self.store.messages().len()
    }

    closed spec fn le(&self, a: usize, b: usize) -> bool {
        row_at_most(self.sort, self.store.messages(), a, b)
    }

    proof fn le_total(&self, a: usize, b: usize) {
        let m = self.store.messages();
        lemma_sort_before(self.sort, m[a as int], m[b as int], m[a as int]);
    }

    proof fn le_transitive(&self, a: usize, b: usize, c: usize) {
        let m = self.store.messages();
        lemma_sort_before(self.sort, m[a as int], m[b as int], m[c as int]);
        lemma_sort_before(self.sort, m[b as int], m[a as int], m[c as int]);
    }

    fn at_most(&self, a: usize, b: usize) -> (r: bool) {
        if self.precedes(a, b) {
            true
        } else {
            !self.precedes(b, a) && a <= b
        }
    }
}

impl<'a> RowOrder<'a> {
    fn precedes(&self, a: usize, b: usize) -> (r: bool)
        requires
            self.knows(a),
            self.knows(b),
        ensures
            r == sort_before(
                self.sort,
                self.store.messages()[a as int],
                self.store.messages()[b as int],
            ),
    {
        let (x, y): (usize, usize) = match self.sort.direction {
            SortDirection::Asc => (a, b),
            SortDirection::Desc => (b, a),
        };
        match (self.store.get(x), self.store.get(y)) {
            (Some(mx), Some(my)) => match self.sort.column {
                SortColumn::Partition => mx.partition < my.partition,
                SortColumn::Offset => mx.offset < my.offset,
                SortColumn::Timestamp => mx.timestamp < my.timestamp,
                SortColumn::Key => bytes_precede(self.store.key(x), self.store.key(y)),
            },
            _ => false,
        }
    }
}

/// Sorts the rows by a column. Rows with the same value keep the order of
/// reading.
pub fn sort_view(store: &MessageStore, view: &mut Vec<usize>, sort: SortSpec)
    requires
        store.wf(),
        all_below(old(view)@, store.messages().len() as int),
    ensures
        arranged(sort, store.messages(), old(view)@, final(view)@),
        all_below(final(view)@, store.messages().len() as int),
{
    let mut rows: Vec<usize> = Vec::new();
    let mut i: usize = 0;
    while i < view.len()
        invariant
            i <= view@.len(),
            rows@ == view@.take(i as int),
        decreases view@.len() - i,
    {
        rows.push(view[i]);
        proof {
            assert(view@.take(i + 1) =~= view@.take(i as int).push(view@[i as int]));
        }
        i += 1;
    }
    proof {
        assert(view@.take(i as int) =~= view@);
    }
    let order = RowOrder { store, sort };
    *view = sort_by_rank(&order, rows);
    proof {
        assert forall|i: int, j: int| 0 <= i < j < view@.len() implies row_at_most(
            sort,
            store.messages(),
            #[trigger] view@[i],
            #[trigger] view@[j],
        ) by {
            assert(order.le(view@[i], view@[j]));
        }
        assert forall|i: int| 0 <= i < view@.len() implies #[trigger] view@[i]
            < store.messages().len() by {
            assert(order.knows(view@[i]));
        }
    }
}

/// The rows after some were added: at the end, or sorted together with the rest
/// where a column is chosen.
pub open spec fn grown(
    sort: Option<SortSpec>,
    messages: Seq<Stored>,
    rows: Seq<usize>,
    view: Seq<usize>,
) -> bool {
    match sort {
        None => view == rows,
        Some(sort) => arranged(sort, messages, rows, view),
    }
}

/// Adds the rows of the messages that were published since `from`, and says up
/// to where the messages are sifted now.
pub fn grow_view(
    store: &MessageStore,
    prepared: &PreparedFilter,
    decoded: &Vec<Option<String>>,
    sort: Option<SortSpec>,
    from: usize,
    view: &mut Vec<usize>,
) -> (r: usize)
    requires
        store.wf(),
        prepared.wf(),
        from <= store.published(),
        decoded@.len() == store.published() - from,
        all_below(old(view)@, from as int),
    ensures
        r == store.published(),
        all_below(final(view)@, store.published() as int),
        grown(
            sort,
            store.messages(),
            old(view)@ + sifted(
                prepared.query(),
                store.messages(),
                texts(decoded@),
                from as int,
                store.published() as int,
            ),
            final(view)@,
        ),
{
    let total: usize = store.committed_len();
    proof {
        store.lemma_bounds();
        lemma_sifted_bounds(
            prepared.query(),
            store.messages(),
            texts(decoded@),
            from as int,
            total as int,
        );
    }
    append_view(store, prepared, decoded, from, view);
    let ghost rows = view@;
    proof {
        assert(all_below(rows, total as int));
    }
    if let Some(sort) = sort {
        sort_view(store, view, sort);
        proof {
            lemma_rearranged_members(view@, rows);
            assert forall|i: int| 0 <= i < view@.len() implies #[trigger] view@[i] < total by {
                assert(view@.contains(view@[i]));
                assert(rows.contains(view@[i]));
            }
        }
    }
    total
}

/// Two rows of one order that may each stand above the other are one row.
proof fn lemma_row_antisymmetric(sort: SortSpec, messages: Seq<Stored>, a: usize, b: usize)
    requires
        row_at_most(sort, messages, a, b),
        row_at_most(sort, messages, b, a),
    ensures
        a == b,
{
    lemma_sort_before(sort, messages[a as int], messages[b as int], messages[a as int]);
}

/// There is one way only to arrange rows: the order leaves nothing open.
pub proof fn law_arrangement_is_unique(
    sort: SortSpec,
    messages: Seq<Stored>,
    rows: Seq<usize>,
    one: Seq<usize>,
    other: Seq<usize>,
)
    requires
        arranged(sort, messages, rows, one),
        arranged(sort, messages, rows, other),
    ensures
        one == other,
    decreases rows.len(),
{
    broadcast use group_to_multiset_ensures;

    lemma_rearranged_members(one, rows);
    lemma_rearranged_members(other, rows);
    if one.len() == 0 {
        assert(one =~= other);
    } else {
        let n = one.len() - 1;
        let a = one[n];
        let b = other[n];
        assert(one.contains(a) && other.contains(b));
        assert(other.contains(a) && one.contains(b)) by {
            assert(rows.contains(a) && rows.contains(b));
        }
        let i = choose|i: int| 0 <= i < other.len() && other[i] == a;
        let j = choose|j: int| 0 <= j < one.len() && one[j] == b;
        if i < n && j < n {
            assert(row_at_most(sort, messages, a, b));
            assert(row_at_most(sort, messages, b, a));
            lemma_row_antisymmetric(sort, messages, a, b);
        }
        assert(a == b);
        let k = choose|k: int| 0 <= k < rows.len() && rows[k] == a;
        assert(rows.contains(a));
        let rest = rows.remove(k);
        assert(one =~= one.drop_last().push(a));
        assert(other =~= other.drop_last().push(a));
        assert(one.remove(n) =~= one.drop_last());
        assert(other.remove(n) =~= other.drop_last());
        assert(one.drop_last().to_multiset() =~= one.to_multiset().remove(a));
        assert(other.drop_last().to_multiset() =~= other.to_multiset().remove(a));
        assert(rest.to_multiset() =~= rows.to_multiset().remove(a));
        law_arrangement_is_unique(sort, messages, rest, one.drop_last(), other.drop_last());
        assert(one =~= other);
    }
}

/// A view that grows as messages are published shows the same rows in the same
/// order as one that is built anew from all of them.
pub proof fn law_growing_equals_rebuilding(
    sort: Option<SortSpec>,
    messages: Seq<Stored>,
    first: Seq<usize>,
    second: Seq<usize>,
    before: Seq<usize>,
    after: Seq<usize>,
    anew: Seq<usize>,
)
    requires
        grown(sort, messages, first, before),
        grown(sort, messages, before + second, after),
        grown(sort, messages, first + second, anew),
    ensures
        after == anew,
{
    match sort {
        None => {},
        Some(sort) => {
            vstd::seq_lib::lemma_multiset_commutative(before, second);
            vstd::seq_lib::lemma_multiset_commutative(first, second);
            assert((before + second).to_multiset() == (first + second).to_multiset());
            law_arrangement_is_unique(sort, messages, first + second, after, anew);
        },
    }
}

/// What is published later changes nothing in the order of the rows before it.
pub proof fn law_order_rests_on_the_rows_alone(
    sort: Option<SortSpec>,
    earlier: Seq<Stored>,
    later: Seq<Stored>,
    n: int,
    rows: Seq<usize>,
    view: Seq<usize>,
)
    requires
        0 <= n <= earlier.len(),
        n <= later.len(),
        earlier.take(n) == later.take(n),
        all_below(view, n),
        grown(sort, earlier, rows, view),
    ensures
        grown(sort, later, rows, view),
{
    if let Some(sort) = sort {
        assert forall|i: int, j: int| 0 <= i < j < view.len() implies row_at_most(
            sort,
            later,
            #[trigger] view[i],
            #[trigger] view[j],
        ) by {
            assert(row_at_most(sort, earlier, view[i], view[j]));
            assert(earlier[view[i] as int] == earlier.take(n)[view[i] as int]);
            assert(later[view[i] as int] == later.take(n)[view[i] as int]);
            assert(earlier[view[j] as int] == earlier.take(n)[view[j] as int]);
            assert(later[view[j] as int] == later.take(n)[view[j] as int]);
        }
    }
}

/// Of two rows the upper one has the lesser number, or the greater one where the
/// order goes down; of equal ones the upper was read first.
pub open spec fn ordered_by(direction: SortDirection, upper: int, lower: int, read_first: bool) -> bool {
    match direction {
        SortDirection::Asc => upper < lower || (upper == lower && read_first),
        SortDirection::Desc => upper > lower || (upper == lower && read_first),
    }
}

/// A sorted table is ordered by what its column shows: upwards the smallest
/// number or the first key in a dictionary is on top, downwards the greatest or
/// the last. Rows that show the same stand in the order of reading.
pub proof fn law_table_is_ordered_by_its_column(
    sort: SortSpec,
    messages: Seq<Stored>,
    rows: Seq<usize>,
    view: Seq<usize>,
    i: int,
    j: int,
)
    requires
        arranged(sort, messages, rows, view),
        0 <= i < j < view.len(),
    ensures
        ({
            let upper = messages[view[i] as int];
            let lower = messages[view[j] as int];
            let first = view[i] <= view[j];
            match sort.column {
                SortColumn::Partition => ordered_by(
                    sort.direction,
                    upper.partition as int,
                    lower.partition as int,
                    first,
                ),
                SortColumn::Offset => ordered_by(
                    sort.direction,
                    upper.offset as int,
                    lower.offset as int,
                    first,
                ),
                SortColumn::Timestamp => ordered_by(
                    sort.direction,
                    upper.timestamp as int,
                    lower.timestamp as int,
                    first,
                ),
                SortColumn::Key => (upper.key == lower.key && first) || (match sort.direction {
                    SortDirection::Asc => exists|k: int| #[trigger]
                        parts_lower_at(upper.key, lower.key, k),
                    SortDirection::Desc => exists|k: int| #[trigger]
                        parts_lower_at(lower.key, upper.key, k),
                }),
            }
        }),
{
    let upper = messages[view[i] as int];
    let lower = messages[view[j] as int];
    assert(row_at_most(sort, messages, view[i], view[j]));
    lemma_bytes_before(upper.key, lower.key);
    law_order_of_dictionaries(upper.key, lower.key);
    law_order_of_dictionaries(lower.key, upper.key);
}

/// The table has a row for every message that passes, once, and for no other;
/// without a column they stand in the order of reading.
pub proof fn law_table_shows_what_passes(
    q: Query,
    messages: Seq<Stored>,
    decoded: Seq<Option<Seq<char>>>,
    from: int,
    to: int,
    sort: Option<SortSpec>,
    view: Seq<usize>,
    k: usize,
)
    requires
        0 <= from <= to <= usize::MAX,
        grown(sort, messages, sifted(q, messages, decoded, from, to), view),
    ensures
        view.no_duplicates(),
        view.contains(k) <==> from <= k < to && passes(
            q,
            messages[k as int].key,
            messages[k as int].value,
            decoded[k - from],
        ),
        sort is None ==> forall|i: int, j: int|
            0 <= i < j < view.len() ==> #[trigger] view[i] < #[trigger] view[j],
{
    let rows = sifted(q, messages, decoded, from, to);
    lemma_sifted_rows(q, messages, decoded, from, to, k);
    if sort is Some {
        lemma_rearranged_members(rows, view);
    }
}

proof fn lemma_sifted_rows(
    q: Query,
    messages: Seq<Stored>,
    decoded: Seq<Option<Seq<char>>>,
    from: int,
    to: int,
    k: usize,
)
    requires
        0 <= from <= to <= usize::MAX,
    ensures
        ({
            let rows = sifted(q, messages, decoded, from, to);
            &&& forall|i: int, j: int|
                0 <= i < j < rows.len() ==> #[trigger] rows[i] < #[trigger] rows[j]
            &&& forall|i: int| 0 <= i < rows.len() ==> from <= #[trigger] rows[i] < to
            &&& rows.contains(k) <==> from <= k < to && passes(
                q,
                messages[k as int].key,
                messages[k as int].value,
                decoded[k - from],
            )
        }),
    decreases to - from,
{
    if from < to {
        lemma_sifted_rows(q, messages, decoded, from, to - 1, k);
        let before = sifted(q, messages, decoded, from, to - 1);
        let rows = sifted(q, messages, decoded, from, to);
        if rows.len() > before.len() {
            assert(rows == before.push((to - 1) as usize));
            assert(rows[before.len() as int] == to - 1);
            if before.contains(k) {
                let i = choose|i: int| 0 <= i < before.len() && before[i] == k;
                assert(rows[i] == k);
            }
        }
    }
}

/// A filter asks for the key and for the body. A body passes by its bytes; by its
/// decoded form it passes only where that was asked for and there is something to
/// decode with. A filter that asks for nothing lets everything pass.
pub proof fn law_filter_asks_for_key_and_body(
    filter: MessageFilter,
    has_decoder: bool,
    key: Seq<u8>,
    value: Seq<u8>,
    decoded: Option<Seq<char>>,
)
    ensures
        ({
            let passed = passes(query_of(filter, has_decoder), key, value, decoded);
            let by_key = finds(filter.key@, filter.case_sensitive, key);
            let by_bytes = finds(filter.value@, filter.case_sensitive, value);
            let by_text = decoded is Some && finds(
                filter.value@,
                filter.case_sensitive,
                encode_utf8(decoded->0),
            );
            &&& passed ==> by_key && (by_bytes || by_text)
            &&& by_key && by_bytes ==> passed
            &&& by_key && by_text && filter.search_decoded && has_decoder ==> passed
            &&& passed && !by_bytes ==> filter.search_decoded && has_decoder
            &&& filter.key@.len() == 0 && filter.value@.len() == 0 ==> passed
        }),
{
}

// ---------------------------------------------------------------------------
// What stands in a row
// ---------------------------------------------------------------------------
/// What came of decoding the key and the body of one row.
pub struct RowTexts {
    pub key: Decoded,
    pub value: Decoded,
}

/// The body that a row is made from: decoded, or its bytes.
pub open spec fn shown_body(value: Seq<u8>, decoded: Decoded) -> Seq<u8> {
    match decoded {
        Some(Ok(json)) => encode_utf8(json@),
        _ => value,
    }
}

/// A row shows a message: a short key and a short body, the body seen through
/// the lens where that finds an envelope.
pub open spec fn shows(
    row: RowPreview,
    index: int,
    m: Stored,
    texts: RowTexts,
    mode: LensMode,
) -> bool {
    let body = shown_body(m.value, texts.value);
    let (tag, inner) = applied(mode, body);
    &&& row.index == index
    &&& row.partition == m.partition
    &&& row.offset == m.offset
    &&& row.timestamp == m.timestamp
    &&& row.key@ == previewed(encode_utf8(key_text(texts.key, m.key)), PREVIEW_BYTES as int)
    &&& row.preview@ == (match inner {
        Some(text) => previewed(encode_utf8(text), PREVIEW_BYTES as int),
        None => previewed(body, PREVIEW_BYTES as int),
    })
    &&& row.value_size == m.value.len()
    &&& row.binary == (!(texts.value matches Some(Ok(_))) && !valid_utf8(m.value))
    &&& row.decode_error == (match texts.value {
        Some(Err(e)) => Some(e),
        _ => None,
    })
    &&& text_view(row.lens_tag) == tag
}

/// Makes one row.
pub fn row(
    store: &MessageStore,
    i: usize,
    index: usize,
    texts: RowTexts,
    mode: LensMode,
) -> (r: Option<RowPreview>)
    requires
        store.wf(),
    ensures
        r is Some <==> i < store.messages().len(),
        r matches Some(row) ==> shows(row, index as int, store.messages()[i as int], texts, mode),
{
    let meta = match store.get(i) {
        Some(meta) => meta,
        None => return None,
    };
    let value = store.value(i);
    let shown = text::render(texts.value);
    let body: &[u8] = match &shown.decoded {
        Some(json) => json.as_str().as_bytes(),
        None => value,
    };
    let lensed = lens::apply(mode, body);
    let key = text::key(texts.key, store.key(i));
    let preview = match &lensed.preview {
        Some(inner) => text::preview(inner.as_str().as_bytes(), PREVIEW_BYTES),
        None => text::preview(body, PREVIEW_BYTES),
    };
    let binary = shown.binary(value);
    Some(
        RowPreview {
            index,
            partition: meta.partition,
            offset: meta.offset,
            timestamp: meta.timestamp,
            key: text::preview(key.as_str().as_bytes(), PREVIEW_BYTES),
            preview,
            value_size: value.len(),
            binary,
            decode_error: shown.error,
            lens_tag: lensed.tag,
        },
    )
}

/// Where a window of the table ends.
pub open spec fn window_end(view: Seq<usize>, start: int, count: int) -> int {
    if start + count < view.len() {
        start + count
    } else {
        view.len() as int
    }
}

/// The messages behind a window of the table: what has to be decoded for it.
pub fn window_rows(view: &Vec<usize>, start: usize, count: usize) -> (r: Vec<usize>)
    ensures
        start < window_end(view@, start as int, count as int) ==> r@ == view@.subrange(
            start as int,
            window_end(view@, start as int, count as int),
        ),
        start >= window_end(view@, start as int, count as int) ==> r@.len() == 0,
{
    let mut out: Vec<usize> = Vec::new();
    let total: usize = view.len();
    if start >= total {
        return out;
    }
    let end: usize = if count < total - start {
        start + count
    } else {
        total
    };
    let mut i: usize = start;
    while i < end
        invariant
            start <= i <= end <= view@.len(),
            out@ == view@.subrange(start as int, i as int),
        decreases end - i,
    {
        out.push(view[i]);
        proof {
            assert(view@.subrange(start as int, i + 1) =~= view@.subrange(start as int, i as int).push(
                view@[i as int],
            ));
        }
        i += 1;
    }
    out
}

/// Exactly what is on the screen, not the whole buffer. `texts` holds what came
/// of decoding the rows of the window.
pub fn window(
    store: &MessageStore,
    view: &Vec<usize>,
    start: usize,
    count: usize,
    texts: Vec<RowTexts>,
    mode: LensMode,
) -> (r: Vec<RowPreview>)
    requires
        store.wf(),
        all_below(view@, store.messages().len() as int),
        texts@.len() == (if start < window_end(view@, start as int, count as int) {
            window_end(view@, start as int, count as int) - start
        } else {
            0
        }),
    ensures
        r@.len() == texts@.len(),
        forall|k: int|
            0 <= k < r@.len() ==> shows(
                #[trigger] r@[k],
                start + k,
                store.messages()[view@[start + k] as int],
                texts@[k],
                mode,
            ),
{
    let mut out: Vec<RowPreview> = Vec::new();
    let rows = window_rows(view, start, count);
    let mut texts = texts;
    let ghost all = texts@;
    let n: usize = rows.len();
    let mut k: usize = 0;
    proof {
        assert(all.skip(0) =~= all);
    }
    while k < n
        invariant
            store.wf(),
            all_below(view@, store.messages().len() as int),
            n == rows@.len(),
            n == all.len(),
            n > 0 ==> start + n <= view@.len() && rows@ == view@.subrange(
                start as int,
                start + n,
            ),
            k <= n,
            texts@ == all.skip(k as int),
            out@.len() == k,
            forall|j: int|
                0 <= j < k ==> shows(
                    #[trigger] out@[j],
                    start + j,
                    store.messages()[view@[start + j] as int],
                    all[j],
                    mode,
                ),
        decreases n - k,
    {
        let text = texts.remove(0);
        proof {
            assert(texts@ =~= all.skip(k + 1));
            assert(rows@[k as int] == view@[start + k]);
            assert(view@.len() <= view.len());
        }
        match row(store, rows[k], start + k, text, mode) {
            Some(made) => out.push(made),
            None => {},
        }
        k += 1;
    }
    out
}

/// Headers as they are shown.
pub open spec fn headers_shown(
    shown: Seq<MessageHeader>,
    headers: Seq<(Seq<char>, Seq<u8>)>,
) -> bool {
    &&& shown.len() == headers.len()
    &&& forall|i: int|
        0 <= i < shown.len() ==> (#[trigger] shown[i]).key@ == headers[i].0 && shown[i].value@ == lossy(
            headers[i].1,
        )
}

fn show_headers(store: &MessageStore, i: usize) -> (r: Vec<MessageHeader>)
    requires
        store.wf(),
        i < store.messages().len(),
    ensures
        headers_shown(r@, store.messages()[i as int].headers),
{
    let headers = store.headers(i);
    let ghost wanted = store.messages()[i as int].headers;
    let mut out: Vec<MessageHeader> = Vec::new();
    let mut k: usize = 0;
    while k < headers.len()
        invariant
            k <= headers@.len(),
            wanted == crate::kafka::store::headers_view(headers@),
            out@.len() == k,
            forall|j: int|
                0 <= j < k ==> (#[trigger] out@[j]).key@ == wanted[j].0 && out@[j].value@ == lossy(
                    wanted[j].1,
                ),
        decreases headers@.len() - k,
    {
        let (name, value) = headers[k];
        out.push(MessageHeader { key: name.to_owned(), value: text::decode(value) });
        k += 1;
    }
    out
}

/// A whole message shows what is stored: decoded, or its bytes as text.
pub open spec fn full_shows(
    full: FullMessage,
    m: Stored,
    decoded: DecodedBody,
    key: Decoded,
) -> bool {
    &&& full.partition == m.partition
    &&& full.offset == m.offset
    &&& full.timestamp == m.timestamp
    &&& full.key@ == key_text(key, m.key)
    &&& full.value_size == m.value.len()
    &&& headers_shown(full.headers@, m.headers)
    &&& match decoded {
        Some(Ok((value, enums))) => full.value == value && full.enum_values == enums
            && !full.binary && full.decode_error is None,
        Some(Err(e)) => full.value@ == lossy(m.value) && full.enum_values@.len() == 0
            && full.binary == !valid_utf8(m.value) && full.decode_error == Some(e),
        None => full.value@ == lossy(m.value) && full.enum_values@.len() == 0 && full.binary
            == !valid_utf8(m.value) && full.decode_error is None,
    }
}

/// A raw message holds what is stored, byte for byte.
pub open spec fn raw_holds(raw: RawBody, m: Stored, key: Decoded) -> bool {
    &&& raw.partition == m.partition
    &&& raw.offset == m.offset
    &&& raw.timestamp == m.timestamp
    &&& raw.key@ == key_text(key, m.key)
    &&& raw.value@ == m.value
    &&& headers_shown(raw.headers@, m.headers)
}

/// A whole message for reading, made of a row of the table; `decoded` and `key`
/// are what came of decoding it.
pub fn body(
    store: &MessageStore,
    view: &Vec<usize>,
    view_index: usize,
    decoded: DecodedBody,
    key: Decoded,
) -> (r: Result<FullMessage, String>)
    requires
        store.wf(),
        all_below(view@, store.messages().len() as int),
    ensures
        match r {
            Ok(full) => view_index < view@.len() && full_shows(
                full,
                store.messages()[view@[view_index as int] as int],
                decoded,
                key,
            ),
            Err(e) => view_index >= view@.len() && e@ == "message index out of range"@,
        },
{
    if view_index >= view.len() {
        return Err("message index out of range".to_owned());
    }
    let i: usize = view[view_index];
    match store.get(i) {
        None => Err("message index out of range".to_owned()),
        Some(meta) => {
            let value = store.value(i);
            let shown = text::body(decoded, value);
            Ok(
                FullMessage {
                    partition: meta.partition,
                    offset: meta.offset,
                    timestamp: meta.timestamp,
                    key: text::key(key, store.key(i)),
                    value: shown.value,
                    value_size: value.len(),
                    binary: shown.binary,
                    decode_error: shown.decode_error,
                    enum_values: shown.enum_values,
                    headers: show_headers(store, i),
                },
            )
        },
    }
}

/// A message as it came, made of a row of the table: the body in raw bytes,
/// without any schema. What is saved must be the data, not the way it was shown.
pub fn raw(
    store: &MessageStore,
    view: &Vec<usize>,
    view_index: usize,
    key: Decoded,
) -> (r: Result<RawBody, String>)
    requires
        store.wf(),
        all_below(view@, store.messages().len() as int),
    ensures
        match r {
            Ok(raw) => view_index < view@.len() && raw_holds(
                raw,
                store.messages()[view@[view_index as int] as int],
                key,
            ),
            Err(e) => view_index >= view@.len() && e@ == "message index out of range"@,
        },
{
    if view_index >= view.len() {
        return Err("message index out of range".to_owned());
    }
    let i: usize = view[view_index];
    match store.get(i) {
        None => Err("message index out of range".to_owned()),
        Some(meta) => Ok(
            RawBody {
                partition: meta.partition,
                offset: meta.offset,
                timestamp: meta.timestamp,
                key: text::key(key, store.key(i)),
                value: vstd::slice::slice_to_vec(store.value(i)),
                headers: show_headers(store, i),
            },
        ),
    }
}

/// A message comes from a place in the topic.
pub open spec fn comes_from(m: Stored, partition: i32, offset: i64) -> bool {
    m.partition == partition && m.offset == offset
}

/// In which row a message stands: the first one, if any.
pub fn find_message(
    store: &MessageStore,
    view: &Vec<usize>,
    partition: i32,
    offset: i64,
) -> (r: Option<usize>)
    requires
        store.wf(),
        all_below(view@, store.messages().len() as int),
    ensures
        match r {
            Some(at) => {
                &&& at < view@.len()
                &&& comes_from(store.messages()[view@[at as int] as int], partition, offset)
                &&& forall|i: int|
                    0 <= i < at ==> !comes_from(
                        store.messages()[#[trigger] view@[i] as int],
                        partition,
                        offset,
                    )
            },
            None => forall|i: int|
                0 <= i < view@.len() ==> !comes_from(
                    store.messages()[#[trigger] view@[i] as int],
                    partition,
                    offset,
                ),
        },
{
    let mut i: usize = 0;
    while i < view.len()
        invariant
            i <= view@.len(),
            store.wf(),
            all_below(view@, store.messages().len() as int),
            forall|k: int|
                0 <= k < i ==> !comes_from(
                    store.messages()[#[trigger] view@[k] as int],
                    partition,
                    offset,
                ),
        decreases view@.len() - i,
    {
        if let Some(meta) = store.get(view[i]) {
            if meta.partition == partition && meta.offset == offset {
                return Some(i);
            }
        }
        i += 1;
    }
    None
}

// ---------------------------------------------------------------------------
// What is shown is what is stored
// ---------------------------------------------------------------------------
/// A character that is shown as it is.
pub open spec fn printable(c: char) -> bool {
    ' ' <= c <= '~' || c as u32 >= 0xa0
}

/// A text that fits into a row and is shown there as it is.
pub open spec fn fits_a_row(text: Seq<char>) -> bool {
    encode_utf8(text).len() <= 256 && forall|k: int| 0 <= k < text.len() ==> printable(
        #[trigger] text[k],
    )
}

proof fn lemma_fits_a_row(text: Seq<char>)
    requires
        fits_a_row(text),
    ensures
        previewed(encode_utf8(text), PREVIEW_BYTES as int) == text,
{
    vstd::utf8::encode_utf8_valid_utf8(text);
    vstd::utf8::encode_utf8_decode_utf8(text);
    let shown = previewed(encode_utf8(text), PREVIEW_BYTES as int);
    assert forall|k: int| 0 <= k < text.len() implies shown[k] == text[k] by {
        assert(printable(text[k]));
    }
    assert(shown =~= text);
}

/// A row shows the message that it stands for: where it comes from, how large it
/// is, and its key and its body as they are stored, where they are short texts and
/// there is neither a schema nor a lens.
pub proof fn law_row_shows_its_message(
    row: RowPreview,
    index: int,
    m: Stored,
    texts: RowTexts,
    key: Seq<char>,
    body: Seq<char>,
)
    requires
        shows(row, index, m, texts, LensMode::Off),
        texts.key is None,
        texts.value is None,
        m.key == encode_utf8(key),
        m.value == encode_utf8(body),
        fits_a_row(key),
        fits_a_row(body),
    ensures
        row.index == index,
        row.partition == m.partition,
        row.offset == m.offset,
        row.timestamp == m.timestamp,
        row.key@ == key,
        row.preview@ == body,
        row.value_size == m.value.len(),
        !row.binary,
        row.decode_error is None,
        row.lens_tag is None,
{
    vstd::utf8::encode_utf8_valid_utf8(key);
    vstd::utf8::encode_utf8_decode_utf8(key);
    vstd::utf8::encode_utf8_valid_utf8(body);
    lemma_fits_a_row(key);
    lemma_fits_a_row(body);
}

/// A row of a decoded message shows what it was decoded to, and is not called
/// binary; one that could not be decoded shows its bytes and the reason. The size
/// is that of the bytes in any case.
pub proof fn law_row_shows_what_was_decoded(
    row: RowPreview,
    index: int,
    m: Stored,
    texts: RowTexts,
    body: Seq<char>,
)
    requires
        shows(row, index, m, texts, LensMode::Off),
        texts.value is Some,
        fits_a_row(body),
        match texts.value->0 {
            Ok(json) => json@ == body,
            Err(_) => m.value == encode_utf8(body),
        },
    ensures
        row.preview@ == body,
        !row.binary,
        row.value_size == m.value.len(),
        texts.value->0 matches Ok(_) ==> row.decode_error is None,
        texts.value->0 matches Err(e) ==> row.decode_error == Some(e),
{
    vstd::utf8::encode_utf8_valid_utf8(body);
    lemma_fits_a_row(body);
}

/// A row that a lens sees through shows what the lens found, and its mark.
pub proof fn law_row_shows_through_the_lens(
    row: RowPreview,
    index: int,
    m: Stored,
    texts: RowTexts,
    mode: LensMode,
    tag: Option<Seq<char>>,
    inner: Seq<char>,
)
    requires
        shows(row, index, m, texts, mode),
        texts.value is None,
        applied(mode, m.value) == (tag, Some(inner)),
        fits_a_row(inner),
    ensures
        row.preview@ == inner,
        text_view(row.lens_tag) == tag,
{
    lemma_fits_a_row(inner);
}

/// A message that is opened, and one that is taken out for keeping, holds every
/// byte of what is stored. Bytes that are no text are called binary.
pub proof fn law_opened_message_is_the_stored_one(
    full: FullMessage,
    raw: RawBody,
    m: Stored,
    key: Seq<char>,
    i: int,
)
    requires
        full_shows(full, m, None, None),
        raw_holds(raw, m, None),
        m.key == encode_utf8(key),
    ensures
        full.partition == m.partition && raw.partition == m.partition,
        full.offset == m.offset && raw.offset == m.offset,
        full.timestamp == m.timestamp && raw.timestamp == m.timestamp,
        full.key@ == key && raw.key@ == key,
        raw.value@ == m.value,
        full.value_size == m.value.len(),
        full.binary <==> !valid_utf8(m.value),
        valid_utf8(m.value) ==> encode_utf8(full.value@) == m.value,
        full.headers@.len() == m.headers.len() && raw.headers@.len() == m.headers.len(),
        0 <= i < m.headers.len() ==> full.headers@[i].key@ == m.headers[i].0
            && raw.headers@[i].key@ == m.headers[i].0,
        0 <= i < m.headers.len() && valid_utf8(m.headers[i].1) ==> encode_utf8(full.headers@[i].value@) == m.headers[i].1
            && encode_utf8(raw.headers@[i].value@) == m.headers[i].1,
{
    vstd::utf8::encode_utf8_valid_utf8(key);
    vstd::utf8::encode_utf8_decode_utf8(key);
    if valid_utf8(m.value) {
        vstd::utf8::decode_utf8_encode_utf8(m.value);
    }
    if 0 <= i < m.headers.len() {
        if valid_utf8(m.headers[i].1) {
            vstd::utf8::decode_utf8_encode_utf8(m.headers[i].1);
        }
        assert(full.headers@[i].key@ == m.headers[i].0);
        assert(raw.headers@[i].key@ == m.headers[i].0);
    }
}

/// A window of the table has as many rows as were asked for, or as many as there
/// are from its start on.
pub proof fn law_window_has_what_was_asked_for(view: Seq<usize>, start: int, count: int)
    requires
        0 <= start <= view.len(),
        0 <= count,
    ensures
        start + count <= view.len() ==> window_end(view, start, count) == start + count,
        start + count >= view.len() ==> window_end(view, start, count) == view.len(),
{
}

/// A message is found by its partition and its offset, and by nothing else.
pub proof fn law_message_is_known_by_its_place(m: Stored, partition: i32, offset: i64)
    ensures
        comes_from(m, partition, offset) <==> m.partition == partition && m.offset == offset,
{
}

/// Where the decoded body is asked for, it decides alone: the message passes with
/// it exactly where the query is found in it, and not without it.
pub proof fn law_decoded_body_decides(
    q: Query,
    key: Seq<u8>,
    value: Seq<u8>,
    text: Seq<char>,
)
    requires
        undecided(q, key, value),
    ensures
        !passes(q, key, value, None),
        passes(q, key, value, Some(text)) <==> finds(q.value, q.case_sensitive, encode_utf8(text)),
{
}

} // verus!
