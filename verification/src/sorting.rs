//! Sorting of indices by an order that the caller defines, and the order of
//! dictionaries.

use vstd::prelude::*;
use vstd::seq_lib::group_to_multiset_ensures;
use vstd::utf8::encode_utf8;

verus! {

/// An order on indices: any two are comparable, and comparing is transitive.
pub trait Ranking {
    /// The indices that can be compared.
    spec fn knows(&self, a: usize) -> bool;

    /// Whether `a` may stand before `b`.
    spec fn le(&self, a: usize, b: usize) -> bool;

    proof fn le_total(&self, a: usize, b: usize)
        requires
            self.knows(a),
            self.knows(b),
        ensures
            self.le(a, b) || self.le(b, a),
    ;

    proof fn le_transitive(&self, a: usize, b: usize, c: usize)
        requires
            self.knows(a),
            self.knows(b),
            self.knows(c),
            self.le(a, b),
            self.le(b, c),
        ensures
            self.le(a, c),
    ;

    fn at_most(&self, a: usize, b: usize) -> (r: bool)
        requires
            self.knows(a),
            self.knows(b),
        ensures
            r == self.le(a, b),
    ;
}

/// All the indices can be compared.
pub open spec fn all_known<R: Ranking>(rank: &R, s: Seq<usize>) -> bool {
    forall|i: int| 0 <= i < s.len() ==> rank.knows(#[trigger] s[i])
}

/// Each index may stand before those that follow it.
pub open spec fn ascending<R: Ranking>(rank: &R, s: Seq<usize>) -> bool {
    forall|i: int, j: int| 0 <= i < j < s.len() ==> rank.le(#[trigger] s[i], #[trigger] s[j])
}

/// Sorts indices by a ranking.
pub fn sort_by_rank<R: Ranking>(rank: &R, items: Vec<usize>) -> (r: Vec<usize>)
    requires
        all_known(rank, items@),
    ensures
        ascending(rank, r@),
        r@.to_multiset() == items@.to_multiset(),
        r@.len() == items@.len(),
        all_known(rank, r@),
    decreases items@.len(),
{
    let n: usize = items.len();
    if n < 2 {
        return items;
    }
    let half: usize = n / 2;
    let mut left: Vec<usize> = items;
    let ghost whole = left@;
    let right = left.split_off(half);
    proof {
        assert(whole =~= left@ + right@);
        vstd::seq_lib::lemma_multiset_commutative(left@, right@);
        assert forall|i: int| 0 <= i < right@.len() implies rank.knows(#[trigger] right@[i]) by {
            assert(right@[i] == whole[half + i]);
        }
        assert forall|i: int| 0 <= i < left@.len() implies rank.knows(#[trigger] left@[i]) by {
            assert(left@[i] == whole[i]);
        }
    }
    let left = sort_by_rank(rank, left);
    let right = sort_by_rank(rank, right);
    merge(rank, &left, &right)
}

/// Merges two ascending runs into one.
fn merge<R: Ranking>(rank: &R, left: &Vec<usize>, right: &Vec<usize>) -> (r: Vec<usize>)
    requires
        all_known(rank, left@),
        all_known(rank, right@),
        ascending(rank, left@),
        ascending(rank, right@),
        left@.len() + right@.len() <= usize::MAX,
    ensures
        ascending(rank, r@),
        all_known(rank, r@),
        r@.to_multiset() == left@.to_multiset().add(right@.to_multiset()),
        r@.len() == left@.len() + right@.len(),
{
    let mut out: Vec<usize> = Vec::new();
    let mut i: usize = 0;
    let mut j: usize = 0;
    proof {
        assert(left@.take(0) =~= Seq::empty());
        assert(right@.take(0) =~= Seq::empty());
        broadcast use group_to_multiset_ensures;
        assert(out@.to_multiset() =~= left@.take(0).to_multiset().add(right@.take(0).to_multiset()));
    }
    while i < left.len() || j < right.len()
        invariant
            i <= left@.len(),
            j <= right@.len(),
            left@.len() + right@.len() <= usize::MAX,
            out@.len() == i + j,
            all_known(rank, left@),
            all_known(rank, right@),
            all_known(rank, out@),
            ascending(rank, left@),
            ascending(rank, right@),
            ascending(rank, out@),
            forall|a: int, b: int|
                0 <= a < out@.len() && i <= b < left@.len() ==> rank.le(
                    #[trigger] out@[a],
                    #[trigger] left@[b],
                ),
            forall|a: int, b: int|
                0 <= a < out@.len() && j <= b < right@.len() ==> rank.le(
                    #[trigger] out@[a],
                    #[trigger] right@[b],
                ),
            out@.to_multiset() == left@.take(i as int).to_multiset().add(
                right@.take(j as int).to_multiset(),
            ),
        decreases left@.len() - i + right@.len() - j,
    {
        let take_left = if i < left.len() {
            if j < right.len() {
                rank.at_most(left[i], right[j])
            } else {
                true
            }
        } else {
            false
        };
        let ghost before = out@;
        if take_left {
            let x: usize = left[i];
            out.push(x);
            proof {
                broadcast use group_to_multiset_ensures;

                assert(left@.take(i + 1) =~= left@.take(i as int).push(x));
                assert(out@.to_multiset() =~= left@.take(i + 1).to_multiset().add(
                    right@.take(j as int).to_multiset(),
                ));
                assert forall|b: int| j <= b < right@.len() implies rank.le(
                    x,
                    #[trigger] right@[b],
                ) by {
                    if b > j {
                        rank.le_transitive(x, right@[j as int], right@[b]);
                    }
                }
            }
            i += 1;
        } else {
            let x: usize = right[j];
            out.push(x);
            proof {
                broadcast use group_to_multiset_ensures;

                assert(right@.take(j + 1) =~= right@.take(j as int).push(x));
                assert(out@.to_multiset() =~= left@.take(i as int).to_multiset().add(
                    right@.take(j + 1).to_multiset(),
                ));
                assert forall|b: int| i <= b < left@.len() implies rank.le(x, #[trigger] left@[b]) by {
                    rank.le_total(left@[i as int], x);
                    if b > i {
                        rank.le_transitive(x, left@[i as int], left@[b]);
                    }
                }
            }
            j += 1;
        }
    }
    proof {
        assert(left@.take(i as int) =~= left@);
        assert(right@.take(j as int) =~= right@);
    }
    out
}

/// Mapping two rearrangements of the same items gives rearrangements again.
pub proof fn lemma_map_rearranged<A, B>(a: Seq<A>, b: Seq<A>, f: spec_fn(A) -> B)
    requires
        a.to_multiset() == b.to_multiset(),
    ensures
        a.map_values(f).to_multiset() == b.map_values(f).to_multiset(),
    decreases a.len(),
{
    broadcast use group_to_multiset_ensures;

    assert(a.len() == a.to_multiset().len() && b.len() == b.to_multiset().len());
    if a.len() == 0 {
        assert(a.map_values(f) =~= b.map_values(f));
    } else {
        let x = a.last();
        let init = a.drop_last();
        assert(a =~= init.push(x));
        assert(a.to_multiset().count(x) > 0) by {
            assert(a.contains(x));
        }
        assert(b.contains(x));
        let j = choose|j: int| 0 <= j < b.len() && b[j] == x;
        let rest = b.remove(j);
        assert(rest.to_multiset() =~= b.to_multiset().remove(x));
        assert(init.to_multiset() =~= a.to_multiset().remove(x));
        lemma_map_rearranged(init, rest, f);
        assert(a.map_values(f) =~= init.map_values(f).push(f(x)));
        assert(rest.map_values(f) =~= b.map_values(f).remove(j));
        assert(b.map_values(f)[j] == f(x));
        let mb = b.map_values(f);
        assert(mb.remove(j).to_multiset() =~= mb.to_multiset().remove(f(x)));
        assert(mb.contains(f(x)));
        assert(mb.to_multiset() =~= mb.remove(j).to_multiset().insert(f(x)));
    }
}

/// Two rearrangements hold the same items, and as often repeated.
pub proof fn lemma_rearranged_members<A>(a: Seq<A>, b: Seq<A>)
    requires
        a.to_multiset() == b.to_multiset(),
    ensures
        a.len() == b.len(),
        forall|x: A| #[trigger] a.contains(x) <==> b.contains(x),
        a.no_duplicates() ==> b.no_duplicates(),
{
    broadcast use group_to_multiset_ensures;

    assert(a.len() == a.to_multiset().len() && b.len() == b.to_multiset().len());
    assert forall|x: A| #[trigger] a.contains(x) <==> b.contains(x) by {
        vstd::seq_lib::to_multiset_contains(a, x);
        vstd::seq_lib::to_multiset_contains(b, x);
    }
    if a.no_duplicates() {
        a.lemma_multiset_has_no_duplicates();
        b.lemma_multiset_has_no_duplicates_conv();
    }
}

/// One string of bytes comes before another in the order of dictionaries.
pub open spec fn bytes_before(a: Seq<u8>, b: Seq<u8>) -> bool
    decreases a.len(),
{
    if b.len() == 0 {
        false
    } else if a.len() == 0 {
        true
    } else if a[0] != b[0] {
        a[0] < b[0]
    } else {
        bytes_before(a.drop_first(), b.drop_first())
    }
}

pub proof fn lemma_bytes_before(a: Seq<u8>, b: Seq<u8>)
    ensures
        bytes_before(a, b) ==> !bytes_before(b, a),
        !bytes_before(a, b) && !bytes_before(b, a) ==> a == b,
    decreases a.len(),
{
    if a.len() > 0 && b.len() > 0 && a[0] == b[0] {
        lemma_bytes_before(a.drop_first(), b.drop_first());
        if a.drop_first() == b.drop_first() {
            assert(a =~= seq![a[0]] + a.drop_first());
            assert(b =~= seq![b[0]] + b.drop_first());
        }
    } else if a.len() == 0 && b.len() == 0 {
        assert(a =~= b);
    }
}

pub proof fn lemma_bytes_transitive(a: Seq<u8>, b: Seq<u8>, c: Seq<u8>)
    requires
        bytes_before(a, b),
        bytes_before(b, c),
    ensures
        bytes_before(a, c),
    decreases a.len(),
{
    if a.len() > 0 && a[0] == b[0] && b[0] == c[0] {
        lemma_bytes_transitive(a.drop_first(), b.drop_first(), c.drop_first());
    }
}

/// Whether one string of bytes comes before another.
pub fn bytes_precede(a: &[u8], b: &[u8]) -> (r: bool)
    ensures
        r == bytes_before(a@, b@),
{
    let mut i: usize = 0;
    proof {
        assert(a@.skip(0) =~= a@);
        assert(b@.skip(0) =~= b@);
    }
    while i < a.len() && i < b.len()
        invariant
            i <= a@.len(),
            i <= b@.len(),
            bytes_before(a@, b@) == bytes_before(a@.skip(i as int), b@.skip(i as int)),
        decreases a@.len() - i,
    {
        proof {
            assert(a@.skip(i as int).drop_first() =~= a@.skip(i + 1));
            assert(b@.skip(i as int).drop_first() =~= b@.skip(i + 1));
        }
        if a[i] != b[i] {
            return a[i] < b[i];
        }
        i += 1;
    }
    i < b.len()
}

/// A text may stand before another: it comes first in the order of dictionaries,
/// or they are the same and it was listed first.
pub open spec fn text_at_most(texts: Seq<String>, a: usize, b: usize) -> bool {
    let x = encode_utf8(texts[a as int]@);
    let y = encode_utf8(texts[b as int]@);
    bytes_before(x, y) || (!bytes_before(y, x) && a <= b)
}

struct TextOrder<'a> {
    texts: &'a Vec<String>,
}

impl<'a> Ranking for TextOrder<'a> {
    closed spec fn knows(&self, a: usize) -> bool {
        a < self.texts@.len()
    }

    closed spec fn le(&self, a: usize, b: usize) -> bool {
        text_at_most(self.texts@, a, b)
    }

    proof fn le_total(&self, a: usize, b: usize) {
        lemma_bytes_before(encode_utf8(self.texts@[a as int]@), encode_utf8(self.texts@[b as int]@));
    }

    proof fn le_transitive(&self, a: usize, b: usize, c: usize) {
        let x = encode_utf8(self.texts@[a as int]@);
        let y = encode_utf8(self.texts@[b as int]@);
        let z = encode_utf8(self.texts@[c as int]@);
        lemma_bytes_before(x, y);
        lemma_bytes_before(y, z);
        lemma_bytes_before(x, z);
        if bytes_before(x, y) && bytes_before(y, z) {
            lemma_bytes_transitive(x, y, z);
        }
    }

    fn at_most(&self, a: usize, b: usize) -> (r: bool) {
        let x = self.texts[a].as_str().as_bytes();
        let y = self.texts[b].as_str().as_bytes();
        bytes_precede(x, y) || (!bytes_precede(y, x) && a <= b)
    }
}

/// The places of a list, one after another.
pub open spec fn straight(n: nat) -> Seq<usize> {
    Seq::new(n, |i: int| i as usize)
}

/// The places of a list, in another order.
pub open spec fn reordered(places: Seq<usize>, n: nat) -> bool {
    &&& places.len() == n
    &&& places.to_multiset() == straight(n).to_multiset()
    &&& forall|i: int| 0 <= i < places.len() ==> #[trigger] places[i] < n
}

/// Each place stands once in another order too.
pub proof fn lemma_reordered_distinct(places: Seq<usize>, n: nat)
    requires
        reordered(places, n),
        n <= usize::MAX,
    ensures
        places.no_duplicates(),
{
    assert forall|i: int, j: int| 0 <= i < n && 0 <= j < n && i != j implies straight(n)[i]
        != straight(n)[j] by {}
    lemma_rearranged_members(straight(n), places);
}

/// The places `0..n`.
pub fn places(n: usize) -> (r: Vec<usize>)
    ensures
        r@ == straight(n as nat),
        reordered(r@, n as nat),
{
    let mut out: Vec<usize> = Vec::new();
    let mut i: usize = 0;
    while i < n
        invariant
            i <= n,
            out@ == straight(i as nat),
        decreases n - i,
    {
        out.push(i);
        i += 1;
        proof {
            assert(out@ =~= straight(i as nat));
        }
    }
    out
}

/// Sorts all places by a ranking.
pub fn sort_places<R: Ranking>(rank: &R, n: usize) -> (r: Vec<usize>)
    requires
        forall|i: usize| i < n ==> #[trigger] rank.knows(i),
    ensures
        ascending(rank, r@),
        reordered(r@, n as nat),
{
    let all = places(n);
    let r = sort_by_rank(rank, all);
    proof {
        lemma_rearranged_members(straight(n as nat), r@);
        assert forall|i: int| 0 <= i < r@.len() implies #[trigger] r@[i] < n by {
            assert(r@.contains(r@[i]));
            assert(straight(n as nat).contains(r@[i]));
        }
    }
    r
}

/// In which order the texts of a list stand in a dictionary.
pub fn sort_texts(texts: &Vec<String>) -> (r: Vec<usize>)
    ensures
        reordered(r@, texts@.len()),
        forall|i: int, j: int|
            0 <= i < j < r@.len() ==> text_at_most(texts@, #[trigger] r@[i], #[trigger] r@[j]),
{
    let order = TextOrder { texts };
    let r = sort_places(&order, texts.len());
    proof {
        assert forall|i: int, j: int| 0 <= i < j < r@.len() implies text_at_most(
            texts@,
            #[trigger] r@[i],
            #[trigger] r@[j],
        ) by {
            assert(order.le(r@[i], r@[j]));
        }
    }
    r
}

/// The items at the given places.
pub open spec fn picked<A>(items: Seq<A>, places: Seq<usize>) -> Seq<A> {
    Seq::new(places.len(), |i: int| items[places[i] as int])
}

/// The items at places in another order are the same items.
pub proof fn lemma_picked<A>(items: Seq<A>, places: Seq<usize>)
    requires
        reordered(places, items.len()),
        items.len() <= usize::MAX,
    ensures
        picked(items, places).to_multiset() == items.to_multiset(),
{
    let f = |p: usize| items[p as int];
    lemma_map_rearranged(places, straight(items.len()), f);
    assert(places.map_values(f) =~= picked(items, places));
    assert(straight(items.len()).map_values(f) =~= items);
}

/// Two strings of bytes are the same up to a place, and there the first ends or has
/// the lesser byte.
pub open spec fn parts_lower_at(a: Seq<u8>, b: Seq<u8>, k: int) -> bool {
    &&& 0 <= k <= a.len()
    &&& k < b.len()
    &&& a.take(k) == b.take(k)
    &&& k == a.len() || a[k] < b[k]
}

/// The order of dictionaries: of two strings of bytes the one comes first that is
/// the beginning of the other, or has the lesser byte where they part.
pub proof fn law_order_of_dictionaries(a: Seq<u8>, b: Seq<u8>)
    ensures
        bytes_before(a, b) <==> exists|k: int| #[trigger] parts_lower_at(a, b, k),
    decreases a.len(),
{
    if a.len() > 0 && b.len() > 0 && a[0] == b[0] {
        let x = a.drop_first();
        let y = b.drop_first();
        law_order_of_dictionaries(x, y);
        if bytes_before(a, b) {
            let k = choose|k: int| #[trigger] parts_lower_at(x, y, k);
            assert forall|i: int| 0 <= i < k + 1 implies a[i] == b[i] by {
                if i > 0 {
                    assert(x.take(k)[i - 1] == y.take(k)[i - 1]);
                }
            }
            assert(a.take(k + 1) =~= b.take(k + 1));
            assert(parts_lower_at(a, b, k + 1));
        }
        if exists|k: int| #[trigger] parts_lower_at(a, b, k) {
            let k = choose|k: int| #[trigger] parts_lower_at(a, b, k);
            assert(k > 0);
            assert forall|i: int| 0 <= i < k - 1 implies x[i] == y[i] by {
                assert(a.take(k)[i + 1] == b.take(k)[i + 1]);
            }
            assert(x.take(k - 1) =~= y.take(k - 1));
            assert(parts_lower_at(x, y, k - 1));
        }
    } else {
        if bytes_before(a, b) {
            assert(a.take(0) =~= b.take(0));
            assert(parts_lower_at(a, b, 0));
        }
        if exists|k: int| #[trigger] parts_lower_at(a, b, k) {
            let k = choose|k: int| #[trigger] parts_lower_at(a, b, k);
            if k > 0 {
                assert(a.take(k)[0] == b.take(k)[0]);
            }
        }
    }
}

} // verus!
