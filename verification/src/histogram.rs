//! Visit counts per pixel, and their key-wise sum.

use std::collections::HashMap;
use vstd::prelude::*;
use vstd::std_specs::hash::*;
use vstd::std_specs::iter::IteratorSpec;
use crate::pixel::PixelCoord;

verus! {

broadcast use vstd::std_specs::hash::group_hash_axioms;

/// A natural number cut off at the largest count a histogram can hold.
pub open spec fn saturate(n: int) -> u64 {
    if n > u64::MAX as int {
        u64::MAX
    } else if n < 0 {
        0u64
    } else {
        n as u64
    }
}

/// The count that `m` holds for `p`: zero where `p` has no entry.
pub open spec fn count_in(m: Map<PixelCoord, u64>, p: PixelCoord) -> int {
    if m.contains_key(p) {
        m[p] as int
    } else {
        0
    }
}

/// `m` after `n` more visits of `p`. The entry is made if it is missing,
/// also when `n` is zero.
pub open spec fn added(m: Map<PixelCoord, u64>, p: PixelCoord, n: u64) -> Map<PixelCoord, u64> {
    m.insert(p, saturate(count_in(m, p) + n))
}

/// The key-wise sum of two histograms: a pixel has an entry where either
/// has one, and its count is the sum of both counts.
pub open spec fn merged(a: Map<PixelCoord, u64>, b: Map<PixelCoord, u64>) -> Map<PixelCoord, u64> {
    Map::new(
        |p: PixelCoord| a.contains_key(p) || b.contains_key(p),
        |p: PixelCoord| saturate(count_in(a, p) + count_in(b, p)),
    )
}

/// `l` lists the entries of `m`: every entry once, and nothing else.
pub open spec fn is_listing(l: Seq<(PixelCoord, u64)>, m: Map<PixelCoord, u64>) -> bool {
    &&& forall|i: int| 0 <= i < l.len() ==> m.contains_key((#[trigger] l[i]).0) && m[l[i].0] == l[i].1
    &&& forall|p: PixelCoord| #[trigger]
        m.contains_key(p) ==> exists|i: int| 0 <= i < l.len() && (#[trigger] l[i]).0 == p
    &&& forall|i: int, j: int| 0 <= i < j < l.len() ==> (#[trigger] l[i]).0 != (#[trigger] l[j]).0
}

/// `a` after the entries of `l` were added to it one by one, first to last.
pub open spec fn added_all(a: Map<PixelCoord, u64>, l: Seq<(PixelCoord, u64)>) -> Map<PixelCoord, u64>
    decreases l.len(),
{
    if l.len() == 0 {
        a
    } else {
        added(added_all(a, l.drop_last()), l.last().0, l.last().1)
    }
}

/// `a` after each histogram of `parts` was merged into it, first to last.
pub open spec fn merged_all(a: Map<PixelCoord, u64>, parts: Seq<Map<PixelCoord, u64>>) -> Map<PixelCoord, u64>
    decreases parts.len(),
{
    if parts.len() == 0 {
        a
    } else {
        merged(merged_all(a, parts.drop_last()), parts.last())
    }
}

/// The views of a run of histograms.
pub open spec fn views_of(parts: Seq<Histogram>) -> Seq<Map<PixelCoord, u64>> {
    Seq::new(parts.len(), |i: int| parts[i]@)
}

/// Adding the first `n` entries of a listing of `b` to `a` gives, at every
/// pixel listed so far, the sum of both counts, and leaves the rest of `a`.
proof fn lemma_added_prefix(a: Map<PixelCoord, u64>, b: Map<PixelCoord, u64>, l: Seq<(PixelCoord, u64)>, n: int)
    requires
        is_listing(l, b),
        0 <= n <= l.len(),
    ensures
        forall|p: PixelCoord|
            (#[trigger] added_all(a, l.take(n)).contains_key(p)) == (a.contains_key(p) || exists|
                j: int,
            | 0 <= j < n && (#[trigger] l[j]).0 == p),
        forall|j: int|
            0 <= j < n ==> added_all(a, l.take(n))[(#[trigger] l[j]).0] == saturate(
                count_in(a, l[j].0) + l[j].1,
            ),
        forall|p: PixelCoord|
            a.contains_key(p) && !(exists|j: int| 0 <= j < n && (#[trigger] l[j]).0 == p)
                ==> #[trigger] added_all(a, l.take(n))[p] == a[p],
    decreases n,
{
    if n == 0 {
        assert(l.take(0).len() == 0);
    } else {
        lemma_added_prefix(a, b, l, n - 1);
        let t = l.take(n);
        assert(t.drop_last() =~= l.take(n - 1));
        assert(t.last() == l[n - 1]);
        let prev = added_all(a, l.take(n - 1));
        let q = l[n - 1].0;
        assert(added_all(a, t) == added(prev, q, l[n - 1].1));
        assert(!(exists|j: int| 0 <= j < n - 1 && (#[trigger] l[j]).0 == q));
        assert(count_in(prev, q) == count_in(a, q));
        assert forall|p: PixelCoord|
            (#[trigger] added_all(a, t).contains_key(p)) == (a.contains_key(p) || exists|j: int|
                0 <= j < n && (#[trigger] l[j]).0 == p) by {
            if p == q {
                assert(l[n - 1].0 == p);
            } else if exists|j: int| 0 <= j < n && (#[trigger] l[j]).0 == p {
                let j = choose|j: int| 0 <= j < n && (#[trigger] l[j]).0 == p;
                assert(0 <= j < n - 1 && l[j].0 == p);
            }
        }
        assert forall|p: PixelCoord|
            a.contains_key(p) && !(exists|j: int| 0 <= j < n && (#[trigger] l[j]).0 == p)
                implies #[trigger] added_all(a, t)[p] == a[p] by {
            assert(p != q) by {
                if p == q {
                    assert(l[n - 1].0 == p);
                }
            }
            if exists|j: int| 0 <= j < n - 1 && (#[trigger] l[j]).0 == p {
                let j = choose|j: int| 0 <= j < n - 1 && (#[trigger] l[j]).0 == p;
                assert(0 <= j < n && l[j].0 == p);
            }
        }
    }
}

/// Adding every entry of a listing of `b` to `a` is the key-wise sum of `a`
/// and `b`.
pub proof fn lemma_added_listing_is_merge(
    a: Map<PixelCoord, u64>,
    b: Map<PixelCoord, u64>,
    l: Seq<(PixelCoord, u64)>,
)
    requires
        is_listing(l, b),
    ensures
        added_all(a, l) == merged(a, b),
{
    lemma_added_prefix(a, b, l, l.len() as int);
    assert(l.take(l.len() as int) =~= l);
    let r = added_all(a, l);
    assert forall|p: PixelCoord| r.contains_key(p) == merged(a, b).contains_key(p) by {
        if b.contains_key(p) {
            let j = choose|j: int| 0 <= j < l.len() && (#[trigger] l[j]).0 == p;
            assert(l[j].0 == p);
        }
    }
    assert forall|p: PixelCoord| r.contains_key(p) implies r[p] == merged(a, b)[p] by {
        if b.contains_key(p) {
            let j = choose|j: int| 0 <= j < l.len() && (#[trigger] l[j]).0 == p;
            assert(r[l[j].0] == saturate(count_in(a, l[j].0) + l[j].1));
        } else {
            assert(!(exists|j: int| 0 <= j < l.len() && (#[trigger] l[j]).0 == p));
        }
    }
    assert(r =~= merged(a, b));
}

/// The key-wise sum does not depend on the order of its two operands.
pub proof fn lemma_merge_commutative(a: Map<PixelCoord, u64>, b: Map<PixelCoord, u64>)
    ensures
        merged(a, b) == merged(b, a),
{
    assert(merged(a, b) =~= merged(b, a));
}

/// The key-wise sum does not depend on how three operands are grouped.
pub proof fn lemma_merge_associative(a: Map<PixelCoord, u64>, b: Map<PixelCoord, u64>, c: Map<PixelCoord, u64>)
    ensures
        merged(merged(a, b), c) == merged(a, merged(b, c)),
{
    assert(merged(merged(a, b), c) =~= merged(a, merged(b, c)));
}

/// Merging never lowers a count, nor removes an entry.
pub proof fn lemma_merge_grows(a: Map<PixelCoord, u64>, b: Map<PixelCoord, u64>, p: PixelCoord)
    ensures
        count_in(merged(a, b), p) >= count_in(a, p),
        a.contains_key(p) ==> merged(a, b).contains_key(p),
{
}

/// Merging an empty histogram changes nothing.
pub proof fn lemma_merge_empty(a: Map<PixelCoord, u64>)
    ensures
        merged(a, Map::<PixelCoord, u64>::empty()) == a,
        merged(Map::<PixelCoord, u64>::empty(), a) == a,
{
    assert(merged(a, Map::<PixelCoord, u64>::empty()) =~= a);
    assert(merged(Map::<PixelCoord, u64>::empty(), a) =~= a);
}

/// Merging two batches one after the other is merging both at once.
pub proof fn lemma_merged_all_concat(
    a: Map<PixelCoord, u64>,
    x: Seq<Map<PixelCoord, u64>>,
    y: Seq<Map<PixelCoord, u64>>,
)
    ensures
        merged_all(merged_all(a, x), y) == merged_all(a, x + y),
    decreases y.len(),
{
    if y.len() == 0 {
        assert(x + y =~= x);
    } else {
        lemma_merged_all_concat(a, x, y.drop_last());
        assert((x + y).drop_last() =~= x + y.drop_last());
        assert((x + y).last() == y.last());
    }
}

/// Two ways of cutting one run of histograms into two batches give one
/// result.
pub proof fn lemma_batches_regroup(
    a: Map<PixelCoord, u64>,
    x1: Seq<Map<PixelCoord, u64>>,
    y1: Seq<Map<PixelCoord, u64>>,
    x2: Seq<Map<PixelCoord, u64>>,
    y2: Seq<Map<PixelCoord, u64>>,
)
    requires
        x1 + y1 == x2 + y2,
    ensures
        merged_all(merged_all(a, x1), y1) == merged_all(merged_all(a, x2), y2),
{
    lemma_merged_all_concat(a, x1, y1);
    lemma_merged_all_concat(a, x2, y2);
}

/// The histogram that a run of merges ends with is the sum of the first
/// histogram and the sum of the others: how the batches are cut does not
/// matter, nor which side accumulates.
pub proof fn lemma_merged_all_is_sum(a: Map<PixelCoord, u64>, parts: Seq<Map<PixelCoord, u64>>)
    ensures
        merged_all(a, parts) == merged(a, merged_all(Map::<PixelCoord, u64>::empty(), parts)),
    decreases parts.len(),
{
    if parts.len() == 0 {
        lemma_merge_empty(a);
    } else {
        lemma_merged_all_is_sum(a, parts.drop_last());
        lemma_merge_associative(
            a,
            merged_all(Map::<PixelCoord, u64>::empty(), parts.drop_last()),
            parts.last(),
        );
    }
}

/// Exchanging two neighbours in a run of merges does not change the result.
pub proof fn lemma_merged_all_swap(a: Map<PixelCoord, u64>, parts: Seq<Map<PixelCoord, u64>>, i: int)
    requires
        0 <= i,
        i + 1 < parts.len(),
    ensures
        merged_all(a, parts) == merged_all(
            a,
            parts.update(i, parts[i + 1]).update(i + 1, parts[i]),
        ),
    decreases parts.len(),
{
    let swapped = parts.update(i, parts[i + 1]).update(i + 1, parts[i]);
    if i + 2 == parts.len() {
        let head = parts.drop_last().drop_last();
        assert(swapped.drop_last().drop_last() =~= head);
        assert(swapped.drop_last().last() == parts[i + 1]);
        assert(swapped.last() == parts[i]);
        assert(parts.drop_last().last() == parts[i]);
        let g = merged_all(a, head);
        assert(parts.last() == parts[i + 1]);
        assert(merged_all(a, parts.drop_last()) == merged(g, parts[i]));
        assert(merged_all(a, parts) == merged(merged(g, parts[i]), parts[i + 1]));
        assert(merged_all(a, swapped.drop_last()) == merged(g, parts[i + 1]));
        assert(merged_all(a, swapped) == merged(merged(g, parts[i + 1]), parts[i]));
        lemma_merge_associative(g, parts[i], parts[i + 1]);
        lemma_merge_associative(g, parts[i + 1], parts[i]);
        lemma_merge_commutative(parts[i], parts[i + 1]);
    } else {
        lemma_merged_all_swap(a, parts.drop_last(), i);
        assert(swapped.drop_last() =~= parts.drop_last().update(i, parts[i + 1]).update(
            i + 1,
            parts[i],
        ));
        assert(swapped.last() == parts.last());
        assert(merged_all(a, swapped) == merged(
            merged_all(a, swapped.drop_last()),
            swapped.last(),
        ));
    }
}

/// A sparse map from pixel to visit count.
pub struct Histogram {
    counts: HashMap<u32, u64>,
}

impl View for Histogram {
    type V = Map<PixelCoord, u64>;

    closed spec fn view(&self) -> Map<PixelCoord, u64> {
        Map::new(
            |p: PixelCoord| self.counts@.contains_key(p.spec_key() as u32),
            |p: PixelCoord| self.counts@[p.spec_key() as u32],
        )
    }
}

impl Histogram {
    /// A histogram without entries.
    pub fn new() -> (h: Histogram)
        ensures
            h@ == Map::<PixelCoord, u64>::empty(),
    {
        let h = Histogram { counts: HashMap::new() };
        assert(h@ =~= Map::<PixelCoord, u64>::empty());
        h
    }

    /// The count stored for `p`, if it has an entry.
    pub fn get(&self, p: PixelCoord) -> (r: Option<u64>)
        ensures
            r == (if self@.contains_key(p) { Some(self@[p]) } else { None::<u64> }),
    {
        let k = p.key();
        match self.counts.get(&k) {
            Some(v) => Some(*v),
            None => None,
        }
    }

    /// Adds `n` visits of `p`, making the entry if it is missing.
    pub fn add(&mut self, p: PixelCoord, n: u64)
        ensures
            final(self)@ == added(old(self)@, p, n),
    {
        let k = p.key();
        let current: u64 = match self.counts.get(&k) {
            Some(v) => *v,
            None => 0,
        };
        let sum: u64 = if current > u64::MAX - n { u64::MAX } else { current + n };
        self.counts.insert(k, sum);
        proof {
            PixelCoord::lemma_key_injective_all();
            assert(self@ =~= added(old(self)@, p, n));
        }
    }

    /// Counts one visit of `p`.
    pub fn record(&mut self, p: PixelCoord)
        ensures
            final(self)@ == added(old(self)@, p, 1),
    {
        self.add(p, 1);
    }

    /// Whether no pixel has an entry.
    pub fn is_empty(&self) -> (r: bool)
        ensures
            r == (self@ == Map::<PixelCoord, u64>::empty()),
    {
        let r = self.counts.is_empty();
        proof {
            if r {
                assert(self.counts@.dom().len() == 0);
                assert(self.counts@.dom() =~= Set::<u32>::empty());
                assert(self@ =~= Map::<PixelCoord, u64>::empty());
            } else {
                assert(self.counts@.dom().len() != 0);
                let k = self.counts@.dom().choose();
                assert(self.counts@.dom().contains(k));
                let p = PixelCoord::spec_from_key(k);
                assert(self@.contains_key(p));
            }
        }
        r
    }

    /// Adds the counts of `other` to this histogram, key by key.
    pub fn merge(&mut self, other: &Histogram)
        ensures
            final(self)@ == merged(old(self)@, other@),
    {
        let l = other.entries();
        let n = l.len();
        let mut i: usize = 0;
        while i < n
            invariant
                n == l@.len(),
                0 <= i <= n,
                self@ == added_all(old(self)@, l@.take(i as int)),
            decreases n - i,
        {
            let (p, c) = l[i];
            self.add(p, c);
            proof {
                assert(l@.take(i + 1).drop_last() =~= l@.take(i as int));
                assert(l@.take(i + 1).last() == l@[i as int]);
            }
            i = i + 1;
        }
        proof {
            assert(l@.take(n as int) =~= l@);
            lemma_added_listing_is_merge(old(self)@, other@, l@);
        }
    }

    /// Merges every histogram of `parts` into this one, first to last.
    pub fn merge_all(&mut self, parts: &Vec<Histogram>)
        ensures
            final(self)@ == merged_all(old(self)@, views_of(parts@)),
    {
        let n = parts.len();
        let mut i: usize = 0;
        while i < n
            invariant
                n == parts@.len(),
                0 <= i <= n,
                self@ == merged_all(old(self)@, views_of(parts@).take(i as int)),
            decreases n - i,
        {
            self.merge(&parts[i]);
            proof {
                let vs = views_of(parts@);
                assert(vs.take(i + 1).drop_last() =~= vs.take(i as int));
                assert(vs.take(i + 1).last() == parts@[i as int]@);
            }
            i = i + 1;
        }
        proof {
            assert(views_of(parts@).take(n as int) =~= views_of(parts@));
        }
    }

    /// The entries, each pixel once, in no particular order.
    pub fn entries(&self) -> (v: Vec<(PixelCoord, u64)>)
        ensures
            is_listing(v@, self@),
    {
        let mut v: Vec<(PixelCoord, u64)> = Vec::new();
        let ghost all = spec_hash_map_iter(&self.counts).remaining();
        for pair in it: self.counts.iter()
            invariant
                it.seq() == all,
                all == spec_hash_map_iter(&self.counts).remaining(),
                all.no_duplicates(),
                v@.len() == it.index(),
                forall|i: int|
                    0 <= i < v@.len() ==> (#[trigger] v@[i]).0.spec_key() == *all[i].0 as int
                        && v@[i].1 == *all[i].1,
        {
            let (k, c) = pair;
            v.push((PixelCoord::from_key(*k), *c));
        }
        proof {
            PixelCoord::lemma_key_injective_all();
            assert forall|p: PixelCoord| #[trigger] self@.contains_key(p) implies exists|i: int|
                0 <= i < v@.len() && (#[trigger] v@[i]).0 == p by {
                let k = p.spec_key() as u32;
                assert(self.counts@.contains_key(k));
                assert(all.contains((&k, &self.counts@[k])));
                let i = choose|i: int| 0 <= i < all.len() && all[i] == (&k, &self.counts@[k]);
                assert(v@[i].0.spec_key() == p.spec_key());
            }
            assert forall|i: int, j: int| 0 <= i < j < v@.len() implies (#[trigger] v@[i]).0 != (
            #[trigger] v@[j]).0 by {
                if v@[i].0 == v@[j].0 {
                    assert(*all[i].0 == *all[j].0);
                    assert(self.counts@.contains_key(*all[i].0));
                    assert(self.counts@[*all[i].0] == *all[i].1);
                    assert(self.counts@[*all[j].0] == *all[j].1);
                    assert(all[i] == all[j]);
                }
            }
            assert forall|i: int| 0 <= i < v@.len() implies self@.contains_key(
                (#[trigger] v@[i]).0,
            ) && self@[v@[i].0] == v@[i].1 by {
                assert(self.counts@.contains_key(*all[i].0));
                assert(self.counts@[*all[i].0] == *all[i].1);
            }
        }
        v
    }
}

} // verus!
