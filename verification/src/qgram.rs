//! The q-gram family of metrics: raw q-gram distance, Cosine, Jaccard,
//! Sorensen-Dice and Overlap, all derived from the multiset of contiguous
//! length-`q` fragments of each input.

use vstd::multiset::Multiset;
use vstd::prelude::*;

use crate::ratio::Ratio;
use crate::Metric;

verus! {

broadcast use vstd::multiset::group_multiset_axioms, vstd::multiset::group_multiset_properties;

/// How many length-`q` fragments a sequence of length `len` yields.
pub open spec fn gram_count(len: nat, q: nat) -> nat {
    if len < q {
        0
    } else {
        (len - q + 1) as nat
    }
}

/// The multiset of the first `i` length-`q` fragments of `s`.
pub open spec fn grams_upto(s: Seq<char>, q: nat, i: int) -> Multiset<Seq<char>>
    decreases i,
{
    if i <= 0 || q < 1 || i + q - 1 > s.len() {
        Multiset::empty()
    } else {
        grams_upto(s, q, i - 1).insert(s.subrange(i - 1, i - 1 + q))
    }
}

/// The multiset of every contiguous length-`q` fragment of `s`.
pub open spec fn grams(s: Seq<char>, q: nat) -> Multiset<Seq<char>> {
    grams_upto(s, q, gram_count(s.len(), q) as int)
}

/// The set of distinct length-`q` fragments of `s`.
pub open spec fn gram_set(s: Seq<char>, q: nat) -> Set<Seq<char>> {
    grams(s, q).dom()
}

/// The raw q-gram distance: for each distinct fragment, the absolute
/// difference of its two occurrence counts, summed over all fragments.
/// Equivalently, the size of the symmetric difference of the two fragment
/// multisets.
pub open spec fn qgram_dist(a: Seq<char>, b: Seq<char>, q: nat) -> nat {
    grams(a, q).sub(grams(b, q)).len() + grams(b, q).sub(grams(a, q)).len()
}

/// A fragment multiset holds one fragment per window position.
pub proof fn lemma_grams_upto_len(s: Seq<char>, q: nat, i: int)
    requires
        1 <= q,
        0 <= i <= gram_count(s.len(), q),
    ensures
        grams_upto(s, q, i).len() == i,
    decreases i,
{
    if i > 0 {
        lemma_grams_upto_len(s, q, i - 1);
    }
}

/// An iterator over every contiguous length-`chunk_size` fragment of a
/// slice, advancing the start index by one element per step.
#[derive(Debug, Clone)]
pub struct QGramIter<'a> {
    pub items: &'a [char],
    pub index: usize,
    pub chunk_size: usize,
}

impl<'a> QGramIter<'a> {
    /// How many fragments are still to come.
    pub open spec fn spec_remaining(self) -> nat {
        if self.index + self.chunk_size > self.items@.len() {
            0
        } else {
            (self.items@.len() + 1 - self.chunk_size - self.index) as nat
        }
    }

    /// Constructs the iterator that yields all fragments of the slice.
    ///
    /// A chunk size greater than the length of the slice results directly in
    /// an exhausted iterator.
    pub fn new(items: &'a [char], chunk_size: usize) -> (r: Self)
        requires
            1 <= chunk_size,
        ensures
            r.items@ == items@,
            r.index == 0,
            r.chunk_size == chunk_size,
    {
        QGramIter { items, chunk_size, index: 0 }
    }

    /// Resets the iterator back to the beginning.
    pub fn reset(&mut self)
        ensures
            final (self).items@ == old(self).items@,
            final (self).chunk_size == old(self).chunk_size,
            final (self).index == 0,
    {
        self.index = 0;
    }

    /// The next fragment, as a fresh vector, or `None` once the window has
    /// reached the end of the slice.
    pub fn next(&mut self) -> (r: Option<Vec<char>>)
        requires
            1 <= old(self).chunk_size,
        ensures
            final (self).items@ == old(self).items@,
            final (self).chunk_size == old(self).chunk_size,
            old(self).spec_remaining() == 0 ==> r is None && final (self).index == old(
                self,
            ).index,
            old(self).spec_remaining() > 0 ==> final (self).index == old(self).index + 1 && (
            match r {
                Option::Some(g) => g@ == old(self).items@.subrange(
                    old(self).index as int,
                    old(self).index + old(self).chunk_size,
                ),
                Option::None => false,
            }),
    {
        if self.items.len() == 0 || self.chunk_size > self.items.len() || self.index
            > self.items.len() - self.chunk_size {
            None
        } else {
            let g = crate::utils::slice_range(
                self.items,
                self.index,
                self.index + self.chunk_size,
            );
            self.index = self.index + 1;
            Some(g)
        }
    }

    /// The exact number of fragments left, as a `(lower, upper)` pair.
    pub fn size_hint(&self) -> (r: (usize, Option<usize>))
        requires
            1 <= self.chunk_size,
        ensures
            r.0 == self.spec_remaining(),
            r.1 == Option::Some(r.0),
    {
        if self.items.len() == 0 || self.chunk_size > self.items.len() || self.index
            > self.items.len() - self.chunk_size {
            (0, Some(0))
        } else {
            let rem = self.items.len() - self.chunk_size + 1 - self.index;
            (rem, Some(rem))
        }
    }

    /// Consumes the iterator and counts the fragments left.
    pub fn count(self) -> (r: usize)
        requires
            1 <= self.chunk_size,
        ensures
            r == self.spec_remaining(),
    {
        let h = self.size_hint();
        h.0
    }

    /// Advances by `n` fragments and returns the next one after those.
    pub fn nth(&mut self, n: usize) -> (r: Option<Vec<char>>)
        requires
            1 <= old(self).chunk_size,
            old(self).index + n + 1 <= usize::MAX,
        ensures
            final (self).items@ == old(self).items@,
            final (self).chunk_size == old(self).chunk_size,
            old(self).spec_remaining() > n ==> final (self).index == old(self).index + n + 1 && (
            match r {
                Option::Some(g) => g@ == old(self).items@.subrange(
                    old(self).index + n,
                    old(self).index + n + old(self).chunk_size,
                ),
                Option::None => false,
            }),
            old(self).spec_remaining() <= n ==> r is None,
    {
        let mut skipped: usize = 0;
        while skipped < n
            invariant
                skipped <= n,
                1 <= self.chunk_size == old(self).chunk_size,
                self.items@ == old(self).items@,
                old(self).index + n + 1 <= usize::MAX,
                old(self).spec_remaining() > n ==> self.index == old(self).index + skipped,
                old(self).spec_remaining() <= n ==> self.spec_remaining() + skipped <= n,
            decreases n - skipped,
        {
            let _ = self.next();
            skipped += 1;
        }
        self.next()
    }
}

/// Every length-`q` fragment of `s`, in window order.
pub fn gram_list(s: &[char], q: usize) -> (r: Vec<Vec<char>>)
    requires
        1 <= q,
    ensures
        r@.len() == gram_count(s@.len(), q as nat),
        forall|t: int| 0 <= t < r@.len() ==> (#[trigger] r@[t])@ == s@.subrange(t, t + q),
        list_mset(r@, r@.len() as int) == grams(s@, q as nat),
{
    let n = s.len();
    let count: usize = if n < q {
        0
    } else {
        n - q + 1
    };
    let mut r: Vec<Vec<char>> = Vec::new();
    let mut i: usize = 0;
    while i < count
        invariant
            1 <= q,
            n == s@.len(),
            count == gram_count(s@.len(), q as nat),
            count <= s@.len(),
            count > 0 ==> q <= s@.len(),
            i <= count,
            r@.len() == i,
            forall|t: int| 0 <= t < i ==> (#[trigger] r@[t])@ == s@.subrange(t, t + q),
            list_mset(r@, i as int) == grams_upto(s@, q as nat, i as int),
        decreases count - i,
    {
        proof {
            assert(gram_count(s@.len(), q as nat) == s@.len() - q + 1);
            assert(i + q <= s@.len());
        }
        let g = crate::utils::slice_range(s, i, i + q);
        let ghost old_r = r@;
        r.push(g);
        proof {
            lemma_list_mset_push(old_r, r@, i as int);
        }
        i += 1;
    }
    r
}

/// The multiset of the views of the first `i` entries of a list of
/// fragments.
pub open spec fn list_mset(l: Seq<Vec<char>>, i: int) -> Multiset<Seq<char>>
    decreases i,
{
    if i <= 0 {
        Multiset::empty()
    } else {
        list_mset(l, i - 1).insert(l[i - 1]@)
    }
}

/// Appending to a list leaves the multiset of its existing prefix unchanged.
proof fn lemma_list_mset_push(l: Seq<Vec<char>>, l2: Seq<Vec<char>>, i: int)
    requires
        0 <= i,
        l2.len() >= i,
        forall|t: int| 0 <= t < i ==> l2[t] == l[t],
    ensures
        list_mset(l2, i) == list_mset(l, i),
    decreases i,
{
    if i > 0 {
        lemma_list_mset_push(l, l2, i - 1);
    }
}

/// A reconciliation table: one row per distinct fragment, with the
/// fragment's occurrence count in each input.
pub type GramTable = Vec<(Vec<char>, usize, usize)>;

/// `g` occurs as a key among rows `i..` of the table.
pub open spec fn key_from(tbl: Seq<(Vec<char>, usize, usize)>, i: int, g: Seq<char>) -> bool {
    exists|t: int| i <= t < tbl.len() && (#[trigger] tbl[t]).0@ == g
}

/// The table rows `i..` faithfully describe the two fragment multisets:
/// keys are distinct, every row carries the exact occurrence counts of its
/// key, and every fragment of either multiset has a row.
pub open spec fn table_describes(
    tbl: Seq<(Vec<char>, usize, usize)>,
    am: Multiset<Seq<char>>,
    bm: Multiset<Seq<char>>,
    i: int,
) -> bool {
    &&& 0 <= i <= tbl.len()
    &&& forall|s: int, t: int|
        i <= s < t < tbl.len() ==> (#[trigger] tbl[s]).0@ != (#[trigger] tbl[t]).0@
    &&& forall|t: int|
        i <= t < tbl.len() ==> (#[trigger] tbl[t]).1 == am.count(tbl[t].0@) && tbl[t].2
            == bm.count(tbl[t].0@)
    &&& forall|g: Seq<char>| am.count(g) > 0 ==> key_from(tbl, i, g)
    &&& forall|g: Seq<char>| bm.count(g) > 0 ==> key_from(tbl, i, g)
}

/// The absolute difference of two numbers.
pub open spec fn absdiff(x: nat, y: nat) -> nat {
    if x >= y {
        (x - y) as nat
    } else {
        (y - x) as nat
    }
}

/// `x - y`, cut off at zero.
pub open spec fn clip0(x: nat, y: nat) -> nat {
    if x >= y {
        (x - y) as nat
    } else {
        0
    }
}

/// Sum of the per-row absolute count differences, over rows `i..`.
pub open spec fn sum_absdiff(tbl: Seq<(Vec<char>, usize, usize)>, i: int) -> nat
    decreases tbl.len() - i,
{
    if i < 0 || i >= tbl.len() {
        0
    } else {
        absdiff(tbl[i].1 as nat, tbl[i].2 as nat) + sum_absdiff(tbl, i + 1)
    }
}

/// Number of rows `i..` whose first count is positive.
pub open spec fn count_pos_a(tbl: Seq<(Vec<char>, usize, usize)>, i: int) -> nat
    decreases tbl.len() - i,
{
    if i < 0 || i >= tbl.len() {
        0
    } else {
        (if tbl[i].1 > 0 {
            1nat
        } else {
            0nat
        }) + count_pos_a(tbl, i + 1)
    }
}

/// Number of rows `i..` whose second count is positive.
pub open spec fn count_pos_b(tbl: Seq<(Vec<char>, usize, usize)>, i: int) -> nat
    decreases tbl.len() - i,
{
    if i < 0 || i >= tbl.len() {
        0
    } else {
        (if tbl[i].2 > 0 {
            1nat
        } else {
            0nat
        }) + count_pos_b(tbl, i + 1)
    }
}

/// Number of rows `i..` with both counts positive.
pub open spec fn count_pos_both(tbl: Seq<(Vec<char>, usize, usize)>, i: int) -> nat
    decreases tbl.len() - i,
{
    if i < 0 || i >= tbl.len() {
        0
    } else {
        (if tbl[i].1 > 0 && tbl[i].2 > 0 {
            1nat
        } else {
            0nat
        }) + count_pos_both(tbl, i + 1)
    }
}

/// Sum of the per-row count products, over rows `i..`.
pub open spec fn dot_from(tbl: Seq<(Vec<char>, usize, usize)>, i: int) -> nat
    decreases tbl.len() - i,
{
    if i < 0 || i >= tbl.len() {
        0
    } else {
        (tbl[i].1 * tbl[i].2) as nat + dot_from(tbl, i + 1)
    }
}

/// Sum of the squared first counts, over rows `i..`.
pub open spec fn norm_a_from(tbl: Seq<(Vec<char>, usize, usize)>, i: int) -> nat
    decreases tbl.len() - i,
{
    if i < 0 || i >= tbl.len() {
        0
    } else {
        (tbl[i].1 * tbl[i].1) as nat + norm_a_from(tbl, i + 1)
    }
}

/// Sum of the squared second counts, over rows `i..`.
pub open spec fn norm_b_from(tbl: Seq<(Vec<char>, usize, usize)>, i: int) -> nat
    decreases tbl.len() - i,
{
    if i < 0 || i >= tbl.len() {
        0
    } else {
        (tbl[i].2 * tbl[i].2) as nat + norm_b_from(tbl, i + 1)
    }
}

/// `n` copies of the fragment `g`.
spec fn repeat_m(g: Seq<char>, n: nat) -> Multiset<Seq<char>>
    decreases n,
{
    if n == 0 {
        Multiset::empty()
    } else {
        repeat_m(g, (n - 1) as nat).insert(g)
    }
}

proof fn lemma_repeat_m(g: Seq<char>, n: nat)
    ensures
        repeat_m(g, n).len() == n,
        forall|w: Seq<char>|
            #[trigger] repeat_m(g, n).count(w) == if w == g {
                n
            } else {
                0nat
            },
    decreases n,
{
    if n > 0 {
        lemma_repeat_m(g, (n - 1) as nat);
    }
}

/// Zeroing one value's multiplicity removes exactly that many elements.
proof fn lemma_update_zero(m: Multiset<Seq<char>>, g: Seq<char>)
    ensures
        m.update(g, 0).len() == m.len() - m.count(g),
        m.update(g, 0).count(g) == 0,
        forall|w: Seq<char>|
            w != g ==> #[trigger] m.update(g, 0).count(w) == m.count(w),
{
    lemma_repeat_m(g, m.count(g));
    assert(m =~= m.update(g, 0).add(repeat_m(g, m.count(g))));
}

/// The sum, over the values of `a`, of the product of the multiplicities in
/// `a` and `b`. With `b == a` this is the squared Euclidean norm of `a`'s
/// multiplicity vector.
pub open spec fn dot_m(a: Multiset<Seq<char>>, b: Multiset<Seq<char>>) -> nat
    decreases a.len(),
    via dot_m_decreases
{
    if a.len() == 0 {
        0
    } else {
        let g = a.choose();
        a.count(g) * b.count(g) + dot_m(a.update(g, 0), b.update(g, 0))
    }
}

#[via_fn]
proof fn dot_m_decreases(a: Multiset<Seq<char>>, b: Multiset<Seq<char>>) {
    if a.len() != 0 {
        lemma_update_zero(a, a.choose());
    }
}

/// Zeroing a value that `a` does not contain leaves the sum unchanged.
proof fn lemma_dot_m_irrelevant(a: Multiset<Seq<char>>, b: Multiset<Seq<char>>, g: Seq<char>)
    requires
        a.count(g) == 0,
    ensures
        dot_m(a, b.update(g, 0)) == dot_m(a, b),
    decreases a.len(),
{
    if a.len() != 0 {
        let h = a.choose();
        assert(h != g);
        lemma_update_zero(a, h);
        lemma_update_zero(b, h);
        lemma_update_zero(b.update(g, 0), h);
        lemma_update_zero(b.update(h, 0), g);
        assert(b.update(g, 0).update(h, 0) =~= b.update(h, 0).update(g, 0));
        assert(a.update(h, 0).count(g) == 0);
        lemma_dot_m_irrelevant(a.update(h, 0), b.update(h, 0), g);
        assert(b.update(g, 0).count(h) == b.count(h));
    }
}

/// Splitting off any one value of `a` from the sum.
proof fn lemma_dot_m_remove(a: Multiset<Seq<char>>, b: Multiset<Seq<char>>, g: Seq<char>)
    requires
        a.count(g) > 0,
    ensures
        dot_m(a, b) == a.count(g) * b.count(g) + dot_m(a.update(g, 0), b.update(g, 0)),
    decreases a.len(),
{
    let h = a.choose();
    assert(a.len() > 0);
    if h == g {
    } else {
        let a1 = a.update(h, 0);
        let b1 = b.update(h, 0);
        let ag = a.update(g, 0);
        let bg = b.update(g, 0);
        lemma_update_zero(a, h);
        lemma_update_zero(a, g);
        assert(a1.count(g) == a.count(g));
        lemma_dot_m_remove(a1, b1, g);
        assert(ag.count(h) == a.count(h));
        lemma_dot_m_remove(ag, bg, h);
        assert(ag.update(h, 0) =~= a1.update(g, 0));
        assert(bg.update(h, 0) =~= b1.update(g, 0));
        assert(b1.count(g) == b.count(g));
        assert(bg.count(h) == b.count(h));
    }
}

/// The sum of products is at most the product of the two total sizes.
pub proof fn lemma_dot_m_bound(a: Multiset<Seq<char>>, b: Multiset<Seq<char>>)
    ensures
        dot_m(a, b) <= a.len() * b.len(),
    decreases a.len(),
{
    if a.len() != 0 {
        let g = a.choose();
        let ca = a.count(g);
        let cb = b.count(g);
        lemma_update_zero(a, g);
        lemma_update_zero(b, g);
        lemma_dot_m_bound(a.update(g, 0), b.update(g, 0));
        assert(ca * cb + (a.len() - ca) * (b.len() - cb) <= a.len() * b.len())
            by (nonlinear_arith)
            requires
                0 < ca <= a.len(),
                0 <= cb <= b.len(),
        {};
        assert(a.update(g, 0).len() * b.update(g, 0).len() <= (a.len() - ca) * (b.len() - cb))
            by (nonlinear_arith)
            requires
                a.update(g, 0).len() == a.len() - ca,
                b.update(g, 0).len() <= b.len() - cb,
                0 <= a.len() - ca,
                0 <= b.len() - cb,
        {};
    }
}

/// The views of a list of fragments.
pub open spec fn view_seq(l: Seq<Vec<char>>) -> Seq<Seq<char>> {
    Seq::new(l.len(), |i: int| l[i]@)
}

/// The distinct values among the first `i` entries of `l`, in order of first
/// occurrence.
pub open spec fn dedup_keys(l: Seq<Seq<char>>, i: int) -> Seq<Seq<char>>
    decreases i,
{
    if i <= 0 {
        Seq::empty()
    } else {
        let d = dedup_keys(l, i - 1);
        if d.contains(l[i - 1]) {
            d
        } else {
            d.push(l[i - 1])
        }
    }
}

/// Deduplication looks only at the first `i` entries.
proof fn lemma_dedup_keys_prefix(l1: Seq<Seq<char>>, l2: Seq<Seq<char>>, i: int)
    requires
        0 <= i <= l1.len(),
        i <= l2.len(),
        forall|t: int| 0 <= t < i ==> l1[t] == l2[t],
    ensures
        dedup_keys(l1, i) == dedup_keys(l2, i),
    decreases i,
{
    if i > 0 {
        lemma_dedup_keys_prefix(l1, l2, i - 1);
    }
}

/// A value is among the deduplicated keys exactly if it occurs in the list.
proof fn lemma_dedup_keys_contains(l: Seq<Seq<char>>, i: int, g: Seq<char>)
    requires
        0 <= i <= l.len(),
    ensures
        dedup_keys(l, i).contains(g) <==> exists|t: int| 0 <= t < i && l[t] == g,
    decreases i,
{
    if i > 0 {
        lemma_dedup_keys_contains(l, i - 1, g);
        let d = dedup_keys(l, i - 1);
        let dp = dedup_keys(l, i);
        if dp.contains(g) {
            if g == l[i - 1] {
                assert(0 <= i - 1 < i && l[i - 1] == g);
            } else {
                let t = choose|t: int| 0 <= t < dp.len() && (#[trigger] dp[t]) == g;
                if !d.contains(l[i - 1]) {
                    assert(t < d.len());
                }
                assert(d[t] == g);
                assert(d.contains(g));
                let u = choose|u: int| 0 <= u < i - 1 && l[u] == g;
                assert(0 <= u < i && l[u] == g);
            }
        }
        if exists|t: int| 0 <= t < i && l[t] == g {
            let t = choose|t: int| 0 <= t < i && l[t] == g;
            if t == i - 1 {
                if d.contains(l[i - 1]) {
                    assert(dp == d);
                    assert(d.contains(g));
                } else {
                    assert(dp[d.len() as int] == g);
                    assert(dp.contains(g));
                }
            } else {
                assert(0 <= t < i - 1 && l[t] == g);
                assert(d.contains(g));
                if !d.contains(l[i - 1]) {
                    let u = choose|u: int| 0 <= u < d.len() && (#[trigger] d[u]) == g;
                    assert(dp[u] == g);
                    assert(dp.contains(g));
                }
            }
        }
    }
}

/// The deduplicated keys are pairwise distinct.
proof fn lemma_dedup_keys_distinct(l: Seq<Seq<char>>, i: int)
    requires
        0 <= i <= l.len(),
    ensures
        forall|s: int, t: int|
            0 <= s < t < dedup_keys(l, i).len() ==> #[trigger] dedup_keys(l, i)[s]
                != #[trigger] dedup_keys(l, i)[t],
    decreases i,
{
    if i > 0 {
        lemma_dedup_keys_distinct(l, i - 1);
        let d = dedup_keys(l, i - 1);
        if !d.contains(l[i - 1]) {
            assert forall|s: int, t: int|
                0 <= s < t < dedup_keys(l, i).len() implies #[trigger] dedup_keys(l, i)[s]
                != #[trigger] dedup_keys(l, i)[t] by {
                if t == d.len() {
                    assert(dedup_keys(l, i)[s] == d[s]);
                    assert(!d.contains(l[i - 1]));
                    assert(d[s] != l[i - 1]);
                } else {
                    assert(dedup_keys(l, i)[s] == d[s]);
                    assert(dedup_keys(l, i)[t] == d[t]);
                }
            }
        }
    }
}

/// The multiset of the first `i` fragments holds `i` fragments.
proof fn lemma_list_mset_len(l: Seq<Vec<char>>, i: int)
    requires
        0 <= i <= l.len(),
    ensures
        list_mset(l, i).len() == i,
    decreases i,
{
    if i > 0 {
        lemma_list_mset_len(l, i - 1);
    }
}

/// A fragment has a positive count exactly if it occurs in the list prefix.
proof fn lemma_list_mset_contains(l: Seq<Vec<char>>, i: int, g: Seq<char>)
    requires
        0 <= i <= l.len(),
    ensures
        list_mset(l, i).count(g) > 0 <==> exists|t: int| 0 <= t < i && (#[trigger] l[t])@ == g,
    decreases i,
{
    if i > 0 {
        lemma_list_mset_contains(l, i - 1, g);
        if list_mset(l, i - 1).count(g) > 0 {
            let t = choose|t: int| 0 <= t < i - 1 && (#[trigger] l[t])@ == g;
            assert(0 <= t < i && l[t]@ == g);
        }
    }
}

/// Zips the three columns of a reconciliation table into rows.
pub open spec fn zip3(keys: Seq<Vec<char>>, ca: Seq<usize>, cb: Seq<usize>) -> Seq<
    (Vec<char>, usize, usize),
> {
    Seq::new(keys.len(), |i: int| (keys[i], ca[i], cb[i]))
}

/// Finds the row whose key is `g`, if there is one.
fn find_key(keys: &Vec<Vec<char>>, g: &[char]) -> (r: Option<usize>)
    ensures
        match r {
            Option::Some(t) => t < keys@.len() && keys@[t as int]@ == g@,
            Option::None => forall|t: int| 0 <= t < keys@.len() ==> (#[trigger] keys@[t])@ != g@,
        },
{
    let mut t: usize = 0;
    while t < keys.len()
        invariant
            t <= keys@.len(),
            forall|s: int| 0 <= s < t ==> (#[trigger] keys@[s])@ != g@,
        decreases keys@.len() - t,
    {
        if crate::utils::vec_eq(keys[t].as_slice(), g) {
            return Some(t);
        }
        t += 1;
    }
    None
}

/// Builds the reconciliation table of two fragment lists: one row per
/// distinct fragment, first the fragments of `ga` in order of first
/// occurrence, then the fragments only `gb` has, with the occurrence counts
/// of every row's key in both lists.
fn count_grams(ga: &Vec<Vec<char>>, gb: &Vec<Vec<char>>) -> (r: (
    Vec<Vec<char>>,
    Vec<usize>,
    Vec<usize>,
))
    ensures
        r.0@.len() == r.1@.len() && r.0@.len() == r.2@.len(),
        view_seq(r.0@) == dedup_keys(
            view_seq(ga@) + view_seq(gb@),
            (ga@.len() + gb@.len()) as int,
        ),
        table_describes(
            zip3(r.0@, r.1@, r.2@),
            list_mset(ga@, ga@.len() as int),
            list_mset(gb@, gb@.len() as int),
            0,
        ),
{
    let n_a = ga.len();
    let n_b = gb.len();
    let ghost va = view_seq(ga@);
    let ghost vb = view_seq(gb@);
    let ghost am = list_mset(ga@, ga@.len() as int);
    let ghost bm = list_mset(gb@, gb@.len() as int);
    let mut keys: Vec<Vec<char>> = Vec::new();
    let mut ca: Vec<usize> = Vec::new();
    let mut cb: Vec<usize> = Vec::new();

    let mut i: usize = 0;
    while i < n_a
        invariant
            n_a == ga@.len(),
            i <= n_a,
            va == view_seq(ga@),
            keys@.len() == ca@.len() && keys@.len() == cb@.len(),
            view_seq(keys@) == dedup_keys(va, i as int),
            forall|t: int|
                0 <= t < keys@.len() ==> ca@[t] == list_mset(ga@, i as int).count(
                    (#[trigger] keys@[t])@,
                ),
            forall|t: int| 0 <= t < keys@.len() ==> (#[trigger] cb@[t]) == 0,
        decreases n_a - i,
    {
        let g = &ga[i];
        proof {
            assert(va[i as int] == g@);
            lemma_list_mset_len(ga@, i as int);
            assert(list_mset(ga@, i + 1) == list_mset(ga@, i as int).insert(ga@[i as int]@));
        }
        match find_key(&keys, g.as_slice()) {
            Option::Some(t) => {
                let c = ca[t];
                proof {
                    assert(list_mset(ga@, i as int).count(keys@[t as int]@) == c);
                }
                ca.set(t, c + 1);
                proof {
                    assert(view_seq(keys@).contains(va[i as int])) by {
                        assert(view_seq(keys@)[t as int] == va[i as int]);
                    }
                    assert(dedup_keys(va, i + 1) == dedup_keys(va, i as int));
                    lemma_dedup_keys_distinct(va, i as int);
                    assert forall|u: int| 0 <= u < keys@.len() && u != t implies (
                    #[trigger] keys@[u])@ != va[i as int] by {
                        assert(view_seq(keys@)[u] == keys@[u]@);
                        assert(view_seq(keys@)[t as int] == keys@[t as int]@);
                    }
                }
            },
            Option::None => {
                proof {
                    let dd = dedup_keys(va, i as int);
                    assert(!dd.contains(va[i as int])) by {
                        if dd.contains(va[i as int]) {
                            let s = choose|s: int|
                                0 <= s < dd.len() && (#[trigger] dd[s]) == va[i as int];
                            assert(view_seq(keys@)[s] == keys@[s]@);
                        }
                    }
                    lemma_list_mset_contains(ga@, i as int, va[i as int]);
                    lemma_dedup_keys_contains(va, i as int, va[i as int]);
                }
                let k = crate::utils::slice_range(g.as_slice(), 0, g.len());
                proof {
                    assert(k@ =~= g@);
                }
                let ghost keys0 = keys@;
                keys.push(k);
                ca.push(1);
                cb.push(0);
                proof {
                    assert(view_seq(keys@) =~= dedup_keys(va, i + 1)) by {
                        assert(dedup_keys(va, i + 1) == dedup_keys(va, i as int).push(
                            va[i as int],
                        ));
                        assert forall|u: int| 0 <= u < keys0.len() implies (
                        #[trigger] keys@[u])@ == dedup_keys(va, i as int)[u] by {
                            assert(keys@[u] == keys0[u]);
                            assert(view_seq(keys0)[u] == keys0[u]@);
                        }
                    }
                    assert(list_mset(ga@, i as int).count(va[i as int]) == 0) by {
                        assert forall|t: int| 0 <= t < i implies (#[trigger] ga@[t])@ == va[
                            t
                        ] by {}
                    }
                    assert forall|u: int| 0 <= u < keys0.len() implies (#[trigger] keys@[u])@
                        != va[i as int] by {
                        assert(keys@[u] == keys0[u]);
                    }
                }
            },
        }
        proof {
            assert forall|t: int| 0 <= t < keys@.len() implies ca@[t] == list_mset(
                ga@,
                i + 1,
            ).count((#[trigger] keys@[t])@) by {}
        }
        i += 1;
    }
    proof {
        lemma_dedup_keys_prefix(va + vb, va, n_a as int);
        assert(view_seq(keys@) == dedup_keys(va + vb, n_a as int));
    }

    let mut i: usize = 0;
    while i < n_b
        invariant
            n_a == ga@.len(),
            n_b == gb@.len(),
            i <= n_b,
            va == view_seq(ga@),
            vb == view_seq(gb@),
            am == list_mset(ga@, ga@.len() as int),
            keys@.len() == ca@.len() && keys@.len() == cb@.len(),
            view_seq(keys@) == dedup_keys(va + vb, n_a + i),
            forall|t: int|
                0 <= t < keys@.len() ==> ca@[t] == am.count((#[trigger] keys@[t])@),
            forall|t: int|
                0 <= t < keys@.len() ==> cb@[t] == list_mset(gb@, i as int).count(
                    (#[trigger] keys@[t])@,
                ),
        decreases n_b - i,
    {
        let g = &gb[i];
        proof {
            assert(vb[i as int] == g@);
            assert((va + vb)[n_a + i] == vb[i as int]);
            lemma_list_mset_len(gb@, i as int);
            assert(list_mset(gb@, i + 1) == list_mset(gb@, i as int).insert(gb@[i as int]@));
        }
        match find_key(&keys, g.as_slice()) {
            Option::Some(t) => {
                let c = cb[t];
                proof {
                    assert(list_mset(gb@, i as int).count(keys@[t as int]@) == c);
                }
                cb.set(t, c + 1);
                proof {
                    assert(view_seq(keys@).contains((va + vb)[n_a + i])) by {
                        assert(view_seq(keys@)[t as int] == vb[i as int]);
                    }
                    assert(dedup_keys(va + vb, n_a + i + 1) == dedup_keys(va + vb, n_a + i));
                    lemma_dedup_keys_distinct(va + vb, n_a + i);
                    assert forall|u: int| 0 <= u < keys@.len() && u != t implies (
                    #[trigger] keys@[u])@ != vb[i as int] by {
                        assert(view_seq(keys@)[u] == keys@[u]@);
                        assert(view_seq(keys@)[t as int] == keys@[t as int]@);
                    }
                }
            },
            Option::None => {
                proof {
                    let dd = dedup_keys(va + vb, n_a + i);
                    assert(!dd.contains(vb[i as int])) by {
                        if dd.contains(vb[i as int]) {
                            let s = choose|s: int|
                                0 <= s < dd.len() && (#[trigger] dd[s]) == vb[i as int];
                            assert(view_seq(keys@)[s] == keys@[s]@);
                        }
                    }
                    lemma_dedup_keys_contains(va + vb, n_a + i, vb[i as int]);
                    lemma_list_mset_contains(ga@, n_a as int, vb[i as int]);
                    assert forall|t: int| 0 <= t < n_a implies (#[trigger] ga@[t])@ != vb[
                        i as int
                    ] by {
                        assert((va + vb)[t] == va[t]);
                        assert(va[t] == ga@[t]@);
                    }
                    lemma_list_mset_contains(gb@, i as int, vb[i as int]);
                    assert forall|t: int| 0 <= t < i implies (#[trigger] gb@[t])@ != vb[
                        i as int
                    ] by {
                        assert((va + vb)[n_a + t] == vb[t]);
                        assert(vb[t] == gb@[t]@);
                    }
                }
                let k = crate::utils::slice_range(g.as_slice(), 0, g.len());
                proof {
                    assert(k@ =~= g@);
                }
                let ghost keys0 = keys@;
                keys.push(k);
                ca.push(0);
                cb.push(1);
                proof {
                    assert(view_seq(keys@) =~= dedup_keys(va + vb, n_a + i + 1)) by {
                        assert(dedup_keys(va + vb, n_a + i + 1) == dedup_keys(
                            va + vb,
                            n_a + i,
                        ).push(vb[i as int]));
                        assert forall|u: int| 0 <= u < keys0.len() implies (
                        #[trigger] keys@[u])@ == dedup_keys(va + vb, n_a + i)[u] by {
                            assert(keys@[u] == keys0[u]);
                            assert(view_seq(keys0)[u] == keys0[u]@);
                        }
                    }
                    assert(list_mset(gb@, i as int).count(vb[i as int]) == 0);
                    assert(am.count(vb[i as int]) == 0);
                    assert forall|u: int| 0 <= u < keys0.len() implies (#[trigger] keys@[u])@
                        != vb[i as int] by {
                        assert(keys@[u] == keys0[u]);
                    }
                }
            },
        }
        proof {
            assert forall|t: int| 0 <= t < keys@.len() implies cb@[t] == list_mset(
                gb@,
                i + 1,
            ).count((#[trigger] keys@[t])@) by {}
        }
        i += 1;
    }

    proof {
        let tbl = zip3(keys@, ca@, cb@);
        let all = va + vb;
        let n: int = n_a + n_b;
        lemma_dedup_keys_distinct(all, n);
        assert forall|s: int, t: int|
            0 <= s < t < tbl.len() implies (#[trigger] tbl[s]).0@ != (#[trigger] tbl[t]).0@ by {
            assert(view_seq(keys@)[s] == keys@[s]@);
            assert(view_seq(keys@)[t] == keys@[t]@);
        }
        assert forall|g: Seq<char>| am.count(g) > 0 implies key_from(tbl, 0, g) by {
            lemma_list_mset_contains(ga@, n_a as int, g);
            let t = choose|t: int| 0 <= t < n_a && (#[trigger] ga@[t])@ == g;
            assert(all[t] == va[t]);
            assert(va[t] == ga@[t]@);
            lemma_dedup_keys_contains(all, n, g);
            let dd = dedup_keys(all, n);
            let s = choose|s: int| 0 <= s < dd.len() && (#[trigger] dd[s]) == g;
            assert(view_seq(keys@)[s] == keys@[s]@);
            assert((tbl[s]).0@ == g);
        }
        assert forall|g: Seq<char>| bm.count(g) > 0 implies key_from(tbl, 0, g) by {
            lemma_list_mset_contains(gb@, n_b as int, g);
            let t = choose|t: int| 0 <= t < n_b && (#[trigger] gb@[t])@ == g;
            assert(all[n_a + t] == vb[t]);
            assert(vb[t] == gb@[t]@);
            lemma_dedup_keys_contains(all, n, g);
            let dd = dedup_keys(all, n);
            let s = choose|s: int| 0 <= s < dd.len() && (#[trigger] dd[s]) == g;
            assert(view_seq(keys@)[s] == keys@[s]@);
            assert((tbl[s]).0@ == g);
        }
        assert forall|t: int|
            0 <= t < tbl.len() implies (#[trigger] tbl[t]).1 == am.count(tbl[t].0@) && tbl[t].2
            == bm.count(tbl[t].0@) by {
            assert(tbl[t].0 == keys@[t]);
            assert(tbl[t].1 == ca@[t]);
            assert(tbl[t].2 == cb@[t]);
        }
    }
    (keys, ca, cb)
}

/// Evaluates a faithful reconciliation table against the two fragment
/// multisets: the row-wise sums and counts equal the corresponding multiset
/// and fragment-set quantities.
#[verifier::rlimit(60)]
pub proof fn lemma_table_eval(
    tbl: Seq<(Vec<char>, usize, usize)>,
    am: Multiset<Seq<char>>,
    bm: Multiset<Seq<char>>,
    i: int,
)
    requires
        table_describes(tbl, am, bm, i),
    ensures
        sum_absdiff(tbl, i) == am.sub(bm).len() + bm.sub(am).len(),
        am.sub(bm).len() <= am.len(),
        bm.sub(am).len() <= bm.len(),
        count_pos_a(tbl, i) == am.dom().len(),
        count_pos_b(tbl, i) == bm.dom().len(),
        count_pos_both(tbl, i) == am.dom().intersect(bm.dom()).len(),
        dot_from(tbl, i) == dot_m(am, bm),
        norm_a_from(tbl, i) == dot_m(am, am),
        norm_b_from(tbl, i) == dot_m(bm, bm),
    decreases tbl.len() - i,
{
    if i == tbl.len() {
        assert forall|g: Seq<char>| am.count(g) == 0 && bm.count(g) == 0 by {
            assert(!key_from(tbl, i, g)) by {
                assert forall|t: int|
                    !(i <= t < tbl.len() && (#[trigger] tbl[t]).0@ == g) by {}
            }
        }
        assert(am =~= Multiset::empty());
        assert(bm =~= Multiset::empty());
        assert(am.sub(bm) =~= Multiset::empty());
        assert(bm.sub(am) =~= Multiset::empty());
        assert(am.dom() =~= Set::<Seq<char>>::empty());
        assert(bm.dom() =~= Set::<Seq<char>>::empty());
        assert(am.dom().intersect(bm.dom()) =~= Set::<Seq<char>>::empty());
    } else {
        let k = tbl[i].0@;
        let ca = tbl[i].1 as nat;
        let cb = tbl[i].2 as nat;
        let am2 = am.update(k, 0);
        let bm2 = bm.update(k, 0);
        lemma_update_zero(am, k);
        lemma_update_zero(bm, k);
        assert forall|g: Seq<char>| am2.count(g) > 0 implies key_from(tbl, i + 1, g) by {
            assert(g != k);
            assert(am.count(g) > 0);
            assert(key_from(tbl, i, g));
            let t = choose|t: int| i <= t < tbl.len() && (#[trigger] tbl[t]).0@ == g;
            assert(tbl[t].0@ == g);
            assert(t != i);
        }
        assert forall|g: Seq<char>| bm2.count(g) > 0 implies key_from(tbl, i + 1, g) by {
            assert(g != k);
            assert(bm.count(g) > 0);
            assert(key_from(tbl, i, g));
            let t = choose|t: int| i <= t < tbl.len() && (#[trigger] tbl[t]).0@ == g;
            assert(tbl[t].0@ == g);
            assert(t != i);
        }
        lemma_table_eval(tbl, am2, bm2, i + 1);

        // symmetric-difference sizes
        lemma_repeat_m(k, clip0(ca, cb));
        lemma_repeat_m(k, clip0(cb, ca));
        assert(am.sub(bm) =~= am2.sub(bm2).add(repeat_m(k, clip0(ca, cb))));
        assert(bm.sub(am) =~= bm2.sub(am2).add(repeat_m(k, clip0(cb, ca))));
        assert(absdiff(ca, cb) == clip0(ca, cb) + clip0(cb, ca));

        // distinct-fragment counts
        assert(am2.dom() =~= am.dom().remove(k));
        assert(bm2.dom() =~= bm.dom().remove(k));
        assert(am2.dom().intersect(bm2.dom()) =~= am.dom().intersect(bm.dom()).remove(k));
        if ca > 0 {
            assert(am.dom().contains(k));
            assert(am.dom().remove(k).len() == am.dom().len() - 1);
        } else {
            assert(am.dom().remove(k) =~= am.dom());
        }
        if cb > 0 {
            assert(bm.dom().contains(k));
            assert(bm.dom().remove(k).len() == bm.dom().len() - 1);
        } else {
            assert(bm.dom().remove(k) =~= bm.dom());
        }
        if ca > 0 && cb > 0 {
            assert(am.dom().intersect(bm.dom()).contains(k));
            assert(am.dom().intersect(bm.dom()).remove(k).len() == am.dom().intersect(
                bm.dom(),
            ).len() - 1);
        } else {
            assert(am.dom().intersect(bm.dom()).remove(k) =~= am.dom().intersect(bm.dom()));
        }

        // dot products and squared norms
        assert(am.count(k) == ca && bm.count(k) == cb);
        assert(dot_from(tbl, i) == (tbl[i].1 * tbl[i].2) as nat + dot_from(tbl, i + 1));
        assert(norm_a_from(tbl, i) == (tbl[i].1 * tbl[i].1) as nat + norm_a_from(tbl, i + 1));
        assert(norm_b_from(tbl, i) == (tbl[i].2 * tbl[i].2) as nat + norm_b_from(tbl, i + 1));
        if ca > 0 {
            lemma_dot_m_remove(am, bm, k);
            lemma_dot_m_remove(am, am, k);
            assert(dot_m(am, bm) == ca * cb + dot_m(am2, bm2));
            assert(dot_m(am, am) == ca * ca + dot_m(am2, am2));
        } else {
            assert(am2 =~= am);
            lemma_dot_m_irrelevant(am, bm, k);
            assert(dot_m(am, bm) == dot_m(am2, bm2));
            assert(dot_m(am, am) == dot_m(am2, am2));
        }
        if cb > 0 {
            lemma_dot_m_remove(bm, bm, k);
            assert(dot_m(bm, bm) == cb * cb + dot_m(bm2, bm2));
        } else {
            assert(bm2 =~= bm);
            assert(dot_m(bm, bm) == dot_m(bm2, bm2));
        }
    }
}

/// Row-suffix sums only shrink as the suffix shrinks.
proof fn lemma_sums_monotone(tbl: Seq<(Vec<char>, usize, usize)>, i: int, j: int)
    requires
        0 <= i <= j,
    ensures
        sum_absdiff(tbl, j) <= sum_absdiff(tbl, i),
        dot_from(tbl, j) <= dot_from(tbl, i),
        norm_a_from(tbl, j) <= norm_a_from(tbl, i),
        norm_b_from(tbl, j) <= norm_b_from(tbl, i),
        count_pos_a(tbl, j) <= count_pos_a(tbl, i),
        count_pos_b(tbl, j) <= count_pos_b(tbl, i),
        count_pos_both(tbl, j) <= count_pos_both(tbl, i),
    decreases j - i,
{
    if i < j {
        lemma_sums_monotone(tbl, i + 1, j);
    }
}

/// Sums a reconciliation table's absolute count differences.
fn sum_table_absdiff(keys: &Vec<Vec<char>>, ca: &Vec<usize>, cb: &Vec<usize>) -> (r: usize)
    requires
        keys@.len() == ca@.len() && keys@.len() == cb@.len(),
        sum_absdiff(zip3(keys@, ca@, cb@), 0) <= usize::MAX,
    ensures
        r == sum_absdiff(zip3(keys@, ca@, cb@), 0),
{
    let ghost tbl = zip3(keys@, ca@, cb@);
    let mut acc: usize = 0;
    let mut j: usize = ca.len();
    while j > 0
        invariant
            keys@.len() == ca@.len() && keys@.len() == cb@.len(),
            tbl == zip3(keys@, ca@, cb@),
            j <= ca@.len(),
            sum_absdiff(tbl, 0) <= usize::MAX,
            acc == sum_absdiff(tbl, j as int),
        decreases j,
    {
        j -= 1;
        let x = ca[j];
        let y = cb[j];
        let d = if x >= y {
            x - y
        } else {
            y - x
        };
        proof {
            lemma_sums_monotone(tbl, j as int, ca@.len() as int);
            lemma_sums_monotone(tbl, 0, j as int);
            assert(tbl[j as int].1 == x && tbl[j as int].2 == y);
        }
        acc = acc + d;
    }
    acc
}

/// Counts the rows with a positive first count, a positive second count,
/// and both counts positive.
fn count_table_pos(keys: &Vec<Vec<char>>, ca: &Vec<usize>, cb: &Vec<usize>) -> (r: (
    usize,
    usize,
    usize,
))
    requires
        keys@.len() == ca@.len() && keys@.len() == cb@.len(),
    ensures
        r.0 == count_pos_a(zip3(keys@, ca@, cb@), 0),
        r.1 == count_pos_b(zip3(keys@, ca@, cb@), 0),
        r.2 == count_pos_both(zip3(keys@, ca@, cb@), 0),
{
    let ghost tbl = zip3(keys@, ca@, cb@);
    let mut da: usize = 0;
    let mut db: usize = 0;
    let mut both: usize = 0;
    let mut j: usize = ca.len();
    while j > 0
        invariant
            keys@.len() == ca@.len() && keys@.len() == cb@.len(),
            tbl == zip3(keys@, ca@, cb@),
            j <= ca@.len(),
            ca@.len() <= usize::MAX,
            da == count_pos_a(tbl, j as int),
            db == count_pos_b(tbl, j as int),
            both == count_pos_both(tbl, j as int),
            da <= ca@.len() - j,
            db <= ca@.len() - j,
            both <= ca@.len() - j,
        decreases j,
    {
        j -= 1;
        proof {
            assert(tbl[j as int].1 == ca@[j as int] && tbl[j as int].2 == cb@[j as int]);
        }
        if ca[j] > 0 {
            da = da + 1;
        }
        if cb[j] > 0 {
            db = db + 1;
        }
        if ca[j] > 0 && cb[j] > 0 {
            both = both + 1;
        }
    }
    (da, db, both)
}

/// Sums the count products and the squared counts of a table, for the
/// Cosine metric.
fn cosine_table_sums(keys: &Vec<Vec<char>>, ca: &Vec<usize>, cb: &Vec<usize>) -> (r: (
    u64,
    u64,
    u64,
))
    requires
        keys@.len() == ca@.len() && keys@.len() == cb@.len(),
        dot_from(zip3(keys@, ca@, cb@), 0) <= u64::MAX,
        norm_a_from(zip3(keys@, ca@, cb@), 0) <= u64::MAX,
        norm_b_from(zip3(keys@, ca@, cb@), 0) <= u64::MAX,
    ensures
        r.0 == dot_from(zip3(keys@, ca@, cb@), 0),
        r.1 == norm_a_from(zip3(keys@, ca@, cb@), 0),
        r.2 == norm_b_from(zip3(keys@, ca@, cb@), 0),
{
    let ghost tbl = zip3(keys@, ca@, cb@);
    let mut dot: u64 = 0;
    let mut na: u64 = 0;
    let mut nb: u64 = 0;
    let mut j: usize = ca.len();
    while j > 0
        invariant
            keys@.len() == ca@.len() && keys@.len() == cb@.len(),
            tbl == zip3(keys@, ca@, cb@),
            j <= ca@.len(),
            dot_from(tbl, 0) <= u64::MAX,
            norm_a_from(tbl, 0) <= u64::MAX,
            norm_b_from(tbl, 0) <= u64::MAX,
            dot == dot_from(tbl, j as int),
            na == norm_a_from(tbl, j as int),
            nb == norm_b_from(tbl, j as int),
        decreases j,
    {
        j -= 1;
        let x = ca[j];
        let y = cb[j];
        proof {
            lemma_sums_monotone(tbl, 0, j as int);
            assert(tbl[j as int].1 == x && tbl[j as int].2 == y);
        }
        dot = dot + (x as u64) * (y as u64);
        na = na + (x as u64) * (x as u64);
        nb = nb + (y as u64) * (y as u64);
    }
    (dot, na, nb)
}

/// The fragments of `s`, in window order, at the specification level.
pub open spec fn gram_views(s: Seq<char>, q: nat) -> Seq<Seq<char>> {
    Seq::new(gram_count(s.len(), q), |i: int| s.subrange(i, i + q))
}

/// Builds the reconciliation table of the two inputs' fragments.
fn tables_of(a: &[char], qa: usize, b: &[char], qb: usize) -> (r: (
    Vec<Vec<char>>,
    Vec<usize>,
    Vec<usize>,
))
    requires
        1 <= qa,
        1 <= qb,
    ensures
        r.0@.len() == r.1@.len() && r.0@.len() == r.2@.len(),
        r.0@.len() <= gram_count(a@.len(), qa as nat) + gram_count(b@.len(), qb as nat),
        view_seq(r.0@) == dedup_keys(
            gram_views(a@, qa as nat) + gram_views(b@, qb as nat),
            (gram_count(a@.len(), qa as nat) + gram_count(b@.len(), qb as nat)) as int,
        ),
        table_describes(
            zip3(r.0@, r.1@, r.2@),
            grams(a@, qa as nat),
            grams(b@, qb as nat),
            0,
        ),
{
    let ga = gram_list(a, qa);
    let gb = gram_list(b, qb);
    let r = count_grams(&ga, &gb);
    proof {
        assert(view_seq(ga@) =~= gram_views(a@, qa as nat));
        assert(view_seq(gb@) =~= gram_views(b@, qb as nat));
        lemma_dedup_keys_len(view_seq(ga@) + view_seq(gb@), (ga@.len() + gb@.len()) as int);
        assert(view_seq(r.0@).len() == r.0@.len());
    }
    r
}

/// There are no more deduplicated keys than list entries.
proof fn lemma_dedup_keys_len(l: Seq<Seq<char>>, i: int)
    ensures
        dedup_keys(l, i).len() <= if i >= 0 {
            i
        } else {
            0
        },
    decreases i,
{
    if i > 0 {
        lemma_dedup_keys_len(l, i - 1);
    }
}

/// The fragment multisets are no larger than the inputs.
proof fn lemma_grams_len(s: Seq<char>, q: nat)
    requires
        1 <= q,
    ensures
        grams(s, q).len() == gram_count(s.len(), q),
        grams(s, q).len() <= s.len(),
{
    lemma_grams_upto_len(s, q, gram_count(s.len(), q) as int);
}

/// The normalized raw q-gram distance: direct equality for inputs shorter
/// than the fragment length, `raw / (len_a + len_b - 2 q + 2)` otherwise.
pub open spec fn qgram_normalized(a: Seq<char>, b: Seq<char>, q: nat) -> (int, int) {
    let mn = if a.len() <= b.len() {
        a.len()
    } else {
        b.len()
    };
    if mn <= q {
        if a == b {
            (0, 1)
        } else {
            (1, 1)
        }
    } else {
        (qgram_dist(a, b, q) as int, a.len() + b.len() + 2 - 2 * q)
    }
}

/// The raw q-gram metric: the sum, over all distinct fragments, of the
/// absolute difference of the two occurrence counts.
#[derive(Debug, Clone)]
pub struct QGram {
    /// Length of the fragments compared.
    pub q: usize,
}

impl QGram {
    /// A q-gram metric with fragments of length `q`; `q` must be positive.
    pub fn new(q: usize) -> (r: Self)
        requires
            1 <= q,
        ensures
            r.q == q,
    {
        QGram { q }
    }

    /// The raw q-gram distance of two character slices.
    pub fn distance(&self, a: &[char], b: &[char]) -> (r: usize)
        requires
            1 <= self.q,
            a@.len() + b@.len() <= usize::MAX,
        ensures
            r == qgram_dist(a@, b@, self.q as nat),
    {
        let (keys, ca, cb) = tables_of(a, self.q, b, self.q);
        proof {
            lemma_table_eval(
                zip3(keys@, ca@, cb@),
                grams(a@, self.q as nat),
                grams(b@, self.q as nat),
                0,
            );
            lemma_grams_len(a@, self.q as nat);
            lemma_grams_len(b@, self.q as nat);
        }
        sum_table_absdiff(&keys, &ca, &cb)
    }

    /// The raw q-gram distance of two strings.
    pub fn str_distance(&self, a: &str, b: &str) -> (r: usize)
        requires
            1 <= self.q,
            a@.len() + b@.len() <= usize::MAX,
        ensures
            r == qgram_dist(a@, b@, self.q as nat),
    {
        let v1 = crate::utils::chars_of(a);
        let v2 = crate::utils::chars_of(b);
        self.distance(v1.as_slice(), v2.as_slice())
    }

    /// The q-gram distance normalized to `[0, 1]`.
    pub fn normalized(&self, a: &[char], b: &[char]) -> (r: Ratio)
        requires
            1 <= self.q,
            a@.len() + b@.len() <= usize::MAX,
            a@.len() <= u64::MAX,
            b@.len() <= u64::MAX,
        ensures
            r.wf(),
            (r.num as int, r.den as int) == qgram_normalized(a@, b@, self.q as nat),
    {
        let mn = if a.len() <= b.len() {
            a.len()
        } else {
            b.len()
        };
        if mn <= self.q {
            if crate::utils::vec_eq(a, b) {
                Ratio::zero()
            } else {
                Ratio::one()
            }
        } else {
            let d = self.distance(a, b);
            proof {
                lemma_table_eval_bounds(a@, b@, self.q as nat);
            }
            let den = a.len() + b.len() - 2 * self.q + 2;
            Ratio::new(d as u64, den as u64)
        }
    }

    /// The normalized q-gram distance of two strings.
    pub fn str_normalized(&self, a: &str, b: &str) -> (r: Ratio)
        requires
            1 <= self.q,
            a@.len() + b@.len() <= usize::MAX,
            a@.len() <= u64::MAX,
            b@.len() <= u64::MAX,
        ensures
            r.wf(),
            (r.num as int, r.den as int) == qgram_normalized(a@, b@, self.q as nat),
    {
        let v1 = crate::utils::chars_of(a);
        let v2 = crate::utils::chars_of(b);
        self.normalized(v1.as_slice(), v2.as_slice())
    }
}

/// The symmetric difference of the fragment multisets is at most the total
/// number of fragments.
proof fn lemma_table_eval_bounds(a: Seq<char>, b: Seq<char>, q: nat)
    requires
        1 <= q,
    ensures
        qgram_dist(a, b, q) <= gram_count(a.len(), q) + gram_count(b.len(), q),
{
    let am = grams(a, q);
    let bm = grams(b, q);
    lemma_grams_len(a, q);
    lemma_grams_len(b, q);
    lemma_sub_len_le(am, bm);
    lemma_sub_len_le(bm, am);
}

/// Saturating difference never grows a multiset.
proof fn lemma_sub_len_le(a: Multiset<Seq<char>>, b: Multiset<Seq<char>>)
    ensures
        a.sub(b).len() <= a.len(),
    decreases a.len(),
{
    if a.len() == 0 {
        assert forall|v: Seq<char>| a.count(v) == 0 by {}
        assert(a.sub(b) =~= Multiset::empty());
    } else {
        let g = a.choose();
        lemma_update_zero(a, g);
        lemma_update_zero(b, g);
        lemma_sub_len_le(a.update(g, 0), b.update(g, 0));
        lemma_repeat_m(g, clip0(a.count(g), b.count(g)));
        assert(a.sub(b) =~= a.update(g, 0).sub(b.update(g, 0)).add(
            repeat_m(g, clip0(a.count(g), b.count(g))),
        ));
    }
}

/// The distinct-fragment counts of the two inputs and of their overlap.
fn distinct_counts(a: &[char], qa: usize, b: &[char], qb: usize) -> (r: (usize, usize, usize))
    requires
        1 <= qa,
        1 <= qb,
    ensures
        r.0 == gram_set(a@, qa as nat).len(),
        r.1 == gram_set(b@, qb as nat).len(),
        r.2 == gram_set(a@, qa as nat).intersect(gram_set(b@, qb as nat)).len(),
        r.2 <= r.0 && r.2 <= r.1,
        r.0 + r.1 <= a@.len() + b@.len(),
{
    let (keys, ca, cb) = tables_of(a, qa, b, qb);
    let n = keys.len();
    let r = count_table_pos(&keys, &ca, &cb);
    proof {
        let am = grams(a@, qa as nat);
        let bm = grams(b@, qb as nat);
        lemma_table_eval(zip3(keys@, ca@, cb@), am, bm, 0);
        let sa = gram_set(a@, qa as nat);
        let sb = gram_set(b@, qb as nat);
        vstd::set_lib::lemma_len_intersect(sa, sb);
        vstd::set_lib::lemma_len_intersect(sb, sa);
        assert(sa.intersect(sb) =~= sb.intersect(sa));
        lemma_count_pos_le(zip3(keys@, ca@, cb@), 0);
        lemma_grams_len(a@, qa as nat);
        lemma_grams_len(b@, qb as nat);
        vstd::set_lib::lemma_len_subset(sa, am.dom());
        assert(sa.subset_of(am.dom()));
        lemma_dom_len_le(am);
        lemma_dom_len_le(bm);
    }
    r
}

/// A multiset has no more distinct values than elements.
proof fn lemma_dom_len_le(m: Multiset<Seq<char>>)
    ensures
        m.dom().len() <= m.len(),
    decreases m.len(),
{
    if m.len() == 0 {
        assert forall|v: Seq<char>| m.count(v) == 0 by {}
        assert(m.dom() =~= Set::<Seq<char>>::empty());
    } else {
        let g = m.choose();
        lemma_update_zero(m, g);
        lemma_dom_len_le(m.update(g, 0));
        assert(m.update(g, 0).dom() =~= m.dom().remove(g));
        assert(m.dom().contains(g));
        assert(m.dom().remove(g).len() == m.dom().len() - 1);
    }
}

/// Positive-count rows are no more numerous than rows.
proof fn lemma_count_pos_le(tbl: Seq<(Vec<char>, usize, usize)>, i: int)
    requires
        0 <= i <= tbl.len(),
    ensures
        count_pos_a(tbl, i) <= tbl.len() - i,
        count_pos_b(tbl, i) <= tbl.len() - i,
        count_pos_both(tbl, i) <= tbl.len() - i,
    decreases tbl.len() - i,
{
    if i < tbl.len() {
        lemma_count_pos_le(tbl, i + 1);
    }
}

/// The Jaccard distance of two inputs, over their distinct fragments:
/// `1 - |intersection| / |union|`. Defined as 0 when both fragment sets are
/// empty, and by the documented empty-input rule.
pub open spec fn jaccard_value(a: Seq<char>, b: Seq<char>, q: nat) -> (int, int) {
    if a.len() == 0 && b.len() == 0 {
        (0, 1)
    } else if a.len() == 0 || b.len() == 0 {
        (1, 1)
    } else {
        let da = gram_set(a, q).len();
        let db = gram_set(b, q).len();
        let i = gram_set(a, q).intersect(gram_set(b, q)).len();
        if da + db == i {
            (0, 1)
        } else {
            (da + db - 2 * i, da + db - i)
        }
    }
}

/// The Sorensen-Dice distance of two inputs:
/// `1 - 2 |intersection| / (|distinct A| + |distinct B|)`.
pub open spec fn dice_value(a: Seq<char>, b: Seq<char>, q: nat) -> (int, int) {
    if a.len() == 0 && b.len() == 0 {
        (0, 1)
    } else if a.len() == 0 || b.len() == 0 {
        (1, 1)
    } else {
        let da = gram_set(a, q).len();
        let db = gram_set(b, q).len();
        let i = gram_set(a, q).intersect(gram_set(b, q)).len();
        if da + db == 0 {
            (0, 1)
        } else {
            (da + db - 2 * i, (da + db) as int)
        }
    }
}

/// The Overlap distance of two inputs:
/// `1 - |intersection| / min(|distinct A|, |distinct B|)`.
pub open spec fn overlap_value(a: Seq<char>, b: Seq<char>, q: nat) -> (int, int) {
    if a.len() == 0 && b.len() == 0 {
        (0, 1)
    } else if a.len() == 0 || b.len() == 0 {
        (1, 1)
    } else {
        let da = gram_set(a, q).len();
        let db = gram_set(b, q).len();
        let i = gram_set(a, q).intersect(gram_set(b, q)).len();
        let mn = if da <= db {
            da
        } else {
            db
        };
        if mn == 0 {
            (0, 1)
        } else {
            (mn - i, mn as int)
        }
    }
}

/// The shared normalization of the fragment-set metrics: direct equality for
/// inputs shorter than the fragment length, the metric itself otherwise.
pub open spec fn short_input_normalized(
    a: Seq<char>,
    b: Seq<char>,
    q: nat,
    value: (int, int),
) -> (int, int) {
    let mn = if a.len() <= b.len() {
        a.len()
    } else {
        b.len()
    };
    if mn <= q {
        if a == b {
            (0, 1)
        } else {
            (1, 1)
        }
    } else {
        value
    }
}

/// The Jaccard metric over distinct length-`q` fragments.
#[derive(Debug, Clone)]
pub struct Jaccard {
    /// Length of the fragments compared.
    pub q: usize,
}

impl Jaccard {
    /// A Jaccard metric with fragments of length `q`; `q` must be positive.
    pub fn new(q: usize) -> (r: Self)
        requires
            1 <= q,
        ensures
            r.q == q,
            r.valid(),
    {
        Jaccard { q }
    }
}

impl Metric for Jaccard {
    open spec fn valid(&self) -> bool {
        1 <= self.q
    }

    open spec fn dist_spec(&self, a: Seq<char>, b: Seq<char>) -> (int, int) {
        jaccard_value(a, b, self.q as nat)
    }

    open spec fn str_dist_spec(&self, a: Seq<char>, b: Seq<char>) -> (int, int) {
        jaccard_value(a, b, self.q as nat)
    }

    open spec fn norm_spec(&self, a: Seq<char>, b: Seq<char>) -> (int, int) {
        short_input_normalized(a, b, self.q as nat, jaccard_value(a, b, self.q as nat))
    }

    fn distance(&self, a: &[char], b: &[char]) -> (r: Ratio) {
        if a.len() == 0 && b.len() == 0 {
            Ratio::zero()
        } else if a.len() == 0 || b.len() == 0 {
            Ratio::one()
        } else {
            let (da, db, i) = distinct_counts(a, self.q, b, self.q);
            if da + db == i {
                Ratio::zero()
            } else {
                Ratio::new((da + db - 2 * i) as u64, (da + db - i) as u64)
            }
        }
    }

    fn ordered_distance(&self, a: &[char], b: &[char]) -> (r: Ratio) {
        self.distance(a, b)
    }

    fn str_distance(&self, a: &str, b: &str) -> (r: Ratio) {
        let v1 = crate::utils::chars_of(a);
        let v2 = crate::utils::chars_of(b);
        self.distance(v1.as_slice(), v2.as_slice())
    }

    fn normalized(&self, a: &[char], b: &[char]) -> (r: Ratio) {
        let mn = if a.len() <= b.len() {
            a.len()
        } else {
            b.len()
        };
        if mn <= self.q {
            if crate::utils::vec_eq(a, b) {
                Ratio::zero()
            } else {
                Ratio::one()
            }
        } else {
            self.distance(a, b)
        }
    }
}

/// The Sorensen-Dice metric over distinct length-`q` fragments.
#[derive(Debug, Clone)]
pub struct SorensenDice {
    /// Length of the fragments compared.
    pub q: usize,
}

impl SorensenDice {
    /// A Sorensen-Dice metric with fragments of length `q`; `q` must be
    /// positive.
    pub fn new(q: usize) -> (r: Self)
        requires
            1 <= q,
        ensures
            r.q == q,
            r.valid(),
    {
        SorensenDice { q }
    }
}

impl Default for SorensenDice {
    /// Uses a bigram as the default fragment length.
    fn default() -> (r: Self)
        ensures
            r.q == 2,
            r.valid(),
    {
        SorensenDice { q: 2 }
    }
}

impl Metric for SorensenDice {
    open spec fn valid(&self) -> bool {
        1 <= self.q
    }

    open spec fn dist_spec(&self, a: Seq<char>, b: Seq<char>) -> (int, int) {
        dice_value(a, b, self.q as nat)
    }

    open spec fn str_dist_spec(&self, a: Seq<char>, b: Seq<char>) -> (int, int) {
        dice_value(a, b, self.q as nat)
    }

    open spec fn norm_spec(&self, a: Seq<char>, b: Seq<char>) -> (int, int) {
        short_input_normalized(a, b, self.q as nat, dice_value(a, b, self.q as nat))
    }

    fn distance(&self, a: &[char], b: &[char]) -> (r: Ratio) {
        if a.len() == 0 && b.len() == 0 {
            Ratio::zero()
        } else if a.len() == 0 || b.len() == 0 {
            Ratio::one()
        } else {
            let (da, db, i) = distinct_counts(a, self.q, b, self.q);
            if da + db == 0 {
                Ratio::zero()
            } else {
                Ratio::new((da + db - 2 * i) as u64, (da + db) as u64)
            }
        }
    }

    fn ordered_distance(&self, a: &[char], b: &[char]) -> (r: Ratio) {
        self.distance(a, b)
    }

    fn str_distance(&self, a: &str, b: &str) -> (r: Ratio) {
        let v1 = crate::utils::chars_of(a);
        let v2 = crate::utils::chars_of(b);
        self.distance(v1.as_slice(), v2.as_slice())
    }

    fn normalized(&self, a: &[char], b: &[char]) -> (r: Ratio) {
        let mn = if a.len() <= b.len() {
            a.len()
        } else {
            b.len()
        };
        if mn <= self.q {
            if crate::utils::vec_eq(a, b) {
                Ratio::zero()
            } else {
                Ratio::one()
            }
        } else {
            self.distance(a, b)
        }
    }
}

/// The Overlap metric over distinct length-`q` fragments.
#[derive(Debug, Clone)]
pub struct Overlap {
    /// Length of the fragments compared.
    pub q: usize,
}

impl Overlap {
    /// An Overlap metric with fragments of length `q`; `q` must be positive.
    pub fn new(q: usize) -> (r: Self)
        requires
            1 <= q,
        ensures
            r.q == q,
            r.valid(),
    {
        Overlap { q }
    }
}

impl Default for Overlap {
    /// Uses single elements as the default fragment length.
    fn default() -> (r: Self)
        ensures
            r.q == 1,
            r.valid(),
    {
        Overlap { q: 1 }
    }
}

impl Metric for Overlap {
    open spec fn valid(&self) -> bool {
        1 <= self.q
    }

    open spec fn dist_spec(&self, a: Seq<char>, b: Seq<char>) -> (int, int) {
        overlap_value(a, b, self.q as nat)
    }

    open spec fn str_dist_spec(&self, a: Seq<char>, b: Seq<char>) -> (int, int) {
        overlap_value(a, b, self.q as nat)
    }

    open spec fn norm_spec(&self, a: Seq<char>, b: Seq<char>) -> (int, int) {
        short_input_normalized(a, b, self.q as nat, overlap_value(a, b, self.q as nat))
    }

    fn distance(&self, a: &[char], b: &[char]) -> (r: Ratio) {
        if a.len() == 0 && b.len() == 0 {
            Ratio::zero()
        } else if a.len() == 0 || b.len() == 0 {
            Ratio::one()
        } else {
            let (da, db, i) = distinct_counts(a, self.q, b, self.q);
            let mn = if da <= db {
                da
            } else {
                db
            };
            if mn == 0 {
                Ratio::zero()
            } else {
                Ratio::new((mn - i) as u64, mn as u64)
            }
        }
    }

    fn ordered_distance(&self, a: &[char], b: &[char]) -> (r: Ratio) {
        self.distance(a, b)
    }

    fn str_distance(&self, a: &str, b: &str) -> (r: Ratio) {
        let v1 = crate::utils::chars_of(a);
        let v2 = crate::utils::chars_of(b);
        self.distance(v1.as_slice(), v2.as_slice())
    }

    fn normalized(&self, a: &[char], b: &[char]) -> (r: Ratio) {
        let mn = if a.len() <= b.len() {
            a.len()
        } else {
            b.len()
        };
        if mn <= self.q {
            if crate::utils::vec_eq(a, b) {
                Ratio::zero()
            } else {
                Ratio::one()
            }
        } else {
            self.distance(a, b)
        }
    }
}

/// The exact ingredients of a Cosine distance: the distance itself is
/// `1 - dot / (sqrt(norm_a_sq) * sqrt(norm_b_sq))`, which is irrational in
/// general, so the three integers are returned instead.
#[derive(Debug, Clone, Copy, PartialEq, Eq, Hash, Structural)]
pub struct CosineScore {
    /// Sum over all distinct fragments of the product of the two counts.
    pub dot: u64,
    /// Sum of the squared fragment counts of the first input.
    pub norm_a_sq: u64,
    /// Sum of the squared fragment counts of the second input.
    pub norm_b_sq: u64,
}

/// The Cosine score of two inputs. Degenerate inputs are folded to scores
/// whose value is exactly 0 (for two inputs with equal, empty fragment
/// multisets) or 1 (one side without fragments), so no division by zero is
/// left to the caller.
pub open spec fn cosine_value(a: Seq<char>, b: Seq<char>, q: nat) -> (int, int, int) {
    if a.len() == 0 && b.len() == 0 {
        (1, 1, 1)
    } else if a.len() == 0 || b.len() == 0 {
        (0, 1, 1)
    } else {
        let d = dot_m(grams(a, q), grams(b, q)) as int;
        let na = dot_m(grams(a, q), grams(a, q)) as int;
        let nb = dot_m(grams(b, q), grams(b, q)) as int;
        if na == 0 && nb == 0 {
            (1, 1, 1)
        } else if na == 0 || nb == 0 {
            (0, 1, 1)
        } else {
            (d, na, nb)
        }
    }
}

/// The normalized Cosine score: direct equality for inputs shorter than the
/// fragment length, the score itself otherwise.
pub open spec fn cosine_normalized(a: Seq<char>, b: Seq<char>, q: nat) -> (int, int, int) {
    let mn = if a.len() <= b.len() {
        a.len()
    } else {
        b.len()
    };
    if mn <= q {
        if a == b {
            (1, 1, 1)
        } else {
            (0, 1, 1)
        }
    } else {
        cosine_value(a, b, q)
    }
}

/// The Cosine metric over length-`q` fragment counts.
#[derive(Debug, Clone)]
pub struct Cosine {
    /// Length of the fragments compared.
    pub q: usize,
}

impl Cosine {
    /// A Cosine metric with fragments of length `q`; `q` must be positive.
    pub fn new(q: usize) -> (r: Self)
        requires
            1 <= q,
        ensures
            r.q == q,
    {
        Cosine { q }
    }

    /// The Cosine score of two character slices.
    pub fn distance(&self, a: &[char], b: &[char]) -> (r: CosineScore)
        requires
            1 <= self.q,
            a@.len() <= crate::MAX_SEQ_LEN,
            b@.len() <= crate::MAX_SEQ_LEN,
        ensures
            (r.dot as int, r.norm_a_sq as int, r.norm_b_sq as int) == cosine_value(
                a@,
                b@,
                self.q as nat,
            ),
    {
        if a.len() == 0 && b.len() == 0 {
            return CosineScore { dot: 1, norm_a_sq: 1, norm_b_sq: 1 };
        }
        if a.len() == 0 || b.len() == 0 {
            return CosineScore { dot: 0, norm_a_sq: 1, norm_b_sq: 1 };
        }
        let (keys, ca, cb) = tables_of(a, self.q, b, self.q);
        proof {
            let am = grams(a@, self.q as nat);
            let bm = grams(b@, self.q as nat);
            lemma_table_eval(zip3(keys@, ca@, cb@), am, bm, 0);
            lemma_grams_len(a@, self.q as nat);
            lemma_grams_len(b@, self.q as nat);
            lemma_dot_m_bound(am, bm);
            lemma_dot_m_bound(am, am);
            lemma_dot_m_bound(bm, bm);
            assert(am.len() * bm.len() <= crate::MAX_SEQ_LEN * crate::MAX_SEQ_LEN)
                by (nonlinear_arith)
                requires
                    am.len() <= crate::MAX_SEQ_LEN,
                    bm.len() <= crate::MAX_SEQ_LEN,
            {};
            assert(am.len() * am.len() <= crate::MAX_SEQ_LEN * crate::MAX_SEQ_LEN)
                by (nonlinear_arith)
                requires
                    am.len() <= crate::MAX_SEQ_LEN,
            {};
            assert(bm.len() * bm.len() <= crate::MAX_SEQ_LEN * crate::MAX_SEQ_LEN)
                by (nonlinear_arith)
                requires
                    bm.len() <= crate::MAX_SEQ_LEN,
            {};
        }
        let (dot, na, nb) = cosine_table_sums(&keys, &ca, &cb);
        if na == 0 && nb == 0 {
            CosineScore { dot: 1, norm_a_sq: 1, norm_b_sq: 1 }
        } else if na == 0 || nb == 0 {
            CosineScore { dot: 0, norm_a_sq: 1, norm_b_sq: 1 }
        } else {
            CosineScore { dot, norm_a_sq: na, norm_b_sq: nb }
        }
    }

    /// The Cosine score of two strings.
    pub fn str_distance(&self, a: &str, b: &str) -> (r: CosineScore)
        requires
            1 <= self.q,
            a@.len() <= crate::MAX_SEQ_LEN,
            b@.len() <= crate::MAX_SEQ_LEN,
        ensures
            (r.dot as int, r.norm_a_sq as int, r.norm_b_sq as int) == cosine_value(
                a@,
                b@,
                self.q as nat,
            ),
    {
        let v1 = crate::utils::chars_of(a);
        let v2 = crate::utils::chars_of(b);
        self.distance(v1.as_slice(), v2.as_slice())
    }

    /// The normalized Cosine score.
    pub fn normalized(&self, a: &[char], b: &[char]) -> (r: CosineScore)
        requires
            1 <= self.q,
            a@.len() <= crate::MAX_SEQ_LEN,
            b@.len() <= crate::MAX_SEQ_LEN,
        ensures
            (r.dot as int, r.norm_a_sq as int, r.norm_b_sq as int) == cosine_normalized(
                a@,
                b@,
                self.q as nat,
            ),
    {
        let mn = if a.len() <= b.len() {
            a.len()
        } else {
            b.len()
        };
        if mn <= self.q {
            if crate::utils::vec_eq(a, b) {
                CosineScore { dot: 1, norm_a_sq: 1, norm_b_sq: 1 }
            } else {
                CosineScore { dot: 0, norm_a_sq: 1, norm_b_sq: 1 }
            }
        } else {
            self.distance(a, b)
        }
    }
}

/// One pair of occurrence counts per distinct fragment of the two
/// iterators' inputs: first the fragments of the first input in order of
/// first occurrence, then the remaining fragments of the second input.
pub fn eq_map<'a, 'b>(a: QGramIter<'a>, b: QGramIter<'b>) -> (r: Vec<(usize, usize)>)
    requires
        1 <= a.chunk_size,
        1 <= b.chunk_size,
        a.index == 0,
        b.index == 0,
    ensures
        ({
            let keys = dedup_keys(
                gram_views(a.items@, a.chunk_size as nat) + gram_views(
                    b.items@,
                    b.chunk_size as nat,
                ),
                (gram_count(a.items@.len(), a.chunk_size as nat) + gram_count(
                    b.items@.len(),
                    b.chunk_size as nat,
                )) as int,
            );
            &&& r@.len() == keys.len()
            &&& forall|t: int|
                0 <= t < r@.len() ==> (#[trigger] r@[t]).0 == grams(
                    a.items@,
                    a.chunk_size as nat,
                ).count(keys[t]) && r@[t].1 == grams(b.items@, b.chunk_size as nat).count(
                    keys[t],
                )
        }),
{
    let (keys, ca, cb) = tables_of(a.items, a.chunk_size, b.items, b.chunk_size);
    let mut r: Vec<(usize, usize)> = Vec::new();
    let mut j: usize = 0;
    let n = keys.len();
    while j < n
        invariant
            n == keys@.len(),
            keys@.len() == ca@.len() && keys@.len() == cb@.len(),
            j <= n,
            r@.len() == j,
            forall|t: int| 0 <= t < j ==> #[trigger] r@[t] == (ca@[t], cb@[t]),
        decreases n - j,
    {
        r.push((ca[j], cb[j]));
        j += 1;
    }
    proof {
        let ghost tbl = zip3(keys@, ca@, cb@);
        assert forall|t: int| 0 <= t < r@.len() implies (#[trigger] r@[t]).0 == grams(
            a.items@,
            a.chunk_size as nat,
        ).count(view_seq(keys@)[t]) && r@[t].1 == grams(b.items@, b.chunk_size as nat).count(
            view_seq(keys@)[t],
        ) by {
            assert(tbl[t].1 == ca@[t] && tbl[t].2 == cb@[t] && tbl[t].0 == keys@[t]);
            assert(view_seq(keys@)[t] == keys@[t]@);
        }
    }
    r
}

/// The number of distinct fragments of each input, and of the fragments
/// they share.
pub fn count_distinct_intersect<'a, 'b>(a: QGramIter<'a>, b: QGramIter<'b>) -> (r: (
    usize,
    usize,
    usize,
))
    requires
        1 <= a.chunk_size,
        1 <= b.chunk_size,
        a.index == 0,
        b.index == 0,
    ensures
        r.0 == gram_set(a.items@, a.chunk_size as nat).len(),
        r.1 == gram_set(b.items@, b.chunk_size as nat).len(),
        r.2 == gram_set(a.items@, a.chunk_size as nat).intersect(
            gram_set(b.items@, b.chunk_size as nat),
        ).len(),
{
    distinct_counts(a.items, a.chunk_size, b.items, b.chunk_size)
}

/// Identical inputs are at q-gram distance zero.
pub proof fn lemma_qgram_dist_refl(a: Seq<char>, q: nat)
    ensures
        qgram_dist(a, a, q) == 0,
{
    let m = grams(a, q);
    assert(m.sub(m) =~= Multiset::empty());
}

/// The q-gram distance is symmetric in its two inputs.
pub proof fn lemma_qgram_dist_sym(a: Seq<char>, b: Seq<char>, q: nat)
    ensures
        qgram_dist(a, b, q) == qgram_dist(b, a, q),
{
}

/// Each fragment-set metric gives identical inputs the distance zero.
pub proof fn lemma_gram_set_refl(a: Seq<char>, q: nat)
    ensures
        jaccard_value(a, a, q).0 == 0,
        dice_value(a, a, q).0 == 0,
        overlap_value(a, a, q).0 == 0,
{
    let s = gram_set(a, q);
    assert(s.intersect(s) =~= s);
}

/// Each fragment-set metric is symmetric in its two inputs.
pub proof fn lemma_gram_set_sym(a: Seq<char>, b: Seq<char>, q: nat)
    ensures
        jaccard_value(a, b, q) == jaccard_value(b, a, q),
        dice_value(a, b, q) == dice_value(b, a, q),
        overlap_value(a, b, q) == overlap_value(b, a, q),
{
    assert(gram_set(a, q).intersect(gram_set(b, q)) =~= gram_set(b, q).intersect(
        gram_set(a, q),
    ));
}

/// A sum of products against an all-zero multiset is zero.
proof fn lemma_dot_m_right_zero(b: Multiset<Seq<char>>, a: Multiset<Seq<char>>)
    requires
        forall|g: Seq<char>| a.count(g) == 0,
    ensures
        dot_m(b, a) == 0,
    decreases b.len(),
{
    if b.len() != 0 {
        let g = b.choose();
        lemma_update_zero(b, g);
        lemma_update_zero(a, g);
        assert(a.update(g, 0) =~= a);
        lemma_dot_m_right_zero(b.update(g, 0), a);
    }
}

/// The sum of count products is symmetric in its two multisets.
pub proof fn lemma_dot_m_sym(a: Multiset<Seq<char>>, b: Multiset<Seq<char>>)
    ensures
        dot_m(a, b) == dot_m(b, a),
    decreases a.len(),
{
    if a.len() == 0 {
        assert forall|g: Seq<char>| a.count(g) == 0 by {}
        lemma_dot_m_right_zero(b, a);
    } else {
        let g = a.choose();
        lemma_update_zero(a, g);
        lemma_update_zero(b, g);
        if b.count(g) > 0 {
            lemma_dot_m_remove(b, a, g);
        } else {
            assert(b.update(g, 0) =~= b);
            lemma_dot_m_irrelevant(b, a, g);
        }
        lemma_dot_m_sym(a.update(g, 0), b.update(g, 0));
    }
}

/// Identical inputs have a Cosine score of exactly zero distance: the dot
/// product equals both squared norms.
pub proof fn lemma_cosine_refl(a: Seq<char>, q: nat)
    ensures
        cosine_value(a, a, q).0 == cosine_value(a, a, q).1,
        cosine_value(a, a, q).0 == cosine_value(a, a, q).2,
{
}

/// The Cosine score is symmetric in its two inputs, with the two squared
/// norms swapping places.
pub proof fn lemma_cosine_sym(a: Seq<char>, b: Seq<char>, q: nat)
    ensures
        cosine_value(a, b, q).0 == cosine_value(b, a, q).0,
        cosine_value(a, b, q).1 == cosine_value(b, a, q).2,
        cosine_value(a, b, q).2 == cosine_value(b, a, q).1,
{
    lemma_dot_m_sym(grams(a, q), grams(b, q));
}

} // verus!
