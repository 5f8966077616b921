//! Levenshtein and restricted Damerau-Levenshtein (optimal string alignment)
//! edit distances, each with an optional maximum-distance bound.

use vstd::prelude::*;

use crate::ratio::Ratio;
use crate::DistanceValue;

verus! {

/// Substitution cost: 0 for equal elements, 1 otherwise.
pub open spec fn cost(x: char, y: char) -> nat {
    if x == y {
        0
    } else {
        1
    }
}

/// Minimum of two natural numbers.
pub open spec fn min2(a: nat, b: nat) -> nat {
    if a <= b {
        a
    } else {
        b
    }
}

/// Minimum of three natural numbers.
pub open spec fn min3(a: nat, b: nat, c: nat) -> nat {
    min2(a, min2(b, c))
}

/// The Levenshtein edit distance: the minimum number of single-element
/// insertions, deletions and substitutions that turn `a` into `b`.
pub open spec fn lev(a: Seq<char>, b: Seq<char>) -> nat
    decreases a.len() + b.len(),
{
    if a.len() == 0 {
        b.len()
    } else if b.len() == 0 {
        a.len()
    } else {
        min3(
            lev(a.drop_last(), b) + 1,
            lev(a, b.drop_last()) + 1,
            lev(a.drop_last(), b.drop_last()) + cost(a.last(), b.last()),
        )
    }
}

/// The edit distance never exceeds the length of the longer sequence.
pub proof fn lemma_lev_le_max(a: Seq<char>, b: Seq<char>)
    ensures
        lev(a, b) <= a.len() || lev(a, b) <= b.len(),
        lev(a, b) <= a.len() + b.len(),
        a.len() <= b.len() ==> lev(a, b) <= b.len(),
        b.len() <= a.len() ==> lev(a, b) <= a.len(),
    decreases a.len() + b.len(),
{
    if a.len() == 0 || b.len() == 0 {
    } else {
        lemma_lev_le_max(a.drop_last(), b.drop_last());
    }
}

/// The edit distance is at least the difference of the two lengths.
pub proof fn lemma_lev_ge_diff(a: Seq<char>, b: Seq<char>)
    ensures
        lev(a, b) + a.len() >= b.len(),
        lev(a, b) + b.len() >= a.len(),
    decreases a.len() + b.len(),
{
    if a.len() == 0 || b.len() == 0 {
    } else {
        lemma_lev_ge_diff(a.drop_last(), b);
        lemma_lev_ge_diff(a, b.drop_last());
        lemma_lev_ge_diff(a.drop_last(), b.drop_last());
    }
}

/// A sequence is at edit distance 0 from itself.
pub proof fn lemma_lev_refl(a: Seq<char>)
    ensures
        lev(a, a) == 0,
    decreases a.len(),
{
    if a.len() > 0 {
        lemma_lev_refl(a.drop_last());
    }
}

/// The edit distance is symmetric in its arguments.
pub proof fn lemma_lev_sym(a: Seq<char>, b: Seq<char>)
    ensures
        lev(a, b) == lev(b, a),
    decreases a.len() + b.len(),
{
    if a.len() == 0 || b.len() == 0 {
    } else {
        lemma_lev_sym(a.drop_last(), b);
        lemma_lev_sym(a, b.drop_last());
        lemma_lev_sym(a.drop_last(), b.drop_last());
    }
}

/// Removing the last element of the first argument changes the distance by
/// at most one in each direction.
pub proof fn lemma_lev_drop_last_first(a: Seq<char>, b: Seq<char>)
    requires
        a.len() > 0,
    ensures
        lev(a, b) <= lev(a.drop_last(), b) + 1,
{
    if b.len() == 0 {
    } else {
    }
}

/// Appending one element to the second argument lowers the distance by at
/// most one.
pub proof fn lemma_lev_push_second(a: Seq<char>, b: Seq<char>, c: char)
    ensures
        lev(a, b.push(c)) + 1 >= lev(a, b),
    decreases a.len(),
{
    if a.len() == 0 {
        assert(b.push(c).len() == b.len() + 1);
    } else {
        assert(b.push(c).len() > 0);
        assert(b.push(c).drop_last() =~= b);
        lemma_lev_push_second(a.drop_last(), b, c);
        lemma_lev_drop_last_first(a, b);
        if b.len() == 0 {
            lemma_lev_ge_diff(a, b.push(c));
            lemma_lev_ge_diff(a.drop_last(), b);
        }
    }
}

/// Appending the same element to both sequences keeps the distance.
pub proof fn lemma_lev_push_both(a: Seq<char>, b: Seq<char>, c: char)
    ensures
        lev(a.push(c), b.push(c)) == lev(a, b),
{
    assert(a.push(c).drop_last() =~= a);
    assert(b.push(c).drop_last() =~= b);
    assert(a.push(c).last() == c);
    assert(b.push(c).last() == c);
    lemma_lev_push_second(a, b, c);
    lemma_lev_sym(a.push(c), b);
    lemma_lev_push_second(b, a, c);
    lemma_lev_sym(b.push(c), a);
    lemma_lev_sym(a, b);
}

/// Removing a shared suffix keeps the distance.
pub proof fn lemma_lev_suffix(a: Seq<char>, b: Seq<char>, s: Seq<char>)
    ensures
        lev(a + s, b + s) == lev(a, b),
    decreases s.len(),
{
    if s.len() == 0 {
        assert(a + s =~= a);
        assert(b + s =~= b);
    } else {
        assert(a + s =~= (a + s.drop_last()).push(s.last()));
        assert(b + s =~= (b + s.drop_last()).push(s.last()));
        lemma_lev_push_both(a + s.drop_last(), b + s.drop_last(), s.last());
        lemma_lev_suffix(a, b, s.drop_last());
    }
}

/// Deleting a trailing run costs exactly its length.
pub proof fn lemma_lev_deletion(z: Seq<char>, x: Seq<char>)
    ensures
        lev(z + x, z) == x.len(),
    decreases x.len(),
{
    if x.len() == 0 {
        assert(z + x =~= z);
        lemma_lev_refl(z);
    } else if z.len() == 0 {
        assert(z + x =~= x);
    } else {
        assert((z + x).drop_last() =~= z + x.drop_last());
        lemma_lev_deletion(z, x.drop_last());
        lemma_lev_ge_diff(z + x, z);
    }
}

/// Removing a shared prefix keeps the distance.
pub proof fn lemma_lev_prefix(p: Seq<char>, x: Seq<char>, y: Seq<char>)
    ensures
        lev(p + x, p + y) == lev(x, y),
    decreases x.len() + y.len(),
{
    if x.len() == 0 {
        assert(p + x =~= p);
        lemma_lev_sym(p, p + y);
        lemma_lev_deletion(p, y);
        lemma_lev_sym(x, y);
    } else if y.len() == 0 {
        assert(p + y =~= p);
        lemma_lev_deletion(p, x);
    } else {
        assert((p + x).drop_last() =~= p + x.drop_last());
        assert((p + y).drop_last() =~= p + y.drop_last());
        assert((p + x).last() == x.last());
        assert((p + y).last() == y.last());
        assert((p + x).len() > 0 && (p + y).len() > 0);
        lemma_lev_prefix(p, x.drop_last(), y);
        lemma_lev_prefix(p, x, y.drop_last());
        lemma_lev_prefix(p, x.drop_last(), y.drop_last());
    }
}

/// The distance between the length-`i` prefix of `a` and the length-`j`
/// prefix of `b`: the value of the dynamic-programming cell `(i, j)`.
pub open spec fn lev_i(a: Seq<char>, b: Seq<char>, i: int, j: int) -> nat {
    lev(a.take(i), b.take(j))
}

/// The dynamic-programming recurrence, stated over prefix lengths.
pub proof fn lemma_lev_step(a: Seq<char>, b: Seq<char>, i: int, j: int)
    requires
        1 <= i <= a.len(),
        1 <= j <= b.len(),
    ensures
        lev_i(a, b, i, j) == min3(
            lev_i(a, b, i - 1, j) + 1,
            lev_i(a, b, i, j - 1) + 1,
            lev_i(a, b, i - 1, j - 1) + cost(a[i - 1], b[j - 1]),
        ),
{
    assert(a.take(i).drop_last() =~= a.take(i - 1));
    assert(b.take(j).drop_last() =~= b.take(j - 1));
    assert(a.take(i).last() == a[i - 1]);
    assert(b.take(j).last() == b[j - 1]);
}

/// The smallest cell value in row `i`, over columns `0..=j`.
pub open spec fn row_min(a: Seq<char>, b: Seq<char>, i: int, j: int) -> nat
    decreases j,
{
    if j <= 0 {
        lev_i(a, b, i, 0)
    } else {
        min2(row_min(a, b, i, j - 1), lev_i(a, b, i, j))
    }
}

/// The row minimum is no larger than any cell of the row.
proof fn lemma_row_min_le(a: Seq<char>, b: Seq<char>, i: int, j: int, j2: int)
    requires
        0 <= j2 <= j,
    ensures
        row_min(a, b, i, j) <= lev_i(a, b, i, j2),
    decreases j,
{
    if j2 < j {
        lemma_row_min_le(a, b, i, j - 1, j2);
    }
}

/// Every cell of row `i + 1` is at least the minimum of row `i`.
proof fn lemma_row_next_ge(a: Seq<char>, b: Seq<char>, i: int, j: int)
    requires
        0 <= i < a.len(),
        0 <= j <= b.len(),
    ensures
        lev_i(a, b, i + 1, j) >= row_min(a, b, i, b.len() as int),
    decreases j,
{
    if j == 0 {
        lemma_row_min_le(a, b, i, b.len() as int, 0);
    } else {
        lemma_lev_step(a, b, i + 1, j);
        lemma_row_next_ge(a, b, i, j - 1);
        lemma_row_min_le(a, b, i, b.len() as int, j);
        lemma_row_min_le(a, b, i, b.len() as int, j - 1);
    }
}

/// The minimum of row `i + 1` is at least the minimum of row `i`.
proof fn lemma_row_min_next(a: Seq<char>, b: Seq<char>, i: int, j: int)
    requires
        0 <= i < a.len(),
        0 <= j <= b.len(),
    ensures
        row_min(a, b, i + 1, j) >= row_min(a, b, i, b.len() as int),
    decreases j,
{
    lemma_row_next_ge(a, b, i, j);
    if j > 0 {
        lemma_row_min_next(a, b, i, j - 1);
    }
}

/// The full distance is at least the minimum of every row: once a row's
/// minimum exceeds a bound, the exact distance does too.
pub proof fn lemma_lev_ge_row_min(a: Seq<char>, b: Seq<char>, i: int)
    requires
        0 <= i <= a.len(),
    ensures
        lev(a, b) >= row_min(a, b, i, b.len() as int),
    decreases a.len() - i,
{
    if i == a.len() {
        assert(a.take(a.len() as int) =~= a);
        assert(b.take(b.len() as int) =~= b);
        lemma_row_min_le(a, b, i, b.len() as int, b.len() as int);
    } else {
        lemma_lev_ge_row_min(a, b, i + 1);
        lemma_row_min_next(a, b, i, b.len() as int);
    }
}

/// Distance zero means the sequences are equal.
pub proof fn lemma_lev_zero(a: Seq<char>, b: Seq<char>)
    requires
        lev(a, b) == 0,
    ensures
        a == b,
    decreases a.len() + b.len(),
{
    if a.len() == 0 {
        assert(a =~= b);
    } else if b.len() == 0 {
    } else {
        assert(cost(a.last(), b.last()) == 0 && lev(a.drop_last(), b.drop_last()) == 0);
        lemma_lev_zero(a.drop_last(), b.drop_last());
        assert(a =~= a.drop_last().push(a.last()));
        assert(b =~= b.drop_last().push(b.last()));
    }
}

/// Substituting the last element changes the distance by at most one.
proof fn lemma_lev_subst_last(a: Seq<char>, x: char, y: char, c: Seq<char>)
    ensures
        lev(a.push(x), c) <= lev(a.push(y), c) + 1,
    decreases c.len(),
{
    assert(a.push(x).drop_last() =~= a);
    assert(a.push(y).drop_last() =~= a);
    if c.len() == 0 {
    } else {
        lemma_lev_subst_last(a, x, y, c.drop_last());
    }
}

/// With sequences at most one edit apart, distances to any third sequence
/// differ by at most one.
proof fn lemma_lev_one_edit(u: Seq<char>, v: Seq<char>, c: Seq<char>)
    requires
        lev(u, v) <= 1,
    ensures
        lev(u, c) <= lev(v, c) + 1,
    decreases u.len() + v.len() + c.len(),
{
    if lev(u, v) == 0 {
        lemma_lev_zero(u, v);
    } else if c.len() == 0 {
        lemma_lev_ge_diff(u, v);
    } else if u.len() == 0 {
        lemma_lev_ge_diff(u, v);
        lemma_lev_ge_diff(v, c);
    } else if v.len() == 0 {
        lemma_lev_ge_diff(u, v);
        lemma_lev_le_max(u, c);
    } else {
        let ul = u.last();
        let vl = v.last();
        if lev(u.drop_last(), v) == 0 {
            lemma_lev_zero(u.drop_last(), v);
            lemma_lev_drop_last_first(u, c);
        } else if lev(u, v.drop_last()) == 0 {
            lemma_lev_zero(u, v.drop_last());
            assert(v =~= u.push(vl));
            lemma_lev_push_second(c, u, vl);
            lemma_lev_sym(c, u.push(vl));
            lemma_lev_sym(c, u);
        } else if ul != vl {
            assert(lev(u.drop_last(), v.drop_last()) == 0);
            lemma_lev_zero(u.drop_last(), v.drop_last());
            assert(u =~= u.drop_last().push(ul));
            assert(v =~= u.drop_last().push(vl));
            lemma_lev_subst_last(u.drop_last(), ul, vl, c);
        } else {
            assert(lev(u.drop_last(), v.drop_last()) == 1) by {
                lemma_lev_push_both(u.drop_last(), v.drop_last(), ul);
                assert(u =~= u.drop_last().push(ul));
                assert(v =~= v.drop_last().push(vl));
            }
            let t_ins = lev(v, c.drop_last()) + 1;
            let t_del = lev(v.drop_last(), c) + 1;
            let t_sub = lev(v.drop_last(), c.drop_last()) + cost(vl, c.last());
            if lev(v, c) == t_ins {
                lemma_lev_one_edit(u, v, c.drop_last());
                lemma_lev_drop_last_first(c, u);
                lemma_lev_sym(c, u);
                lemma_lev_sym(c.drop_last(), u);
                lemma_lev_sym(u, c);
                lemma_lev_sym(u, c.drop_last());
            } else if lev(v, c) == t_del {
                lemma_lev_one_edit(u.drop_last(), v.drop_last(), c);
                lemma_lev_drop_last_first(u, c);
            } else {
                assert(lev(v, c) == t_sub);
                lemma_lev_one_edit(u.drop_last(), v.drop_last(), c.drop_last());
                assert(lev(u, c) <= lev(u.drop_last(), c.drop_last()) + cost(ul, c.last()));
            }
        }
    }
}

/// One step of an optimal edit script: a sequence one edit from `a` and one
/// step closer to `b`.
proof fn lemma_lev_one_step(a: Seq<char>, b: Seq<char>) -> (a1: Seq<char>)
    requires
        lev(a, b) >= 1,
    ensures
        lev(a, a1) <= 1,
        lev(a1, b) == lev(a, b) - 1,
    decreases a.len() + b.len(),
{
    if a.len() == 0 {
        let a1 = seq![b.last()];
        assert(b =~= b.drop_last() + seq![b.last()]);
        assert(a1 =~= Seq::<char>::empty() + seq![b.last()]);
        lemma_lev_suffix(Seq::empty(), b.drop_last(), seq![b.last()]);
        assert(lev(a, a1) == 1);
        a1
    } else if b.len() == 0 {
        let a1 = a.drop_last();
        assert(a =~= a.drop_last() + seq![a.last()]);
        lemma_lev_deletion(a.drop_last(), seq![a.last()]);
        a1
    } else {
        let t_del = lev(a.drop_last(), b) + 1;
        let t_ins = lev(a, b.drop_last()) + 1;
        let t_sub = lev(a.drop_last(), b.drop_last()) + cost(a.last(), b.last());
        if lev(a, b) == t_del {
            let a1 = a.drop_last();
            assert(a =~= a.drop_last() + seq![a.last()]);
            lemma_lev_deletion(a.drop_last(), seq![a.last()]);
            a1
        } else if lev(a, b) == t_ins {
            let a1 = a.push(b.last());
            assert(a =~= a + Seq::<char>::empty());
            lemma_lev_deletion(a, seq![b.last()]);
            lemma_lev_sym(a + seq![b.last()], a);
            assert(a1 =~= a + seq![b.last()]);
            lemma_lev_push_both(a, b.drop_last(), b.last());
            assert(b =~= b.drop_last().push(b.last()));
            a1
        } else if cost(a.last(), b.last()) == 1 {
            assert(lev(a, b) == t_sub);
            let a1 = a.drop_last().push(b.last());
            lemma_lev_prefix(a.drop_last(), seq![a.last()], seq![b.last()]);
            assert(a =~= a.drop_last() + seq![a.last()]);
            assert(a1 =~= a.drop_last() + seq![b.last()]);
            assert(lev(seq![a.last()], seq![b.last()]) == 1) by {
                let sx = seq![a.last()];
                let sy = seq![b.last()];
                assert(sx.len() == 1 && sy.len() == 1);
                assert(sx.drop_last() =~= Seq::<char>::empty());
                assert(sy.drop_last() =~= Seq::<char>::empty());
                assert(lev(sx.drop_last(), sy) == 1);
                assert(lev(sx, sy.drop_last()) == 1);
                assert(lev(sx.drop_last(), sy.drop_last()) == 0);
                assert(sx.last() == a.last() && sy.last() == b.last());
                assert(cost(sx.last(), sy.last()) == 1);
            }
            lemma_lev_push_both(a.drop_last(), b.drop_last(), b.last());
            assert(b =~= b.drop_last().push(b.last()));
            a1
        } else {
            assert(lev(a, b) == lev(a.drop_last(), b.drop_last())) by {
                lemma_lev_push_both(a.drop_last(), b.drop_last(), a.last());
                assert(a =~= a.drop_last().push(a.last()));
                assert(b =~= b.drop_last().push(b.last()));
            }
            let a1p = lemma_lev_one_step(a.drop_last(), b.drop_last());
            let a1 = a1p.push(a.last());
            lemma_lev_push_both(a.drop_last(), a1p, a.last());
            assert(a =~= a.drop_last().push(a.last()));
            lemma_lev_push_both(a1p, b.drop_last(), b.last());
            assert(b =~= b.drop_last().push(b.last()));
            assert(a1 =~= a1p.push(a.last()));
            a1
        }
    }
}

/// The triangle inequality: the edit distance from `a` to `c` is at most
/// the distance from `a` to `b` plus the distance from `b` to `c`.
pub proof fn lemma_lev_triangle(a: Seq<char>, b: Seq<char>, c: Seq<char>)
    ensures
        lev(a, c) <= lev(a, b) + lev(b, c),
    decreases lev(a, b),
{
    if lev(a, b) == 0 {
        lemma_lev_zero(a, b);
    } else {
        let a1 = lemma_lev_one_step(a, b);
        lemma_lev_one_edit(a, a1, c);
        lemma_lev_triangle(a1, b, c);
    }
}

/// Trimming a shared prefix and suffix does not change the edit distance.
pub proof fn lemma_lev_trim(a: Seq<char>, b: Seq<char>, d: crate::utils::DelimDistinct)
    requires
        d.decomposes(a, b),
    ensures
        lev(a, b) == lev(d.distinct_s1@, d.distinct_s2@),
{
    let p = a.subrange(0, d.prefix_len as int);
    let sa = a.subrange(a.len() - d.suffix_len, a.len() as int);
    let ma = d.distinct_s1@;
    let mb = d.distinct_s2@;
    assert(a =~= p + ma + sa);
    assert(b =~= p + mb + sa) by {
        assert(p == b.subrange(0, d.prefix_len as int));
        assert(sa == b.subrange(b.len() - d.suffix_len, b.len() as int));
    }
    assert(p + ma + sa =~= (p + ma) + sa);
    assert(p + mb + sa =~= (p + mb) + sa);
    lemma_lev_suffix(p + ma, p + mb, sa);
    lemma_lev_prefix(p, ma, mb);
}

/// The result of an edit-distance computation under an optional bound: the
/// exact distance where it does not exceed the bound, `Exceeded` otherwise.
pub open spec fn bounded_result(d: nat, max: Option<usize>) -> DistanceValue {
    match max {
        Option::None => DistanceValue::Exact(d as usize),
        Option::Some(k) => if d <= k {
            DistanceValue::Exact(d as usize)
        } else {
            DistanceValue::Exceeded(k)
        },
    }
}

/// A bounded computation is consistent with the unbounded distance: the
/// exact result appears exactly when the distance is within the bound, and
/// a bound that was exceeded is also exceeded at every smaller bound.
pub proof fn lemma_bounded_consistency(d: nat, k: usize, k2: usize)
    ensures
        d <= k ==> bounded_result(d, Option::Some(k)) == DistanceValue::Exact(d as usize),
        d > k ==> bounded_result(d, Option::Some(k)) == DistanceValue::Exceeded(k),
        k2 <= k && bounded_result(d, Option::Some(k)) is Exceeded ==> bounded_result(
            d,
            Option::Some(k2),
        ) is Exceeded,
{
}

/// Applies an optional bound to an exactly-known distance.
fn apply_bound(d: usize, max: Option<usize>) -> (r: DistanceValue)
    ensures
        r == bounded_result(d as nat, max),
{
    match max {
        Option::None => DistanceValue::Exact(d),
        Option::Some(k) => if d <= k {
            DistanceValue::Exact(d)
        } else {
            DistanceValue::Exceeded(k)
        },
    }
}

/// The Levenshtein metric, with an optional maximum distance of interest.
///
/// With a bound `k`, the computation may stop as soon as the distance is
/// known to exceed `k` and report `Exceeded(k)` instead of the exact count.
#[derive(Debug, Clone)]
pub struct Levenshtein {
    /// The maximum edit distance of interest, if any.
    pub max_distance: Option<usize>,
}

impl Default for Levenshtein {
    /// The unbounded metric.
    fn default() -> (r: Self)
        ensures
            r.max_distance == Option::<usize>::None,
    {
        Levenshtein { max_distance: Option::None }
    }
}

impl Levenshtein {
    /// A metric that reports `Exceeded(max_distance)` whenever the exact
    /// distance is larger than `max_distance`.
    pub fn with_max_distance(max_distance: usize) -> (r: Self)
        ensures
            r.max_distance == Option::Some(max_distance),
    {
        Levenshtein { max_distance: Option::Some(max_distance) }
    }

    /// The edit distance between two character slices, under the configured
    /// bound: exactly `lev(a, b)` when that does not exceed the bound.
    pub fn distance(&self, a: &[char], b: &[char]) -> (r: DistanceValue)
        requires
            a@.len() + b@.len() <= usize::MAX,
        ensures
            r == bounded_result(lev(a@, b@), self.max_distance),
    {
        let delim = crate::utils::delim_distinct(a, b);
        proof {
            lemma_lev_trim(a@, b@, delim);
        }
        let ma = delim.distinct_s1;
        let mb = delim.distinct_s2;
        let n1 = ma.len();
        let n2 = mb.len();

        if n1 == 0 {
            return apply_bound(n2, self.max_distance);
        }
        if let Option::Some(k) = self.max_distance {
            let diff = if n2 >= n1 {
                n2 - n1
            } else {
                n1 - n2
            };
            if diff > k {
                proof {
                    lemma_lev_ge_diff(ma@, mb@);
                }
                return DistanceValue::Exceeded(k);
            }
        }
        let mut cache: Vec<usize> = Vec::new();
        let mut j: usize = 0;
        while j < n2
            invariant
                j <= n2,
                n2 == mb@.len(),
                cache@.len() == j,
                forall|t: int| 0 <= t < j ==> cache@[t] == t + 1,
            decreases n2 - j,
        {
            cache.push(j + 1);
            j += 1;
        }
        proof {
            assert forall|t: int| 0 <= t < n2 implies cache@[t] == lev_i(
                ma@,
                mb@,
                0,
                t + 1,
            ) by {
                assert(ma@.take(0) =~= Seq::<char>::empty());
                assert(mb@.take(t + 1).len() == t + 1);
            }
        }

        let mut result: usize = 0;
        let mut i: usize = 0;
        while i < n1
            invariant
                1 <= n1 == ma@.len(),
                n2 == mb@.len(),
                n1 + n2 <= usize::MAX,
                i <= n1,
                cache@.len() == n2,
                forall|t: int| 0 <= t < n2 ==> cache@[t] == lev_i(ma@, mb@, i as int, t + 1),
                i > 0 ==> result == lev_i(ma@, mb@, i as int, n2 as int),
                lev(a@, b@) == lev(ma@, mb@),
            decreases n1 - i,
        {
            let c1 = ma[i];
            result = i + 1;
            let mut dist_c2: usize = i;
            let mut row: usize = i;
            proof {
                assert(ma@.take(i as int).len() == i);
                assert(mb@.take(0) =~= Seq::<char>::empty());
                assert(lev_i(ma@, mb@, i as int, 0) == i);
                assert(ma@.take(i + 1).len() == i + 1);
                assert(lev_i(ma@, mb@, i + 1, 0) == i + 1);
            }
            let mut j: usize = 0;
            while j < n2
                invariant
                    1 <= n1 == ma@.len(),
                    n2 == mb@.len(),
                    n1 + n2 <= usize::MAX,
                    i < n1,
                    j <= n2,
                    c1 == ma@[i as int],
                    cache@.len() == n2,
                    dist_c2 == lev_i(ma@, mb@, i as int, j as int),
                    result == lev_i(ma@, mb@, i + 1, j as int),
                    forall|t: int| 0 <= t < j ==> cache@[t] == lev_i(ma@, mb@, i + 1, t + 1),
                    forall|t: int| j <= t < n2 ==> cache@[t] == lev_i(ma@, mb@, i as int, t + 1),
                    row == row_min(ma@, mb@, i as int, j as int),
                decreases n2 - j,
            {
                let c2 = mb[j];
                let cst: usize = if c1 == c2 {
                    0
                } else {
                    1
                };
                proof {
                    lemma_lev_le_max(ma@.take(i as int), mb@.take(j as int));
                    lemma_lev_le_max(ma@.take(i + 1), mb@.take(j as int));
                    lemma_lev_le_max(ma@.take(i as int), mb@.take(j + 1));
                    assert(ma@.take(i as int).len() == i);
                    assert(ma@.take(i + 1).len() == i + 1);
                    assert(mb@.take(j as int).len() == j);
                    assert(mb@.take(j + 1).len() == j + 1);
                }
                let dist_c1 = dist_c2 + cst;
                dist_c2 = cache[j];
                let mut v = result + 1;
                if dist_c1 < v {
                    v = dist_c1;
                }
                if dist_c2 + 1 < v {
                    v = dist_c2 + 1;
                }
                proof {
                    lemma_lev_step(ma@, mb@, i + 1, j + 1);
                }
                result = v;
                if dist_c2 < row {
                    row = dist_c2;
                }
                cache.set(j, result);
                j += 1;
            }
            if let Option::Some(k) = self.max_distance {
                if row > k {
                    proof {
                        lemma_lev_ge_row_min(ma@, mb@, i as int);
                    }
                    return DistanceValue::Exceeded(k);
                }
            }
            i += 1;
        }
        proof {
            assert(ma@.take(n1 as int) =~= ma@);
            assert(mb@.take(n2 as int) =~= mb@);
        }
        apply_bound(result, self.max_distance)
    }

    /// The edit distance between two strings, under the configured bound.
    pub fn str_distance(&self, a: &str, b: &str) -> (r: DistanceValue)
        requires
            a@.len() + b@.len() <= usize::MAX,
        ensures
            r == bounded_result(lev(a@, b@), self.max_distance),
    {
        let (s1, s2) = crate::utils::order_by_len_asc(a, b);
        let v1 = crate::utils::chars_of(s1);
        let v2 = crate::utils::chars_of(s2);
        proof {
            lemma_lev_sym(a@, b@);
        }
        self.distance(v1.as_slice(), v2.as_slice())
    }

    /// The edit distance normalized to `[0, 1]`: `lev(a, b) / max(|a|, |b|)`,
    /// 0 for two empty inputs, and 1 when the bound was exceeded.
    pub fn normalized(&self, a: &[char], b: &[char]) -> (r: Ratio)
        requires
            a@.len() + b@.len() <= usize::MAX,
        ensures
            r.wf(),
            (r.num as int, r.den as int) == normalized_value(
                lev(a@, b@),
                self.max_distance,
                a@.len(),
                b@.len(),
            ),
    {
        let d = self.distance(a, b);
        match d {
            DistanceValue::Exceeded(_) => Ratio::one(),
            DistanceValue::Exact(n) => {
                if a.len() == 0 && b.len() == 0 {
                    Ratio::zero()
                } else {
                    let mx = if a.len() >= b.len() {
                        a.len()
                    } else {
                        b.len()
                    };
                    proof {
                        lemma_lev_le_max(a@, b@);
                    }
                    Ratio::new(n as u64, mx as u64)
                }
            },
        }
    }

    /// The normalized edit distance of two strings.
    pub fn str_normalized(&self, a: &str, b: &str) -> (r: Ratio)
        requires
            a@.len() + b@.len() <= usize::MAX,
        ensures
            r.wf(),
            (r.num as int, r.den as int) == normalized_value(
                lev(a@, b@),
                self.max_distance,
                a@.len(),
                b@.len(),
            ),
    {
        let (s1, s2) = crate::utils::order_by_len_asc(a, b);
        let v1 = crate::utils::chars_of(s1);
        let v2 = crate::utils::chars_of(s2);
        proof {
            lemma_lev_sym(a@, b@);
        }
        self.normalized(v1.as_slice(), v2.as_slice())
    }
}

/// Whether the last two elements of the two prefixes form an adjacent
/// transposition.
pub open spec fn osa_swap(a: Seq<char>, b: Seq<char>) -> bool {
    a.len() >= 2 && b.len() >= 2 && a.last() == b[b.len() - 2] && a[a.len() - 2] == b.last()
}

/// The restricted Damerau-Levenshtein distance (optimal string alignment):
/// Levenshtein extended with adjacent transposition as a unit-cost operation,
/// under the restriction that no substring is edited twice. For example, the
/// distance from `"CA"` to `"ABC"` is 3 here, although full
/// Damerau-Levenshtein gives 2; the restriction is deliberate.
pub open spec fn osa(a: Seq<char>, b: Seq<char>) -> nat
    decreases a.len() + b.len(),
{
    if a.len() == 0 {
        b.len()
    } else if b.len() == 0 {
        a.len()
    } else {
        let base = min3(
            osa(a.drop_last(), b) + 1,
            osa(a, b.drop_last()) + 1,
            osa(a.drop_last(), b.drop_last()) + cost(a.last(), b.last()),
        );
        if osa_swap(a, b) {
            min2(base, osa(a.take(a.len() - 2), b.take(b.len() - 2)) + 1)
        } else {
            base
        }
    }
}

/// The restricted distance never exceeds the length of the longer sequence.
pub proof fn lemma_osa_le_max(a: Seq<char>, b: Seq<char>)
    ensures
        a.len() <= b.len() ==> osa(a, b) <= b.len(),
        b.len() <= a.len() ==> osa(a, b) <= a.len(),
    decreases a.len() + b.len(),
{
    if a.len() == 0 || b.len() == 0 {
    } else {
        lemma_osa_le_max(a.drop_last(), b.drop_last());
    }
}

/// The restricted distance is at least the difference of the two lengths.
pub proof fn lemma_osa_ge_diff(a: Seq<char>, b: Seq<char>)
    ensures
        osa(a, b) + a.len() >= b.len(),
        osa(a, b) + b.len() >= a.len(),
    decreases a.len() + b.len(),
{
    if a.len() == 0 || b.len() == 0 {
    } else {
        lemma_osa_ge_diff(a.drop_last(), b);
        lemma_osa_ge_diff(a, b.drop_last());
        lemma_osa_ge_diff(a.drop_last(), b.drop_last());
        if osa_swap(a, b) {
            lemma_osa_ge_diff(a.take(a.len() - 2), b.take(b.len() - 2));
        }
    }
}

/// A sequence is at restricted distance 0 from itself.
pub proof fn lemma_osa_refl(a: Seq<char>)
    ensures
        osa(a, a) == 0,
    decreases a.len(),
{
    if a.len() > 0 {
        lemma_osa_refl(a.drop_last());
    }
}

/// The restricted distance is symmetric in its arguments.
pub proof fn lemma_osa_sym(a: Seq<char>, b: Seq<char>)
    ensures
        osa(a, b) == osa(b, a),
    decreases a.len() + b.len(),
{
    if a.len() == 0 || b.len() == 0 {
    } else {
        lemma_osa_sym(a.drop_last(), b);
        lemma_osa_sym(a, b.drop_last());
        lemma_osa_sym(a.drop_last(), b.drop_last());
        if osa_swap(a, b) {
            lemma_osa_sym(a.take(a.len() - 2), b.take(b.len() - 2));
        }
    }
}

/// Removing the last element of the first argument raises the restricted
/// distance by at most one.
pub proof fn lemma_osa_drop_last_first(a: Seq<char>, b: Seq<char>)
    requires
        a.len() > 0,
    ensures
        osa(a, b) <= osa(a.drop_last(), b) + 1,
{
}

/// Appending one element to the second argument lowers the restricted
/// distance by at most one.
pub proof fn lemma_osa_push_second(a: Seq<char>, b: Seq<char>, c: char)
    ensures
        osa(a, b.push(c)) + 1 >= osa(a, b),
    decreases a.len(),
{
    let bp = b.push(c);
    assert(bp.drop_last() =~= b);
    if a.len() == 0 {
    } else {
        lemma_osa_push_second(a.drop_last(), b, c);
        lemma_osa_drop_last_first(a, b);
        if b.len() == 0 {
            lemma_osa_ge_diff(a, bp);
            lemma_osa_ge_diff(a.drop_last(), b);
        }
        if osa_swap(a, bp) {
            assert(bp.take(bp.len() - 2) =~= b.drop_last());
            let a2 = a.take(a.len() - 2);
            assert(a2 =~= a.drop_last().drop_last());
            // two single steps bound the transposition term
            if b.len() > 0 {
                assert(osa(a, b) <= osa(a.drop_last(), b.drop_last()) + 1);
                lemma_osa_drop_last_first(a.drop_last(), b.drop_last());
            } else {
                lemma_osa_ge_diff(a2, b.drop_last());
            }
        }
    }
}

/// Appending the same element to both sequences keeps the restricted
/// distance.
pub proof fn lemma_osa_push_both(a: Seq<char>, b: Seq<char>, c: char)
    ensures
        osa(a.push(c), b.push(c)) == osa(a, b),
{
    let ap = a.push(c);
    let bp = b.push(c);
    assert(ap.drop_last() =~= a);
    assert(bp.drop_last() =~= b);
    lemma_osa_push_second(a, b, c);
    lemma_osa_sym(ap, b);
    lemma_osa_push_second(b, a, c);
    lemma_osa_sym(bp, a);
    lemma_osa_sym(a, b);
    if osa_swap(ap, bp) {
        assert(a.len() >= 1 && b.len() >= 1);
        assert(ap.take(ap.len() - 2) =~= a.drop_last());
        assert(bp.take(bp.len() - 2) =~= b.drop_last());
        assert(a.last() == c && b.last() == c);
        assert(cost(a.last(), b.last()) == 0);
        assert(osa(a, b) <= osa(a.drop_last(), b.drop_last()));
    }
}

/// Removing a shared suffix keeps the restricted distance.
pub proof fn lemma_osa_suffix(a: Seq<char>, b: Seq<char>, s: Seq<char>)
    ensures
        osa(a + s, b + s) == osa(a, b),
    decreases s.len(),
{
    if s.len() == 0 {
        assert(a + s =~= a);
        assert(b + s =~= b);
    } else {
        assert(a + s =~= (a + s.drop_last()).push(s.last()));
        assert(b + s =~= (b + s.drop_last()).push(s.last()));
        lemma_osa_push_both(a + s.drop_last(), b + s.drop_last(), s.last());
        lemma_osa_suffix(a, b, s.drop_last());
    }
}

/// Deleting a trailing run costs exactly its length, also with
/// transpositions available.
pub proof fn lemma_osa_deletion(z: Seq<char>, x: Seq<char>)
    ensures
        osa(z + x, z) == x.len(),
    decreases x.len(),
{
    if x.len() == 0 {
        assert(z + x =~= z);
        lemma_osa_refl(z);
    } else if z.len() == 0 {
        assert(z + x =~= x);
    } else {
        assert((z + x).drop_last() =~= z + x.drop_last());
        lemma_osa_deletion(z, x.drop_last());
        lemma_osa_ge_diff(z + x, z);
    }
}

/// Removing a shared prefix keeps the restricted distance.
pub proof fn lemma_osa_prefix(p: Seq<char>, x: Seq<char>, y: Seq<char>)
    ensures
        osa(p + x, p + y) == osa(x, y),
    decreases x.len() + y.len(),
{
    let px = p + x;
    let py = p + y;
    if x.len() == 0 {
        assert(px =~= p);
        lemma_osa_sym(p, py);
        lemma_osa_deletion(p, y);
        lemma_osa_sym(x, y);
    } else if y.len() == 0 {
        assert(py =~= p);
        lemma_osa_deletion(p, x);
    } else {
        assert(px.drop_last() =~= p + x.drop_last());
        assert(py.drop_last() =~= p + y.drop_last());
        assert(px.last() == x.last());
        assert(py.last() == y.last());
        lemma_osa_prefix(p, x.drop_last(), y);
        lemma_osa_prefix(p, x, y.drop_last());
        lemma_osa_prefix(p, x.drop_last(), y.drop_last());
        if osa_swap(px, py) {
            if x.len() >= 2 && y.len() >= 2 {
                assert(px.take(px.len() - 2) =~= p + x.take(x.len() - 2));
                assert(py.take(py.len() - 2) =~= p + y.take(y.len() - 2));
                assert(px[px.len() - 2] == x[x.len() - 2]);
                assert(py[py.len() - 2] == y[y.len() - 2]);
                lemma_osa_prefix(p, x.take(x.len() - 2), y.take(y.len() - 2));
                assert(osa_swap(x, y));
            } else if x.len() == 1 && y.len() == 1 {
                // the condition forces the two single elements to be equal
                assert(px[px.len() - 2] == p.last());
                assert(py[py.len() - 2] == p.last());
                assert(x.last() == y.last());
                lemma_osa_refl(p + x.drop_last());
                assert(p + x.drop_last() =~= p + y.drop_last());
                assert(cost(x.last(), y.last()) == 0);
            } else if x.len() == 1 {
                // the transposition term reaches into the shared prefix and
                // cannot undercut the plain distance
                lemma_osa_ge_diff(px.take(px.len() - 2), py.take(py.len() - 2));
                lemma_osa_le_max(x, y);
            } else {
                lemma_osa_ge_diff(px.take(px.len() - 2), py.take(py.len() - 2));
                lemma_osa_le_max(x, y);
                lemma_osa_sym(x, y);
            }
        }
    }
}

/// Trimming a shared prefix and suffix does not change the restricted
/// distance.
pub proof fn lemma_osa_trim(a: Seq<char>, b: Seq<char>, d: crate::utils::DelimDistinct)
    requires
        d.decomposes(a, b),
    ensures
        osa(a, b) == osa(d.distinct_s1@, d.distinct_s2@),
{
    let p = a.subrange(0, d.prefix_len as int);
    let sa = a.subrange(a.len() - d.suffix_len, a.len() as int);
    let ma = d.distinct_s1@;
    let mb = d.distinct_s2@;
    assert(a =~= p + ma + sa);
    assert(b =~= p + mb + sa) by {
        assert(p == b.subrange(0, d.prefix_len as int));
        assert(sa == b.subrange(b.len() - d.suffix_len, b.len() as int));
    }
    assert(p + ma + sa =~= (p + ma) + sa);
    assert(p + mb + sa =~= (p + mb) + sa);
    lemma_osa_suffix(p + ma, p + mb, sa);
    lemma_osa_prefix(p, ma, mb);
}

/// The cell `(i, j)` of the restricted-distance dynamic program.
pub open spec fn osa_i(a: Seq<char>, b: Seq<char>, i: int, j: int) -> nat {
    osa(a.take(i), b.take(j))
}

/// The dynamic-programming recurrence of the restricted distance, stated
/// over prefix lengths.
pub proof fn lemma_osa_step(a: Seq<char>, b: Seq<char>, i: int, j: int)
    requires
        1 <= i <= a.len(),
        1 <= j <= b.len(),
    ensures
        osa_i(a, b, i, j) == {
            let base = min3(
                osa_i(a, b, i - 1, j) + 1,
                osa_i(a, b, i, j - 1) + 1,
                osa_i(a, b, i - 1, j - 1) + cost(a[i - 1], b[j - 1]),
            );
            if i >= 2 && j >= 2 && a[i - 1] == b[j - 2] && a[i - 2] == b[j - 1] {
                min2(base, osa_i(a, b, i - 2, j - 2) + 1)
            } else {
                base
            }
        },
{
    assert(a.take(i).drop_last() =~= a.take(i - 1));
    assert(b.take(j).drop_last() =~= b.take(j - 1));
    assert(a.take(i).last() == a[i - 1]);
    assert(b.take(j).last() == b[j - 1]);
    if i >= 2 && j >= 2 {
        assert(a.take(i).take(i - 2) =~= a.take(i - 2));
        assert(b.take(j).take(j - 2) =~= b.take(j - 2));
        assert(a.take(i)[i - 2] == a[i - 2]);
        assert(b.take(j)[j - 2] == b[j - 2]);
    }
}

/// The normalized form of a bounded edit distance `d` between sequences of
/// lengths `la` and `lb`, as a pair (numerator, denominator): 0 when both
/// inputs are empty, 1 when the bound was exceeded, and `d / max(la, lb)`
/// otherwise.
pub open spec fn normalized_value(d: nat, max: Option<usize>, la: nat, lb: nat) -> (int, int) {
    if la == 0 && lb == 0 {
        (0, 1)
    } else if match max {
        Option::Some(k) => d > k,
        Option::None => false,
    } {
        (1, 1)
    } else {
        (d as int, (if la >= lb {
            la
        } else {
            lb
        }) as int)
    }
}

/// The smallest restricted-distance cell value in row `i`, over columns
/// `0..=j`.
pub open spec fn osa_row_min(a: Seq<char>, b: Seq<char>, i: int, j: int) -> nat
    decreases j,
{
    if j <= 0 {
        osa_i(a, b, i, 0)
    } else {
        min2(osa_row_min(a, b, i, j - 1), osa_i(a, b, i, j))
    }
}

/// The row minimum is no larger than any cell of the row.
proof fn lemma_osa_row_min_le(a: Seq<char>, b: Seq<char>, i: int, j: int, j2: int)
    requires
        0 <= j2 <= j,
    ensures
        osa_row_min(a, b, i, j) <= osa_i(a, b, i, j2),
    decreases j,
{
    if j2 < j {
        lemma_osa_row_min_le(a, b, i, j - 1, j2);
    }
}

/// Every cell of row `i + 1` is at least the smaller of the two previous
/// rows' minima: the transposition term reaches back two rows.
proof fn lemma_osa_row_next_ge(a: Seq<char>, b: Seq<char>, i: int, j: int)
    requires
        1 <= i < a.len(),
        0 <= j <= b.len(),
    ensures
        osa_i(a, b, i + 1, j) >= min2(
            osa_row_min(a, b, i, b.len() as int),
            osa_row_min(a, b, i - 1, b.len() as int),
        ),
    decreases j,
{
    if j == 0 {
        lemma_osa_row_min_le(a, b, i, b.len() as int, 0);
    } else {
        lemma_osa_step(a, b, i + 1, j);
        lemma_osa_row_next_ge(a, b, i, j - 1);
        lemma_osa_row_min_le(a, b, i, b.len() as int, j);
        lemma_osa_row_min_le(a, b, i, b.len() as int, j - 1);
        if j >= 2 {
            lemma_osa_row_min_le(a, b, i - 1, b.len() as int, j - 2);
        }
    }
}

/// The paired minimum of two adjacent rows never shrinks.
proof fn lemma_osa_pair_min_next(a: Seq<char>, b: Seq<char>, i: int, j: int)
    requires
        1 <= i < a.len(),
        0 <= j <= b.len(),
    ensures
        osa_row_min(a, b, i + 1, j) >= min2(
            osa_row_min(a, b, i, b.len() as int),
            osa_row_min(a, b, i - 1, b.len() as int),
        ),
    decreases j,
{
    lemma_osa_row_next_ge(a, b, i, j);
    if j > 0 {
        lemma_osa_pair_min_next(a, b, i, j - 1);
    }
}

/// Once the two latest rows' minima both exceed a bound, so does the
/// restricted distance itself.
pub proof fn lemma_osa_ge_pair_min(a: Seq<char>, b: Seq<char>, i: int)
    requires
        1 <= i <= a.len(),
    ensures
        osa(a, b) >= min2(
            osa_row_min(a, b, i, b.len() as int),
            osa_row_min(a, b, i - 1, b.len() as int),
        ),
    decreases a.len() - i,
{
    if i == a.len() {
        assert(a.take(a.len() as int) =~= a);
        assert(b.take(b.len() as int) =~= b);
        lemma_osa_row_min_le(a, b, i, b.len() as int, b.len() as int);
    } else {
        lemma_osa_ge_pair_min(a, b, i + 1);
        lemma_osa_pair_min_next(a, b, i, b.len() as int);
    }
}

/// The full restricted-distance dynamic program, over three rolling rows,
/// stopping early once the two latest rows show the bound is exceeded.
fn osa_dp(a: &[char], b: &[char], max: Option<usize>) -> (r: DistanceValue)
    requires
        1 <= a@.len(),
        1 <= b@.len(),
        a@.len() + b@.len() <= usize::MAX,
    ensures
        r == bounded_result(osa(a@, b@), max),
{
    let n1 = a.len();
    let n2 = b.len();
    let mut prev2: Vec<usize> = Vec::new();
    let mut prev: Vec<usize> = Vec::new();
    let mut j: usize = 0;
    while j <= n2
        invariant
            j <= n2 + 1,
            n2 == b@.len(),
            n1 + n2 <= usize::MAX,
            prev@.len() == j,
            prev2@.len() == j,
            forall|t: int| 0 <= t < j ==> prev@[t] == t,
            forall|t: int| 0 <= t < j ==> prev2@[t] == t,
            1 <= n1,
        decreases n2 + 1 - j,
    {
        prev.push(j);
        prev2.push(j);
        j += 1;
    }
    proof {
        assert forall|t: int| 0 <= t <= n2 implies prev@[t] == osa_i(a@, b@, 0, t) by {
            assert(a@.take(0) =~= Seq::<char>::empty());
            assert(b@.take(t).len() == t);
        }
        assert(a@.take(0) =~= Seq::<char>::empty());
        assert(b@.take(0) =~= Seq::<char>::empty());
        assert(osa_i(a@, b@, 0, 0) == 0);
        lemma_osa_row_min_le(a@, b@, 0, n2 as int, 0);
    }

    let mut prev_min: usize = 0;
    let mut i: usize = 1;
    while i <= n1
        invariant
            1 <= n1 == a@.len(),
            1 <= n2 == b@.len(),
            n1 + n2 <= usize::MAX,
            1 <= i <= n1 + 1,
            prev@.len() == n2 + 1,
            prev2@.len() == n2 + 1,
            forall|t: int| 0 <= t <= n2 ==> prev@[t] == osa_i(a@, b@, i - 1, t),
            i >= 2 ==> forall|t: int| 0 <= t <= n2 ==> prev2@[t] == osa_i(a@, b@, i - 2, t),
            prev_min == osa_row_min(a@, b@, i - 1, n2 as int),
        decreases n1 + 1 - i,
    {
        let c1 = a[i - 1];
        let mut cur: Vec<usize> = Vec::new();
        cur.push(i);
        let mut cur_min: usize = i;
        proof {
            assert(b@.take(0) =~= Seq::<char>::empty());
            assert(a@.take(i as int).len() == i);
            assert(osa_i(a@, b@, i as int, 0) == i);
            assert(osa_row_min(a@, b@, i as int, 0) == i);
        }
        let mut j: usize = 1;
        while j <= n2
            invariant
                1 <= n1 == a@.len(),
                1 <= n2 == b@.len(),
                n1 + n2 <= usize::MAX,
                1 <= i <= n1,
                1 <= j <= n2 + 1,
                c1 == a@[i - 1],
                prev@.len() == n2 + 1,
                prev2@.len() == n2 + 1,
                forall|t: int| 0 <= t <= n2 ==> prev@[t] == osa_i(a@, b@, i - 1, t),
                i >= 2 ==> forall|t: int|
                    0 <= t <= n2 ==> prev2@[t] == osa_i(a@, b@, i - 2, t),
                cur@.len() == j,
                forall|t: int| 0 <= t < j ==> cur@[t] == osa_i(a@, b@, i as int, t),
                cur_min == osa_row_min(a@, b@, i as int, j - 1),
            decreases n2 + 1 - j,
        {
            let c2 = b[j - 1];
            let cst: usize = if c1 == c2 {
                0
            } else {
                1
            };
            proof {
                lemma_osa_le_max(a@.take(i as int), b@.take(j - 1));
                lemma_osa_le_max(a@.take(i - 1), b@.take(j as int));
                lemma_osa_le_max(a@.take(i - 1), b@.take(j - 1));
                assert(a@.take(i as int).len() == i);
                assert(a@.take(i - 1).len() == i - 1);
                assert(b@.take(j as int).len() == j);
                assert(b@.take(j - 1).len() == j - 1);
            }
            let sub = prev[j - 1] + cst;
            let ins = cur[j - 1] + 1;
            let del = prev[j] + 1;
            let mut v = sub;
            if ins < v {
                v = ins;
            }
            if del < v {
                v = del;
            }
            if i >= 2 && j >= 2 && c1 == b[j - 2] && a[i - 2] == c2 {
                proof {
                    lemma_osa_le_max(a@.take(i - 2), b@.take(j - 2));
                    assert(a@.take(i - 2).len() == i - 2);
                    assert(b@.take(j - 2).len() == j - 2);
                }
                let tr = prev2[j - 2] + 1;
                if tr < v {
                    v = tr;
                }
            }
            proof {
                lemma_osa_step(a@, b@, i as int, j as int);
            }
            cur.push(v);
            if v < cur_min {
                cur_min = v;
            }
            j += 1;
        }
        if let Option::Some(k) = max {
            if cur_min > k && prev_min > k {
                proof {
                    lemma_osa_ge_pair_min(a@, b@, i as int);
                }
                return DistanceValue::Exceeded(k);
            }
        }
        prev2 = prev;
        prev = cur;
        prev_min = cur_min;
        i += 1;
    }
    proof {
        assert(a@.take(n1 as int) =~= a@);
        assert(b@.take(n2 as int) =~= b@);
    }
    apply_bound(prev[n2], max)
}

/// The restricted Damerau-Levenshtein metric, with an optional maximum
/// distance of interest.
#[derive(Debug, Clone)]
pub struct DamerauLevenshtein {
    /// The maximum edit distance of interest, if any.
    pub max_distance: Option<usize>,
}

impl Default for DamerauLevenshtein {
    /// The unbounded metric.
    fn default() -> (r: Self)
        ensures
            r.max_distance == Option::<usize>::None,
    {
        DamerauLevenshtein { max_distance: Option::None }
    }
}

impl DamerauLevenshtein {
    /// A metric that reports `Exceeded(max_distance)` whenever the exact
    /// distance is larger than `max_distance`.
    pub fn with_max_distance(max_distance: usize) -> (r: Self)
        ensures
            r.max_distance == Option::Some(max_distance),
    {
        DamerauLevenshtein { max_distance: Option::Some(max_distance) }
    }

    /// The restricted Damerau-Levenshtein distance between two character
    /// slices, under the configured bound: the shared prefix and suffix are
    /// trimmed first, and a fully consumed side short-circuits the dynamic
    /// program.
    pub fn distance(&self, a: &[char], b: &[char]) -> (r: DistanceValue)
        requires
            a@.len() + b@.len() <= usize::MAX,
        ensures
            r == bounded_result(osa(a@, b@), self.max_distance),
    {
        let delim = crate::utils::delim_distinct(a, b);
        proof {
            lemma_osa_trim(a@, b@, delim);
        }
        let ma = delim.distinct_s1;
        let mb = delim.distinct_s2;
        let n1 = ma.len();
        let n2 = mb.len();
        if n1 == 0 {
            return apply_bound(n2, self.max_distance);
        }
        if n2 == 0 {
            return apply_bound(n1, self.max_distance);
        }
        if let Option::Some(k) = self.max_distance {
            let diff = if n2 >= n1 {
                n2 - n1
            } else {
                n1 - n2
            };
            if diff > k {
                proof {
                    lemma_osa_ge_diff(ma@, mb@);
                }
                return DistanceValue::Exceeded(k);
            }
        }
        osa_dp(ma.as_slice(), mb.as_slice(), self.max_distance)
    }

    /// The restricted Damerau-Levenshtein distance between two strings,
    /// under the configured bound.
    pub fn str_distance(&self, a: &str, b: &str) -> (r: DistanceValue)
        requires
            a@.len() + b@.len() <= usize::MAX,
        ensures
            r == bounded_result(osa(a@, b@), self.max_distance),
    {
        let (s1, s2) = crate::utils::order_by_len_asc(a, b);
        let v1 = crate::utils::chars_of(s1);
        let v2 = crate::utils::chars_of(s2);
        proof {
            lemma_osa_sym(a@, b@);
        }
        self.distance(v1.as_slice(), v2.as_slice())
    }

    /// The restricted distance normalized to `[0, 1]`:
    /// `osa(a, b) / max(|a|, |b|)`, 0 for two empty inputs, and 1 when the
    /// bound was exceeded.
    pub fn normalized(&self, a: &[char], b: &[char]) -> (r: Ratio)
        requires
            a@.len() + b@.len() <= usize::MAX,
        ensures
            r.wf(),
            (r.num as int, r.den as int) == normalized_value(
                osa(a@, b@),
                self.max_distance,
                a@.len(),
                b@.len(),
            ),
    {
        let d = self.distance(a, b);
        match d {
            DistanceValue::Exceeded(_) => Ratio::one(),
            DistanceValue::Exact(n) => {
                if a.len() == 0 && b.len() == 0 {
                    Ratio::zero()
                } else {
                    let mx = if a.len() >= b.len() {
                        a.len()
                    } else {
                        b.len()
                    };
                    proof {
                        lemma_osa_le_max(a@, b@);
                    }
                    Ratio::new(n as u64, mx as u64)
                }
            },
        }
    }

    /// The normalized restricted distance of two strings.
    pub fn str_normalized(&self, a: &str, b: &str) -> (r: Ratio)
        requires
            a@.len() + b@.len() <= usize::MAX,
        ensures
            r.wf(),
            (r.num as int, r.den as int) == normalized_value(
                osa(a@, b@),
                self.max_distance,
                a@.len(),
                b@.len(),
            ),
    {
        let (s1, s2) = crate::utils::order_by_len_asc(a, b);
        let v1 = crate::utils::chars_of(s1);
        let v2 = crate::utils::chars_of(s2);
        proof {
            lemma_osa_sym(a@, b@);
        }
        self.normalized(v1.as_slice(), v2.as_slice())
    }
}

} // verus!
