//! The Jaro similarity: windowed greedy character matching followed by a
//! transposition count.

use vstd::prelude::*;

use crate::ratio::Ratio;
use crate::Metric;

verus! {

/// The first column of the match window of position `i`, for radius `w`.
pub open spec fn win_start(i: int, w: int) -> int {
    if i > w {
        i - w
    } else {
        0
    }
}

/// One past the last column of the match window of position `i`.
pub open spec fn win_end(i: int, w: int, l2: int) -> int {
    if i + w + 1 < l2 {
        i + w + 1
    } else {
        l2
    }
}

/// The first position in `[j, end)` that is not flagged yet and holds `c`,
/// or -1 if there is none.
pub open spec fn find_match(c: char, b: Seq<char>, flags: Seq<bool>, j: int, end: int) -> int
    decreases end - j,
{
    if j < 0 || j >= end {
        -1
    } else if !flags[j] && b[j] == c {
        j
    } else {
        find_match(c, b, flags, j + 1, end)
    }
}

/// How many of the first `i` flags are set.
pub open spec fn count_true(f: Seq<bool>, i: int) -> nat
    decreases i,
{
    if i <= 0 {
        0
    } else {
        count_true(f, i - 1) + if f[i - 1] {
            1nat
        } else {
            0nat
        }
    }
}

/// The matching state after the first `i` elements of `a` have looked for a
/// partner in `b`: the two flag rows and the number of matches.
pub open spec fn jaro_state(a: Seq<char>, b: Seq<char>, w: int, i: int) -> (
    Seq<bool>,
    Seq<bool>,
    nat,
)
    decreases i,
{
    if i <= 0 {
        (Seq::new(a.len(), |t: int| false), Seq::new(b.len(), |t: int| false), 0nat)
    } else {
        let (f1, f2, m) = jaro_state(a, b, w, i - 1);
        let j = find_match(a[i - 1], b, f2, win_start(i - 1, w), win_end(i - 1, w, b.len() as int));
        if j >= 0 {
            (f1.update(i - 1, true), f2.update(j, true), m + 1)
        } else {
            (f1, f2, m)
        }
    }
}

/// The first flagged position at or after `k`, or the row length if there
/// is none.
pub open spec fn next_set(f: Seq<bool>, k: int) -> int
    decreases f.len() - k,
{
    if k < 0 || k >= f.len() {
        f.len() as int
    } else if f[k] {
        k
    } else {
        next_set(f, k + 1)
    }
}

/// The transposition state after the first `i` elements of `a`: twice the
/// transposition tally (each mismatched matched pair counts one half), and
/// the next unread position of `b`'s matched elements.
pub open spec fn trans_state(a: Seq<char>, b: Seq<char>, f1: Seq<bool>, f2: Seq<bool>, i: int) -> (
    nat,
    int,
)
    decreases i,
{
    if i <= 0 {
        (0nat, 0)
    } else {
        let (t, k) = trans_state(a, b, f1, f2, i - 1);
        if f1[i - 1] {
            let k2 = next_set(f2, k);
            (
                t + if k2 < b.len() && a[i - 1] != b[k2] {
                    1nat
                } else {
                    0nat
                },
                k2 + 1,
            )
        } else {
            (t, k)
        }
    }
}

/// The Jaro distance of `a` and `b` as an exact rational: with `m` matches
/// and a transposition tally of `t / 2`,
/// `1 - (m / l1 + m / l2 + (m - t / 2) / m) / 3`, with the documented edge
/// cases for empty and single-element inputs and for `m == 0`.
pub open spec fn jaro_value(a: Seq<char>, b: Seq<char>) -> (int, int) {
    let l1 = a.len() as int;
    let l2 = b.len() as int;
    if l1 + l2 == 0 {
        (0, 1)
    } else if l1 == 0 || l2 == 0 {
        (1, 1)
    } else if l1 + l2 == 2 {
        if a[0] == b[0] {
            (0, 1)
        } else {
            (1, 1)
        }
    } else {
        let w = (if l1 >= l2 {
            l1
        } else {
            l2
        }) / 2 - 1;
        let (f1, f2, m) = jaro_state(a, b, w, l1);
        if m == 0 {
            (1, 1)
        } else {
            let (t, k) = trans_state(a, b, f1, f2, l1);
            let den = 6 * l1 * l2 * (m as int);
            (
                den - 2 * l2 * (m as int) * (m as int) - 2 * l1 * (m as int) * (m as int) - (2 * (
                m as int) - t) * l1 * l2,
                den,
            )
        }
    }
}

/// A row of unset flags counts zero.
proof fn lemma_count_false(f: Seq<bool>, n: int)
    requires
        forall|t: int| 0 <= t < n ==> !f[t],
    ensures
        count_true(f, n) == 0,
    decreases n,
{
    if n > 0 {
        lemma_count_false(f, n - 1);
    }
}

/// Counting is monotone in the prefix length.
proof fn lemma_count_true_mono(f: Seq<bool>, i: int, j: int)
    requires
        i <= j,
    ensures
        count_true(f, i) <= count_true(f, j),
    decreases j - i,
{
    if i < j {
        lemma_count_true_mono(f, i, j - 1);
    }
}

/// At most every prefix position is set.
proof fn lemma_count_true_le(f: Seq<bool>, i: int)
    ensures
        count_true(f, i) <= if i >= 0 {
            i
        } else {
            0
        },
    decreases i,
{
    if i > 0 {
        lemma_count_true_le(f, i - 1);
    }
}

/// Setting one unset flag raises the count by one; counts over prefixes
/// that end before the flag are unchanged.
proof fn lemma_count_true_update(f: Seq<bool>, p: int, n: int)
    requires
        0 <= p < f.len(),
        !f[p],
        n <= f.len(),
    ensures
        p < n ==> count_true(f.update(p, true), n) == count_true(f, n) + 1,
        p >= n ==> count_true(f.update(p, true), n) == count_true(f, n),
    decreases n,
{
    if n > 0 {
        lemma_count_true_update(f, p, n - 1);
    }
}

/// The result of a window search is in the window and unflagged.
proof fn lemma_find_match(c: char, b: Seq<char>, flags: Seq<bool>, j: int, end: int)
    requires
        end <= b.len(),
        flags.len() == b.len(),
    ensures
        ({
            let r = find_match(c, b, flags, j, end);
            r >= 0 ==> j <= r < end && !flags[r] && b[r] == c
        }),
    decreases end - j,
{
    if !(j < 0 || j >= end) {
        lemma_find_match(c, b, flags, j + 1, end);
    }
}

/// The shape of the matching state: flag rows keep their lengths, both rows
/// have exactly `m` set flags, and positions of `a` not visited yet are
/// unflagged.
proof fn lemma_jaro_state(a: Seq<char>, b: Seq<char>, w: int, i: int)
    requires
        0 <= i <= a.len(),
    ensures
        ({
            let (f1, f2, m) = jaro_state(a, b, w, i);
            &&& f1.len() == a.len()
            &&& f2.len() == b.len()
            &&& count_true(f1, a.len() as int) == m
            &&& count_true(f2, b.len() as int) == m
            &&& forall|t: int| i <= t < a.len() ==> !f1[t]
            &&& m <= i
        }),
    decreases i,
{
    if i == 0 {
        lemma_count_false(Seq::new(a.len(), |t: int| false), a.len() as int);
        lemma_count_false(Seq::new(b.len(), |t: int| false), b.len() as int);
    } else {
        lemma_jaro_state(a, b, w, i - 1);
        let (f1, f2, m) = jaro_state(a, b, w, i - 1);
        let j = find_match(a[i - 1], b, f2, win_start(i - 1, w), win_end(i - 1, w, b.len() as int));
        lemma_find_match(a[i - 1], b, f2, win_start(i - 1, w), win_end(i - 1, w, b.len() as int));
        if j >= 0 {
            assert(!f1[i - 1]);
            assert(!f2[j] && 0 <= j < b.len());
            lemma_count_true_update(f1, i - 1, a.len() as int);
            lemma_count_true_update(f2, j, b.len() as int);
            assert forall|t: int| i <= t < a.len() implies !jaro_state(a, b, w, i).0[t] by {
                assert(jaro_state(a, b, w, i).0[t] == f1[t]);
            }
        }
    }
}

/// A successful search for the next set flag: if fewer flags were consumed
/// than exist, the next one is within the row, and no flag lies in between.
proof fn lemma_next_set(f: Seq<bool>, k: int)
    requires
        0 <= k,
        count_true(f, k) < count_true(f, f.len() as int),
    ensures
        ({
            let k2 = next_set(f, k);
            &&& k <= k2 < f.len()
            &&& f[k2]
            &&& count_true(f, k2) == count_true(f, k)
            &&& count_true(f, k2 + 1) == count_true(f, k) + 1
        }),
    decreases f.len() - k,
{
    if k >= f.len() {
        lemma_count_true_mono(f, f.len() as int, k);
    } else if f[k] {
    } else {
        lemma_next_set(f, k + 1);
    }
}

/// The shape of the transposition state: `b`'s matched elements are read in
/// order, as many of them as `a`'s flags seen so far, and the tally counts
/// at most one per pair.
proof fn lemma_trans_state(a: Seq<char>, b: Seq<char>, f1: Seq<bool>, f2: Seq<bool>, i: int)
    requires
        0 <= i <= a.len(),
        f1.len() == a.len(),
        f2.len() == b.len(),
        count_true(f1, a.len() as int) == count_true(f2, b.len() as int),
    ensures
        ({
            let (t, k) = trans_state(a, b, f1, f2, i);
            &&& 0 <= k <= b.len()
            &&& count_true(f2, k) == count_true(f1, i)
            &&& t <= count_true(f1, i)
        }),
    decreases i,
{
    if i > 0 {
        lemma_trans_state(a, b, f1, f2, i - 1);
        let (t, k) = trans_state(a, b, f1, f2, i - 1);
        if f1[i - 1] {
            assert(count_true(f1, i) == count_true(f1, i - 1) + 1);
            lemma_count_true_mono(f1, i, a.len() as int);
            lemma_next_set(f2, k);
        }
    }
}

/// The Jaro metric.
pub struct Jaro;

/// The Jaro distance with the classic Winkler boost.
pub type JaroWinkler = crate::modifiers::Winkler<Jaro>;

impl Metric for Jaro {
    open spec fn valid(&self) -> bool {
        true
    }

    open spec fn dist_spec(&self, a: Seq<char>, b: Seq<char>) -> (int, int) {
        jaro_value(a, b)
    }

    open spec fn str_dist_spec(&self, a: Seq<char>, b: Seq<char>) -> (int, int) {
        if a.len() <= b.len() {
            jaro_value(a, b)
        } else {
            jaro_value(b, a)
        }
    }

    open spec fn norm_spec(&self, a: Seq<char>, b: Seq<char>) -> (int, int) {
        jaro_value(a, b)
    }

    fn distance(&self, a: &[char], b: &[char]) -> (r: Ratio) {
        let l1 = a.len();
        let l2 = b.len();
        if l1 == 0 && l2 == 0 {
            return Ratio::zero();
        }
        if l1 == 0 || l2 == 0 {
            return Ratio::one();
        }
        if l1 + l2 == 2 {
            if a[0] == b[0] {
                return Ratio::zero();
            } else {
                return Ratio::one();
            }
        }
        let mx = if l1 >= l2 {
            l1
        } else {
            l2
        };
        let w = mx / 2 - 1;
        let ghost wi = w as int;

        let mut s1_matches: Vec<bool> = Vec::new();
        let mut s2_matches: Vec<bool> = Vec::new();
        let mut t: usize = 0;
        while t < l1
            invariant
                t <= l1,
                s1_matches@.len() == t,
                forall|u: int| 0 <= u < t ==> !s1_matches@[u],
            decreases l1 - t,
        {
            s1_matches.push(false);
            t += 1;
        }
        let mut t: usize = 0;
        while t < l2
            invariant
                t <= l2,
                s2_matches@.len() == t,
                forall|u: int| 0 <= u < t ==> !s2_matches@[u],
            decreases l2 - t,
        {
            s2_matches.push(false);
            t += 1;
        }
        proof {
            assert(s1_matches@ =~= jaro_state(a@, b@, wi, 0).0);
            assert(s2_matches@ =~= jaro_state(a@, b@, wi, 0).1);
        }

        let mut matches: usize = 0;
        let mut i: usize = 0;
        while i < l1
            invariant
                l1 == a@.len(),
                l2 == b@.len(),
                l1 <= crate::MAX_SEQ_LEN,
                l2 <= crate::MAX_SEQ_LEN,
                w <= crate::MAX_SEQ_LEN,
                i <= l1,
                wi == w as int,
                (s1_matches@, s2_matches@, matches as nat) == jaro_state(a@, b@, wi, i as int),
                s1_matches@.len() == l1,
                s2_matches@.len() == l2,
                matches <= i,
            decreases l1 - i,
        {
            let start = if i > w {
                i - w
            } else {
                0
            };
            let end = if i + w + 1 < l2 {
                i + w + 1
            } else {
                l2
            };
            proof {
                assert(start == win_start(i as int, wi));
                assert(end == win_end(i as int, wi, l2 as int));
            }
            let c = a[i];
            let mut j = start;
            let mut found: bool = false;
            if start < end {
                while j < end && !found
                    invariant
                        l2 == b@.len(),
                        i < l1 == a@.len(),
                        s2_matches@.len() == l2,
                        start <= j <= end <= l2,
                        c == a@[i as int],
                        !found ==> find_match(c, b@, s2_matches@, start as int, end as int)
                            == find_match(c, b@, s2_matches@, j as int, end as int),
                        found ==> j < end && find_match(
                            c,
                            b@,
                            s2_matches@,
                            start as int,
                            end as int,
                        ) == j && !s2_matches@[j as int] && b@[j as int] == c,
                    decreases end - j + (if found {
                        0int
                    } else {
                        1int
                    }),
                {
                    if !s2_matches[j] && b[j] == c {
                        found = true;
                    } else {
                        j += 1;
                    }
                }
            }
            let ghost fm = find_match(c, b@, s2_matches@, start as int, end as int);
            proof {
                if start >= end {
                    assert(fm == -1);
                }
            }
            if found {
                proof {
                    lemma_find_match(c, b@, s2_matches@, start as int, end as int);
                    lemma_jaro_state(a@, b@, wi, i as int);
                }
                s1_matches.set(i, true);
                s2_matches.set(j, true);
                proof {
                    assert(s1_matches@ =~= jaro_state(a@, b@, wi, i as int).0.update(
                        i as int,
                        true,
                    ));
                    assert(s2_matches@ =~= jaro_state(a@, b@, wi, i as int).1.update(
                        fm,
                        true,
                    ));
                }
                matches += 1;
            } else {
                proof {
                    assert(fm == -1) by {
                        assert(find_match(c, b@, s2_matches@, end as int, end as int) == -1);
                    }
                }
            }
            i += 1;
        }

        if matches == 0 {
            return Ratio::one();
        }

        proof {
            lemma_jaro_state(a@, b@, wi, l1 as int);
        }
        let ghost gf1 = jaro_state(a@, b@, wi, l1 as int).0;
        let ghost gf2 = jaro_state(a@, b@, wi, l1 as int).1;

        let mut t2: usize = 0;
        let mut k: usize = 0;
        let mut i: usize = 0;
        while i < l1
            invariant
                l1 == a@.len(),
                l2 == b@.len(),
                i <= l1,
                s1_matches@ == gf1,
                s2_matches@ == gf2,
                gf1.len() == l1,
                gf2.len() == l2,
                count_true(gf1, l1 as int) == matches as nat,
                count_true(gf2, l2 as int) == matches as nat,
                (t2 as nat, k as int) == trans_state(a@, b@, gf1, gf2, i as int),
                k <= l2,
                t2 <= i,
            decreases l1 - i,
        {
            if s1_matches[i] {
                proof {
                    lemma_trans_state(a@, b@, gf1, gf2, i as int);
                    assert(count_true(gf1, i + 1) == count_true(gf1, i as int) + 1);
                    lemma_count_true_mono(gf1, i + 1, l1 as int);
                    lemma_count_true_le(gf1, i as int);
                    lemma_next_set(gf2, k as int);
                }
                let ghost ns = next_set(gf2, k as int);
                while !s2_matches[k]
                    invariant
                        l2 == b@.len(),
                        s2_matches@ == gf2,
                        gf2.len() == l2,
                        k <= ns < l2,
                        ns == next_set(gf2, k as int),
                        gf2[ns],
                    decreases ns - k,
                {
                    k += 1;
                }
                proof {
                    assert(k == ns);
                }
                if a[i] != b[k] {
                    t2 += 1;
                }
                k += 1;
            }
            i += 1;
        }
        proof {
            lemma_trans_state(a@, b@, gf1, gf2, l1 as int);
            lemma_count_true_le(gf1, l1 as int);
        }

        // exact rational: den = 6 l1 l2 m, num = den - 2 l2 m^2 - 2 l1 m^2
        // - (2 m - t) l1 l2
        let lm = matches as u64;
        let u1 = l1 as u64;
        let u2 = l2 as u64;
        let tt = t2 as u64;
        proof {
            lemma_count_true_le(gf2, l2 as int);
            lemma_jaro_terms(l1 as int, l2 as int, matches as int, t2 as int);
        }
        let den = 6 * u1 * u2 * lm;
        let term_a = 2 * u2 * lm * lm;
        let term_b = 2 * u1 * lm * lm;
        let term_c = (2 * lm - tt) * u1 * u2;
        let num = den - term_a - term_b - term_c;
        Ratio::new(num, den)
    }

    fn ordered_distance(&self, a: &[char], b: &[char]) -> (r: Ratio) {
        if a.len() <= b.len() {
            self.distance(a, b)
        } else {
            self.distance(b, a)
        }
    }

    fn str_distance(&self, a: &str, b: &str) -> (r: Ratio) {
        let v1 = crate::utils::chars_of(a);
        let v2 = crate::utils::chars_of(b);
        self.ordered_distance(v1.as_slice(), v2.as_slice())
    }

    fn normalized(&self, a: &[char], b: &[char]) -> (r: Ratio) {
        self.distance(a, b)
    }
}

/// Bounds that keep the exact Jaro rational inside `u64` range and in
/// `[0, 1]`: with `m <= l1`, `m <= l2`, `t <= m` and both lengths at most
/// `MAX_SEQ_LEN`, every term fits and their sum stays below the denominator.
proof fn lemma_jaro_terms(l1: int, l2: int, m: int, t: int)
    requires
        1 <= m,
        m <= l1,
        m <= l2,
        0 <= t <= m,
        l1 <= crate::MAX_SEQ_LEN,
        l2 <= crate::MAX_SEQ_LEN,
    ensures
        2 * l2 * m * m <= 2 * l1 * l2 * m,
        2 * l1 * m * m <= 2 * l1 * l2 * m,
        0 <= (2 * m - t) * l1 * l2 <= 2 * l1 * l2 * m,
        6 * l1 * l2 * m <= 6000000000000000,
        2 * l2 * m * m + 2 * l1 * m * m + (2 * m - t) * l1 * l2 <= 6 * l1 * l2 * m,
        6 <= 6 * l1 * l2 * m,
        6 * l1 * l2 <= 60000000000,
        2 * l2 * m <= 20000000000,
        2 * l1 * m <= 20000000000,
        (2 * m - t) * l1 <= 20000000000,
{
    assert(6 <= 6 * l1 * l2 * m) by (nonlinear_arith)
        requires
            1 <= m,
            1 <= l1,
            1 <= l2,
    {};
    assert(6 * l1 * l2 <= 60000000000 && 2 * l2 * m <= 20000000000 && 2 * l1 * m
        <= 20000000000 && (2 * m - t) * l1 <= 20000000000) by (nonlinear_arith)
        requires
            1 <= m <= 100000,
            1 <= l1 <= 100000,
            1 <= l2 <= 100000,
            0 <= t <= m,
    {};
    assert(2 * l2 * m * m <= 2 * l1 * l2 * m) by (nonlinear_arith)
        requires
            1 <= m <= l1,
            1 <= l2,
    {};
    assert(2 * l1 * m * m <= 2 * l1 * l2 * m) by (nonlinear_arith)
        requires
            1 <= m <= l2,
            1 <= l1,
    {};
    assert(0 <= (2 * m - t) * l1 * l2 <= 2 * l1 * l2 * m) by (nonlinear_arith)
        requires
            1 <= m,
            0 <= t <= m,
            1 <= l1,
            1 <= l2,
    {};
    assert(6 * l1 * l2 * m <= 6000000000000000) by (nonlinear_arith)
        requires
            1 <= m <= l1,
            1 <= l1 <= 100000,
            1 <= l2 <= 100000,
            m <= 100000,
    {};
    assert(2 * l2 * m * m + 2 * l1 * m * m + (2 * m - t) * l1 * l2 <= 6 * l1 * l2 * m)
        by (nonlinear_arith)
        requires
            1 <= m,
            m <= l1,
            m <= l2,
            0 <= t <= m,
    {};
}

/// A window search that skips flagged positions and stops at the first
/// unflagged equal element.
proof fn lemma_find_first_at(c: char, b: Seq<char>, flags: Seq<bool>, j: int, end: int, t: int)
    requires
        0 <= j <= t < end <= b.len(),
        forall|u: int| j <= u < t ==> flags[u],
        !flags[t],
        b[t] == c,
    ensures
        find_match(c, b, flags, j, end) == t,
    decreases t - j,
{
    if j < t {
        lemma_find_first_at(c, b, flags, j + 1, end, t);
    }
}

/// On two identical inputs the greedy matcher pairs every position with
/// itself.
proof fn lemma_jaro_state_refl(a: Seq<char>, w: int, i: int)
    requires
        0 <= i <= a.len(),
        w >= 0,
    ensures
        ({
            let (f1, f2, m) = jaro_state(a, a, w, i);
            &&& m == i
            &&& f1 == Seq::new(a.len(), |t: int| t < i)
            &&& f2 == Seq::new(a.len(), |t: int| t < i)
        }),
    decreases i,
{
    if i == 0 {
        assert(Seq::new(a.len(), |t: int| false) =~= Seq::new(a.len(), |t: int| t < 0));
    } else {
        lemma_jaro_state_refl(a, w, i - 1);
        let (f1, f2, m) = jaro_state(a, a, w, i - 1);
        let st = win_start(i - 1, w);
        let en = win_end(i - 1, w, a.len() as int);
        assert(st <= i - 1 < en <= a.len());
        lemma_find_first_at(a[i - 1], a, f2, st, en, i - 1);
        assert(f1.update(i - 1, true) =~= Seq::new(a.len(), |t: int| t < i));
        assert(f2.update(i - 1, true) =~= Seq::new(a.len(), |t: int| t < i));
    }
}

/// On identical inputs the transposition walk pairs position `k` with
/// itself and counts nothing.
proof fn lemma_trans_refl(a: Seq<char>, f: Seq<bool>, i: int)
    requires
        0 <= i <= a.len(),
        f == Seq::new(a.len(), |t: int| true),
    ensures
        trans_state(a, a, f, f, i) == (0nat, i),
    decreases i,
{
    if i > 0 {
        lemma_trans_refl(a, f, i - 1);
        assert(next_set(f, i - 1) == i - 1);
    }
}

/// A sequence is at Jaro distance zero from itself.
pub proof fn lemma_jaro_refl(a: Seq<char>)
    ensures
        jaro_value(a, a).0 == 0,
        jaro_value(a, a).1 >= 1,
{
    let l: int = a.len() as int;
    if l == 0 {
    } else if 2 * l == 2 {
    } else {
        let w: int = l / 2 - 1;
        lemma_jaro_state_refl(a, w, l);
        let (f1, f2, m) = jaro_state(a, a, w, l);
        assert(f1 =~= Seq::new(a.len(), |t: int| true));
        lemma_trans_refl(a, Seq::new(a.len(), |t: int| true), l);
        assert(m == l && l >= 2);
        let t: int = trans_state(a, a, f1, f2, l).0 as int;
        assert(t == 0);
        assert(6 * l * l * l - 2 * l * l * l - 2 * l * l * l - 2 * l * l * l == 0)
            by (nonlinear_arith)
        {};
        assert(6 * l * l * l >= 6) by (nonlinear_arith)
            requires
                l >= 2,
        {};
    }
}

/// The string-level Jaro distance is symmetric for inputs of different
/// lengths, because both argument orders are reduced to the same ordered
/// pair. For inputs of equal length the two greedy matching passes are not
/// related by this argument and symmetry is not established here.
pub proof fn lemma_jaro_str_sym_distinct_lens(m: Jaro, a: Seq<char>, b: Seq<char>)
    requires
        a.len() != b.len(),
    ensures
        m.str_dist_spec(a, b) == m.str_dist_spec(b, a),
{
}

} // verus!
