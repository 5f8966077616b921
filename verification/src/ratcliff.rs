//! The Ratcliff/Obershelp similarity: the longest common contiguous run of
//! the two inputs, plus, recursively, the matches in the unmatched regions
//! on either side of that run.

use vstd::prelude::*;

use crate::ratio::Ratio;
use crate::Metric;

verus! {

/// The length of the longest common run of `a` and `b` that ends exactly at
/// positions `i` of `a` and `j` of `b`.
pub open spec fn run_len(a: Seq<char>, b: Seq<char>, i: int, j: int) -> nat
    decreases i + j + 2,
{
    if i < 0 || j < 0 || i >= a.len() || j >= b.len() {
        0
    } else if a[i] == b[j] {
        1 + run_len(a, b, i - 1, j - 1)
    } else {
        0
    }
}

/// A run ending at `(i, j)` fits into the two sequences.
pub proof fn lemma_run_len_le(a: Seq<char>, b: Seq<char>, i: int, j: int)
    requires
        -1 <= i,
        -1 <= j,
    ensures
        run_len(a, b, i, j) <= i + 1,
        run_len(a, b, i, j) <= j + 1,
    decreases i + j + 2,
{
    if 0 <= i < a.len() && 0 <= j < b.len() && a[i] == b[j] {
        lemma_run_len_le(a, b, i - 1, j - 1);
    }
}

/// The characters of a run are equal pairwise.
pub proof fn lemma_run_len_matches(a: Seq<char>, b: Seq<char>, i: int, j: int, k: int)
    requires
        0 <= k < run_len(a, b, i, j),
    ensures
        a[i - k] == b[j - k],
    decreases k,
{
    if k > 0 {
        lemma_run_len_matches(a, b, i - 1, j - 1, k - 1);
    }
}

/// Keeps the better of the best run seen so far and a candidate, preferring
/// the earlier one on ties.
pub open spec fn best2(cur: (nat, int, int), cand: nat, i: int, j: int) -> (nat, int, int) {
    if cand > cur.0 {
        (cand, i, j)
    } else {
        cur
    }
}

/// Folds the candidate runs ending in columns `0..j` of row `i` into the
/// best run seen so far.
pub open spec fn scan_row(a: Seq<char>, b: Seq<char>, i: int, j: int, cur: (nat, int, int)) -> (
    nat,
    int,
    int,
)
    decreases j,
{
    if j <= 0 {
        cur
    } else {
        best2(scan_row(a, b, i, j - 1, cur), run_len(a, b, i, j - 1), i, j - 1)
    }
}

/// The best run over all cells of rows `0..i`, scanned row by row: the
/// longest common contiguous run, and on ties the one found first.
pub open spec fn scan_rows(a: Seq<char>, b: Seq<char>, i: int) -> (nat, int, int)
    decreases i,
{
    if i <= 0 {
        (0nat, 0, 0)
    } else {
        scan_row(a, b, i - 1, b.len() as int, scan_rows(a, b, i - 1))
    }
}

/// The longest common contiguous run of `a` and `b`, as the triple
/// (length, end position in `a`, end position in `b`); ties are broken by
/// the first find in the row-major forward scan.
pub open spec fn lcs_spec(a: Seq<char>, b: Seq<char>) -> (nat, int, int) {
    scan_rows(a, b, a.len() as int)
}

/// The best-so-far triple either is the initial one or describes a real run.
pub open spec fn scan_valid(a: Seq<char>, b: Seq<char>, cur: (nat, int, int)) -> bool {
    cur.0 > 0 ==> {
        &&& 0 <= cur.1 < a.len()
        &&& 0 <= cur.2 < b.len()
        &&& run_len(a, b, cur.1, cur.2) == cur.0
    }
}

proof fn lemma_scan_row_valid(a: Seq<char>, b: Seq<char>, i: int, j: int, cur: (nat, int, int))
    requires
        scan_valid(a, b, cur),
        0 <= i < a.len(),
        j <= b.len(),
    ensures
        scan_valid(a, b, scan_row(a, b, i, j, cur)),
    decreases j,
{
    if j > 0 {
        lemma_scan_row_valid(a, b, i, j - 1, cur);
        lemma_run_len_le(a, b, i, j - 1);
    }
}

/// The scan result describes a real run, unless there is none at all.
pub proof fn lemma_scan_rows_valid(a: Seq<char>, b: Seq<char>, i: int)
    requires
        i <= a.len(),
    ensures
        scan_valid(a, b, scan_rows(a, b, i)),
    decreases i,
{
    if i > 0 {
        lemma_scan_rows_valid(a, b, i - 1);
        lemma_scan_row_valid(a, b, i - 1, b.len() as int, scan_rows(a, b, i - 1));
    }
}

/// The number of elements the Ratcliff/Obershelp matcher pairs up: the
/// longest common run, plus the matches before it and after it.
pub open spec fn matched(a: Seq<char>, b: Seq<char>) -> nat
    decreases a.len() + b.len(),
    via matched_decreases
{
    let (l, ei, ej) = lcs_spec(a, b);
    if l == 0 {
        0
    } else {
        let i0 = ei + 1 - l;
        let j0 = ej + 1 - l;
        l + matched(a.subrange(0, i0), b.subrange(0, j0)) + matched(
            a.subrange(i0 + l, a.len() as int),
            b.subrange(j0 + l, b.len() as int),
        )
    }
}

#[via_fn]
proof fn matched_decreases(a: Seq<char>, b: Seq<char>) {
    lemma_scan_rows_valid(a, b, a.len() as int);
    let (l, ei, ej) = lcs_spec(a, b);
    if l > 0 {
        lemma_run_len_le(a, b, ei, ej);
    }
}

/// The matcher never pairs more elements than either input has.
pub proof fn lemma_matched_le(a: Seq<char>, b: Seq<char>)
    ensures
        matched(a, b) <= a.len(),
        matched(a, b) <= b.len(),
    decreases a.len() + b.len(),
{
    lemma_scan_rows_valid(a, b, a.len() as int);
    let (l, ei, ej) = lcs_spec(a, b);
    if l > 0 {
        lemma_run_len_le(a, b, ei, ej);
        let i0 = ei + 1 - l;
        let j0 = ej + 1 - l;
        lemma_matched_le(a.subrange(0, i0), b.subrange(0, j0));
        lemma_matched_le(
            a.subrange(i0 + l, a.len() as int),
            b.subrange(j0 + l, b.len() as int),
        );
    }
}

/// The longest contiguous run of equal elements shared by the two inputs.
pub struct CommonSubseq {
    /// Start index of the run in the first input.
    pub s1_idx: usize,
    /// Start index of the run in the second input.
    pub s2_idx: usize,
    /// Length of the run; 0 means no common run exists.
    pub len: usize,
}

impl CommonSubseq {
    /// Whether no common run was found.
    pub fn is_empty(&self) -> (r: bool)
        ensures
            r == (self.len == 0),
    {
        self.len == 0
    }
}

/// What the executable search returns, relative to the scan specification.
pub open spec fn lcs_result(a: Seq<char>, b: Seq<char>, r: CommonSubseq) -> bool {
    let (l, ei, ej) = lcs_spec(a, b);
    &&& r.len == l
    &&& l > 0 ==> r.s1_idx == ei + 1 - l && r.s2_idx == ej + 1 - l
    &&& l == 0 ==> r.s1_idx == 0 && r.s2_idx == 0
    &&& r.s1_idx + r.len <= a.len()
    &&& r.s2_idx + r.len <= b.len()
}

/// Finds the longest common contiguous run of the two inputs; on ties the
/// first one found in the forward scan wins. The run is a real common
/// substring, and no common run anywhere in the inputs is longer.
pub fn longest_common_subsequence(s1: &[char], s2: &[char]) -> (r: CommonSubseq)
    ensures
        lcs_result(s1@, s2@, r),
        forall|t: int|
            r.s1_idx <= t < r.s1_idx + r.len ==> #[trigger] s1@[t] == s2@[t - r.s1_idx
                + r.s2_idx],
        forall|p: int, q: int|
            0 <= p < s1@.len() && 0 <= q < s2@.len() ==> #[trigger] run_len(s1@, s2@, p, q)
                <= r.len,
{
    let la = s1.len();
    let lb = s2.len();
    let mut p: Vec<usize> = Vec::new();
    let mut t: usize = 0;
    while t < lb
        invariant
            t <= lb,
            p@.len() == t,
            forall|u: int| 0 <= u < t ==> p@[u] == 0,
        decreases lb - t,
    {
        p.push(0);
        t += 1;
    }
    let mut best_len: usize = 0;
    let mut best_i: usize = 0;
    let mut best_j: usize = 0;
    let mut i: usize = 0;
    proof {
        assert forall|u: int| 0 <= u < lb implies p@[u] == run_len(s1@, s2@, -1, u) by {}
    }
    while i < la
        invariant
            la == s1@.len(),
            lb == s2@.len(),
            i <= la,
            p@.len() == lb,
            forall|u: int| 0 <= u < lb ==> p@[u] == run_len(s1@, s2@, i - 1, u),
            (best_len as nat, best_i as int, best_j as int) == scan_rows(s1@, s2@, i as int),
            best_len <= la,
        decreases la - i,
    {
        let mut diag: usize = 0;
        let mut j: usize = 0;
        while j < lb
            invariant
                la == s1@.len(),
                lb == s2@.len(),
                i < la,
                j <= lb,
                p@.len() == lb,
                forall|u: int| 0 <= u < j ==> p@[u] == run_len(s1@, s2@, i as int, u),
                forall|u: int| j <= u < lb ==> p@[u] == run_len(s1@, s2@, i - 1, u),
                diag == run_len(s1@, s2@, i - 1, j - 1),
                (best_len as nat, best_i as int, best_j as int) == scan_row(
                    s1@,
                    s2@,
                    i as int,
                    j as int,
                    scan_rows(s1@, s2@, i as int),
                ),
                best_len <= la,
            decreases lb - j,
        {
            let oldp = p[j];
            proof {
                lemma_run_len_le(s1@, s2@, i - 1, j - 1);
            }
            let newlen: usize = if s1[i] == s2[j] {
                diag + 1
            } else {
                0
            };
            proof {
                lemma_run_len_le(s1@, s2@, i as int, j as int);
            }
            if newlen > best_len {
                best_len = newlen;
                best_i = i;
                best_j = j;
            }
            p.set(j, newlen);
            diag = oldp;
            j += 1;
        }
        i += 1;
    }
    proof {
        lemma_scan_rows_valid(s1@, s2@, la as int);
        lemma_scan_rows_ge(s1@, s2@, la as int);
        if best_len > 0 {
            lemma_run_len_le(s1@, s2@, best_i as int, best_j as int);
            assert forall|t: int|
                best_i + 1 - best_len <= t <= best_i as int implies #[trigger] s1@[t] == s2@[t - (
            best_i + 1 - best_len) + (best_j + 1 - best_len)] by {
                lemma_run_len_matches(s1@, s2@, best_i as int, best_j as int, best_i - t);
            }
        }
    }
    if best_len > 0 {
        CommonSubseq { s1_idx: best_i + 1 - best_len, s2_idx: best_j + 1 - best_len, len: best_len }
    } else {
        CommonSubseq { s1_idx: 0, s2_idx: 0, len: 0 }
    }
}

/// Pairs up the elements of the two inputs: the longest common run, then,
/// recursively, the regions before and after it.
pub fn match_sequences(s1: &[char], s2: &[char]) -> (r: usize)
    ensures
        r == matched(s1@, s2@),
    decreases s1@.len() + s2@.len(),
{
    let subseq = longest_common_subsequence(s1, s2);
    if subseq.len == 0 {
        return 0;
    }
    proof {
        lemma_scan_rows_valid(s1@, s2@, s1@.len() as int);
        assert(subseq.s1_idx + subseq.len <= s1@.len());
        assert(subseq.s2_idx + subseq.len <= s2@.len());
        lemma_matched_le(s1@.subrange(0, subseq.s1_idx as int), s2@.subrange(0, subseq.s2_idx as int));
        lemma_matched_le(
            s1@.subrange(subseq.s1_idx + subseq.len, s1@.len() as int),
            s2@.subrange(subseq.s2_idx + subseq.len, s2@.len() as int),
        );
    }
    let la = s1.len();
    let lb = s2.len();
    let before_a = crate::utils::slice_range(s1, 0, subseq.s1_idx);
    let before_b = crate::utils::slice_range(s2, 0, subseq.s2_idx);
    let after_a = crate::utils::slice_range(s1, subseq.s1_idx + subseq.len, la);
    let after_b = crate::utils::slice_range(s2, subseq.s2_idx + subseq.len, lb);
    let before = match_sequences(before_a.as_slice(), before_b.as_slice());
    let after = match_sequences(after_a.as_slice(), after_b.as_slice());
    subseq.len + before + after
}

/// The Ratcliff/Obershelp distance of two inputs:
/// `1 - 2 * matched / (len_a + len_b)`, and 0 when both inputs are empty.
pub open spec fn ratcliff_value(a: Seq<char>, b: Seq<char>) -> (int, int) {
    if a.len() == 0 && b.len() == 0 {
        (0, 1)
    } else {
        (a.len() + b.len() - 2 * matched(a, b), (a.len() + b.len()) as int)
    }
}

/// The Ratcliff/Obershelp metric.
#[derive(Debug, Clone)]
pub struct RatcliffObershelp;

impl Metric for RatcliffObershelp {
    open spec fn valid(&self) -> bool {
        true
    }

    open spec fn dist_spec(&self, a: Seq<char>, b: Seq<char>) -> (int, int) {
        ratcliff_value(a, b)
    }

    open spec fn str_dist_spec(&self, a: Seq<char>, b: Seq<char>) -> (int, int) {
        ratcliff_value(a, b)
    }

    open spec fn norm_spec(&self, a: Seq<char>, b: Seq<char>) -> (int, int) {
        ratcliff_value(a, b)
    }

    fn distance(&self, a: &[char], b: &[char]) -> (r: Ratio) {
        if a.len() == 0 && b.len() == 0 {
            return Ratio::zero();
        }
        let m = match_sequences(a, b);
        proof {
            lemma_matched_le(a@, b@);
        }
        Ratio::new(((a.len() + b.len()) - 2 * m) as u64, (a.len() + b.len()) as u64)
    }

    fn ordered_distance(&self, a: &[char], b: &[char]) -> (r: Ratio) {
        self.distance(a, b)
    }

    fn str_distance(&self, a: &str, b: &str) -> (r: Ratio) {
        let v1 = crate::utils::chars_of(a);
        let v2 = crate::utils::chars_of(b);
        self.distance(v1.as_slice(), v2.as_slice())
    }

    fn normalized(&self, a: &[char], b: &[char]) -> (r: Ratio) {
        self.distance(a, b)
    }
}

/// The scan result only improves on the starting value.
proof fn lemma_scan_row_ge(a: Seq<char>, b: Seq<char>, i: int, j: int, cur: (nat, int, int))
    ensures
        scan_row(a, b, i, j, cur).0 >= cur.0,
        forall|j2: int| 0 <= j2 < j ==> scan_row(a, b, i, j, cur).0 >= run_len(a, b, i, j2),
    decreases j,
{
    if j > 0 {
        lemma_scan_row_ge(a, b, i, j - 1, cur);
    }
}

/// The scan result is at least every candidate run it saw.
proof fn lemma_scan_rows_ge(a: Seq<char>, b: Seq<char>, i: int)
    ensures
        forall|p: int, q: int|
            0 <= p < i && 0 <= q < b.len() ==> scan_rows(a, b, i).0 >= #[trigger] run_len(
                a,
                b,
                p,
                q,
            ),
    decreases i,
{
    if i > 0 {
        lemma_scan_rows_ge(a, b, i - 1);
        lemma_scan_row_ge(a, b, i - 1, b.len() as int, scan_rows(a, b, i - 1));
        assert forall|p: int, q: int|
            0 <= p < i && 0 <= q < b.len() implies scan_rows(a, b, i).0 >= #[trigger] run_len(
            a,
            b,
            p,
            q,
        ) by {
            if p < i - 1 {
                assert(scan_rows(a, b, i - 1).0 >= run_len(a, b, p, q));
            }
        }
    }
}

/// The found run is the longest: no common run ending anywhere is longer.
pub proof fn lemma_lcs_longest(a: Seq<char>, b: Seq<char>, p: int, q: int)
    requires
        0 <= p < a.len(),
        0 <= q < b.len(),
    ensures
        lcs_spec(a, b).0 >= run_len(a, b, p, q),
{
    lemma_scan_rows_ge(a, b, a.len() as int);
}

/// On the diagonal of two identical inputs every run extends to the start.
proof fn lemma_run_len_diag(a: Seq<char>, i: int)
    requires
        0 <= i < a.len(),
    ensures
        run_len(a, a, i, i) == i + 1,
    decreases i,
{
    assert(a[i] == a[i]);
    if i > 0 {
        lemma_run_len_diag(a, i - 1);
        assert(run_len(a, a, i, i) == 1 + run_len(a, a, i - 1, i - 1));
    } else {
        assert(run_len(a, a, -1, -1) == 0);
        assert(run_len(a, a, 0, 0) == 1 + run_len(a, a, -1, -1));
    }
}

/// The matcher pairs every element of two identical inputs.
pub proof fn lemma_matched_refl(a: Seq<char>)
    ensures
        matched(a, a) == a.len(),
{
    if a.len() > 0 {
        lemma_run_len_diag(a, a.len() - 1);
        lemma_lcs_longest(a, a, a.len() - 1, a.len() - 1);
        lemma_scan_rows_valid(a, a, a.len() as int);
        let (l, ei, ej) = lcs_spec(a, a);
        lemma_run_len_le(a, a, ei, ej);
        assert(l == a.len() && ei == a.len() - 1 && ej == a.len() - 1);
        assert(a.subrange(0, 0) =~= Seq::<char>::empty());
        assert(a.subrange(a.len() as int, a.len() as int) =~= Seq::<char>::empty());
        assert(matched(Seq::<char>::empty(), Seq::<char>::empty()) == 0) by {
            assert(scan_rows(Seq::<char>::empty(), Seq::<char>::empty(), 0) == (
                0nat,
                0int,
                0int,
            ));
        }
        assert(matched(a, a) == l + matched(a.subrange(0, 0), a.subrange(0, 0)) + matched(
            a.subrange(a.len() as int, a.len() as int),
            a.subrange(a.len() as int, a.len() as int),
        ));
    }
}

/// Identical inputs are at Ratcliff/Obershelp distance zero.
pub proof fn lemma_ratcliff_refl(a: Seq<char>)
    ensures
        ratcliff_value(a, a).0 == 0,
{
    lemma_matched_refl(a);
}

} // verus!
