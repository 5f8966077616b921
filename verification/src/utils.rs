//! Shared helpers: character extraction, argument ordering, and the affix
//! trimmer that strips common leading and trailing elements before the
//! expensive comparisons.

use vstd::prelude::*;

verus! {

/// `n` is the length of the longest common prefix of `a` and `b`.
pub open spec fn is_common_prefix_len(a: Seq<char>, b: Seq<char>, n: nat) -> bool {
    &&& n <= a.len()
    &&& n <= b.len()
    &&& forall|k: int| 0 <= k < n ==> a[k] == b[k]
    &&& n < a.len() && n < b.len() ==> a[n as int] != b[n as int]
}

/// `n` is the length of the longest common suffix of `a` and `b`.
pub open spec fn is_common_suffix_len(a: Seq<char>, b: Seq<char>, n: nat) -> bool {
    &&& n <= a.len()
    &&& n <= b.len()
    &&& forall|k: int| a.len() - n <= k < a.len() ==> #[trigger] a[k] == b[k - a.len() + b.len()]
    &&& n < a.len() && n < b.len() ==> a[a.len() - 1 - n] != b[b.len() - 1 - n]
}

/// The length of the longest common prefix of two sequences.
pub open spec fn common_prefix(a: Seq<char>, b: Seq<char>) -> nat
    decreases a.len(),
{
    if a.len() == 0 || b.len() == 0 || a[0] != b[0] {
        0
    } else {
        1 + common_prefix(a.drop_first(), b.drop_first())
    }
}

/// `common_prefix` satisfies the prefix-length predicate, and is symmetric.
pub proof fn lemma_common_prefix(a: Seq<char>, b: Seq<char>)
    ensures
        is_common_prefix_len(a, b, common_prefix(a, b)),
        common_prefix(a, b) == common_prefix(b, a),
    decreases a.len(),
{
    if a.len() == 0 || b.len() == 0 || a[0] != b[0] {
    } else {
        lemma_common_prefix(a.drop_first(), b.drop_first());
        let n = common_prefix(a, b);
        assert forall|k: int| 0 <= k < n implies a[k] == b[k] by {
            if k > 0 {
                assert(a.drop_first()[k - 1] == b.drop_first()[k - 1]);
            }
        }
        if n < a.len() && n < b.len() {
            assert(a.drop_first()[n - 1] == a[n as int]);
            assert(b.drop_first()[n - 1] == b[n as int]);
        }
    }
}

/// The prefix-length predicate has a unique witness.
pub proof fn lemma_prefix_len_unique(a: Seq<char>, b: Seq<char>, n1: nat, n2: nat)
    requires
        is_common_prefix_len(a, b, n1),
        is_common_prefix_len(a, b, n2),
    ensures
        n1 == n2,
{
}

/// Collects the characters of a string into a vector.
pub fn chars_of(s: &str) -> (r: Vec<char>)
    ensures
        r@ == s@,
{
    let n = s.unicode_len();
    let mut r: Vec<char> = Vec::new();
    let mut i: usize = 0;
    while i < n
        invariant
            n == s@.len(),
            i <= n,
            r@ == s@.subrange(0, i as int),
        decreases n - i,
    {
        r.push(s.get_char(i));
        i += 1;
    }
    proof {
        assert(r@ =~= s@);
    }
    r
}

/// Returns the shorter string first.
pub fn order_by_len_asc<'a>(s1: &'a str, s2: &'a str) -> (r: (&'a str, &'a str))
    ensures
        s1@.len() <= s2@.len() ==> r.0@ == s1@ && r.1@ == s2@,
        s1@.len() > s2@.len() ==> r.0@ == s2@ && r.1@ == s1@,
        r.0@.len() <= r.1@.len(),
{
    if s1.unicode_len() <= s2.unicode_len() {
        (s1, s2)
    } else {
        (s2, s1)
    }
}

/// Whether two character slices hold the same characters.
pub fn vec_eq(a: &[char], b: &[char]) -> (r: bool)
    ensures
        r == (a@ == b@),
{
    if a.len() != b.len() {
        return false;
    }
    let mut i: usize = 0;
    while i < a.len()
        invariant
            a@.len() == b@.len(),
            i <= a@.len(),
            forall|k: int| 0 <= k < i ==> a@[k] == b@[k],
        decreases a@.len() - i,
    {
        if a[i] != b[i] {
            return false;
        }
        i += 1;
    }
    proof {
        assert(a@ =~= b@);
    }
    true
}

/// Number of equal leading elements of the two slices.
pub fn count_eq(s1: &[char], s2: &[char]) -> (r: usize)
    ensures
        is_common_prefix_len(s1@, s2@, r as nat),
{
    let mut i: usize = 0;
    while i < s1.len() && i < s2.len() && s1[i] == s2[i]
        invariant
            i <= s1@.len(),
            i <= s2@.len(),
            forall|k: int| 0 <= k < i ==> s1@[k] == s2@[k],
        decreases s1@.len() - i,
    {
        i += 1;
    }
    i
}

/// Number of equal trailing elements of the two slices.
fn count_eq_rev(s1: &[char], s2: &[char]) -> (r: usize)
    ensures
        is_common_suffix_len(s1@, s2@, r as nat),
{
    let mut i: usize = 0;
    while i < s1.len() && i < s2.len() && s1[s1.len() - 1 - i] == s2[s2.len() - 1 - i]
        invariant
            i <= s1@.len(),
            i <= s2@.len(),
            forall|k: int|
                s1@.len() - i <= k < s1@.len() ==> #[trigger] s1@[k] == s2@[k - s1@.len()
                    + s2@.len()],
        decreases s1@.len() - i,
    {
        i += 1;
    }
    i
}

/// The decomposition of two sequences into a shared prefix, a shared suffix,
/// and the distinct middles that remain.
pub struct DelimDistinct {
    /// The number of elements both inputs share at their beginning.
    pub prefix_len: usize,
    /// The distinct middle of the first input.
    pub distinct_s1: Vec<char>,
    /// The number of distinct elements left of the first input.
    pub s1_len: usize,
    /// The distinct middle of the second input.
    pub distinct_s2: Vec<char>,
    /// The number of distinct elements left of the second input.
    pub s2_len: usize,
    /// The number of elements both inputs share at their end.
    pub suffix_len: usize,
}

impl DelimDistinct {
    /// The trimmer's contract, relative to the two original inputs.
    pub open spec fn decomposes(self, a: Seq<char>, b: Seq<char>) -> bool {
        &&& is_common_suffix_len(a, b, self.suffix_len as nat)
        &&& is_common_prefix_len(
            a.subrange(0, a.len() - self.suffix_len),
            b.subrange(0, b.len() - self.suffix_len),
            self.prefix_len as nat,
        )
        &&& self.prefix_len + self.suffix_len <= a.len()
        &&& self.prefix_len + self.suffix_len <= b.len()
        &&& self.distinct_s1@ == a.subrange(
            self.prefix_len as int,
            a.len() - self.suffix_len,
        )
        &&& self.distinct_s2@ == b.subrange(
            self.prefix_len as int,
            b.len() - self.suffix_len,
        )
        &&& self.s1_len == self.distinct_s1@.len()
        &&& self.s2_len == self.distinct_s2@.len()
        &&& a.subrange(0, self.prefix_len as int) == b.subrange(0, self.prefix_len as int)
        &&& a.subrange(a.len() - self.suffix_len, a.len() as int) == b.subrange(
            b.len() - self.suffix_len,
            b.len() as int,
        )
    }

    /// Amount of elements both inputs share at prefix and suffix together.
    pub fn common(&self) -> (r: usize)
        requires
            self.prefix_len + self.suffix_len <= usize::MAX,
        ensures
            r == self.prefix_len + self.suffix_len,
    {
        self.prefix_len + self.suffix_len
    }

    /// The amount of distinct elements for each input.
    pub fn remaining(&self) -> (r: (usize, usize))
        ensures
            r == (self.s1_len, self.s2_len),
    {
        (self.s1_len, self.s2_len)
    }

    /// Whether both inputs are identical.
    pub fn is_eq(&self) -> (r: bool)
        ensures
            r == (self.s1_len == 0 && self.s2_len == 0),
    {
        self.s1_len == 0 && self.s2_len == 0
    }

    pub fn remaining_s2(&self) -> (r: usize)
        ensures
            r == self.s2_len,
    {
        self.s2_len
    }

    pub fn remaining_s1(&self) -> (r: usize)
        ensures
            r == self.s1_len,
    {
        self.s1_len
    }

    /// Strips the common suffix, then the common prefix of what is left, and
    /// returns the distinct middles together with the trimmed lengths.
    pub fn delim_distinct(a: &[char], b: &[char]) -> (r: DelimDistinct)
        ensures
            r.decomposes(a@, b@),
    {
        delim_distinct(a, b)
    }
}

/// Strips the common suffix, then the common prefix of what is left, and
/// returns the distinct middles together with the trimmed lengths.
pub fn delim_distinct(a: &[char], b: &[char]) -> (r: DelimDistinct)
    ensures
        r.decomposes(a@, b@),
{
    let a_len = a.len();
    let b_len = b.len();

    let suffix_len = count_eq_rev(a, b);

    let a_trim = slice_prefix(a, a_len - suffix_len);
    let b_trim = slice_prefix(b, b_len - suffix_len);

    let prefix_len = count_eq(a_trim.as_slice(), b_trim.as_slice());

    let distinct_s1 = slice_range(a, prefix_len, a_len - suffix_len);
    let distinct_s2 = slice_range(b, prefix_len, b_len - suffix_len);

    let s1_len = distinct_s1.len();
    let s2_len = distinct_s2.len();

    proof {
        assert(a@.subrange(0, prefix_len as int) =~= b@.subrange(0, prefix_len as int)) by {
            assert forall|k: int| 0 <= k < prefix_len implies a@.subrange(0, prefix_len as int)[k]
                == b@.subrange(0, prefix_len as int)[k] by {
                assert(a@.subrange(0, a@.len() - suffix_len)[k] == b@.subrange(
                    0,
                    b@.len() - suffix_len,
                )[k]);
            }
        }
        let asub = a@.subrange(a@.len() - suffix_len, a@.len() as int);
        let bsub = b@.subrange(b@.len() - suffix_len, b@.len() as int);
        assert(asub =~= bsub) by {
            assert forall|j: int| 0 <= j < suffix_len implies #[trigger] asub[j] == bsub[j] by {
                assert(a@[a@.len() - suffix_len + j] == b@[(a@.len() - suffix_len + j) - a@.len()
                    + b@.len()]);
            }
        }
    }

    DelimDistinct { prefix_len, distinct_s1, s1_len, distinct_s2, s2_len, suffix_len }
}

/// Copies `s[0..n]` into a fresh vector.
fn slice_prefix(s: &[char], n: usize) -> (r: Vec<char>)
    requires
        n <= s@.len(),
    ensures
        r@ == s@.subrange(0, n as int),
{
    slice_range(s, 0, n)
}

/// Copies `s[from..to]` into a fresh vector.
pub fn slice_range(s: &[char], from: usize, to: usize) -> (r: Vec<char>)
    requires
        from <= to <= s@.len(),
    ensures
        r@ == s@.subrange(from as int, to as int),
{
    let mut r: Vec<char> = Vec::new();
    let mut i: usize = from;
    while i < to
        invariant
            from <= i <= to <= s@.len(),
            r@ == s@.subrange(from as int, i as int),
        decreases to - i,
    {
        r.push(s[i]);
        proof {
            assert(r@ =~= s@.subrange(from as int, i + 1 as int));
        }
        i += 1;
    }
    r
}

} // verus!
