//! Word-level and windowed modifiers: TokenSet, TokenSort and Partial, each
//! wrapping an arbitrary inner metric.

use vstd::prelude::*;

use crate::ratio::Ratio;
use crate::Metric;

verus! {

/// Unicode whitespace, as the word separator.
pub open spec fn is_ws(c: char) -> bool {
    ||| c == ' '
    ||| c == '\t'
    ||| c == '\n'
    ||| c == '\r'
    ||| c == '\u{b}'
    ||| c == '\u{c}'
    ||| c == '\u{85}'
    ||| c == '\u{a0}'
    ||| c == '\u{1680}'
    ||| c == '\u{2000}'
    ||| c == '\u{2001}'
    ||| c == '\u{2002}'
    ||| c == '\u{2003}'
    ||| c == '\u{2004}'
    ||| c == '\u{2005}'
    ||| c == '\u{2006}'
    ||| c == '\u{2007}'
    ||| c == '\u{2008}'
    ||| c == '\u{2009}'
    ||| c == '\u{200a}'
    ||| c == '\u{2028}'
    ||| c == '\u{2029}'
    ||| c == '\u{202f}'
    ||| c == '\u{205f}'
    ||| c == '\u{3000}'
}

/// Whether a character separates words.
pub fn is_whitespace_char(c: char) -> (r: bool)
    ensures
        r == is_ws(c),
{
    c == ' ' || c == '\t' || c == '\n' || c == '\r' || c == '\u{b}' || c == '\u{c}' || c == '\u{85}'
        || c == '\u{a0}' || c == '\u{1680}' || c == '\u{2000}' || c == '\u{2001}' || c
        == '\u{2002}' || c == '\u{2003}' || c == '\u{2004}' || c == '\u{2005}' || c == '\u{2006}'
        || c == '\u{2007}' || c == '\u{2008}' || c == '\u{2009}' || c == '\u{200a}' || c
        == '\u{2028}' || c == '\u{2029}' || c == '\u{202f}' || c == '\u{205f}' || c == '\u{3000}'
}

/// The first position at or after `i` that holds a non-separator, or the
/// length if there is none.
pub open spec fn next_word(s: Seq<char>, i: int) -> int
    decreases s.len() - i,
{
    if i < 0 || i >= s.len() {
        s.len() as int
    } else if !is_ws(s[i]) {
        i
    } else {
        next_word(s, i + 1)
    }
}

/// The first position at or after `i` that holds a separator, or the length
/// if there is none.
pub open spec fn next_sep(s: Seq<char>, i: int) -> int
    decreases s.len() - i,
{
    if i < 0 || i >= s.len() {
        s.len() as int
    } else if is_ws(s[i]) {
        i
    } else {
        next_sep(s, i + 1)
    }
}

proof fn lemma_next_word(s: Seq<char>, i: int)
    requires
        0 <= i <= s.len(),
    ensures
        i <= next_word(s, i) <= s.len(),
        next_word(s, i) < s.len() ==> !is_ws(s[next_word(s, i)]),
    decreases s.len() - i,
{
    if i < s.len() && is_ws(s[i]) {
        lemma_next_word(s, i + 1);
    }
}

proof fn lemma_next_sep(s: Seq<char>, i: int)
    requires
        0 <= i <= s.len(),
    ensures
        i <= next_sep(s, i) <= s.len(),
        i < s.len() && !is_ws(s[i]) ==> i < next_sep(s, i),
        next_sep(s, i) < s.len() ==> is_ws(s[next_sep(s, i)]),
    decreases s.len() - i,
{
    if i < s.len() && !is_ws(s[i]) {
        lemma_next_sep(s, i + 1);
    }
}

/// The whitespace-separated words of `s[i..]`.
pub open spec fn words_from(s: Seq<char>, i: int) -> Seq<Seq<char>>
    decreases s.len() - i,
    via words_from_decreases
{
    if i < 0 {
        Seq::empty()
    } else {
        let st = next_word(s, i);
        if st >= s.len() {
            Seq::empty()
        } else {
            let e = next_sep(s, st);
            seq![s.subrange(st, e)] + words_from(s, e)
        }
    }
}

#[via_fn]
proof fn words_from_decreases(s: Seq<char>, i: int) {
    if 0 <= i <= s.len() {
        lemma_next_word(s, i);
        let st = next_word(s, i);
        if st < s.len() {
            lemma_next_sep(s, st);
        }
    }
}

/// The whitespace-separated words of `s`.
pub open spec fn words(s: Seq<char>) -> Seq<Seq<char>> {
    words_from(s, 0)
}

/// The views of a list of words.
pub open spec fn word_views(l: Seq<Vec<char>>) -> Seq<Seq<char>> {
    Seq::new(l.len(), |i: int| l[i]@)
}

/// Splits a character slice into its whitespace-separated words.
pub fn split_words(s: &[char]) -> (r: Vec<Vec<char>>)
    ensures
        word_views(r@) == words(s@),
{
    let n = s.len();
    let mut out: Vec<Vec<char>> = Vec::new();
    let mut i: usize = 0;
    while i < n
        invariant
            n == s@.len(),
            i <= n,
            word_views(out@) + words_from(s@, i as int) == words(s@),
        decreases n - i,
    {
        if is_whitespace_char(s[i]) {
            i += 1;
        } else {
            proof {
                lemma_next_sep(s@, i as int);
            }
            let st = i;
            let mut e = i;
            while e < n && !is_whitespace_char(s[e])
                invariant
                    n == s@.len(),
                    st <= e <= n,
                    next_sep(s@, st as int) == next_sep(s@, e as int),
                    forall|t: int| st <= t < e ==> !is_ws(s@[t]),
                decreases n - e,
            {
                e += 1;
            }
            proof {
                assert(next_sep(s@, e as int) == e);
            }
            let w = crate::utils::slice_range(s, st, e);
            let ghost out0 = out@;
            out.push(w);
            proof {
                assert(next_word(s@, st as int) == st);
                assert(words_from(s@, st as int) == seq![s@.subrange(st as int, e as int)]
                    + words_from(s@, e as int));
                assert(word_views(out@) =~= word_views(out0) + seq![w@]);
                assert(word_views(out@) + words_from(s@, e as int) =~= word_views(out0)
                    + words_from(s@, st as int));
            }
            i = e;
        }
    }
    proof {
        assert(words_from(s@, n as int) =~= Seq::<Seq<char>>::empty());
        assert(word_views(out@) + words_from(s@, n as int) =~= word_views(out@));
    }
    out
}

/// Lexicographic order on character sequences, by code point.
pub open spec fn lex_le(x: Seq<char>, y: Seq<char>) -> bool
    decreases x.len(),
{
    if x.len() == 0 {
        true
    } else if y.len() == 0 {
        false
    } else if (x[0] as u32) < (y[0] as u32) {
        true
    } else if x[0] == y[0] {
        lex_le(x.drop_first(), y.drop_first())
    } else {
        false
    }
}

/// Compares two words lexicographically by code point.
pub fn lex_le_words(x: &[char], y: &[char]) -> (r: bool)
    ensures
        r == lex_le(x@, y@),
{
    let mut i: usize = 0;
    proof {
        assert(x@.skip(0) =~= x@);
        assert(y@.skip(0) =~= y@);
    }
    while i < x.len() && i < y.len()
        invariant
            i <= x@.len(),
            i <= y@.len(),
            lex_le(x@, y@) == lex_le(x@.skip(i as int), y@.skip(i as int)),
        decreases x@.len() - i,
    {
        let cx = x[i];
        let cy = y[i];
        if cx == cy {
            proof {
                assert(x@.skip(i as int)[0] == cx && y@.skip(i as int)[0] == cy);
                assert(x@.skip(i as int).drop_first() =~= x@.skip(i + 1));
                assert(y@.skip(i as int).drop_first() =~= y@.skip(i + 1));
            }
            i += 1;
        } else if (cx as u32) < (cy as u32) {
            proof {
                assert(x@.skip(i as int)[0] == cx && y@.skip(i as int)[0] == cy);
            }
            return true;
        } else {
            proof {
                assert(x@.skip(i as int)[0] == cx && y@.skip(i as int)[0] == cy);
            }
            return false;
        }
    }
    proof {
        if i >= x@.len() {
            assert(x@.skip(i as int).len() == 0);
        } else {
            assert(y@.skip(i as int).len() == 0);
            assert(x@.skip(i as int).len() > 0);
        }
    }
    i >= x.len()
}

/// Inserts a word before the first existing word it does not come after.
pub open spec fn insert_sorted(w: Seq<char>, l: Seq<Seq<char>>) -> Seq<Seq<char>>
    decreases l.len(),
{
    if l.len() == 0 {
        seq![w]
    } else if lex_le(w, l[0]) {
        seq![w] + l
    } else {
        seq![l[0]] + insert_sorted(w, l.drop_first())
    }
}

/// Insertion at the first position whose word is not below `w` matches the
/// recursive definition.
proof fn lemma_insert_sorted_at(w: Seq<char>, l: Seq<Seq<char>>, p: int)
    requires
        0 <= p <= l.len(),
        forall|t: int| 0 <= t < p ==> !lex_le(w, #[trigger] l[t]),
        p < l.len() ==> lex_le(w, l[p]),
    ensures
        insert_sorted(w, l) == l.subrange(0, p) + seq![w] + l.subrange(p, l.len() as int),
    decreases p,
{
    if p == 0 {
        if l.len() == 0 {
            assert(insert_sorted(w, l) =~= l.subrange(0, 0) + seq![w] + l.subrange(
                0,
                l.len() as int,
            ));
        } else {
            assert(insert_sorted(w, l) =~= l.subrange(0, 0) + seq![w] + l.subrange(
                0,
                l.len() as int,
            ));
        }
    } else {
        assert(!lex_le(w, l[0]));
        assert forall|t: int| 0 <= t < p - 1 implies !lex_le(w, #[trigger] l.drop_first()[t]) by {
            assert(l.drop_first()[t] == l[t + 1]);
        }
        if p - 1 < l.drop_first().len() {
            assert(l.drop_first()[p - 1] == l[p as int]);
        }
        lemma_insert_sorted_at(w, l.drop_first(), p - 1);
        assert(insert_sorted(w, l) =~= l.subrange(0, p) + seq![w] + l.subrange(
            p,
            l.len() as int,
        )) by {
            assert(l.drop_first().subrange(0, p - 1) =~= l.subrange(1, p));
            assert(l.drop_first().subrange(p - 1, l.drop_first().len() as int) =~= l.subrange(
                p,
                l.len() as int,
            ));
        }
    }
}

/// The words of the first `i` entries, sorted by repeated insertion.
pub open spec fn sorted_words(l: Seq<Seq<char>>, i: int) -> Seq<Seq<char>>
    decreases i,
{
    if i <= 0 {
        Seq::empty()
    } else {
        insert_sorted(l[i - 1], sorted_words(l, i - 1))
    }
}

/// Sorts a word list lexicographically by insertion.
pub fn sort_word_list(l: Vec<Vec<char>>) -> (r: Vec<Vec<char>>)
    ensures
        word_views(r@) == sorted_words(word_views(l@), l@.len() as int),
{
    let n = l.len();
    let mut out: Vec<Vec<char>> = Vec::new();
    let mut i: usize = 0;
    let ghost lv = word_views(l@);
    while i < n
        invariant
            n == l@.len(),
            i <= n,
            lv == word_views(l@),
            word_views(out@) == sorted_words(lv, i as int),
        decreases n - i,
    {
        let w = crate::utils::slice_range(l[i].as_slice(), 0, l[i].len());
        proof {
            assert(w@ =~= lv[i as int]);
        }
        let mut p: usize = 0;
        while p < out.len() && !lex_le_words(w.as_slice(), out[p].as_slice())
            invariant
                p <= out@.len(),
                forall|t: int| 0 <= t < p ==> !lex_le(w@, (#[trigger] out@[t])@),
            decreases out@.len() - p,
        {
            p += 1;
        }
        let ghost out0 = out@;
        let ghost pp = p as int;
        out.insert(p, w);
        proof {
            assert forall|t: int| 0 <= t < pp implies !lex_le(w@, #[trigger] word_views(out0)[t]) by {
                assert(word_views(out0)[t] == out0[t]@);
            }
            if pp < out0.len() {
                assert(lex_le(w@, word_views(out0)[pp])) by {
                    assert(word_views(out0)[pp] == out0[pp]@);
                }
            }
            lemma_insert_sorted_at(w@, word_views(out0), pp);
            assert(word_views(out@) =~= word_views(out0).subrange(0, pp) + seq![w@]
                + word_views(out0).subrange(pp, out0.len() as int));
        }
        i += 1;
    }
    out
}

/// Drops every word that equals its predecessor.
pub open spec fn dedup_adjacent(l: Seq<Seq<char>>, i: int) -> Seq<Seq<char>>
    decreases i,
{
    if i <= 0 {
        Seq::empty()
    } else {
        let d = dedup_adjacent(l, i - 1);
        if d.len() > 0 && d.last() == l[i - 1] {
            d
        } else {
            d.push(l[i - 1])
        }
    }
}

/// Removes adjacent duplicates from a word list.
pub fn dedup_word_list(l: Vec<Vec<char>>) -> (r: Vec<Vec<char>>)
    ensures
        word_views(r@) == dedup_adjacent(word_views(l@), l@.len() as int),
{
    let n = l.len();
    let mut out: Vec<Vec<char>> = Vec::new();
    let mut i: usize = 0;
    let ghost lv = word_views(l@);
    while i < n
        invariant
            n == l@.len(),
            i <= n,
            lv == word_views(l@),
            word_views(out@) == dedup_adjacent(lv, i as int),
        decreases n - i,
    {
        let keep = if out.len() == 0 {
            true
        } else {
            !crate::utils::vec_eq(out[out.len() - 1].as_slice(), l[i].as_slice())
        };
        proof {
            if out@.len() > 0 {
                assert(word_views(out@).last() == out@[out@.len() - 1]@);
            }
            assert(lv[i as int] == l@[i as int]@);
        }
        if keep {
            let w = crate::utils::slice_range(l[i].as_slice(), 0, l[i].len());
            proof {
                assert(w@ =~= lv[i as int]);
            }
            let ghost out0 = out@;
            out.push(w);
            proof {
                assert(word_views(out@) =~= word_views(out0).push(w@));
            }
        }
        i += 1;
    }
    out
}

/// Whether a word occurs in a word list.
pub open spec fn list_has(l: Seq<Seq<char>>, w: Seq<char>) -> bool {
    exists|t: int| 0 <= t < l.len() && l[t] == w
}

/// Finds a word in a word list.
pub fn word_list_contains(l: &Vec<Vec<char>>, w: &[char]) -> (r: bool)
    ensures
        r == list_has(word_views(l@), w@),
{
    let mut t: usize = 0;
    while t < l.len()
        invariant
            t <= l@.len(),
            forall|u: int| 0 <= u < t ==> (#[trigger] l@[u])@ != w@,
        decreases l@.len() - t,
    {
        if crate::utils::vec_eq(l[t].as_slice(), w) {
            proof {
                assert(word_views(l@)[t as int] == w@);
            }
            return true;
        }
        t += 1;
    }
    proof {
        assert forall|u: int| 0 <= u < l@.len() implies #[trigger] word_views(l@)[u] != w@ by {
            assert(word_views(l@)[u] == l@[u]@);
        }
    }
    false
}

/// The words of `b` (first `i` of them) that also occur in `a`.
pub open spec fn common_words(wa: Seq<Seq<char>>, wb: Seq<Seq<char>>, i: int) -> Seq<Seq<char>>
    decreases i,
{
    if i <= 0 {
        Seq::empty()
    } else {
        let d = common_words(wa, wb, i - 1);
        if list_has(wa, wb[i - 1]) {
            d.push(wb[i - 1])
        } else {
            d
        }
    }
}

/// The words of `wb` that also occur in `wa`, in `wb`'s order.
pub fn intersect_word_lists(wa: &Vec<Vec<char>>, wb: &Vec<Vec<char>>) -> (r: Vec<Vec<char>>)
    ensures
        word_views(r@) == common_words(word_views(wa@), word_views(wb@), wb@.len() as int),
{
    let n = wb.len();
    let mut out: Vec<Vec<char>> = Vec::new();
    let mut i: usize = 0;
    let ghost va = word_views(wa@);
    let ghost vb = word_views(wb@);
    while i < n
        invariant
            n == wb@.len(),
            i <= n,
            va == word_views(wa@),
            vb == word_views(wb@),
            word_views(out@) == common_words(va, vb, i as int),
        decreases n - i,
    {
        proof {
            assert(vb[i as int] == wb@[i as int]@);
        }
        if word_list_contains(wa, wb[i].as_slice()) {
            let w = crate::utils::slice_range(wb[i].as_slice(), 0, wb[i].len());
            proof {
                assert(w@ =~= vb[i as int]);
            }
            let ghost out0 = out@;
            out.push(w);
            proof {
                assert(word_views(out@) =~= word_views(out0).push(w@));
            }
        }
        i += 1;
    }
    out
}

/// The words of the first `i` entries joined with single spaces.
pub open spec fn joined(l: Seq<Seq<char>>, i: int) -> Seq<char>
    decreases i,
{
    if i <= 0 {
        Seq::empty()
    } else if i == 1 {
        l[0]
    } else {
        joined(l, i - 1) + seq![' '] + l[i - 1]
    }
}

/// Joins a word list with single spaces.
pub fn join_words(l: &Vec<Vec<char>>) -> (r: Vec<char>)
    ensures
        r@ == joined(word_views(l@), l@.len() as int),
{
    let n = l.len();
    let mut out: Vec<char> = Vec::new();
    let mut i: usize = 0;
    let ghost lv = word_views(l@);
    while i < n
        invariant
            n == l@.len(),
            i <= n,
            lv == word_views(l@),
            out@ == joined(lv, i as int),
        decreases n - i,
    {
        if i > 0 {
            out.push(' ');
        }
        let w = &l[i];
        let mut t: usize = 0;
        let ghost mid = out@;
        proof {
            assert(out@ =~= mid + w@.subrange(0, 0));
        }
        while t < w.len()
            invariant
                t <= w@.len(),
                out@ == mid + w@.subrange(0, t as int),
            decreases w@.len() - t,
        {
            out.push(w[t]);
            proof {
                assert(out@ =~= mid + w@.subrange(0, t + 1));
            }
            t += 1;
        }
        proof {
            assert(lv[i as int] == l@[i as int]@);
            assert(out@ =~= mid + lv[i as int]);
            if i == 0 {
                assert(out@ =~= joined(lv, 1));
            } else {
                assert(out@ =~= joined(lv, i as int) + seq![' '] + lv[i as int]);
            }
        }
        i += 1;
    }
    out
}

/// The total number of characters in a word list.
pub open spec fn sum_len(l: Seq<Seq<char>>, i: int) -> nat
    decreases i,
{
    if i <= 0 {
        0
    } else {
        sum_len(l, i - 1) + l[i - 1].len()
    }
}

/// A joined list is as long as its words plus one separator between each.
proof fn lemma_joined_len(l: Seq<Seq<char>>, i: int)
    requires
        0 <= i <= l.len(),
    ensures
        i == 0 ==> joined(l, i).len() == 0,
        i >= 1 ==> joined(l, i).len() == sum_len(l, i) + i - 1,
    decreases i,
{
    if i == 1 {
        assert(joined(l, 1) == l[0]);
        assert(sum_len(l, 1) == sum_len(l, 0) + l[0].len());
    } else if i > 1 {
        lemma_joined_len(l, i - 1);
        assert(joined(l, i) == joined(l, i - 1) + seq![' '] + l[i - 1]);
        assert(sum_len(l, i) == sum_len(l, i - 1) + l[i - 1].len());
    }
}

/// Inserting a word adds its length and one entry.
proof fn lemma_insert_sorted_len(w: Seq<char>, l: Seq<Seq<char>>)
    ensures
        insert_sorted(w, l).len() == l.len() + 1,
        sum_len(insert_sorted(w, l), (l.len() + 1) as int) == sum_len(l, l.len() as int) + w.len(),
    decreases l.len(),
{
    if l.len() == 0 {
        assert(insert_sorted(w, l) == seq![w]);
        assert(sum_len(seq![w], 1) == sum_len(seq![w], 0) + w.len());
    } else if lex_le(w, l[0]) {
        let r = seq![w] + l;
        assert(r == insert_sorted(w, l));
        lemma_sum_len_prefix_eq(r, l, w);
        assert(r.len() == l.len() + 1);
    } else {
        lemma_insert_sorted_len(w, l.drop_first());
        let r = seq![l[0]] + insert_sorted(w, l.drop_first());
        assert(r == insert_sorted(w, l));
        lemma_sum_len_cons(r, insert_sorted(w, l.drop_first()), l[0]);
        assert(l =~= seq![l[0]] + l.drop_first());
        lemma_sum_len_cons(l, l.drop_first(), l[0]);
    }
}

/// Prepending the head recovers the sum.
proof fn lemma_sum_len_cons(r: Seq<Seq<char>>, rest: Seq<Seq<char>>, h: Seq<char>)
    requires
        r == seq![h] + rest,
    ensures
        sum_len(r, r.len() as int) == h.len() + sum_len(rest, rest.len() as int),
    decreases rest.len(),
{
    if rest.len() == 0 {
        assert(r.len() == 1 && r[0] == h);
        assert(sum_len(r, 1) == sum_len(r, 0) + r[0].len());
    } else {
        let rest2 = rest.drop_last();
        let r2 = seq![h] + rest2;
        assert(r2 =~= r.drop_last());
        assert forall|t: int| 0 <= t < r.len() - 1 implies r[t] == r2[t] by {
            assert(r2[t] == r.drop_last()[t]);
        }
        assert forall|t: int| 0 <= t < rest.len() - 1 implies rest[t] == rest2[t] by {
            assert(rest2[t] == rest.drop_last()[t]);
        }
        lemma_sum_len_cons(r2, rest2, h);
        assert(r[r.len() - 1] == rest[rest.len() - 1]);
        assert(sum_len(r, r.len() as int) == sum_len(r, r.len() - 1) + r[r.len() - 1].len());
        assert(sum_len(rest, rest.len() as int) == sum_len(rest, rest.len() - 1) + rest[rest.len()
            - 1].len());
        lemma_sum_len_prefix(r, r2, r.len() - 1);
        lemma_sum_len_prefix(rest, rest2, rest.len() - 1);
        assert(sum_len(r, r.len() - 1) == sum_len(r2, r2.len() as int));
        assert(sum_len(rest, rest.len() - 1) == sum_len(rest2, rest2.len() as int));
    }
}

/// The sum over a prefix is unchanged by what follows it.
proof fn lemma_sum_len_prefix(l1: Seq<Seq<char>>, l2: Seq<Seq<char>>, i: int)
    requires
        0 <= i,
        i <= l1.len(),
        i <= l2.len(),
        forall|t: int| 0 <= t < i ==> l1[t] == l2[t],
    ensures
        sum_len(l1, i) == sum_len(l2, i),
    decreases i,
{
    if i > 0 {
        lemma_sum_len_prefix(l1, l2, i - 1);
    }
}

proof fn lemma_sum_len_prefix_eq(r: Seq<Seq<char>>, l: Seq<Seq<char>>, w: Seq<char>)
    requires
        r == seq![w] + l,
    ensures
        sum_len(r, r.len() as int) == sum_len(l, l.len() as int) + w.len(),
{
    lemma_sum_len_cons(r, l, w);
}

/// Sorting keeps the number of words and the total characters.
proof fn lemma_sorted_words_len(l: Seq<Seq<char>>, i: int)
    requires
        0 <= i <= l.len(),
    ensures
        sorted_words(l, i).len() == i,
        sum_len(sorted_words(l, i), i) == sum_len(l, i),
    decreases i,
{
    if i > 0 {
        lemma_sorted_words_len(l, i - 1);
        lemma_insert_sorted_len(l[i - 1], sorted_words(l, i - 1));
    }
}

/// Deduplication only removes words.
proof fn lemma_dedup_len(l: Seq<Seq<char>>, i: int)
    requires
        0 <= i <= l.len(),
    ensures
        dedup_adjacent(l, i).len() <= i,
        sum_len(dedup_adjacent(l, i), dedup_adjacent(l, i).len() as int) <= sum_len(l, i),
    decreases i,
{
    if i > 0 {
        lemma_dedup_len(l, i - 1);
        let d = dedup_adjacent(l, i - 1);
        if d.len() > 0 && d.last() == l[i - 1] {
        } else {
            assert(sum_len(d.push(l[i - 1]), (d.len() + 1) as int) == sum_len(d, d.len() as int) + l[i
                - 1].len()) by {
                lemma_sum_len_prefix(d.push(l[i - 1]), d, d.len() as int);
            }
        }
    }
}

/// Keeping only shared words only removes words.
proof fn lemma_common_words_len(wa: Seq<Seq<char>>, wb: Seq<Seq<char>>, i: int)
    requires
        0 <= i <= wb.len(),
    ensures
        common_words(wa, wb, i).len() <= i,
        sum_len(common_words(wa, wb, i), common_words(wa, wb, i).len() as int) <= sum_len(
            wb,
            i,
        ),
    decreases i,
{
    if i > 0 {
        lemma_common_words_len(wa, wb, i - 1);
        let d = common_words(wa, wb, i - 1);
        if list_has(wa, wb[i - 1]) {
            assert(sum_len(d.push(wb[i - 1]), (d.len() + 1) as int) == sum_len(d, d.len() as int) + wb[i
                - 1].len()) by {
                lemma_sum_len_prefix(d.push(wb[i - 1]), d, d.len() as int);
            }
        }
    }
}

/// The words of a string, with one separator between each, fit in the
/// string.
proof fn lemma_words_len(s: Seq<char>, i: int)
    requires
        0 <= i <= s.len(),
    ensures
        words_from(s, i).len() == 0 ==> sum_len(words_from(s, i), 0) <= s.len() - i,
        words_from(s, i).len() >= 1 ==> sum_len(
            words_from(s, i),
            words_from(s, i).len() as int,
        ) + words_from(s, i).len() - 1 <= s.len() - i,
    decreases s.len() - i,
{
    lemma_next_word(s, i);
    let st = next_word(s, i);
    if st < s.len() {
        lemma_next_sep(s, st);
        let e = next_sep(s, st);
        let w = s.subrange(st, e);
        let rest = words_from(s, e);
        lemma_sum_len_cons(words_from(s, i), rest, w);
        if e < s.len() {
            assert(is_ws(s[e]));
            assert(words_from(s, e) == words_from(s, e + 1)) by {
                assert(next_word(s, e) == next_word(s, e + 1));
            }
            lemma_words_len(s, e + 1);
        } else {
            assert(rest.len() == 0) by {
                assert(next_word(s, e) == s.len() as int);
            }
        }
    }
}

/// A rational pair is strictly below another.
pub open spec fn rv_lt(x: (int, int), y: (int, int)) -> bool {
    x.0 * y.1 < y.0 * x.1
}

/// The smallest of three distances, with the original tie-breaking: the
/// first, then the third, then the second, then the third again.
pub open spec fn min_of_three(d_ia: (int, int), d_ib: (int, int), d_ab: (int, int)) -> (
    int,
    int,
) {
    if rv_lt(d_ia, d_ib) {
        if rv_lt(d_ia, d_ab) {
            d_ia
        } else {
            d_ab
        }
    } else if rv_lt(d_ib, d_ab) {
        d_ib
    } else {
        d_ab
    }
}

/// Picks the smallest of three computed distances.
fn pick_min_of_three(d_ia: Ratio, d_ib: Ratio, d_ab: Ratio) -> (r: Ratio)
    requires
        d_ia.wf(),
        d_ib.wf(),
        d_ab.wf(),
    ensures
        (r.num as int, r.den as int) == min_of_three(
            (d_ia.num as int, d_ia.den as int),
            (d_ib.num as int, d_ib.den as int),
            (d_ab.num as int, d_ab.den as int),
        ),
        r == d_ia || r == d_ib || r == d_ab,
{
    if d_ia.lt(&d_ib) {
        if d_ia.lt(&d_ab) {
            d_ia
        } else {
            d_ab
        }
    } else if d_ib.lt(&d_ab) {
        d_ib
    } else {
        d_ab
    }
}

/// The elements of `b` (first `i` of them) that occur anywhere in `a`.
pub open spec fn common_chars(a: Seq<char>, b: Seq<char>, i: int) -> Seq<char>
    decreases i,
{
    if i <= 0 {
        Seq::empty()
    } else {
        let d = common_chars(a, b, i - 1);
        if a.contains(b[i - 1]) {
            d.push(b[i - 1])
        } else {
            d
        }
    }
}

/// Whether a character occurs in a slice.
fn slice_contains(a: &[char], c: char) -> (r: bool)
    ensures
        r == a@.contains(c),
{
    let mut t: usize = 0;
    while t < a.len()
        invariant
            t <= a@.len(),
            forall|u: int| 0 <= u < t ==> a@[u] != c,
        decreases a@.len() - t,
    {
        if a[t] == c {
            return true;
        }
        t += 1;
    }
    false
}

/// The elements of `b` that occur anywhere in `a`, in `b`'s order.
fn intersect_chars(a: &[char], b: &[char]) -> (r: Vec<char>)
    ensures
        r@ == common_chars(a@, b@, b@.len() as int),
        r@.len() <= b@.len(),
{
    let n = b.len();
    let mut out: Vec<char> = Vec::new();
    let mut i: usize = 0;
    while i < n
        invariant
            n == b@.len(),
            i <= n,
            out@ == common_chars(a@, b@, i as int),
            out@.len() <= i,
        decreases n - i,
    {
        if slice_contains(a, b[i]) {
            out.push(b[i]);
        }
        i += 1;
    }
    out
}

/// The sorted, deduplicated word list of an input.
pub open spec fn norm_words(s: Seq<char>) -> Seq<Seq<char>> {
    let w = words(s);
    let sw = sorted_words(w, w.len() as int);
    dedup_adjacent(sw, sw.len() as int)
}

/// The sorted, deduplicated word list of an input, as a vector.
fn norm_word_list(s: &[char]) -> (r: Vec<Vec<char>>)
    ensures
        word_views(r@) == norm_words(s@),
        r@.len() >= 1 ==> joined(word_views(r@), r@.len() as int).len() <= s@.len(),
{
    let r = dedup_word_list(sort_word_list(split_words(s)));
    proof {
        let w = words(s@);
        let sw = sorted_words(w, w.len() as int);
        let wl = word_views(r@);
        lemma_words_len(s@, 0);
        lemma_sorted_words_len(w, w.len() as int);
        lemma_dedup_len(sw, sw.len() as int);
        if wl.len() >= 1 {
            lemma_joined_len(wl, wl.len() as int);
            assert(w.len() >= 1) by {
                if w.len() == 0 {
                    assert(sw.len() == 0);
                    assert(wl.len() == 0);
                }
            }
        }
    }
    r
}

/// The joined intersection fits in the second input.
proof fn lemma_intersection_fits(s: Seq<char>, wa: Seq<Seq<char>>, wb: Seq<Seq<char>>)
    requires
        wb == norm_words(s),
        wb.len() >= 1 ==> joined(wb, wb.len() as int).len() <= s.len(),
    ensures
        ({
            let wi = common_words(wa, wb, wb.len() as int);
            wi.len() >= 1 ==> joined(wi, wi.len() as int).len() <= s.len()
        }),
{
    let wi = common_words(wa, wb, wb.len() as int);
    lemma_common_words_len(wa, wb, wb.len() as int);
    if wi.len() >= 1 {
        lemma_joined_len(wi, wi.len() as int);
        lemma_joined_len(wb, wb.len() as int);
    }
}

/// A `TokenSet` distance adjusts its inner metric for differences in word
/// order and word repetition, by comparing the word-level intersection of
/// the two inputs with each input.
pub struct TokenSet<D: Metric> {
    /// The base metric to modify.
    pub inner: D,
}

impl<D: Metric> TokenSet<D> {
    /// Wraps a metric.
    pub fn new(inner: D) -> (r: Self)
        ensures
            r.inner == inner,
    {
        TokenSet { inner }
    }

    /// The value `str_distance` returns: the minimum of the inner string
    /// distances between the joined word intersection and each joined word
    /// list, and between the two joined word lists; the inner string
    /// distance of the raw inputs when the word intersection is empty.
    pub open spec fn str_value(&self, a: Seq<char>, b: Seq<char>) -> (int, int) {
        let wa = norm_words(a);
        let wb = norm_words(b);
        let wi = common_words(wa, wb, wb.len() as int);
        if wi.len() == 0 {
            self.inner.str_dist_spec(a, b)
        } else {
            let js = joined(wi, wi.len() as int);
            let ja = joined(wa, wa.len() as int);
            let jb = joined(wb, wb.len() as int);
            min_of_three(
                self.inner.str_dist_spec(js, ja),
                self.inner.str_dist_spec(js, jb),
                self.inner.str_dist_spec(ja, jb),
            )
        }
    }

    /// The element-level value: the inner distances of the shared elements
    /// against each input and of the raw inputs, smallest of the three.
    pub open spec fn value(&self, a: Seq<char>, b: Seq<char>) -> (int, int) {
        let inter = common_chars(a, b, b.len() as int);
        if inter.len() == 0 {
            self.inner.dist_spec(a, b)
        } else {
            min_of_three(
                self.inner.dist_spec(a, inter),
                self.inner.dist_spec(inter, b),
                self.inner.dist_spec(a, b),
            )
        }
    }
}

impl<D: Metric> Metric for TokenSet<D> {
    open spec fn valid(&self) -> bool {
        self.inner.valid()
    }

    open spec fn dist_spec(&self, a: Seq<char>, b: Seq<char>) -> (int, int) {
        self.value(a, b)
    }

    open spec fn str_dist_spec(&self, a: Seq<char>, b: Seq<char>) -> (int, int) {
        self.str_value(a, b)
    }

    open spec fn norm_spec(&self, a: Seq<char>, b: Seq<char>) -> (int, int) {
        self.inner.norm_spec(a, b)
    }

    fn distance(&self, a: &[char], b: &[char]) -> (r: Ratio) {
        let inter = intersect_chars(a, b);
        if inter.len() == 0 {
            self.inner.distance(a, b)
        } else {
            let d_ia = self.inner.distance(a, inter.as_slice());
            let d_ib = self.inner.distance(inter.as_slice(), b);
            let d_ab = self.inner.distance(a, b);
            pick_min_of_three(d_ia, d_ib, d_ab)
        }
    }

    fn ordered_distance(&self, a: &[char], b: &[char]) -> (r: Ratio) {
        let va = crate::utils::slice_range(a, 0, a.len());
        let vb = crate::utils::slice_range(b, 0, b.len());
        proof {
            assert(va@ =~= a@);
            assert(vb@ =~= b@);
        }
        self.words_distance(va, vb)
    }

    fn str_distance(&self, a: &str, b: &str) -> (r: Ratio) {
        let va = crate::utils::chars_of(a);
        let vb = crate::utils::chars_of(b);
        self.words_distance(va, vb)
    }

    fn normalized(&self, a: &[char], b: &[char]) -> (r: Ratio) {
        self.inner.normalized(a, b)
    }
}

impl<D: Metric> TokenSet<D> {
    /// The word-level comparison behind `str_distance`.
    fn words_distance(&self, va: Vec<char>, vb: Vec<char>) -> (r: Ratio)
        requires
            self.inner.valid(),
            va@.len() <= crate::MAX_SEQ_LEN,
            vb@.len() <= crate::MAX_SEQ_LEN,
        ensures
            r.wf(),
            r.den <= crate::DEN_LIMIT,
            (r.num as int, r.den as int) == self.str_value(va@, vb@),
    {
        let wa = norm_word_list(va.as_slice());
        let wb = norm_word_list(vb.as_slice());
        let wi = intersect_word_lists(&wa, &wb);
        proof {
            lemma_intersection_fits(vb@, word_views(wa@), word_views(wb@));
        }
        if wi.len() == 0 {
            self.inner.ordered_distance(va.as_slice(), vb.as_slice())
        } else {
            let js = join_words(&wi);
            let ja = join_words(&wa);
            let jb = join_words(&wb);
            let d_ia = self.inner.ordered_distance(js.as_slice(), ja.as_slice());
            let d_ib = self.inner.ordered_distance(js.as_slice(), jb.as_slice());
            let d_ab = self.inner.ordered_distance(ja.as_slice(), jb.as_slice());
            pick_min_of_three(d_ia, d_ib, d_ab)
        }
    }
}

/// A `TokenSort` distance sorts each input's words before handing the two
/// rejoined strings to its inner metric; on plain element sequences it is a
/// pure pass-through.
pub struct TokenSort<D: Metric> {
    /// The base metric to modify.
    pub inner: D,
}

impl<D: Metric> TokenSort<D> {
    /// Wraps a metric.
    pub fn new(inner: D) -> (r: Self)
        ensures
            r.inner == inner,
    {
        TokenSort { inner }
    }

    /// An input with its words sorted and rejoined with single spaces.
    pub open spec fn sorted_form(s: Seq<char>) -> Seq<char> {
        let w = words(s);
        let sw = sorted_words(w, w.len() as int);
        joined(sw, sw.len() as int)
    }

    /// The sorted form of an input, as a vector.
    fn sorted_form_list(s: &[char]) -> (r: Vec<char>)
        ensures
            r@ == Self::sorted_form(s@),
            r@.len() <= s@.len(),
    {
        let sw = sort_word_list(split_words(s));
        let r = join_words(&sw);
        proof {
            let w = words(s@);
            let sv = word_views(sw@);
            lemma_words_len(s@, 0);
            lemma_sorted_words_len(w, w.len() as int);
            lemma_joined_len(sv, sv.len() as int);
            if sv.len() == 0 {
            }
        }
        r
    }
}

impl<D: Metric> Metric for TokenSort<D> {
    open spec fn valid(&self) -> bool {
        self.inner.valid()
    }

    open spec fn dist_spec(&self, a: Seq<char>, b: Seq<char>) -> (int, int) {
        self.inner.dist_spec(a, b)
    }

    open spec fn str_dist_spec(&self, a: Seq<char>, b: Seq<char>) -> (int, int) {
        self.inner.str_dist_spec(Self::sorted_form(a), Self::sorted_form(b))
    }

    open spec fn norm_spec(&self, a: Seq<char>, b: Seq<char>) -> (int, int) {
        self.inner.norm_spec(a, b)
    }

    fn distance(&self, a: &[char], b: &[char]) -> (r: Ratio) {
        self.inner.distance(a, b)
    }

    fn ordered_distance(&self, a: &[char], b: &[char]) -> (r: Ratio) {
        let na = Self::sorted_form_list(a);
        let nb = Self::sorted_form_list(b);
        self.inner.ordered_distance(na.as_slice(), nb.as_slice())
    }

    fn str_distance(&self, a: &str, b: &str) -> (r: Ratio) {
        let va = crate::utils::chars_of(a);
        let vb = crate::utils::chars_of(b);
        self.ordered_distance(va.as_slice(), vb.as_slice())
    }

    fn normalized(&self, a: &[char], b: &[char]) -> (r: Ratio) {
        self.inner.normalized(a, b)
    }
}

/// A `Partial` distance returns the smallest inner distance between the
/// shorter input and every window of the longer input of the shorter
/// input's length.
pub struct Partial<D: Metric> {
    /// The base metric to modify.
    pub inner: D,
}

impl<D: Metric> Partial<D> {
    /// Wraps a metric.
    pub fn new(inner: D) -> (r: Self)
        ensures
            r.inner == inner,
    {
        Partial { inner }
    }

    /// The smallest inner distance over the first `i` windows, starting
    /// from 1 (the maximum distance).
    pub open spec fn win_best(&self, s: Seq<char>, l: Seq<char>, i: int) -> (int, int)
        decreases i,
    {
        if i <= 0 {
            (1, 1)
        } else {
            let prev = self.win_best(s, l, i - 1);
            let cand = self.inner.dist_spec(s, l.subrange(i - 1, i - 1 + s.len()));
            if rv_lt(cand, prev) {
                cand
            } else {
                prev
            }
        }
    }

    /// The value of the Partial comparison: the inner distance for inputs
    /// of equal length, 1 against an empty input, and the windowed minimum
    /// otherwise, shorter input first.
    pub open spec fn value(&self, a: Seq<char>, b: Seq<char>) -> (int, int) {
        if a.len() == b.len() {
            self.inner.dist_spec(a, b)
        } else {
            let s = if a.len() < b.len() {
                a
            } else {
                b
            };
            let l = if a.len() < b.len() {
                b
            } else {
                a
            };
            if s.len() == 0 {
                (1, 1)
            } else {
                self.win_best(s, l, l.len() - s.len() + 1)
            }
        }
    }

    /// The windowed minimum itself.
    fn windows_best(&self, s: &[char], l: &[char]) -> (r: Ratio)
        requires
            self.inner.valid(),
            1 <= s@.len() < l@.len(),
            l@.len() <= crate::MAX_SEQ_LEN,
        ensures
            r.wf(),
            r.den <= crate::DEN_LIMIT,
            (r.num as int, r.den as int) == self.win_best(s@, l@, l@.len() - s@.len() + 1),
    {
        let ls = s.len();
        let ll = l.len();
        let count = ll - ls + 1;
        let mut out = Ratio::one();
        let mut t: usize = 0;
        while t < count
            invariant
                ls == s@.len(),
                ll == l@.len(),
                1 <= ls < ll <= crate::MAX_SEQ_LEN,
                count == ll - ls + 1,
                t <= count,
                self.inner.valid(),
                out.wf(),
                out.den <= crate::DEN_LIMIT,
                (out.num as int, out.den as int) == self.win_best(s@, l@, t as int),
            decreases count - t,
        {
            let win = crate::utils::slice_range(l, t, t + ls);
            let cand = self.inner.distance(s, win.as_slice());
            if cand.lt(&out) {
                out = cand;
            }
            t += 1;
        }
        out
    }
}

impl<D: Metric> Metric for Partial<D> {
    open spec fn valid(&self) -> bool {
        self.inner.valid()
    }

    open spec fn dist_spec(&self, a: Seq<char>, b: Seq<char>) -> (int, int) {
        self.value(a, b)
    }

    open spec fn str_dist_spec(&self, a: Seq<char>, b: Seq<char>) -> (int, int) {
        self.value(a, b)
    }

    open spec fn norm_spec(&self, a: Seq<char>, b: Seq<char>) -> (int, int) {
        self.value(a, b)
    }

    fn distance(&self, a: &[char], b: &[char]) -> (r: Ratio) {
        if a.len() == b.len() {
            self.inner.distance(a, b)
        } else if a.len() == 0 || b.len() == 0 {
            Ratio::one()
        } else if a.len() < b.len() {
            self.windows_best(a, b)
        } else {
            self.windows_best(b, a)
        }
    }

    fn ordered_distance(&self, a: &[char], b: &[char]) -> (r: Ratio) {
        self.distance(a, b)
    }

    fn str_distance(&self, a: &str, b: &str) -> (r: Ratio) {
        let va = crate::utils::chars_of(a);
        let vb = crate::utils::chars_of(b);
        self.distance(va.as_slice(), vb.as_slice())
    }

    fn normalized(&self, a: &[char], b: &[char]) -> (r: Ratio) {
        self.distance(a, b)
    }
}

} // verus!
