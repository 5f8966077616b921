//! String and sequence distance metrics, verified.
//!
//! Every metric computes a dissimilarity value between two sequences of
//! characters: edit-distance counts (Levenshtein, Damerau-Levenshtein in the
//! restricted, optimal-string-alignment form), similarity-derived distances
//! (Jaro, Winkler boosting, the q-gram family, Ratcliff/Obershelp) and
//! word-level modifiers (TokenSet, TokenSort, Partial).
//!
//! Distances that are mathematically rational numbers are returned as exact
//! [`Ratio`] values so that every result can be stated and proved precisely;
//! callers that want a floating-point value divide the two integers
//! themselves.

use vstd::prelude::*;

pub mod jaro;
pub mod levenshtein;
pub mod modifiers;
pub mod qgram;
pub mod ratcliff;
pub mod ratio;
pub mod token;
pub mod utils;

pub use jaro::Jaro;
pub use jaro::JaroWinkler;
pub use levenshtein::DamerauLevenshtein;
pub use levenshtein::Levenshtein;
pub use modifiers::Winkler;
pub use modifiers::WinklerConfig;
pub use qgram::Cosine;
pub use qgram::CosineScore;
pub use qgram::Jaccard;
pub use qgram::Overlap;
pub use qgram::QGram;
pub use qgram::QGramIter;
pub use qgram::SorensenDice;
pub use ratcliff::RatcliffObershelp;
pub use ratio::Ratio;
pub use token::Partial;
pub use token::TokenSet;
pub use token::TokenSort;

verus! {

/// The longest input the rational-valued metrics accept: keeps every exact
/// numerator and denominator within `u64` range.
pub const MAX_SEQ_LEN: usize = 100000;

/// An upper bound on the denominator of every distance a [`Metric`]
/// produces, so that modifiers can rescale a distance without overflow.
pub const DEN_LIMIT: u64 = 9007199254740992;

/// A distance metric whose value is an exact rational number in `[0, 1]`.
///
/// The three spec functions give the exact numerator and denominator that
/// each executable method returns; `valid` is the constructor-established
/// configuration invariant of the metric.
pub trait Metric: Sized {
    /// The metric's configuration is valid.
    spec fn valid(&self) -> bool;

    /// The exact value `distance` returns, as (numerator, denominator).
    spec fn dist_spec(&self, a: Seq<char>, b: Seq<char>) -> (int, int);

    /// The exact value `str_distance` returns: some metrics first order
    /// their two inputs shortest-first.
    spec fn str_dist_spec(&self, a: Seq<char>, b: Seq<char>) -> (int, int);

    /// The exact value `normalized` returns.
    spec fn norm_spec(&self, a: Seq<char>, b: Seq<char>) -> (int, int);

    /// The distance between two character sequences.
    fn distance(&self, a: &[char], b: &[char]) -> (r: ratio::Ratio)
        requires
            self.valid(),
            a@.len() <= MAX_SEQ_LEN,
            b@.len() <= MAX_SEQ_LEN,
        ensures
            r.wf(),
            r.den <= DEN_LIMIT,
            (r.num as int, r.den as int) == self.dist_spec(a@, b@),
    ;

    /// The value `str_distance` returns, computed on inputs already
    /// rendered as character slices: metrics that order their arguments do
    /// so here as well.
    fn ordered_distance(&self, a: &[char], b: &[char]) -> (r: ratio::Ratio)
        requires
            self.valid(),
            a@.len() <= MAX_SEQ_LEN,
            b@.len() <= MAX_SEQ_LEN,
        ensures
            r.wf(),
            r.den <= DEN_LIMIT,
            (r.num as int, r.den as int) == self.str_dist_spec(a@, b@),
    ;

    /// The distance between two strings.
    fn str_distance(&self, a: &str, b: &str) -> (r: ratio::Ratio)
        requires
            self.valid(),
            a@.len() <= MAX_SEQ_LEN,
            b@.len() <= MAX_SEQ_LEN,
        ensures
            r.wf(),
            r.den <= DEN_LIMIT,
            (r.num as int, r.den as int) == self.str_dist_spec(a@, b@),
    ;

    /// The distance normalized to `[0, 1]`.
    fn normalized(&self, a: &[char], b: &[char]) -> (r: ratio::Ratio)
        requires
            self.valid(),
            a@.len() <= MAX_SEQ_LEN,
            b@.len() <= MAX_SEQ_LEN,
        ensures
            r.wf(),
            r.den <= DEN_LIMIT,
            (r.num as int, r.den as int) == self.norm_spec(a@, b@),
    ;
}

/// The distance between two strings under the given rational-valued
/// metric.
pub fn str_distance<D: Metric>(a: &str, b: &str, dist: D) -> (r: ratio::Ratio)
    requires
        dist.valid(),
        a@.len() <= MAX_SEQ_LEN,
        b@.len() <= MAX_SEQ_LEN,
    ensures
        r.wf(),
        (r.num as int, r.den as int) == dist.str_dist_spec(a@, b@),
{
    dist.str_distance(a, b)
}

/// The normalized distance between two strings under the given
/// rational-valued metric: a value of 0 means the strings are equal by the
/// metric's lights, a value of 1 that they are maximally distant.
pub fn str_distance_normalized<D: Metric>(a: &str, b: &str, dist: D) -> (r: ratio::Ratio)
    requires
        dist.valid(),
        a@.len() <= MAX_SEQ_LEN,
        b@.len() <= MAX_SEQ_LEN,
    ensures
        r.wf(),
        (r.num as int, r.den as int) == dist.norm_spec(a@, b@),
{
    let va = utils::chars_of(a);
    let vb = utils::chars_of(b);
    dist.normalized(va.as_slice(), vb.as_slice())
}

/// The result of an edit-distance computation.
///
/// `Exact(n)` means the distance is exactly `n` operations. `Exceeded(k)`
/// is produced only by bounded metrics and means the exact distance is known
/// to be greater than the configured bound `k`, without saying by how much.
#[derive(Debug, Clone, Copy, PartialEq, Eq, Hash, Structural)]
pub enum DistanceValue {
    Exact(usize),
    Exceeded(usize),
}

impl DistanceValue {
    /// The number carried by either variant: the exact distance, or the
    /// bound that was exceeded.
    pub fn value(&self) -> (r: usize)
        ensures
            r == self.spec_value(),
    {
        match self {
            DistanceValue::Exact(v) => *v,
            DistanceValue::Exceeded(v) => *v,
        }
    }

    /// The number carried by either variant.
    pub open spec fn spec_value(self) -> usize {
        match self {
            DistanceValue::Exact(v) => v,
            DistanceValue::Exceeded(v) => v,
        }
    }
}

} // verus!
