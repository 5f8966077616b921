//! The Winkler modifier: boosts (reduces) an inner metric's distance in
//! proportion to the length of the two inputs' common prefix, whenever the
//! inner distance is already below a threshold.

use vstd::prelude::*;

use crate::ratio::Ratio;
use crate::utils::common_prefix;
use crate::Metric;

verus! {

/// The largest denominator a Winkler scaling factor may have: keeps the
/// rescaled distance within `u64` range for every inner metric.
pub const SCALING_DEN_LIMIT: u64 = 1024;

/// The coefficients of a Winkler boost.
#[derive(Debug, Clone)]
pub struct WinklerConfig {
    /// Scaling factor for the boost. Defaults to 1/10.
    pub scaling: Ratio,
    /// Distances above `1 - threshold` are not boosted. Defaults to 7/10.
    pub threshold: Ratio,
    /// At most this many common-prefix elements count. Defaults to 4.
    pub max_length: usize,
}

impl WinklerConfig {
    /// A valid configuration: both coefficients are in `[0, 1]`, the boost
    /// can never drive a distance negative, and the scaling denominator is
    /// small enough for exact arithmetic.
    pub open spec fn valid(self) -> bool {
        &&& self.scaling.wf()
        &&& self.threshold.wf()
        &&& self.scaling.num * self.max_length <= self.scaling.den
        &&& self.scaling.den <= SCALING_DEN_LIMIT
    }

    /// A configuration from the three coefficients. The product of the
    /// scaling factor and the prefix cap must not exceed one, or a boosted
    /// distance could become negative.
    pub fn new(scaling: Ratio, threshold: Ratio, max_length: usize) -> (r: Self)
        requires
            scaling.wf(),
            threshold.wf(),
            scaling.num * max_length <= scaling.den,
            scaling.den <= SCALING_DEN_LIMIT,
        ensures
            r == (WinklerConfig { scaling, threshold, max_length }),
            r.valid(),
    {
        WinklerConfig { scaling, threshold, max_length }
    }
}

impl Default for WinklerConfig {
    /// Scaling 1/10, threshold 7/10, prefix cap 4.
    fn default() -> (r: Self)
        ensures
            r.scaling == (Ratio { num: 1, den: 10 }),
            r.threshold == (Ratio { num: 7, den: 10 }),
            r.max_length == 4,
            r.valid(),
    {
        WinklerConfig {
            scaling: Ratio { num: 1, den: 10 },
            threshold: Ratio { num: 7, den: 10 },
            max_length: 4,
        }
    }
}

/// The boosted distance: with inner distance `d` and a common prefix of
/// `p` elements, if `d <= 1 - threshold` then
/// `d' = d - min(p, max_length) * scaling * d`, otherwise `d` unchanged.
pub open spec fn winkler_value(c: WinklerConfig, d: (int, int), p: int) -> (int, int) {
    if d.0 * c.threshold.den <= (c.threshold.den - c.threshold.num) * d.1 {
        let k = if p <= c.max_length {
            p
        } else {
            c.max_length as int
        };
        (d.0 * (c.scaling.den - k * c.scaling.num), d.1 * c.scaling.den)
    } else {
        d
    }
}

/// `Winkler` modifies an inner metric's distance, decreasing it when the
/// two inputs share a prefix and are already close. With the default
/// configuration over the Jaro metric this is the classic Jaro-Winkler
/// distance.
#[derive(Debug, Clone)]
pub struct Winkler<D: Metric> {
    /// The base metric whose distance is boosted.
    pub inner: D,
    /// Coefficients of the boost.
    pub config: WinklerConfig,
}

impl<D: Metric> Winkler<D> {
    /// Wraps a metric with the default Winkler coefficients.
    pub fn new(inner: D) -> (r: Self)
        ensures
            r.inner == inner,
            r.config.scaling == (Ratio { num: 1, den: 10 }),
            r.config.threshold == (Ratio { num: 7, den: 10 }),
            r.config.max_length == 4,
            r.config.valid(),
    {
        Winkler { inner, config: Default::default() }
    }

    /// Wraps a metric with the given coefficients.
    pub fn with_config(inner: D, config: WinklerConfig) -> (r: Self)
        ensures
            r.inner == inner,
            r.config == config,
    {
        Winkler { inner, config }
    }

    /// The boosted distance of two character slices.
    pub fn distance(&self, a: &[char], b: &[char]) -> (r: Ratio)
        requires
            self.inner.valid(),
            self.config.valid(),
            a@.len() <= crate::MAX_SEQ_LEN,
            b@.len() <= crate::MAX_SEQ_LEN,
        ensures
            r.wf(),
            (r.num as int, r.den as int) == winkler_value(
                self.config,
                self.inner.dist_spec(a@, b@),
                common_prefix(a@, b@) as int,
            ),
    {
        let score = self.inner.distance(a, b);
        self.boost(score, a, b)
    }

    /// Applies the boost to an already-computed inner distance.
    fn boost(&self, score: Ratio, a: &[char], b: &[char]) -> (r: Ratio)
        requires
            self.config.valid(),
            score.wf(),
            score.den <= crate::DEN_LIMIT,
        ensures
            r.wf(),
            (r.num as int, r.den as int) == winkler_value(
                self.config,
                (score.num as int, score.den as int),
                common_prefix(a@, b@) as int,
            ),
    {
        let t = &self.config.threshold;
        let s = &self.config.scaling;
        proof {
            crate::ratio::lemma_u64_mul_fits(score.num, t.den);
            crate::ratio::lemma_u64_mul_fits((t.den - t.num) as u64, score.den);
        }
        if (score.num as u128) * (t.den as u128) <= ((t.den - t.num) as u128) * (score.den
            as u128) {
            let eq_prefix = crate::utils::count_eq(a, b);
            proof {
                crate::utils::lemma_common_prefix(a@, b@);
                crate::utils::lemma_prefix_len_unique(
                    a@,
                    b@,
                    eq_prefix as nat,
                    common_prefix(a@, b@),
                );
            }
            let k = if eq_prefix <= self.config.max_length {
                eq_prefix
            } else {
                self.config.max_length
            };
            proof {
                assert((k as int) * s.num <= s.den) by (nonlinear_arith)
                    requires
                        0 <= k as int <= self.config.max_length,
                        0 <= s.num,
                        s.num * self.config.max_length <= s.den,
                {};
                assert(score.num * (s.den - k * s.num) <= score.den * s.den)
                    by (nonlinear_arith)
                    requires
                        score.num <= score.den,
                        0 <= k as int * s.num <= s.den,
                {};
                assert(1 <= score.den * s.den <= crate::DEN_LIMIT * SCALING_DEN_LIMIT)
                    by (nonlinear_arith)
                    requires
                        1 <= score.den <= crate::DEN_LIMIT,
                        1 <= s.den <= SCALING_DEN_LIMIT,
                {};
            }
            let factor = s.den - (k as u64) * s.num;
            Ratio::new(score.num * factor, score.den * s.den)
        } else {
            score
        }
    }

    /// The boosted distance of two strings, shorter one first.
    pub fn str_distance(&self, a: &str, b: &str) -> (r: Ratio)
        requires
            self.inner.valid(),
            self.config.valid(),
            a@.len() <= crate::MAX_SEQ_LEN,
            b@.len() <= crate::MAX_SEQ_LEN,
        ensures
            r.wf(),
            (r.num as int, r.den as int) == (if a@.len() <= b@.len() {
                winkler_value(
                    self.config,
                    self.inner.dist_spec(a@, b@),
                    common_prefix(a@, b@) as int,
                )
            } else {
                winkler_value(
                    self.config,
                    self.inner.dist_spec(b@, a@),
                    common_prefix(b@, a@) as int,
                )
            }),
    {
        let (s1, s2) = crate::utils::order_by_len_asc(a, b);
        let v1 = crate::utils::chars_of(s1);
        let v2 = crate::utils::chars_of(s2);
        self.distance(v1.as_slice(), v2.as_slice())
    }

    /// The boosted distance, which is already normalized when the inner
    /// metric's distance is.
    pub fn normalized(&self, a: &[char], b: &[char]) -> (r: Ratio)
        requires
            self.inner.valid(),
            self.config.valid(),
            a@.len() <= crate::MAX_SEQ_LEN,
            b@.len() <= crate::MAX_SEQ_LEN,
        ensures
            r.wf(),
            (r.num as int, r.den as int) == winkler_value(
                self.config,
                self.inner.dist_spec(a@, b@),
                common_prefix(a@, b@) as int,
            ),
    {
        self.distance(a, b)
    }
}

impl Default for Winkler<crate::jaro::Jaro> {
    /// The classic Jaro-Winkler metric.
    fn default() -> (r: Self)
        ensures
            r.config.scaling == (Ratio { num: 1, den: 10 }),
            r.config.threshold == (Ratio { num: 7, den: 10 }),
            r.config.max_length == 4,
            r.config.valid(),
            r.inner.valid(),
    {
        Winkler { inner: crate::jaro::Jaro, config: Default::default() }
    }
}

} // verus!
