//! Hyperparameter optimization by the Tree-structured Parzen Estimator (TPE)
//! method, over IEEE 754 double bit patterns.
//!
//! The optimizer records (parameter, objective value) pairs and proposes the
//! next parameter value to evaluate: it sorts the recorded trials by
//! objective value, splits them at the fraction `gamma` into a superior and
//! an inferior group, fits one density estimator per group, and returns the
//! sampled candidate that the superior estimator favors most over the
//! inferior one.  Lower objective values are better; callers maximizing an
//! objective negate it before telling.
//!
//! Every parameter and objective value crosses this interface as the 64-bit
//! pattern of an IEEE 754 double (`f64::to_bits` on the caller's side).
//! Floating-point arithmetic itself is outside the verifier's language, so
//! the library defines the meaning of a pattern down to the bit (`fbits`),
//! computes comparisons, ceilings, floors and the split point exactly in
//! integer arithmetic (`fnum`), and verifies the bookkeeping whole: range
//! validation, trial recording, the stable sort, the superior/inferior
//! split, the NaN filter, the histogram strategy end to end, and the final
//! candidate selection.
use vstd::prelude::*;

pub mod density_estimation;
pub mod fbits;
pub mod fnum;
pub mod range;
mod rng;
pub mod trial;

use crate::density_estimation::histogram::{build_histogram, pick_bin, select_bin};
use crate::density_estimation::{
    DefaultEstimatorBuilder,
    HistogramEstimatorBuilder,
    ParzenEstimatorBuilder,
};
use crate::fbits::{bits_is_nan, bits_le, bits_okey_le, is_finite, is_nan, key, lemma_decompose, mag_of, okey, sign_of};
use crate::fnum::{
    fceil,
    is_uint_bits,
    lemma_split_bounds,
    lemma_uint_below_ceil,
    split_point,
    split_spec,
    uint_to_bits,
    LIM,
    LIM_BITS,
    ONE_BITS,
};
use crate::range::{span_finite, Range, RangeError};
use crate::trial::{
    present_params,
    lemma_present_params,
    lemma_present_params_concat,
    lemma_present_params_sort,
    lemma_sort_by_value,
    lemma_sort_of_sorted,
    sort_by_value,
    sort_trials,
    sorted_by_value,
    Trial,
};
use vstd::seq_lib::group_to_multiset_ensures;

verus! {

/// Bit pattern of the default split fraction, the double 0.1.
pub const DEFAULT_GAMMA: u64 = 0x3fb9_9999_9999_999a;

/// Default number of candidates sampled per ask.
pub const DEFAULT_CANDIDATES: usize = 24;

/// Creates a `Range` instance.
pub fn range(start: u64, end: u64) -> (r: Result<Range, RangeError>)
    ensures
        !span_finite(start, end) ==> r == Err::<Range, RangeError>(RangeError::NonFiniteRange),
        span_finite(start, end) && !crate::fbits::flt(start, end) ==> r == Err::<
            Range,
            RangeError,
        >(RangeError::EmptyRange),
        span_finite(start, end) && crate::fbits::flt(start, end) ==> r == Ok::<Range, RangeError>(
            Range { start, end },
        ),
        r is Ok ==> r->Ok_0.inv(),
{
    Range::new(start, end)
}

/// Creates a `DefaultEstimatorBuilder` to build a Parzen estimator (for a
/// numerical parameter).
pub fn parzen_estimator() -> (r: DefaultEstimatorBuilder)
    ensures
        r is Parzen,
{
    DefaultEstimatorBuilder::Parzen(ParzenEstimatorBuilder::new())
}

/// Creates a `DefaultEstimatorBuilder` to build a histogram estimator (for a
/// categorical parameter).
pub fn histogram_estimator() -> (r: DefaultEstimatorBuilder)
    ensures
        r is Histogram,
{
    DefaultEstimatorBuilder::Histogram(HistogramEstimatorBuilder::new())
}

/// Creates a `Range` for a categorical parameter: zero-based bins below the
/// cardinality.
pub fn categorical_range(cardinality: usize) -> (r: Result<Range, RangeError>)
    requires
        cardinality <= LIM,
    ensures
        cardinality == 0 ==> r == Err::<Range, RangeError>(RangeError::EmptyRange),
        cardinality >= 1 ==> r is Ok && r->Ok_0.start == 0 && is_uint_bits(
            r->Ok_0.end,
            cardinality as int,
        ) && r->Ok_0.inv() && mag_of(r->Ok_0.end) <= LIM_BITS,
{
    let endb = uint_to_bits(cardinality);
    proof {
        assert((0u64 >> 52) & 0x7ff == 0 && (0u64 >> 63) == 0 && (0u64 & 0x7fff_ffff_ffff_ffff)
            == 0 && (0u64 & 0xf_ffff_ffff_ffff) == 0) by (bit_vector);
        lemma_decompose(endb);
        crate::fbits::lemma_aval_zero(endb);
        vstd::arithmetic::power2::lemma_pow2_pos(1074);
        if cardinality >= 1 {
            assert(crate::fbits::aval(endb) >= 1 * vstd::arithmetic::power2::pow2(1074)) by {
                vstd::arithmetic::mul::lemma_mul_inequality(
                    1,
                    cardinality as int,
                    vstd::arithmetic::power2::pow2(1074) as int,
                );
            }
        } else {
            assert(crate::fbits::aval(endb) == 0 * vstd::arithmetic::power2::pow2(1074));
            assert(0 * vstd::arithmetic::power2::pow2(1074) == 0) by {
                vstd::arithmetic::mul::lemma_mul_basics(
                    vstd::arithmetic::power2::pow2(1074) as int,
                );
            }
        }
    }
    Range::new(0, endb)
}

/// A split fraction the optimizer accepts: between zero and one under IEEE
/// comparison (so never NaN).
pub open spec fn gamma_ok(g: u64) -> bool {
    !is_nan(g) && 0 <= key(g) && key(g) <= ONE_BITS as int
}

/// An accepted fraction is finite with a bounded magnitude.
pub proof fn lemma_gamma_ok(g: u64)
    requires
        gamma_ok(g),
    ensures
        is_finite(g),
        key(g) >= 0,
        mag_of(g) <= ONE_BITS,
{
    lemma_decompose(g);
    if sign_of(g) == 1 {
        assert(mag_of(g) == 0);
    }
    if crate::fbits::exp_of(g) == 0x7ff {
        assert(mag_of(g) >= 0x7ff * 0x10_0000_0000_0000);
        assert(false);
    }
}

/// A well-formed trial for the given range: its value is never NaN, and its
/// parameter is either the NaN "absent" sentinel or lies in the range.
pub open spec fn trial_ok(r: Range, t: Trial) -> bool {
    !is_nan(t.value) && (is_nan(t.param) || r.has(t.param))
}

/// Possible errors during `TpeOptimizerBuilder::build`.
#[derive(Debug, Clone, Copy, PartialEq, Eq, Structural)]
pub enum BuildError {
    /// The value of `gamma` must be in the range from `0.0` to `1.0`.
    GammaOutOfRange,
    /// The value of `candidates` must be a positive integer.
    ZeroCandidates,
}

/// Possible errors during `TpeOptimizer::tell`.
#[derive(Debug, Clone, Copy, PartialEq, Eq, Structural)]
pub enum TellError {
    /// The parameter value is out of the range.
    ParamOutOfRange {
        /// Actual parameter value.
        param: u64,
        /// Expected parameter range.
        range: Range,
    },
    /// NaN value is not allowed.
    NanValue,
}

/// Builder of `TpeOptimizer`.
#[derive(Debug)]
pub struct TpeOptimizerBuilder {
    /// Bit pattern of the fraction at which the superior and inferior
    /// observations are split.
    pub gamma: u64,
    /// Number of candidates to be sampled per ask.
    pub candidates: usize,
}

impl Default for TpeOptimizerBuilder {
    /// The default settings: a split fraction of 0.1 and 24 candidates.
    fn default() -> (r: Self)
        ensures
            r.gamma == DEFAULT_GAMMA,
            r.candidates == DEFAULT_CANDIDATES,
    {
        TpeOptimizerBuilder { gamma: DEFAULT_GAMMA, candidates: DEFAULT_CANDIDATES }
    }
}

impl TpeOptimizerBuilder {
    /// Makes a new `TpeOptimizerBuilder` instance with the default settings.
    pub fn new() -> (r: Self)
        ensures
            r.gamma == DEFAULT_GAMMA,
            r.candidates == DEFAULT_CANDIDATES,
    {
        Self::default()
    }

    /// Sets the fraction at which the good and bad observations are split.
    ///
    /// The default value is the pattern of `0.1`.
    pub fn gamma(&mut self, gamma: u64)
        ensures
            final(self).gamma == gamma,
            final(self).candidates == old(self).candidates,
    {
        self.gamma = gamma;
    }

    /// Sets the number of candidates to be sampled to decide the next
    /// parameter.
    ///
    /// The default value is `24`.
    pub fn candidates(&mut self, candidates: usize)
        ensures
            final(self).candidates == candidates,
            final(self).gamma == old(self).gamma,
    {
        self.candidates = candidates;
    }

    /// Builds a `TpeOptimizer` with the given settings: rejects a fraction
    /// outside zero to one, then a zero candidate count.
    pub fn build<T>(&self, estimator_builder: T, param_range: Range) -> (r: Result<
        TpeOptimizer<T>,
        BuildError,
    >)
        requires
            param_range.inv(),
        ensures
            !gamma_ok(self.gamma) ==> r == Err::<TpeOptimizer<T>, BuildError>(
                BuildError::GammaOutOfRange,
            ),
            gamma_ok(self.gamma) && self.candidates == 0 ==> r == Err::<
                TpeOptimizer<T>,
                BuildError,
            >(BuildError::ZeroCandidates),
            gamma_ok(self.gamma) && self.candidates >= 1 ==> r is Ok,
            r is Ok ==> ({
                let o = r->Ok_0;
                &&& o.inv()
                &&& o.param_range == param_range
                &&& o.estimator_builder == estimator_builder
                &&& o.trials@ == Seq::<Trial>::empty()
                &&& o.is_sorted == false
                &&& o.gamma == self.gamma
                &&& o.candidates == self.candidates
            }),
    {
        proof {
            lemma_decompose(self.gamma);
            assert(mag_of(ONE_BITS) == ONE_BITS && sign_of(ONE_BITS) == 0 && ((ONE_BITS >> 52)
                & 0x7ff) == 0x3ff) by (bit_vector);
            assert((0u64 >> 52) & 0x7ff == 0 && (0u64 >> 63) == 0 && (0u64
                & 0x7fff_ffff_ffff_ffff) == 0) by (bit_vector);
            if gamma_ok(self.gamma) {
                lemma_gamma_ok(self.gamma);
            }
        }
        if !(bits_le(0, self.gamma) && bits_le(self.gamma, ONE_BITS)) {
            return Err(BuildError::GammaOutOfRange);
        }
        if self.candidates == 0 {
            return Err(BuildError::ZeroCandidates);
        }
        Ok(
            TpeOptimizer {
                param_range,
                estimator_builder,
                trials: Vec::new(),
                is_sorted: false,
                gamma: self.gamma,
                candidates: self.candidates,
            },
        )
    }
}

/// Optimizer using TPE.
///
/// This tries to search out the parameter value which could minimize the
/// evaluation result.
///
/// Note that an instance of `TpeOptimizer` can handle only one
/// hyperparameter: to optimize multiple hyperparameters simultaneously,
/// create one optimizer per hyperparameter.
#[derive(Debug)]
pub struct TpeOptimizer<T = DefaultEstimatorBuilder> {
    /// The validated domain of the parameter.
    pub param_range: Range,
    /// The density-estimation strategy the optimizer is configured with.
    pub estimator_builder: T,
    /// The observations told so far, in told order until a sort.
    pub trials: Vec<Trial>,
    /// Whether `trials` currently holds its sorted order.
    pub is_sorted: bool,
    /// Bit pattern of the superior/inferior split fraction.
    pub gamma: u64,
    /// Number of candidates sampled per ask.
    pub candidates: usize,
}

impl<T> TpeOptimizer<T> {
    /// Well-formed optimizer state: a valid range and fraction, at least one
    /// candidate, every trial well formed, and the sorted flag truthful.
    pub open spec fn inv(self) -> bool {
        &&& self.param_range.inv()
        &&& is_finite(self.gamma)
        &&& key(self.gamma) >= 0
        &&& mag_of(self.gamma) <= ONE_BITS
        &&& self.candidates >= 1
        &&& (self.is_sorted ==> self.trials@ == sort_by_value(self.trials@))
        &&& forall|i: int|
            0 <= i < self.trials@.len() ==> trial_ok(self.param_range, #[trigger] self.trials@[i])
    }

    /// Makes a new `TpeOptimizer` with the default settings.
    ///
    /// To customize the settings, use `TpeOptimizerBuilder` instead.
    pub fn new(estimator_builder: T, param_range: Range) -> (r: Self)
        requires
            param_range.inv(),
        ensures
            r.inv(),
            r.param_range == param_range,
            r.estimator_builder == estimator_builder,
            r.trials@ == Seq::<Trial>::empty(),
            r.is_sorted == false,
            r.gamma == DEFAULT_GAMMA,
            r.candidates == DEFAULT_CANDIDATES,
    {
        proof {
            assert(((DEFAULT_GAMMA >> 52) & 0x7ff) != 0x7ff && (DEFAULT_GAMMA >> 63) == 0 && (
            DEFAULT_GAMMA & 0x7fff_ffff_ffff_ffff) == DEFAULT_GAMMA && DEFAULT_GAMMA < ONE_BITS)
                by (bit_vector);
        }
        let r = TpeOptimizerBuilder::new().build(estimator_builder, param_range);
        match r {
            Ok(o) => o,
            Err(_) => {
                proof {
                    assert(false);
                }
                vstd::pervasive::unreached()
            },
        }
    }

    /// Tells the evaluation result of a hyperparameter value to the
    /// optimizer: rejects a NaN value, then a non-sentinel parameter outside
    /// the range, and otherwise appends exactly one trial and marks the
    /// cached sort order stale.
    ///
    /// The `param` should be the NaN pattern if the hyperparameter was not
    /// used in the evaluation (this can happen when the search space is
    /// conditional).
    pub fn tell(&mut self, param: u64, value: u64) -> (r: Result<(), TellError>)
        requires
            old(self).inv(),
        ensures
            final(self).inv(),
            is_nan(value) ==> r == Err::<(), TellError>(TellError::NanValue) && *final(self)
                == *old(self),
            !is_nan(value) && !is_nan(param) && !old(self).param_range.has(param) ==> r == Err::<
                (),
                TellError,
            >(TellError::ParamOutOfRange { param, range: old(self).param_range }) && *final(self)
                == *old(self),
            !is_nan(value) && (is_nan(param) || old(self).param_range.has(param)) ==> r == Ok::<
                (),
                TellError,
            >(()) && final(self).trials@ == old(self).trials@.push(Trial { param, value })
                && final(self).is_sorted == false && final(self).param_range == old(
                self,
            ).param_range && final(self).gamma == old(self).gamma && final(self).candidates == old(
                self,
            ).candidates && final(self).estimator_builder == old(self).estimator_builder,
    {
        if bits_is_nan(value) {
            return Err(TellError::NanValue);
        }
        if !bits_is_nan(param) && !self.param_range.contains(param) {
            return Err(TellError::ParamOutOfRange { param, range: self.param_range });
        }
        self.trials.push(Trial { param, value });
        self.is_sorted = false;
        proof {
            assert forall|i: int| 0 <= i < self.trials@.len() implies trial_ok(
                self.param_range,
                #[trigger] self.trials@[i],
            ) by {
                if i < old(self).trials@.len() {
                    assert(self.trials@[i] == old(self).trials@[i]);
                }
            }
        }
        Ok(())
    }

    /// Sorts the trials by objective value, splits them at
    /// `ceil(gamma * n)`, and returns the two groups' parameter patterns
    /// with the NaN "absent" sentinels filtered out: first the superior
    /// group (lowest objective values), then the inferior remainder.
    ///
    /// The two groups partition the sorted trials, which are a permutation
    /// of the told trials, and together keep exactly one parameter per told
    /// trial whose parameter is not NaN.
    pub fn split_observations(&mut self) -> (r: (Vec<u64>, Vec<u64>))
        requires
            old(self).inv(),
            old(self).trials@.len() <= LIM,
        ensures
            final(self).inv(),
            final(self).trials@ == sort_by_value(old(self).trials@),
            final(self).is_sorted == true,
            final(self).param_range == old(self).param_range,
            final(self).gamma == old(self).gamma,
            final(self).candidates == old(self).candidates,
            final(self).estimator_builder == old(self).estimator_builder,
            ({
                let sorted = sort_by_value(old(self).trials@);
                let split = split_spec(sorted.len() as int, old(self).gamma);
                &&& 0 <= split <= sorted.len()
                &&& r.0@ == present_params(sorted.take(split))
                &&& r.1@ == present_params(sorted.skip(split))
            }),
            r.0@.len() + r.1@.len() == present_params(old(self).trials@).len(),
            r.0@.len() <= old(self).trials@.len(),
            r.1@.len() <= old(self).trials@.len(),
            forall|i: int|
                0 <= i < r.0@.len() ==> !is_nan(#[trigger] r.0@[i]) && old(self).param_range.has(
                    r.0@[i],
                ),
            forall|i: int|
                0 <= i < r.1@.len() ==> !is_nan(#[trigger] r.1@[i]) && old(self).param_range.has(
                    r.1@[i],
                ),
    {
        broadcast use group_to_multiset_ensures;

        proof {
            lemma_sort_by_value(old(self).trials@);
        }
        if !self.is_sorted {
            let sorted_now = sort_trials(&self.trials);
            self.trials = sorted_now;
            self.is_sorted = true;
            proof {
                lemma_sort_of_sorted(self.trials@);
            }
        } else {
            proof {
                lemma_sort_of_sorted(self.trials@);
            }
        }
        let ghost sorted = self.trials@;
        proof {
            // the sorted trials are the told trials rearranged, so each is
            // still well formed
            assert forall|i: int| 0 <= i < sorted.len() implies trial_ok(
                self.param_range,
                #[trigger] sorted[i],
            ) by {
                let t = sorted[i];
                assert(sorted.contains(t));
                assert(old(self).trials@.to_multiset().count(t) > 0);
                assert(old(self).trials@.contains(t));
                let k = choose|k: int|
                    0 <= k < old(self).trials@.len() && old(self).trials@[k] == t;
                assert(trial_ok(old(self).param_range, old(self).trials@[k]));
            }
            lemma_split_bounds(sorted.len() as int, self.gamma);
        }
        let n = self.trials.len();
        let split = split_point(n, self.gamma);
        let ghost osnap = *self;
        let mut sup: Vec<u64> = Vec::new();
        let mut i: usize = 0;
        proof {
            assert(sorted.take(0) =~= Seq::<Trial>::empty());
        }
        while i < split
            invariant
                *self == osnap,
                self.trials@ == sorted,
                i <= split <= n,
                n == sorted.len(),
                sup@ == present_params(sorted.take(i as int)),
            decreases split - i,
        {
            let t = self.trials[i];
            proof {
                let pre = sorted.take(i as int);
                let now = sorted.take(i as int + 1);
                assert(now.drop_last() =~= pre);
                assert(now.last() == sorted[i as int]);
            }
            if !bits_is_nan(t.param) {
                sup.push(t.param);
            }
            i = i + 1;
        }
        let mut inf: Vec<u64> = Vec::new();
        let mut j: usize = split;
        proof {
            assert(sorted.subrange(split as int, split as int) =~= Seq::<Trial>::empty());
        }
        while j < n
            invariant
                *self == osnap,
                self.trials@ == sorted,
                split <= j <= n,
                n == sorted.len(),
                inf@ == present_params(sorted.subrange(split as int, j as int)),
            decreases n - j,
        {
            let t = self.trials[j];
            proof {
                let pre = sorted.subrange(split as int, j as int);
                let now = sorted.subrange(split as int, j as int + 1);
                assert(now.drop_last() =~= pre);
                assert(now.last() == sorted[j as int]);
            }
            if !bits_is_nan(t.param) {
                inf.push(t.param);
            }
            j = j + 1;
        }
        proof {
            assert(sorted.subrange(split as int, n as int) =~= sorted.skip(split as int));
            // the two filtered groups together keep every finite parameter
            lemma_present_params_concat(sorted.take(split as int), sorted.skip(split as int));
            assert(sorted.take(split as int) + sorted.skip(split as int) =~= sorted);
            lemma_present_params_sort(old(self).trials@);
            lemma_present_params(sorted.take(split as int));
            lemma_present_params(sorted.skip(split as int));
            // each returned parameter comes from a well-formed trial
            assert forall|k: int| 0 <= k < sup@.len() implies !is_nan(#[trigger] sup@[k]) && old(
                self,
            ).param_range.has(sup@[k]) by {
                let fp = present_params(sorted.take(split as int));
                let w = choose|w: int|
                    0 <= w < sorted.take(split as int).len() && fp[k] == sorted.take(
                        split as int,
                    )[w].param && !is_nan(sorted.take(split as int)[w].param);
                assert(sorted.take(split as int)[w] == sorted[w]);
                assert(trial_ok(self.param_range, sorted[w]));
            }
            assert forall|k: int| 0 <= k < inf@.len() implies !is_nan(#[trigger] inf@[k]) && old(
                self,
            ).param_range.has(inf@[k]) by {
                let fp = present_params(sorted.skip(split as int));
                let w = choose|w: int|
                    0 <= w < sorted.skip(split as int).len() && fp[k] == sorted.skip(
                        split as int,
                    )[w].param && !is_nan(sorted.skip(split as int)[w].param);
                assert(sorted.skip(split as int)[w] == sorted[w + split as int]);
                assert(trial_ok(self.param_range, sorted[w + split as int]));
            }
        }
        (sup, inf)
    }
}

/// The histogram-strategy ask: sorts and splits the trials, fits one
/// smoothed histogram per group over the zero-based range, samples
/// `candidates` bins from the superior histogram, and returns the sampled
/// bin whose exact score (superior probability minus inferior probability)
/// is greatest, later draws winning ties.  The result is the pattern of a
/// bin index below the range's cardinality, so it always lies in the range.
fn histogram_ask<T>(opt: &mut TpeOptimizer<T>, rng: &mut rand::rngs::StdRng) -> (r: u64)
    requires
        old(opt).inv(),
        old(opt).trials@.len() <= LIM,
        mag_of(old(opt).param_range.start) == 0,
        mag_of(old(opt).param_range.end) <= LIM_BITS,
    ensures
        final(opt).inv(),
        final(opt).trials@ == sort_by_value(old(opt).trials@),
        final(opt).is_sorted == true,
        final(opt).param_range == old(opt).param_range,
        final(opt).gamma == old(opt).gamma,
        final(opt).candidates == old(opt).candidates,
        final(opt).estimator_builder == old(opt).estimator_builder,
        exists|b: int| 0 <= b < fceil(old(opt).param_range.end) && is_uint_bits(r, b),
        old(opt).param_range.has(r),
{
    let (sup_params, inf_params) = opt.split_observations();
    let sup_est = build_histogram(&sup_params, &opt.param_range);
    let inf_est = build_histogram(&inf_params, &opt.param_range);
    let ghost osnap = *opt;
    let mut cands: Vec<usize> = Vec::new();
    let mut i: usize = 0;
    while i < opt.candidates
        invariant
            *opt == osnap,
            i <= opt.candidates,
            cands@.len() == i,
            sup_est.inv(),
            inf_est.inv(),
            sup_est.counts@.len() == inf_est.counts@.len(),
            forall|k: int|
                0 <= k < cands@.len() ==> (#[trigger] cands@[k] as int) < sup_est.counts@.len(),
        decreases opt.candidates - i,
    {
        let u = crate::rng::rng_below(rng, sup_est.total());
        let b = pick_bin(&sup_est.counts, u);
        cands.push(b);
        i = i + 1;
    }
    let best = select_bin(&sup_est, &inf_est, &cands);
    let r = uint_to_bits(best);
    proof {
        assert((best as int) < sup_est.counts@.len()) by {
            let w = choose|w: int| 0 <= w < cands@.len() && cands@[w] == best;
            assert((cands@[w] as int) < sup_est.counts@.len());
        }
        lemma_decompose(opt.param_range.start);
        lemma_decompose(opt.param_range.end);
        assert(key(opt.param_range.start) == 0);
        assert(sign_of(opt.param_range.end) == 0 && key(opt.param_range.end) > 0);
        lemma_uint_below_ceil(r, best as int, opt.param_range.end);
        assert(0 <= (best as int) && (best as int) < fceil(old(opt).param_range.end)
            && is_uint_bits(r, best as int));
    }
    r
}

impl TpeOptimizer<HistogramEstimatorBuilder> {
    /// Returns the next value of the optimization target parameter to be
    /// evaluated: the pattern of a bin index below the range's cardinality,
    /// always contained in the range.
    ///
    /// Note that, before the first asking, it might be worth telling the
    /// evaluation results of some randomly sampled observations to reduce
    /// the bias of too few samples.
    pub fn ask(&mut self, rng: &mut rand::rngs::StdRng) -> (r: u64)
        requires
            old(self).inv(),
            old(self).trials@.len() <= LIM,
            mag_of(old(self).param_range.start) == 0,
            mag_of(old(self).param_range.end) <= LIM_BITS,
        ensures
            final(self).inv(),
            final(self).trials@ == sort_by_value(old(self).trials@),
            final(self).is_sorted == true,
            final(self).param_range == old(self).param_range,
            final(self).gamma == old(self).gamma,
            final(self).candidates == old(self).candidates,
            final(self).estimator_builder == old(self).estimator_builder,
            exists|b: int| 0 <= b < fceil(old(self).param_range.end) && is_uint_bits(r, b),
            old(self).param_range.has(r),
    {
        histogram_ask(self, rng)
    }
}

impl TpeOptimizer<DefaultEstimatorBuilder> {
    /// Returns the next value of the optimization target parameter to be
    /// evaluated, for an optimizer configured with the histogram strategy:
    /// the pattern of a bin index below the range's cardinality, always
    /// contained in the range.
    pub fn ask(&mut self, rng: &mut rand::rngs::StdRng) -> (r: u64)
        requires
            old(self).inv(),
            old(self).estimator_builder is Histogram,
            old(self).trials@.len() <= LIM,
            mag_of(old(self).param_range.start) == 0,
            mag_of(old(self).param_range.end) <= LIM_BITS,
        ensures
            final(self).inv(),
            final(self).trials@ == sort_by_value(old(self).trials@),
            final(self).is_sorted == true,
            final(self).param_range == old(self).param_range,
            final(self).gamma == old(self).gamma,
            final(self).candidates == old(self).candidates,
            final(self).estimator_builder == old(self).estimator_builder,
            exists|b: int| 0 <= b < fceil(old(self).param_range.end) && is_uint_bits(r, b),
            old(self).param_range.has(r),
    {
        histogram_ask(self, rng)
    }
}


/// The scored candidate with the greatest score under the total order that
/// places NaN above everything; of equally scored candidates the later one
/// wins.
pub open spec fn best_scored(s: Seq<(u64, u64)>) -> (u64, u64)
    recommends
        s.len() >= 1,
    decreases s.len(),
{
    if s.len() <= 1 {
        s[0]
    } else {
        let prev = best_scored(s.drop_last());
        if okey(s.last().0) >= okey(prev.0) {
            s.last()
        } else {
            prev
        }
    }
}

/// Selects the candidate with the greatest score from (score, candidate)
/// pairs of double bit patterns, later pairs winning ties; NaN scores sort
/// above everything.
pub fn select_max_by_score(scored: &Vec<(u64, u64)>) -> (r: u64)
    requires
        scored@.len() >= 1,
    ensures
        r == best_scored(scored@).1,
{
    let mut best = scored[0];
    let mut i: usize = 1;
    proof {
        assert(scored@.take(1).len() == 1);
        assert(scored@.take(1)[0] == scored@[0]);
        assert(best == best_scored(scored@.take(1)));
    }
    while i < scored.len()
        invariant
            1 <= i <= scored@.len(),
            best == best_scored(scored@.take(i as int)),
        decreases scored@.len() - i,
    {
        let c = scored[i];
        proof {
            let pre = scored@.take(i as int);
            let now = scored@.take(i as int + 1);
            assert(now.drop_last() =~= pre);
            assert(now.last() == scored@[i as int]);
        }
        if bits_okey_le(best.0, c.0) {
            best = c;
        }
        i = i + 1;
    }
    proof {
        assert(scored@.take(scored@.len() as int) =~= scored@);
    }
    best.1
}

/// For any told trials and accepted fraction, the split point is the exact
/// ceiling of the fraction times the trial count; the superior group is the
/// first `split` trials of the sorted order and the inferior group the
/// remaining `n - split`, and together, in sorted order, they reconstruct
/// the sorted sequence, a permutation of the told one.
pub proof fn law_split_groups(trials: Seq<Trial>, gamma: u64)
    requires
        gamma_ok(gamma),
    ensures
        ({
            let sorted = sort_by_value(trials);
            let split = split_spec(trials.len() as int, gamma);
            &&& 0 <= split <= trials.len()
            &&& sorted.len() == trials.len()
            &&& sorted.take(split).len() == split
            &&& sorted.skip(split).len() == trials.len() - split
            &&& sorted.take(split) + sorted.skip(split) == sorted
            &&& sorted.to_multiset() == trials.to_multiset()
            &&& sorted_by_value(sorted)
        }),
{
    lemma_gamma_ok(gamma);
    lemma_split_bounds(trials.len() as int, gamma);
    lemma_sort_by_value(trials);
    let sorted = sort_by_value(trials);
    let split = split_spec(trials.len() as int, gamma);
    assert(sorted.take(split) + sorted.skip(split) =~= sorted);
}

/// The parameters an ask fits its estimators from are exactly the told
/// parameters that are present (not the NaN "absent" sentinel; for recorded
/// trials these are exactly the finite ones): the two groups' filtered
/// parameter sequences together count one parameter per such trial, however
/// the trials are ordered by the sort.
pub proof fn law_present_param_count(trials: Seq<Trial>, gamma: u64)
    requires
        gamma_ok(gamma),
    ensures
        ({
            let sorted = sort_by_value(trials);
            let split = split_spec(trials.len() as int, gamma);
            present_params(sorted.take(split)).len() + present_params(sorted.skip(split)).len()
                == present_params(trials).len()
        }),
{
    lemma_gamma_ok(gamma);
    lemma_split_bounds(trials.len() as int, gamma);
    lemma_sort_by_value(trials);
    let sorted = sort_by_value(trials);
    let split = split_spec(trials.len() as int, gamma);
    lemma_present_params_concat(sorted.take(split), sorted.skip(split));
    assert(sorted.take(split) + sorted.skip(split) =~= sorted);
    lemma_present_params_sort(trials);
}

} // verus!

