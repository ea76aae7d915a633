//! Histogram based density estimation, over exact integer counts.
//!
//! The estimator keeps one pseudo-count per bin (additive smoothing) plus one
//! count per observed sample at the bin `floor(sample)`.  A bin's probability
//! is its count over the total; the counts sum to the total exactly, so the
//! probabilities sum to exactly one.  Sampling draws a bin with probability
//! proportional to its count.
use vstd::prelude::*;
use crate::fbits::{is_nan, is_finite, sign_of, mag_of, exp_of, key, lemma_decompose};
use crate::fnum::{
    fceil,
    fsat,
    ceil_pos_usize,
    floor_sat_usize,
    lemma_floor_lt_ceil,
    LIM,
    LIM_BITS,
};
use crate::range::Range;

verus! {

/// Builder of `HistogramEstimator`.
#[derive(Debug, Default)]
pub struct HistogramEstimatorBuilder {}

impl HistogramEstimatorBuilder {
    /// Makes a new `HistogramEstimatorBuilder` instance.
    pub fn new() -> (r: Self)
        ensures
            r == (HistogramEstimatorBuilder {  }),
    {
        HistogramEstimatorBuilder {  }
    }
}

/// Sum of a sequence of counts.
pub open spec fn sum_counts(s: Seq<usize>) -> int
    decreases s.len(),
{
    if s.len() == 0 {
        0
    } else {
        sum_counts(s.drop_last()) + s.last()
    }
}

/// How many of the samples fall in bin `b` (their saturated floor is `b`).
pub open spec fn bin_hits(s: Seq<u64>, b: int) -> int
    decreases s.len(),
{
    if s.len() == 0 {
        0
    } else {
        bin_hits(s.drop_last(), b) + if fsat(s.last()) == b {
            1int
        } else {
            0int
        }
    }
}

/// A bin receives between zero and all of the samples.
pub proof fn lemma_bin_hits_bounds(s: Seq<u64>, b: int)
    ensures
        0 <= bin_hits(s, b) <= s.len(),
    decreases s.len(),
{
    if s.len() > 0 {
        lemma_bin_hits_bounds(s.drop_last(), b);
    }
}

/// Every element of a count sequence is at most the sum of all of them.
proof fn lemma_sum_counts_bounds(s: Seq<usize>)
    ensures
        sum_counts(s) >= 0,
        forall|i: int| 0 <= i < s.len() ==> #[trigger] s[i] <= sum_counts(s),
    decreases s.len(),
{
    if s.len() > 0 {
        lemma_sum_counts_bounds(s.drop_last());
        assert forall|i: int| 0 <= i < s.len() implies #[trigger] s[i] <= sum_counts(s) by {
            if i < s.len() - 1 {
                assert(s.drop_last()[i] == s[i]);
            }
        }
    }
}

/// A sequence of positive counts sums to at least its length.
proof fn lemma_sum_counts_ge_len(s: Seq<usize>)
    requires
        forall|i: int| 0 <= i < s.len() ==> 1 <= #[trigger] s[i],
    ensures
        sum_counts(s) >= s.len(),
    decreases s.len(),
{
    if s.len() > 0 {
        assert forall|i: int| 0 <= i < s.drop_last().len() implies 1 <= #[trigger] s.drop_last()[i] by {
            assert(s.drop_last()[i] == s[i]);
        }
        lemma_sum_counts_ge_len(s.drop_last());
        assert(s.last() == s[s.len() - 1]);
    }
}

/// Raising one count raises the sum by the same amount.
proof fn lemma_sum_counts_update(s: Seq<usize>, i: int, v: usize)
    requires
        0 <= i < s.len(),
    ensures
        sum_counts(s.update(i, v)) == sum_counts(s) - s[i] + v,
    decreases s.len(),
{
    let u = s.update(i, v);
    if i == s.len() - 1 {
        assert(u.drop_last() =~= s.drop_last());
        assert(u.last() == v);
    } else {
        assert(u.drop_last() =~= s.drop_last().update(i, v));
        lemma_sum_counts_update(s.drop_last(), i, v);
        assert(u.last() == s.last());
        assert(s.drop_last()[i] == s[i]);
    }
}

/// Histogram estimator: one count per bin, with the total alongside.
///
/// Bin `b`'s probability is `counts[b] / total`; the counts sum to the total
/// exactly, so the probabilities sum to exactly one.
#[derive(Debug)]
pub struct HistogramEstimator {
    /// Per-bin counts: one pseudo-count plus the number of samples floored
    /// into the bin.
    pub counts: Vec<usize>,
    /// Sum of all counts.
    pub total: usize,
}

impl HistogramEstimator {
    /// Well-formed: at least one bin, every bin counted at least once, and
    /// the total is exactly the sum of the counts.
    pub open spec fn inv(self) -> bool {
        &&& 1 <= self.counts@.len() <= LIM
        &&& self.total as int == sum_counts(self.counts@)
        &&& self.counts@.len() <= self.total as int
        &&& self.total <= 0x8000_0000
        &&& forall|i: int| 0 <= i < self.counts@.len() ==> 1 <= #[trigger] self.counts@[i]
    }

    /// Number of bins.
    pub fn cardinality(&self) -> (r: usize)
        ensures
            r == self.counts@.len(),
    {
        self.counts.len()
    }

    /// Sum of all bin counts.
    pub fn total(&self) -> (r: usize)
        ensures
            r == self.total,
    {
        self.total
    }

    /// The count of the bin the encoded point floors into; the bin
    /// probability is this count over the total.
    pub fn count_at(&self, x: u64) -> (c: usize)
        requires
            self.inv(),
            is_finite(x),
            sign_of(x) == 0 ==> mag_of(x) <= LIM_BITS,
            fsat(x) < self.counts@.len(),
        ensures
            c == self.counts@[fsat(x)],
    {
        let b = floor_sat_usize(x);
        self.counts[b]
    }
}

/// Builds a histogram estimator over `ceil(end)` bins from samples lying in
/// the given zero-based range: every bin starts with one pseudo-count, and
/// each sample adds one count to the bin it floors into.
pub fn build_histogram(samples: &Vec<u64>, range: &Range) -> (h: HistogramEstimator)
    requires
        range.inv(),
        mag_of(range.start) == 0,
        mag_of(range.end) <= LIM_BITS,
        samples@.len() <= LIM,
        forall|i: int|
            0 <= i < samples@.len() ==> !is_nan(#[trigger] samples@[i]) && range.has(samples@[i]),
    ensures
        h.inv(),
        h.counts@.len() == fceil(range.end),
        h.total as int == fceil(range.end) + samples@.len(),
        forall|b: int|
            0 <= b < h.counts@.len() ==> h.counts@[b] as int == 1 + bin_hits(samples@, b),
{
    proof {
        lemma_decompose(range.start);
        lemma_decompose(range.end);
        // a valid zero-based range has a positive, finite, bounded end
        assert(key(range.start) == 0);
        assert(sign_of(range.end) == 0 && key(range.end) > 0);
        lemma_floor_lt_ceil(range.start, range.end);
    }
    let card = ceil_pos_usize(range.end);
    let mut counts: Vec<usize> = Vec::new();
    let mut i: usize = 0;
    while i < card
        invariant
            i <= card,
            counts@.len() == i,
            sum_counts(counts@) == i,
            forall|j: int| 0 <= j < i ==> #[trigger] counts@[j] == 1,
        decreases card - i,
    {
        proof {
            assert(counts@.push(1usize).drop_last() =~= counts@);
        }
        counts.push(1);
        i = i + 1;
    }
    let mut total: usize = card;
    let mut j: usize = 0;
    proof {
        assert(samples@.take(0) =~= Seq::<u64>::empty());
    }
    while j < samples.len()
        invariant
            j <= samples@.len() <= LIM,
            range.inv(),
            mag_of(range.start) == 0,
            mag_of(range.end) <= LIM_BITS,
            sign_of(range.end) == 0,
            forall|i2: int|
                0 <= i2 < samples@.len() ==> !is_nan(#[trigger] samples@[i2]) && range.has(
                    samples@[i2],
                ),
            counts@.len() == card,
            card as int == fceil(range.end),
            1 <= card <= LIM,
            total as int == card + j,
            sum_counts(counts@) == total,
            forall|b: int| 0 <= b < card ==> #[trigger] counts@[b] as int == 1 + bin_hits(
                samples@.take(j as int),
                b,
            ),
        decreases samples@.len() - j,
    {
        let x = samples[j];
        proof {
            // the sample is finite, non-negative, bounded, and floors below
            // the bin count
            lemma_decompose(x);
            lemma_decompose(range.start);
            assert(key(range.start) == 0);
            assert(key(x) >= 0 && key(x) < key(range.end));
            if sign_of(x) == 0 {
                assert(mag_of(x) < mag_of(range.end));
            }
            assert(is_finite(x)) by {
                if sign_of(x) == 0 {
                    assert(mag_of(x) < 0x7ff0_0000_0000_0000);
                } else {
                    assert(mag_of(x) == 0);
                }
                if exp_of(x) == 0x7ff {
                    assert(mag_of(x) >= 0x7ff * 0x10_0000_0000_0000);
                    assert(false);
                }
            }
            lemma_floor_lt_ceil(x, range.end);
        }
        let b = floor_sat_usize(x);
        let c = counts[b];
        proof {
            lemma_sum_counts_bounds(counts@);
            assert(c <= total);
            lemma_sum_counts_update(counts@, b as int, (c + 1) as usize);
        }
        counts[b] = c + 1;
        total = total + 1;
        proof {
            let pre = samples@.take(j as int);
            let now = samples@.take(j as int + 1);
            assert(now.drop_last() =~= pre);
            assert(now.last() == x);
            assert forall|bb: int| 0 <= bb < card implies #[trigger] counts@[bb] as int == 1
                + bin_hits(now, bb) by {
                assert(bin_hits(now, bb) == bin_hits(pre, bb) + if fsat(x) == bb {
                    1int
                } else {
                    0int
                });
            }
        }
        j = j + 1;
    }
    proof {
        assert(samples@.take(samples@.len() as int) =~= samples@);
        assert forall|b: int| 0 <= b < card implies 1 <= #[trigger] counts@[b] by {
            lemma_bin_hits_bounds(samples@, b);
        }
    }
    HistogramEstimator { counts, total }
}


/// The bin probabilities of a well-formed histogram sum to exactly one:
/// bin `b` has probability `counts[b] / total`, and the counts sum to
/// exactly the total that divides them.  This holds for every estimator the
/// builder produces, after any sequence of told trials with valid bins.
pub proof fn law_probabilities_sum_to_one(h: &HistogramEstimator)
    requires
        h.inv(),
    ensures
        sum_counts(h.counts@) == h.total as int,
        h.total >= 1,
{
}

/// Sum of the first `k` counts.
pub open spec fn cum(s: Seq<usize>, k: int) -> int
    decreases k,
{
    if k <= 0 {
        0
    } else {
        cum(s, k - 1) + s[k - 1]
    }
}

/// Prefix sums do not decrease.
proof fn lemma_cum_mono(s: Seq<usize>, k1: int, k2: int)
    requires
        0 <= k1 <= k2 <= s.len(),
    ensures
        cum(s, k1) <= cum(s, k2),
    decreases k2 - k1,
{
    if k1 < k2 {
        lemma_cum_mono(s, k1, k2 - 1);
    }
}

/// The full prefix sum is the sum of the counts.
proof fn lemma_cum_sum(s: Seq<usize>, k: int)
    requires
        0 <= k <= s.len(),
    ensures
        cum(s, k) == sum_counts(s.take(k)),
    decreases k,
{
    if k == 0 {
        assert(s.take(0) =~= Seq::<usize>::empty());
    } else {
        lemma_cum_sum(s, k - 1);
        assert(s.take(k).drop_last() =~= s.take(k - 1));
        assert(s.take(k).last() == s[k - 1]);
    }
}

/// The bin a uniform draw below the sum of the counts selects: the unique
/// bin whose cumulative count window contains the draw, so each bin is
/// selected with probability proportional to its count.
pub fn pick_bin(counts: &Vec<usize>, u: usize) -> (b: usize)
    requires
        counts@.len() >= 1,
        (u as int) < sum_counts(counts@),
        sum_counts(counts@) <= 0x8000_0000,
    ensures
        (b as int) < counts@.len(),
        cum(counts@, b as int) <= u as int,
        (u as int) < cum(counts@, b as int) + counts@[b as int],
{
    proof {
        lemma_cum_sum(counts@, counts@.len() as int);
        assert(counts@.take(counts@.len() as int) =~= counts@);
    }
    let n = counts.len();
    let mut b: usize = 0;
    let mut acc: usize = 0;
    loop
        invariant
            n == counts@.len(),
            b < n,
            acc as int == cum(counts@, b as int),
            acc <= u,
            (u as int) < sum_counts(counts@) <= 0x8000_0000,
            counts@.len() >= 1,
            cum(counts@, counts@.len() as int) == sum_counts(counts@),
        decreases counts@.len() - b,
    {
        let c = counts[b];
        proof {
            lemma_cum_mono(counts@, b as int + 1, counts@.len() as int);
        }
        if u < acc + c {
            return b;
        }
        acc = acc + c;
        b = b + 1;
        proof {
            if b as int == counts@.len() {
                assert(false);
            }
        }
    }
}

impl HistogramEstimator {
    /// Draws a bin index with probability proportional to its count, and
    /// returns it as the pattern of that integer.
    pub fn sample(&self, rng: &mut rand::rngs::StdRng) -> (r: u64)
        requires
            self.inv(),
        ensures
            exists|b: int|
                0 <= b < self.counts@.len() && crate::fnum::is_uint_bits(r, b),
    {
        proof {
            lemma_sum_counts_ge_len(self.counts@);
        }
        let u = crate::rng::rng_below(rng, self.total);
        let b = pick_bin(&self.counts, u);
        let r = crate::fnum::uint_to_bits(b);
        proof {
            assert(0 <= (b as int) && (b as int) < self.counts@.len() && crate::fnum::is_uint_bits(r, b as int));
        }
        r
    }
}

/// Whether bin `b1` scores at least as high as bin `b2` under the
/// log-likelihood-ratio-like criterion: the score of a bin is its superior
/// probability minus its inferior probability, compared exactly by
/// cross-multiplying with the (positive) totals.
pub open spec fn score_at_least(
    sup: Seq<usize>,
    inf: Seq<usize>,
    ts: int,
    ti: int,
    b1: int,
    b2: int,
) -> bool {
    sup[b1] * ti + inf[b2] * ts >= sup[b2] * ti + inf[b1] * ts
}

/// The candidate bin with the greatest score; of equally scored candidates
/// the one drawn last wins.
pub open spec fn pick_best(
    sup: Seq<usize>,
    inf: Seq<usize>,
    ts: int,
    ti: int,
    cands: Seq<usize>,
) -> usize
    recommends
        cands.len() >= 1,
    decreases cands.len(),
{
    if cands.len() <= 1 {
        cands[0]
    } else {
        let prev = pick_best(sup, inf, ts, ti, cands.drop_last());
        if score_at_least(sup, inf, ts, ti, cands.last() as int, prev as int) {
            cands.last()
        } else {
            prev
        }
    }
}

/// The selected bin is one of the candidates.
pub proof fn lemma_pick_best_member(
    sup: Seq<usize>,
    inf: Seq<usize>,
    ts: int,
    ti: int,
    cands: Seq<usize>,
)
    requires
        cands.len() >= 1,
    ensures
        cands.contains(pick_best(sup, inf, ts, ti, cands)),
    decreases cands.len(),
{
    if cands.len() == 1 {
        assert(cands[0] == pick_best(sup, inf, ts, ti, cands));
    } else {
        lemma_pick_best_member(sup, inf, ts, ti, cands.drop_last());
        let prev = pick_best(sup, inf, ts, ti, cands.drop_last());
        let k = choose|k: int| 0 <= k < cands.drop_last().len() && cands.drop_last()[k] == prev;
        assert(cands[k] == prev);
        assert(cands[cands.len() - 1] == cands.last());
    }
}

/// Selects the candidate bin with the greatest exact score, later candidates
/// winning ties.
pub fn select_bin(
    sup: &HistogramEstimator,
    inf: &HistogramEstimator,
    cands: &Vec<usize>,
) -> (b: usize)
    requires
        sup.inv(),
        inf.inv(),
        cands@.len() >= 1,
        forall|i: int|
            0 <= i < cands@.len() ==> (#[trigger] cands@[i] as int) < sup.counts@.len() && (
            cands@[i] as int) < inf.counts@.len(),
    ensures
        b == pick_best(sup.counts@, inf.counts@, sup.total as int, inf.total as int, cands@),
        cands@.contains(b),
{
    let ghost ss = sup.counts@;
    let ghost ii = inf.counts@;
    let ghost ts = sup.total as int;
    let ghost ti = inf.total as int;
    proof {
        lemma_sum_counts_bounds(ss);
        lemma_sum_counts_bounds(ii);
    }
    let mut best = cands[0];
    let mut i: usize = 1;
    proof {
        assert(cands@.take(1).len() == 1);
        assert(cands@.take(1)[0] == cands@[0]);
        assert(best == pick_best(ss, ii, ts, ti, cands@.take(1)));
    }
    while i < cands.len()
        invariant
            1 <= i <= cands@.len(),
            sup.inv(),
            inf.inv(),
            ss == sup.counts@,
            ii == inf.counts@,
            ts == sup.total as int,
            ti == inf.total as int,
            forall|k: int|
                0 <= k < cands@.len() ==> (#[trigger] cands@[k] as int) < ss.len() && (
                cands@[k] as int) < ii.len(),
            best == pick_best(ss, ii, ts, ti, cands@.take(i as int)),
            (best as int) < ss.len() && (best as int) < ii.len(),
        decreases cands@.len() - i,
    {
        let c = cands[i];
        proof {
            lemma_sum_counts_bounds(ss);
            lemma_sum_counts_bounds(ii);
            assert((ss[c as int] as int) * ti <= 0x8000_0000 * 0x8000_0000 && (ii[best as int]
                as int) * ts <= 0x8000_0000 * 0x8000_0000 && (ss[best as int] as int) * ti
                <= 0x8000_0000 * 0x8000_0000 && (ii[c as int] as int) * ts <= 0x8000_0000
                * 0x8000_0000 && (ss[c as int] as int) * ti >= 0 && (ii[best as int] as int) * ts
                >= 0 && (ss[best as int] as int) * ti >= 0 && (ii[c as int] as int) * ts >= 0) by (nonlinear_arith)
                requires
                    0 <= ss[c as int] <= 0x8000_0000,
                    0 <= ss[best as int] <= 0x8000_0000,
                    0 <= ii[c as int] <= 0x8000_0000,
                    0 <= ii[best as int] <= 0x8000_0000,
                    0 <= ts <= 0x8000_0000,
                    0 <= ti <= 0x8000_0000,
            ;
        }
        let a1 = (sup.counts[c] as u64) * (inf.total as u64) + (inf.counts[best] as u64) * (
        sup.total as u64);
        let a2 = (sup.counts[best] as u64) * (inf.total as u64) + (inf.counts[c] as u64) * (
        sup.total as u64);
        proof {
            let pre = cands@.take(i as int);
            let now = cands@.take(i as int + 1);
            assert(now.drop_last() =~= pre);
            assert(now.last() == cands@[i as int]);
        }
        if a1 >= a2 {
            best = c;
        }
        i = i + 1;
    }
    proof {
        assert(cands@.take(cands@.len() as int) =~= cands@);
        lemma_pick_best_member(ss, ii, ts, ti, cands@);
    }
    best
}

} // verus!
