//! Parzen-window (Gaussian mixture) strategy.
//!
//! The strategy fits one Gaussian component per observation plus a prior at
//! the range midpoint, with adaptive per-component bandwidth, and samples by
//! rejection against the range.  That fitting is floating-point arithmetic,
//! which the verifier's language excludes, so it runs in the host layer; the
//! library carries the strategy as this builder marker and verifies the
//! optimizer bookkeeping around it (trial order, the superior/inferior split,
//! the NaN filter, and the final candidate selection).
use vstd::prelude::*;

verus! {

/// Builder of the Parzen-window estimator.
#[derive(Debug, Default)]
pub struct ParzenEstimatorBuilder {}

impl ParzenEstimatorBuilder {
    /// Makes a new `ParzenEstimatorBuilder` instance.
    pub fn new() -> (r: Self)
        ensures
            r == (ParzenEstimatorBuilder {  }),
    {
        ParzenEstimatorBuilder {  }
    }
}

} // verus!
