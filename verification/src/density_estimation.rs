//! Probability density estimation strategies.
//!
//! Two strategies exist: a Parzen-window estimator for continuous numeric
//! parameters and a smoothed-histogram estimator for categorical parameters.
//! The histogram strategy is fully verified here over exact integer counts.
//! The Parzen strategy's fitting and sampling are floating-point arithmetic,
//! which lies outside the verifier's language; its builder is the marker the
//! optimizer is configured with, and the host layer drives its numerics
//! through the optimizer's verified bookkeeping.
use vstd::prelude::*;

pub use self::histogram::{HistogramEstimator, HistogramEstimatorBuilder};
pub use self::parzen::ParzenEstimatorBuilder;

pub mod histogram;
pub mod parzen;

verus! {

/// Builder of the default estimator: the closed set of strategies.
#[derive(Debug)]
pub enum DefaultEstimatorBuilder {
    /// Parzen-window (Gaussian mixture) strategy, for numeric parameters.
    Parzen(ParzenEstimatorBuilder),
    /// Smoothed-histogram strategy, for categorical parameters.
    Histogram(HistogramEstimatorBuilder),
}

} // verus!
