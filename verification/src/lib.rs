//! A streaming anomaly-detection forest: an ensemble of randomized
//! space-partitioning trees over a bounded, reference-counted point store,
//! updated online under time-decayed reservoir sampling.
//!
//! All numeric state is held in integers: point coordinates are `i64` values
//! (callers choose the scale), and scores, probabilities and decay rates are
//! fixed-point numbers scaled by [`SCALE`].

use vstd::prelude::*;

pub mod rng;
pub mod store;
pub mod forest;
pub mod sampler;
pub mod tree;

verus! {

/// Fixed-point unit: a probability or score of 1.0 is represented as `SCALE`.
pub const SCALE: u64 = 65536;

/// Errors surfaced by forest construction and by the two streaming
/// operations.
#[derive(Clone, Copy, PartialEq, Eq, Structural, Debug)]
pub enum RcfError {
    /// An invalid hyperparameter combination was given to the builder.
    ConfigError,
    /// A point of the wrong length was handed to `score` or `update`.
    DimensionMismatch,
    /// Internal bookkeeping would exceed the point-store bound; checked
    /// defensively, never expected on a well-formed forest.
    CapacityInvariantViolation,
}

} // verus!
