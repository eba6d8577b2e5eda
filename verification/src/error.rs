//! What can be wrong with a configuration or a merge.

use vstd::prelude::*;

verus! {

/// Why a configuration is refused before any sampling starts.
#[derive(Clone, Copy, Debug, PartialEq, Eq)]
pub enum ConfigError {
    /// A lower bound of the sampling rectangle is not below its upper bound.
    InvertedBounds,
    /// The resolution is zero pixels per unit.
    NonPositiveResolution,
    /// The rectangle is so small that an axis has no pixel at this resolution.
    EmptyGrid,
    /// An axis has more pixels than a 32-bit count, or the counters of the
    /// grid take more bytes than a vector holds.
    GridTooLarge,
    /// No worker.
    ZeroThreads,
    /// The oracle is given no step at all.
    ZeroEscapeThreshold,
    /// The squared escape radius of the sampler is zero.
    ZeroEscapeRadius,
    /// Trajectories are given no step at all.
    ZeroTraceLength,
    /// The run could record more hits than a 64-bit counter holds.
    BudgetTooLarge,
}

/// Why histograms cannot be added.
#[derive(Clone, Copy, Debug, PartialEq, Eq)]
pub enum MergeError {
    /// The histograms are not over the same pixel grid.
    DimensionMismatch,
    /// The hits of all together exceed what a 64-bit counter holds.
    CounterOverflow,
}

} // verus!
