//! Gene co-expression network construction.
//!
//! The pipeline turns a Pearson correlation matrix into a statistically
//! filtered, undirected, weighted gene network and partitions that network
//! into communities of connected genes:
//!
//! correlation matrix -> p-values -> corrected p-values -> filtered matrix
//! -> graph -> communities.
//!
//! Real quantities (correlations, probabilities, edge weights) are carried
//! as fixed-point integers scaled by [`SCALE`], so every rule of the
//! pipeline is stated and proved exactly.

use vstd::prelude::*;

pub mod correlation;
pub mod matrix;
pub mod network;

pub use correlation::adjust_pvalues;
pub use correlation::filter_corr;
pub use correlation::pearson_to_pvalue;
pub use matrix::CorrCell;
pub use matrix::CorrMatrix;
pub use matrix::PValueMatrix;
pub use matrix::AdjustedPValueMatrix;
pub use matrix::FilteredMatrix;
pub use network::CoexpressionNetwork;
pub use network::Edge;
pub use network::Graph;

verus! {

/// Fixed-point scale: the real number x is stored as the integer
/// round(x * SCALE). Probabilities live in [0, SCALE] and correlations
/// in [-SCALE, SCALE].
pub const SCALE: i64 = 1_000_000;

/// The failures the pipeline can report. Dimension and configuration
/// problems are detected before a stage runs; a duplicate gene label
/// aborts graph construction. A correlation cell that is out of range or
/// not a number is not an error: it is absorbed by the p-value guard.
#[derive(Clone, Copy, Debug, PartialEq, Eq, Structural)]
pub enum NetworkError {
    /// The sample count is too small for a t-distribution (at most 2).
    InvalidConfiguration,
    /// The gene label sequence does not match the matrix dimension.
    DimensionMismatch,
    /// Two genes share a label during graph construction.
    DuplicateLabel,
}

} // verus!
