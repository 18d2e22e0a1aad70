//! The matrix shapes that flow through the pipeline, all square and
//! index-aligned with the gene labels, with entries stored as fixed-point
//! integers scaled by [`crate::SCALE`].

use vstd::prelude::*;

verus! {

use crate::SCALE;

/// One cell of a correlation matrix. Upstream correlation code works in
/// floating point and may hand over a value that is not a number; such a
/// cell is kept as `NotANumber` so the significance estimator can absorb
/// it. A finite correlation r is stored as `Finite(round(r * SCALE))`.
#[derive(Clone, Copy, Debug, PartialEq, Eq, Structural)]
pub enum CorrCell {
    /// The upstream correlation was not a number.
    NotANumber,
    /// A finite correlation, scaled by [`SCALE`].
    Finite(i64),
}

/// A square correlation matrix; entry (i, j) is the correlation of gene i
/// with gene j. Cells may be degenerate (out of [-1, 1] or not a number):
/// the estimator guards against them.
pub struct CorrMatrix {
    pub cells: Vec<Vec<CorrCell>>,
}

impl CorrMatrix {
    /// Number of genes (rows and columns).
    pub open spec fn n(&self) -> nat {
        self.cells@.len()
    }

    /// The matrix is square.
    pub open spec fn wf(&self) -> bool {
        forall|i: int|
            0 <= i < self.cells@.len() ==> (#[trigger] self.cells@[i])@.len() == self.cells@.len()
    }

    pub open spec fn at(&self, i: int, j: int) -> CorrCell {
        self.cells@[i]@[j]
    }

    /// Entry (i, j) always equals entry (j, i).
    pub open spec fn symmetric(&self) -> bool {
        forall|i: int, j: int|
            0 <= i < self.n() && 0 <= j < self.n() ==> self.at(i, j) == #[trigger] self.at(j, i)
    }
}

/// A square matrix of two-tailed p-values, each in [0, SCALE].
pub struct PValueMatrix {
    pub cells: Vec<Vec<i64>>,
}

impl PValueMatrix {
    pub open spec fn n(&self) -> nat {
        self.cells@.len()
    }

    /// Square, with every entry a probability in [0, SCALE].
    pub open spec fn wf(&self) -> bool {
        &&& forall|i: int|
            0 <= i < self.cells@.len() ==> (#[trigger] self.cells@[i])@.len() == self.cells@.len()
        &&& forall|i: int, j: int|
            0 <= i < self.cells@.len() && 0 <= j < self.cells@.len() ==> 0 <= #[trigger] self.cells@[i]@[j] <= SCALE
    }

    pub open spec fn at(&self, i: int, j: int) -> i64 {
        self.cells@[i]@[j]
    }
}

/// A square matrix of corrected p-values: either a rescaled p-value that
/// passed the significance gate, or SCALE (the sentinel for "not
/// significant").
pub struct AdjustedPValueMatrix {
    pub cells: Vec<Vec<i64>>,
}

impl AdjustedPValueMatrix {
    pub open spec fn n(&self) -> nat {
        self.cells@.len()
    }

    /// Square, with every entry a probability in [0, SCALE].
    pub open spec fn wf(&self) -> bool {
        &&& forall|i: int|
            0 <= i < self.cells@.len() ==> (#[trigger] self.cells@[i])@.len() == self.cells@.len()
        &&& forall|i: int, j: int|
            0 <= i < self.cells@.len() && 0 <= j < self.cells@.len() ==> 0 <= #[trigger] self.cells@[i]@[j] <= SCALE
    }

    pub open spec fn at(&self, i: int, j: int) -> i64 {
        self.cells@[i]@[j]
    }
}

/// A square matrix of retained correlations: an entry of exactly 0 means
/// "no edge"; a nonzero entry is a kept edge weight. After filtering the
/// diagonal is always 0.
pub struct FilteredMatrix {
    pub cells: Vec<Vec<i64>>,
}

impl FilteredMatrix {
    pub open spec fn n(&self) -> nat {
        self.cells@.len()
    }

    /// The matrix is square.
    pub open spec fn wf(&self) -> bool {
        forall|i: int|
            0 <= i < self.cells@.len() ==> (#[trigger] self.cells@[i])@.len() == self.cells@.len()
    }

    pub open spec fn at(&self, i: int, j: int) -> i64 {
        self.cells@[i]@[j]
    }
}

} // verus!
