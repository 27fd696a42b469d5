//! Error type for binary-matrix validation.

use vstd::prelude::*;

verus! {

/// Every way that building a [`BinaryMatrix`](crate::matrix::BinaryMatrix)
/// can fail. The input is a flat row-major sequence plus `(n_rows, n_cols)`,
/// so `DimensionMismatch` is the only structural error.
#[derive(Debug, Clone, PartialEq, Eq, Structural)]
pub enum ConfiguralError {
    /// A value is neither `0.0` (either sign) nor `1.0`. `row` and `col` are
    /// the 0-based coordinates of the first such value in row-major order;
    /// `value` is its IEEE-754 bit pattern (`f64::to_bits`).
    NonBinaryValue { row: usize, col: usize, value: u64 },
    /// The number of rows (the vocabulary, V) exceeds 64.
    VocabularyTooLarge { got: usize, max: usize },
    /// The matrix has zero rows or zero columns.
    EmptyMatrix,
    /// The data length is not `n_rows * n_cols`; `expected` saturates at
    /// `usize::MAX` when the product does not fit.
    DimensionMismatch { expected: usize, got: usize },
}

} // verus!
