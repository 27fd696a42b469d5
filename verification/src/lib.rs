//! Binary-matrix primitives and lattice search for configural psychometrics:
//! which combinations of observations are jointly sufficient for a target.

pub mod bitset;
pub mod error;
pub mod matrix;
pub mod satisfaction;
pub mod coverage;
pub mod lattice;
pub mod exhaustive;
pub mod cell_eval;
pub mod pairmi;
pub mod cell;
pub mod diagnostics;

pub use cell::{from_exhaustive, from_pairmi, Cell, CellSource};
pub use cell_eval::{evaluate_cell, CellOutput, CellRow, Criterion, Detail};
pub use coverage::{coverage, CoverageResult};
pub use error::ConfiguralError;
pub use exhaustive::{ascend, AscentResult, EmscStore};
pub use matrix::BinaryMatrix;
pub use pairmi::{DepthStats, PairMiCandidate, PairMiEngine, PairMiResultRow};
pub use satisfaction::satisfaction_matrix;
