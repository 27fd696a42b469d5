//! Antichain-level diagnostics: how necessary and how dispensable each
//! element is for a cell.

pub mod dispensability;
pub mod nd_quadrant;
pub mod necessity;
