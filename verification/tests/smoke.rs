//! Smoke test of the public API as a downstream crate sees it.

use configural::{BinaryMatrix, ConfiguralError};

fn bits(data: &[f64]) -> Vec<u64> {
    data.iter().map(|x| x.to_bits()).collect()
}

#[test]
fn public_api_smoke() {
    let m = BinaryMatrix::new(&bits(&[0.0, 1.0, 1.0, 0.0]), 2, 2).unwrap();
    assert_eq!(m.n_rows(), 2);
    assert_eq!(m.n_cols(), 2);
    assert_eq!(m.as_bits().len(), 2);
}

#[test]
fn public_api_error_visibility() {
    // ConfiguralError must be publicly importable and matchable.
    let err = BinaryMatrix::new(&bits(&[0.5]), 1, 1).unwrap_err();
    assert!(matches!(err, ConfiguralError::NonBinaryValue { .. }));
}
