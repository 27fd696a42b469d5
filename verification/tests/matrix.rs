//! Validation and packing of binary matrices. Values are given as `f64`
//! bit patterns.

use configural::{BinaryMatrix, ConfiguralError};

fn bits(data: &[f64]) -> Vec<u64> {
    data.iter().map(|x| x.to_bits()).collect()
}

#[test]
fn positive_2x2_roundtrip() {
    let data = [0.0, 1.0, 1.0, 0.0];
    let m = BinaryMatrix::new(&bits(&data), 2, 2).expect("valid 2x2");
    assert_eq!(m.n_rows(), 2);
    assert_eq!(m.n_cols(), 2);
    // Row-major input: data[r*2+c]
    assert!(!m.get(0, 0)); // 0.0
    assert!(m.get(0, 1)); // 1.0
    assert!(m.get(1, 0)); // 1.0
    assert!(!m.get(1, 1)); // 0.0
}

#[test]
fn negative_zero_passes() {
    // -0.0 == 0.0 per IEEE 754.
    let data = [0.0, -0.0, 1.0, 0.0];
    let m = BinaryMatrix::new(&bits(&data), 2, 2);
    assert!(m.is_ok(), "expected Ok for -0.0 input, got {:?}", m.err());
}

#[test]
fn negative_value_2() {
    // Index 2 row-major -> row=1, col=0.
    let data = [0.0, 1.0, 2.0, 0.0];
    let err = BinaryMatrix::new(&bits(&data), 2, 2).unwrap_err();
    assert_eq!(
        err,
        ConfiguralError::NonBinaryValue {
            row: 1,
            col: 0,
            value: 2.0f64.to_bits()
        }
    );
}

#[test]
fn negative_value_nan() {
    let data = [0.0, f64::NAN, 1.0, 0.0];
    let err = BinaryMatrix::new(&bits(&data), 2, 2).unwrap_err();
    match err {
        ConfiguralError::NonBinaryValue { row, col, value } => {
            assert_eq!(row, 0);
            assert_eq!(col, 1);
            let v = f64::from_bits(value);
            assert!(v.is_nan(), "expected NaN, got {v}");
        }
        other => panic!("expected NonBinaryValue, got {other:?}"),
    }
}

#[test]
fn negative_value_infinity() {
    let data = [0.0, f64::INFINITY, 1.0, 0.0];
    let err = BinaryMatrix::new(&bits(&data), 2, 2).unwrap_err();
    assert_eq!(
        err,
        ConfiguralError::NonBinaryValue {
            row: 0,
            col: 1,
            value: f64::INFINITY.to_bits()
        }
    );
}

#[test]
fn negative_value_half() {
    let data = [0.0, 0.5, 1.0, 0.0];
    let err = BinaryMatrix::new(&bits(&data), 2, 2).unwrap_err();
    assert_eq!(
        err,
        ConfiguralError::NonBinaryValue {
            row: 0,
            col: 1,
            value: 0.5f64.to_bits()
        }
    );
}

#[test]
fn negative_vocabulary_too_large() {
    // V = n_rows; (65, 1) has n_rows = 65 > 64.
    let data = vec![0.0_f64; 65];
    let err = BinaryMatrix::new(&bits(&data), 65, 1).unwrap_err();
    assert_eq!(err, ConfiguralError::VocabularyTooLarge { got: 65, max: 64 });
}

#[test]
fn negative_empty_matrix() {
    let err = BinaryMatrix::new(&[], 0, 0).unwrap_err();
    assert_eq!(err, ConfiguralError::EmptyMatrix);
}

#[test]
fn negative_dimension_mismatch() {
    let data = [0.0, 1.0, 1.0];
    let err = BinaryMatrix::new(&bits(&data), 2, 2).unwrap_err();
    assert_eq!(err, ConfiguralError::DimensionMismatch { expected: 4, got: 3 });
}

#[test]
fn one_bits_pack_column_major() {
    // 2 x 3, row-major [1,0,1 / 0,1,1]: column c's word has bit r = entry (r, c).
    let data = [1.0, 0.0, 1.0, 0.0, 1.0, 1.0];
    let m = BinaryMatrix::new(&bits(&data), 2, 3).unwrap();
    assert_eq!(m.as_bits(), &[0b01u64, 0b10, 0b11][..]);
}

#[test]
fn first_non_binary_in_row_major_order_wins() {
    let data = [0.0, 1.0, 3.0, 0.25];
    let err = BinaryMatrix::new(&bits(&data), 2, 2).unwrap_err();
    assert_eq!(
        err,
        ConfiguralError::NonBinaryValue { row: 1, col: 0, value: 3.0f64.to_bits() }
    );
}

#[test]
fn vocabulary_checked_before_dimensions() {
    let data = vec![0.0_f64; 3];
    let err = BinaryMatrix::new(&bits(&data), 65, 2).unwrap_err();
    assert_eq!(err, ConfiguralError::VocabularyTooLarge { got: 65, max: 64 });
}

#[test]
fn zero_columns_is_empty() {
    let err = BinaryMatrix::new(&bits(&[1.0]), 1, 0).unwrap_err();
    assert_eq!(err, ConfiguralError::EmptyMatrix);
}
