//! One cell representation for both engines. `cprob` and the Wilson
//! lower bound are derived from `(n_set, n_set_y1)` here, as the
//! application layer derives them.

use configural::{
    ascend, evaluate_cell, from_exhaustive, from_pairmi, BinaryMatrix, CellOutput, CellRow, CellSource, Detail,
    EmscStore, PairMiEngine,
};

const Z_05: f64 = 1.959963984540054;

fn bits(data: &[f64]) -> Vec<u64> {
    data.iter().map(|x| x.to_bits()).collect()
}

fn wilson_lower(p: f64, n: f64, z: f64) -> f64 {
    let denom = 1.0 + z * z / n;
    let center = p + z * z / (2.0 * n);
    let margin = z * libm::sqrt(p * (1.0 - p) / n + z * z / (4.0 * n * n));
    (center - margin) / denom
}

fn cprob(n_set: u32, y1: u32) -> f64 {
    if n_set > 0 {
        y1 as f64 / n_set as f64
    } else {
        0.0
    }
}

fn wilson(n_set: u32, y1: u32) -> f64 {
    if n_set > 0 {
        wilson_lower(cprob(n_set, y1), n_set as f64, Z_05)
    } else {
        0.0
    }
}

fn safe_term(n_cell: f64, m1: f64, m2: f64, n: f64) -> f64 {
    if n_cell > 0.0 && m1 > 0.0 && m2 > 0.0 && n > 0.0 {
        (n_cell / n) * libm::log((n_cell * n) / (m1 * m2))
    } else {
        0.0
    }
}

fn mi_2x2(n11: f64, nx1: f64, nx2: f64, n: f64) -> f64 {
    safe_term(n11, nx1, nx2, n)
        + safe_term(nx1 - n11, nx1, n - nx2, n)
        + safe_term(nx2 - n11, n - nx1, nx2, n)
        + safe_term(n - nx1 - nx2 + n11, n - nx1, n - nx2, n)
}

/// One depth at significance level 0.05 (G-test).
fn depth_alpha05(engine: &mut PairMiEngine, depth: u32, n: usize) {
    let n = n as f64;
    let keep: Vec<bool> = engine
        .candidates(depth)
        .iter()
        .map(|c| {
            let mi = mi_2x2(c.n11 as f64, c.pop_var as f64, c.pop_parent as f64, n);
            let n11 = c.n11 as f64;
            let g = 2.0 * n11.min(n - n11) * mi;
            let p = if g <= 0.0 { 1.0 } else { libm::erfc(libm::sqrt(g / 2.0)) };
            p < 0.05
        })
        .collect();
    engine.depth(depth, &keep);
}

fn test_matrix_4x4() -> BinaryMatrix {
    let data = [
        1.0, 1.0, 0.0, 0.0, // var 0
        1.0, 0.0, 1.0, 0.0, // var 1
        0.0, 1.0, 1.0, 0.0, // var 2
        0.0, 0.0, 0.0, 1.0, // var 3
    ];
    BinaryMatrix::new(&bits(&data), 4, 4).unwrap()
}

fn store_4x4() -> EmscStore {
    let m = test_matrix_4x4();
    let ev = vec![(0..=4).map(|n| n as f64 / (n as f64 + Z_05 * Z_05) >= 0.3).collect()];
    ascend(&m, &[vec![1, 1, 0, 0]], &ev, 1, 3, 1000, &[None]).store
}

/// Point gate at theta 0: every configuration passes, Full detail.
fn all_sufficient(store: &EmscStore) -> CellOutput {
    evaluate_cell(store, 0, &vec![true; store.cfg_mask.len()], Detail::Full)
}

fn identical_matrix_3x10() -> BinaryMatrix {
    let row: [f64; 10] = [1.0, 1.0, 1.0, 1.0, 1.0, 0.0, 0.0, 0.0, 0.0, 0.0];
    let data: Vec<f64> = [row, row, row].into_iter().flatten().collect();
    BinaryMatrix::new(&bits(&data), 3, 10).unwrap()
}

#[test]
fn from_exhaustive_filters_minimal_only() {
    let store = store_4x4();
    let out = all_sufficient(&store);
    assert_eq!(out.rows.len(), 7, "Full mode emits all 7");
    let minimal_count = out.rows.iter().filter(|r| r.minimal).count();
    assert_eq!(minimal_count, 4, "4 minimal rows");

    let cell = from_exhaustive(&out, CellSource::Exhaustive);
    assert_eq!(cell.members.len(), 4, "from_exhaustive should filter to minimal");
    assert_eq!(cell.n_set.len(), 4);
    assert_eq!(cell.n_set_y1.len(), 4);
}

#[test]
fn from_exhaustive_preserves_zero_based_set_idx() {
    let store = store_4x4();
    let out = all_sufficient(&store);
    let cell = from_exhaustive(&out, CellSource::Exhaustive);
    for members in &cell.members {
        for &idx in members {
            assert!(idx < 4, "set_idx should be 0-based, got {idx}");
        }
        for w in members.windows(2) {
            assert!(w[0] < w[1], "members should be ascending: {members:?}");
        }
    }
}

#[test]
fn from_exhaustive_copies_stats_correctly() {
    let store = store_4x4();
    let out = all_sufficient(&store);
    let minimal_rows: Vec<_> = out.rows.iter().filter(|r| r.minimal).collect();
    let cell = from_exhaustive(&out, CellSource::Exhaustive);
    for (i, row) in minimal_rows.iter().enumerate() {
        assert_eq!(cell.members[i], row.set_idx, "members should match");
        assert_eq!(cell.n_set[i], row.n_set, "n_set should match");
        assert_eq!(cell.n_set_y1[i], row.n_set_y1, "n_set_y1 should match");
        assert!((cprob(cell.n_set[i], cell.n_set_y1[i]) - cprob(row.n_set, row.n_set_y1)).abs() < 1e-15);
    }
}

#[test]
fn from_pairmi_converts_1_based_to_0_based() {
    let m = identical_matrix_3x10();
    let mut engine = PairMiEngine::create(&m).unwrap();
    depth_alpha05(&mut engine, 2, 10);
    let target = vec![1u8, 1, 1, 1, 1, 0, 0, 0, 0, 0];
    let cell = from_pairmi(&engine, &target, CellSource::MiRestricted);

    assert_eq!(cell.members.len(), 3, "3 pairs retained");
    for members in &cell.members {
        for &idx in members {
            assert!(idx < 3, "members should be 0-based, got {idx}");
        }
    }
    let mut sorted_members: Vec<_> = cell.members.clone();
    sorted_members.sort();
    assert_eq!(sorted_members, vec![vec![0, 1], vec![0, 2], vec![1, 2]]);
}

#[test]
fn from_pairmi_computes_n_set_y1_from_indicators_and_target() {
    let m = identical_matrix_3x10();
    let mut engine = PairMiEngine::create(&m).unwrap();
    depth_alpha05(&mut engine, 2, 10);
    let target = vec![1u8, 1, 1, 1, 1, 0, 0, 0, 0, 0];
    let cell = from_pairmi(&engine, &target, CellSource::MiRestricted);
    for i in 0..3 {
        assert_eq!(cell.n_set[i], 5, "n_set should be 5 (pop of conjunction)");
        assert_eq!(cell.n_set_y1[i], 5, "n_set_y1 should be 5");
        assert!((cprob(cell.n_set[i], cell.n_set_y1[i]) - 1.0).abs() < 1e-15, "cprob should be 1.0 (5/5)");
    }
}

#[test]
fn from_pairmi_n_set_y1_with_partial_target_overlap() {
    let m = identical_matrix_3x10();
    let mut engine = PairMiEngine::create(&m).unwrap();
    depth_alpha05(&mut engine, 2, 10);
    let target = vec![1u8, 1, 1, 0, 0, 0, 0, 0, 0, 0];
    let cell = from_pairmi(&engine, &target, CellSource::MiRestricted);
    for i in 0..3 {
        assert_eq!(cell.n_set[i], 5, "n_set = 5");
        assert_eq!(cell.n_set_y1[i], 3, "n_set_y1 = 3 (partial overlap)");
        assert!((cprob(cell.n_set[i], cell.n_set_y1[i]) - 3.0 / 5.0).abs() < 1e-15);
    }
}

#[test]
fn from_pairmi_n_set_y1_zero_target() {
    let m = identical_matrix_3x10();
    let mut engine = PairMiEngine::create(&m).unwrap();
    depth_alpha05(&mut engine, 2, 10);
    let target = vec![0u8; 10];
    let cell = from_pairmi(&engine, &target, CellSource::MiRestricted);
    for i in 0..3 {
        assert_eq!(cell.n_set_y1[i], 0, "y1 should be 0 with all-zero target");
        assert_eq!(cprob(cell.n_set[i], cell.n_set_y1[i]), 0.0, "cprob should be 0.0");
    }
}

#[test]
fn from_exhaustive_empty_output_no_panic() {
    let empty_output = CellOutput { rows: vec![], n_sufficient: 0 };
    let cell = from_exhaustive(&empty_output, CellSource::Exhaustive);
    assert!(cell.members.is_empty());
    assert!(cell.n_set.is_empty());
    assert!(cell.n_set_y1.is_empty());
}

#[test]
fn from_pairmi_empty_engine_no_panic() {
    let m = identical_matrix_3x10();
    let engine = PairMiEngine::create(&m).unwrap();
    let cell = from_pairmi(&engine, &vec![1u8; 10], CellSource::MiRestricted);
    assert!(cell.members.is_empty());
    assert!(cell.n_set.is_empty());
    assert!(cell.n_set_y1.is_empty());
}

#[test]
fn from_pairmi_no_significant_sets_no_panic() {
    let data = [
        1.0, 0.0, 1.0, 0.0, 1.0, 0.0, 1.0, 0.0, 1.0, 0.0, 0.0, 1.0, 0.0, 1.0, 0.0, 1.0, 0.0, 1.0, 0.0, 1.0,
    ];
    let m = BinaryMatrix::new(&bits(&data), 2, 10).unwrap();
    let mut engine = PairMiEngine::create(&m).unwrap();
    depth_alpha05(&mut engine, 2, 10);
    let cell = from_pairmi(&engine, &vec![1u8; 10], CellSource::MiRestricted);
    assert!(cell.members.is_empty(), "no significant pairs -> empty cell");
}

#[test]
fn cross_engine_parity_identical_stats() {
    let m = identical_matrix_3x10();
    let mut engine = PairMiEngine::create(&m).unwrap();
    depth_alpha05(&mut engine, 2, 10);
    let target = vec![1u8, 1, 1, 1, 1, 0, 0, 0, 0, 0];
    let cell_pairmi = from_pairmi(&engine, &target, CellSource::MiRestricted);

    let synthetic_rows: Vec<CellRow> = (0..cell_pairmi.members.len())
        .map(|i| CellRow {
            cardinality: cell_pairmi.members[i].len() as u32,
            set_idx: cell_pairmi.members[i].clone(),
            n_set: cell_pairmi.n_set[i],
            n_set_y1: cell_pairmi.n_set_y1[i],
            minimal: true,
        })
        .collect();
    let synthetic_output = CellOutput { rows: synthetic_rows, n_sufficient: cell_pairmi.members.len() as i64 };
    let cell_exhaustive = from_exhaustive(&synthetic_output, CellSource::Exhaustive);

    for i in 0..cell_pairmi.members.len() {
        assert_eq!(cell_pairmi.n_set[i], cell_exhaustive.n_set[i], "n_set should match");
        assert_eq!(cell_pairmi.n_set_y1[i], cell_exhaustive.n_set_y1[i], "n_set_y1 should match");
        let (a, b) = (
            wilson(cell_pairmi.n_set[i], cell_pairmi.n_set_y1[i]),
            wilson(cell_exhaustive.n_set[i], cell_exhaustive.n_set_y1[i]),
        );
        assert!((a - b).abs() < 1e-15, "wilson_lower parity: pairmi={} vs exhaustive={}", a, b);
    }
}

#[test]
fn from_exhaustive_vector_length_consistency() {
    let store = store_4x4();
    let out = all_sufficient(&store);
    let cell = from_exhaustive(&out, CellSource::Exhaustive);
    let n = cell.members.len();
    assert_eq!(cell.n_set.len(), n, "n_set length should match members");
    assert_eq!(cell.n_set_y1.len(), n, "n_set_y1 length should match members");
}

#[test]
fn from_pairmi_vector_length_consistency() {
    let m = identical_matrix_3x10();
    let mut engine = PairMiEngine::create(&m).unwrap();
    depth_alpha05(&mut engine, 2, 10);
    depth_alpha05(&mut engine, 3, 10);
    let target = vec![1u8, 1, 1, 1, 1, 0, 0, 0, 0, 0];
    let cell = from_pairmi(&engine, &target, CellSource::MiRestricted);
    let n = cell.members.len();
    assert!(n > 0, "should have retained sets");
    assert_eq!(cell.n_set.len(), n, "n_set length should match members");
    assert_eq!(cell.n_set_y1.len(), n, "n_set_y1 length should match members");
}

#[test]
fn cell_source_enum_variants() {
    assert_eq!(CellSource::Exhaustive, CellSource::Exhaustive);
    assert_eq!(CellSource::MiRestricted, CellSource::MiRestricted);
    assert_ne!(CellSource::Exhaustive, CellSource::MiRestricted);
}

#[test]
fn from_exhaustive_meta_propagated() {
    let empty_output = CellOutput { rows: vec![], n_sufficient: 0 };
    let cell = from_exhaustive(&empty_output, CellSource::Exhaustive);
    assert_eq!(cell.source, CellSource::Exhaustive);
}

#[test]
fn from_pairmi_meta_propagated() {
    let m = identical_matrix_3x10();
    let engine = PairMiEngine::create(&m).unwrap();
    let cell = from_pairmi(&engine, &vec![1u8; 10], CellSource::MiRestricted);
    assert_eq!(cell.source, CellSource::MiRestricted);
}

#[test]
fn from_pairmi_short_target_counts_its_prefix() {
    let m = identical_matrix_3x10();
    let mut engine = PairMiEngine::create(&m).unwrap();
    engine.depth(2, &[true, false, false]);
    let cell = from_pairmi(&engine, &[1u8, 1, 0, 1], CellSource::MiRestricted);
    assert_eq!(cell.members, vec![vec![0, 1]]);
    assert_eq!(cell.n_set, vec![5]);
    assert_eq!(cell.n_set_y1, vec![3]);
}
