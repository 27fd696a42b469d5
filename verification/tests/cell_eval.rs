//! Cell evaluation with greedy antichain reduction. The sufficiency gates
//! are floating-point tests on each configuration's counts; they are
//! computed here as the application layer computes them and handed to
//! `evaluate_cell` as flags.

use configural::{ascend, evaluate_cell, BinaryMatrix, CellOutput, CellRow, Criterion, Detail, EmscStore};

const Z_05: f64 = 1.959963984540054;

fn bits(data: &[f64]) -> Vec<u64> {
    data.iter().map(|x| x.to_bits()).collect()
}

fn wilson_lower(p: f64, n: f64, z: f64) -> f64 {
    assert!(n > 0.0);
    let denom = 1.0 + z * z / n;
    let center = p + z * z / (2.0 * n);
    let margin = z * libm::sqrt(p * (1.0 - p) / n + z * z / (4.0 * n * n));
    (center - margin) / denom
}

/// One flag per configuration: is it sufficient for target `k`?
fn gate(store: &EmscStore, k: usize, theta: f64, criterion: Criterion, z: f64) -> Vec<bool> {
    let nt = store.n_targets as usize;
    (0..store.cfg_mask.len())
        .map(|g| {
            let nn = store.cfg_supp[g] as f64;
            let y1 = store.cfg_y1[g * nt + k] as f64;
            match criterion {
                Criterion::Wilson => {
                    if nn / (nn + z * z) < theta {
                        return false;
                    }
                    wilson_lower(y1 / nn, nn, z) >= theta
                }
                Criterion::Point => y1 + f64::EPSILON * nn >= theta * nn,
            }
        })
        .collect()
}

fn eval(store: &EmscStore, k: usize, theta: f64, criterion: Criterion, detail: Detail) -> CellOutput {
    evaluate_cell(store, k, &gate(store, k, theta, criterion, Z_05), detail)
}

fn cprob(row: &CellRow) -> f64 {
    row.n_set_y1 as f64 / row.n_set as f64
}

fn evaluable(n_rows: usize) -> Vec<Vec<bool>> {
    let z2 = Z_05 * Z_05;
    vec![(0..=n_rows).map(|n| n as f64 / (n as f64 + z2) >= 0.3).collect()]
}

/// 4 vars x 4 obs. Observation words: obs0 = 0b0011, obs1 = 0b0101,
/// obs2 = 0b0110, obs3 = 0b1000.
fn test_matrix_4x4() -> BinaryMatrix {
    let data = [
        1.0, 1.0, 0.0, 0.0, // var 0
        1.0, 0.0, 1.0, 0.0, // var 1
        0.0, 1.0, 1.0, 0.0, // var 2
        0.0, 0.0, 0.0, 1.0, // var 3
    ];
    BinaryMatrix::new(&bits(&data), 4, 4).unwrap()
}

/// Store of the 4x4 matrix, target [1,1,0,0], n_min 1, depth <= 3:
/// 4 depth-1 configurations and 3 depth-2 ones.
fn build_store(excludes: &[Option<Vec<u32>>]) -> EmscStore {
    let m = test_matrix_4x4();
    let targets = vec![vec![1, 1, 0, 0]];
    ascend(&m, &targets, &evaluable(4), 1, 3, 1000, excludes).store
}

#[test]
fn wilson_gate_prefilter_passes_but_wilson_fails() {
    // obs 1: supp 2 passes the pre-filter (0.342 >= 0.3), wilson ~0.0945 fails.
    let store = build_store(&[None]);
    let out = eval(&store, 0, 0.3, Criterion::Wilson, Detail::Full);
    assert_eq!(out.n_sufficient, 1, "only obs 0 should pass Wilson gate");

    assert_eq!(out.rows.len(), 1);
    assert_eq!(out.rows[0].set_idx, vec![0]);
    assert_eq!(out.rows[0].n_set, 2);
    assert_eq!(out.rows[0].n_set_y1, 2);
    assert!((cprob(&out.rows[0]) - 1.0).abs() < 1e-15);
    assert!(out.rows[0].minimal);
}

#[test]
fn wilson_gate_wilson_lower_value_correct() {
    let store = build_store(&[None]);
    let out = eval(&store, 0, 0.3, Criterion::Wilson, Detail::Full);
    let row = &out.rows[0];
    let expected_w = wilson_lower(1.0, 2.0, Z_05);
    let got = wilson_lower(cprob(row), row.n_set as f64, Z_05);
    assert!((got - expected_w).abs() < 1e-15, "got {}, expected {}", got, expected_w);
}

#[test]
fn point_gate_epsilon_boundary() {
    // theta = 1.0: only p = 1.0 passes: obs 0, {0,1}, {0,2}.
    let store = build_store(&[None]);
    let out = eval(&store, 0, 1.0, Criterion::Point, Detail::Full);
    assert_eq!(out.n_sufficient, 3, "obs 0 + 2 depth-2 configs with y1=supp");
    for row in &out.rows {
        assert!(
            (cprob(row) - 1.0).abs() < 1e-15,
            "point gate with theta=1.0 should only pass p=1.0, got p={}",
            cprob(row)
        );
    }
}

#[test]
fn point_gate_computes_wilson_but_does_not_gate() {
    let store = build_store(&[None]);
    let out = eval(&store, 0, 0.0, Criterion::Point, Detail::Full);
    assert_eq!(out.n_sufficient, 7);
    for row in &out.rows {
        let w = wilson_lower(cprob(row), row.n_set as f64, Z_05);
        assert!(w.is_finite(), "wilson_lower should be finite");
        assert!(w >= 0.0, "wilson_lower should be non-negative");
    }
}

#[test]
fn greedy_antichain_superset_not_minimal() {
    // Depth-1 configs are minimal; each depth-2 config contains one of them.
    let store = build_store(&[None]);
    let out = eval(&store, 0, 0.0, Criterion::Point, Detail::Full);

    let minimal_count = out.rows.iter().filter(|r| r.minimal).count();
    let non_minimal_count = out.rows.iter().filter(|r| !r.minimal).count();
    assert_eq!(minimal_count, 4, "4 depth-1 configs should be minimal");
    assert_eq!(non_minimal_count, 3, "3 depth-2 configs should be non-minimal");

    for row in &out.rows {
        if row.cardinality == 2 {
            assert!(
                !row.minimal,
                "depth-2 config {:?} should be non-minimal (superset of depth-1)",
                row.set_idx
            );
        }
    }
}

#[test]
fn greedy_antichain_subset_test_correct() {
    let store = build_store(&[None]);
    let out = eval(&store, 0, 0.0, Criterion::Point, Detail::Full);

    let row_01 = out.rows.iter().find(|r| r.set_idx == vec![0, 1]).unwrap();
    assert!(!row_01.minimal, "{{0,1}} should be non-minimal");

    let row_12 = out.rows.iter().find(|r| r.set_idx == vec![1, 2]).unwrap();
    assert!(!row_12.minimal, "{{1,2}} should be non-minimal");
}

#[test]
fn n_sufficient_counts_all_not_just_minimal() {
    let store = build_store(&[None]);
    let out = eval(&store, 0, 0.0, Criterion::Point, Detail::Full);
    assert_eq!(out.n_sufficient, 7, "n_sufficient should count ALL sufficient");
    assert_eq!(out.rows.len(), 7);
}

#[test]
fn n_sufficient_independent_of_detail_mode() {
    let store = build_store(&[None]);
    let out_full = eval(&store, 0, 0.0, Criterion::Point, Detail::Full);
    let out_count = eval(&store, 0, 0.0, Criterion::Point, Detail::Count);
    assert_eq!(
        out_full.n_sufficient, out_count.n_sufficient,
        "n_sufficient should be identical regardless of detail mode"
    );
    assert_eq!(out_full.rows.len(), 7);
    assert_eq!(out_count.rows.len(), 4, "Count mode should emit only minimal");
}

#[test]
fn detail_full_emits_all_sufficient() {
    let store = build_store(&[None]);
    let out = eval(&store, 0, 0.0, Criterion::Point, Detail::Full);
    assert_eq!(out.rows.len(), 7);
    assert!(out.rows.iter().any(|r| r.minimal), "should have minimal rows");
    assert!(out.rows.iter().any(|r| !r.minimal), "should have non-minimal rows");
}

#[test]
fn detail_count_emits_only_minimal() {
    let store = build_store(&[None]);
    let out = eval(&store, 0, 0.0, Criterion::Point, Detail::Count);
    assert_eq!(out.rows.len(), 4);
    for row in &out.rows {
        assert!(row.minimal, "Count mode should only emit minimal rows, got {:?}", row.set_idx);
    }
}

#[test]
fn detail_count_n_sufficient_still_counts_all() {
    let store = build_store(&[None]);
    let out = eval(&store, 0, 0.0, Criterion::Point, Detail::Count);
    assert_eq!(out.rows.len(), 4, "Count mode emits 4 minimal");
    assert_eq!(out.n_sufficient, 7, "but n_sufficient counts all 7");
}

#[test]
fn exclusion_mask_excludes_sharing_bits() {
    // Excluding observation 0 removes masks 1, 3, 5.
    let store = build_store(&[Some(vec![0])]);
    let out = eval(&store, 0, 0.0, Criterion::Point, Detail::Full);
    assert_eq!(out.n_sufficient, 4, "3 configs with bit 0 should be excluded");
    for row in &out.rows {
        assert!(!row.set_idx.contains(&0), "obs 0 should be excluded, but found in {:?}", row.set_idx);
    }
}

#[test]
fn exclusion_mask_multiple_bits() {
    // Excluding 0 and 2 leaves masks 2 and 8.
    let store = build_store(&[Some(vec![0, 2])]);
    let out = eval(&store, 0, 0.0, Criterion::Point, Detail::Full);
    assert_eq!(out.n_sufficient, 2, "5 configs with bits 0 or 2 should be excluded");
    let mut all_indices: Vec<u32> = out.rows.iter().flat_map(|r| r.set_idx.iter().copied()).collect();
    all_indices.sort();
    all_indices.dedup();
    assert_eq!(all_indices, vec![1, 3], "only obs 1 and 3 should remain");
}

#[test]
fn exclusion_mask_none_excludes_nothing() {
    let store = build_store(&[None]);
    let out = eval(&store, 0, 0.0, Criterion::Point, Detail::Full);
    assert_eq!(out.n_sufficient, 7, "no exclusion -> all 7 configs sufficient");
}

#[test]
fn set_idx_zero_based_ascending() {
    let store = build_store(&[None]);
    let out = eval(&store, 0, 0.0, Criterion::Point, Detail::Full);
    for row in &out.rows {
        for w in row.set_idx.windows(2) {
            assert!(w[0] < w[1], "set_idx should be ascending, got {:?}", row.set_idx);
        }
        for &idx in &row.set_idx {
            assert!(idx < 4, "set_idx should be 0-based, got {}", idx);
        }
    }
}

#[test]
fn cell_row_fields_correct() {
    let store = build_store(&[None]);
    let out = eval(&store, 0, 0.0, Criterion::Point, Detail::Full);
    let row = out.rows.iter().find(|r| r.set_idx == vec![0]).unwrap();
    assert_eq!(row.cardinality, 1);
    assert_eq!(row.n_set, 2, "obs 0 has supp=2");
    assert_eq!(row.n_set_y1, 2, "obs 0 y1=2 (target=[1,1,0,0], obs 0=[1,1,0,0])");
    assert!((cprob(row) - 1.0).abs() < 1e-15, "p = 2/2 = 1.0");
    assert!(row.minimal, "depth-1 config should be minimal");
}

#[test]
fn wilson_gate_stricter_than_point() {
    let store = build_store(&[None]);
    let out_wilson = eval(&store, 0, 0.3, Criterion::Wilson, Detail::Full);
    let out_point = eval(&store, 0, 0.3, Criterion::Point, Detail::Full);
    assert!(
        out_wilson.n_sufficient < out_point.n_sufficient,
        "Wilson gate should be stricter: Wilson={} vs Point={}",
        out_wilson.n_sufficient,
        out_point.n_sufficient
    );
    assert_eq!(out_wilson.n_sufficient, 1, "Wilson: only obs 0");
    assert_eq!(out_point.n_sufficient, 5, "Point: obs 0,1,2 + {{0,1}},{{0,2}}");
}

fn store_of(cfg_mask: Vec<u64>, cfg_supp: Vec<u32>, cfg_y1: Vec<u32>, depth_end: Vec<u32>) -> EmscStore {
    EmscStore { cfg_mask, cfg_supp, cfg_y1, depth_end, excl_mask: vec![0], n_targets: 1 }
}

#[test]
fn empty_store_returns_empty() {
    let store = store_of(vec![], vec![], vec![], vec![]);
    let out = eval(&store, 0, 0.3, Criterion::Wilson, Detail::Full);
    assert_eq!(out.n_sufficient, 0);
    assert!(out.rows.is_empty());
}

#[test]
fn equal_cardinality_disjoint_both_minimal() {
    let store = store_of(vec![0b0011, 0b1100], vec![2, 2], vec![2, 2], vec![2]);
    let out = eval(&store, 0, 0.0, Criterion::Point, Detail::Full);
    assert_eq!(out.n_sufficient, 2, "both configs should be sufficient");
    assert_eq!(out.rows.len(), 2, "both should be emitted in Full mode");
    for row in &out.rows {
        assert!(row.minimal, "disjoint equal-cardinality config {:?} should be minimal", row.set_idx);
    }
}

#[test]
fn equal_cardinality_duplicate_later_non_minimal() {
    let store = store_of(vec![0b0011, 0b0011], vec![2, 2], vec![2, 2], vec![2]);
    let out = eval(&store, 0, 0.0, Criterion::Point, Detail::Full);
    assert_eq!(out.n_sufficient, 2, "both configs should be sufficient");
    assert_eq!(out.rows.len(), 2, "both should be emitted in Full mode");
    assert!(out.rows[0].minimal, "first duplicate config should be minimal");
    assert!(!out.rows[1].minimal, "second duplicate config should be non-minimal (subset of first)");
}

#[test]
fn multi_target_y1_indexing_differs_by_target() {
    let m = test_matrix_4x4();
    let targets = vec![vec![1, 1, 0, 0], vec![0, 0, 1, 1]];
    let store = ascend(&m, &targets, &evaluable(4), 1, 3, 1000, &[None, None]).store;
    assert_eq!(store.n_targets, 2, "store should have 2 targets");

    let out0 = eval(&store, 0, 0.0, Criterion::Point, Detail::Full);
    let out1 = eval(&store, 1, 0.0, Criterion::Point, Detail::Full);
    let row0 = out0.rows.iter().find(|r| r.set_idx == vec![0]).expect("obs 0 should be in target 0 output");
    let row1 = out1.rows.iter().find(|r| r.set_idx == vec![0]).expect("obs 0 should be in target 1 output");
    assert_eq!(row0.n_set, row1.n_set, "n_set should be target-independent");
    assert_eq!(row0.n_set_y1, 2, "obs 0 y1 for target 0 (obs 0,1) should be 2");
    assert_eq!(row1.n_set_y1, 0, "obs 0 y1 for target 1 (obs 2,3) should be 0");
    assert_ne!(row0.n_set_y1, row1.n_set_y1);
}

#[test]
fn larger_subset_later_does_not_block_smaller_one() {
    // A card-2 mask accepted first does not block a later card-1 subset
    // (its cardinality is larger), so both are minimal.
    let store = store_of(vec![0b011, 0b001], vec![1, 1], vec![1, 1], vec![2]);
    let out = evaluate_cell(&store, 0, &[true, true], Detail::Full);
    assert!(out.rows[0].minimal);
    assert!(out.rows[1].minimal);
}

#[test]
fn count_rows_are_the_minimal_full_rows() {
    let store = build_store(&[None]);
    let flags = gate(&store, 0, 0.0, Criterion::Point, Z_05);
    let full = evaluate_cell(&store, 0, &flags, Detail::Full);
    let count = evaluate_cell(&store, 0, &flags, Detail::Count);
    let full_min: Vec<Vec<u32>> = full.rows.iter().filter(|r| r.minimal).map(|r| r.set_idx.clone()).collect();
    let count_sets: Vec<Vec<u32>> = count.rows.iter().map(|r| r.set_idx.clone()).collect();
    assert_eq!(full_min, count_sets);
    assert_eq!(full.rows.len() as i64, full.n_sufficient);
}

#[test]
fn target_past_exclusion_masks_has_no_exclusion() {
    let store = EmscStore {
        cfg_mask: vec![1, 2],
        cfg_supp: vec![1, 1],
        cfg_y1: vec![1, 0, 0, 1],
        depth_end: vec![2],
        excl_mask: vec![1],
        n_targets: 2,
    };
    let out0 = evaluate_cell(&store, 0, &[true, true], Detail::Full);
    let out1 = evaluate_cell(&store, 1, &[true, true], Detail::Full);
    assert_eq!(out0.n_sufficient, 1);
    assert_eq!(out1.n_sufficient, 2);
    assert_eq!(out1.rows[1].n_set_y1, 1);
}
