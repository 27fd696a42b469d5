//! Exhaustive lattice ascent. The evaluability gate `n / (n + z^2) >= theta`
//! is tabulated per support here, as the application layer does.

use configural::{ascend, AscentResult, BinaryMatrix};

/// `z_score(0.05)`, the two-sided 95% normal quantile.
const Z_05: f64 = 1.959963984540054;

fn bits(data: &[f64]) -> Vec<u64> {
    data.iter().map(|x| x.to_bits()).collect()
}

fn evaluable(thetas: &[f64], z: f64, n_rows: usize) -> Vec<Vec<bool>> {
    let z2 = z * z;
    thetas
        .iter()
        .map(|&theta| {
            (0..=n_rows)
                .map(|n| {
                    let n = n as f64;
                    n / (n + z2) >= theta
                })
                .collect()
        })
        .collect()
}

fn limit(max_admissible: f64) -> i64 {
    if max_admissible.is_nan() || max_admissible >= 9.0e18 {
        i64::MAX
    } else if max_admissible < 0.0 {
        -1
    } else {
        max_admissible.floor() as i64
    }
}

/// 4 vars x 4 obs. Observation words: obs0 = 0b0011, obs1 = 0b0101,
/// obs2 = 0b0110, obs3 = 0b1000.
fn test_matrix_4x4() -> BinaryMatrix {
    let data = [
        1.0, 1.0, 0.0, 0.0, // var 0
        1.0, 0.0, 1.0, 0.0, // var 1
        0.0, 1.0, 1.0, 0.0, // var 2
        0.0, 0.0, 0.0, 1.0, // var 3
    ];
    BinaryMatrix::new(&bits(&data), 4, 4).unwrap()
}

/// 2 vars x 5 obs; obs 0..4 have both variables, obs 4 neither.
fn test_matrix_2x5() -> BinaryMatrix {
    let data = [
        1.0, 1.0, 1.0, 1.0, 0.0, // var 0
        1.0, 1.0, 1.0, 1.0, 0.0, // var 1
    ];
    BinaryMatrix::new(&bits(&data), 2, 5).unwrap()
}

fn run_ascend(n_min: u32, max_adm: f64) -> AscentResult {
    let m = test_matrix_4x4();
    let targets = vec![vec![1, 1, 0, 0]];
    let ev = evaluable(&[0.3], Z_05, m.n_rows());
    ascend(&m, &targets, &ev, n_min, 3, limit(max_adm), &[None])
}

#[test]
fn depth1_all_admissible_with_n_min_1() {
    let result = run_ascend(1, 1000.0);
    assert_eq!(result.admissibility[0], 4);
    assert_eq!(result.store.depth_end[0], 4);
}

#[test]
fn depth1_prunes_low_support_with_n_min_2() {
    let result = run_ascend(2, 1000.0);
    // Obs 3 has popcount 1 < 2.
    assert_eq!(result.admissibility[0], 3);
}

#[test]
fn depth2_ordered_extension_count() {
    let result = run_ascend(1, 1000.0);
    // (0,1), (0,2), (1,2) have support 1; pairs with obs 3 have support 0.
    assert_eq!(result.admissibility[1], 3);
    assert_eq!(result.store.depth_end[1], 7);
}

#[test]
fn depth2_cfg_mask_values() {
    let result = run_ascend(1, 1000.0);
    let masks = &result.store.cfg_mask;
    assert_eq!(masks[0], 1);
    assert_eq!(masks[1], 2);
    assert_eq!(masks[2], 4);
    assert_eq!(masks[3], 8);
    assert_eq!(masks[4], 3);
    assert_eq!(masks[5], 5);
    assert_eq!(masks[6], 6);
}

#[test]
fn downward_closure_skips_zero_support() {
    let result = run_ascend(1, 1000.0);
    assert_eq!(result.admissibility[1], 3);
}

#[test]
fn depth3_no_admissible_triples() {
    let result = run_ascend(1, 1000.0);
    assert_eq!(result.admissibility[2], 0);
}

#[test]
fn y1_streaming_depth1() {
    let result = run_ascend(1, 1000.0);
    let store = &result.store;
    assert_eq!(store.cfg_y1[0], 2);
    assert_eq!(store.cfg_y1[1], 1);
    assert_eq!(store.cfg_y1[2], 1);
    assert_eq!(store.cfg_y1[3], 0);
}

#[test]
fn y1_streaming_depth2() {
    let result = run_ascend(1, 1000.0);
    let store = &result.store;
    assert_eq!(store.cfg_y1[4], 1);
    assert_eq!(store.cfg_y1[5], 1);
    assert_eq!(store.cfg_y1[6], 0);
}

#[test]
fn evaluability_uses_z_squared() {
    let result = run_ascend(1, 1000.0);
    // supp 2: 2/(2+3.84) ~ 0.342 >= 0.3; supp 1: ~0.206 < 0.3.
    assert_eq!(result.evaluability[0][0], 3);
    assert_eq!(result.evaluability[0][1], 0);
}

#[test]
fn early_stop_truncates_to_last_completed_depth() {
    // d1 = 4, d2 = 6 > 5 -> stop at depth 2, keep depth 1.
    let m = test_matrix_2x5();
    let targets = vec![vec![1, 1]];
    let ev = evaluable(&[0.3], Z_05, m.n_rows());
    let result = ascend(&m, &targets, &ev, 1, 3, limit(5.0), &[None]);
    assert!(result.stopped_early);
    assert_eq!(result.stop_depth, Some(2));
    assert_eq!(result.store.cfg_mask.len(), 4);
    assert_eq!(result.store.cfg_supp.len(), 4);
    assert_eq!(result.store.cfg_y1.len(), 4);
}

#[test]
fn no_early_stop_with_high_threshold() {
    let result = run_ascend(1, 1000.0);
    assert!(!result.stopped_early);
    assert_eq!(result.stop_depth, None);
}

#[test]
fn early_stop_at_depth1_with_zero_max_admissible() {
    let result = run_ascend(1, 0.0);
    assert!(result.stopped_early);
    assert_eq!(result.stop_depth, Some(1));
    assert_eq!(result.store.cfg_mask.len(), 4);
    assert_eq!(result.store.depth_end.len(), 1);
    assert_eq!(result.store.depth_end[0], 4);
    assert_eq!(result.admissibility[1], 0);
}

#[test]
fn depth_end_monotonic() {
    let result = run_ascend(1, 1000.0);
    let de = &result.store.depth_end;
    assert_eq!(de[0], 4);
    assert_eq!(de[1], 7);
    assert_eq!(de[2], 7);
    for w in de.windows(2) {
        assert!(w[0] <= w[1], "depth_end not monotonic: {:?}", de);
    }
}

#[test]
fn cfg_supp_matches_popcount() {
    let result = run_ascend(1, 1000.0);
    let supp = &result.store.cfg_supp;
    assert_eq!(supp[0], 2);
    assert_eq!(supp[1], 2);
    assert_eq!(supp[2], 2);
    assert_eq!(supp[3], 1);
    assert_eq!(supp[4], 1);
    assert_eq!(supp[5], 1);
    assert_eq!(supp[6], 1);
}

#[test]
fn store_n_targets() {
    let result = run_ascend(1, 1000.0);
    assert_eq!(result.store.n_targets, 1);
}

#[test]
fn multiple_targets_y1_config_major() {
    let m = test_matrix_4x4();
    let targets = vec![vec![1, 1, 0, 0], vec![0, 0, 1, 1]];
    let ev = evaluable(&[0.3], Z_05, m.n_rows());
    let result = ascend(&m, &targets, &ev, 1, 2, limit(1000.0), &[None, None]);

    let store = &result.store;
    assert_eq!(store.n_targets, 2);
    assert_eq!(store.cfg_y1[0], 2);
    assert_eq!(store.cfg_y1[1], 0);
    assert_eq!(store.cfg_y1[6], 0);
    assert_eq!(store.cfg_y1[7], 1);
    assert_eq!(store.cfg_y1[8], 1);
    assert_eq!(store.cfg_y1[9], 0);
    assert_eq!(store.cfg_y1[10], 1);
    assert_eq!(store.cfg_y1[11], 0);
    assert_eq!(store.cfg_y1[12], 0);
    assert_eq!(store.cfg_y1[13], 1);
}

#[test]
fn excl_mask_stored_correctly() {
    let m = test_matrix_4x4();
    let targets = vec![vec![1, 1, 0, 0]];
    let ev = evaluable(&[0.3], Z_05, m.n_rows());
    let result = ascend(&m, &targets, &ev, 1, 1, limit(1000.0), &[Some(vec![0, 2])]);
    assert_eq!(result.store.excl_mask[0], 5);
}

#[test]
fn excl_mask_none_is_zero() {
    let m = test_matrix_4x4();
    let targets = vec![vec![1, 1, 0, 0]];
    let ev = evaluable(&[0.3], Z_05, m.n_rows());
    let result = ascend(&m, &targets, &ev, 1, 1, limit(1000.0), &[None]);
    assert_eq!(result.store.excl_mask[0], 0);
}

#[test]
fn admissibility_counts_correct() {
    let result = run_ascend(1, 1000.0);
    assert_eq!(result.admissibility.len(), 3);
    assert_eq!(result.admissibility[0], 4);
    assert_eq!(result.admissibility[1], 3);
    assert_eq!(result.admissibility[2], 0);
}

#[test]
fn depth_end_counts_each_completed_depth() {
    // 2 x 5: depths 1..3 hold C(4,1), C(4,2), C(4,3) configurations.
    let m = test_matrix_2x5();
    let ev = evaluable(&[0.3, 0.9], Z_05, m.n_rows());
    let result = ascend(&m, &[vec![1, 0]], &ev, 1, 3, limit(1000.0), &[None]);
    assert_eq!(result.store.depth_end, vec![4, 10, 14]);
    assert_eq!(result.admissibility, vec![4, 6, 4]);
    // Every configuration has support 2: 2/(2+3.84) >= 0.3 but < 0.9.
    assert_eq!(result.evaluability, vec![vec![4, 6, 4], vec![0, 0, 0]]);
    assert!(result.store.cfg_supp.iter().all(|&s| s == 2));
    assert!(result.store.cfg_y1.iter().all(|&y| y == 1));
    assert_eq!(result.store.cfg_mask[4..10], [3, 5, 9, 6, 10, 12]);
}

#[test]
fn negative_limit_stops_at_depth_one() {
    let m = test_matrix_2x5();
    let ev = evaluable(&[0.3], Z_05, m.n_rows());
    let result = ascend(&m, &[vec![1, 1]], &ev, 1, 3, -1, &[None]);
    assert_eq!(result.stop_depth, Some(1));
    assert!(result.stopped_early);
    assert_eq!(result.store.depth_end, vec![4]);
}

#[test]
fn no_admissible_observation_ends_at_depth_one() {
    let m = test_matrix_4x4();
    let ev = evaluable(&[0.3], Z_05, m.n_rows());
    let result = ascend(&m, &[vec![1, 1, 0, 0]], &ev, 3, 3, limit(1000.0), &[None]);
    assert_eq!(result.store.depth_end, vec![0]);
    assert_eq!(result.admissibility, vec![0, 0, 0]);
    assert!(!result.stopped_early);
    assert!(result.store.cfg_mask.is_empty());
}
