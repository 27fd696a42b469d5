//! Coverage of an antichain over the rows of a matrix. Shares are the
//! count pairs divided out.

use configural::{coverage, BinaryMatrix};

fn bits(data: &[f64]) -> Vec<u64> {
    data.iter().map(|x| x.to_bits()).collect()
}

fn share(parts: (usize, usize)) -> f64 {
    parts.0 as f64 / parts.1 as f64
}

fn share_y1(parts: Option<(usize, usize)>) -> Option<f64> {
    parts.map(share)
}

/// 5 variables x 3 observations (see satisfaction tests).
fn sample_matrix() -> BinaryMatrix {
    let data = [
        1.0, 1.0, 0.0, // var0
        1.0, 0.0, 1.0, // var1
        0.0, 1.0, 1.0, // var2
        1.0, 1.0, 1.0, // var3
        0.0, 0.0, 0.0, // var4
    ];
    BinaryMatrix::new(&bits(&data), 5, 3).expect("valid 5x3 matrix")
}

#[test]
fn coverage_counts_and_shares() {
    // {0,1} covers var0,var3; {1,2} covers var2,var3 -> 3 covered, all target 1.
    let m = sample_matrix();
    let members = vec![vec![0, 1], vec![1, 2]];
    let target = [1u8, 0, 1, 1, 0];

    let result = coverage(&m, &members, &target);

    assert_eq!(result.n_covered, 3, "n_covered");
    assert_eq!(result.n_covered_y1, 3, "n_covered_y1");
    assert!((share(result.covered_share_parts()) - 0.6).abs() < f64::EPSILON, "covered_share");
    assert_eq!(share_y1(result.covered_share_y1_parts()), Some(1.0), "covered_share_y1");

    assert!(result.covered[0], "var0 covered");
    assert!(!result.covered[1], "var1 not covered");
    assert!(result.covered[2], "var2 covered");
    assert!(result.covered[3], "var3 covered");
    assert!(!result.covered[4], "var4 not covered");
}

#[test]
fn coverage_y1_zero_returns_none() {
    let m = sample_matrix();
    let members = vec![vec![0, 1]];
    let target = [0u8, 0, 0, 0, 0];

    let result = coverage(&m, &members, &target);

    assert_eq!(result.n_covered_y1, 0, "no y1 covered");
    assert_eq!(share_y1(result.covered_share_y1_parts()), None, "None when n_y1 == 0");
    // member {0,1} covers var0, var3 -> 2/5
    assert!((share(result.covered_share_parts()) - 0.4).abs() < f64::EPSILON, "covered_share");
}

#[test]
fn coverage_empty_members() {
    let m = sample_matrix();
    let members: Vec<Vec<u32>> = vec![];
    let target = [1u8, 0, 1, 1, 0];

    let result = coverage(&m, &members, &target);

    assert_eq!(result.n_covered, 0, "n_covered == 0 with no members");
    assert!((share(result.covered_share_parts()) - 0.0).abs() < f64::EPSILON, "covered_share == 0.0");
    assert_eq!(result.n_covered_y1, 0, "n_covered_y1 == 0");
    assert_eq!(share_y1(result.covered_share_y1_parts()), Some(0.0), "covered_share_y1 Some(0.0)");
}

#[test]
fn coverage_result_is_debug_clone() {
    let m = sample_matrix();
    let members = vec![vec![0]];
    let target = [1u8, 0, 0, 0, 0];
    let result = coverage(&m, &members, &target);
    let cloned = result.clone();
    assert_eq!(result.n_covered, cloned.n_covered, "clone preserves n_covered");
    let _ = format!("{result:?}");
}

#[test]
fn coverage_grows_with_an_extra_member() {
    let m = sample_matrix();
    let target = [1u8, 0, 1, 1, 0];
    let small = coverage(&m, &[vec![0, 1]], &target);
    let big = coverage(&m, &[vec![0, 1], vec![2]], &target);
    for p in 0..5 {
        if small.covered[p] {
            assert!(big.covered[p]);
        }
    }
    assert_eq!(small.n_covered, 2);
    assert_eq!(big.n_covered, 4);
    assert_eq!(big.n_y1, 3);
    assert_eq!(big.n_rows, 5);
}
