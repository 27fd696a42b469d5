//! Dispensability index. `delta = 1 - n_orphan / n_covered` (and its
//! target-1 variant) is derived from the counts here as the application
//! layer derives it.

use configural::diagnostics::dispensability::dispensability_index;
use configural::{BinaryMatrix, Cell, CellSource};

fn bits(data: &[f64]) -> Vec<u64> {
    data.iter().map(|x| x.to_bits()).collect()
}

fn cell_with_members(members: Vec<Vec<u32>>) -> Cell {
    let n = members.len();
    Cell { source: CellSource::Exhaustive, members, n_set: vec![0; n], n_set_y1: vec![0; n] }
}

fn delta(n_orphan: usize, n_covered: usize) -> Option<f64> {
    if n_covered > 0 {
        Some(1.0 - n_orphan as f64 / n_covered as f64)
    } else {
        None
    }
}

fn matrix_3x4() -> BinaryMatrix {
    let data = [
        1.0, 1.0, 0.0, 0.0, // var0
        1.0, 0.0, 1.0, 0.0, // var1
        0.0, 1.0, 1.0, 1.0, // var2
    ];
    BinaryMatrix::new(&bits(&data), 3, 4).unwrap()
}

fn matrix_3x5() -> BinaryMatrix {
    let data = [
        1.0, 1.0, 0.0, 0.0, 1.0, // var0
        1.0, 0.0, 1.0, 0.0, 0.0, // var1
        0.0, 1.0, 1.0, 1.0, 0.0, // var2
    ];
    BinaryMatrix::new(&bits(&data), 3, 5).unwrap()
}

const NAMES4: [&str; 4] = ["obs0", "obs1", "obs2", "obs3"];

#[test]
fn element_in_all_members_delta_zero() {
    let m = matrix_3x4();
    let cell = cell_with_members(vec![vec![0, 1], vec![0, 2]]);
    let rows = dispensability_index(&cell, &m, &[1u8, 0, 1], &NAMES4);
    assert_eq!(rows[0].n_msc_with, 2, "element 0 in both members");
    assert_eq!(rows[0].n_orphan, rows[0].n_covered, "all covered cases orphaned");
    assert_eq!(delta(rows[0].n_orphan, rows[0].n_covered), Some(0.0), "delta=0.0 when element in ALL members");
}

#[test]
fn element_in_no_members_delta_one() {
    let m = matrix_3x5();
    let cell = cell_with_members(vec![vec![0, 1], vec![2, 3]]);
    let names = ["obs0", "obs1", "obs2", "obs3", "obs4"];
    let rows = dispensability_index(&cell, &m, &[1u8, 0, 1], &names);
    assert_eq!(rows[4].n_msc_with, 0, "element 4 in no members");
    assert_eq!(rows[4].n_orphan, 0, "no orphans for absent element");
    assert_eq!(delta(rows[4].n_orphan, rows[4].n_covered), Some(1.0), "delta=1.0 when element in NO members");
}

#[test]
fn empty_antichain_delta_none() {
    let m = matrix_3x4();
    let cell = cell_with_members(vec![]);
    let rows = dispensability_index(&cell, &m, &[1u8, 0, 1], &NAMES4);
    assert_eq!(rows.len(), 4);
    for row in &rows {
        assert_eq!(row.n_msc_with, 0);
        assert_eq!(row.n_covered, 0);
        assert_eq!(row.n_orphan, 0);
        assert!(delta(row.n_orphan, row.n_covered).is_none(), "delta must be None for empty antichain");
        assert_eq!(row.n_covered_y1, 0);
        assert_eq!(row.n_orphan_y1, 0);
        assert!(delta(row.n_orphan_y1, row.n_covered_y1).is_none(), "delta_y1 must be None for empty antichain");
    }
}

#[test]
fn no_coverage_delta_none() {
    // {obs0, obs3} is satisfied by no variable.
    let m = matrix_3x4();
    let cell = cell_with_members(vec![vec![0, 3]]);
    let rows = dispensability_index(&cell, &m, &[1u8, 0, 1], &NAMES4);
    for row in &rows {
        assert_eq!(row.n_covered, 0, "no variable covered by {{obs0,obs3}}");
        assert!(delta(row.n_orphan, row.n_covered).is_none(), "delta must be None when n_covered == 0");
    }
}

#[test]
fn no_y1_coverage_delta_y1_none() {
    let m = matrix_3x4();
    let cell = cell_with_members(vec![vec![0, 1], vec![2, 3]]);
    let rows = dispensability_index(&cell, &m, &[0u8, 0, 0], &NAMES4);
    assert!(rows[0].n_covered > 0, "some variables covered");
    assert!(delta(rows[0].n_orphan, rows[0].n_covered).is_some(), "delta defined when n_covered > 0");
    assert_eq!(rows[0].n_covered_y1, 0, "no y1 covered");
    assert!(delta(rows[0].n_orphan_y1, rows[0].n_covered_y1).is_none(), "delta_y1 must be None");
}

#[test]
fn partial_membership_delta_between_zero_and_one() {
    let m = matrix_3x4();
    let cell = cell_with_members(vec![vec![0, 1], vec![2, 3]]);
    let rows = dispensability_index(&cell, &m, &[1u8, 0, 1], &NAMES4);

    assert_eq!(rows[0].n_msc_with, 1);
    assert_eq!(rows[0].n_covered, 2);
    assert_eq!(rows[0].n_orphan, 1, "var0 orphaned by removing obs0");
    assert_eq!(delta(rows[0].n_orphan, rows[0].n_covered), Some(0.5));

    assert_eq!(rows[2].n_msc_with, 1);
    assert_eq!(rows[2].n_orphan, 1, "var2 orphaned by removing obs2");
    assert_eq!(delta(rows[2].n_orphan, rows[2].n_covered), Some(0.5));

    for row in &rows {
        if let Some(d) = delta(row.n_orphan, row.n_covered) {
            assert!(d > 0.0 && d < 1.0, "partial delta in (0,1), got {d}");
        }
    }
}

#[test]
fn y1_restricted_delta() {
    let m = matrix_3x4();
    let cell = cell_with_members(vec![vec![0, 1], vec![2, 3]]);
    let rows = dispensability_index(&cell, &m, &[1u8, 0, 1], &NAMES4);
    assert_eq!(rows[0].n_covered_y1, 2);
    assert_eq!(rows[0].n_orphan_y1, 1, "var0 is y1 and orphaned");
    assert_eq!(delta(rows[0].n_orphan_y1, rows[0].n_covered_y1), Some(0.5));
}

#[test]
fn y1_restricted_differs_from_overall_when_target_skewed() {
    let m = matrix_3x4();
    let cell = cell_with_members(vec![vec![0, 1], vec![2, 3]]);
    let rows = dispensability_index(&cell, &m, &[1u8, 0, 0], &NAMES4);
    assert_eq!(rows[0].n_orphan_y1, 1);
    assert_eq!(delta(rows[0].n_orphan_y1, rows[0].n_covered_y1), Some(0.0));
    assert_eq!(rows[2].n_orphan_y1, 0);
    assert_eq!(delta(rows[2].n_orphan_y1, rows[2].n_covered_y1), Some(1.0));
}

#[test]
fn row_is_debug_clone() {
    let m = matrix_3x4();
    let cell = cell_with_members(vec![vec![0, 1]]);
    let rows = dispensability_index(&cell, &m, &[1u8, 0, 1], &NAMES4);
    let cloned = rows[0].clone();
    assert_eq!(rows[0].element_idx, cloned.element_idx);
    let _ = format!("{:?}", rows[0]);
}

#[test]
fn single_member_single_coverage() {
    let m = matrix_3x4();
    let cell = cell_with_members(vec![vec![0, 1]]);
    let rows = dispensability_index(&cell, &m, &[1u8, 0, 0], &NAMES4);

    assert_eq!(rows[0].n_covered, 1);
    assert_eq!(rows[0].n_msc_with, 1);
    assert_eq!(rows[0].n_orphan, 1);
    assert_eq!(delta(rows[0].n_orphan, rows[0].n_covered), Some(0.0), "element in sole member -> delta=0.0");

    assert_eq!(rows[2].n_msc_with, 0);
    assert_eq!(rows[2].n_orphan, 0);
    assert_eq!(delta(rows[2].n_orphan, rows[2].n_covered), Some(1.0), "element not in sole member -> delta=1.0");
}

#[test]
fn r_parity_orphan_counts() {
    let m = matrix_3x4();
    let cell = cell_with_members(vec![vec![0, 1], vec![2, 3]]);
    let rows = dispensability_index(&cell, &m, &[1u8, 1, 1], &NAMES4);

    assert_eq!(rows[0].n_orphan, 1, "element 0 orphans var0");
    assert_eq!(rows[1].n_orphan, 1, "element 1 orphans var0");
    assert_eq!(rows[2].n_orphan, 1, "element 2 orphans var2");
    assert_eq!(rows[3].n_orphan, 1, "element 3 orphans var2");
    for row in &rows {
        assert_eq!(delta(row.n_orphan, row.n_covered), Some(0.5));
    }
    for row in &rows {
        assert_eq!(row.n_covered_y1, 2);
        assert_eq!(row.n_orphan_y1, 1);
        assert_eq!(delta(row.n_orphan_y1, row.n_covered_y1), Some(0.5));
    }
}

#[test]
fn names_and_indices_follow_the_name_list() {
    let m = matrix_3x4();
    let cell = cell_with_members(vec![vec![0, 1]]);
    let rows = dispensability_index(&cell, &m, &[1u8, 0, 1], &["p", "q"]);
    assert_eq!(rows.len(), 2);
    assert_eq!((rows[1].element_idx, rows[1].element_name.as_str()), (1, "q"));
    assert!(rows.iter().all(|r| r.n_orphan <= r.n_covered && r.n_orphan_y1 <= r.n_covered_y1));
}
