//! Concrete instances of the library's laws.

use configural::{ascend, evaluate_cell, BinaryMatrix, Detail, PairMiEngine};

fn bits(data: &[f64]) -> Vec<u64> {
    data.iter().map(|x| x.to_bits()).collect()
}

/// 5 variables x 6 observations.
fn matrix_5x6() -> BinaryMatrix {
    let data = [
        1.0, 1.0, 0.0, 1.0, 0.0, 1.0, //
        1.0, 0.0, 1.0, 1.0, 1.0, 0.0, //
        0.0, 1.0, 1.0, 1.0, 0.0, 1.0, //
        1.0, 1.0, 1.0, 0.0, 1.0, 1.0, //
        0.0, 0.0, 1.0, 1.0, 1.0, 1.0, //
    ];
    BinaryMatrix::new(&bits(&data), 5, 6).unwrap()
}

/// Rows having a 1 in every column of `mask`.
fn support(m: &BinaryMatrix, mask: u64) -> u32 {
    (0..m.n_rows()).filter(|&r| (0..m.n_cols()).all(|c| mask >> c & 1 == 0 || m.get(r, c))).count() as u32
}

#[test]
fn ascent_lists_every_admissible_set_once() {
    let m = matrix_5x6();
    let n_min = 2;
    let ev = vec![vec![true; 6]];
    let r = ascend(&m, &[vec![1, 0, 1, 0, 1]], &ev, n_min, 4, i64::MAX, &[None]);
    let store = &r.store;
    let mut start = 0usize;
    for (d, &end) in store.depth_end.iter().enumerate() {
        let mut got: Vec<u64> = store.cfg_mask[start..end as usize].to_vec();
        let mut want: Vec<u64> = (1u64..64)
            .filter(|&q| q.count_ones() as usize == d + 1 && support(&m, q) >= n_min)
            .collect();
        let n = got.len();
        got.sort();
        got.dedup();
        assert_eq!(got.len(), n, "depth {} lists a set twice", d + 1);
        want.sort();
        assert_eq!(got, want, "depth {}", d + 1);
        for g in start..end as usize {
            assert_eq!(store.cfg_supp[g], support(&m, store.cfg_mask[g]));
        }
        start = end as usize;
    }
    assert!(!store.depth_end.is_empty());
}

#[test]
fn minimal_rows_form_an_antichain() {
    let m = matrix_5x6();
    let ev = vec![vec![true; 6]];
    let r = ascend(&m, &[vec![1, 1, 0, 1, 0]], &ev, 1, 4, i64::MAX, &[None]);
    let store = &r.store;
    // Sufficient: at least two supporting rows with target 1.
    let flags: Vec<bool> = store.cfg_y1.iter().map(|&y| y >= 2).collect();
    let out = evaluate_cell(store, 0, &flags, Detail::Count);
    let masks: Vec<u64> = out.rows.iter().map(|row| row.set_idx.iter().fold(0u64, |a, &c| a | 1 << c)).collect();
    assert!(!masks.is_empty());
    for (i, &a) in masks.iter().enumerate() {
        for (j, &b) in masks.iter().enumerate() {
            if i != j {
                assert_ne!(a & b, a, "{:?} inside {:?}", out.rows[i].set_idx, out.rows[j].set_idx);
            }
        }
    }
}

#[test]
fn every_stored_set_extends_its_parent() {
    let m = matrix_5x6();
    let mut engine = PairMiEngine::create(&m).unwrap();
    let n2 = engine.candidates(2).len();
    engine.depth(2, &vec![true; n2]);
    let n3 = engine.candidates(3).len();
    let stats = engine.depth(3, &vec![true; n3]);
    assert!(stats.kept <= stats.unique && stats.unique <= stats.raw);
    let rows = engine.results();
    for row in &rows {
        if row.depth == 2 {
            assert!(row.var < row.parent);
            assert_eq!(row.members, vec![row.var, row.parent]);
        } else {
            let parent = &rows[(row.parent - 1) as usize];
            assert!(!parent.members.contains(&row.var));
            let mut expect = parent.members.clone();
            expect.push(row.var);
            expect.sort();
            assert_eq!(row.members, expect);
        }
        let vm = row.members.iter().fold(0u64, |a, &v| a | 1 << (v - 1));
        let pop = (0..m.n_cols()).filter(|&i| (0..m.n_rows()).all(|j| vm >> j & 1 == 0 || m.get(j, i))).count();
        assert_eq!(row.pop as usize, pop);
    }
    // Depth 3 keeps each set once.
    let mut sets: Vec<Vec<u32>> = rows.iter().filter(|r| r.depth == 3).map(|r| r.members.clone()).collect();
    let n = sets.len();
    sets.sort();
    sets.dedup();
    assert_eq!(sets.len(), n);
    assert_eq!(n as u64, stats.kept);
}
