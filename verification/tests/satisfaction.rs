//! Satisfaction matrix: `S[p][k]` iff row `p` has a 1 in every column of
//! member `k`.

use configural::{satisfaction_matrix, BinaryMatrix};

fn bits(data: &[f64]) -> Vec<u64> {
    data.iter().map(|x| x.to_bits()).collect()
}

/// 5 variables x 3 observations:
///
/// ```text
///         obs0  obs1  obs2
/// var0:    1     1     0
/// var1:    1     0     1
/// var2:    0     1     1
/// var3:    1     1     1
/// var4:    0     0     0
/// ```
fn sample_matrix() -> BinaryMatrix {
    let data = [
        1.0, 1.0, 0.0, // var0
        1.0, 0.0, 1.0, // var1
        0.0, 1.0, 1.0, // var2
        1.0, 1.0, 1.0, // var3
        0.0, 0.0, 0.0, // var4
    ];
    BinaryMatrix::new(&bits(&data), 5, 3).expect("valid 5x3 matrix")
}

#[test]
fn elementwise_satisfaction_two_members() {
    let m = sample_matrix();
    let members = vec![vec![0, 1], vec![1, 2]];
    let s = satisfaction_matrix(&m, &members);

    assert_eq!(s.len(), 5, "5 rows");
    assert_eq!(s[0].len(), 2, "2 members");

    // member0 = {0,1}
    assert!(s[0][0], "var0 satisfies {{0,1}}");
    assert!(!s[1][0], "var1 does not satisfy {{0,1}}");
    assert!(!s[2][0], "var2 does not satisfy {{0,1}}");
    assert!(s[3][0], "var3 satisfies {{0,1}}");
    assert!(!s[4][0], "var4 does not satisfy {{0,1}}");

    // member1 = {1,2}
    assert!(!s[0][1], "var0 does not satisfy {{1,2}}");
    assert!(!s[1][1], "var1 does not satisfy {{1,2}}");
    assert!(s[2][1], "var2 satisfies {{1,2}}");
    assert!(s[3][1], "var3 satisfies {{1,2}}");
    assert!(!s[4][1], "var4 does not satisfy {{1,2}}");
}

#[test]
fn single_element_member_parity() {
    let m = sample_matrix();
    let members = vec![vec![0], vec![1], vec![2]];
    let s = satisfaction_matrix(&m, &members);

    for (p, row) in s.iter().enumerate().take(5) {
        for (k, member) in members.iter().enumerate() {
            let col = member[0] as usize;
            assert_eq!(
                row[k],
                m.get(p, col),
                "S[{p}][{k}] should equal X[{p}, {col}] for single-element member"
            );
        }
    }
}

#[test]
fn empty_member_vacuous_truth() {
    let m = sample_matrix();
    let members = vec![vec![]];
    let s = satisfaction_matrix(&m, &members);

    assert_eq!(s.len(), 5);
    for (p, row) in s.iter().enumerate() {
        assert!(row[0], "empty member vacuously satisfied by var{p}");
    }
}

#[test]
fn empty_members_list() {
    let m = sample_matrix();
    let members: Vec<Vec<u32>> = vec![];
    let s = satisfaction_matrix(&m, &members);

    assert_eq!(s.len(), 5, "5 rows even with no members");
    for row in &s {
        assert!(row.is_empty(), "each row empty when no members");
    }
}

#[test]
fn three_column_member_needs_every_column() {
    let m = sample_matrix();
    let members = vec![vec![0, 1, 2]];
    let s = satisfaction_matrix(&m, &members);
    let got: Vec<bool> = s.iter().map(|row| row[0]).collect();
    assert_eq!(got, vec![false, false, false, true, false]);
}
