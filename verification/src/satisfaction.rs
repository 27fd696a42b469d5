//! Satisfaction matrix: `S[p][k]` holds iff every column of member `k` is
//! set in row `p`.
//!
//! Rows are variables and a member is a set of column (observation)
//! indices; an empty member is satisfied by every row.

use vstd::prelude::*;
use crate::matrix::BinaryMatrix;

verus! {

/// Row `p` has a 1 in every column listed in `member`.
pub open spec fn satisfies(m: BinaryMatrix, p: int, member: Seq<u32>) -> bool {
    forall|t: int| 0 <= t < member.len() ==> #[trigger] m.at(p, member[t] as int)
}

/// Every column index in every member is a column of `m`.
pub open spec fn members_in_range(m: BinaryMatrix, members: Seq<Vec<u32>>) -> bool {
    forall|k: int, t: int|
        0 <= k < members.len() && 0 <= t < members[k]@.len() ==> #[trigger] members[k]@[t] < m.cols()
}

/// Whether row `p` satisfies `member`.
pub fn row_satisfies(matrix: &BinaryMatrix, p: usize, member: &Vec<u32>) -> (b: bool)
    requires
        matrix.wf(),
        p < matrix.rows(),
        forall|t: int| 0 <= t < member@.len() ==> #[trigger] member@[t] < matrix.cols(),
    ensures
        b == satisfies(*matrix, p as int, member@),
{
    let mut t: usize = 0;
    while t < member.len()
        invariant
            t <= member@.len(),
            matrix.wf(),
            p < matrix.rows(),
            forall|u: int| 0 <= u < member@.len() ==> #[trigger] member@[u] < matrix.cols(),
            forall|u: int| 0 <= u < t ==> #[trigger] matrix.at(p as int, member@[u] as int),
        decreases member@.len() - t,
    {
        if !matrix.get(p, member[t] as usize) {
            return false;
        }
        t = t + 1;
    }
    true
}

/// Build the satisfaction matrix: one row per matrix row, one column per
/// member; `S[p][k]` is whether row `p` satisfies `members[k]`.
pub fn satisfaction_matrix(matrix: &BinaryMatrix, members: &[Vec<u32>]) -> (s: Vec<Vec<bool>>)
    requires
        matrix.wf(),
        members_in_range(*matrix, members@),
    ensures
        s@.len() == matrix.rows(),
        forall|p: int| 0 <= p < s@.len() ==> (#[trigger] s@[p])@.len() == members@.len(),
        forall|p: int, k: int|
            0 <= p < s@.len() && 0 <= k < members@.len() ==> (#[trigger] s@[p]@[k] <==> satisfies(
                *matrix,
                p,
                members@[k]@,
            )),
{
    let n_rows = matrix.n_rows();
    let mut s: Vec<Vec<bool>> = Vec::new();
    let mut p: usize = 0;
    while p < n_rows
        invariant
            p <= n_rows,
            n_rows == matrix.rows(),
            matrix.wf(),
            members_in_range(*matrix, members@),
            s@.len() == p,
            forall|q: int| 0 <= q < p ==> (#[trigger] s@[q])@.len() == members@.len(),
            forall|q: int, k: int|
                0 <= q < p && 0 <= k < members@.len() ==> (#[trigger] s@[q]@[k] <==> satisfies(
                    *matrix,
                    q,
                    members@[k]@,
                )),
        decreases n_rows - p,
    {
        let mut row: Vec<bool> = Vec::new();
        let mut k: usize = 0;
        while k < members.len()
            invariant
                k <= members@.len(),
                p < matrix.rows(),
                matrix.wf(),
                members_in_range(*matrix, members@),
                row@.len() == k,
                forall|kk: int| 0 <= kk < k ==> (#[trigger] row@[kk] <==> satisfies(*matrix, p as int, members@[kk]@)),
            decreases members@.len() - k,
        {
            let b = row_satisfies(matrix, p, &members[k]);
            row.push(b);
            k = k + 1;
        }
        s.push(row);
        p = p + 1;
    }
    s
}

} // verus!
