//! Coverage: which rows satisfy at least one antichain member, with counts
//! overall and among target-1 rows.
//!
//! The shares (`n_covered / n_rows`, `n_covered_y1 / n_y1`) are ratios of
//! the counts here; [`CoverageResult::covered_share_parts`] and
//! [`CoverageResult::covered_share_y1_parts`] give their numerator and
//! denominator.

use vstd::prelude::*;
use crate::matrix::BinaryMatrix;
use crate::satisfaction::{members_in_range, satisfaction_matrix, satisfies};

verus! {

/// Row `p` satisfies at least one member.
pub open spec fn is_covered(m: BinaryMatrix, members: Seq<Vec<u32>>, p: int) -> bool {
    exists|k: int| 0 <= k < members.len() && #[trigger] satisfies(m, p, members[k]@)
}

/// Number of `true` entries among the first `n` of `s`.
pub open spec fn count_true(s: Seq<bool>, n: nat) -> nat
    decreases n,
{
    if n == 0 {
        0
    } else {
        count_true(s, (n - 1) as nat) + if s[n - 1] { 1nat } else { 0nat }
    }
}

/// Number of entries equal to 1 among the first `n` of `t`.
pub open spec fn count_ones_u8(t: Seq<u8>, n: nat) -> nat
    decreases n,
{
    if n == 0 {
        0
    } else {
        count_ones_u8(t, (n - 1) as nat) + if t[n - 1] == 1 { 1nat } else { 0nat }
    }
}

/// Number of positions among the first `n` where `s` is true and `t` is 1.
pub open spec fn count_true_y1(s: Seq<bool>, t: Seq<u8>, n: nat) -> nat
    decreases n,
{
    if n == 0 {
        0
    } else {
        count_true_y1(s, t, (n - 1) as nat) + if s[n - 1] && t[n - 1] == 1 { 1nat } else { 0nat }
    }
}

/// At most `n` of the first `n` flags are set.
pub proof fn lemma_count_true_le(s: Seq<bool>, n: nat)
    ensures
        count_true(s, n) <= n,
    decreases n,
{
    if n > 0 {
        lemma_count_true_le(s, (n - 1) as nat);
    }
}

/// At most `n` of the first `n` targets are 1.
pub proof fn lemma_count_ones_u8_le(t: Seq<u8>, n: nat)
    ensures
        count_ones_u8(t, n) <= n,
    decreases n,
{
    if n > 0 {
        lemma_count_ones_u8_le(t, (n - 1) as nat);
    }
}

/// Covered target-1 rows are covered rows and target-1 rows.
pub proof fn lemma_count_true_y1_le(s: Seq<bool>, t: Seq<u8>, n: nat)
    ensures
        count_true_y1(s, t, n) <= count_true(s, n),
        count_true_y1(s, t, n) <= count_ones_u8(t, n),
    decreases n,
{
    if n > 0 {
        lemma_count_true_y1_le(s, t, (n - 1) as nat);
    }
}

/// Coverage counts of one antichain over a matrix and a target vector.
#[derive(Debug, Clone)]
pub struct CoverageResult {
    /// `covered[p]` iff row `p` satisfies at least one member.
    pub covered: Vec<bool>,
    /// Number of covered rows.
    pub n_covered: usize,
    /// Number of covered rows whose target is 1.
    pub n_covered_y1: usize,
    /// Number of rows.
    pub n_rows: usize,
    /// Number of rows whose target is 1.
    pub n_y1: usize,
}

impl CoverageResult {
    /// `(n_covered, n_rows)`: the covered share is their ratio (0 when
    /// `n_rows == 0`).
    pub fn covered_share_parts(&self) -> (r: (usize, usize))
        ensures
            r == (self.n_covered, self.n_rows),
    {
        (self.n_covered, self.n_rows)
    }

    /// `(n_covered_y1, n_y1)`, or `None` when no row has target 1.
    pub fn covered_share_y1_parts(&self) -> (r: Option<(usize, usize)>)
        ensures
            self.n_y1 == 0 ==> r is None,
            self.n_y1 != 0 ==> r == Some((self.n_covered_y1, self.n_y1)),
    {
        if self.n_y1 > 0 {
            Some((self.n_covered_y1, self.n_y1))
        } else {
            None
        }
    }
}

/// Compute coverage of `members` over the rows of `matrix`, stratified by
/// `target` (one entry per row; only the value 1 counts as target-1).
pub fn coverage(matrix: &BinaryMatrix, members: &[Vec<u32>], target: &[u8]) -> (res: CoverageResult)
    requires
        matrix.wf(),
        members_in_range(*matrix, members@),
        target@.len() == matrix.rows(),
    ensures
        res.covered@.len() == matrix.rows(),
        forall|p: int|
            0 <= p < matrix.rows() ==> (#[trigger] res.covered@[p] <==> is_covered(
                *matrix,
                members@,
                p,
            )),
        res.n_rows == matrix.rows(),
        res.n_covered == count_true(res.covered@, matrix.rows()),
        res.n_y1 == count_ones_u8(target@, matrix.rows()),
        res.n_covered_y1 == count_true_y1(res.covered@, target@, matrix.rows()),
{
    let s = satisfaction_matrix(matrix, members);
    let n_rows = matrix.n_rows();
    let mut covered: Vec<bool> = Vec::new();
    let mut n_covered: usize = 0;
    let mut n_y1: usize = 0;
    let mut n_covered_y1: usize = 0;
    let mut p: usize = 0;
    while p < n_rows
        invariant
            p <= n_rows,
            n_rows == matrix.rows(),
            n_rows <= 64,
            target@.len() == n_rows,
            s@.len() == n_rows,
            forall|q: int| 0 <= q < s@.len() ==> (#[trigger] s@[q])@.len() == members@.len(),
            forall|q: int, k: int|
                0 <= q < s@.len() && 0 <= k < members@.len() ==> (#[trigger] s@[q]@[k] <==> satisfies(
                    *matrix,
                    q,
                    members@[k]@,
                )),
            covered@.len() == p,
            forall|q: int| 0 <= q < p ==> (#[trigger] covered@[q] <==> is_covered(*matrix, members@, q)),
            n_covered == count_true(covered@, p as nat),
            n_y1 == count_ones_u8(target@, p as nat),
            n_covered_y1 == count_true_y1(covered@, target@, p as nat),
        decreases n_rows - p,
    {
        let row = &s[p];
        let mut any = false;
        let mut k: usize = 0;
        while k < row.len()
            invariant
                k <= row@.len(),
                row@.len() == members@.len(),
                p < s@.len(),
                *row == s@[p as int],
                forall|kk: int|
                    0 <= kk < members@.len() ==> (#[trigger] row@[kk] <==> satisfies(*matrix, p as int, members@[kk]@)),
                any <==> exists|kk: int| 0 <= kk < k && #[trigger] satisfies(*matrix, p as int, members@[kk]@),
            decreases row@.len() - k,
        {
            if row[k] {
                any = true;
            }
            k = k + 1;
        }
        let ghost old_cov = covered@;
        covered.push(any);
        proof {
            lemma_count_true_le(old_cov, p as nat);
            lemma_count_ones_u8_le(target@, p as nat);
            lemma_count_true_y1_le(old_cov, target@, p as nat);
            assert(covered@.subrange(0, p as int) == old_cov);
            lemma_count_true_prefix(covered@, old_cov, p as nat);
            lemma_count_true_y1_prefix(covered@, old_cov, target@, p as nat);
        }
        if any {
            n_covered = n_covered + 1;
        }
        if target[p] == 1 {
            n_y1 = n_y1 + 1;
            if any {
                n_covered_y1 = n_covered_y1 + 1;
            }
        }
        p = p + 1;
    }
    CoverageResult { covered, n_covered, n_covered_y1, n_rows, n_y1 }
}

proof fn lemma_count_true_prefix(a: Seq<bool>, b: Seq<bool>, n: nat)
    requires
        n <= a.len(),
        n <= b.len(),
        forall|i: int| 0 <= i < n ==> a[i] == b[i],
    ensures
        count_true(a, n) == count_true(b, n),
    decreases n,
{
    if n > 0 {
        lemma_count_true_prefix(a, b, (n - 1) as nat);
    }
}

proof fn lemma_count_true_y1_prefix(a: Seq<bool>, b: Seq<bool>, t: Seq<u8>, n: nat)
    requires
        n <= a.len(),
        n <= b.len(),
        forall|i: int| 0 <= i < n ==> a[i] == b[i],
    ensures
        count_true_y1(a, t, n) == count_true_y1(b, t, n),
    decreases n,
{
    if n > 0 {
        lemma_count_true_y1_prefix(a, b, t, (n - 1) as nat);
    }
}

/// Coverage never shrinks when a member is added: a row covered by an
/// antichain is covered by the antichain with one more member.
pub proof fn lemma_coverage_monotone(m: BinaryMatrix, members: Seq<Vec<u32>>, extra: Vec<u32>, p: int)
    requires
        is_covered(m, members, p),
    ensures
        is_covered(m, members.push(extra), p),
{
    let k = choose|k: int| 0 <= k < members.len() && #[trigger] satisfies(m, p, members[k]@);
    assert(members.push(extra)[k] == members[k]);
}

/// The counts of a coverage result are consistent: covered target-1 rows
/// are at most the covered rows and at most the target-1 rows, and the
/// covered rows are at most all rows.
pub proof fn lemma_coverage_counts_bounded(covered: Seq<bool>, target: Seq<u8>, n: nat)
    ensures
        count_true_y1(covered, target, n) <= count_true(covered, n),
        count_true_y1(covered, target, n) <= count_ones_u8(target, n),
        count_true(covered, n) <= n,
{
    lemma_count_true_y1_le(covered, target, n);
    lemma_count_true_le(covered, n);
}

} // verus!
