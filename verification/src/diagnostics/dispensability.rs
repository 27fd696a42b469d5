//! Dispensability index: for each element, the covered rows that lose
//! their cover when every member containing the element is dropped
//! (orphans), overall and among target-1 rows. `delta = 1 - n_orphan /
//! n_covered` is read off these counts.

use vstd::prelude::*;
use crate::cell::Cell;
use crate::coverage::is_covered;
use crate::diagnostics::necessity::{count_members_with, member_contains, members_with};
use crate::lattice::{count_rows, lemma_count_rows_ext, lemma_count_rows_le, lemma_count_rows_mono};
use crate::matrix::BinaryMatrix;
use crate::satisfaction::{members_in_range, satisfaction_matrix, satisfies};

verus! {

/// One element's dispensability counts.
#[derive(Debug, Clone)]
pub struct DispensabilityIndexRow {
    /// 0-based element (observation) index.
    pub element_idx: u32,
    /// Element name.
    pub element_name: String,
    /// Members containing the element.
    pub n_msc_with: usize,
    /// Rows covered by the antichain.
    pub n_covered: usize,
    /// Covered rows that no member without the element covers.
    pub n_orphan: usize,
    /// Covered rows with target 1.
    pub n_covered_y1: usize,
    /// Orphaned rows with target 1.
    pub n_orphan_y1: usize,
}

/// Some member that lacks element `e` is satisfied by row `p`.
pub open spec fn covered_without(m: BinaryMatrix, members: Seq<Vec<u32>>, e: u32, p: int) -> bool {
    exists|k: int| 0 <= k < members.len() && !members[k]@.contains(e) && #[trigger] satisfies(m, p, members[k]@)
}

/// Row `p` is covered, but only by members containing `e`.
pub open spec fn orphaned(m: BinaryMatrix, members: Seq<Vec<u32>>, e: u32, p: int) -> bool {
    is_covered(m, members, p) && !covered_without(m, members, e, p)
}

/// Whether some entry of `row` is set.
fn any_set(row: &Vec<bool>) -> (b: bool)
    ensures
        b == exists|k: int| 0 <= k < row@.len() && #[trigger] row@[k],
{
    let mut k: usize = 0;
    while k < row.len()
        invariant
            k <= row@.len(),
            forall|kk: int| 0 <= kk < k ==> !#[trigger] row@[kk],
        decreases row@.len() - k,
    {
        if row[k] {
            return true;
        }
        k = k + 1;
    }
    false
}

/// Whether some entry set in both `row` and `allowed`.
fn any_set_in(row: &Vec<bool>, allowed: &Vec<bool>) -> (b: bool)
    requires
        row@.len() == allowed@.len(),
    ensures
        b == exists|k: int| 0 <= k < row@.len() && allowed@[k] && #[trigger] row@[k],
{
    let mut k: usize = 0;
    while k < row.len()
        invariant
            k <= row@.len(),
            row@.len() == allowed@.len(),
            forall|kk: int| 0 <= kk < k ==> !(allowed@[kk] && #[trigger] row@[kk]),
        decreases row@.len() - k,
    {
        if allowed[k] && row[k] {
            return true;
        }
        k = k + 1;
    }
    false
}

/// One row per element name with its dispensability counts.
pub fn dispensability_index(cell: &Cell, matrix: &BinaryMatrix, target: &[u8], element_names: &[&str]) -> (rows: Vec<
    DispensabilityIndexRow,
>)
    requires
        matrix.wf(),
        members_in_range(*matrix, cell.members@),
        target@.len() == matrix.rows(),
        element_names@.len() <= u32::MAX + 1,
    ensures
        rows@.len() == element_names@.len(),
        forall|i: int|
            0 <= i < rows@.len() ==> {
                let r = #[trigger] rows@[i];
                let m = *matrix;
                let mem = cell.members@;
                &&& r.element_idx == i
                &&& r.element_name@ == element_names@[i]@
                &&& r.n_msc_with == members_with(mem, i as u32, mem.len())
                &&& r.n_covered == count_rows(|p: int| is_covered(m, mem, p), m.rows())
                &&& r.n_covered_y1 == count_rows(|p: int| is_covered(m, mem, p) && target@[p] == 1, m.rows())
                &&& r.n_orphan == count_rows(|p: int| orphaned(m, mem, i as u32, p), m.rows())
                &&& r.n_orphan_y1 == count_rows(
                    |p: int| orphaned(m, mem, i as u32, p) && target@[p] == 1,
                    m.rows(),
                )
            },
{
    let ghost m = *matrix;
    let ghost mem = cell.members@;
    let s = satisfaction_matrix(matrix, cell.members.as_slice());
    let n_rows = matrix.n_rows();
    let n_mem = cell.members.len();

    let mut covered: Vec<bool> = Vec::new();
    let mut n_covered: usize = 0;
    let mut n_covered_y1: usize = 0;
    let mut p: usize = 0;
    while p < n_rows
        invariant
            p <= n_rows,
            n_rows == m.rows(),
            n_rows <= 64,
            m == *matrix,
            mem == cell.members@,
            n_mem == mem.len(),
            target@.len() == n_rows,
            s@.len() == n_rows,
            forall|q: int| 0 <= q < s@.len() ==> (#[trigger] s@[q])@.len() == mem.len(),
            forall|q: int, k: int|
                0 <= q < s@.len() && 0 <= k < mem.len() ==> (#[trigger] s@[q]@[k] <==> satisfies(m, q, mem[k]@)),
            covered@.len() == p,
            forall|q: int| 0 <= q < p ==> (#[trigger] covered@[q] <==> is_covered(m, mem, q)),
            n_covered == count_rows(|q: int| is_covered(m, mem, q), p as nat),
            n_covered_y1 == count_rows(|q: int| is_covered(m, mem, q) && target@[q] == 1, p as nat),
        decreases n_rows - p,
    {
        let any = any_set(&s[p]);
        proof {
            if any {
                let k = choose|k: int| 0 <= k < s@[p as int]@.len() && #[trigger] s@[p as int]@[k];
                assert(satisfies(m, p as int, mem[k]@));
            }
            if is_covered(m, mem, p as int) {
                let k = choose|k: int| 0 <= k < mem.len() && #[trigger] satisfies(m, p as int, mem[k]@);
                assert(s@[p as int]@[k]);
            }
            lemma_count_rows_le(|q: int| is_covered(m, mem, q), p as nat);
            lemma_count_rows_le(|q: int| is_covered(m, mem, q) && target@[q] == 1, p as nat);
        }
        covered.push(any);
        if any {
            n_covered = n_covered + 1;
            if target[p] == 1 {
                n_covered_y1 = n_covered_y1 + 1;
            }
        }
        p = p + 1;
    }

    let mut rows: Vec<DispensabilityIndexRow> = Vec::new();
    let mut idx: usize = 0;
    while idx < element_names.len()
        invariant
            idx <= element_names@.len(),
            element_names@.len() <= u32::MAX + 1,
            n_rows == m.rows(),
            n_rows <= 64,
            m == *matrix,
            mem == cell.members@,
            n_mem == mem.len(),
            target@.len() == n_rows,
            s@.len() == n_rows,
            forall|q: int| 0 <= q < s@.len() ==> (#[trigger] s@[q])@.len() == mem.len(),
            forall|q: int, k: int|
                0 <= q < s@.len() && 0 <= k < mem.len() ==> (#[trigger] s@[q]@[k] <==> satisfies(m, q, mem[k]@)),
            covered@.len() == n_rows,
            forall|q: int| 0 <= q < n_rows ==> (#[trigger] covered@[q] <==> is_covered(m, mem, q)),
            n_covered == count_rows(|q: int| is_covered(m, mem, q), n_rows as nat),
            n_covered_y1 == count_rows(|q: int| is_covered(m, mem, q) && target@[q] == 1, n_rows as nat),
            rows@.len() == idx,
            forall|i: int|
                0 <= i < idx ==> {
                    let r = #[trigger] rows@[i];
                    &&& r.element_idx == i
                    &&& r.element_name@ == element_names@[i]@
                    &&& r.n_msc_with == members_with(mem, i as u32, mem.len())
                    &&& r.n_covered == count_rows(|q: int| is_covered(m, mem, q), m.rows())
                    &&& r.n_covered_y1 == count_rows(|q: int| is_covered(m, mem, q) && target@[q] == 1, m.rows())
                    &&& r.n_orphan == count_rows(|q: int| orphaned(m, mem, i as u32, q), m.rows())
                    &&& r.n_orphan_y1 == count_rows(
                        |q: int| orphaned(m, mem, i as u32, q) && target@[q] == 1,
                        m.rows(),
                    )
                },
        decreases element_names@.len() - idx,
    {
        let e = idx as u32;
        let n_msc_with = count_members_with(&cell.members, e);
        let mut without: Vec<bool> = Vec::new();
        let mut k: usize = 0;
        while k < n_mem
            invariant
                k <= n_mem,
                n_mem == mem.len(),
                mem == cell.members@,
                without@.len() == k,
                forall|kk: int| 0 <= kk < k ==> (#[trigger] without@[kk] <==> !mem[kk]@.contains(e)),
            decreases n_mem - k,
        {
            let c = member_contains(&cell.members[k], e);
            without.push(!c);
            k = k + 1;
        }
        let mut n_orphan: usize = 0;
        let mut n_orphan_y1: usize = 0;
        let mut p: usize = 0;
        while p < n_rows
            invariant
                p <= n_rows,
                n_rows == m.rows(),
                n_rows <= 64,
                m == *matrix,
                mem == cell.members@,
                target@.len() == n_rows,
                s@.len() == n_rows,
                forall|q: int| 0 <= q < s@.len() ==> (#[trigger] s@[q])@.len() == mem.len(),
                forall|q: int, kk: int|
                    0 <= q < s@.len() && 0 <= kk < mem.len() ==> (#[trigger] s@[q]@[kk] <==> satisfies(
                        m,
                        q,
                        mem[kk]@,
                    )),
                covered@.len() == n_rows,
                forall|q: int| 0 <= q < n_rows ==> (#[trigger] covered@[q] <==> is_covered(m, mem, q)),
                without@.len() == mem.len(),
                forall|kk: int| 0 <= kk < mem.len() ==> (#[trigger] without@[kk] <==> !mem[kk]@.contains(e)),
                n_orphan == count_rows(|q: int| orphaned(m, mem, e, q), p as nat),
                n_orphan_y1 == count_rows(|q: int| orphaned(m, mem, e, q) && target@[q] == 1, p as nat),
            decreases n_rows - p,
        {
            proof {
                lemma_count_rows_le(|q: int| orphaned(m, mem, e, q), p as nat);
                lemma_count_rows_le(|q: int| orphaned(m, mem, e, q) && target@[q] == 1, p as nat);
            }
            if covered[p] {
                let cov_without = any_set_in(&s[p], &without);
                proof {
                    if cov_without {
                        let k = choose|k: int| 0 <= k < s@[p as int]@.len() && without@[k] && #[trigger] s@[p as int]@[k];
                        assert(satisfies(m, p as int, mem[k]@));
                    }
                    if covered_without(m, mem, e, p as int) {
                        let k = choose|k: int| 0 <= k < mem.len() && !mem[k]@.contains(e) && #[trigger] satisfies(
                            m,
                            p as int,
                            mem[k]@,
                        );
                        assert(without@[k] && s@[p as int]@[k]);
                    }
                }
                if !cov_without {
                    n_orphan = n_orphan + 1;
                    if target[p] == 1 {
                        n_orphan_y1 = n_orphan_y1 + 1;
                    }
                }
            }
            p = p + 1;
        }
        let name: String = element_names[idx].to_owned();
        rows.push(
            DispensabilityIndexRow {
                element_idx: e,
                element_name: name,
                n_msc_with,
                n_covered,
                n_orphan,
                n_covered_y1,
                n_orphan_y1,
            },
        );
        idx = idx + 1;
    }
    rows
}

/// Orphans are covered rows, so `n_orphan <= n_covered` (`delta` lies in
/// `[0, 1]`), and likewise among target-1 rows.
pub proof fn lemma_orphans_bounded(m: BinaryMatrix, members: Seq<Vec<u32>>, e: u32, target: Seq<u8>)
    ensures
        count_rows(|p: int| orphaned(m, members, e, p), m.rows()) <= count_rows(
            |p: int| is_covered(m, members, p),
            m.rows(),
        ),
        count_rows(|p: int| orphaned(m, members, e, p) && target[p] == 1, m.rows()) <= count_rows(
            |p: int| is_covered(m, members, p) && target[p] == 1,
            m.rows(),
        ),
        count_rows(|p: int| orphaned(m, members, e, p) && target[p] == 1, m.rows()) <= count_rows(
            |p: int| orphaned(m, members, e, p),
            m.rows(),
        ),
{
    lemma_count_rows_mono(|p: int| orphaned(m, members, e, p), |p: int| is_covered(m, members, p), m.rows());
    lemma_count_rows_mono(
        |p: int| orphaned(m, members, e, p) && target[p] == 1,
        |p: int| is_covered(m, members, p) && target[p] == 1,
        m.rows(),
    );
    lemma_count_rows_mono(
        |p: int| orphaned(m, members, e, p) && target[p] == 1,
        |p: int| orphaned(m, members, e, p),
        m.rows(),
    );
}

/// An element in no member orphans no row (`delta == 1`).
pub proof fn lemma_absent_element_orphans_nothing(m: BinaryMatrix, members: Seq<Vec<u32>>, e: u32)
    requires
        forall|k: int| 0 <= k < members.len() ==> !(#[trigger] members[k])@.contains(e),
    ensures
        count_rows(|p: int| orphaned(m, members, e, p), m.rows()) == 0,
{
    assert forall|p: int| 0 <= p < m.rows() implies !#[trigger] orphaned(m, members, e, p) by {
        if is_covered(m, members, p) {
            let k = choose|k: int| 0 <= k < members.len() && #[trigger] satisfies(m, p, members[k]@);
            assert(!members[k]@.contains(e));
        }
    }
    lemma_count_rows_ext(|p: int| orphaned(m, members, e, p), |p: int| false, m.rows());
    lemma_count_rows_zero(m.rows());
}

proof fn lemma_count_rows_zero(n: nat)
    ensures
        count_rows(|p: int| false, n) == 0,
    decreases n,
{
    if n > 0 {
        lemma_count_rows_zero((n - 1) as nat);
    }
}

/// An element in every member orphans every covered row (`delta == 0`).
pub proof fn lemma_universal_element_orphans_all(m: BinaryMatrix, members: Seq<Vec<u32>>, e: u32)
    requires
        forall|k: int| 0 <= k < members.len() ==> (#[trigger] members[k])@.contains(e),
    ensures
        count_rows(|p: int| orphaned(m, members, e, p), m.rows()) == count_rows(
            |p: int| is_covered(m, members, p),
            m.rows(),
        ),
{
    assert forall|p: int| 0 <= p < m.rows() implies #[trigger] orphaned(m, members, e, p) == is_covered(
        m,
        members,
        p,
    ) by {
        if covered_without(m, members, e, p) {
            let k = choose|k: int| 0 <= k < members.len() && !members[k]@.contains(e) && #[trigger] satisfies(
                m,
                p,
                members[k]@,
            );
            assert(members[k]@.contains(e));
        }
    }
    lemma_count_rows_ext(|p: int| orphaned(m, members, e, p), |p: int| is_covered(m, members, p), m.rows());
}

} // verus!
