//! One representation of a cell (an antichain of configurations) for both
//! engines.
//!
//! The exhaustive engine's rows are filtered to the minimal ones; the
//! constructive engine's retained sets are converted to 0-based members
//! and their target counts are taken from the conjunction indicators.

use vstd::prelude::*;
use crate::bitset::members_spec;
use crate::cell_eval::{CellOutput, CellRow};
use crate::lattice::count_rows;
use crate::pairmi::{obs_in, one_based_members, PairMiEngine};

verus! {

/// Which engine produced a cell.
#[derive(Debug, Clone, Copy, PartialEq, Eq, Structural)]
pub enum CellSource {
    /// Exhaustive lattice ascent.
    Exhaustive,
    /// MI-restricted constructive ascent.
    MiRestricted,
}

/// A cell: parallel vectors, entry `i` describing the `i`-th
/// configuration of the antichain.
#[derive(Debug, Clone)]
pub struct Cell {
    /// The engine that produced the cell.
    pub source: CellSource,
    /// 0-based observation indices of each configuration, ascending.
    pub members: Vec<Vec<u32>>,
    /// Support of each configuration.
    pub n_set: Vec<u32>,
    /// Supporting cases whose target is 1, per configuration.
    pub n_set_y1: Vec<u32>,
}

/// Indices of the minimal rows among the first `n`.
pub open spec fn minimal_rows_upto(rows: Seq<CellRow>, n: nat) -> Seq<int>
    decreases n,
{
    if n == 0 {
        Seq::empty()
    } else {
        let prev = minimal_rows_upto(rows, (n - 1) as nat);
        if rows[n - 1].minimal {
            prev.push(n - 1)
        } else {
            prev
        }
    }
}

/// The cell of an evaluation keeps exactly its minimal rows, in row order,
/// wherever the rows that are not minimal stand: the kept indices
/// increase, each names a minimal row, every minimal row is named, and
/// the rows they name are the rows filtered by `minimal`.
pub proof fn lemma_cell_keeps_every_minimal_row(rows: Seq<CellRow>)
    ensures
        ({
            let idx = minimal_rows_upto(rows, rows.len());
            &&& forall|a: int, b: int| 0 <= a < b < idx.len() ==> #[trigger] idx[a] < #[trigger] idx[b]
            &&& forall|i: int| 0 <= i < idx.len() ==> 0 <= #[trigger] idx[i] < rows.len() && rows[idx[i]].minimal
            &&& forall|g: int| 0 <= g < rows.len() && (#[trigger] rows[g]).minimal ==> idx.contains(g)
            &&& idx.map_values(|g: int| rows[g]) == rows.filter(|r: CellRow| r.minimal)
        }),
{
    lemma_minimal_rows_prefix(rows, rows.len());
    assert(rows.subrange(0, rows.len() as int) =~= rows);
}

proof fn lemma_minimal_rows_prefix(rows: Seq<CellRow>, n: nat)
    requires
        n <= rows.len(),
    ensures
        ({
            let idx = minimal_rows_upto(rows, n);
            &&& forall|a: int, b: int| 0 <= a < b < idx.len() ==> #[trigger] idx[a] < #[trigger] idx[b]
            &&& forall|i: int| 0 <= i < idx.len() ==> 0 <= #[trigger] idx[i] < n && rows[idx[i]].minimal
            &&& forall|g: int| 0 <= g < n && (#[trigger] rows[g]).minimal ==> idx.contains(g)
            &&& idx.map_values(|g: int| rows[g]) == rows.subrange(0, n as int).filter(|r: CellRow| r.minimal)
        }),
    decreases n,
{
    reveal(Seq::filter);
    let idx = minimal_rows_upto(rows, n);
    if n == 0 {
        assert(idx.map_values(|g: int| rows[g]) =~= Seq::<CellRow>::empty());
        assert(rows.subrange(0, 0).filter(|r: CellRow| r.minimal) =~= Seq::<CellRow>::empty());
    } else {
        lemma_minimal_rows_prefix(rows, (n - 1) as nat);
        let prev = minimal_rows_upto(rows, (n - 1) as nat);
        let sub = rows.subrange(0, n as int);
        assert(sub.drop_last() =~= rows.subrange(0, n - 1));
        assert(sub.last() == rows[n - 1]);
        if rows[n - 1].minimal {
            assert(idx == prev.push(n - 1));
            assert(idx.map_values(|g: int| rows[g]) =~= prev.map_values(|g: int| rows[g]).push(rows[n - 1]));
            assert forall|g: int| 0 <= g < n && (#[trigger] rows[g]).minimal implies idx.contains(g) by {
                if g < n - 1 {
                    let t = choose|t: int| 0 <= t < prev.len() && prev[t] == g;
                    assert(idx[t] == prev[t]);
                } else {
                    assert(idx[prev.len() as int] == g);
                }
            }
        } else {
            assert(idx == prev);
        }
    }
}

/// Observations among the first `t.len()` that have every variable of `vm`
/// and target 1.
pub open spec fn set_count_y1(m: crate::matrix::BinaryMatrix, vm: u64, t: Seq<u8>) -> nat {
    count_rows(|i: int| i < m.cols() && obs_in(m, vm, i) && t[i] == 1, t.len())
}

/// The cell of an exhaustive evaluation: its minimal rows, in order.
pub fn from_exhaustive(output: &CellOutput, source: CellSource) -> (cell: Cell)
    ensures
        ({
            let idx = minimal_rows_upto(output.rows@, output.rows@.len());
            let kept = output.rows@.filter(|r: CellRow| r.minimal);
            &&& cell.source == source
            &&& cell.members@.len() == kept.len()
            &&& forall|i: int|
                0 <= i < kept.len() ==> {
                    &&& (#[trigger] cell.members@[i])@ == kept[i].set_idx@
                    &&& cell.n_set@[i] == kept[i].n_set
                    &&& cell.n_set_y1@[i] == kept[i].n_set_y1
                }
            &&& cell.members@.len() == idx.len()
            &&& cell.n_set@.len() == idx.len()
            &&& cell.n_set_y1@.len() == idx.len()
            &&& forall|i: int|
                0 <= i < idx.len() ==> {
                    let row = output.rows@[idx[i]];
                    &&& (#[trigger] cell.members@[i])@ == row.set_idx@
                    &&& cell.n_set@[i] == row.n_set
                    &&& cell.n_set_y1@[i] == row.n_set_y1
                }
        }),
{
    let ghost rows = output.rows@;
    let mut members: Vec<Vec<u32>> = Vec::new();
    let mut n_set: Vec<u32> = Vec::new();
    let mut n_set_y1: Vec<u32> = Vec::new();
    let mut g: usize = 0;
    while g < output.rows.len()
        invariant
            g <= rows.len(),
            rows == output.rows@,
            members@.len() == minimal_rows_upto(rows, g as nat).len(),
            n_set@.len() == members@.len(),
            n_set_y1@.len() == members@.len(),
            forall|i: int|
                0 <= i < members@.len() ==> {
                    let row = rows[minimal_rows_upto(rows, g as nat)[i]];
                    &&& (#[trigger] members@[i])@ == row.set_idx@
                    &&& n_set@[i] == row.n_set
                    &&& n_set_y1@[i] == row.n_set_y1
                },
        decreases rows.len() - g,
    {
        let row = &output.rows[g];
        let ghost prev = minimal_rows_upto(rows, g as nat);
        let ghost old_members = members@;
        let ghost old_n_set = n_set@;
        let ghost old_n_set_y1 = n_set_y1@;
        if row.minimal {
            let idx = row.set_idx.clone();
            proof {
                assert(idx@ =~= row.set_idx@);
            }
            members.push(idx);
            n_set.push(row.n_set);
            n_set_y1.push(row.n_set_y1);
            proof {
                let next = minimal_rows_upto(rows, (g + 1) as nat);
                assert(next == prev.push(g as int));
                assert forall|i: int| 0 <= i < members@.len() implies {
                    let r = rows[next[i]];
                    &&& (#[trigger] members@[i])@ == r.set_idx@
                    &&& n_set@[i] == r.n_set
                    &&& n_set_y1@[i] == r.n_set_y1
                } by {
                    if i < prev.len() {
                        assert(next[i] == prev[i]);
                        assert(members@[i] == old_members[i]);
                        assert(n_set@[i] == old_n_set[i]);
                        assert(n_set_y1@[i] == old_n_set_y1[i]);
                    } else {
                        assert(next[i] == g as int);
                        assert(rows[g as int] == *row);
                    }
                }
            }
        }
        g = g + 1;
    }
    proof {
        lemma_cell_keeps_every_minimal_row(rows);
        let idx = minimal_rows_upto(rows, rows.len());
        let kept = rows.filter(|r: CellRow| r.minimal);
        assert(idx.map_values(|g: int| rows[g]).len() == kept.len());
        assert forall|i: int| 0 <= i < kept.len() implies kept[i] == rows[idx[i]] by {
            assert(idx.map_values(|g: int| rows[g])[i] == rows[idx[i]]);
        }
    }
    Cell { source, members, n_set, n_set_y1 }
}

proof fn lemma_y1_bound(m: crate::matrix::BinaryMatrix, vm: u64, t: Seq<u8>, k: nat)
    requires
        k <= t.len(),
    ensures
        count_rows(|i: int| i < m.cols() && obs_in(m, vm, i) && t[i] == 1, k) <= m.cols(),
        count_rows(|i: int| i < m.cols() && obs_in(m, vm, i) && t[i] == 1, k) <= k,
{
    let p = |i: int| i < m.cols() && obs_in(m, vm, i) && t[i] == 1;
    crate::lattice::lemma_count_rows_le(p, k);
    if k > m.cols() {
        crate::lattice::lemma_count_rows_tail(p, m.cols(), k);
        crate::lattice::lemma_count_rows_le(p, m.cols());
    }
}

/// The cell of the constructive engine's store: every retained set, with
/// 0-based members, its conjunction count, and the number of observations
/// (among the first `target.len()`) in the conjunction with target 1.
pub fn from_pairmi(engine: &PairMiEngine, target: &[u8], source: CellSource) -> (cell: Cell)
    requires
        engine.wf(),
    ensures
        cell.source == source,
        cell.members@.len() == engine.vmasks().len(),
        cell.n_set@.len() == engine.vmasks().len(),
        cell.n_set_y1@.len() == engine.vmasks().len(),
        forall|k: int|
            0 <= k < engine.vmasks().len() ==> {
                &&& (#[trigger] cell.members@[k])@ == members_spec(engine.vmasks()[k])
                &&& cell.n_set@[k] == engine.pops()[k]
                &&& cell.n_set_y1@[k] == set_count_y1(engine.matrix(), engine.vmasks()[k], target@)
            },
{
    let ghost m = engine.matrix();
    proof {
        crate::pairmi::lemma_stored_counts(engine);
    }
    let results = engine.results();
    let indicators = engine.indicators();
    let n_obs = target.len();
    let mut members: Vec<Vec<u32>> = Vec::new();
    let mut n_set: Vec<u32> = Vec::new();
    let mut n_set_y1: Vec<u32> = Vec::new();
    let mut k: usize = 0;
    while k < results.len()
        invariant
            k <= results@.len(),
            engine.wf(),
            m == engine.matrix(),
            m.cols() <= u32::MAX,
            n_obs == target@.len(),
            engine.pops().len() == engine.vmasks().len(),
            results@.len() == engine.vmasks().len(),
            indicators@.len() == engine.vmasks().len(),
            forall|s: int|
                0 <= s < results@.len() ==> {
                    let r = #[trigger] results@[s];
                    &&& r.pop == engine.pops()[s]
                    &&& r.members@ == one_based_members(engine.vmasks()[s])
                },
            forall|s: int| 0 <= s < indicators@.len() ==> (#[trigger] indicators@[s])@.len() == m.cols(),
            forall|s: int, i: int|
                0 <= s < indicators@.len() && 0 <= i < m.cols() ==> #[trigger] indicators@[s]@[i] == if obs_in(
                    m,
                    engine.vmasks()[s],
                    i,
                ) {
                    1u8
                } else {
                    0u8
                },
            members@.len() == k,
            n_set@.len() == k,
            n_set_y1@.len() == k,
            forall|s: int|
                0 <= s < k ==> {
                    &&& (#[trigger] members@[s])@ == members_spec(engine.vmasks()[s])
                    &&& n_set@[s] == engine.pops()[s]
                    &&& n_set_y1@[s] == set_count_y1(m, engine.vmasks()[s], target@)
                },
        decreases results@.len() - k,
    {
        let row = &results[k];
        proof {
            crate::bitset::lemma_members_spec(engine.vmasks()[k as int]);
        }
        let mut zero_based: Vec<u32> = Vec::new();
        let mut t: usize = 0;
        while t < row.members.len()
            invariant
                t <= row.members@.len(),
                row.members@ == one_based_members(engine.vmasks()[k as int]),
                forall|u: int|
                    0 <= u < members_spec(engine.vmasks()[k as int]).len() ==> #[trigger] members_spec(
                        engine.vmasks()[k as int],
                    )[u] < 64,
                zero_based@.len() == t,
                forall|u: int| 0 <= u < t ==> #[trigger] zero_based@[u] == members_spec(engine.vmasks()[k as int])[u],
            decreases row.members@.len() - t,
        {
            zero_based.push(row.members[t] - 1);
            t = t + 1;
        }
        proof {
            assert(zero_based@ =~= members_spec(engine.vmasks()[k as int]));
        }
        let ghost old_members = members@;
        let ghost old_n_set = n_set@;
        let ghost old_n_set_y1 = n_set_y1@;
        members.push(zero_based);
        n_set.push(row.pop);
        let ind = &indicators[k];
        let ghost vm = engine.vmasks()[k as int];
        let ghost p = |i: int| i < m.cols() && obs_in(m, vm, i) && target@[i] == 1;
        let mut y1: u32 = 0;
        let mut i: usize = 0;
        while i < n_obs
            invariant
                i <= n_obs,
                n_obs == target@.len(),
                m.cols() <= u32::MAX,
                p == (|i: int| i < m.cols() && obs_in(m, vm, i) && target@[i] == 1),
                ind@.len() == m.cols(),
                forall|x: int| 0 <= x < m.cols() ==> #[trigger] ind@[x] == if obs_in(m, vm, x) {
                    1u8
                } else {
                    0u8
                },
                y1 == count_rows(p, i as nat),
            decreases n_obs - i,
        {
            proof {
                lemma_y1_bound(m, vm, target@, (i + 1) as nat);
                assert(count_rows(p, (i + 1) as nat) == count_rows(p, i as nat) + if p(i as int) {
                    1nat
                } else {
                    0nat
                });
                if i < m.cols() {
                    assert(ind@[i as int] == 1 <==> obs_in(m, vm, i as int));
                }
            }
            if i < ind.len() && ind[i] == 1 && target[i] == 1 {
                y1 = y1 + 1;
            }
            i = i + 1;
        }
        n_set_y1.push(y1);
        proof {
            assert(y1 == set_count_y1(m, vm, target@));
            assert forall|s: int| 0 <= s < k + 1 implies {
                &&& (#[trigger] members@[s])@ == members_spec(engine.vmasks()[s])
                &&& n_set@[s] == engine.pops()[s]
                &&& n_set_y1@[s] == set_count_y1(m, engine.vmasks()[s], target@)
            } by {
                if s < k {
                    assert(members@[s] == old_members[s]);
                    assert(n_set@[s] == old_n_set[s]);
                    assert(n_set_y1@[s] == old_n_set_y1[s]);
                }
            }
        }
        k = k + 1;
    }
    Cell { source, members, n_set, n_set_y1 }
}

} // verus!
