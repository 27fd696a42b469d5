//! Cell evaluation over an exhaustive store, with greedy antichain
//! reduction.
//!
//! The store is depth-major, so configurations stream in cardinality order.
//! A configuration is in play for a target when it shares no column with
//! the target's exclusion mask and passes the sufficiency gate. An in-play
//! configuration is minimal when no earlier accepted (minimal) one is a
//! subset of it with no larger cardinality; minimal ones are accepted.
//!
//! The gates (Wilson lower bound or point estimate) are floating-point
//! tests on `(n_set, n_set_y1)`; they are handed in as one flag per
//! configuration.

use vstd::prelude::*;
use crate::bitset::{
    extract_members, lemma_subset_popcount_le, lemma_subset_same_popcount_eq, members_spec, popcount,
    popcount_spec,
};
use crate::exhaustive::EmscStore;

verus! {

/// Sufficiency gate mode.
#[derive(Debug, Clone, Copy, PartialEq, Eq, Structural)]
pub enum Criterion {
    /// Wilson score lower bound gate.
    Wilson,
    /// Point estimate gate.
    Point,
}

/// Output verbosity mode.
#[derive(Debug, Clone, Copy, PartialEq, Eq, Structural)]
pub enum Detail {
    /// Emit every sufficient configuration (minimal and not).
    Full,
    /// Emit only the minimal (antichain) configurations.
    Count,
}

/// One evaluated configuration.
#[derive(Debug, Clone)]
pub struct CellRow {
    /// Number of observations in the configuration.
    pub cardinality: u32,
    /// 0-based observation indices, ascending.
    pub set_idx: Vec<u32>,
    /// Support of the configuration.
    pub n_set: u32,
    /// Supporting rows whose target is 1.
    pub n_set_y1: u32,
    /// Whether the configuration is minimal (antichain member).
    pub minimal: bool,
}

/// Cell evaluation output.
#[derive(Debug, Clone)]
pub struct CellOutput {
    /// Emitted rows, in store order.
    pub rows: Vec<CellRow>,
    /// Number of sufficient configurations (minimal or not).
    pub n_sufficient: i64,
}

/// `a` blocks `q`: `a` has no more columns than `q` and is a subset of it.
pub open spec fn blocks(a: u64, q: u64) -> bool {
    popcount_spec(a) <= popcount_spec(q) && a & q == a
}

/// No mask of `acc` blocks `q`.
pub open spec fn is_fresh(acc: Seq<u64>, q: u64) -> bool {
    forall|t: int| 0 <= t < acc.len() ==> !blocks(#[trigger] acc[t], q)
}

/// Configuration `g` shares no column with `excl` and is sufficient.
pub open spec fn in_play(masks: Seq<u64>, suff: Seq<bool>, excl: u64, g: int) -> bool {
    suff[g] && masks[g] & excl == 0
}

/// The masks accepted into the antichain among the first `n` configurations.
pub open spec fn antichain_upto(masks: Seq<u64>, suff: Seq<bool>, excl: u64, n: nat) -> Seq<u64>
    decreases n,
{
    if n == 0 {
        Seq::empty()
    } else {
        let acc = antichain_upto(masks, suff, excl, (n - 1) as nat);
        let g = n - 1;
        if in_play(masks, suff, excl, g) && is_fresh(acc, masks[g]) {
            acc.push(masks[g])
        } else {
            acc
        }
    }
}

/// Configuration `g` is minimal: in play, and blocked by no earlier
/// accepted configuration.
pub open spec fn is_minimal_at(masks: Seq<u64>, suff: Seq<bool>, excl: u64, g: int) -> bool {
    in_play(masks, suff, excl, g) && is_fresh(antichain_upto(masks, suff, excl, g as nat), masks[g])
}

/// Number of in-play configurations among the first `n`.
pub open spec fn sufficient_upto(masks: Seq<u64>, suff: Seq<bool>, excl: u64, n: nat) -> nat
    decreases n,
{
    if n == 0 {
        0
    } else {
        sufficient_upto(masks, suff, excl, (n - 1) as nat) + if in_play(masks, suff, excl, n - 1) {
            1nat
        } else {
            0nat
        }
    }
}

/// Store indices of the emitted rows among the first `n` configurations.
pub open spec fn emitted_upto(masks: Seq<u64>, suff: Seq<bool>, excl: u64, detail: Detail, n: nat) -> Seq<int>
    decreases n,
{
    if n == 0 {
        Seq::empty()
    } else {
        let prev = emitted_upto(masks, suff, excl, detail, (n - 1) as nat);
        let g = n - 1;
        if in_play(masks, suff, excl, g) && (detail == Detail::Full || is_minimal_at(masks, suff, excl, g)) {
            prev.push(g)
        } else {
            prev
        }
    }
}

/// The exclusion mask of target `k` (none past the stored masks).
pub open spec fn excl_of(store: EmscStore, k: int) -> u64 {
    if 0 <= k < store.excl_mask@.len() {
        store.excl_mask@[k]
    } else {
        0
    }
}

/// `row` describes configuration `g` of `store` for target `k`.
pub open spec fn row_of(row: CellRow, store: EmscStore, k: int, g: int, minimal: bool) -> bool {
    let q = store.cfg_mask@[g];
    &&& row.cardinality == popcount_spec(q)
    &&& row.set_idx@ == members_spec(q)
    &&& row.n_set == store.cfg_supp@[g]
    &&& row.n_set_y1 == store.cfg_y1@[g * store.n_targets + k]
    &&& row.minimal == minimal
}

/// Whether no accepted mask blocks `q` (`acc_cards` holds their popcounts).
fn fresh(acc_masks: &Vec<u64>, acc_cards: &Vec<u32>, q: u64, card: u32) -> (b: bool)
    requires
        acc_cards@.len() == acc_masks@.len(),
        forall|t: int| 0 <= t < acc_masks@.len() ==> #[trigger] acc_cards@[t] == popcount_spec(acc_masks@[t]),
        card == popcount_spec(q),
    ensures
        b == is_fresh(acc_masks@, q),
{
    let mut a: usize = 0;
    while a < acc_masks.len()
        invariant
            a <= acc_masks@.len(),
            acc_cards@.len() == acc_masks@.len(),
            forall|t: int| 0 <= t < acc_masks@.len() ==> #[trigger] acc_cards@[t] == popcount_spec(acc_masks@[t]),
            card == popcount_spec(q),
            forall|t: int| 0 <= t < a ==> !blocks(#[trigger] acc_masks@[t], q),
        decreases acc_masks@.len() - a,
    {
        if acc_cards[a] <= card && (acc_masks[a] & q) == acc_masks[a] {
            proof {
                assert(blocks(acc_masks@[a as int], q));
            }
            return false;
        }
        a = a + 1;
    }
    true
}

proof fn lemma_index_in_range(g: int, k: int, t: int, n: int)
    by (nonlinear_arith)
    requires
        0 <= g < n,
        0 <= k < t,
    ensures
        0 <= g * t + k < n * t,
{
}

proof fn lemma_sufficient_le(masks: Seq<u64>, suff: Seq<bool>, excl: u64, n: nat)
    ensures
        sufficient_upto(masks, suff, excl, n) <= n,
    decreases n,
{
    if n > 0 {
        lemma_sufficient_le(masks, suff, excl, (n - 1) as nat);
    }
}

/// Evaluate one (target, gate) cell of the store.
///
/// `sufficient[g]` is whether configuration `g` is sufficient. Rows come
/// out in store order: every in-play configuration for `Detail::Full`, the
/// minimal ones for `Detail::Count`; `n_sufficient` counts every in-play
/// configuration. A `target_k` past the exclusion masks has no exclusion.
pub fn evaluate_cell(store: &EmscStore, target_k: usize, sufficient: &[bool], detail: Detail) -> (out: CellOutput)
    requires
        store.wf(),
        sufficient@.len() == store.cfg_mask@.len(),
        store.cfg_mask@.len() > 0 ==> target_k < store.n_targets,
        store.cfg_mask@.len() <= i64::MAX,
    ensures
        ({
            let masks = store.cfg_mask@;
            let excl = excl_of(*store, target_k as int);
            let em = emitted_upto(masks, sufficient@, excl, detail, masks.len());
            &&& out.n_sufficient == sufficient_upto(masks, sufficient@, excl, masks.len())
            &&& out.rows@.len() == em.len()
            &&& forall|i: int|
                0 <= i < em.len() ==> row_of(
                    #[trigger] out.rows@[i],
                    *store,
                    target_k as int,
                    em[i],
                    is_minimal_at(masks, sufficient@, excl, em[i]),
                )
        }),
{
    let ghost masks = store.cfg_mask@;
    let n_cfg = store.cfg_mask.len();
    let excl: u64 = if target_k < store.excl_mask.len() {
        store.excl_mask[target_k]
    } else {
        0
    };
    let n_targets = store.n_targets as usize;
    let mut rows: Vec<CellRow> = Vec::new();
    let mut acc_masks: Vec<u64> = Vec::new();
    let mut acc_cards: Vec<u32> = Vec::new();
    let mut n_sufficient: i64 = 0;
    let mut g: usize = 0;
    while g < n_cfg
        invariant
            g <= n_cfg,
            n_cfg == masks.len(),
            masks == store.cfg_mask@,
            store.wf(),
            sufficient@.len() == n_cfg,
            n_cfg > 0 ==> target_k < store.n_targets,
            n_targets == store.n_targets,
            n_cfg <= i64::MAX,
            excl == excl_of(*store, target_k as int),
            acc_masks@ == antichain_upto(masks, sufficient@, excl, g as nat),
            acc_cards@.len() == acc_masks@.len(),
            forall|t: int| 0 <= t < acc_masks@.len() ==> #[trigger] acc_cards@[t] == popcount_spec(acc_masks@[t]),
            n_sufficient == sufficient_upto(masks, sufficient@, excl, g as nat),
            rows@.len() == emitted_upto(masks, sufficient@, excl, detail, g as nat).len(),
            forall|i: int|
                0 <= i < rows@.len() ==> row_of(
                    #[trigger] rows@[i],
                    *store,
                    target_k as int,
                    emitted_upto(masks, sufficient@, excl, detail, g as nat)[i],
                    is_minimal_at(
                        masks,
                        sufficient@,
                        excl,
                        emitted_upto(masks, sufficient@, excl, detail, g as nat)[i],
                    ),
                ),
        decreases n_cfg - g,
    {
        let q = store.cfg_mask[g];
        let ghost em_old = emitted_upto(masks, sufficient@, excl, detail, g as nat);
        proof {
            lemma_sufficient_le(masks, sufficient@, excl, g as nat);
        }
        if sufficient[g] && (q & excl) == 0 {
            n_sufficient = n_sufficient + 1;
            let card = popcount(q);
            let is_min = fresh(&acc_masks, &acc_cards, q, card);
            if is_min {
                acc_masks.push(q);
                acc_cards.push(card);
            }
            if detail == Detail::Full || is_min {
                let y1_len = store.cfg_y1.len();
                proof {
                    lemma_index_in_range(g as int, target_k as int, n_targets as int, n_cfg as int);
                    assert(store.cfg_y1@.len() == n_cfg * n_targets);
                    assert(g * n_targets + target_k < store.cfg_y1@.len());
                    assert(g * n_targets <= usize::MAX);
                }
                let base = g * n_targets;
                let members = extract_members(q);
                let row = CellRow {
                    cardinality: card,
                    set_idx: members,
                    n_set: store.cfg_supp[g],
                    n_set_y1: store.cfg_y1[base + target_k],
                    minimal: is_min,
                };
                rows.push(row);
                proof {
                    let em_new = emitted_upto(masks, sufficient@, excl, detail, (g + 1) as nat);
                    assert(em_new == em_old.push(g as int));
                    assert forall|i: int| 0 <= i < rows@.len() implies row_of(
                        #[trigger] rows@[i],
                        *store,
                        target_k as int,
                        em_new[i],
                        is_minimal_at(masks, sufficient@, excl, em_new[i]),
                    ) by {
                        if i < em_old.len() {
                            assert(em_new[i] == em_old[i]);
                        }
                    }
                }
            }
        }
        g = g + 1;
    }
    CellOutput { rows, n_sufficient }
}

/// An accepted configuration stays in the antichain of every longer prefix.
proof fn lemma_antichain_keeps(masks: Seq<u64>, suff: Seq<bool>, excl: u64, g: int, n: nat)
    requires
        0 <= g < n <= masks.len(),
        is_minimal_at(masks, suff, excl, g),
    ensures
        exists|t: int|
            0 <= t < antichain_upto(masks, suff, excl, n).len() && #[trigger] antichain_upto(
                masks,
                suff,
                excl,
                n,
            )[t] == masks[g],
    decreases n,
{
    let acc = antichain_upto(masks, suff, excl, n);
    if n == g + 1 {
        let prev = antichain_upto(masks, suff, excl, g as nat);
        assert(acc == prev.push(masks[g]));
        assert(acc[prev.len() as int] == masks[g]);
    } else {
        lemma_antichain_keeps(masks, suff, excl, g, (n - 1) as nat);
        let prev = antichain_upto(masks, suff, excl, (n - 1) as nat);
        let t = choose|t: int| 0 <= t < prev.len() && #[trigger] prev[t] == masks[g];
        if acc != prev {
            assert(acc == prev.push(masks[n - 1]));
            assert(acc[t] == prev[t]);
        }
        assert(acc[t] == masks[g]);
    }
}

/// Every accepted mask before `n` is the mask of a minimal configuration
/// before `n`.
proof fn lemma_antichain_members(masks: Seq<u64>, suff: Seq<bool>, excl: u64, n: nat, t: int)
    requires
        n <= masks.len(),
        0 <= t < antichain_upto(masks, suff, excl, n).len(),
    ensures
        exists|g: int|
            0 <= g < n && is_minimal_at(masks, suff, excl, g) && #[trigger] masks[g] == antichain_upto(
                masks,
                suff,
                excl,
                n,
            )[t],
    decreases n,
{
    let acc = antichain_upto(masks, suff, excl, n);
    let prev = antichain_upto(masks, suff, excl, (n - 1) as nat);
    if acc != prev && t == prev.len() {
        assert(acc == prev.push(masks[n - 1]));
        assert(masks[n - 1] == acc[t]);
    } else {
        if acc != prev {
            assert(acc == prev.push(masks[n - 1]));
            assert(acc[t] == prev[t]);
        }
        lemma_antichain_members(masks, suff, excl, (n - 1) as nat, t);
        let g = choose|g: int|
            0 <= g < n - 1 && is_minimal_at(masks, suff, excl, g) && #[trigger] masks[g] == prev[t];
        assert(masks[g] == acc[t]);
    }
}

/// The rows of a cell come in store order, one per configuration: with
/// `Detail::Full` exactly the in-play configurations, with `Detail::Count`
/// exactly the minimal ones.
pub proof fn lemma_emitted_rows_exact(masks: Seq<u64>, suff: Seq<bool>, excl: u64, detail: Detail, n: nat)
    requires
        n <= masks.len(),
    ensures
        ({
            let em = emitted_upto(masks, suff, excl, detail, n);
            &&& forall|a: int, b: int| 0 <= a < b < em.len() ==> #[trigger] em[a] < #[trigger] em[b]
            &&& forall|i: int|
                0 <= i < em.len() ==> 0 <= #[trigger] em[i] < n && (if detail == Detail::Full {
                    in_play(masks, suff, excl, em[i])
                } else {
                    is_minimal_at(masks, suff, excl, em[i])
                })
            &&& forall|g: int|
                0 <= g < n && (if detail == Detail::Full {
                    in_play(masks, suff, excl, g)
                } else {
                    is_minimal_at(masks, suff, excl, g)
                }) ==> #[trigger] em.contains(g)
        }),
    decreases n,
{
    if n > 0 {
        lemma_emitted_rows_exact(masks, suff, excl, detail, (n - 1) as nat);
        let prev = emitted_upto(masks, suff, excl, detail, (n - 1) as nat);
        let em = emitted_upto(masks, suff, excl, detail, n);
        assert forall|g: int|
            0 <= g < n && (if detail == Detail::Full {
                in_play(masks, suff, excl, g)
            } else {
                is_minimal_at(masks, suff, excl, g)
            }) implies #[trigger] em.contains(g) by {
            if g < n - 1 {
                assert(prev.contains(g));
                let t = choose|t: int| 0 <= t < prev.len() && prev[t] == g;
                if em != prev {
                    assert(em == prev.push(n - 1));
                    assert(em[t] == prev[t]);
                }
            } else {
                assert(em == prev.push(n - 1));
                assert(em[prev.len() as int] == g);
            }
        }
        if em != prev {
            assert(em == prev.push(n - 1));
        }
    }
}

/// Greedy minimality is exactly the antichain rule over the store order:
/// a configuration is minimal if and only if it is in play and no earlier
/// minimal configuration with no more columns is a subset of it. Sharing
/// columns with an earlier minimal configuration does not block it.
pub proof fn lemma_minimal_iff_no_earlier_minimal_subset(masks: Seq<u64>, suff: Seq<bool>, excl: u64, g: int)
    requires
        0 <= g < masks.len(),
    ensures
        is_minimal_at(masks, suff, excl, g) <==> (in_play(masks, suff, excl, g) && forall|g2: int|
            0 <= g2 < g && #[trigger] is_minimal_at(masks, suff, excl, g2) ==> !(popcount_spec(masks[g2])
                <= popcount_spec(masks[g]) && masks[g2] & masks[g] == masks[g2])),
{
    let acc = antichain_upto(masks, suff, excl, g as nat);
    if is_minimal_at(masks, suff, excl, g) {
        assert forall|g2: int| 0 <= g2 < g && #[trigger] is_minimal_at(masks, suff, excl, g2) implies !(popcount_spec(
            masks[g2],
        ) <= popcount_spec(masks[g]) && masks[g2] & masks[g] == masks[g2]) by {
            lemma_antichain_keeps(masks, suff, excl, g2, g as nat);
            let t = choose|t: int| 0 <= t < acc.len() && #[trigger] acc[t] == masks[g2];
            assert(!blocks(acc[t], masks[g]));
        }
    }
    if in_play(masks, suff, excl, g) && forall|g2: int|
        0 <= g2 < g && #[trigger] is_minimal_at(masks, suff, excl, g2) ==> !(popcount_spec(masks[g2])
            <= popcount_spec(masks[g]) && masks[g2] & masks[g] == masks[g2]) {
        assert forall|t: int| 0 <= t < acc.len() implies !blocks(#[trigger] acc[t], masks[g]) by {
            lemma_antichain_members(masks, suff, excl, g as nat, t);
            let g2 = choose|g2: int|
                0 <= g2 < g && is_minimal_at(masks, suff, excl, g2) && #[trigger] masks[g2] == acc[t];
        }
    }
}

/// An earlier minimal configuration is never a subset of a later minimal
/// one.
pub proof fn lemma_minimal_earlier_not_subset(masks: Seq<u64>, suff: Seq<bool>, excl: u64, g1: int, g2: int)
    requires
        0 <= g1 < g2 < masks.len(),
        is_minimal_at(masks, suff, excl, g1),
        is_minimal_at(masks, suff, excl, g2),
    ensures
        masks[g1] & masks[g2] != masks[g1],
{
    lemma_antichain_keeps(masks, suff, excl, g1, g2 as nat);
    let acc = antichain_upto(masks, suff, excl, g2 as nat);
    let t = choose|t: int| 0 <= t < acc.len() && #[trigger] acc[t] == masks[g1];
    assert(!blocks(acc[t], masks[g2]));
    if masks[g1] & masks[g2] == masks[g1] {
        lemma_subset_popcount_le(masks[g1], masks[g2]);
    }
}

/// In a cardinality-ascending store of distinct masks (as the ascent
/// builds), the minimal configurations form an antichain: no minimal mask
/// is a subset of another.
pub proof fn lemma_minimal_antichain(masks: Seq<u64>, suff: Seq<bool>, excl: u64, g1: int, g2: int)
    requires
        0 <= g1 < masks.len(),
        0 <= g2 < masks.len(),
        g1 != g2,
        forall|i: int, j: int|
            0 <= i <= j < masks.len() ==> popcount_spec(#[trigger] masks[i]) <= popcount_spec(
                #[trigger] masks[j],
            ),
        forall|i: int, j: int| 0 <= i < j < masks.len() ==> #[trigger] masks[i] != #[trigger] masks[j],
        is_minimal_at(masks, suff, excl, g1),
        is_minimal_at(masks, suff, excl, g2),
    ensures
        masks[g1] & masks[g2] != masks[g1],
{
    if g1 < g2 {
        lemma_minimal_earlier_not_subset(masks, suff, excl, g1, g2);
    } else {
        if masks[g1] & masks[g2] == masks[g1] {
            lemma_subset_popcount_le(masks[g1], masks[g2]);
            assert(popcount_spec(masks[g2]) <= popcount_spec(masks[g1]));
            lemma_subset_same_popcount_eq(masks[g1], masks[g2]);
        }
    }
}

/// `Detail::Count` emits exactly the `Detail::Full` rows that are minimal.
pub proof fn lemma_count_rows_are_minimal_full_rows(masks: Seq<u64>, suff: Seq<bool>, excl: u64, n: nat)
    requires
        n <= masks.len(),
    ensures
        emitted_upto(masks, suff, excl, Detail::Count, n) == emitted_upto(
            masks,
            suff,
            excl,
            Detail::Full,
            n,
        ).filter(|g: int| is_minimal_at(masks, suff, excl, g)),
    decreases n,
{
    reveal(Seq::filter);
    let pred = |g: int| is_minimal_at(masks, suff, excl, g);
    let full = emitted_upto(masks, suff, excl, Detail::Full, n);
    if n == 0 {
        assert(full.filter(pred) =~= Seq::<int>::empty());
    } else {
        lemma_count_rows_are_minimal_full_rows(masks, suff, excl, (n - 1) as nat);
        let prev = emitted_upto(masks, suff, excl, Detail::Full, (n - 1) as nat);
        if in_play(masks, suff, excl, n - 1) {
            assert(full == prev.push(n - 1));
            assert(full.drop_last() =~= prev);
            assert(full.last() == n - 1);
        } else {
            assert(full == prev);
        }
    }
}

/// `Detail::Full` emits one row per sufficient configuration.
pub proof fn lemma_full_rows_count_sufficient(masks: Seq<u64>, suff: Seq<bool>, excl: u64, n: nat)
    requires
        n <= masks.len(),
    ensures
        emitted_upto(masks, suff, excl, Detail::Full, n).len() == sufficient_upto(masks, suff, excl, n),
    decreases n,
{
    if n > 0 {
        lemma_full_rows_count_sufficient(masks, suff, excl, (n - 1) as nat);
    }
}

} // verus!
