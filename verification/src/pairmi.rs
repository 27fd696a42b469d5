//! Constructive ascent engine.
//!
//! Each variable (matrix row) is packed as an indicator over the
//! observations (columns), `ceil(N / 64)` words per variable. Depth 2 pairs
//! every two variables in combination order `(i, j)`, `i < j`; every later
//! depth extends each set retained at the previous depth by every variable
//! not yet in it, in variable order, keeping the first significant way of
//! reaching a set (canonical-set dedup). Retained sets go to an append-only
//! store with their conjunction indicator, its popcount, and provenance.
//!
//! Whether a candidate is significant is a floating-point test on its
//! counts (mutual information and a G-test); [`PairMiEngine::candidates`]
//! lists the candidates of a depth with those counts, and
//! [`PairMiEngine::depth`] takes one flag per candidate.

use vstd::prelude::*;
use std::collections::HashSet;
use crate::bitset::{
    and_count, and_popcount, extract_members, has_bit, lemma_or_single_bit, members_spec, pack_column, popcount_spec,
    words_for,
};
use crate::error::ConfiguralError;
use crate::lattice::{
    bit_mask, count_rows, lemma_and_bit, lemma_bits_count, lemma_count_rows_ext, lemma_count_rows_le,
    lemma_count_rows_split, lemma_count_rows_tail, lemma_popcount_add_bit, lemma_single_bit,
};
use crate::matrix::BinaryMatrix;

verus! {

broadcast use vstd::std_specs::hash::group_hash_axioms;

/// One retained set, in retention order. Indices are 1-based; `members`
/// is ascending.
#[derive(Debug, Clone)]
pub struct PairMiResultRow {
    /// Depth at which the set was retained (2, 3, ...).
    pub depth: u32,
    /// The variable added at this depth (1-based).
    pub var: u32,
    /// Depth 2: the second variable (1-based); later depths: the 1-based
    /// store index of the parent set.
    pub parent: u32,
    /// Number of observations in the conjunction of the set's variables.
    pub pop: u32,
    /// Member variables (1-based, ascending).
    pub members: Vec<u32>,
}

/// Counts of one depth of the ascent.
#[derive(Debug, Clone, Copy, PartialEq, Eq, Structural)]
pub struct DepthStats {
    /// Candidates surviving the overlap filter.
    pub raw: u64,
    /// Distinct candidate sets.
    pub unique: u64,
    /// Sets retained.
    pub kept: u64,
}

/// One candidate of a depth, with the counts its significance test reads.
#[derive(Debug, Clone, Copy, PartialEq, Eq, Structural)]
pub struct PairMiCandidate {
    /// The variable added (0-based).
    pub var: u32,
    /// Depth 2: the second variable; later depths: the store index of the
    /// parent set (0-based).
    pub parent: u32,
    /// The candidate set, one bit per variable.
    pub vmask: u64,
    /// Observations in the conjunction of the candidate set.
    pub n11: u32,
    /// Observations having `var`.
    pub pop_var: u32,
    /// Observations in the parent (depth 2: having the second variable).
    pub pop_parent: u32,
}

/// Constructive ascent engine over a validated matrix (V <= 64 variables).
pub struct PairMiEngine {
    orig_bits: Vec<u64>,
    orig_pop: Vec<u32>,
    set_bits: Vec<u64>,
    set_vmask: Vec<u64>,
    set_pop: Vec<u32>,
    set_depth: Vec<u32>,
    set_var: Vec<u32>,
    set_parent: Vec<u32>,
    prev_start: usize,
    prev_end: usize,
    n: usize,
    v: usize,
    w: usize,
    mat: Ghost<BinaryMatrix>,
}

/// The variables of `vm`, 1-based, ascending.
pub open spec fn one_based_members(vm: u64) -> Seq<u32> {
    members_spec(vm).map_values(|x: u32| (x + 1) as u32)
}

/// Observation `i` has every variable of `vm`.
pub open spec fn obs_in(m: BinaryMatrix, vm: u64, i: int) -> bool {
    forall|j: int| 0 <= j < 64 && #[trigger] has_bit(vm, j) ==> m.at(j, i)
}

/// Observations having every variable of `vm`.
pub open spec fn set_count(m: BinaryMatrix, vm: u64) -> nat {
    count_rows(|i: int| obs_in(m, vm, i), m.cols())
}

/// Observations having variable `j`.
pub open spec fn var_count(m: BinaryMatrix, j: int) -> nat {
    count_rows(|i: int| m.at(j, i), m.cols())
}

/// Every variable of `vm` is below `v`.
pub open spec fn in_vocab(vm: u64, v: nat) -> bool {
    forall|j: int| 0 <= j < 64 && #[trigger] has_bit(vm, j) ==> j < v
}

/// `ws[off..off + w]` packs `p` over `0..n`: bit `b` of word `off + k` is
/// `p(64 k + b)` below `n` and clear from `n` on.
pub open spec fn packs(ws: Seq<u64>, off: int, w: nat, n: nat, p: spec_fn(int) -> bool) -> bool {
    forall|x: int, b: int|
        off <= x < off + w && 0 <= b < 64 ==> (#[trigger] has_bit(ws[x], b) <==> ((x - off) * 64 + b < n
            && p((x - off) * 64 + b)))
}

/// Provenance of stored set `s`: a depth-2 set is the pair of its two
/// variables; any other is an earlier set plus a variable it lacked.
pub open spec fn provenance_ok(vms: Seq<u64>, s: int, d: u32, var: u32, parent: u32, v: nat) -> bool {
    if d == 2 {
        &&& var < parent < v
        &&& vms[s] == bit_mask(var as int) | bit_mask(parent as int)
    } else {
        &&& parent < s
        &&& var < v
        &&& !has_bit(vms[parent as int], var as int)
        &&& vms[s] == vms[parent as int] | bit_mask(var as int)
    }
}

/// Words `j * w .. (j + 1) * w` of `ws` pack variable `j` over the observations.
pub open spec fn var_packed(ws: Seq<u64>, m: BinaryMatrix, j: int, w: nat) -> bool {
    packs(ws, j * w, w, m.cols(), |i: int| m.at(j, i))
}

spec fn set_packed(ws: Seq<u64>, m: BinaryMatrix, s: int, w: nat, vm: u64) -> bool {
    packs(ws, s * w, w, m.cols(), |i: int| obs_in(m, vm, i))
}

impl PairMiEngine {
    /// The matrix the engine was built from.
    pub closed spec fn matrix(&self) -> BinaryMatrix {
        self.mat@
    }

    /// Variable masks of the stored sets.
    pub closed spec fn vmasks(&self) -> Seq<u64> {
        self.set_vmask@
    }

    /// Conjunction popcounts of the stored sets.
    pub closed spec fn pops(&self) -> Seq<u32> {
        self.set_pop@
    }

    /// Depths at which the stored sets were retained.
    pub closed spec fn depths(&self) -> Seq<u32> {
        self.set_depth@
    }

    /// Added variable of each stored set (0-based).
    pub closed spec fn vars(&self) -> Seq<u32> {
        self.set_var@
    }

    /// Parent of each stored set (0-based).
    pub closed spec fn parents(&self) -> Seq<u32> {
        self.set_parent@
    }

    /// Start of the sets retained by the last depth.
    pub closed spec fn prev_start(&self) -> nat {
        self.prev_start as nat
    }

    /// End of the sets retained by the last depth.
    pub closed spec fn prev_end(&self) -> nat {
        self.prev_end as nat
    }

    /// Internal consistency of the engine.
    pub closed spec fn wf(&self) -> bool {
        let m = self.mat@;
        let ns = self.set_vmask@.len();
        &&& m.wf()
        &&& self.v == m.rows()
        &&& self.n == m.cols()
        &&& m.cols() <= u32::MAX
        &&& self.w == words_for(self.n as nat)
        &&& self.orig_bits@.len() == self.v * self.w
        &&& forall|j: int| 0 <= j < self.v ==> #[trigger] var_packed(self.orig_bits@, m, j, self.w as nat)
        &&& self.orig_pop@.len() == self.v
        &&& forall|j: int| 0 <= j < self.v ==> #[trigger] self.orig_pop@[j] == var_count(m, j)
        &&& self.set_pop@.len() == ns
        &&& self.set_depth@.len() == ns
        &&& self.set_var@.len() == ns
        &&& self.set_parent@.len() == ns
        &&& ns <= u32::MAX
        &&& self.set_bits@.len() == ns * self.w
        &&& forall|s: int|
            0 <= s < ns ==> #[trigger] set_packed(self.set_bits@, m, s, self.w as nat, self.set_vmask@[s])
        &&& forall|s: int| 0 <= s < ns ==> #[trigger] self.set_pop@[s] == set_count(m, self.set_vmask@[s])
        &&& forall|s: int| 0 <= s < ns ==> in_vocab(#[trigger] self.set_vmask@[s], self.v as nat)
        &&& forall|s: int| 0 <= s < ns ==> #[trigger] self.set_var@[s] < self.v
        &&& forall|s: int| 0 <= s < ns ==> #[trigger] self.set_parent@[s] < u32::MAX
        &&& forall|s: int|
            0 <= s < ns ==> #[trigger] provenance_ok(
                self.set_vmask@,
                s,
                self.set_depth@[s],
                self.set_var@[s],
                self.set_parent@[s],
                self.v as nat,
            )
        &&& self.prev_start <= self.prev_end <= ns
    }
}

proof fn lemma_words_for(n: nat)
    ensures
        n <= words_for(n) * 64,
        words_for(n) <= n,
{
    assert(words_for(n) * 64 >= n) by (nonlinear_arith)
        requires
            words_for(n) == (n + 63) / 64,
    ;
    assert(words_for(n) <= n) by (nonlinear_arith)
        requires
            words_for(n) == (n + 63) / 64,
    ;
}

proof fn lemma_and_count_prefix(
    a: Seq<u64>,
    b: Seq<u64>,
    w: nat,
    n: nat,
    pa: spec_fn(int) -> bool,
    pb: spec_fn(int) -> bool,
    q: spec_fn(int) -> bool,
    k: nat,
)
    requires
        k <= w,
        a.len() >= w,
        b.len() >= w,
        packs(a, 0, w, n, pa),
        packs(b, 0, w, n, pb),
        forall|i: int| #[trigger] q(i) == (i < n && pa(i) && pb(i)),
    ensures
        and_count(a, b, k) == count_rows(q, k * 64),
    decreases k,
{
    if k > 0 {
        lemma_and_count_prefix(a, b, w, n, pa, pb, q, (k - 1) as nat);
        let x = k - 1;
        let c = a[x] & b[x];
        let base = x * 64;
        let s = |r: int| q(base + r);
        assert forall|r: int| 0 <= r < 64 implies (has_bit(c, r) <==> #[trigger] s(r)) by {
            lemma_and_bit(a[x], b[x], r as u64);
            assert(has_bit(a[x], r) <==> ((x - 0) * 64 + r < n && pa((x - 0) * 64 + r)));
            assert(has_bit(b[x], r) <==> ((x - 0) * 64 + r < n && pb((x - 0) * 64 + r)));
        }
        lemma_bits_count(c, s, 64);
        lemma_count_rows_split(q, s, base as nat, 64);
        assert(base + 64 == k * 64);
    }
}

/// The AND-popcount of two packed indicators counts the indices where both
/// hold.
proof fn lemma_and_count_packs(
    a: Seq<u64>,
    b: Seq<u64>,
    w: nat,
    n: nat,
    pa: spec_fn(int) -> bool,
    pb: spec_fn(int) -> bool,
    pab: spec_fn(int) -> bool,
)
    requires
        a.len() == w,
        b.len() == w,
        n <= w * 64,
        packs(a, 0, w, n, pa),
        packs(b, 0, w, n, pb),
        forall|i: int| #[trigger] pab(i) == (pa(i) && pb(i)),
    ensures
        and_count(a, b, w) == count_rows(pab, n),
{
    let q = |i: int| i < n && pa(i) && pb(i);
    lemma_and_count_prefix(a, b, w, n, pa, pb, q, w);
    lemma_count_rows_tail(q, n, w * 64);
    lemma_count_rows_ext(q, pab, n);
}

/// A packed range of words, taken out as its own sequence.
proof fn lemma_packs_sub(ws: Seq<u64>, off: int, w: nat, n: nat, p: spec_fn(int) -> bool)
    requires
        0 <= off,
        off + w <= ws.len(),
        packs(ws, off, w, n, p),
    ensures
        packs(ws.subrange(off, off + w), 0, w, n, p),
{
    let sub = ws.subrange(off, off + w);
    assert forall|x: int, b: int| 0 <= x < w && 0 <= b < 64 implies (#[trigger] has_bit(sub[x], b) <==> ((x
        - 0) * 64 + b < n && p((x - 0) * 64 + b))) by {
        assert(sub[x] == ws[off + x]);
        assert(has_bit(ws[off + x], b) <==> (((off + x) - off) * 64 + b < n && p(((off + x) - off) * 64 + b)));
    }
}

/// The words of observation-major indicators `a` and `b`, ANDed, pack the
/// conjunction.
proof fn lemma_and_words_pack(
    a: Seq<u64>,
    b: Seq<u64>,
    c: Seq<u64>,
    coff: int,
    w: nat,
    n: nat,
    pa: spec_fn(int) -> bool,
    pb: spec_fn(int) -> bool,
    pab: spec_fn(int) -> bool,
)
    requires
        a.len() == w,
        b.len() == w,
        0 <= coff,
        coff + w <= c.len(),
        packs(a, 0, w, n, pa),
        packs(b, 0, w, n, pb),
        forall|x: int| 0 <= x < w ==> #[trigger] c[coff + x] == a[x] & b[x],
        forall|i: int| #[trigger] pab(i) == (pa(i) && pb(i)),
    ensures
        packs(c, coff, w, n, pab),
{
    assert forall|x: int, bb: int| coff <= x < coff + w && 0 <= bb < 64 implies (#[trigger] has_bit(c[x], bb)
        <==> ((x - coff) * 64 + bb < n && pab((x - coff) * 64 + bb))) by {
        let y = x - coff;
        assert(c[coff + y] == a[y] & b[y]);
        lemma_and_bit(a[y], b[y], bb as u64);
        assert(has_bit(a[y], bb) <==> ((y - 0) * 64 + bb < n && pa((y - 0) * 64 + bb)));
        assert(has_bit(b[y], bb) <==> ((y - 0) * 64 + bb < n && pb((y - 0) * 64 + bb)));
    }
}

/// Adding variable `j` to a set narrows its observations to those having
/// `j`.
proof fn lemma_obs_in_or(m: BinaryMatrix, vm: u64, j: int, i: int)
    requires
        0 <= j < 64,
    ensures
        obs_in(m, vm | bit_mask(j), i) <==> (obs_in(m, vm, i) && m.at(j, i)),
        forall|t: int| 0 <= t < 64 ==> (#[trigger] has_bit(vm | bit_mask(j), t) <==> (has_bit(vm, t) || t == j)),
{
    assert forall|t: int| 0 <= t < 64 implies (#[trigger] has_bit(vm | bit_mask(j), t) <==> (has_bit(vm, t)
        || t == j)) by {
        lemma_or_single_bit(vm, j as u64, t as u64);
    }
    if obs_in(m, vm | bit_mask(j), i) {
        assert forall|t: int| 0 <= t < 64 && #[trigger] has_bit(vm, t) implies m.at(t, i) by {
            assert(has_bit(vm | bit_mask(j), t));
        }
        assert(has_bit(vm | bit_mask(j), j));
    }
}

/// A single variable's set is that variable.
proof fn lemma_obs_in_single(m: BinaryMatrix, j: int, i: int)
    requires
        0 <= j < 64,
    ensures
        obs_in(m, bit_mask(j), i) <==> m.at(j, i),
        forall|t: int| 0 <= t < 64 ==> (#[trigger] has_bit(bit_mask(j), t) <==> t == j),
{
    assert forall|t: int| 0 <= t < 64 implies (#[trigger] has_bit(bit_mask(j), t) <==> t == j) by {
        lemma_single_bit(j as u64, t as u64);
    }
    assert(has_bit(bit_mask(j), j));
}

/// Depth-2 candidates with first variable `i` and second variable `j` on.
pub open spec fn pair_row_from(v: nat, i: nat, j: nat) -> Seq<(u32, u32, u64)>
    decreases v - j,
{
    if j >= v {
        Seq::empty()
    } else {
        seq![(i as u32, j as u32, bit_mask(i as int) | bit_mask(j as int))] + pair_row_from(v, i, j + 1)
    }
}

/// Depth-2 candidates with first variable from `i` on, in combination
/// order `(i, j)`, `i < j`.
pub open spec fn pair_cands(v: nat, i: nat) -> Seq<(u32, u32, u64)>
    decreases v - i,
{
    if i >= v {
        Seq::empty()
    } else {
        pair_row_from(v, i, i + 1) + pair_cands(v, i + 1)
    }
}

/// Extensions of stored set `p` (mask `pv`) by each variable from `j` on
/// that it lacks.
pub open spec fn ext_from(pv: u64, p: nat, v: nat, j: nat) -> Seq<(u32, u32, u64)>
    decreases v - j,
{
    if j >= v {
        Seq::empty()
    } else if has_bit(pv, j as int) {
        ext_from(pv, p, v, j + 1)
    } else {
        seq![(j as u32, p as u32, pv | bit_mask(j as int))] + ext_from(pv, p, v, j + 1)
    }
}

/// Candidates extending the stored sets `lo..hi`, parent by parent.
pub open spec fn expand_cands(vmasks: Seq<u64>, v: nat, lo: nat, hi: nat) -> Seq<(u32, u32, u64)>
    decreases hi - lo,
{
    if lo >= hi {
        Seq::empty()
    } else {
        ext_from(vmasks[lo as int], lo, v, 0) + expand_cands(vmasks, v, lo + 1, hi)
    }
}

/// Candidate `c` is flagged significant.
pub open spec fn keep_flag(keep: Seq<bool>, c: int) -> bool {
    0 <= c < keep.len() && keep[c]
}

/// Masks of the retained candidates `r`.
pub open spec fn kept_vms(cands: Seq<(u32, u32, u64)>, r: Seq<int>) -> Set<u64> {
    Set::new(|x: u64| exists|t: int| 0 <= t < r.len() && cands[r[t]].2 == x)
}

/// Indices of the candidates retained among the first `n`: flagged, and,
/// with `dedup`, not a set already retained.
pub open spec fn retained_upto(cands: Seq<(u32, u32, u64)>, keep: Seq<bool>, dedup: bool, n: nat) -> Seq<int>
    decreases n,
{
    if n == 0 {
        Seq::empty()
    } else {
        let prev = retained_upto(cands, keep, dedup, (n - 1) as nat);
        let c = n - 1;
        if keep_flag(keep, c) && !(dedup && kept_vms(cands, prev).contains(cands[c].2)) {
            prev.push(c)
        } else {
            prev
        }
    }
}

/// Masks of the first `n` candidates.
pub open spec fn seen_vms(cands: Seq<(u32, u32, u64)>, n: nat) -> Set<u64> {
    Set::new(|x: u64| exists|t: int| 0 <= t < n && cands[t].2 == x)
}

/// Number of distinct masks among the first `n` candidates.
pub open spec fn unique_upto(cands: Seq<(u32, u32, u64)>, n: nat) -> nat
    decreases n,
{
    if n == 0 {
        0
    } else {
        unique_upto(cands, (n - 1) as nat) + if seen_vms(cands, (n - 1) as nat).contains(cands[n - 1].2) {
            0nat
        } else {
            1nat
        }
    }
}

impl PairMiEngine {
    /// Build the engine: pack each variable's indicator over the
    /// observations and count it. Fails only when V > 64, which a
    /// validated matrix never has.
    pub fn create(matrix: &BinaryMatrix) -> (res: Result<PairMiEngine, ConfiguralError>)
        requires
            matrix.wf(),
            matrix.cols() <= u32::MAX,
        ensures
            res matches Ok(e) && e.wf() && e.matrix() == *matrix && e.vmasks().len() == 0 && e.prev_start()
                == 0 && e.prev_end() == 0,
    {
        let ghost m = *matrix;
        let v = matrix.n_rows();
        let n = matrix.n_cols();
        if v > 64 {
            return Err(ConfiguralError::VocabularyTooLarge { got: v, max: 64 });
        }
        let w = n / 64 + if n % 64 == 0 { 0 } else { 1 };
        proof {
            assert(w == words_for(n as nat)) by (nonlinear_arith)
                requires
                    w == n / 64 + if n % 64 == 0 { 0int } else { 1int },
                    words_for(n as nat) == (n + 63) / 64,
            ;
            lemma_words_for(n as nat);
        }
        let mut orig_bits: Vec<u64> = Vec::new();
        let mut orig_pop: Vec<u32> = Vec::new();
        let mut j: usize = 0;
        while j < v
            invariant
                j <= v,
                v == m.rows(),
                n == m.cols(),
                m == *matrix,
                matrix.wf(),
                n <= u32::MAX,
                w == words_for(n as nat),
                orig_bits@.len() == j * w,
                orig_pop@.len() == j,
                forall|jj: int| 0 <= jj < j ==> #[trigger] var_packed(orig_bits@, m, jj, w as nat),
                forall|jj: int| 0 <= jj < j ==> #[trigger] orig_pop@[jj] == var_count(m, jj),
            decreases v - j,
        {
            let mut col: Vec<bool> = Vec::new();
            let mut pc: u32 = 0;
            let mut i: usize = 0;
            while i < n
                invariant
                    i <= n,
                    j < v,
                    v == m.rows(),
                    n == m.cols(),
                    m == *matrix,
                    matrix.wf(),
                    n <= u32::MAX,
                    col@.len() == i,
                    forall|ii: int| 0 <= ii < i ==> #[trigger] col@[ii] == m.at(j as int, ii),
                    pc == count_rows(|x: int| m.at(j as int, x), i as nat),
                    pc <= i,
                decreases n - i,
            {
                let b = matrix.get(j, i);
                col.push(b);
                if b {
                    pc = pc + 1;
                }
                i = i + 1;
            }
            let packed = pack_column(col.as_slice());
            let ghost old_bits = orig_bits@;
            let mut k: usize = 0;
            while k < packed.len()
                invariant
                    k <= packed@.len(),
                    packed@.len() == w,
                    orig_bits@.len() == j * w + k,
                    orig_bits@.subrange(0, j * w) == old_bits,
                    forall|x: int| 0 <= x < k ==> #[trigger] orig_bits@[j * w + x] == packed@[x],
                decreases packed@.len() - k,
            {
                orig_bits.push(packed[k]);
                proof {
                    assert(orig_bits@.subrange(0, j * w) =~= old_bits);
                }
                k = k + 1;
            }
            orig_pop.push(pc);
            proof {
                assert((j + 1) * w == j * w + w) by (nonlinear_arith);
                assert forall|jj: int| 0 <= jj < j + 1 implies #[trigger] var_packed(orig_bits@, m, jj, w as nat) by {
                    if jj < j {
                        assert(var_packed(old_bits, m, jj, w as nat));
                        assert(jj * w + w <= j * w) by (nonlinear_arith)
                            requires
                                jj < j,
                        ;
                        assert forall|x: int, b: int| jj * w <= x < jj * w + w && 0 <= b < 64 implies (
                        #[trigger] has_bit(orig_bits@[x], b) <==> ((x - jj * w) * 64 + b < n && m.at(
                            jj,
                            (x - jj * w) * 64 + b,
                        ))) by {
                            assert(orig_bits@[x] == old_bits[x]);
                            assert(has_bit(old_bits[x], b) <==> ((x - jj * w) * 64 + b < n && (|i: int|
                                m.at(jj, i))((x - jj * w) * 64 + b)));
                        }
                    } else {
                        assert forall|x: int, b: int| j * w <= x < j * w + w && 0 <= b < 64 implies (
                        #[trigger] has_bit(orig_bits@[x], b) <==> ((x - j * w) * 64 + b < n && m.at(
                            j as int,
                            (x - j * w) * 64 + b,
                        ))) by {
                            let y = x - j * w;
                            assert(orig_bits@[j * w + y] == packed@[y]);
                            assert(has_bit(packed@[y], b) <==> (y * 64 + b < col@.len() && col@[y * 64 + b]));
                        }
                    }
                }
            }
            j = j + 1;
        }
        Ok(PairMiEngine {
            orig_bits,
            orig_pop,
            set_bits: Vec::new(),
            set_vmask: Vec::new(),
            set_pop: Vec::new(),
            set_depth: Vec::new(),
            set_var: Vec::new(),
            set_parent: Vec::new(),
            prev_start: 0,
            prev_end: 0,
            n,
            v,
            w,
            mat: Ghost(m),
        })
    }

    /// Words per variable indicator: `ceil(N / 64)`.
    pub fn w(&self) -> (r: usize)
        requires
            self.wf(),
        ensures
            r == words_for(self.matrix().cols()),
    {
        self.w
    }

    /// The packed variable indicators: variable `j` occupies words
    /// `j * w .. (j + 1) * w`, observation `i` at bit `i % 64` of word
    /// `i / 64` of that range.
    pub fn orig_bits(&self) -> (r: &[u64])
        requires
            self.wf(),
        ensures
            r@.len() == self.matrix().rows() * words_for(self.matrix().cols()),
            forall|j: int|
                0 <= j < self.matrix().rows() ==> #[trigger] var_packed(
                    r@,
                    self.matrix(),
                    j,
                    words_for(self.matrix().cols()),
                ),
    {
        self.orig_bits.as_slice()
    }

    /// Number of observations having each variable.
    pub fn orig_pop(&self) -> (r: &[u32])
        requires
            self.wf(),
        ensures
            r@.len() == self.matrix().rows(),
            forall|j: int| 0 <= j < self.matrix().rows() ==> #[trigger] r@[j] == var_count(self.matrix(), j),
    {
        self.orig_pop.as_slice()
    }

    /// Number of retained sets in the store.
    pub fn n_sets(&self) -> (r: usize)
        requires
            self.wf(),
        ensures
            r == self.vmasks().len(),
    {
        self.set_pop.len()
    }

    /// All retained sets as rows, in retention order (indices 1-based).
    pub fn results(&self) -> (rows: Vec<PairMiResultRow>)
        requires
            self.wf(),
        ensures
            rows@.len() == self.vmasks().len(),
            forall|s: int|
                0 <= s < rows@.len() ==> {
                    let r = #[trigger] rows@[s];
                    &&& r.depth == self.depths()[s]
                    &&& r.var == self.vars()[s] + 1
                    &&& r.parent == self.parents()[s] + 1
                    &&& r.pop == self.pops()[s]
                    &&& r.members@ == one_based_members(self.vmasks()[s])
                },
    {
        let ns = self.set_pop.len();
        let mut rows: Vec<PairMiResultRow> = Vec::new();
        let mut s: usize = 0;
        while s < ns
            invariant
                s <= ns,
                ns == self.set_vmask@.len(),
                self.wf(),
                rows@.len() == s,
                forall|t: int|
                    0 <= t < s ==> {
                        let r = #[trigger] rows@[t];
                        &&& r.depth == self.depths()[t]
                        &&& r.var == self.vars()[t] + 1
                        &&& r.parent == self.parents()[t] + 1
                        &&& r.pop == self.pops()[t]
                        &&& r.members@ == one_based_members(self.vmasks()[t])
                    },
            decreases ns - s,
        {
            let zero_based = extract_members(self.set_vmask[s]);
            proof {
                crate::bitset::lemma_members_spec(self.set_vmask@[s as int]);
            }
            let mut members: Vec<u32> = Vec::new();
            let mut t: usize = 0;
            while t < zero_based.len()
                invariant
                    t <= zero_based@.len(),
                    zero_based@ == members_spec(self.set_vmask@[s as int]),
                    forall|u: int| 0 <= u < zero_based@.len() ==> #[trigger] zero_based@[u] < 64,
                    members@.len() == t,
                    forall|u: int| 0 <= u < t ==> #[trigger] members@[u] == zero_based@[u] + 1,
                decreases zero_based@.len() - t,
            {
                members.push(zero_based[t] + 1);
                t = t + 1;
            }
            proof {
                assert(members@ =~= one_based_members(self.set_vmask@[s as int]));
            }
            rows.push(PairMiResultRow {
                depth: self.set_depth[s],
                var: self.set_var[s] + 1,
                parent: self.set_parent[s] + 1,
                pop: self.set_pop[s],
                members,
            });
            s = s + 1;
        }
        rows
    }

    /// The conjunction indicator of each retained set over the
    /// observations: entry `i` is 1 iff observation `i` has every variable
    /// of the set.
    pub fn indicators(&self) -> (ind: Vec<Vec<u8>>)
        requires
            self.wf(),
        ensures
            ind@.len() == self.vmasks().len(),
            forall|s: int| 0 <= s < ind@.len() ==> (#[trigger] ind@[s])@.len() == self.matrix().cols(),
            forall|s: int, i: int|
                0 <= s < ind@.len() && 0 <= i < self.matrix().cols() ==> #[trigger] ind@[s]@[i] == if obs_in(
                    self.matrix(),
                    self.vmasks()[s],
                    i,
                ) {
                    1u8
                } else {
                    0u8
                },
    {
        let ghost m = self.mat@;
        let ns = self.set_pop.len();
        let n = self.n;
        let w = self.w;
        let mut ind: Vec<Vec<u8>> = Vec::new();
        let mut s: usize = 0;
        while s < ns
            invariant
                s <= ns,
                ns == self.set_vmask@.len(),
                self.wf(),
                m == self.mat@,
                n == m.cols(),
                w == self.w,
                ind@.len() == s,
                forall|t: int| 0 <= t < s ==> (#[trigger] ind@[t])@.len() == n,
                forall|t: int, i: int|
                    0 <= t < s && 0 <= i < n ==> #[trigger] ind@[t]@[i] == if obs_in(m, self.set_vmask@[t], i) {
                        1u8
                    } else {
                        0u8
                    },
            decreases ns - s,
        {
            let nb = self.set_bits.len();
            proof {
                assert(set_packed(self.set_bits@, m, s as int, w as nat, self.set_vmask@[s as int]));
                assert(s * w + w <= ns * w) by (nonlinear_arith)
                    requires
                        s < ns,
                ;
            }
            let off = s * w;
            let mut row: Vec<u8> = Vec::new();
            let mut i: usize = 0;
            while i < n
                invariant
                    i <= n,
                    s < ns,
                    off == s * w,
                    off + w <= nb,
                    nb == self.set_bits@.len(),
                    self.wf(),
                    m == self.mat@,
                    n == m.cols(),
                    w == self.w,
                    w == words_for(n as nat),
                    set_packed(self.set_bits@, m, s as int, w as nat, self.set_vmask@[s as int]),
                    row@.len() == i,
                    forall|ii: int| 0 <= ii < i ==> #[trigger] row@[ii] == if obs_in(m, self.set_vmask@[s as int], ii) {
                        1u8
                    } else {
                        0u8
                    },
                decreases n - i,
            {
                let k = i / 64;
                let b = i % 64;
                proof {
                    lemma_words_for(n as nat);
                    assert(k < w) by (nonlinear_arith)
                        requires
                            k == i / 64,
                            i < n,
                            n <= w * 64,
                    ;
                    assert(k * 64 + b == i);
                }
                let word = self.set_bits[off + k];
                let bit = (word >> (b as u64)) & 1u64;
                proof {
                    assert(has_bit(word, b as int) <==> (((off + k) - s * w) * 64 + b < n && obs_in(
                        m,
                        self.set_vmask@[s as int],
                        ((off + k) - s * w) * 64 + b,
                    )));
                    crate::bitset::lemma_bit_is_01(word, b as u64);
                }
                if bit == 1u64 {
                    row.push(1u8);
                } else {
                    row.push(0u8);
                }
                i = i + 1;
            }
            ind.push(row);
            s = s + 1;
        }
        ind
    }
}

proof fn lemma_mask_bit(pv: u64, j: u64)
    by (bit_vector)
    requires
        j < 64,
    ensures
        (pv & (1u64 << j)) != 0u64 <==> (pv >> j) & 1u64 == 1u64,
{
}

/// Packing depends on the indicator's values only.
proof fn lemma_packs_ext(ws: Seq<u64>, off: int, w: nat, n: nat, p1: spec_fn(int) -> bool, p2: spec_fn(int) -> bool)
    requires
        packs(ws, off, w, n, p1),
        forall|i: int| #[trigger] p1(i) == p2(i),
    ensures
        packs(ws, off, w, n, p2),
{
    assert forall|x: int, b: int| off <= x < off + w && 0 <= b < 64 implies (#[trigger] has_bit(ws[x], b) <==> ((x
        - off) * 64 + b < n && p2((x - off) * 64 + b))) by {
        assert(p1((x - off) * 64 + b) == p2((x - off) * 64 + b));
    }
}

/// Packing of a range is unaffected by writes past it.
proof fn lemma_packs_prefix(ws: Seq<u64>, ws2: Seq<u64>, off: int, w: nat, n: nat, p: spec_fn(int) -> bool)
    requires
        packs(ws, off, w, n, p),
        0 <= off,
        off + w <= ws.len() <= ws2.len(),
        ws2.subrange(0, ws.len() as int) == ws,
    ensures
        packs(ws2, off, w, n, p),
{
    assert forall|x: int, b: int| off <= x < off + w && 0 <= b < 64 implies (#[trigger] has_bit(ws2[x], b) <==> ((x
        - off) * 64 + b < n && p((x - off) * 64 + b))) by {
        assert(ws2[x] == ws2.subrange(0, ws.len() as int)[x]);
        assert(has_bit(ws[x], b) <==> ((x - off) * 64 + b < n && p((x - off) * 64 + b)));
    }
}

impl PairMiEngine {
    /// The candidates of a depth, in generation order: depth 2 pairs every
    /// two variables in combination order; any other depth extends each
    /// set retained by the last depth.
    pub open spec fn candidate_list(&self, depth: u32) -> Seq<(u32, u32, u64)> {
        if depth == 2 {
            pair_cands(self.matrix().rows(), 0)
        } else {
            expand_cands(self.vmasks(), self.matrix().rows(), self.prev_start(), self.prev_end())
        }
    }

    fn cand_triples(&self, depth: u32) -> (out: Vec<(u32, u32, u64)>)
        requires
            self.wf(),
        ensures
            out@ == self.candidate_list(depth),
    {
        let v = self.v;
        let ghost vn = v as nat;
        let mut out: Vec<(u32, u32, u64)> = Vec::new();
        if depth == 2 {
            let mut i: usize = 0;
            while i < v
                invariant
                    i <= v,
                    v <= 64,
                    vn == v,
                    out@ + pair_cands(vn, i as nat) == pair_cands(vn, 0),
                decreases v - i,
            {
                proof {
                    assert(pair_cands(vn, i as nat) == pair_row_from(vn, i as nat, (i + 1) as nat) + pair_cands(
                        vn,
                        (i + 1) as nat,
                    ));
                    assert(out@ + pair_cands(vn, i as nat) =~= out@ + pair_row_from(vn, i as nat, (i + 1) as nat)
                        + pair_cands(vn, (i + 1) as nat));
                }
                let mut j: usize = i + 1;
                while j < v
                    invariant
                        i < j <= v,
                        v <= 64,
                        vn == v,
                        out@ + pair_row_from(vn, i as nat, j as nat) + pair_cands(vn, (i + 1) as nat) == pair_cands(
                            vn,
                            0,
                        ),
                    decreases v - j,
                {
                    let t = (i as u32, j as u32, (1u64 << (i as u64)) | (1u64 << (j as u64)));
                    proof {
                        let rest = pair_row_from(vn, i as nat, (j + 1) as nat);
                        assert(pair_row_from(vn, i as nat, j as nat) == seq![t] + rest);
                        assert(out@.push(t) + rest + pair_cands(vn, (i + 1) as nat) =~= out@ + pair_row_from(
                            vn,
                            i as nat,
                            j as nat,
                        ) + pair_cands(vn, (i + 1) as nat));
                    }
                    out.push(t);
                    j = j + 1;
                }
                proof {
                    assert(out@ + pair_row_from(vn, i as nat, j as nat) =~= out@);
                }
                i = i + 1;
            }
            proof {
                assert(out@ + pair_cands(vn, i as nat) =~= out@);
            }
        } else {
            let lo = self.prev_start;
            let hi = self.prev_end;
            let ghost vms = self.set_vmask@;
            let mut p: usize = lo;
            while p < hi
                invariant
                    lo <= p <= hi,
                    hi <= vms.len(),
                    vms.len() <= u32::MAX,
                    vms == self.set_vmask@,
                    v <= 64,
                    vn == v,
                    out@ + expand_cands(vms, vn, p as nat, hi as nat) == expand_cands(vms, vn, lo as nat, hi as nat),
                decreases hi - p,
            {
                let pv = self.set_vmask[p];
                proof {
                    assert(expand_cands(vms, vn, p as nat, hi as nat) == ext_from(pv, p as nat, vn, 0) + expand_cands(
                        vms,
                        vn,
                        (p + 1) as nat,
                        hi as nat,
                    ));
                    assert(out@ + expand_cands(vms, vn, p as nat, hi as nat) =~= out@ + ext_from(pv, p as nat, vn, 0)
                        + expand_cands(vms, vn, (p + 1) as nat, hi as nat));
                }
                let mut j: usize = 0;
                while j < v
                    invariant
                        j <= v,
                        p < hi,
                        hi <= vms.len(),
                        vms.len() <= u32::MAX,
                        v <= 64,
                        vn == v,
                        pv == vms[p as int],
                        out@ + ext_from(pv, p as nat, vn, j as nat) + expand_cands(vms, vn, (p + 1) as nat, hi as nat)
                            == expand_cands(vms, vn, lo as nat, hi as nat),
                    decreases v - j,
                {
                    proof {
                        lemma_mask_bit(pv, j as u64);
                    }
                    let ghost rest = ext_from(pv, p as nat, vn, (j + 1) as nat);
                    if pv & (1u64 << (j as u64)) == 0 {
                        let t = (j as u32, p as u32, pv | (1u64 << (j as u64)));
                        proof {
                            assert(ext_from(pv, p as nat, vn, j as nat) == seq![t] + rest);
                            assert(out@.push(t) + rest + expand_cands(vms, vn, (p + 1) as nat, hi as nat) =~= out@
                                + ext_from(pv, p as nat, vn, j as nat) + expand_cands(vms, vn, (p + 1) as nat, hi as nat));
                        }
                        out.push(t);
                    } else {
                        proof {
                            assert(ext_from(pv, p as nat, vn, j as nat) == rest);
                        }
                    }
                    j = j + 1;
                }
                proof {
                    assert(out@ + ext_from(pv, p as nat, vn, j as nat) =~= out@);
                }
                p = p + 1;
            }
            proof {
                assert(out@ + expand_cands(vms, vn, p as nat, hi as nat) =~= out@);
            }
        }
        out
    }
}

proof fn lemma_pair_row_props(v: nat, i: nat, j: nat)
    requires
        v <= 64,
        i < j,
    ensures
        forall|t: int|
            0 <= t < pair_row_from(v, i, j).len() ==> {
                let k = #[trigger] pair_row_from(v, i, j)[t];
                &&& k.0 == i
                &&& j <= k.1 < v
                &&& k.2 == bit_mask(k.0 as int) | bit_mask(k.1 as int)
            },
    decreases v - j,
{
    if j < v {
        lemma_pair_row_props(v, i, j + 1);
        let rest = pair_row_from(v, i, j + 1);
        let s = pair_row_from(v, i, j);
        assert forall|t: int| 0 < t < s.len() implies s[t] == rest[t - 1] by {
        }
    }
}

proof fn lemma_pair_cands_props(v: nat, i: nat)
    requires
        v <= 64,
    ensures
        forall|t: int|
            0 <= t < pair_cands(v, i).len() ==> {
                let k = #[trigger] pair_cands(v, i)[t];
                &&& i <= k.0 < k.1 < v
                &&& k.2 == bit_mask(k.0 as int) | bit_mask(k.1 as int)
            },
    decreases v - i,
{
    if i < v {
        lemma_pair_cands_props(v, i + 1);
        lemma_pair_row_props(v, i, i + 1);
        let a = pair_row_from(v, i, i + 1);
        let b = pair_cands(v, i + 1);
        let s = pair_cands(v, i);
        assert(s == a + b);
        assert forall|t: int| 0 <= t < s.len() implies {
            let k = #[trigger] s[t];
            &&& i <= k.0 < k.1 < v
            &&& k.2 == bit_mask(k.0 as int) | bit_mask(k.1 as int)
        } by {
            if t < a.len() {
                assert(s[t] == a[t]);
            } else {
                assert(s[t] == b[t - a.len()]);
            }
        }
    }
}

proof fn lemma_ext_from_props(pv: u64, p: nat, v: nat, j: nat)
    requires
        v <= 64,
        p <= u32::MAX,
    ensures
        forall|t: int|
            0 <= t < ext_from(pv, p, v, j).len() ==> {
                let k = #[trigger] ext_from(pv, p, v, j)[t];
                &&& k.1 == p
                &&& j <= k.0 < v
                &&& !has_bit(pv, k.0 as int)
                &&& k.2 == pv | bit_mask(k.0 as int)
            },
    decreases v - j,
{
    if j < v {
        lemma_ext_from_props(pv, p, v, j + 1);
        let rest = ext_from(pv, p, v, j + 1);
        let s = ext_from(pv, p, v, j);
        if !has_bit(pv, j as int) {
            assert forall|t: int| 0 < t < s.len() implies s[t] == rest[t - 1] by {
            }
        }
    }
}

proof fn lemma_expand_cands_props(vms: Seq<u64>, v: nat, lo: nat, hi: nat)
    requires
        v <= 64,
        hi <= vms.len(),
        vms.len() <= u32::MAX,
    ensures
        forall|t: int|
            0 <= t < expand_cands(vms, v, lo, hi).len() ==> {
                let k = #[trigger] expand_cands(vms, v, lo, hi)[t];
                &&& lo <= k.1 < hi
                &&& k.0 < v
                &&& !has_bit(vms[k.1 as int], k.0 as int)
                &&& k.2 == vms[k.1 as int] | bit_mask(k.0 as int)
            },
    decreases hi - lo,
{
    if lo < hi {
        lemma_expand_cands_props(vms, v, lo + 1, hi);
        lemma_ext_from_props(vms[lo as int], lo, v, 0);
        let a = ext_from(vms[lo as int], lo, v, 0);
        let b = expand_cands(vms, v, lo + 1, hi);
        let s = expand_cands(vms, v, lo, hi);
        assert(s == a + b);
        assert forall|t: int| 0 <= t < s.len() implies {
            let k = #[trigger] s[t];
            &&& lo <= k.1 < hi
            &&& k.0 < v
            &&& !has_bit(vms[k.1 as int], k.0 as int)
            &&& k.2 == vms[k.1 as int] | bit_mask(k.0 as int)
        } by {
            if t < a.len() {
                assert(s[t] == a[t]);
            } else {
                assert(s[t] == b[t - a.len()]);
            }
        }
    }
}

/// Extensions of one parent come in increasing added variable, and every
/// variable from `j` on that the parent lacks gives one.
proof fn lemma_ext_from_order(pv: u64, p: nat, v: nat, j: nat)
    requires
        v <= 64,
        p <= u32::MAX,
    ensures
        forall|a: int, b: int|
            0 <= a < b < ext_from(pv, p, v, j).len() ==> (#[trigger] ext_from(pv, p, v, j)[a]).0 < (
            #[trigger] ext_from(pv, p, v, j)[b]).0,
        forall|jj: int|
            j <= jj < v && !#[trigger] has_bit(pv, jj) ==> exists|t: int|
                0 <= t < ext_from(pv, p, v, j).len() && #[trigger] ext_from(pv, p, v, j)[t] == (
                    jj as u32,
                    p as u32,
                    pv | bit_mask(jj),
                ),
    decreases v - j,
{
    lemma_ext_from_props(pv, p, v, j);
    if j < v {
        lemma_ext_from_order(pv, p, v, j + 1);
        lemma_ext_from_props(pv, p, v, j + 1);
        let rest = ext_from(pv, p, v, j + 1);
        let s = ext_from(pv, p, v, j);
        if !has_bit(pv, j as int) {
            let x = (j as u32, p as u32, pv | bit_mask(j as int));
            assert(s == seq![x] + rest);
            assert forall|a: int, b: int| 0 <= a < b < s.len() implies (#[trigger] s[a]).0 < (#[trigger] s[b]).0 by {
                assert(s[b] == rest[b - 1]);
                if a > 0 {
                    assert(s[a] == rest[a - 1]);
                } else {
                    assert(s[a] == x);
                }
            }
            assert forall|jj: int| j <= jj < v && !#[trigger] has_bit(pv, jj) implies exists|t: int|
                0 <= t < s.len() && #[trigger] s[t] == (jj as u32, p as u32, pv | bit_mask(jj)) by {
                if jj == j {
                    assert(s[0] == x);
                } else {
                    let t = choose|t: int|
                        0 <= t < rest.len() && #[trigger] rest[t] == (jj as u32, p as u32, pv | bit_mask(jj));
                    assert(s[t + 1] == rest[t]);
                }
            }
        } else {
            assert(s == rest);
        }
    }
}

/// Extensions of the stored sets `lo..hi` come parent by parent in store
/// order, and within a parent by added variable; every extension of such
/// a parent by a variable it lacks is among them.
proof fn lemma_expand_cands_order(vms: Seq<u64>, v: nat, lo: nat, hi: nat)
    requires
        v <= 64,
        hi <= vms.len(),
        vms.len() <= u32::MAX,
    ensures
        forall|a: int, b: int|
            0 <= a < b < expand_cands(vms, v, lo, hi).len() ==> (#[trigger] expand_cands(vms, v, lo, hi)[a]).1 < (
            #[trigger] expand_cands(vms, v, lo, hi)[b]).1 || ((expand_cands(vms, v, lo, hi)[a]).1 == (expand_cands(
                vms,
                v,
                lo,
                hi,
            )[b]).1 && (expand_cands(vms, v, lo, hi)[a]).0 < (expand_cands(vms, v, lo, hi)[b]).0),
        forall|p: int, jj: int|
            lo <= p < hi && 0 <= jj < v && !#[trigger] has_bit(vms[p], jj) ==> exists|t: int|
                0 <= t < expand_cands(vms, v, lo, hi).len() && #[trigger] expand_cands(vms, v, lo, hi)[t] == (
                    jj as u32,
                    p as u32,
                    vms[p] | bit_mask(jj),
                ),
    decreases hi - lo,
{
    if lo < hi {
        lemma_expand_cands_order(vms, v, lo + 1, hi);
        lemma_expand_cands_props(vms, v, lo + 1, hi);
        lemma_ext_from_props(vms[lo as int], lo, v, 0);
        lemma_ext_from_order(vms[lo as int], lo, v, 0);
        let a = ext_from(vms[lo as int], lo, v, 0);
        let b = expand_cands(vms, v, lo + 1, hi);
        let s = expand_cands(vms, v, lo, hi);
        assert(s == a + b);
        assert forall|x: int, y: int| 0 <= x < y < s.len() implies (#[trigger] s[x]).1 < (#[trigger] s[y]).1 || (
        s[x].1 == s[y].1 && s[x].0 < s[y].0) by {
            if y < a.len() {
                assert(s[x] == a[x] && s[y] == a[y]);
            } else if x < a.len() {
                assert(s[x] == a[x] && s[y] == b[y - a.len()]);
            } else {
                assert(s[x] == b[x - a.len()] && s[y] == b[y - a.len()]);
            }
        }
        assert forall|p: int, jj: int| lo <= p < hi && 0 <= jj < v && !#[trigger] has_bit(vms[p], jj) implies exists|
            t: int,
        | 0 <= t < s.len() && #[trigger] s[t] == (jj as u32, p as u32, vms[p] | bit_mask(jj)) by {
            if p == lo {
                let t = choose|t: int|
                    0 <= t < a.len() && #[trigger] a[t] == (jj as u32, p as u32, vms[p] | bit_mask(jj));
                assert(s[t] == a[t]);
            } else {
                let t = choose|t: int|
                    0 <= t < b.len() && #[trigger] b[t] == (jj as u32, p as u32, vms[p] | bit_mask(jj));
                assert(s[a.len() + t] == b[t]);
            }
        }
    }
}

proof fn lemma_pair_row_order(v: nat, i: nat, j: nat)
    requires
        v <= 64,
        i < j,
    ensures
        forall|a: int, b: int|
            0 <= a < b < pair_row_from(v, i, j).len() ==> (#[trigger] pair_row_from(v, i, j)[a]).1 < (
            #[trigger] pair_row_from(v, i, j)[b]).1,
        forall|jj: int|
            #![trigger bit_mask(jj)]
            j <= jj < v ==> exists|t: int|
                0 <= t < pair_row_from(v, i, j).len() && #[trigger] pair_row_from(v, i, j)[t] == (
                    i as u32,
                    jj as u32,
                    bit_mask(i as int) | bit_mask(jj),
                ),
    decreases v - j,
{
    lemma_pair_row_props(v, i, j);
    if j < v {
        lemma_pair_row_order(v, i, j + 1);
        lemma_pair_row_props(v, i, j + 1);
        let rest = pair_row_from(v, i, j + 1);
        let s = pair_row_from(v, i, j);
        let x = (i as u32, j as u32, bit_mask(i as int) | bit_mask(j as int));
        assert(s == seq![x] + rest);
        assert forall|a: int, b: int| 0 <= a < b < s.len() implies (#[trigger] s[a]).1 < (#[trigger] s[b]).1 by {
            assert(s[b] == rest[b - 1]);
            if a > 0 {
                assert(s[a] == rest[a - 1]);
            } else {
                assert(s[a] == x);
            }
        }
        assert forall|jj: int| #![trigger bit_mask(jj)] j <= jj < v implies exists|t: int|
            0 <= t < s.len() && #[trigger] s[t] == (i as u32, jj as u32, bit_mask(i as int) | bit_mask(jj)) by {
            if jj == j {
                assert(s[0] == x);
            } else {
                let t = choose|t: int|
                    0 <= t < rest.len() && #[trigger] rest[t] == (i as u32, jj as u32, bit_mask(i as int) | bit_mask(
                        jj,
                    ));
                assert(s[t + 1] == rest[t]);
            }
        }
    }
}

proof fn lemma_pair_cands_order(v: nat, i: nat)
    requires
        v <= 64,
    ensures
        forall|a: int, b: int|
            0 <= a < b < pair_cands(v, i).len() ==> (#[trigger] pair_cands(v, i)[a]).0 < (
            #[trigger] pair_cands(v, i)[b]).0 || ((pair_cands(v, i)[a]).0 == (pair_cands(v, i)[b]).0 && (pair_cands(
                v,
                i,
            )[a]).1 < (pair_cands(v, i)[b]).1),
        forall|x: int, y: int|
            #![trigger bit_mask(x), bit_mask(y)]
            i <= x < y < v ==> exists|t: int|
                0 <= t < pair_cands(v, i).len() && #[trigger] pair_cands(v, i)[t] == (
                    x as u32,
                    y as u32,
                    bit_mask(x) | bit_mask(y),
                ),
    decreases v - i,
{
    if i < v {
        lemma_pair_cands_order(v, i + 1);
        lemma_pair_cands_props(v, i + 1);
        lemma_pair_row_props(v, i, i + 1);
        lemma_pair_row_order(v, i, i + 1);
        let a = pair_row_from(v, i, i + 1);
        let b = pair_cands(v, i + 1);
        let s = pair_cands(v, i);
        assert(s == a + b);
        assert forall|x: int, y: int| 0 <= x < y < s.len() implies (#[trigger] s[x]).0 < (#[trigger] s[y]).0 || (
        s[x].0 == s[y].0 && s[x].1 < s[y].1) by {
            if y < a.len() {
                assert(s[x] == a[x] && s[y] == a[y]);
            } else if x < a.len() {
                assert(s[x] == a[x] && s[y] == b[y - a.len()]);
            } else {
                assert(s[x] == b[x - a.len()] && s[y] == b[y - a.len()]);
            }
        }
        assert forall|x: int, y: int| #![trigger bit_mask(x), bit_mask(y)] i <= x < y < v implies exists|t: int|
            0 <= t < s.len() && #[trigger] s[t] == (x as u32, y as u32, bit_mask(x) | bit_mask(y)) by {
            if x == i {
                let t = choose|t: int|
                    0 <= t < a.len() && #[trigger] a[t] == (i as u32, y as u32, bit_mask(i as int) | bit_mask(y));
                assert(s[t] == a[t]);
            } else {
                let t = choose|t: int|
                    0 <= t < b.len() && #[trigger] b[t] == (x as u32, y as u32, bit_mask(x) | bit_mask(y));
                assert(s[a.len() + t] == b[t]);
            }
        }
    }
}

/// The candidates of depth 2 are exactly the pairs of distinct variables,
/// each once, in combination order: `(i, j)` with `i < j`, by first
/// variable and then by second.
pub proof fn lemma_pair_candidates(e: &PairMiEngine)
    requires
        e.wf(),
    ensures
        ({
            let cl = e.candidate_list(2);
            &&& forall|t: int|
                0 <= t < cl.len() ==> {
                    let k = #[trigger] cl[t];
                    &&& k.0 < k.1 < e.matrix().rows()
                    &&& k.2 == bit_mask(k.0 as int) | bit_mask(k.1 as int)
                }
            &&& forall|i: int, j: int|
                #![trigger bit_mask(i), bit_mask(j)]
                0 <= i < j < e.matrix().rows() ==> exists|t: int|
                    0 <= t < cl.len() && #[trigger] cl[t] == (i as u32, j as u32, bit_mask(i) | bit_mask(j))
            &&& forall|a: int, b: int|
                0 <= a < b < cl.len() ==> (#[trigger] cl[a]).0 < (#[trigger] cl[b]).0 || (cl[a].0 == cl[b].0
                    && cl[a].1 < cl[b].1)
        }),
{
    let v = e.v as nat;
    lemma_pair_cands_props(v, 0);
    lemma_pair_cands_order(v, 0);
    let cl = e.candidate_list(2);
    assert(cl == pair_cands(v, 0));
    assert(v == e.matrix().rows());
    assert forall|i: int, j: int| #![trigger bit_mask(i), bit_mask(j)] 0 <= i < j < e.matrix().rows() implies exists|t: int|
        0 <= t < cl.len() && #[trigger] cl[t] == (i as u32, j as u32, bit_mask(i) | bit_mask(j)) by {
        assert(0 <= i < j < v);
    }
}

/// Two distinct variables make a two-variable set.
proof fn lemma_pair_popcount(i: int, j: int)
    requires
        0 <= i < j < 64,
    ensures
        popcount_spec(bit_mask(i) | bit_mask(j)) == 2,
{
    let bi = bit_mask(i);
    crate::lattice::lemma_bits_below_zero(64);
    crate::bitset::lemma_zero_no_bit(i as u64);
    lemma_popcount_add_bit(0, i);
    assert(0u64 | bi == bi) by (bit_vector);
    lemma_single_bit(i as u64, j as u64);
    lemma_popcount_add_bit(bi, j);
}

/// Past the pairs, the candidates of a depth are exactly the one-variable
/// extensions of the sets the last depth retained (store indices
/// `prev_start..prev_end`): each extends such a set by a variable it lacks
/// and so has one variable more, every such extension is a candidate, and
/// they come parent by parent in store order and, within a parent, by
/// increasing added variable. Dedup keeps the first flagged decomposition
/// of a set, so the one kept is the one with the smallest parent.
pub proof fn lemma_candidates_extend_last_depth(e: &PairMiEngine, depth: u32)
    requires
        e.wf(),
        depth != 2,
    ensures
        ({
            let cl = e.candidate_list(depth);
            let vms = e.vmasks();
            &&& forall|t: int|
                0 <= t < cl.len() ==> {
                    let k = #[trigger] cl[t];
                    &&& e.prev_start() <= k.1 < e.prev_end()
                    &&& k.0 < e.matrix().rows()
                    &&& !has_bit(vms[k.1 as int], k.0 as int)
                    &&& k.2 == vms[k.1 as int] | bit_mask(k.0 as int)
                    &&& popcount_spec(k.2) == popcount_spec(vms[k.1 as int]) + 1
                }
            &&& forall|p: int, j: int|
                e.prev_start() <= p < e.prev_end() && 0 <= j < e.matrix().rows() && !#[trigger] has_bit(vms[p], j)
                    ==> exists|t: int| 0 <= t < cl.len() && #[trigger] cl[t] == (j as u32, p as u32, vms[p] | bit_mask(j))
            &&& forall|a: int, b: int|
                0 <= a < b < cl.len() ==> (#[trigger] cl[a]).1 < (#[trigger] cl[b]).1 || (cl[a].1 == cl[b].1
                    && cl[a].0 < cl[b].0)
        }),
{
    let vms = e.set_vmask@;
    let v = e.v as nat;
    let lo = e.prev_start as nat;
    let hi = e.prev_end as nat;
    lemma_expand_cands_props(vms, v, lo, hi);
    lemma_expand_cands_order(vms, v, lo, hi);
    let cl = e.candidate_list(depth);
    assert(cl == expand_cands(vms, v, lo, hi));
    assert forall|t: int| 0 <= t < cl.len() implies popcount_spec((#[trigger] cl[t]).2) == popcount_spec(
        vms[cl[t].1 as int],
    ) + 1 by {
        lemma_popcount_add_bit(vms[cl[t].1 as int], cl[t].0 as int);
    }
}

/// Run depth by depth from the pairs, depth `d` only ever proposes
/// `d`-variable sets: the pairs have two variables, and when every set the
/// last depth retained has `d - 1` variables, every candidate of depth `d`
/// has `d`.
pub proof fn lemma_candidates_at_depth_level(e: &PairMiEngine, depth: u32)
    requires
        e.wf(),
        depth == 2 || forall|s: int|
            e.prev_start() <= s < e.prev_end() ==> popcount_spec(#[trigger] e.vmasks()[s]) == depth - 1,
    ensures
        forall|t: int|
            0 <= t < e.candidate_list(depth).len() ==> popcount_spec((#[trigger] e.candidate_list(depth)[t]).2)
                == depth,
{
    let cl = e.candidate_list(depth);
    if depth == 2 {
        lemma_pair_cands_props(e.v as nat, 0);
        assert forall|t: int| 0 <= t < cl.len() implies popcount_spec((#[trigger] cl[t]).2) == depth by {
            lemma_pair_popcount(cl[t].0 as int, cl[t].1 as int);
        }
    } else {
        lemma_candidates_extend_last_depth(e, depth);
        assert forall|t: int| 0 <= t < cl.len() implies popcount_spec((#[trigger] cl[t]).2) == depth by {
            assert(e.prev_start() <= cl[t].1 < e.prev_end());
        }
    }
}

impl PairMiEngine {
    /// The set that candidate `(var, parent, _)` extends at `depth`: the
    /// first variable at depth 2, the parent set otherwise.
    pub open spec fn left_vm(&self, depth: u32, var: u32, parent: u32) -> u64 {
        if depth == 2 {
            bit_mask(var as int)
        } else {
            self.vmasks()[parent as int]
        }
    }

    /// A copy of the packed words of `left_vm`.
    fn left_words(&self, depth: u32, var: u32, parent: u32) -> (ws: Vec<u64>)
        requires
            self.wf(),
            depth == 2 ==> var < self.v,
            depth != 2 ==> parent < self.set_vmask@.len(),
        ensures
            ws@.len() == self.w,
            packs(ws@, 0, self.w as nat, self.n as nat, |i: int| obs_in(self.mat@, self.left_vm(depth, var, parent), i)),
    {
        let ghost m = self.mat@;
        let w = self.w;
        let ghost lvm = self.left_vm(depth, var, parent);
        let mut ws: Vec<u64> = Vec::new();
        if depth == 2 {
            let j = var as usize;
            let nb = self.orig_bits.len();
            proof {
                assert(var_packed(self.orig_bits@, m, j as int, w as nat));
                assert(j * w + w <= self.v * w) by (nonlinear_arith)
                    requires
                        j < self.v,
                ;
                let p1 = |x: int| m.at(j as int, x);
                let p2 = |x: int| obs_in(m, lvm, x);
                assert forall|i: int| #[trigger] p1(i) == p2(i) by {
                    lemma_obs_in_single(m, j as int, i);
                }
                lemma_packs_ext(self.orig_bits@, j * w, w as nat, m.cols(), p1, p2);
            }
            let base = j * w;
            let mut k: usize = 0;
            while k < w
                invariant
                    k <= w,
                    base + w <= nb,
                    nb == self.orig_bits@.len(),
                    ws@.len() == k,
                    forall|x: int| 0 <= x < k ==> #[trigger] ws@[x] == self.orig_bits@[base + x],
                decreases w - k,
            {
                ws.push(self.orig_bits[base + k]);
                k = k + 1;
            }
            proof {
                assert(ws@ =~= self.orig_bits@.subrange(base as int, base + w));
                lemma_packs_sub(self.orig_bits@, base as int, w as nat, m.cols(), |x: int| obs_in(m, lvm, x));
            }
        } else {
            let p = parent as usize;
            let nb = self.set_bits.len();
            proof {
                assert(set_packed(self.set_bits@, m, p as int, w as nat, self.set_vmask@[p as int]));
                assert(p * w + w <= self.set_vmask@.len() * w) by (nonlinear_arith)
                    requires
                        p < self.set_vmask@.len(),
                ;
            }
            let base = p * w;
            let mut k: usize = 0;
            while k < w
                invariant
                    k <= w,
                    base + w <= nb,
                    nb == self.set_bits@.len(),
                    ws@.len() == k,
                    forall|x: int| 0 <= x < k ==> #[trigger] ws@[x] == self.set_bits@[base + x],
                decreases w - k,
            {
                ws.push(self.set_bits[base + k]);
                k = k + 1;
            }
            proof {
                assert(ws@ =~= self.set_bits@.subrange(base as int, base + w));
                lemma_packs_sub(self.set_bits@, base as int, w as nat, m.cols(), |x: int| obs_in(m, lvm, x));
            }
        }
        ws
    }

    /// Observations of `lvm` plus variable `j`, from `lvm`'s packed words.
    fn conj_count(&self, left: &Vec<u64>, j: usize, lvm: Ghost<u64>) -> (c: u32)
        requires
            self.wf(),
            j < self.v,
            left@.len() == self.w,
            packs(left@, 0, self.w as nat, self.n as nat, |i: int| obs_in(self.mat@, lvm@, i)),
        ensures
            c == set_count(self.mat@, lvm@ | bit_mask(j as int)),
    {
        let ghost m = self.mat@;
        let w = self.w;
        let nb = self.orig_bits.len();
        proof {
            assert(var_packed(self.orig_bits@, m, j as int, w as nat));
            assert(j * w + w <= self.v * w) by (nonlinear_arith)
                requires
                    j < self.v,
            ;
        }
        let right = &self.orig_bits[j * w..j * w + w];
        let ghost pa = |i: int| obs_in(m, lvm@, i);
        let ghost pb = |i: int| m.at(j as int, i);
        let ghost pab = |i: int| obs_in(m, lvm@ | bit_mask(j as int), i);
        proof {
            lemma_packs_sub(self.orig_bits@, j * w, w as nat, m.cols(), pb);
            assert(right@ == self.orig_bits@.subrange(j * w, j * w + w));
            lemma_words_for(m.cols());
            assert forall|i: int| #[trigger] pab(i) == (pa(i) && pb(i)) by {
                lemma_obs_in_or(m, lvm@, j as int, i);
            }
            lemma_and_count_packs(left@, right@, w as nat, m.cols(), pa, pb, pab);
            lemma_count_rows_le(pab, m.cols());
        }
        and_popcount(left.as_slice(), right)
    }

    /// Append the set `lvm | {right}` (packed words `left & var right`).
    fn append_set(
        &mut self,
        left: &Vec<u64>,
        right: usize,
        lvm: Ghost<u64>,
        vm: u64,
        depth: u32,
        var: u32,
        parent: u32,
    )
        requires
            old(self).wf(),
            right < old(self).v,
            left@.len() == old(self).w,
            packs(left@, 0, old(self).w as nat, old(self).n as nat, |i: int| obs_in(old(self).mat@, lvm@, i)),
            vm == lvm@ | bit_mask(right as int),
            in_vocab(lvm@, old(self).v as nat),
            var < old(self).v,
            parent < u32::MAX,
            old(self).set_vmask@.len() < u32::MAX,
            provenance_ok(
                old(self).set_vmask@.push(vm),
                old(self).set_vmask@.len() as int,
                depth,
                var,
                parent,
                old(self).v as nat,
            ),
        ensures
            final(self).wf(),
            final(self).matrix() == old(self).matrix(),
            final(self).vmasks() == old(self).vmasks().push(vm),
            final(self).depths() == old(self).depths().push(depth),
            final(self).vars() == old(self).vars().push(var),
            final(self).parents() == old(self).parents().push(parent),
            final(self).prev_start() == old(self).prev_start(),
            final(self).prev_end() == old(self).prev_end(),
            final(self).v == old(self).v,
            final(self).w == old(self).w,
            final(self).n == old(self).n,
    {
        let ghost m = self.mat@;
        let w = self.w;
        let n11 = self.conj_count(left, right, lvm);
        let ghost old_bits = self.set_bits@;
        let ghost ns = self.set_vmask@.len();
        let nb = self.orig_bits.len();
        proof {
            assert(var_packed(self.orig_bits@, m, right as int, w as nat));
            assert(right * w + w <= self.v * w) by (nonlinear_arith)
                requires
                    right < self.v,
            ;
        }
        let rbase = right * w;
        let mut k: usize = 0;
        while k < w
            invariant
                k <= w,
                w == self.w,
                rbase + w <= nb,
                nb == self.orig_bits@.len(),
                left@.len() == w,
                self.set_bits@.len() == old_bits.len() + k,
                self.set_bits@.subrange(0, old_bits.len() as int) == old_bits,
                forall|x: int| 0 <= x < k ==> #[trigger] self.set_bits@[old_bits.len() + x] == left@[x]
                    & self.orig_bits@[rbase + x],
                self.orig_bits@ == old(self).orig_bits@,
                self.set_vmask@ == old(self).set_vmask@,
                self.set_pop@ == old(self).set_pop@,
                self.set_depth@ == old(self).set_depth@,
                self.set_var@ == old(self).set_var@,
                self.set_parent@ == old(self).set_parent@,
                self.orig_pop@ == old(self).orig_pop@,
                self.prev_start == old(self).prev_start,
                self.prev_end == old(self).prev_end,
                self.n == old(self).n,
                self.v == old(self).v,
                self.mat == old(self).mat,
            decreases w - k,
        {
            let word = left[k] & self.orig_bits[rbase + k];
            self.set_bits.push(word);
            proof {
                assert(self.set_bits@.subrange(0, old_bits.len() as int) =~= old_bits);
            }
            k = k + 1;
        }
        self.set_vmask.push(vm);
        self.set_pop.push(n11);
        self.set_depth.push(depth);
        self.set_var.push(var);
        self.set_parent.push(parent);
        proof {
            let nsw = ns * w;
            assert(old_bits.len() == nsw);
            assert((ns + 1) * w == nsw + w) by (nonlinear_arith)
                requires
                    nsw == ns * w,
            ;
            let pa = |i: int| obs_in(m, lvm@, i);
            let pb = |i: int| m.at(right as int, i);
            let pab = |i: int| obs_in(m, vm, i);
            let rsub = self.orig_bits@.subrange(rbase as int, rbase + w);
            lemma_packs_sub(self.orig_bits@, rbase as int, w as nat, m.cols(), pb);
            assert forall|i: int| #[trigger] pab(i) == (pa(i) && pb(i)) by {
                lemma_obs_in_or(m, lvm@, right as int, i);
            }
            assert forall|x: int| 0 <= x < w implies #[trigger] self.set_bits@[nsw + x] == left@[x] & rsub[x] by {
                assert(rsub[x] == self.orig_bits@[rbase + x]);
            }
            lemma_and_words_pack(left@, rsub, self.set_bits@, nsw, w as nat, m.cols(), pa, pb, pab);
            assert(set_packed(self.set_bits@, m, ns as int, w as nat, vm));
            assert forall|s: int| 0 <= s < ns + 1 implies #[trigger] set_packed(
                self.set_bits@,
                m,
                s,
                w as nat,
                self.set_vmask@[s],
            ) by {
                if s < ns {
                    assert(set_packed(old_bits, m, s, w as nat, old(self).set_vmask@[s]));
                    assert(s * w + w <= nsw) by (nonlinear_arith)
                        requires
                            s < ns,
                            nsw == ns * w,
                    ;
                    lemma_packs_prefix(old_bits, self.set_bits@, s * w, w as nat, m.cols(), |i: int| obs_in(
                        m,
                        self.set_vmask@[s],
                        i,
                    ));
                }
            }
            assert forall|t: int| 0 <= t < 64 && #[trigger] has_bit(vm, t) implies t < self.v by {
                lemma_obs_in_or(m, lvm@, right as int, 0);
            }
            assert(in_vocab(self.set_vmask@[ns as int], self.v as nat));
            assert forall|s: int| 0 <= s < ns + 1 implies #[trigger] provenance_ok(
                self.set_vmask@,
                s,
                self.set_depth@[s],
                self.set_var@[s],
                self.set_parent@[s],
                self.v as nat,
            ) by {
                if s < ns {
                    assert(provenance_ok(
                        old(self).set_vmask@,
                        s,
                        old(self).set_depth@[s],
                        old(self).set_var@[s],
                        old(self).set_parent@[s],
                        self.v as nat,
                    ));
                    if self.set_depth@[s] != 2 {
                        assert(self.set_vmask@[self.set_parent@[s] as int] == old(self).set_vmask@[self.set_parent@[s] as int]);
                    }
                } else {
                    assert(self.set_vmask@ == old(self).set_vmask@.push(vm));
                }
            }
        }
    }
}

proof fn lemma_unique_le(cands: Seq<(u32, u32, u64)>, n: nat)
    ensures
        unique_upto(cands, n) <= n,
    decreases n,
{
    if n > 0 {
        lemma_unique_le(cands, (n - 1) as nat);
    }
}

proof fn lemma_kept_vms_push(cands: Seq<(u32, u32, u64)>, r: Seq<int>, c: int)
    ensures
        kept_vms(cands, r.push(c)) == kept_vms(cands, r).insert(cands[c].2),
{
    let a = kept_vms(cands, r.push(c));
    let b = kept_vms(cands, r).insert(cands[c].2);
    assert forall|x: u64| a.contains(x) <==> b.contains(x) by {
        if a.contains(x) {
            let t = choose|t: int| 0 <= t < r.len() + 1 && cands[r.push(c)[t]].2 == x;
            if t < r.len() {
                assert(r.push(c)[t] == r[t]);
            }
        }
        if kept_vms(cands, r).contains(x) {
            let t = choose|t: int| 0 <= t < r.len() && cands[r[t]].2 == x;
            assert(r.push(c)[t] == r[t]);
        }
        if x == cands[c].2 {
            assert(r.push(c)[r.len() as int] == c);
        }
    }
    assert(a =~= b);
}

proof fn lemma_seen_vms_push(cands: Seq<(u32, u32, u64)>, c: nat)
    ensures
        seen_vms(cands, c + 1) == seen_vms(cands, c).insert(cands[c as int].2),
{
    let a = seen_vms(cands, c + 1);
    let b = seen_vms(cands, c).insert(cands[c as int].2);
    assert forall|x: u64| a.contains(x) <==> b.contains(x) by {
        if a.contains(x) {
            let t = choose|t: int| 0 <= t < c + 1 && cands[t].2 == x;
            if t < c {
                assert(seen_vms(cands, c).contains(x));
            }
        }
        if seen_vms(cands, c).contains(x) {
            let t = choose|t: int| 0 <= t < c && cands[t].2 == x;
            assert(0 <= t < c + 1 && cands[t].2 == x);
        }
    }
    assert(a =~= b);
}

impl PairMiEngine {
    /// The candidates of `depth` with the counts their significance test
    /// reads: the conjunction count of the candidate set, the count of the
    /// added variable, and the count of the parent (depth 2: of the second
    /// variable).
    pub fn candidates(&self, depth: u32) -> (cs: Vec<PairMiCandidate>)
        requires
            self.wf(),
        ensures
            cs@.len() == self.candidate_list(depth).len(),
            forall|t: int|
                0 <= t < cs@.len() ==> {
                    let k = self.candidate_list(depth)[t];
                    let c = #[trigger] cs@[t];
                    &&& c.var == k.0
                    &&& c.parent == k.1
                    &&& c.vmask == k.2
                    &&& c.n11 == set_count(self.matrix(), k.2)
                    &&& c.pop_var == var_count(self.matrix(), k.0 as int)
                    &&& c.pop_parent == if depth == 2 {
                        var_count(self.matrix(), k.1 as int)
                    } else {
                        self.pops()[k.1 as int] as nat
                    }
                },
    {
        let ghost m = self.mat@;
        let triples = self.cand_triples(depth);
        proof {
            if depth == 2 {
                lemma_pair_cands_props(self.v as nat, 0);
            } else {
                lemma_expand_cands_props(self.set_vmask@, self.v as nat, self.prev_start as nat, self.prev_end as nat);
            }
        }
        let mut cs: Vec<PairMiCandidate> = Vec::new();
        let mut t: usize = 0;
        while t < triples.len()
            invariant
                t <= triples@.len(),
                self.wf(),
                m == self.mat@,
                triples@ == self.candidate_list(depth),
                depth == 2 ==> forall|u: int|
                    0 <= u < triples@.len() ==> {
                        let k = #[trigger] triples@[u];
                        &&& k.0 < k.1 < self.v
                        &&& k.2 == bit_mask(k.0 as int) | bit_mask(k.1 as int)
                    },
                depth != 2 ==> forall|u: int|
                    0 <= u < triples@.len() ==> {
                        let k = #[trigger] triples@[u];
                        &&& k.1 < self.prev_end
                        &&& k.0 < self.v
                        &&& k.2 == self.set_vmask@[k.1 as int] | bit_mask(k.0 as int)
                    },
                cs@.len() == t,
                forall|u: int|
                    0 <= u < t ==> {
                        let k = triples@[u];
                        let c = #[trigger] cs@[u];
                        &&& c.var == k.0
                        &&& c.parent == k.1
                        &&& c.vmask == k.2
                        &&& c.n11 == set_count(m, k.2)
                        &&& c.pop_var == var_count(m, k.0 as int)
                        &&& c.pop_parent == if depth == 2 {
                            var_count(m, k.1 as int)
                        } else {
                            self.set_pop@[k.1 as int] as nat
                        }
                    },
            decreases triples@.len() - t,
        {
            let (var, parent, vm) = triples[t];
            let left = self.left_words(depth, var, parent);
            let right: usize = if depth == 2 { parent as usize } else { var as usize };
            let n11 = self.conj_count(&left, right, Ghost(self.left_vm(depth, var, parent)));
            let pop_var = self.orig_pop[var as usize];
            let pop_parent = if depth == 2 { self.orig_pop[parent as usize] } else { self.set_pop[parent as usize] };
            cs.push(PairMiCandidate { var, parent, vmask: vm, n11, pop_var, pop_parent });
            t = t + 1;
        }
        cs
    }

    /// Run one depth of the ascent. `keep[c]` is whether candidate `c` of
    /// [`candidates`](Self::candidates) is significant (missing flags are
    /// false). Depth 2 retains every flagged pair; any other depth retains
    /// a flagged candidate unless its set was already retained at this
    /// depth, and does nothing when the last depth retained no set.
    pub fn depth(&mut self, depth: u32, keep: &[bool]) -> (stats: DepthStats)
        requires
            old(self).wf(),
            old(self).vmasks().len() + old(self).candidate_list(depth).len() <= u32::MAX,
        ensures
            final(self).wf(),
            final(self).matrix() == old(self).matrix(),
            forall|s: int|
                old(self).vmasks().len() <= s < final(self).vmasks().len() && depth != 2 ==> old(self).prev_start()
                    <= #[trigger] final(self).parents()[s] < old(self).prev_end(),
            (depth == 2 || forall|s: int|
                old(self).prev_start() <= s < old(self).prev_end() ==> popcount_spec(#[trigger] old(self).vmasks()[s])
                    == depth - 1) ==> forall|s: int|
                final(self).prev_start() <= s < final(self).prev_end() ==> popcount_spec(
                    #[trigger] final(self).vmasks()[s],
                ) == depth,
            ({
                let cands = old(self).candidate_list(depth);
                let dedup = depth != 2;
                let r = retained_upto(cands, keep@, dedup, cands.len());
                if dedup && old(self).prev_end() <= old(self).prev_start() {
                    &&& final(self).vmasks() == old(self).vmasks()
                    &&& final(self).depths() == old(self).depths()
                    &&& final(self).vars() == old(self).vars()
                    &&& final(self).parents() == old(self).parents()
                    &&& final(self).prev_start() == old(self).prev_start()
                    &&& final(self).prev_end() == old(self).prev_end()
                    &&& stats.raw == 0
                    &&& stats.unique == 0
                    &&& stats.kept == 0
                } else {
                    &&& final(self).vmasks() == old(self).vmasks() + r.map_values(|c: int| cands[c].2)
                    &&& final(self).depths() == old(self).depths() + r.map_values(|c: int| depth)
                    &&& final(self).vars() == old(self).vars() + r.map_values(|c: int| cands[c].0)
                    &&& final(self).parents() == old(self).parents() + r.map_values(|c: int| cands[c].1)
                    &&& final(self).prev_start() == old(self).vmasks().len()
                    &&& final(self).prev_end() == final(self).vmasks().len()
                    &&& stats.raw == cands.len()
                    &&& stats.unique == if dedup {
                        unique_upto(cands, cands.len())
                    } else {
                        cands.len()
                    }
                    &&& stats.kept == r.len()
                }
            }),
    {
        let dedup = depth != 2;
        if dedup && self.prev_end <= self.prev_start {
            return DepthStats { raw: 0, unique: 0, kept: 0 };
        }
        let ghost m = self.mat@;
        let ghost pre_vm = self.set_vmask@;
        let ghost pre_depth = self.set_depth@;
        let ghost pre_var = self.set_var@;
        let ghost pre_parent = self.set_parent@;
        let ghost pre_prev_end = self.prev_end;
        let store_before = self.set_pop.len();
        let ghost pre: PairMiEngine = *self;
        let cands = self.cand_triples(depth);
        proof {
            if depth == 2 {
                lemma_pair_cands_props(self.v as nat, 0);
            } else {
                lemma_expand_cands_props(self.set_vmask@, self.v as nat, self.prev_start as nat, self.prev_end as nat);
            }
        }
        let mut seen_all: HashSet<u64> = HashSet::new();
        let mut seen_kept: HashSet<u64> = HashSet::new();
        let mut raw: u64 = 0;
        let mut unique: u64 = 0;
        let mut kept: u64 = 0;
        let ghost mut r: Seq<int> = Seq::empty();
        let mut c: usize = 0;
        while c < cands.len()
            invariant
                c <= cands@.len(),
                self.wf(),
                self.mat@ == m,
                dedup == (depth != 2),
                store_before == pre_vm.len(),
                pre_vm.len() + cands@.len() <= u32::MAX,
                self.prev_end == pre_prev_end,
                pre_prev_end <= pre_vm.len(),
                depth == 2 ==> forall|u: int|
                    0 <= u < cands@.len() ==> {
                        let k = #[trigger] cands@[u];
                        &&& k.0 < k.1 < self.v
                        &&& k.2 == bit_mask(k.0 as int) | bit_mask(k.1 as int)
                    },
                depth != 2 ==> forall|u: int|
                    0 <= u < cands@.len() ==> {
                        let k = #[trigger] cands@[u];
                        &&& k.1 < pre_prev_end
                        &&& k.0 < self.v
                        &&& !has_bit(pre_vm[k.1 as int], k.0 as int)
                        &&& k.2 == pre_vm[k.1 as int] | bit_mask(k.0 as int)
                    },
                r == retained_upto(cands@, keep@, dedup, c as nat),
                self.set_vmask@ == pre_vm + r.map_values(|t: int| cands@[t].2),
                self.set_depth@ == pre_depth + r.map_values(|t: int| depth),
                self.set_var@ == pre_var + r.map_values(|t: int| cands@[t].0),
                self.set_parent@ == pre_parent + r.map_values(|t: int| cands@[t].1),
                r.len() <= c,
                raw == c,
                kept == r.len(),
                dedup ==> unique == unique_upto(cands@, c as nat),
                !dedup ==> unique == c,
                dedup ==> seen_all@ == seen_vms(cands@, c as nat),
                dedup ==> seen_kept@ == kept_vms(cands@, r),
            decreases cands@.len() - c,
        {
            let (var, parent, vm) = cands[c];
            raw = raw + 1;
            if dedup {
                let fresh_set = seen_all.insert(vm);
                proof {
                    lemma_seen_vms_push(cands@, c as nat);
                    lemma_unique_le(cands@, c as nat);
                }
                if fresh_set {
                    unique = unique + 1;
                }
            } else {
                unique = unique + 1;
            }
            let not_kept = if dedup { !seen_kept.contains(&vm) } else { true };
            if not_kept && c < keep.len() && keep[c] {
                proof {
                    assert(self.set_vmask@.len() == pre_vm.len() + r.len());
                    if depth != 2 {
                        assert(self.set_vmask@[parent as int] == pre_vm[parent as int]);
                    } else {
                        lemma_obs_in_single(m, var as int, 0);
                    }
                }
                let left = self.left_words(depth, var, parent);
                let right: usize = if depth == 2 { parent as usize } else { var as usize };
                let ghost lvm = self.left_vm(depth, var, parent);
                proof {
                    let nv = self.set_vmask@.push(vm);
                    assert(nv[self.set_vmask@.len() as int] == vm);
                    if depth != 2 {
                        assert(parent < pre_prev_end);
                        assert(nv[parent as int] == pre_vm[parent as int]);
                    }
                    assert(provenance_ok(nv, self.set_vmask@.len() as int, depth, var, parent, self.v as nat));
                }
                self.append_set(&left, right, Ghost(lvm), vm, depth, var, parent);
                if dedup {
                    seen_kept.insert(vm);
                    proof {
                        lemma_kept_vms_push(cands@, r, c as int);
                    }
                }
                kept = kept + 1;
                proof {
                    let r2 = r.push(c as int);
                    assert(r2.map_values(|t: int| cands@[t].2) =~= r.map_values(|t: int| cands@[t].2).push(vm));
                    assert(r2.map_values(|t: int| depth) =~= r.map_values(|t: int| depth).push(depth));
                    assert(r2.map_values(|t: int| cands@[t].0) =~= r.map_values(|t: int| cands@[t].0).push(var));
                    assert(r2.map_values(|t: int| cands@[t].1) =~= r.map_values(|t: int| cands@[t].1).push(parent));
                    r = r2;
                }
            }
            c = c + 1;
        }
        proof {
            lemma_retained_len(cands@, keep@, dedup, cands@.len());
            if depth != 2 {
                lemma_candidates_extend_last_depth(&pre, depth);
                assert forall|s: int| pre_vm.len() <= s < self.set_vmask@.len() implies pre.prev_start()
                    <= #[trigger] self.set_parent@[s] < pre.prev_end() by {
                    assert(self.set_parent@[s] == cands@[r[s - pre_vm.len()]].1);
                }
            }
            if depth == 2 || forall|s: int|
                pre.prev_start() <= s < pre.prev_end() ==> popcount_spec(#[trigger] pre.vmasks()[s]) == depth - 1 {
                lemma_candidates_at_depth_level(&pre, depth);
                assert forall|s: int| store_before <= s < self.set_vmask@.len() implies popcount_spec(
                    #[trigger] self.set_vmask@[s],
                ) == depth by {
                    assert(self.set_vmask@[s] == cands@[r[s - pre_vm.len()]].2);
                }
            }
        }
        self.prev_start = store_before;
        self.prev_end = self.set_pop.len();
        DepthStats { raw, unique, kept }
    }
}

/// Every stored set's count is the number of observations having all of
/// its variables, and its variables are variables of the matrix.
pub proof fn lemma_stored_counts(e: &PairMiEngine)
    requires
        e.wf(),
    ensures
        e.matrix().wf(),
        e.matrix().cols() <= u32::MAX,
        e.pops().len() == e.vmasks().len(),
        e.depths().len() == e.vmasks().len(),
        e.vars().len() == e.vmasks().len(),
        e.parents().len() == e.vmasks().len(),
        e.prev_start() <= e.prev_end() <= e.vmasks().len(),
        forall|s: int| 0 <= s < e.vmasks().len() ==> #[trigger] e.pops()[s] == set_count(e.matrix(), e.vmasks()[s]),
        forall|s: int| 0 <= s < e.vmasks().len() ==> in_vocab(#[trigger] e.vmasks()[s], e.matrix().rows()),
{
}

/// Every stored set is either the pair of its two variables (depth 2) or
/// an earlier stored set plus one variable that set lacked.
pub proof fn lemma_store_provenance(e: &PairMiEngine, s: int)
    requires
        e.wf(),
        0 <= s < e.vmasks().len(),
    ensures
        provenance_ok(e.vmasks(), s, e.depths()[s], e.vars()[s], e.parents()[s], e.matrix().rows()),
{
}

proof fn lemma_seen_vms_len(cands: Seq<(u32, u32, u64)>, n: nat)
    requires
        n <= cands.len(),
    ensures
        seen_vms(cands, n).finite(),
        seen_vms(cands, n).len() == unique_upto(cands, n),
    decreases n,
{
    if n == 0 {
        assert(seen_vms(cands, 0) =~= Set::<u64>::empty());
    } else {
        lemma_seen_vms_len(cands, (n - 1) as nat);
        lemma_seen_vms_push(cands, (n - 1) as nat);
    }
}

proof fn lemma_kept_vms_len(cands: Seq<(u32, u32, u64)>, keep: Seq<bool>, n: nat)
    requires
        n <= cands.len(),
    ensures
        kept_vms(cands, retained_upto(cands, keep, true, n)).finite(),
        kept_vms(cands, retained_upto(cands, keep, true, n)).len() == retained_upto(cands, keep, true, n).len(),
        kept_vms(cands, retained_upto(cands, keep, true, n)).subset_of(seen_vms(cands, n)),
    decreases n,
{
    let r = retained_upto(cands, keep, true, n);
    if n == 0 {
        assert(kept_vms(cands, r) =~= Set::<u64>::empty());
    } else {
        lemma_kept_vms_len(cands, keep, (n - 1) as nat);
        lemma_seen_vms_push(cands, (n - 1) as nat);
        let prev = retained_upto(cands, keep, true, (n - 1) as nat);
        if r != prev {
            lemma_kept_vms_push(cands, prev, n - 1);
        }
    }
}

proof fn lemma_retained_len(cands: Seq<(u32, u32, u64)>, keep: Seq<bool>, dedup: bool, n: nat)
    ensures
        retained_upto(cands, keep, dedup, n).len() <= n,
        forall|t: int|
            0 <= t < retained_upto(cands, keep, dedup, n).len() ==> 0 <= #[trigger] retained_upto(
                cands,
                keep,
                dedup,
                n,
            )[t] < n,
    decreases n,
{
    if n > 0 {
        lemma_retained_len(cands, keep, dedup, (n - 1) as nat);
    }
}

/// A depth's counts are ordered: retained <= distinct <= raw candidates
/// (with canonical-set dedup); without dedup, retained <= raw.
pub proof fn lemma_depth_counts_ordered(cands: Seq<(u32, u32, u64)>, keep: Seq<bool>)
    ensures
        retained_upto(cands, keep, true, cands.len()).len() <= unique_upto(cands, cands.len()),
        unique_upto(cands, cands.len()) <= cands.len(),
        retained_upto(cands, keep, false, cands.len()).len() <= cands.len(),
{
    let n = cands.len();
    lemma_seen_vms_len(cands, n);
    lemma_kept_vms_len(cands, keep, n);
    vstd::set_lib::lemma_len_subset(kept_vms(cands, retained_upto(cands, keep, true, n)), seen_vms(cands, n));
    lemma_unique_le(cands, n);
    lemma_retained_len(cands, keep, false, n);
}

/// With canonical-set dedup, a depth retains each set at most once.
pub proof fn lemma_dedup_retains_distinct(cands: Seq<(u32, u32, u64)>, keep: Seq<bool>, n: nat, a: int, b: int)
    requires
        n <= cands.len(),
        0 <= a < b < retained_upto(cands, keep, true, n).len(),
    ensures
        cands[retained_upto(cands, keep, true, n)[a]].2 != cands[retained_upto(cands, keep, true, n)[b]].2,
    decreases n,
{
    let r = retained_upto(cands, keep, true, n);
    let prev = retained_upto(cands, keep, true, (n - 1) as nat);
    if r == prev {
        lemma_dedup_retains_distinct(cands, keep, (n - 1) as nat, a, b);
    } else {
        assert(r == prev.push(n - 1));
        if b < prev.len() {
            assert(r[a] == prev[a] && r[b] == prev[b]);
            lemma_dedup_retains_distinct(cands, keep, (n - 1) as nat, a, b);
        } else {
            assert(r[a] == prev[a]);
            assert(!kept_vms(cands, prev).contains(cands[n - 1].2));
            if cands[prev[a]].2 == cands[n - 1].2 {
                assert(kept_vms(cands, prev).contains(cands[n - 1].2));
            }
        }
    }
}

/// The sets retained among the first `n` candidates (with dedup) are
/// exactly the sets of the flagged ones.
proof fn lemma_kept_vms_are_flagged_sets(cands: Seq<(u32, u32, u64)>, keep: Seq<bool>, n: nat, x: u64)
    requires
        n <= cands.len(),
    ensures
        kept_vms(cands, retained_upto(cands, keep, true, n)).contains(x) <==> exists|c2: int|
            0 <= c2 < n && keep_flag(keep, c2) && #[trigger] cands[c2].2 == x,
    decreases n,
{
    if n > 0 {
        lemma_kept_vms_are_flagged_sets(cands, keep, (n - 1) as nat, x);
        let prev = retained_upto(cands, keep, true, (n - 1) as nat);
        let c = n - 1;
        if keep_flag(keep, c) && !kept_vms(cands, prev).contains(cands[c].2) {
            lemma_kept_vms_push(cands, prev, c);
        }
        if keep_flag(keep, c) && kept_vms(cands, prev).contains(cands[c].2) && cands[c].2 == x {
            lemma_kept_vms_are_flagged_sets(cands, keep, (n - 1) as nat, cands[c].2);
        }
        if exists|c2: int| 0 <= c2 < n && keep_flag(keep, c2) && #[trigger] cands[c2].2 == x {
            let c2 = choose|c2: int| 0 <= c2 < n && keep_flag(keep, c2) && #[trigger] cands[c2].2 == x;
            if c2 < c {
                assert(exists|c3: int| 0 <= c3 < n - 1 && keep_flag(keep, c3) && #[trigger] cands[c3].2 == x);
            }
        }
    }
}

proof fn lemma_retained_contains_later(cands: Seq<(u32, u32, u64)>, keep: Seq<bool>, dedup: bool, n: nat, c: int)
    requires
        0 <= c < n,
    ensures
        retained_upto(cands, keep, dedup, n).contains(c) <==> retained_upto(cands, keep, dedup, (c + 1) as nat).contains(
            c,
        ),
    decreases n,
{
    if n > c + 1 {
        lemma_retained_contains_later(cands, keep, dedup, (n - 1) as nat, c);
        let prev = retained_upto(cands, keep, dedup, (n - 1) as nat);
        let r = retained_upto(cands, keep, dedup, n);
        if r != prev {
            assert(r == prev.push(n - 1));
            if r.contains(c) {
                let t = choose|t: int| 0 <= t < r.len() && r[t] == c;
                if t < prev.len() {
                    assert(prev[t] == r[t]);
                }
            }
            if prev.contains(c) {
                let t = choose|t: int| 0 <= t < prev.len() && prev[t] == c;
                assert(r[t] == prev[t]);
            }
        }
    }
}

/// With canonical-set dedup, candidate `c` is retained exactly when it is
/// flagged and no earlier candidate with the same set is flagged: the first
/// significant way of reaching a set is the one kept.
pub proof fn lemma_dedup_keeps_first_flagged(cands: Seq<(u32, u32, u64)>, keep: Seq<bool>, n: nat, c: int)
    requires
        0 <= c < n <= cands.len(),
    ensures
        retained_upto(cands, keep, true, n).contains(c) <==> (keep_flag(keep, c) && forall|c2: int|
            0 <= c2 < c && keep_flag(keep, c2) ==> #[trigger] cands[c2].2 != cands[c].2),
{
    lemma_retained_contains_later(cands, keep, true, n, c);
    lemma_kept_vms_are_flagged_sets(cands, keep, c as nat, cands[c].2);
    lemma_retained_len(cands, keep, true, c as nat);
    let prev = retained_upto(cands, keep, true, c as nat);
    let r = retained_upto(cands, keep, true, (c + 1) as nat);
    if r != prev {
        assert(r[prev.len() as int] == c);
    } else {
        if r.contains(c) {
            let t = choose|t: int| 0 <= t < r.len() && r[t] == c;
            assert(prev[t] < c);
        }
    }
}

/// Result rows list their members 1-based and strictly ascending.
pub proof fn lemma_result_members_ascending(vm: u64)
    ensures
        forall|t: int| 0 <= t < one_based_members(vm).len() ==> 1 <= #[trigger] one_based_members(vm)[t] <= 64,
        forall|a: int, b: int|
            0 <= a < b < one_based_members(vm).len() ==> #[trigger] one_based_members(vm)[a]
                < #[trigger] one_based_members(vm)[b],
{
    crate::bitset::lemma_members_spec(vm);
}

} // verus!
