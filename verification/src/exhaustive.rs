//! Exhaustive lattice ascent via Apriori ordered extension.
//!
//! Depth 1 screens each observation (column) for support `>= n_min`; each
//! later depth extends the previous depth's configurations, parent by
//! parent, with admissible columns above the parent's highest column, and
//! keeps the extensions whose support still reaches `n_min` (downward
//! closure). Per configuration the store keeps its mask, its support and
//! its target counts (configuration-major). The ascent stops early when a
//! depth would exceed the admissible limit, keeping only completed depths.
//!
//! The evaluability gate `n / (n + z^2) >= theta` depends on the support
//! `n <= 64` only; it is handed in as one table per threshold, indexed by
//! support.

use vstd::prelude::*;
use rayon::iter::{IntoParallelIterator, ParallelIterator};
use crate::bitset::{
    has_bit, lemma_or_single_bit, lemma_zero_no_bit, max_element, pack_column, popcount, top_bit, words_for,
};
use crate::lattice::{
    adm_from, admissible_columns, bit_mask, children, col_support, conj_word_ok, extensions,
    high_columns_inadmissible, lemma_adm_from_props, lemma_column_word,
    lemma_extend_word, lemma_popcount_is_support, lemma_popcount_is_target_count,
    lemma_supports_of_concat, lemma_top_of_is_top_bit, lemma_top_of_zero, lemma_y1_rows_of_push, level,
    supports_of, target_count, target_hit, top_of, y1_row, y1_rows_of,
};
use crate::matrix::BinaryMatrix;

verus! {

/// Store of all admissible configurations found during the ascent.
pub struct EmscStore {
    /// Configuration masks (bit `j` = observation `j`), depth-major.
    pub cfg_mask: Vec<u64>,
    /// Support of each configuration.
    pub cfg_supp: Vec<u32>,
    /// Target counts, configuration-major: `cfg_y1[g * n_targets + k]`.
    pub cfg_y1: Vec<u32>,
    /// Exclusive end offset of each completed depth in `cfg_mask`.
    pub depth_end: Vec<u32>,
    /// Per-target exclusion masks.
    pub excl_mask: Vec<u64>,
    /// Number of targets.
    pub n_targets: u32,
}

impl EmscStore {
    /// Shape of a store: one support and `n_targets` target counts per
    /// configuration.
    pub open spec fn wf(&self) -> bool {
        &&& self.cfg_supp@.len() == self.cfg_mask@.len()
        &&& self.cfg_y1@.len() == self.cfg_mask@.len() * self.n_targets
    }
}

/// Result of the exhaustive ascent.
pub struct AscentResult {
    /// The configuration store.
    pub store: EmscStore,
    /// Admissible configuration count per depth (index 0 = depth 1).
    pub admissibility: Vec<u32>,
    /// Evaluable configuration counts, `[theta][depth]`.
    pub evaluability: Vec<Vec<u32>>,
    /// Whether the ascent stopped because a depth exceeded the limit.
    pub stopped_early: bool,
    /// The depth that exceeded the limit, if any.
    pub stop_depth: Option<u32>,
}

/// A depth's admissible count `n` exceeds the limit (`n > limit`; a negative
/// limit is exceeded by every count).
pub open spec fn over_limit(n: nat, limit: i64) -> bool {
    limit < 0 || n > limit
}

/// Last completed depth when the ascent has completed depth `d`.
pub open spec fn ascent_end_from(m: BinaryMatrix, n_min: nat, maxc: nat, limit: i64, d: nat) -> nat
    decreases maxc - d,
{
    if d >= maxc || level(m, n_min, d).len() == 0 || over_limit(level(m, n_min, d + 1).len(), limit) {
        d
    } else {
        ascent_end_from(m, n_min, maxc, limit, d + 1)
    }
}

/// Number of completed depths of an ascent.
pub open spec fn ascent_depths(m: BinaryMatrix, n_min: nat, maxc: nat, limit: i64) -> nat {
    if over_limit(level(m, n_min, 1).len(), limit) {
        1
    } else {
        ascent_end_from(m, n_min, maxc, limit, 1)
    }
}

/// The depth at which an ascent stops early, if it does.
pub open spec fn ascent_stop(m: BinaryMatrix, n_min: nat, maxc: nat, limit: i64) -> Option<u32> {
    if over_limit(level(m, n_min, 1).len(), limit) {
        Some(1u32)
    } else {
        let e = ascent_end_from(m, n_min, maxc, limit, 1);
        if e < maxc && level(m, n_min, e).len() > 0 && over_limit(level(m, n_min, e + 1).len(), limit) {
            Some((e + 1) as u32)
        } else {
            None
        }
    }
}

/// Number of supports in `s` whose entry in `table` is true.
pub open spec fn eval_count(s: Seq<u32>, table: Seq<bool>) -> nat
    decreases s.len(),
{
    if s.len() == 0 {
        0
    } else {
        eval_count(s.drop_last(), table) + if table[s.last() as int] { 1nat } else { 0nat }
    }
}

/// Bit `b` belongs to the exclusion list.
pub open spec fn excluded(opt: Option<Vec<u32>>, b: int) -> bool {
    match opt {
        Some(v) => v@.contains(b as u32),
        None => false,
    }
}

spec fn target_words_ok(tw: Seq<u64>, targets: Seq<Vec<u8>>) -> bool {
    &&& tw.len() == targets.len()
    &&& forall|k: int, r: int|
        0 <= k < tw.len() && 0 <= r < 64 ==> (#[trigger] has_bit(tw[k], r) <==> target_hit(targets[k]@, r))
}

spec fn columns_ok(m: BinaryMatrix, n_min: nat, d1: Seq<usize>) -> bool {
    &&& d1 == admissible_columns(m, n_min)
    &&& forall|t: int| 0 <= t < d1.len() ==> #[trigger] d1[t] < 64 && d1[t] < m.cols()
}

/// The extensions of one parent configuration.
struct ParentExtension {
    masks: Vec<u64>,
    supps: Vec<u32>,
    y1s: Vec<u32>,
    bits: Vec<u64>,
}

/// What every parent extension of one depth reads.
struct ExtendCtx<'a> {
    matrix: &'a BinaryMatrix,
    targets: &'a [Vec<u8>],
    n_min: u32,
    cfg_mask: &'a [u64],
    lo: usize,
    n_prev: usize,
    prev_bits: &'a [u64],
    col_words: &'a [u64],
    tgt_words: &'a [u64],
    d1: &'a [usize],
    keep_bits: bool,
}

impl<'a> ExtendCtx<'a> {
    spec fn wf(&self) -> bool {
        &&& self.matrix.wf()
        &&& self.col_words@ == self.matrix.words()
        &&& columns_ok(*self.matrix, self.n_min as nat, self.d1@)
        &&& target_words_ok(self.tgt_words@, self.targets@)
        &&& self.lo + self.n_prev <= self.cfg_mask@.len()
        &&& self.prev_bits@.len() == self.n_prev
        &&& forall|i: int|
            0 <= i < self.n_prev ==> conj_word_ok(
                *self.matrix,
                #[trigger] self.cfg_mask@[self.lo + i],
                self.prev_bits@[i],
            )
    }

    spec fn extension_ok(&self, i: int, ext: ParentExtension) -> bool {
        let m = *self.matrix;
        let p = self.cfg_mask@[self.lo + i];
        &&& ext.masks@ == children(m, self.n_min as nat, p)
        &&& ext.supps@ == supports_of(m, ext.masks@)
        &&& ext.y1s@ == y1_rows_of(m, self.targets@, ext.masks@)
        &&& if self.keep_bits {
            &&& ext.bits@.len() == ext.masks@.len()
            &&& forall|t: int|
                0 <= t < ext.masks@.len() ==> conj_word_ok(m, #[trigger] ext.masks@[t], ext.bits@[t])
        } else {
            ext.bits@.len() == 0
        }
    }
}

/// Target counts of the configuration whose row-indicator word is `w`.
fn target_counts(
    matrix: &BinaryMatrix,
    targets: &[Vec<u8>],
    tgt_words: &[u64],
    q: Ghost<u64>,
    w: u64,
) -> (row: Vec<u32>)
    requires
        matrix.wf(),
        conj_word_ok(*matrix, q@, w),
        target_words_ok(tgt_words@, targets@),
    ensures
        row@ == y1_row(*matrix, q@, targets@),
{
    let mut row: Vec<u32> = Vec::new();
    let mut k: usize = 0;
    while k < tgt_words.len()
        invariant
            k <= tgt_words@.len(),
            matrix.wf(),
            conj_word_ok(*matrix, q@, w),
            target_words_ok(tgt_words@, targets@),
            row@.len() == k,
            forall|kk: int| 0 <= kk < k ==> #[trigger] row@[kk] == target_count(*matrix, q@, targets@[kk]@) as u32,
        decreases tgt_words@.len() - k,
    {
        let c = popcount(w & tgt_words[k]);
        proof {
            assert forall|r: int| 0 <= r < 64 implies (#[trigger] has_bit(tgt_words@[k as int], r)
                <==> target_hit(targets@[k as int]@, r)) by {
            }
            lemma_popcount_is_target_count(*matrix, q@, w, tgt_words@[k as int], targets@[k as int]@);
        }
        row.push(c);
        k = k + 1;
    }
    proof {
        assert(row@ =~= y1_row(*matrix, q@, targets@));
    }
    row
}

/// Extend one parent configuration (index `i` of the previous depth) with
/// every admissible column above its highest column whose conjunction
/// keeps support `>= n_min`.
fn extend_parent(ctx: &ExtendCtx, i: usize) -> (ext: ParentExtension)
    requires
        ctx.wf(),
        i < ctx.n_prev,
    ensures
        ctx.extension_ok(i as int, ext),
{
    let ghost m = *ctx.matrix;
    let ghost n_min = ctx.n_min as nat;
    let n_cfg = ctx.cfg_mask.len();
    assert(ctx.lo + i < n_cfg);
    let p = ctx.cfg_mask[ctx.lo + i];
    let pw = ctx.prev_bits[i];
    let top: i64 = match max_element(p) {
        Some(k) => {
            proof {
                lemma_top_of_is_top_bit(p, k as int);
            }
            k as i64
        },
        None => {
            proof {
                lemma_top_of_zero();
            }
            -1
        },
    };
    proof {
        assert(conj_word_ok(m, p, pw));
    }
    let mut masks: Vec<u64> = Vec::new();
    let mut supps: Vec<u32> = Vec::new();
    let mut y1s: Vec<u32> = Vec::new();
    let mut bits: Vec<u64> = Vec::new();
    let mut t: usize = 0;
    while t < ctx.d1.len()
        invariant
            ctx.wf(),
            m == *ctx.matrix,
            n_min == ctx.n_min as nat,
            p == ctx.cfg_mask@[ctx.lo + i],
            i < ctx.n_prev,
            conj_word_ok(m, p, pw),
            top == top_of(p),
            t <= ctx.d1@.len(),
            masks@ + extensions(m, n_min, p, t as nat) == children(m, n_min, p),
            supps@ == supports_of(m, masks@),
            y1s@ == y1_rows_of(m, ctx.targets@, masks@),
            if ctx.keep_bits {
                &&& bits@.len() == masks@.len()
                &&& forall|tt: int| 0 <= tt < masks@.len() ==> conj_word_ok(m, #[trigger] masks@[tt], bits@[tt])
            } else {
                bits@.len() == 0
            },
        decreases ctx.d1@.len() - t,
    {
        let j = ctx.d1[t];
        proof {
            assert(j < 64 && j < m.cols());
        }
        let ghost q = p | bit_mask(j as int);
        if (j as i64) > top {
            let scratch = pw & ctx.col_words[j];
            proof {
                lemma_column_word(m, j as int);
                lemma_extend_word(m, p, pw, j as int, m.words()[j as int]);
                lemma_popcount_is_support(m, q, scratch);
            }
            let supp = popcount(scratch);
            if supp >= ctx.n_min {
                let qm = p | (1u64 << (j as u64));
                let mut row = target_counts(ctx.matrix, ctx.targets, ctx.tgt_words, Ghost(q), scratch);
                proof {
                    assert(qm == q);
                    lemma_supports_of_concat(m, masks@, seq![qm]);
                    assert(masks@.push(qm) =~= masks@ + seq![qm]);
                    lemma_y1_rows_of_push(m, ctx.targets@, masks@, qm);
                    assert(masks@.push(qm) + extensions(m, n_min, p, (t + 1) as nat) =~= masks@
                        + extensions(m, n_min, p, t as nat));
                }
                masks.push(qm);
                supps.push(supp);
                y1s.append(&mut row);
                if ctx.keep_bits {
                    bits.push(scratch);
                }
            } else {
                proof {
                    assert(extensions(m, n_min, p, t as nat) == extensions(m, n_min, p, (t + 1) as nat));
                }
            }
        } else {
            proof {
                assert(extensions(m, n_min, p, t as nat) == extensions(m, n_min, p, (t + 1) as nat));
            }
        }
        t = t + 1;
    }
    proof {
        assert(masks@ + extensions(m, n_min, p, t as nat) =~= masks@);
    }
    ParentExtension { masks, supps, y1s, bits }
}

/// Runs `extend_parent` for the parents `0..n_prev` on rayon's thread pool.
/// rayon's `collect` into a `Vec` from an indexed parallel iterator keeps
/// the order of the indices, so result `i` is what `extend_parent(ctx, i)`
/// returns; that is what the contract claims, unproved.
#[verifier::external_body]
fn extend_all(ctx: &ExtendCtx, n_prev: usize) -> (exts: Vec<ParentExtension>)
    requires
        ctx.wf(),
        n_prev == ctx.n_prev,
    ensures
        exts@.len() == n_prev,
        forall|i: int| 0 <= i < n_prev ==> ctx.extension_ok(i, #[trigger] exts@[i]),
{
    (0..n_prev).into_par_iter().map(|i| extend_parent(ctx, i)).collect()
}


/// The row-indicator word of a target: bit `r` is set iff `t[r] == 1`.
fn target_word(t: &Vec<u8>) -> (w: u64)
    requires
        t@.len() <= 64,
    ensures
        forall|r: int| 0 <= r < 64 ==> (#[trigger] has_bit(w, r) <==> target_hit(t@, r)),
{
    let mut col: Vec<bool> = Vec::new();
    let mut r: usize = 0;
    while r < t.len()
        invariant
            r <= t@.len(),
            col@.len() == r,
            forall|rr: int| 0 <= rr < r ==> #[trigger] col@[rr] == (t@[rr] == 1),
        decreases t@.len() - r,
    {
        col.push(t[r] == 1);
        r = r + 1;
    }
    let packed = pack_column(col.as_slice());
    if packed.len() == 0 {
        proof {
            assert forall|r: int| 0 <= r < 64 implies !target_hit(t@, r) by {
            }
            crate::lattice::lemma_top_of_zero();
            assert forall|r: int| 0 <= r < 64 implies !has_bit(0, r) by {
                lemma_zero_no_bit(r as u64);
            }
        }
        0
    } else {
        proof {
            assert(words_for(col@.len() as nat) == 1);
            assert forall|r: int| 0 <= r < 64 implies (#[trigger] has_bit(packed@[0], r) <==> target_hit(t@, r)) by {
                assert(0 * 64 + r == r);
            }
        }
        packed[0]
    }
}

/// The exclusion mask of one target: the OR of `1 << i` over its indices.
fn exclusion_mask(opt: &Option<Vec<u32>>) -> (mask: u64)
    requires
        opt matches Some(v) ==> forall|t: int| 0 <= t < v@.len() ==> #[trigger] v@[t] < 64,
    ensures
        forall|b: int| 0 <= b < 64 ==> (#[trigger] has_bit(mask, b) <==> excluded(*opt, b)),
{
    match opt {
        Some(idx) => {
            let mut mask: u64 = 0;
            proof {
                assert forall|b: int| 0 <= b < 64 implies !has_bit(0, b) by {
                    lemma_zero_no_bit(b as u64);
                }
            }
            let mut t: usize = 0;
            while t < idx.len()
                invariant
                    t <= idx@.len(),
                    forall|u: int| 0 <= u < idx@.len() ==> #[trigger] idx@[u] < 64,
                    forall|b: int|
                        0 <= b < 64 ==> (#[trigger] has_bit(mask, b) <==> exists|u: int|
                            0 <= u < t && #[trigger] idx@[u] == b as u32),
                decreases idx@.len() - t,
            {
                let i = idx[t];
                let old_mask = mask;
                mask = mask | (1u64 << (i as u64));
                proof {
                    assert forall|b: int| 0 <= b < 64 implies (#[trigger] has_bit(mask, b) <==> exists|u: int|
                        0 <= u < t + 1 && #[trigger] idx@[u] == b as u32) by {
                        lemma_or_single_bit(old_mask, i as u64, b as u64);
                        let ex_old = exists|u: int| 0 <= u < t && #[trigger] idx@[u] == b as u32;
                        assert(has_bit(old_mask, b) <==> ex_old);
                        if has_bit(mask, b) {
                            if b == i as int {
                                assert(idx@[t as int] == b as u32);
                            } else {
                                let u = choose|u: int| 0 <= u < t && #[trigger] idx@[u] == b as u32;
                                assert(0 <= u < t + 1 && idx@[u] == b as u32);
                            }
                        }
                        if exists|u: int| 0 <= u < t + 1 && #[trigger] idx@[u] == b as u32 {
                            let u = choose|u: int| 0 <= u < t + 1 && #[trigger] idx@[u] == b as u32;
                            if u < t {
                                assert(ex_old);
                            }
                        }
                    }
                }
                t = t + 1;
            }
            proof {
                assert forall|b: int| 0 <= b < 64 implies (#[trigger] has_bit(mask, b) <==> excluded(*opt, b)) by {
                    if has_bit(mask, b) {
                        let u = choose|u: int| 0 <= u < t && #[trigger] idx@[u] == b as u32;
                        assert(idx@.contains(b as u32));
                    }
                    if idx@.contains(b as u32) {
                        let u = choose|u: int| 0 <= u < idx@.len() && idx@[u] == b as u32;
                        assert(idx@[u] == b as u32);
                    }
                }
            }
            mask
        },
        None => {
            proof {
                assert forall|b: int| 0 <= b < 64 implies !has_bit(0, b) by {
                    lemma_zero_no_bit(b as u64);
                }
            }
            0
        },
    }
}

/// The admissible columns: support (popcount of the column word) `>= n_min`.
fn admissible(matrix: &BinaryMatrix, col_words: &[u64], n_min: u32) -> (d1: Vec<usize>)
    requires
        matrix.wf(),
        col_words@ == matrix.words(),
        high_columns_inadmissible(*matrix, n_min as nat),
    ensures
        columns_ok(*matrix, n_min as nat, d1@),
{
    let ghost m = *matrix;
    let n_cols = matrix.n_cols();
    let mut d1: Vec<usize> = Vec::new();
    let mut j: usize = 0;
    while j < n_cols
        invariant
            j <= n_cols,
            n_cols == m.cols(),
            m == *matrix,
            matrix.wf(),
            col_words@ == matrix.words(),
            d1@ + adm_from(m, n_min as nat, j as nat) == admissible_columns(m, n_min as nat),
        decreases n_cols - j,
    {
        proof {
            crate::lattice::lemma_popcount_column(m, j as int);
        }
        let supp = popcount(col_words[j]);
        if supp >= n_min {
            proof {
                assert(d1@.push(j) + adm_from(m, n_min as nat, (j + 1) as nat) =~= d1@
                    + adm_from(m, n_min as nat, j as nat));
            }
            d1.push(j);
        }
        j = j + 1;
    }
    proof {
        assert(d1@ + adm_from(m, n_min as nat, j as nat) =~= d1@);
        lemma_adm_from_props(m, n_min as nat, 0);
        assert forall|t: int| 0 <= t < d1@.len() implies #[trigger] d1@[t] < 64 && d1@[t] < m.cols() by {
            if d1@[t] >= 64 {
                assert(col_support(m, d1@[t] as int) < n_min);
            }
        }
    }
    d1
}

fn append_u64(dst: &mut Vec<u64>, src: &[u64])
    ensures
        final(dst)@ == old(dst)@ + src@,
{
    let mut i: usize = 0;
    while i < src.len()
        invariant
            i <= src@.len(),
            dst@ == old(dst)@ + src@.subrange(0, i as int),
        decreases src@.len() - i,
    {
        dst.push(src[i]);
        proof {
            assert(src@.subrange(0, i + 1) =~= src@.subrange(0, i as int).push(src@[i as int]));
        }
        i = i + 1;
    }
    proof {
        assert(src@.subrange(0, src@.len() as int) =~= src@);
    }
}

fn append_u32(dst: &mut Vec<u32>, src: &[u32])
    ensures
        final(dst)@ == old(dst)@ + src@,
{
    let mut i: usize = 0;
    while i < src.len()
        invariant
            i <= src@.len(),
            dst@ == old(dst)@ + src@.subrange(0, i as int),
        decreases src@.len() - i,
    {
        dst.push(src[i]);
        proof {
            assert(src@.subrange(0, i + 1) =~= src@.subrange(0, i as int).push(src@[i as int]));
        }
        i = i + 1;
    }
    proof {
        assert(src@.subrange(0, src@.len() as int) =~= src@);
    }
}

/// A depth's evaluable count never exceeds its admissible count.
pub proof fn lemma_eval_count_le(s: Seq<u32>, table: Seq<bool>)
    ensures
        eval_count(s, table) <= s.len(),
    decreases s.len(),
{
    if s.len() > 0 {
        lemma_eval_count_le(s.drop_last(), table);
    }
}

/// Number of supports in `supps[lo..hi]` marked evaluable by `table`.
fn count_evaluable(supps: &[u32], lo: usize, hi: usize, table: &[bool]) -> (c: u32)
    requires
        lo <= hi <= supps@.len(),
        hi - lo <= u32::MAX,
        forall|g: int| lo <= g < hi ==> (#[trigger] supps@[g]) < table@.len(),
    ensures
        c == eval_count(supps@.subrange(lo as int, hi as int), table@),
{
    let mut c: u32 = 0;
    let mut g: usize = lo;
    while g < hi
        invariant
            lo <= g <= hi,
            hi <= supps@.len(),
            hi - lo <= u32::MAX,
            forall|gg: int| lo <= gg < hi ==> (#[trigger] supps@[gg]) < table@.len(),
            c == eval_count(supps@.subrange(lo as int, g as int), table@),
        decreases hi - g,
    {
        proof {
            assert(supps@.subrange(lo as int, g + 1).drop_last() =~= supps@.subrange(lo as int, g as int));
            lemma_eval_count_le(supps@.subrange(lo as int, g as int), table@);
        }
        if table[supps[g] as usize] {
            c = c + 1;
        }
        g = g + 1;
    }
    c
}

/// Whether an admissible count exceeds the limit.
fn exceeds(n: u64, limit: i64) -> (b: bool)
    ensures
        b == over_limit(n as nat, limit),
{
    limit < 0 || n > limit as u64
}


/// Start offset of depth `i + 1` given the end offsets of the depths.
pub open spec fn start_of(bounds: Seq<usize>, i: int) -> int {
    if i == 0 {
        0
    } else {
        bounds[i - 1] as int
    }
}

spec fn bounds_ok(bounds: Seq<usize>, total: int) -> bool {
    &&& forall|i: int, j: int| 0 <= i <= j < bounds.len() ==> #[trigger] bounds[i] <= #[trigger] bounds[j]
    &&& forall|i: int| 0 <= i < bounds.len() ==> #[trigger] bounds[i] <= total
    &&& total <= u32::MAX
}

fn build_admissibility(bounds: &Vec<usize>, max_cardinality: u32) -> (a: Vec<u32>)
    requires
        bounds@.len() <= max_cardinality,
        bounds_ok(bounds@, u32::MAX as int),
    ensures
        a@.len() == max_cardinality,
        forall|i: int|
            0 <= i < max_cardinality ==> #[trigger] a@[i] == if i < bounds@.len() {
                (bounds@[i] - start_of(bounds@, i)) as u32
            } else {
                0u32
            },
{
    let mut a: Vec<u32> = Vec::new();
    let mut i: usize = 0;
    while i < max_cardinality as usize
        invariant
            i <= max_cardinality,
            bounds@.len() <= max_cardinality,
            bounds_ok(bounds@, u32::MAX as int),
            a@.len() == i,
            forall|ii: int|
                0 <= ii < i ==> #[trigger] a@[ii] == if ii < bounds@.len() {
                    (bounds@[ii] - start_of(bounds@, ii)) as u32
                } else {
                    0u32
                },
        decreases max_cardinality - i,
    {
        if i < bounds.len() {
            let lo = if i == 0 { 0 } else { bounds[i - 1] };
            proof {
                if i > 0 {
                    assert(bounds@[i - 1] <= bounds@[i as int]);
                }
            }
            a.push((bounds[i] - lo) as u32);
        } else {
            a.push(0);
        }
        i = i + 1;
    }
    a
}

fn build_evaluability(
    supps: &Vec<u32>,
    bounds: &Vec<usize>,
    evaluable: &[Vec<bool>],
    max_cardinality: u32,
) -> (ev: Vec<Vec<u32>>)
    requires
        bounds@.len() <= max_cardinality,
        bounds_ok(bounds@, supps@.len() as int),
        forall|ti: int, g: int|
            0 <= ti < evaluable@.len() && 0 <= g < supps@.len() ==> supps@[g] < (
            #[trigger] evaluable@[ti])@.len() && #[trigger] supps@[g] == supps@[g],
    ensures
        ev@.len() == evaluable@.len(),
        forall|ti: int|
            0 <= ti < evaluable@.len() ==> (#[trigger] ev@[ti])@.len() == max_cardinality,
        forall|ti: int, i: int|
            0 <= ti < evaluable@.len() && 0 <= i < max_cardinality ==> #[trigger] ev@[ti]@[i] == if i
                < bounds@.len() {
                eval_count(supps@.subrange(start_of(bounds@, i), bounds@[i] as int), evaluable@[ti]@) as u32
            } else {
                0u32
            },
{
    let mut ev: Vec<Vec<u32>> = Vec::new();
    let mut ti: usize = 0;
    while ti < evaluable.len()
        invariant
            ti <= evaluable@.len(),
            bounds@.len() <= max_cardinality,
            bounds_ok(bounds@, supps@.len() as int),
            forall|tj: int, g: int|
                0 <= tj < evaluable@.len() && 0 <= g < supps@.len() ==> supps@[g] < (
                #[trigger] evaluable@[tj])@.len() && #[trigger] supps@[g] == supps@[g],
            ev@.len() == ti,
            forall|tj: int| 0 <= tj < ti ==> (#[trigger] ev@[tj])@.len() == max_cardinality,
            forall|tj: int, i: int|
                0 <= tj < ti && 0 <= i < max_cardinality ==> #[trigger] ev@[tj]@[i] == if i
                    < bounds@.len() {
                    eval_count(supps@.subrange(start_of(bounds@, i), bounds@[i] as int), evaluable@[tj]@) as u32
                } else {
                    0u32
                },
        decreases evaluable@.len() - ti,
    {
        let table = &evaluable[ti];
        let mut row: Vec<u32> = Vec::new();
        let mut i: usize = 0;
        while i < max_cardinality as usize
            invariant
                i <= max_cardinality,
                ti < evaluable@.len(),
                *table == evaluable@[ti as int],
                bounds@.len() <= max_cardinality,
                bounds_ok(bounds@, supps@.len() as int),
                forall|g: int| 0 <= g < supps@.len() ==> #[trigger] supps@[g] < table@.len(),
                row@.len() == i,
                forall|ii: int|
                    0 <= ii < i ==> #[trigger] row@[ii] == if ii < bounds@.len() {
                        eval_count(supps@.subrange(start_of(bounds@, ii), bounds@[ii] as int), table@) as u32
                    } else {
                        0u32
                    },
            decreases max_cardinality - i,
        {
            if i < bounds.len() {
                let lo = if i == 0 { 0 } else { bounds[i - 1] };
                proof {
                    if i > 0 {
                        assert(bounds@[i - 1] <= bounds@[i as int]);
                    }
                }
                let c = count_evaluable(supps.as_slice(), lo, bounds[i], table.as_slice());
                row.push(c);
            } else {
                row.push(0);
            }
            i = i + 1;
        }
        ev.push(row);
        ti = ti + 1;
    }
    ev
}

/// The exclusion indices of a target all name mask bits.
pub open spec fn exclusion_ok(opt: Option<Vec<u32>>) -> bool {
    opt matches Some(v) ==> forall|t: int| 0 <= t < v@.len() ==> #[trigger] v@[t] < 64
}

proof fn lemma_ascent_end_ge(m: BinaryMatrix, n_min: nat, maxc: nat, limit: i64, d: nat)
    ensures
        ascent_end_from(m, n_min, maxc, limit, d) >= d,
        d <= maxc ==> ascent_end_from(m, n_min, maxc, limit, d) <= maxc,
    decreases maxc - d,
{
    if !(d >= maxc || level(m, n_min, d).len() == 0 || over_limit(level(m, n_min, d + 1).len(), limit)) {
        lemma_ascent_end_ge(m, n_min, maxc, limit, d + 1);
    }
}

proof fn lemma_ascent_end_reason(m: BinaryMatrix, n_min: nat, maxc: nat, limit: i64, d: nat)
    requires
        1 <= d <= maxc,
    ensures
        ({
            let e = ascent_end_from(m, n_min, maxc, limit, d);
            &&& d <= e <= maxc
            &&& forall|k: nat|
                d <= k < e ==> k < maxc && (#[trigger] level(m, n_min, k)).len() > 0 && !over_limit(
                    level(m, n_min, k + 1).len(),
                    limit,
                )
            &&& e == maxc || level(m, n_min, e).len() == 0 || over_limit(level(m, n_min, e + 1).len(), limit)
        }),
    decreases maxc - d,
{
    if !(d >= maxc || level(m, n_min, d).len() == 0 || over_limit(level(m, n_min, d + 1).len(), limit)) {
        lemma_ascent_end_reason(m, n_min, maxc, limit, d + 1);
    }
}

/// The early stop looks at one depth at a time, never at a running total:
/// the ascent goes on past depth `d` exactly while `d < max_cardinality`,
/// depth `d` is nonempty and depth `d + 1` on its own is within the limit;
/// it ends at the first depth where one of these fails, and it reports an
/// early stop at depth `s` only when level `s` alone is over the limit.
#[verifier::rlimit(40)]
pub proof fn lemma_ascent_stop_is_per_depth(m: BinaryMatrix, n_min: nat, maxc: nat, limit: i64)
    requires
        1 <= maxc <= u32::MAX,
    ensures
        ({
            let e = ascent_depths(m, n_min, maxc, limit);
            let stop = ascent_stop(m, n_min, maxc, limit);
            &&& 1 <= e <= maxc
            &&& stop matches Some(s) ==> over_limit(level(m, n_min, s as nat).len(), limit)
            &&& over_limit(level(m, n_min, 1).len(), limit) ==> e == 1 && stop == Some(1u32)
            &&& !over_limit(level(m, n_min, 1).len(), limit) ==> {
                &&& forall|d: nat|
                    1 <= d < e ==> d < maxc && (#[trigger] level(m, n_min, d)).len() > 0 && !over_limit(
                        level(m, n_min, d + 1).len(),
                        limit,
                    )
                &&& e == maxc || level(m, n_min, e).len() == 0 || over_limit(level(m, n_min, e + 1).len(), limit)
                &&& (stop is Some <==> (e < maxc && level(m, n_min, e).len() > 0 && over_limit(
                    level(m, n_min, e + 1).len(),
                    limit,
                )))
                &&& stop matches Some(s) ==> s == e + 1
            }
        }),
{
    lemma_ascent_end_reason(m, n_min, maxc, limit, 1);
    let e = ascent_end_from(m, n_min, maxc, limit, 1);
    let stop = ascent_stop(m, n_min, maxc, limit);
    if !over_limit(level(m, n_min, 1).len(), limit) {
        assert(ascent_depths(m, n_min, maxc, limit) == e);
        if e < maxc && level(m, n_min, e).len() > 0 && over_limit(level(m, n_min, e + 1).len(), limit) {
            assert(e + 1 <= maxc);
            assert(stop == Some((e + 1) as u32));
        } else {
            assert(stop is None);
        }
    }
}

/// Run the exhaustive ascent.
///
/// `targets[k]` is the target of each row (a row counts for target `k` iff
/// its entry is 1); `evaluable[ti][n]` is whether support `n` passes the
/// evaluability gate of threshold `ti`; the ascent stops at the first depth
/// whose admissible count exceeds `max_admissible_per_depth`; `excludes[k]`
/// lists the observations excluded for target `k`.
pub fn ascend(
    matrix: &BinaryMatrix,
    targets: &[Vec<u8>],
    evaluable: &[Vec<bool>],
    n_min: u32,
    max_cardinality: u32,
    max_admissible_per_depth: i64,
    excludes: &[Option<Vec<u32>>],
) -> (res: AscentResult)
    requires
        matrix.wf(),
        1 <= max_cardinality,
        targets@.len() <= u32::MAX,
        forall|k: int| 0 <= k < targets@.len() ==> (#[trigger] targets@[k])@.len() <= 64,
        forall|ti: int| 0 <= ti < evaluable@.len() ==> (#[trigger] evaluable@[ti])@.len() > matrix.rows(),
        forall|k: int| 0 <= k < excludes@.len() ==> exclusion_ok(#[trigger] excludes@[k]),
        high_columns_inadmissible(*matrix, n_min as nat),
        crate::lattice::levels_upto(
            *matrix,
            n_min as nat,
            ascent_depths(*matrix, n_min as nat, max_cardinality as nat, max_admissible_per_depth),
        ).len() <= u32::MAX,
    ensures
        ({
            let m = *matrix;
            let nm = n_min as nat;
            let e = ascent_depths(m, nm, max_cardinality as nat, max_admissible_per_depth);
            &&& 1 <= e <= max_cardinality
            &&& res.store.cfg_mask@ == crate::lattice::levels_upto(m, nm, e)
            &&& res.store.cfg_supp@ == supports_of(m, res.store.cfg_mask@)
            &&& res.store.cfg_y1@ == y1_rows_of(m, targets@, res.store.cfg_mask@)
            &&& res.store.depth_end@.len() == e
            &&& forall|i: int|
                0 <= i < e ==> #[trigger] res.store.depth_end@[i] == crate::lattice::levels_upto(
                    m,
                    nm,
                    (i + 1) as nat,
                ).len()
            &&& res.store.excl_mask@.len() == excludes@.len()
            &&& forall|k: int, b: int|
                0 <= k < excludes@.len() && 0 <= b < 64 ==> (#[trigger] has_bit(
                    res.store.excl_mask@[k],
                    b,
                ) <==> excluded(excludes@[k], b))
            &&& res.store.n_targets == targets@.len()
            &&& res.store.wf()
            &&& res.admissibility@.len() == max_cardinality
            &&& forall|i: int|
                0 <= i < max_cardinality ==> #[trigger] res.admissibility@[i] == if i < e {
                    level(m, nm, (i + 1) as nat).len()
                } else {
                    0
                }
            &&& res.evaluability@.len() == evaluable@.len()
            &&& forall|ti: int|
                0 <= ti < evaluable@.len() ==> (#[trigger] res.evaluability@[ti])@.len()
                    == max_cardinality
            &&& forall|ti: int, i: int|
                0 <= ti < evaluable@.len() && 0 <= i < max_cardinality
                    ==> #[trigger] res.evaluability@[ti]@[i] == if i < e {
                    eval_count(supports_of(m, level(m, nm, (i + 1) as nat)), evaluable@[ti]@)
                } else {
                    0
                }
            &&& res.stop_depth == ascent_stop(m, nm, max_cardinality as nat, max_admissible_per_depth)
            &&& res.stopped_early == res.stop_depth is Some
        }),
{
    let ghost m = *matrix;
    let ghost nm = n_min as nat;
    let ghost maxc = max_cardinality as nat;
    let ghost limit = max_admissible_per_depth;
    let ghost e_final = ascent_depths(m, nm, maxc, limit);
    proof {
        lemma_ascent_end_ge(m, nm, maxc, limit, 1);
    }
    let col_words = matrix.as_bits();
    let n_targets = targets.len();

    // Target words.
    let mut tgt_words: Vec<u64> = Vec::new();
    let mut k: usize = 0;
    while k < n_targets
        invariant
            k <= n_targets,
            n_targets == targets@.len(),
            forall|kk: int| 0 <= kk < targets@.len() ==> (#[trigger] targets@[kk])@.len() <= 64,
            tgt_words@.len() == k,
            forall|kk: int, r: int|
                0 <= kk < k && 0 <= r < 64 ==> (#[trigger] has_bit(tgt_words@[kk], r) <==> target_hit(
                    targets@[kk]@,
                    r,
                )),
        decreases n_targets - k,
    {
        let w = target_word(&targets[k]);
        tgt_words.push(w);
        k = k + 1;
    }

    // Exclusion masks.
    let mut excl_mask: Vec<u64> = Vec::new();
    let mut k: usize = 0;
    while k < excludes.len()
        invariant
            k <= excludes@.len(),
            forall|kk: int| 0 <= kk < excludes@.len() ==> exclusion_ok(#[trigger] excludes@[kk]),
            excl_mask@.len() == k,
            forall|kk: int, b: int|
                0 <= kk < k && 0 <= b < 64 ==> (#[trigger] has_bit(excl_mask@[kk], b) <==> excluded(
                    excludes@[kk],
                    b,
                )),
        decreases excludes@.len() - k,
    {
        let x = exclusion_mask(&excludes[k]);
        excl_mask.push(x);
        k = k + 1;
    }

    // Depth 1: admissible single observations.
    let d1 = admissible(matrix, col_words, n_min);
    let mut cfg_mask: Vec<u64> = Vec::new();
    let mut cfg_supp: Vec<u32> = Vec::new();
    let mut cfg_y1: Vec<u32> = Vec::new();
    let mut prev_bits: Vec<u64> = Vec::new();
    let mut t: usize = 0;
    while t < d1.len()
        invariant
            t <= d1@.len(),
            m == *matrix,
            matrix.wf(),
            col_words@ == m.words(),
            columns_ok(m, nm, d1@),
            target_words_ok(tgt_words@, targets@),
            cfg_mask@ == crate::lattice::single_masks(d1@.subrange(0, t as int)),
            cfg_supp@ == supports_of(m, cfg_mask@),
            cfg_y1@ == y1_rows_of(m, targets@, cfg_mask@),
            prev_bits@.len() == t,
            forall|i: int| 0 <= i < t ==> conj_word_ok(m, #[trigger] cfg_mask@[i], prev_bits@[i]),
        decreases d1@.len() - t,
    {
        let j = d1[t];
        proof {
            assert(j < 64 && j < m.cols());
            lemma_column_word(m, j as int);
            lemma_popcount_is_support(m, bit_mask(j as int), m.words()[j as int]);
        }
        let w = col_words[j];
        let supp = popcount(w);
        let mask = 1u64 << (j as u64);
        let mut row = target_counts(matrix, targets, tgt_words.as_slice(), Ghost(mask), w);
        proof {
            assert(d1@.subrange(0, t + 1) =~= d1@.subrange(0, t as int).push(j));
            crate::lattice::lemma_single_masks_push(d1@.subrange(0, t as int), j);
            lemma_supports_of_concat(m, cfg_mask@, seq![mask]);
            assert(cfg_mask@.push(mask) =~= cfg_mask@ + seq![mask]);
            lemma_y1_rows_of_push(m, targets@, cfg_mask@, mask);
        }
        cfg_mask.push(mask);
        cfg_supp.push(supp);
        cfg_y1.append(&mut row);
        prev_bits.push(w);
        t = t + 1;
    }
    proof {
        assert(d1@.subrange(0, d1@.len() as int) =~= d1@);
        assert(cfg_mask@ == level(m, nm, 1));
        assert(crate::lattice::levels_upto(m, nm, 0) =~= Seq::<u64>::empty());
        assert(crate::lattice::levels_upto(m, nm, 1) == crate::lattice::levels_upto(m, nm, 0) + level(m, nm, 1));
        assert(crate::lattice::levels_upto(m, nm, 1) =~= level(m, nm, 1));
        crate::lattice::lemma_levels_upto_prefix(m, nm, 1, e_final);
    }
    let mut depth_end: Vec<u32> = Vec::new();
    let mut bounds: Vec<usize> = Vec::new();
    depth_end.push(cfg_mask.len() as u32);
    bounds.push(cfg_mask.len());

    let mut stop_depth: Option<u32> = None;
    let mut d: u32 = 1;
    let mut lev_start: usize = 0;
    if exceeds(d1.len() as u64, max_admissible_per_depth) {
        stop_depth = Some(1);
    } else {
        let mut running = true;
        while running && d < max_cardinality
            invariant
                1 <= d <= max_cardinality,
                m == *matrix,
                nm == n_min as nat,
                maxc == max_cardinality as nat,
                limit == max_admissible_per_depth,
                matrix.wf(),
                col_words@ == m.words(),
                columns_ok(m, nm, d1@),
                target_words_ok(tgt_words@, targets@),
                !over_limit(level(m, nm, 1).len(), limit),
                e_final == ascent_end_from(m, nm, maxc, limit, 1),
                ascent_end_from(m, nm, maxc, limit, d as nat) == e_final,
                crate::lattice::levels_upto(m, nm, e_final).len() <= u32::MAX,
                cfg_mask@ == crate::lattice::levels_upto(m, nm, d as nat),
                cfg_supp@ == supports_of(m, cfg_mask@),
                cfg_y1@ == y1_rows_of(m, targets@, cfg_mask@),
                lev_start == crate::lattice::levels_upto(m, nm, (d - 1) as nat).len(),
                bounds@.len() == d,
                depth_end@.len() == d,
                forall|i: int|
                    0 <= i < d ==> #[trigger] bounds@[i] == crate::lattice::levels_upto(
                        m,
                        nm,
                        (i + 1) as nat,
                    ).len() && depth_end@[i] == bounds@[i] as u32,
                d < max_cardinality ==> prev_bits@.len() == level(m, nm, d as nat).len(),
                d < max_cardinality ==> forall|i: int|
                    0 <= i < prev_bits@.len() ==> conj_word_ok(
                        m,
                        #[trigger] level(m, nm, d as nat)[i],
                        prev_bits@[i],
                    ),
                running ==> stop_depth is None,
                !running ==> d < max_cardinality,
                !running ==> ascent_end_from(m, nm, maxc, limit, d as nat) == d,
                !running ==> (stop_depth is Some <==> (level(m, nm, d as nat).len() > 0 && over_limit(
                    level(m, nm, (d + 1) as nat).len(),
                    limit,
                ))),
                stop_depth matches Some(s) ==> s == d + 1,
            decreases 2 * (max_cardinality - d) + if running { 1int } else { 0int },
        {
            proof {
                crate::lattice::lemma_level_in_levels_upto(m, nm, d as nat, d as nat);
                assert(crate::lattice::levels_upto(m, nm, d as nat) == crate::lattice::levels_upto(
                    m,
                    nm,
                    (d - 1) as nat,
                ) + level(m, nm, d as nat));
            }
            let n_cfg = cfg_mask.len();
            let n_prev = n_cfg - lev_start;
            if n_prev == 0 {
                running = false;
            } else {
                let keep_bits = d + 1 < max_cardinality;
                let ghost lev = level(m, nm, d as nat);
                proof {
                    assert forall|i: int| 0 <= i < n_prev implies #[trigger] cfg_mask@[lev_start + i] == lev[i] by {
                        assert((crate::lattice::levels_upto(m, nm, (d - 1) as nat) + lev)[lev_start + i]
                            == lev[i]);
                    }
                }
                let ctx = ExtendCtx {
                    matrix,
                    targets,
                    n_min,
                    cfg_mask: cfg_mask.as_slice(),
                    lo: lev_start,
                    n_prev,
                    prev_bits: prev_bits.as_slice(),
                    col_words,
                    tgt_words: tgt_words.as_slice(),
                    d1: d1.as_slice(),
                    keep_bits,
                };
                proof {
                    assert forall|i: int| 0 <= i < ctx.n_prev implies conj_word_ok(
                        *ctx.matrix,
                        #[trigger] ctx.cfg_mask@[ctx.lo + i],
                        ctx.prev_bits@[i],
                    ) by {
                        assert(ctx.cfg_mask@[ctx.lo + i] == lev[i]);
                    }
                }
                let exts = extend_all(&ctx, n_prev);
                let mut cur_masks: Vec<u64> = Vec::new();
                let mut cur_supps: Vec<u32> = Vec::new();
                let mut cur_y1: Vec<u32> = Vec::new();
                let mut cur_bits: Vec<u64> = Vec::new();
                let mut i: usize = 0;
                while i < n_prev
                    invariant
                        i <= n_prev,
                        n_prev == lev.len(),
                        ctx.n_prev == n_prev,
                        ctx.matrix == matrix,
                        m == *matrix,
                        ctx.n_min == n_min,
                        nm == n_min as nat,
                        ctx.targets@ == targets@,
                        ctx.keep_bits == keep_bits,
                        ctx.lo == lev_start,
                        forall|ii: int| 0 <= ii < n_prev ==> #[trigger] ctx.cfg_mask@[lev_start + ii] == lev[ii],
                        exts@.len() == n_prev,
                        forall|ii: int| 0 <= ii < n_prev ==> ctx.extension_ok(ii, #[trigger] exts@[ii]),
                        cur_masks@ == crate::lattice::children_of(m, nm, lev.subrange(0, i as int)).flatten(),
                        cur_supps@ == supports_of(m, cur_masks@),
                        cur_y1@ == y1_rows_of(m, targets@, cur_masks@),
                        if keep_bits {
                            &&& cur_bits@.len() == cur_masks@.len()
                            &&& forall|tt: int|
                                0 <= tt < cur_masks@.len() ==> conj_word_ok(
                                    m,
                                    #[trigger] cur_masks@[tt],
                                    cur_bits@[tt],
                                )
                        } else {
                            cur_bits@.len() == 0
                        },
                    decreases n_prev - i,
                {
                    let ext = &exts[i];
                    proof {
                        assert(ctx.extension_ok(i as int, exts@[i as int]));
                        assert(ctx.cfg_mask@[ctx.lo + i] == lev[i as int]);
                        assert(lev.subrange(0, i + 1) =~= lev.subrange(0, i as int).push(lev[i as int]));
                        crate::lattice::lemma_children_of_push(m, nm, lev.subrange(0, i as int), lev[i as int]);
                        lemma_supports_of_concat(m, cur_masks@, ext.masks@);
                        crate::lattice::lemma_y1_rows_of_concat(m, targets@, cur_masks@, ext.masks@);
                    }
                    let ghost old_masks = cur_masks@;
                    let ghost old_bits = cur_bits@;
                    append_u64(&mut cur_masks, ext.masks.as_slice());
                    append_u32(&mut cur_supps, ext.supps.as_slice());
                    append_u32(&mut cur_y1, ext.y1s.as_slice());
                    append_u64(&mut cur_bits, ext.bits.as_slice());
                    proof {
                        if keep_bits {
                            assert forall|tt: int| 0 <= tt < cur_masks@.len() implies conj_word_ok(
                                m,
                                #[trigger] cur_masks@[tt],
                                cur_bits@[tt],
                            ) by {
                                if tt < old_masks.len() {
                                    assert(cur_masks@[tt] == old_masks[tt]);
                                    assert(cur_bits@[tt] == old_bits[tt]);
                                } else {
                                    assert(cur_masks@[tt] == ext.masks@[tt - old_masks.len()]);
                                    assert(cur_bits@[tt] == ext.bits@[tt - old_masks.len()]);
                                }
                            }
                        }
                    }
                    i = i + 1;
                }
                proof {
                    assert(lev.subrange(0, n_prev as int) =~= lev);
                    assert(cur_masks@ == level(m, nm, (d + 1) as nat));
                }
                let n_admis = cur_masks.len();
                if exceeds(n_admis as u64, max_admissible_per_depth) {
                    running = false;
                    stop_depth = Some(d + 1);
                } else {
                    proof {
                        lemma_ascent_end_ge(m, nm, maxc, limit, (d + 1) as nat);
                        assert(ascent_end_from(m, nm, maxc, limit, d as nat) == ascent_end_from(
                            m,
                            nm,
                            maxc,
                            limit,
                            (d + 1) as nat,
                        ));
                        crate::lattice::lemma_levels_upto_prefix(m, nm, (d + 1) as nat, e_final);
                        lemma_supports_of_concat(m, cfg_mask@, cur_masks@);
                        crate::lattice::lemma_y1_rows_of_concat(m, targets@, cfg_mask@, cur_masks@);
                        assert(crate::lattice::levels_upto(m, nm, (d + 1) as nat) == cfg_mask@ + cur_masks@);
                    }
                    lev_start = n_cfg;
                    append_u64(&mut cfg_mask, cur_masks.as_slice());
                    append_u32(&mut cfg_supp, cur_supps.as_slice());
                    append_u32(&mut cfg_y1, cur_y1.as_slice());
                    let n_total = cfg_mask.len();
                    depth_end.push(n_total as u32);
                    bounds.push(n_total);
                    prev_bits = cur_bits;
                    d = d + 1;
                }
            }
        }
    }
    proof {
        if stop_depth is None && !over_limit(level(m, nm, 1).len(), limit) {
            if d >= max_cardinality {
            }
        }
        assert(d as nat == e_final);
        assert forall|i: int, j: int| 0 <= i <= j < bounds@.len() implies #[trigger] bounds@[i] <= #[trigger] bounds@[j] by {
            crate::lattice::lemma_levels_upto_prefix(m, nm, (i + 1) as nat, (j + 1) as nat);
        }
        assert forall|i: int| 0 <= i < bounds@.len() implies #[trigger] bounds@[i] <= cfg_mask@.len() by {
            crate::lattice::lemma_levels_upto_prefix(m, nm, (i + 1) as nat, d as nat);
        }
    }
    let admissibility = build_admissibility(&bounds, max_cardinality);
    proof {
        assert forall|ti: int, g: int|
            0 <= ti < evaluable@.len() && 0 <= g < cfg_supp@.len() implies cfg_supp@[g] < (
            #[trigger] evaluable@[ti])@.len() && #[trigger] cfg_supp@[g] == cfg_supp@[g] by {
            crate::lattice::lemma_count_rows_le(|r: int| crate::lattice::row_has_all(m, cfg_mask@[g], r), m.rows());
        }
    }
    let evaluability = build_evaluability(&cfg_supp, &bounds, evaluable, max_cardinality);
    proof {
        assert forall|i: int| 0 <= i < d implies (bounds@[i] - start_of(bounds@, i)) == level(m, nm, (i + 1) as nat).len()
            && #[trigger] cfg_supp@.subrange(start_of(bounds@, i), bounds@[i] as int) == supports_of(
            m,
            level(m, nm, (i + 1) as nat),
        ) by {
            crate::lattice::lemma_level_in_levels_upto(m, nm, (i + 1) as nat, d as nat);
            crate::lattice::lemma_supports_of_subrange(m, cfg_mask@, start_of(bounds@, i), bounds@[i] as int);
        }
        assert forall|i: int| 0 <= i < max_cardinality implies #[trigger] admissibility@[i] == if i < d {
            level(m, nm, (i + 1) as nat).len()
        } else {
            0
        } by {
            if i < d {
                assert(cfg_supp@.subrange(start_of(bounds@, i), bounds@[i] as int) == supports_of(
                    m,
                    level(m, nm, (i + 1) as nat),
                ));
            }
        }
        assert forall|ti: int, i: int|
            0 <= ti < evaluable@.len() && 0 <= i < max_cardinality implies #[trigger] evaluability@[ti]@[i]
            == if i < d {
            eval_count(supports_of(m, level(m, nm, (i + 1) as nat)), evaluable@[ti]@)
        } else {
            0
        } by {
            if i < d {
                assert(cfg_supp@.subrange(start_of(bounds@, i), bounds@[i] as int) == supports_of(
                    m,
                    level(m, nm, (i + 1) as nat),
                ));
                lemma_eval_count_le(supports_of(m, level(m, nm, (i + 1) as nat)), evaluable@[ti]@);
                crate::lattice::lemma_levels_upto_prefix(m, nm, (i + 1) as nat, d as nat);
            }
        }
    }
    let stopped_early = stop_depth.is_some();
    proof {
        assert(1 <= e_final <= max_cardinality);
        assert(cfg_mask@ == crate::lattice::levels_upto(m, nm, e_final));
        assert(depth_end@.len() == e_final);
        assert(stop_depth == ascent_stop(m, nm, maxc, limit));
        assert forall|i: int| 0 <= i < e_final implies #[trigger] depth_end@[i] == crate::lattice::levels_upto(
            m,
            nm,
            (i + 1) as nat,
        ).len() by {
            crate::lattice::lemma_levels_upto_prefix(m, nm, (i + 1) as nat, d as nat);
            assert(bounds@[i] == crate::lattice::levels_upto(m, nm, (i + 1) as nat).len());
            assert(bounds@[i] <= cfg_mask@.len() <= u32::MAX);
            assert(depth_end@[i] == bounds@[i] as u32);
        }
        crate::lattice::lemma_y1_rows_of_index(m, targets@, cfg_mask@);
    }
    AscentResult {
        store: EmscStore {
            cfg_mask,
            cfg_supp,
            cfg_y1,
            depth_end,
            excl_mask,
            n_targets: n_targets as u32,
        },
        admissibility,
        evaluability,
        stopped_early,
        stop_depth,
    }
}

} // verus!
