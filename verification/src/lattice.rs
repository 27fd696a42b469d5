//! The configuration lattice searched by the exhaustive engine.
//!
//! A configuration is a set of columns (observations) held as a `u64`
//! mask. Its support is the number of rows (variables) that have a 1 in
//! every column of the set; its target count is the number of those rows
//! whose target is 1. Depth `d` of the lattice holds the admissible
//! configurations of `d` columns, generated by Apriori ordered extension.

use vstd::prelude::*;
use crate::bitset::{
    bits_below, has_bit, lemma_max_element_is_last_member, lemma_members_spec, lemma_or_single_bit, lemma_zero_no_bit,
    members_spec, popcount_spec, top_bit,
};
use crate::matrix::BinaryMatrix;

verus! {

/// Number of `r` in `0..n` satisfying `p`.
pub open spec fn count_rows(p: spec_fn(int) -> bool, n: nat) -> nat
    decreases n,
{
    if n == 0 {
        0
    } else {
        count_rows(p, (n - 1) as nat) + if p(n - 1) { 1nat } else { 0nat }
    }
}

/// Row `r` has a 1 in every column of `mask`.
pub open spec fn row_has_all(m: BinaryMatrix, mask: u64, r: int) -> bool {
    forall|c: int| 0 <= c < 64 && #[trigger] has_bit(mask, c) ==> m.at(r, c)
}

/// Support of a configuration: rows with a 1 in all of its columns.
pub open spec fn support(m: BinaryMatrix, mask: u64) -> nat {
    count_rows(|r: int| row_has_all(m, mask, r), m.rows())
}

/// Row `r` has target value 1.
pub open spec fn target_hit(t: Seq<u8>, r: int) -> bool {
    0 <= r < t.len() && t[r] == 1
}

/// Supporting rows of a configuration whose target is 1.
pub open spec fn target_count(m: BinaryMatrix, mask: u64, t: Seq<u8>) -> nat {
    count_rows(|r: int| row_has_all(m, mask, r) && target_hit(t, r), m.rows())
}

/// Number of rows with a 1 in column `j`.
pub open spec fn col_support(m: BinaryMatrix, j: int) -> nat {
    count_rows(|r: int| m.at(r, j), m.rows())
}

/// The mask of the single column `j`.
pub open spec fn bit_mask(j: int) -> u64 {
    1u64 << (j as u64)
}

/// `w` is the row-indicator word of configuration `mask`: bit `r` is set iff
/// `r` is a row with a 1 in every column of `mask`.
pub open spec fn conj_word_ok(m: BinaryMatrix, mask: u64, w: u64) -> bool {
    forall|r: int| 0 <= r < 64 ==> (#[trigger] has_bit(w, r) <==> (r < m.rows() && row_has_all(m, mask, r)))
}

/// Columns at or after `j` whose support reaches `n_min`, ascending.
pub open spec fn adm_from(m: BinaryMatrix, n_min: nat, j: nat) -> Seq<usize>
    decreases m.cols() - j,
{
    if j >= m.cols() {
        Seq::empty()
    } else if col_support(m, j as int) >= n_min {
        seq![j as usize] + adm_from(m, n_min, j + 1)
    } else {
        adm_from(m, n_min, j + 1)
    }
}

/// The admissible columns (depth 1), ascending.
pub open spec fn admissible_columns(m: BinaryMatrix, n_min: nat) -> Seq<usize> {
    adm_from(m, n_min, 0)
}

/// Highest column of a configuration (`-1` for the empty one).
pub open spec fn top_of(p: u64) -> int {
    if members_spec(p).len() > 0 {
        members_spec(p).last() as int
    } else {
        -1
    }
}

/// Ordered extensions of `p` by the admissible columns from position `i`
/// on: `p | {j}` for each admissible `j` above the top of `p` whose support
/// still reaches `n_min`.
pub open spec fn extensions(m: BinaryMatrix, n_min: nat, p: u64, i: nat) -> Seq<u64>
    decreases admissible_columns(m, n_min).len() - i,
{
    if i >= admissible_columns(m, n_min).len() {
        Seq::empty()
    } else {
        let j = admissible_columns(m, n_min)[i as int] as int;
        let q = p | bit_mask(j);
        if j > top_of(p) && support(m, q) >= n_min {
            seq![q] + extensions(m, n_min, p, i + 1)
        } else {
            extensions(m, n_min, p, i + 1)
        }
    }
}

/// All ordered extensions of `p`.
pub open spec fn children(m: BinaryMatrix, n_min: nat, p: u64) -> Seq<u64> {
    extensions(m, n_min, p, 0)
}

/// The single-column masks of a sequence of columns.
pub open spec fn single_masks(cols: Seq<usize>) -> Seq<u64> {
    cols.map_values(|j: usize| bit_mask(j as int))
}

/// The children of each configuration of a sequence.
pub open spec fn children_of(m: BinaryMatrix, n_min: nat, s: Seq<u64>) -> Seq<Seq<u64>> {
    s.map_values(|p: u64| children(m, n_min, p))
}

/// Depth `d` of the lattice (`d >= 1`), in generation order: depth 1 is the
/// admissible single columns; depth `d` is the children of depth `d - 1`,
/// parent by parent.
pub open spec fn level(m: BinaryMatrix, n_min: nat, d: nat) -> Seq<u64>
    decreases d,
{
    if d <= 1 {
        single_masks(admissible_columns(m, n_min))
    } else {
        children_of(m, n_min, level(m, n_min, (d - 1) as nat)).flatten()
    }
}

/// Depths `1..=e`, concatenated.
pub open spec fn levels_upto(m: BinaryMatrix, n_min: nat, e: nat) -> Seq<u64>
    decreases e,
{
    if e == 0 {
        Seq::empty()
    } else {
        levels_upto(m, n_min, (e - 1) as nat) + level(m, n_min, e)
    }
}

/// Support of each configuration, as stored.
pub open spec fn supports_of(m: BinaryMatrix, s: Seq<u64>) -> Seq<u32> {
    s.map_values(|q: u64| support(m, q) as u32)
}

/// Target counts of one configuration, one per target.
pub open spec fn y1_row(m: BinaryMatrix, q: u64, targets: Seq<Vec<u8>>) -> Seq<u32> {
    Seq::new(targets.len(), |k: int| target_count(m, q, targets[k]@) as u32)
}

/// Target counts of each configuration, configuration-major.
pub open spec fn y1_rows_of(m: BinaryMatrix, targets: Seq<Vec<u8>>, s: Seq<u64>) -> Seq<u32> {
    s.map_values(|q: u64| y1_row(m, q, targets)).flatten()
}

/// Every column from 64 on falls below `n_min` (a configuration mask holds
/// columns `0..64` only).
pub open spec fn high_columns_inadmissible(m: BinaryMatrix, n_min: nat) -> bool {
    forall|j: int| 64 <= j < m.cols() ==> #[trigger] col_support(m, j) < n_min
}

/// The admissible columns from `j` on lie in `j..cols` and reach `n_min`.
pub proof fn lemma_adm_from_props(m: BinaryMatrix, n_min: nat, j: nat)
    requires
        m.wf(),
    ensures
        forall|t: int|
            0 <= t < adm_from(m, n_min, j).len() ==> j <= #[trigger] adm_from(
                m,
                n_min,
                j,
            )[t] < m.cols() && col_support(m, adm_from(m, n_min, j)[t] as int) >= n_min,
    decreases m.cols() - j,
{
    if j < m.cols() {
        assert((j as usize) as int == j);
        lemma_adm_from_props(m, n_min, j + 1);
        let rest = adm_from(m, n_min, j + 1);
        if col_support(m, j as int) >= n_min {
            let s = seq![j as usize] + rest;
            assert(adm_from(m, n_min, j) == s);
            assert forall|t: int| 0 <= t < s.len() implies j <= #[trigger] s[t] < m.cols() && col_support(
                m,
                s[t] as int,
            ) >= n_min by {
                if t > 0 {
                    assert(s[t] == rest[t - 1]);
                }
            }
        }
    }
}

/// Counts of pointwise-equal predicates agree.
pub proof fn lemma_count_rows_ext(p: spec_fn(int) -> bool, q: spec_fn(int) -> bool, n: nat)
    requires
        forall|r: int| 0 <= r < n ==> #[trigger] p(r) == q(r),
    ensures
        count_rows(p, n) == count_rows(q, n),
    decreases n,
{
    if n > 0 {
        lemma_count_rows_ext(p, q, (n - 1) as nat);
    }
}

/// A weaker predicate counts at least as many rows.
pub proof fn lemma_count_rows_mono(p: spec_fn(int) -> bool, q: spec_fn(int) -> bool, n: nat)
    requires
        forall|r: int| 0 <= r < n && #[trigger] p(r) ==> q(r),
    ensures
        count_rows(p, n) <= count_rows(q, n),
    decreases n,
{
    if n > 0 {
        lemma_count_rows_mono(p, q, (n - 1) as nat);
    }
}

/// At most `n` rows of `0..n` satisfy a predicate.
pub proof fn lemma_count_rows_le(p: spec_fn(int) -> bool, n: nat)
    ensures
        count_rows(p, n) <= n,
    decreases n,
{
    if n > 0 {
        lemma_count_rows_le(p, (n - 1) as nat);
    }
}

/// Counting over `0..a + t` splits at `a`; `s` is `p` shifted by `a`.
pub proof fn lemma_count_rows_split(p: spec_fn(int) -> bool, s: spec_fn(int) -> bool, a: nat, t: nat)
    requires
        forall|r: int| 0 <= r < t ==> #[trigger] s(r) == p(a + r),
    ensures
        count_rows(p, a + t) == count_rows(p, a) + count_rows(s, t),
    decreases t,
{
    if t > 0 {
        lemma_count_rows_split(p, s, a, (t - 1) as nat);
        assert(s(t - 1) == p(a + t - 1));
        assert((a + t - 1) as nat == (a + (t - 1)) as nat);
    }
}

/// Rows from `n` to `k` where `p` fails add nothing to the count.
pub proof fn lemma_count_rows_tail(p: spec_fn(int) -> bool, n: nat, k: nat)
    requires
        n <= k,
        forall|r: int| n <= r < k ==> !#[trigger] p(r),
    ensures
        count_rows(p, k) == count_rows(p, n),
    decreases k,
{
    if k > n {
        lemma_count_rows_tail(p, n, (k - 1) as nat);
    }
}

/// The set bits of `w` below `n` count the rows where `p` holds.
pub proof fn lemma_bits_count(w: u64, p: spec_fn(int) -> bool, n: nat)
    requires
        n <= 64,
        forall|r: int| 0 <= r < n ==> (has_bit(w, r) <==> #[trigger] p(r)),
    ensures
        bits_below(w, n) == count_rows(p, n),
    decreases n,
{
    if n > 0 {
        lemma_bits_count(w, p, (n - 1) as nat);
    }
}

proof fn lemma_bits_zero_tail(w: u64, lo: nat, n: nat)
    requires
        lo <= n <= 64,
        forall|r: int| lo <= r < 64 ==> !has_bit(w, r),
    ensures
        bits_below(w, n) == bits_below(w, lo),
    decreases n,
{
    if n > lo {
        lemma_bits_zero_tail(w, lo, (n - 1) as nat);
    }
}

/// The popcount of a row-indicator word is the support of its configuration.
pub proof fn lemma_popcount_is_support(m: BinaryMatrix, mask: u64, w: u64)
    requires
        m.wf(),
        conj_word_ok(m, mask, w),
    ensures
        popcount_spec(w) == support(m, mask),
{
    let p = |r: int| row_has_all(m, mask, r);
    lemma_bits_count(w, p, m.rows());
    lemma_bits_zero_tail(w, m.rows(), 64);
}

/// A bit of `a & b` is set iff it is set in both.
pub proof fn lemma_and_bit(a: u64, b: u64, j: u64)
    by (bit_vector)
    ensures
        ((a & b) >> j) & 1u64 == 1u64 <==> ((a >> j) & 1u64 == 1u64 && (b >> j) & 1u64 == 1u64),
{
}

/// The popcount of a row-indicator word ANDed with a target word is the
/// target count of the configuration.
pub proof fn lemma_popcount_is_target_count(m: BinaryMatrix, mask: u64, w: u64, tw: u64, t: Seq<u8>)
    requires
        m.wf(),
        conj_word_ok(m, mask, w),
        forall|r: int| 0 <= r < 64 ==> (#[trigger] has_bit(tw, r) <==> target_hit(t, r)),
    ensures
        popcount_spec(w & tw) == target_count(m, mask, t),
{
    let p = |r: int| row_has_all(m, mask, r) && target_hit(t, r);
    assert forall|r: int| 0 <= r < m.rows() implies (has_bit(w & tw, r) <==> #[trigger] p(r)) by {
        lemma_and_bit(w, tw, r as u64);
        assert(has_bit(w, r) <==> (r < m.rows() && row_has_all(m, mask, r)));
        assert(has_bit(tw, r) <==> target_hit(t, r));
    }
    assert forall|r: int| m.rows() <= r < 64 implies !has_bit(w & tw, r) by {
        lemma_and_bit(w, tw, r as u64);
        assert(!has_bit(w, r));
    }
    lemma_bits_count(w & tw, p, m.rows());
    lemma_bits_zero_tail(w & tw, m.rows(), 64);
}

/// `1 << j` has bit `j` and no other.
pub proof fn lemma_single_bit(j: u64, c: u64)
    by (bit_vector)
    requires
        j < 64,
        c < 64,
    ensures
        ((1u64 << j) >> c) & 1u64 == 1u64 <==> c == j,
{
}

/// A column word is the row-indicator word of that single column.
pub proof fn lemma_column_word(m: BinaryMatrix, j: int)
    requires
        m.wf(),
        0 <= j < m.cols(),
        j < 64,
    ensures
        conj_word_ok(m, bit_mask(j), m.words()[j]),
{
    assert forall|r: int| 0 <= r < 64 implies (#[trigger] has_bit(m.words()[j], r) <==> (r < m.rows()
        && row_has_all(m, bit_mask(j), r))) by {
        if r < m.rows() {
            lemma_single_bit(j as u64, j as u64);
            assert(has_bit(bit_mask(j), j));
            if m.at(r, j) {
                assert forall|c: int| 0 <= c < 64 && #[trigger] has_bit(bit_mask(j), c) implies m.at(r, c) by {
                    lemma_single_bit(j as u64, c as u64);
                }
            }
        }
    }
}

/// Support of a single-column configuration is the column's support.
pub proof fn lemma_single_support(m: BinaryMatrix, j: int)
    requires
        0 <= j < 64,
    ensures
        support(m, bit_mask(j)) == col_support(m, j),
{
    let p = |r: int| row_has_all(m, bit_mask(j), r);
    let q = |r: int| m.at(r, j);
    assert forall|r: int| 0 <= r < m.rows() implies #[trigger] p(r) == q(r) by {
        lemma_single_bit(j as u64, j as u64);
        assert(has_bit(bit_mask(j), j));
        assert forall|c: int| 0 <= c < 64 && #[trigger] has_bit(bit_mask(j), c) implies c == j by {
            lemma_single_bit(j as u64, c as u64);
        }
    }
    lemma_count_rows_ext(p, q, m.rows());
}

/// ANDing a configuration's word with a column word gives the word of the
/// extended configuration.
pub proof fn lemma_extend_word(m: BinaryMatrix, p: u64, w: u64, j: int, wj: u64)
    requires
        0 <= j < 64,
        conj_word_ok(m, p, w),
        conj_word_ok(m, bit_mask(j), wj),
    ensures
        conj_word_ok(m, p | bit_mask(j), w & wj),
{
    assert forall|r: int| 0 <= r < 64 implies (#[trigger] has_bit(w & wj, r) <==> (r < m.rows()
        && row_has_all(m, p | bit_mask(j), r))) by {
        lemma_and_bit(w, wj, r as u64);
        assert(has_bit(w, r) <==> (r < m.rows() && row_has_all(m, p, r)));
        assert(has_bit(wj, r) <==> (r < m.rows() && row_has_all(m, bit_mask(j), r)));
        lemma_row_has_all_or(m, p, j, r);
    }
}

proof fn lemma_row_has_all_or(m: BinaryMatrix, p: u64, j: int, r: int)
    requires
        0 <= j < 64,
    ensures
        row_has_all(m, p | bit_mask(j), r) <==> (row_has_all(m, p, r) && row_has_all(m, bit_mask(j), r)),
{
    assert forall|c: int| 0 <= c < 64 implies (#[trigger] has_bit(p | bit_mask(j), c) <==> (has_bit(p, c)
        || has_bit(bit_mask(j), c))) by {
        lemma_or_single_bit(p, j as u64, c as u64);
        lemma_single_bit(j as u64, c as u64);
    }
    if row_has_all(m, p | bit_mask(j), r) {
        assert forall|c: int| 0 <= c < 64 && #[trigger] has_bit(p, c) implies m.at(r, c) by {
            assert(has_bit(p | bit_mask(j), c));
        }
        assert forall|c: int| 0 <= c < 64 && #[trigger] has_bit(bit_mask(j), c) implies m.at(r, c) by {
            assert(has_bit(p | bit_mask(j), c));
        }
    }
}


/// The popcount of a column word is the column's support.
pub proof fn lemma_popcount_column(m: BinaryMatrix, j: int)
    requires
        m.wf(),
        0 <= j < m.cols(),
    ensures
        popcount_spec(m.words()[j]) == col_support(m, j),
{
    let p = |r: int| m.at(r, j);
    assert forall|r: int| 0 <= r < m.rows() implies (has_bit(m.words()[j], r) <==> #[trigger] p(r)) by {
    }
    lemma_bits_count(m.words()[j], p, m.rows());
    lemma_bits_zero_tail(m.words()[j], m.rows(), 64);
}

pub proof fn lemma_bits_below_zero(n: nat)
    requires
        n <= 64,
    ensures
        bits_below(0, n) == 0,
    decreases n,
{
    if n > 0 {
        lemma_bits_below_zero((n - 1) as nat);
        lemma_zero_no_bit((n - 1) as u64);
    }
}

/// The empty configuration has no top column.
pub proof fn lemma_top_of_zero()
    ensures
        top_of(0) == -1,
{
    lemma_members_spec(0);
    lemma_bits_below_zero(64);
}

/// The highest set bit of a mask is its top column.
pub proof fn lemma_top_of_is_top_bit(p: u64, k: int)
    requires
        top_bit(p, k),
    ensures
        top_of(p) == k,
{
    if p == 0 {
        lemma_zero_no_bit(k as u64);
    }
    lemma_max_element_is_last_member(p);
    let last = members_spec(p).last() as int;
    if k < last {
        assert(has_bit(p, last));
    } else if last < k {
        assert(has_bit(p, k));
    }
}

/// Single-column masks of a pushed column list.
pub proof fn lemma_single_masks_push(cols: Seq<usize>, j: usize)
    ensures
        single_masks(cols.push(j)) == single_masks(cols).push(bit_mask(j as int)),
{
    assert(single_masks(cols.push(j)) =~= single_masks(cols).push(bit_mask(j as int)));
}

/// Supports of a concatenation are concatenated supports.
pub proof fn lemma_supports_of_concat(m: BinaryMatrix, a: Seq<u64>, b: Seq<u64>)
    ensures
        supports_of(m, a + b) == supports_of(m, a) + supports_of(m, b),
{
    assert(supports_of(m, a + b) =~= supports_of(m, a) + supports_of(m, b));
}

/// Supports of a subrange are the subrange of supports.
pub proof fn lemma_supports_of_subrange(m: BinaryMatrix, a: Seq<u64>, lo: int, hi: int)
    requires
        0 <= lo <= hi <= a.len(),
    ensures
        supports_of(m, a).subrange(lo, hi) == supports_of(m, a.subrange(lo, hi)),
{
    assert(supports_of(m, a).subrange(lo, hi) =~= supports_of(m, a.subrange(lo, hi)));
}

/// Target counts of a concatenation are concatenated target counts.
pub proof fn lemma_y1_rows_of_concat(m: BinaryMatrix, targets: Seq<Vec<u8>>, a: Seq<u64>, b: Seq<u64>)
    ensures
        y1_rows_of(m, targets, a + b) == y1_rows_of(m, targets, a) + y1_rows_of(m, targets, b),
{
    let f = |q: u64| y1_row(m, q, targets);
    assert((a + b).map_values(f) =~= a.map_values(f) + b.map_values(f));
    vstd::seq_lib::lemma_flatten_concat(a.map_values(f), b.map_values(f));
}

/// Target counts after one more configuration.
pub proof fn lemma_y1_rows_of_push(m: BinaryMatrix, targets: Seq<Vec<u8>>, a: Seq<u64>, q: u64)
    ensures
        y1_rows_of(m, targets, a.push(q)) == y1_rows_of(m, targets, a) + y1_row(m, q, targets),
{
    let f = |q: u64| y1_row(m, q, targets);
    assert(a.push(q).map_values(f) =~= a.map_values(f).push(y1_row(m, q, targets)));
    a.map_values(f).lemma_flatten_push(y1_row(m, q, targets));
}

/// The configuration-major target counts hold `targets.len()` entries per
/// configuration; entry `g * T + k` is the count of configuration `g` for
/// target `k`.
pub proof fn lemma_y1_rows_of_index(m: BinaryMatrix, targets: Seq<Vec<u8>>, s: Seq<u64>)
    ensures
        y1_rows_of(m, targets, s).len() == s.len() * targets.len(),
        forall|g: int, k: int|
            0 <= g < s.len() && 0 <= k < targets.len() ==> #[trigger] y1_rows_of(m, targets, s)[g
                * targets.len() + k] == target_count(m, s[g], targets[k]@) as u32,
    decreases s.len(),
{
    let t = targets.len() as int;
    if s.len() == 0 {
        assert(s.map_values(|q: u64| y1_row(m, q, targets)) =~= Seq::<Seq<u32>>::empty());
        assert(s.len() * t == 0);
    } else {
        let a = s.drop_last();
        let q = s.last();
        lemma_y1_rows_of_index(m, targets, a);
        assert(a.push(q) =~= s);
        lemma_y1_rows_of_push(m, targets, a, q);
        let whole = y1_rows_of(m, targets, s);
        let front = y1_rows_of(m, targets, a);
        assert(whole == front + y1_row(m, q, targets));
        assert(a.len() * t + t == s.len() * t) by (nonlinear_arith)
            requires
                a.len() + 1 == s.len(),
        ;
        assert forall|g: int, k: int| 0 <= g < s.len() && 0 <= k < t implies #[trigger] whole[g * t + k]
            == target_count(m, s[g], targets[k]@) as u32 by {
            if g < a.len() {
                assert(g * t + k < a.len() * t) by (nonlinear_arith)
                    requires
                        0 <= g < a.len(),
                        0 <= k < t,
                ;
                assert(whole[g * t + k] == front[g * t + k]);
                assert(a[g] == s[g]);
            } else {
                assert(g * t == a.len() * t);
                assert(whole[g * t + k] == y1_row(m, q, targets)[k]);
            }
        }
    }
}

/// Children of a pushed parent follow the earlier parents' children.
pub proof fn lemma_children_of_push(m: BinaryMatrix, n_min: nat, a: Seq<u64>, p: u64)
    ensures
        children_of(m, n_min, a.push(p)).flatten() == children_of(m, n_min, a).flatten() + children(
            m,
            n_min,
            p,
        ),
{
    assert(children_of(m, n_min, a.push(p)) =~= children_of(m, n_min, a).push(children(m, n_min, p)));
    children_of(m, n_min, a).lemma_flatten_push(children(m, n_min, p));
}

/// Depths `1..=e1` are a prefix of depths `1..=e2` when `e1 <= e2`.
pub proof fn lemma_levels_upto_prefix(m: BinaryMatrix, n_min: nat, e1: nat, e2: nat)
    requires
        e1 <= e2,
    ensures
        levels_upto(m, n_min, e1).len() <= levels_upto(m, n_min, e2).len(),
        levels_upto(m, n_min, e2).subrange(0, levels_upto(m, n_min, e1).len() as int) == levels_upto(
            m,
            n_min,
            e1,
        ),
    decreases e2,
{
    if e1 < e2 {
        lemma_levels_upto_prefix(m, n_min, e1, (e2 - 1) as nat);
        let a = levels_upto(m, n_min, (e2 - 1) as nat);
        let b = level(m, n_min, e2);
        assert((a + b).subrange(0, levels_upto(m, n_min, e1).len() as int) =~= a.subrange(
            0,
            levels_upto(m, n_min, e1).len() as int,
        ));
    } else {
        assert(levels_upto(m, n_min, e2).subrange(0, levels_upto(m, n_min, e2).len() as int)
            =~= levels_upto(m, n_min, e2));
    }
}

/// Depth `d` sits in the concatenation of depths `1..=e` between the ends
/// of depths `d - 1` and `d`.
pub proof fn lemma_level_in_levels_upto(m: BinaryMatrix, n_min: nat, d: nat, e: nat)
    requires
        1 <= d <= e,
    ensures
        levels_upto(m, n_min, d).len() == levels_upto(m, n_min, (d - 1) as nat).len() + level(
            m,
            n_min,
            d,
        ).len(),
        levels_upto(m, n_min, e).subrange(
            levels_upto(m, n_min, (d - 1) as nat).len() as int,
            levels_upto(m, n_min, d).len() as int,
        ) == level(m, n_min, d),
{
    lemma_levels_upto_prefix(m, n_min, d, e);
    let whole = levels_upto(m, n_min, e);
    let lo = levels_upto(m, n_min, (d - 1) as nat).len() as int;
    let hi = levels_upto(m, n_min, d).len() as int;
    assert(whole.subrange(lo, hi) =~= whole.subrange(0, hi).subrange(lo, hi));
    assert(levels_upto(m, n_min, d).subrange(lo, hi) =~= level(m, n_min, d));
}

/// Every column of `q` is a column of `m`.
pub open spec fn in_cols(m: BinaryMatrix, q: u64) -> bool {
    forall|c: int| 0 <= c < 64 && #[trigger] has_bit(q, c) ==> c < m.cols()
}

/// Every bit of `p` is at most its top; a nonzero `p` has its top bit.
pub proof fn lemma_top_props(p: u64)
    ensures
        forall|k: int| 0 <= k < 64 && #[trigger] has_bit(p, k) ==> k <= top_of(p),
        p != 0 ==> 0 <= top_of(p) < 64 && has_bit(p, top_of(p)),
        p == 0 ==> top_of(p) == -1,
{
    if p == 0 {
        lemma_top_of_zero();
        assert forall|k: int| 0 <= k < 64 && #[trigger] has_bit(p, k) implies k <= top_of(p) by {
            lemma_zero_no_bit(k as u64);
        }
    } else {
        lemma_max_element_is_last_member(p);
        lemma_members_spec(p);
        let s = members_spec(p);
        assert(s[s.len() - 1] < 64);
    }
}

proof fn lemma_bits_below_or(p: u64, j: u64, n: nat)
    requires
        j < 64,
        !has_bit(p, j as int),
        n <= 64,
    ensures
        bits_below(p | bit_mask(j as int), n) == bits_below(p, n) + if j < n { 1nat } else { 0nat },
    decreases n,
{
    if n > 0 {
        lemma_bits_below_or(p, j, (n - 1) as nat);
        lemma_or_single_bit(p, j, (n - 1) as u64);
    }
}

/// Adding a column that `p` lacks adds one to its popcount.
pub proof fn lemma_popcount_add_bit(p: u64, j: int)
    requires
        0 <= j < 64,
        !has_bit(p, j),
    ensures
        popcount_spec(p | bit_mask(j)) == popcount_spec(p) + 1,
{
    lemma_bits_below_or(p, j as u64, 64);
}

/// Support is anti-monotone: a subset of columns has at least the support
/// of the whole.
pub proof fn lemma_support_antimonotone(m: BinaryMatrix, p: u64, q: u64)
    requires
        p & q == p,
    ensures
        support(m, q) <= support(m, p),
{
    assert forall|r: int| 0 <= r < m.rows() && #[trigger] row_has_all(m, q, r) implies row_has_all(m, p, r) by {
        assert forall|c: int| 0 <= c < 64 && #[trigger] has_bit(p, c) implies m.at(r, c) by {
            crate::bitset::lemma_subset_bit(p, q, c as u64);
            assert(has_bit(q, c));
        }
    }
    lemma_count_rows_mono(|r: int| row_has_all(m, q, r), |r: int| row_has_all(m, p, r), m.rows());
}

proof fn lemma_clear_bit(q: u64, j: u64, c: u64)
    by (bit_vector)
    requires
        j < 64,
        c < 64,
        (q >> j) & 1u64 == 1u64,
    ensures
        (q & !(1u64 << j)) & q == (q & !(1u64 << j)),
        ((q & !(1u64 << j)) >> j) & 1u64 != 1u64,
        (q & !(1u64 << j)) | (1u64 << j) == q,
        ((q & !(1u64 << j)) >> c) & 1u64 == 1u64 <==> ((q >> c) & 1u64 == 1u64 && c != j),
        (1u64 << j) & q == (1u64 << j),
{
}

proof fn lemma_or_zero(j: u64)
    by (bit_vector)
    ensures
        0u64 | (1u64 << j) == (1u64 << j),
{
}

/// The top of `p | {j}` is `j` when `j` is above the top of `p`.
proof fn lemma_top_of_extension(p: u64, j: int)
    requires
        0 <= j < 64,
        j > top_of(p),
    ensures
        top_of(p | bit_mask(j)) == j,
        !has_bit(p, j),
        forall|c: int| 0 <= c < 64 ==> (#[trigger] has_bit(p | bit_mask(j), c) <==> (has_bit(p, c) || c == j)),
{
    lemma_top_props(p);
    assert forall|c: int| 0 <= c < 64 implies (#[trigger] has_bit(p | bit_mask(j), c) <==> (has_bit(p, c) || c
        == j)) by {
        lemma_or_single_bit(p, j as u64, c as u64);
    }
    assert(top_bit(p | bit_mask(j), j));
    lemma_top_of_is_top_bit(p | bit_mask(j), j);
}

/// `adm_from(k)` lists every column in `k..cols` that reaches `n_min`.
proof fn lemma_adm_from_contains(m: BinaryMatrix, n_min: nat, k: nat, j: int)
    requires
        k <= j < m.cols(),
        m.cols() <= usize::MAX,
        col_support(m, j) >= n_min,
    ensures
        adm_from(m, n_min, k).contains(j as usize),
    decreases j - k,
{
    let s = adm_from(m, n_min, k);
    if k == j {
        assert(s[0] == j as usize);
    } else {
        lemma_adm_from_contains(m, n_min, k + 1, j);
        let rest = adm_from(m, n_min, k + 1);
        let t = choose|t: int| 0 <= t < rest.len() && rest[t] == j as usize;
        if col_support(m, k as int) >= n_min {
            assert(s[t + 1] == rest[t]);
        }
    }
}

/// The admissible columns from `k` on are strictly increasing.
proof fn lemma_adm_from_increasing(m: BinaryMatrix, n_min: nat, k: nat)
    requires
        m.wf(),
    ensures
        forall|a: int, b: int|
            0 <= a < b < adm_from(m, n_min, k).len() ==> #[trigger] adm_from(m, n_min, k)[a] < #[trigger] adm_from(
                m,
                n_min,
                k,
            )[b],
    decreases m.cols() - k,
{
    if k < m.cols() {
        lemma_adm_from_increasing(m, n_min, k + 1);
        lemma_adm_from_props(m, n_min, k + 1);
        let rest = adm_from(m, n_min, k + 1);
        let s = adm_from(m, n_min, k);
        if col_support(m, k as int) >= n_min {
            assert forall|a: int, b: int| 0 <= a < b < s.len() implies #[trigger] s[a] < #[trigger] s[b] by {
                assert(s[b] == rest[b - 1]);
                if a > 0 {
                    assert(s[a] == rest[a - 1]);
                }
            }
        }
    }
}

proof fn lemma_extensions_contain(m: BinaryMatrix, n_min: nat, p: u64, i: nat, t: int)
    requires
        i <= t < admissible_columns(m, n_min).len(),
        admissible_columns(m, n_min)[t] > top_of(p),
        support(m, p | bit_mask(admissible_columns(m, n_min)[t] as int)) >= n_min,
    ensures
        extensions(m, n_min, p, i).contains(p | bit_mask(admissible_columns(m, n_min)[t] as int)),
    decreases t - i,
{
    let e = extensions(m, n_min, p, i);
    let q = p | bit_mask(admissible_columns(m, n_min)[t] as int);
    if i == t {
        assert(e[0] == q);
    } else {
        lemma_extensions_contain(m, n_min, p, i + 1, t);
        let rest = extensions(m, n_min, p, i + 1);
        let u = choose|u: int| 0 <= u < rest.len() && rest[u] == q;
        if e != rest {
            assert(e[u + 1] == rest[u]);
        }
    }
}

proof fn lemma_extensions_elem(m: BinaryMatrix, n_min: nat, p: u64, i: nat, x: u64)
    requires
        extensions(m, n_min, p, i).contains(x),
    ensures
        exists|t: int|
            i <= t < admissible_columns(m, n_min).len() && #[trigger] admissible_columns(m, n_min)[t] > top_of(p)
                && x == p | bit_mask(admissible_columns(m, n_min)[t] as int) && support(m, x) >= n_min,
    decreases admissible_columns(m, n_min).len() - i,
{
    let adm = admissible_columns(m, n_min);
    let e = extensions(m, n_min, p, i);
    let u = choose|u: int| 0 <= u < e.len() && e[u] == x;
    if i < adm.len() {
        let j = adm[i as int] as int;
        let q = p | bit_mask(j);
        let rest = extensions(m, n_min, p, i + 1);
        if j > top_of(p) && support(m, q) >= n_min {
            if u == 0 {
                assert(adm[i as int] > top_of(p) && x == p | bit_mask(adm[i as int] as int));
            } else {
                assert(e[u] == rest[u - 1]);
                lemma_extensions_elem(m, n_min, p, i + 1, x);
            }
        } else {
            lemma_extensions_elem(m, n_min, p, i + 1, x);
        }
    }
}

proof fn lemma_children_flatten_contains(m: BinaryMatrix, n_min: nat, s: Seq<u64>, k: int, q: u64)
    requires
        0 <= k < s.len(),
        children(m, n_min, s[k]).contains(q),
    ensures
        children_of(m, n_min, s).flatten().contains(q),
    decreases s.len(),
{
    let a = s.drop_last();
    assert(a.push(s.last()) =~= s);
    lemma_children_of_push(m, n_min, a, s.last());
    let fa = children_of(m, n_min, a).flatten();
    let c = children(m, n_min, s.last());
    if k == s.len() - 1 {
        let u = choose|u: int| 0 <= u < c.len() && c[u] == q;
        assert((fa + c)[fa.len() + u] == q);
    } else {
        assert(a[k] == s[k]);
        lemma_children_flatten_contains(m, n_min, a, k, q);
        let u = choose|u: int| 0 <= u < fa.len() && fa[u] == q;
        assert((fa + c)[u] == q);
    }
}

proof fn lemma_children_flatten_elem(m: BinaryMatrix, n_min: nat, s: Seq<u64>, x: u64)
    requires
        children_of(m, n_min, s).flatten().contains(x),
    ensures
        exists|k: int| 0 <= k < s.len() && #[trigger] children(m, n_min, s[k]).contains(x),
    decreases s.len(),
{
    if s.len() == 0 {
        assert(children_of(m, n_min, s) =~= Seq::<Seq<u64>>::empty());
        assert(children_of(m, n_min, s).flatten() =~= Seq::<u64>::empty());
    } else {
        let a = s.drop_last();
        assert(a.push(s.last()) =~= s);
        lemma_children_of_push(m, n_min, a, s.last());
        let fa = children_of(m, n_min, a).flatten();
        let c = children(m, n_min, s.last());
        let u = choose|u: int| 0 <= u < (fa + c).len() && (fa + c)[u] == x;
        if u < fa.len() {
            assert(fa[u] == x);
            lemma_children_flatten_elem(m, n_min, a, x);
            let k = choose|k: int| 0 <= k < a.len() && #[trigger] children(m, n_min, a[k]).contains(x);
            assert(s[k] == a[k]);
        } else {
            assert(c[u - fa.len()] == x);
            assert(children(m, n_min, s[s.len() - 1]).contains(x));
        }
    }
}

/// Soundness of the lattice: every configuration at depth `d` has exactly
/// `d` columns, all columns of the matrix, and support at least `n_min`.
pub proof fn lemma_level_sound(m: BinaryMatrix, n_min: nat, d: nat, i: int)
    requires
        m.wf(),
        high_columns_inadmissible(m, n_min),
        d >= 1,
        0 <= i < level(m, n_min, d).len(),
    ensures
        popcount_spec(level(m, n_min, d)[i]) == d,
        in_cols(m, level(m, n_min, d)[i]),
        support(m, level(m, n_min, d)[i]) >= n_min,
    decreases d,
{
    let adm = admissible_columns(m, n_min);
    lemma_adm_from_props(m, n_min, 0);
    if d == 1 {
        let j = adm[i] as int;
        assert(level(m, n_min, d)[i] == bit_mask(j));
        assert(j < 64);
        lemma_bits_below_zero(64);
        lemma_zero_no_bit(j as u64);
        lemma_popcount_add_bit(0, j);
        lemma_or_zero(j as u64);
        lemma_single_support(m, j);
        assert forall|c: int| 0 <= c < 64 && #[trigger] has_bit(bit_mask(j), c) implies c < m.cols() by {
            lemma_single_bit(j as u64, c as u64);
        }
    } else {
        let prev = level(m, n_min, (d - 1) as nat);
        let x = level(m, n_min, d)[i];
        assert(children_of(m, n_min, prev).flatten().contains(x));
        lemma_children_flatten_elem(m, n_min, prev, x);
        let k = choose|k: int| 0 <= k < prev.len() && #[trigger] children(m, n_min, prev[k]).contains(x);
        let p = prev[k];
        lemma_level_sound(m, n_min, (d - 1) as nat, k);
        lemma_extensions_elem(m, n_min, p, 0, x);
        let t = choose|t: int|
            0 <= t < adm.len() && #[trigger] adm[t] > top_of(p) && x == p | bit_mask(adm[t] as int) && support(m, x)
                >= n_min;
        let j = adm[t] as int;
        assert(j < 64);
        lemma_top_of_extension(p, j);
        lemma_popcount_add_bit(p, j);
    }
}

/// Completeness of the lattice: every nonempty set of columns of the
/// matrix with support at least `n_min` is generated at the depth equal
/// to its size.
pub proof fn lemma_level_complete(m: BinaryMatrix, n_min: nat, q: u64)
    requires
        m.wf(),
        q != 0,
        in_cols(m, q),
        support(m, q) >= n_min,
    ensures
        level(m, n_min, popcount_spec(q)).contains(q),
    decreases popcount_spec(q),
{
    lemma_top_props(q);
    let j = top_of(q);
    let p = q & !bit_mask(j);
    lemma_clear_bit(q, j as u64, 0);
    assert forall|c: int| 0 <= c < 64 implies (#[trigger] has_bit(p, c) <==> (has_bit(q, c) && c != j)) by {
        lemma_clear_bit(q, j as u64, c as u64);
    }
    lemma_popcount_add_bit(p, j);
    assert(p | bit_mask(j) == q);
    lemma_support_antimonotone(m, bit_mask(j), q);
    lemma_single_support(m, j);
    assert(j < m.cols());
    lemma_adm_from_contains(m, n_min, 0, j);
    let adm = admissible_columns(m, n_min);
    let t = choose|t: int| 0 <= t < adm.len() && adm[t] == j as usize;
    if p == 0 {
        lemma_bits_below_zero(64);
        assert(popcount_spec(q) == 1);
        let lv = level(m, n_min, 1);
        assert(lv == single_masks(adm));
        assert(lv[t] == bit_mask(j));
        lemma_or_zero(j as u64);
        assert(lv[t] == q);
    } else {
        lemma_support_antimonotone(m, p, q);
        lemma_top_props(p);
        assert(in_cols(m, p));
        lemma_members_spec(p);
        assert(members_spec(p).contains(top_of(p) as u32));
        assert(popcount_spec(p) >= 1);
        lemma_level_complete(m, n_min, p);
        let d = popcount_spec(q);
        let prev = level(m, n_min, (d - 1) as nat);
        assert(prev.contains(p));
        let k = choose|k: int| 0 <= k < prev.len() && prev[k] == p;
        assert(top_of(p) < j) by {
            assert(has_bit(p, top_of(p)));
        }
        lemma_extensions_contain(m, n_min, p, 0, t);
        lemma_children_flatten_contains(m, n_min, prev, k, q);
    }
}

proof fn lemma_bit_mask_injective(a: u64, b: u64)
    by (bit_vector)
    requires
        a < 64,
        b < 64,
        (1u64 << a) == (1u64 << b),
    ensures
        a == b,
{
}

proof fn lemma_remove_added_bit(p: u64, j: u64)
    by (bit_vector)
    requires
        j < 64,
        (p >> j) & 1u64 != 1u64,
    ensures
        (p | (1u64 << j)) & !(1u64 << j) == p,
{
}

proof fn lemma_extensions_no_dup(m: BinaryMatrix, n_min: nat, p: u64, i: nat)
    requires
        m.wf(),
        high_columns_inadmissible(m, n_min),
    ensures
        extensions(m, n_min, p, i).no_duplicates(),
    decreases admissible_columns(m, n_min).len() - i,
{
    let adm = admissible_columns(m, n_min);
    if i < adm.len() {
        lemma_extensions_no_dup(m, n_min, p, i + 1);
        let j = adm[i as int] as int;
        let q = p | bit_mask(j);
        let rest = extensions(m, n_min, p, i + 1);
        let e = extensions(m, n_min, p, i);
        if j > top_of(p) && support(m, q) >= n_min {
            lemma_adm_from_props(m, n_min, 0);
            lemma_adm_from_increasing(m, n_min, 0);
            assert(j < 64);
            lemma_top_of_extension(p, j);
            assert forall|u: int| 0 <= u < rest.len() implies rest[u] != q by {
                assert(rest.contains(rest[u]));
                lemma_extensions_elem(m, n_min, p, i + 1, rest[u]);
                let t = choose|t: int|
                    i + 1 <= t < adm.len() && #[trigger] adm[t] > top_of(p) && rest[u] == p | bit_mask(adm[t] as int)
                        && support(m, rest[u]) >= n_min;
                let j2 = adm[t] as int;
                assert(j < j2 < 64);
                lemma_top_of_extension(p, j2);
                assert(!has_bit(rest[u], j));
                assert(has_bit(q, j));
            }
            assert forall|a: int, b: int| 0 <= a < b < e.len() implies e[a] != e[b] by {
                assert(e[b] == rest[b - 1]);
                if a > 0 {
                    assert(e[a] == rest[a - 1]);
                }
            }
        }
    }
}

/// A configuration has one parent: two parents with a common child are
/// equal.
proof fn lemma_children_unique_parent(m: BinaryMatrix, n_min: nat, p1: u64, p2: u64, x: u64)
    requires
        m.wf(),
        high_columns_inadmissible(m, n_min),
        children(m, n_min, p1).contains(x),
        children(m, n_min, p2).contains(x),
    ensures
        p1 == p2,
{
    let adm = admissible_columns(m, n_min);
    lemma_adm_from_props(m, n_min, 0);
    lemma_extensions_elem(m, n_min, p1, 0, x);
    let t1 = choose|t: int|
        0 <= t < adm.len() && #[trigger] adm[t] > top_of(p1) && x == p1 | bit_mask(adm[t] as int) && support(m, x)
            >= n_min;
    lemma_extensions_elem(m, n_min, p2, 0, x);
    let t2 = choose|t: int|
        0 <= t < adm.len() && #[trigger] adm[t] > top_of(p2) && x == p2 | bit_mask(adm[t] as int) && support(m, x)
            >= n_min;
    let j1 = adm[t1] as int;
    let j2 = adm[t2] as int;
    assert(j1 < 64 && j2 < 64);
    lemma_top_of_extension(p1, j1);
    lemma_top_of_extension(p2, j2);
    lemma_remove_added_bit(p1, j1 as u64);
    lemma_remove_added_bit(p2, j2 as u64);
}

proof fn lemma_children_flatten_no_dup(m: BinaryMatrix, n_min: nat, s: Seq<u64>)
    requires
        m.wf(),
        high_columns_inadmissible(m, n_min),
        s.no_duplicates(),
    ensures
        children_of(m, n_min, s).flatten().no_duplicates(),
    decreases s.len(),
{
    if s.len() == 0 {
        assert(children_of(m, n_min, s) =~= Seq::<Seq<u64>>::empty());
        assert(children_of(m, n_min, s).flatten() =~= Seq::<u64>::empty());
    } else {
        let a = s.drop_last();
        let last = s.last();
        assert(a.push(last) =~= s);
        assert forall|x: int, y: int| 0 <= x < y < a.len() implies a[x] != a[y] by {
            assert(a[x] == s[x] && a[y] == s[y]);
        }
        lemma_children_flatten_no_dup(m, n_min, a);
        lemma_children_of_push(m, n_min, a, last);
        lemma_extensions_no_dup(m, n_min, last, 0);
        let fa = children_of(m, n_min, a).flatten();
        let c = children(m, n_min, last);
        let f = fa + c;
        assert forall|u: int, v: int| 0 <= u < v < f.len() implies f[u] != f[v] by {
            if u < fa.len() && v >= fa.len() {
                if f[u] == f[v] {
                    let x = f[u];
                    assert(fa[u] == x);
                    assert(c[v - fa.len()] == x);
                    assert(fa.contains(x));
                    lemma_children_flatten_elem(m, n_min, a, x);
                    let k = choose|k: int| 0 <= k < a.len() && #[trigger] children(m, n_min, a[k]).contains(x);
                    assert(c.contains(x));
                    lemma_children_unique_parent(m, n_min, a[k], last, x);
                    assert(s[k] == a[k]);
                    assert(s[s.len() - 1] == last);
                }
            } else if v < fa.len() {
                assert(f[u] == fa[u] && f[v] == fa[v]);
            } else {
                assert(f[u] == c[u - fa.len()] && f[v] == c[v - fa.len()]);
            }
        }
    }
}

/// The lattice lists each configuration of a depth once.
pub proof fn lemma_level_no_duplicates(m: BinaryMatrix, n_min: nat, d: nat)
    requires
        m.wf(),
        high_columns_inadmissible(m, n_min),
        d >= 1,
    ensures
        level(m, n_min, d).no_duplicates(),
    decreases d,
{
    if d == 1 {
        let adm = admissible_columns(m, n_min);
        lemma_adm_from_props(m, n_min, 0);
        lemma_adm_from_increasing(m, n_min, 0);
        let lv = level(m, n_min, 1);
        assert forall|u: int, v: int| 0 <= u < v < lv.len() implies lv[u] != lv[v] by {
            assert(adm[u] < adm[v]);
            assert(adm[v] < 64);
            if lv[u] == lv[v] {
                lemma_bit_mask_injective(adm[u] as u64, adm[v] as u64);
            }
        }
    } else {
        lemma_level_no_duplicates(m, n_min, (d - 1) as nat);
        lemma_children_flatten_no_dup(m, n_min, level(m, n_min, (d - 1) as nat));
    }
}

/// Depth `d` of the lattice is exactly the sets of `d` columns of the
/// matrix whose support reaches `n_min` (Apriori extension loses none and
/// adds none).
pub proof fn lemma_level_characterization(m: BinaryMatrix, n_min: nat, d: nat, q: u64)
    requires
        m.wf(),
        high_columns_inadmissible(m, n_min),
        d >= 1,
    ensures
        level(m, n_min, d).contains(q) <==> (popcount_spec(q) == d && in_cols(m, q) && support(m, q) >= n_min),
{
    if level(m, n_min, d).contains(q) {
        let i = choose|i: int| 0 <= i < level(m, n_min, d).len() && level(m, n_min, d)[i] == q;
        lemma_level_sound(m, n_min, d, i);
    }
    if popcount_spec(q) == d && in_cols(m, q) && support(m, q) >= n_min {
        if q == 0 {
            lemma_bits_below_zero(64);
        }
        lemma_level_complete(m, n_min, q);
    }
}

/// `a` comes before `b` in lexicographic order of their ascending column
/// lists (for sets of one size): the lowest column in which they differ
/// belongs to `a`.
pub open spec fn lex_before(a: u64, b: u64) -> bool {
    exists|k: int|
        0 <= k < 64 && #[trigger] has_bit(a, k) && !has_bit(b, k) && forall|i: int|
            0 <= i < k ==> (#[trigger] has_bit(a, i) <==> has_bit(b, i))
}

proof fn lemma_bits_below_agree(a: u64, b: u64, n: nat)
    requires
        n <= 64,
        forall|i: int| 0 <= i < n ==> (#[trigger] has_bit(a, i) <==> has_bit(b, i)),
    ensures
        bits_below(a, n) == bits_below(b, n),
    decreases n,
{
    if n > 0 {
        lemma_bits_below_agree(a, b, (n - 1) as nat);
    }
}

proof fn lemma_bits_below_mono(a: u64, n1: nat, n2: nat)
    requires
        n1 <= n2 <= 64,
    ensures
        bits_below(a, n1) <= bits_below(a, n2),
    decreases n2,
{
    if n2 > n1 {
        lemma_bits_below_mono(a, n1, (n2 - 1) as nat);
    }
}

/// Extending two same-size sets, each by a column above its top, keeps
/// their lexicographic order.
proof fn lemma_lex_extend_both(p1: u64, p2: u64, j1: int, j2: int)
    requires
        lex_before(p1, p2),
        popcount_spec(p1) == popcount_spec(p2),
        0 <= j1 < 64,
        0 <= j2 < 64,
        j1 > top_of(p1),
        j2 > top_of(p2),
    ensures
        lex_before(p1 | bit_mask(j1), p2 | bit_mask(j2)),
{
    let k = choose|k: int|
        0 <= k < 64 && #[trigger] has_bit(p1, k) && !has_bit(p2, k) && forall|i: int|
            0 <= i < k ==> (#[trigger] has_bit(p1, i) <==> has_bit(p2, i));
    lemma_top_props(p1);
    lemma_top_props(p2);
    lemma_top_of_extension(p1, j1);
    lemma_top_of_extension(p2, j2);
    assert(k <= top_of(p1));
    if top_of(p2) <= k {
        assert forall|r: int| k <= r < 64 implies !has_bit(p2, r) by {
            if has_bit(p2, r) {
                assert(r <= top_of(p2));
            }
        }
        lemma_bits_zero_tail(p2, k as nat, 64);
        lemma_bits_below_agree(p1, p2, k as nat);
        lemma_bits_below_mono(p1, (k + 1) as nat, 64);
        assert(bits_below(p1, (k + 1) as nat) == bits_below(p1, k as nat) + 1);
        assert(false);
    }
    let c1 = p1 | bit_mask(j1);
    let c2 = p2 | bit_mask(j2);
    assert(has_bit(c1, k));
    assert(!has_bit(c2, k));
    assert forall|i: int| 0 <= i < k implies (#[trigger] has_bit(c1, i) <==> has_bit(c2, i)) by {
        assert(has_bit(p1, i) <==> has_bit(p2, i));
    }
}

/// Two extensions of one set, by columns above its top, are ordered by
/// the added column.
proof fn lemma_lex_extend_same(p: u64, j1: int, j2: int)
    requires
        top_of(p) < j1 < j2 < 64,
    ensures
        lex_before(p | bit_mask(j1), p | bit_mask(j2)),
{
    lemma_top_of_extension(p, j1);
    lemma_top_of_extension(p, j2);
    let c1 = p | bit_mask(j1);
    let c2 = p | bit_mask(j2);
    assert(has_bit(c1, j1));
    assert(!has_bit(c2, j1));
    assert forall|i: int| 0 <= i < j1 implies (#[trigger] has_bit(c1, i) <==> has_bit(c2, i)) by {
    }
}

proof fn lemma_extensions_lex(m: BinaryMatrix, n_min: nat, p: u64, i: nat)
    requires
        m.wf(),
        high_columns_inadmissible(m, n_min),
    ensures
        forall|a: int, b: int|
            0 <= a < b < extensions(m, n_min, p, i).len() ==> lex_before(
                #[trigger] extensions(m, n_min, p, i)[a],
                #[trigger] extensions(m, n_min, p, i)[b],
            ),
    decreases admissible_columns(m, n_min).len() - i,
{
    let adm = admissible_columns(m, n_min);
    if i < adm.len() {
        lemma_extensions_lex(m, n_min, p, i + 1);
        let j = adm[i as int] as int;
        let q = p | bit_mask(j);
        let rest = extensions(m, n_min, p, i + 1);
        let e = extensions(m, n_min, p, i);
        if j > top_of(p) && support(m, q) >= n_min {
            assert(e == seq![q] + rest);
            lemma_adm_from_props(m, n_min, 0);
            lemma_adm_from_increasing(m, n_min, 0);
            assert forall|a: int, b: int| 0 <= a < b < e.len() implies lex_before(#[trigger] e[a], #[trigger] e[b]) by {
                assert(e[b] == rest[b - 1]);
                if a > 0 {
                    assert(e[a] == rest[a - 1]);
                } else {
                    assert(rest.contains(e[b]));
                    lemma_extensions_elem(m, n_min, p, i + 1, e[b]);
                    let t = choose|t: int|
                        i + 1 <= t < adm.len() && #[trigger] adm[t] > top_of(p) && e[b] == p | bit_mask(adm[t] as int)
                            && support(m, e[b]) >= n_min;
                    assert(adm[i as int] < adm[t]);
                    assert(col_support(m, adm[t] as int) >= n_min);
                    assert(adm[t] < 64);
                    lemma_lex_extend_same(p, j, adm[t] as int);
                }
            }
        } else {
            assert(e == rest);
        }
    }
}

proof fn lemma_flatten_lex(m: BinaryMatrix, n_min: nat, s: Seq<u64>, c: nat)
    requires
        m.wf(),
        high_columns_inadmissible(m, n_min),
        forall|a: int, b: int| 0 <= a < b < s.len() ==> lex_before(#[trigger] s[a], #[trigger] s[b]),
        forall|a: int| 0 <= a < s.len() ==> popcount_spec(#[trigger] s[a]) == c,
    ensures
        forall|a: int, b: int|
            0 <= a < b < children_of(m, n_min, s).flatten().len() ==> lex_before(
                #[trigger] children_of(m, n_min, s).flatten()[a],
                #[trigger] children_of(m, n_min, s).flatten()[b],
            ),
    decreases s.len(),
{
    if s.len() == 0 {
        assert(children_of(m, n_min, s) =~= Seq::<Seq<u64>>::empty());
        assert(children_of(m, n_min, s).flatten() =~= Seq::<u64>::empty());
    } else {
        let a = s.drop_last();
        let last = s.last();
        assert(a.push(last) =~= s);
        lemma_children_of_push(m, n_min, a, last);
        lemma_flatten_lex(m, n_min, a, c);
        lemma_extensions_lex(m, n_min, last, 0);
        let fa = children_of(m, n_min, a).flatten();
        let ch = children(m, n_min, last);
        let f = fa + ch;
        assert(f == children_of(m, n_min, s).flatten());
        assert forall|x: int, y: int| 0 <= x < y < f.len() implies lex_before(#[trigger] f[x], #[trigger] f[y]) by {
            if y < fa.len() {
                assert(f[x] == fa[x] && f[y] == fa[y]);
            } else if x >= fa.len() {
                assert(f[x] == ch[x - fa.len()] && f[y] == ch[y - fa.len()]);
            } else {
                assert(f[x] == fa[x] && f[y] == ch[y - fa.len()]);
                assert(fa.contains(f[x]));
                lemma_children_flatten_elem(m, n_min, a, f[x]);
                let k = choose|k: int| 0 <= k < a.len() && #[trigger] children(m, n_min, a[k]).contains(f[x]);
                lemma_extensions_elem(m, n_min, a[k], 0, f[x]);
                assert(ch.contains(f[y]));
                lemma_extensions_elem(m, n_min, last, 0, f[y]);
                let adm = admissible_columns(m, n_min);
                lemma_adm_from_props(m, n_min, 0);
                let t1 = choose|t: int|
                    0 <= t < adm.len() && #[trigger] adm[t] > top_of(a[k]) && f[x] == a[k] | bit_mask(adm[t] as int)
                        && support(m, f[x]) >= n_min;
                let t2 = choose|t: int|
                    0 <= t < adm.len() && #[trigger] adm[t] > top_of(last) && f[y] == last | bit_mask(adm[t] as int)
                        && support(m, f[y]) >= n_min;
                assert(a[k] == s[k]);
                assert(last == s[s.len() - 1]);
                assert(lex_before(s[k], s[s.len() - 1]));
                assert(col_support(m, adm[t1] as int) >= n_min && col_support(m, adm[t2] as int) >= n_min);
                assert(adm[t1] < 64 && adm[t2] < 64);
                lemma_lex_extend_both(a[k], last, adm[t1] as int, adm[t2] as int);
            }
        }
    }
}

/// Each depth lists its configurations in lexicographic order of their
/// ascending column lists: of two configurations of a depth, the earlier
/// one holds the lowest column in which they differ.
pub proof fn lemma_level_lexicographic(m: BinaryMatrix, n_min: nat, d: nat)
    requires
        m.wf(),
        high_columns_inadmissible(m, n_min),
        d >= 1,
    ensures
        forall|a: int, b: int|
            0 <= a < b < level(m, n_min, d).len() ==> lex_before(
                #[trigger] level(m, n_min, d)[a],
                #[trigger] level(m, n_min, d)[b],
            ),
    decreases d,
{
    let lv = level(m, n_min, d);
    if d == 1 {
        let adm = admissible_columns(m, n_min);
        lemma_adm_from_props(m, n_min, 0);
        lemma_adm_from_increasing(m, n_min, 0);
        assert forall|a: int, b: int| 0 <= a < b < lv.len() implies lex_before(#[trigger] lv[a], #[trigger] lv[b]) by {
            assert(lv[a] == bit_mask(adm[a] as int) && lv[b] == bit_mask(adm[b] as int));
            assert(col_support(m, adm[b] as int) >= n_min);
            assert(adm[a] < adm[b] && adm[b] < 64);
            lemma_top_of_zero();
            lemma_or_zero(adm[a] as u64);
            lemma_or_zero(adm[b] as u64);
            lemma_lex_extend_same(0, adm[a] as int, adm[b] as int);
        }
    } else {
        let prev = level(m, n_min, (d - 1) as nat);
        lemma_level_lexicographic(m, n_min, (d - 1) as nat);
        assert forall|a: int| 0 <= a < prev.len() implies popcount_spec(#[trigger] prev[a]) == d - 1 by {
            lemma_level_sound(m, n_min, (d - 1) as nat, a);
        }
        lemma_flatten_lex(m, n_min, prev, (d - 1) as nat);
    }
}

} // verus!
