//! Bit-parallel primitives for packed column indicators and vocabulary masks.
//!
//! A `u64` word is read as a set of bit positions `0..64`. This module owns
//! word packing, fused AND + popcount, member extraction and highest-bit
//! lookup; it does no inference or antichain reduction.

use vstd::prelude::*;

verus! {

/// Bit `i` of `x` is set (`0 <= i < 64`).
pub open spec fn has_bit(x: u64, i: int) -> bool {
    0 <= i < 64 && (x >> (i as u64)) & 1u64 == 1u64
}

/// Number of set bits of `x` among positions `0..n`.
pub open spec fn bits_below(x: u64, n: nat) -> nat
    decreases n,
{
    if n == 0 {
        0
    } else {
        bits_below(x, (n - 1) as nat) + if has_bit(x, n - 1) { 1nat } else { 0nat }
    }
}

/// Number of set bits of `x`.
pub open spec fn popcount_spec(x: u64) -> nat {
    bits_below(x, 64)
}

/// Set bit positions of `x` at or above `i`, ascending.
pub open spec fn members_from(x: u64, i: nat) -> Seq<u32>
    decreases 64 - i,
{
    if i >= 64 {
        Seq::empty()
    } else if has_bit(x, i as int) {
        seq![i as u32] + members_from(x, i + 1)
    } else {
        members_from(x, i + 1)
    }
}

/// All set bit positions of `x`, ascending.
pub open spec fn members_spec(x: u64) -> Seq<u32> {
    members_from(x, 0)
}

/// `k` is the highest set bit of `x`.
pub open spec fn top_bit(x: u64, k: int) -> bool {
    has_bit(x, k) && forall|j: int| k < j < 64 ==> !has_bit(x, j)
}

/// Sum over the first `n` word pairs of the popcount of their AND.
pub open spec fn and_count(a: Seq<u64>, b: Seq<u64>, n: nat) -> nat
    decreases n,
{
    if n == 0 {
        0
    } else {
        and_count(a, b, (n - 1) as nat) + popcount_spec(a[n - 1] & b[n - 1])
    }
}

/// Number of words needed for `n` bits.
pub open spec fn words_for(n: nat) -> nat {
    (n + 63) / 64
}

/// `count_ones` of std counts the one bits of the whole 64-bit word, as its
/// documentation states; this is believed, not proved.
pub assume_specification[ u64::count_ones ](x: u64) -> (r: u32)
    ensures
        r == popcount_spec(x),
;

/// At most `n` of the first `n` bits are set.
pub proof fn lemma_bits_below_le(x: u64, n: nat)
    ensures
        bits_below(x, n) <= n,
    decreases n,
{
    if n > 0 {
        lemma_bits_below_le(x, (n - 1) as nat);
    }
}

/// A word has at most 64 set bits.
pub proof fn lemma_popcount_le_64(x: u64)
    ensures
        popcount_spec(x) <= 64,
{
    lemma_bits_below_le(x, 64);
}

/// Count the number of set bits in a `u64` word (all 64 bits).
pub fn popcount(x: u64) -> (r: u32)
    ensures
        r == popcount_spec(x),
        r <= 64,
{
    proof {
        lemma_popcount_le_64(x);
    }
    x.count_ones()
}

/// Setting bit `s` sets bit `s` and leaves the others.
pub proof fn lemma_or_single_bit(x: u64, s: u64, j: u64)
    by (bit_vector)
    requires
        s < 64,
        j < 64,
    ensures
        ((x | (1u64 << s)) >> j) & 1u64 == 1u64 <==> ((x >> j) & 1u64 == 1u64 || j == s),
{
}

/// The zero word has no bit set.
pub proof fn lemma_zero_no_bit(j: u64)
    by (bit_vector)
    ensures
        (0u64 >> j) & 1u64 != 1u64,
{
}

proof fn lemma_usize_shift_split(i: usize)
    by (bit_vector)
    ensures
        i >> 6usize == i / 64,
        i & 63usize == i % 64,
{
}

/// Pack a column of boolean indicators into `u64` words: element `i` lands at
/// word `i / 64`, bit `i % 64`; bits past the end of the column are zero.
pub fn pack_column(col: &[bool]) -> (words: Vec<u64>)
    ensures
        words@.len() == words_for(col@.len() as nat),
        forall|w: int, b: int|
            0 <= w < words@.len() && 0 <= b < 64 ==> (#[trigger] has_bit(words@[w], b) <==> (w
                * 64 + b < col@.len() && col@[w * 64 + b])),
{
    let n = col.len();
    if n == 0 {
        return Vec::new();
    }
    let nwords = n / 64 + if n % 64 != 0 { 1 } else { 0 };
    let mut words: Vec<u64> = vec![0u64; nwords];
    proof {
        assert forall|w: int, b: int| 0 <= w < words@.len() && 0 <= b < 64 implies !#[trigger] has_bit(
            words@[w],
            b,
        ) by {
            lemma_zero_no_bit(b as u64);
        }
    }
    let mut i: usize = 0;
    while i < n
        invariant
            i <= n,
            n == col@.len(),
            words@.len() == nwords,
            nwords == words_for(n as nat),
            forall|w: int, b: int|
                0 <= w < words@.len() && 0 <= b < 64 ==> (#[trigger] has_bit(words@[w], b) <==> (w
                    * 64 + b < i && col@[w * 64 + b])),
        decreases n - i,
    {
        if col[i] {
            proof {
                lemma_usize_shift_split(i);
            }
            let wi = i >> 6;
            let sh = i & 63;
            let ghost old_words = words@;
            let cur = words[wi];
            words.set(wi, cur | (1u64 << (sh as u64)));
            proof {
                assert(i as int == (wi as int) * 64 + sh as int);
                assert forall|w: int, b: int| 0 <= w < words@.len() && 0 <= b < 64 implies (#[trigger] has_bit(
                    words@[w],
                    b,
                ) <==> (w * 64 + b < i + 1 && col@[w * 64 + b])) by {
                    assert(has_bit(old_words[w], b) <==> (w * 64 + b < i && col@[w * 64 + b]));
                    if w == wi as int {
                        lemma_or_single_bit(cur, sh as u64, b as u64);
                        assert(words@[w] == cur | (1u64 << (sh as u64)));
                        assert((w * 64 + b == i) <==> (b == sh as int));
                    } else {
                        assert(w * 64 + b != i);
                        assert(words@[w] == old_words[w]);
                    }
                }
            }
        } else {
            proof {
                lemma_usize_shift_split(i);
                assert forall|w: int, b: int| 0 <= w < words@.len() && 0 <= b < 64 implies (#[trigger] has_bit(
                    words@[w],
                    b,
                ) <==> (w * 64 + b < i + 1 && col@[w * 64 + b])) by {
                    if w * 64 + b == i {
                    }
                }
            }
        }
        i = i + 1;
    }
    words
}


proof fn lemma_and_count_step(a: Seq<u64>, b: Seq<u64>, n: nat)
    ensures
        and_count(a, b, n + 1) == and_count(a, b, n) + popcount_spec(a[n as int] & b[n as int]),
{
}

proof fn lemma_and_count_mono(a: Seq<u64>, b: Seq<u64>, i: nat, n: nat)
    requires
        i <= n,
    ensures
        and_count(a, b, i) <= and_count(a, b, n),
    decreases n - i,
{
    if i < n {
        lemma_and_count_mono(a, b, i, (n - 1) as nat);
    }
}

/// Fused bitwise AND + popcount across two word slices, over the first
/// `min(a.len(), b.len())` word pairs (mismatched lengths truncate).
pub fn and_popcount(a: &[u64], b: &[u64]) -> (r: u32)
    requires
        and_count(a@, b@, if a@.len() <= b@.len() { a@.len() as nat } else { b@.len() as nat })
            <= u32::MAX,
    ensures
        r == and_count(a@, b@, if a@.len() <= b@.len() { a@.len() as nat } else { b@.len() as nat }),
{
    let n = if a.len() <= b.len() { a.len() } else { b.len() };
    let mut sum: u32 = 0;
    let mut w: usize = 0;
    while w < n
        invariant
            w <= n,
            n as nat == (if a@.len() <= b@.len() { a@.len() as nat } else { b@.len() as nat }),
            sum == and_count(a@, b@, w as nat),
            and_count(a@, b@, n as nat) <= u32::MAX,
        decreases n - w,
    {
        let c = popcount(a[w] & b[w]);
        proof {
            lemma_and_count_step(a@, b@, w as nat);
            lemma_and_count_mono(a@, b@, (w + 1) as nat, n as nat);
        }
        sum = sum + c;
        w = w + 1;
    }
    sum
}

proof fn lemma_members_from_skip(x: u64, i: nat)
    requires
        i < 64,
        !has_bit(x, i as int),
    ensures
        members_from(x, i) == members_from(x, i + 1),
{
}

/// Yield the 0-based indices of the set bits of `mask`, in ascending order.
/// A zero mask yields nothing.
pub fn extract_members(mask: u64) -> (members: Vec<u32>)
    ensures
        members@ == members_spec(mask),
{
    let mut out: Vec<u32> = Vec::new();
    let mut i: u64 = 0;
    while i < 64
        invariant
            i <= 64,
            out@ + members_from(mask, i as nat) == members_spec(mask),
        decreases 64 - i,
    {
        if (mask >> i) & 1u64 == 1u64 {
            proof {
                assert(members_from(mask, i as nat) == seq![i as u32] + members_from(
                    mask,
                    (i + 1) as nat,
                ));
                assert(out@.push(i as u32) + members_from(mask, (i + 1) as nat) == out@ + (seq![
                    i as u32,
                ] + members_from(mask, (i + 1) as nat)));
            }
            out.push(i as u32);
        } else {
            proof {
                lemma_members_from_skip(mask, i as nat);
            }
        }
        i = i + 1;
    }
    proof {
        assert(members_from(mask, 64) == Seq::<u32>::empty());
        assert(out@ + Seq::<u32>::empty() == out@);
    }
    out
}

proof fn lemma_nonzero_bit(mask: u64, k: u64)
    by (bit_vector)
    requires
        (mask >> k) & 1u64 != 0u64,
    ensures
        (mask >> k) & 1u64 == 1u64,
{
}

/// Return the index of the highest set bit of `mask`, or `None` for zero.
pub fn max_element(mask: u64) -> (r: Option<u32>)
    ensures
        r is None <==> mask == 0,
        r matches Some(k) ==> top_bit(mask, k as int),
{
    if mask == 0 {
        None
    } else {
        let lz = mask.leading_zeros();
        proof {
            vstd::std_specs::bits::axiom_u64_leading_zeros(mask);
            assert(lz < 64);
            assert((mask >> ((63 - lz) as u64)) & 1u64 != 0u64);
            lemma_nonzero_bit(mask, (63 - lz) as u64);
            assert forall|j: int| (63 - lz) < j < 64 implies !has_bit(mask, j) by {
                assert(64 - vstd::std_specs::bits::u64_leading_zeros(mask) <= j as u64);
            }
        }
        Some(63 - lz)
    }
}


proof fn lemma_members_from_props(x: u64, i: nat)
    requires
        i <= 64,
    ensures
        members_from(x, i).len() + bits_below(x, i) == popcount_spec(x),
        forall|t: int|
            0 <= t < members_from(x, i).len() ==> i <= #[trigger] members_from(x, i)[t] < 64
                && has_bit(x, members_from(x, i)[t] as int),
        forall|t1: int, t2: int|
            0 <= t1 < t2 < members_from(x, i).len() ==> #[trigger] members_from(x, i)[t1]
                < #[trigger] members_from(x, i)[t2],
        forall|k: int| i <= k < 64 && has_bit(x, k) ==> members_from(x, i).contains(k as u32),
    decreases 64 - i,
{
    if i < 64 {
        lemma_members_from_props(x, i + 1);
        let rest = members_from(x, i + 1);
        assert(bits_below(x, i + 1) == bits_below(x, i) + if has_bit(x, i as int) {
            1nat
        } else {
            0nat
        });
        if has_bit(x, i as int) {
            let s = seq![i as u32] + rest;
            assert(members_from(x, i) == s);
            assert forall|k: int| i <= k < 64 && has_bit(x, k) implies s.contains(k as u32) by {
                if k == i {
                    assert(s[0] == k as u32);
                } else {
                    let t = choose|t: int| 0 <= t < rest.len() && rest[t] == k as u32;
                    assert(s[t + 1] == k as u32);
                }
            }
        }
    }
}

/// The members of a mask are exactly its set bits, strictly ascending, and
/// there are `popcount` of them.
pub proof fn lemma_members_spec(x: u64)
    ensures
        members_spec(x).len() == popcount_spec(x),
        forall|t: int|
            0 <= t < members_spec(x).len() ==> #[trigger] members_spec(x)[t] < 64 && has_bit(
                x,
                members_spec(x)[t] as int,
            ),
        forall|t1: int, t2: int|
            0 <= t1 < t2 < members_spec(x).len() ==> #[trigger] members_spec(x)[t1]
                < #[trigger] members_spec(x)[t2],
        forall|k: int| 0 <= k < 64 && has_bit(x, k) ==> members_spec(x).contains(k as u32),
{
    lemma_members_from_props(x, 0);
}

/// The highest set bit that `max_element` reports is the last member that
/// `extract_members` yields, for every non-zero mask.
pub proof fn lemma_max_element_is_last_member(x: u64)
    requires
        x != 0,
    ensures
        members_spec(x).len() > 0,
        top_bit(x, members_spec(x).last() as int),
{
    lemma_members_spec(x);
    let s = members_spec(x);
    let k0 = choose|k: int| 0 <= k < 64 && has_bit(x, k);
    assert(x != 0 ==> exists|k: int| 0 <= k < 64 && has_bit(x, k)) by {
        if forall|k: int| 0 <= k < 64 ==> !has_bit(x, k) {
            lemma_no_bits_zero(x);
        }
    }
    assert(s.contains(k0 as u32));
    let last = s.last();
    assert forall|j: int| last < j < 64 implies !has_bit(x, j) by {
        if has_bit(x, j) {
            assert(s.contains(j as u32));
            let t = choose|t: int| 0 <= t < s.len() && s[t] == j as u32;
            if t < s.len() - 1 {
                assert(s[t] < s[s.len() - 1]);
            }
        }
    }
}

/// A word with no bit set is zero.
pub proof fn lemma_no_bits_zero(x: u64)
    requires
        forall|k: int| 0 <= k < 64 ==> !has_bit(x, k),
    ensures
        x == 0,
{
    assert forall|k: u64| k < 64 implies (x >> k) & 1u64 == 0u64 by {
        assert(!has_bit(x, k as int));
        lemma_bit_is_01(x, k);
    }
    lemma_all_bits_zero(x);
}

/// A shifted-and-masked bit is 0 or 1.
pub proof fn lemma_bit_is_01(x: u64, k: u64)
    by (bit_vector)
    ensures
        (x >> k) & 1u64 == 0u64 || (x >> k) & 1u64 == 1u64,
{
}

proof fn lemma_all_bits_zero(x: u64)
    requires
        forall|k: u64| k < 64 ==> (x >> k) & 1u64 == 0u64,
    ensures
        x == 0,
{
    assert(x == 0) by (bit_vector)
        requires
            (x >> 0u64) & 1u64 == 0u64, (x >> 1u64) & 1u64 == 0u64, (x >> 2u64) & 1u64 == 0u64,
            (x >> 3u64) & 1u64 == 0u64, (x >> 4u64) & 1u64 == 0u64, (x >> 5u64) & 1u64 == 0u64,
            (x >> 6u64) & 1u64 == 0u64, (x >> 7u64) & 1u64 == 0u64, (x >> 8u64) & 1u64 == 0u64,
            (x >> 9u64) & 1u64 == 0u64, (x >> 10u64) & 1u64 == 0u64, (x >> 11u64) & 1u64 == 0u64,
            (x >> 12u64) & 1u64 == 0u64, (x >> 13u64) & 1u64 == 0u64, (x >> 14u64) & 1u64 == 0u64,
            (x >> 15u64) & 1u64 == 0u64, (x >> 16u64) & 1u64 == 0u64, (x >> 17u64) & 1u64 == 0u64,
            (x >> 18u64) & 1u64 == 0u64, (x >> 19u64) & 1u64 == 0u64, (x >> 20u64) & 1u64 == 0u64,
            (x >> 21u64) & 1u64 == 0u64, (x >> 22u64) & 1u64 == 0u64, (x >> 23u64) & 1u64 == 0u64,
            (x >> 24u64) & 1u64 == 0u64, (x >> 25u64) & 1u64 == 0u64, (x >> 26u64) & 1u64 == 0u64,
            (x >> 27u64) & 1u64 == 0u64, (x >> 28u64) & 1u64 == 0u64, (x >> 29u64) & 1u64 == 0u64,
            (x >> 30u64) & 1u64 == 0u64, (x >> 31u64) & 1u64 == 0u64, (x >> 32u64) & 1u64 == 0u64,
            (x >> 33u64) & 1u64 == 0u64, (x >> 34u64) & 1u64 == 0u64, (x >> 35u64) & 1u64 == 0u64,
            (x >> 36u64) & 1u64 == 0u64, (x >> 37u64) & 1u64 == 0u64, (x >> 38u64) & 1u64 == 0u64,
            (x >> 39u64) & 1u64 == 0u64, (x >> 40u64) & 1u64 == 0u64, (x >> 41u64) & 1u64 == 0u64,
            (x >> 42u64) & 1u64 == 0u64, (x >> 43u64) & 1u64 == 0u64, (x >> 44u64) & 1u64 == 0u64,
            (x >> 45u64) & 1u64 == 0u64, (x >> 46u64) & 1u64 == 0u64, (x >> 47u64) & 1u64 == 0u64,
            (x >> 48u64) & 1u64 == 0u64, (x >> 49u64) & 1u64 == 0u64, (x >> 50u64) & 1u64 == 0u64,
            (x >> 51u64) & 1u64 == 0u64, (x >> 52u64) & 1u64 == 0u64, (x >> 53u64) & 1u64 == 0u64,
            (x >> 54u64) & 1u64 == 0u64, (x >> 55u64) & 1u64 == 0u64, (x >> 56u64) & 1u64 == 0u64,
            (x >> 57u64) & 1u64 == 0u64, (x >> 58u64) & 1u64 == 0u64, (x >> 59u64) & 1u64 == 0u64,
            (x >> 60u64) & 1u64 == 0u64, (x >> 61u64) & 1u64 == 0u64, (x >> 62u64) & 1u64 == 0u64,
            (x >> 63u64) & 1u64 == 0u64,
    ;
}

/// A bit of a subset is a bit of the superset.
pub proof fn lemma_subset_bit(a: u64, q: u64, k: u64)
    by (bit_vector)
    requires
        a & q == a,
        (a >> k) & 1u64 == 1u64,
    ensures
        (q >> k) & 1u64 == 1u64,
{
}

proof fn lemma_bits_below_subset(a: u64, q: u64, n: nat)
    requires
        a & q == a,
        n <= 64,
    ensures
        bits_below(a, n) <= bits_below(q, n),
    decreases n,
{
    if n > 0 {
        lemma_bits_below_subset(a, q, (n - 1) as nat);
        if has_bit(a, n - 1) {
            lemma_subset_bit(a, q, (n - 1) as u64);
        }
    }
}

/// A subset of `q` has at most as many set bits as `q`.
pub proof fn lemma_subset_popcount_le(a: u64, q: u64)
    requires
        a & q == a,
    ensures
        popcount_spec(a) <= popcount_spec(q),
{
    lemma_bits_below_subset(a, q, 64);
}

proof fn lemma_bits_below_strict(a: u64, q: u64, i: nat, n: nat)
    requires
        a & q == a,
        i < n <= 64,
        has_bit(q, i as int),
        !has_bit(a, i as int),
    ensures
        bits_below(a, n) < bits_below(q, n),
    decreases n,
{
    if n == i + 1 {
        lemma_bits_below_subset(a, q, i);
    } else {
        lemma_bits_below_strict(a, q, i, (n - 1) as nat);
        if has_bit(a, n - 1) {
            lemma_subset_bit(a, q, (n - 1) as u64);
        }
    }
}

proof fn lemma_diff_bit(a: u64, q: u64, k: u64)
    by (bit_vector)
    requires
        ((q & !a) >> k) & 1u64 == 1u64,
    ensures
        (q >> k) & 1u64 == 1u64,
        (a >> k) & 1u64 != 1u64,
{
}

proof fn lemma_subset_no_diff(a: u64, q: u64)
    by (bit_vector)
    requires
        a & q == a,
        q & !a == 0,
    ensures
        a == q,
{
}

/// A subset of `q` with as many set bits as `q` is `q` itself.
pub proof fn lemma_subset_same_popcount_eq(a: u64, q: u64)
    requires
        a & q == a,
        popcount_spec(a) == popcount_spec(q),
    ensures
        a == q,
{
    let d = q & !a;
    if d != 0 {
        if forall|k: int| 0 <= k < 64 ==> !has_bit(d, k) {
            lemma_no_bits_zero(d);
        }
        let k = choose|k: int| 0 <= k < 64 && has_bit(d, k);
        lemma_diff_bit(a, q, k as u64);
        lemma_bits_below_strict(a, q, k as nat, 64);
    }
    lemma_subset_no_diff(a, q);
}

} // verus!
