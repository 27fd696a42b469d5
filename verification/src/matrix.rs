//! Validated 0/1 matrix stored as column-major packed `u64` words.
//!
//! Rows are variables (`V = n_rows <= 64`) and columns are observations
//! (`N = n_cols`). With `V <= 64` every column fits in one word: bit `r` of
//! word `c` holds entry `(r, c)`; the bits at and above `n_rows` are zero.
//!
//! The input values are `f64`, handed over as their IEEE-754 bit patterns
//! (`f64::to_bits`), so that the `0.0 / 1.0` check is exact: `0.0` and
//! `-0.0` read as 0, `1.0` as 1, anything else (including NaN) is refused.

use vstd::prelude::*;
use crate::bitset::{has_bit, pack_column, words_for};
use crate::error::ConfiguralError;

verus! {

/// Largest vocabulary (number of rows) a matrix may have.
pub const MAX_VOCABULARY: usize = 64;

/// Bit pattern of `1.0f64`.
pub const ONE_BITS: u64 = 0x3FF0_0000_0000_0000;

/// Bit pattern of `-0.0f64`.
pub const NEG_ZERO_BITS: u64 = 0x8000_0000_0000_0000;

/// The `f64` with these bits compares equal to `0.0`.
pub open spec fn is_zero_bits(b: u64) -> bool {
    b == 0 || b == NEG_ZERO_BITS
}

/// The `f64` with these bits compares equal to `1.0`.
pub open spec fn is_one_bits(b: u64) -> bool {
    b == ONE_BITS
}

/// `b` is the bit pattern of `0.0`, `-0.0` or `1.0`.
pub open spec fn is_binary_bits(b: u64) -> bool {
    is_zero_bits(b) || is_one_bits(b)
}

/// Index of the first non-binary value at or after `i` (`data.len()` if none).
pub open spec fn first_non_binary_from(data: Seq<u64>, i: nat) -> nat
    decreases data.len() - i,
{
    if i >= data.len() {
        data.len()
    } else if !is_binary_bits(data[i as int]) {
        i
    } else {
        first_non_binary_from(data, i + 1)
    }
}

/// The error that building a matrix from `data` with the given shape
/// reports, checked in this order: empty shape, vocabulary size, length,
/// then the first non-binary value in row-major order.
pub open spec fn matrix_error(data: Seq<u64>, n_rows: nat, n_cols: nat) -> Option<ConfiguralError> {
    if n_rows == 0 || n_cols == 0 {
        Some(ConfiguralError::EmptyMatrix)
    } else if n_rows > 64 {
        Some(ConfiguralError::VocabularyTooLarge { got: n_rows as usize, max: 64 })
    } else if data.len() != n_rows * n_cols {
        Some(
            ConfiguralError::DimensionMismatch {
                expected: if n_rows * n_cols <= usize::MAX {
                    (n_rows * n_cols) as usize
                } else {
                    usize::MAX
                },
                got: data.len() as usize,
            },
        )
    } else if first_non_binary_from(data, 0) < data.len() {
        let i = first_non_binary_from(data, 0) as int;
        Some(
            ConfiguralError::NonBinaryValue {
                row: (i / n_cols as int) as usize,
                col: (i % n_cols as int) as usize,
                value: data[i],
            },
        )
    } else {
        None
    }
}

/// A validated binary matrix with `1 <= n_rows <= 64` and `n_cols >= 1`.
#[derive(Debug, Clone)]
pub struct BinaryMatrix {
    bits: Vec<u64>,
    n_rows: usize,
    n_cols: usize,
}

impl BinaryMatrix {
    /// The packed column words, one per column.
    pub closed spec fn words(&self) -> Seq<u64> {
        self.bits@
    }

    /// Number of rows (variables, V).
    pub closed spec fn rows(&self) -> nat {
        self.n_rows as nat
    }

    /// Number of columns (observations, N).
    pub closed spec fn cols(&self) -> nat {
        self.n_cols as nat
    }

    /// Entry `(r, c)` is 1.
    pub open spec fn at(&self, r: int, c: int) -> bool {
        0 <= r < self.rows() && 0 <= c < self.cols() && has_bit(self.words()[c], r)
    }

    /// Shape bounds, one word per column, zero padding above the last row.
    pub open spec fn wf(&self) -> bool {
        &&& 1 <= self.rows() <= 64
        &&& 1 <= self.cols() <= usize::MAX
        &&& self.words().len() == self.cols()
        &&& forall|c: int, r: int|
            0 <= c < self.cols() && self.rows() <= r < 64 ==> !#[trigger] has_bit(self.words()[c], r)
    }

    /// Validate a row-major `n_rows x n_cols` matrix given as `f64` bit
    /// patterns and pack it column-major.
    pub fn new(data: &[u64], n_rows: usize, n_cols: usize) -> (res: Result<BinaryMatrix, ConfiguralError>)
        ensures
            match res {
                Ok(m) => {
                    &&& matrix_error(data@, n_rows as nat, n_cols as nat) is None
                    &&& m.wf()
                    &&& m.rows() == n_rows
                    &&& m.cols() == n_cols
                    &&& forall|r: int, c: int|
                        0 <= r < n_rows && 0 <= c < n_cols ==> (#[trigger] m.at(r, c)
                            <==> is_one_bits(data@[r * n_cols + c]))
                },
                Err(e) => matrix_error(data@, n_rows as nat, n_cols as nat) == Some(e),
            },
    {
        if n_rows == 0 || n_cols == 0 {
            return Err(ConfiguralError::EmptyMatrix);
        }
        if n_rows > MAX_VOCABULARY {
            return Err(ConfiguralError::VocabularyTooLarge { got: n_rows, max: MAX_VOCABULARY });
        }
        match n_rows.checked_mul(n_cols) {
            None => {
                return Err(ConfiguralError::DimensionMismatch { expected: usize::MAX, got: data.len() });
            },
            Some(expected) => {
                if data.len() != expected {
                    return Err(ConfiguralError::DimensionMismatch { expected, got: data.len() });
                }
            },
        }
        let len = data.len();
        let mut i: usize = 0;
        while i < len
            invariant
                i <= len,
                len == data@.len(),
                1 <= n_rows <= 64,
                1 <= n_cols,
                len == n_rows * n_cols,
                first_non_binary_from(data@, 0) == first_non_binary_from(data@, i as nat),
            decreases len - i,
        {
            let v = data[i];
            if !(v == 0 || v == NEG_ZERO_BITS || v == ONE_BITS) {
                proof {
                    lemma_div_mod_bounds(i as int, n_cols as int);
                }
                return Err(ConfiguralError::NonBinaryValue { row: i / n_cols, col: i % n_cols, value: v });
            }
            i = i + 1;
        }
        let mut bits: Vec<u64> = Vec::new();
        let mut c: usize = 0;
        while c < n_cols
            invariant
                c <= n_cols,
                1 <= n_rows <= 64,
                data@.len() == n_rows * n_cols,
                bits@.len() == c,
                len == data@.len(),
                forall|cc: int, r: int|
                    0 <= cc < c && 0 <= r < 64 ==> (#[trigger] has_bit(bits@[cc], r) <==> (r < n_rows
                        && is_one_bits(data@[r * n_cols + cc]))),
            decreases n_cols - c,
        {
            let mut col: Vec<bool> = Vec::new();
            let mut r: usize = 0;
            while r < n_rows
                invariant
                    r <= n_rows,
                    c < n_cols,
                    1 <= n_rows <= 64,
                    data@.len() == n_rows * n_cols,
                    col@.len() == r,
                    len == data@.len(),
                    forall|rr: int| 0 <= rr < r ==> #[trigger] col@[rr] == is_one_bits(data@[rr * n_cols + c]),
                decreases n_rows - r,
            {
                proof {
                    lemma_index_in_bounds(r as int, c as int, n_rows as int, n_cols as int);
                }
                col.push(data[r * n_cols + c] == ONE_BITS);
                r = r + 1;
            }
            let packed = pack_column(col.as_slice());
            proof {
                assert(words_for(n_rows as nat) == 1);
                assert forall|rr: int| 0 <= rr < 64 implies (#[trigger] has_bit(packed@[0], rr) <==> (rr
                    < n_rows && is_one_bits(data@[rr * n_cols + c]))) by {
                    assert(0 * 64 + rr == rr);
                }
            }
            let ghost old_bits = bits@;
            bits.push(packed[0]);
            proof {
                assert forall|cc: int, r: int|
                    0 <= cc < c + 1 && 0 <= r < 64 implies (#[trigger] has_bit(bits@[cc], r) <==> (r < n_rows
                        && is_one_bits(data@[r * n_cols + cc]))) by {
                    if cc < c {
                        assert(bits@[cc] == old_bits[cc]);
                    }
                }
            }
            c = c + 1;
        }
        let m = BinaryMatrix { bits, n_rows, n_cols };
        proof {
            assert(first_non_binary_from(data@, len as nat) == len);
        }
        Ok(m)
    }

    /// Number of rows (variables, V).
    pub fn n_rows(&self) -> (r: usize)
        ensures
            r == self.rows(),
    {
        self.n_rows
    }

    /// Number of columns (observations, N).
    pub fn n_cols(&self) -> (c: usize)
        ensures
            c == self.cols(),
    {
        self.n_cols
    }

    /// Entry `(r, c)`.
    pub fn get(&self, r: usize, c: usize) -> (b: bool)
        requires
            self.wf(),
            r < self.rows(),
            c < self.cols(),
        ensures
            b == self.at(r as int, c as int),
    {
        (self.bits[c] >> (r as u64)) & 1u64 == 1u64
    }

    /// The packed column words (word `c` is column `c`).
    pub fn as_bits(&self) -> (w: &[u64])
        ensures
            w@ == self.words(),
    {
        self.bits.as_slice()
    }
}

proof fn lemma_div_mod_bounds(i: int, n: int)
    requires
        0 <= i,
        0 < n,
    ensures
        0 <= i / n <= i,
        0 <= i % n < n,
{
    vstd::arithmetic::div_mod::lemma_div_pos_is_pos(i, n);
    vstd::arithmetic::div_mod::lemma_div_is_ordered_by_denominator(i, 1, n);
    vstd::arithmetic::div_mod::lemma_mod_bound(i, n);
}

proof fn lemma_index_in_bounds(r: int, c: int, n_rows: int, n_cols: int)
    requires
        0 <= r < n_rows,
        0 <= c < n_cols,
    ensures
        0 <= r * n_cols + c < n_rows * n_cols,
{
    assert(r * n_cols + c < n_rows * n_cols) by (nonlinear_arith)
        requires
            0 <= r < n_rows, 0 <= c < n_cols,
    ;
    assert(0 <= r * n_cols) by (nonlinear_arith)
        requires
            0 <= r, 0 <= n_cols,
    ;
}

} // verus!
