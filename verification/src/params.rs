//! Encoded-database geometry of a KPIR^index instance.
//!
//! Each stored entry is a `fingerprint(64 bits) ‖ value(8ℓ bits)` bitstring
//! packed into `plaintext_bits`-wide `Z_p` cells:
//!
//! ```text
//! partition  = ceil( payload_bits / plaintext_bits )
//! columns    = ceil( sqrt(n · partition) )
//! data_rows  = max( ceil(n / columns), ε + 2 )
//! rows       = data_rows + 2ε + 3
//! ```
use vstd::prelude::*;

verus! {

/// Width in bytes of the fingerprint stored in front of every value.
pub const FINGERPRINT_BYTES: usize = 8;

/// Default approximation error `ε`.
pub const DEFAULT_EPSILON: u32 = 4;

/// `ceil(a / b)` over the integers, for `b > 0`.
pub open spec fn ceil_div(a: int, b: int) -> int {
    (a + b - 1) / b
}

/// `s` is the smallest natural number whose square is at least `x`.
pub open spec fn is_ceil_sqrt(s: int, x: int) -> bool {
    &&& 0 <= s
    &&& s * s >= x
    &&& (s == 0 || (s - 1) * (s - 1) < x)
}

/// Payload bits of one entry: `8 · (value_bytes + FINGERPRINT_BYTES)`.
pub open spec fn payload_bits_spec(value_bytes: int) -> int {
    8 * (value_bytes + FINGERPRINT_BYTES)
}

/// Encoded-database geometry for one KPIR^index instance.
#[derive(Clone, Copy, Debug, PartialEq, Eq)]
pub struct MatrixShape {
    /// Number of key-value pairs `n`.
    pub n: usize,
    /// Value length `ℓ` in bytes.
    pub value_bytes: usize,
    /// Plaintext width `log₂ p`.
    pub plaintext_bits: u32,
    /// `Z_p` cells per stored entry.
    pub partition: usize,
    /// Query dimension `C`.
    pub columns: usize,
    /// Data entries per column before boundary padding.
    pub data_rows: usize,
    /// Slots per column `= data_rows + 2ε + 3`.
    pub rows: usize,
    /// Approximation error `ε`.
    pub epsilon: u32,
}

impl MatrixShape {
    /// The geometry that the defining formula gives for these inputs.
    pub open spec fn follows_formula(self) -> bool {
        &&& self.n > 0
        &&& self.value_bytes > 0
        &&& self.plaintext_bits > 0
        &&& self.partition == ceil_div(payload_bits_spec(self.value_bytes as int), self.plaintext_bits as int)
        &&& is_ceil_sqrt(self.columns as int, self.n * self.partition)
        &&& self.data_rows == if ceil_div(self.n as int, self.columns as int) >= self.epsilon + 2 {
            ceil_div(self.n as int, self.columns as int)
        } else {
            self.epsilon + 2
        }
        &&& self.rows == self.data_rows + 2 * self.epsilon + 3
    }

    /// Payload bits per entry: `8·(value_bytes + FINGERPRINT_BYTES)`.
    pub fn payload_bits(value_bytes: usize) -> (r: usize)
        requires
            payload_bits_spec(value_bytes as int) <= usize::MAX,
        ensures
            r == payload_bits_spec(value_bytes as int),
    {
        8 * (value_bytes + FINGERPRINT_BYTES)
    }
}

impl MatrixShape {
    /// Compute the geometry for `n` pairs of `value_bytes`-byte values at
    /// error `epsilon` and plaintext width `plaintext_bits`.
    pub fn new(n: usize, value_bytes: usize, epsilon: u32, plaintext_bits: u32) -> (s: Self)
        requires
            n > 0,
            value_bytes > 0,
            plaintext_bits > 0,
            payload_bits_spec(value_bytes as int) <= usize::MAX,
            n * ceil_div(payload_bits_spec(value_bytes as int), plaintext_bits as int)
                <= usize::MAX,
            n * ceil_div(payload_bits_spec(value_bytes as int), plaintext_bits as int)
                <= u64::MAX,
            (if n >= epsilon + 2 { n as int } else { epsilon + 2 }) + 2 * epsilon + 3
                <= usize::MAX,
        ensures
            s.follows_formula(),
            s.n == n,
            s.value_bytes == value_bytes,
            s.plaintext_bits == plaintext_bits,
            s.epsilon == epsilon,
    {
        let partition = div_ceil(Self::payload_bits(value_bytes), plaintext_bits as usize);
        proof {
            lemma_ceil_div_le(payload_bits_spec(value_bytes as int), plaintext_bits as int);
            assert(partition >= 1) by (nonlinear_arith)
                requires
                    plaintext_bits * partition >= payload_bits_spec(value_bytes as int),
                    payload_bits_spec(value_bytes as int) > 0,
                    plaintext_bits > 0,
                    partition >= 0;
            assert(n * partition >= 1) by (nonlinear_arith)
                requires n >= 1, partition >= 1;
        }
        let cells = (n as u64) * (partition as u64);
        let root = ceil_sqrt(cells);
        proof {
            lemma_ceil_sqrt_le(root as int, cells as int);
        }
        let columns = root as usize;
        let per_column = div_ceil(n, columns);
        proof {
            lemma_ceil_div_le(n as int, columns as int);
        }
        let min_rows = epsilon as usize + 2;
        let data_rows = if per_column >= min_rows { per_column } else { min_rows };
        let rows = data_rows + 2 * epsilon as usize + 3;
        MatrixShape {
            n,
            value_bytes,
            plaintext_bits,
            partition,
            columns,
            data_rows,
            rows,
            epsilon,
        }
    }

    /// Query dimension `C` (the query is `C` `u32` cells).
    pub fn query_dim(&self) -> (r: usize)
        ensures
            r == self.columns,
    {
        self.columns
    }

    /// Response dimension `R = rows · partition`.
    pub fn response_dim(&self) -> (r: usize)
        requires
            self.rows * self.partition <= usize::MAX,
        ensures
            r == self.rows * self.partition,
    {
        self.rows * self.partition
    }

    /// Query upload size in bytes (one `u32` per cell).
    pub fn query_bytes(&self) -> (r: usize)
        requires
            self.columns * 4 <= usize::MAX,
        ensures
            r == self.columns * 4,
    {
        self.query_dim() * 4
    }

    /// Response download size in bytes (one `u32` per cell).
    pub fn response_bytes(&self) -> (r: usize)
        requires
            self.rows * self.partition * 4 <= usize::MAX,
        ensures
            r == self.rows * self.partition * 4,
    {
        self.response_dim() * 4
    }
}

/// The geometry satisfies the defining (in)equalities of its formula: the
/// cell count per entry is the least that holds the payload, the column
/// count is the least whose square covers every cell, every entry has a
/// data slot, and the padding adds exactly `2ε + 3` slots per column. At
/// `plaintext_bits = 8` there is one cell per payload byte.
pub proof fn lemma_shape_invariants(s: MatrixShape)
    requires
        s.follows_formula(),
    ensures
        s.partition * s.plaintext_bits >= payload_bits_spec(s.value_bytes as int),
        (s.partition - 1) * s.plaintext_bits < payload_bits_spec(s.value_bytes as int),
        s.columns >= 1,
        s.columns * s.columns >= s.n * s.partition,
        (s.columns - 1) * (s.columns - 1) < s.n * s.partition,
        s.columns * s.data_rows >= s.n,
        s.data_rows >= s.epsilon + 2,
        s.rows == s.data_rows + 2 * s.epsilon + 3,
        s.plaintext_bits == 8 ==> s.partition == s.value_bytes + FINGERPRINT_BYTES,
{
    let pay = payload_bits_spec(s.value_bytes as int);
    let pt = s.plaintext_bits as int;
    vstd::arithmetic::div_mod::lemma_fundamental_div_mod(pay + pt - 1, pt);
    let q = s.partition as int;
    let r = (pay + pt - 1) % pt;
    assert(pt * q + r == pay + pt - 1);
    assert(q * pt >= pay) by (nonlinear_arith)
        requires pt * q + r == pay + pt - 1, r < pt;
    assert((q - 1) * pt < pay) by (nonlinear_arith)
        requires pt * q + r == pay + pt - 1, 0 <= r;
    assert(q >= 1) by (nonlinear_arith)
        requires q * pt >= pay, pay > 0, pt > 0;
    assert(s.n * s.partition >= 1) by (nonlinear_arith)
        requires s.n >= 1, s.partition >= 1;
    if s.columns == 0 {
        assert(false);
    }
    lemma_ceil_div_le(s.n as int, s.columns as int);
    assert(s.columns * s.data_rows >= s.columns * ceil_div(s.n as int, s.columns as int))
        by (nonlinear_arith)
        requires
            s.data_rows >= ceil_div(s.n as int, s.columns as int),
            s.columns >= 1;
    if pt == 8 {
        vstd::arithmetic::div_mod::lemma_fundamental_div_mod_converse(
            pay + 7, 8, s.value_bytes + FINGERPRINT_BYTES, 7);
    }
}

/// A positive ceiling square root never exceeds its argument.
proof fn lemma_ceil_sqrt_le(s: int, x: int)
    requires
        is_ceil_sqrt(s, x),
        x > 0,
    ensures
        1 <= s <= x,
{
    if s > x {
        assert((s - 1) * (s - 1) >= x) by (nonlinear_arith)
            requires s > x, x > 0;
    }
}

/// `ceil(a / b)` never exceeds `a` when `b ≥ 1`, and covers `a`.
proof fn lemma_ceil_div_le(a: int, b: int)
    requires
        a >= 0,
        b >= 1,
    ensures
        0 <= ceil_div(a, b) <= a || (a == 0 && ceil_div(a, b) == 0),
        b * ceil_div(a, b) >= a,
{
    vstd::arithmetic::div_mod::lemma_fundamental_div_mod(a + b - 1, b);
    let q = (a + b - 1) / b;
    let r = (a + b - 1) % b;
    assert(b * q + r == a + b - 1);
    assert(b * q >= a) by (nonlinear_arith)
        requires b * q + r == a + b - 1, r < b;
    assert(q >= 0) by (nonlinear_arith)
        requires b * q + r == a + b - 1, 0 <= r < b, a >= 0, b >= 1;
    if a > 0 {
        assert(q <= a) by (nonlinear_arith)
            requires b * q + r == a + b - 1, 0 <= r, a >= 1, b >= 1;
    } else {
        assert(q == 0) by (nonlinear_arith)
            requires b * q + r == b - 1, 0 <= r < b, b >= 1, q >= 0;
    }
}

/// `ceil(a / b)` for `b > 0`.
pub(crate) fn div_ceil(a: usize, b: usize) -> (r: usize)
    requires
        b > 0,
    ensures
        r == ceil_div(a as int, b as int),
{
    let q = a / b;
    proof {
        vstd::arithmetic::div_mod::lemma_fundamental_div_mod(a as int, b as int);
    }
    assert(a % b != 0 ==> q < usize::MAX) by (nonlinear_arith)
        requires
            b > 0,
            a == b * q + a % b,
            0 <= a % b < b,
            a <= usize::MAX,
    ;
    let r = if a % b != 0 { q + 1 } else { q };
    proof {
        let m = (a as int) % (b as int);
        assert(a + b - 1 == (q + 1) * b + (m - 1)) by (nonlinear_arith)
            requires a == b * q + m;
        if m != 0 {
            vstd::arithmetic::div_mod::lemma_fundamental_div_mod_converse(
                a as int + b as int - 1, b as int, q as int + 1, m - 1);
        } else {
            vstd::arithmetic::div_mod::lemma_fundamental_div_mod_converse(
                a as int + b as int - 1, b as int, q as int, b as int - 1);
        }
    }
    r
}

/// Floor of the square root: the largest `s` with `s·s ≤ x`.
fn floor_sqrt(x: u64) -> (s: u64)
    ensures
        s < 0x1_0000_0000u64,
        s * s <= x,
        x < (s + 1) * (s + 1),
{
    let mut lo: u64 = 0;
    let mut hi: u64 = 0x1_0000_0000;
    assert(x < hi * hi) by (nonlinear_arith)
        requires hi == 0x1_0000_0000u64;
    while hi - lo > 1
        invariant
            lo < hi <= 0x1_0000_0000u64,
            lo * lo <= x,
            x < hi * hi,
        decreases hi - lo,
    {
        let mid = lo + (hi - lo) / 2;
        assert(mid * mid <= 0xFFFF_FFFE_0000_0001u64) by (nonlinear_arith)
            requires mid < 0x1_0000_0000u64;
        if mid * mid <= x {
            lo = mid;
        } else {
            hi = mid;
        }
    }
    lo
}

/// `ceil(sqrt(x))` — the smallest `s` with `s·s ≥ x`.
pub fn ceil_sqrt(x: u64) -> (s: u64)
    ensures
        is_ceil_sqrt(s as int, x as int),
{
    if x == 0 {
        return 0;
    }
    let s = floor_sqrt(x);
    assert(s * s < 0x1_0000_0000_0000_0000) by (nonlinear_arith)
        requires s < 0x1_0000_0000u64;
    if s * s == x {
        assert((s - 1) * (s - 1) < s * s) by (nonlinear_arith)
            requires s * s == x, x > 0;
        s
    } else {
        s + 1
    }
}

/// There is one ceiling square root.
proof fn lemma_ceil_sqrt_unique(s: int, t: int, x: int)
    requires
        is_ceil_sqrt(s, x),
        is_ceil_sqrt(t, x),
    ensures
        s == t,
{
    if s < t {
        assert(s * s <= (t - 1) * (t - 1)) by (nonlinear_arith)
            requires 0 <= s <= t - 1;
    } else if t < s {
        assert(t * t <= (s - 1) * (s - 1)) by (nonlinear_arith)
            requires 0 <= t <= s - 1;
    }
}

/// The geometry is a function of `(n, value_bytes, ε, plaintext_bits)`:
/// two shapes that follow the formula for the same parameters are equal.
pub proof fn lemma_shape_unique(a: MatrixShape, b: MatrixShape)
    requires
        a.follows_formula(),
        b.follows_formula(),
        a.n == b.n,
        a.value_bytes == b.value_bytes,
        a.epsilon == b.epsilon,
        a.plaintext_bits == b.plaintext_bits,
    ensures
        a == b,
{
    assert(a.partition == b.partition);
    lemma_ceil_sqrt_unique(a.columns as int, b.columns as int, a.n * a.partition);
}

} // verus!
