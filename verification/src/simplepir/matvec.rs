//! Register-blocked accumulate matvec: the `acc += qᵀ·D mod 2³²` kernel
//! behind every LWE operation (answer, setup hint, client precompute).
//!
//! `D` is a row-major `q.len() × acc.len()` matrix. The kernel folds
//! `R` rows per pass (the largest power of two `≤ 16` with `R·width ≤ 2048`)
//! and the remaining rows one at a time; wrapping addition is associative
//! and commutative, so every blocking gives the same result as the plain
//! row-by-row loop. The loop shape depends only on `(rows, width)`.
use vstd::prelude::*;
use crate::simplepir::arith::{q_modulus, lemma_wrapping_add_mod};
use crate::simplepir::sums::sum;

verus! {

/// `Σ_{i<k} q[i] · d[i·w + j]` over the integers: the first `k` terms of
/// column `j` of `qᵀ·D`.
pub open spec fn column_dot(d: Seq<u32>, q: Seq<u32>, w: int, j: int, k: int) -> int
    decreases k,
{
    if k <= 0 {
        0
    } else {
        column_dot(d, q, w, j, k - 1) + q[k - 1] as int * d[(k - 1) * w + j] as int
    }
}

/// `column_dot` is the finite sum of its terms.
pub proof fn lemma_column_dot_is_sum(d: Seq<u32>, q: Seq<u32>, w: int, j: int, k: int)
    ensures
        column_dot(d, q, w, j, k) == sum(|i: int| q[i] as int * d[i * w + j] as int, k),
    decreases k,
{
    if k > 0 {
        lemma_column_dot_is_sum(d, q, w, j, k - 1);
    }
}

/// `n` zero cells.
pub open spec fn zeros(n: nat) -> Seq<u32> {
    Seq::new(n, |i: int| 0u32)
}

/// `acc + qᵀ·D mod 2³²`, where `D` is `d` read as a row-major
/// `q.len() × acc.len()` matrix.
pub open spec fn matvec_spec(acc: Seq<u32>, d: Seq<u32>, q: Seq<u32>) -> Seq<u32> {
    Seq::new(
        acc.len(),
        |j: int| ((acc[j] + column_dot(d, q, acc.len() as int, j, q.len() as int)) % (q_modulus() as int)) as u32,
    )
}

/// `acc` after folding the first `k` rows of `qᵀ·D` into `acc0`.
pub open spec fn folded(acc0: Seq<u32>, d: Seq<u32>, q: Seq<u32>, k: int, j: int) -> u32 {
    ((acc0[j] + column_dot(d, q, acc0.len() as int, j, k)) % (q_modulus() as int)) as u32
}

/// Cell `(i, j)` of a row-major matrix of width `w` with `n` rows is in bounds.
pub proof fn lemma_cell_in_bounds(i: int, j: int, w: int, n: int)
    requires
        0 <= i < n,
        0 <= j < w,
    ensures
        0 <= i * w + j < n * w,
        i * w + j + 1 <= n * w,
        i * w <= n * w,
{
    assert(0 <= i * w + j < n * w && i * w <= n * w) by (nonlinear_arith)
        requires 0 <= i < n, 0 <= j < w;
}

/// Folding one more row: `folded(k) + q[k]·d[k·w + j]` wraps to `folded(k + 1)`.
pub proof fn lemma_fold_step(acc0: Seq<u32>, d: Seq<u32>, q: Seq<u32>, k: int, j: int)
    requires
        0 <= k < q.len(),
        0 <= j < acc0.len(),
    ensures
        vstd::wrapping::u32_specs::wrapping_add(
            folded(acc0, d, q, k, j),
            vstd::wrapping::u32_specs::wrapping_mul(q[k], d[k * acc0.len() + j]),
        ) == folded(acc0, d, q, k + 1, j),
{
    let m = q_modulus() as int;
    let w = acc0.len() as int;
    let x = folded(acc0, d, q, k, j);
    let p = vstd::wrapping::u32_specs::wrapping_mul(q[k], d[k * w + j]);
    let base = acc0[j] + column_dot(d, q, w, j, k);
    let term = q[k] as int * d[k * w + j] as int;
    vstd::arithmetic::div_mod::lemma_mod_bound(base, m);
    vstd::arithmetic::div_mod::lemma_mod_bound(term, m);
    lemma_wrapping_add_mod(x, p);
    assert(x as int == base % m);
    assert(p as int == term % m);
    vstd::arithmetic::div_mod::lemma_add_mod_noop(base, term, m);
    assert(column_dot(d, q, w, j, k + 1) == column_dot(d, q, w, j, k) + term);
    vstd::arithmetic::div_mod::lemma_mod_bound(base + term, m);
}

/// Fold `qᵀ · D` into `acc` (all arithmetic mod `2³²`).
///
/// `D` is `d`, a row-major `q.len() × acc.len()` matrix:
/// `acc[j] += Σ_i q[i] · d[i·acc.len() + j]`.
pub fn matvec_accumulate(acc: &mut [u32], d: &[u32], q: &[u32])
    requires
        d@.len() == q@.len() * old(acc)@.len(),
    ensures
        final(acc)@ == matvec_spec(old(acc)@, d@, q@),
{
    let width = acc.len();
    if width == 0 {
        assert(final(acc)@ =~= matvec_spec(old(acc)@, d@, q@));
    } else if width <= 128 {
        block_pass::<16>(acc, d, q);
    } else if width <= 256 {
        block_pass::<8>(acc, d, q);
    } else if width <= 512 {
        block_pass::<4>(acc, d, q);
    } else if width <= 1024 {
        block_pass::<2>(acc, d, q);
    } else {
        block_pass::<1>(acc, d, q);
    }
}

/// One blocking level: fold `R` rows per pass over `acc`, then the
/// `q.len() mod R` tail rows one at a time. Bit-exact for every block size:
/// the result is the naive row-by-row fold.
pub fn block_pass<const R: usize>(acc: &mut [u32], d: &[u32], q: &[u32])
    requires
        R >= 1,
        d@.len() == q@.len() * old(acc)@.len(),
    ensures
        final(acc)@ == matvec_spec(old(acc)@, d@, q@),
{
    let ghost acc0 = acc@;
    let width = acc.len();
    let n = q.len();
    if width == 0 || n == 0 {
        assert(acc@ =~= matvec_spec(acc0, d@, q@));
        return;
    }
    let dlen = d.len();
    proof {
        vstd::arithmetic::div_mod::lemma_fundamental_div_mod(n as int, R as int);
        vstd::arithmetic::div_mod::lemma_mod_bound(n as int, R as int);
        vstd::arithmetic::div_mod::lemma_div_multiples_vanish((n / R) as int, R as int);
        vstd::arithmetic::mul::lemma_mul_is_commutative((n / R) as int, R as int);
    }
    let full = n - n % R;
    let mut b: usize = 0;
    while b < full
        invariant
            width == acc@.len() == acc0.len(),
            n == q@.len(),
            d@.len() == n * width,
            full <= n,
            dlen == d@.len(),
            b <= full,
            full - b == (full - b) / (R as int) * (R as int),
            R >= 1,
            forall|jj: int| 0 <= jj < width ==> #[trigger] acc@[jj] == folded(acc0, d@, q@, b as int, jj),
        decreases full - b,
    {
        assert(full - b >= R) by (nonlinear_arith)
            requires
                full - b == (full - b) / (R as int) * (R as int),
                full - b > 0,
                R >= 1;
        let mut j: usize = 0;
        while j < width
            invariant
                width == acc@.len() == acc0.len(),
                n == q@.len(),
                d@.len() == n * width,
                b + R <= full <= n,
                dlen == d@.len(),
                j <= width,
                forall|jj: int| 0 <= jj < j ==> #[trigger] acc@[jj] == folded(acc0, d@, q@, b + R, jj),
                forall|jj: int| j <= jj < width ==> #[trigger] acc@[jj] == folded(acc0, d@, q@, b as int, jj),
            decreases width - j,
        {
            let mut x = acc[j];
            let mut r: usize = 0;
            while r < R
                invariant
                    width == acc0.len(),
                    n == q@.len(),
                    d@.len() == n * width,
                    b + R <= n,
                    dlen == d@.len(),
                    j < width,
                    r <= R,
                    x == folded(acc0, d@, q@, b + r, j as int),
                decreases R - r,
            {
                proof {
                    lemma_cell_in_bounds((b + r) as int, j as int, width as int, n as int);
                    lemma_fold_step(acc0, d@, q@, (b + r) as int, j as int);
                }
                x = x.wrapping_add(q[b + r].wrapping_mul(d[(b + r) * width + j]));
                r += 1;
            }
            acc[j] = x;
            j += 1;
        }
        assert((full - (b + R)) == (full - (b + R)) / (R as int) * (R as int)) by (nonlinear_arith)
            requires
                full - b == (full - b) / (R as int) * (R as int),
                R >= 1,
                full - b >= R,
        {
            let t = (full - b) / (R as int);
            vstd::arithmetic::div_mod::lemma_div_multiples_vanish(t - 1, R as int);
        }
        b += R;
    }
    let mut i: usize = full;
    while i < n
        invariant
            width == acc@.len() == acc0.len(),
            n == q@.len(),
            d@.len() == n * width,
            full <= i <= n,
            dlen == d@.len(),
            forall|jj: int| 0 <= jj < width ==> #[trigger] acc@[jj] == folded(acc0, d@, q@, i as int, jj),
        decreases n - i,
    {
        let qi = q[i];
        let mut j: usize = 0;
        while j < width
            invariant
                width == acc@.len() == acc0.len(),
                n == q@.len(),
                d@.len() == n * width,
                i < n,
                dlen == d@.len(),
                qi == q@[i as int],
                j <= width,
                forall|jj: int| 0 <= jj < j ==> #[trigger] acc@[jj] == folded(acc0, d@, q@, i + 1, jj),
                forall|jj: int| j <= jj < width ==> #[trigger] acc@[jj] == folded(acc0, d@, q@, i as int, jj),
            decreases width - j,
        {
            proof {
                lemma_cell_in_bounds(i as int, j as int, width as int, n as int);
                lemma_fold_step(acc0, d@, q@, i as int, j as int);
            }
            acc[j] = acc[j].wrapping_add(qi.wrapping_mul(d[i * width + j]));
            j += 1;
        }
        i += 1;
    }
    assert(acc@ =~= matvec_spec(acc0, d@, q@));
}

} // verus!
