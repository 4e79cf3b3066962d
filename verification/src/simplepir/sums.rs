//! Finite integer sums and the algebra the protocol proofs rely on.
use vstd::prelude::*;

verus! {

/// `Σ_{i<n} f(i)`.
pub open spec fn sum(f: spec_fn(int) -> int, n: int) -> int
    decreases n,
{
    if n <= 0 {
        0
    } else {
        sum(f, n - 1) + f(n - 1)
    }
}

/// Sums of pointwise-equal terms are equal.
pub proof fn lemma_sum_ext(f: spec_fn(int) -> int, g: spec_fn(int) -> int, n: int)
    requires
        forall|i: int| 0 <= i < n ==> #[trigger] f(i) == g(i),
    ensures
        sum(f, n) == sum(g, n),
    decreases n,
{
    if n > 0 {
        lemma_sum_ext(f, g, n - 1);
    }
}

/// `Σ (f + g) = Σ f + Σ g`.
pub proof fn lemma_sum_add(f: spec_fn(int) -> int, g: spec_fn(int) -> int, n: int)
    ensures
        sum(|i: int| f(i) + g(i), n) == sum(f, n) + sum(g, n),
    decreases n,
{
    if n > 0 {
        lemma_sum_add(f, g, n - 1);
    }
}

/// Sums of pointwise-congruent terms are congruent.
pub proof fn lemma_sum_congruent(f: spec_fn(int) -> int, g: spec_fn(int) -> int, n: int, m: int)
    requires
        m > 0,
        forall|i: int| 0 <= i < n ==> #[trigger] f(i) % m == g(i) % m,
    ensures
        sum(f, n) % m == sum(g, n) % m,
    decreases n,
{
    if n > 0 {
        lemma_sum_congruent(f, g, n - 1, m);
        vstd::arithmetic::div_mod::lemma_add_mod_noop(sum(f, n - 1), f(n - 1), m);
        vstd::arithmetic::div_mod::lemma_add_mod_noop(sum(g, n - 1), g(n - 1), m);
    }
}

/// A sum with a single non-zero term at `col` is that term.
pub proof fn lemma_sum_single(f: spec_fn(int) -> int, n: int, col: int)
    requires
        0 <= col < n,
        forall|i: int| 0 <= i < n && i != col ==> #[trigger] f(i) == 0,
    ensures
        sum(f, n) == f(col),
    decreases n,
{
    if n - 1 > col {
        lemma_sum_single(f, n - 1, col);
    } else {
        lemma_sum_zero(f, n - 1);
    }
}

/// A sum of zero terms is zero.
pub proof fn lemma_sum_zero(f: spec_fn(int) -> int, n: int)
    requires
        forall|i: int| 0 <= i < n ==> #[trigger] f(i) == 0,
    ensures
        sum(f, n) == 0,
    decreases n,
{
    if n > 0 {
        lemma_sum_zero(f, n - 1);
    }
}

/// `Σ_i c·f(i) = c·Σ_i f(i)`.
pub proof fn lemma_sum_scale(f: spec_fn(int) -> int, c: int, n: int)
    ensures
        sum(|i: int| c * f(i), n) == c * sum(f, n),
    decreases n,
{
    if n > 0 {
        lemma_sum_scale(f, c, n - 1);
        vstd::arithmetic::mul::lemma_mul_is_distributive_add(c, sum(f, n - 1), f(n - 1));
    }
}

/// Finite double sums can be taken in either order.
pub proof fn lemma_sum_swap(f: spec_fn(int, int) -> int, rows: int, cols: int)
    ensures
        sum(|k: int| sum(|c: int| f(k, c), cols), rows) == sum(|c: int| sum(|k: int| f(k, c), rows), cols),
    decreases rows,
{
    if rows > 0 {
        lemma_sum_swap(f, rows - 1, cols);
        let g = |c: int| sum(|k: int| f(k, c), rows - 1);
        let h = |c: int| f(rows - 1, c);
        lemma_sum_add(g, h, cols);
        let full = |c: int| sum(|k: int| f(k, c), rows);
        let split = |c: int| g(c) + h(c);
        assert forall|c: int| 0 <= c < cols implies #[trigger] full(c) == split(c) by {
            assert(sum(|k: int| f(k, c), rows) == sum(|k: int| f(k, c), rows - 1) + f(rows - 1, c));
        }
        lemma_sum_ext(full, split, cols);
        let outer = |k: int| sum(|c: int| f(k, c), cols);
        assert(sum(outer, rows) == sum(outer, rows - 1) + outer(rows - 1));
        lemma_sum_ext(|c: int| f(rows - 1, c), h, cols);
        assert(outer(rows - 1) == sum(h, cols));
        assert(sum(outer, rows - 1) == sum(g, cols));
    } else {
        let inner = |c: int| sum(|k: int| f(k, c), rows);
        assert forall|c: int| 0 <= c < cols implies #[trigger] inner(c) == 0 by {}
        lemma_sum_zero(inner, cols);
    }
}

} // verus!
