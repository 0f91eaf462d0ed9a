//! Finite integer sums, the vocabulary in which every ring identity of the
//! library is stated.

use vstd::prelude::*;

verus! {

/// `f(lo) + f(lo + 1) + ... + f(hi - 1)`, zero when the range is empty.
pub open spec fn sum(lo: int, hi: int, f: spec_fn(int) -> int) -> int
    decreases hi - lo,
{
    if hi <= lo {
        0
    } else {
        sum(lo, hi - 1, f) + f(hi - 1)
    }
}

/// `a` and `b` leave the same remainder modulo `q`.
pub open spec fn cong(a: int, b: int, q: int) -> bool {
    (a - b) % q == 0
}

/// Sums of pointwise equal functions are equal.
pub proof fn sum_ext(lo: int, hi: int, f: spec_fn(int) -> int, g: spec_fn(int) -> int)
    requires
        forall|i: int| lo <= i < hi ==> #[trigger] f(i) == g(i),
    ensures
        sum(lo, hi, f) == sum(lo, hi, g),
    decreases hi - lo,
{
    if lo < hi {
        sum_ext(lo, hi - 1, f, g);
    }
}

/// A sum over shifted indices is the same sum.
pub proof fn sum_shift(
    lo: int,
    hi: int,
    d: int,
    f: spec_fn(int) -> int,
    g: spec_fn(int) -> int,
)
    requires
        forall|i: int| lo <= i < hi ==> #[trigger] f(i) == g(i + d),
    ensures
        sum(lo, hi, f) == sum(lo + d, hi + d, g),
    decreases hi - lo,
{
    if lo < hi {
        sum_shift(lo, hi - 1, d, f, g);
        assert(f(hi - 1) == g(hi - 1 + d));
    }
}

/// A range may be summed in two pieces.
pub proof fn sum_split(lo: int, mid: int, hi: int, f: spec_fn(int) -> int)
    requires
        lo <= mid <= hi,
    ensures
        sum(lo, hi, f) == sum(lo, mid, f) + sum(mid, hi, f),
    decreases hi - mid,
{
    if mid < hi {
        sum_split(lo, mid, hi - 1, f);
    }
}

/// The first term of a nonempty sum may be taken out.
pub proof fn sum_first(lo: int, hi: int, f: spec_fn(int) -> int)
    requires
        lo < hi,
    ensures
        sum(lo, hi, f) == f(lo) + sum(lo + 1, hi, f),
{
    sum_split(lo, lo + 1, hi, f);
    assert(sum(lo, lo + 1, f) == sum(lo, lo, f) + f(lo));
}

/// Summation distributes over pointwise addition.
pub proof fn sum_add(
    lo: int,
    hi: int,
    f: spec_fn(int) -> int,
    g: spec_fn(int) -> int,
    h: spec_fn(int) -> int,
)
    requires
        forall|i: int| lo <= i < hi ==> #[trigger] h(i) == f(i) + g(i),
    ensures
        sum(lo, hi, h) == sum(lo, hi, f) + sum(lo, hi, g),
    decreases hi - lo,
{
    if lo < hi {
        sum_add(lo, hi - 1, f, g, h);
    }
}

/// A constant factor may be taken out of a sum.
pub proof fn sum_scale(lo: int, hi: int, c: int, f: spec_fn(int) -> int, h: spec_fn(int) -> int)
    requires
        forall|i: int| lo <= i < hi ==> #[trigger] h(i) == c * f(i),
    ensures
        sum(lo, hi, h) == c * sum(lo, hi, f),
    decreases hi - lo,
{
    if lo < hi {
        sum_scale(lo, hi - 1, c, f, h);
        assert(c * sum(lo, hi - 1, f) + c * f(hi - 1) == c * (sum(lo, hi - 1, f) + f(hi - 1)))
            by (nonlinear_arith);
    } else {
        assert(c * 0 == 0) by (nonlinear_arith);
    }
}

/// A sum of zeros is zero.
pub proof fn sum_zero(lo: int, hi: int, f: spec_fn(int) -> int)
    requires
        forall|i: int| lo <= i < hi ==> #[trigger] f(i) == 0,
    ensures
        sum(lo, hi, f) == 0,
    decreases hi - lo,
{
    if lo < hi {
        sum_zero(lo, hi - 1, f);
    }
}

/// A sum with at most one nonzero term is that term.
pub proof fn sum_single(lo: int, hi: int, at: int, f: spec_fn(int) -> int)
    requires
        lo <= at < hi,
        forall|i: int| lo <= i < hi && i != at ==> #[trigger] f(i) == 0,
    ensures
        sum(lo, hi, f) == f(at),
{
    sum_split(lo, at, hi, f);
    sum_first(at, hi, f);
    sum_zero(lo, at, f);
    sum_zero(at + 1, hi, f);
}

/// Terms may be summed in consecutive pairs.
pub proof fn sum_pairs(n: int, f: spec_fn(int) -> int, h: spec_fn(int) -> int)
    requires
        n >= 0,
        forall|i: int| 0 <= i < n ==> #[trigger] h(i) == f(2 * i) + f(2 * i + 1),
    ensures
        sum(0, 2 * n, f) == sum(0, n, h),
    decreases n,
{
    if n > 0 {
        sum_pairs(n - 1, f, h);
        assert(sum(0, 2 * n, f) == sum(0, 2 * n - 1, f) + f(2 * n - 1));
        assert(sum(0, 2 * n - 1, f) == sum(0, 2 * n - 2, f) + f(2 * n - 2));
        assert(h(n - 1) == f(2 * (n - 1)) + f(2 * (n - 1) + 1));
    }
}

/// Terms may be summed in `n` consecutive groups of `m`.
pub proof fn sum_groups(n: int, m: int, f: spec_fn(int) -> int, h: spec_fn(int) -> int)
    requires
        n >= 0,
        m >= 0,
        forall|i: int| 0 <= i < n ==> #[trigger] h(i) == sum(i * m, i * m + m, f),
    ensures
        sum(0, n * m, f) == sum(0, n, h),
    decreases n,
{
    if n > 0 {
        sum_groups(n - 1, m, f, h);
        assert(n * m == (n - 1) * m + m) by (nonlinear_arith);
        assert((n - 1) * m >= 0) by (nonlinear_arith)
            requires
                n > 0,
                m >= 0,
        ;
        sum_split(0, (n - 1) * m, n * m, f);
        assert(h(n - 1) == sum((n - 1) * m, (n - 1) * m + m, f));
    } else {
        assert(n * m == 0) by (nonlinear_arith)
            requires
                n == 0,
        ;
    }
}

/// A rectangular double sum may be taken in either order.
pub proof fn sum_swap(n: int, m: int, f: spec_fn(int, int) -> int)
    requires
        n >= 0,
    ensures
        sum(0, n, |i: int| sum(0, m, |j: int| f(i, j))) == sum(
            0,
            m,
            |j: int| sum(0, n, |i: int| f(i, j)),
        ),
    decreases n,
{
    let rows = |i: int| sum(0, m, |j: int| f(i, j));
    let cols = |j: int| sum(0, n, |i: int| f(i, j));
    if n > 0 {
        sum_swap(n - 1, m, f);
        let prev = |j: int| sum(0, n - 1, |i: int| f(i, j));
        let last = |j: int| f(n - 1, j);
        assert forall|j: int| 0 <= j < m implies #[trigger] cols(j) == prev(j) + last(j) by {
            sum_ext(0, n - 1, |i: int| f(i, j), |i: int| f(i, j));
        }
        sum_add(0, m, prev, last, cols);
        sum_ext(0, m, last, |j: int| f(n - 1, j));
        sum_ext(0, n - 1, rows, |i: int| sum(0, m, |j: int| f(i, j)));
    } else {
        sum_zero(0, m, cols);
    }
}

/// Congruence is reflexive.
pub proof fn cong_refl(a: int, q: int)
    requires
        q > 0,
    ensures
        cong(a, a, q),
{
    vstd::arithmetic::div_mod::lemma_small_mod(0, q as nat);
}

/// Congruence is symmetric.
pub proof fn cong_sym(a: int, b: int, q: int)
    requires
        q > 0,
        cong(a, b, q),
    ensures
        cong(b, a, q),
{
    cong_iff(a, b, q);
    cong_iff(b, a, q);
}

/// Two numbers are congruent exactly when their remainders agree.
pub proof fn cong_iff(a: int, b: int, q: int)
    requires
        q > 0,
    ensures
        cong(a, b, q) <==> a % q == b % q,
{
    vstd::arithmetic::div_mod::lemma_mod_equivalence(a, b, q);
}

/// Congruence is transitive.
pub proof fn cong_trans(a: int, b: int, c: int, q: int)
    requires
        q > 0,
        cong(a, b, q),
        cong(b, c, q),
    ensures
        cong(a, c, q),
{
    cong_iff(a, b, q);
    cong_iff(b, c, q);
    cong_iff(a, c, q);
}

/// A number is congruent to its remainder.
pub proof fn cong_mod(a: int, q: int)
    requires
        q > 0,
    ensures
        cong(a % q, a, q),
{
    vstd::arithmetic::div_mod::lemma_mod_twice(a, q);
    cong_iff(a % q, a, q);
}

/// Congruent numbers may be added and subtracted.
pub proof fn cong_add(a: int, b: int, c: int, d: int, q: int)
    requires
        q > 0,
        cong(a, b, q),
        cong(c, d, q),
    ensures
        cong(a + c, b + d, q),
        cong(a - c, b - d, q),
{
    vstd::arithmetic::div_mod::lemma_add_mod_noop(a - b, c - d, q);
    vstd::arithmetic::div_mod::lemma_sub_mod_noop(a - b, c - d, q);
    assert((a + c) - (b + d) == (a - b) + (c - d));
    assert((a - c) - (b - d) == (a - b) - (c - d));
    vstd::arithmetic::div_mod::lemma_small_mod(0, q as nat);
}

/// Congruent numbers may be multiplied.
pub proof fn cong_mul(a: int, b: int, c: int, d: int, q: int)
    requires
        q > 0,
        cong(a, b, q),
        cong(c, d, q),
    ensures
        cong(a * c, b * d, q),
{
    vstd::arithmetic::div_mod::lemma_mul_mod_noop(a, c, q);
    vstd::arithmetic::div_mod::lemma_mul_mod_noop(b, d, q);
    cong_iff(a, b, q);
    cong_iff(c, d, q);
    cong_iff(a * c, b * d, q);
}

/// Sums of pointwise congruent functions are congruent.
pub proof fn sum_cong(lo: int, hi: int, f: spec_fn(int) -> int, g: spec_fn(int) -> int, q: int)
    requires
        q > 0,
        forall|i: int| lo <= i < hi ==> cong(#[trigger] f(i), g(i), q),
    ensures
        cong(sum(lo, hi, f), sum(lo, hi, g), q),
    decreases hi - lo,
{
    if lo < hi {
        sum_cong(lo, hi - 1, f, g, q);
        cong_add(sum(lo, hi - 1, f), sum(lo, hi - 1, g), f(hi - 1), g(hi - 1), q);
    } else {
        cong_refl(0, q);
    }
}

/// Sums of functions that differ at one index differ by as much.
pub proof fn sum_differs_at(
    lo: int,
    hi: int,
    at: int,
    f: spec_fn(int) -> int,
    g: spec_fn(int) -> int,
)
    requires
        lo <= at < hi,
        forall|i: int| lo <= i < hi && i != at ==> #[trigger] f(i) == g(i),
    ensures
        sum(lo, hi, f) - sum(lo, hi, g) == f(at) - g(at),
{
    sum_split(lo, at, hi, f);
    sum_split(lo, at, hi, g);
    sum_first(at, hi, f);
    sum_first(at, hi, g);
    sum_ext(lo, at, f, g);
    sum_ext(at + 1, hi, f, g);
}

} // verus!
