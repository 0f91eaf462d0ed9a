//! Multiplication in `Z[Y] / (Y^n + 1)`, coefficient by coefficient, and how a
//! ring of twice the degree splits into even and odd coefficients.

use crate::sums::{
    cong, cong_add, cong_mul, cong_refl, sum, sum_add, sum_cong, sum_differs_at, sum_first, sum_pairs,
    sum_shift, sum_single, sum_zero,
};
use vstd::prelude::*;

verus! {

/// What `a[i]` contributes to coefficient `k` of the product of `a` and `b`:
/// a power of `Y` that reaches `n` comes back with a minus sign.
pub open spec fn conv_term(a: Seq<int>, b: Seq<int>, k: int, i: int) -> int {
    if i <= k {
        a[i] * b[k - i]
    } else {
        -(a[i] * b[a.len() + k - i])
    }
}

/// Coefficient `k` of the product of `a` and `b` modulo `Y^n + 1`, `n` being
/// the length of `a`.
pub open spec fn conv(a: Seq<int>, b: Seq<int>, k: int) -> int {
    sum(0, a.len() as int, |i: int| conv_term(a, b, k, i))
}

/// `Y * a` modulo `Y^n + 1`.
pub open spec fn times_y(a: Seq<int>) -> Seq<int> {
    Seq::new(
        a.len(),
        |i: int|
            if i == 0 {
                -a[a.len() - 1]
            } else {
                a[i - 1]
            },
    )
}

/// The element whose even coefficients are `e` and whose odd ones are `o`.
pub open spec fn interleave(e: Seq<int>, o: Seq<int>) -> Seq<int> {
    Seq::new(
        2 * e.len(),
        |i: int|
            if i % 2 == 0 {
                e[i / 2]
            } else {
                o[i / 2]
            },
    )
}

/// All coefficients of `a` and `b` are congruent.
pub open spec fn seq_cong(a: Seq<int>, b: Seq<int>, q: int) -> bool {
    &&& a.len() == b.len()
    &&& forall|i: int| 0 <= i < a.len() ==> cong(#[trigger] a[i], b[i], q)
}

/// Products of congruent elements are congruent.
pub proof fn conv_cong(a: Seq<int>, a2: Seq<int>, b: Seq<int>, b2: Seq<int>, k: int, q: int)
    requires
        q > 0,
        seq_cong(a, a2, q),
        seq_cong(b, b2, q),
        a.len() == b.len(),
        0 <= k < a.len(),
    ensures
        cong(conv(a, b, k), conv(a2, b2, k), q),
{
    let f = |i: int| conv_term(a, b, k, i);
    let g = |i: int| conv_term(a2, b2, k, i);
    let n = a.len() as int;
    assert forall|i: int| 0 <= i < n implies cong(#[trigger] f(i), g(i), q) by {
        if i <= k {
            assert(cong(b[k - i], b2[k - i], q));
            cong_mul(a[i], a2[i], b[k - i], b2[k - i], q);
        } else {
            assert(cong(b[n + k - i], b2[n + k - i], q));
            cong_mul(a[i], a2[i], b[n + k - i], b2[n + k - i], q);
            cong_refl(0, q);
            cong_add(0, 0, a[i] * b[n + k - i], a2[i] * b2[n + k - i], q);
        }
    }
    sum_cong(0, n, f, g, q);
}

/// The zero element annihilates.
pub proof fn conv_zero(a: Seq<int>, b: Seq<int>, k: int)
    requires
        forall|i: int| 0 <= i < a.len() ==> #[trigger] a[i] == 0,
    ensures
        conv(a, b, k) == 0,
{
    let f = |i: int| conv_term(a, b, k, i);
    assert forall|i: int| 0 <= i < a.len() implies #[trigger] f(i) == 0 by {
        if i <= k {
            assert(a[i] * b[k - i] == 0) by (nonlinear_arith)
                requires
                    a[i] == 0,
            ;
        } else {
            assert(a[i] * b[a.len() + k - i] == 0) by (nonlinear_arith)
                requires
                    a[i] == 0,
            ;
        }
    }
    sum_zero(0, a.len() as int, f);
}

/// A constant scales every coefficient.
pub proof fn conv_const(a: Seq<int>, b: Seq<int>, k: int)
    requires
        forall|i: int| 1 <= i < a.len() ==> #[trigger] a[i] == 0,
        0 <= k < a.len(),
    ensures
        conv(a, b, k) == a[0] * b[k],
{
    let f = |i: int| conv_term(a, b, k, i);
    assert forall|i: int| 0 <= i < a.len() && i != 0 implies #[trigger] f(i) == 0 by {
        if i <= k {
            assert(a[i] * b[k - i] == 0) by (nonlinear_arith)
                requires
                    a[i] == 0,
            ;
        } else {
            assert(a[i] * b[a.len() + k - i] == 0) by (nonlinear_arith)
                requires
                    a[i] == 0,
            ;
        }
    }
    sum_single(0, a.len() as int, 0, f);
}

/// Multiplying by the monomial `Y` shifts the coefficients.
pub proof fn conv_monomial(y: Seq<int>, b: Seq<int>, k: int)
    requires
        y.len() == b.len(),
        y.len() >= 2,
        y[1] == 1,
        forall|i: int| 0 <= i < y.len() && i != 1 ==> #[trigger] y[i] == 0,
        0 <= k < y.len(),
    ensures
        conv(y, b, k) == times_y(b)[k],
{
    let f = |i: int| conv_term(y, b, k, i);
    assert forall|i: int| 0 <= i < y.len() && i != 1 implies #[trigger] f(i) == 0 by {
        if i <= k {
            assert(y[i] * b[k - i] == 0) by (nonlinear_arith)
                requires
                    y[i] == 0,
            ;
        } else {
            assert(y[i] * b[y.len() + k - i] == 0) by (nonlinear_arith)
                requires
                    y[i] == 0,
            ;
        }
    }
    sum_single(0, y.len() as int, 1, f);
}

/// Multiplying a factor by `Y` first puts its last term in front.
proof fn conv_times_y(a: Seq<int>, b: Seq<int>, k: int)
    requires
        a.len() == b.len(),
        0 <= k < a.len(),
    ensures
        conv(times_y(a), b, k) == sum(0, a.len() as int, |i: int| shifted_term(a, b, k, i)),
{
    let n = a.len() as int;
    let f = |i: int| conv_term(times_y(a), b, k, i);
    let g = |i: int| shifted_term(a, b, k, i);
    sum_first(0, n, f);
    assert forall|i: int| 0 <= i < n - 1 implies #[trigger] g(i) == f(i + 1) by {}
    sum_shift(0, n - 1, 1, g, f);
    assert(f(0) == times_y(a)[0] * b[k]);
    assert(g(n - 1) == -(a[n - 1] * b[k]));
    assert((-a[n - 1]) * b[k] == -(a[n - 1] * b[k])) by (nonlinear_arith);
}

/// What `a[i]` contributes to coefficient `k` of `Y * a * b`.
spec fn shifted_term(a: Seq<int>, b: Seq<int>, k: int, i: int) -> int {
    if i < k {
        a[i] * b[k - 1 - i]
    } else {
        -(a[i] * b[a.len() + k - 1 - i])
    }
}

/// Even coefficients of a product in the ring of twice the degree.
pub proof fn conv_even(ae: Seq<int>, ao: Seq<int>, be: Seq<int>, bo: Seq<int>, k: int)
    requires
        ae.len() == ao.len(),
        be.len() == ae.len(),
        bo.len() == ae.len(),
        0 <= k < ae.len(),
    ensures
        conv(interleave(ae, ao), interleave(be, bo), 2 * k) == conv(ae, be, k) + conv(
            times_y(ao),
            bo,
            k,
        ),
{
    let n = ae.len() as int;
    let a = interleave(ae, ao);
    let b = interleave(be, bo);
    let f = |i: int| conv_term(a, b, 2 * k, i);
    let ge = |i: int| conv_term(ae, be, k, i);
    let go = |i: int| shifted_term(ao, bo, k, i);
    let h = |i: int| f(2 * i) + f(2 * i + 1);
    assert forall|i: int| 0 <= i < n implies #[trigger] h(i) == ge(i) + go(i) by {
        assert(a[2 * i] == ae[i]);
        assert(a[2 * i + 1] == ao[i]);
        if i <= k {
            assert(b[2 * k - 2 * i] == be[k - i]);
        } else {
            assert(b[2 * n + 2 * k - 2 * i] == be[n + k - i]);
        }
        if i < k {
            assert(b[2 * k - (2 * i + 1)] == bo[k - 1 - i]);
        } else {
            assert(b[2 * n + 2 * k - (2 * i + 1)] == bo[n + k - 1 - i]);
        }
    }
    sum_pairs(n, f, h);
    sum_add(0, n, ge, go, h);
    conv_times_y(ao, bo, k);
}

/// Odd coefficients of a product in the ring of twice the degree.
pub proof fn conv_odd(ae: Seq<int>, ao: Seq<int>, be: Seq<int>, bo: Seq<int>, k: int)
    requires
        ae.len() == ao.len(),
        be.len() == ae.len(),
        bo.len() == ae.len(),
        0 <= k < ae.len(),
    ensures
        conv(interleave(ae, ao), interleave(be, bo), 2 * k + 1) == conv(ao, be, k) + conv(
            ae,
            bo,
            k,
        ),
{
    let n = ae.len() as int;
    let a = interleave(ae, ao);
    let b = interleave(be, bo);
    let f = |i: int| conv_term(a, b, 2 * k + 1, i);
    let ge = |i: int| conv_term(ao, be, k, i);
    let go = |i: int| conv_term(ae, bo, k, i);
    let h = |i: int| f(2 * i) + f(2 * i + 1);
    assert forall|i: int| 0 <= i < n implies #[trigger] h(i) == ge(i) + go(i) by {
        assert(a[2 * i] == ae[i]);
        assert(a[2 * i + 1] == ao[i]);
        if i <= k {
            assert(b[2 * k + 1 - 2 * i] == bo[k - i]);
            assert(b[2 * k + 1 - (2 * i + 1)] == be[k - i]);
        } else {
            assert(b[2 * n + 2 * k + 1 - 2 * i] == bo[n + k - i]);
            assert(b[2 * n + 2 * k + 1 - (2 * i + 1)] == be[n + k - i]);
        }
    }
    sum_pairs(n, f, h);
    sum_add(0, n, ge, go, h);
}

/// Changing coefficient `r` of a factor changes coefficient `r + s` of the
/// product by that much times coefficient `s` of the other factor, with a minus
/// sign where the power wraps around.
pub proof fn conv_differs(a: Seq<int>, b: Seq<int>, b2: Seq<int>, r: int, s: int)
    requires
        a.len() == b.len(),
        b2.len() == b.len(),
        0 <= r < b.len(),
        0 <= s < a.len(),
        forall|i: int| 0 <= i < b.len() && i != r ==> #[trigger] b2[i] == b[i],
    ensures
        r + s < a.len() ==> conv(a, b2, r + s) - conv(a, b, r + s) == a[s] * (b2[r] - b[r]),
        r + s >= a.len() ==> conv(a, b2, r + s - a.len()) - conv(a, b, r + s - a.len()) == -(a[s]
            * (b2[r] - b[r])),
{
    let n = a.len() as int;
    let k = if r + s < n {
        r + s
    } else {
        r + s - n
    };
    let f = |i: int| conv_term(a, b2, k, i);
    let g = |i: int| conv_term(a, b, k, i);
    assert forall|i: int| 0 <= i < n && i != s implies #[trigger] f(i) == g(i) by {
        if i <= k {
            assert(b2[k - i] == b[k - i]);
        } else {
            assert(b2[n + k - i] == b[n + k - i]);
        }
    }
    sum_differs_at(0, n, s, f, g);
    let x = a[s];
    let y = b2[r];
    let z = b[r];
    assert(x * y - x * z == x * (y - z)) by (nonlinear_arith);
}

} // verus!
