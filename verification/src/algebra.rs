//! The ring operations as algebra: what products, sums and representatives are,
//! whatever way they are computed.

use crate::negacyclic::{conv, conv_term};
use crate::r64::{
    center_spec, dot_coeff, ints, reduced, ring_add, ring_const_neg, ring_mul, ring_phi, ring_zero,
    uncenter_spec,
};
use crate::ring::{element, half, halves, ring_coeffs, ring_product, Halves, RingElement};
use crate::sums::{cong, cong_mod, sum, sum_add, sum_ext, sum_scale, sum_single};
use vstd::arithmetic::div_mod::lemma_mod_bound;
use vstd::prelude::*;

verus! {

/// The power `i` of the variable, in a ring of degree `n`.
pub open spec fn power(n: nat, i: int) -> Seq<int> {
    Seq::new(
        n,
        |m: int|
            if m == i {
                1
            } else {
                0
            },
    )
}

/// Powers multiply by adding their exponents, and the power `n` is minus one.
/// With `law_product_is_bilinear` this fixes every product.
pub proof fn law_product_of_powers(n: nat, i: int, j: int, k: int)
    requires
        0 <= i < n,
        0 <= j < n,
        0 <= k < n,
    ensures
        conv(power(n, i), power(n, j), k) == if i + j == k {
            1
        } else if i + j == k + n {
            -1int
        } else {
            0
        },
{
    let a = power(n, i);
    let b = power(n, j);
    let f = |m: int| conv_term(a, b, k, m);
    assert forall|m: int| 0 <= m < n && m != i implies #[trigger] f(m) == 0 by {
        assert(a[m] == 0);
        if m <= k {
            assert(0 * b[k - m] == 0) by (nonlinear_arith);
        } else {
            assert(0 * b[n + k - m] == 0) by (nonlinear_arith);
        }
    }
    sum_single(0, n as int, i, f);
    assert(a[i] == 1);
}

/// Products add up and scale in both factors.
pub proof fn law_product_is_bilinear(
    a: Seq<int>,
    a1: Seq<int>,
    a2: Seq<int>,
    b: Seq<int>,
    x: int,
    y: int,
    k: int,
)
    requires
        a1.len() == a.len(),
        a2.len() == a.len(),
        b.len() == a.len(),
        0 <= k < a.len(),
        forall|i: int| 0 <= i < a.len() ==> #[trigger] a[i] == x * a1[i] + y * a2[i],
    ensures
        conv(a, b, k) == x * conv(a1, b, k) + y * conv(a2, b, k),
        conv(b, a, k) == x * conv(b, a1, k) + y * conv(b, a2, k),
{
    let n = a.len() as int;
    left_bilinear(a, a1, a2, b, x, y, k);
    let h = |i: int| conv_term(b, a, k, i);
    let f1 = |i: int| conv_term(b, a1, k, i);
    let f2 = |i: int| conv_term(b, a2, k, i);
    let g1 = |i: int| x * f1(i);
    let g2 = |i: int| y * f2(i);
    assert forall|i: int| 0 <= i < n implies #[trigger] h(i) == g1(i) + g2(i) by {
        let m = if i <= k {
            k - i
        } else {
            n + k - i
        };
        assert(a[m] == x * a1[m] + y * a2[m]);
        let c = b[i];
        let u = a1[m];
        let v = a2[m];
        assert(c * (x * u + y * v) == x * (c * u) + y * (c * v)) by (nonlinear_arith);
        assert(-(x * (c * u) + y * (c * v)) == x * (-(c * u)) + y * (-(c * v)))
            by (nonlinear_arith);
    }
    sum_add(0, n, g1, g2, h);
    sum_scale(0, n, x, f1, g1);
    sum_scale(0, n, y, f2, g2);
}

/// Products add up and scale in the first factor.
proof fn left_bilinear(
    a: Seq<int>,
    a1: Seq<int>,
    a2: Seq<int>,
    b: Seq<int>,
    x: int,
    y: int,
    k: int,
)
    requires
        a1.len() == a.len(),
        a2.len() == a.len(),
        b.len() == a.len(),
        0 <= k < a.len(),
        forall|i: int| 0 <= i < a.len() ==> #[trigger] a[i] == x * a1[i] + y * a2[i],
    ensures
        conv(a, b, k) == x * conv(a1, b, k) + y * conv(a2, b, k),
{
    let n = a.len() as int;
    let h = |i: int| conv_term(a, b, k, i);
    let f1 = |i: int| conv_term(a1, b, k, i);
    let f2 = |i: int| conv_term(a2, b, k, i);
    let g1 = |i: int| x * f1(i);
    let g2 = |i: int| y * f2(i);
    assert forall|i: int| 0 <= i < n implies #[trigger] h(i) == g1(i) + g2(i) by {
        let m = if i <= k {
            k - i
        } else {
            n + k - i
        };
        let c = b[m];
        let u = a1[i];
        let v = a2[i];
        assert(a[i] == x * u + y * v);
        assert((x * u + y * v) * c == x * (u * c) + y * (v * c)) by (nonlinear_arith);
        assert(-(x * (u * c) + y * (v * c)) == x * (-(u * c)) + y * (-(v * c)))
            by (nonlinear_arith);
    }
    sum_add(0, n, g1, g2, h);
    sum_scale(0, n, x, f1, g1);
    sum_scale(0, n, y, f2, g2);
}

/// Sums, products and negated constants are residues, congruent to the integer
/// results, and zero is all zeros.
pub proof fn law_ring_operations(a: Seq<u64>, b: Seq<u64>, v: u64, q: u64, k: int)
    requires
        q > 0,
        a.len() == 64,
        b.len() == 64,
        0 <= k < 64,
    ensures
        ring_add(a, b, q).len() == 64,
        ring_add(a, b, q)[k] < q,
        cong(ring_add(a, b, q)[k] as int, a[k] + b[k], q as int),
        ring_mul(a, b, q).len() == 64,
        ring_mul(a, b, q)[k] < q,
        cong(ring_mul(a, b, q)[k] as int, conv(ints(a), ints(b), k), q as int),
        ring_const_neg(v, q).len() == 64,
        ring_const_neg(v, q)[0] < q,
        cong(ring_const_neg(v, q)[0] + v, 0, q as int),
        k > 0 ==> ring_const_neg(v, q)[k] == 0,
        ring_zero().len() == 64,
        ring_zero()[k] == 0,
{
    let m = q as int;
    cong_mod(a[k] + b[k], m);
    cong_mod(conv(ints(a), ints(b), k), m);
    cong_mod(0 - v as int, m);
    lemma_mod_bound(a[k] + b[k], m);
    lemma_mod_bound(conv(ints(a), ints(b), k), m);
    lemma_mod_bound(0 - v as int, m);
}

/// The product of two ring elements has residues as coefficients, congruent to
/// those of the integer product of degree 128.
pub proof fn law_ring_product(a: RingElement, b: RingElement, q: u64, m: int)
    requires
        q > 0,
        0 <= m < 128,
    ensures
        element(ring_product(halves(a), halves(b), q)).len() == 128,
        0 <= element(ring_product(halves(a), halves(b), q))[m] < q,
        cong(
            element(ring_product(halves(a), halves(b), q))[m],
            conv(ring_coeffs(a), ring_coeffs(b), m),
            q as int,
        ),
{
    let x = conv(ring_coeffs(a), ring_coeffs(b), m);
    cong_mod(x, q as int);
    lemma_mod_bound(x, q as int);
    assert(m == 2 * (m / 2) || m == 2 * (m / 2) + 1);
}

/// Part zero takes the even half, any other part the odd one. The factors of an
/// odd half are the halves swapped, those of an even half the even one and `Y`
/// times the odd one.
pub proof fn law_parts(p: Halves, part: int, q: u64)
    requires
        q > 0,
        p.0.len() == 64,
        p.1.len() == 64,
    ensures
        half(p, 0) == p.0,
        part != 0 ==> half(p, part) == p.1,
        part != 0 ==> ring_phi(p.0, p.1, part, q) == (p.1, p.0),
        ring_phi(p.0, p.1, 0, q).0 == p.0,
        ring_phi(p.0, p.1, 0, q).1.len() == 64,
        cong(ring_phi(p.0, p.1, 0, q).1[0] as int, -(p.1[63] as int), q as int),
        forall|k: int| 1 <= k < 64 ==> #[trigger] ring_phi(p.0, p.1, 0, q).1[k] == p.1[k - 1],
        reduced(p.0, q) && reduced(p.1, q) ==> reduced(ring_phi(p.0, p.1, part, q).0, q)
            && reduced(ring_phi(p.0, p.1, part, q).1, q),
{
    cong_mod(0 - p.1[63] as int, q as int);
    lemma_mod_bound(0 - p.1[63] as int, q as int);
}

/// An inner product adds up the products of the elements that both lists have.
pub proof fn law_dot(
    phis: Seq<Seq<u64>>,
    ss: Seq<Seq<u64>>,
    more: Seq<Seq<u64>>,
    x: Seq<u64>,
    y: Seq<u64>,
    k: int,
)
    requires
        phis.len() == ss.len(),
    ensures
        dot_coeff(Seq::empty(), more, k) == 0,
        dot_coeff(phis.push(x), ss.push(y), k) == dot_coeff(phis, ss, k) + conv(
            ints(x),
            ints(y),
            k,
        ),
        dot_coeff(phis + more, ss, k) == dot_coeff(phis, ss, k),
        dot_coeff(phis, ss + more, k) == dot_coeff(phis, ss, k),
{
    let n = phis.len() as int;
    let f = |i: int| conv(ints(phis[i]), ints(ss[i]), k);
    let g = |i: int| conv(ints(phis.push(x)[i]), ints(ss.push(y)[i]), k);
    let g1 = |i: int| conv(ints((phis + more)[i]), ints(ss[i]), k);
    let g2 = |i: int| conv(ints(phis[i]), ints((ss + more)[i]), k);
    sum_ext(0, n, f, g);
    sum_ext(0, n, f, g1);
    sum_ext(0, n, f, g2);
    assert(phis.push(x)[n] == x && ss.push(y)[n] == y);
    assert(sum(0, n + 1, g) == sum(0, n, g) + g(n));
}

/// A signed number that is not negative is its own word. The modulus is added
/// to a negative one, and what is still negative wraps around.
pub proof fn law_uncenter(v: i64, q: u64)
    requires
        q <= i64::MAX,
    ensures
        v >= 0 ==> uncenter_spec(v as int, q) == v,
        v < 0 && v + q >= 0 ==> uncenter_spec(v as int, q) == v + q,
        v + q < 0 ==> uncenter_spec(v as int, q) == v + q + 0x1_0000_0000_0000_0000,
{
}

/// A word is represented by itself up to half the modulus, and above that by
/// itself less the modulus, once it is read as a signed number.
pub proof fn law_center(v: u64, q: u64)
    requires
        q <= i64::MAX,
    ensures
        2 * v <= q ==> center_spec(v, q) == v,
        q < 2 * v && v <= i64::MAX ==> center_spec(v, q) == v - q,
        v > i64::MAX ==> center_spec(v, q) == v - 0x1_0000_0000_0000_0000 - q,
{
}

} // verus!
