//! The ring `Z_q[Y] / (Y^64 + 1)`: elements are arrays of 64 coefficients,
//! lowest power first, and `q` is the modulus of the chain.

use crate::modular::{add_mod, multiply_mod, sub_mod};
use crate::negacyclic::{
    conv, conv_even, conv_monomial, conv_odd, conv_term, interleave, seq_cong, times_y,
};
use crate::sums::{cong, cong_add, cong_mod, cong_refl, sum};
use vstd::arithmetic::div_mod::{
    lemma_add_mod_noop, lemma_mod_bound, lemma_small_mod, lemma_sub_mod_noop,
};
use vstd::prelude::*;

verus! {

/// Number of coefficients of a ring element.
pub const N: usize = 64;

/// A ring element.
pub type R64 = [u64; 64];

/// The coefficients of an element as integers.
pub open spec fn ints(a: Seq<u64>) -> Seq<int> {
    Seq::new(a.len(), |i: int| a[i] as int)
}

/// The coefficients of each element of a list.
pub open spec fn views(s: Seq<R64>) -> Seq<Seq<u64>> {
    Seq::new(s.len(), |i: int| s[i]@)
}

/// Every coefficient is a residue modulo `q`.
pub open spec fn reduced(a: Seq<u64>, q: u64) -> bool {
    forall|i: int| 0 <= i < a.len() ==> #[trigger] a[i] < q
}

/// The zero element.
pub open spec fn ring_zero() -> Seq<u64> {
    Seq::new(64, |i: int| 0u64)
}

/// The sum of two elements.
pub open spec fn ring_add(a: Seq<u64>, b: Seq<u64>, q: u64) -> Seq<u64> {
    Seq::new(64, |i: int| ((a[i] as int + b[i] as int) % (q as int)) as u64)
}

/// The constant `-v`.
pub open spec fn ring_const_neg(v: u64, q: u64) -> Seq<u64> {
    Seq::new(
        64,
        |i: int|
            if i == 0 {
                ((0 - v as int) % (q as int)) as u64
            } else {
                0u64
            },
    )
}

/// `Y * a`, with the coefficient that wraps around negated modulo `q`.
pub open spec fn ring_shift(a: Seq<u64>, q: u64) -> Seq<u64> {
    Seq::new(
        64,
        |i: int|
            if i == 0 {
                ((0 - a[63] as int) % (q as int)) as u64
            } else {
                a[i - 1]
            },
    )
}

/// The two factors by which the even and odd half of an element are
/// multiplied to get the even (`part` 0) or odd half of its product with
/// `(e, o)`.
pub open spec fn ring_phi(e: Seq<u64>, o: Seq<u64>, part: int, q: u64) -> (Seq<u64>, Seq<u64>) {
    if part == 0 {
        (e, ring_shift(o, q))
    } else {
        (o, e)
    }
}

/// The product of two elements.
pub open spec fn ring_mul(a: Seq<u64>, b: Seq<u64>, q: u64) -> Seq<u64> {
    Seq::new(64, |k: int| (conv(ints(a), ints(b), k) % (q as int)) as u64)
}

/// Coefficient `k` of the inner product of two lists of elements, the longer
/// one cut to the length of the other, before reduction.
pub open spec fn dot_coeff(phis: Seq<Seq<u64>>, ss: Seq<Seq<u64>>, k: int) -> int {
    sum(
        0,
        if phis.len() <= ss.len() {
            phis.len() as int
        } else {
            ss.len() as int
        },
        |i: int| conv(ints(phis[i]), ints(ss[i]), k),
    )
}

/// The value of a 64-bit word read as a two's complement number.
pub open spec fn signed(v: u64) -> int {
    if v <= i64::MAX {
        v as int
    } else {
        v as int - 0x1_0000_0000_0000_0000
    }
}

/// The representative of `v` that `center` picks.
pub open spec fn center_spec(v: u64, q: u64) -> int {
    if v > q / 2 {
        signed(v) - q as int
    } else {
        signed(v)
    }
}

/// The word that `uncenter` gives for `v`.
pub open spec fn uncenter_spec(v: int, q: u64) -> int {
    (if v < 0 {
        v + q as int
    } else {
        v
    }) % 0x1_0000_0000_0000_0000
}

/// The zero element.
pub fn zero() -> (r: R64)
    ensures
        r@ == ring_zero(),
{
    let r: R64 = [0u64; 64];
    assert(r@ =~= ring_zero());
    r
}

/// The sum of `a` and `b`.
pub fn add(a: &R64, b: &R64, q: u64) -> (r: R64)
    requires
        q > 0,
    ensures
        r@ == ring_add(a@, b@, q),
        reduced(r@, q),
{
    let mut r = zero();
    for i in 0..64usize
        invariant
            q > 0,
            forall|k: int| 0 <= k < i ==> r@[k] == ring_add(a@, b@, q)[k],
            forall|k: int| 0 <= k < i ==> #[trigger] r@[k] < q,
    {
        r[i] = add_mod(a[i], b[i], q);
    }
    assert(r@ =~= ring_add(a@, b@, q));
    r
}

/// The constant element `-v`.
pub fn const_elem_neg(v: u64, q: u64) -> (r: R64)
    requires
        q > 0,
    ensures
        r@ == ring_const_neg(v, q),
        reduced(r@, q),
{
    let mut r = zero();
    r[0] = sub_mod(0, v, q);
    assert(r@ =~= ring_const_neg(v, q));
    r
}

/// The element `Y * a`.
pub fn shift_y(a: &R64, q: u64) -> (r: R64)
    requires
        q > 0,
    ensures
        r@ == ring_shift(a@, q),
        reduced(a@, q) ==> reduced(r@, q),
{
    let mut r = zero();
    r[0] = sub_mod(0, a[63], q);
    for i in 1..64usize
        invariant
            r@[0] == ring_shift(a@, q)[0],
            forall|k: int| 0 <= k < i ==> #[trigger] r@[k] == ring_shift(a@, q)[k],
    {
        r[i] = a[i - 1];
    }
    assert(r@ =~= ring_shift(a@, q));
    proof {
        lemma_mod_bound(0 - a@[63] as int, q as int);
    }
    r
}

/// The factors of the even and odd half of an element in one half of its
/// product with the element whose halves are `a_e` and `a_o`.
pub fn phi_for_part(a_e: &R64, a_o: &R64, part: usize, q: u64) -> (r: (R64, R64))
    requires
        q > 0,
    ensures
        (r.0@, r.1@) == ring_phi(a_e@, a_o@, part as int, q),
{
    if part == 0 {
        (*a_e, shift_y(a_o, q))
    } else {
        (*a_o, *a_e)
    }
}

/// The product of `a` and `b`.
pub fn mul(a: &R64, b: &R64, q: u64) -> (r: R64)
    requires
        q > 0,
    ensures
        r@ == ring_mul(a@, b@, q),
        reduced(r@, q),
{
    let mut acc = zero();
    let ghost x = ints(a@);
    let ghost y = ints(b@);
    proof {
        lemma_small_mod(0, q as nat);
    }
    for i in 0..64usize
        invariant
            q > 0,
            x == ints(a@),
            y == ints(b@),
            forall|k: int|
                0 <= k < 64 ==> #[trigger] acc@[k] == sum(
                    0,
                    i as int,
                    |t: int| conv_term(x, y, k, t),
                ) % (q as int),
    {
        let ghost before = acc@;
        for j in 0..64usize
            invariant
                q > 0,
                i < 64,
                x == ints(a@),
                y == ints(b@),
                forall|k: int|
                    0 <= k < 64 ==> #[trigger] before[k] == sum(
                        0,
                        i as int,
                        |t: int| conv_term(x, y, k, t),
                    ) % (q as int),
                forall|k: int|
                    0 <= k < 64 ==> #[trigger] acc@[k] == if slot_source(i as int, k) < j {
                        sum(0, i + 1, |t: int| conv_term(x, y, k, t)) % (q as int)
                    } else {
                        before[k] as int
                    },
        {
            let p = multiply_mod(a[i], b[j], q);
            let idx = i + j;
            let ghost k: int = if idx < 64 {
                idx as int
            } else {
                idx as int - 64
            };
            let ghost prior = acc@;
            proof {
                let f = |t: int| conv_term(x, y, k, t);
                assert(slot_source(i as int, k) == j);
                assert(sum(0, i + 1, f) == sum(0, i as int, f) + f(i as int));
                let s = sum(0, i as int, f);
                let m = x[i as int] * y[j as int];
                lemma_add_mod_noop(s, m, q as int);
                lemma_sub_mod_noop(s, m, q as int);
                vstd::arithmetic::div_mod::lemma_mod_twice(s, q as int);
                vstd::arithmetic::div_mod::lemma_mod_twice(m, q as int);
                lemma_add_mod_noop(s % (q as int), m % (q as int), q as int);
                lemma_sub_mod_noop(s % (q as int), m % (q as int), q as int);
            }
            if idx < 64 {
                acc[idx] = add_mod(acc[idx], p, q);
            } else {
                acc[idx - 64] = sub_mod(acc[idx - 64], p, q);
            }
            assert forall|k2: int| 0 <= k2 < 64 implies #[trigger] acc@[k2] == if slot_source(
                i as int,
                k2,
            ) < j + 1 {
                sum(0, i + 1, |t: int| conv_term(x, y, k2, t)) % (q as int)
            } else {
                before[k2] as int
            } by {
                if k2 != k {
                    assert(acc@[k2] == prior[k2]);
                    assert(slot_source(i as int, k2) != j);
                }
            }
        }
    }
    assert forall|k: int| 0 <= k < 64 implies #[trigger] acc@[k] == ring_mul(a@, b@, q)[k]
        && acc@[k] < q by {
        lemma_mod_bound(sum(0, 64, |t: int| conv_term(x, y, k, t)), q as int);
    }
    assert(acc@ =~= ring_mul(a@, b@, q));
    acc
}

/// The index `j` with `i + j` equal to `k` modulo 64.
spec fn slot_source(i: int, k: int) -> int {
    if k >= i {
        k - i
    } else {
        64 + k - i
    }
}

/// The inner product of `phis` and `ss`; surplus elements of the longer list
/// are ignored.
pub fn dot(phis: &[R64], ss: &[R64], q: u64) -> (r: R64)
    requires
        q > 0,
    ensures
        forall|k: int|
            0 <= k < 64 ==> #[trigger] r@[k] == dot_coeff(views(phis@), views(ss@), k) % (q as int),
        reduced(r@, q),
{
    let mut acc = zero();
    let n: usize = if phis.len() <= ss.len() {
        phis.len()
    } else {
        ss.len()
    };
    let ghost vp = views(phis@);
    let ghost vs = views(ss@);
    proof {
        lemma_small_mod(0, q as nat);
    }
    for i in 0..n
        invariant
            q > 0,
            n <= phis@.len(),
            n <= ss@.len(),
            vp == views(phis@),
            vs == views(ss@),
            reduced(acc@, q),
            forall|k: int|
                0 <= k < 64 ==> #[trigger] acc@[k] == sum(
                    0,
                    i as int,
                    |t: int| conv(ints(vp[t]), ints(vs[t]), k),
                ) % (q as int),
    {
        let m = self::mul(&phis[i], &ss[i], q);
        let ghost before = acc@;
        acc = self::add(&acc, &m, q);
        assert forall|k: int| 0 <= k < 64 implies #[trigger] acc@[k] == sum(
            0,
            i + 1,
            |t: int| conv(ints(vp[t]), ints(vs[t]), k),
        ) % (q as int) by {
            let f = |t: int| conv(ints(vp[t]), ints(vs[t]), k);
            let c = conv(ints(vp[i as int]), ints(vs[i as int]), k);
            assert(m@[k] == c % (q as int));
            assert(before[k] == sum(0, i as int, f) % (q as int));
            lemma_add_mod_noop(sum(0, i as int, f), c, q as int);
        }
    }
    acc
}

/// The representative of `v` nearest to zero, for a residue `v`.
pub fn center(v: u64, q: u64) -> (r: i64)
    requires
        q <= i64::MAX,
        center_spec(v, q) >= i64::MIN,
    ensures
        r == center_spec(v, q),
{
    proof {
        word_as_signed(v);
    }
    if v > q / 2 {
        v as i64 - q as i64
    } else {
        v as i64
    }
}

/// The residue that `v` stands for, for `v` between `-q` and `q`.
pub fn uncenter(v: i64, q: u64) -> (r: u64)
    requires
        q <= i64::MAX,
    ensures
        r == uncenter_spec(v as int, q),
{
    if v < 0 {
        let w: i64 = v + q as i64;
        proof {
            signed_as_word(w);
        }
        w as u64
    } else {
        proof {
            lemma_small_mod(v as nat, 0x1_0000_0000_0000_0000);
        }
        v as u64
    }
}

/// Casting a word to a signed number reads it as two's complement.
pub proof fn word_as_signed(v: u64)
    ensures
        v as i64 == signed(v),
{
    if v > i64::MAX {
        assert(v > 0x7fff_ffff_ffff_ffffu64 ==> (v as i64) == v - 0x1_0000_0000_0000_0000)
            by (bit_vector);
    }
}

/// Casting a signed number to a word takes it modulo `2^64`.
pub proof fn signed_as_word(v: i64)
    ensures
        v as u64 == v as int % 0x1_0000_0000_0000_0000,
        signed(v as u64) == v,
{
    if v < 0 {
        assert(v < 0 ==> (v as u64) == v + 0x1_0000_0000_0000_0000) by (bit_vector);
        vstd::arithmetic::div_mod::lemma_mod_add_multiples_vanish(
            v as int,
            0x1_0000_0000_0000_0000,
        );
        lemma_small_mod((v + 0x1_0000_0000_0000_0000) as nat, 0x1_0000_0000_0000_0000);
    } else {
        lemma_small_mod(v as nat, 0x1_0000_0000_0000_0000);
    }
}

/// Centering and uncentering a residue gives it back, and the centered value
/// is congruent to the residue and at most half the modulus in size.
pub proof fn law_center_uncenter(v: u64, q: u64)
    requires
        v < q,
        q <= i64::MAX,
    ensures
        uncenter_spec(center_spec(v, q), q) == v,
        cong(center_spec(v, q), v as int, q as int),
        -(q as int) < 2 * center_spec(v, q) <= q,
{
    lemma_small_mod(v as nat, 0x1_0000_0000_0000_0000);
    cong_refl(v as int, q as int);
    if v > q / 2 {
        vstd::arithmetic::div_mod::lemma_mod_self_0(q as int);
        cong_add(v as int, v as int, q as int, 0, q as int);
    }
}

/// A signed number at least `-q` uncenters to a word congruent to it.
pub proof fn law_uncenter_congruent(v: i64, q: u64)
    requires
        0 < q <= i64::MAX,
        -(q as int) <= v,
    ensures
        cong(uncenter_spec(v as int, q), v as int, q as int),
{
    cong_refl(v as int, q as int);
    if v < 0 {
        lemma_small_mod((v + q) as nat, 0x1_0000_0000_0000_0000);
        vstd::arithmetic::div_mod::lemma_mod_self_0(q as int);
        cong_add(v as int, v as int, q as int, 0, q as int);
    } else {
        lemma_small_mod(v as nat, 0x1_0000_0000_0000_0000);
    }
}

/// `shift_y` multiplies by `Y`: on residues it agrees with `mul` by the
/// monomial `Y`.
pub proof fn law_shift_is_mul_by_y(y: Seq<u64>, a: Seq<u64>, q: u64)
    requires
        y.len() == 64,
        a.len() == 64,
        y[1] == 1,
        forall|i: int| 0 <= i < 64 && i != 1 ==> #[trigger] y[i] == 0,
        reduced(a, q),
    ensures
        ring_shift(a, q) == ring_mul(y, a, q),
{
    assert forall|k: int| 0 <= k < 64 implies ring_shift(a, q)[k] == ring_mul(y, a, q)[k] by {
        conv_monomial(ints(y), ints(a), k);
        if k > 0 {
            lemma_small_mod(a[k - 1] as nat, q as nat);
        }
    }
    assert(ring_shift(a, q) =~= ring_mul(y, a, q));
}

/// The shift by `Y` modulo `q` is congruent to the integer shift.
pub proof fn shift_cong(a: Seq<u64>, q: u64)
    requires
        a.len() == 64,
        q > 0,
    ensures
        seq_cong(ints(ring_shift(a, q)), times_y(ints(a)), q as int),
{
    lemma_mod_bound(0 - a[63] as int, q as int);
    cong_mod(0 - a[63] as int, q as int);
    assert forall|i: int| 0 <= i < 64 implies cong(
        #[trigger] ints(ring_shift(a, q))[i],
        times_y(ints(a))[i],
        q as int,
    ) by {
        if i > 0 {
            cong_refl(a[i - 1] as int, q as int);
        }
    }
}

/// The even-odd split is sound: multiplying the halves of an element by the
/// two factors of `phi_for_part` and adding gives, modulo `q`, coefficient
/// `2k + part` of the product in `Z_q[X] / (X^128 + 1)`, where `Y = X^2`.
pub proof fn law_phi_for_part(
    a_e: Seq<u64>,
    a_o: Seq<u64>,
    s_e: Seq<int>,
    s_o: Seq<int>,
    part: int,
    k: int,
    q: u64,
)
    requires
        a_e.len() == 64,
        a_o.len() == 64,
        s_e.len() == 64,
        s_o.len() == 64,
        part == 0 || part == 1,
        0 <= k < 64,
        q > 0,
    ensures
        cong(
            conv(ints(ring_phi(a_e, a_o, part, q).0), s_e, k) + conv(
                ints(ring_phi(a_e, a_o, part, q).1),
                s_o,
                k,
            ),
            conv(interleave(ints(a_e), ints(a_o)), interleave(s_e, s_o), 2 * k + part),
            q as int,
        ),
{
    let m = q as int;
    if part == 0 {
        conv_even(ints(a_e), ints(a_o), s_e, s_o, k);
        shift_cong(a_o, q);
        assert forall|i: int| 0 <= i < 64 implies cong(#[trigger] s_o[i], s_o[i], m) by {
            cong_refl(s_o[i], m);
        }
        crate::negacyclic::conv_cong(ints(ring_shift(a_o, q)), times_y(ints(a_o)), s_o, s_o, k, m);
        cong_refl(conv(ints(a_e), s_e, k), m);
        cong_add(
            conv(ints(a_e), s_e, k),
            conv(ints(a_e), s_e, k),
            conv(ints(ring_shift(a_o, q)), s_o, k),
            conv(times_y(ints(a_o)), s_o, k),
            m,
        );
    } else {
        conv_odd(ints(a_e), ints(a_o), s_e, s_o, k);
        cong_refl(conv(ints(a_o), s_e, k) + conv(ints(a_e), s_o, k), m);
    }
}

} // verus!
