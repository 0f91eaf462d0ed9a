//! The ring of the chain, `Z_q[X] / (X^128 + 1)`, whose elements are handled
//! as two elements of `Z_q[Y] / (Y^64 + 1)` with `Y = X^2`: the coefficients of
//! their even and of their odd powers.

use crate::negacyclic::{conv, conv_cong, conv_even, conv_odd, interleave, times_y};
use crate::r64::{ints, shift_cong, shift_y, zero, R64};
use crate::sums::{cong, cong_add, cong_iff, cong_refl};
use vstd::prelude::*;

verus! {

/// An element of `Z_q[X] / (X^128 + 1)`: the coefficients of the even powers
/// of `X`, then those of the odd powers.
#[derive(Clone, Copy, Debug, PartialEq, Eq)]
pub struct RingElement {
    pub v: [u64; 128],
}

/// The even and the odd half of an element.
pub type Eo = (R64, R64);

/// The coefficients of the two halves of an element.
pub type Halves = (Seq<u64>, Seq<u64>);

/// The contents of two halves.
pub open spec fn eo_view(p: Eo) -> Halves {
    (p.0@, p.1@)
}

/// The contents of a list of halves.
pub open spec fn eo_views(s: Seq<Eo>) -> Seq<Halves> {
    Seq::new(s.len(), |i: int| eo_view(s[i]))
}

/// The halves of an element.
pub open spec fn halves(el: RingElement) -> Halves {
    (el.v@.subrange(0, 64), el.v@.subrange(64, 128))
}

/// The halves of each element of a list.
pub open spec fn all_halves(els: Seq<RingElement>) -> Seq<Halves> {
    Seq::new(els.len(), |i: int| halves(els[i]))
}

/// Half `part` of an element.
pub open spec fn half(p: Halves, part: int) -> Seq<u64> {
    if part == 0 {
        p.0
    } else {
        p.1
    }
}

/// Both halves have all their coefficients.
pub open spec fn full(p: Halves) -> bool {
    p.0.len() == 64 && p.1.len() == 64
}

/// All elements of a list have all their coefficients.
pub open spec fn all_full(row: Seq<Halves>) -> bool {
    forall|i: int| 0 <= i < row.len() ==> full(#[trigger] row[i])
}

/// The coefficients of an element by power of `X`.
pub open spec fn element(p: Halves) -> Seq<int> {
    interleave(ints(p.0), ints(p.1))
}

/// The coefficients of a ring element by power of `X`.
pub open spec fn ring_coeffs(el: RingElement) -> Seq<int> {
    element(halves(el))
}

/// The product of two elements.
pub open spec fn ring_product(a: Halves, b: Halves, q: u64) -> Halves {
    (
        Seq::new(64, |k: int| (conv(element(a), element(b), 2 * k) % (q as int)) as u64),
        Seq::new(64, |k: int| (conv(element(a), element(b), 2 * k + 1) % (q as int)) as u64),
    )
}

/// Splits an element into its even and its odd half.
pub fn ring_eo(el: &RingElement) -> (r: Eo)
    ensures
        eo_view(r) == halves(*el),
{
    let mut e = zero();
    let mut o = zero();
    for i in 0..64usize
        invariant
            forall|k: int| 0 <= k < i ==> #[trigger] e@[k] == el.v@[k],
            forall|k: int| 0 <= k < i ==> #[trigger] o@[k] == el.v@[64 + k],
    {
        e[i] = el.v[i];
        o[i] = el.v[64 + i];
    }
    assert(e@ =~= halves(*el).0);
    assert(o@ =~= halves(*el).1);
    (e, o)
}

/// Splits every element of a list.
pub fn split_all(els: &[RingElement]) -> (r: Vec<Eo>)
    ensures
        eo_views(r@) == all_halves(els@),
{
    let mut out: Vec<Eo> = Vec::new();
    for i in 0..els.len()
        invariant
            out@.len() == i,
            forall|k: int| 0 <= k < i ==> eo_view(#[trigger] out@[k]) == halves(els@[k]),
    {
        let p = ring_eo(&els[i]);
        out.push(p);
    }
    assert(eo_views(out@) =~= all_halves(els@));
    out
}

/// The remainder of a sum of remainders.
proof fn sum_of_remainders(a: int, b: int, x: int, q: int)
    requires
        q > 0,
        cong(a + b, x, q),
    ensures
        (a % q + b % q) % q == x % q,
{
    vstd::arithmetic::div_mod::lemma_add_mod_noop(a, b, q);
    cong_iff(a + b, x, q);
}

/// The product of two elements.
pub fn multiply(a: &Eo, b: &Eo, q: u64) -> (r: Eo)
    requires
        q > 0,
    ensures
        eo_view(r) == ring_product(eo_view(*a), eo_view(*b), q),
{
    let ee = crate::r64::mul(&a.0, &b.0, q);
    let shifted = shift_y(&a.1, q);
    let oo = crate::r64::mul(&shifted, &b.1, q);
    let oe = crate::r64::mul(&a.1, &b.0, q);
    let eo = crate::r64::mul(&a.0, &b.1, q);
    let even = crate::r64::add(&ee, &oo, q);
    let odd = crate::r64::add(&oe, &eo, q);
    proof {
        let m = q as int;
        let ae = ints(a.0@);
        let ao = ints(a.1@);
        let be = ints(b.0@);
        let bo = ints(b.1@);
        let goal = ring_product(eo_view(*a), eo_view(*b), q);
        assert forall|i: int| 0 <= i < 64 implies cong(#[trigger] bo[i], bo[i], m) by {
            cong_refl(bo[i], m);
        }
        shift_cong(a.1@, q);
        assert forall|k: int| 0 <= k < 64 implies even@[k] == goal.0[k] && odd@[k] == goal.1[k] by {
            conv_even(ae, ao, be, bo, k);
            conv_cong(ints(shifted@), times_y(ao), bo, bo, k, m);
            cong_refl(conv(ae, be, k), m);
            cong_add(
                conv(ae, be, k),
                conv(ae, be, k),
                conv(ints(shifted@), bo, k),
                conv(times_y(ao), bo, k),
                m,
            );
            vstd::arithmetic::div_mod::lemma_mod_bound(conv(ae, be, k), m);
            vstd::arithmetic::div_mod::lemma_mod_bound(conv(ints(shifted@), bo, k), m);
            sum_of_remainders(
                conv(ae, be, k),
                conv(ints(shifted@), bo, k),
                conv(element(eo_view(*a)), element(eo_view(*b)), 2 * k),
                m,
            );
            conv_odd(ae, ao, be, bo, k);
            cong_refl(conv(ao, be, k) + conv(ae, bo, k), m);
            vstd::arithmetic::div_mod::lemma_mod_bound(conv(ao, be, k), m);
            vstd::arithmetic::div_mod::lemma_mod_bound(conv(ae, bo, k), m);
            sum_of_remainders(
                conv(ao, be, k),
                conv(ae, bo, k),
                conv(element(eo_view(*a)), element(eo_view(*b)), 2 * k + 1),
                m,
            );
        }
        assert(even@ =~= goal.0);
        assert(odd@ =~= goal.1);
    }
    (even, odd)
}

} // verus!
