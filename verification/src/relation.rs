//! What the constraints of a statement mean: they hold on the witness of a
//! boundary exactly when the boundary's relation over
//! `Z_q[X] / (X^128 + 1)` holds.

use crate::check::{block_value, chunk, holds, lhs, phi_pos, rhs};
use crate::config::ChainShape;
use crate::layout::{
    block_in_range, block_sum, c1dec_halves, gather, law_blocks_are_placed, law_blocks_partition,
    layout_matches, place, shape_fits, shape_lengths, w_blocks, ydec_halves, Block, Layout,
};
use crate::negacyclic::{conv, conv_cong, conv_const, conv_zero, interleave, seq_cong};
use crate::public::{
    c1dec_base, claim, commit_constraint, commit_constraints, data_fits, digit_factors,
    eval_constraint, eval_constraints, evals, factors, half_factor, mixed_radix, mixed_radix_bound,
    outer_constraint, outer_constraints, public_constraints, root_constraint, root_constraints,
    shape_ok, y_factors, y_flat, y_flat_at, ydec_base, PublicView,
};
use crate::r64::{
    center_spec, ints, law_center_uncenter, law_phi_for_part, reduced, ring_const_neg, ring_zero,
};
use crate::ring::{all_full, element, full, half, halves, ring_coeffs, Halves, RingElement};
use crate::statement::ConstraintView;
use crate::sums::{
    cong, cong_add, cong_iff, cong_mod, cong_mul, cong_refl, cong_sym, cong_trans, sum, sum_cong,
    sum_ext, sum_groups, sum_pairs, sum_shift, sum_swap,
};
use crate::witness::{c1dec_elements, coeffs_of, ydec_elements};
use vstd::arithmetic::power2::pow2;
use vstd::prelude::*;

verus! {

/// Half `part` of a ring element with its coefficients centered.
pub open spec fn centered_half(el: RingElement, part: int, q: u64) -> Seq<int> {
    Seq::new(64, |i: int| center_spec(el.v@[64 * part + i], q))
}

/// Coefficient `m` of the inner product of `row` with `n` elements from
/// `start` on.
pub open spec fn inner_product(
    row: Seq<Halves>,
    els: Seq<RingElement>,
    start: int,
    n: int,
    m: int,
) -> int {
    sum(0, n, |i: int| conv(element(row[i]), ring_coeffs(els[start + i]), m))
}

/// Coefficient `m` of the element that the `n` digits from `start` on stand
/// for.
pub open spec fn recompose(
    base_log: usize,
    els: Seq<RingElement>,
    start: int,
    n: int,
    m: int,
) -> int {
    sum(0, n, |kk: int| pow2((base_log * kk) as nat) * ring_coeffs(els[start + kk])[m])
}

/// Row `t` of the inner key times column `col` of `w` is the element whose
/// digits are committed.
pub open spec fn commit_relation(
    s: ChainShape,
    d: PublicView,
    q: u64,
    w: Seq<RingElement>,
    y: Seq<RingElement>,
    col: int,
    t: int,
) -> bool {
    forall|m: int|
        0 <= m < 128 ==> cong(
            #[trigger] inner_product(d.a1[t], w, col * s.height, s.height as int, m),
            recompose(
                d.a2_base_log,
                y,
                (t * s.width + col) * s.num_digits_y,
                s.num_digits_y as int,
                m,
            ),
            q as int,
        )
}

/// Row `u` of the outer key times the committed digits is the element whose
/// digits are committed at the last level, or entry `u` of the root commitment
/// when there is no such level.
pub open spec fn outer_relation(
    s: ChainShape,
    d: PublicView,
    q: u64,
    y: Seq<RingElement>,
    c1: Seq<RingElement>,
    u: int,
) -> bool {
    forall|m: int|
        0 <= m < 128 ==> cong(
            #[trigger] inner_product(
                d.a2[u],
                y,
                0,
                s.width * s.a1_rank_padded * s.num_digits_y,
                m,
            ),
            if s.has_c1dec {
                recompose(
                    d.a3_base_log,
                    c1,
                    u * s.num_digits_c1,
                    s.num_digits_c1 as int,
                    m,
                )
            } else {
                element(d.commitment[u])[m]
            },
            q as int,
        )
}

/// The key of the last level times its digits is the root commitment.
pub open spec fn root_relation(
    s: ChainShape,
    d: PublicView,
    q: u64,
    c1: Seq<RingElement>,
) -> bool {
    forall|m: int|
        0 <= m < 128 ==> cong(
            #[trigger] inner_product(d.a3, c1, 0, s.a2_rank * s.num_digits_c1, m),
            element(d.commitment[0])[m],
            q as int,
        )
}

/// `w` evaluates to claim `j`.
pub open spec fn eval_relation(
    s: ChainShape,
    d: PublicView,
    q: u64,
    w: Seq<RingElement>,
    j: int,
) -> bool {
    forall|m: int|
        0 <= m < 128 ==> cong(
            #[trigger] inner_product(evals(d, j), w, 0, s.width * s.height, m),
            element(claim(d, j))[m],
            q as int,
        )
}

/// All inner commitments are right.
pub open spec fn commit_relations(
    s: ChainShape,
    d: PublicView,
    q: u64,
    w: Seq<RingElement>,
    y: Seq<RingElement>,
) -> bool {
    forall|col: int, t: int|
        0 <= col < s.width && 0 <= t < s.a1_rank ==> #[trigger] commit_relation(
            s,
            d,
            q,
            w,
            y,
            col,
            t,
        )
}

/// All outer commitments are right.
pub open spec fn outer_relations(
    s: ChainShape,
    d: PublicView,
    q: u64,
    y: Seq<RingElement>,
    c1: Seq<RingElement>,
) -> bool {
    forall|u: int| 0 <= u < s.a2_rank ==> #[trigger] outer_relation(s, d, q, y, c1, u)
}

/// The relation of the boundary: `w` is committed to, and meets both claims.
pub open spec fn boundary_relation(
    s: ChainShape,
    d: PublicView,
    q: u64,
    w: Seq<RingElement>,
    y: Seq<RingElement>,
    c1: Seq<RingElement>,
) -> bool {
    &&& commit_relations(s, d, q, w, y)
    &&& outer_relations(s, d, q, y, c1)
    &&& s.has_c1dec ==> root_relation(s, d, q, c1)
    &&& eval_relation(s, d, q, w, 0)
    &&& eval_relation(s, d, q, w, 1)
}

/// The digits of the last level in a witness, if there is one.
pub open spec fn inner_digits(s: ChainShape, c1: Seq<RingElement>) -> Seq<RingElement> {
    if s.has_c1dec {
        c1dec_elements(s, c1)
    } else {
        seq![]
    }
}

/// The witness vectors of a boundary.
pub open spec fn boundary_witness(
    l: Layout,
    s: ChainShape,
    w: Seq<RingElement>,
    y: Seq<RingElement>,
    c1: Seq<RingElement>,
    q: u64,
) -> Seq<Seq<i64>> {
    seq![
        coeffs_of(w.subrange(l.v0_start as int, l.v0_end as int), q),
        coeffs_of(w.subrange(0, l.v0_start as int), q) + coeffs_of(
            w.subrange(l.v0_end as int, l.total as int),
            q,
        ) + coeffs_of(ydec_elements(s, y), q) + coeffs_of(inner_digits(s, c1), q),
    ]
}

/// Every coefficient of every element is a residue.
pub open spec fn all_reduced(els: Seq<RingElement>, q: u64) -> bool {
    forall|i: int| 0 <= i < els.len() ==> reduced(#[trigger] els[i].v@, q)
}

/// The boundary's lists are as long as the shape asks for, with residues as
/// coefficients.
pub open spec fn boundary_fits(
    s: ChainShape,
    w: Seq<RingElement>,
    y: Seq<RingElement>,
    c1: Seq<RingElement>,
    q: u64,
) -> bool {
    &&& w.len() >= s.height * s.width
    &&& y.len() >= s.width * s.a1_rank_padded * s.num_digits_y
    &&& s.has_c1dec ==> c1.len() >= s.a2_rank * s.num_digits_c1
    &&& all_reduced(w, q)
    &&& all_reduced(y, q)
    &&& all_reduced(c1, q)
}

/// The values that constraints are compared to are residues.
pub open spec fn targets_reduced(d: PublicView, q: u64) -> bool {
    &&& forall|u: int| 0 <= u < d.commitment.len() ==> half_reduced(#[trigger] d.commitment[u], q)
    &&& half_reduced(d.z0, q)
    &&& half_reduced(d.z1, q)
}

/// The coefficients of both halves are residues.
pub open spec fn half_reduced(p: Halves, q: u64) -> bool {
    reduced(p.0, q) && reduced(p.1, q)
}

/// All elements of the public data have all their coefficients.
pub open spec fn data_full(d: PublicView) -> bool {
    &&& forall|t: int| 0 <= t < d.a1.len() ==> all_full(#[trigger] d.a1[t])
    &&& forall|u: int| 0 <= u < d.a2.len() ==> all_full(#[trigger] d.a2[u])
    &&& all_full(d.a3)
    &&& all_full(d.evals0)
    &&& all_full(d.evals1)
    &&& all_full(d.commitment)
    &&& full(d.z0)
    &&& full(d.z1)
}

/// The two halves of a centered ring element are congruent to those of the
/// element itself.
proof fn centered_cong(el: RingElement, q: u64)
    requires
        0 < q <= i64::MAX,
        reduced(el.v@, q),
    ensures
        seq_cong(
            interleave(centered_half(el, 0, q), centered_half(el, 1, q)),
            ring_coeffs(el),
            q as int,
        ),
{
    let a = interleave(centered_half(el, 0, q), centered_half(el, 1, q));
    let b = ring_coeffs(el);
    assert forall|i: int| 0 <= i < a.len() implies cong(#[trigger] a[i], b[i], q as int) by {
        let at = 64 * (i % 2) + i / 2;
        assert(a[i] == center_spec(el.v@[at], q));
        assert(b[i] == el.v@[at] as int);
        law_center_uncenter(el.v@[at], q);
    }
}

/// Element `m` of the coefficients of a list is half `m % 2` of its ring
/// element `m / 2`.
proof fn chunk_of_coeffs(els: Seq<RingElement>, m: int, q: u64)
    requires
        0 < q <= i64::MAX,
        0 <= m < 2 * els.len(),
        all_reduced(els, q),
    ensures
        chunk(coeffs_of(els, q), m) == centered_half(els[m / 2], m % 2, q),
{
    let c = coeffs_of(els, q);
    assert forall|i: int| 0 <= i < 64 implies chunk(c, m)[i] == centered_half(
        els[m / 2],
        m % 2,
        q,
    )[i] by {
        let j = 64 * m + i;
        assert(j / 128 == m / 2);
        assert(j % 128 == 64 * (m % 2) + i);
        assert(reduced(els[m / 2].v@, q));
        law_center_uncenter(els[m / 2].v@[j % 128], q);
        assert(c[j] == center_spec(els[m / 2].v@[j % 128], q) as i64);
    }
    assert(chunk(c, m) =~= centered_half(els[m / 2], m % 2, q));
}

/// Elements of the first of two lists of coefficients.
proof fn chunk_left(a: Seq<i64>, b: Seq<i64>, m: int)
    requires
        0 <= m,
        64 * m + 64 <= a.len(),
    ensures
        chunk(a + b, m) == chunk(a, m),
{
    assert(chunk(a + b, m) =~= chunk(a, m));
}

/// Elements of the second of two lists of coefficients, the first of which has
/// `n` elements.
proof fn chunk_right(a: Seq<i64>, b: Seq<i64>, n: int, m: int)
    requires
        0 <= m,
        a.len() == 64 * n,
        64 * m + 64 <= b.len(),
    ensures
        chunk(a + b, n + m) == chunk(b, m),
{
    assert(chunk(a + b, n + m) =~= chunk(b, m));
}

/// Half `m` of `w` stands where `place` puts it.
proof fn w_chunk(
    l: Layout,
    s: ChainShape,
    w: Seq<RingElement>,
    y: Seq<RingElement>,
    c1: Seq<RingElement>,
    q: u64,
    m: int,
)
    requires
        0 < q <= i64::MAX,
        layout_matches(l, s),
        boundary_fits(s, w, y, c1, q),
        0 <= m < 2 * l.total,
    ensures
        chunk(boundary_witness(l, s, w, y, c1, q)[place(l, m).0], place(l, m).1) == centered_half(
            w[m / 2],
            m % 2,
            q,
        ),
{
    let before = w.subrange(0, l.v0_start as int);
    let inner = w.subrange(l.v0_start as int, l.v0_end as int);
    let after = w.subrange(l.v0_end as int, l.total as int);
    let cb = coeffs_of(before, q);
    let ca = coeffs_of(after, q);
    let cy = coeffs_of(ydec_elements(s, y), q);
    let cc = coeffs_of(inner_digits(s, c1), q);
    if l.v0_start <= m / 2 < l.v0_end {
        chunk_of_coeffs(inner, m - 2 * l.v0_start, q);
        assert((m - 2 * l.v0_start) / 2 == m / 2 - l.v0_start);
    } else if m / 2 < l.v0_start {
        chunk_left(cb + ca + cy, cc, m);
        chunk_left(cb + ca, cy, m);
        chunk_left(cb, ca, m);
        chunk_of_coeffs(before, m, q);
    } else {
        let k = m - 2 * l.v0_end;
        chunk_left(cb + ca + cy, cc, l.w_before_len + k);
        chunk_left(cb + ca, cy, l.w_before_len + k);
        chunk_right(cb, ca, l.w_before_len as int, k);
        chunk_of_coeffs(after, k, q);
        assert(k / 2 == m / 2 - l.v0_end);
    }
}

/// Where the digits of the inner commitments stand.
proof fn y_chunk(
    l: Layout,
    s: ChainShape,
    w: Seq<RingElement>,
    y: Seq<RingElement>,
    c1: Seq<RingElement>,
    q: u64,
    i: int,
)
    requires
        0 < q <= i64::MAX,
        layout_matches(l, s),
        boundary_fits(s, w, y, c1, q),
        0 <= i < ydec_halves(s),
    ensures
        chunk(boundary_witness(l, s, w, y, c1, q)[1], ydec_base(l) + i) == centered_half(
            y[y_flat(s, i / 2)],
            i % 2,
            q,
        ),
        0 <= y_flat(s, i / 2) < y.len(),
{
    let cb = coeffs_of(w.subrange(0, l.v0_start as int), q);
    let ca = coeffs_of(w.subrange(l.v0_end as int, l.total as int), q);
    let els = ydec_elements(s, y);
    let cy = coeffs_of(els, q);
    let cc = coeffs_of(inner_digits(s, c1), q);
    shape_lengths(s);
    assert forall|e: int| 0 <= e < els.len() implies reduced(#[trigger] els[e].v@, q) && 0
        <= y_flat(s, e) < y.len() by {
        y_flat_range(s, e);
        assert(reduced(y[y_flat(s, e)].v@, q));
    }
    assert(reduced(els[i / 2].v@, q));
    chunk_left(cb + ca + cy, cc, ydec_base(l) + i);
    chunk_right(cb + ca, cy, ydec_base(l), i);
    chunk_of_coeffs(els, i, q);
}

/// `y_flat` stays within the committed digits.
pub proof fn y_flat_range(s: ChainShape, e: int)
    requires
        0 <= e < s.width * s.a1_rank_padded * s.num_digits_y,
    ensures
        0 <= y_flat(s, e) < s.width * s.a1_rank_padded * s.num_digits_y,
        ({
            let nd = s.num_digits_y as int;
            let p = s.a1_rank_padded as int;
            let kk = e % nd;
            let t = (e / nd) % p;
            let col = (e / nd) / p;
            &&& 0 <= kk < nd
            &&& 0 <= t < p
            &&& 0 <= col < s.width
            &&& e == (col * p + t) * nd + kk
        }),
{
    let nd = s.num_digits_y as int;
    let p = s.a1_rank_padded as int;
    let w = s.width as int;
    assert(nd > 0 && p > 0 && w > 0) by (nonlinear_arith)
        requires
            0 <= nd,
            0 <= p,
            0 <= w,
            0 <= e < w * p * nd,
    ;
    vstd::arithmetic::div_mod::lemma_fundamental_div_mod(e, nd);
    vstd::arithmetic::div_mod::lemma_mod_bound(e, nd);
    let ct = e / nd;
    assert(0 <= ct < w * p) by (nonlinear_arith)
        requires
            0 <= e < w * p * nd,
            e == nd * ct + e % nd,
            0 <= e % nd < nd,
            nd > 0,
    ;
    vstd::arithmetic::div_mod::lemma_fundamental_div_mod(ct, p);
    vstd::arithmetic::div_mod::lemma_mod_bound(ct, p);
    let col = ct / p;
    assert(0 <= col < w) by (nonlinear_arith)
        requires
            0 <= ct < w * p,
            ct == p * col + ct % p,
            0 <= ct % p < p,
            p > 0,
    ;
    assert((col * p + ct % p) * nd + e % nd == e) by (nonlinear_arith)
        requires
            ct == p * col + ct % p,
            e == nd * ct + e % nd,
    ;
    y_flat_at(s, col, ct % p, e % nd);
}

/// Where the digits of the last level stand.
proof fn c_chunk(
    l: Layout,
    s: ChainShape,
    w: Seq<RingElement>,
    y: Seq<RingElement>,
    c1: Seq<RingElement>,
    q: u64,
    i: int,
)
    requires
        0 < q <= i64::MAX,
        layout_matches(l, s),
        boundary_fits(s, w, y, c1, q),
        s.has_c1dec,
        0 <= i < c1dec_halves(s),
    ensures
        chunk(boundary_witness(l, s, w, y, c1, q)[1], c1dec_base(l) + i) == centered_half(
            c1[i / 2],
            i % 2,
            q,
        ),
{
    let cb = coeffs_of(w.subrange(0, l.v0_start as int), q);
    let ca = coeffs_of(w.subrange(l.v0_end as int, l.total as int), q);
    let cy = coeffs_of(ydec_elements(s, y), q);
    let els = inner_digits(s, c1);
    shape_lengths(s);
    assert forall|j: int| 0 <= j < els.len() implies reduced(#[trigger] els[j].v@, q) by {
        assert(reduced(c1[j].v@, q));
    }
    chunk_right(cb + ca + cy, coeffs_of(els, q), c1dec_base(l), i);
    chunk_of_coeffs(els, i, q);
}

/// Multiplying the centered halves of `el` by the factors of `r` gives, modulo
/// `q`, a coefficient of the product of the two elements.
proof fn pair_product(r: Halves, el: RingElement, part: int, k: int, q: u64)
    requires
        full(r),
        0 < q <= i64::MAX,
        reduced(el.v@, q),
        part == 0 || part == 1,
        0 <= k < 64,
    ensures
        cong(
            conv(ints(half_factor(r, part, 0, q)), centered_half(el, 0, q), k) + conv(
                ints(half_factor(r, part, 1, q)),
                centered_half(el, 1, q),
                k,
            ),
            conv(element(r), ring_coeffs(el), 2 * k + part),
            q as int,
        ),
{
    let se = centered_half(el, 0, q);
    let so = centered_half(el, 1, q);
    law_phi_for_part(r.0, r.1, se, so, part, k, q);
    centered_cong(el, q);
    let a = element(r);
    assert forall|i: int| 0 <= i < a.len() implies cong(#[trigger] a[i], a[i], q as int) by {
        cong_refl(a[i], q as int);
    }
    conv_cong(a, a, interleave(se, so), ring_coeffs(el), 2 * k + part, q as int);
    cong_trans(
        conv(ints(half_factor(r, part, 0, q)), se, k) + conv(
            ints(half_factor(r, part, 1, q)),
            so,
            k,
        ),
        conv(a, interleave(se, so), 2 * k + part),
        conv(a, ring_coeffs(el), 2 * k + part),
        q as int,
    );
}

/// The halves of the elements `es` times the factors of `rs`, summed up, give
/// a coefficient of the inner product.
proof fn row_product(rs: Seq<Halves>, es: Seq<RingElement>, n: int, part: int, k: int, q: u64)
    requires
        0 < q <= i64::MAX,
        0 <= n <= es.len(),
        n <= rs.len(),
        all_full(rs),
        forall|i: int| 0 <= i < n ==> reduced(#[trigger] es[i].v@, q),
        part == 0 || part == 1,
        0 <= k < 64,
    ensures
        cong(
            sum(
                0,
                2 * n,
                |i: int|
                    conv(
                        ints(half_factor(rs[i / 2], part, i % 2, q)),
                        centered_half(es[i / 2], i % 2, q),
                        k,
                    ),
            ),
            sum(0, n, |i: int| conv(element(rs[i]), ring_coeffs(es[i]), 2 * k + part)),
            q as int,
        ),
{
    let f = |i: int|
        conv(
            ints(half_factor(rs[i / 2], part, i % 2, q)),
            centered_half(es[i / 2], i % 2, q),
            k,
        );
    let h = |i: int| f(2 * i) + f(2 * i + 1);
    let g = |i: int| conv(element(rs[i]), ring_coeffs(es[i]), 2 * k + part);
    sum_pairs(n, f, h);
    assert forall|i: int| 0 <= i < n implies cong(#[trigger] h(i), g(i), q as int) by {
        assert((2 * i) / 2 == i && (2 * i) % 2 == 0);
        assert((2 * i + 1) / 2 == i && (2 * i + 1) % 2 == 1);
        assert(reduced(es[i].v@, q));
        pair_product(rs[i], es[i], part, k, q);
    }
    sum_cong(0, n, h, g, q as int);
}

/// A digit times its negated weight.
proof fn digit_product(el: RingElement, weight: u64, part: int, k: int, q: u64)
    requires
        0 < q <= i64::MAX,
        reduced(el.v@, q),
        part == 0 || part == 1,
        0 <= k < 64,
    ensures
        cong(
            conv(ints(ring_const_neg(weight, q)), centered_half(el, part, q), k),
            0 - weight * ring_coeffs(el)[2 * k + part],
            q as int,
        ),
        conv(ints(ring_zero()), centered_half(el, 1 - part, q), k) == 0,
{
    let c = ints(ring_const_neg(weight, q));
    let m = 2 * k + part;
    conv_const(c, centered_half(el, part, q), k);
    conv_zero(ints(ring_zero()), centered_half(el, 1 - part, q), k);
    vstd::arithmetic::div_mod::lemma_mod_bound(0 - weight as int, q as int);
    cong_mod(0 - weight as int, q as int);
    law_center_uncenter(el.v@[64 * part + k], q);
    assert(ring_coeffs(el)[m] == el.v@[64 * part + k] as int);
    assert(centered_half(el, part, q)[k] == center_spec(el.v@[64 * part + k], q));
    cong_mul(
        c[0],
        0 - weight as int,
        centered_half(el, part, q)[k],
        ring_coeffs(el)[m],
        q as int,
    );
    let a = weight as int;
    let b = ring_coeffs(el)[m];
    assert((0 - a) * b == 0 - a * b) by (nonlinear_arith);
}

/// The digits `es` times the digit factors, summed up, give minus a
/// coefficient of the element that they stand for.
proof fn digits_product(base_log: usize, es: Seq<RingElement>, n: int, part: int, k: int, q: u64)
    requires
        0 < q <= i64::MAX,
        0 <= n <= es.len(),
        forall|i: int| 0 <= i < n ==> reduced(#[trigger] es[i].v@, q),
        forall|kk: int| 0 <= kk < n ==> #[trigger] (base_log * kk) < 64,
        part == 0 || part == 1,
        0 <= k < 64,
    ensures
        cong(
            sum(
                0,
                2 * n,
                |i: int|
                    conv(
                        ints(digit_factors(base_log, n, part, q)[i]),
                        centered_half(es[i / 2], i % 2, q),
                        k,
                    ),
            ),
            0 - recompose(base_log, es, 0, n, 2 * k + part),
            q as int,
        ),
{
    let f = |i: int|
        conv(
            ints(digit_factors(base_log, n, part, q)[i]),
            centered_half(es[i / 2], i % 2, q),
            k,
        );
    let h = |i: int| f(2 * i) + f(2 * i + 1);
    let g = |i: int| pow2((base_log * i) as nat) * ring_coeffs(es[0 + i])[2 * k + part];
    let ng = |i: int| -1 * g(i);
    sum_pairs(n, f, h);
    assert forall|i: int| 0 <= i < n implies cong(#[trigger] h(i), ng(i), q as int) by {
        assert((2 * i) / 2 == i && (2 * i) % 2 == 0);
        assert((2 * i + 1) / 2 == i && (2 * i + 1) % 2 == 1);
        assert(reduced(es[i].v@, q));
        assert(base_log * i < 64);
        assert(0 <= base_log * i) by (nonlinear_arith)
            requires
                0 <= base_log,
                0 <= i,
        ;
        crate::config::weight_fits((base_log * i) as nat);
        let weight = pow2((base_log * i) as nat) as u64;
        digit_product(es[i], weight, part, k, q);
    }
    sum_cong(0, n, h, ng, q as int);
    crate::sums::sum_scale(0, n, -1, g, ng);
}

/// The factors gathered for the first `n` blocks.
proof fn gather_at(full: Seq<Seq<u64>>, blocks: Seq<Block>, q_start: int, n: int, j: int, i: int)
    requires
        0 <= j < n <= blocks.len(),
        0 <= i < blocks[j].2,
        forall|b: int|
            0 <= b < n ==> 0 <= 2 * ((#[trigger] blocks[b]).3 - q_start) && 2 * (blocks[b].3
                - q_start) + blocks[b].2 <= full.len(),
    ensures
        0 <= sum(0, j, |b: int| blocks[b].2 as int),
        sum(0, j, |b: int| blocks[b].2 as int) + i < gather(full, blocks, q_start, n).len(),
        gather(full, blocks, q_start, n)[sum(0, j, |b: int| blocks[b].2 as int) + i] == full[2 * (
        blocks[j].3 - q_start) + i],
    decreases n,
{
    gather_len(full, blocks, q_start, n - 1);
    gather_len(full, blocks, q_start, j);
    assert(0 <= 2 * (blocks[n - 1].3 - q_start));
    if j < n - 1 {
        gather_at(full, blocks, q_start, n - 1, j, i);
    }
}

/// Number of factors gathered for the first `n` blocks.
pub proof fn gather_len(full: Seq<Seq<u64>>, blocks: Seq<Block>, q_start: int, n: int)
    requires
        0 <= n <= blocks.len(),
        forall|b: int|
            0 <= b < n ==> 0 <= 2 * ((#[trigger] blocks[b]).3 - q_start) && 2 * (blocks[b].3
                - q_start) + blocks[b].2 <= full.len(),
    ensures
        gather(full, blocks, q_start, n).len() == sum(0, n, |b: int| blocks[b].2 as int),
    decreases n,
{
    if n > 0 {
        gather_len(full, blocks, q_start, n - 1);
        assert(0 <= 2 * (blocks[n - 1].3 - q_start));
    }
}

/// A constraint begins with the blocks of elements `q_start` to `q_start + n`
/// of `w` and their factors.
spec fn begins_with(
    c: ConstraintView,
    l: Layout,
    row: Seq<Halves>,
    q_start: int,
    n: int,
    part: int,
    q: u64,
) -> bool {
    let blocks = w_blocks(l, q_start, q_start + n);
    let phi = gather(factors(row, n, part, q), blocks, q_start, blocks.len() as int);
    &&& blocks.len() <= c.idx.len()
    &&& forall|j: int|
        0 <= j < blocks.len() ==> (#[trigger] blocks[j]).0 == c.idx[j] && blocks[j].1 == c.off[j]
            && blocks[j].2 == c.len[j]
    &&& phi.len() <= c.phi.len()
    &&& forall|i: int| 0 <= i < phi.len() ==> #[trigger] c.phi[i] == phi[i]
}

/// The blocks of a range of `w`, with the factors of `row`, contribute a
/// coefficient of the inner product of `row` with that range.
proof fn range_value(
    c: ConstraintView,
    l: Layout,
    s: ChainShape,
    row: Seq<Halves>,
    w: Seq<RingElement>,
    y: Seq<RingElement>,
    c1: Seq<RingElement>,
    q_start: int,
    n: int,
    part: int,
    k: int,
    q: u64,
)
    requires
        0 < q <= i64::MAX,
        shape_fits(s),
        layout_matches(l, s),
        boundary_fits(s, w, y, c1, q),
        0 <= q_start,
        0 <= n,
        q_start + n <= l.total,
        part == 0 || part == 1,
        0 <= k < 64,
        begins_with(c, l, row, q_start, n, part, q),
        n <= row.len(),
        all_full(row),
    ensures
        cong(
            sum(
                0,
                w_blocks(l, q_start, q_start + n).len() as int,
                |j: int| block_value(c, boundary_witness(l, s, w, y, c1, q), j, k),
            ),
            inner_product(row, w, q_start, n, 2 * k + part),
            q as int,
        ),
        phi_pos(c.len, w_blocks(l, q_start, q_start + n).len() as int) == gather(
            factors(row, n, part, q),
            w_blocks(l, q_start, q_start + n),
            q_start,
            w_blocks(l, q_start, q_start + n).len() as int,
        ).len(),
{
    shape_lengths(s);
    let wit = boundary_witness(l, s, w, y, c1, q);
    let blocks = w_blocks(l, q_start, q_start + n);
    let nb = blocks.len() as int;
    let full = factors(row, n, part, q);
    let big = |m: int|
        conv(ints(full[m - 2 * q_start]), centered_half(w[m / 2], m % 2, q), k);
    assert forall|b: int| 0 <= b < nb implies 0 <= 2 * ((#[trigger] blocks[b]).3 - q_start) && 2 * (
    blocks[b].3 - q_start) + blocks[b].2 <= full.len() by {
        block_in_range(l, q_start, q_start + n, b);
    }
    let value = |j: int| block_value(c, wit, j, k);
    let by_block = |j: int| block_sum(w_blocks(l, q_start, q_start + n)[j], big);
    assert forall|j: int| 0 <= j < nb implies #[trigger] value(j) == by_block(j) by {
        let b = blocks[j];
        let lens = |i: int| c.len[i] as int;
        let blens = |i: int| blocks[i].2 as int;
        sum_ext(0, j, lens, blens);
        let f = |i: int|
            conv(
                ints(c.phi[phi_pos(c.len, j) + i]),
                chunk(wit[c.idx[j] as int], c.off[j] + i),
                k,
            );
        assert forall|i: int| 0 <= i < b.2 implies #[trigger] f(i) == big(i + 2 * b.3) by {
            gather_at(full, blocks, q_start, nb, j, i);
            block_in_range(l, q_start, q_start + n, j);
            law_blocks_are_placed(l, q_start, q_start + n, j, i);
            let m = 2 * b.3 + i;
            w_chunk(l, s, w, y, c1, q, m);
        }
        sum_shift(0, b.2 as int, 2 * b.3 as int, f, big);
    }
    sum_ext(0, nb, value, by_block);
    law_blocks_partition(l, q_start, q_start + n, big);
    let rs = row;
    let es = w.subrange(q_start, q_start + n);
    let flatv = |i: int|
        conv(
            ints(half_factor(rs[i / 2], part, i % 2, q)),
            centered_half(es[i / 2], i % 2, q),
            k,
        );
    assert forall|i: int| 0 <= i < 2 * n implies #[trigger] flatv(i) == big(i + 2 * q_start) by {
        assert((i + 2 * q_start) / 2 == i / 2 + q_start);
        assert((i + 2 * q_start) % 2 == i % 2);
    }
    sum_shift(0, 2 * n, 2 * q_start, flatv, big);
    assert forall|i: int| 0 <= i < n implies reduced(#[trigger] es[i].v@, q) by {
        assert(reduced(w[q_start + i].v@, q));
    }
    row_product(rs, es, n, part, k, q);
    let g = |i: int| conv(element(rs[i]), ring_coeffs(es[i]), 2 * k + part);
    let target = |i: int| conv(element(row[i]), ring_coeffs(w[q_start + i]), 2 * k + part);
    sum_ext(0, n, g, target);
    gather_len(full, blocks, q_start, nb);
    let lens = |i: int| c.len[i] as int;
    let blens = |i: int| blocks[i].2 as int;
    sum_ext(0, nb, lens, blens);
}

/// The value of `g` summed over the digits of column `col` and key row `t`.
spec fn digit_sum(s: ChainShape, g: spec_fn(int) -> int, col: int, t: int) -> int {
    sum(0, s.num_digits_y as int, |kk: int| g((t * s.width + col) * s.num_digits_y + kk))
}

/// A sum over the digits in the order of `ydec`, by column and key row.
proof fn ydec_order(s: ChainShape, g: spec_fn(int) -> int)
    ensures
        sum(0, s.width * s.a1_rank_padded * s.num_digits_y, |e: int| g(y_flat(s, e))) == sum(
            0,
            s.width as int,
            |col: int| sum(0, s.a1_rank_padded as int, |t: int| digit_sum(s, g, col, t)),
        ),
{
    let nd = s.num_digits_y as int;
    let p = s.a1_rank_padded as int;
    let w = s.width as int;
    let f = |e: int| g(y_flat(s, e));
    let h1 = |ct: int| sum(ct * nd, ct * nd + nd, f);
    shape_lengths(s);
    sum_groups(w * p, nd, f, h1);
    let h2 = |col: int| sum(col * p, col * p + p, h1);
    sum_groups(w, p, h1, h2);
    let h3 = |col: int| sum(0, p, |t: int| digit_sum(s, g, col, t));
    assert forall|col: int| 0 <= col < w implies #[trigger] h2(col) == h3(col) by {
        let inner = |t: int| digit_sum(s, g, col, t);
        assert forall|t: int| 0 <= t < p implies #[trigger] inner(t) == h1(t + col * p) by {
            let ct = col * p + t;
            let digit = |kk: int| g((t * s.width + col) * s.num_digits_y + kk);
            assert forall|kk: int| 0 <= kk < nd implies #[trigger] digit(kk) == f(kk + ct * nd) by {
                y_flat_at(s, col, t, kk);
            }
            sum_shift(0, nd, ct * nd, digit, f);
        }
        sum_shift(0, p, col * p, inner, h1);
    }
    sum_ext(0, w, h2, h3);
}

/// A sum over the digits in the order in which they are committed, by key row
/// and column.
proof fn committed_order(s: ChainShape, g: spec_fn(int) -> int)
    ensures
        sum(0, s.width * s.a1_rank_padded * s.num_digits_y, g) == sum(
            0,
            s.a1_rank_padded as int,
            |t: int| sum(0, s.width as int, |col: int| digit_sum(s, g, col, t)),
        ),
{
    let nd = s.num_digits_y as int;
    let p = s.a1_rank_padded as int;
    let w = s.width as int;
    let h1 = |tc: int| sum(tc * nd, tc * nd + nd, g);
    shape_lengths(s);
    assert(p * w == w * p) by (nonlinear_arith);
    sum_groups(p * w, nd, g, h1);
    let h2 = |t: int| sum(t * w, t * w + w, h1);
    sum_groups(p, w, h1, h2);
    let h3 = |t: int| sum(0, w, |col: int| digit_sum(s, g, col, t));
    assert forall|t: int| 0 <= t < p implies #[trigger] h2(t) == h3(t) by {
        let inner = |col: int| digit_sum(s, g, col, t);
        assert forall|col: int| 0 <= col < w implies #[trigger] inner(col) == h1(col + t * w) by {
            let tc = t * w + col;
            let digit = |kk: int| g((t * s.width + col) * s.num_digits_y + kk);
            assert forall|kk: int| 0 <= kk < nd implies #[trigger] digit(kk) == g(
                kk + tc * nd,
            ) by {}
            sum_shift(0, nd, tc * nd, digit, g);
        }
        sum_shift(0, w, t * w, inner, h1);
    }
    sum_ext(0, p, h2, h3);
}

/// `ydec` holds every committed digit once: summing in its order is summing
/// over the committed digits.
pub proof fn law_ydec_is_permutation(s: ChainShape, g: spec_fn(int) -> int)
    ensures
        sum(0, s.width * s.a1_rank_padded * s.num_digits_y, |e: int| g(y_flat(s, e))) == sum(
            0,
            s.width * s.a1_rank_padded * s.num_digits_y,
            g,
        ),
{
    ydec_order(s, g);
    committed_order(s, g);
    let h = |col: int, t: int| digit_sum(s, g, col, t);
    let w = s.width as int;
    let p = s.a1_rank_padded as int;
    sum_swap(w, p, h);
    let a = |col: int| sum(0, p, |t: int| digit_sum(s, g, col, t));
    let a2 = |col: int| sum(0, p, |t: int| h(col, t));
    assert forall|col: int| 0 <= col < w implies #[trigger] a(col) == a2(col) by {
        sum_ext(0, p, |t: int| digit_sum(s, g, col, t), |t: int| h(col, t));
    }
    sum_ext(0, w, a, a2);
    let b = |t: int| sum(0, w, |col: int| digit_sum(s, g, col, t));
    let b2 = |t: int| sum(0, w, |col: int| h(col, t));
    assert forall|t: int| 0 <= t < p implies #[trigger] b(t) == b2(t) by {
        sum_ext(0, w, |col: int| digit_sum(s, g, col, t), |col: int| h(col, t));
    }
    sum_ext(0, p, b, b2);
}

/// What a block over all of `ydec`, with the factors of `row`, contributes.
proof fn y_block_value(
    c: ConstraintView,
    l: Layout,
    s: ChainShape,
    row: Seq<Halves>,
    w: Seq<RingElement>,
    y: Seq<RingElement>,
    c1: Seq<RingElement>,
    part: int,
    k: int,
    q: u64,
)
    requires
        0 < q <= i64::MAX,
        shape_fits(s),
        layout_matches(l, s),
        boundary_fits(s, w, y, c1, q),
        part == 0 || part == 1,
        0 <= k < 64,
        all_full(row),
        row.len() >= s.width * s.a1_rank_padded * s.num_digits_y,
        c.idx[0] == 1,
        c.off[0] == ydec_base(l),
        c.len[0] == l.ydec_len,
        forall|i: int|
            0 <= i < ydec_halves(s) ==> #[trigger] c.phi[i] == y_factors(s, row, part, q)[i],
    ensures
        cong(
            block_value(c, boundary_witness(l, s, w, y, c1, q), 0, k),
            inner_product(
                row,
                y,
                0,
                s.width * s.a1_rank_padded * s.num_digits_y,
                2 * k + part,
            ),
            q as int,
        ),
{
    shape_lengths(s);
    let n = s.width * s.a1_rank_padded * s.num_digits_y;
    let wit = boundary_witness(l, s, w, y, c1, q);
    let rs = Seq::new(n as nat, |e: int| row[y_flat(s, e)]);
    let es = ydec_elements(s, y);
    let f = |i: int|
        conv(ints(c.phi[phi_pos(c.len, 0) + i]), chunk(wit[c.idx[0] as int], c.off[0] + i), k);
    let g = |i: int|
        conv(
            ints(half_factor(rs[i / 2], part, i % 2, q)),
            centered_half(es[i / 2], i % 2, q),
            k,
        );
    assert forall|i: int| 0 <= i < 2 * n implies #[trigger] f(i) == g(i) by {
        assert(phi_pos(c.len, 0) == 0);
        assert(c.phi[i] == y_factors(s, row, part, q)[i]);
        y_chunk(l, s, w, y, c1, q, i);
    }
    sum_ext(0, 2 * n, f, g);
    assert forall|e: int| 0 <= e < n implies reduced(#[trigger] es[e].v@, q) by {
        y_flat_range(s, e);
        assert(reduced(y[y_flat(s, e)].v@, q));
    }
    assert forall|e: int| 0 <= e < rs.len() implies full(#[trigger] rs[e]) by {
        y_flat_range(s, e);
        assert(full(row[y_flat(s, e)]));
    }
    row_product(rs, es, n, part, k, q);
    let m = 2 * k + part;
    let by_order = |e: int| conv(element(rs[e]), ring_coeffs(es[e]), m);
    let target = |i: int| conv(element(row[i]), ring_coeffs(y[0 + i]), m);
    let ordered = |e: int| target(y_flat(s, e));
    sum_ext(0, n, by_order, ordered);
    law_ydec_is_permutation(s, target);
}

/// What a block over `n` digits contributes that stand from half `2 * at` of
/// vector 1 on.
proof fn digit_block_value(
    c: ConstraintView,
    wit: Seq<Seq<i64>>,
    j: int,
    base_log: usize,
    els: Seq<RingElement>,
    start: int,
    n: int,
    part: int,
    k: int,
    q: u64,
)
    requires
        0 < q <= i64::MAX,
        part == 0 || part == 1,
        0 <= k < 64,
        0 <= start,
        0 <= n,
        start + n <= els.len(),
        all_reduced(els, q),
        forall|kk: int| 0 <= kk < n ==> #[trigger] (base_log * kk) < 64,
        c.len[j] == 2 * n,
        forall|i: int|
            0 <= i < 2 * n ==> c.phi[#[trigger] (phi_pos(c.len, j) + i)] == digit_factors(
                base_log,
                n,
                part,
                q,
            )[i],
        forall|i: int|
            0 <= i < 2 * n ==> #[trigger] chunk(wit[c.idx[j] as int], c.off[j] + i)
                == centered_half(els[start + i / 2], i % 2, q),
    ensures
        cong(
            block_value(c, wit, j, k),
            0 - recompose(base_log, els, start, n, 2 * k + part),
            q as int,
        ),
{
    let es = els.subrange(start, start + n);
    let m = 2 * k + part;
    let f = |i: int|
        conv(ints(c.phi[phi_pos(c.len, j) + i]), chunk(wit[c.idx[j] as int], c.off[j] + i), k);
    let g = |i: int|
        conv(
            ints(digit_factors(base_log, n, part, q)[i]),
            centered_half(es[i / 2], i % 2, q),
            k,
        );
    assert forall|i: int| 0 <= i < 2 * n implies #[trigger] f(i) == g(i) by {
        let at = phi_pos(c.len, j) + i;
        assert(c.phi[at] == digit_factors(base_log, n, part, q)[i]);
        assert(chunk(wit[c.idx[j] as int], c.off[j] + i) == centered_half(
            els[start + i / 2],
            i % 2,
            q,
        ));
    }
    sum_ext(0, 2 * n, f, g);
    assert forall|i: int| 0 <= i < n implies reduced(#[trigger] es[i].v@, q) by {
        assert(reduced(els[start + i].v@, q));
    }
    digits_product(base_log, es, n, part, k, q);
    let a = |kk: int| pow2((base_log * kk) as nat) * ring_coeffs(es[0 + kk])[m];
    let b = |kk: int| pow2((base_log * kk) as nat) * ring_coeffs(els[start + kk])[m];
    sum_ext(0, n, a, b);
}

/// What half `part` of an inner commitment constraint amounts to: coefficient
/// `k` of its left-hand side is congruent to coefficient `2k + part` of the key
/// row times the column of `w`, less the element that the digits stand for.
pub proof fn commit_lhs(
    l: Layout,
    s: ChainShape,
    d: PublicView,
    q: u64,
    w: Seq<RingElement>,
    y: Seq<RingElement>,
    c1: Seq<RingElement>,
    col: int,
    t: int,
    part: int,
    k: int,
)
    requires
        0 < q <= i64::MAX,
        shape_ok(s),
        layout_matches(l, s),
        data_fits(s, d),
        data_full(d),
        boundary_fits(s, w, y, c1, q),
        0 <= col < s.width,
        0 <= t < s.a1_rank,
        part == 0 || part == 1,
        0 <= k < 64,
    ensures
        cong(
            lhs(
                commit_constraint(l, s, d, q, col, t, part),
                boundary_witness(l, s, w, y, c1, q),
                k,
            ),
            inner_product(d.a1[t], w, col * s.height, s.height as int, 2 * k + part) - recompose(
                d.a2_base_log,
                y,
                (t * s.width + col) * s.num_digits_y,
                s.num_digits_y as int,
                2 * k + part,
            ),
            q as int,
        ),
{
    let c = commit_constraint(l, s, d, q, col, t, part);
    let wit = boundary_witness(l, s, w, y, c1, q);
    let start = col * s.height;
    let h = s.height as int;
    let nd = s.num_digits_y as int;
    let p = s.a1_rank_padded as int;
    let blocks = w_blocks(l, start, start + s.height);
    let nb = blocks.len() as int;
    let m = 2 * k + part;
    shape_lengths(s);
    assert(0 <= col * s.height && col * s.height + s.height <= s.height * s.width)
        by (nonlinear_arith)
        requires
            0 <= col < s.width,
            0 <= s.height,
    ;
    assert(begins_with(c, l, d.a1[t], start, h, part, q)) by {
        let phi = gather(factors(d.a1[t], h, part, q), blocks, start, nb);
        assert(c.phi.len() == phi.len() + digit_factors(d.a2_base_log, nd, part, q).len());
    }
    range_value(c, l, s, d.a1[t], w, y, c1, start, h, part, k, q);
    let value = |j: int| block_value(c, wit, j, k);
    assert(c.idx.len() == nb + 1);
    assert(lhs(c, wit, k) == sum(0, nb, value) + value(nb));
    let at = (col * p + t) * nd;
    let from = (t * s.width + col) * nd;
    mixed_radix_bound(col, t, s.width as int, p);
    assert(0 <= at && at * 2 + nd * 2 <= ydec_halves(s)) by (nonlinear_arith)
        requires
            at == (col * p + t) * nd,
            0 <= col * p + t,
            col * p + t + 1 <= s.width * p,
            0 <= nd,
            ydec_halves(s) == s.width * p * nd * 2,
    ;
    mixed_radix_bound(t, col, p, s.width as int);
    assert(p * s.width == s.width * p) by (nonlinear_arith);
    assert(0 <= from && from + nd <= s.width * p * nd) by (nonlinear_arith)
        requires
            from == (t * s.width + col) * nd,
            0 <= t * s.width + col,
            t * s.width + col + 1 <= s.width * p,
            0 <= nd,
    ;
    assert(c.off[nb] == ydec_base(l) + at * 2);
    assert(c.len[nb] == 2 * nd);
    assert forall|i: int| 0 <= i < 2 * nd implies c.phi[#[trigger] (phi_pos(c.len, nb) + i)]
        == digit_factors(d.a2_base_log, nd, part, q)[i] by {}
    assert forall|i: int| 0 <= i < 2 * nd implies #[trigger] chunk(
        wit[c.idx[nb] as int],
        c.off[nb] + i,
    ) == centered_half(y[from + i / 2], i % 2, q) by {
        let big = at * 2 + i;
        y_chunk(l, s, w, y, c1, q, big);
        assert(big / 2 == at + i / 2);
        assert(big % 2 == i % 2);
        y_flat_at(s, col, t, i / 2);
        assert(c.off[nb] + i == ydec_base(l) + big);
    }
    digit_block_value(c, wit, nb, d.a2_base_log, y, from, nd, part, k, q);
    cong_add(
        sum(0, nb, value),
        inner_product(d.a1[t], w, start, h, m),
        value(nb),
        0 - recompose(d.a2_base_log, y, from, nd, m),
        q as int,
    );
}

/// What half `part` of an outer commitment constraint amounts to: coefficient
/// `k` of its left-hand side is congruent to coefficient `2k + part` of the key
/// row times the committed digits, less the element that the digits of the last
/// level stand for, if there is such a level.
pub proof fn outer_lhs(
    l: Layout,
    s: ChainShape,
    d: PublicView,
    q: u64,
    w: Seq<RingElement>,
    y: Seq<RingElement>,
    c1: Seq<RingElement>,
    u: int,
    part: int,
    k: int,
)
    requires
        0 < q <= i64::MAX,
        shape_ok(s),
        layout_matches(l, s),
        data_fits(s, d),
        data_full(d),
        boundary_fits(s, w, y, c1, q),
        0 <= u < s.a2_rank,
        part == 0 || part == 1,
        0 <= k < 64,
    ensures
        cong(
            lhs(outer_constraint(l, s, d, q, u, part), boundary_witness(l, s, w, y, c1, q), k),
            inner_product(
                d.a2[u],
                y,
                0,
                s.width * s.a1_rank_padded * s.num_digits_y,
                2 * k + part,
            ) - if s.has_c1dec {
                recompose(
                    d.a3_base_log,
                    c1,
                    u * s.num_digits_c1,
                    s.num_digits_c1 as int,
                    2 * k + part,
                )
            } else {
                0
            },
            q as int,
        ),
{
    let c = outer_constraint(l, s, d, q, u, part);
    let wit = boundary_witness(l, s, w, y, c1, q);
    let m = 2 * k + part;
    let n = s.width * s.a1_rank_padded * s.num_digits_y;
    shape_lengths(s);
    y_block_value(c, l, s, d.a2[u], w, y, c1, part, k, q);
    let value = |j: int| block_value(c, wit, j, k);
    assert(sum(0, 1, value) == sum(0, 0, value) + value(0));
    if s.has_c1dec {
        assert(lhs(c, wit, k) == sum(0, 1, value) + value(1));
        let nd = s.num_digits_c1 as int;
        let at = u * nd;
        assert(0 <= at && at + nd <= s.a2_rank * nd) by (nonlinear_arith)
            requires
                at == u * nd,
                0 <= u < s.a2_rank,
                0 <= nd,
        ;
        let lens = |i: int| c.len[i] as int;
        assert(phi_pos(c.len, 1) == sum(0, 0, lens) + lens(0));
        assert(c.off[1] == c1dec_base(l) + at * 2);
        assert forall|i: int| 0 <= i < 2 * nd implies c.phi[#[trigger] (phi_pos(c.len, 1) + i)]
            == digit_factors(d.a3_base_log, nd, part, q)[i] by {}
        assert forall|i: int| 0 <= i < 2 * nd implies #[trigger] chunk(
            wit[c.idx[1] as int],
            c.off[1] + i,
        ) == centered_half(c1[at + i / 2], i % 2, q) by {
            let big = at * 2 + i;
            c_chunk(l, s, w, y, c1, q, big);
            assert(big / 2 == at + i / 2);
            assert(big % 2 == i % 2);
            assert(c.off[1] + i == c1dec_base(l) + big);
        }
        digit_block_value(c, wit, 1, d.a3_base_log, c1, at, nd, part, k, q);
        cong_add(
            value(0),
            inner_product(d.a2[u], y, 0, n, m),
            value(1),
            0 - recompose(d.a3_base_log, c1, at, nd, m),
            q as int,
        );
    } else {
        assert(lhs(c, wit, k) == sum(0, 1, value));
    }
}

/// What half `part` of a root constraint amounts to: coefficient `k` of its
/// left-hand side is congruent to coefficient `2k + part` of the key of the last
/// level times its digits.
pub proof fn root_lhs(
    l: Layout,
    s: ChainShape,
    d: PublicView,
    q: u64,
    w: Seq<RingElement>,
    y: Seq<RingElement>,
    c1: Seq<RingElement>,
    part: int,
    k: int,
)
    requires
        0 < q <= i64::MAX,
        shape_ok(s),
        layout_matches(l, s),
        data_fits(s, d),
        data_full(d),
        boundary_fits(s, w, y, c1, q),
        s.has_c1dec,
        part == 0 || part == 1,
        0 <= k < 64,
    ensures
        cong(
            lhs(root_constraint(l, s, d, q, part), boundary_witness(l, s, w, y, c1, q), k),
            inner_product(d.a3, c1, 0, s.a2_rank * s.num_digits_c1, 2 * k + part),
            q as int,
        ),
{
    let c = root_constraint(l, s, d, q, part);
    let wit = boundary_witness(l, s, w, y, c1, q);
    let m = 2 * k + part;
    let n = s.a2_rank * s.num_digits_c1;
    shape_lengths(s);
    let value = |j: int| block_value(c, wit, j, k);
    assert(lhs(c, wit, k) == sum(0, 0, value) + value(0));
    let f = |i: int|
        conv(ints(c.phi[phi_pos(c.len, 0) + i]), chunk(wit[c.idx[0] as int], c.off[0] + i), k);
    let g = |i: int|
        conv(
            ints(half_factor(d.a3[i / 2], part, i % 2, q)),
            centered_half(c1[i / 2], i % 2, q),
            k,
        );
    assert forall|i: int| 0 <= i < 2 * n implies #[trigger] f(i) == g(i) by {
        assert(phi_pos(c.len, 0) == 0);
        c_chunk(l, s, w, y, c1, q, i);
    }
    sum_ext(0, 2 * n, f, g);
    row_product(d.a3, c1, n, part, k, q);
    let a = |i: int| conv(element(d.a3[i]), ring_coeffs(c1[i]), m);
    let b = |i: int| conv(element(d.a3[i]), ring_coeffs(c1[0 + i]), m);
    sum_ext(0, n, a, b);
}

/// What half `part` of evaluation constraint `j` amounts to: coefficient `k` of
/// its left-hand side is congruent to coefficient `2k + part` of `w` weighted
/// by the factors of the claim.
pub proof fn eval_lhs(
    l: Layout,
    s: ChainShape,
    d: PublicView,
    q: u64,
    w: Seq<RingElement>,
    y: Seq<RingElement>,
    c1: Seq<RingElement>,
    j: int,
    part: int,
    k: int,
)
    requires
        0 < q <= i64::MAX,
        shape_ok(s),
        layout_matches(l, s),
        data_fits(s, d),
        data_full(d),
        boundary_fits(s, w, y, c1, q),
        part == 0 || part == 1,
        0 <= k < 64,
    ensures
        cong(
            lhs(eval_constraint(l, s, d, q, j, part), boundary_witness(l, s, w, y, c1, q), k),
            inner_product(evals(d, j), w, 0, s.width * s.height, 2 * k + part),
            q as int,
        ),
{
    let c = eval_constraint(l, s, d, q, j, part);
    let n = s.width * s.height;
    shape_lengths(s);
    assert(s.width * s.height == s.height * s.width) by (nonlinear_arith);
    let blocks = w_blocks(l, 0, 0 + n);
    assert(begins_with(c, l, evals(d, j), 0, n, part, q));
    range_value(c, l, s, evals(d, j), w, y, c1, 0, n, part, k, q);
    assert(c.idx.len() == blocks.len());
}

/// A number congruent to `a - b` has remainder `r` exactly when `a` is
/// congruent to `b + r`.
proof fn remainder_iff(x: int, a: int, b: int, r: int, q: int)
    requires
        q > 0,
        cong(x, a - b, q),
        0 <= r < q,
    ensures
        x % q == r <==> cong(a, b + r, q),
{
    vstd::arithmetic::div_mod::lemma_small_mod(r as nat, q as nat);
    cong_iff(x, r, q);
    cong_refl(b, q);
    if cong(x, r, q) {
        cong_sym(x, a - b, q);
        cong_trans(a - b, x, r, q);
        cong_add(a - b, r, b, b, q);
        assert(a - b + b == a);
        assert(r + b == b + r);
    }
    if cong(a, b + r, q) {
        cong_add(a, b + r, b, b, q);
        assert(b + r - b == r);
        cong_trans(x, a - b, r, q);
    }
}

/// Both halves of an inner commitment constraint together say that the
/// commitment is right.
proof fn commit_iff(
    l: Layout,
    s: ChainShape,
    d: PublicView,
    q: u64,
    w: Seq<RingElement>,
    y: Seq<RingElement>,
    c1: Seq<RingElement>,
    col: int,
    t: int,
)
    requires
        0 < q <= i64::MAX,
        shape_ok(s),
        layout_matches(l, s),
        data_fits(s, d),
        data_full(d),
        boundary_fits(s, w, y, c1, q),
        0 <= col < s.width,
        0 <= t < s.a1_rank,
    ensures
        commit_relation(s, d, q, w, y, col, t) <==> (holds(
            commit_constraint(l, s, d, q, col, t, 0),
            boundary_witness(l, s, w, y, c1, q),
            q,
        ) && holds(
            commit_constraint(l, s, d, q, col, t, 1),
            boundary_witness(l, s, w, y, c1, q),
            q,
        )),
{
    let wit = boundary_witness(l, s, w, y, c1, q);
    let a = |m: int| inner_product(d.a1[t], w, col * s.height, s.height as int, m);
    let b = |m: int|
        recompose(d.a2_base_log, y, (t * s.width + col) * s.num_digits_y, s.num_digits_y as int, m);
    assert forall|part: int, k: int|
        (part == 0 || part == 1) && 0 <= k < 64 implies (#[trigger] lhs(
        commit_constraint(l, s, d, q, col, t, part),
        wit,
        k,
    ) % (q as int) == 0 <==> cong(a(2 * k + part), b(2 * k + part), q as int)) by {
        commit_lhs(l, s, d, q, w, y, c1, col, t, part, k);
        let m = 2 * k + part;
        remainder_iff(
            lhs(commit_constraint(l, s, d, q, col, t, part), wit, k),
            a(m),
            b(m),
            0,
            q as int,
        );
    }
    if commit_relation(s, d, q, w, y, col, t) {
        assert forall|part: int, k: int|
            (part == 0 || part == 1) && 0 <= k < 64 implies #[trigger] lhs(
            commit_constraint(l, s, d, q, col, t, part),
            wit,
            k,
        ) % (q as int) == rhs(commit_constraint(l, s, d, q, col, t, part), k) by {
            let m = 2 * k + part;
            assert(cong(
                inner_product(d.a1[t], w, col * s.height, s.height as int, m),
                b(m),
                q as int,
            ));
        }
    }
    if holds(commit_constraint(l, s, d, q, col, t, 0), wit, q) && holds(
        commit_constraint(l, s, d, q, col, t, 1),
        wit,
        q,
    ) {
        assert forall|m: int| 0 <= m < 128 implies cong(
            #[trigger] inner_product(d.a1[t], w, col * s.height, s.height as int, m),
            b(m),
            q as int,
        ) by {
            let k = m / 2;
            let part = m % 2;
            let c = commit_constraint(l, s, d, q, col, t, part);
            assert(holds(c, wit, q));
            assert(lhs(c, wit, k) % (q as int) == rhs(c, k));
            assert(m == 2 * k + part);
        }
    }
}

/// What an outer commitment constraint is compared to.
spec fn outer_target(
    s: ChainShape,
    d: PublicView,
    c1: Seq<RingElement>,
    u: int,
    m: int,
) -> int {
    if s.has_c1dec {
        recompose(d.a3_base_log, c1, u * s.num_digits_c1, s.num_digits_c1 as int, m)
    } else {
        element(d.commitment[u])[m]
    }
}

/// Both halves of an outer commitment constraint together say that the
/// commitment is right.
proof fn outer_iff(
    l: Layout,
    s: ChainShape,
    d: PublicView,
    q: u64,
    w: Seq<RingElement>,
    y: Seq<RingElement>,
    c1: Seq<RingElement>,
    u: int,
)
    requires
        0 < q <= i64::MAX,
        shape_ok(s),
        layout_matches(l, s),
        data_fits(s, d),
        data_full(d),
        targets_reduced(d, q),
        boundary_fits(s, w, y, c1, q),
        0 <= u < s.a2_rank,
    ensures
        outer_relation(s, d, q, y, c1, u) <==> (holds(
            outer_constraint(l, s, d, q, u, 0),
            boundary_witness(l, s, w, y, c1, q),
            q,
        ) && holds(
            outer_constraint(l, s, d, q, u, 1),
            boundary_witness(l, s, w, y, c1, q),
            q,
        )),
{
    let wit = boundary_witness(l, s, w, y, c1, q);
    let n = s.width * s.a1_rank_padded * s.num_digits_y;
    let a = |m: int| inner_product(d.a2[u], y, 0, n, m);
    assert forall|part: int, k: int|
        (part == 0 || part == 1) && 0 <= k < 64 implies (#[trigger] lhs(
        outer_constraint(l, s, d, q, u, part),
        wit,
        k,
    ) % (q as int) == rhs(outer_constraint(l, s, d, q, u, part), k) <==> cong(
        a(2 * k + part),
        outer_target(s, d, c1, u, 2 * k + part),
        q as int,
    )) by {
        outer_lhs(l, s, d, q, w, y, c1, u, part, k);
        let m = 2 * k + part;
        let c = outer_constraint(l, s, d, q, u, part);
        if s.has_c1dec {
            remainder_iff(lhs(c, wit, k), a(m), outer_target(s, d, c1, u, m), 0, q as int);
        } else {
            let e = d.commitment[u];
            assert(m / 2 == k && m % 2 == part);
            assert(element(e)[m] == half(e, part)[k] as int);
            assert(full(e) && half_reduced(e, q));
            remainder_iff(lhs(c, wit, k), a(m), 0, half(e, part)[k] as int, q as int);
        }
    }
    if outer_relation(s, d, q, y, c1, u) {
        assert forall|part: int, k: int|
            (part == 0 || part == 1) && 0 <= k < 64 implies #[trigger] lhs(
            outer_constraint(l, s, d, q, u, part),
            wit,
            k,
        ) % (q as int) == rhs(outer_constraint(l, s, d, q, u, part), k) by {
            let m = 2 * k + part;
            assert(cong(
                inner_product(d.a2[u], y, 0, n, m),
                outer_target(s, d, c1, u, m),
                q as int,
            ));
        }
    }
    if holds(outer_constraint(l, s, d, q, u, 0), wit, q) && holds(
        outer_constraint(l, s, d, q, u, 1),
        wit,
        q,
    ) {
        assert forall|m: int| 0 <= m < 128 implies cong(
            #[trigger] inner_product(d.a2[u], y, 0, n, m),
            outer_target(s, d, c1, u, m),
            q as int,
        ) by {
            let k = m / 2;
            let part = m % 2;
            let c = outer_constraint(l, s, d, q, u, part);
            assert(holds(c, wit, q));
            assert(lhs(c, wit, k) % (q as int) == rhs(c, k));
            assert(m == 2 * k + part);
        }
    }
}

/// A pair of constraints, one for each half, that both compare an inner
/// product to the halves of `e`, holds exactly when the inner product is `e`.
proof fn pair_iff(
    c0: ConstraintView,
    c1: ConstraintView,
    wit: Seq<Seq<i64>>,
    row: Seq<Halves>,
    els: Seq<RingElement>,
    n: int,
    e: Halves,
    q: u64,
)
    requires
        q > 0,
        full(e),
        half_reduced(e, q),
        c0.b == Some(half(e, 0)),
        c1.b == Some(half(e, 1)),
        forall|k: int|
            0 <= k < 64 ==> cong(
                #[trigger] lhs(c0, wit, k),
                inner_product(row, els, 0, n, 2 * k),
                q as int,
            ),
        forall|k: int|
            0 <= k < 64 ==> cong(
                #[trigger] lhs(c1, wit, k),
                inner_product(row, els, 0, n, 2 * k + 1),
                q as int,
            ),
    ensures
        (holds(c0, wit, q) && holds(c1, wit, q)) <==> forall|m: int|
            0 <= m < 128 ==> cong(
                #[trigger] inner_product(row, els, 0, n, m),
                element(e)[m],
                q as int,
            ),
{
    assert forall|k: int| 0 <= k < 64 implies (#[trigger] lhs(c0, wit, k) % (q as int) == rhs(c0, k)
        <==> cong(inner_product(row, els, 0, n, 2 * k), element(e)[2 * k], q as int)) by {
        assert((2 * k) / 2 == k && (2 * k) % 2 == 0);
        remainder_iff(
            lhs(c0, wit, k),
            inner_product(row, els, 0, n, 2 * k),
            0,
            half(e, 0)[k] as int,
            q as int,
        );
    }
    assert forall|k: int| 0 <= k < 64 implies (#[trigger] lhs(c1, wit, k) % (q as int) == rhs(c1, k)
        <==> cong(inner_product(row, els, 0, n, 2 * k + 1), element(e)[2 * k + 1], q as int)) by {
        assert((2 * k + 1) / 2 == k && (2 * k + 1) % 2 == 1);
        remainder_iff(
            lhs(c1, wit, k),
            inner_product(row, els, 0, n, 2 * k + 1),
            0,
            half(e, 1)[k] as int,
            q as int,
        );
    }
    if holds(c0, wit, q) && holds(c1, wit, q) {
        assert forall|m: int| 0 <= m < 128 implies cong(
            #[trigger] inner_product(row, els, 0, n, m),
            element(e)[m],
            q as int,
        ) by {
            let k = m / 2;
            if m % 2 == 0 {
                assert(m == 2 * k);
                assert(lhs(c0, wit, k) % (q as int) == rhs(c0, k));
            } else {
                assert(m == 2 * k + 1);
                assert(lhs(c1, wit, k) % (q as int) == rhs(c1, k));
            }
        }
    }
    if forall|m: int|
        0 <= m < 128 ==> cong(
            #[trigger] inner_product(row, els, 0, n, m),
            element(e)[m],
            q as int,
        ) {
        assert forall|k: int| 0 <= k < 64 implies #[trigger] lhs(c0, wit, k) % (q as int) == rhs(
            c0,
            k,
        ) by {
            let m = 2 * k;
            assert(cong(inner_product(row, els, 0, n, m), element(e)[m], q as int));
        }
        assert forall|k: int| 0 <= k < 64 implies #[trigger] lhs(c1, wit, k) % (q as int) == rhs(
            c1,
            k,
        ) by {
            let m = 2 * k + 1;
            assert(cong(inner_product(row, els, 0, n, m), element(e)[m], q as int));
        }
    }
}

/// Both root constraints together say that the root commitment is right.
proof fn root_iff(
    l: Layout,
    s: ChainShape,
    d: PublicView,
    q: u64,
    w: Seq<RingElement>,
    y: Seq<RingElement>,
    c1: Seq<RingElement>,
)
    requires
        0 < q <= i64::MAX,
        shape_ok(s),
        layout_matches(l, s),
        data_fits(s, d),
        data_full(d),
        targets_reduced(d, q),
        boundary_fits(s, w, y, c1, q),
        s.has_c1dec,
    ensures
        root_relation(s, d, q, c1) <==> (holds(
            root_constraint(l, s, d, q, 0),
            boundary_witness(l, s, w, y, c1, q),
            q,
        ) && holds(root_constraint(l, s, d, q, 1), boundary_witness(l, s, w, y, c1, q), q)),
{
    let wit = boundary_witness(l, s, w, y, c1, q);
    let k0 = root_constraint(l, s, d, q, 0);
    let k1 = root_constraint(l, s, d, q, 1);
    let n = s.a2_rank * s.num_digits_c1;
    assert forall|k: int| 0 <= k < 64 implies cong(
        #[trigger] lhs(k0, wit, k),
        inner_product(d.a3, c1, 0, n, 2 * k),
        q as int,
    ) by {
        root_lhs(l, s, d, q, w, y, c1, 0, k);
    }
    assert forall|k: int| 0 <= k < 64 implies cong(
        #[trigger] lhs(k1, wit, k),
        inner_product(d.a3, c1, 0, n, 2 * k + 1),
        q as int,
    ) by {
        root_lhs(l, s, d, q, w, y, c1, 1, k);
    }
    let e = d.commitment[0];
    assert(full(e) && half_reduced(e, q));
    pair_iff(k0, k1, wit, d.a3, c1, n, e, q);
}

/// Both halves of an evaluation constraint together say that the claim is
/// right.
proof fn eval_iff(
    l: Layout,
    s: ChainShape,
    d: PublicView,
    q: u64,
    w: Seq<RingElement>,
    y: Seq<RingElement>,
    c1: Seq<RingElement>,
    j: int,
)
    requires
        0 < q <= i64::MAX,
        shape_ok(s),
        layout_matches(l, s),
        data_fits(s, d),
        data_full(d),
        targets_reduced(d, q),
        boundary_fits(s, w, y, c1, q),
    ensures
        eval_relation(s, d, q, w, j) <==> (holds(
            eval_constraint(l, s, d, q, j, 0),
            boundary_witness(l, s, w, y, c1, q),
            q,
        ) && holds(eval_constraint(l, s, d, q, j, 1), boundary_witness(l, s, w, y, c1, q), q)),
{
    let wit = boundary_witness(l, s, w, y, c1, q);
    let k0 = eval_constraint(l, s, d, q, j, 0);
    let k1 = eval_constraint(l, s, d, q, j, 1);
    let n = s.width * s.height;
    assert forall|k: int| 0 <= k < 64 implies cong(
        #[trigger] lhs(k0, wit, k),
        inner_product(evals(d, j), w, 0, n, 2 * k),
        q as int,
    ) by {
        eval_lhs(l, s, d, q, w, y, c1, j, 0, k);
    }
    assert forall|k: int| 0 <= k < 64 implies cong(
        #[trigger] lhs(k1, wit, k),
        inner_product(evals(d, j), w, 0, n, 2 * k + 1),
        q as int,
    ) by {
        eval_lhs(l, s, d, q, w, y, c1, j, 1, k);
    }
    pair_iff(k0, k1, wit, evals(d, j), w, n, claim(d, j), q);
}

/// Every constraint of a list holds.
pub open spec fn all_hold(cs: Seq<ConstraintView>, wit: Seq<Seq<i64>>, q: u64) -> bool {
    forall|i: int| 0 <= i < cs.len() ==> holds(#[trigger] cs[i], wit, q)
}

/// Two lists of constraints hold together exactly when each does.
proof fn all_hold_add(a: Seq<ConstraintView>, b: Seq<ConstraintView>, wit: Seq<Seq<i64>>, q: u64)
    ensures
        all_hold(a + b, wit, q) <==> all_hold(a, wit, q) && all_hold(b, wit, q),
{
    let ab = a + b;
    if all_hold(ab, wit, q) {
        assert forall|i: int| 0 <= i < a.len() implies holds(#[trigger] a[i], wit, q) by {
            assert(ab[i] == a[i]);
            assert(holds(ab[i], wit, q));
        }
        assert forall|i: int| 0 <= i < b.len() implies holds(#[trigger] b[i], wit, q) by {
            assert(ab[a.len() + i] == b[i]);
            assert(holds(ab[a.len() + i], wit, q));
        }
    }
}

/// The inner commitment constraints hold exactly when all inner commitments
/// are right.
proof fn commits_iff(
    l: Layout,
    s: ChainShape,
    d: PublicView,
    q: u64,
    w: Seq<RingElement>,
    y: Seq<RingElement>,
    c1: Seq<RingElement>,
)
    requires
        0 < q <= i64::MAX,
        shape_ok(s),
        layout_matches(l, s),
        data_fits(s, d),
        data_full(d),
        targets_reduced(d, q),
        boundary_fits(s, w, y, c1, q),
    ensures
        all_hold(commit_constraints(l, s, d, q), boundary_witness(l, s, w, y, c1, q), q)
            <==> commit_relations(s, d, q, w, y),
{
    let wit = boundary_witness(l, s, w, y, c1, q);
    let cc = commit_constraints(l, s, d, q);
    let rank = s.a1_rank as int;
    if all_hold(cc, wit, q) {
        assert forall|col: int, t: int|
            0 <= col < s.width && 0 <= t < s.a1_rank implies #[trigger] commit_relation(
            s,
            d,
            q,
            w,
            y,
            col,
            t,
        ) by {
            let i = (col * rank + t) * 2;
            mixed_radix(col, t, rank);
            mixed_radix_bound(col, t, s.width as int, rank);
            assert(i / 2 == col * rank + t && i % 2 == 0);
            assert((i + 1) / 2 == col * rank + t && (i + 1) % 2 == 1);
            assert(holds(cc[i], wit, q));
            assert(holds(cc[i + 1], wit, q));
            commit_iff(l, s, d, q, w, y, c1, col, t);
        }
    }
    if commit_relations(s, d, q, w, y) {
        assert forall|i: int| 0 <= i < cc.len() implies holds(#[trigger] cc[i], wit, q) by {
            let ct = i / 2;
            assert(rank > 0) by (nonlinear_arith)
                requires
                    0 <= i < s.width * rank * 2,
                    0 <= rank,
            ;
            vstd::arithmetic::div_mod::lemma_fundamental_div_mod(ct, rank);
            vstd::arithmetic::div_mod::lemma_mod_bound(ct, rank);
            let col = ct / rank;
            let t = ct % rank;
            assert(0 <= col < s.width) by (nonlinear_arith)
                requires
                    0 <= ct < s.width * rank,
                    ct == rank * col + t,
                    0 <= t < rank,
            ;
            assert(commit_relation(s, d, q, w, y, col, t));
            commit_iff(l, s, d, q, w, y, c1, col, t);
            assert(i % 2 == 0 || i % 2 == 1);
        }
    }
}

/// The outer commitment constraints hold exactly when all outer commitments
/// are right.
proof fn outers_iff(
    l: Layout,
    s: ChainShape,
    d: PublicView,
    q: u64,
    w: Seq<RingElement>,
    y: Seq<RingElement>,
    c1: Seq<RingElement>,
)
    requires
        0 < q <= i64::MAX,
        shape_ok(s),
        layout_matches(l, s),
        data_fits(s, d),
        data_full(d),
        targets_reduced(d, q),
        boundary_fits(s, w, y, c1, q),
    ensures
        all_hold(outer_constraints(l, s, d, q), boundary_witness(l, s, w, y, c1, q), q)
            <==> outer_relations(s, d, q, y, c1),
{
    let wit = boundary_witness(l, s, w, y, c1, q);
    let oc = outer_constraints(l, s, d, q);
    if all_hold(oc, wit, q) {
        assert forall|u: int| 0 <= u < s.a2_rank implies #[trigger] outer_relation(
            s,
            d,
            q,
            y,
            c1,
            u,
        ) by {
            assert(holds(oc[2 * u], wit, q));
            assert(holds(oc[2 * u + 1], wit, q));
            outer_iff(l, s, d, q, w, y, c1, u);
        }
    }
    if outer_relations(s, d, q, y, c1) {
        assert forall|i: int| 0 <= i < oc.len() implies holds(#[trigger] oc[i], wit, q) by {
            assert(outer_relation(s, d, q, y, c1, i / 2));
            outer_iff(l, s, d, q, w, y, c1, i / 2);
            assert(i % 2 == 0 || i % 2 == 1);
        }
    }
}

/// The root constraints hold exactly when the root commitment is right.
proof fn roots_iff(
    l: Layout,
    s: ChainShape,
    d: PublicView,
    q: u64,
    w: Seq<RingElement>,
    y: Seq<RingElement>,
    c1: Seq<RingElement>,
)
    requires
        0 < q <= i64::MAX,
        shape_ok(s),
        layout_matches(l, s),
        data_fits(s, d),
        data_full(d),
        targets_reduced(d, q),
        boundary_fits(s, w, y, c1, q),
    ensures
        all_hold(root_constraints(l, s, d, q), boundary_witness(l, s, w, y, c1, q), q) <==> (
        s.has_c1dec ==> root_relation(s, d, q, c1)),
{
    let rc = root_constraints(l, s, d, q);
    if s.has_c1dec {
        root_iff(l, s, d, q, w, y, c1);
        assert(rc[0] == root_constraint(l, s, d, q, 0));
        assert(rc[1] == root_constraint(l, s, d, q, 1));
    }
}

/// The evaluation constraints hold exactly when both claims are right.
proof fn all_evals_iff(
    l: Layout,
    s: ChainShape,
    d: PublicView,
    q: u64,
    w: Seq<RingElement>,
    y: Seq<RingElement>,
    c1: Seq<RingElement>,
)
    requires
        0 < q <= i64::MAX,
        shape_ok(s),
        layout_matches(l, s),
        data_fits(s, d),
        data_full(d),
        targets_reduced(d, q),
        boundary_fits(s, w, y, c1, q),
    ensures
        all_hold(eval_constraints(l, s, d, q), boundary_witness(l, s, w, y, c1, q), q)
            <==> eval_relation(s, d, q, w, 0) && eval_relation(s, d, q, w, 1),
{
    let ec = eval_constraints(l, s, d, q);
    eval_iff(l, s, d, q, w, y, c1, 0);
    eval_iff(l, s, d, q, w, y, c1, 1);
    assert(ec[0] == eval_constraint(l, s, d, q, 0, 0));
    assert(ec[1] == eval_constraint(l, s, d, q, 0, 1));
    assert(ec[2] == eval_constraint(l, s, d, q, 1, 0));
    assert(ec[3] == eval_constraint(l, s, d, q, 1, 1));
}

/// The constraints derived from public data mean what they should: on the
/// witness vectors of a boundary they all hold exactly when `w` and its digits
/// satisfy the boundary's relation, that is, the commitments open to `w` and
/// `w` meets both evaluation claims, over `Z_q[X] / (X^128 + 1)`.
pub proof fn law_constraints_mean_relation(
    l: Layout,
    s: ChainShape,
    d: PublicView,
    q: u64,
    w: Seq<RingElement>,
    y: Seq<RingElement>,
    c1: Seq<RingElement>,
)
    requires
        0 < q <= i64::MAX,
        shape_ok(s),
        layout_matches(l, s),
        data_fits(s, d),
        data_full(d),
        targets_reduced(d, q),
        boundary_fits(s, w, y, c1, q),
    ensures
        all_hold(public_constraints(l, s, d, q), boundary_witness(l, s, w, y, c1, q), q)
            <==> boundary_relation(s, d, q, w, y, c1),
{
    let wit = boundary_witness(l, s, w, y, c1, q);
    let cc = commit_constraints(l, s, d, q);
    let oc = outer_constraints(l, s, d, q);
    let rc = root_constraints(l, s, d, q);
    let ec = eval_constraints(l, s, d, q);
    all_hold_add(cc + oc + rc, ec, wit, q);
    all_hold_add(cc + oc, rc, wit, q);
    all_hold_add(cc, oc, wit, q);
    commits_iff(l, s, d, q, w, y, c1);
    outers_iff(l, s, d, q, w, y, c1);
    roots_iff(l, s, d, q, w, y, c1);
    all_evals_iff(l, s, d, q, w, y, c1);
}

} // verus!
