//! Where things stand: each coefficient of the boundary in the two witness
//! vectors, and each equation of its relation among the constraints.

use crate::check::lhs;
use crate::config::ChainShape;
use crate::export::{c1_of, the_layout, witness_for, ProverView};
use crate::layout::{
    block_in_range, block_sum, gather, law_blocks_partition, layout_matches, layout_ok, place,
    shape_fits, shape_lengths, w_blocks, Layout,
};
use crate::public::{
    commit_constraints, data_fits, eval_constraints, factors, mixed_radix, mixed_radix_bound,
    outer_constraints, public_constraints, root_constraints, shape_ok, y_flat_at, PublicView,
};
use crate::relation::{
    boundary_fits, boundary_witness, commit_lhs, data_full, eval_lhs, gather_len, inner_product,
    outer_lhs, recompose, root_lhs,
};
use crate::ring::{half, RingElement};
use crate::sums::{cong, sum, sum_ext};
use crate::witness::{coeffs_of, ydec_elements};
use vstd::prelude::*;

verus! {

/// The coefficients of element `i` of a list are the 128 from `128 * i` on,
/// centered.
pub proof fn law_coeffs_of(els: Seq<RingElement>, q: u64, i: int, k: int)
    requires
        q <= i64::MAX,
        0 <= i < els.len(),
        0 <= k < 128,
        els[i].v@[k] <= i64::MAX,
    ensures
        coeffs_of(els, q).len() == 128 * els.len(),
        coeffs_of(els, q)[128 * i + k] == if 2 * els[i].v@[k] > q {
            els[i].v@[k] - q
        } else {
            els[i].v@[k] as int
        },
{
    assert((128 * i + k) / 128 == i);
    assert((128 * i + k) % 128 == k);
}

/// Entry `k` of ring element `el`, centered.
pub open spec fn centered(el: RingElement, k: int, q: u64) -> int {
    if 2 * el.v@[k] > q {
        el.v@[k] - q
    } else {
        el.v@[k] as int
    }
}

/// Vector 0 holds the elements of `w` from the start of the inner stretch on.
/// Vector 1 holds the elements before that stretch, then those after it, then
/// the committed digits by column, row of the key and digit, then those of the
/// inner level in order. Each element takes 128 coefficients.
pub proof fn law_witness_entries(
    l: Layout,
    s: ChainShape,
    w: Seq<RingElement>,
    y: Seq<RingElement>,
    c1: Seq<RingElement>,
    q: u64,
    k: int,
)
    requires
        q <= i64::MAX,
        shape_fits(s),
        layout_matches(l, s),
        boundary_fits(s, w, y, c1, q),
        0 <= k < 128,
    ensures
        ({
            let wit = boundary_witness(l, s, w, y, c1, q);
            let inner = l.v0_end - l.v0_start;
            let rest = s.height * s.width - inner;
            let digits = s.width * s.a1_rank_padded * s.num_digits_y;
            let last = if s.has_c1dec {
                s.a2_rank * s.num_digits_c1
            } else {
                0
            };
            &&& wit.len() == 2
            &&& wit[0].len() == 128 * inner
            &&& wit[1].len() == 128 * (rest + digits + last)
            &&& forall|g: int|
                l.v0_start <= g < l.v0_end ==> wit[0][128 * (g - l.v0_start) + k] == centered(
                    #[trigger] w[g],
                    k,
                    q,
                )
            &&& forall|g: int|
                0 <= g < l.v0_start ==> wit[1][128 * g + k] == centered(#[trigger] w[g], k, q)
            &&& forall|g: int|
                l.v0_end <= g < s.height * s.width ==> wit[1][128 * (g - inner) + k] == centered(
                    #[trigger] w[g],
                    k,
                    q,
                )
            &&& forall|col: int, t: int, kk: int|
                0 <= col < s.width && 0 <= t < s.a1_rank_padded && 0 <= kk < s.num_digits_y
                    ==> wit[1][128 * (rest + (col * s.a1_rank_padded + t) * s.num_digits_y + kk) + k]
                    == centered(#[trigger] y[(t * s.width + col) * s.num_digits_y + kk], k, q)
            &&& forall|i: int|
                0 <= i < last ==> wit[1][128 * (rest + digits + i) + k] == centered(
                    #[trigger] c1[i],
                    k,
                    q,
                )
        }),
{
    let wit = boundary_witness(l, s, w, y, c1, q);
    let inner = l.v0_end - l.v0_start;
    let total = s.height * s.width;
    let rest = total - inner;
    let digits = s.width * s.a1_rank_padded * s.num_digits_y;
    shape_lengths(s);
    let wm = w.subrange(l.v0_start as int, l.v0_end as int);
    let wb = w.subrange(0, l.v0_start as int);
    let wa = w.subrange(l.v0_end as int, l.total as int);
    let yd = ydec_elements(s, y);
    let cd = crate::relation::inner_digits(s, c1);
    let pb = coeffs_of(wb, q);
    let pa = coeffs_of(wa, q);
    let py = coeffs_of(yd, q);
    let pc = coeffs_of(cd, q);
    assert(wit[1] == pb + pa + py + pc);
    assert(pb.len() == 128 * l.v0_start && pa.len() == 128 * (total - l.v0_end) && py.len() == 128
        * digits);
    assert forall|g: int| l.v0_start <= g < l.v0_end implies wit[0][128 * (g - l.v0_start) + k]
        == centered(#[trigger] w[g], k, q) by {
        assert(w[g].v@[k] < q);
        law_coeffs_of(wm, q, g - l.v0_start, k);
    }
    assert forall|g: int| 0 <= g < l.v0_start implies wit[1][128 * g + k] == centered(
        #[trigger] w[g],
        k,
        q,
    ) by {
        assert(w[g].v@[k] < q);
        law_coeffs_of(wb, q, g, k);
        assert(wit[1][128 * g + k] == pb[128 * g + k]);
    }
    assert forall|g: int| l.v0_end <= g < total implies wit[1][128 * (g - inner) + k] == centered(
        #[trigger] w[g],
        k,
        q,
    ) by {
        assert(w[g].v@[k] < q);
        law_coeffs_of(wa, q, g - l.v0_end, k);
        assert(wit[1][128 * (g - inner) + k] == pa[128 * (g - l.v0_end) + k]);
    }
    assert forall|col: int, t: int, kk: int|
        0 <= col < s.width && 0 <= t < s.a1_rank_padded && 0 <= kk
            < s.num_digits_y implies wit[1][128 * (rest + (col * s.a1_rank_padded + t)
        * s.num_digits_y + kk) + k] == centered(
        #[trigger] y[(t * s.width + col) * s.num_digits_y + kk],
        k,
        q,
    ) by {
        let e = (col * s.a1_rank_padded + t) * s.num_digits_y + kk;
        y_flat_at(s, col, t, kk);
        assert(yd[e] == y[(t * s.width + col) * s.num_digits_y + kk]);
        assert(yd[e].v@[k] < q);
        law_coeffs_of(yd, q, e, k);
        assert(wit[1][128 * (rest + e) + k] == py[128 * e + k]);
    }
    if s.has_c1dec {
        assert forall|i: int| 0 <= i < s.a2_rank * s.num_digits_c1 implies wit[1][128 * (rest
            + digits + i) + k] == centered(#[trigger] c1[i], k, q) by {
            assert(c1[i].v@[k] < q);
            assert(cd[i] == c1[i]);
            law_coeffs_of(cd, q, i, k);
            assert(wit[1][128 * (rest + digits + i) + k] == pc[128 * i + k]);
        }
    }
}

/// Half `m` of `w` stands at the place that the layout has for it: its 64
/// coefficients are those of element `m / 2`, the first 64 for an even `m`, the
/// last 64 for an odd one.
pub proof fn law_place(
    l: Layout,
    s: ChainShape,
    w: Seq<RingElement>,
    y: Seq<RingElement>,
    c1: Seq<RingElement>,
    q: u64,
    m: int,
    k: int,
)
    requires
        q <= i64::MAX,
        shape_fits(s),
        layout_matches(l, s),
        boundary_fits(s, w, y, c1, q),
        0 <= m < 2 * (s.height * s.width),
        0 <= k < 64,
    ensures
        ({
            let (v, at) = place(l, m);
            &&& v == 0 || v == 1
            &&& 0 <= 64 * at + k < boundary_witness(l, s, w, y, c1, q)[v].len()
            &&& boundary_witness(l, s, w, y, c1, q)[v][64 * at + k] == centered(
                w[m / 2],
                64 * (m % 2) + k,
                q,
            )
        }),
{
    let g = m / 2;
    let i = 64 * (m % 2) + k;
    shape_lengths(s);
    law_witness_entries(l, s, w, y, c1, q, i);
    let wit = boundary_witness(l, s, w, y, c1, q);
    let inner = l.v0_end - l.v0_start;
    let at = place(l, m).1;
    if l.v0_start <= g < l.v0_end {
        assert(wit[0][128 * (g - l.v0_start) + i] == centered(w[g], i, q));
        assert(64 * at + k == 128 * (g - l.v0_start) + i);
    } else if g < l.v0_start {
        assert(wit[1][128 * g + i] == centered(w[g], i, q));
        assert(64 * at + k == 128 * g + i);
    } else {
        assert(wit[1][128 * (g - inner) + i] == centered(w[g], i, q));
        assert(64 * at + k == 128 * (g - inner) + i);
    }
}

/// The exported witness is that of the boundary's own lists.
pub proof fn law_exported_witness(
    c: crate::config::SumcheckConfig,
    p: ProverView,
    q: u64,
)
    ensures
        ({
            let s = crate::config::shape_of(p.public.config);
            witness_for(c, p, q) == boundary_witness(
                the_layout(c, s),
                s,
                p.w,
                p.y,
                match p.c1 {
                    Some(v) => v,
                    None => Seq::empty(),
                },
                q,
            )
        }),
{
    assert(c1_of(p) =~= match p.c1 {
        Some(v) => v,
        None => Seq::empty(),
    });
}

/// First come the inner commitments, by column, row of the key and half; then
/// the outer ones, by row and half; then the root, if there is an inner level;
/// then the two claims, by half. Half `part` of an equation is about the
/// coefficients of the powers `2k + part`, and carries as its right-hand side
/// what the equation is compared to.
pub proof fn law_constraint_order(
    l: Layout,
    s: ChainShape,
    d: PublicView,
    q: u64,
    w: Seq<RingElement>,
    y: Seq<RingElement>,
    c1: Seq<RingElement>,
    part: int,
    k: int,
)
    requires
        0 < q <= i64::MAX,
        shape_ok(s),
        layout_matches(l, s),
        data_fits(s, d),
        data_full(d),
        boundary_fits(s, w, y, c1, q),
        part == 0 || part == 1,
        0 <= k < 64,
    ensures
        ({
            let cs = public_constraints(l, s, d, q);
            let wit = boundary_witness(l, s, w, y, c1, q);
            let commits = 2 * (s.width * s.a1_rank);
            let outers = 2 * s.a2_rank;
            let roots = if s.has_c1dec {
                2int
            } else {
                0
            };
            &&& cs.len() == commits + outers + roots + 4
            &&& forall|col: int, t: int|
                0 <= col < s.width && 0 <= t < s.a1_rank ==> {
                    let c = #[trigger] cs[2 * (col * s.a1_rank + t) + part];
                    &&& c.b is None
                    &&& cong(
                        lhs(c, wit, k),
                        inner_product(d.a1[t], w, col * s.height, s.height as int, 2 * k + part)
                            - recompose(
                            d.a2_base_log,
                            y,
                            (t * s.width + col) * s.num_digits_y,
                            s.num_digits_y as int,
                            2 * k + part,
                        ),
                        q as int,
                    )
                }
            &&& forall|u: int|
                0 <= u < s.a2_rank ==> {
                    let c = #[trigger] cs[commits + 2 * u + part];
                    &&& s.has_c1dec ==> c.b is None
                    &&& !s.has_c1dec ==> c.b == Some(half(d.commitment[u], part))
                    &&& cong(
                        lhs(c, wit, k),
                        inner_product(
                            d.a2[u],
                            y,
                            0,
                            s.width * s.a1_rank_padded * s.num_digits_y,
                            2 * k + part,
                        ) - if s.has_c1dec {
                            recompose(
                                d.a3_base_log,
                                c1,
                                u * s.num_digits_c1,
                                s.num_digits_c1 as int,
                                2 * k + part,
                            )
                        } else {
                            0
                        },
                        q as int,
                    )
                }
            &&& s.has_c1dec ==> {
                let c = cs[commits + outers + part];
                &&& c.b == Some(half(d.commitment[0], part))
                &&& cong(
                    lhs(c, wit, k),
                    inner_product(d.a3, c1, 0, s.a2_rank * s.num_digits_c1, 2 * k + part),
                    q as int,
                )
            }
            &&& cs[commits + outers + roots + part].b == Some(half(d.z0, part))
            &&& cong(
                lhs(cs[commits + outers + roots + part], wit, k),
                inner_product(d.evals0, w, 0, s.width * s.height, 2 * k + part),
                q as int,
            )
            &&& cs[commits + outers + roots + 2 + part].b == Some(half(d.z1, part))
            &&& cong(
                lhs(cs[commits + outers + roots + 2 + part], wit, k),
                inner_product(d.evals1, w, 0, s.width * s.height, 2 * k + part),
                q as int,
            )
        }),
{
    let cs = public_constraints(l, s, d, q);
    let cc = commit_constraints(l, s, d, q);
    let oc = outer_constraints(l, s, d, q);
    let rc = root_constraints(l, s, d, q);
    let ec = eval_constraints(l, s, d, q);
    let wit = boundary_witness(l, s, w, y, c1, q);
    let commits = 2 * (s.width * s.a1_rank);
    let outers = 2 * s.a2_rank;
    let roots = if s.has_c1dec {
        2int
    } else {
        0
    };
    assert(0 <= s.width * s.a1_rank) by (nonlinear_arith)
        requires
            0 <= s.width,
            0 <= s.a1_rank,
    ;
    assert(cs == cc + oc + rc + ec);
    assert(cc.len() == commits && oc.len() == outers && rc.len() == roots && ec.len() == 4);
    assert forall|col: int, t: int| 0 <= col < s.width && 0 <= t < s.a1_rank implies {
        let c = #[trigger] cs[2 * (col * s.a1_rank + t) + part];
        &&& c.b is None
        &&& cong(
            lhs(c, wit, k),
            inner_product(d.a1[t], w, col * s.height, s.height as int, 2 * k + part) - recompose(
                d.a2_base_log,
                y,
                (t * s.width + col) * s.num_digits_y,
                s.num_digits_y as int,
                2 * k + part,
            ),
            q as int,
        )
    } by {
        let e = col * s.a1_rank + t;
        let i = 2 * e + part;
        mixed_radix(col, t, s.a1_rank as int);
        mixed_radix_bound(col, t, s.width as int, s.a1_rank as int);
        assert(i / 2 == e && i % 2 == part);
        assert(cs[i] == cc[i]);
        commit_lhs(l, s, d, q, w, y, c1, col, t, part, k);
    }
    assert forall|u: int| 0 <= u < s.a2_rank implies {
        let c = #[trigger] cs[commits + 2 * u + part];
        &&& s.has_c1dec ==> c.b is None
        &&& !s.has_c1dec ==> c.b == Some(half(d.commitment[u], part))
        &&& cong(
            lhs(c, wit, k),
            inner_product(
                d.a2[u],
                y,
                0,
                s.width * s.a1_rank_padded * s.num_digits_y,
                2 * k + part,
            ) - if s.has_c1dec {
                recompose(
                    d.a3_base_log,
                    c1,
                    u * s.num_digits_c1,
                    s.num_digits_c1 as int,
                    2 * k + part,
                )
            } else {
                0
            },
            q as int,
        )
    } by {
        let i = 2 * u + part;
        assert(i / 2 == u && i % 2 == part);
        assert(cs[commits + i] == oc[i]);
        outer_lhs(l, s, d, q, w, y, c1, u, part, k);
    }
    if s.has_c1dec {
        assert(cs[commits + outers + part] == rc[part]);
        root_lhs(l, s, d, q, w, y, c1, part, k);
    }
    assert(part / 2 == 0 && part % 2 == part && (2 + part) / 2 == 1 && (2 + part) % 2 == part);
    assert(cs[commits + outers + roots + part] == ec[part]);
    assert(cs[commits + outers + roots + 2 + part] == ec[2 + part]);
    eval_lhs(l, s, d, q, w, y, c1, 0, part, k);
    eval_lhs(l, s, d, q, w, y, c1, 1, part, k);
}

/// A sum of ones counts.
proof fn sum_of_ones(lo: int, hi: int)
    requires
        lo <= hi,
    ensures
        sum(lo, hi, |i: int| 1) == hi - lo,
    decreases hi - lo,
{
    if lo < hi {
        sum_of_ones(lo, hi - 1);
    }
}

/// There are two gathered factors for each element of a range of `w`.
proof fn range_factors(l: Layout, all: Seq<Seq<u64>>, start: int, end: int)
    requires
        layout_ok(l),
        0 <= start <= end <= l.total,
        all.len() == 2 * (end - start),
    ensures
        ({
            let blocks = w_blocks(l, start, end);
            gather(all, blocks, start, blocks.len() as int).len() == 2 * (end - start)
        }),
{
    let blocks = w_blocks(l, start, end);
    let n = blocks.len() as int;
    let one = |i: int| 1int;
    let f = |b: int| block_sum(blocks[b], one);
    let g = |b: int| blocks[b].2 as int;
    assert forall|b: int| 0 <= b < n implies 0 <= 2 * ((#[trigger] blocks[b]).3 - start) && 2 * (
    blocks[b].3 - start) + blocks[b].2 <= all.len() by {
        block_in_range(l, start, end, b);
    }
    gather_len(all, blocks, start, n);
    law_blocks_partition(l, start, end, one);
    sum_of_ones(2 * start, 2 * end);
    assert forall|b: int| 0 <= b < n implies #[trigger] f(b) == g(b) by {
        sum_of_ones(2 * blocks[b].3 as int, 2 * blocks[b].3 + blocks[b].2);
    }
    sum_ext(0, n, f, g);
}

/// A constraint takes in what its equation is about and nothing else: an inner
/// commitment both halves of a column of `w` and of the digits of one entry, an
/// outer one those of all committed digits and of one entry's digits at the
/// inner level, the root those of all digits there, and a claim those of `w`.
pub proof fn law_constraint_sizes(l: Layout, s: ChainShape, d: PublicView, q: u64, part: int)
    requires
        shape_ok(s),
        layout_matches(l, s),
        part == 0 || part == 1,
    ensures
        ({
            let cs = public_constraints(l, s, d, q);
            let commits = 2 * (s.width * s.a1_rank);
            let outers = 2 * s.a2_rank;
            let roots = if s.has_c1dec {
                2int
            } else {
                0
            };
            &&& forall|col: int, t: int|
                0 <= col < s.width && 0 <= t < s.a1_rank ==> (#[trigger] cs[2 * (col * s.a1_rank
                    + t) + part]).phi.len() == 2 * s.height + 2 * s.num_digits_y
            &&& forall|u: int|
                0 <= u < s.a2_rank ==> (#[trigger] cs[commits + 2 * u + part]).phi.len() == 2 * (
                s.width * s.a1_rank_padded * s.num_digits_y) + (if s.has_c1dec {
                    2 * s.num_digits_c1
                } else {
                    0
                })
            &&& s.has_c1dec ==> cs[commits + outers + part].phi.len() == 2 * (s.a2_rank
                * s.num_digits_c1)
            &&& cs[commits + outers + roots + part].phi.len() == 2 * (s.height * s.width)
            &&& cs[commits + outers + roots + 2 + part].phi.len() == 2 * (s.height * s.width)
        }),
{
    let cs = public_constraints(l, s, d, q);
    let cc = commit_constraints(l, s, d, q);
    let oc = outer_constraints(l, s, d, q);
    let rc = root_constraints(l, s, d, q);
    let ec = eval_constraints(l, s, d, q);
    let commits = 2 * (s.width * s.a1_rank);
    let outers = 2 * s.a2_rank;
    let roots = if s.has_c1dec {
        2int
    } else {
        0
    };
    shape_lengths(s);
    assert(s.width * s.height == s.height * s.width) by (nonlinear_arith);
    assert(0 <= s.width * s.a1_rank) by (nonlinear_arith)
        requires
            0 <= s.width,
            0 <= s.a1_rank,
    ;
    assert(cs == cc + oc + rc + ec);
    assert(cc.len() == commits && oc.len() == outers && rc.len() == roots && ec.len() == 4);
    assert forall|col: int, t: int| 0 <= col < s.width && 0 <= t < s.a1_rank implies (
    #[trigger] cs[2 * (col * s.a1_rank + t) + part]).phi.len() == 2 * s.height + 2
        * s.num_digits_y by {
        let e = col * s.a1_rank + t;
        let i = 2 * e + part;
        mixed_radix(col, t, s.a1_rank as int);
        mixed_radix_bound(col, t, s.width as int, s.a1_rank as int);
        assert(i / 2 == e && i % 2 == part);
        assert(cs[i] == cc[i]);
        assert(0 <= col * s.height && col * s.height + s.height <= s.height * s.width)
            by (nonlinear_arith)
            requires
                0 <= col < s.width,
                0 <= s.height,
        ;
        range_factors(
            l,
            factors(d.a1[t], s.height as int, part, q),
            col * s.height,
            col * s.height + s.height,
        );
    }
    assert forall|u: int| 0 <= u < s.a2_rank implies (#[trigger] cs[commits + 2 * u
        + part]).phi.len() == 2 * (s.width * s.a1_rank_padded * s.num_digits_y) + (
    if s.has_c1dec {
        2 * s.num_digits_c1
    } else {
        0
    }) by {
        let i = 2 * u + part;
        assert(i / 2 == u && i % 2 == part);
        assert(cs[commits + i] == oc[i]);
    }
    if s.has_c1dec {
        assert(cs[commits + outers + part] == rc[part]);
    }
    assert(part / 2 == 0 && part % 2 == part && (2 + part) / 2 == 1 && (2 + part) % 2 == part);
    assert(cs[commits + outers + roots + part] == ec[part]);
    assert(cs[commits + outers + roots + 2 + part] == ec[2 + part]);
    range_factors(l, factors(d.evals0, s.width * s.height, part, q), 0, s.width * s.height);
    range_factors(l, factors(d.evals1, s.width * s.height, part, q), 0, s.width * s.height);
}

} // verus!
