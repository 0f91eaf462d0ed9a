//! What LaBRADOR is handed: the coefficients of a constraint as one flat list
//! of signed numbers. The constraint that it reads from such a list is the one
//! that the list was made of.

use crate::check::{block_value, chunk, holds, lhs, phi_pos, rhs};
use crate::codec::well_formed;
use crate::config::ChainShape;
use crate::labrador::flat_signed;
use crate::layout::{block_in_range, gather, layout_matches, shape_lengths, w_blocks, Block, Layout};
use crate::negacyclic::conv;
use crate::public::{
    commit_constraint, commit_constraints, data_fits, digit_factors, eval_constraint, evals,
    factors, half_factor, outer_constraint, outer_constraints, public_constraints, root_constraint,
    root_constraints, shape_ok, y_factors, y_flat, PublicView,
};
use crate::r64::{ints, reduced};
use crate::relation::{data_full, half_reduced, y_flat_range};
use crate::ring::{all_full, full, Halves};
use crate::statement::ConstraintView;
use crate::structure::law_public_constraints_well_formed;
use crate::sums::{cong, sum, sum_ext, sum_split};
use vstd::arithmetic::div_mod::lemma_mod_bound;
use vstd::arithmetic::power2::pow2;
use vstd::prelude::*;

verus! {

/// A flat list has 64 entries for each element. Entry `64 * i + k` is the
/// coefficient `k` of element `i` if that fits a signed number, and congruent
/// to it modulo `2^64` in any case.
pub proof fn law_flat_signed(els: Seq<Seq<u64>>, i: int, k: int)
    requires
        0 <= i < els.len(),
        0 <= k < 64,
    ensures
        flat_signed(els).len() == 64 * els.len(),
        els[i][k] <= 0x7fff_ffff_ffff_ffff ==> flat_signed(els)[64 * i + k] == els[i][k],
        cong(flat_signed(els)[64 * i + k] as int, els[i][k] as int, 0x1_0000_0000_0000_0000),
{
    assert((64 * i + k) / 64 == i);
    assert((64 * i + k) % 64 == k);
}

/// Every coefficient of a constraint fits a signed number, as residues modulo
/// an admissible modulus do.
pub open spec fn coefficients_fit(c: ConstraintView) -> bool {
    &&& forall|i: int, k: int|
        0 <= i < c.phi.len() && 0 <= k < 64 ==> #[trigger] c.phi[i][k] <= 0x7fff_ffff_ffff_ffff
    &&& match c.b {
        Some(b) => forall|k: int| 0 <= k < 64 ==> #[trigger] b[k] <= 0x7fff_ffff_ffff_ffff,
        None => true,
    }
}

/// Coefficient `k` of what the blocks of a constraint sum to, its factors being
/// read from a flat list: element `m` of the factors is entries `64 * m` to
/// `64 * m + 63`.
pub open spec fn flat_lhs(
    c: ConstraintView,
    phi: Seq<i64>,
    wit: Seq<Seq<i64>>,
    k: int,
) -> int {
    sum(
        0,
        c.idx.len() as int,
        |j: int|
            sum(
                0,
                c.len[j] as int,
                |i: int|
                    conv(
                        Seq::new(64, |n: int| phi[64 * (phi_pos(c.len, j) + i) + n] as int),
                        Seq::new(64, |n: int| wit[c.idx[j] as int][64 * (c.off[j] + i) + n] as int),
                        k,
                    ),
            ),
    )
}

/// The factors of a block are among those of its constraint.
proof fn block_factors(c: ConstraintView, j: int)
    requires
        well_formed(c),
        0 <= j < c.idx.len(),
    ensures
        0 <= phi_pos(c.len, j),
        phi_pos(c.len, j) + c.len[j] <= c.phi.len(),
{
    let f = |i: int| c.len[i] as int;
    sum_split(0, j + 1, c.idx.len() as int, f);
    lengths_add_up(c.len, 0, j);
    lengths_add_up(c.len, j + 1, c.idx.len() as int);
}

/// Lengths sum to no less than zero.
proof fn lengths_add_up(len: Seq<usize>, lo: int, hi: int)
    ensures
        0 <= sum(lo, hi, |i: int| len[i] as int),
    decreases hi - lo,
{
    if lo < hi {
        lengths_add_up(len, lo, hi - 1);
    }
}

/// A witness meets the constraint that LaBRADOR reads from the flat lists
/// exactly when it meets the constraint itself.
pub proof fn law_handed_constraint(
    c: ConstraintView,
    phi: Seq<i64>,
    b: Option<Seq<i64>>,
    wit: Seq<Seq<i64>>,
    q: u64,
)
    requires
        well_formed(c),
        coefficients_fit(c),
        phi == flat_signed(c.phi),
        match (b, c.b) {
            (Some(v), Some(e)) => v == flat_signed(seq![e]),
            (None, None) => true,
            _ => false,
        },
    ensures
        holds(c, wit, q) <==> forall|k: int|
            0 <= k < 64 ==> #[trigger] flat_lhs(c, phi, wit, k) % (q as int) == match b {
                Some(v) => v[k] as int,
                None => 0,
            },
        b is Some ==> b->Some_0.len() == 64,
{
    assert forall|k: int| 0 <= k < 64 implies #[trigger] flat_lhs(c, phi, wit, k) == lhs(
        c,
        wit,
        k,
    ) by {
        flat_lhs_is_lhs(c, phi, wit, k);
    }
    assert forall|k: int| 0 <= k < 64 implies rhs(c, k) == (match b {
        Some(v) => v[k] as int,
        None => 0,
    }) by {
        if c.b is Some {
            let e = c.b->Some_0;
            law_flat_signed(seq![e], 0, k);
            assert(e[k] <= 0x7fff_ffff_ffff_ffff);
        }
    }
    if holds(c, wit, q) {
        assert forall|k: int| 0 <= k < 64 implies #[trigger] flat_lhs(c, phi, wit, k) % (q as int)
            == (match b {
            Some(v) => v[k] as int,
            None => 0,
        }) by {
            assert(lhs(c, wit, k) % (q as int) == rhs(c, k));
        }
    }
    if forall|k: int|
        0 <= k < 64 ==> #[trigger] flat_lhs(c, phi, wit, k) % (q as int) == match b {
            Some(v) => v[k] as int,
            None => 0,
        } {
        assert forall|k: int| 0 <= k < 64 implies #[trigger] lhs(c, wit, k) % (q as int) == rhs(
            c,
            k,
        ) by {
            assert(flat_lhs(c, phi, wit, k) % (q as int) == match b {
                Some(v) => v[k] as int,
                None => 0,
            });
        }
    }
}

/// Both left-hand sides are the same.
proof fn flat_lhs_is_lhs(c: ConstraintView, phi: Seq<i64>, wit: Seq<Seq<i64>>, k: int)
    requires
        well_formed(c),
        coefficients_fit(c),
        phi == flat_signed(c.phi),
    ensures
        flat_lhs(c, phi, wit, k) == lhs(c, wit, k),
{
    let outer = |j: int|
        sum(
            0,
            c.len[j] as int,
            |i: int|
                conv(
                    Seq::new(64, |n: int| phi[64 * (phi_pos(c.len, j) + i) + n] as int),
                    Seq::new(64, |n: int| wit[c.idx[j] as int][64 * (c.off[j] + i) + n] as int),
                    k,
                ),
        );
    let blocks = |j: int| block_value(c, wit, j, k);
    assert forall|j: int| 0 <= j < c.idx.len() implies #[trigger] outer(j) == blocks(j) by {
        let f = |i: int|
            conv(
                Seq::new(64, |n: int| phi[64 * (phi_pos(c.len, j) + i) + n] as int),
                Seq::new(64, |n: int| wit[c.idx[j] as int][64 * (c.off[j] + i) + n] as int),
                k,
            );
        let g = |i: int|
            conv(ints(c.phi[phi_pos(c.len, j) + i]), chunk(wit[c.idx[j] as int], c.off[j] + i), k);
        block_factors(c, j);
        assert forall|i: int| 0 <= i < c.len[j] implies #[trigger] f(i) == g(i) by {
            let m = phi_pos(c.len, j) + i;
            let a = Seq::new(64, |n: int| phi[64 * m + n] as int);
            assert(c.phi[m].len() == 64);
            assert forall|n: int| 0 <= n < 64 implies a[n] == ints(c.phi[m])[n] by {
                law_flat_signed(c.phi, m, n);
                assert(c.phi[m][n] <= 0x7fff_ffff_ffff_ffff);
            }
            assert(a =~= ints(c.phi[m]));
            assert(Seq::new(64, |n: int| wit[c.idx[j] as int][64 * (c.off[j] + i) + n] as int)
                =~= chunk(wit[c.idx[j] as int], c.off[j] + i));
        }
        sum_ext(0, c.len[j] as int, f, g);
    }
    sum_ext(0, c.idx.len() as int, outer, blocks);
}

/// All elements of a list have residues as coefficients.
pub open spec fn all_residues(els: Seq<Seq<u64>>, q: u64) -> bool {
    forall|i: int| 0 <= i < els.len() ==> reduced(#[trigger] els[i], q)
}

/// All elements of a row have residues as coefficients.
pub open spec fn row_reduced(row: Seq<Halves>, q: u64) -> bool {
    forall|i: int| 0 <= i < row.len() ==> half_reduced(#[trigger] row[i], q)
}

/// All elements of public data have residues as coefficients.
pub open spec fn data_reduced(d: PublicView, q: u64) -> bool {
    &&& forall|t: int| 0 <= t < d.a1.len() ==> row_reduced(#[trigger] d.a1[t], q)
    &&& forall|u: int| 0 <= u < d.a2.len() ==> row_reduced(#[trigger] d.a2[u], q)
    &&& row_reduced(d.a3, q)
    &&& row_reduced(d.evals0, q)
    &&& row_reduced(d.evals1, q)
    &&& row_reduced(d.commitment, q)
    &&& half_reduced(d.z0, q)
    &&& half_reduced(d.z1, q)
}

/// The two factors of an element with residues as coefficients have them, too.
proof fn half_factor_reduced(p: Halves, part: int, side: int, q: u64)
    requires
        q > 0,
        full(p),
        half_reduced(p, q),
    ensures
        reduced(half_factor(p, part, side, q), q),
{
    lemma_mod_bound(0 - p.1[63] as int, q as int);
}

/// The factors of a row with residues as coefficients have them, too.
proof fn factors_reduced(row: Seq<Halves>, n: int, part: int, q: u64)
    requires
        q > 0,
        0 <= n <= row.len(),
        all_full(row),
        row_reduced(row, q),
    ensures
        all_residues(factors(row, n, part, q), q),
{
    let f = factors(row, n, part, q);
    assert forall|i: int| 0 <= i < f.len() implies reduced(#[trigger] f[i], q) by {
        assert(full(row[i / 2]) && half_reduced(row[i / 2], q));
        half_factor_reduced(row[i / 2], part, i % 2, q);
    }
}

/// Gathered factors are among all factors.
proof fn gather_reduced(all: Seq<Seq<u64>>, blocks: Seq<Block>, q_start: int, n: int, q: u64)
    requires
        0 <= n <= blocks.len(),
        all_residues(all, q),
        forall|b: int|
            0 <= b < n ==> 0 <= 2 * ((#[trigger] blocks[b]).3 - q_start) && 2 * (blocks[b].3
                - q_start) + blocks[b].2 <= all.len(),
    ensures
        all_residues(gather(all, blocks, q_start, n), q),
    decreases n,
{
    if n > 0 {
        gather_reduced(all, blocks, q_start, n - 1, q);
        assert(0 <= 2 * (blocks[n - 1].3 - q_start));
    }
}

/// Digit weights are residues.
proof fn digits_reduced(base_log: usize, n: int, part: int, q: u64)
    requires
        q > 0,
    ensures
        all_residues(digit_factors(base_log, n, part, q), q),
{
    let f = digit_factors(base_log, n, part, q);
    assert forall|i: int| 0 <= i < f.len() implies reduced(#[trigger] f[i], q) by {
        let v = pow2((base_log * (i / 2)) as nat) as u64;
        lemma_mod_bound(0 - v as int, q as int);
    }
}

/// Where the public data have residues as coefficients, so have the factors and
/// right-hand sides of all constraints derived from them, and they fit signed
/// numbers: LaBRADOR is handed each constraint as it is.
pub proof fn law_derived_coefficients_fit(
    l: Layout,
    s: ChainShape,
    d: PublicView,
    q: u64,
    i: int,
)
    requires
        0 < q <= i64::MAX,
        shape_ok(s),
        layout_matches(l, s),
        data_fits(s, d),
        data_full(d),
        data_reduced(d, q),
        0 <= i < public_constraints(l, s, d, q).len(),
    ensures
        all_residues(public_constraints(l, s, d, q)[i].phi, q),
        public_constraints(l, s, d, q)[i].b is Some ==> reduced(
            public_constraints(l, s, d, q)[i].b->Some_0,
            q,
        ),
        coefficients_fit(public_constraints(l, s, d, q)[i]),
{
    let cc = commit_constraints(l, s, d, q);
    let oc = outer_constraints(l, s, d, q);
    let rc = root_constraints(l, s, d, q);
    let c = public_constraints(l, s, d, q)[i];
    let n0 = cc.len() as int;
    let n1 = n0 + oc.len();
    let n2 = n1 + rc.len();
    law_public_constraints_well_formed(l, s, d, q, i);
    shape_lengths(s);
    assert(s.width * s.height == s.height * s.width) by (nonlinear_arith);
    if i < n0 {
        let rank = s.a1_rank as int;
        let ct = i / 2;
        assert(rank > 0) by (nonlinear_arith)
            requires
                0 <= i < s.width * rank * 2,
                0 <= rank,
        ;
        vstd::arithmetic::div_mod::lemma_fundamental_div_mod(ct, rank);
        lemma_mod_bound(ct, rank);
        let col = ct / rank;
        let t = ct % rank;
        assert(0 <= col < s.width) by (nonlinear_arith)
            requires
                0 <= ct < s.width * rank,
                ct == rank * col + t,
                0 <= t < rank,
        ;
        assert(0 <= col * s.height && col * s.height + s.height <= s.height * s.width)
            by (nonlinear_arith)
            requires
                0 <= col < s.width,
                0 <= s.height,
        ;
        let start = col * s.height;
        let blocks = w_blocks(l, start, start + s.height);
        let all = factors(d.a1[t], s.height as int, i % 2, q);
        assert forall|b: int| 0 <= b < blocks.len() implies 0 <= 2 * ((#[trigger] blocks[b]).3
            - start) && 2 * (blocks[b].3 - start) + blocks[b].2 <= all.len() by {
            block_in_range(l, start, start + s.height, b);
        }
        assert(c == commit_constraint(l, s, d, q, col, t, i % 2));
        assert(all_full(d.a1[t]) && row_reduced(d.a1[t], q));
        factors_reduced(d.a1[t], s.height as int, i % 2, q);
        gather_reduced(all, blocks, start, blocks.len() as int, q);
        digits_reduced(d.a2_base_log, s.num_digits_y as int, i % 2, q);
    } else if i < n1 {
        let u = (i - n0) / 2;
        let part = (i - n0) % 2;
        assert(c == outer_constraint(l, s, d, q, u, part));
        let y = y_factors(s, d.a2[u], part, q);
        assert(all_full(d.a2[u]) && row_reduced(d.a2[u], q));
        assert forall|e: int| 0 <= e < y.len() implies reduced(#[trigger] y[e], q) by {
            y_flat_range(s, e / 2);
            let x = d.a2[u][y_flat(s, e / 2)];
            assert(full(x) && half_reduced(x, q));
            half_factor_reduced(x, part, e % 2, q);
        }
        digits_reduced(d.a3_base_log, s.num_digits_c1 as int, part, q);
        if !s.has_c1dec {
            assert(half_reduced(d.commitment[u], q));
        }
    } else if i < n2 {
        assert(c == root_constraint(l, s, d, q, i - n1));
        factors_reduced(d.a3, s.a2_rank * s.num_digits_c1, i - n1, q);
        assert(half_reduced(d.commitment[0], q));
    } else {
        let j = (i - n2) / 2;
        let part = (i - n2) % 2;
        let n = s.width * s.height;
        assert(c == eval_constraint(l, s, d, q, j, part));
        let blocks = w_blocks(l, 0, n);
        let all = factors(evals(d, j), n, part, q);
        assert forall|b: int| 0 <= b < blocks.len() implies 0 <= 2 * ((#[trigger] blocks[b]).3 - 0)
            && 2 * (blocks[b].3 - 0) + blocks[b].2 <= all.len() by {
            block_in_range(l, 0, n, b);
        }
        factors_reduced(evals(d, j), n, part, q);
        gather_reduced(all, blocks, 0, blocks.len() as int, q);
    }
    assert forall|m: int, k: int| 0 <= m < c.phi.len() && 0 <= k < 64 implies #[trigger] c.phi[m][k]
        <= 0x7fff_ffff_ffff_ffff by {
        assert(c.phi[m].len() == 64);
        assert(reduced(c.phi[m], q));
    }
}

} // verus!
