//! The form of the constraints that are derived from public data: their lists
//! go together, their blocks lie within the witness vectors, and the blocks of
//! a constraint are in order.

use crate::check::phi_pos;
use crate::codec::well_formed;
use crate::config::ChainShape;
use crate::layout::{
    block_in_range, gather, layout_matches, shape_lengths, vector_spec, w_blocks, ydec_halves,
    Block, Layout,
};
use crate::public::{
    c1dec_base, commit_constraint, commit_constraints, data_fits, digit_factors, eval_constraint,
    evals, factors, mixed_radix_bound, outer_constraint, outer_constraints,
    public_constraints, root_constraint, root_constraints, shape_ok, y_factors, ydec_base,
    PublicView,
};
use crate::relation::{data_full, gather_len, y_flat_range};
use crate::ring::{all_full, full, half};
use crate::statement::ConstraintView;
use crate::sums::{sum, sum_ext};
use vstd::prelude::*;

verus! {

/// Every block of a constraint lies within one of the two vectors of a layout.
pub open spec fn in_vectors(c: ConstraintView, l: Layout) -> bool {
    forall|j: int|
        0 <= j < c.idx.len() ==> (#[trigger] c.idx[j]) < 2 && c.off[j] + c.len[j] <= vector_spec(
            l,
            c.idx[j] as int,
        ).n
}

/// The blocks of a constraint are ordered by vector and offset.
pub open spec fn ordered(c: ConstraintView) -> bool {
    forall|i: int, j: int|
        0 <= i < j < c.idx.len() ==> (#[trigger] c.idx[i]) < (#[trigger] c.idx[j]) || c.idx[i]
            == c.idx[j] && c.off[i] < c.off[j]
}

/// No block of a constraint is empty.
pub open spec fn no_empty_block(c: ConstraintView) -> bool {
    forall|j: int| 0 <= j < c.idx.len() ==> #[trigger] c.len[j] > 0
}

/// There are digits at every level and, where there is a last level, ranks for
/// it.
pub open spec fn digits_present(s: ChainShape) -> bool {
    &&& s.a1_rank_padded >= 1
    &&& s.num_digits_y >= 1
    &&& s.has_c1dec ==> s.a2_rank >= 1 && s.num_digits_c1 >= 1
}

/// All elements of a list have 64 coefficients.
pub open spec fn all_elements(phi: Seq<Seq<u64>>) -> bool {
    forall|i: int| 0 <= i < phi.len() ==> (#[trigger] phi[i]).len() == 64
}

/// The factors of a full row have 64 coefficients.
proof fn factors_full(row: Seq<crate::ring::Halves>, n: int, part: int, q: u64)
    requires
        0 <= n <= row.len(),
        all_full(row),
    ensures
        all_elements(factors(row, n, part, q)),
{
    assert forall|i: int| 0 <= i < factors(row, n, part, q).len() implies (#[trigger] factors(
        row,
        n,
        part,
        q,
    )[i]).len() == 64 by {
        assert(full(row[i / 2]));
    }
}

/// Gathered factors have 64 coefficients if all factors do.
proof fn gather_full(all: Seq<Seq<u64>>, blocks: Seq<Block>, q_start: int, n: int)
    requires
        0 <= n <= blocks.len(),
        all_elements(all),
        forall|b: int|
            0 <= b < n ==> 0 <= 2 * ((#[trigger] blocks[b]).3 - q_start) && 2 * (blocks[b].3
                - q_start) + blocks[b].2 <= all.len(),
    ensures
        all_elements(gather(all, blocks, q_start, n)),
    decreases n,
{
    if n > 0 {
        gather_full(all, blocks, q_start, n - 1);
        assert(0 <= 2 * (blocks[n - 1].3 - q_start));
    }
}

/// An inner commitment constraint has the right form.
proof fn commit_form(
    l: Layout,
    s: ChainShape,
    d: PublicView,
    q: u64,
    col: int,
    t: int,
    part: int,
)
    requires
        shape_ok(s),
        layout_matches(l, s),
        data_fits(s, d),
        data_full(d),
        0 <= col < s.width,
        0 <= t < s.a1_rank,
    ensures
        well_formed(commit_constraint(l, s, d, q, col, t, part)),
        in_vectors(commit_constraint(l, s, d, q, col, t, part), l),
        ordered(commit_constraint(l, s, d, q, col, t, part)),
        1 <= commit_constraint(l, s, d, q, col, t, part).idx.len() <= 4,
        digits_present(s) ==> no_empty_block(commit_constraint(l, s, d, q, col, t, part)),
{
    let c = commit_constraint(l, s, d, q, col, t, part);
    let start = col * s.height;
    let h = s.height as int;
    let nd = s.num_digits_y as int;
    let p = s.a1_rank_padded as int;
    let blocks = w_blocks(l, start, start + s.height);
    let nb = blocks.len() as int;
    let all = factors(d.a1[t], h, part, q);
    shape_lengths(s);
    assert(0 <= col * s.height && col * s.height + s.height <= s.height * s.width)
        by (nonlinear_arith)
        requires
            0 <= col < s.width,
            0 <= s.height,
    ;
    mixed_radix_bound(col, t, s.width as int, p);
    let at = (col * p + t) * nd;
    assert(0 <= at && at * 2 + nd * 2 <= ydec_halves(s)) by (nonlinear_arith)
        requires
            at == (col * p + t) * nd,
            0 <= col * p + t,
            col * p + t + 1 <= s.width * p,
            0 <= nd,
            ydec_halves(s) == s.width * p * nd * 2,
    ;
    assert forall|b: int| 0 <= b < nb implies 0 <= 2 * ((#[trigger] blocks[b]).3 - start) && 2 * (
    blocks[b].3 - start) + blocks[b].2 <= all.len() by {
        block_in_range(l, start, start + s.height, b);
    }
    factors_full(d.a1[t], h, part, q);
    gather_full(all, blocks, start, nb);
    gather_len(all, blocks, start, nb);
    let lens = |i: int| c.len[i] as int;
    let blens = |i: int| blocks[i].2 as int;
    assert(c.idx.len() == nb + 1);
    sum_ext(0, nb, lens, blens);
    assert(phi_pos(c.len, nb + 1) == sum(0, nb, lens) + lens(nb));
    assert(c.off[nb] == ydec_base(l) + at * 2);
    assert(c.len[nb] == 2 * nd);
    assert(all_elements(digit_factors(d.a2_base_log, nd, part, q)));
    assert forall|j: int| 0 <= j < c.idx.len() implies (#[trigger] c.idx[j]) < 2 && c.off[j]
        + c.len[j] <= vector_spec(l, c.idx[j] as int).n by {
        if j < nb {
            block_in_range(l, start, start + s.height, j);
        }
    }
    if digits_present(s) {
        assert forall|j: int| 0 <= j < c.idx.len() implies #[trigger] c.len[j] > 0 by {
            if j < nb {
                block_in_range(l, start, start + s.height, j);
            }
        }
    }
}

/// An outer commitment constraint has the right form.
proof fn outer_form(l: Layout, s: ChainShape, d: PublicView, q: u64, u: int, part: int)
    requires
        shape_ok(s),
        layout_matches(l, s),
        data_fits(s, d),
        data_full(d),
        0 <= u < s.a2_rank,
    ensures
        well_formed(outer_constraint(l, s, d, q, u, part)),
        in_vectors(outer_constraint(l, s, d, q, u, part), l),
        s.has_c1dec ==> ydec_halves(s) > 0 ==> ordered(outer_constraint(l, s, d, q, u, part)),
        !s.has_c1dec ==> ordered(outer_constraint(l, s, d, q, u, part)),
        1 <= outer_constraint(l, s, d, q, u, part).idx.len() <= 4,
        s.width > 0 && digits_present(s) ==> no_empty_block(outer_constraint(l, s, d, q, u, part)),
{
    let c = outer_constraint(l, s, d, q, u, part);
    let y = y_factors(s, d.a2[u], part, q);
    shape_lengths(s);
    assert forall|i: int| 0 <= i < y.len() implies (#[trigger] y[i]).len() == 64 by {
        y_flat_range(s, i / 2);
        assert(full(d.a2[u][crate::public::y_flat(s, i / 2)]));
    }
    let lens = |i: int| c.len[i] as int;
    assert(sum(0, 1, lens) == sum(0, 0, lens) + lens(0));
    if s.has_c1dec {
        let nd = s.num_digits_c1 as int;
        assert(0 <= u * nd && u * nd * 2 + nd * 2 <= s.a2_rank * nd * 2) by (nonlinear_arith)
            requires
                0 <= u < s.a2_rank,
                0 <= nd,
        ;
        assert(sum(0, 2, lens) == sum(0, 1, lens) + lens(1));
        assert(all_elements(digit_factors(d.a3_base_log, nd, part, q)));
        assert(c.off[1] == c1dec_base(l) + u * nd * 2);
    } else {
        assert(full(d.commitment[u]));
    }
    if s.width > 0 && digits_present(s) {
        positive_product(s.width as int, s.a1_rank_padded as int);
        positive_product(s.width * s.a1_rank_padded, s.num_digits_y as int);
    }
}

/// The product of positive numbers is positive.
proof fn positive_product(a: int, b: int)
    requires
        a > 0,
        b > 0,
    ensures
        a * b > 0,
{
    assert(a * b > 0) by (nonlinear_arith)
        requires
            a > 0,
            b > 0,
    ;
}

/// A root constraint has the right form.
proof fn root_form(l: Layout, s: ChainShape, d: PublicView, q: u64, part: int)
    requires
        shape_ok(s),
        layout_matches(l, s),
        data_fits(s, d),
        data_full(d),
        s.has_c1dec,
    ensures
        well_formed(root_constraint(l, s, d, q, part)),
        in_vectors(root_constraint(l, s, d, q, part), l),
        ordered(root_constraint(l, s, d, q, part)),
        1 <= root_constraint(l, s, d, q, part).idx.len() <= 4,
        digits_present(s) ==> no_empty_block(root_constraint(l, s, d, q, part)),
{
    let c = root_constraint(l, s, d, q, part);
    shape_lengths(s);
    factors_full(d.a3, s.a2_rank * s.num_digits_c1, part, q);
    let lens = |i: int| c.len[i] as int;
    assert(sum(0, 1, lens) == sum(0, 0, lens) + lens(0));
    assert(full(d.commitment[0]));
    if digits_present(s) {
        positive_product(s.a2_rank as int, s.num_digits_c1 as int);
    }
}

/// An evaluation constraint has the right form.
proof fn eval_form(l: Layout, s: ChainShape, d: PublicView, q: u64, j: int, part: int)
    requires
        shape_ok(s),
        layout_matches(l, s),
        data_fits(s, d),
        data_full(d),
    ensures
        well_formed(eval_constraint(l, s, d, q, j, part)),
        in_vectors(eval_constraint(l, s, d, q, j, part), l),
        ordered(eval_constraint(l, s, d, q, j, part)),
        s.width * s.height > 0 ==> 1 <= eval_constraint(l, s, d, q, j, part).idx.len(),
        eval_constraint(l, s, d, q, j, part).idx.len() <= 4,
        no_empty_block(eval_constraint(l, s, d, q, j, part)),
{
    let c = eval_constraint(l, s, d, q, j, part);
    let n = s.width * s.height;
    shape_lengths(s);
    assert(s.width * s.height == s.height * s.width) by (nonlinear_arith);
    let blocks = w_blocks(l, 0, n);
    let nb = blocks.len() as int;
    let all = factors(evals(d, j), n, part, q);
    assert forall|b: int| 0 <= b < nb implies 0 <= 2 * ((#[trigger] blocks[b]).3 - 0) && 2 * (
    blocks[b].3 - 0) + blocks[b].2 <= all.len() by {
        block_in_range(l, 0, n, b);
    }
    factors_full(evals(d, j), n, part, q);
    gather_full(all, blocks, 0, nb);
    gather_len(all, blocks, 0, nb);
    let lens = |i: int| c.len[i] as int;
    let blens = |i: int| blocks[i].2 as int;
    sum_ext(0, nb, lens, blens);
    assert forall|j: int| 0 <= j < c.idx.len() implies (#[trigger] c.idx[j]) < 2 && c.off[j]
        + c.len[j] <= vector_spec(l, c.idx[j] as int).n by {
        block_in_range(l, 0, n, j);
    }
    assert forall|j: int| 0 <= j < c.idx.len() implies #[trigger] c.len[j] > 0 by {
        block_in_range(l, 0, n, j);
    }
}

/// Every constraint derived from public data is well formed and stays within
/// the two witness vectors.
pub proof fn law_public_constraints_well_formed(
    l: Layout,
    s: ChainShape,
    d: PublicView,
    q: u64,
    i: int,
)
    requires
        shape_ok(s),
        layout_matches(l, s),
        data_fits(s, d),
        data_full(d),
        0 <= i < public_constraints(l, s, d, q).len(),
    ensures
        well_formed(public_constraints(l, s, d, q)[i]),
        in_vectors(public_constraints(l, s, d, q)[i], l),
{
    public_form(l, s, d, q, i);
}

/// The constraints derived from public data have the form that LaBRADOR asks
/// for, unless `w` or, below an inner level, `ydec` is empty: each has at
/// least one and at most four blocks, ordered by vector and offset. Where the
/// ranks and the numbers of digits are at least one, no block is empty.
pub proof fn law_public_constraints_admissible(
    l: Layout,
    s: ChainShape,
    d: PublicView,
    q: u64,
    i: int,
)
    requires
        shape_ok(s),
        layout_matches(l, s),
        data_fits(s, d),
        data_full(d),
        s.width * s.height > 0,
        s.has_c1dec ==> ydec_halves(s) > 0,
        0 <= i < public_constraints(l, s, d, q).len(),
    ensures
        ordered(public_constraints(l, s, d, q)[i]),
        1 <= public_constraints(l, s, d, q)[i].idx.len() <= 4,
        digits_present(s) ==> no_empty_block(public_constraints(l, s, d, q)[i]),
{
    public_form(l, s, d, q, i);
}

/// There are constraints, and the last one carries a right-hand side.
pub proof fn law_last_constraint_has_target(l: Layout, s: ChainShape, d: PublicView, q: u64)
    ensures
        public_constraints(l, s, d, q).len() >= 4,
        public_constraints(l, s, d, q).last().b == Some(half(d.z1, 1)),
{
    let cs = public_constraints(l, s, d, q);
    assert(cs[cs.len() - 1] == eval_constraint(l, s, d, q, 1, 1));
}

/// The form of constraint `i`.
proof fn public_form(l: Layout, s: ChainShape, d: PublicView, q: u64, i: int)
    requires
        shape_ok(s),
        layout_matches(l, s),
        data_fits(s, d),
        data_full(d),
        0 <= i < public_constraints(l, s, d, q).len(),
    ensures
        well_formed(public_constraints(l, s, d, q)[i]),
        in_vectors(public_constraints(l, s, d, q)[i], l),
        public_constraints(l, s, d, q)[i].idx.len() <= 4,
        s.width * s.height > 0 && (s.has_c1dec ==> ydec_halves(s) > 0) ==> {
            &&& ordered(public_constraints(l, s, d, q)[i])
            &&& 1 <= public_constraints(l, s, d, q)[i].idx.len()
            &&& digits_present(s) ==> no_empty_block(public_constraints(l, s, d, q)[i])
        },
{
    let cc = commit_constraints(l, s, d, q);
    let oc = outer_constraints(l, s, d, q);
    let rc = root_constraints(l, s, d, q);
    let c = public_constraints(l, s, d, q)[i];
    let n0 = cc.len() as int;
    let n1 = n0 + oc.len();
    let n2 = n1 + rc.len();
    if s.width * s.height > 0 {
        assert(s.width > 0) by (nonlinear_arith)
            requires
                s.width * s.height > 0,
                0 <= s.width,
                0 <= s.height,
        ;
    }
    if i < n0 {
        let rank = s.a1_rank as int;
        let ct = i / 2;
        assert(rank > 0) by (nonlinear_arith)
            requires
                0 <= i < s.width * rank * 2,
                0 <= rank,
        ;
        vstd::arithmetic::div_mod::lemma_fundamental_div_mod(ct, rank);
        vstd::arithmetic::div_mod::lemma_mod_bound(ct, rank);
        let col = ct / rank;
        let t = ct % rank;
        assert(0 <= col < s.width) by (nonlinear_arith)
            requires
                0 <= ct < s.width * rank,
                ct == rank * col + t,
                0 <= t < rank,
        ;
        assert(c == commit_constraint(l, s, d, q, col, t, i % 2));
        commit_form(l, s, d, q, col, t, i % 2);
    } else if i < n1 {
        assert(c == outer_constraint(l, s, d, q, (i - n0) / 2, (i - n0) % 2));
        outer_form(l, s, d, q, (i - n0) / 2, (i - n0) % 2);
    } else if i < n2 {
        assert(c == root_constraint(l, s, d, q, i - n1));
        root_form(l, s, d, q, i - n1);
    } else {
        assert(c == eval_constraint(l, s, d, q, (i - n2) / 2, (i - n2) % 2));
        eval_form(l, s, d, q, (i - n2) / 2, (i - n2) % 2);
    }
}

} // verus!
