//! The constraints of the statement, which both parties derive from public
//! data.

use crate::config::{pow2_bk, ChainShape};
use crate::layout::{
    block_in_range, extend_range, gather, layout_matches, push_range_block, shape_fits,
    shape_lengths, views_add, w_blocks, ydec_halves, Block, Layout,
};
use crate::r64::{
    const_elem_neg, phi_for_part, ring_const_neg, ring_phi, ring_zero, views, zero, R64,
};
use crate::ring::{eo_view, eo_views, full, half, Eo, Halves};
use crate::statement::{constraint_views, ConstraintSpec, ConstraintView};
use vstd::arithmetic::power2::pow2;
use vstd::prelude::*;

verus! {

/// The public data of the boundary.
///
/// `a1` and `a2` are the rows of the inner and outer commitment key, `a3` the
/// row of the key of the last level if there is one; `evals0` and `evals1` are
/// the factors of the elements of `w` in the two evaluation claims, `z0` and
/// `z1` the claimed values, and `commitment` is the root commitment.
pub struct PublicData {
    pub a1: Vec<Vec<Eo>>,
    pub a2: Vec<Vec<Eo>>,
    pub a3: Vec<Eo>,
    pub a2_base_log: usize,
    pub a3_base_log: usize,
    pub evals0: Vec<Eo>,
    pub evals1: Vec<Eo>,
    pub commitment: Vec<Eo>,
    pub z0: Eo,
    pub z1: Eo,
}

/// The contents of public data.
#[verifier::ext_equal]
pub struct PublicView {
    pub a1: Seq<Seq<Halves>>,
    pub a2: Seq<Seq<Halves>>,
    pub a3: Seq<Halves>,
    pub a2_base_log: usize,
    pub a3_base_log: usize,
    pub evals0: Seq<Halves>,
    pub evals1: Seq<Halves>,
    pub commitment: Seq<Halves>,
    pub z0: Halves,
    pub z1: Halves,
}

/// The rows of a key.
pub open spec fn rows(a: Seq<Vec<Eo>>) -> Seq<Seq<Halves>> {
    Seq::new(a.len(), |i: int| eo_views(a[i]@))
}

impl View for PublicData {
    type V = PublicView;

    open spec fn view(&self) -> PublicView {
        PublicView {
            a1: rows(self.a1@),
            a2: rows(self.a2@),
            a3: eo_views(self.a3@),
            a2_base_log: self.a2_base_log,
            a3_base_log: self.a3_base_log,
            evals0: eo_views(self.evals0@),
            evals1: eo_views(self.evals1@),
            commitment: eo_views(self.commitment@),
            z0: eo_view(self.z0),
            z1: eo_view(self.z1),
        }
    }
}

/// All digit weights of a decomposition into `n` digits fit a word.
pub open spec fn weights_fit(base_log: usize, n: usize) -> bool {
    forall|k: int| 0 <= k < n ==> #[trigger] (base_log * k) < 64
}

/// The data are as large as the shape asks for.
pub open spec fn data_fits(s: ChainShape, d: PublicView) -> bool {
    &&& s.width > 0 ==> {
        &&& d.a1.len() >= s.a1_rank
        &&& forall|t: int| 0 <= t < s.a1_rank ==> (#[trigger] d.a1[t]).len() >= s.height
    }
    &&& s.width > 0 && s.a1_rank > 0 ==> weights_fit(d.a2_base_log, s.num_digits_y)
    &&& d.a2.len() >= s.a2_rank
    &&& forall|u: int|
        0 <= u < s.a2_rank ==> (#[trigger] d.a2[u]).len() >= s.width * s.a1_rank_padded
            * s.num_digits_y
    &&& s.has_c1dec ==> {
        &&& s.a2_rank > 0 ==> weights_fit(d.a3_base_log, s.num_digits_c1)
        &&& d.a3.len() >= s.a2_rank * s.num_digits_c1
        &&& d.commitment.len() >= 1
    }
    &&& !s.has_c1dec ==> d.commitment.len() >= s.a2_rank
    &&& d.evals0.len() >= s.width * s.height
    &&& d.evals1.len() >= s.width * s.height
}

/// The shape pads its rank up, and its lengths fit.
pub open spec fn shape_ok(s: ChainShape) -> bool {
    &&& shape_fits(s)
    &&& s.a1_rank <= s.a1_rank_padded
}

/// Factor `side` of the two factors of `p` for half `part` of a product.
pub open spec fn half_factor(p: Halves, part: int, side: int, q: u64) -> Seq<u64> {
    if side == 0 {
        ring_phi(p.0, p.1, part, q).0
    } else {
        ring_phi(p.0, p.1, part, q).1
    }
}

/// The factors of the halves of `n` elements, for half `part` of their inner
/// product with `row`.
pub open spec fn factors(row: Seq<Halves>, n: int, part: int, q: u64) -> Seq<Seq<u64>> {
    Seq::new((2 * n) as nat, |i: int| half_factor(row[i / 2], part, i % 2, q))
}

/// The factors that take half `part` of a number off its digits.
pub open spec fn digit_factors(base_log: usize, n: int, part: int, q: u64) -> Seq<Seq<u64>> {
    Seq::new(
        (2 * n) as nat,
        |i: int|
            if i % 2 == part {
                ring_const_neg(pow2((base_log * (i / 2)) as nat) as u64, q)
            } else {
                ring_zero()
            },
    )
}

/// The index in the committed digits of the element at position `e` of
/// `ydec`: `ydec` goes by column, row of the key and digit, the committed data
/// by row, column and digit.
pub open spec fn y_flat(s: ChainShape, e: int) -> int {
    let nd = s.num_digits_y as int;
    let t = (e / nd) % (s.a1_rank_padded as int);
    let col = (e / nd) / (s.a1_rank_padded as int);
    (t * s.width + col) * nd + e % nd
}

/// The factors of the halves of `ydec`, for half `part` of the inner product
/// of the committed digits with `row`.
pub open spec fn y_factors(s: ChainShape, row: Seq<Halves>, part: int, q: u64) -> Seq<Seq<u64>> {
    Seq::new(
        ydec_halves(s) as nat,
        |i: int| half_factor(row[y_flat(s, i / 2)], part, i % 2, q),
    )
}

/// Offset of `ydec` in vector 1.
pub open spec fn ydec_base(l: Layout) -> int {
    l.w_before_len + l.w_after_len
}

/// Offset of `c1dec` in vector 1.
pub open spec fn c1dec_base(l: Layout) -> int {
    l.w_before_len + l.w_after_len + l.ydec_len
}

/// Half `part` of: row `t` of the inner key times column `col` of `w` is the
/// number whose digits stand in `ydec`.
pub open spec fn commit_constraint(
    l: Layout,
    s: ChainShape,
    d: PublicView,
    q: u64,
    col: int,
    t: int,
    part: int,
) -> ConstraintView {
    let start = col * s.height;
    let blocks = w_blocks(l, start, start + s.height);
    ConstraintView {
        idx: blocks.map_values(|b: Block| b.0).push(1),
        off: blocks.map_values(|b: Block| b.1).push(
            (ydec_base(l) + (col * s.a1_rank_padded + t) * s.num_digits_y * 2) as usize,
        ),
        len: blocks.map_values(|b: Block| b.2).push((s.num_digits_y * 2) as usize),
        b: None,
        phi: gather(
            factors(d.a1[t], s.height as int, part, q),
            blocks,
            start,
            blocks.len() as int,
        ) + digit_factors(d.a2_base_log, s.num_digits_y as int, part, q),
    }
}

/// Half `part` of: row `u` of the outer key times the digits in `ydec` is the
/// number whose digits stand in `c1dec`, or entry `u` of the root commitment.
pub open spec fn outer_constraint(
    l: Layout,
    s: ChainShape,
    d: PublicView,
    q: u64,
    u: int,
    part: int,
) -> ConstraintView {
    let y = y_factors(s, d.a2[u], part, q);
    if s.has_c1dec {
        ConstraintView {
            idx: seq![1usize, 1usize],
            off: seq![
                ydec_base(l) as usize,
                (c1dec_base(l) + u * s.num_digits_c1 * 2) as usize,
            ],
            len: seq![l.ydec_len, (s.num_digits_c1 * 2) as usize],
            b: None,
            phi: y + digit_factors(d.a3_base_log, s.num_digits_c1 as int, part, q),
        }
    } else {
        ConstraintView {
            idx: seq![1usize],
            off: seq![ydec_base(l) as usize],
            len: seq![l.ydec_len],
            b: Some(half(d.commitment[u], part)),
            phi: y,
        }
    }
}

/// Half `part` of: the key of the last level times the digits in `c1dec` is
/// the root commitment.
pub open spec fn root_constraint(
    l: Layout,
    s: ChainShape,
    d: PublicView,
    q: u64,
    part: int,
) -> ConstraintView {
    ConstraintView {
        idx: seq![1usize],
        off: seq![c1dec_base(l) as usize],
        len: seq![l.c1dec_len],
        b: Some(half(d.commitment[0], part)),
        phi: factors(d.a3, s.a2_rank * s.num_digits_c1, part, q),
    }
}

/// The factors of evaluation claim `j`.
pub open spec fn evals(d: PublicView, j: int) -> Seq<Halves> {
    if j == 0 {
        d.evals0
    } else {
        d.evals1
    }
}

/// The value of evaluation claim `j`.
pub open spec fn claim(d: PublicView, j: int) -> Halves {
    if j == 0 {
        d.z0
    } else {
        d.z1
    }
}

/// Half `part` of: `w` evaluates to claim `j`.
pub open spec fn eval_constraint(
    l: Layout,
    s: ChainShape,
    d: PublicView,
    q: u64,
    j: int,
    part: int,
) -> ConstraintView {
    let n = s.width * s.height;
    let blocks = w_blocks(l, 0, n);
    ConstraintView {
        idx: blocks.map_values(|b: Block| b.0),
        off: blocks.map_values(|b: Block| b.1),
        len: blocks.map_values(|b: Block| b.2),
        b: Some(half(claim(d, j), part)),
        phi: gather(factors(evals(d, j), n, part, q), blocks, 0, blocks.len() as int),
    }
}

/// The inner commitment constraints, by column, row of the key and half.
pub open spec fn commit_constraints(
    l: Layout,
    s: ChainShape,
    d: PublicView,
    q: u64,
) -> Seq<ConstraintView> {
    Seq::new(
        (s.width * s.a1_rank * 2) as nat,
        |i: int|
            commit_constraint(
                l,
                s,
                d,
                q,
                (i / 2) / (s.a1_rank as int),
                (i / 2) % (s.a1_rank as int),
                i % 2,
            ),
    )
}

/// The outer commitment constraints, by row of the key and half.
pub open spec fn outer_constraints(
    l: Layout,
    s: ChainShape,
    d: PublicView,
    q: u64,
) -> Seq<ConstraintView> {
    Seq::new((s.a2_rank * 2) as nat, |i: int| outer_constraint(l, s, d, q, i / 2, i % 2))
}

/// The root constraints, one for each half, if the recursion has a last level.
pub open spec fn root_constraints(
    l: Layout,
    s: ChainShape,
    d: PublicView,
    q: u64,
) -> Seq<ConstraintView> {
    if s.has_c1dec {
        Seq::new(2, |i: int| root_constraint(l, s, d, q, i))
    } else {
        seq![]
    }
}

/// The evaluation constraints, by claim and half.
pub open spec fn eval_constraints(
    l: Layout,
    s: ChainShape,
    d: PublicView,
    q: u64,
) -> Seq<ConstraintView> {
    Seq::new(4, |i: int| eval_constraint(l, s, d, q, i / 2, i % 2))
}

/// All constraints of the statement, in order.
pub open spec fn public_constraints(
    l: Layout,
    s: ChainShape,
    d: PublicView,
    q: u64,
) -> Seq<ConstraintView> {
    commit_constraints(l, s, d, q) + outer_constraints(l, s, d, q) + root_constraints(l, s, d, q)
        + eval_constraints(l, s, d, q)
}

/// A number in mixed radix splits back into its digits.
pub proof fn mixed_radix(hi: int, lo: int, n: int)
    requires
        0 <= lo < n,
    ensures
        (hi * n + lo) / n == hi,
        (hi * n + lo) % n == lo,
{
    vstd::arithmetic::div_mod::lemma_fundamental_div_mod_converse(hi * n + lo, n, hi, lo);
}

/// A number in mixed radix is below the product of the radices.
pub proof fn mixed_radix_bound(hi: int, lo: int, m: int, n: int)
    requires
        0 <= lo < n,
        0 <= hi < m,
    ensures
        0 <= hi * n + lo < m * n,
        hi * n + n <= m * n,
{
    assert(0 <= hi * n + lo < m * n && hi * n + n <= m * n) by (nonlinear_arith)
        requires
            0 <= lo < n,
            0 <= hi < m,
    ;
}

/// The element of column `col`, key row `t` and digit `kk` of `ydec`.
pub proof fn y_flat_at(s: ChainShape, col: int, t: int, kk: int)
    requires
        0 <= col < s.width,
        0 <= t < s.a1_rank_padded,
        0 <= kk < s.num_digits_y,
    ensures
        ({
            let e = (col * s.a1_rank_padded + t) * s.num_digits_y + kk;
            &&& y_flat(s, e) == (t * s.width + col) * s.num_digits_y + kk
            &&& 0 <= e < s.width * s.a1_rank_padded * s.num_digits_y
            &&& 0 <= y_flat(s, e) < s.width * s.a1_rank_padded * s.num_digits_y
        }),
{
    let p = s.a1_rank_padded as int;
    let nd = s.num_digits_y as int;
    let w = s.width as int;
    mixed_radix(col * p + t, kk, nd);
    mixed_radix(col, t, p);
    mixed_radix_bound(col, t, w, p);
    mixed_radix_bound(col * p + t, kk, w * p, nd);
    mixed_radix_bound(t, col, p, w);
    mixed_radix_bound(t * w + col, kk, p * w, nd);
    assert(p * w == w * p) by (nonlinear_arith);
}

/// The factors of the halves of `n` elements in half `part` of their inner
/// product with `row`.
fn row_factors(row: &Vec<Eo>, n: usize, part: usize, q: u64) -> (r: Vec<R64>)
    requires
        q > 0,
        n <= row@.len(),
    ensures
        views(r@) == factors(eo_views(row@), n as int, part as int, q),
        r@.len() == 2 * n,
{
    let mut full: Vec<R64> = Vec::new();
    let ghost goal = factors(eo_views(row@), n as int, part as int, q);
    for i in 0..n
        invariant
            q > 0,
            n <= row@.len(),
            goal == factors(eo_views(row@), n as int, part as int, q),
            full@.len() == 2 * i,
            forall|k: int| 0 <= k < 2 * i ==> (#[trigger] full@[k])@ == goal[k],
    {
        let (pe, po) = phi_for_part(&row[i].0, &row[i].1, part, q);
        full.push(pe);
        full.push(po);
        assert forall|k: int| 0 <= k < 2 * (i + 1) implies (#[trigger] full@[k])@ == goal[k] by {
            if k >= 2 * i {
                assert(k / 2 == i);
            }
        }
    }
    assert(views(full@) =~= goal);
    full
}

/// The factors that take half `part` of a number off its `n` digits.
fn weights(base_log: usize, n: usize, part: usize, q: u64) -> (r: Vec<R64>)
    requires
        q > 0,
        part < 2,
        weights_fit(base_log, n),
        2 * n <= usize::MAX,
    ensures
        views(r@) == digit_factors(base_log, n as int, part as int, q),
        r@.len() == 2 * n,
{
    let mut block: Vec<R64> = Vec::new();
    let ghost goal = digit_factors(base_log, n as int, part as int, q);
    for kk in 0..n
        invariant
            q > 0,
            part < 2,
            weights_fit(base_log, n),
            goal == digit_factors(base_log, n as int, part as int, q),
            block@.len() == 2 * kk,
            forall|k: int| 0 <= k < 2 * kk ==> (#[trigger] block@[k])@ == goal[k],
    {
        assert(base_log * (kk as int) < 64);
        let c = const_elem_neg(pow2_bk(base_log, kk), q);
        if part == 0 {
            block.push(c);
            block.push(zero());
        } else {
            block.push(zero());
            block.push(c);
        }
        assert forall|k: int| 0 <= k < 2 * (kk + 1) implies (#[trigger] block@[k])@ == goal[k] by {
            if k >= 2 * kk {
                assert(k / 2 == kk);
            }
        }
    }
    assert(views(block@) =~= goal);
    block
}

/// The factors of the halves of `ydec` in half `part` of the inner product of
/// the committed digits with `row`.
fn digits_row_factors(shape: &ChainShape, row: &Vec<Eo>, part: usize, q: u64) -> (r: Vec<R64>)
    requires
        q > 0,
        shape_ok(*shape),
        row@.len() >= shape.width * shape.a1_rank_padded * shape.num_digits_y,
    ensures
        views(r@) == y_factors(*shape, eo_views(row@), part as int, q),
        r@.len() == ydec_halves(*shape),
{
    let mut block: Vec<R64> = Vec::new();
    let ghost s = *shape;
    let ghost goal = y_factors(s, eo_views(row@), part as int, q);
    let ghost p = s.a1_rank_padded as int;
    let ghost nd = s.num_digits_y as int;
    proof {
        shape_lengths(s);
        assert(0 * p * nd == 0) by (nonlinear_arith);
    }
    for col in 0..shape.width
        invariant
            q > 0,
            s == *shape,
            shape_ok(s),
            row@.len() >= s.width * s.a1_rank_padded * s.num_digits_y,
            goal == y_factors(s, eo_views(row@), part as int, q),
            p == s.a1_rank_padded,
            nd == s.num_digits_y,
            block@.len() == 2 * (col * p * nd),
            block@.len() <= goal.len(),
            forall|k: int| 0 <= k < block@.len() ==> (#[trigger] block@[k])@ == goal[k],
    {
        for t in 0..shape.a1_rank_padded
            invariant
                q > 0,
                s == *shape,
                col < s.width,
                shape_ok(s),
                row@.len() >= s.width * s.a1_rank_padded * s.num_digits_y,
                goal == y_factors(s, eo_views(row@), part as int, q),
                p == s.a1_rank_padded,
                nd == s.num_digits_y,
                block@.len() == 2 * ((col * p + t) * nd),
                block@.len() <= goal.len(),
                forall|k: int| 0 <= k < block@.len() ==> (#[trigger] block@[k])@ == goal[k],
        {
            for kk in 0..shape.num_digits_y
                invariant
                    q > 0,
                    s == *shape,
                    col < s.width,
                    t < s.a1_rank_padded,
                    shape_ok(s),
                    row@.len() >= s.width * s.a1_rank_padded * s.num_digits_y,
                    goal == y_factors(s, eo_views(row@), part as int, q),
                    p == s.a1_rank_padded,
                    nd == s.num_digits_y,
                    block@.len() == 2 * ((col * p + t) * nd + kk),
                    block@.len() <= goal.len(),
                    forall|k: int| 0 <= k < block@.len() ==> (#[trigger] block@[k])@ == goal[k],
            {
                let ghost e = (col * p + t) * nd + kk;
                proof {
                    y_flat_at(s, col as int, t as int, kk as int);
                    mixed_radix_bound(t as int, col as int, p, s.width as int);
                    assert(p * s.width == s.width * p) by (nonlinear_arith);
                    assert(0 <= (t * s.width + col) * nd) by (nonlinear_arith)
                        requires
                            t * s.width + col >= 0,
                            nd >= 0,
                    ;
                    assert(t * s.width >= 0) by (nonlinear_arith)
                        requires
                            t >= 0,
                            s.width >= 0,
                    ;
                }
                let flat: usize = (t * shape.width + col) * shape.num_digits_y + kk;
                let (pe, po) = phi_for_part(&row[flat].0, &row[flat].1, part, q);
                block.push(pe);
                block.push(po);
                assert forall|k: int| 0 <= k < block@.len() implies (#[trigger] block@[k])@
                    == goal[k] by {
                    if k >= 2 * e {
                        assert(k / 2 == e);
                    }
                }
            }
            assert((col * p + t) * nd + nd == (col * p + (t + 1)) * nd) by (nonlinear_arith);
        }
        assert(col * p + p == (col + 1) * p) by (nonlinear_arith);
    }
    assert(views(block@) =~= goal);
    block
}

/// Half `part` of an element.
fn take_half(p: &Eo, part: usize) -> (r: R64)
    ensures
        r@ == half(eo_view(*p), part as int),
{
    if part == 0 {
        p.0
    } else {
        p.1
    }
}

/// Appends the inner commitment constraints.
fn push_commit_constraints(
    constraints: &mut Vec<ConstraintSpec>,
    layout: &Layout,
    shape: &ChainShape,
    data: &PublicData,
    q: u64,
)
    requires
        q > 0,
        shape_ok(*shape),
        layout_matches(*layout, *shape),
        data_fits(*shape, data@),
    ensures
        constraint_views(final(constraints)@) == constraint_views(old(constraints)@)
            + commit_constraints(*layout, *shape, data@, q),
{
    let ghost s = *shape;
    let ghost before = constraints@;
    let ghost list = commit_constraints(*layout, s, data@, q);
    proof {
        shape_lengths(s);
        assert(0 * s.a1_rank * 2 == 0) by (nonlinear_arith);
        assert(constraint_views(constraints@) =~= constraint_views(before) + list.take(0));
    }
    for col in 0..shape.width
        invariant
            q > 0,
            s == *shape,
            shape_ok(s),
            layout_matches(*layout, s),
            data_fits(s, data@),
            list == commit_constraints(*layout, s, data@, q),
            0 <= col * s.a1_rank * 2 <= list.len(),
            constraint_views(constraints@) == constraint_views(before) + list.take(
                col * s.a1_rank * 2,
            ),
    {
        assert((col * s.a1_rank + 0) * 2 == col * s.a1_rank * 2);
        for t in 0..shape.a1_rank
            invariant
                q > 0,
                s == *shape,
                col < s.width,
                shape_ok(s),
                layout_matches(*layout, s),
                data_fits(s, data@),
                list == commit_constraints(*layout, s, data@, q),
                0 <= (col * s.a1_rank + t) * 2 <= list.len(),
                constraint_views(constraints@) == constraint_views(before) + list.take(
                    (col * s.a1_rank + t) * 2,
                ),
        {
            for p in 0..2usize
                invariant
                    q > 0,
                    s == *shape,
                    col < s.width,
                    t < s.a1_rank,
                    shape_ok(s),
                    layout_matches(*layout, s),
                    data_fits(s, data@),
                    list == commit_constraints(*layout, s, data@, q),
                    0 <= (col * s.a1_rank + t) * 2 + p <= list.len(),
                    constraint_views(constraints@) == constraint_views(before) + list.take(
                        (col * s.a1_rank + t) * 2 + p,
                    ),
            {
                let c = make_commit_constraint(layout, shape, data, col, t, p, q);
                let ghost i = (col * s.a1_rank + t) * 2 + p;
                proof {
                    mixed_radix_bound(col as int, t as int, s.width as int, s.a1_rank as int);
                    mixed_radix(col as int, t as int, s.a1_rank as int);
                    assert(i / 2 == col * s.a1_rank + t);
                    assert(i % 2 == p);
                    assert(list[i] == c@);
                }
                let ghost prior = constraints@;
                constraints.push(c);
                assert(constraint_views(constraints@) =~= constraint_views(prior).push(c@));
                assert(constraint_views(constraints@) =~= constraint_views(before) + list.take(
                    i + 1,
                ));
            }
        }
        assert((col * s.a1_rank + s.a1_rank) * 2 == (col + 1) * s.a1_rank * 2) by (nonlinear_arith);
    }
    assert(list.take(s.width * s.a1_rank * 2) =~= list);
}

/// Half `p` of the inner commitment constraint of column `col` and key row
/// `t`.
fn make_commit_constraint(
    layout: &Layout,
    shape: &ChainShape,
    data: &PublicData,
    col: usize,
    t: usize,
    p: usize,
    q: u64,
) -> (r: ConstraintSpec)
    requires
        q > 0,
        shape_ok(*shape),
        layout_matches(*layout, *shape),
        data_fits(*shape, data@),
        col < shape.width,
        t < shape.a1_rank,
        p < 2,
    ensures
        r@ == commit_constraint(*layout, *shape, data@, q, col as int, t as int, p as int),
{
    let ghost s = *shape;
    proof {
        shape_lengths(s);
        assert(0 <= col * s.height && col * s.height + s.height <= s.height * s.width)
            by (nonlinear_arith)
            requires
                0 <= col < s.width,
                0 <= s.height,
        ;
        mixed_radix_bound(col as int, t as int, s.width as int, s.a1_rank_padded as int);
        assert((col * s.a1_rank_padded + t) * s.num_digits_y * 2 + s.num_digits_y * 2
            <= ydec_halves(s)) by (nonlinear_arith)
            requires
                col * s.a1_rank_padded + t + 1 <= s.width * s.a1_rank_padded,
                0 <= s.num_digits_y,
                ydec_halves(s) == s.width * s.a1_rank_padded * s.num_digits_y * 2,
        ;
        assert(0 <= (col * s.a1_rank_padded + t) * s.num_digits_y) by (nonlinear_arith)
            requires
                0 <= col * s.a1_rank_padded + t,
                0 <= s.num_digits_y,
        ;
    }
    let start: usize = col * shape.height;
    let full = row_factors(&data.a1[t], shape.height, p, q);
    let mut idx: Vec<usize> = Vec::new();
    let mut off: Vec<usize> = Vec::new();
    let mut len: Vec<usize> = Vec::new();
    let mut phi: Vec<R64> = Vec::new();
    let ghost blocks = w_blocks(*layout, start as int, start + s.height);
    assert forall|i: int| 0 <= i < blocks.len() implies {
        let b = #[trigger] blocks[i];
        2 * (b.3 - start) + b.2 <= full@.len()
    } by {
        block_in_range(*layout, start as int, start + s.height, i);
    }
    push_range_block(
        &mut idx,
        &mut off,
        &mut len,
        &mut phi,
        full.as_slice(),
        layout,
        start,
        start + shape.height,
    );
    let yblock = weights(data.a2_base_log, shape.num_digits_y, p, q);
    idx.push(1);
    off.push(
        layout.w_before_len + layout.w_after_len + (col * shape.a1_rank_padded + t)
            * shape.num_digits_y * 2,
    );
    len.push(shape.num_digits_y * 2);
    let ghost phi0 = phi@;
    extend_range(&mut phi, yblock.as_slice(), 0, yblock.len());
    proof {
        assert(yblock@.subrange(0, yblock@.len() as int) =~= yblock@);
        views_add(phi0, yblock@);
        let goal = commit_constraint(*layout, s, data@, q, col as int, t as int, p as int);
        assert(idx@ =~= goal.idx);
        assert(off@ =~= goal.off);
        assert(len@ =~= goal.len);
        assert(views(phi@) =~= goal.phi);
    }
    ConstraintSpec { idx, off, len, b: None, phi }
}

/// Half `p` of the outer commitment constraint of key row `u`.
fn make_outer_constraint(
    layout: &Layout,
    shape: &ChainShape,
    data: &PublicData,
    u: usize,
    p: usize,
    q: u64,
) -> (r: ConstraintSpec)
    requires
        q > 0,
        shape_ok(*shape),
        layout_matches(*layout, *shape),
        data_fits(*shape, data@),
        u < shape.a2_rank,
        p < 2,
    ensures
        r@ == outer_constraint(*layout, *shape, data@, q, u as int, p as int),
{
    let ghost s = *shape;
    proof {
        shape_lengths(s);
    }
    let mut phi = digits_row_factors(shape, &data.a2[u], p, q);
    let base: usize = layout.w_before_len + layout.w_after_len;
    if shape.has_c1dec {
        proof {
            assert(0 <= u * s.num_digits_c1 && u * s.num_digits_c1 * 2 + s.num_digits_c1 * 2
                <= s.a2_rank * s.num_digits_c1 * 2) by (nonlinear_arith)
                requires
                    0 <= u < s.a2_rank,
                    0 <= s.num_digits_c1,
            ;
        }
        let cblock = weights(data.a3_base_log, shape.num_digits_c1, p, q);
        let ghost phi0 = phi@;
        extend_range(&mut phi, cblock.as_slice(), 0, cblock.len());
        proof {
            assert(cblock@.subrange(0, cblock@.len() as int) =~= cblock@);
            views_add(phi0, cblock@);
        }
        let idx: Vec<usize> = vec![1, 1];
        let off: Vec<usize> = vec![base, base + layout.ydec_len + u * shape.num_digits_c1 * 2];
        let len: Vec<usize> = vec![layout.ydec_len, shape.num_digits_c1 * 2];
        proof {
            let goal = outer_constraint(*layout, s, data@, q, u as int, p as int);
            assert(idx@ =~= goal.idx);
            assert(off@ =~= goal.off);
            assert(len@ =~= goal.len);
            assert(views(phi@) =~= goal.phi);
        }
        ConstraintSpec { idx, off, len, b: None, phi }
    } else {
        let b = take_half(&data.commitment[u], p);
        let idx: Vec<usize> = vec![1];
        let off: Vec<usize> = vec![base];
        let len: Vec<usize> = vec![layout.ydec_len];
        proof {
            let goal = outer_constraint(*layout, s, data@, q, u as int, p as int);
            assert(idx@ =~= goal.idx);
            assert(off@ =~= goal.off);
            assert(len@ =~= goal.len);
            assert(views(phi@) =~= goal.phi);
        }
        ConstraintSpec { idx, off, len, b: Some(b), phi }
    }
}

/// Appends the outer commitment constraints.
fn push_outer_constraints(
    constraints: &mut Vec<ConstraintSpec>,
    layout: &Layout,
    shape: &ChainShape,
    data: &PublicData,
    q: u64,
)
    requires
        q > 0,
        shape_ok(*shape),
        layout_matches(*layout, *shape),
        data_fits(*shape, data@),
    ensures
        constraint_views(final(constraints)@) == constraint_views(old(constraints)@)
            + outer_constraints(*layout, *shape, data@, q),
{
    let ghost s = *shape;
    let ghost before = constraints@;
    let ghost list = outer_constraints(*layout, s, data@, q);
    assert(constraint_views(constraints@) =~= constraint_views(before) + list.take(0));
    for u in 0..shape.a2_rank
        invariant
            q > 0,
            s == *shape,
            shape_ok(s),
            layout_matches(*layout, s),
            data_fits(s, data@),
            list == outer_constraints(*layout, s, data@, q),
            constraint_views(constraints@) == constraint_views(before) + list.take(u * 2),
    {
        for p in 0..2usize
            invariant
                q > 0,
                s == *shape,
                u < s.a2_rank,
                shape_ok(s),
                layout_matches(*layout, s),
                data_fits(s, data@),
                list == outer_constraints(*layout, s, data@, q),
                constraint_views(constraints@) == constraint_views(before) + list.take(u * 2 + p),
        {
            let c = make_outer_constraint(layout, shape, data, u, p, q);
            let ghost i = u * 2 + p;
            assert(i / 2 == u);
            assert(i % 2 == p);
            assert(list[i] == c@);
            let ghost prior = constraints@;
            constraints.push(c);
            assert(constraint_views(constraints@) =~= constraint_views(prior).push(c@));
            assert(constraint_views(constraints@) =~= constraint_views(before) + list.take(i + 1));
        }
    }
    assert(list.take(s.a2_rank * 2) =~= list);
}

/// Appends the root constraints, if the recursion has a last level.
fn push_root_constraints(
    constraints: &mut Vec<ConstraintSpec>,
    layout: &Layout,
    shape: &ChainShape,
    data: &PublicData,
    q: u64,
)
    requires
        q > 0,
        shape_ok(*shape),
        layout_matches(*layout, *shape),
        data_fits(*shape, data@),
    ensures
        constraint_views(final(constraints)@) == constraint_views(old(constraints)@)
            + root_constraints(*layout, *shape, data@, q),
{
    let ghost s = *shape;
    let ghost before = constraints@;
    let ghost list = root_constraints(*layout, s, data@, q);
    assert(constraint_views(constraints@) =~= constraint_views(before) + list.take(0));
    if shape.has_c1dec {
        proof {
            shape_lengths(s);
        }
        let n: usize = shape.a2_rank * shape.num_digits_c1;
        for p in 0..2usize
            invariant
                q > 0,
                s == *shape,
                s.has_c1dec,
                shape_ok(s),
                layout_matches(*layout, s),
                data_fits(s, data@),
                n == s.a2_rank * s.num_digits_c1,
                list == root_constraints(*layout, s, data@, q),
                constraint_views(constraints@) == constraint_views(before) + list.take(p as int),
        {
            let phi = row_factors(&data.a3, n, p, q);
            let b = take_half(&data.commitment[0], p);
            let idx: Vec<usize> = vec![1];
            let off: Vec<usize> = vec![
                layout.w_before_len + layout.w_after_len + layout.ydec_len,
            ];
            let len: Vec<usize> = vec![layout.c1dec_len];
            proof {
                let goal = root_constraint(*layout, s, data@, q, p as int);
                assert(idx@ =~= goal.idx);
                assert(off@ =~= goal.off);
                assert(len@ =~= goal.len);
                assert(views(phi@) =~= goal.phi);
                assert(list[p as int] == goal);
            }
            let c = ConstraintSpec { idx, off, len, b: Some(b), phi };
            let ghost prior = constraints@;
            constraints.push(c);
            assert(constraint_views(constraints@) =~= constraint_views(prior).push(c@));
            assert(constraint_views(constraints@) =~= constraint_views(before) + list.take(p + 1));
        }
    }
    assert(list.take(list.len() as int) =~= list);
}

/// Appends the evaluation constraints.
fn push_eval_constraints(
    constraints: &mut Vec<ConstraintSpec>,
    layout: &Layout,
    shape: &ChainShape,
    data: &PublicData,
    q: u64,
)
    requires
        q > 0,
        shape_ok(*shape),
        layout_matches(*layout, *shape),
        data_fits(*shape, data@),
    ensures
        constraint_views(final(constraints)@) == constraint_views(old(constraints)@)
            + eval_constraints(*layout, *shape, data@, q),
{
    let ghost s = *shape;
    let ghost before = constraints@;
    let ghost list = eval_constraints(*layout, s, data@, q);
    proof {
        shape_lengths(s);
        assert(s.width * s.height == s.height * s.width) by (nonlinear_arith);
        assert(constraint_views(constraints@) =~= constraint_views(before) + list.take(0));
    }
    let n: usize = shape.width * shape.height;
    for i in 0..4usize
        invariant
            q > 0,
            s == *shape,
            shape_ok(s),
            layout_matches(*layout, s),
            data_fits(s, data@),
            n == s.width * s.height,
            n == layout.total,
            2 * n <= usize::MAX,
            list == eval_constraints(*layout, s, data@, q),
            constraint_views(constraints@) == constraint_views(before) + list.take(i as int),
    {
        let j: usize = i / 2;
        let p: usize = i % 2;
        let full = if j == 0 {
            row_factors(&data.evals0, n, p, q)
        } else {
            row_factors(&data.evals1, n, p, q)
        };
        let mut idx: Vec<usize> = Vec::new();
        let mut off: Vec<usize> = Vec::new();
        let mut len: Vec<usize> = Vec::new();
        let mut phi: Vec<R64> = Vec::new();
        let ghost blocks = w_blocks(*layout, 0, n as int);
        assert forall|i: int| 0 <= i < blocks.len() implies {
            let b = #[trigger] blocks[i];
            2 * (b.3 - 0) + b.2 <= full@.len()
        } by {
            block_in_range(*layout, 0, n as int, i);
        }
        push_range_block(
            &mut idx,
            &mut off,
            &mut len,
            &mut phi,
            full.as_slice(),
            layout,
            0,
            n,
        );
        let b = if j == 0 {
            take_half(&data.z0, p)
        } else {
            take_half(&data.z1, p)
        };
        proof {
            let goal = eval_constraint(*layout, s, data@, q, j as int, p as int);
            assert(idx@ =~= goal.idx);
            assert(off@ =~= goal.off);
            assert(len@ =~= goal.len);
            assert(views(phi@) =~= goal.phi);
            assert(list[i as int] == goal);
        }
        let c = ConstraintSpec { idx, off, len, b: Some(b), phi };
        let ghost prior = constraints@;
        constraints.push(c);
        assert(constraint_views(constraints@) =~= constraint_views(prior).push(c@));
        assert(constraint_views(constraints@) =~= constraint_views(before) + list.take(i + 1));
    }
    assert(list.take(4) =~= list);
}

/// Derives the constraints of the statement from public data.
pub fn build_public(layout: &Layout, shape: &ChainShape, data: &PublicData, q: u64) -> (r: Vec<
    ConstraintSpec,
>)
    requires
        q > 0,
        shape_ok(*shape),
        layout_matches(*layout, *shape),
        data_fits(*shape, data@),
    ensures
        constraint_views(r@) == public_constraints(*layout, *shape, data@, q),
{
    let mut constraints: Vec<ConstraintSpec> = Vec::new();
    push_commit_constraints(&mut constraints, layout, shape, data, q);
    push_outer_constraints(&mut constraints, layout, shape, data, q);
    push_root_constraints(&mut constraints, layout, shape, data, q);
    push_eval_constraints(&mut constraints, layout, shape, data, q);
    assert(constraint_views(constraints@) =~= public_constraints(*layout, *shape, data@, q));
    constraints
}

} // verus!
