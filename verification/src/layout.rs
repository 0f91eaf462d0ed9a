//! Where the parts of the boundary witness stand in the two witness vectors.
//!
//! Vector 0 holds the elements of `w` from `v0_start` to `v0_end`, each as its
//! even and odd half. Vector 1 holds the rest of `w`, then the digits of the
//! inner commitments (`ydec`), then those of the outer one (`c1dec`).

use crate::config::{
    inner_prefixes, inner_ranges_fit, most_inner_ranges, prefix_bounds, total_vars, ChainShape,
    SumcheckConfig,
};
use crate::r64::{views, R64};
use crate::sums::{sum, sum_split};
use vstd::prelude::*;

verus! {

/// Role of the vectors that carry the witness.
pub const ROLE_W: u32 = 0;

/// Flag of the vector that is also held to the inner norm bound.
pub const INNER_FLAG: u32 = 1;

/// Placement of the boundary witness. Lengths count halves of elements.
#[derive(Clone, Copy, Debug, PartialEq, Eq)]
pub struct Layout {
    pub total: usize,
    pub v0_start: usize,
    pub v0_end: usize,
    pub w_before_len: usize,
    pub w_after_len: usize,
    pub ydec_len: usize,
    pub c1dec_len: usize,
}

/// Length, role and flags of a witness vector.
#[derive(Clone, Copy, Debug, PartialEq, Eq)]
pub struct VectorSpec {
    pub n: usize,
    pub role: u32,
    pub flags: u32,
}

/// Number of halves of `ydec` elements.
pub open spec fn ydec_halves(s: ChainShape) -> int {
    s.width * s.a1_rank_padded * s.num_digits_y * 2
}

/// Number of halves of `c1dec` elements.
pub open spec fn c1dec_halves(s: ChainShape) -> int {
    if s.has_c1dec {
        s.a2_rank * s.num_digits_c1 * 2
    } else {
        0
    }
}

/// All lengths that come up in an export fit a machine word.
pub open spec fn shape_fits(s: ChainShape) -> bool {
    &&& s.width * s.a1_rank_padded <= usize::MAX
    &&& 2 * (s.height * s.width) + ydec_halves(s) + c1dec_halves(s) <= usize::MAX
}

/// Index `g` lies in one of the ranges.
pub open spec fn in_ranges(ranges: Seq<(int, int)>, g: int) -> bool {
    exists|i: int| 0 <= i < ranges.len() && (#[trigger] ranges[i]).0 <= g < ranges[i].1
}

/// The most inner ranges of a round.
pub open spec fn inner_ranges(c: SumcheckConfig) -> Seq<(int, int)> {
    Seq::new(
        inner_prefixes(c).len(),
        |i: int| prefix_bounds(inner_prefixes(c)[i], total_vars(c)),
    )
}

/// `[start, end)` is the smallest interval that covers all indices below
/// `total` which lie in one of the ranges, or the lower half of all indices if
/// there is none.
pub open spec fn covers_inner(ranges: Seq<(int, int)>, total: int, start: int, end: int) -> bool {
    if exists|g: int| 0 <= g < total && #[trigger] in_ranges(ranges, g) {
        &&& 0 <= start < end <= total
        &&& in_ranges(ranges, start)
        &&& in_ranges(ranges, end - 1)
        &&& forall|g: int| 0 <= g < total && #[trigger] in_ranges(ranges, g) ==> start <= g < end
    } else {
        start == 0 && end == total / 2
    }
}

/// `l` is the layout for the inner ranges and the shape given.
pub open spec fn layout_for(ranges: Seq<(int, int)>, s: ChainShape, l: Layout) -> bool {
    &&& l.total == s.height * s.width
    &&& covers_inner(ranges, l.total as int, l.v0_start as int, l.v0_end as int)
    &&& layout_matches(l, s)
}

/// The lengths of `l` are those that its split point and the shape `s` give.
pub open spec fn layout_matches(l: Layout, s: ChainShape) -> bool {
    &&& l.total == s.height * s.width
    &&& l.v0_start <= l.v0_end <= l.total
    &&& l.w_before_len == 2 * l.v0_start
    &&& l.w_after_len == 2 * (l.total - l.v0_end)
    &&& l.ydec_len == ydec_halves(s)
    &&& l.c1dec_len == c1dec_halves(s)
}

/// There is only one layout for given ranges and shape.
pub proof fn law_layout_unique(ranges: Seq<(int, int)>, s: ChainShape, a: Layout, b: Layout)
    requires
        layout_for(ranges, s, a),
        layout_for(ranges, s, b),
    ensures
        a == b,
{
    let t = a.total as int;
    if exists|g: int| 0 <= g < t && #[trigger] in_ranges(ranges, g) {
        assert(in_ranges(ranges, a.v0_start as int));
        assert(in_ranges(ranges, b.v0_start as int));
        assert(in_ranges(ranges, a.v0_end - 1));
        assert(in_ranges(ranges, b.v0_end - 1));
    }
}

/// Whether one of the ranges contains `g`.
fn range_contains(ranges: &Vec<(usize, usize)>, g: usize) -> (r: bool)
    ensures
        r == exists|i: int|
            0 <= i < ranges@.len() && (#[trigger] ranges@[i]).0 <= g < ranges@[i].1,
{
    for i in 0..ranges.len()
        invariant
            forall|k: int|
                0 <= k < i ==> !((#[trigger] ranges@[k]).0 <= g && g < ranges@[k].1),
    {
        if ranges[i].0 <= g && g < ranges[i].1 {
            return true;
        }
    }
    false
}

/// Splits the witness of the round at `round_cfg` for a relation of the given
/// shape.
pub fn compute_layout(round_cfg: &SumcheckConfig, shape: &ChainShape) -> (r: Layout)
    requires
        inner_ranges_fit(*round_cfg),
        shape_fits(*shape),
    ensures
        layout_for(inner_ranges(*round_cfg), *shape, r),
{
    proof {
        shape_lengths(*shape);
    }
    let total: usize = shape.height * shape.width;
    let ranges = most_inner_ranges(round_cfg);
    let ghost spec_ranges = inner_ranges(*round_cfg);
    let mut found: bool = false;
    let mut start: usize = 0;
    let mut end: usize = 0;
    for pos in 0..total
        invariant
            spec_ranges == inner_ranges(*round_cfg),
            ranges@.len() == spec_ranges.len(),
            forall|i: int|
                0 <= i < ranges@.len() ==> (#[trigger] ranges@[i].0 as int, ranges@[i].1 as int)
                    == prefix_bounds(inner_prefixes(*round_cfg)[i], total_vars(*round_cfg)),
            found ==> start < end <= pos && in_ranges(spec_ranges, start as int) && in_ranges(
                spec_ranges,
                end - 1,
            ),
            found ==> forall|g: int|
                0 <= g < pos && #[trigger] in_ranges(spec_ranges, g) ==> start <= g < end,
            !found ==> forall|g: int| 0 <= g < pos ==> !#[trigger] in_ranges(spec_ranges, g),
    {
        let inner: bool = range_contains(&ranges, pos);
        proof {
            if inner {
                let i = choose|i: int|
                    0 <= i < ranges@.len() && (#[trigger] ranges@[i]).0 <= pos < ranges@[i].1;
                assert((ranges@[i].0 as int, ranges@[i].1 as int) == spec_ranges[i]);
                assert(in_ranges(spec_ranges, pos as int));
            } else if in_ranges(spec_ranges, pos as int) {
                let i = choose|i: int|
                    0 <= i < spec_ranges.len() && (#[trigger] spec_ranges[i]).0 <= pos
                        < spec_ranges[i].1;
                assert((ranges@[i].0 as int, ranges@[i].1 as int) == spec_ranges[i]);
                assert(ranges@[i].0 <= pos < ranges@[i].1);
            }
        }
        if inner {
            if !found {
                found = true;
                start = pos;
            }
            end = pos + 1;
        }
    }
    if !found {
        start = 0;
        end = total / 2;
    }
    let w_before_len: usize = 2 * start;
    let w_after_len: usize = 2 * (total - end);
    let ydec_len: usize = shape.width * shape.a1_rank_padded * shape.num_digits_y * 2;
    let c1dec_len: usize = if shape.has_c1dec {
        shape.a2_rank * shape.num_digits_c1 * 2
    } else {
        0
    };
    Layout { total, v0_start: start, v0_end: end, w_before_len, w_after_len, ydec_len, c1dec_len }
}

/// The products in the lengths of a shape are nonnegative.
pub proof fn shape_lengths(s: ChainShape)
    ensures
        0 <= s.height * s.width,
        0 <= s.width * s.a1_rank_padded,
        0 <= s.width * s.a1_rank_padded * s.num_digits_y,
        0 <= ydec_halves(s),
        0 <= s.a2_rank * s.num_digits_c1,
        0 <= c1dec_halves(s),
{
    assert(0 <= s.height * s.width) by (nonlinear_arith)
        requires
            0 <= s.height,
            0 <= s.width,
    ;
    assert(0 <= s.width * s.a1_rank_padded) by (nonlinear_arith)
        requires
            0 <= s.a1_rank_padded,
            0 <= s.width,
    ;
    assert(0 <= (s.width * s.a1_rank_padded) * s.num_digits_y) by (nonlinear_arith)
        requires
            0 <= s.width * s.a1_rank_padded,
            0 <= s.num_digits_y,
    ;
    assert(0 <= s.a2_rank * s.num_digits_c1) by (nonlinear_arith)
        requires
            0 <= s.a2_rank,
            0 <= s.num_digits_c1,
    ;
}

/// The two witness vectors of a layout.
pub open spec fn vector_spec(l: Layout, i: int) -> VectorSpec {
    if i == 0 {
        VectorSpec { n: (2 * (l.v0_end - l.v0_start)) as usize, role: ROLE_W, flags: INNER_FLAG }
    } else {
        VectorSpec {
            n: (l.w_before_len + l.w_after_len + l.ydec_len + l.c1dec_len) as usize,
            role: ROLE_W,
            flags: 0,
        }
    }
}

/// Lengths, roles and flags of the two witness vectors.
pub fn vector_specs(layout: &Layout) -> (r: [VectorSpec; 2])
    requires
        layout.v0_start <= layout.v0_end,
        2 * (layout.v0_end - layout.v0_start) <= usize::MAX,
        layout.w_before_len + layout.w_after_len + layout.ydec_len + layout.c1dec_len <= usize::MAX,
    ensures
        r@[0] == vector_spec(*layout, 0),
        r@[1] == vector_spec(*layout, 1),
        r@[0].n == 2 * (layout.v0_end - layout.v0_start),
        r@[1].n == layout.w_before_len + layout.w_after_len + layout.ydec_len + layout.c1dec_len,
{
    let n0: usize = 2 * (layout.v0_end - layout.v0_start);
    let n1: usize = layout.w_before_len + layout.w_after_len + layout.ydec_len + layout.c1dec_len;
    [
        VectorSpec { n: n0, role: ROLE_W, flags: INNER_FLAG },
        VectorSpec { n: n1, role: ROLE_W, flags: 0 },
    ]
}

/// The larger of two numbers.
pub open spec fn larger(a: int, b: int) -> int {
    if a >= b {
        a
    } else {
        b
    }
}

/// The smaller of two numbers.
pub open spec fn smaller(a: int, b: int) -> int {
    if a <= b {
        a
    } else {
        b
    }
}

/// Index `g` lies in both `[a_s, a_e)` and `[b_s, b_e)`.
pub open spec fn in_both(a_s: int, a_e: int, b_s: int, b_e: int, g: int) -> bool {
    a_s <= g < a_e && b_s <= g < b_e
}

/// The common part of `[a_s, a_e)` and `[b_s, b_e)`, if there is any.
pub fn intersect(a_s: usize, a_e: usize, b_s: usize, b_e: usize) -> (r: Option<(usize, usize)>)
    ensures
        match r {
            Some((s, e)) => {
                &&& s == larger(a_s as int, b_s as int)
                &&& e == smaller(a_e as int, b_e as int)
                &&& s < e
            },
            None => larger(a_s as int, b_s as int) >= smaller(a_e as int, b_e as int),
        },
        forall|g: int|
            (r is Some && r->Some_0.0 <= g < r->Some_0.1) <==> #[trigger] in_both(
                a_s as int,
                a_e as int,
                b_s as int,
                b_e as int,
                g,
            ),
{
    let s: usize = if a_s >= b_s {
        a_s
    } else {
        b_s
    };
    let e: usize = if a_e <= b_e {
        a_e
    } else {
        b_e
    };
    if s < e {
        Some((s, e))
    } else {
        None
    }
}

/// A stretch of `w`: the witness vector that holds it, its offset and length
/// there in halves, and the index of its first element in `w`.
pub type Block = (usize, usize, usize, usize);

/// The part of `[lo, hi)` in `[a, b)` as a block of vector `vi`, whose half
/// `base` is the first half of element `a`.
pub open spec fn piece(vi: int, base: int, lo: int, hi: int, a: int, b: int) -> Seq<Block> {
    let s = larger(lo, a);
    let e = smaller(hi, b);
    if s < e {
        seq![(vi as usize, (base + 2 * (s - a)) as usize, (2 * (e - s)) as usize, s as usize)]
    } else {
        seq![]
    }
}

/// The blocks that hold elements `q_start` to `q_end` of `w`: first the part
/// in vector 0, then the two parts in vector 1.
pub open spec fn w_blocks(l: Layout, q_start: int, q_end: int) -> Seq<Block> {
    piece(0, 0, q_start, q_end, l.v0_start as int, l.v0_end as int) + piece(
        1,
        0,
        q_start,
        q_end,
        0,
        l.v0_start as int,
    ) + piece(1, l.w_before_len as int, q_start, q_end, l.v0_end as int, l.total as int)
}

/// The split of `l` is within its total and its lengths fit a machine word.
pub open spec fn layout_ok(l: Layout) -> bool {
    &&& l.v0_start <= l.v0_end <= l.total
    &&& 2 * l.total <= usize::MAX
    &&& l.w_before_len == 2 * l.v0_start
}

/// Lists the blocks that hold elements `q_start` to `q_end` of `w`.
pub fn w_blocks_r2(layout: &Layout, q_start: usize, q_end: usize) -> (r: Vec<Block>)
    requires
        layout_ok(*layout),
    ensures
        r@ == w_blocks(*layout, q_start as int, q_end as int),
{
    let mut blocks: Vec<Block> = Vec::new();
    let ghost p0 = piece(
        0,
        0,
        q_start as int,
        q_end as int,
        layout.v0_start as int,
        layout.v0_end as int,
    );
    let ghost p1 = piece(1, 0, q_start as int, q_end as int, 0, layout.v0_start as int);
    if let Some((s, e)) = intersect(q_start, q_end, layout.v0_start, layout.v0_end) {
        blocks.push((0, 2 * (s - layout.v0_start), 2 * (e - s), s));
    }
    assert(blocks@ =~= p0);
    if let Some((s, e)) = intersect(q_start, q_end, 0, layout.v0_start) {
        blocks.push((1, 2 * s, 2 * (e - s), s));
    }
    assert(blocks@ =~= p0 + p1);
    if let Some((s, e)) = intersect(q_start, q_end, layout.v0_end, layout.total) {
        blocks.push((1, layout.w_before_len + 2 * (s - layout.v0_end), 2 * (e - s), s));
    }
    assert(blocks@ =~= w_blocks(*layout, q_start as int, q_end as int));
    blocks
}

/// The stretches of `full` that belong to the first `n` blocks, one after the
/// other; `full` holds two factors for each element from `q_start` on.
pub open spec fn gather(
    full: Seq<Seq<u64>>,
    blocks: Seq<Block>,
    q_start: int,
    n: int,
) -> Seq<Seq<u64>>
    decreases n,
{
    if n <= 0 {
        seq![]
    } else {
        gather(full, blocks, q_start, n - 1) + full.subrange(
            2 * (blocks[n - 1].3 - q_start),
            2 * (blocks[n - 1].3 - q_start) + blocks[n - 1].2,
        )
    }
}

/// Appends `full[lo..hi]` to `phi`.
pub fn extend_range(phi: &mut Vec<R64>, full: &[R64], lo: usize, hi: usize)
    requires
        lo <= hi <= full@.len(),
    ensures
        final(phi)@ == old(phi)@ + full@.subrange(lo as int, hi as int),
{
    let ghost before = phi@;
    for i in lo..hi
        invariant
            lo <= hi <= full@.len(),
            phi@ == before + full@.subrange(lo as int, i as int),
    {
        phi.push(full[i]);
        assert(phi@ =~= before + full@.subrange(lo as int, i + 1));
    }
}

/// The views of two lists one after the other.
pub proof fn views_add(a: Seq<R64>, b: Seq<R64>)
    ensures
        views(a + b) == views(a) + views(b),
{
    assert(views(a + b) =~= views(a) + views(b));
}

/// The views of a stretch of a list.
pub proof fn views_subrange(a: Seq<R64>, lo: int, hi: int)
    requires
        0 <= lo <= hi <= a.len(),
    ensures
        views(a.subrange(lo, hi)) == views(a).subrange(lo, hi),
{
    assert(views(a.subrange(lo, hi)) =~= views(a).subrange(lo, hi));
}

/// Appends to a constraint the blocks that hold elements `q_start` to `q_end`
/// of `w`, with the factors of those elements.
pub fn push_range_block(
    idx: &mut Vec<usize>,
    off: &mut Vec<usize>,
    len: &mut Vec<usize>,
    phi: &mut Vec<R64>,
    full: &[R64],
    layout: &Layout,
    q_start: usize,
    q_end: usize,
)
    requires
        layout_ok(*layout),
        forall|i: int|
            0 <= i < w_blocks(*layout, q_start as int, q_end as int).len() ==> {
                let b = #[trigger] w_blocks(*layout, q_start as int, q_end as int)[i];
                2 * (b.3 - q_start) + b.2 <= full@.len()
            },
    ensures
        ({
            let blocks = w_blocks(*layout, q_start as int, q_end as int);
            &&& final(idx)@ == old(idx)@ + blocks.map_values(|b: Block| b.0)
            &&& final(off)@ == old(off)@ + blocks.map_values(|b: Block| b.1)
            &&& final(len)@ == old(len)@ + blocks.map_values(|b: Block| b.2)
            &&& views(final(phi)@) == views(old(phi)@) + gather(
                views(full@),
                blocks,
                q_start as int,
                blocks.len() as int,
            )
        }),
{
    let blocks = w_blocks_r2(layout, q_start, q_end);
    let ghost idx0 = idx@;
    let ghost off0 = off@;
    let ghost len0 = len@;
    let ghost phi0 = phi@;
    assert(views(phi@) =~= views(phi0) + gather(views(full@), blocks@, q_start as int, 0));
    assert(idx@ =~= idx0 + blocks@.take(0).map_values(|b: Block| b.0));
    assert(off@ =~= off0 + blocks@.take(0).map_values(|b: Block| b.1));
    assert(len@ =~= len0 + blocks@.take(0).map_values(|b: Block| b.2));
    for i in 0..blocks.len()
        invariant
            layout_ok(*layout),
            blocks@ == w_blocks(*layout, q_start as int, q_end as int),
            forall|i: int|
                0 <= i < blocks@.len() ==> {
                    let b = #[trigger] blocks@[i];
                    2 * (b.3 - q_start) + b.2 <= full@.len()
                },
            idx@ == idx0 + blocks@.take(i as int).map_values(|b: Block| b.0),
            off@ == off0 + blocks@.take(i as int).map_values(|b: Block| b.1),
            len@ == len0 + blocks@.take(i as int).map_values(|b: Block| b.2),
            views(phi@) == views(phi0) + gather(views(full@), blocks@, q_start as int, i as int),
    {
        let b: Block = blocks[i];
        proof {
            block_in_range(*layout, q_start as int, q_end as int, i as int);
        }
        idx.push(b.0);
        off.push(b.1);
        len.push(b.2);
        let local: usize = 2 * (b.3 - q_start);
        let ghost phi1 = phi@;
        extend_range(phi, full, local, local + b.2);
        proof {
            views_add(phi1, full@.subrange(local as int, local + b.2));
            views_subrange(full@, local as int, local + b.2);
        }
        assert(idx@ =~= idx0 + blocks@.take(i + 1).map_values(|b: Block| b.0));
        assert(off@ =~= off0 + blocks@.take(i + 1).map_values(|b: Block| b.1));
        assert(len@ =~= len0 + blocks@.take(i + 1).map_values(|b: Block| b.2));
        assert(views(phi@) =~= views(phi0) + gather(
            views(full@),
            blocks@,
            q_start as int,
            i + 1,
        ));
    }
    assert(blocks@.take(blocks@.len() as int) =~= blocks@);
}

/// Every block starts at or after the start of the range it was made for and
/// ends within it.
pub proof fn block_in_range(l: Layout, q_start: int, q_end: int, i: int)
    requires
        layout_ok(l),
        0 <= q_start,
        0 <= i < w_blocks(l, q_start, q_end).len(),
    ensures
        q_start <= w_blocks(l, q_start, q_end)[i].3,
        2 * w_blocks(l, q_start, q_end)[i].3 + w_blocks(l, q_start, q_end)[i].2 <= 2 * smaller(
            q_end,
            l.total as int,
        ),
        w_blocks(l, q_start, q_end)[i].2 > 0,
        w_blocks(l, q_start, q_end)[i].2 % 2 == 0,
{
}

/// The witness vector and the position there of half `m` of `w`: half `2 * g`
/// is the even half of element `g`, half `2 * g + 1` its odd half.
pub open spec fn place(l: Layout, m: int) -> (int, int) {
    if l.v0_start <= m / 2 < l.v0_end {
        (0, m - 2 * l.v0_start)
    } else if m / 2 < l.v0_start {
        (1, m)
    } else {
        (1, l.w_before_len + (m - 2 * l.v0_end))
    }
}

/// Blocks agree with the placement: half `i` of a block is where `place` puts
/// it.
pub proof fn law_blocks_are_placed(l: Layout, q_start: int, q_end: int, b: int, i: int)
    requires
        layout_ok(l),
        0 <= q_start,
        0 <= b < w_blocks(l, q_start, q_end).len(),
        0 <= i < w_blocks(l, q_start, q_end)[b].2,
    ensures
        ({
            let blk = w_blocks(l, q_start, q_end)[b];
            place(l, 2 * blk.3 + i) == (blk.0 as int, blk.1 + i)
        }),
{
}

/// No two halves of `w` share a place.
pub proof fn law_place_injective(l: Layout, m: int, n: int)
    requires
        layout_ok(l),
        0 <= m < 2 * l.total,
        0 <= n < 2 * l.total,
        place(l, m) == place(l, n),
    ensures
        m == n,
{
}

/// The value of a function summed over the halves of one block.
pub open spec fn block_sum(b: Block, f: spec_fn(int) -> int) -> int {
    sum(2 * b.3 as int, 2 * b.3 + b.2, f)
}

/// The blocks of a range cover each of its halves once: summing over the
/// blocks is summing over the range.
pub proof fn law_blocks_partition(l: Layout, q_start: int, q_end: int, f: spec_fn(int) -> int)
    requires
        layout_ok(l),
        0 <= q_start <= q_end <= l.total,
    ensures
        sum(
            0,
            w_blocks(l, q_start, q_end).len() as int,
            |b: int| block_sum(w_blocks(l, q_start, q_end)[b], f),
        ) == sum(2 * q_start, 2 * q_end, f),
{
    let blocks = w_blocks(l, q_start, q_end);
    let g = |b: int| block_sum(blocks[b], f);
    let lo = larger(q_start, smaller(q_end, l.v0_start as int));
    let hi = larger(q_start, smaller(q_end, l.v0_end as int));
    sum_split(2 * q_start, 2 * lo, 2 * q_end, f);
    sum_split(2 * lo, 2 * hi, 2 * q_end, f);
    reveal_with_fuel(sum, 5);
    let p0 = piece(0, 0, q_start, q_end, l.v0_start as int, l.v0_end as int);
    let p1 = piece(1, 0, q_start, q_end, 0, l.v0_start as int);
    let p2 = piece(1, l.w_before_len as int, q_start, q_end, l.v0_end as int, l.total as int);
    let n0 = p0.len() as int;
    let n1 = p1.len() as int;
    let n2 = p2.len() as int;
    assert(blocks == p0 + p1 + p2);
    sum_split(0, n0, n0 + n1 + n2, g);
    sum_split(n0, n0 + n1, n0 + n1 + n2, g);
    assert(sum(0, n0, g) == sum(2 * lo, 2 * hi, f)) by {
        if n0 == 1 {
            assert(blocks[0] == p0[0]);
            assert(sum(0, n0, g) == g(0));
        }
    }
    assert(sum(n0, n0 + n1, g) == sum(2 * q_start, 2 * lo, f)) by {
        if n1 == 1 {
            assert(blocks[n0] == p1[0]);
            assert(sum(n0, n0 + n1, g) == g(n0));
        }
    }
    assert(sum(n0 + n1, n0 + n1 + n2, g) == sum(2 * hi, 2 * q_end, f)) by {
        if n2 == 1 {
            assert(blocks[n0 + n1] == p2[0]);
            assert(sum(n0 + n1, n0 + n1 + n2, g) == g(n0 + n1));
        }
    }
}

/// The two vectors together hold both halves of every element of `w`, and all
/// digits.
pub proof fn law_vectors_hold_everything(l: Layout, s: ChainShape)
    requires
        shape_fits(s),
        layout_matches(l, s),
    ensures
        vector_spec(l, 0).n + vector_spec(l, 1).n == 2 * (s.height * s.width) + ydec_halves(s)
            + c1dec_halves(s),
{
    shape_lengths(s);
}

} // verus!
