//! What a configuration asks for: which round a cut refers to, the dimensions
//! of the relation there, where its witness is split, and what the parties
//! agree on before any proof.

use crate::config::{
    digit_sq, floor_log2, inner_prefixes, inner_ranges_fit, law_floor_log2, law_next_pow2,
    most_inner, next_pow2, nth_round, prefix_bounds, prefix_fits, round_at, shape_of, total_vars,
    ChainShape, Config, Prefix, Projection, RecursionConfig, RoundError, SumcheckConfig,
};
use crate::export::{
    caps_of, inner_base_log, prover_ready, public_view, ready, statement_for, tensor, the_layout,
    vector_record, w_bound, BoundaryView, ProverView,
};
use crate::layout::{
    c1dec_halves, in_ranges, inner_ranges, layout_for, shape_fits, shape_lengths, vector_spec,
    ydec_halves, Layout,
};
use crate::negacyclic::conv;
use crate::public::{mixed_radix, mixed_radix_bound};
use crate::r64::center_spec;
use crate::ring::{element, halves, ring_coeffs, RingElement};
use crate::statement::VectorRecord;
use crate::sums::{cong, cong_mod};
use crate::witness::centerable;
use vstd::arithmetic::div_mod::lemma_mod_bound;
use vstd::arithmetic::power2::{
    lemma_pow2_adds, lemma_pow2_pos, lemma_pow2_strictly_increases, pow2,
};
use vstd::prelude::*;

verus! {

/// A cut at zero or one is the first round, and each later cut is the sumcheck
/// round that follows the one of the cut before it, if there is one. The chain
/// has to begin with a sumcheck round.
pub proof fn law_round_at(c: SumcheckConfig, cut: usize)
    requires
        cut < usize::MAX,
    ensures
        round_at(Config::Other, cut) == Err::<SumcheckConfig, RoundError>(
            RoundError::RootNotSumcheck,
        ),
        round_at(Config::Sumcheck(c), 0) == Ok::<SumcheckConfig, RoundError>(c),
        round_at(Config::Sumcheck(c), 1) == Ok::<SumcheckConfig, RoundError>(c),
        cut >= 1 ==> round_at(Config::Sumcheck(c), (cut + 1) as usize) == match round_at(
            Config::Sumcheck(c),
            cut,
        ) {
            Ok(d) => if d.next is Some && *d.next->Some_0 is Sumcheck {
                Ok::<SumcheckConfig, RoundError>((*d.next->Some_0)->Sumcheck_0)
            } else {
                Err::<SumcheckConfig, RoundError>(RoundError::RoundNotSumcheck)
            },
            Err(_) => Err::<SumcheckConfig, RoundError>(RoundError::RoundNotSumcheck),
        },
{
    reveal_with_fuel(nth_round, 2);
    if cut >= 1 {
        assert(nth_round(c, cut as nat) == match nth_round(c, (cut - 1) as nat) {
            Some(d) => crate::config::next_round(d),
            None => None,
        });
    }
}

/// The most inner level of a recursion has none below it, and is that of every
/// level above it.
pub proof fn law_most_inner(c: RecursionConfig)
    ensures
        most_inner(c).next is None,
        c.next is None ==> most_inner(c) == c,
        c.next is Some ==> most_inner(c) == most_inner(*c.next->Some_0),
    decreases c,
{
    if c.next is Some {
        law_most_inner(*c.next->Some_0);
    }
}

/// The dimensions of the relation come from the configuration: the inner key
/// has its rank, padded up to the least power of two; `ydec` has the digits of
/// the first level of the commitment recursion, and `c1dec` those of the second
/// one, for each row of the outer key.
pub proof fn law_shape_of(nc: SumcheckConfig)
    requires
        next_pow2(nc.basic_commitment_rank as nat) <= usize::MAX,
    ensures
        ({
            let s = shape_of(nc);
            let outer = nc.commitment_recursion;
            &&& s.width == nc.witness_width
            &&& s.height == nc.witness_height
            &&& s.a1_rank == nc.basic_commitment_rank
            &&& s.a1_rank_padded >= nc.basic_commitment_rank
            &&& exists|e: nat| s.a1_rank_padded == pow2(e)
            &&& forall|e: nat|
                nc.basic_commitment_rank <= #[trigger] pow2(e) ==> s.a1_rank_padded <= pow2(e)
            &&& s.num_digits_y == outer.decomposition_chunks
            &&& s.a2_rank == outer.rank
            &&& s.has_c1dec == (outer.next is Some)
            &&& outer.next is Some ==> s.num_digits_c1 == outer.next->Some_0.decomposition_chunks
            &&& outer.next is None ==> s.num_digits_c1 == 0
            &&& ydec_halves(s) == 2 * (nc.witness_width * s.a1_rank_padded
                * outer.decomposition_chunks)
            &&& outer.next is Some ==> c1dec_halves(s) == 2 * (outer.rank
                * outer.next->Some_0.decomposition_chunks)
            &&& outer.next is None ==> c1dec_halves(s) == 0
        }),
{
    law_next_pow2(nc.basic_commitment_rank as nat);
}

/// The digits of `ydec` are to the base of the first level of the commitment
/// recursion, those of `c1dec` to the base of the second one, which is that
/// level's own. Keys, commitment and claims are those of the boundary.
pub proof fn law_public_view(b: BoundaryView, q: u64)
    ensures
        ({
            let d = public_view(b, q);
            let outer = b.config.commitment_recursion;
            &&& d.a2_base_log == outer.decomposition_base_log
            &&& outer.next is Some ==> d.a3_base_log
                == outer.next->Some_0.decomposition_base_log
            &&& outer.next is Some ==> inner_base_log(b.config)
                == outer.next->Some_0.decomposition_base_log
            &&& d.a1.len() == b.a1.len()
            &&& forall|t: int|
                0 <= t < b.a1.len() ==> (#[trigger] d.a1[t]).len() == b.a1[t].len()
            &&& forall|t: int, i: int|
                0 <= t < b.a1.len() && 0 <= i < b.a1[t].len() ==> #[trigger] d.a1[t][i] == halves(
                    b.a1[t][i],
                )
            &&& d.a2.len() == b.a2.len()
            &&& forall|u: int|
                0 <= u < b.a2.len() ==> (#[trigger] d.a2[u]).len() == b.a2[u].len()
            &&& forall|u: int, i: int|
                0 <= u < b.a2.len() && 0 <= i < b.a2[u].len() ==> #[trigger] d.a2[u][i] == halves(
                    b.a2[u][i],
                )
            &&& outer.next is Some ==> d.a3.len() == b.a3[0].len()
            &&& outer.next is Some ==> forall|i: int|
                0 <= i < b.a3[0].len() ==> #[trigger] d.a3[i] == halves(b.a3[0][i])
            &&& d.commitment.len() == b.commitment.len()
            &&& forall|i: int|
                0 <= i < b.commitment.len() ==> #[trigger] d.commitment[i] == halves(
                    b.commitment[i],
                )
            &&& d.z0 == halves(b.z0)
            &&& d.z1 == halves(b.z1)
        }),
{
}

/// The first half of a ring element holds its coefficients of even powers, the
/// second half those of odd powers.
pub proof fn law_ring_coeffs(el: RingElement, k: int)
    requires
        0 <= k < 64,
    ensures
        halves(el).0.len() == 64,
        halves(el).1.len() == 64,
        halves(el).0[k] == el.v@[k],
        halves(el).1[k] == el.v@[64 + k],
        ring_coeffs(el).len() == 128,
        ring_coeffs(el)[2 * k] == el.v@[k],
        ring_coeffs(el)[2 * k + 1] == el.v@[64 + k],
{
    assert((2 * k) / 2 == k && (2 * k) % 2 == 0);
    assert((2 * k + 1) / 2 == k && (2 * k + 1) % 2 == 1);
}

/// A tensor product has, for column `col` and row `row`, entry `row` of the inner
/// point times entry `col` of the outer one, as residues, column by column.
pub proof fn law_tensor(
    inner: Seq<RingElement>,
    outer: Seq<RingElement>,
    width: int,
    height: int,
    q: u64,
    col: int,
    row: int,
    m: int,
)
    requires
        q > 0,
        0 <= col < width,
        0 <= row < height,
        0 <= m < 128,
    ensures
        tensor(inner, outer, width, height, q).len() == width * height,
        0 <= col * height + row < width * height,
        0 <= element(tensor(inner, outer, width, height, q)[col * height + row])[m] < q,
        cong(
            element(tensor(inner, outer, width, height, q)[col * height + row])[m],
            conv(ring_coeffs(inner[row]), ring_coeffs(outer[col]), m),
            q as int,
        ),
{
    mixed_radix(col, row, height);
    mixed_radix_bound(col, row, width, height);
    let x = conv(ring_coeffs(inner[row]), ring_coeffs(outer[col]), m);
    cong_mod(x, q as int);
    lemma_mod_bound(x, q as int);
    assert(m == 2 * (m / 2) || m == 2 * (m / 2) + 1);
}

/// A claim weighs element `row` of column `col` of `w` by entry `row` of its
/// inner point times entry `col` of its outer one, as residues.
pub proof fn law_claim_weights(b: BoundaryView, q: u64, col: int, row: int, m: int)
    requires
        q > 0,
        0 <= col < b.config.witness_width,
        0 <= row < b.config.witness_height,
        0 <= m < 128,
    ensures
        ({
            let d = public_view(b, q);
            let at = col * b.config.witness_height + row;
            &&& 0 <= at < b.config.witness_width * b.config.witness_height
            &&& d.evals0.len() == b.config.witness_width * b.config.witness_height
            &&& d.evals1.len() == b.config.witness_width * b.config.witness_height
            &&& 0 <= element(d.evals0[at])[m] < q
            &&& 0 <= element(d.evals1[at])[m] < q
            &&& cong(
                element(d.evals0[at])[m],
                conv(ring_coeffs(b.inner0[row]), ring_coeffs(b.outer0[col]), m),
                q as int,
            )
            &&& cong(
                element(d.evals1[at])[m],
                conv(ring_coeffs(b.inner1[row]), ring_coeffs(b.outer1[col]), m),
                q as int,
            )
        }),
{
    let w = b.config.witness_width as int;
    let h = b.config.witness_height as int;
    law_tensor(b.inner0, b.outer0, w, h, q, col, row, m);
    law_tensor(b.inner1, b.outer1, w, h, q, col, row, m);
}

/// The square of the largest digit of a balanced decomposition is the power of
/// two with twice its exponent.
pub proof fn law_digit_sq(base_log: int)
    requires
        1 <= base_log,
    ensures
        digit_sq(base_log) == pow2((2 * (base_log - 1)) as nat),
{
    let e = (base_log - 1) as nat;
    lemma_pow2_adds(e, e);
}

/// The digits may add, for each of the 64 coefficients of each half, the square
/// of the largest digit to the base of their own level.
pub proof fn law_caps(s: ChainShape, a2_base_log: int, a3_base_log: int)
    requires
        1 <= a2_base_log,
        s.has_c1dec ==> 1 <= a3_base_log,
    ensures
        caps_of(s, a2_base_log, a3_base_log) == 128 * (s.width * s.a1_rank_padded * s.num_digits_y)
            * pow2((2 * (a2_base_log - 1)) as nat) + (if s.has_c1dec {
            128 * (s.a2_rank * s.num_digits_c1) * pow2((2 * (a3_base_log - 1)) as nat)
        } else {
            0
        }),
{
    law_digit_sq(a2_base_log);
    if s.has_c1dec {
        law_digit_sq(a3_base_log);
    }
}

/// The total of both norm bounds is the bound of the round and, for each of the
/// 64 coefficients of each half of a digit, the square of the largest digit to
/// the base of its own level, modulo `2^64`.
pub proof fn law_total_bound(c: SumcheckConfig, b: BoundaryView)
    requires
        next_pow2(b.config.basic_commitment_rank as nat) <= usize::MAX,
        b.config.commitment_recursion.decomposition_base_log >= 1,
        b.config.commitment_recursion.next is Some
            ==> b.config.commitment_recursion.next->Some_0.decomposition_base_log >= 1,
    ensures
        ({
            let outer = b.config.commitment_recursion;
            let padded = next_pow2(b.config.basic_commitment_rank as nat);
            let ydec = 128 * (b.config.witness_width * padded * outer.decomposition_chunks);
            w_bound(c, b) as int == (c.norm_bound_sq + ydec * pow2(
                (2 * (outer.decomposition_base_log - 1)) as nat,
            ) + match outer.next {
                Some(n) => 128 * (outer.rank * n.decomposition_chunks) * pow2(
                    (2 * (n.decomposition_base_log - 1)) as nat,
                ),
                None => 0,
            }) % 0x1_0000_0000_0000_0000
        }),
{
    let outer = b.config.commitment_recursion;
    law_digit_sq(outer.decomposition_base_log as int);
    if outer.next is Some {
        law_digit_sq(outer.next->Some_0.decomposition_base_log as int);
    }
}

/// The first `tv` of the bits of an index `g` with `tv` bits in all are those of
/// the prefix.
pub open spec fn starts_with(p: Prefix, tv: int, g: int) -> bool {
    g / (pow2((tv - p.length) as nat) as int) == p.prefix
}

/// Index `g` belongs to one of the most inner commitments of a round.
pub open spec fn innermost(c: SumcheckConfig, tv: int, g: int) -> bool {
    ||| starts_with(most_inner(c.commitment_recursion).prefix, tv, g)
    ||| starts_with(most_inner(c.opening_recursion).prefix, tv, g)
    ||| match c.projection_recursion {
        Projection::Coarse(r) => starts_with(most_inner(r).prefix, tv, g),
        Projection::Fine { recursion_constant_term, recursion_batched_projection } => {
            ||| starts_with(most_inner(recursion_constant_term).prefix, tv, g)
            ||| starts_with(most_inner(recursion_batched_projection).prefix, tv, g)
        },
        Projection::Skip => false,
    }
}

/// The number of index bits is the exponent of the greatest power of two within
/// the length of the composed witness.
pub proof fn law_total_vars(c: SumcheckConfig, tv: nat)
    requires
        pow2(tv) <= c.composed_witness_length < pow2(tv + 1),
    ensures
        total_vars(c) == tv,
{
    lemma_pow2_pos(tv);
    let n = c.composed_witness_length as nat;
    law_floor_log2(n);
    let f = floor_log2(n);
    if f < tv {
        if f + 1 < tv {
            lemma_pow2_strictly_increases(f + 1, tv);
        }
    } else if tv < f {
        if tv + 1 < f {
            lemma_pow2_strictly_increases(tv + 1, f);
        }
    }
}

/// An index is within the bounds of a prefix exactly when it starts with it.
pub proof fn law_prefix_bounds(p: Prefix, tv: int, g: int)
    requires
        p.length <= tv,
    ensures
        prefix_bounds(p, tv).0 <= g < prefix_bounds(p, tv).1 <==> starts_with(p, tv, g),
{
    let size = pow2((tv - p.length) as nat) as int;
    lemma_pow2_pos((tv - p.length) as nat);
    let x = p.prefix as int;
    assert((x + 1) * size == x * size + size) by (nonlinear_arith);
    vstd::arithmetic::div_mod::lemma_fundamental_div_mod(g, size);
    vstd::arithmetic::div_mod::lemma_mod_bound(g, size);
    assert(g == size * (g / size) + g % size);
    if x * size <= g < x * size + size {
        vstd::arithmetic::div_mod::lemma_fundamental_div_mod_converse(g, size, x, g - x * size);
    }
    if g / size == x {
        assert(size * (g / size) == x * size) by (nonlinear_arith)
            requires
                g / size == x,
        ;
    }
}

/// The most inner prefixes of a round are those of its commitment, of its
/// opening and of its projections, in this order.
pub proof fn law_inner_prefixes(c: SumcheckConfig)
    ensures
        ({
            let ps = inner_prefixes(c);
            &&& ps[0] == most_inner(c.commitment_recursion).prefix
            &&& ps[1] == most_inner(c.opening_recursion).prefix
            &&& match c.projection_recursion {
                Projection::Coarse(r) => ps.len() == 3 && ps[2] == most_inner(r).prefix,
                Projection::Fine { recursion_constant_term, recursion_batched_projection } => {
                    &&& ps.len() == 4
                    &&& ps[2] == most_inner(recursion_constant_term).prefix
                    &&& ps[3] == most_inner(recursion_batched_projection).prefix
                },
                Projection::Skip => ps.len() == 2,
            }
        }),
{
}

/// The inner ranges of a round hold the indices of its most inner commitments,
/// and no others.
pub proof fn law_inner_ranges(c: SumcheckConfig, tv: nat, g: int)
    requires
        inner_ranges_fit(c),
        pow2(tv) <= c.composed_witness_length < pow2(tv + 1),
    ensures
        in_ranges(inner_ranges(c), g) <==> innermost(c, tv as int, g),
{
    law_total_vars(c, tv);
    let ps = inner_prefixes(c);
    let rs = inner_ranges(c);
    assert forall|i: int| 0 <= i < ps.len() implies (rs[i].0 <= g < rs[i].1 <==> starts_with(
        #[trigger] ps[i],
        tv as int,
        g,
    )) by {
        assert(prefix_fits(ps[i], total_vars(c)));
        law_prefix_bounds(ps[i], tv as int, g);
    }
    law_inner_prefixes(c);
    if in_ranges(rs, g) {
        let i = choose|i: int| 0 <= i < rs.len() && (#[trigger] rs[i]).0 <= g < rs[i].1;
        assert(starts_with(ps[i], tv as int, g));
        assert(i == 0 || i == 1 || i == 2 || i == 3);
    }
    if innermost(c, tv as int, g) {
        if starts_with(ps[0], tv as int, g) {
            assert(rs[0].0 <= g < rs[0].1);
        } else if starts_with(ps[1], tv as int, g) {
            assert(rs[1].0 <= g < rs[1].1);
        } else if starts_with(ps[2], tv as int, g) {
            assert(rs[2].0 <= g < rs[2].1);
        } else {
            assert(rs[3].0 <= g < rs[3].1);
        }
    }
}

/// Vector 0 is the shortest stretch of `w` that holds every element of a most
/// inner commitment, or the first half of `w` if it has none. Vector 1 has the
/// rest of `w` and all digits.
pub proof fn law_split(c: SumcheckConfig, s: ChainShape, l: Layout, tv: nat)
    requires
        inner_ranges_fit(c),
        pow2(tv) <= c.composed_witness_length < pow2(tv + 1),
        layout_for(inner_ranges(c), s, l),
    ensures
        ({
            let total = s.height * s.width;
            &&& l.total == total
            &&& 0 <= l.v0_start <= l.v0_end <= total
            &&& forall|g: int|
                0 <= g < total && #[trigger] innermost(c, tv as int, g) ==> l.v0_start <= g
                    < l.v0_end
            &&& (exists|g: int| 0 <= g < total && #[trigger] innermost(c, tv as int, g)) ==> {
                &&& l.v0_start < l.v0_end
                &&& innermost(c, tv as int, l.v0_start as int)
                &&& innermost(c, tv as int, l.v0_end - 1)
            }
            &&& (forall|g: int| 0 <= g < total ==> !#[trigger] innermost(c, tv as int, g)) ==> {
                &&& l.v0_start == 0
                &&& l.v0_end == total / 2
            }
            &&& l.w_before_len == 2 * l.v0_start
            &&& l.w_after_len == 2 * (total - l.v0_end)
            &&& l.ydec_len == 2 * (s.width * s.a1_rank_padded * s.num_digits_y)
            &&& s.has_c1dec ==> l.c1dec_len == 2 * (s.a2_rank * s.num_digits_c1)
            &&& !s.has_c1dec ==> l.c1dec_len == 0
        }),
{
    let rs = inner_ranges(c);
    let total = s.height * s.width;
    shape_lengths(s);
    assert forall|g: int| #[trigger] in_ranges(rs, g) <==> innermost(c, tv as int, g) by {
        law_inner_ranges(c, tv, g);
    }
    assert forall|g: int| 0 <= g < total && #[trigger] innermost(c, tv as int, g) implies l.v0_start
        <= g < l.v0_end by {
        assert(in_ranges(rs, g));
    }
    if exists|g: int| 0 <= g < total && #[trigger] innermost(c, tv as int, g) {
        let g = choose|g: int| 0 <= g < total && #[trigger] innermost(c, tv as int, g);
        assert(in_ranges(rs, g));
        assert(in_ranges(rs, l.v0_start as int));
        assert(in_ranges(rs, l.v0_end - 1));
    } else {
        assert forall|g: int| 0 <= g < total implies !#[trigger] in_ranges(rs, g) by {
            assert(!innermost(c, tv as int, g));
        }
    }
}

/// A shape fits exactly when both halves of all its elements and digits can be
/// counted in a machine word.
pub proof fn law_shape_fits(s: ChainShape)
    ensures
        shape_fits(s) <==> {
            &&& s.width * s.a1_rank_padded <= usize::MAX
            &&& 2 * (s.height * s.width) + 2 * (s.width * s.a1_rank_padded * s.num_digits_y) + (
            if s.has_c1dec {
                2 * (s.a2_rank * s.num_digits_c1)
            } else {
                0
            }) <= usize::MAX
        },
{
}

/// Vector 0 has both halves of the elements between the split points, vector 1
/// both halves of the other elements and all halves of digits. Both carry the
/// witness, and vector 0 is also held to the inner bound.
pub proof fn law_vector_records(l: Layout, betasq: u64)
    requires
        l.v0_start <= l.v0_end,
        2 * (l.v0_end - l.v0_start) <= usize::MAX,
        l.w_before_len + l.w_after_len + l.ydec_len + l.c1dec_len <= usize::MAX,
    ensures
        vector_spec(l, 0).n == 2 * (l.v0_end - l.v0_start),
        vector_spec(l, 0).role == 0,
        vector_spec(l, 0).flags == 1,
        vector_spec(l, 1).n == l.w_before_len + l.w_after_len + l.ydec_len + l.c1dec_len,
        vector_spec(l, 1).role == 0,
        vector_spec(l, 1).flags == 0,
        vector_record(l, 0, betasq) == (VectorRecord {
            n: (2 * (l.v0_end - l.v0_start)) as usize,
            betasq,
            role: 0,
            flags: 1,
        }),
        vector_record(l, 1, betasq) == (VectorRecord {
            n: (l.w_before_len + l.w_after_len + l.ydec_len + l.c1dec_len) as usize,
            betasq,
            role: 0,
            flags: 0,
        }),
{
}

/// The statement carries the boundary's digest, the modulus, the inner bound of
/// the round cut at, and the two norm bounds it was made for.
pub proof fn law_statement_fields(
    c: SumcheckConfig,
    b: BoundaryView,
    betasq0: u64,
    betasq1: u64,
    q: u64,
)
    ensures
        ({
            let stmt = statement_for(c, b, betasq0, betasq1, q);
            let l = the_layout(c, shape_of(b.config));
            &&& stmt.q == q
            &&& stmt.digest == b.digest
            &&& stmt.betasq_inner_total == c.most_inner_norm_bound_sq
            &&& stmt.betasq_w_total == w_bound(c, b)
            &&& stmt.vectors.len() == 2
            &&& stmt.vectors[0].n == vector_spec(l, 0).n
            &&& stmt.vectors[1].n == vector_spec(l, 1).n
            &&& stmt.vectors[0].betasq == betasq0
            &&& stmt.vectors[1].betasq == betasq1
            &&& stmt.vectors[0].role == 0 && stmt.vectors[1].role == 0
            &&& stmt.vectors[0].flags == 1 && stmt.vectors[1].flags == 0
        }),
{
}

/// The stretch of indices that start with a prefix ends within a machine word.
pub open spec fn stretch_fits(p: Prefix, tv: int) -> bool {
    p.length <= tv && (p.prefix + 1) * pow2((tv - p.length) as nat) <= usize::MAX
}

/// The ranges of a round can be computed exactly when there are indices at all
/// and the stretch of every most inner commitment fits.
pub proof fn law_inner_ranges_fit(c: SumcheckConfig, tv: nat)
    requires
        pow2(tv) <= c.composed_witness_length < pow2(tv + 1),
    ensures
        inner_ranges_fit(c) <==> {
            &&& stretch_fits(most_inner(c.commitment_recursion).prefix, tv as int)
            &&& stretch_fits(most_inner(c.opening_recursion).prefix, tv as int)
            &&& match c.projection_recursion {
                Projection::Coarse(r) => stretch_fits(most_inner(r).prefix, tv as int),
                Projection::Fine { recursion_constant_term, recursion_batched_projection } => {
                    &&& stretch_fits(most_inner(recursion_constant_term).prefix, tv as int)
                    &&& stretch_fits(most_inner(recursion_batched_projection).prefix, tv as int)
                },
                Projection::Skip => true,
            }
        },
{
    law_total_vars(c, tv);
    lemma_pow2_pos(tv);
    let ps = inner_prefixes(c);
    assert forall|i: int| 0 <= i < ps.len() implies (prefix_fits(#[trigger] ps[i], total_vars(c))
        <==> stretch_fits(ps[i], tv as int)) by {}
    law_inner_prefixes(c);
}

/// A boundary can be exported exactly when its lists are as long as its
/// configuration asks for, its digit weights fit 64 bits, its bases are between
/// one and 32, and all lengths and norms fit.
pub proof fn law_ready(c: SumcheckConfig, b: BoundaryView, q: u64)
    ensures
        ready(c, b, q) <==> {
            let width = b.config.witness_width;
            let height = b.config.witness_height;
            let rank = b.config.basic_commitment_rank;
            let padded = next_pow2(rank as nat);
            let outer = b.config.commitment_recursion;
            let digits = width * padded * outer.decomposition_chunks;
            let inner = outer.next->Some_0;
            let last = outer.rank * inner.decomposition_chunks;
            let nested = outer.next is Some;
            &&& padded <= usize::MAX
            &&& inner_ranges_fit(c)
            &&& width * padded <= usize::MAX
            &&& 2 * (height * width) + 2 * digits + (if nested {
                2 * last
            } else {
                0
            }) <= usize::MAX
            &&& width > 0 && height > 0 ==> {
                &&& b.inner0.len() >= height
                &&& b.inner1.len() >= height
                &&& b.outer0.len() >= width
                &&& b.outer1.len() >= width
            }
            &&& width > 0 ==> b.a1.len() >= rank
            &&& width > 0 ==> forall|t: int|
                0 <= t < rank ==> (#[trigger] b.a1[t]).len() >= height
            &&& width > 0 && rank > 0 ==> forall|k: int|
                0 <= k < outer.decomposition_chunks ==> #[trigger] (outer.decomposition_base_log
                    * k) < 64
            &&& b.a2.len() >= outer.rank
            &&& forall|u: int| 0 <= u < outer.rank ==> (#[trigger] b.a2[u]).len() >= digits
            &&& !nested ==> b.commitment.len() >= outer.rank
            &&& nested ==> {
                &&& b.commitment.len() >= 1
                &&& b.a3.len() >= 1
                &&& b.a3[0].len() >= last
                &&& outer.rank > 0 ==> forall|k: int|
                    0 <= k < inner.decomposition_chunks ==> #[trigger] (inner.decomposition_base_log
                        * k) < 64
                &&& 1 <= inner.decomposition_base_log <= 32
            }
            &&& 1 <= outer.decomposition_base_log <= 32
            &&& c.norm_bound_sq + 128 * digits * pow2(
                (2 * (outer.decomposition_base_log - 1)) as nat,
            ) + (if nested {
                128 * last * pow2((2 * (inner.decomposition_base_log - 1)) as nat)
            } else {
                0
            }) <= u128::MAX
        },
{
    let outer = b.config.commitment_recursion;
    let s = shape_of(b.config);
    let d = public_view(b, q);
    if next_pow2(b.config.basic_commitment_rank as nat) <= usize::MAX {
        law_shape_of(b.config);
        law_public_view(b, q);
        shape_lengths(s);
        assert(s.width * s.height == s.height * s.width) by (nonlinear_arith);
        if 1 <= outer.decomposition_base_log {
            law_digit_sq(outer.decomposition_base_log as int);
        }
        if outer.next is Some && 1 <= outer.next->Some_0.decomposition_base_log {
            law_digit_sq(outer.next->Some_0.decomposition_base_log as int);
        }
        assert forall|t: int| 0 <= t < b.a1.len() implies (#[trigger] b.a1[t]).len()
            == d.a1[t].len() by {}
        assert forall|u: int| 0 <= u < b.a2.len() implies (#[trigger] b.a2[u]).len()
            == d.a2[u].len() by {}
    }
}

/// An element can be centered exactly when none of its coefficients is one of
/// the `q` least words above the signed ones.
pub proof fn law_centerable(el: RingElement, q: u64)
    ensures
        centerable(el, q) <==> forall|i: int|
            0 <= i < 128 ==> (#[trigger] el.v@[i]) < 0x8000_0000_0000_0000 || el.v@[i]
                >= 0x8000_0000_0000_0000 + q,
{
    assert forall|i: int| 0 <= i < 128 implies (center_spec(#[trigger] el.v@[i], q)
        >= i64::MIN <==> el.v@[i] < 0x8000_0000_0000_0000 || el.v@[i] >= 0x8000_0000_0000_0000
        + q) by {}
}

/// A prover is ready exactly when `w`, the committed digits and, below an inner
/// level, the digits there are as many as the configuration asks for, and those
/// that it asks for can be centered. Digits that are missing altogether are an
/// error of the export.
pub proof fn law_prover_ready(p: ProverView, q: u64)
    requires
        next_pow2(p.public.config.basic_commitment_rank as nat) <= usize::MAX,
    ensures
        prover_ready(p, q) <==> {
            let nc = p.public.config;
            let outer = nc.commitment_recursion;
            let total = nc.witness_height * nc.witness_width;
            let digits = nc.witness_width * next_pow2(nc.basic_commitment_rank as nat)
                * outer.decomposition_chunks;
            let last = outer.rank * outer.next->Some_0.decomposition_chunks;
            &&& p.w.len() >= total
            &&& forall|i: int| 0 <= i < total ==> centerable(#[trigger] p.w[i], q)
            &&& p.y.len() >= digits
            &&& forall|i: int| 0 <= i < digits ==> centerable(#[trigger] p.y[i], q)
            &&& outer.next is Some && p.c1 is Some ==> {
                &&& p.c1->Some_0.len() >= last
                &&& forall|i: int| 0 <= i < last ==> centerable(#[trigger] p.c1->Some_0[i], q)
            }
        },
{
    law_shape_of(p.public.config);
}

} // verus!
