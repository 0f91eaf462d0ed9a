//! What the export guarantees as a whole.

use crate::check::{
    block_error, block_value, chunk, constraint_error, first_error, first_error_none, holds,
    inner_total, lhs, phi_pos, rhs, self_check_error, too_large, vector_error, w_total,
    WITNESS_COEFF_MAX,
};
use crate::codec::{
    law_statement_bytes_faithful, law_statement_roundtrip, law_witness_roundtrip, parse_statement,
    parse_witness, statement_bytes, statement_well_formed, well_formed, witness_bytes, DecodeError,
};
use crate::config::{
    digit_sq, law_next_pow2, round_at, shape_of, ChainShape, Config, SumcheckConfig,
};
use crate::export::{
    at_least_one, c1_of, caps_of, honest0, honest1, inner_base_log, pair_error, prover_result,
    prover_statement, public_view, public_view_full, ready, record_error, the_layout, vector_record,
    verifier_result, w_bound, witness_for, BoundaryView, ExportError, ProverView,
};
use crate::labrador::{
    form_error, law_self_checked_witness_accepted, order_error, statement_error, LabradorError,
};
use crate::layout::{
    c1dec_halves, covers_inner, in_ranges, inner_ranges, layout_for, layout_matches, shape_fits,
    shape_lengths, vector_spec, ydec_halves, Layout, INNER_FLAG, ROLE_W,
};
use crate::negacyclic::{conv, conv_differs};
use crate::public::public_constraints;
use crate::r64::{center_spec, ints};
use crate::relation::{
    all_hold, boundary_fits, boundary_relation, inner_digits, law_constraints_mean_relation,
    targets_reduced,
};
use crate::ring::RingElement;
use crate::session::{
    answers, begin_error, law_prove_finishes_iff, law_verify_finishes_iff, session, session_len,
    step_at, vector_taken, Reply, Step, Task,
};
use crate::statement::{ConstraintView, StatementView, VectorRecord};
use crate::structure::{
    in_vectors, law_last_constraint_has_target, law_public_constraints_admissible,
    law_public_constraints_well_formed, ordered,
};
use crate::sums::{cong_iff, sum, sum_differs_at, sum_ext, sum_shift, sum_split};
use crate::witness::{coeffs_add, coeffs_of, low_word, sum_sq, ydec_elements};
use vstd::arithmetic::div_mod::lemma_small_mod;
use vstd::arithmetic::power2::{lemma2_to64, lemma_pow2_strictly_increases, pow2};
use vstd::prelude::*;

verus! {

/// No coefficient of the witness is too large.
pub open spec fn coeffs_small(wit: Seq<Seq<i64>>) -> bool {
    forall|i: int, k: int|
        0 <= i < wit.len() && 0 <= k < wit[i].len() ==> !too_large(#[trigger] wit[i][k])
}

/// The smallest interval that covers the inner indices exists.
proof fn cover(ranges: Seq<(int, int)>, total: int) -> (r: (int, int))
    requires
        0 <= total,
    ensures
        covers_inner(ranges, total, r.0, r.1),
        0 <= r.0 <= r.1 <= total,
    decreases total,
{
    if total == 0 {
        (0, 0)
    } else {
        let prev = cover(ranges, total - 1);
        let below = exists|g: int| 0 <= g < total - 1 && #[trigger] in_ranges(ranges, g);
        if in_ranges(ranges, total - 1) {
            if below {
                (prev.0, total)
            } else {
                (total - 1, total)
            }
        } else if below {
            let g = choose|g: int| 0 <= g < total - 1 && #[trigger] in_ranges(ranges, g);
            assert(0 <= g < total && in_ranges(ranges, g));
            prev
        } else {
            (0, total / 2)
        }
    }
}

/// A layout exists for every round and shape whose lengths fit.
pub proof fn law_layout_exists(c: SumcheckConfig, s: ChainShape)
    requires
        shape_fits(s),
    ensures
        layout_for(inner_ranges(c), s, the_layout(c, s)),
        layout_matches(the_layout(c, s), s),
{
    shape_lengths(s);
    let total = s.height * s.width;
    let r = cover(inner_ranges(c), total);
    let l = Layout {
        total: total as usize,
        v0_start: r.0 as usize,
        v0_end: r.1 as usize,
        w_before_len: (2 * r.0) as usize,
        w_after_len: (2 * (total - r.1)) as usize,
        ydec_len: ydec_halves(s) as usize,
        c1dec_len: c1dec_halves(s) as usize,
    };
    assert(layout_for(inner_ranges(c), s, l));
}

/// The squares of two lists of coefficients one after the other.
pub proof fn sum_sq_add(a: Seq<i64>, b: Seq<i64>)
    ensures
        sum_sq(a + b) == sum_sq(a) + sum_sq(b),
{
    let f = |i: int| (a + b)[i] * (a + b)[i];
    let n = a.len() as int;
    let fa = |i: int| a[i] * a[i];
    let fb = |i: int| b[i] * b[i];
    sum_split(0, n, n + b.len(), f);
    sum_ext(0, n, fa, f);
    assert forall|i: int| 0 <= i < b.len() implies #[trigger] fb(i) == f(i + n) by {}
    sum_shift(0, b.len() as int, n, fb, f);
}

/// Sums of squares are not negative.
proof fn sum_sq_nonneg(a: Seq<i64>, n: int)
    requires
        0 <= n <= a.len(),
    ensures
        0 <= sum(0, n, |i: int| a[i] * a[i]),
    decreases n,
{
    if n > 0 {
        sum_sq_nonneg(a, n - 1);
        let x = a[n - 1] as int;
        assert(0 <= x * x) by (nonlinear_arith);
    }
}

/// Adding remainders modulo `2^64` and taking the remainder is taking the
/// remainder of the sum.
proof fn low_word_sum(a: int, b: int, c: int, d: int)
    ensures
        low_word(low_word(a) + low_word(b) + low_word(c) + low_word(d)) == low_word(a + b + c + d),
{
}

/// The two norm bounds are met by the witness.
proof fn norms_met(c: SumcheckConfig, p: ProverView, q: u64)
    ensures
        low_word(sum_sq(witness_for(c, p, q)[0])) <= honest0(c, p, q),
        low_word(sum_sq(witness_for(c, p, q)[1])) <= honest1(c, p, q),
{
    let s = shape_of(p.public.config);
    let l = the_layout(c, s);
    let b = coeffs_of(p.w.subrange(0, l.v0_start as int), q);
    let a = coeffs_of(p.w.subrange(l.v0_end as int, l.total as int), q);
    let y = coeffs_of(ydec_elements(s, p.y), q);
    let e = coeffs_of(inner_digits(s, c1_of(p)), q);
    sum_sq_add(b + a + y, e);
    sum_sq_add(b + a, y);
    sum_sq_add(b, a);
    low_word_sum(sum_sq(b), sum_sq(a), sum_sq(y), sum_sq(e));
}

/// The witness vectors are as long as their records say.
proof fn lengths_met(c: SumcheckConfig, p: ProverView, q: u64)
    requires
        shape_fits(shape_of(p.public.config)),
        boundary_fits(shape_of(p.public.config), p.w, p.y, c1_of(p), q),
    ensures
        ({
            let l = the_layout(c, shape_of(p.public.config));
            let wit = witness_for(c, p, q);
            &&& wit[0].len() == vector_spec(l, 0).n * 64
            &&& wit[1].len() == vector_spec(l, 1).n * 64
        }),
{
    let s = shape_of(p.public.config);
    law_layout_exists(c, s);
    shape_lengths(s);
}

/// The sums of the norm bounds of the two vectors.
proof fn totals(l: Layout, betasq0: u64, betasq1: u64)
    ensures
        ({
            let v = seq![vector_record(l, 0, betasq0), vector_record(l, 1, betasq1)];
            &&& w_total(v, 2) == betasq0 + betasq1
            &&& inner_total(v, 2) == betasq0
        }),
{
    let v = seq![vector_record(l, 0, betasq0), vector_record(l, 1, betasq1)];
    assert(1u32 & 1u32 != 0) by (bit_vector);
    assert(0u32 & 1u32 == 0) by (bit_vector);
    reveal_with_fuel(sum, 3);
    assert(v[0].flags == 1 && v[1].flags == 0);
    assert(w_total(v, 2) == betasq0 + betasq1);
    assert(inner_total(v, 2) == betasq0);
}

/// The blocks of a constraint that is well formed and within the vectors are
/// all right.
proof fn blocks_fine(c: ConstraintView, l: Layout, vectors: Seq<VectorRecord>, ci: int)
    requires
        well_formed(c),
        in_vectors(c, l),
        vectors.len() == 2,
        vectors[0].n == vector_spec(l, 0).n,
        vectors[1].n == vector_spec(l, 1).n,
    ensures
        first_error(c.idx.len() as int, |j: int| block_error(c, vectors, ci, j)) is None,
{
    let f = |j: int| block_error(c, vectors, ci, j);
    let n = c.idx.len() as int;
    assert forall|j: int| 0 <= j < n implies #[trigger] f(j) is None by {
        assert(c.idx[j] < 2);
        phi_pos_monotone(c.len, j + 1, n);
    }
    first_error_none(n, f);
}

/// Factor positions grow with the block.
proof fn phi_pos_monotone(len: Seq<usize>, i: int, j: int)
    requires
        i <= j,
    ensures
        phi_pos(len, i) <= phi_pos(len, j),
    decreases j - i,
{
    if i < j {
        phi_pos_monotone(len, i, j - 1);
    }
}

/// The self check of an exported boundary passes exactly when no coefficient
/// is too large and all constraints hold.
proof fn self_check_iff(c: SumcheckConfig, p: ProverView, q: u64)
    requires
        0 < q,
        ready(c, p.public, q),
        boundary_fits(shape_of(p.public.config), p.w, p.y, c1_of(p), q),
        honest0(c, p, q) <= c.most_inner_norm_bound_sq,
        honest0(c, p, q) + honest1(c, p, q) <= w_bound(c, p.public),
    ensures
        self_check_error(prover_statement(c, p, q), q, witness_for(c, p, q), q) is None <==> {
            &&& coeffs_small(witness_for(c, p, q))
            &&& all_hold(prover_statement(c, p, q).constraints, witness_for(c, p, q), q)
        },
{
    let s = shape_of(p.public.config);
    let l = the_layout(c, s);
    let stmt = prover_statement(c, p, q);
    let wit = witness_for(c, p, q);
    law_next_pow2(p.public.config.basic_commitment_rank as nat);
    law_layout_exists(c, s);
    norms_met(c, p, q);
    lengths_met(c, p, q);
    totals(l, honest0(c, p, q), honest1(c, p, q));
    public_view_full(p.public, q);
    let verr = |i: int| vector_error(stmt.vectors[i], wit[i], i);
    first_error_none(2, verr);
    assert(coeffs_small(wit) <==> first_error(2, verr) is None) by {
        if coeffs_small(wit) {
            assert forall|i: int| 0 <= i < 2 implies #[trigger] verr(i) is None by {
                assert forall|k: int| 0 <= k < wit[i].len() implies !too_large(
                    #[trigger] wit[i][k],
                ) by {}
            }
        }
        if first_error(2, verr) is None {
            assert forall|i: int, k: int|
                0 <= i < wit.len() && 0 <= k < wit[i].len() implies !too_large(
                #[trigger] wit[i][k],
            ) by {
                assert(verr(i) is None);
            }
        }
    }
    let n = stmt.constraints.len() as int;
    let cerr = |ci: int| constraint_error(stmt.constraints[ci], stmt.vectors, wit, q, ci);
    first_error_none(n, cerr);
    assert forall|i: int| 0 <= i < n implies (#[trigger] cerr(i) is None <==> holds(
        stmt.constraints[i],
        wit,
        q,
    )) by {
        law_public_constraints_well_formed(l, s, public_view(p.public, q), q, i);
        blocks_fine(stmt.constraints[i], l, stmt.vectors, i);
    }
    if all_hold(stmt.constraints, wit, q) {
        assert forall|i: int| 0 <= i < n implies #[trigger] cerr(i) is None by {
            assert(holds(stmt.constraints[i], wit, q));
        }
    }
    if first_error(n, cerr) is None {
        assert forall|i: int| 0 <= i < n implies holds(#[trigger] stmt.constraints[i], wit, q) by {
            assert(cerr(i) is None);
        }
    }
}

/// The export succeeds exactly when it should: the coefficients of the witness
/// are small, its norms are within the bounds of the round, and the boundary's
/// relation holds. In particular a successful export proves the relation, and
/// nothing else can make the self check fail.
pub proof fn law_export_succeeds_iff(
    root: Config,
    cut: usize,
    c: SumcheckConfig,
    p: ProverView,
    q: u64,
)
    requires
        WITNESS_COEFF_MAX < q <= i64::MAX,
        round_at(root, cut) == Ok::<SumcheckConfig, crate::config::RoundError>(c),
        ready(c, p.public, q),
        shape_of(p.public.config).has_c1dec ==> p.c1 is Some,
        boundary_fits(shape_of(p.public.config), p.w, p.y, c1_of(p), q),
        targets_reduced(public_view(p.public, q), q),
    ensures
        prover_result(root, cut, p, q) is Ok <==> {
            &&& honest0(c, p, q) <= c.most_inner_norm_bound_sq
            &&& honest0(c, p, q) + honest1(c, p, q) <= w_bound(c, p.public)
            &&& coeffs_small(witness_for(c, p, q))
            &&& boundary_relation(
                shape_of(p.public.config),
                public_view(p.public, q),
                q,
                p.w,
                p.y,
                c1_of(p),
            )
        },
{
    let s = shape_of(p.public.config);
    let l = the_layout(c, s);
    let d = public_view(p.public, q);
    law_next_pow2(p.public.config.basic_commitment_rank as nat);
    law_layout_exists(c, s);
    public_view_full(p.public, q);
    law_constraints_mean_relation(l, s, d, q, p.w, p.y, c1_of(p));
    if honest0(c, p, q) <= c.most_inner_norm_bound_sq && honest0(c, p, q) + honest1(c, p, q)
        <= w_bound(c, p.public) {
        self_check_iff(c, p, q);
    }
}

/// The verifier derives the prover's statement: given the same public data and
/// the norm bounds that the prover announced, it ends with an equal statement.
pub proof fn law_verifier_agrees(root: Config, cut: usize, p: ProverView, q: u64)
    requires
        prover_result(root, cut, p, q) is Ok,
    ensures
        verifier_result(
            root,
            cut,
            p.public,
            prover_result(root, cut, p, q)->Ok_0.0.vectors,
            q,
        ) == Ok::<StatementView, ExportError>(prover_result(root, cut, p, q)->Ok_0.0),
{
    let c = round_at(root, cut)->Ok_0;
    let l = the_layout(c, shape_of(p.public.config));
    let v = prover_statement(c, p, q).vectors;
    let errs = |i: int| record_error(l, v[i], i);
    first_error_none(2, errs);
}

/// The verifier is not talked into other public data: whatever norm bounds the
/// prover announces, the statement that the verifier ends with has the digest,
/// the totals and the constraints of the verifier's own boundary, vectors of
/// the derived lengths, roles and flags, and norm bounds within the totals.
pub proof fn law_verifier_is_bound_to_its_boundary(
    root: Config,
    cut: usize,
    b: BoundaryView,
    vectors: Seq<VectorRecord>,
    q: u64,
)
    requires
        verifier_result(root, cut, b, vectors, q) is Ok,
    ensures
        ({
            let stmt = verifier_result(root, cut, b, vectors, q)->Ok_0;
            let c = round_at(root, cut)->Ok_0;
            let s = shape_of(b.config);
            let l = the_layout(c, s);
            &&& round_at(root, cut) is Ok
            &&& stmt.q == q
            &&& stmt.digest == b.digest
            &&& stmt.betasq_w_total == w_bound(c, b)
            &&& stmt.betasq_inner_total == c.most_inner_norm_bound_sq
            &&& stmt.constraints == public_constraints(l, s, public_view(b, q), q)
            &&& stmt.vectors == vectors
            &&& stmt.vectors == seq![
                vector_record(l, 0, vectors[0].betasq),
                vector_record(l, 1, vectors[1].betasq),
            ]
            &&& inner_total(stmt.vectors, 2) <= stmt.betasq_inner_total
            &&& w_total(stmt.vectors, 2) <= stmt.betasq_w_total
        }),
{
    let c = round_at(root, cut)->Ok_0;
    let l = the_layout(c, shape_of(b.config));
    let errs = |i: int| record_error(l, vectors[i], i);
    first_error_none(2, errs);
    assert(errs(0) is None && errs(1) is None);
    totals(l, vectors[0].betasq, vectors[1].betasq);
    let stmt = verifier_result(root, cut, b, vectors, q)->Ok_0;
    assert(stmt.vectors =~= vectors);
}

/// Statements that differ do not have the same bytes, so comparing bytes is
/// comparing statements, digest included.
pub proof fn law_digest_matters(a: StatementView, b: StatementView)
    requires
        statement_well_formed(a),
        statement_well_formed(b),
        a.digest != b.digest,
    ensures
        statement_bytes(a) != statement_bytes(b),
{
    law_statement_bytes_faithful(a, b);
}

/// A statement and a witness that pass the self check also pass it after being
/// written: what is read back is unchanged.
pub proof fn law_checked_pair_survives_encoding(
    stmt: StatementView,
    wit: Seq<Seq<i64>>,
    q: u64,
)
    requires
        statement_well_formed(stmt),
        self_check_error(stmt, q, wit, q) is None,
    ensures
        parse_statement(statement_bytes(stmt)) == Ok::<StatementView, DecodeError>(stmt),
        parse_witness(witness_bytes(q, wit)) == Ok::<(u64, Seq<Seq<i64>>), DecodeError>((q, wit)),
        pair_error(statement_bytes(stmt), witness_bytes(q, wit), q) is None,
{
    law_statement_roundtrip(stmt, seq![]);
    assert(statement_bytes(stmt) + seq![] =~= statement_bytes(stmt));
    let verr = |i: int| vector_error(stmt.vectors[i], wit[i], i);
    first_error_none(stmt.vectors.len() as int, verr);
    assert forall|i: int| 0 <= i < wit.len() implies (#[trigger] wit[i]).len() % 64 == 0
        && wit[i].len() / 64 <= u64::MAX by {
        assert(verr(i) is None);
        let n = stmt.vectors[i].n;
        assert(wit[i].len() == n * 64);
        assert((n * 64) % 64 == 0 && (n * 64) / 64 == n);
    }
    law_witness_roundtrip(q, wit, seq![]);
    assert(witness_bytes(q, wit) + seq![] =~= witness_bytes(q, wit));
}

/// A constraint of the right form is accepted.
proof fn form_fine(c: ConstraintView, l: Layout, vectors: Seq<VectorRecord>, ci: int)
    requires
        in_vectors(c, l),
        ordered(c),
        1 <= c.idx.len() <= 4,
        vectors.len() == 2,
        vectors[0].n == vector_spec(l, 0).n,
        vectors[1].n == vector_spec(l, 1).n,
    ensures
        form_error(c, vectors, ci) is None,
{
    let n = c.idx.len() as int;
    let f = |j: int| order_error(c, vectors, ci, j);
    assert forall|j: int| 0 <= j < n implies #[trigger] f(j) is None by {
        assert(c.idx[j] < 2);
        if j > 0 {
            let before = c.idx[j - 1];
            assert(before < c.idx[j] || before == c.idx[j] && c.off[j - 1] < c.off[j]);
        }
    }
    first_error_none(n, f);
}

/// What the export derives, LaBRADOR compiled for the same modulus takes: the
/// statement passes its checks, unless `w` or, below an inner level, `ydec` is
/// empty.
pub proof fn law_exported_statement_accepted(
    root: Config,
    cut: usize,
    c: SumcheckConfig,
    b: BoundaryView,
    vectors: Seq<VectorRecord>,
    q: u64,
)
    requires
        verifier_result(root, cut, b, vectors, q) is Ok,
        round_at(root, cut) == Ok::<SumcheckConfig, crate::config::RoundError>(c),
        ready(c, b, q),
        shape_of(b.config).width * shape_of(b.config).height > 0,
        shape_of(b.config).has_c1dec ==> ydec_halves(shape_of(b.config)) > 0,
    ensures
        statement_error(verifier_result(root, cut, b, vectors, q)->Ok_0, q) is None,
{
    let s = shape_of(b.config);
    let l = the_layout(c, s);
    let d = public_view(b, q);
    let stmt = verifier_result(root, cut, b, vectors, q)->Ok_0;
    law_verifier_is_bound_to_its_boundary(root, cut, b, vectors, q);
    law_next_pow2(b.config.basic_commitment_rank as nat);
    law_layout_exists(c, s);
    public_view_full(b, q);
    let n = stmt.constraints.len() as int;
    let f = |ci: int| form_error(stmt.constraints[ci], stmt.vectors, ci);
    assert forall|ci: int| 0 <= ci < n implies #[trigger] f(ci) is None by {
        law_public_constraints_well_formed(l, s, d, q, ci);
        law_public_constraints_admissible(l, s, d, q, ci);
        form_fine(stmt.constraints[ci], l, stmt.vectors, ci);
    }
    first_error_none(n, f);
}

/// A witness that meets a constraint does not meet it with another right-hand
/// side.
pub proof fn law_tampered_target_fails(
    c: ConstraintView,
    b: Seq<u64>,
    other: Seq<u64>,
    wit: Seq<Seq<i64>>,
    q: u64,
)
    requires
        c.b == Some(b),
        holds(c, wit, q),
        b.len() == 64,
        other.len() == 64,
        b != other,
    ensures
        !holds((ConstraintView { b: Some(other), ..c }), wit, q),
{
    let d = ConstraintView { b: Some(other), ..c };
    if holds(d, wit, q) {
        assert forall|k: int| 0 <= k < 64 implies b[k] == other[k] by {
            let f = |j: int| block_value(c, wit, j, k);
            let g = |j: int| block_value(d, wit, j, k);
            assert forall|j: int| 0 <= j < c.idx.len() implies #[trigger] f(j) == g(j) by {
                let x = |i: int|
                    conv(
                        ints(c.phi[phi_pos(c.len, j) + i]),
                        chunk(wit[c.idx[j] as int], c.off[j] + i),
                        k,
                    );
                let y = |i: int|
                    conv(
                        ints(d.phi[phi_pos(d.len, j) + i]),
                        chunk(wit[d.idx[j] as int], d.off[j] + i),
                        k,
                    );
                sum_ext(0, c.len[j] as int, x, y);
            }
            sum_ext(0, c.idx.len() as int, f, g);
            assert(lhs(c, wit, k) % (q as int) == rhs(c, k));
            assert(lhs(d, wit, k) % (q as int) == rhs(d, k));
        }
        assert(b =~= other);
    }
}

/// Block `j` of a constraint takes in element `m` of vector `v`.
pub open spec fn covers(c: ConstraintView, j: int, v: int, m: int) -> bool {
    c.idx[j] == v && c.off[j] <= m < c.off[j] + c.len[j]
}

/// Block `j` is the only one that takes in element `m` of vector `v`.
pub open spec fn covered_once(c: ConstraintView, j: int, v: int, m: int) -> bool {
    &&& 0 <= j < c.idx.len()
    &&& covers(c, j, v, m)
    &&& forall|i: int| 0 <= i < c.idx.len() && i != j ==> !#[trigger] covers(c, i, v, m)
}

/// The factor by which block `j` multiplies element `m` of its vector.
pub open spec fn factor_of(c: ConstraintView, j: int, m: int) -> Seq<u64> {
    c.phi[phi_pos(c.len, j) + (m - c.off[j])]
}

/// The blocks of a constraint lie within the witness.
pub open spec fn within_witness(c: ConstraintView, wit: Seq<Seq<i64>>) -> bool {
    forall|j: int|
        0 <= j < c.idx.len() ==> (#[trigger] c.idx[j]) < wit.len() && 64 * (c.off[j] + c.len[j])
            <= wit[c.idx[j] as int].len()
}

/// A witness with coefficient `r` of element `m` of vector `v` set to `x`.
pub open spec fn with_coeff(wit: Seq<Seq<i64>>, v: int, m: int, r: int, x: i64) -> Seq<Seq<i64>> {
    wit.update(v, wit[v].update(64 * m + r, x))
}

/// Coefficient `k` of what block `j` contributes stays when an element changes
/// that the block does not take in.
proof fn other_block_stays(
    c: ConstraintView,
    wit: Seq<Seq<i64>>,
    i: int,
    v: int,
    m: int,
    r: int,
    x: i64,
    k: int,
)
    requires
        within_witness(c, wit),
        0 <= i < c.idx.len(),
        !covers(c, i, v, m),
        0 <= v < wit.len(),
        0 <= m,
        0 <= r < 64,
        64 * m + r < wit[v].len(),
    ensures
        block_value(c, with_coeff(wit, v, m, r, x), i, k) == block_value(c, wit, i, k),
{
    let w = with_coeff(wit, v, m, r, x);
    assert(c.idx[i] < wit.len());
    let f = |e: int|
        conv(ints(c.phi[phi_pos(c.len, i) + e]), chunk(w[c.idx[i] as int], c.off[i] + e), k);
    let g = |e: int|
        conv(ints(c.phi[phi_pos(c.len, i) + e]), chunk(wit[c.idx[i] as int], c.off[i] + e), k);
    assert forall|e: int| 0 <= e < c.len[i] implies #[trigger] f(e) == g(e) by {
        assert(chunk(w[c.idx[i] as int], c.off[i] + e) =~= chunk(
            wit[c.idx[i] as int],
            c.off[i] + e,
        ));
    }
    sum_ext(0, c.len[i] as int, f, g);
}

/// How much the left-hand side of a constraint changes with one coefficient of
/// the witness: coefficient `r + s`, taken modulo 64, changes by the change of
/// the coefficient times coefficient `s` of its factor, up to sign.
proof fn lhs_differs(
    c: ConstraintView,
    wit: Seq<Seq<i64>>,
    j: int,
    v: int,
    m: int,
    r: int,
    s: int,
    x: i64,
)
    requires
        well_formed(c),
        within_witness(c, wit),
        covered_once(c, j, v, m),
        0 <= r < 64,
        0 <= s < 64,
    ensures
        ({
            let w = with_coeff(wit, v, m, r, x);
            let d = factor_of(c, j, m)[s] * (x - wit[v][64 * m + r]);
            &&& r + s < 64 ==> lhs(c, w, r + s) - lhs(c, wit, r + s) == d
            &&& r + s >= 64 ==> lhs(c, w, r + s - 64) - lhs(c, wit, r + s - 64) == -d
        }),
{
    let w = with_coeff(wit, v, m, r, x);
    let k = if r + s < 64 {
        r + s
    } else {
        r + s - 64
    };
    assert(c.idx[j] < wit.len());
    let fs = |i: int| block_value(c, w, i, k);
    let gs = |i: int| block_value(c, wit, i, k);
    assert forall|i: int| 0 <= i < c.idx.len() && i != j implies #[trigger] fs(i) == gs(i) by {
        assert(!covers(c, i, v, m));
        other_block_stays(c, wit, i, v, m, r, x, k);
    }
    sum_differs_at(0, c.idx.len() as int, j, fs, gs);
    let f = |e: int| conv(ints(c.phi[phi_pos(c.len, j) + e]), chunk(w[v], c.off[j] + e), k);
    let g = |e: int| conv(ints(c.phi[phi_pos(c.len, j) + e]), chunk(wit[v], c.off[j] + e), k);
    let at = m - c.off[j];
    assert forall|e: int| 0 <= e < c.len[j] && e != at implies #[trigger] f(e) == g(e) by {
        assert(chunk(w[v], c.off[j] + e) =~= chunk(wit[v], c.off[j] + e));
    }
    sum_differs_at(0, c.len[j] as int, at, f, g);
    phi_pos_monotone(c.len, 0, j);
    phi_pos_monotone(c.len, j + 1, c.idx.len() as int);
    let a = ints(factor_of(c, j, m));
    assert(factor_of(c, j, m).len() == 64);
    assert(c.off[j] + at == m);
    conv_differs(a, chunk(wit[v], m), chunk(w[v], m), r, s);
}

/// A witness that meets a constraint does not meet it with one coefficient
/// changed, if a single block takes in the changed element and the change times
/// some coefficient of its factor is not zero modulo `q`.
pub proof fn law_changed_coefficient_fails(
    c: ConstraintView,
    wit: Seq<Seq<i64>>,
    q: u64,
    j: int,
    v: int,
    m: int,
    r: int,
    s: int,
    x: i64,
)
    requires
        q > 0,
        well_formed(c),
        within_witness(c, wit),
        holds(c, wit, q),
        covered_once(c, j, v, m),
        0 <= r < 64,
        0 <= s < 64,
        (factor_of(c, j, m)[s] * (x - wit[v][64 * m + r])) % (q as int) != 0,
    ensures
        !holds(c, with_coeff(wit, v, m, r, x), q),
{
    let w = with_coeff(wit, v, m, r, x);
    let d = factor_of(c, j, m)[s] * (x - wit[v][64 * m + r]);
    lhs_differs(c, wit, j, v, m, r, s, x);
    if holds(c, w, q) {
        let k = if r + s < 64 {
            r + s
        } else {
            r + s - 64
        };
        let before = lhs(c, wit, k);
        let after = lhs(c, w, k);
        assert(before % (q as int) == rhs(c, k));
        assert(after % (q as int) == rhs(c, k));
        cong_iff(after, before, q as int);
        cong_iff(before, after, q as int);
    }
}

/// A witness that meets a constraint does not meet it with one coefficient
/// raised by one, if a single block takes in that coefficient and some
/// coefficient of the factor there is not zero modulo `q`.
pub proof fn law_tampered_coefficient_fails(
    c: ConstraintView,
    wit: Seq<Seq<i64>>,
    w: Seq<Seq<i64>>,
    q: u64,
    j: int,
    v: int,
    m: int,
    r: int,
)
    requires
        q > 0,
        well_formed(c),
        within_witness(c, wit),
        holds(c, wit, q),
        covered_once(c, j, v, m),
        0 <= r < 64,
        exists|s: int| 0 <= s < 64 && (#[trigger] factor_of(c, j, m)[s]) as int % (q as int) != 0,
        w.len() == wit.len(),
        forall|i: int| 0 <= i < wit.len() ==> (#[trigger] w[i]).len() == wit[i].len(),
        forall|i: int, n: int|
            0 <= i < wit.len() && 0 <= n < wit[i].len() ==> #[trigger] w[i][n] == wit[i][n] + (if i
                == v && n == 64 * m + r {
                1int
            } else {
                0
            }),
    ensures
        !holds(c, w, q),
{
    let s = choose|s: int|
        0 <= s < 64 && (#[trigger] factor_of(c, j, m)[s]) as int % (q as int) != 0;
    assert(c.idx[j] < wit.len());
    let x = w[v][64 * m + r];
    let u = with_coeff(wit, v, m, r, x);
    assert forall|i: int| 0 <= i < wit.len() implies w[i] == u[i] by {
        assert forall|n: int| 0 <= n < wit[i].len() implies w[i][n] == u[i][n] by {
            if i == v && n != 64 * m + r {
                assert(u[i][n] == wit[i][n]);
            }
        }
        assert(w[i] =~= u[i]);
    }
    assert(w =~= u);
    let a = factor_of(c, j, m)[s] as int;
    assert(a * (x - wit[v][64 * m + r]) == a) by {
        assert(x - wit[v][64 * m + r] == 1);
    }
    law_changed_coefficient_fails(c, wit, q, j, v, m, r, s, x);
}

/// A witness that passes the self check fails it with one coefficient raised
/// by one, if in some constraint a single block takes in that coefficient and
/// some coefficient of the factor there is not zero modulo `q`.
pub proof fn law_tampered_witness_refused(
    stmt: StatementView,
    wq: u64,
    wit: Seq<Seq<i64>>,
    w: Seq<Seq<i64>>,
    q: u64,
    ci: int,
    j: int,
    v: int,
    m: int,
    r: int,
)
    requires
        q > 0,
        self_check_error(stmt, wq, wit, q) is None,
        0 <= ci < stmt.constraints.len(),
        well_formed(stmt.constraints[ci]),
        covered_once(stmt.constraints[ci], j, v, m),
        0 <= r < 64,
        exists|s: int|
            0 <= s < 64 && (#[trigger] factor_of(stmt.constraints[ci], j, m)[s]) as int % (
            q as int) != 0,
        w.len() == wit.len(),
        forall|i: int| 0 <= i < wit.len() ==> (#[trigger] w[i]).len() == wit[i].len(),
        forall|i: int, n: int|
            0 <= i < wit.len() && 0 <= n < wit[i].len() ==> #[trigger] w[i][n] == wit[i][n] + (if i
                == v && n == 64 * m + r {
                1int
            } else {
                0
            }),
    ensures
        self_check_error(stmt, wq, w, q) is Some,
{
    let c = stmt.constraints[ci];
    let nvec = stmt.vectors.len() as int;
    let ncon = stmt.constraints.len() as int;
    let verr = |i: int| vector_error(stmt.vectors[i], wit[i], i);
    first_error_none(nvec, verr);
    let cerr = |i: int| constraint_error(stmt.constraints[i], stmt.vectors, wit, q, i);
    first_error_none(ncon, cerr);
    assert(cerr(ci) is None);
    let berr = |i: int| block_error(c, stmt.vectors, ci, i);
    first_error_none(c.idx.len() as int, berr);
    assert forall|i: int| 0 <= i < c.idx.len() implies (#[trigger] c.idx[i]) < wit.len() && 64 * (
    c.off[i] + c.len[i]) <= wit[c.idx[i] as int].len() by {
        assert(berr(i) is None);
        assert(verr(c.idx[i] as int) is None);
    }
    law_tampered_coefficient_fails(c, wit, w, q, j, v, m, r);
    let werr = |i: int| constraint_error(stmt.constraints[i], stmt.vectors, w, q, i);
    first_error_none(ncon, werr);
    assert(werr(ci) is Some);
}

/// A statement that announces less than the square of a vector's norm modulo
/// `2^64` is refused together with that vector.
pub proof fn law_norm_bound_below_norm_refused(
    stmt: StatementView,
    wq: u64,
    wit: Seq<Seq<i64>>,
    q: u64,
    i: int,
)
    requires
        stmt.vectors.len() == wit.len(),
        0 <= i < wit.len(),
        low_word(sum_sq(wit[i])) > stmt.vectors[i].betasq,
    ensures
        self_check_error(stmt, wq, wit, q) is Some,
{
    let n = stmt.vectors.len() as int;
    let verr = |i: int| vector_error(stmt.vectors[i], wit[i], i);
    first_error_none(n, verr);
    assert(verr(i) is Some);
}

/// A vector's norm bound does not exceed the sum of all.
proof fn inner_total_at_least(v: Seq<VectorRecord>, i: int, n: int)
    requires
        0 <= i,
        n <= v.len(),
    ensures
        0 <= inner_total(v, n),
        i < n && v[i].role == ROLE_W && v[i].flags & INNER_FLAG != 0 ==> v[i].betasq
            <= inner_total(v, n),
    decreases n,
{
    if n > 0 {
        inner_total_at_least(v, i, n - 1);
    }
}

/// A statement whose inner total is below the norm bound of an inner vector is
/// refused, by the self check with any witness and by the checks before a
/// proof or a verification.
pub proof fn law_inner_total_below_bound_refused(
    stmt: StatementView,
    wq: u64,
    wit: Seq<Seq<i64>>,
    q: u64,
    compiled: u64,
    i: int,
)
    requires
        0 <= i < stmt.vectors.len(),
        stmt.vectors[i].role == ROLE_W,
        stmt.vectors[i].flags & INNER_FLAG != 0,
        stmt.vectors[i].betasq > stmt.betasq_inner_total,
    ensures
        self_check_error(stmt, wq, wit, q) is Some,
        statement_error(stmt, compiled) is Some,
{
    inner_total_at_least(stmt.vectors, i, stmt.vectors.len() as int);
}

/// Every centered coefficient is a digit of a balanced decomposition to base
/// `2^base_log`.
pub open spec fn digits_balanced(els: Seq<RingElement>, base_log: int, q: u64) -> bool {
    forall|i: int, k: int|
        0 <= i < els.len() && 0 <= k < 128 ==> {
            let x = center_spec(#[trigger] els[i].v@[k], q);
            -pow2((base_log - 1) as nat) <= x <= pow2((base_log - 1) as nat)
        }
}

/// A sum of bounded squares.
proof fn sum_sq_cap(c: Seq<i64>, d: int, n: int)
    requires
        0 <= d,
        0 <= n <= c.len(),
        forall|i: int| 0 <= i < n ==> -d <= #[trigger] c[i] <= d,
    ensures
        sum(0, n, |i: int| c[i] * c[i]) <= n * (d * d),
    decreases n,
{
    if n > 0 {
        sum_sq_cap(c, d, n - 1);
        let x = c[n - 1] as int;
        assert(x * x <= d * d) by (nonlinear_arith)
            requires
                -d <= x <= d,
        ;
        assert(n * (d * d) == (n - 1) * (d * d) + d * d) by (nonlinear_arith);
    } else {
        assert(n * (d * d) == 0) by (nonlinear_arith)
            requires
                n == 0,
        ;
    }
}

/// The square of the norm of balanced digits.
proof fn digits_cap(els: Seq<RingElement>, base_log: int, q: u64)
    requires
        1 <= base_log <= 32,
        digits_balanced(els, base_log, q),
    ensures
        sum_sq(coeffs_of(els, q)) <= 2 * els.len() * 64 * digit_sq(base_log),
{
    let c = coeffs_of(els, q);
    let d = pow2((base_log - 1) as nat) as int;
    lemma2_to64();
    if base_log < 32 {
        lemma_pow2_strictly_increases((base_log - 1) as nat, 31);
    }
    assert forall|i: int| 0 <= i < c.len() implies -d <= #[trigger] c[i] <= d by {
        let x = center_spec(els[i / 128].v@[i % 128], q);
        assert(-d <= x <= d);
    }
    sum_sq_cap(c, d, c.len() as int);
    assert(c.len() == 2 * els.len() * 64);
}

/// The caps are what they should be: digits of balanced decompositions to the
/// two bases add no more to the square of the norm.
pub proof fn law_caps_cover_digits(
    s: ChainShape,
    y: Seq<RingElement>,
    c1: Seq<RingElement>,
    a2_base_log: int,
    a3_base_log: int,
    q: u64,
)
    requires
        1 <= a2_base_log <= 32,
        s.has_c1dec ==> 1 <= a3_base_log <= 32,
        digits_balanced(ydec_elements(s, y), a2_base_log, q),
        s.has_c1dec ==> digits_balanced(inner_digits(s, c1), a3_base_log, q),
        s.has_c1dec ==> c1.len() >= s.a2_rank * s.num_digits_c1,
    ensures
        sum_sq(coeffs_of(ydec_elements(s, y), q)) + sum_sq(coeffs_of(inner_digits(s, c1), q))
            <= caps_of(s, a2_base_log, a3_base_log),
{
    shape_lengths(s);
    digits_cap(ydec_elements(s, y), a2_base_log, q);
    assert(2 * ydec_elements(s, y).len() == ydec_halves(s));
    if s.has_c1dec {
        digits_cap(inner_digits(s, c1), a3_base_log, q);
        assert(2 * inner_digits(s, c1).len() == c1dec_halves(s));
    } else {
        assert(coeffs_of(inner_digits(s, c1), q) =~= seq![]);
    }
}

/// The squares of the coefficients of `w` in its three parts.
proof fn w_norm_splits(l: Layout, w: Seq<RingElement>, q: u64)
    requires
        l.v0_start <= l.v0_end <= l.total <= w.len(),
    ensures
        sum_sq(coeffs_of(w.subrange(0, l.total as int), q)) == sum_sq(
            coeffs_of(w.subrange(0, l.v0_start as int), q),
        ) + sum_sq(coeffs_of(w.subrange(l.v0_start as int, l.v0_end as int), q)) + sum_sq(
            coeffs_of(w.subrange(l.v0_end as int, l.total as int), q),
        ),
{
    let a = w.subrange(0, l.v0_start as int);
    let b = w.subrange(l.v0_start as int, l.v0_end as int);
    let c = w.subrange(l.v0_end as int, l.total as int);
    assert(w.subrange(0, l.total as int) =~= a + b + c);
    coeffs_add(a + b, c, q);
    coeffs_add(a, b, q);
    sum_sq_add(coeffs_of(a, q) + coeffs_of(b, q), coeffs_of(c, q));
    sum_sq_add(coeffs_of(a, q), coeffs_of(b, q));
}

/// Parts that stay within two bounds also do so modulo `2^64`, if the bounds
/// together fit.
proof fn parts_within(h0: int, hb: int, ha: int, hy: int, he: int, norm: int, caps: int)
    requires
        h0 >= 1,
        hb >= 0,
        ha >= 0,
        hy >= 0,
        he >= 0,
        hb + ha + hy + he >= 1,
        hb + h0 + ha <= norm,
        hy + he <= caps,
        norm + caps <= u64::MAX,
    ensures
        at_least_one(low_word(h0)) + low_word(
            at_least_one(low_word(hb) + low_word(ha) + low_word(hy) + low_word(he)),
        ) <= low_word(norm + caps),
        0 <= at_least_one(low_word(h0)) <= u64::MAX,
{
    let m = 0x1_0000_0000_0000_0000nat;
    lemma_small_mod(h0 as nat, m);
    lemma_small_mod(hb as nat, m);
    lemma_small_mod(ha as nat, m);
    lemma_small_mod(hy as nat, m);
    lemma_small_mod(he as nat, m);
    lemma_small_mod((hb + ha + hy + he) as nat, m);
    lemma_small_mod((norm + caps) as nat, m);
}

/// An honest prover keeps to the total: if the square of the norm of `w` is
/// within the bound of the round, the digits are balanced, and the total fits
/// 64 bits, then the two announced norm bounds are within the total. A vector
/// of norm zero is left out, since it is announced with a bound of one.
pub proof fn law_honest_norms_fit(c: SumcheckConfig, p: ProverView, q: u64)
    requires
        ({
            let s = shape_of(p.public.config);
            let a2_base_log = p.public.config.commitment_recursion.decomposition_base_log as int;
            let a3_base_log = inner_base_log(p.public.config) as int;
            &&& shape_fits(s)
            &&& 1 <= a2_base_log <= 32
            &&& s.has_c1dec ==> 1 <= a3_base_log <= 32
            &&& p.w.len() >= s.height * s.width
            &&& s.has_c1dec ==> c1_of(p).len() >= s.a2_rank * s.num_digits_c1
            &&& sum_sq(coeffs_of(p.w.subrange(0, s.height * s.width), q)) <= c.norm_bound_sq
            &&& digits_balanced(ydec_elements(s, p.y), a2_base_log, q)
            &&& s.has_c1dec ==> digits_balanced(inner_digits(s, c1_of(p)), a3_base_log, q)
            &&& c.norm_bound_sq + caps_of(s, a2_base_log, a3_base_log) <= u64::MAX
        }),
        sum_sq(witness_for(c, p, q)[0]) >= 1,
        sum_sq(witness_for(c, p, q)[1]) >= 1,
    ensures
        honest0(c, p, q) + honest1(c, p, q) <= w_bound(c, p.public),
{
    let s = shape_of(p.public.config);
    let l = the_layout(c, s);
    let a2_base_log = p.public.config.commitment_recursion.decomposition_base_log as int;
    let a3_base_log = inner_base_log(p.public.config) as int;
    law_layout_exists(c, s);
    w_norm_splits(l, p.w, q);
    law_caps_cover_digits(s, p.y, c1_of(p), a2_base_log, a3_base_log, q);
    let b = coeffs_of(p.w.subrange(0, l.v0_start as int), q);
    let m = coeffs_of(p.w.subrange(l.v0_start as int, l.v0_end as int), q);
    let a = coeffs_of(p.w.subrange(l.v0_end as int, l.total as int), q);
    let y = coeffs_of(ydec_elements(s, p.y), q);
    let e = coeffs_of(inner_digits(s, c1_of(p)), q);
    sum_sq_add(b + a + y, e);
    sum_sq_add(b + a, y);
    sum_sq_add(b, a);
    sum_sq_nonneg(b, b.len() as int);
    sum_sq_nonneg(a, a.len() as int);
    sum_sq_nonneg(y, y.len() as int);
    sum_sq_nonneg(e, e.len() as int);
    parts_within(
        sum_sq(m),
        sum_sq(b),
        sum_sq(a),
        sum_sq(y),
        sum_sq(e),
        c.norm_bound_sq as int,
        caps_of(s, a2_base_log, a3_base_log),
    );
}

/// No reply reports a failure.
pub open spec fn all_succeed(replies: Seq<Reply>) -> bool {
    forall|k: int|
        0 <= k < replies.len() ==> (match #[trigger] replies[k] {
            Reply::Allocated(ok) => ok,
            Reply::Code(code) => code == 0,
            _ => true,
        })
}

/// What an export that succeeded ends with.
proof fn exported(
    root: Config,
    cut: usize,
    p: ProverView,
    q: u64,
    stmt: StatementView,
    wit: Seq<Seq<i64>>,
)
    requires
        prover_result(root, cut, p, q) == Ok::<(StatementView, Seq<Seq<i64>>), ExportError>(
            (stmt, wit),
        ),
    ensures
        round_at(root, cut) is Ok,
        stmt == prover_statement(round_at(root, cut)->Ok_0, p, q),
        wit == witness_for(round_at(root, cut)->Ok_0, p, q),
        self_check_error(stmt, q, wit, q) is None,
{
}

/// An exported statement and witness pass every check that comes before a
/// proof or a verification by LaBRADOR compiled for the same modulus, and the
/// last constraint carries a right-hand side, unless `w` or, below an inner
/// level, `ydec` is empty.
pub proof fn law_exported_pair_begins(
    root: Config,
    cut: usize,
    c: SumcheckConfig,
    p: ProverView,
    q: u64,
    stmt: StatementView,
    wit: Seq<Seq<i64>>,
)
    requires
        prover_result(root, cut, p, q) == Ok::<(StatementView, Seq<Seq<i64>>), ExportError>(
            (stmt, wit),
        ),
        round_at(root, cut) == Ok::<SumcheckConfig, crate::config::RoundError>(c),
        ready(c, p.public, q),
        shape_of(p.public.config).width * shape_of(p.public.config).height > 0,
        shape_of(p.public.config).has_c1dec ==> ydec_halves(shape_of(p.public.config)) > 0,
    ensures
        begin_error(Task::Prove, stmt, wit, q) is None,
        begin_error(Task::Verify, stmt, seq![], q) is None,
        stmt.constraints.len() > 0,
        stmt.constraints.last().b is Some,
{
    let s = shape_of(p.public.config);
    exported(root, cut, p, q, stmt, wit);
    law_verifier_agrees(root, cut, p, q);
    law_exported_statement_accepted(root, cut, c, p.public, stmt.vectors, q);
    law_self_checked_witness_accepted(stmt, q, wit, q);
    law_last_constraint_has_target(the_layout(c, s), s, public_view(p.public, q), q);
}

/// An honest export is proved: if no call of LaBRADOR fails and it measures the
/// norms as they are, the proof of an exported statement and witness comes
/// about.
pub proof fn law_exported_pair_is_proved(
    root: Config,
    cut: usize,
    c: SumcheckConfig,
    p: ProverView,
    q: u64,
    stmt: StatementView,
    wit: Seq<Seq<i64>>,
    replies: Seq<Reply>,
)
    requires
        prover_result(root, cut, p, q) == Ok::<(StatementView, Seq<Seq<i64>>), ExportError>(
            (stmt, wit),
        ),
        round_at(root, cut) == Ok::<SumcheckConfig, crate::config::RoundError>(c),
        ready(c, p.public, q),
        shape_of(p.public.config).width * shape_of(p.public.config).height > 0,
        shape_of(p.public.config).has_c1dec ==> ydec_halves(shape_of(p.public.config)) > 0,
        replies.len() == session_len(Task::Prove, 2),
        forall|k: int|
            0 <= k < replies.len() ==> answers(
                step_at(Task::Prove, 2, k),
                #[trigger] replies[k],
            ),
        all_succeed(replies),
        replies[6] == Reply::Normsq(low_word(sum_sq(wit[0])) as u64),
        replies[8] == Reply::Normsq(low_word(sum_sq(wit[1])) as u64),
    ensures
        session(Task::Prove, stmt, wit, q, replies, replies.len() as int) == Ok::<
            Step,
            LabradorError,
        >(Step::Finished),
{
    exported(root, cut, p, q, stmt, wit);
    law_exported_pair_begins(root, cut, c, p, q, stmt, wit);
    assert(stmt.vectors.len() == 2);
    session_succeeds(stmt, wit, q, replies);
}

/// A session on a checked pair of two vectors finishes if nothing fails and
/// the norms are measured as they are.
proof fn session_succeeds(
    stmt: StatementView,
    wit: Seq<Seq<i64>>,
    q: u64,
    replies: Seq<Reply>,
)
    requires
        self_check_error(stmt, q, wit, q) is None,
        begin_error(Task::Prove, stmt, wit, q) is None,
        stmt.vectors.len() == 2,
        replies.len() == session_len(Task::Prove, 2),
        forall|k: int|
            0 <= k < replies.len() ==> answers(
                step_at(Task::Prove, 2, k),
                #[trigger] replies[k],
            ),
        all_succeed(replies),
        replies[6] == Reply::Normsq(low_word(sum_sq(wit[0])) as u64),
        replies[8] == Reply::Normsq(low_word(sum_sq(wit[1])) as u64),
    ensures
        session(Task::Prove, stmt, wit, q, replies, replies.len() as int) == Ok::<
            Step,
            LabradorError,
        >(Step::Finished),
{
    let verr = |i: int| vector_error(stmt.vectors[i], wit[i], i);
    first_error_none(2, verr);
    assert(verr(0) is None && verr(1) is None);
    assert(answers(step_at(Task::Prove, 2, 0), replies[0]));
    assert(answers(step_at(Task::Prove, 2, 1), replies[1]));
    assert(answers(step_at(Task::Prove, 2, 3), replies[3]));
    assert(answers(step_at(Task::Prove, 2, 5), replies[5]));
    assert(answers(step_at(Task::Prove, 2, 7), replies[7]));
    assert(answers(step_at(Task::Prove, 2, 9), replies[9]));
    assert(answers(step_at(Task::Prove, 2, 10), replies[10]));
    assert(answers(step_at(Task::Prove, 2, 11), replies[11]));
    assert forall|i: int| 0 <= i < 2 implies #[trigger] vector_taken(stmt, replies, i) by {
        if i == 0 {
            assert(replies[5 + 2 * i] == replies[5] && replies[6 + 2 * i] == replies[6]);
        } else {
            assert(replies[5 + 2 * i] == replies[7] && replies[6 + 2 * i] == replies[8]);
        }
    }
    law_prove_finishes_iff(stmt, wit, q, replies);
}

/// An honest export is verified: if no call of LaBRADOR fails, the
/// verification of an exported statement succeeds.
pub proof fn law_exported_statement_is_verified(
    root: Config,
    cut: usize,
    c: SumcheckConfig,
    p: ProverView,
    q: u64,
    stmt: StatementView,
    wit: Seq<Seq<i64>>,
    replies: Seq<Reply>,
)
    requires
        prover_result(root, cut, p, q) == Ok::<(StatementView, Seq<Seq<i64>>), ExportError>(
            (stmt, wit),
        ),
        round_at(root, cut) == Ok::<SumcheckConfig, crate::config::RoundError>(c),
        ready(c, p.public, q),
        shape_of(p.public.config).width * shape_of(p.public.config).height > 0,
        shape_of(p.public.config).has_c1dec ==> ydec_halves(shape_of(p.public.config)) > 0,
        replies.len() == session_len(Task::Verify, 2),
        forall|k: int|
            0 <= k < replies.len() ==> answers(
                step_at(Task::Verify, 2, k),
                #[trigger] replies[k],
            ),
        all_succeed(replies),
    ensures
        session(Task::Verify, stmt, seq![], q, replies, replies.len() as int) == Ok::<
            Step,
            LabradorError,
        >(Step::Finished),
{
    exported(root, cut, p, q, stmt, wit);
    law_exported_pair_begins(root, cut, c, p, q, stmt, wit);
    assert(stmt.vectors.len() == 2);
    assert(answers(step_at(Task::Verify, 2, 0), replies[0]));
    assert(answers(step_at(Task::Verify, 2, 1), replies[1]));
    assert(answers(step_at(Task::Verify, 2, 3), replies[3]));
    law_verify_finishes_iff(stmt, q, replies);
}

} // verus!
