//! Checks a witness against a statement.

use crate::layout::{INNER_FLAG, ROLE_W};
use crate::negacyclic::{conv, conv_cong, seq_cong};
use crate::r64::{
    dot, dot_coeff, ints, law_uncenter_congruent, reduced, ring_zero, uncenter, views, zero, R64,
};
use crate::statement::{
    ConstraintSpec, ConstraintView, Statement, StatementView, VectorRecord, Witness,
};
use crate::sums::{cong, cong_iff, cong_refl, sum, sum_cong};
use crate::witness::{low_word, sum_sq};
use vstd::arithmetic::div_mod::{lemma_add_mod_noop, lemma_small_mod};
use vstd::prelude::*;

verus! {

/// Largest absolute value of a witness coefficient.
pub const WITNESS_COEFF_MAX: i64 = 23170;

/// Why a statement and a witness do not go together.
#[derive(Clone, Copy, Debug, PartialEq, Eq)]
pub enum SelfCheckError {
    /// Statement and witness are over different moduli.
    ModulusMismatch,
    /// Statement and witness have different numbers of vectors.
    VectorCountMismatch,
    /// The vector does not have 64 coefficients for each announced element.
    RankMismatch { vector: usize },
    /// A coefficient of the vector is too large.
    CoeffTooLarge { vector: usize },
    /// The vector exceeds its announced norm bound.
    NormExceeded { vector: usize },
    /// The norm bounds of the witness vectors exceed their total.
    WTotalExceeded,
    /// The norm bounds of the inner vectors exceed their total.
    InnerTotalExceeded,
    /// A block of the constraint names a vector that does not exist.
    BlockOutOfRange { constraint: usize, block: usize },
    /// A block of the constraint exceeds its vector.
    BlockExceedsRank { constraint: usize, block: usize },
    /// The constraint has no factors for all of a block.
    FactorsMissing { constraint: usize, block: usize },
    /// The constraint does not hold.
    Unsatisfied { constraint: usize },
}

/// The first error among those of indices `0` to `n - 1`.
pub open spec fn first_error<E>(n: int, f: spec_fn(int) -> Option<E>) -> Option<E>
    decreases n,
{
    if n <= 0 {
        None
    } else {
        match first_error(n - 1, f) {
            Some(e) => Some(e),
            None => f(n - 1),
        }
    }
}

/// An error at some index is still the first one in a longer list.
pub proof fn first_error_stays<E>(n: int, m: int, f: spec_fn(int) -> Option<E>)
    requires
        n <= m,
        first_error(n, f) is Some,
    ensures
        first_error(m, f) == first_error(n, f),
    decreases m - n,
{
    if n < m {
        first_error_stays(n, m - 1, f);
    }
}

/// There is no first error exactly when there is no error.
pub proof fn first_error_none<E>(n: int, f: spec_fn(int) -> Option<E>)
    ensures
        first_error(n, f) is None <==> forall|i: int| 0 <= i < n ==> #[trigger] f(i) is None,
    decreases n,
{
    if n > 0 {
        first_error_none(n - 1, f);
        if first_error(n, f) is None {
            assert forall|i: int| 0 <= i < n implies #[trigger] f(i) is None by {}
        } else if forall|i: int| 0 <= i < n ==> #[trigger] f(i) is None {
            assert(f(n - 1) is None);
        }
    }
}

/// The sum of the norm bounds of the vectors that carry the witness.
pub open spec fn w_total(vectors: Seq<VectorRecord>, n: int) -> int {
    sum(
        0,
        n,
        |i: int|
            if vectors[i].role == ROLE_W {
                vectors[i].betasq as int
            } else {
                0
            },
    )
}

/// The sum of the norm bounds of those among them that are flagged as inner.
pub open spec fn inner_total(vectors: Seq<VectorRecord>, n: int) -> int {
    sum(
        0,
        n,
        |i: int|
            if vectors[i].role == ROLE_W && vectors[i].flags & INNER_FLAG != 0 {
                vectors[i].betasq as int
            } else {
                0
            },
    )
}

/// Element `m` of a witness vector.
pub open spec fn chunk(v: Seq<i64>, m: int) -> Seq<int> {
    Seq::new(64, |i: int| v[64 * m + i] as int)
}

/// Position in `phi` of the factors of block `j`.
pub open spec fn phi_pos(len: Seq<usize>, j: int) -> int {
    sum(0, j, |i: int| len[i] as int)
}

/// Coefficient `k` of what block `j` of a constraint contributes, before
/// reduction.
pub open spec fn block_value(c: ConstraintView, wit: Seq<Seq<i64>>, j: int, k: int) -> int {
    sum(
        0,
        c.len[j] as int,
        |i: int|
            conv(ints(c.phi[phi_pos(c.len, j) + i]), chunk(wit[c.idx[j] as int], c.off[j] + i), k),
    )
}

/// Coefficient `k` of the left-hand side of a constraint, before reduction.
pub open spec fn lhs(c: ConstraintView, wit: Seq<Seq<i64>>, k: int) -> int {
    sum(0, c.idx.len() as int, |j: int| block_value(c, wit, j, k))
}

/// Coefficient `k` of the right-hand side of a constraint.
pub open spec fn rhs(c: ConstraintView, k: int) -> int {
    match c.b {
        Some(b) => b[k] as int,
        None => 0,
    }
}

/// A constraint holds modulo `q`.
pub open spec fn holds(c: ConstraintView, wit: Seq<Seq<i64>>, q: u64) -> bool {
    forall|k: int| 0 <= k < 64 ==> #[trigger] lhs(c, wit, k) % (q as int) == rhs(c, k)
}

/// A coefficient is too large.
pub open spec fn too_large(c: i64) -> bool {
    c > WITNESS_COEFF_MAX || c < -WITNESS_COEFF_MAX
}

/// What is wrong with witness vector `i`.
pub open spec fn vector_error(v: VectorRecord, coeffs: Seq<i64>, i: int) -> Option<
    SelfCheckError,
> {
    if coeffs.len() != v.n * 64 {
        Some(SelfCheckError::RankMismatch { vector: i as usize })
    } else if exists|k: int| 0 <= k < coeffs.len() && too_large(#[trigger] coeffs[k]) {
        Some(SelfCheckError::CoeffTooLarge { vector: i as usize })
    } else if low_word(sum_sq(coeffs)) > v.betasq {
        Some(SelfCheckError::NormExceeded { vector: i as usize })
    } else {
        None
    }
}

/// What is wrong with block `j` of constraint `ci`.
pub open spec fn block_error(
    c: ConstraintView,
    vectors: Seq<VectorRecord>,
    ci: int,
    j: int,
) -> Option<SelfCheckError> {
    if c.idx[j] >= vectors.len() {
        Some(SelfCheckError::BlockOutOfRange { constraint: ci as usize, block: j as usize })
    } else if c.off[j] + c.len[j] > vectors[c.idx[j] as int].n {
        Some(SelfCheckError::BlockExceedsRank { constraint: ci as usize, block: j as usize })
    } else if phi_pos(c.len, j) + c.len[j] > c.phi.len() {
        Some(SelfCheckError::FactorsMissing { constraint: ci as usize, block: j as usize })
    } else {
        None
    }
}

/// What is wrong with constraint `ci`.
pub open spec fn constraint_error(
    c: ConstraintView,
    vectors: Seq<VectorRecord>,
    wit: Seq<Seq<i64>>,
    q: u64,
    ci: int,
) -> Option<SelfCheckError> {
    match first_error(c.idx.len() as int, |j: int| block_error(c, vectors, ci, j)) {
        Some(e) => Some(e),
        None => if holds(c, wit, q) {
            None
        } else {
            Some(SelfCheckError::Unsatisfied { constraint: ci as usize })
        },
    }
}

/// The first thing that is wrong with a witness over modulus `wq` for a
/// statement whose constraints are taken modulo `q`.
pub open spec fn self_check_error(
    stmt: StatementView,
    wq: u64,
    wit: Seq<Seq<i64>>,
    q: u64,
) -> Option<SelfCheckError> {
    let nvec = stmt.vectors.len() as int;
    if stmt.q != wq {
        Some(SelfCheckError::ModulusMismatch)
    } else if nvec != wit.len() {
        Some(SelfCheckError::VectorCountMismatch)
    } else {
        match first_error(nvec, |i: int| vector_error(stmt.vectors[i], wit[i], i)) {
            Some(e) => Some(e),
            None => if w_total(stmt.vectors, nvec) > stmt.betasq_w_total {
                Some(SelfCheckError::WTotalExceeded)
            } else if inner_total(stmt.vectors, nvec) > stmt.betasq_inner_total {
                Some(SelfCheckError::InnerTotalExceeded)
            } else {
                first_error(
                    stmt.constraints.len() as int,
                    |ci: int| constraint_error(stmt.constraints[ci], stmt.vectors, wit, q, ci),
                )
            },
        }
    }
}

/// Every block of a constraint has an offset and a length.
pub open spec fn listed(c: ConstraintView) -> bool {
    c.idx.len() <= c.off.len() && c.idx.len() <= c.len.len()
}

/// The two sums of norm bounds of a list of vectors.
pub fn betasq_totals(vectors: &Vec<VectorRecord>) -> (r: (u128, u128))
    ensures
        r.0 == w_total(vectors@, vectors@.len() as int),
        r.1 == inner_total(vectors@, vectors@.len() as int),
{
    let mut role0_sum: u128 = 0;
    let mut inner_sum: u128 = 0;
    for i in 0..vectors.len()
        invariant
            role0_sum == w_total(vectors@, i as int),
            inner_sum == inner_total(vectors@, i as int),
            0 <= inner_sum <= role0_sum <= i * u64::MAX,
    {
        let v: VectorRecord = vectors[i];
        assert(i * u64::MAX + u64::MAX <= u128::MAX) by (nonlinear_arith)
            requires
                0 <= i <= usize::MAX,
                usize::MAX <= 0xffff_ffff_ffff_ffff,
        ;
        assert((i + 1) * u64::MAX == i * u64::MAX + u64::MAX) by (nonlinear_arith);
        if v.role == ROLE_W {
            role0_sum = role0_sum + v.betasq as u128;
            if v.flags & INNER_FLAG != 0 {
                inner_sum = inner_sum + v.betasq as u128;
            }
        }
    }
    (role0_sum, inner_sum)
}

/// Whether a coefficient is too large.
pub fn exceeds_bound(c: i64) -> (r: bool)
    ensures
        r == too_large(c),
{
    c > WITNESS_COEFF_MAX || c < -WITNESS_COEFF_MAX
}

/// The sum of the squares of bounded coefficients.
proof fn sum_sq_bound(c: Seq<i64>, n: int)
    requires
        0 <= n <= c.len(),
        forall|k: int| 0 <= k < n ==> !too_large(#[trigger] c[k]),
    ensures
        0 <= sum(0, n, |i: int| c[i] * c[i]) <= n * 536_848_900,
    decreases n,
{
    if n > 0 {
        sum_sq_bound(c, n - 1);
        let x = c[n - 1] as int;
        assert(!too_large(c[n - 1]));
        assert(0 <= x * x <= 536_848_900) by (nonlinear_arith)
            requires
                -23170 <= x <= 23170,
        ;
        assert(n * 536_848_900 == (n - 1) * 536_848_900 + 536_848_900) by (nonlinear_arith);
    }
}

/// Checks length, coefficients and norm of witness vector `i`.
fn check_vector(v: &VectorRecord, coeffs: &Vec<i64>, i: usize) -> (r: Result<(), SelfCheckError>)
    ensures
        match r {
            Ok(_) => vector_error(*v, coeffs@, i as int) is None,
            Err(e) => vector_error(*v, coeffs@, i as int) == Some(e),
        },
{
    if coeffs.len() % 64 != 0 || coeffs.len() / 64 != v.n {
        return Err(SelfCheckError::RankMismatch { vector: i });
    }
    let mut sum_acc: u128 = 0;
    for k in 0..coeffs.len()
        invariant
            coeffs@.len() == v.n * 64,
            forall|m: int| 0 <= m < k ==> !too_large(#[trigger] coeffs@[m]),
            sum_acc == sum(0, k as int, |i: int| coeffs@[i] * coeffs@[i]),
            sum_acc <= k * 536_848_900,
    {
        let c: i64 = coeffs[k];
        if exceeds_bound(c) {
            return Err(SelfCheckError::CoeffTooLarge { vector: i });
        }
        proof {
            sum_sq_bound(coeffs@, k + 1);
            assert(0 <= c * c <= 536_848_900) by (nonlinear_arith)
                requires
                    -23170 <= c <= 23170,
            ;
            assert((k + 1) * 536_848_900 <= u128::MAX) by (nonlinear_arith)
                requires
                    0 <= k <= 0xffff_ffff_ffff_ffff,
            ;
            assert((k + 1) * 536_848_900 == k * 536_848_900 + 536_848_900) by (nonlinear_arith);
        }
        sum_acc = sum_acc + (c as i128 * c as i128) as u128;
    }
    proof {
        assert((sum_acc as u64) as u128 == sum_acc % 0x1_0000_0000_0000_0000u128) by (bit_vector);
    }
    if sum_acc as u64 > v.betasq {
        return Err(SelfCheckError::NormExceeded { vector: i });
    }
    Ok(())
}

/// Elements `start` to `start + len` of a witness vector as residues.
fn residues(coeffs: &Vec<i64>, start: usize, len: usize, q: u64) -> (r: Vec<R64>)
    requires
        WITNESS_COEFF_MAX < q <= i64::MAX,
        64 * (start + len) <= coeffs@.len(),
        forall|k: int| 0 <= k < coeffs@.len() ==> !too_large(#[trigger] coeffs@[k]),
    ensures
        r@.len() == len,
        forall|i: int|
            0 <= i < len ==> seq_cong(
                ints((#[trigger] r@[i])@),
                chunk(coeffs@, start + i),
                q as int,
            ),
{
    let mut s: Vec<R64> = Vec::new();
    for i in 0..len
        invariant
            WITNESS_COEFF_MAX < q <= i64::MAX,
            64 * (start + len) <= coeffs@.len(),
            forall|k: int| 0 <= k < coeffs@.len() ==> !too_large(#[trigger] coeffs@[k]),
            s@.len() == i,
            forall|m: int|
                0 <= m < i ==> seq_cong(
                    ints((#[trigger] s@[m])@),
                    chunk(coeffs@, start + m),
                    q as int,
                ),
    {
        let mut a = zero();
        for k in 0..64usize
            invariant
                WITNESS_COEFF_MAX < q <= i64::MAX,
                i < len,
                64 * (start + len) <= coeffs@.len(),
                forall|k: int| 0 <= k < coeffs@.len() ==> !too_large(#[trigger] coeffs@[k]),
                forall|m: int|
                    0 <= m < k ==> cong(
                        (#[trigger] a@[m]) as int,
                        coeffs@[64 * (start + i) + m] as int,
                        q as int,
                    ),
        {
            assert(coeffs.len() == coeffs@.len());
            let c: i64 = coeffs[64 * (start + i) + k];
            assert(!too_large(coeffs@[64 * (start + i) + k]));
            proof {
                law_uncenter_congruent(c, q);
            }
            a[k] = uncenter(c, q);
        }
        assert(seq_cong(ints(a@), chunk(coeffs@, start + i), q as int));
        s.push(a);
    }
    s
}

/// The inner product of a block with congruent residues is congruent to the
/// value of the block.
proof fn block_dot(
    c: ConstraintView,
    wit: Seq<Seq<i64>>,
    j: int,
    k: int,
    factors: Seq<Seq<u64>>,
    res: Seq<Seq<u64>>,
    q: u64,
)
    requires
        q > 0,
        0 <= k < 64,
        factors.len() == c.len[j],
        res.len() == c.len[j],
        forall|i: int| 0 <= i < c.len[j] ==> (#[trigger] factors[i]).len() == 64,
        forall|i: int|
            0 <= i < c.len[j] ==> #[trigger] factors[i] == c.phi[phi_pos(c.len, j) + i],
        forall|i: int|
            0 <= i < c.len[j] ==> seq_cong(
                ints(#[trigger] res[i]),
                chunk(wit[c.idx[j] as int], c.off[j] + i),
                q as int,
            ),
    ensures
        cong(dot_coeff(factors, res, k), block_value(c, wit, j, k), q as int),
{
    let n = c.len[j] as int;
    let f = |i: int| conv(ints(factors[i]), ints(res[i]), k);
    let g = |i: int|
        conv(ints(c.phi[phi_pos(c.len, j) + i]), chunk(wit[c.idx[j] as int], c.off[j] + i), k);
    assert forall|i: int| 0 <= i < n implies cong(#[trigger] f(i), g(i), q as int) by {
        let a = ints(factors[i]);
        assert forall|m: int| 0 <= m < a.len() implies cong(#[trigger] a[m], a[m], q as int) by {
            cong_refl(a[m], q as int);
        }
        assert(res[i].len() == 64);
        conv_cong(a, a, ints(res[i]), chunk(wit[c.idx[j] as int], c.off[j] + i), k, q as int);
    }
    sum_cong(0, n, f, g, q as int);
}

/// Checks constraint `ci`.
fn check_constraint(
    c: &ConstraintSpec,
    vectors: &Vec<VectorRecord>,
    wit: &Witness,
    q: u64,
    ci: usize,
) -> (r: Result<(), SelfCheckError>)
    requires
        WITNESS_COEFF_MAX < q <= i64::MAX,
        listed(c@),
        vectors@.len() == wit@.len(),
        forall|i: int|
            0 <= i < vectors@.len() ==> vector_error(vectors@[i], #[trigger] wit@[i], i) is None,
    ensures
        match r {
            Ok(_) => constraint_error(c@, vectors@, wit@, q, ci as int) is None,
            Err(e) => constraint_error(c@, vectors@, wit@, q, ci as int) == Some(e),
        },
{
    let ghost cv = c@;
    let ghost berr = |j: int| block_error(cv, vectors@, ci as int, j);
    let mut acc = zero();
    let mut pos: usize = 0;
    proof {
        lemma_small_mod(0, q as nat);
    }
    for j in 0..c.idx.len()
        invariant
            WITNESS_COEFF_MAX < q <= i64::MAX,
            cv == c@,
            listed(cv),
            vectors@.len() == wit@.len(),
            forall|i: int|
                0 <= i < vectors@.len() ==> vector_error(vectors@[i], #[trigger] wit@[i], i)
                    is None,
            berr == (|j: int| block_error(cv, vectors@, ci as int, j)),
            first_error(j as int, berr) is None,
            pos == phi_pos(cv.len, j as int),
            pos <= cv.phi.len(),
            reduced(acc@, q),
            forall|k: int|
                0 <= k < 64 ==> #[trigger] acc@[k] == sum(
                    0,
                    j as int,
                    |jj: int| block_value(cv, wit@, jj, k),
                ) % (q as int),
    {
        let vi: usize = c.idx[j];
        let boff: usize = c.off[j];
        let blen: usize = c.len[j];
        proof {
            if first_error(j + 1, berr) is Some {
                first_error_stays(j + 1, cv.idx.len() as int, berr);
            }
        }
        if vi >= vectors.len() {
            return Err(SelfCheckError::BlockOutOfRange { constraint: ci, block: j });
        }
        if boff > vectors[vi].n || blen > vectors[vi].n - boff {
            return Err(SelfCheckError::BlockExceedsRank { constraint: ci, block: j });
        }
        if blen > c.phi.len() - pos {
            return Err(SelfCheckError::FactorsMissing { constraint: ci, block: j });
        }
        proof {
            let w = wit@[vi as int];
            assert(vector_error(vectors@[vi as int], w, vi as int) is None);
            assert(w == wit.vectors@[vi as int]@);
            assert forall|k: int| 0 <= k < w.len() implies !too_large(#[trigger] w[k]) by {}
        }
        let s = residues(&wit.vectors[vi], boff, blen, q);
        let phi_slice = vstd::slice::slice_subrange(c.phi.as_slice(), pos, pos + blen);
        let d = dot(phi_slice, s.as_slice(), q);
        let ghost before = acc@;
        acc = crate::r64::add(&acc, &d, q);
        proof {
            let factors = views(phi_slice@);
            let res = views(s@);
            assert forall|k: int| 0 <= k < 64 implies #[trigger] acc@[k] == sum(
                0,
                j + 1,
                |jj: int| block_value(cv, wit@, jj, k),
            ) % (q as int) by {
                block_dot(cv, wit@, j as int, k, factors, res, q);
                let f = |jj: int| block_value(cv, wit@, jj, k);
                let bv = block_value(cv, wit@, j as int, k);
                cong_iff(dot_coeff(factors, res, k), bv, q as int);
                assert(d@[k] == bv % (q as int));
                assert(before[k] == sum(0, j as int, f) % (q as int));
                lemma_add_mod_noop(sum(0, j as int, f), bv, q as int);
            }
        }
        pos = pos + blen;
    }
    let target = match &c.b {
        Some(b) => *b,
        None => zero(),
    };
    for k in 0..64usize
        invariant
            cv == c@,
            target@ == (match cv.b {
                Some(b) => b,
                None => ring_zero(),
            }),
            first_error(cv.idx.len() as int, berr) is None,
            berr == (|j: int| block_error(cv, vectors@, ci as int, j)),
            forall|k: int| 0 <= k < 64 ==> #[trigger] acc@[k] == lhs(cv, wit@, k) % (q as int),
            forall|m: int| 0 <= m < k ==> acc@[m] == #[trigger] target@[m],
    {
        if acc[k] != target[k] {
            assert(lhs(cv, wit@, k as int) % (q as int) != rhs(cv, k as int));
            return Err(SelfCheckError::Unsatisfied { constraint: ci });
        }
    }
    assert forall|k: int| 0 <= k < 64 implies #[trigger] lhs(cv, wit@, k) % (q as int) == rhs(
        cv,
        k,
    ) by {
        assert(acc@[k] == target@[k]);
    }
    Ok(())
}

/// Checks that the witness, over modulus `wq`, meets the statement: lengths,
/// coefficients, norms, and all constraints modulo `q`.
pub fn self_check(stmt: &Statement, wq: u64, wit: &Witness, q: u64) -> (r: Result<
    (),
    SelfCheckError,
>)
    requires
        WITNESS_COEFF_MAX < q <= i64::MAX,
        forall|i: int| 0 <= i < stmt@.constraints.len() ==> listed(#[trigger] stmt@.constraints[i]),
    ensures
        match r {
            Ok(_) => self_check_error(stmt@, wq, wit@, q) is None,
            Err(e) => self_check_error(stmt@, wq, wit@, q) == Some(e),
        },
{
    if stmt.q != wq {
        return Err(SelfCheckError::ModulusMismatch);
    }
    if stmt.vectors.len() != wit.vectors.len() {
        return Err(SelfCheckError::VectorCountMismatch);
    }
    let ghost sv = stmt@;
    let ghost verr = |i: int| vector_error(sv.vectors[i], wit@[i], i);
    for i in 0..stmt.vectors.len()
        invariant
            sv == stmt@,
            stmt.q == wq,
            stmt.vectors@.len() == wit@.len(),
            verr == (|i: int| vector_error(sv.vectors[i], wit@[i], i)),
            first_error(i as int, verr) is None,
    {
        assert(wit@[i as int] == wit.vectors@[i as int]@);
        match check_vector(&stmt.vectors[i], &wit.vectors[i], i) {
            Ok(_) => {},
            Err(e) => {
                proof {
                    first_error_stays(i + 1, stmt.vectors@.len() as int, verr);
                }
                return Err(e);
            },
        }
    }
    let (role0_sum, inner_sum) = betasq_totals(&stmt.vectors);
    if role0_sum > stmt.betasq_w_total as u128 {
        return Err(SelfCheckError::WTotalExceeded);
    }
    if inner_sum > stmt.betasq_inner_total as u128 {
        return Err(SelfCheckError::InnerTotalExceeded);
    }
    proof {
        first_error_none(stmt.vectors@.len() as int, verr);
        assert forall|i: int| 0 <= i < stmt.vectors@.len() implies vector_error(
            stmt.vectors@[i],
            #[trigger] wit@[i],
            i,
        ) is None by {
            assert(verr(i) is None);
        }
    }
    let ghost cerr = |ci: int| constraint_error(sv.constraints[ci], sv.vectors, wit@, q, ci);
    for ci in 0..stmt.constraints.len()
        invariant
            sv == stmt@,
            stmt.q == wq,
            stmt.vectors@.len() == wit@.len(),
            WITNESS_COEFF_MAX < q <= i64::MAX,
            forall|i: int| 0 <= i < sv.constraints.len() ==> listed(#[trigger] sv.constraints[i]),
            forall|i: int|
                0 <= i < stmt.vectors@.len() ==> vector_error(
                    stmt.vectors@[i],
                    #[trigger] wit@[i],
                    i,
                ) is None,
            verr == (|i: int| vector_error(sv.vectors[i], wit@[i], i)),
            first_error(stmt.vectors@.len() as int, verr) is None,
            w_total(sv.vectors, sv.vectors.len() as int) <= sv.betasq_w_total,
            inner_total(sv.vectors, sv.vectors.len() as int) <= sv.betasq_inner_total,
            cerr == (|ci: int| constraint_error(sv.constraints[ci], sv.vectors, wit@, q, ci)),
            first_error(ci as int, cerr) is None,
    {
        assert(listed(sv.constraints[ci as int]));
        match check_constraint(&stmt.constraints[ci], &stmt.vectors, wit, q, ci) {
            Ok(_) => {},
            Err(e) => {
                proof {
                    first_error_stays(ci + 1, sv.constraints.len() as int, cerr);
                }
                return Err(e);
            },
        }
    }
    Ok(())
}

} // verus!
