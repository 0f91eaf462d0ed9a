//! What the checks accept, and what each error says of what was checked.

use crate::check::{
    block_error, constraint_error, first_error, first_error_none, holds, inner_total, phi_pos,
    self_check_error, vector_error, w_total, SelfCheckError,
};
use crate::labrador::{
    coeff_error, coeffs_error, form_error, order_error, statement_error, witness_error,
    LabradorError,
};
use crate::statement::{ConstraintView, StatementView, VectorRecord};
use crate::structure::ordered;
use crate::sums::{sum, sum_ext};
use vstd::prelude::*;

verus! {

/// The first error is that of an index before which there is none.
pub proof fn law_first_error<E>(n: int, f: spec_fn(int) -> Option<E>) -> (at: int)
    requires
        first_error(n, f) is Some,
    ensures
        0 <= at < n,
        f(at) == first_error(n, f),
        forall|i: int| 0 <= i < at ==> #[trigger] f(i) is None,
    decreases n,
{
    if first_error(n - 1, f) is Some {
        law_first_error(n - 1, f)
    } else {
        first_error_none(n - 1, f);
        n - 1
    }
}

/// A vector adds its norm bound to the total of the witness if its role is zero,
/// and to the inner total if its lowest flag is set as well.
pub proof fn law_totals(vectors: Seq<VectorRecord>, v: VectorRecord)
    ensures
        w_total(Seq::empty(), 0) == 0,
        inner_total(Seq::empty(), 0) == 0,
        w_total(vectors.push(v), vectors.len() as int + 1) == w_total(vectors, vectors.len() as int) + (
        if v.role == 0 {
            v.betasq as int
        } else {
            0
        }),
        inner_total(vectors.push(v), vectors.len() as int + 1) == inner_total(
            vectors,
            vectors.len() as int,
        ) + (if v.role == 0 && v.flags % 2 == 1 {
            v.betasq as int
        } else {
            0
        }),
{
    let n = vectors.len() as int;
    let all = vectors.push(v);
    let f = |i: int|
        if vectors[i].role == crate::layout::ROLE_W {
            vectors[i].betasq as int
        } else {
            0
        };
    let g = |i: int|
        if all[i].role == crate::layout::ROLE_W {
            all[i].betasq as int
        } else {
            0
        };
    let f1 = |i: int|
        if vectors[i].role == crate::layout::ROLE_W && vectors[i].flags & crate::layout::INNER_FLAG
            != 0 {
            vectors[i].betasq as int
        } else {
            0
        };
    let g1 = |i: int|
        if all[i].role == crate::layout::ROLE_W && all[i].flags & crate::layout::INNER_FLAG != 0 {
            all[i].betasq as int
        } else {
            0
        };
    sum_ext(0, n, f, g);
    sum_ext(0, n, f1, g1);
    let x = v.flags;
    assert(x & 1 != 0 <==> x % 2 == 1) by (bit_vector);
}

/// The factors of the first block stand first, and those of each block follow
/// those of the block before it.
pub proof fn law_phi_pos(len: Seq<usize>, j: int)
    requires
        0 <= j < len.len(),
    ensures
        phi_pos(len, 0) == 0,
        phi_pos(len, j + 1) == phi_pos(len, j) + len[j],
{
}

/// All coefficients are at most 23170 in size.
pub open spec fn small(v: Seq<i64>) -> bool {
    forall|k: int| 0 <= k < v.len() ==> -23170 <= #[trigger] v[k] <= 23170
}

/// A witness is accepted exactly when it has the vectors that the statement
/// announces, each with 64 coefficients for each of its elements, and no
/// coefficient of any of them is above 23170 in size.
pub proof fn law_witness_accepted(stmt: StatementView, wit: Seq<Seq<i64>>)
    ensures
        witness_error(stmt, wit) is None <==> {
            &&& wit.len() == stmt.vectors.len()
            &&& forall|i: int|
                0 <= i < wit.len() ==> (#[trigger] wit[i]).len() == 64 * stmt.vectors[i].n
            &&& forall|i: int, k: int|
                0 <= i < wit.len() && 0 <= k < wit[i].len() ==> -23170 <= #[trigger] wit[i][k]
                    <= 23170
        },
{
    let n = stmt.vectors.len() as int;
    let errs = |i: int| coeffs_error(stmt.vectors[i], wit[i], i);
    first_error_none(n, errs);
    if wit.len() == n {
        assert forall|i: int| 0 <= i < n implies (#[trigger] errs(i) is None <==> wit[i].len() == 64
            * stmt.vectors[i].n && small(wit[i])) by {
            coeffs_accepted(stmt.vectors[i], wit[i], i);
        }
        if witness_error(stmt, wit) is None {
            assert forall|i: int| 0 <= i < wit.len() implies (#[trigger] wit[i]).len() == 64
                * stmt.vectors[i].n by {
                assert(errs(i) is None);
            }
            assert forall|i: int, k: int| 0 <= i < wit.len() && 0 <= k < wit[i].len() implies -23170
                <= #[trigger] wit[i][k] <= 23170 by {
                assert(errs(i) is None);
            }
        } else {
            let i = law_first_error(n, errs);
            assert(errs(i) is Some);
            if wit[i].len() == 64 * stmt.vectors[i].n {
                assert(!small(wit[i]));
            }
        }
    }
}

/// What is accepted of one vector.
proof fn coeffs_accepted(v: VectorRecord, coeffs: Seq<i64>, i: int)
    ensures
        coeffs_error(v, coeffs, i) is None <==> coeffs.len() == 64 * v.n && small(coeffs),
{
    let errs = |k: int| coeff_error(coeffs, i, k);
    first_error_none(coeffs.len() as int, errs);
    if coeffs.len() == 64 * v.n {
        if coeffs_error(v, coeffs, i) is None {
            assert forall|k: int| 0 <= k < coeffs.len() implies -23170 <= #[trigger] coeffs[k]
                <= 23170 by {
                assert(errs(k) is None);
            }
        } else {
            let k = law_first_error(coeffs.len() as int, errs);
            assert(errs(k) is Some);
            assert(!(-23170 <= coeffs[k] <= 23170));
        }
    }
}

/// An error about a witness names the first vector with which something is
/// wrong: its length, or else the size of its first coefficient above 23170.
pub proof fn law_witness_error(stmt: StatementView, wit: Seq<Seq<i64>>)
    requires
        stmt.vectors.len() <= usize::MAX,
    ensures
        match witness_error(stmt, wit) {
            None => true,
            Some(LabradorError::VectorCountMismatch) => wit.len() != stmt.vectors.len(),
            Some(LabradorError::CoefficientCount { vector }) => {
                &&& wit.len() == stmt.vectors.len()
                &&& vector < wit.len()
                &&& wit[vector as int].len() != 64 * stmt.vectors[vector as int].n
                &&& forall|i: int|
                    0 <= i < vector ==> (#[trigger] wit[i]).len() == 64 * stmt.vectors[i].n
                        && small(wit[i])
            },
            Some(LabradorError::CoeffTooLarge { vector, magnitude }) => {
                &&& wit.len() == stmt.vectors.len()
                &&& vector < wit.len()
                &&& wit[vector as int].len() == 64 * stmt.vectors[vector as int].n
                &&& forall|i: int|
                    0 <= i < vector ==> (#[trigger] wit[i]).len() == 64 * stmt.vectors[i].n
                        && small(wit[i])
                &&& magnitude > 23170
                &&& exists|k: int|
                    {
                        &&& 0 <= k < wit[vector as int].len()
                        &&& #[trigger] wit[vector as int][k] == magnitude
                            || wit[vector as int][k] == -magnitude
                        &&& small(wit[vector as int].take(k))
                    }
            },
            Some(_) => false,
        },
{
    let n = stmt.vectors.len() as int;
    let errs = |i: int| coeffs_error(stmt.vectors[i], wit[i], i);
    if wit.len() == n && witness_error(stmt, wit) is Some {
        let v = law_first_error(n, errs);
        assert forall|i: int| 0 <= i < v implies (#[trigger] wit[i]).len() == 64
            * stmt.vectors[i].n && small(wit[i]) by {
            assert(errs(i) is None);
            coeffs_accepted(stmt.vectors[i], wit[i], i);
        }
        assert(errs(v) == witness_error(stmt, wit));
        if wit[v].len() == 64 * stmt.vectors[v].n {
            let cerrs = |k: int| coeff_error(wit[v], v, k);
            let k = law_first_error(wit[v].len() as int, cerrs);
            assert(cerrs(k) == witness_error(stmt, wit));
            assert(small(wit[v].take(k))) by {
                assert forall|m: int| 0 <= m < k implies -23170 <= #[trigger] wit[v].take(k)[m]
                    <= 23170 by {
                    assert(cerrs(m) is None);
                }
            }
        }
    }
}

/// The blocks of a constraint lie within the vectors of a statement.
pub open spec fn within_vectors(c: ConstraintView, vectors: Seq<VectorRecord>) -> bool {
    forall|j: int|
        0 <= j < c.idx.len() ==> (#[trigger] c.idx[j]) < vectors.len() && c.off[j] + c.len[j]
            <= vectors[c.idx[j] as int].n
}

/// A constraint has one to 64 blocks, all within their vectors, ordered by
/// vector and then by offset.
pub open spec fn form_fine(c: ConstraintView, vectors: Seq<VectorRecord>) -> bool {
    &&& 1 <= c.idx.len() <= 64
    &&& within_vectors(c, vectors)
    &&& ordered(c)
}

/// A statement is accepted exactly when it is over the modulus compiled in, its
/// norm bounds are within their totals, and every constraint has one to 64
/// blocks, all within their vectors, ordered by vector and then by offset.
pub proof fn law_statement_accepted(stmt: StatementView, compiled: u64)
    ensures
        statement_error(stmt, compiled) is None <==> {
            &&& stmt.q == compiled
            &&& w_total(stmt.vectors, stmt.vectors.len() as int) <= stmt.betasq_w_total
            &&& inner_total(stmt.vectors, stmt.vectors.len() as int) <= stmt.betasq_inner_total
            &&& forall|ci: int|
                0 <= ci < stmt.constraints.len() ==> form_fine(
                    #[trigger] stmt.constraints[ci],
                    stmt.vectors,
                )
        },
{
    let n = stmt.constraints.len() as int;
    let errs = |ci: int| form_error(stmt.constraints[ci], stmt.vectors, ci);
    first_error_none(n, errs);
    assert forall|ci: int| 0 <= ci < n implies (#[trigger] errs(ci) is None <==> form_fine(
        stmt.constraints[ci],
        stmt.vectors,
    )) by {
        form_accepted(stmt.constraints[ci], stmt.vectors, ci);
    }
    if statement_error(stmt, compiled) is None {
        assert forall|ci: int| 0 <= ci < n implies form_fine(
            #[trigger] stmt.constraints[ci],
            stmt.vectors,
        ) by {
            assert(errs(ci) is None);
        }
    } else if first_error(n, errs) is Some {
        let ci = law_first_error(n, errs);
        assert(errs(ci) is Some);
        assert(!form_fine(stmt.constraints[ci], stmt.vectors));
    }
}

/// What is accepted of one constraint.
proof fn form_accepted(c: ConstraintView, vectors: Seq<VectorRecord>, ci: int)
    ensures
        form_error(c, vectors, ci) is None <==> form_fine(c, vectors),
{
    let n = c.idx.len() as int;
    let errs = |j: int| order_error(c, vectors, ci, j);
    first_error_none(n, errs);
    if 1 <= n <= 64 {
        if form_error(c, vectors, ci) is None {
            assert forall|j: int| 0 <= j < n implies (#[trigger] c.idx[j]) < vectors.len()
                && c.off[j] + c.len[j] <= vectors[c.idx[j] as int].n by {
                assert(errs(j) is None);
            }
            assert forall|i: int, j: int| 0 <= i < j < n implies (#[trigger] c.idx[i]) < (
            #[trigger] c.idx[j]) || c.idx[i] == c.idx[j] && c.off[i] < c.off[j] by {
                assert forall|j: int| 0 < j < n implies #[trigger] order_error(
                    c,
                    vectors,
                    ci,
                    j,
                ) is None by {
                    assert(errs(j) is None);
                }
                order_chains(c, vectors, ci, i, j);
            }
        } else {
            let j = law_first_error(n, errs);
            assert(errs(j) is Some);
            if within_vectors(c, vectors) && ordered(c) {
                assert(c.idx[j] < vectors.len());
                if j > 0 {
                    assert(c.idx[j - 1] < c.idx[j] || c.idx[j - 1] == c.idx[j] && c.off[j - 1]
                        < c.off[j]);
                }
            }
        }
    }
}

/// In an accepted statement every block lies within its vector, and of any two
/// blocks of a constraint the later one names a later vector, or starts later
/// in the same one.
pub proof fn law_accepted_blocks(stmt: StatementView, compiled: u64, ci: int, i: int, j: int)
    requires
        statement_error(stmt, compiled) is None,
        0 <= ci < stmt.constraints.len(),
        0 <= i < j < stmt.constraints[ci].idx.len(),
    ensures
        ({
            let c = stmt.constraints[ci];
            &&& c.idx.len() <= 64
            &&& c.idx[j] < stmt.vectors.len()
            &&& c.off[j] + c.len[j] <= stmt.vectors[c.idx[j] as int].n
            &&& c.idx[i] < c.idx[j] || c.idx[i] == c.idx[j] && c.off[i] < c.off[j]
        }),
{
    law_statement_accepted(stmt, compiled);
    let c = stmt.constraints[ci];
    assert(form_fine(c, stmt.vectors));
    assert(c.idx[i] < stmt.vectors.len() && c.idx[j] < stmt.vectors.len());
}

/// Blocks each of which follows the one before it are in order.
proof fn order_chains(c: ConstraintView, vectors: Seq<VectorRecord>, ci: int, i: int, j: int)
    requires
        0 <= i < j < c.idx.len(),
        forall|j: int|
            0 < j < c.idx.len() ==> #[trigger] order_error(c, vectors, ci, j) is None,
    ensures
        c.idx[i] < c.idx[j] || c.idx[i] == c.idx[j] && c.off[i] < c.off[j],
    decreases j - i,
{
    assert(order_error(c, vectors, ci, j) is None);
    if i < j - 1 {
        order_chains(c, vectors, ci, i, j - 1);
    }
}

/// Block `j` of a constraint follows the block before it.
pub open spec fn follows(c: ConstraintView, j: int) -> bool {
    j > 0 ==> c.idx[j - 1] < c.idx[j] || c.idx[j - 1] == c.idx[j] && c.off[j - 1] < c.off[j]
}

/// Nothing is wrong with block `j` of a constraint.
pub open spec fn block_fine(c: ConstraintView, vectors: Seq<VectorRecord>, j: int) -> bool {
    &&& c.idx[j] < vectors.len()
    &&& follows(c, j)
    &&& c.off[j] + c.len[j] <= vectors[c.idx[j] as int].n
}

/// The blocks before block `j` of constraint `ci`, and the constraints before
/// that one, are fine.
pub open spec fn fine_before(stmt: StatementView, ci: int, j: int) -> bool {
    &&& 0 <= ci < stmt.constraints.len()
    &&& forall|i: int|
        0 <= i < ci ==> form_fine(#[trigger] stmt.constraints[i], stmt.vectors)
    &&& 1 <= stmt.constraints[ci].idx.len() <= 64
    &&& 0 <= j < stmt.constraints[ci].idx.len()
    &&& forall|i: int| 0 <= i < j ==> #[trigger] block_fine(stmt.constraints[ci], stmt.vectors, i)
}

/// An error about a statement names the first thing that is wrong with it: the
/// modulus, the totals, or the first block of the first constraint that does
/// not fit, does not follow the block before it, or exceeds its vector.
pub proof fn law_statement_error(stmt: StatementView, compiled: u64)
    requires
        stmt.constraints.len() <= usize::MAX,
        forall|i: int|
            0 <= i < stmt.constraints.len() ==> (#[trigger] stmt.constraints[i]).idx.len()
                <= usize::MAX,
    ensures
        ({
            let over_w = w_total(stmt.vectors, stmt.vectors.len() as int) > stmt.betasq_w_total;
            let over_inner = inner_total(stmt.vectors, stmt.vectors.len() as int)
                > stmt.betasq_inner_total;
            match statement_error(stmt, compiled) {
                None => true,
                Some(LabradorError::ModulusMismatch { statement, compiled: own }) => {
                    stmt.q != compiled && statement == stmt.q && own == compiled
                },
                Some(LabradorError::WTotalExceeded) => stmt.q == compiled && over_w,
                Some(LabradorError::InnerTotalExceeded) => {
                    stmt.q == compiled && !over_w && over_inner
                },
                Some(LabradorError::BlockCount { constraint, nz }) => {
                    let ci = constraint as int;
                    &&& stmt.q == compiled && !over_w && !over_inner
                    &&& ci < stmt.constraints.len()
                    &&& forall|i: int|
                        0 <= i < ci ==> form_fine(#[trigger] stmt.constraints[i], stmt.vectors)
                    &&& nz == stmt.constraints[ci].idx.len()
                    &&& nz == 0 || nz > 64
                },
                Some(LabradorError::BlockOutOfRange { constraint, block, idx }) => {
                    let c = stmt.constraints[constraint as int];
                    &&& stmt.q == compiled && !over_w && !over_inner
                    &&& fine_before(stmt, constraint as int, block as int)
                    &&& idx == c.idx[block as int]
                    &&& idx >= stmt.vectors.len()
                },
                Some(LabradorError::NotMonotone { constraint, block }) => {
                    let c = stmt.constraints[constraint as int];
                    &&& stmt.q == compiled && !over_w && !over_inner
                    &&& fine_before(stmt, constraint as int, block as int)
                    &&& block > 0
                    &&& c.idx[block as int] < c.idx[block - 1]
                    &&& c.idx[block as int] < stmt.vectors.len()
                },
                Some(LabradorError::OffsetNotIncreasing { constraint, block }) => {
                    let c = stmt.constraints[constraint as int];
                    &&& stmt.q == compiled && !over_w && !over_inner
                    &&& fine_before(stmt, constraint as int, block as int)
                    &&& block > 0
                    &&& c.idx[block as int] == c.idx[block - 1]
                    &&& c.off[block as int] <= c.off[block - 1]
                    &&& c.idx[block as int] < stmt.vectors.len()
                },
                Some(LabradorError::BlockExceedsRank { constraint, block, idx }) => {
                    let c = stmt.constraints[constraint as int];
                    &&& stmt.q == compiled && !over_w && !over_inner
                    &&& fine_before(stmt, constraint as int, block as int)
                    &&& follows(c, block as int)
                    &&& idx == c.idx[block as int]
                    &&& idx < stmt.vectors.len()
                    &&& c.off[block as int] + c.len[block as int] > stmt.vectors[idx as int].n
                },
                Some(_) => false,
            }
        }),
{
    let n = stmt.constraints.len() as int;
    let errs = |ci: int| form_error(stmt.constraints[ci], stmt.vectors, ci);
    if stmt.q == compiled && w_total(stmt.vectors, stmt.vectors.len() as int)
        <= stmt.betasq_w_total && inner_total(stmt.vectors, stmt.vectors.len() as int)
        <= stmt.betasq_inner_total && statement_error(stmt, compiled) is Some {
        let ci = law_first_error(n, errs);
        let c = stmt.constraints[ci];
        assert(errs(ci) == statement_error(stmt, compiled));
        assert forall|i: int| 0 <= i < ci implies form_fine(
            #[trigger] stmt.constraints[i],
            stmt.vectors,
        ) by {
            assert(errs(i) is None);
            form_accepted(stmt.constraints[i], stmt.vectors, i);
        }
        if 1 <= c.idx.len() <= 64 {
            let berrs = |j: int| order_error(c, stmt.vectors, ci, j);
            let j = law_first_error(c.idx.len() as int, berrs);
            assert(berrs(j) == statement_error(stmt, compiled));
            assert forall|i: int| 0 <= i < j implies #[trigger] block_fine(
                c,
                stmt.vectors,
                i,
            ) by {
                assert(berrs(i) is None);
            }
            assert(fine_before(stmt, ci, j));
        }
    }
}

/// The sum of the squares of the coefficients of a vector, modulo `2^64`.
pub open spec fn measured(v: Seq<i64>) -> int {
    sum(0, v.len() as int, |k: int| v[k] as int * v[k] as int) % 0x1_0000_0000_0000_0000
}

/// A vector is as long as announced, its coefficients are small, and its norm is
/// within its bound.
pub open spec fn vector_fine(v: VectorRecord, coeffs: Seq<i64>) -> bool {
    &&& coeffs.len() == 64 * v.n
    &&& small(coeffs)
    &&& measured(coeffs) <= v.betasq
}

/// Block `j` of a constraint lies within its vector, and there are factors for
/// it.
pub open spec fn block_backed(c: ConstraintView, vectors: Seq<VectorRecord>, j: int) -> bool {
    &&& c.idx[j] < vectors.len()
    &&& c.off[j] + c.len[j] <= vectors[c.idx[j] as int].n
    &&& phi_pos(c.len, j) + c.len[j] <= c.phi.len()
}

/// All blocks of a constraint are backed, and the witness meets it.
pub open spec fn constraint_fine(
    c: ConstraintView,
    vectors: Seq<VectorRecord>,
    wit: Seq<Seq<i64>>,
    q: u64,
) -> bool {
    &&& forall|j: int| 0 <= j < c.idx.len() ==> #[trigger] block_backed(c, vectors, j)
    &&& holds(c, wit, q)
}

/// What the self check accepts of one vector.
proof fn vector_accepted(v: VectorRecord, coeffs: Seq<i64>, i: int)
    ensures
        vector_error(v, coeffs, i) is None <==> vector_fine(v, coeffs),
        vector_error(v, coeffs, i) == Some(SelfCheckError::RankMismatch { vector: i as usize })
            <==> coeffs.len() != 64 * v.n,
        vector_error(v, coeffs, i) == Some(SelfCheckError::CoeffTooLarge { vector: i as usize })
            <==> coeffs.len() == 64 * v.n && !small(coeffs),
        vector_error(v, coeffs, i) == Some(SelfCheckError::NormExceeded { vector: i as usize })
            <==> coeffs.len() == 64 * v.n && small(coeffs) && measured(coeffs) > v.betasq,
        vector_error(v, coeffs, i) is Some ==> {
            ||| vector_error(v, coeffs, i)->Some_0 is RankMismatch
            ||| vector_error(v, coeffs, i)->Some_0 is CoeffTooLarge
            ||| vector_error(v, coeffs, i)->Some_0 is NormExceeded
        },
{
    let f = |k: int| coeffs[k] * coeffs[k];
    let g = |k: int| coeffs[k] as int * coeffs[k] as int;
    sum_ext(0, coeffs.len() as int, f, g);
    if exists|k: int| 0 <= k < coeffs.len() && crate::check::too_large(#[trigger] coeffs[k]) {
        let k = choose|k: int|
            0 <= k < coeffs.len() && crate::check::too_large(#[trigger] coeffs[k]);
        assert(!(-23170 <= coeffs[k] <= 23170));
        assert(!small(coeffs));
    } else {
        assert forall|k: int| 0 <= k < coeffs.len() implies -23170 <= #[trigger] coeffs[k]
            <= 23170 by {
            assert(!crate::check::too_large(coeffs[k]));
        }
    }
}

/// What the self check accepts of one constraint.
proof fn constraint_accepted(
    c: ConstraintView,
    vectors: Seq<VectorRecord>,
    wit: Seq<Seq<i64>>,
    q: u64,
    ci: int,
)
    ensures
        constraint_error(c, vectors, wit, q, ci) is None <==> constraint_fine(c, vectors, wit, q),
{
    let n = c.idx.len() as int;
    let errs = |j: int| block_error(c, vectors, ci, j);
    first_error_none(n, errs);
    if constraint_error(c, vectors, wit, q, ci) is None {
        assert forall|j: int| 0 <= j < n implies #[trigger] block_backed(c, vectors, j) by {
            assert(errs(j) is None);
        }
    } else if first_error(n, errs) is Some {
        let j = law_first_error(n, errs);
        assert(!block_backed(c, vectors, j));
    }
}

/// The self check passes exactly when statement and witness are over the same
/// modulus and have as many vectors, each vector is as long as announced, with
/// coefficients at most 23170 in size and a norm within its bound, the bounds
/// are within their totals, and every constraint has its factors, stays within
/// its vectors and holds.
pub proof fn law_self_check_accepted(stmt: StatementView, wq: u64, wit: Seq<Seq<i64>>, q: u64)
    ensures
        self_check_error(stmt, wq, wit, q) is None <==> {
            &&& stmt.q == wq
            &&& stmt.vectors.len() == wit.len()
            &&& forall|i: int|
                0 <= i < wit.len() ==> vector_fine(stmt.vectors[i], #[trigger] wit[i])
            &&& w_total(stmt.vectors, stmt.vectors.len() as int) <= stmt.betasq_w_total
            &&& inner_total(stmt.vectors, stmt.vectors.len() as int) <= stmt.betasq_inner_total
            &&& forall|ci: int|
                0 <= ci < stmt.constraints.len() ==> constraint_fine(
                    #[trigger] stmt.constraints[ci],
                    stmt.vectors,
                    wit,
                    q,
                )
        },
{
    let nv = stmt.vectors.len() as int;
    let nc = stmt.constraints.len() as int;
    let verrs = |i: int| vector_error(stmt.vectors[i], wit[i], i);
    let cerrs = |ci: int| constraint_error(stmt.constraints[ci], stmt.vectors, wit, q, ci);
    first_error_none(nv, verrs);
    first_error_none(nc, cerrs);
    assert forall|i: int| #[trigger] verrs(i) is None <==> vector_fine(stmt.vectors[i], wit[i]) by {
        vector_accepted(stmt.vectors[i], wit[i], i);
    }
    assert forall|ci: int| #[trigger] cerrs(ci) is None <==> constraint_fine(
        stmt.constraints[ci],
        stmt.vectors,
        wit,
        q,
    ) by {
        constraint_accepted(stmt.constraints[ci], stmt.vectors, wit, q, ci);
    }
    if self_check_error(stmt, wq, wit, q) is None {
        assert forall|i: int| 0 <= i < wit.len() implies vector_fine(
            stmt.vectors[i],
            #[trigger] wit[i],
        ) by {
            assert(verrs(i) is None);
        }
        assert forall|ci: int| 0 <= ci < nc implies constraint_fine(
            #[trigger] stmt.constraints[ci],
            stmt.vectors,
            wit,
            q,
        ) by {
            assert(cerrs(ci) is None);
        }
    } else if stmt.q == wq && nv == wit.len() {
        if first_error(nv, verrs) is Some {
            let i = law_first_error(nv, verrs);
            assert(!vector_fine(stmt.vectors[i], wit[i]));
        } else if first_error(nc, cerrs) is Some {
            let ci = law_first_error(nc, cerrs);
            assert(!constraint_fine(stmt.constraints[ci], stmt.vectors, wit, q));
        }
    }
}

/// All vectors before vector `v` are fine.
pub open spec fn vectors_fine(stmt: StatementView, wit: Seq<Seq<i64>>, v: int) -> bool {
    &&& stmt.vectors.len() == wit.len()
    &&& v <= wit.len()
    &&& forall|i: int| 0 <= i < v ==> vector_fine(stmt.vectors[i], #[trigger] wit[i])
}

/// All vectors are fine, as are the constraints before constraint `ci` and the
/// blocks before block `j` of that one.
pub open spec fn backed_before(
    stmt: StatementView,
    wit: Seq<Seq<i64>>,
    q: u64,
    ci: int,
    j: int,
) -> bool {
    &&& vectors_fine(stmt, wit, wit.len() as int)
    &&& w_total(stmt.vectors, stmt.vectors.len() as int) <= stmt.betasq_w_total
    &&& inner_total(stmt.vectors, stmt.vectors.len() as int) <= stmt.betasq_inner_total
    &&& 0 <= ci < stmt.constraints.len()
    &&& forall|i: int|
        0 <= i < ci ==> constraint_fine(#[trigger] stmt.constraints[i], stmt.vectors, wit, q)
    &&& 0 <= j <= stmt.constraints[ci].idx.len()
    &&& forall|i: int|
        0 <= i < j ==> #[trigger] block_backed(stmt.constraints[ci], stmt.vectors, i)
}

/// An error of the self check names the first thing that is wrong, the vectors
/// being looked at before the totals, and the totals before the constraints.
pub proof fn law_self_check_error(stmt: StatementView, wq: u64, wit: Seq<Seq<i64>>, q: u64)
    requires
        stmt.vectors.len() <= usize::MAX,
        stmt.constraints.len() <= usize::MAX,
        forall|i: int|
            0 <= i < stmt.constraints.len() ==> (#[trigger] stmt.constraints[i]).idx.len()
                <= usize::MAX,
    ensures
        self_check_error(stmt, wq, wit, q) is Some && !(self_check_error(stmt, wq, wit, q)
            == Some(SelfCheckError::ModulusMismatch)) ==> stmt.q == wq,
        match self_check_error(stmt, wq, wit, q) {
            None => true,
            Some(SelfCheckError::ModulusMismatch) => stmt.q != wq,
            Some(SelfCheckError::VectorCountMismatch) => stmt.vectors.len() != wit.len(),
            Some(SelfCheckError::RankMismatch { vector }) => {
                &&& vector < wit.len()
                &&& vectors_fine(stmt, wit, vector as int)
                &&& wit[vector as int].len() != 64 * stmt.vectors[vector as int].n
            },
            Some(SelfCheckError::CoeffTooLarge { vector }) => {
                &&& vector < wit.len()
                &&& vectors_fine(stmt, wit, vector as int)
                &&& wit[vector as int].len() == 64 * stmt.vectors[vector as int].n
                &&& !small(wit[vector as int])
            },
            Some(SelfCheckError::NormExceeded { vector }) => {
                &&& vector < wit.len()
                &&& vectors_fine(stmt, wit, vector as int)
                &&& wit[vector as int].len() == 64 * stmt.vectors[vector as int].n
                &&& small(wit[vector as int])
                &&& measured(wit[vector as int]) > stmt.vectors[vector as int].betasq
            },
            Some(SelfCheckError::WTotalExceeded) => {
                &&& vectors_fine(stmt, wit, wit.len() as int)
                &&& w_total(stmt.vectors, stmt.vectors.len() as int) > stmt.betasq_w_total
            },
            Some(SelfCheckError::InnerTotalExceeded) => {
                &&& vectors_fine(stmt, wit, wit.len() as int)
                &&& w_total(stmt.vectors, stmt.vectors.len() as int) <= stmt.betasq_w_total
                &&& inner_total(stmt.vectors, stmt.vectors.len() as int) > stmt.betasq_inner_total
            },
            Some(SelfCheckError::BlockOutOfRange { constraint, block }) => {
                let c = stmt.constraints[constraint as int];
                &&& backed_before(stmt, wit, q, constraint as int, block as int)
                &&& block < c.idx.len()
                &&& c.idx[block as int] >= stmt.vectors.len()
            },
            Some(SelfCheckError::BlockExceedsRank { constraint, block }) => {
                let c = stmt.constraints[constraint as int];
                &&& backed_before(stmt, wit, q, constraint as int, block as int)
                &&& block < c.idx.len()
                &&& c.idx[block as int] < stmt.vectors.len()
                &&& c.off[block as int] + c.len[block as int]
                    > stmt.vectors[c.idx[block as int] as int].n
            },
            Some(SelfCheckError::FactorsMissing { constraint, block }) => {
                let c = stmt.constraints[constraint as int];
                &&& backed_before(stmt, wit, q, constraint as int, block as int)
                &&& block < c.idx.len()
                &&& c.idx[block as int] < stmt.vectors.len()
                &&& c.off[block as int] + c.len[block as int]
                    <= stmt.vectors[c.idx[block as int] as int].n
                &&& phi_pos(c.len, block as int) + c.len[block as int] > c.phi.len()
            },
            Some(SelfCheckError::Unsatisfied { constraint }) => {
                let c = stmt.constraints[constraint as int];
                &&& backed_before(stmt, wit, q, constraint as int, c.idx.len() as int)
                &&& !holds(c, wit, q)
            },
        },
{
    let nv = stmt.vectors.len() as int;
    let nc = stmt.constraints.len() as int;
    let verrs = |i: int| vector_error(stmt.vectors[i], wit[i], i);
    let cerrs = |ci: int| constraint_error(stmt.constraints[ci], stmt.vectors, wit, q, ci);
    first_error_none(nv, verrs);
    let found = self_check_error(stmt, wq, wit, q);
    if stmt.q == wq && nv == wit.len() && found is Some {
        if first_error(nv, verrs) is Some {
            let v = law_first_error(nv, verrs);
            assert(verrs(v) == found);
            vector_accepted(stmt.vectors[v], wit[v], v);
            assert forall|i: int| 0 <= i < v implies vector_fine(
                stmt.vectors[i],
                #[trigger] wit[i],
            ) by {
                assert(verrs(i) is None);
                vector_accepted(stmt.vectors[i], wit[i], i);
            }
            assert(vectors_fine(stmt, wit, v));
        } else {
            assert forall|i: int| 0 <= i < nv implies vector_fine(
                stmt.vectors[i],
                #[trigger] wit[i],
            ) by {
                assert(verrs(i) is None);
                vector_accepted(stmt.vectors[i], wit[i], i);
            }
            assert(vectors_fine(stmt, wit, nv));
            if w_total(stmt.vectors, nv) <= stmt.betasq_w_total && inner_total(stmt.vectors, nv)
                <= stmt.betasq_inner_total {
                let ci = law_first_error(nc, cerrs);
                assert(cerrs(ci) == found);
                let c = stmt.constraints[ci];
                assert forall|i: int| 0 <= i < ci implies constraint_fine(
                    #[trigger] stmt.constraints[i],
                    stmt.vectors,
                    wit,
                    q,
                ) by {
                    assert(cerrs(i) is None);
                    constraint_accepted(stmt.constraints[i], stmt.vectors, wit, q, i);
                }
                let berrs = |j: int| block_error(c, stmt.vectors, ci, j);
                first_error_none(c.idx.len() as int, berrs);
                if first_error(c.idx.len() as int, berrs) is Some {
                    let j = law_first_error(c.idx.len() as int, berrs);
                    assert(berrs(j) == found);
                    assert forall|i: int| 0 <= i < j implies #[trigger] block_backed(
                        c,
                        stmt.vectors,
                        i,
                    ) by {
                        assert(berrs(i) is None);
                    }
                    assert(backed_before(stmt, wit, q, ci, j));
                } else {
                    assert forall|i: int| 0 <= i < c.idx.len() implies #[trigger] block_backed(
                        c,
                        stmt.vectors,
                        i,
                    ) by {
                        assert(berrs(i) is None);
                    }
                    assert(backed_before(stmt, wit, q, ci, c.idx.len() as int));
                }
            }
        }
    }
}

} // verus!
