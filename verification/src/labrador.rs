//! The LaBRADOR side: what a statement and a witness must look like before
//! they are handed to the prover, and the order in which the prover's and the
//! verifier's steps are taken.

use crate::acceptance::{form_fine, law_statement_accepted, law_witness_accepted};
use crate::check::{
    betasq_totals, exceeds_bound, first_error, first_error_none, first_error_stays, inner_total,
    listed, self_check_error, too_large, vector_error, w_total, WITNESS_COEFF_MAX,
};
use crate::handover::law_flat_signed;
use crate::r64::{signed, word_as_signed, R64};
use crate::statement::{
    ConstraintSpec, ConstraintView, Statement, StatementView, VectorRecord, Witness,
};
use crate::text::{decimal, push_code, push_number, signed_decimal};
use vstd::prelude::*;

verus! {

/// Why a proof is not made or not accepted.
#[derive(Clone, Copy, Debug, PartialEq, Eq)]
pub enum LabradorError {
    /// The statement is over another modulus than the prover.
    ModulusMismatch { statement: u64, compiled: u64 },
    /// The norm bounds of the witness vectors exceed their total.
    WTotalExceeded,
    /// The norm bounds of the inner vectors exceed their total.
    InnerTotalExceeded,
    /// A constraint has no blocks, or more than 64.
    BlockCount { constraint: usize, nz: usize },
    /// A block names a vector that does not exist.
    BlockOutOfRange { constraint: usize, block: usize, idx: usize },
    /// A block names an earlier vector than the block before it.
    NotMonotone { constraint: usize, block: usize },
    /// A block does not start after the block before it in its vector.
    OffsetNotIncreasing { constraint: usize, block: usize },
    /// A block exceeds its vector.
    BlockExceedsRank { constraint: usize, block: usize, idx: usize },
    /// Statement and witness have different numbers of vectors.
    VectorCountMismatch,
    /// A vector does not have 64 coefficients for each element.
    CoefficientCount { vector: usize },
    /// A coefficient is too large.
    CoeffTooLarge { vector: usize, magnitude: u64 },
    /// There is no memory for the statement.
    StatementMemory,
    /// The statement was not initialised.
    InitStatement { code: i32 },
    /// There is no memory for the witness.
    WitnessMemory,
    /// A witness vector was not taken.
    SetVector { vector: usize, code: i32 },
    /// A witness vector exceeds its norm bound.
    NormExceeded { vector: usize, normsq: u64, betasq: u64 },
    /// The witness does not meet the statement.
    SimpleVerify { code: i32 },
    /// There is no memory for the proof.
    ProofMemory,
    /// The proof was not made.
    CompositeProve { code: i32 },
    /// The proof was not accepted.
    CompositeVerify { code: i32 },
}

/// The text of an error.
pub open spec fn message_text(e: LabradorError) -> Seq<char> {
    match e {
        LabradorError::ModulusMismatch { statement, compiled } => "statement q "@ + decimal(
            statement as int,
        ) + " does not match compiled modulus "@ + decimal(compiled as int),
        LabradorError::WTotalExceeded => "sum betasq (role 0) exceeds betasq_w_total"@,
        LabradorError::InnerTotalExceeded => "sum betasq (INNER) exceeds betasq_inner_total"@,
        LabradorError::BlockCount { constraint, nz } => "constraint "@ + decimal(constraint as int)
            + ": nz "@ + decimal(nz as int) + " out of range"@,
        LabradorError::BlockOutOfRange { constraint, block, idx } => "constraint "@ + decimal(
            constraint as int,
        ) + ": block "@ + decimal(block as int) + " idx "@ + decimal(idx as int)
            + " out of range"@,
        LabradorError::NotMonotone { constraint, block } => "constraint "@ + decimal(
            constraint as int,
        ) + ": block "@ + decimal(block as int) + " idx not monotone"@,
        LabradorError::OffsetNotIncreasing { constraint, block } => "constraint "@ + decimal(
            constraint as int,
        ) + ": block "@ + decimal(block as int) + " offset not strictly increasing"@,
        LabradorError::BlockExceedsRank { constraint, block, idx } => "constraint "@ + decimal(
            constraint as int,
        ) + ": block "@ + decimal(block as int) + " off+len exceeds vector "@ + decimal(idx as int)
            + " rank"@,
        LabradorError::VectorCountMismatch => "statement/witness vector count mismatch"@,
        LabradorError::CoefficientCount { vector } => "vector "@ + decimal(vector as int)
            + ": witness coefficient count mismatch"@,
        LabradorError::CoeffTooLarge { vector, magnitude } => "vector "@ + decimal(vector as int)
            + ": |coeff| = "@ + decimal(magnitude as int) + " exceeds "@ + decimal(
            WITNESS_COEFF_MAX as int,
        ),
        LabradorError::StatementMemory => "out of memory allocating smplstmnt"@,
        LabradorError::InitStatement { code } => "init_smplstmnt_raw failed with code "@
            + signed_decimal(code as int),
        LabradorError::WitnessMemory => "out of memory allocating witness"@,
        LabradorError::SetVector { vector, code } => "set_witness_vector_raw failed for vector "@
            + decimal(vector as int) + " with code "@ + signed_decimal(code as int),
        LabradorError::NormExceeded { vector, normsq, betasq } => "witness vector "@ + decimal(
            vector as int,
        ) + " recomputed normsq "@ + decimal(normsq as int) + " exceeds statement betasq "@
            + decimal(betasq as int),
        LabradorError::SimpleVerify { code } => "simple_verify: FAIL (code "@ + signed_decimal(
            code as int,
        ) + ")"@,
        LabradorError::ProofMemory => "out of memory allocating composite/commitment"@,
        LabradorError::CompositeProve { code } => "composite_prove_simple: FAIL (code "@
            + signed_decimal(code as int) + ")"@,
        LabradorError::CompositeVerify { code } => "composite_verify_simple: FAIL (code "@
            + signed_decimal(code as int) + ")"@,
    }
}

/// Appends `constraint {constraint}: block {block}`.
fn push_block(s: &mut String, constraint: usize, block: usize)
    ensures
        final(s)@ == old(s)@ + "constraint "@ + decimal(constraint as int) + ": block "@ + decimal(
            block as int,
        ),
{
    s.push_str("constraint ");
    push_number(s, constraint as u64);
    s.push_str(": block ");
    push_number(s, block as u64);
}

impl LabradorError {
    /// The text of the error.
    pub fn message(&self) -> (r: String)
        ensures
            r@ == message_text(*self),
    {
        let mut s = String::new();
        match *self {
            LabradorError::ModulusMismatch { statement, compiled } => {
                s.push_str("statement q ");
                push_number(&mut s, statement);
                s.push_str(" does not match compiled modulus ");
                push_number(&mut s, compiled);
            },
            LabradorError::WTotalExceeded => {
                s.push_str("sum betasq (role 0) exceeds betasq_w_total");
            },
            LabradorError::InnerTotalExceeded => {
                s.push_str("sum betasq (INNER) exceeds betasq_inner_total");
            },
            LabradorError::BlockCount { constraint, nz } => {
                s.push_str("constraint ");
                push_number(&mut s, constraint as u64);
                s.push_str(": nz ");
                push_number(&mut s, nz as u64);
                s.push_str(" out of range");
            },
            LabradorError::BlockOutOfRange { constraint, block, idx } => {
                push_block(&mut s, constraint, block);
                s.push_str(" idx ");
                push_number(&mut s, idx as u64);
                s.push_str(" out of range");
            },
            LabradorError::NotMonotone { constraint, block } => {
                push_block(&mut s, constraint, block);
                s.push_str(" idx not monotone");
            },
            LabradorError::OffsetNotIncreasing { constraint, block } => {
                push_block(&mut s, constraint, block);
                s.push_str(" offset not strictly increasing");
            },
            LabradorError::BlockExceedsRank { constraint, block, idx } => {
                push_block(&mut s, constraint, block);
                s.push_str(" off+len exceeds vector ");
                push_number(&mut s, idx as u64);
                s.push_str(" rank");
            },
            LabradorError::VectorCountMismatch => {
                s.push_str("statement/witness vector count mismatch");
            },
            LabradorError::CoefficientCount { vector } => {
                s.push_str("vector ");
                push_number(&mut s, vector as u64);
                s.push_str(": witness coefficient count mismatch");
            },
            LabradorError::CoeffTooLarge { vector, magnitude } => {
                s.push_str("vector ");
                push_number(&mut s, vector as u64);
                s.push_str(": |coeff| = ");
                push_number(&mut s, magnitude);
                s.push_str(" exceeds ");
                push_number(&mut s, WITNESS_COEFF_MAX as u64);
            },
            LabradorError::StatementMemory => {
                s.push_str("out of memory allocating smplstmnt");
            },
            LabradorError::InitStatement { code } => {
                s.push_str("init_smplstmnt_raw failed with code ");
                push_code(&mut s, code);
            },
            LabradorError::WitnessMemory => {
                s.push_str("out of memory allocating witness");
            },
            LabradorError::SetVector { vector, code } => {
                s.push_str("set_witness_vector_raw failed for vector ");
                push_number(&mut s, vector as u64);
                s.push_str(" with code ");
                push_code(&mut s, code);
            },
            LabradorError::NormExceeded { vector, normsq, betasq } => {
                s.push_str("witness vector ");
                push_number(&mut s, vector as u64);
                s.push_str(" recomputed normsq ");
                push_number(&mut s, normsq);
                s.push_str(" exceeds statement betasq ");
                push_number(&mut s, betasq);
            },
            LabradorError::SimpleVerify { code } => {
                s.push_str("simple_verify: FAIL (code ");
                push_code(&mut s, code);
                s.push_str(")");
            },
            LabradorError::ProofMemory => {
                s.push_str("out of memory allocating composite/commitment");
            },
            LabradorError::CompositeProve { code } => {
                s.push_str("composite_prove_simple: FAIL (code ");
                push_code(&mut s, code);
                s.push_str(")");
            },
            LabradorError::CompositeVerify { code } => {
                s.push_str("composite_verify_simple: FAIL (code ");
                push_code(&mut s, code);
                s.push_str(")");
            },
        }
        assert(s@ =~= message_text(*self));
        s
    }
}

/// Number of commitment key elements to expand ahead for a witness of
/// `total_rank` elements: half as many again, rounded up to a multiple of 32.
pub fn precomputed_len_for_rank(total_rank: usize) -> (r: usize)
    requires
        total_rank * 3 <= usize::MAX,
    ensures
        r % 32 == 0,
        total_rank * 3 / 2 <= r < total_rank * 3 / 2 + 32,
{
    let scaled: usize = total_rank * 3 / 2;
    let groups: usize = if scaled % 32 == 0 {
        scaled / 32
    } else {
        scaled / 32 + 1
    };
    groups * 32
}

/// What is wrong with block `j` of constraint `ci`.
pub open spec fn order_error(
    c: ConstraintView,
    vectors: Seq<VectorRecord>,
    ci: int,
    j: int,
) -> Option<LabradorError> {
    let vi = c.idx[j];
    if vi >= vectors.len() {
        Some(
            LabradorError::BlockOutOfRange {
                constraint: ci as usize,
                block: j as usize,
                idx: vi,
            },
        )
    } else if j > 0 && vi < c.idx[j - 1] {
        Some(LabradorError::NotMonotone { constraint: ci as usize, block: j as usize })
    } else if j > 0 && vi == c.idx[j - 1] && c.off[j] <= c.off[j - 1] {
        Some(LabradorError::OffsetNotIncreasing { constraint: ci as usize, block: j as usize })
    } else if c.off[j] + c.len[j] > vectors[vi as int].n {
        Some(
            LabradorError::BlockExceedsRank {
                constraint: ci as usize,
                block: j as usize,
                idx: vi,
            },
        )
    } else {
        None
    }
}

/// What is wrong with the form of constraint `ci`.
pub open spec fn form_error(c: ConstraintView, vectors: Seq<VectorRecord>, ci: int) -> Option<
    LabradorError,
> {
    if c.idx.len() == 0 || c.idx.len() > 64 {
        Some(LabradorError::BlockCount { constraint: ci as usize, nz: c.idx.len() as usize })
    } else {
        first_error(c.idx.len() as int, |j: int| order_error(c, vectors, ci, j))
    }
}

/// The first thing that is wrong with a statement for a prover compiled for
/// the modulus `compiled`.
pub open spec fn statement_error(stmt: StatementView, compiled: u64) -> Option<LabradorError> {
    let nvec = stmt.vectors.len() as int;
    if stmt.q != compiled {
        Some(LabradorError::ModulusMismatch { statement: stmt.q, compiled })
    } else if w_total(stmt.vectors, nvec) > stmt.betasq_w_total {
        Some(LabradorError::WTotalExceeded)
    } else if inner_total(stmt.vectors, nvec) > stmt.betasq_inner_total {
        Some(LabradorError::InnerTotalExceeded)
    } else {
        first_error(
            stmt.constraints.len() as int,
            |ci: int| form_error(stmt.constraints[ci], stmt.vectors, ci),
        )
    }
}

/// The size of a number.
pub open spec fn magnitude(c: i64) -> int {
    if c < 0 {
        -(c as int)
    } else {
        c as int
    }
}

/// What is wrong with coefficient `k` of vector `i`.
pub open spec fn coeff_error(coeffs: Seq<i64>, i: int, k: int) -> Option<LabradorError> {
    if too_large(coeffs[k]) {
        Some(
            LabradorError::CoeffTooLarge {
                vector: i as usize,
                magnitude: magnitude(coeffs[k]) as u64,
            },
        )
    } else {
        None
    }
}

/// What is wrong with vector `i`.
pub open spec fn coeffs_error(v: VectorRecord, coeffs: Seq<i64>, i: int) -> Option<LabradorError> {
    if coeffs.len() != v.n * 64 {
        Some(LabradorError::CoefficientCount { vector: i as usize })
    } else {
        first_error(coeffs.len() as int, |k: int| coeff_error(coeffs, i, k))
    }
}

/// The first thing that is wrong with a witness for a statement.
pub open spec fn witness_error(stmt: StatementView, wit: Seq<Seq<i64>>) -> Option<LabradorError> {
    if stmt.vectors.len() != wit.len() {
        Some(LabradorError::VectorCountMismatch)
    } else {
        first_error(
            stmt.vectors.len() as int,
            |i: int| coeffs_error(stmt.vectors[i], wit[i], i),
        )
    }
}

/// Checks the form of constraint `ci`.
fn check_form(c: &ConstraintSpec, vectors: &Vec<VectorRecord>, ci: usize) -> (r: Result<
    (),
    LabradorError,
>)
    requires
        listed(c@),
    ensures
        match r {
            Ok(_) => form_error(c@, vectors@, ci as int) is None,
            Err(e) => form_error(c@, vectors@, ci as int) == Some(e),
        },
{
    let nz: usize = c.idx.len();
    if nz == 0 || nz > 64 {
        return Err(LabradorError::BlockCount { constraint: ci, nz });
    }
    let ghost cv = c@;
    let ghost errs = |j: int| order_error(cv, vectors@, ci as int, j);
    for j in 0..nz
        invariant
            cv == c@,
            listed(cv),
            nz == cv.idx.len(),
            1 <= nz <= 64,
            errs == (|j: int| order_error(cv, vectors@, ci as int, j)),
            first_error(j as int, errs) is None,
    {
        let vi: usize = c.idx[j];
        proof {
            if first_error(j + 1, errs) is Some {
                first_error_stays(j + 1, nz as int, errs);
            }
        }
        if vi >= vectors.len() {
            return Err(LabradorError::BlockOutOfRange { constraint: ci, block: j, idx: vi });
        }
        if j > 0 {
            if vi < c.idx[j - 1] {
                return Err(LabradorError::NotMonotone { constraint: ci, block: j });
            }
            if vi == c.idx[j - 1] && c.off[j] <= c.off[j - 1] {
                return Err(LabradorError::OffsetNotIncreasing { constraint: ci, block: j });
            }
        }
        let n: usize = vectors[vi].n;
        if c.off[j] > n || c.len[j] > n - c.off[j] {
            return Err(LabradorError::BlockExceedsRank { constraint: ci, block: j, idx: vi });
        }
    }
    Ok(())
}

/// Checks that a statement can be handed to a prover compiled for the modulus
/// `compiled`.
pub fn check_statement(stmt: &Statement, compiled: u64) -> (r: Result<(), LabradorError>)
    requires
        forall|i: int| 0 <= i < stmt@.constraints.len() ==> listed(#[trigger] stmt@.constraints[i]),
    ensures
        match r {
            Ok(_) => statement_error(stmt@, compiled) is None,
            Err(e) => statement_error(stmt@, compiled) == Some(e),
        },
        r is Ok <==> {
            &&& stmt.q == compiled
            &&& w_total(stmt@.vectors, stmt@.vectors.len() as int) <= stmt.betasq_w_total
            &&& inner_total(stmt@.vectors, stmt@.vectors.len() as int) <= stmt.betasq_inner_total
            &&& forall|ci: int|
                0 <= ci < stmt@.constraints.len() ==> form_fine(
                    #[trigger] stmt@.constraints[ci],
                    stmt@.vectors,
                )
        },
{
    proof {
        law_statement_accepted(stmt@, compiled);
    }
    if stmt.q != compiled {
        return Err(LabradorError::ModulusMismatch { statement: stmt.q, compiled });
    }
    let (role0_sum, inner_sum) = betasq_totals(&stmt.vectors);
    if role0_sum > stmt.betasq_w_total as u128 {
        return Err(LabradorError::WTotalExceeded);
    }
    if inner_sum > stmt.betasq_inner_total as u128 {
        return Err(LabradorError::InnerTotalExceeded);
    }
    let ghost sv = stmt@;
    let ghost errs = |ci: int| form_error(sv.constraints[ci], sv.vectors, ci);
    for ci in 0..stmt.constraints.len()
        invariant
            sv == stmt@,
            stmt.q == compiled,
            w_total(sv.vectors, sv.vectors.len() as int) <= sv.betasq_w_total,
            inner_total(sv.vectors, sv.vectors.len() as int) <= sv.betasq_inner_total,
            forall|i: int| 0 <= i < sv.constraints.len() ==> listed(#[trigger] sv.constraints[i]),
            errs == (|ci: int| form_error(sv.constraints[ci], sv.vectors, ci)),
            first_error(ci as int, errs) is None,
    {
        assert(listed(sv.constraints[ci as int]));
        match check_form(&stmt.constraints[ci], &stmt.vectors, ci) {
            Ok(_) => {},
            Err(e) => {
                proof {
                    first_error_stays(ci + 1, sv.constraints.len() as int, errs);
                    law_statement_accepted(sv, compiled);
                }
                return Err(e);
            },
        }
    }
    Ok(())
}

/// Checks the coefficients of vector `i`.
fn check_coeffs(v: &VectorRecord, coeffs: &Vec<i64>, i: usize) -> (r: Result<(), LabradorError>)
    ensures
        match r {
            Ok(_) => coeffs_error(*v, coeffs@, i as int) is None,
            Err(e) => coeffs_error(*v, coeffs@, i as int) == Some(e),
        },
{
    if coeffs.len() % 64 != 0 || coeffs.len() / 64 != v.n {
        return Err(LabradorError::CoefficientCount { vector: i });
    }
    let ghost errs = |k: int| coeff_error(coeffs@, i as int, k);
    for k in 0..coeffs.len()
        invariant
            coeffs@.len() == v.n * 64,
            errs == (|k: int| coeff_error(coeffs@, i as int, k)),
            first_error(k as int, errs) is None,
    {
        let c: i64 = coeffs[k];
        if exceeds_bound(c) {
            let size: u64 = if c < 0 {
                (-(c as i128)) as u64
            } else {
                c as u64
            };
            proof {
                first_error_stays(k + 1, coeffs@.len() as int, errs);
            }
            return Err(LabradorError::CoeffTooLarge { vector: i, magnitude: size });
        }
    }
    Ok(())
}

/// Checks that a witness has the form that a statement announces.
pub fn check_witness(stmt: &Statement, wit: &Witness) -> (r: Result<(), LabradorError>)
    ensures
        match r {
            Ok(_) => witness_error(stmt@, wit@) is None,
            Err(e) => witness_error(stmt@, wit@) == Some(e),
        },
        r is Ok <==> {
            &&& wit@.len() == stmt@.vectors.len()
            &&& forall|i: int|
                0 <= i < wit@.len() ==> (#[trigger] wit@[i]).len() == 64 * stmt@.vectors[i].n
            &&& forall|i: int, k: int|
                0 <= i < wit@.len() && 0 <= k < wit@[i].len() ==> -23170 <= #[trigger] wit@[i][k]
                    <= 23170
        },
{
    proof {
        law_witness_accepted(stmt@, wit@);
    }
    if stmt.vectors.len() != wit.vectors.len() {
        return Err(LabradorError::VectorCountMismatch);
    }
    let ghost sv = stmt@;
    let ghost errs = |i: int| coeffs_error(sv.vectors[i], wit@[i], i);
    for i in 0..stmt.vectors.len()
        invariant
            sv == stmt@,
            stmt.vectors@.len() == wit@.len(),
            errs == (|i: int| coeffs_error(sv.vectors[i], wit@[i], i)),
            first_error(i as int, errs) is None,
    {
        assert(wit@[i as int] == wit.vectors@[i as int]@);
        match check_coeffs(&stmt.vectors[i], &wit.vectors[i], i) {
            Ok(_) => {},
            Err(e) => {
                proof {
                    first_error_stays(i + 1, sv.vectors.len() as int, errs);
                    law_witness_accepted(sv, wit@);
                }
                return Err(e);
            },
        }
    }
    Ok(())
}

/// The coefficients of a list of elements, one after the other, as signed
/// numbers.
pub open spec fn flat_signed(els: Seq<Seq<u64>>) -> Seq<i64> {
    Seq::new(64 * els.len(), |i: int| signed(els[i / 64][i % 64]) as i64)
}

/// A constraint in the form in which it is handed over: its factors, and its
/// right-hand side if it has one, as flat lists of signed coefficients.
pub struct RawConstraint {
    pub b: Option<Vec<i64>>,
    pub phi: Vec<i64>,
}

/// Appends the coefficients of an element.
fn push_signed(out: &mut Vec<i64>, e: &R64, Ghost(done): Ghost<Seq<Seq<u64>>>)
    requires
        old(out)@ == flat_signed(done),
    ensures
        final(out)@ == flat_signed(done.push(e@)),
{
    let ghost goal = flat_signed(done.push(e@));
    let n: usize = out.len();
    assert(n == 64 * done.len());
    assert forall|i: int| 0 <= i < n implies goal[i] == out@[i] by {
        assert(i / 64 < done.len());
    }
    for k in 0..64usize
        invariant
            goal == flat_signed(done.push(e@)),
            n == 64 * done.len(),
            out@.len() == n + k,
            forall|i: int| 0 <= i < out@.len() ==> #[trigger] out@[i] == goal[i],
    {
        let x: u64 = e[k];
        proof {
            word_as_signed(x);
            assert((n + k) / 64 == done.len());
            assert((n + k) % 64 == k);
        }
        out.push(x as i64);
    }
    assert(out@ =~= goal);
}

/// Flattens a constraint.
pub fn raw_constraint(c: &ConstraintSpec) -> (r: RawConstraint)
    ensures
        r.phi@ == flat_signed(c@.phi),
        match (r.b, c@.b) {
            (Some(v), Some(e)) => v@ == flat_signed(seq![e]),
            (None, None) => true,
            _ => false,
        },
        r.phi@.len() == 64 * c@.phi.len(),
        forall|i: int, k: int|
            0 <= i < c@.phi.len() && 0 <= k < 64 && #[trigger] c@.phi[i][k] <= i64::MAX
                ==> r.phi@[64 * i + k] == c@.phi[i][k],
        r.b is Some ==> r.b->Some_0@.len() == 64,
        r.b is Some ==> forall|k: int|
            0 <= k < 64 && #[trigger] c@.b->Some_0[k] <= i64::MAX ==> r.b->Some_0@[k]
                == c@.b->Some_0[k],
{
    let ghost cv = c@;
    let mut phi: Vec<i64> = Vec::new();
    assert(phi@ =~= flat_signed(cv.phi.take(0)));
    for i in 0..c.phi.len()
        invariant
            cv == c@,
            phi@ == flat_signed(cv.phi.take(i as int)),
    {
        push_signed(&mut phi, &c.phi[i], Ghost(cv.phi.take(i as int)));
        assert(cv.phi.take(i + 1) =~= cv.phi.take(i as int).push(cv.phi[i as int]));
    }
    assert(cv.phi.take(cv.phi.len() as int) =~= cv.phi);
    let b: Option<Vec<i64>> = match &c.b {
        Some(e) => {
            let mut v: Vec<i64> = Vec::new();
            let ghost none = Seq::<Seq<u64>>::empty();
            assert(v@ =~= flat_signed(none));
            push_signed(&mut v, e, Ghost(none));
            assert(none.push(e@) =~= seq![e@]);
            Some(v)
        },
        None => None,
    };
    proof {
        assert forall|i: int, k: int|
            0 <= i < cv.phi.len() && 0 <= k < 64 && #[trigger] cv.phi[i][k]
                <= i64::MAX implies phi@[64 * i + k] == cv.phi[i][k] by {
            law_flat_signed(cv.phi, i, k);
        }
        if cv.b is Some {
            let e = cv.b->Some_0;
            assert forall|k: int| 0 <= k < 64 && #[trigger] e[k] <= i64::MAX implies b->Some_0@[k]
                == e[k] by {
                law_flat_signed(seq![e], 0, k);
            }
        }
    }
    RawConstraint { b, phi }
}

/// The lengths of the vectors of a statement.
pub fn vector_lengths(stmt: &Statement) -> (r: Vec<usize>)
    ensures
        r@ == stmt@.vectors.map_values(|v: VectorRecord| v.n),
{
    let mut out: Vec<usize> = Vec::new();
    for i in 0..stmt.vectors.len()
        invariant
            out@.len() == i,
            forall|k: int| 0 <= k < i ==> #[trigger] out@[k] == stmt.vectors@[k].n,
    {
        out.push(stmt.vectors[i].n);
    }
    assert(out@ =~= stmt@.vectors.map_values(|v: VectorRecord| v.n));
    out
}

/// The norm bounds of the vectors of a statement.
pub fn norm_bounds(stmt: &Statement) -> (r: Vec<u64>)
    ensures
        r@ == stmt@.vectors.map_values(|v: VectorRecord| v.betasq),
{
    let mut out: Vec<u64> = Vec::new();
    for i in 0..stmt.vectors.len()
        invariant
            out@.len() == i,
            forall|k: int| 0 <= k < i ==> #[trigger] out@[k] == stmt.vectors@[k].betasq,
    {
        out.push(stmt.vectors[i].betasq);
    }
    assert(out@ =~= stmt@.vectors.map_values(|v: VectorRecord| v.betasq));
    out
}

/// A witness that passes the self check has the form that the prover asks for.
pub proof fn law_self_checked_witness_accepted(
    stmt: StatementView,
    wq: u64,
    wit: Seq<Seq<i64>>,
    q: u64,
)
    requires
        self_check_error(stmt, wq, wit, q) is None,
    ensures
        witness_error(stmt, wit) is None,
{
    let n = stmt.vectors.len() as int;
    let verr = |i: int| vector_error(stmt.vectors[i], wit[i], i);
    let errs = |i: int| coeffs_error(stmt.vectors[i], wit[i], i);
    first_error_none(n, verr);
    assert forall|i: int| 0 <= i < n implies #[trigger] errs(i) is None by {
        assert(verr(i) is None);
        let kerr = |k: int| coeff_error(wit[i], i, k);
        first_error_none(wit[i].len() as int, kerr);
        assert forall|k: int| 0 <= k < wit[i].len() implies #[trigger] kerr(k) is None by {
            assert(!too_large(wit[i][k]));
        }
    }
    first_error_none(n, errs);
}

} // verus!
