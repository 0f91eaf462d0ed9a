//! What the entry points return: on which boundaries an export succeeds or
//! fails, and with which error.

use crate::acceptance::{law_first_error, measured};
use crate::check::{first_error, first_error_none, self_check_error, SelfCheckError};
use crate::codec::{parse_statement, parse_witness, DecodeError};
use crate::config::{round_at, shape_of, Config, SumcheckConfig};
use crate::export::{
    c1_of, honest0, honest1, pair_error, prover_result, record_error, statement_for, the_layout,
    verifier_result, w_bound, witness_for, BoundaryView, ExportError, PairError, ProverView,
};
use crate::labrador::{statement_error, witness_error, LabradorError};
use crate::layout::vector_spec;
use crate::relation::inner_digits;
use crate::session::{answers, begin_error, reply_error, session, step_at, Reply, Step, Task};
use crate::soundness::sum_sq_add;
use crate::statement::{StatementView, VectorRecord};
use crate::sums::sum_ext;
use crate::witness::{coeffs_of, low_word, sum_sq, ydec_elements};
use vstd::prelude::*;

verus! {

/// What is measured of a vector is the sum of its squares modulo `2^64`.
proof fn measured_is_low_word(v: Seq<i64>)
    ensures
        measured(v) == low_word(sum_sq(v)),
{
    sum_ext(
        0,
        v.len() as int,
        |k: int| v[k] as int * v[k] as int,
        |k: int| v[k] * v[k],
    );
}

/// The prover announces for vector 0 what is measured of it, or one if that is
/// zero.
pub proof fn law_announced_bound_of_vector_0(c: SumcheckConfig, p: ProverView, q: u64)
    ensures
        honest0(c, p, q) == if measured(witness_for(c, p, q)[0]) == 0 {
            1
        } else {
            measured(witness_for(c, p, q)[0])
        },
{
    measured_is_low_word(witness_for(c, p, q)[0]);
}

/// The prover announces for vector 1 what is measured of it, or one if that of
/// each of its four parts is zero.
pub proof fn law_announced_bound_of_vector_1(c: SumcheckConfig, p: ProverView, q: u64)
    ensures
        ({
            let s = shape_of(p.public.config);
            let l = the_layout(c, s);
            let before = coeffs_of(p.w.subrange(0, l.v0_start as int), q);
            let after = coeffs_of(p.w.subrange(l.v0_end as int, l.total as int), q);
            let ydec = coeffs_of(ydec_elements(s, p.y), q);
            let c1dec = coeffs_of(inner_digits(s, c1_of(p)), q);
            honest1(c, p, q) == if measured(before) == 0 && measured(after) == 0 && measured(ydec)
                == 0 && measured(c1dec) == 0 {
                1
            } else {
                measured(witness_for(c, p, q)[1])
            }
        }),
{
    let s = shape_of(p.public.config);
    let l = the_layout(c, s);
    let before = coeffs_of(p.w.subrange(0, l.v0_start as int), q);
    let after = coeffs_of(p.w.subrange(l.v0_end as int, l.total as int), q);
    let ydec = coeffs_of(ydec_elements(s, p.y), q);
    let c1dec = coeffs_of(inner_digits(s, c1_of(p)), q);
    measured_is_low_word(before);
    measured_is_low_word(after);
    measured_is_low_word(ydec);
    measured_is_low_word(c1dec);
    measured_is_low_word(witness_for(c, p, q)[1]);
    sum_sq_add(before + after + ydec, c1dec);
    sum_sq_add(before + after, ydec);
    sum_sq_add(before, after);
}

/// Vector `v` was announced as the layout has it.
pub open spec fn announced(l: crate::layout::Layout, v: VectorRecord, i: int) -> bool {
    &&& v.n == vector_spec(l, i).n
    &&& v.role == 0
    &&& v.flags == if i == 0 {
        1u32
    } else {
        0u32
    }
}

/// The verifier accepts exactly two vectors as the layout has them, the first
/// with a norm bound within the inner bound of the round and both together
/// within the total. It then has the statement of its own boundary with these
/// norm bounds. Otherwise the error says what is wrong, the form of the vectors
/// being looked at before their bounds.
pub proof fn law_verifier_result(
    root: Config,
    cut: usize,
    b: BoundaryView,
    vectors: Seq<VectorRecord>,
    q: u64,
)
    ensures
        ({
            let r = verifier_result(root, cut, b, vectors, q);
            match round_at(root, cut) {
                Err(e) => r == Err::<StatementView, ExportError>(ExportError::Round(e)),
                Ok(c) => {
                    let l = the_layout(c, shape_of(b.config));
                    let fine = vectors.len() == 2 && announced(l, vectors[0], 0) && announced(
                        l,
                        vectors[1],
                        1,
                    );
                    let inner_ok = vectors[0].betasq <= c.most_inner_norm_bound_sq;
                    let w_ok = vectors[0].betasq + vectors[1].betasq <= w_bound(c, b);
                    &&& r is Ok <==> fine && inner_ok && w_ok
                    &&& r is Ok ==> r->Ok_0 == statement_for(
                        c,
                        b,
                        vectors[0].betasq,
                        vectors[1].betasq,
                        q,
                    )
                    &&& r == Err::<StatementView, ExportError>(ExportError::VectorCountMismatch)
                        <==> vectors.len() != 2
                    &&& r == Err::<StatementView, ExportError>(ExportError::InnerTotalExceeded)
                        <==> fine && !inner_ok
                    &&& r == Err::<StatementView, ExportError>(ExportError::WTotalExceeded)
                        <==> fine && inner_ok && !w_ok
                    &&& match r {
                        Err(ExportError::LengthMismatch { vector }) => {
                            &&& vector < 2
                            &&& vectors[vector as int].n != vector_spec(l, vector as int).n
                            &&& vector == 1 ==> announced(l, vectors[0], 0)
                        },
                        Err(ExportError::RoleMismatch { vector }) => {
                            &&& vector < 2
                            &&& vectors[vector as int].n == vector_spec(l, vector as int).n
                            &&& vectors[vector as int].role != 0
                            &&& vector == 1 ==> announced(l, vectors[0], 0)
                        },
                        Err(ExportError::FlagsMismatch { vector }) => {
                            &&& vector < 2
                            &&& vectors[vector as int].n == vector_spec(l, vector as int).n
                            &&& vectors[vector as int].role == 0
                            &&& !announced(l, vectors[vector as int], vector as int)
                            &&& vector == 1 ==> announced(l, vectors[0], 0)
                        },
                        Err(ExportError::VectorCountMismatch) => true,
                        Err(ExportError::InnerTotalExceeded) => true,
                        Err(ExportError::WTotalExceeded) => true,
                        Err(_) => false,
                        Ok(_) => true,
                    }
                },
            }
        }),
{
    if round_at(root, cut) is Ok && vectors.len() == 2 {
        let l = the_layout(round_at(root, cut)->Ok_0, shape_of(b.config));
        let errs = |i: int| record_error(l, vectors[i], i);
        first_error_none(2, errs);
        assert(errs(0) is None <==> announced(l, vectors[0], 0));
        assert(errs(1) is None <==> announced(l, vectors[1], 1));
        if first_error(2, errs) is Some {
            let i = law_first_error(2, errs);
            assert(i == 0 || i == 1);
            assert(errs(i) == first_error(2, errs));
        } else {
            assert(errs(0) is None && errs(1) is None);
        }
    }
}

/// The prover's export fails where there is no round to cut at, where the
/// digits of an inner level are missing, where the announced norm bounds exceed
/// those of the round, and where the self check of its own statement and
/// witness fails, in this order. Otherwise it gives these two.
pub proof fn law_prover_result(root: Config, cut: usize, p: ProverView, q: u64)
    ensures
        ({
            let r = prover_result(root, cut, p, q);
            match round_at(root, cut) {
                Err(e) => r == Err::<(StatementView, Seq<Seq<i64>>), ExportError>(
                    ExportError::Round(e),
                ),
                Ok(c) => {
                    let stmt = statement_for(
                        c,
                        p.public,
                        honest0(c, p, q),
                        honest1(c, p, q),
                        q,
                    );
                    let wit = witness_for(c, p, q);
                    let missing = p.public.config.commitment_recursion.next is Some && p.c1 is None;
                    let over_inner = honest0(c, p, q) > c.most_inner_norm_bound_sq;
                    let over_w = honest0(c, p, q) + honest1(c, p, q) > w_bound(c, p.public);
                    &&& missing ==> r == Err::<(StatementView, Seq<Seq<i64>>), ExportError>(
                        ExportError::InnerLevelMissing,
                    )
                    &&& !missing && over_inner ==> r == Err::<
                        (StatementView, Seq<Seq<i64>>),
                        ExportError,
                    >(ExportError::InnerTotalExceeded)
                    &&& !missing && !over_inner && over_w ==> r == Err::<
                        (StatementView, Seq<Seq<i64>>),
                        ExportError,
                    >(ExportError::WTotalExceeded)
                    &&& !missing && !over_inner && !over_w ==> match self_check_error(
                        stmt,
                        q,
                        wit,
                        q,
                    ) {
                        Some(e) => r == Err::<(StatementView, Seq<Seq<i64>>), ExportError>(
                            ExportError::SelfCheck(e),
                        ),
                        None => r == Ok::<(StatementView, Seq<Seq<i64>>), ExportError>((stmt, wit)),
                    }
                },
            }
        }),
{
}

/// Two encodings go together exactly when both can be read and what is read
/// passes the self check. The statement is read before the witness.
pub proof fn law_pair_accepted(stmt: Seq<u8>, wit: Seq<u8>, q: u64)
    ensures
        pair_error(stmt, wit, q) is None <==> {
            &&& parse_statement(stmt) is Ok
            &&& parse_witness(wit) is Ok
            &&& self_check_error(
                parse_statement(stmt)->Ok_0,
                parse_witness(wit)->Ok_0.0,
                parse_witness(wit)->Ok_0.1,
                q,
            ) is None
        },
        forall|e: DecodeError|
            #![auto]
            pair_error(stmt, wit, q) == Some(PairError::Statement(e)) <==> parse_statement(stmt)
                == Err::<StatementView, DecodeError>(e),
        forall|e: DecodeError|
            #![auto]
            pair_error(stmt, wit, q) == Some(PairError::Witness(e)) <==> parse_statement(stmt)
                is Ok && parse_witness(wit) == Err::<(u64, Seq<Seq<i64>>), DecodeError>(e),
        forall|e: SelfCheckError|
            #![auto]
            pair_error(stmt, wit, q) == Some(PairError::Check(e)) <==> {
                &&& parse_statement(stmt) is Ok
                &&& parse_witness(wit) is Ok
                &&& self_check_error(
                    parse_statement(stmt)->Ok_0,
                    parse_witness(wit)->Ok_0.0,
                    parse_witness(wit)->Ok_0.1,
                    q,
                ) == Some(e)
            },
{
}

/// The checks before a session look at the statement, and before a proof then
/// at the witness. A verification has no witness to look at.
pub proof fn law_begin_error(stmt: StatementView, wit: Seq<Seq<i64>>, compiled: u64)
    ensures
        statement_error(stmt, compiled) is Some ==> begin_error(Task::Prove, stmt, wit, compiled)
            == statement_error(stmt, compiled),
        statement_error(stmt, compiled) is None ==> begin_error(Task::Prove, stmt, wit, compiled)
            == witness_error(stmt, wit),
        begin_error(Task::Verify, stmt, wit, compiled) == statement_error(stmt, compiled),
{
}

/// A session begins with its first step if the checks pass, and with their
/// error if they do not. Once it has ended with an error, it stays there.
pub proof fn law_session_ends(
    task: Task,
    stmt: StatementView,
    wit: Seq<Seq<i64>>,
    compiled: u64,
    replies: Seq<Reply>,
    n: int,
)
    requires
        0 <= n,
    ensures
        session(task, stmt, wit, compiled, replies, 0) == match begin_error(
            task,
            stmt,
            wit,
            compiled,
        ) {
            Some(e) => Err::<Step, LabradorError>(e),
            None => Ok::<Step, LabradorError>(Step::AllocateStatement),
        },
        session(task, stmt, wit, compiled, replies, n) is Err ==> session(
            task,
            stmt,
            wit,
            compiled,
            replies,
            n + 1,
        ) == session(task, stmt, wit, compiled, replies, n),
{
}

/// Allocations say whether they succeeded, calls return a code, a measurement
/// gives a norm, and the other steps have nothing to report. What has finished
/// has no reply.
pub proof fn law_answers(step: Step, reply: Reply)
    ensures
        answers(step, reply) && reply is Allocated <==> reply is Allocated && (step
            == Step::AllocateStatement || step == Step::AllocateWitness || step
            == Step::AllocateProof),
        answers(step, reply) && reply is Code <==> reply is Code && (step == Step::InitStatement
            || step is SetVector || step == Step::SimpleVerify || step == Step::CompositeProve
            || step == Step::CompositeVerify),
        answers(step, reply) && reply is Normsq <==> reply is Normsq && step is MeasureVector,
        answers(step, reply) && reply is Done <==> reply is Done && (step == Step::FillStatement
            || step == Step::InitWitness),
{
}

/// A session goes on after a reply exactly when the reply reports neither a
/// lack of memory, nor a code other than zero, nor a norm above the bound of
/// the vector that was measured. The error tells what was asked for, and what
/// came back.
pub proof fn law_reply_error(vectors: Seq<VectorRecord>, step: Step, reply: Reply)
    requires
        answers(step, reply),
    ensures
        reply_error(vectors, step, reply) is Some <==> match reply {
            Reply::Allocated(ok) => !ok,
            Reply::Code(code) => code != 0,
            Reply::Normsq(normsq) => normsq > vectors[step->MeasureVector_vector as int].betasq,
            Reply::Done => false,
        },
        reply_error(vectors, step, reply) is Some ==> match reply_error(
            vectors,
            step,
            reply,
        )->Some_0 {
            LabradorError::StatementMemory => step == Step::AllocateStatement,
            LabradorError::WitnessMemory => step == Step::AllocateWitness,
            LabradorError::ProofMemory => step == Step::AllocateProof,
            LabradorError::InitStatement { code } => step == Step::InitStatement && reply
                == Reply::Code(code),
            LabradorError::SetVector { vector, code } => step == Step::SetVector { vector } && reply
                == Reply::Code(code),
            LabradorError::SimpleVerify { code } => step == Step::SimpleVerify && reply
                == Reply::Code(code),
            LabradorError::CompositeProve { code } => step == Step::CompositeProve && reply
                == Reply::Code(code),
            LabradorError::CompositeVerify { code } => step == Step::CompositeVerify && reply
                == Reply::Code(code),
            LabradorError::NormExceeded { vector, normsq, betasq } => {
                &&& step == Step::MeasureVector { vector }
                &&& reply == Reply::Normsq(normsq)
                &&& betasq == vectors[vector as int].betasq
                &&& normsq > betasq
            },
            _ => false,
        },
{
}

/// A session takes its steps in order: the statement is allocated, given its
/// lengths and bounds, and filled. A verification then verifies. A proof
/// allocates a witness and gives it its lengths; each vector in turn is set and
/// measured; the witness is held against the statement, the proof is allocated,
/// and made.
pub proof fn law_step_order(nvec: int, i: int)
    requires
        0 <= i,
        0 <= nvec <= usize::MAX,
    ensures
        forall|task: Task|
            #![trigger step_at(task, nvec, 0)]
            step_at(task, nvec, 0) == Step::AllocateStatement && step_at(task, nvec, 1)
                == Step::InitStatement && step_at(task, nvec, 2) == Step::FillStatement,
        step_at(Task::Verify, nvec, 3) == Step::CompositeVerify,
        step_at(Task::Verify, nvec, 4) == Step::Finished,
        step_at(Task::Prove, nvec, 3) == Step::AllocateWitness,
        step_at(Task::Prove, nvec, 4) == Step::InitWitness,
        i < nvec ==> step_at(Task::Prove, nvec, 5 + 2 * i) == (Step::SetVector {
            vector: i as usize,
        }),
        i < nvec ==> step_at(Task::Prove, nvec, 6 + 2 * i) == (Step::MeasureVector {
            vector: i as usize,
        }),
        step_at(Task::Prove, nvec, 5 + 2 * nvec) == Step::SimpleVerify,
        step_at(Task::Prove, nvec, 6 + 2 * nvec) == Step::AllocateProof,
        step_at(Task::Prove, nvec, 7 + 2 * nvec) == Step::CompositeProve,
        step_at(Task::Prove, nvec, 8 + 2 * nvec) == Step::Finished,
{
}

} // verus!
