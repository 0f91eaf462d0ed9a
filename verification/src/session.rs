//! A session with the LaBRADOR library: which step comes next, and which reply
//! ends it with an error.

use crate::check::{first_error, first_error_none, listed};
use crate::labrador::{
    check_statement, check_witness, statement_error, witness_error, LabradorError,
};
use crate::statement::{Statement, StatementView, VectorRecord, Witness};
use vstd::prelude::*;

verus! {

/// What a session is for.
#[derive(Clone, Copy, Debug, PartialEq, Eq)]
pub enum Task {
    Prove,
    Verify,
}

/// What is to be done next.
#[derive(Clone, Copy, Debug, PartialEq, Eq)]
pub enum Step {
    /// Allocate a statement.
    AllocateStatement,
    /// Give it its lengths and norm bounds.
    InitStatement,
    /// Give it its digest and its constraints.
    FillStatement,
    /// Allocate a witness.
    AllocateWitness,
    /// Give it its lengths.
    InitWitness,
    /// Give it the coefficients of a vector.
    SetVector { vector: usize },
    /// Ask for the square of the norm of that vector.
    MeasureVector { vector: usize },
    /// Hold the witness against the statement.
    SimpleVerify,
    /// Allocate a proof and a commitment.
    AllocateProof,
    /// Make the proof.
    CompositeProve,
    /// Verify the proof.
    CompositeVerify,
    /// Nothing: the session succeeded.
    Finished,
}

/// What came of a step.
#[derive(Clone, Copy, Debug, PartialEq, Eq)]
pub enum Reply {
    /// Whether there was enough memory.
    Allocated(bool),
    /// The code that a call returned, zero for success.
    Code(i32),
    /// The square of a norm.
    Normsq(u64),
    /// Nothing to report.
    Done,
}

/// The kind of reply that a step has.
pub open spec fn answers(step: Step, reply: Reply) -> bool {
    match step {
        Step::AllocateStatement => reply is Allocated,
        Step::InitStatement => reply is Code,
        Step::FillStatement => reply is Done,
        Step::AllocateWitness => reply is Allocated,
        Step::InitWitness => reply is Done,
        Step::SetVector { .. } => reply is Code,
        Step::MeasureVector { .. } => reply is Normsq,
        Step::SimpleVerify => reply is Code,
        Step::AllocateProof => reply is Allocated,
        Step::CompositeProve => reply is Code,
        Step::CompositeVerify => reply is Code,
        Step::Finished => false,
    }
}

/// The error with which a reply ends the session, if it does.
pub open spec fn reply_error(vectors: Seq<VectorRecord>, step: Step, reply: Reply) -> Option<
    LabradorError,
> {
    match (step, reply) {
        (Step::AllocateStatement, Reply::Allocated(false)) => Some(LabradorError::StatementMemory),
        (Step::InitStatement, Reply::Code(code)) if code != 0 => Some(
            LabradorError::InitStatement { code },
        ),
        (Step::AllocateWitness, Reply::Allocated(false)) => Some(LabradorError::WitnessMemory),
        (Step::SetVector { vector }, Reply::Code(code)) if code != 0 => Some(
            LabradorError::SetVector { vector, code },
        ),
        (Step::MeasureVector { vector }, Reply::Normsq(normsq)) => {
            let betasq = vectors[vector as int].betasq;
            if normsq > betasq {
                Some(LabradorError::NormExceeded { vector, normsq, betasq })
            } else {
                None
            }
        },
        (Step::SimpleVerify, Reply::Code(code)) if code != 0 => Some(
            LabradorError::SimpleVerify { code },
        ),
        (Step::AllocateProof, Reply::Allocated(false)) => Some(LabradorError::ProofMemory),
        (Step::CompositeProve, Reply::Code(code)) if code != 0 => Some(
            LabradorError::CompositeProve { code },
        ),
        (Step::CompositeVerify, Reply::Code(code)) if code != 0 => Some(
            LabradorError::CompositeVerify { code },
        ),
        _ => None,
    }
}

/// The step of a session with `nvec` vectors after `n` good replies.
pub open spec fn step_at(task: Task, nvec: int, n: int) -> Step {
    if n == 0 {
        Step::AllocateStatement
    } else if n == 1 {
        Step::InitStatement
    } else if n == 2 {
        Step::FillStatement
    } else {
        match task {
            Task::Verify => if n == 3 {
                Step::CompositeVerify
            } else {
                Step::Finished
            },
            Task::Prove => if n == 3 {
                Step::AllocateWitness
            } else if n == 4 {
                Step::InitWitness
            } else if n < 5 + 2 * nvec {
                if n % 2 == 1 {
                    Step::SetVector { vector: ((n - 5) / 2) as usize }
                } else {
                    Step::MeasureVector { vector: ((n - 5) / 2) as usize }
                }
            } else if n == 5 + 2 * nvec {
                Step::SimpleVerify
            } else if n == 6 + 2 * nvec {
                Step::AllocateProof
            } else if n == 7 + 2 * nvec {
                Step::CompositeProve
            } else {
                Step::Finished
            },
        }
    }
}

/// Number of steps of a session.
pub open spec fn session_len(task: Task, nvec: int) -> int {
    match task {
        Task::Verify => 4,
        Task::Prove => 8 + 2 * nvec,
    }
}

/// What the checks that come before a session find.
pub open spec fn begin_error(
    task: Task,
    stmt: StatementView,
    wit: Seq<Seq<i64>>,
    compiled: u64,
) -> Option<LabradorError> {
    match statement_error(stmt, compiled) {
        Some(e) => Some(e),
        None => match task {
            Task::Prove => witness_error(stmt, wit),
            Task::Verify => None,
        },
    }
}

/// Where a session stands after the first `n` replies.
pub open spec fn session(
    task: Task,
    stmt: StatementView,
    wit: Seq<Seq<i64>>,
    compiled: u64,
    replies: Seq<Reply>,
    n: int,
) -> Result<Step, LabradorError> {
    match begin_error(task, stmt, wit, compiled) {
        Some(e) => Err(e),
        None => match first_error(
            n,
            |k: int|
                reply_error(
                    stmt.vectors,
                    step_at(task, stmt.vectors.len() as int, k),
                    replies[k],
                ),
        ) {
            Some(e) => Err(e),
            None => Ok(step_at(task, stmt.vectors.len() as int, n)),
        },
    }
}

/// Begins a proof: checks the statement and the witness.
pub fn begin_prove(stmt: &Statement, wit: &Witness, compiled: u64) -> (r: Result<
    Step,
    LabradorError,
>)
    requires
        forall|i: int| 0 <= i < stmt@.constraints.len() ==> listed(#[trigger] stmt@.constraints[i]),
    ensures
        r == session(Task::Prove, stmt@, wit@, compiled, seq![], 0),
{
    match check_statement(stmt, compiled) {
        Ok(_) => {},
        Err(e) => {
            return Err(e);
        },
    }
    match check_witness(stmt, wit) {
        Ok(_) => Ok(Step::AllocateStatement),
        Err(e) => Err(e),
    }
}

/// Begins a verification: checks the statement.
pub fn begin_verify(stmt: &Statement, compiled: u64) -> (r: Result<Step, LabradorError>)
    requires
        forall|i: int| 0 <= i < stmt@.constraints.len() ==> listed(#[trigger] stmt@.constraints[i]),
    ensures
        r == session(Task::Verify, stmt@, seq![], compiled, seq![], 0),
{
    match check_statement(stmt, compiled) {
        Ok(_) => Ok(Step::AllocateStatement),
        Err(e) => Err(e),
    }
}

/// Takes the reply to a step and says what comes next. `n` counts the replies
/// taken before.
pub fn next_step(task: Task, stmt: &Statement, n: usize, step: Step, reply: Reply) -> (r: Result<
    Step,
    LabradorError,
>)
    requires
        step == step_at(task, stmt@.vectors.len() as int, n as int),
        n < session_len(task, stmt@.vectors.len() as int),
        answers(step, reply),
    ensures
        match r {
            Ok(next) => {
                &&& reply_error(stmt@.vectors, step, reply) is None
                &&& next == step_at(task, stmt@.vectors.len() as int, n + 1)
            },
            Err(e) => reply_error(stmt@.vectors, step, reply) == Some(e),
        },
{
    let nvec: usize = stmt.vectors.len();
    match step {
        Step::AllocateStatement => match reply {
            Reply::Allocated(false) => Err(LabradorError::StatementMemory),
            _ => Ok(Step::InitStatement),
        },
        Step::InitStatement => match reply {
            Reply::Code(code) if code != 0 => Err(LabradorError::InitStatement { code }),
            _ => Ok(Step::FillStatement),
        },
        Step::FillStatement => match task {
            Task::Prove => Ok(Step::AllocateWitness),
            Task::Verify => Ok(Step::CompositeVerify),
        },
        Step::AllocateWitness => match reply {
            Reply::Allocated(false) => Err(LabradorError::WitnessMemory),
            _ => Ok(Step::InitWitness),
        },
        Step::InitWitness => if nvec > 0 {
            Ok(Step::SetVector { vector: 0 })
        } else {
            Ok(Step::SimpleVerify)
        },
        Step::SetVector { vector } => match reply {
            Reply::Code(code) if code != 0 => Err(LabradorError::SetVector { vector, code }),
            _ => Ok(Step::MeasureVector { vector }),
        },
        Step::MeasureVector { vector } => {
            assert(vector < nvec && n == 6 + 2 * vector);
            let betasq: u64 = stmt.vectors[vector].betasq;
            match reply {
                Reply::Normsq(normsq) if normsq > betasq => Err(
                    LabradorError::NormExceeded { vector, normsq, betasq },
                ),
                _ => if vector + 1 < nvec {
                    Ok(Step::SetVector { vector: vector + 1 })
                } else {
                    Ok(Step::SimpleVerify)
                },
            }
        },
        Step::SimpleVerify => match reply {
            Reply::Code(code) if code != 0 => Err(LabradorError::SimpleVerify { code }),
            _ => Ok(Step::AllocateProof),
        },
        Step::AllocateProof => match reply {
            Reply::Allocated(false) => Err(LabradorError::ProofMemory),
            _ => Ok(Step::CompositeProve),
        },
        Step::CompositeProve => match reply {
            Reply::Code(code) if code != 0 => Err(LabradorError::CompositeProve { code }),
            _ => Ok(Step::Finished),
        },
        Step::CompositeVerify => match reply {
            Reply::Code(code) if code != 0 => Err(LabradorError::CompositeVerify { code }),
            _ => Ok(Step::Finished),
        },
        Step::Finished => Ok(Step::Finished),
    }
}

/// Taking replies one at a time follows the session: a reply to the step at
/// which it stands leads to where it stands after that reply, or to the error
/// with which it ends.
pub proof fn law_session_steps(
    task: Task,
    stmt: StatementView,
    wit: Seq<Seq<i64>>,
    compiled: u64,
    replies: Seq<Reply>,
    n: int,
)
    requires
        0 <= n,
        session(task, stmt, wit, compiled, replies, n) is Ok,
    ensures
        ({
            let step = step_at(task, stmt.vectors.len() as int, n);
            &&& session(task, stmt, wit, compiled, replies, n) == Ok::<Step, LabradorError>(step)
            &&& session(task, stmt, wit, compiled, replies, n + 1) == match reply_error(
                stmt.vectors,
                step,
                replies[n],
            ) {
                Some(e) => Err::<Step, LabradorError>(e),
                None => Ok::<Step, LabradorError>(
                    step_at(task, stmt.vectors.len() as int, n + 1),
                ),
            }
        }),
{
}

/// A proof comes about only if the checks pass, the library measured every
/// vector within its norm bound, found the witness to meet the statement, and
/// no call failed; and then it does come about.
pub proof fn law_prove_finishes_iff(
    stmt: StatementView,
    wit: Seq<Seq<i64>>,
    compiled: u64,
    replies: Seq<Reply>,
)
    requires
        replies.len() == session_len(Task::Prove, stmt.vectors.len() as int),
        forall|k: int|
            0 <= k < replies.len() ==> answers(
                step_at(Task::Prove, stmt.vectors.len() as int, k),
                #[trigger] replies[k],
            ),
        stmt.vectors.len() <= usize::MAX,
    ensures
        session(Task::Prove, stmt, wit, compiled, replies, replies.len() as int) == Ok::<
            Step,
            LabradorError,
        >(Step::Finished) <==> {
            let nvec = stmt.vectors.len() as int;
            &&& statement_error(stmt, compiled) is None
            &&& witness_error(stmt, wit) is None
            &&& replies[0] == Reply::Allocated(true)
            &&& replies[1] == Reply::Code(0)
            &&& replies[3] == Reply::Allocated(true)
            &&& forall|i: int| 0 <= i < nvec ==> #[trigger] vector_taken(stmt, replies, i)
            &&& replies[5 + 2 * nvec] == Reply::Code(0)
            &&& replies[6 + 2 * nvec] == Reply::Allocated(true)
            &&& replies[7 + 2 * nvec] == Reply::Code(0)
        },
{
    let nvec = stmt.vectors.len() as int;
    let n = replies.len() as int;
    let errs = |k: int| reply_error(stmt.vectors, step_at(Task::Prove, nvec, k), replies[k]);
    first_error_none(n, errs);
    let done = session(Task::Prove, stmt, wit, compiled, replies, n) == Ok::<Step, LabradorError>(
        Step::Finished,
    );
    if done {
        assert(errs(0) is None && answers(step_at(Task::Prove, nvec, 0), replies[0]));
        assert(errs(1) is None && answers(step_at(Task::Prove, nvec, 1), replies[1]));
        assert(errs(3) is None && answers(step_at(Task::Prove, nvec, 3), replies[3]));
        assert forall|i: int| 0 <= i < nvec implies #[trigger] vector_taken(stmt, replies, i) by {
            let a = 5 + 2 * i;
            let b = 6 + 2 * i;
            assert(errs(a) is None && answers(step_at(Task::Prove, nvec, a), replies[a]));
            assert(errs(b) is None && answers(step_at(Task::Prove, nvec, b), replies[b]));
            assert(step_at(Task::Prove, nvec, a) == Step::SetVector { vector: i as usize });
            assert(step_at(Task::Prove, nvec, b) == Step::MeasureVector { vector: i as usize });
        }
        let c = 5 + 2 * nvec;
        assert(errs(c) is None && answers(step_at(Task::Prove, nvec, c), replies[c]));
        assert(errs(c + 1) is None && answers(step_at(Task::Prove, nvec, c + 1), replies[c + 1]));
        assert(errs(c + 2) is None && answers(step_at(Task::Prove, nvec, c + 2), replies[c + 2]));
    }
    if statement_error(stmt, compiled) is None && witness_error(stmt, wit) is None && replies[0]
        == Reply::Allocated(true) && replies[1] == Reply::Code(0) && replies[3]
        == Reply::Allocated(true) && (forall|i: int|
        0 <= i < nvec ==> #[trigger] vector_taken(stmt, replies, i)) && replies[5 + 2 * nvec]
        == Reply::Code(0) && replies[6 + 2 * nvec] == Reply::Allocated(true) && replies[7 + 2
        * nvec] == Reply::Code(0) {
        assert forall|k: int| 0 <= k < n implies #[trigger] errs(k) is None by {
            if 5 <= k < 5 + 2 * nvec {
                let i = (k - 5) / 2;
                assert(vector_taken(stmt, replies, i));
                if k % 2 == 1 {
                    assert(k == 5 + 2 * i);
                } else {
                    assert(k == 6 + 2 * i);
                }
            }
        }
    }
}

/// The library took vector `i` and measured it within its norm bound.
pub open spec fn vector_taken(stmt: StatementView, replies: Seq<Reply>, i: int) -> bool {
    &&& replies[5 + 2 * i] == Reply::Code(0)
    &&& replies[6 + 2 * i] is Normsq
    &&& replies[6 + 2 * i]->Normsq_0 <= stmt.vectors[i].betasq
}

/// A verification succeeds exactly when the statement passes the checks and
/// the library accepts the proof, no call having failed.
pub proof fn law_verify_finishes_iff(
    stmt: StatementView,
    compiled: u64,
    replies: Seq<Reply>,
)
    requires
        replies.len() == session_len(Task::Verify, stmt.vectors.len() as int),
        forall|k: int|
            0 <= k < replies.len() ==> answers(
                step_at(Task::Verify, stmt.vectors.len() as int, k),
                #[trigger] replies[k],
            ),
    ensures
        session(Task::Verify, stmt, seq![], compiled, replies, replies.len() as int) == Ok::<
            Step,
            LabradorError,
        >(Step::Finished) <==> {
            &&& statement_error(stmt, compiled) is None
            &&& replies[0] == Reply::Allocated(true)
            &&& replies[1] == Reply::Code(0)
            &&& replies[3] == Reply::Code(0)
        },
{
    let nvec = stmt.vectors.len() as int;
    let errs = |k: int| reply_error(stmt.vectors, step_at(Task::Verify, nvec, k), replies[k]);
    first_error_none(4, errs);
    assert(answers(step_at(Task::Verify, nvec, 0), replies[0]));
    assert(answers(step_at(Task::Verify, nvec, 1), replies[1]));
    assert(answers(step_at(Task::Verify, nvec, 3), replies[3]));
    let done = session(Task::Verify, stmt, seq![], compiled, replies, 4) == Ok::<
        Step,
        LabradorError,
    >(Step::Finished);
    if done {
        assert(errs(0) is None);
        assert(errs(1) is None);
        assert(errs(3) is None);
    }
    if statement_error(stmt, compiled) is None && replies[0] == Reply::Allocated(true) && replies[1]
        == Reply::Code(0) && replies[3] == Reply::Code(0) {
        assert forall|k: int| 0 <= k < 4 implies #[trigger] errs(k) is None by {}
    }
}

} // verus!
