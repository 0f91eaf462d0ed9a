use rokoblador::labrador::{
    check_statement, check_witness, norm_bounds, precomputed_len_for_rank, raw_constraint,
    vector_lengths, LabradorError,
};
use rokoblador::r64::{zero, R64};
use rokoblador::session::{begin_prove, begin_verify, next_step, Reply, Step, Task};
use rokoblador::statement::{ConstraintSpec, Statement, VectorRecord, Witness};

const MOD_Q: u64 = 1125899906842597;

fn blocks(idx: Vec<usize>, off: Vec<usize>, len: Vec<usize>) -> ConstraintSpec {
    let n: usize = len.iter().sum();
    ConstraintSpec { idx, off, len, b: None, phi: vec![zero(); n] }
}

fn statement() -> Statement {
    Statement {
        q: MOD_Q,
        digest: [1; 16],
        betasq_w_total: 30,
        betasq_inner_total: 10,
        vectors: vec![
            VectorRecord { n: 4, betasq: 10, role: 0, flags: 1 },
            VectorRecord { n: 6, betasq: 20, role: 0, flags: 0 },
        ],
        constraints: vec![
            blocks(vec![0, 0, 1], vec![0, 2, 0], vec![2, 2, 6]),
            blocks(vec![1], vec![3], vec![3]),
        ],
    }
}

fn witness() -> Witness {
    Witness { vectors: vec![vec![0; 256], vec![1; 384]] }
}

#[test]
fn precomputed_lengths() {
    let got: Vec<usize> =
        [0, 1, 21, 22, 64, 65, 1000].iter().map(|&n| precomputed_len_for_rank(n)).collect();
    assert_eq!(got, vec![0, 32, 32, 64, 96, 128, 1504]);
}

#[test]
fn sound_forms_pass() {
    assert_eq!(check_statement(&statement(), MOD_Q), Ok(()));
    assert_eq!(check_witness(&statement(), &witness()), Ok(()));
    let mut s = statement();
    s.constraints[0] = blocks(vec![0; 64], (0..64).collect(), vec![0; 64]);
    s.vectors[0].n = 64;
    assert_eq!(check_statement(&s, MOD_Q), Ok(()));
}

fn refused(s: &Statement, want: LabradorError, text: &str) {
    assert_eq!(check_statement(s, MOD_Q), Err(want));
    assert_eq!(want.message(), text);
}

#[test]
fn refused_statements() {
    let mut s = statement();
    s.q = 7;
    refused(
        &s,
        LabradorError::ModulusMismatch { statement: 7, compiled: MOD_Q },
        "statement q 7 does not match compiled modulus 1125899906842597",
    );
    let mut s = statement();
    s.betasq_w_total = 29;
    refused(&s, LabradorError::WTotalExceeded, "sum betasq (role 0) exceeds betasq_w_total");
    let mut s = statement();
    s.betasq_inner_total = 9;
    refused(&s, LabradorError::InnerTotalExceeded, "sum betasq (INNER) exceeds betasq_inner_total");
    let mut s = statement();
    s.constraints[1] = blocks(vec![], vec![], vec![]);
    refused(
        &s,
        LabradorError::BlockCount { constraint: 1, nz: 0 },
        "constraint 1: nz 0 out of range",
    );
    s.constraints[1] = blocks(vec![0; 65], (0..65).collect(), vec![0; 65]);
    refused(
        &s,
        LabradorError::BlockCount { constraint: 1, nz: 65 },
        "constraint 1: nz 65 out of range",
    );
    let mut s = statement();
    s.constraints[0].idx[2] = 2;
    refused(
        &s,
        LabradorError::BlockOutOfRange { constraint: 0, block: 2, idx: 2 },
        "constraint 0: block 2 idx 2 out of range",
    );
    let mut s = statement();
    s.constraints[0].idx = vec![0, 1, 0];
    refused(
        &s,
        LabradorError::NotMonotone { constraint: 0, block: 2 },
        "constraint 0: block 2 idx not monotone",
    );
    let mut s = statement();
    s.constraints[0].off[1] = 0;
    refused(
        &s,
        LabradorError::OffsetNotIncreasing { constraint: 0, block: 1 },
        "constraint 0: block 1 offset not strictly increasing",
    );
    let mut s = statement();
    s.constraints[1].off[0] = 4;
    refused(
        &s,
        LabradorError::BlockExceedsRank { constraint: 1, block: 0, idx: 1 },
        "constraint 1: block 0 off+len exceeds vector 1 rank",
    );
    s.constraints[1].off[0] = usize::MAX;
    assert_eq!(
        check_statement(&s, MOD_Q),
        Err(LabradorError::BlockExceedsRank { constraint: 1, block: 0, idx: 1 })
    );
}

#[test]
fn refused_witnesses() {
    let s = statement();
    let mut w = witness();
    w.vectors.pop();
    let e = check_witness(&s, &w).unwrap_err();
    assert_eq!(e, LabradorError::VectorCountMismatch);
    assert_eq!(e.message(), "statement/witness vector count mismatch");
    let mut w = witness();
    w.vectors[1].pop();
    let e = check_witness(&s, &w).unwrap_err();
    assert_eq!(e, LabradorError::CoefficientCount { vector: 1 });
    assert_eq!(e.message(), "vector 1: witness coefficient count mismatch");
    let mut w = witness();
    w.vectors[0][9] = -30000;
    w.vectors[0][10] = 40000;
    let e = check_witness(&s, &w).unwrap_err();
    assert_eq!(e, LabradorError::CoeffTooLarge { vector: 0, magnitude: 30000 });
    assert_eq!(e.message(), "vector 0: |coeff| = 30000 exceeds 23170");
    w.vectors[0][9] = i64::MIN;
    assert_eq!(
        check_witness(&s, &w),
        Err(LabradorError::CoeffTooLarge { vector: 0, magnitude: 1 << 63 })
    );
    w.vectors[0][9] = 23170;
    w.vectors[0][10] = -23170;
    assert_eq!(check_witness(&s, &w), Ok(()));
}

#[test]
fn messages_of_failed_calls() {
    let all = [
        (LabradorError::StatementMemory, "out of memory allocating smplstmnt"),
        (LabradorError::InitStatement { code: -3 }, "init_smplstmnt_raw failed with code -3"),
        (LabradorError::WitnessMemory, "out of memory allocating witness"),
        (
            LabradorError::SetVector { vector: 1, code: 12 },
            "set_witness_vector_raw failed for vector 1 with code 12",
        ),
        (
            LabradorError::NormExceeded { vector: 0, normsq: u64::MAX, betasq: 10 },
            "witness vector 0 recomputed normsq 18446744073709551615 exceeds statement betasq 10",
        ),
        (LabradorError::SimpleVerify { code: 1 }, "simple_verify: FAIL (code 1)"),
        (LabradorError::ProofMemory, "out of memory allocating composite/commitment"),
        (
            LabradorError::CompositeProve { code: i32::MIN },
            "composite_prove_simple: FAIL (code -2147483648)",
        ),
        (LabradorError::CompositeVerify { code: 100 }, "composite_verify_simple: FAIL (code 100)"),
    ];
    for (e, text) in all {
        assert_eq!(e.message(), text);
    }
}

#[test]
fn constraints_are_flattened() {
    let a: R64 = std::array::from_fn(|i| i as u64);
    let mut b = zero();
    b[63] = u64::MAX;
    let c = ConstraintSpec { idx: vec![0], off: vec![0], len: vec![2], b: Some(b), phi: vec![a, b] };
    let raw = raw_constraint(&c);
    assert_eq!(raw.phi.len(), 128);
    assert_eq!(&raw.phi[0..4], &[0, 1, 2, 3]);
    assert_eq!((raw.phi[63], raw.phi[64], raw.phi[127]), (63, 0, -1));
    let flat = raw.b.unwrap();
    assert_eq!((flat.len(), flat[0], flat[63]), (64, 0, -1));
    assert!(raw_constraint(&blocks(vec![], vec![], vec![])).b.is_none());
    assert_eq!(vector_lengths(&statement()), vec![4, 6]);
    assert_eq!(norm_bounds(&statement()), vec![10, 20]);
}

fn good(step: Step) -> Reply {
    match step {
        Step::AllocateStatement | Step::AllocateWitness | Step::AllocateProof => {
            Reply::Allocated(true)
        }
        Step::FillStatement | Step::InitWitness => Reply::Done,
        Step::MeasureVector { .. } => Reply::Normsq(10),
        _ => Reply::Code(0),
    }
}

fn drive(task: Task, s: &Statement, bad: Option<(usize, Reply)>) -> (Vec<Step>, Result<(), LabradorError>) {
    let mut step = match task {
        Task::Prove => begin_prove(s, &witness(), MOD_Q).unwrap(),
        Task::Verify => begin_verify(s, MOD_Q).unwrap(),
    };
    let mut seen = vec![step];
    let mut n = 0;
    while step != Step::Finished {
        let reply = match bad {
            Some((at, r)) if at == n => r,
            _ => good(step),
        };
        match next_step(task, s, n, step, reply) {
            Ok(next) => step = next,
            Err(e) => return (seen, Err(e)),
        }
        n += 1;
        seen.push(step);
    }
    (seen, Ok(()))
}

#[test]
fn a_proof_takes_its_steps_in_order() {
    let (steps, r) = drive(Task::Prove, &statement(), None);
    assert_eq!(r, Ok(()));
    assert_eq!(
        steps,
        vec![
            Step::AllocateStatement,
            Step::InitStatement,
            Step::FillStatement,
            Step::AllocateWitness,
            Step::InitWitness,
            Step::SetVector { vector: 0 },
            Step::MeasureVector { vector: 0 },
            Step::SetVector { vector: 1 },
            Step::MeasureVector { vector: 1 },
            Step::SimpleVerify,
            Step::AllocateProof,
            Step::CompositeProve,
            Step::Finished,
        ]
    );
}

#[test]
fn every_failed_call_ends_a_proof() {
    let s = statement();
    let cases = [
        (0, Reply::Allocated(false), LabradorError::StatementMemory),
        (1, Reply::Code(2), LabradorError::InitStatement { code: 2 }),
        (3, Reply::Allocated(false), LabradorError::WitnessMemory),
        (5, Reply::Code(3), LabradorError::SetVector { vector: 0, code: 3 }),
        (6, Reply::Normsq(11), LabradorError::NormExceeded { vector: 0, normsq: 11, betasq: 10 }),
        (7, Reply::Code(-1), LabradorError::SetVector { vector: 1, code: -1 }),
        (8, Reply::Normsq(21), LabradorError::NormExceeded { vector: 1, normsq: 21, betasq: 20 }),
        (9, Reply::Code(4), LabradorError::SimpleVerify { code: 4 }),
        (10, Reply::Allocated(false), LabradorError::ProofMemory),
        (11, Reply::Code(5), LabradorError::CompositeProve { code: 5 }),
    ];
    for (at, reply, want) in cases {
        let (steps, r) = drive(Task::Prove, &s, Some((at, reply)));
        assert_eq!(r, Err(want));
        assert_eq!(steps.len(), at + 1);
    }
}

#[test]
fn a_verification_takes_its_steps_in_order() {
    let s = statement();
    let (steps, r) = drive(Task::Verify, &s, None);
    assert_eq!(r, Ok(()));
    assert_eq!(
        steps,
        vec![
            Step::AllocateStatement,
            Step::InitStatement,
            Step::FillStatement,
            Step::CompositeVerify,
            Step::Finished,
        ]
    );
    assert_eq!(
        drive(Task::Verify, &s, Some((3, Reply::Code(9)))).1,
        Err(LabradorError::CompositeVerify { code: 9 })
    );
    assert_eq!(
        drive(Task::Verify, &s, Some((0, Reply::Allocated(false)))).1,
        Err(LabradorError::StatementMemory)
    );
}

#[test]
fn checks_come_before_a_session() {
    let mut s = statement();
    let mut w = witness();
    w.vectors[0][0] = 23171;
    assert_eq!(
        begin_prove(&s, &w, MOD_Q),
        Err(LabradorError::CoeffTooLarge { vector: 0, magnitude: 23171 })
    );
    s.q = 5;
    let want = LabradorError::ModulusMismatch { statement: 5, compiled: MOD_Q };
    assert_eq!(begin_prove(&s, &w, MOD_Q), Err(want));
    assert_eq!(begin_verify(&s, MOD_Q), Err(want));
}

#[test]
fn a_proof_without_vectors_goes_straight_on() {
    let mut s = statement();
    s.vectors.clear();
    s.constraints.clear();
    let step = begin_prove(&s, &Witness { vectors: vec![] }, MOD_Q).unwrap();
    assert_eq!(step, Step::AllocateStatement);
    assert_eq!(next_step(Task::Prove, &s, 4, Step::InitWitness, Reply::Done), Ok(Step::SimpleVerify));
}
