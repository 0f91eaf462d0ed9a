use rokoblador::check::{betasq_totals, exceeds_bound, self_check, SelfCheckError, WITNESS_COEFF_MAX};
use rokoblador::r64::{const_elem_neg, zero, R64};
use rokoblador::statement::{ConstraintSpec, Statement, VectorRecord, Witness};

const MOD_Q: u64 = 1125899906842597;

fn constant(c: u64) -> R64 {
    let mut e = zero();
    e[0] = c;
    e
}

// 2 * s0[1] - 3 * s1[0] = 2 * (5 + Y) - 3 * (-4) = 22 + 2 Y
fn pair() -> (Statement, Witness) {
    let mut v0 = vec![0i64; 128];
    v0[64] = 5;
    v0[65] = 1;
    let mut v1 = vec![0i64; 64];
    v1[0] = -4;
    let mut b = constant(22);
    b[1] = 2;
    let stmt = Statement {
        q: MOD_Q,
        digest: [0; 16],
        betasq_w_total: 42,
        betasq_inner_total: 26,
        vectors: vec![
            VectorRecord { n: 2, betasq: 26, role: 0, flags: 1 },
            VectorRecord { n: 1, betasq: 16, role: 0, flags: 0 },
        ],
        constraints: vec![ConstraintSpec {
            idx: vec![0, 1],
            off: vec![1, 0],
            len: vec![1, 1],
            b: Some(b),
            phi: vec![constant(2), const_elem_neg(3, MOD_Q)],
        }],
    };
    (stmt, Witness { vectors: vec![v0, v1] })
}

fn run(s: &Statement, w: &Witness) -> Result<(), SelfCheckError> {
    self_check(s, MOD_Q, w, MOD_Q)
}

#[test]
fn honest_pair_passes() {
    let (s, w) = pair();
    assert_eq!(run(&s, &w), Ok(()));
    assert_eq!(betasq_totals(&s.vectors), (42, 26));
}

#[test]
fn coefficient_bound() {
    assert_eq!(WITNESS_COEFF_MAX, 23170);
    assert!(!exceeds_bound(23170));
    assert!(!exceeds_bound(-23170));
    assert!(exceeds_bound(23171));
    assert!(exceeds_bound(-23171));
    assert!(exceeds_bound(i64::MIN));
}

#[test]
fn totals_count_witness_vectors_only() {
    let v = |betasq, role, flags| VectorRecord { n: 0, betasq, role, flags };
    assert_eq!(
        betasq_totals(&vec![v(1, 0, 0), v(2, 0, 1), v(4, 1, 1), v(8, 0, 3), v(16, 0, 2)]),
        (27, 10)
    );
    assert_eq!(betasq_totals(&vec![v(u64::MAX, 0, 1), v(u64::MAX, 0, 1)]).1, 2 * (u64::MAX as u128));
}

#[test]
fn form_errors() {
    let (s, w) = pair();
    assert_eq!(self_check(&s, MOD_Q + 2, &w, MOD_Q), Err(SelfCheckError::ModulusMismatch));
    let mut short = w.clone();
    short.vectors.pop();
    assert_eq!(run(&s, &short), Err(SelfCheckError::VectorCountMismatch));
    let mut t = s.clone();
    t.vectors[1].n = 2;
    assert_eq!(run(&t, &w), Err(SelfCheckError::RankMismatch { vector: 1 }));
    let mut ragged = w.clone();
    ragged.vectors[0].push(0);
    assert_eq!(run(&s, &ragged), Err(SelfCheckError::RankMismatch { vector: 0 }));
}

#[test]
fn norm_errors() {
    let (s, w) = pair();
    let mut big = w.clone();
    big.vectors[1][3] = -23171;
    assert_eq!(run(&s, &big), Err(SelfCheckError::CoeffTooLarge { vector: 1 }));
    let mut low = s.clone();
    low.vectors[0].betasq = 25;
    assert_eq!(run(&low, &w), Err(SelfCheckError::NormExceeded { vector: 0 }));
    let mut total = s.clone();
    total.betasq_w_total = 41;
    assert_eq!(run(&total, &w), Err(SelfCheckError::WTotalExceeded));
    let mut inner = s.clone();
    inner.betasq_inner_total = 25;
    assert_eq!(run(&inner, &w), Err(SelfCheckError::InnerTotalExceeded));
    inner.vectors[0].flags = 0;
    assert_eq!(run(&inner, &w), Ok(()));
}

#[test]
fn block_errors() {
    let (s, w) = pair();
    let mut far = s.clone();
    far.constraints[0].idx[1] = 2;
    assert_eq!(
        run(&far, &w),
        Err(SelfCheckError::BlockOutOfRange { constraint: 0, block: 1 })
    );
    let mut long = s.clone();
    long.constraints[0].off[0] = 2;
    assert_eq!(
        run(&long, &w),
        Err(SelfCheckError::BlockExceedsRank { constraint: 0, block: 0 })
    );
    long.constraints[0].off[0] = usize::MAX;
    assert_eq!(
        run(&long, &w),
        Err(SelfCheckError::BlockExceedsRank { constraint: 0, block: 0 })
    );
    let mut few = s.clone();
    few.constraints[0].phi.pop();
    assert_eq!(
        run(&few, &w),
        Err(SelfCheckError::FactorsMissing { constraint: 0, block: 1 })
    );
}

#[test]
fn unsatisfied_constraints() {
    let (s, w) = pair();
    let mut b = s.clone();
    b.constraints[0].b.as_mut().unwrap()[63] = 1;
    assert_eq!(run(&b, &w), Err(SelfCheckError::Unsatisfied { constraint: 0 }));
    let mut none = s.clone();
    none.constraints[0].b = None;
    assert_eq!(run(&none, &w), Err(SelfCheckError::Unsatisfied { constraint: 0 }));
    let mut unreduced = s.clone();
    unreduced.constraints[0].b.as_mut().unwrap()[0] += MOD_Q;
    assert_eq!(run(&unreduced, &w), Err(SelfCheckError::Unsatisfied { constraint: 0 }));
    let mut second = s.clone();
    second.constraints.insert(
        0,
        ConstraintSpec { idx: vec![], off: vec![], len: vec![], b: None, phi: vec![] },
    );
    assert_eq!(run(&second, &w), Ok(()));
    second.constraints[1].phi[0] = constant(1);
    assert_eq!(run(&second, &w), Err(SelfCheckError::Unsatisfied { constraint: 1 }));
    let mut moved = w;
    moved.vectors[0][64] = 4;
    assert_eq!(run(&s, &moved), Err(SelfCheckError::Unsatisfied { constraint: 0 }));
}

#[test]
fn every_raised_coefficient_is_noticed() {
    let (mut s, w) = pair();
    s.betasq_w_total = u64::MAX;
    s.betasq_inner_total = u64::MAX;
    s.vectors[0].betasq = 1000;
    s.vectors[1].betasq = 1000;
    for (vector, first) in [(0, 64), (1, 0)] {
        for r in 0..64 {
            let mut t = w.clone();
            t.vectors[vector][first + r] += 1;
            assert_eq!(run(&s, &t), Err(SelfCheckError::Unsatisfied { constraint: 0 }));
        }
    }
    // no block takes in the first element of vector 0
    let mut t = w.clone();
    t.vectors[0][3] += 1;
    assert_eq!(run(&s, &t), Ok(()));
    // a factor that is zero modulo the modulus does not notice
    s.constraints[0].phi[0] = constant(MOD_Q);
    s.constraints[0].b = Some(constant(12));
    assert_eq!(run(&s, &w), Ok(()));
    let mut t = w;
    t.vectors[0][64] += 1;
    assert_eq!(run(&s, &t), Ok(()));
}
