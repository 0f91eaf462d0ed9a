use rokoblador::check::{self_check, SelfCheckError};
use rokoblador::codec::{
    read_statement, read_witness, write_statement, write_witness, DecodeError,
};
use rokoblador::config::{
    chain_shape, Config, Prefix, Projection, RecursionConfig, RoundError, SumcheckConfig,
};
use rokoblador::export::{
    announced_vectors, caps, eval_tensor, export_prover, export_verifier, finalize, self_check_encoded, ExportError,
    PairError, ProverBoundary, PublicBoundary,
};
use rokoblador::labrador::check_statement;
use rokoblador::layout::compute_layout;
use rokoblador::r64::{const_elem_neg, phi_for_part, zero};
use rokoblador::readiness::{is_prover_ready, is_ready};
use rokoblador::ring::{ring_eo, RingElement};
use rokoblador::session::{begin_prove, begin_verify, next_step, Reply, Step, Task};
use rokoblador::statement::{Statement, Witness};
use rokoblador::witness::{c1dec_witness, w_range_witness, ydec_witness};

const MOD_Q: u64 = 1125899906842597;
const BASE_LOG: usize = 13;
const DIGITS: usize = 4;
const WIDTH: usize = 2;
const HEIGHT: usize = 4;
const RANK: usize = 3;
const PADDED: usize = 4;

type Poly = [u64; 128];

fn pack(c: &Poly) -> RingElement {
    let mut v = [0u64; 128];
    for i in 0..128 {
        v[64 * (i % 2) + i / 2] = c[i];
    }
    RingElement { v }
}

fn add_product(r: &mut Poly, a: &Poly, b: &Poly) {
    for i in 0..128 {
        for j in 0..128 {
            let p = (a[i] as u128 * b[j] as u128 % MOD_Q as u128) as u64;
            let k = (i + j) % 128;
            r[k] = if i + j < 128 { (r[k] + p) % MOD_Q } else { (r[k] + MOD_Q - p) % MOD_Q };
        }
    }
}

fn product_sum(a: &[Poly], b: &[Poly]) -> Poly {
    let mut r = [0u64; 128];
    for (x, y) in a.iter().zip(b.iter()) {
        add_product(&mut r, x, y);
    }
    r
}

fn digits(c: &Poly) -> Vec<Poly> {
    let base = 1i64 << BASE_LOG;
    let mut rest: Vec<i64> =
        c.iter().map(|&x| if x > MOD_Q / 2 { x as i64 - MOD_Q as i64 } else { x as i64 }).collect();
    let mut out = vec![];
    for kk in 0..DIGITS {
        let mut d = [0u64; 128];
        for i in 0..128 {
            let mut low = rest[i].rem_euclid(base);
            if low > base / 2 || kk + 1 == DIGITS && rest[i] < 0 && low >= base / 2 {
                low -= base;
            }
            rest[i] = (rest[i] - low) / base;
            d[i] = if low < 0 { (low + MOD_Q as i64) as u64 } else { low as u64 };
        }
        out.push(d);
    }
    assert!(rest.iter().all(|&x| x == 0));
    out
}

struct Source(u64);

impl Source {
    fn next(&mut self) -> u64 {
        self.0 = self.0.wrapping_mul(6364136223846793005).wrapping_add(1442695040888963407);
        self.0 >> 11
    }
    fn uniform(&mut self) -> Poly {
        std::array::from_fn(|_| self.next() % MOD_Q)
    }
    fn short(&mut self) -> Poly {
        std::array::from_fn(|_| (self.next() % 7 + MOD_Q - 3) % MOD_Q)
    }
    fn row(&mut self, n: usize) -> Vec<Poly> {
        (0..n).map(|_| self.uniform()).collect()
    }
}

fn level(rank: usize, prefix: usize, length: usize, next: Option<RecursionConfig>) -> RecursionConfig {
    RecursionConfig {
        decomposition_base_log: BASE_LOG,
        decomposition_chunks: DIGITS,
        rank,
        prefix: Prefix { prefix, length },
        next: next.map(Box::new),
    }
}

fn config(inner_level: bool, next: Option<Config>) -> SumcheckConfig {
    let inner = if inner_level { Some(level(1, 2, 3, None)) } else { None };
    SumcheckConfig {
        composed_witness_length: 8,
        witness_width: WIDTH,
        witness_height: HEIGHT,
        basic_commitment_rank: RANK,
        commitment_recursion: level(2, 2, 3, inner),
        opening_recursion: level(1, 2, 2, None),
        projection_recursion: Projection::Skip,
        norm_bound_sq: 1 << 20,
        most_inner_norm_bound_sq: 1 << 18,
        next: next.map(Box::new),
    }
}

fn chain() -> Config {
    let third = config(true, Some(Config::Other));
    let second = config(true, Some(Config::Sumcheck(third)));
    Config::Sumcheck(config(true, Some(Config::Sumcheck(second))))
}

fn elements(row: &[Poly]) -> Vec<RingElement> {
    row.iter().map(pack).collect()
}

fn boundary(inner_level: bool) -> ProverBoundary {
    let mut src = Source(42);
    let w: Vec<Poly> = (0..WIDTH * HEIGHT).map(|_| src.short()).collect();
    let a1: Vec<Vec<Poly>> = (0..RANK).map(|_| src.row(HEIGHT)).collect();
    let n = PADDED * WIDTH * DIGITS;
    let a2: Vec<Vec<Poly>> = (0..2).map(|_| src.row(n)).collect();
    let a3: Vec<Vec<Poly>> = vec![src.row(2 * DIGITS)];

    let mut y = vec![[0u64; 128]; n];
    for t in 0..RANK {
        for col in 0..WIDTH {
            let image = product_sum(&a1[t], &w[col * HEIGHT..(col + 1) * HEIGHT]);
            for (kk, d) in digits(&image).into_iter().enumerate() {
                y[(t * WIDTH + col) * DIGITS + kk] = d;
            }
        }
    }
    let outer: Vec<Poly> = (0..2).map(|u| product_sum(&a2[u], &y)).collect();
    let (c1, commitment) = if inner_level {
        let c1: Vec<Poly> = outer.iter().flat_map(digits).collect();
        let root = vec![product_sum(&a3[0], &c1)];
        (Some(c1), root)
    } else {
        (None, outer)
    };

    let tensors: Vec<(Vec<Poly>, Vec<Poly>)> =
        (0..2).map(|_| (src.row(HEIGHT), src.row(WIDTH))).collect();
    let z: Vec<Poly> = tensors
        .iter()
        .map(|(inner, outer)| {
            let mut r = [0u64; 128];
            for col in 0..WIDTH {
                for row in 0..HEIGHT {
                    let mut p = [0u64; 128];
                    add_product(&mut p, &inner[row], &outer[col]);
                    add_product(&mut r, &p, &w[col * HEIGHT + row]);
                }
            }
            r
        })
        .collect();

    ProverBoundary {
        public: PublicBoundary {
            digest: std::array::from_fn(|i| 7 * i as u8),
            config: config(inner_level, None),
            a1: a1.iter().map(|r| elements(r)).collect(),
            a2: a2.iter().map(|r| elements(r)).collect(),
            a3: a3.iter().map(|r| elements(r)).collect(),
            inner0: elements(&tensors[0].0),
            outer0: elements(&tensors[0].1),
            inner1: elements(&tensors[1].0),
            outer1: elements(&tensors[1].1),
            commitment: elements(&commitment),
            z0: pack(&z[0]),
            z1: pack(&z[1]),
        },
        witness: elements(&w),
        committed_data: elements(&y),
        inner_committed_data: c1.map(|c| elements(&c)),
    }
}

fn build_models() -> (Statement, Witness) {
    export_prover(&chain(), 3, &boundary(true), MOD_Q).unwrap()
}

fn find_last_w_block(stmt: &Statement) -> (usize, usize) {
    for c in stmt.constraints.iter().rev() {
        for j in 0..c.idx.len() {
            if c.idx[j] == 1 && c.len[j] > 0 {
                return (c.off[j], c.len[j]);
            }
        }
    }
    panic!("no idx==1 block found in any constraint");
}

fn find_negative_coeff(wit: &Witness, vector: usize, off: usize, len: usize) -> usize {
    let start = off * 64;
    let end = (off + len) * 64;
    for i in start..end {
        if wit.vectors[vector][i] < 0 {
            return i;
        }
    }
    panic!("no negative coefficient found in the sampled w-only block");
}

// A session in which the steps are carried out here: norms are measured, and
// the witness is held against the constraints.
fn prove(stmt: &Statement, wit: &Witness) -> Result<(), String> {
    let mut step = begin_prove(stmt, wit, MOD_Q).map_err(|e| e.message())?;
    let mut n = 0;
    while step != Step::Finished {
        let reply = match step {
            Step::AllocateStatement | Step::AllocateWitness | Step::AllocateProof => {
                Reply::Allocated(true)
            }
            Step::FillStatement | Step::InitWitness => Reply::Done,
            Step::MeasureVector { vector } => {
                Reply::Normsq(wit.vectors[vector].iter().map(|&c| (c * c) as u64).sum())
            }
            Step::SimpleVerify => {
                let mut loose = stmt.clone();
                loose.betasq_w_total = u64::MAX;
                loose.betasq_inner_total = u64::MAX;
                Reply::Code(if self_check(&loose, MOD_Q, wit, MOD_Q).is_ok() { 0 } else { 1 })
            }
            _ => Reply::Code(0),
        };
        step = next_step(Task::Prove, stmt, n, step, reply).map_err(|e| e.message())?;
        n += 1;
    }
    Ok(())
}

fn verify(stmt: &Statement) -> Result<(), String> {
    let mut step = begin_verify(stmt, MOD_Q).map_err(|e| e.message())?;
    let mut n = 0;
    while step != Step::Finished {
        let reply = match step {
            Step::AllocateStatement => Reply::Allocated(true),
            Step::FillStatement => Reply::Done,
            _ => Reply::Code(0),
        };
        step = next_step(Task::Verify, stmt, n, step, reply).map_err(|e| e.message())?;
        n += 1;
    }
    Ok(())
}

#[test]
fn tamper_suite() {
    let (stmt, wit) = build_models();

    prove(&stmt, &wit).expect("t6: untampered prove must succeed");
    verify(&stmt).expect("t6: untampered verify must succeed");

    {
        let (off, len) = find_last_w_block(&stmt);
        let coeff_idx = find_negative_coeff(&wit, 1, off, len);
        let mut w = wit.clone();
        w.vectors[1][coeff_idx] += 1;
        let err = prove(&stmt, &w).expect_err("t1: tampered witness coeff must fail to prove");
        assert!(err.contains("simple_verify"), "t1: unexpected error: {err}");
    }

    {
        let mut s = stmt.clone();
        let last = s.constraints.last_mut().expect("statement has constraints");
        let b = last.b.as_mut().expect("t2: last constraint must carry b");
        b[0] = (b[0] + 1) % s.q;
        let err = prove(&s, &wit).expect_err("t2: tampered constraint b must fail to prove");
        assert!(err.contains("simple_verify"), "t2: unexpected error: {err}");
    }

    {
        let mut s = stmt.clone();
        let honest: i128 = wit.vectors[0].iter().map(|&c| (c as i128) * (c as i128)).sum();
        s.vectors[0].betasq = honest as u64 - 1;
        let err = prove(&s, &wit).expect_err("t3: betasq below honest normsq must fail");
        assert!(
            err.contains("recomputed normsq") && err.contains("exceeds statement betasq"),
            "t3: unexpected error: {err}"
        );
    }

    {
        let mut s = stmt.clone();
        let b0 = s.vectors[0].betasq;
        s.betasq_inner_total = b0 - 1;
        let err = prove(&s, &wit).expect_err("t4: betasq_inner_total below B0 must fail");
        assert!(err.contains("betasq_inner_total"), "t4: unexpected error: {err}");
    }

    {
        let mut s = stmt.clone();
        s.digest[0] ^= 0xFF;
        assert_ne!(s, stmt, "t5: a digest-tampered statement must differ from the prover's model");
    }
}

#[test]
fn honest_boundary_is_exported() {
    let p = boundary(true);
    let (stmt, wit) = build_models();
    let l = compute_layout(&config(true, None), &chain_shape(&p.public.config));
    assert_eq!((l.v0_start, l.v0_end), (2, 6));
    assert_eq!(stmt.q, MOD_Q);
    assert_eq!(stmt.digest, p.public.digest);
    assert_eq!(stmt.betasq_inner_total, 1 << 18);
    let digit_cap = 4096u64 * 4096;
    let ydec = (WIDTH * PADDED * DIGITS * 2) as u64;
    let c1dec = (2 * DIGITS * 2) as u64;
    assert_eq!(stmt.betasq_w_total, (1 << 20) + (ydec + c1dec) * 64 * digit_cap);
    assert_eq!((stmt.vectors[0].n, stmt.vectors[0].role, stmt.vectors[0].flags), (8, 0, 1));
    assert_eq!((stmt.vectors[1].n, stmt.vectors[1].role, stmt.vectors[1].flags), (8 + 64 + 16, 0, 0));
    for i in 0..2 {
        let norm: i128 = wit.vectors[i].iter().map(|&c| (c as i128) * (c as i128)).sum();
        assert_eq!(stmt.vectors[i].betasq as i128, norm);
        assert_eq!(wit.vectors[i].len(), 64 * stmt.vectors[i].n);
    }
    assert_eq!(
        stmt.vectors[0].n + stmt.vectors[1].n,
        2 * WIDTH * HEIGHT + WIDTH * PADDED * DIGITS * 2 + 2 * DIGITS * 2
    );
    assert_eq!(stmt.constraints.len(), WIDTH * RANK * 2 + 2 * 2 + 2 + 4);
    assert_eq!(self_check(&stmt, MOD_Q, &wit, MOD_Q), Ok(()));
    assert_eq!(check_statement(&stmt, MOD_Q), Ok(()));
}

#[test]
fn boundary_without_an_inner_level_is_exported() {
    let root = Config::Sumcheck(config(false, None));
    let p = boundary(false);
    let (stmt, wit) = export_prover(&root, 1, &p, MOD_Q).unwrap();
    assert_eq!(stmt.constraints.len(), WIDTH * RANK * 2 + 2 * 2 + 4);
    assert_eq!(stmt.vectors[1].n, 8 + 64);
    let outer = &stmt.constraints[WIDTH * RANK * 2 + 3];
    assert_eq!((&outer.idx, &outer.off, &outer.len), (&vec![1], &vec![8], &vec![64]));
    assert_eq!(outer.b, Some(ring_eo(&p.public.commitment[1]).1));
    assert_eq!(self_check(&stmt, MOD_Q, &wit, MOD_Q), Ok(()));
    assert_eq!(check_statement(&stmt, MOD_Q), Ok(()));
}

#[test]
fn constraints_have_the_expected_factors() {
    let p = boundary(true);
    let (stmt, _) = build_models();
    // column 1, key row 2, odd half
    let c = &stmt.constraints[(RANK + 2) * 2 + 1];
    assert_eq!(c.b, None);
    assert_eq!(c.idx, vec![0, 1, 1]);
    assert_eq!(c.off, vec![4, 4, 8 + (PADDED + 2) * DIGITS * 2]);
    assert_eq!(c.len, vec![4, 4, 8]);
    let (e, o) = ring_eo(&p.public.a1[2][0]);
    assert_eq!((c.phi[0], c.phi[1]), phi_for_part(&e, &o, 1, MOD_Q));
    let (e, o) = ring_eo(&p.public.a1[2][3]);
    assert_eq!((c.phi[6], c.phi[7]), phi_for_part(&e, &o, 1, MOD_Q));
    for kk in 0..DIGITS {
        assert_eq!(c.phi[8 + 2 * kk], zero());
        assert_eq!(c.phi[9 + 2 * kk], const_elem_neg(1 << (BASE_LOG * kk), MOD_Q));
    }
    // key row 1 of the outer key, even half
    let c = &stmt.constraints[WIDTH * RANK * 2 + 2];
    assert_eq!((&c.idx, &c.off, &c.len), (&vec![1, 1], &vec![8, 8 + 64 + 8], &vec![64, 8]));
    let flat = (3 * WIDTH + 1) * DIGITS + 2;
    let pos = ((PADDED + 3) * DIGITS + 2) * 2;
    let (e, o) = ring_eo(&p.public.a2[1][flat]);
    assert_eq!((c.phi[pos], c.phi[pos + 1]), phi_for_part(&e, &o, 0, MOD_Q));
    assert_eq!(c.phi[64], const_elem_neg(1, MOD_Q));
    assert_eq!(c.phi[65], zero());
    // root, odd half
    let c = &stmt.constraints[WIDTH * RANK * 2 + 4 + 1];
    assert_eq!((&c.idx, &c.off, &c.len), (&vec![1], &vec![72], &vec![16]));
    assert_eq!(c.b, Some(ring_eo(&p.public.commitment[0]).1));
    // second claim, even half
    let c = &stmt.constraints[WIDTH * RANK * 2 + 4 + 2 + 2];
    assert_eq!((&c.idx, &c.off, &c.len), (&vec![0, 1, 1], &vec![0, 0, 4], &vec![8, 4, 4]));
    assert_eq!(c.b, Some(ring_eo(&p.public.z1).0));
    let tensor = eval_tensor(&p.public.inner1, &p.public.outer1, WIDTH, HEIGHT, MOD_Q);
    let (e, o) = tensor[2];
    assert_eq!((c.phi[0], c.phi[1]), phi_for_part(&e, &o, 0, MOD_Q));
    let (e, o) = tensor[0];
    assert_eq!((c.phi[8], c.phi[9]), phi_for_part(&e, &o, 0, MOD_Q));
}

#[test]
fn witness_parts() {
    let mut v = [0u64; 128];
    v[0] = 3;
    v[64] = MOD_Q - 2;
    v[127] = 1;
    let el = RingElement { v };
    let (c, n) = w_range_witness(&[el, el, el], 1, 3, MOD_Q);
    assert_eq!(n, 28);
    assert_eq!((c.len(), c[0], c[64], c[127], c[128], c[192]), (256, 3, -2, 1, 3, -2));
    let p = boundary(true);
    let shape = chain_shape(&p.public.config);
    let (y, _) = ydec_witness(&p.committed_data, &shape, MOD_Q);
    let flat = (2 * WIDTH + 1) * DIGITS + 3;
    let at = ((PADDED + 2) * DIGITS + 3) * 128;
    let (one, _) = w_range_witness(&p.committed_data, flat, flat + 1, MOD_Q);
    assert_eq!(&y[at..at + 128], &one[..]);
    let inner = p.inner_committed_data.as_ref().unwrap();
    assert_eq!(c1dec_witness(inner, &shape, MOD_Q), w_range_witness(inner, 0, 8, MOD_Q));
    // squares are summed modulo 2^64
    let half = RingElement { v: [MOD_Q / 2; 128] };
    let (_, n) = w_range_witness(&[half], 0, 1, MOD_Q);
    let sq = (MOD_Q / 2) as u128 * (MOD_Q / 2) as u128;
    assert_eq!(n, (sq * 128) as u64);
}

#[test]
fn verifier_derives_the_same_statement() {
    let (stmt, wit) = build_models();
    let derived = export_verifier(&chain(), 3, &boundary(true).public, &stmt.vectors, MOD_Q).unwrap();
    assert_eq!(derived, stmt);
    let a = write_statement(&stmt);
    assert_eq!(finalize(&a, &write_statement(&derived)), Some(a.len()));
    assert_eq!(read_statement(&a), Ok(stmt));
    assert_eq!(read_witness(&write_witness(MOD_Q, &wit)), Ok((MOD_Q, wit)));
}

#[test]
fn verifier_refuses_other_vectors() {
    let (stmt, _) = build_models();
    let b = boundary(true).public;
    let run = |edit: &dyn Fn(&mut Statement)| {
        let mut s = stmt.clone();
        edit(&mut s);
        export_verifier(&chain(), 3, &b, &s.vectors, MOD_Q)
    };
    assert_eq!(
        run(&|s| {
            s.vectors.pop();
        }),
        Err(ExportError::VectorCountMismatch)
    );
    assert_eq!(run(&|s| s.vectors[1].n += 1), Err(ExportError::LengthMismatch { vector: 1 }));
    assert_eq!(run(&|s| s.vectors[0].role = 1), Err(ExportError::RoleMismatch { vector: 0 }));
    assert_eq!(run(&|s| s.vectors[1].flags = 1), Err(ExportError::FlagsMismatch { vector: 1 }));
    assert_eq!(
        run(&|s| s.vectors[0].betasq = s.betasq_inner_total + 1),
        Err(ExportError::InnerTotalExceeded)
    );
    assert_eq!(
        run(&|s| s.vectors[1].betasq = s.betasq_w_total),
        Err(ExportError::WTotalExceeded)
    );
    assert_eq!(
        export_verifier(&Config::Other, 3, &b, &stmt.vectors, MOD_Q),
        Err(ExportError::Round(RoundError::RootNotSumcheck))
    );
}

#[test]
fn another_digest_gives_another_statement() {
    let (stmt, _) = build_models();
    let mut b = boundary(true).public;
    b.digest[3] ^= 1;
    let derived = export_verifier(&chain(), 3, &b, &stmt.vectors, MOD_Q).unwrap();
    assert_ne!(derived, stmt);
    assert_eq!(finalize(&write_statement(&stmt), &write_statement(&derived)), None);
}

#[test]
fn prover_refuses_bad_boundaries() {
    let run = |p: &ProverBoundary| export_prover(&chain(), 3, p, MOD_Q).map(|_| ());
    assert_eq!(
        export_prover(&chain(), 4, &boundary(true), MOD_Q).map(|_| ()),
        Err(ExportError::Round(RoundError::RoundNotSumcheck))
    );
    let mut p = boundary(true);
    p.inner_committed_data = None;
    assert_eq!(run(&p), Err(ExportError::InnerLevelMissing));

    let n = WIDTH * RANK * 2;
    let broken = |constraint| Err(ExportError::SelfCheck(SelfCheckError::Unsatisfied { constraint }));
    let mut p = boundary(true);
    p.public.a1[0][0].v[0] ^= 1;
    assert_eq!(run(&p), broken(0));
    let mut p = boundary(true);
    p.public.a2[1][5].v[0] ^= 1;
    assert_eq!(run(&p), broken(n + 2));
    let mut p = boundary(true);
    p.public.commitment[0].v[127] ^= 1;
    assert_eq!(run(&p), broken(n + 4 + 1));
    let mut p = boundary(true);
    p.public.z1.v[5] ^= 1;
    assert_eq!(run(&p), broken(n + 4 + 2 + 2));
    let mut p = boundary(true);
    p.public.outer0[1].v[70] ^= 1;
    assert_eq!(run(&p), broken(n + 4 + 2));

    let mut p = boundary(true);
    p.witness[0].v[9] = 30000;
    assert_eq!(run(&p), Err(ExportError::SelfCheck(SelfCheckError::CoeffTooLarge { vector: 1 })));
}

#[test]
fn prover_keeps_to_the_norm_bounds() {
    let p = boundary(true);
    let (stmt, _) = build_models();
    let (b0, b1) = (stmt.vectors[0].betasq, stmt.vectors[1].betasq);
    let mut round = config(true, None);
    round.most_inner_norm_bound_sq = b0 - 1;
    assert_eq!(
        export_prover(&Config::Sumcheck(round), 1, &p, MOD_Q).map(|_| ()),
        Err(ExportError::InnerTotalExceeded)
    );
    let mut round = config(true, None);
    round.most_inner_norm_bound_sq = b0;
    assert!(export_prover(&Config::Sumcheck(round), 1, &p, MOD_Q).is_ok());
    // the total is taken modulo 2^64
    let caps = stmt.betasq_w_total as u128 - (1 << 20);
    let mut round = config(true, None);
    round.norm_bound_sq = (1u128 << 64) + (b0 + b1) as u128 - caps;
    assert_eq!(
        export_prover(&Config::Sumcheck(round), 1, &p, MOD_Q).map(|(s, _)| s.betasq_w_total),
        Ok(b0 + b1)
    );
    let mut round = config(true, None);
    round.norm_bound_sq = (1u128 << 64) + (b0 + b1 - 1) as u128 - caps;
    assert_eq!(
        export_prover(&Config::Sumcheck(round), 1, &p, MOD_Q).map(|_| ()),
        Err(ExportError::WTotalExceeded)
    );
}

#[test]
fn zero_witness_is_announced_with_a_bound_of_one() {
    let zero_el = RingElement { v: [0; 128] };
    let mut p = boundary(true);
    p.witness = vec![zero_el; WIDTH * HEIGHT];
    p.committed_data = vec![zero_el; PADDED * WIDTH * DIGITS];
    p.inner_committed_data = Some(vec![zero_el; 2 * DIGITS]);
    p.public.commitment = vec![zero_el];
    p.public.z0 = zero_el;
    p.public.z1 = zero_el;
    let (stmt, wit) = export_prover(&chain(), 3, &p, MOD_Q).unwrap();
    assert_eq!((stmt.vectors[0].betasq, stmt.vectors[1].betasq), (1, 1));
    assert!(wit.vectors.iter().all(|v| v.iter().all(|&c| c == 0)));
}

#[test]
fn readiness() {
    let round = config(true, None);
    let ready = |edit: &dyn Fn(&mut ProverBoundary)| {
        let mut p = boundary(true);
        edit(&mut p);
        (is_ready(&round, &p.public, MOD_Q), is_prover_ready(&p, MOD_Q))
    };
    assert_eq!(ready(&|_| {}), (true, true));
    assert_eq!(ready(&|p| p.public.a1.truncate(2)), (false, true));
    assert_eq!(ready(&|p| p.public.a1[2].truncate(3)), (false, true));
    assert_eq!(ready(&|p| p.public.a2[1].truncate(31)), (false, true));
    assert_eq!(ready(&|p| p.public.a3.clear()), (false, true));
    assert_eq!(ready(&|p| p.public.a3[0].truncate(7)), (false, true));
    assert_eq!(ready(&|p| p.public.inner1.truncate(3)), (false, true));
    assert_eq!(ready(&|p| p.public.outer0.truncate(1)), (false, true));
    assert_eq!(ready(&|p| p.public.commitment.clear()), (false, true));
    assert_eq!(
        ready(&|p| p.public.config.commitment_recursion.decomposition_base_log = 0),
        (false, true)
    );
    assert_eq!(
        ready(&|p| p.public.config.commitment_recursion.decomposition_base_log = 22),
        (false, true)
    );
    assert_eq!(ready(&|p| p.witness.truncate(7)), (true, false));
    assert_eq!(ready(&|p| p.committed_data.truncate(31)), (true, false));
    assert_eq!(
        ready(&|p| p.inner_committed_data.as_mut().unwrap().truncate(7)),
        (true, false)
    );
    assert_eq!(ready(&|p| p.witness[0].v[5] = 1 << 63), (true, false));
    let mut far = config(true, None);
    far.opening_recursion.prefix = Prefix { prefix: 0, length: 4 };
    assert!(!is_ready(&far, &boundary(true).public, MOD_Q));
    far.opening_recursion.prefix = Prefix { prefix: usize::MAX, length: 3 };
    assert!(!is_ready(&far, &boundary(true).public, MOD_Q));
    far = config(true, None);
    far.norm_bound_sq = u128::MAX;
    assert!(!is_ready(&far, &boundary(true).public, MOD_Q));
    far.norm_bound_sq = 0;
    far.composed_witness_length = 0;
    assert!(!is_ready(&far, &boundary(true).public, MOD_Q));
}

#[test]
fn encoded_pairs_are_checked() {
    let (stmt, wit) = build_models();
    let s = write_statement(&stmt);
    let w = write_witness(MOD_Q, &wit);
    assert_eq!(self_check_encoded(&s, &w, MOD_Q), Ok(()));
    assert_eq!(
        self_check_encoded(&w, &w, MOD_Q),
        Err(PairError::Statement(DecodeError::BadMagic))
    );
    assert_eq!(
        self_check_encoded(&s, &w[..w.len() - 1], MOD_Q),
        Err(PairError::Witness(DecodeError::Truncated))
    );
    assert_eq!(
        self_check_encoded(&s, &write_witness(MOD_Q - 2, &wit), MOD_Q),
        Err(PairError::Check(SelfCheckError::ModulusMismatch))
    );
    let mut other = stmt;
    other.constraints[1].phi[0][0] ^= 1;
    assert_eq!(
        self_check_encoded(&write_statement(&other), &w, MOD_Q),
        Err(PairError::Check(SelfCheckError::Unsatisfied { constraint: 1 }))
    );
}

#[test]
fn caps_cover_the_digits() {
    let p = boundary(true);
    let round = config(true, None);
    let shape = chain_shape(&p.public.config);
    let l = compute_layout(&round, &shape);
    let (y, _) = ydec_witness(&p.committed_data, &shape, MOD_Q);
    let (c, _) = c1dec_witness(p.inner_committed_data.as_ref().unwrap(), &shape, MOD_Q);
    assert!(y.iter().chain(c.iter()).all(|d| d.abs() <= 4096));
    let norm: i128 = y.iter().chain(c.iter()).map(|&d| d as i128 * d as i128).sum();
    assert!(norm as u128 <= caps(&shape, BASE_LOG, BASE_LOG, &l));
    let (_, w) = w_range_witness(&p.witness, 0, l.total, MOD_Q);
    assert!(w as u128 <= round.norm_bound_sq);
    let (stmt, _) = build_models();
    assert!(stmt.vectors[0].betasq + stmt.vectors[1].betasq <= stmt.betasq_w_total);
}

#[test]
fn announced_bounds_give_the_vectors() {
    let (stmt, _) = build_models();
    let l = compute_layout(&config(true, None), &chain_shape(&config(true, None)));
    let bounds: Vec<u64> = stmt.vectors.iter().map(|v| v.betasq).collect();
    assert_eq!(announced_vectors(&l, &bounds), Some(stmt.vectors));
    assert_eq!(announced_vectors(&l, &bounds[..1]), None);
    assert_eq!(announced_vectors(&l, &[1, 2, 3]), None);
}

#[test]
fn exported_statements_are_proved_and_verified() {
    let flat = Config::Sumcheck(config(false, None));
    let other = export_prover(&flat, 1, &boundary(false), MOD_Q).unwrap();
    for (stmt, wit) in [build_models(), other] {
        assert_eq!(prove(&stmt, &wit), Ok(()));
        assert_eq!(verify(&stmt), Ok(()));
        assert!(stmt.constraints.last().unwrap().b.is_some());
        assert!(stmt.constraints.iter().all(|c| c.len.iter().all(|&n| n > 0)));
    }
}
