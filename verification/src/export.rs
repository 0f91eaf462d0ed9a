//! Turns what a round chain hands over at its cut into a statement and, on the
//! prover's side, a witness.

use crate::check::{
    first_error, listed, self_check, self_check_error, SelfCheckError, WITNESS_COEFF_MAX,
};
use crate::codec::{
    parse_statement, parse_witness, read_statement, read_witness, statement_well_formed,
    well_formed, DecodeError,
};
use crate::config::{
    chain_shape, digit_bound_sq, digit_sq, digit_sq_bound, inner_ranges_fit, law_next_pow2,
    next_pow2, round_at, round_config, shape_of, ChainShape, Config, RoundError, SumcheckConfig,
};
use crate::layout::{
    c1dec_halves, compute_layout, inner_ranges, law_layout_unique, layout_for, layout_matches,
    shape_fits, shape_lengths, vector_spec, vector_specs, ydec_halves, Layout, VectorSpec,
};
use crate::public::{build_public, data_fits, public_constraints, shape_ok, PublicData, PublicView};
use crate::relation::{boundary_witness, data_full, inner_digits};
use crate::ring::{
    all_full, all_halves, eo_view, eo_views, halves, multiply, ring_eo, ring_product, split_all, Eo,
    Halves, RingElement,
};
use crate::statement::{Statement, StatementView, VectorRecord, Witness};
use crate::structure::law_public_constraints_well_formed;
use crate::witness::{
    c1dec_witness, centerable, coeffs_of, low_word, sum_sq, w_range_witness, ydec_elements,
    ydec_witness,
};
use vstd::prelude::*;

verus! {

/// What both parties know at the cut.
///
/// `config` configures the round after the cut. `a1`, `a2` and `a3` are the
/// rows of the commitment keys of its levels, of which the last has a single
/// row in use. Claim `j` says that `w`, weighted by the tensor product of
/// `outer` and `inner`, sums to `z`.
pub struct PublicBoundary {
    pub digest: [u8; 16],
    pub config: SumcheckConfig,
    pub a1: Vec<Vec<RingElement>>,
    pub a2: Vec<Vec<RingElement>>,
    pub a3: Vec<Vec<RingElement>>,
    pub inner0: Vec<RingElement>,
    pub outer0: Vec<RingElement>,
    pub inner1: Vec<RingElement>,
    pub outer1: Vec<RingElement>,
    pub commitment: Vec<RingElement>,
    pub z0: RingElement,
    pub z1: RingElement,
}

/// What the prover knows besides: `w`, the committed digits and, where the
/// commitment recursion has an inner level, the digits committed there.
pub struct ProverBoundary {
    pub public: PublicBoundary,
    pub witness: Vec<RingElement>,
    pub committed_data: Vec<RingElement>,
    pub inner_committed_data: Option<Vec<RingElement>>,
}

/// The contents of a public boundary.
#[verifier::ext_equal]
pub struct BoundaryView {
    pub digest: Seq<u8>,
    pub config: SumcheckConfig,
    pub a1: Seq<Seq<RingElement>>,
    pub a2: Seq<Seq<RingElement>>,
    pub a3: Seq<Seq<RingElement>>,
    pub inner0: Seq<RingElement>,
    pub outer0: Seq<RingElement>,
    pub inner1: Seq<RingElement>,
    pub outer1: Seq<RingElement>,
    pub commitment: Seq<RingElement>,
    pub z0: RingElement,
    pub z1: RingElement,
}

/// The contents of a prover's boundary.
#[verifier::ext_equal]
pub struct ProverView {
    pub public: BoundaryView,
    pub w: Seq<RingElement>,
    pub y: Seq<RingElement>,
    pub c1: Option<Seq<RingElement>>,
}

/// The rows of a key.
pub open spec fn key_rows(a: Seq<Vec<RingElement>>) -> Seq<Seq<RingElement>> {
    Seq::new(a.len(), |i: int| a[i]@)
}

impl View for PublicBoundary {
    type V = BoundaryView;

    open spec fn view(&self) -> BoundaryView {
        BoundaryView {
            digest: self.digest@,
            config: self.config,
            a1: key_rows(self.a1@),
            a2: key_rows(self.a2@),
            a3: key_rows(self.a3@),
            inner0: self.inner0@,
            outer0: self.outer0@,
            inner1: self.inner1@,
            outer1: self.outer1@,
            commitment: self.commitment@,
            z0: self.z0,
            z1: self.z1,
        }
    }
}

impl View for ProverBoundary {
    type V = ProverView;

    open spec fn view(&self) -> ProverView {
        ProverView {
            public: self.public@,
            w: self.witness@,
            y: self.committed_data@,
            c1: match self.inner_committed_data {
                Some(v) => Some(v@),
                None => None,
            },
        }
    }
}

/// Why a boundary is not exported.
#[derive(Clone, Copy, Debug, PartialEq, Eq)]
pub enum ExportError {
    /// There is no round to cut at.
    Round(RoundError),
    /// The prover does not have the digits of the inner level.
    InnerLevelMissing,
    /// The prover announced another number of vectors.
    VectorCountMismatch,
    /// The prover announced another length.
    LengthMismatch { vector: usize },
    /// The prover announced another role.
    RoleMismatch { vector: usize },
    /// The prover announced other flags.
    FlagsMismatch { vector: usize },
    /// The norm bound of vector 0 exceeds the inner total.
    InnerTotalExceeded,
    /// The norm bounds together exceed the total.
    WTotalExceeded,
    /// The statement and the witness do not go together.
    SelfCheck(SelfCheckError),
}

/// The layout for the round `c` and the shape `s`.
pub open spec fn the_layout(c: SumcheckConfig, s: ChainShape) -> Layout {
    choose|l: Layout| layout_for(inner_ranges(c), s, l)
}

/// There is one layout for a round and a shape.
pub proof fn law_the_layout(c: SumcheckConfig, s: ChainShape, l: Layout)
    requires
        layout_for(inner_ranges(c), s, l),
    ensures
        the_layout(c, s) == l,
{
    law_layout_unique(inner_ranges(c), s, l, the_layout(c, s));
}

/// The tensor product of `outer` and `inner`, inner index first.
pub open spec fn tensor(
    inner: Seq<RingElement>,
    outer: Seq<RingElement>,
    width: int,
    height: int,
    q: u64,
) -> Seq<Halves> {
    Seq::new(
        (width * height) as nat,
        |i: int| ring_product(halves(inner[i % height]), halves(outer[i / height]), q),
    )
}

/// Base of the digits of the inner level, as the logarithm of the base.
pub open spec fn inner_base_log(c: SumcheckConfig) -> usize {
    match c.commitment_recursion.next {
        Some(n) => n.decomposition_base_log,
        None => 0,
    }
}

/// The data from which the constraints are built.
pub open spec fn public_view(b: BoundaryView, q: u64) -> PublicView {
    let s = shape_of(b.config);
    PublicView {
        a1: Seq::new(b.a1.len(), |t: int| all_halves(b.a1[t])),
        a2: Seq::new(b.a2.len(), |u: int| all_halves(b.a2[u])),
        a3: if s.has_c1dec {
            all_halves(b.a3[0])
        } else {
            seq![]
        },
        a2_base_log: b.config.commitment_recursion.decomposition_base_log,
        a3_base_log: inner_base_log(b.config),
        evals0: tensor(b.inner0, b.outer0, s.width as int, s.height as int, q),
        evals1: tensor(b.inner1, b.outer1, s.width as int, s.height as int, q),
        commitment: all_halves(b.commitment),
        z0: halves(b.z0),
        z1: halves(b.z1),
    }
}

/// What the digits may add to the square of the norm.
pub open spec fn caps_of(s: ChainShape, a2_base_log: int, a3_base_log: int) -> int {
    ydec_halves(s) * 64 * digit_sq(a2_base_log) + if s.has_c1dec {
        c1dec_halves(s) * 64 * digit_sq(a3_base_log)
    } else {
        0
    }
}

/// The bases allow for the caps, which fit 128 bits together with `norm_sq`.
pub open spec fn caps_fit(
    s: ChainShape,
    a2_base_log: int,
    a3_base_log: int,
    norm_sq: u128,
) -> bool {
    &&& 1 <= a2_base_log <= 32
    &&& s.has_c1dec ==> 1 <= a3_base_log <= 32
    &&& norm_sq + caps_of(s, a2_base_log, a3_base_log) <= u128::MAX
}

/// The boundary can be exported for a cut at round `c`: its lists are as
/// long as its configuration asks for, and all sizes fit.
pub open spec fn ready(c: SumcheckConfig, b: BoundaryView, q: u64) -> bool {
    let s = shape_of(b.config);
    &&& next_pow2(b.config.basic_commitment_rank as nat) <= usize::MAX
    &&& inner_ranges_fit(c)
    &&& shape_fits(s)
    &&& s.has_c1dec ==> b.a3.len() >= 1
    &&& s.width > 0 && s.height > 0 ==> {
        &&& b.inner0.len() >= s.height
        &&& b.inner1.len() >= s.height
        &&& b.outer0.len() >= s.width
        &&& b.outer1.len() >= s.width
    }
    &&& data_fits(s, public_view(b, q))
    &&& caps_fit(
        s,
        b.config.commitment_recursion.decomposition_base_log as int,
        inner_base_log(b.config) as int,
        c.norm_bound_sq,
    )
}

/// The bound on the square of the norm of the whole witness.
pub open spec fn w_bound(c: SumcheckConfig, b: BoundaryView) -> u64 {
    low_word(
        c.norm_bound_sq + caps_of(
            shape_of(b.config),
            b.config.commitment_recursion.decomposition_base_log as int,
            inner_base_log(b.config) as int,
        ),
    ) as u64
}

/// Vector `i` of a layout with a norm bound.
pub open spec fn vector_record(l: Layout, i: int, betasq: u64) -> VectorRecord {
    VectorRecord {
        n: vector_spec(l, i).n,
        betasq,
        role: vector_spec(l, i).role,
        flags: vector_spec(l, i).flags,
    }
}

/// The statement for a boundary cut at round `c`, with norm bounds for the two
/// vectors.
pub open spec fn statement_for(
    c: SumcheckConfig,
    b: BoundaryView,
    betasq0: u64,
    betasq1: u64,
    q: u64,
) -> StatementView {
    let s = shape_of(b.config);
    let l = the_layout(c, s);
    StatementView {
        q,
        digest: b.digest,
        betasq_w_total: w_bound(c, b),
        betasq_inner_total: c.most_inner_norm_bound_sq,
        vectors: seq![vector_record(l, 0, betasq0), vector_record(l, 1, betasq1)],
        constraints: public_constraints(l, s, public_view(b, q), q),
    }
}

/// The larger of a number and one.
pub open spec fn at_least_one(n: int) -> int {
    if n >= 1 {
        n
    } else {
        1
    }
}

/// The digits of the inner level, or none.
pub open spec fn c1_of(p: ProverView) -> Seq<RingElement> {
    match p.c1 {
        Some(v) => v,
        None => seq![],
    }
}

/// The witness of a prover's boundary cut at round `c`.
pub open spec fn witness_for(c: SumcheckConfig, p: ProverView, q: u64) -> Seq<Seq<i64>> {
    let s = shape_of(p.public.config);
    boundary_witness(the_layout(c, s), s, p.w, p.y, c1_of(p), q)
}

/// The norm bound of vector 0: the square of its norm modulo `2^64`, at least
/// one.
pub open spec fn honest0(c: SumcheckConfig, p: ProverView, q: u64) -> u64 {
    at_least_one(low_word(sum_sq(witness_for(c, p, q)[0]))) as u64
}

/// The norm bound of vector 1: the sum of the squares of the norms of its four
/// parts, each modulo `2^64`, at least one, modulo `2^64`.
pub open spec fn honest1(c: SumcheckConfig, p: ProverView, q: u64) -> u64 {
    let s = shape_of(p.public.config);
    let l = the_layout(c, s);
    low_word(
        at_least_one(
            low_word(sum_sq(coeffs_of(p.w.subrange(0, l.v0_start as int), q))) + low_word(
                sum_sq(coeffs_of(p.w.subrange(l.v0_end as int, l.total as int), q)),
            ) + low_word(sum_sq(coeffs_of(ydec_elements(s, p.y), q))) + low_word(
                sum_sq(coeffs_of(inner_digits(s, c1_of(p)), q)),
            ),
        ),
    ) as u64
}

/// The prover's statement for a boundary cut at round `c`.
pub open spec fn prover_statement(c: SumcheckConfig, p: ProverView, q: u64) -> StatementView {
    statement_for(c, p.public, honest0(c, p, q), honest1(c, p, q), q)
}

/// What `export_prover` returns.
pub open spec fn prover_result(root: Config, cut: usize, p: ProverView, q: u64) -> Result<
    (StatementView, Seq<Seq<i64>>),
    ExportError,
> {
    match round_at(root, cut) {
        Err(e) => Err(ExportError::Round(e)),
        Ok(c) => {
            let stmt = prover_statement(c, p, q);
            let wit = witness_for(c, p, q);
            if shape_of(p.public.config).has_c1dec && p.c1 is None {
                Err(ExportError::InnerLevelMissing)
            } else if honest0(c, p, q) > stmt.betasq_inner_total {
                Err(ExportError::InnerTotalExceeded)
            } else if honest0(c, p, q) + honest1(c, p, q) > stmt.betasq_w_total {
                Err(ExportError::WTotalExceeded)
            } else {
                match self_check_error(stmt, q, wit, q) {
                    Some(e) => Err(ExportError::SelfCheck(e)),
                    None => Ok((stmt, wit)),
                }
            }
        },
    }
}

/// All elements can be centered.
pub open spec fn all_centerable(els: Seq<RingElement>, n: int, q: u64) -> bool {
    forall|i: int| 0 <= i < n ==> centerable(#[trigger] els[i], q)
}

/// The prover's lists are as long as the shape asks for, and their
/// coefficients can be centered.
pub open spec fn prover_ready(p: ProverView, q: u64) -> bool {
    let s = shape_of(p.public.config);
    &&& p.w.len() >= s.height * s.width
    &&& all_centerable(p.w, s.height * s.width, q)
    &&& p.y.len() >= s.width * s.a1_rank_padded * s.num_digits_y
    &&& all_centerable(p.y, s.width * s.a1_rank_padded * s.num_digits_y, q)
    &&& s.has_c1dec ==> match p.c1 {
        Some(v) => v.len() >= s.a2_rank * s.num_digits_c1 && all_centerable(
            v,
            s.a2_rank * s.num_digits_c1,
            q,
        ),
        None => true,
    }
}

/// What is wrong with vector `i` as the prover announced it.
pub open spec fn record_error(l: Layout, v: VectorRecord, i: int) -> Option<ExportError> {
    if v.n != vector_spec(l, i).n {
        Some(ExportError::LengthMismatch { vector: i as usize })
    } else if v.role != vector_spec(l, i).role {
        Some(ExportError::RoleMismatch { vector: i as usize })
    } else if v.flags != vector_spec(l, i).flags {
        Some(ExportError::FlagsMismatch { vector: i as usize })
    } else {
        None
    }
}

/// What `export_verifier` returns.
pub open spec fn verifier_result(
    root: Config,
    cut: usize,
    b: BoundaryView,
    vectors: Seq<VectorRecord>,
    q: u64,
) -> Result<StatementView, ExportError> {
    match round_at(root, cut) {
        Err(e) => Err(ExportError::Round(e)),
        Ok(c) => {
            let l = the_layout(c, shape_of(b.config));
            let stmt = statement_for(c, b, vectors[0].betasq, vectors[1].betasq, q);
            if vectors.len() != 2 {
                Err(ExportError::VectorCountMismatch)
            } else {
                match first_error(2, |i: int| record_error(l, vectors[i], i)) {
                    Some(e) => Err(e),
                    None => if vectors[0].betasq > stmt.betasq_inner_total {
                        Err(ExportError::InnerTotalExceeded)
                    } else if vectors[0].betasq + vectors[1].betasq > stmt.betasq_w_total {
                        Err(ExportError::WTotalExceeded)
                    } else {
                        Ok(stmt)
                    },
                }
            }
        },
    }
}

/// Splits the rows of a key.
pub fn rows_eo(ck: &Vec<Vec<RingElement>>) -> (r: Vec<Vec<Eo>>)
    ensures
        r@.len() == ck@.len(),
        forall|t: int| 0 <= t < r@.len() ==> eo_views((#[trigger] r@[t])@) == all_halves(ck@[t]@),
{
    let mut out: Vec<Vec<Eo>> = Vec::new();
    for t in 0..ck.len()
        invariant
            out@.len() == t,
            forall|u: int|
                0 <= u < t ==> eo_views((#[trigger] out@[u])@) == all_halves(ck@[u]@),
    {
        let row = split_all(ck[t].as_slice());
        out.push(row);
    }
    out
}

/// The tensor product of `outer` and `inner`.
pub fn eval_tensor(
    inner: &Vec<RingElement>,
    outer: &Vec<RingElement>,
    width: usize,
    height: usize,
    q: u64,
) -> (r: Vec<Eo>)
    requires
        q > 0,
        width > 0 && height > 0 ==> inner@.len() >= height && outer@.len() >= width,
    ensures
        eo_views(r@) == tensor(inner@, outer@, width as int, height as int, q),
{
    let mut out: Vec<Eo> = Vec::new();
    let ghost goal = tensor(inner@, outer@, width as int, height as int, q);
    proof {
        assert(0 <= width * height) by (nonlinear_arith)
            requires
                0 <= width,
                0 <= height,
        ;
        assert(0 * height == 0) by (nonlinear_arith);
    }
    for col in 0..width
        invariant
            q > 0,
            width > 0 && height > 0 ==> inner@.len() >= height && outer@.len() >= width,
            goal == tensor(inner@, outer@, width as int, height as int, q),
            goal.len() == width * height,
            out@.len() == col * height,
            forall|k: int| 0 <= k < out@.len() ==> eo_view(#[trigger] out@[k]) == goal[k],
    {
        for row in 0..height
            invariant
                q > 0,
                col < width,
                width > 0 && height > 0 ==> inner@.len() >= height && outer@.len() >= width,
                goal == tensor(inner@, outer@, width as int, height as int, q),
                goal.len() == width * height,
                out@.len() == col * height + row,
                forall|k: int| 0 <= k < out@.len() ==> eo_view(#[trigger] out@[k]) == goal[k],
        {
            let a = ring_eo(&inner[row]);
            let b = ring_eo(&outer[col]);
            let p = multiply(&a, &b, q);
            proof {
                crate::public::mixed_radix(col as int, row as int, height as int);
                crate::public::mixed_radix_bound(
                    col as int,
                    row as int,
                    width as int,
                    height as int,
                );
                assert(goal[col * height + row] == eo_view(p));
            }
            out.push(p);
        }
        assert((col + 1) * height == col * height + height) by (nonlinear_arith);
    }
    assert(eo_views(out@) =~= goal);
    out
}

/// Prepares the data from which the constraints are built.
pub fn public_data(b: &PublicBoundary, q: u64) -> (r: PublicData)
    requires
        q > 0,
        ({
            let s = shape_of(b.config);
            &&& s.has_c1dec ==> b.a3@.len() >= 1
            &&& s.width > 0 && s.height > 0 ==> {
                &&& b.inner0@.len() >= s.height
                &&& b.inner1@.len() >= s.height
                &&& b.outer0@.len() >= s.width
                &&& b.outer1@.len() >= s.width
            }
        }),
    ensures
        r@ == public_view(b@, q),
        r.a2_base_log == b.config.commitment_recursion.decomposition_base_log,
        b.config.commitment_recursion.next is Some ==> r.a3_base_log
            == b.config.commitment_recursion.next->Some_0.decomposition_base_log,
{
    let width: usize = b.config.witness_width;
    let height: usize = b.config.witness_height;
    let a1 = rows_eo(&b.a1);
    let a2 = rows_eo(&b.a2);
    let (a3, a3_base_log): (Vec<Eo>, usize) = match &b.config.commitment_recursion.next {
        Some(n) => (split_all(b.a3[0].as_slice()), n.decomposition_base_log),
        None => (Vec::new(), 0),
    };
    let evals0 = eval_tensor(&b.inner0, &b.outer0, width, height, q);
    let evals1 = eval_tensor(&b.inner1, &b.outer1, width, height, q);
    let commitment = split_all(b.commitment.as_slice());
    let r = PublicData {
        a1,
        a2,
        a3,
        a2_base_log: b.config.commitment_recursion.decomposition_base_log,
        a3_base_log,
        evals0,
        evals1,
        commitment,
        z0: ring_eo(&b.z0),
        z1: ring_eo(&b.z1),
    };
    proof {
        let goal = public_view(b@, q);
        assert(r@.a1 =~= goal.a1);
        assert(r@.a2 =~= goal.a2);
        assert(r@.a3 =~= goal.a3);
        assert(r@ =~= goal);
    }
    r
}

/// What the digits may add to the square of the norm.
pub fn caps(
    shape: &ChainShape,
    a2_base_log: usize,
    a3_base_log: usize,
    layout: &Layout,
) -> (r: u128)
    requires
        layout.ydec_len == ydec_halves(*shape),
        layout.c1dec_len == c1dec_halves(*shape),
        caps_fit(*shape, a2_base_log as int, a3_base_log as int, 0),
    ensures
        r == caps_of(*shape, a2_base_log as int, a3_base_log as int),
{
    proof {
        shape_lengths(*shape);
        digit_sq_bound(a2_base_log as int);
        let y = ydec_halves(*shape) * 64;
        let d = digit_sq(a2_base_log as int);
        assert(0 <= y * d) by (nonlinear_arith)
            requires
                0 <= y,
                0 < d,
        ;
        if shape.has_c1dec {
            digit_sq_bound(a3_base_log as int);
            let c = c1dec_halves(*shape) * 64;
            let e = digit_sq(a3_base_log as int);
            assert(0 <= c * e) by (nonlinear_arith)
                requires
                    0 <= c,
                    0 < e,
            ;
        }
    }
    let ydec_cap: u128 = layout.ydec_len as u128 * 64 * digit_bound_sq(a2_base_log) as u128;
    let c1dec_cap: u128 = if shape.has_c1dec {
        layout.c1dec_len as u128 * 64 * digit_bound_sq(a3_base_log) as u128
    } else {
        0
    };
    ydec_cap + c1dec_cap
}

/// The data from which the constraints are built have all their coefficients.
pub proof fn public_view_full(b: BoundaryView, q: u64)
    requires
        shape_of(b.config).has_c1dec ==> b.a3.len() >= 1,
    ensures
        data_full(public_view(b, q)),
{
    let d = public_view(b, q);
    assert forall|t: int| 0 <= t < d.a1.len() implies all_full(#[trigger] d.a1[t]) by {}
    assert forall|u: int| 0 <= u < d.a2.len() implies all_full(#[trigger] d.a2[u]) by {}
}

/// The shape of a configuration pads its rank up.
proof fn padded(c: SumcheckConfig)
    requires
        next_pow2(c.basic_commitment_rank as nat) <= usize::MAX,
        shape_fits(shape_of(c)),
    ensures
        shape_ok(shape_of(c)),
{
    law_next_pow2(c.basic_commitment_rank as nat);
}

/// Appends a list of coefficients.
fn append(coeffs: &mut Vec<i64>, more: &Vec<i64>)
    ensures
        final(coeffs)@ == old(coeffs)@ + more@,
{
    let ghost before = coeffs@;
    assert(coeffs@ =~= before + more@.take(0));
    for i in 0..more.len()
        invariant
            coeffs@ == before + more@.take(i as int),
    {
        coeffs.push(more[i]);
        assert(coeffs@ =~= before + more@.take(i + 1));
    }
    assert(more@.take(more@.len() as int) =~= more@);
}

/// The two witness vectors and their norm bounds.
fn build_witness(
    layout: &Layout,
    shape: &ChainShape,
    boundary: &ProverBoundary,
    Ghost(c): Ghost<SumcheckConfig>,
    q: u64,
) -> (r: (Witness, u64, u64))
    requires
        q <= i64::MAX,
        *shape == shape_of(boundary.public.config),
        shape_ok(*shape),
        layout_matches(*layout, *shape),
        *layout == the_layout(c, *shape),
        prover_ready(boundary@, q),
        shape.has_c1dec ==> boundary@.c1 is Some,
    ensures
        r.0@ == witness_for(c, boundary@, q),
        r.1 == honest0(c, boundary@, q),
        r.2 == honest1(c, boundary@, q),
{
    let ghost p = boundary@;
    proof {
        shape_lengths(*shape);
    }
    let w = boundary.witness.as_slice();
    let (v0_coeffs, v0_honest) = w_range_witness(w, layout.v0_start, layout.v0_end, q);
    let (wb_coeffs, wb_honest) = w_range_witness(w, 0, layout.v0_start, q);
    let (wa_coeffs, wa_honest) = w_range_witness(w, layout.v0_end, layout.total, q);
    let (yd_coeffs, yd_honest) = ydec_witness(boundary.committed_data.as_slice(), shape, q);
    let (c1_coeffs, c1_honest): (Vec<i64>, u64) = match &boundary.inner_committed_data {
        Some(inner) => if shape.has_c1dec {
            c1dec_witness(inner.as_slice(), shape, q)
        } else {
            (Vec::new(), 0)
        },
        None => (Vec::new(), 0),
    };
    let ghost ic = coeffs_of(inner_digits(*shape, c1_of(p)), q);
    assert(c1_coeffs@ =~= ic);
    assert(c1_honest == low_word(sum_sq(ic)));
    let v1_honest: u128 = wb_honest as u128 + wa_honest as u128 + yd_honest as u128
        + c1_honest as u128;
    let v0_betasq: u64 = if v0_honest >= 1 {
        v0_honest
    } else {
        1
    };
    let v1_wide: u128 = if v1_honest >= 1 {
        v1_honest
    } else {
        1
    };
    proof {
        assert((v1_wide as u64) as u128 == v1_wide % 0x1_0000_0000_0000_0000u128) by (bit_vector);
    }
    let v1_betasq: u64 = v1_wide as u64;
    let mut v1_coeffs: Vec<i64> = wb_coeffs;
    append(&mut v1_coeffs, &wa_coeffs);
    append(&mut v1_coeffs, &yd_coeffs);
    append(&mut v1_coeffs, &c1_coeffs);
    let mut vectors: Vec<Vec<i64>> = Vec::new();
    vectors.push(v0_coeffs);
    vectors.push(v1_coeffs);
    let wit = Witness { vectors };
    proof {
        let goal = witness_for(c, p, q);
        assert(wit@[0] =~= goal[0]);
        assert(wit@[1] =~= goal[1]);
        assert(wit@ =~= goal);
    }
    (wit, v0_betasq, v1_betasq)
}

/// The statement of a boundary with norm bounds for the two vectors.
fn build_statement(
    round_cfg: &SumcheckConfig,
    layout: &Layout,
    shape: &ChainShape,
    boundary: &PublicBoundary,
    betasq0: u64,
    betasq1: u64,
    q: u64,
) -> (r: Statement)
    requires
        0 < q,
        *shape == shape_of(boundary.config),
        layout_for(inner_ranges(*round_cfg), *shape, *layout),
        ready(*round_cfg, boundary@, q),
    ensures
        r@ == statement_for(*round_cfg, boundary@, betasq0, betasq1, q),
{
    proof {
        padded(boundary.config);
        law_the_layout(*round_cfg, *shape, *layout);
        shape_lengths(*shape);
    }
    let data = public_data(boundary, q);
    let constraints = build_public(layout, shape, &data, q);
    let specs = vector_specs(layout);
    let cap: u128 = caps(shape, data.a2_base_log, data.a3_base_log, layout);
    let wide: u128 = round_cfg.norm_bound_sq + cap;
    proof {
        assert((wide as u64) as u128 == wide % 0x1_0000_0000_0000_0000u128) by (bit_vector);
    }
    let mut vectors: Vec<VectorRecord> = Vec::new();
    vectors.push(
        VectorRecord { n: specs[0].n, betasq: betasq0, role: specs[0].role, flags: specs[0].flags },
    );
    vectors.push(
        VectorRecord { n: specs[1].n, betasq: betasq1, role: specs[1].role, flags: specs[1].flags },
    );
    let r = Statement {
        q,
        digest: boundary.digest,
        betasq_w_total: wide as u64,
        betasq_inner_total: round_cfg.most_inner_norm_bound_sq,
        vectors,
        constraints,
    };
    proof {
        let goal = statement_for(*round_cfg, boundary@, betasq0, betasq1, q);
        assert(r@.vectors =~= goal.vectors);
        assert(r@.constraints =~= goal.constraints);
        assert(r@ =~= goal);
    }
    r
}

/// Every constraint of a statement for a boundary is well formed.
proof fn statement_for_well_formed(
    c: SumcheckConfig,
    b: BoundaryView,
    betasq0: u64,
    betasq1: u64,
    l: Layout,
    q: u64,
)
    requires
        b.digest.len() == 16,
        ready(c, b, q),
        layout_for(inner_ranges(c), shape_of(b.config), l),
        statement_for(c, b, betasq0, betasq1, q).constraints.len() <= u64::MAX,
    ensures
        statement_well_formed(statement_for(c, b, betasq0, betasq1, q)),
{
    let s = shape_of(b.config);
    let stmt = statement_for(c, b, betasq0, betasq1, q);
    padded(b.config);
    law_the_layout(c, s, l);
    public_view_full(b, q);
    assert forall|i: int| 0 <= i < stmt.constraints.len() implies well_formed(
        #[trigger] stmt.constraints[i],
    ) by {
        law_public_constraints_well_formed(l, s, public_view(b, q), q, i);
    }
}

/// Exports the prover's side of a boundary cut at round `cut` of the chain
/// `root`: the statement and a witness for it, which it checks.
pub fn export_prover(root: &Config, cut: usize, boundary: &ProverBoundary, q: u64) -> (r: Result<
    (Statement, Witness),
    ExportError,
>)
    requires
        WITNESS_COEFF_MAX < q <= i64::MAX,
        match round_at(*root, cut) {
            Ok(c) => ready(c, boundary@.public, q) && prover_ready(boundary@, q),
            Err(_) => true,
        },
    ensures
        match r {
            Ok((stmt, wit)) => {
                &&& prover_result(*root, cut, boundary@, q) == Ok::<
                    (StatementView, Seq<Seq<i64>>),
                    ExportError,
                >((stmt@, wit@))
                &&& statement_well_formed(stmt@)
            },
            Err(e) => prover_result(*root, cut, boundary@, q) == Err::<
                (StatementView, Seq<Seq<i64>>),
                ExportError,
            >(e),
        },
{
    let round_cfg: &SumcheckConfig = match round_config(root, cut) {
        Ok(c) => c,
        Err(e) => {
            return Err(ExportError::Round(e));
        },
    };
    let ghost p = boundary@;
    proof {
        padded(boundary.public.config);
    }
    let shape = chain_shape(&boundary.public.config);
    let layout = compute_layout(round_cfg, &shape);
    proof {
        law_the_layout(*round_cfg, shape, layout);
    }
    if shape.has_c1dec && boundary.inner_committed_data.is_none() {
        return Err(ExportError::InnerLevelMissing);
    }
    let (wit, betasq0, betasq1) = build_witness(&layout, &shape, boundary, Ghost(*round_cfg), q);
    let stmt = build_statement(round_cfg, &layout, &shape, &boundary.public, betasq0, betasq1, q);
    if betasq0 > stmt.betasq_inner_total {
        return Err(ExportError::InnerTotalExceeded);
    }
    if betasq0 as u128 + betasq1 as u128 > stmt.betasq_w_total as u128 {
        return Err(ExportError::WTotalExceeded);
    }
    proof {
        assert(stmt.constraints.len() == stmt@.constraints.len());
        statement_for_well_formed(*round_cfg, p.public, betasq0, betasq1, layout, q);
        assert forall|i: int| 0 <= i < stmt@.constraints.len() implies listed(
            #[trigger] stmt@.constraints[i],
        ) by {
            assert(well_formed(stmt@.constraints[i]));
        }
    }
    match self_check(&stmt, q, &wit, q) {
        Ok(_) => Ok((stmt, wit)),
        Err(e) => Err(ExportError::SelfCheck(e)),
    }
}

/// Checks vector `i` as the prover announced it.
fn check_record(layout: &Layout, spec: &VectorSpec, v: &VectorRecord, i: usize) -> (r: Result<
    (),
    ExportError,
>)
    requires
        *spec == vector_spec(*layout, i as int),
    ensures
        match r {
            Ok(_) => record_error(*layout, *v, i as int) is None,
            Err(e) => record_error(*layout, *v, i as int) == Some(e),
        },
{
    if v.n != spec.n {
        return Err(ExportError::LengthMismatch { vector: i });
    }
    if v.role != spec.role {
        return Err(ExportError::RoleMismatch { vector: i });
    }
    if v.flags != spec.flags {
        return Err(ExportError::FlagsMismatch { vector: i });
    }
    Ok(())
}

/// Derives the statement on the verifier's side from public data and from the
/// norm bounds that the prover announced.
pub fn export_verifier(
    root: &Config,
    cut: usize,
    boundary: &PublicBoundary,
    prover_vectors: &Vec<VectorRecord>,
    q: u64,
) -> (r: Result<Statement, ExportError>)
    requires
        0 < q,
        match round_at(*root, cut) {
            Ok(c) => ready(c, boundary@, q),
            Err(_) => true,
        },
    ensures
        match r {
            Ok(stmt) => {
                &&& verifier_result(*root, cut, boundary@, prover_vectors@, q) == Ok::<
                    StatementView,
                    ExportError,
                >(stmt@)
                &&& statement_well_formed(stmt@)
            },
            Err(e) => verifier_result(*root, cut, boundary@, prover_vectors@, q) == Err::<
                StatementView,
                ExportError,
            >(e),
        },
{
    let round_cfg: &SumcheckConfig = match round_config(root, cut) {
        Ok(c) => c,
        Err(e) => {
            return Err(ExportError::Round(e));
        },
    };
    proof {
        padded(boundary.config);
        shape_lengths(shape_of(boundary.config));
    }
    let shape = chain_shape(&boundary.config);
    let layout = compute_layout(round_cfg, &shape);
    proof {
        law_the_layout(*round_cfg, shape, layout);
    }
    if prover_vectors.len() != 2 {
        return Err(ExportError::VectorCountMismatch);
    }
    let specs = vector_specs(&layout);
    let ghost errs = |i: int| record_error(layout, prover_vectors@[i], i);
    proof {
        reveal_with_fuel(first_error, 3);
        assert(first_error(1, errs) == errs(0));
    }
    match check_record(&layout, &specs[0], &prover_vectors[0], 0) {
        Ok(_) => {},
        Err(e) => {
            return Err(e);
        },
    }
    match check_record(&layout, &specs[1], &prover_vectors[1], 1) {
        Ok(_) => {},
        Err(e) => {
            return Err(e);
        },
    }
    let betasq0: u64 = prover_vectors[0].betasq;
    let betasq1: u64 = prover_vectors[1].betasq;
    let stmt = build_statement(round_cfg, &layout, &shape, boundary, betasq0, betasq1, q);
    if betasq0 > stmt.betasq_inner_total {
        return Err(ExportError::InnerTotalExceeded);
    }
    if betasq0 as u128 + betasq1 as u128 > stmt.betasq_w_total as u128 {
        return Err(ExportError::WTotalExceeded);
    }
    proof {
        assert(stmt.constraints.len() == stmt@.constraints.len());
        statement_for_well_formed(*round_cfg, boundary@, betasq0, betasq1, layout, q);
    }
    Ok(stmt)
}

/// The two vectors of a layout with the norm bounds that came with a proof, if
/// there are two bounds.
pub fn announced_vectors(layout: &Layout, per_vector_betasq: &[u64]) -> (r: Option<
    Vec<VectorRecord>,
>)
    requires
        layout.v0_start <= layout.v0_end,
        2 * (layout.v0_end - layout.v0_start) <= usize::MAX,
        layout.w_before_len + layout.w_after_len + layout.ydec_len + layout.c1dec_len <= usize::MAX,
    ensures
        match r {
            Some(v) => {
                &&& per_vector_betasq@.len() == 2
                &&& v@ == seq![
                    vector_record(*layout, 0, per_vector_betasq@[0]),
                    vector_record(*layout, 1, per_vector_betasq@[1]),
                ]
            },
            None => per_vector_betasq@.len() != 2,
        },
{
    if per_vector_betasq.len() != 2 {
        return None;
    }
    let specs = vector_specs(layout);
    let mut vectors: Vec<VectorRecord> = Vec::new();
    for i in 0..2usize
        invariant
            per_vector_betasq@.len() == 2,
            specs@[0] == vector_spec(*layout, 0),
            specs@[1] == vector_spec(*layout, 1),
            vectors@.len() == i,
            forall|k: int|
                0 <= k < i ==> #[trigger] vectors@[k] == vector_record(
                    *layout,
                    k,
                    per_vector_betasq@[k],
                ),
    {
        let s: VectorSpec = specs[i];
        vectors.push(
            VectorRecord { n: s.n, betasq: per_vector_betasq[i], role: s.role, flags: s.flags },
        );
    }
    Some(vectors)
}

/// Compares the encoded statements of both parties: the number of their bytes
/// if they match.
pub fn finalize(prover: &[u8], verifier: &[u8]) -> (r: Option<usize>)
    ensures
        match r {
            Some(n) => prover@ == verifier@ && n == prover@.len(),
            None => prover@ != verifier@,
        },
{
    if prover.len() != verifier.len() {
        return None;
    }
    for i in 0..prover.len()
        invariant
            prover@.len() == verifier@.len(),
            forall|k: int| 0 <= k < i ==> prover@[k] == #[trigger] verifier@[k],
    {
        if prover[i] != verifier[i] {
            return None;
        }
    }
    assert(prover@ =~= verifier@);
    Some(prover.len())
}

/// Why an encoded statement and an encoded witness do not go together.
#[derive(Clone, Copy, Debug, PartialEq, Eq)]
pub enum PairError {
    /// The first bytes are no statement.
    Statement(DecodeError),
    /// The second bytes are no witness.
    Witness(DecodeError),
    /// The two do not go together.
    Check(SelfCheckError),
}

/// What is wrong with an encoded statement and an encoded witness.
pub open spec fn pair_error(stmt: Seq<u8>, wit: Seq<u8>, q: u64) -> Option<PairError> {
    match parse_statement(stmt) {
        Err(e) => Some(PairError::Statement(e)),
        Ok(s) => match parse_witness(wit) {
            Err(e) => Some(PairError::Witness(e)),
            Ok((wq, w)) => match self_check_error(s, wq, w, q) {
                Some(e) => Some(PairError::Check(e)),
                None => None,
            },
        },
    }
}

/// Decodes a statement and a witness and checks that they go together.
pub fn self_check_encoded(stmt: &[u8], wit: &[u8], q: u64) -> (r: Result<(), PairError>)
    requires
        WITNESS_COEFF_MAX < q <= i64::MAX,
    ensures
        match r {
            Ok(_) => pair_error(stmt@, wit@, q) is None,
            Err(e) => pair_error(stmt@, wit@, q) == Some(e),
        },
{
    let s = match read_statement(stmt) {
        Ok(s) => s,
        Err(e) => {
            return Err(PairError::Statement(e));
        },
    };
    let (wq, w) = match read_witness(wit) {
        Ok(p) => p,
        Err(e) => {
            return Err(PairError::Witness(e));
        },
    };
    assert forall|i: int| 0 <= i < s@.constraints.len() implies listed(
        #[trigger] s@.constraints[i],
    ) by {
        assert(well_formed(s@.constraints[i]));
    }
    match self_check(&s, wq, &w, q) {
        Ok(_) => Ok(()),
        Err(e) => Err(PairError::Check(e)),
    }
}

} // verus!
