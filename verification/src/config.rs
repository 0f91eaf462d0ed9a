//! The parts of a round chain's configuration that an export reads.

use vstd::arithmetic::power2::{
    lemma2_to64, lemma_pow2_pos, lemma_pow2_strictly_increases, lemma_pow2_unfold, pow2,
};
use vstd::prelude::*;

verus! {

/// A bit prefix: the indices of a composed witness that start with the
/// `length` bits of `prefix`.
#[derive(Clone, Copy, Debug, PartialEq, Eq)]
pub struct Prefix {
    pub prefix: usize,
    pub length: usize,
}

/// One level of a recursive commitment.
#[derive(Debug, PartialEq, Eq)]
pub struct RecursionConfig {
    pub decomposition_base_log: usize,
    pub decomposition_chunks: usize,
    pub rank: usize,
    pub prefix: Prefix,
    pub next: Option<Box<RecursionConfig>>,
}

/// How a round projects its witness.
#[derive(Debug, PartialEq, Eq)]
pub enum Projection {
    Coarse(RecursionConfig),
    Fine {
        recursion_constant_term: RecursionConfig,
        recursion_batched_projection: RecursionConfig,
    },
    Skip,
}

/// The configuration of one sumcheck round. The two norm bounds are squared
/// and rounded down.
#[derive(Debug, PartialEq, Eq)]
pub struct SumcheckConfig {
    pub composed_witness_length: usize,
    pub witness_width: usize,
    pub witness_height: usize,
    pub basic_commitment_rank: usize,
    pub commitment_recursion: RecursionConfig,
    pub opening_recursion: RecursionConfig,
    pub projection_recursion: Projection,
    pub norm_bound_sq: u128,
    pub most_inner_norm_bound_sq: u64,
    pub next: Option<Box<Config>>,
}

/// A link of the chain: a sumcheck round, or a final round of another kind.
#[derive(Debug, PartialEq, Eq)]
pub enum Config {
    Sumcheck(SumcheckConfig),
    Other,
}

/// Why there is no round to cut at.
#[derive(Clone, Copy, Debug, PartialEq, Eq)]
pub enum RoundError {
    /// The chain does not begin with a sumcheck round.
    RootNotSumcheck,
    /// The chain leaves the sumcheck rounds before the cut.
    RoundNotSumcheck,
}

/// The dimensions of the relation that is handed over at a cut.
#[derive(Clone, Copy, Debug, PartialEq, Eq)]
pub struct ChainShape {
    pub a1_rank: usize,
    pub a1_rank_padded: usize,
    pub num_digits_y: usize,
    pub a2_rank: usize,
    pub num_digits_c1: usize,
    pub has_c1dec: bool,
    pub width: usize,
    pub height: usize,
}

/// The least power of two that is not below `n`.
pub open spec fn next_pow2(n: nat) -> nat
    decreases n,
{
    if n <= 1 {
        1
    } else {
        2 * next_pow2((n + 1) / 2)
    }
}

/// The logarithm of `n` to base two, rounded down.
pub open spec fn floor_log2(n: nat) -> nat
    decreases n,
{
    if n <= 1 {
        0
    } else {
        1 + floor_log2(n / 2)
    }
}

/// The last level of a recursive commitment.
pub open spec fn most_inner(c: RecursionConfig) -> RecursionConfig
    decreases c,
{
    match c.next {
        Some(n) => most_inner(*n),
        None => c,
    }
}

/// The sumcheck round that follows `c`, if one does.
pub open spec fn next_round(c: SumcheckConfig) -> Option<SumcheckConfig> {
    match c.next {
        Some(n) => match *n {
            Config::Sumcheck(d) => Some(d),
            Config::Other => None,
        },
        None => None,
    }
}

/// The sumcheck round `steps` rounds after `c`, if the chain gets there.
pub open spec fn nth_round(c: SumcheckConfig, steps: nat) -> Option<SumcheckConfig>
    decreases steps,
{
    if steps == 0 {
        Some(c)
    } else {
        match nth_round(c, (steps - 1) as nat) {
            Some(d) => next_round(d),
            None => None,
        }
    }
}

/// The round that a cut at round `cut`, counted from one, refers to. Cuts at
/// zero and one both mean the first round.
pub open spec fn round_at(root: Config, cut: usize) -> Result<SumcheckConfig, RoundError> {
    match root {
        Config::Other => Err(RoundError::RootNotSumcheck),
        Config::Sumcheck(c) => match nth_round(
            c,
            if cut == 0 {
                0
            } else {
                (cut - 1) as nat
            },
        ) {
            Some(d) => Ok(d),
            None => Err(RoundError::RoundNotSumcheck),
        },
    }
}

/// The dimensions that the configuration `nc` of the round after the cut
/// gives.
pub open spec fn shape_of(nc: SumcheckConfig) -> ChainShape {
    ChainShape {
        a1_rank: nc.basic_commitment_rank,
        a1_rank_padded: next_pow2(nc.basic_commitment_rank as nat) as usize,
        num_digits_y: nc.commitment_recursion.decomposition_chunks,
        a2_rank: nc.commitment_recursion.rank,
        num_digits_c1: match nc.commitment_recursion.next {
            Some(n) => n.decomposition_chunks,
            None => 0,
        },
        has_c1dec: nc.commitment_recursion.next is Some,
        width: nc.witness_width,
        height: nc.witness_height,
    }
}

/// The indices with prefix `p` among those of `total_vars` bits fit a machine
/// word.
pub open spec fn prefix_fits(p: Prefix, total_vars: int) -> bool {
    &&& p.length <= total_vars
    &&& (p.prefix + 1) * pow2((total_vars - p.length) as nat) <= usize::MAX
}

/// The half-open range of the indices of `total_vars` bits with prefix `p`.
pub open spec fn prefix_bounds(p: Prefix, total_vars: int) -> (int, int) {
    let size = pow2((total_vars - p.length) as nat);
    (p.prefix * size, (p.prefix + 1) * size)
}

/// The prefixes of the most inner commitments of a round, commitment first.
pub open spec fn inner_prefixes(c: SumcheckConfig) -> Seq<Prefix> {
    seq![
        most_inner(c.commitment_recursion).prefix,
        most_inner(c.opening_recursion).prefix,
    ] + match c.projection_recursion {
        Projection::Coarse(r) => seq![most_inner(r).prefix],
        Projection::Fine { recursion_constant_term, recursion_batched_projection } => seq![
            most_inner(recursion_constant_term).prefix,
            most_inner(recursion_batched_projection).prefix,
        ],
        Projection::Skip => seq![],
    }
}

/// Number of index bits of the composed witness of a round.
pub open spec fn total_vars(c: SumcheckConfig) -> int {
    floor_log2(c.composed_witness_length as nat) as int
}

/// All most inner ranges of a round can be computed.
pub open spec fn inner_ranges_fit(c: SumcheckConfig) -> bool {
    &&& c.composed_witness_length > 0
    &&& forall|i: int|
        0 <= i < inner_prefixes(c).len() ==> prefix_fits(
            #[trigger] inner_prefixes(c)[i],
            total_vars(c),
        )
}

/// `next_pow2` is a power of two, at least its argument, and no smaller power
/// of two is.
pub proof fn law_next_pow2(n: nat)
    ensures
        exists|e: nat| next_pow2(n) == pow2(e),
        next_pow2(n) >= n,
        forall|e: nat| n <= #[trigger] pow2(e) ==> next_pow2(n) <= pow2(e),
    decreases n,
{
    lemma2_to64();
    if n <= 1 {
        assert(next_pow2(n) == pow2(0));
        assert forall|e: nat| n <= #[trigger] pow2(e) implies next_pow2(n) <= pow2(e) by {
            lemma_pow2_pos(e);
        }
    } else {
        let m = (n + 1) / 2;
        law_next_pow2(m);
        let e = choose|e: nat| next_pow2(m) == pow2(e);
        lemma_pow2_unfold(e + 1);
        assert(next_pow2(n) == pow2(e + 1));
        assert forall|d: nat| n <= #[trigger] pow2(d) implies next_pow2(n) <= pow2(d) by {
            if d == 0 {
                assert(false);
            }
            lemma_pow2_unfold(d);
            assert(m <= pow2((d - 1) as nat));
        }
    }
}

/// `floor_log2` is the greatest exponent whose power of two does not exceed
/// its argument.
pub proof fn law_floor_log2(n: nat)
    requires
        n > 0,
    ensures
        pow2(floor_log2(n)) <= n < pow2(floor_log2(n) + 1),
    decreases n,
{
    lemma2_to64();
    if n > 1 {
        law_floor_log2(n / 2);
        lemma_pow2_unfold(floor_log2(n));
        lemma_pow2_unfold(floor_log2(n) + 1);
    }
}

/// Shifting one left gives a power of two.
proof fn shl_one(s: u64)
    requires
        s < 64,
    ensures
        1u64 << s == pow2(s as nat),
        pow2(s as nat) <= u64::MAX,
{
    lemma2_to64();
    vstd::arithmetic::power2::lemma2_to64_rest();
    vstd::bits::lemma_u64_shl_is_mul(1, s);
}

/// Powers of two below `2^64` fit a word.
pub proof fn weight_fits(e: nat)
    requires
        e < 64,
    ensures
        0 < pow2(e) <= u64::MAX,
{
    shl_one(e as u64);
    lemma_pow2_pos(e);
}

/// The least power of two that is not below `n`.
pub fn next_power_of_two(n: usize) -> (r: usize)
    requires
        next_pow2(n as nat) <= usize::MAX,
    ensures
        r == next_pow2(n as nat),
    decreases n,
{
    if n <= 1 {
        1
    } else {
        let m: usize = n / 2 + n % 2;
        assert(m == (n + 1) / 2);
        2 * next_power_of_two(m)
    }
}

/// The logarithm of `n` to base two, rounded down.
pub fn ilog2(n: usize) -> (r: usize)
    requires
        n > 0,
    ensures
        r == floor_log2(n as nat),
        r < 64,
{
    let mut m: usize = n;
    let mut r: usize = 0;
    proof {
        lemma2_to64();
        vstd::arithmetic::power2::lemma2_to64_rest();
    }
    while m > 1
        invariant
            m > 0,
            r + floor_log2(m as nat) == floor_log2(n as nat),
            m * pow2(r as nat) <= n,
            r <= 64,
            pow2(64) == 0x1_0000_0000_0000_0000,
        decreases m,
    {
        proof {
            lemma_pow2_unfold((r + 1) as nat);
            lemma_pow2_pos(r as nat);
            let h = (m / 2) as int;
            let p = pow2(r as nat) as int;
            assert(h * (2 * p) <= m * p) by (nonlinear_arith)
                requires
                    2 * h <= m,
                    p > 0,
            ;
            if r == 64 {
                assert(m * p >= 2 * p) by (nonlinear_arith)
                    requires
                        m >= 2,
                        p > 0,
                ;
                assert(false);
            }
        }
        m = m / 2;
        r = r + 1;
    }
    proof {
        if r == 64 {
            assert(m * pow2(64) == pow2(64)) by (nonlinear_arith)
                requires
                    m == 1,
            ;
            assert(false);
        }
    }
    r
}

/// Digit weight `k` of a decomposition to base `2^base_log`.
pub fn pow2_bk(base_log: usize, k: usize) -> (r: u64)
    requires
        base_log * k < 64,
    ensures
        r == pow2((base_log * k) as nat),
{
    proof {
        shl_one((base_log * k) as u64);
    }
    1u64 << (base_log * k)
}

/// The square of the largest digit of a balanced decomposition to base
/// `2^base_log`.
pub fn digit_bound_sq(base_log: usize) -> (r: u64)
    requires
        1 <= base_log <= 32,
    ensures
        r == digit_sq(base_log as int),
{
    proof {
        shl_one((base_log - 1) as u64);
        digit_sq_bound(base_log as int);
    }
    let d_max: u64 = 1u64 << (base_log - 1);
    d_max * d_max
}

/// The square of `2^(base_log - 1)`.
pub open spec fn digit_sq(base_log: int) -> int {
    (pow2((base_log - 1) as nat) * pow2((base_log - 1) as nat)) as int
}

/// Squared digits fit a word for every admissible base.
pub proof fn digit_sq_bound(base_log: int)
    requires
        1 <= base_log <= 32,
    ensures
        0 < digit_sq(base_log) <= 0x4000_0000_0000_0000,
{
    lemma2_to64();
    let e = (base_log - 1) as nat;
    if e < 31 {
        lemma_pow2_strictly_increases(e, 31);
    }
    lemma_pow2_pos(e);
    assert(0 < pow2(e) * pow2(e) <= 0x8000_0000 * 0x8000_0000) by (nonlinear_arith)
        requires
            0 < pow2(e) <= 0x8000_0000,
    ;
}

impl RecursionConfig {
    /// The last level of the recursion.
    pub fn most_inner_config(&self) -> (r: &RecursionConfig)
        ensures
            *r == most_inner(*self),
        decreases self,
    {
        match &self.next {
            Some(n) => n.most_inner_config(),
            None => self,
        }
    }
}

/// Finds the round to cut at.
pub fn round_config(root: &Config, cut: usize) -> (r: Result<&SumcheckConfig, RoundError>)
    ensures
        match r {
            Ok(c) => round_at(*root, cut) == Ok::<SumcheckConfig, RoundError>(*c),
            Err(e) => round_at(*root, cut) == Err::<SumcheckConfig, RoundError>(e),
        },
{
    let first: &SumcheckConfig = match root {
        Config::Sumcheck(c) => c,
        Config::Other => {
            return Err(RoundError::RootNotSumcheck);
        },
    };
    let mut cfg: &SumcheckConfig = first;
    let mut round: usize = 1;
    while round < cut
        invariant
            *root == Config::Sumcheck(*first),
            1 <= round,
            round <= cut || round == 1,
            nth_round(*first, (round - 1) as nat) == Some(*cfg),
        decreases cut - round,
    {
        let next: Option<&SumcheckConfig> = match &cfg.next {
            Some(n) => match &**n {
                Config::Sumcheck(d) => Some(d),
                Config::Other => None,
            },
            None => None,
        };
        match next {
            Some(d) => {
                cfg = d;
            },
            None => {
                proof {
                    no_round_after(*first, (round - 1) as nat, (cut - 1) as nat);
                }
                return Err(RoundError::RoundNotSumcheck);
            },
        }
        round = round + 1;
    }
    Ok(cfg)
}

/// A chain that has left the sumcheck rounds does not come back.
proof fn no_round_after(c: SumcheckConfig, at: nat, later: nat)
    requires
        nth_round(c, at) is Some,
        next_round(nth_round(c, at)->Some_0) is None,
        at < later,
    ensures
        nth_round(c, later) is None,
    decreases later,
{
    if at + 1 < later {
        no_round_after(c, at, (later - 1) as nat);
    }
}

/// The dimensions of the relation after the cut.
pub fn chain_shape(nc: &SumcheckConfig) -> (r: ChainShape)
    requires
        next_pow2(nc.basic_commitment_rank as nat) <= usize::MAX,
    ensures
        r == shape_of(*nc),
        r.num_digits_y == nc.commitment_recursion.decomposition_chunks,
        r.num_digits_c1 == match nc.commitment_recursion.next {
            Some(inner) => inner.decomposition_chunks,
            None => 0,
        },
{
    let has_c1dec: bool = nc.commitment_recursion.next.is_some();
    let num_digits_c1: usize = match &nc.commitment_recursion.next {
        Some(n) => n.decomposition_chunks,
        None => 0,
    };
    ChainShape {
        a1_rank: nc.basic_commitment_rank,
        a1_rank_padded: next_power_of_two(nc.basic_commitment_rank),
        num_digits_y: nc.commitment_recursion.decomposition_chunks,
        a2_rank: nc.commitment_recursion.rank,
        num_digits_c1,
        has_c1dec,
        width: nc.witness_width,
        height: nc.witness_height,
    }
}

/// The half-open range of the indices of `total_vars` bits with prefix `p`.
pub fn prefix_range(p: &Prefix, total_vars: usize) -> (r: (usize, usize))
    requires
        prefix_fits(*p, total_vars as int),
    ensures
        (r.0 as int, r.1 as int) == prefix_bounds(*p, total_vars as int),
{
    let k: usize = total_vars - p.length;
    proof {
        let size = pow2(k as nat) as int;
        lemma_pow2_pos(k as nat);
        assert((p.prefix + 1) * size == p.prefix * size + size) by (nonlinear_arith);
        assert(p.prefix * size >= 0) by (nonlinear_arith)
            requires
                p.prefix >= 0,
                size > 0,
        ;
        lemma2_to64();
        vstd::arithmetic::power2::lemma2_to64_rest();
        if k >= usize::BITS {
            if k > usize::BITS {
                lemma_pow2_strictly_increases(usize::BITS as nat, k as nat);
            }
            assert(false);
        }
        vstd::layout::unsigned_int_max_values();
        vstd::bits::lemma_usize_shl_is_mul(1, k as usize);
        vstd::bits::lemma_usize_shl_is_mul(p.prefix, k as usize);
    }
    let size: usize = 1usize << k;
    let start: usize = p.prefix << k;
    (start, start + size)
}

/// The index ranges of the most inner commitments of a round.
pub fn most_inner_ranges(round_cfg: &SumcheckConfig) -> (r: Vec<(usize, usize)>)
    requires
        inner_ranges_fit(*round_cfg),
    ensures
        r@.len() == inner_prefixes(*round_cfg).len(),
        forall|i: int|
            0 <= i < r@.len() ==> (#[trigger] r@[i].0 as int, r@[i].1 as int) == prefix_bounds(
                inner_prefixes(*round_cfg)[i],
                total_vars(*round_cfg),
            ),
{
    let total: usize = ilog2(round_cfg.composed_witness_length);
    let ghost ps = inner_prefixes(*round_cfg);
    assert(prefix_fits(ps[0], total as int));
    assert(prefix_fits(ps[1], total as int));
    let mut ranges: Vec<(usize, usize)> = Vec::new();
    ranges.push(prefix_range(&round_cfg.commitment_recursion.most_inner_config().prefix, total));
    ranges.push(prefix_range(&round_cfg.opening_recursion.most_inner_config().prefix, total));
    match &round_cfg.projection_recursion {
        Projection::Coarse(c) => {
            assert(prefix_fits(ps[2], total as int));
            ranges.push(prefix_range(&c.most_inner_config().prefix, total));
        },
        Projection::Fine { recursion_constant_term, recursion_batched_projection } => {
            assert(prefix_fits(ps[2], total as int));
            assert(prefix_fits(ps[3], total as int));
            ranges.push(prefix_range(&recursion_constant_term.most_inner_config().prefix, total));
            ranges.push(
                prefix_range(&recursion_batched_projection.most_inner_config().prefix, total),
            );
        },
        Projection::Skip => {},
    }
    ranges
}

} // verus!
