//! Checks that a boundary can be exported at all: its lists are long enough
//! for its configuration, and all sizes fit.

use crate::config::{
    digit_bound_sq, digit_sq_bound, ilog2, inner_prefixes, inner_ranges_fit, most_inner, next_pow2,
    prefix_fits, shape_of, total_vars, ChainShape, Prefix, Projection, RecursionConfig,
    SumcheckConfig,
};
use crate::export::{
    all_centerable, caps_fit, key_rows, prover_ready, public_view, ready, ProverBoundary,
    PublicBoundary,
};
use crate::layout::{shape_fits, shape_lengths};
use crate::public::weights_fit;
use crate::r64::{center_spec, word_as_signed};
use crate::ring::RingElement;
use crate::witness::centerable;
use vstd::arithmetic::power2::lemma_pow2_pos;
use vstd::prelude::*;

verus! {

/// The least power of two that is not below `n`, if it fits.
fn padded_rank(n: usize) -> (r: Option<usize>)
    ensures
        match r {
            Some(p) => p == next_pow2(n as nat),
            None => next_pow2(n as nat) > usize::MAX,
        },
    decreases n,
{
    if n <= 1 {
        Some(1)
    } else {
        let m: usize = n / 2 + n % 2;
        assert(m == (n + 1) / 2);
        match padded_rank(m) {
            Some(p) => p.checked_mul(2),
            None => None,
        }
    }
}

/// Whether the indices with a prefix fit.
fn prefix_ok(p: &Prefix, total: usize) -> (r: bool)
    requires
        total < 64,
    ensures
        r == prefix_fits(*p, total as int),
{
    if p.length > total {
        return false;
    }
    let k: usize = total - p.length;
    let size: u64 = crate::config::pow2_bk(1, k);
    proof {
        assert(1 * k == k);
        lemma_pow2_pos(k as nat);
        assert((p.prefix + 1) * size <= u128::MAX) by (nonlinear_arith)
            requires
                0 <= p.prefix <= 0xffff_ffff_ffff_ffff,
                0 <= size <= 0xffff_ffff_ffff_ffff,
        ;
    }
    (p.prefix as u128 + 1) * size as u128 <= usize::MAX as u128
}

/// Whether the most inner prefix of a recursion fits.
fn recursion_ok(c: &RecursionConfig, total: usize) -> (r: bool)
    requires
        total < 64,
    ensures
        r == prefix_fits(most_inner(*c).prefix, total as int),
{
    prefix_ok(&c.most_inner_config().prefix, total)
}

/// Whether all most inner ranges of a round fit.
fn ranges_ok(c: &SumcheckConfig) -> (r: bool)
    ensures
        r == inner_ranges_fit(*c),
{
    if c.composed_witness_length == 0 {
        return false;
    }
    let total: usize = ilog2(c.composed_witness_length);
    let ghost ps = inner_prefixes(*c);
    let first: bool = recursion_ok(&c.commitment_recursion, total);
    let second: bool = recursion_ok(&c.opening_recursion, total);
    assert(first == prefix_fits(ps[0], total_vars(*c)));
    assert(second == prefix_fits(ps[1], total_vars(*c)));
    let rest: bool = match &c.projection_recursion {
        Projection::Coarse(r) => {
            let ok: bool = recursion_ok(r, total);
            assert(ok == prefix_fits(ps[2], total_vars(*c)));
            ok
        },
        Projection::Fine { recursion_constant_term, recursion_batched_projection } => {
            let a: bool = recursion_ok(recursion_constant_term, total);
            let b: bool = recursion_ok(recursion_batched_projection, total);
            assert(a == prefix_fits(ps[2], total_vars(*c)));
            assert(b == prefix_fits(ps[3], total_vars(*c)));
            a && b
        },
        Projection::Skip => true,
    };
    first && second && rest
}

/// The product of two lengths, if it fits.
fn product(a: usize, b: usize) -> (r: Option<usize>)
    ensures
        match r {
            Some(p) => p == a * b,
            None => a * b > usize::MAX,
        },
{
    a.checked_mul(b)
}

/// Whether the lengths of a shape fit.
fn lengths_ok(s: &ChainShape) -> (r: bool)
    ensures
        r == shape_fits(*s),
{
    proof {
        shape_lengths(*s);
    }
    let hw: usize = match product(s.height, s.width) {
        Some(p) => p,
        None => {
            return false;
        },
    };
    let wp: usize = match product(s.width, s.a1_rank_padded) {
        Some(p) => p,
        None => {
            return false;
        },
    };
    let y: usize = match product(wp, s.num_digits_y) {
        Some(p) => p,
        None => {
            return false;
        },
    };
    let c: usize = if s.has_c1dec {
        match product(s.a2_rank, s.num_digits_c1) {
            Some(p) => p,
            None => {
                return false;
            },
        }
    } else {
        0
    };
    2 * (hw as u128) + 2 * (y as u128) + 2 * (c as u128) <= usize::MAX as u128
}

/// Whether a layout can be computed for a round and a shape.
pub fn layout_ready(round: &SumcheckConfig, s: &ChainShape) -> (r: bool)
    ensures
        r == (inner_ranges_fit(*round) && shape_fits(*s)),
{
    ranges_ok(round) && lengths_ok(s)
}

/// Whether the digit weights of a decomposition fit.
fn weights_ok(base_log: usize, n: usize) -> (r: bool)
    ensures
        r == weights_fit(base_log, n),
{
    if n == 0 {
        return true;
    }
    let last: usize = n - 1;
    let r: bool = match base_log.checked_mul(last) {
        Some(p) => p < 64,
        None => false,
    };
    proof {
        if r {
            assert forall|k: int| 0 <= k < n implies #[trigger] (base_log * k) < 64 by {
                assert(base_log * k <= base_log * last) by (nonlinear_arith)
                    requires
                        0 <= k <= last,
                        0 <= base_log,
                ;
            }
        } else {
            assert(base_log * (last as int) >= 64);
        }
    }
    r
}

/// Whether the first `rank` rows of a key have `n` elements.
fn rows_ok(ck: &Vec<Vec<RingElement>>, rank: usize, n: usize) -> (r: bool)
    ensures
        r == (ck@.len() >= rank && forall|t: int|
            0 <= t < rank ==> (#[trigger] key_rows(ck@)[t]).len() >= n),
{
    if ck.len() < rank {
        return false;
    }
    let ghost rows = key_rows(ck@);
    for t in 0..rank
        invariant
            rank <= ck@.len(),
            rows == key_rows(ck@),
            forall|u: int| 0 <= u < t ==> (#[trigger] rows[u]).len() >= n,
    {
        if ck[t].len() < n {
            assert(rows[t as int].len() < n);
            return false;
        }
    }
    true
}

/// Whether the caps fit 128 bits together with `norm_sq`.
fn caps_ok(s: &ChainShape, a2_base_log: usize, a3_base_log: usize, norm_sq: u128) -> (r: bool)
    requires
        shape_fits(*s),
    ensures
        r == caps_fit(*s, a2_base_log as int, a3_base_log as int, norm_sq),
{
    if a2_base_log < 1 || a2_base_log > 32 {
        return false;
    }
    if s.has_c1dec && (a3_base_log < 1 || a3_base_log > 32) {
        return false;
    }
    proof {
        shape_lengths(*s);
        digit_sq_bound(a2_base_log as int);
    }
    let y: u128 = (s.width * s.a1_rank_padded * s.num_digits_y * 2) as u128 * 64;
    let yd: u64 = digit_bound_sq(a2_base_log);
    proof {
        assert(0 <= y * yd) by (nonlinear_arith)
            requires
                0 <= y,
                0 <= yd,
        ;
    }
    let first: Option<u128> = y.checked_mul(yd as u128);
    let second: Option<u128> = if s.has_c1dec {
        let c: u128 = (s.a2_rank * s.num_digits_c1 * 2) as u128 * 64;
        let cd: u64 = digit_bound_sq(a3_base_log);
        proof {
            digit_sq_bound(a3_base_log as int);
            assert(0 <= c * cd) by (nonlinear_arith)
                requires
                    0 <= c,
                    0 <= cd,
            ;
        }
        c.checked_mul(cd as u128)
    } else {
        Some(0)
    };
    match (first, second) {
        (Some(a), Some(b)) => match a.checked_add(b) {
            Some(caps) => norm_sq.checked_add(caps).is_some(),
            None => false,
        },
        _ => false,
    }
}

/// Whether the public part of a boundary can be exported for a cut at `round`.
pub fn is_ready(round: &SumcheckConfig, b: &PublicBoundary, q: u64) -> (r: bool)
    ensures
        r == ready(*round, b@, q),
{
    if padded_rank(b.config.basic_commitment_rank).is_none() {
        return false;
    }
    let s = crate::config::chain_shape(&b.config);
    let ghost d = public_view(b@, q);
    if !layout_ready(round, &s) {
        return false;
    }
    if s.has_c1dec && b.a3.len() < 1 {
        return false;
    }
    if s.width > 0 && s.height > 0 && (b.inner0.len() < s.height || b.inner1.len() < s.height
        || b.outer0.len() < s.width || b.outer1.len() < s.width) {
        return false;
    }
    proof {
        shape_lengths(s);
        assert(s.width * s.height == s.height * s.width) by (nonlinear_arith);
        assert forall|t: int| 0 <= t < d.a1.len() implies (#[trigger] d.a1[t]).len()
            == b@.a1[t].len() by {}
        assert forall|u: int| 0 <= u < d.a2.len() implies (#[trigger] d.a2[u]).len()
            == b@.a2[u].len() by {}
    }
    let a2_base_log: usize = b.config.commitment_recursion.decomposition_base_log;
    let a3_base_log: usize = match &b.config.commitment_recursion.next {
        Some(n) => n.decomposition_base_log,
        None => 0,
    };
    if s.width > 0 {
        let ok: bool = rows_ok(&b.a1, s.a1_rank, s.height);
        proof {
            assert(ok == (d.a1.len() >= s.a1_rank && forall|t: int|
                0 <= t < s.a1_rank ==> (#[trigger] d.a1[t]).len() >= s.height)) by {
                if d.a1.len() >= s.a1_rank && !ok {
                    let t = choose|t: int|
                        0 <= t < s.a1_rank && (#[trigger] key_rows(b.a1@)[t]).len() < s.height;
                    assert(d.a1[t].len() < s.height);
                }
            }
        }
        if !ok {
            return false;
        }
        if s.a1_rank > 0 && !weights_ok(a2_base_log, s.num_digits_y) {
            return false;
        }
    }
    let y: usize = s.width * s.a1_rank_padded * s.num_digits_y;
    let ok2: bool = rows_ok(&b.a2, s.a2_rank, y);
    proof {
        assert(ok2 == (d.a2.len() >= s.a2_rank && forall|u: int|
            0 <= u < s.a2_rank ==> (#[trigger] d.a2[u]).len() >= s.width * s.a1_rank_padded
                * s.num_digits_y)) by {
            if d.a2.len() >= s.a2_rank && !ok2 {
                let u = choose|u: int|
                    0 <= u < s.a2_rank && (#[trigger] key_rows(b.a2@)[u]).len() < y;
                assert(d.a2[u].len() < y);
            }
        }
    }
    if !ok2 {
        return false;
    }
    if s.has_c1dec {
        if s.a2_rank > 0 && !weights_ok(a3_base_log, s.num_digits_c1) {
            return false;
        }
        if b.a3[0].len() < s.a2_rank * s.num_digits_c1 || b.commitment.len() < 1 {
            return false;
        }
    } else if b.commitment.len() < s.a2_rank {
        return false;
    }
    caps_ok(&s, a2_base_log, a3_base_log, round.norm_bound_sq)
}

/// Whether a coefficient can be centered.
fn coefficient_ok(v: u64, q: u64) -> (r: bool)
    ensures
        r == (center_spec(v, q) >= i64::MIN),
{
    proof {
        word_as_signed(v);
    }
    if v > q / 2 {
        v as i64 as i128 - q as i128 >= i64::MIN as i128
    } else {
        true
    }
}

/// Whether the first `n` elements can be centered.
fn elements_ok(els: &Vec<RingElement>, n: usize, q: u64) -> (r: bool)
    requires
        n <= els@.len(),
    ensures
        r == all_centerable(els@, n as int, q),
{
    for i in 0..n
        invariant
            n <= els@.len(),
            forall|j: int| 0 <= j < i ==> centerable(#[trigger] els@[j], q),
    {
        for k in 0..128usize
            invariant
                i < n <= els@.len(),
                forall|m: int|
                    0 <= m < k ==> center_spec(#[trigger] els@[i as int].v@[m], q) >= i64::MIN,
        {
            if !coefficient_ok(els[i].v[k], q) {
                assert(center_spec(els@[i as int].v@[k as int], q) < i64::MIN);
                assert(!centerable(els@[i as int], q));
                return false;
            }
        }
    }
    true
}

/// Whether the prover's part of a boundary can be exported.
pub fn is_prover_ready(p: &ProverBoundary, q: u64) -> (r: bool)
    requires
        next_pow2(p.public.config.basic_commitment_rank as nat) <= usize::MAX,
        shape_fits(shape_of(p.public.config)),
    ensures
        r == prover_ready(p@, q),
{
    let s = crate::config::chain_shape(&p.public.config);
    proof {
        shape_lengths(s);
    }
    let total: usize = s.height * s.width;
    let y: usize = s.width * s.a1_rank_padded * s.num_digits_y;
    if p.witness.len() < total || p.committed_data.len() < y {
        return false;
    }
    if !elements_ok(&p.witness, total, q) || !elements_ok(&p.committed_data, y, q) {
        return false;
    }
    if s.has_c1dec {
        match &p.inner_committed_data {
            Some(inner) => {
                let n: usize = s.a2_rank * s.num_digits_c1;
                inner.len() >= n && elements_ok(inner, n, q)
            },
            None => true,
        }
    } else {
        true
    }
}

} // verus!
