//! The witness coefficients that the ring elements of a boundary give.

use crate::config::ChainShape;
use crate::layout::shape_lengths;
use crate::public::{mixed_radix_bound, shape_ok, y_flat, y_flat_at};
use crate::r64::{center, center_spec};
use crate::ring::RingElement;
use crate::sums::sum;
use vstd::arithmetic::div_mod::{lemma_mod_mod, lemma_small_mod};
use vstd::prelude::*;

verus! {

/// All coefficients of an element can be centered.
pub open spec fn centerable(el: RingElement, q: u64) -> bool {
    forall|i: int| 0 <= i < 128 ==> center_spec(#[trigger] el.v@[i], q) >= i64::MIN
}

/// The centered coefficients of a list of elements, element by element.
pub open spec fn coeffs_of(els: Seq<RingElement>, q: u64) -> Seq<i64> {
    Seq::new(
        128 * els.len(),
        |i: int| center_spec(els[i / 128].v@[i % 128], q) as i64,
    )
}

/// The sum of the squares of a list of coefficients.
pub open spec fn sum_sq(c: Seq<i64>) -> int {
    sum(0, c.len() as int, |i: int| c[i] * c[i])
}

/// The remainder modulo `2^64`.
pub open spec fn low_word(n: int) -> int {
    n % 0x1_0000_0000_0000_0000
}

/// Number of values of a 128-bit word.
spec fn two_pow_128() -> int {
    0x1_0000_0000_0000_0000_0000_0000_0000_0000int
}

/// The digits of the inner commitments in the order of `ydec`.
pub open spec fn ydec_elements(s: ChainShape, data: Seq<RingElement>) -> Seq<RingElement> {
    Seq::new(
        (s.width * s.a1_rank_padded * s.num_digits_y) as nat,
        |e: int| data[y_flat(s, e)],
    )
}

/// The digits of the outer commitment, in order.
pub open spec fn c1dec_elements(s: ChainShape, data: Seq<RingElement>) -> Seq<RingElement> {
    data.subrange(0, s.a2_rank * s.num_digits_c1)
}

/// Appending one coefficient adds its square.
proof fn sum_sq_push(c: Seq<i64>, x: i64)
    ensures
        sum_sq(c.push(x)) == sum_sq(c) + x * x,
{
    let f = |i: int| c[i] * c[i];
    let g = |i: int| c.push(x)[i] * c.push(x)[i];
    crate::sums::sum_ext(0, c.len() as int, f, g);
}

/// Adds a square to a running sum modulo `2^128`.
fn add_square(acc: u128, s: i64, Ghost(total): Ghost<int>) -> (r: u128)
    requires
        acc == total % two_pow_128(),
    ensures
        r == (total + s * s) % two_pow_128(),
{
    proof {
        assert(0 <= s * s <= 0x4000_0000_0000_0000_0000_0000_0000_0000) by (nonlinear_arith)
            requires
                -0x8000_0000_0000_0000 <= s <= 0x7fff_ffff_ffff_ffff,
        ;
        let m = two_pow_128();
        vstd::arithmetic::div_mod::lemma_add_mod_noop(total, s * s, m);
        lemma_small_mod((s * s) as nat, m as nat);
        if acc + s * s >= m {
            vstd::arithmetic::div_mod::lemma_mod_sub_multiples_vanish(acc + s * s, m);
            lemma_small_mod((acc + s * s - m) as nat, m as nat);
        } else {
            lemma_small_mod((acc + s * s) as nat, m as nat);
        }
    }
    let sq: u128 = (s as i128 * s as i128) as u128;
    acc.wrapping_add(sq)
}

/// The low 64 bits of a running sum modulo `2^128`.
fn low_bits(acc: u128, Ghost(total): Ghost<int>) -> (r: u64)
    requires
        acc == total % two_pow_128(),
    ensures
        r == low_word(total),
{
    proof {
        assert((acc as u64) as u128 == acc % 0x1_0000_0000_0000_0000u128) by (bit_vector);
        lemma_mod_mod(total, 0x1_0000_0000_0000_0000, 0x1_0000_0000_0000_0000);
    }
    acc as u64
}

/// Appends the centered coefficients of `el` and adds their squares to a
/// running sum modulo `2^128`.
fn push_element(coeffs: &mut Vec<i64>, acc: u128, el: &RingElement, q: u64) -> (r: u128)
    requires
        q <= i64::MAX,
        centerable(*el, q),
        acc == sum_sq(old(coeffs)@) % two_pow_128(),
    ensures
        final(coeffs)@ == old(coeffs)@ + coeffs_of(seq![*el], q),
        r == sum_sq(final(coeffs)@) % two_pow_128(),
{
    let ghost before = coeffs@;
    let ghost added = coeffs_of(seq![*el], q);
    let mut betasq: u128 = acc;
    assert(coeffs@ =~= before + added.take(0));
    for i in 0..128usize
        invariant
            q <= i64::MAX,
            centerable(*el, q),
            added == coeffs_of(seq![*el], q),
            coeffs@ == before + added.take(i as int),
            betasq == sum_sq(coeffs@) % two_pow_128(),
    {
        assert(center_spec(el.v@[i as int], q) >= i64::MIN);
        let s: i64 = center(el.v[i], q);
        betasq = add_square(betasq, s, Ghost(sum_sq(coeffs@)));
        proof {
            sum_sq_push(coeffs@, s);
        }
        coeffs.push(s);
        assert(added[i as int] == s);
        assert(coeffs@ =~= before + added.take(i + 1));
    }
    assert(added.take(128) =~= added);
    betasq
}

/// The coefficients of two lists of elements one after the other.
pub proof fn coeffs_add(a: Seq<RingElement>, b: Seq<RingElement>, q: u64)
    ensures
        coeffs_of(a + b, q) == coeffs_of(a, q) + coeffs_of(b, q),
{
    let n = 128 * a.len();
    assert forall|i: int| 0 <= i < coeffs_of(a + b, q).len() implies coeffs_of(a + b, q)[i] == (
    coeffs_of(a, q) + coeffs_of(b, q))[i] by {
        if i >= n {
            assert((i - n) / 128 == i / 128 - a.len());
            assert((i - n) % 128 == i % 128);
        }
    }
    assert(coeffs_of(a + b, q) =~= coeffs_of(a, q) + coeffs_of(b, q));
}

/// The sum of no squares is zero.
proof fn sum_sq_empty()
    ensures
        sum_sq(Seq::<i64>::empty()) % two_pow_128() == 0,
{
}

/// The witness coefficients of elements `start` to `end` of `w`, and the sum
/// of their squares modulo `2^64`.
pub fn w_range_witness(w: &[RingElement], start: usize, end: usize, q: u64) -> (r: (Vec<i64>, u64))
    requires
        q <= i64::MAX,
        start <= end <= w@.len(),
        forall|i: int| start <= i < end ==> centerable(#[trigger] w@[i], q),
    ensures
        r.0@ == coeffs_of(w@.subrange(start as int, end as int), q),
        r.1 == low_word(sum_sq(r.0@)),
{
    let mut coeffs: Vec<i64> = Vec::new();
    let mut betasq: u128 = 0;
    proof {
        sum_sq_empty();
        assert(coeffs@ =~= coeffs_of(w@.subrange(start as int, start as int), q));
    }
    for i in start..end
        invariant
            q <= i64::MAX,
            start <= end <= w@.len(),
            forall|i: int| start <= i < end ==> centerable(#[trigger] w@[i], q),
            coeffs@ == coeffs_of(w@.subrange(start as int, i as int), q),
            betasq == sum_sq(coeffs@) % two_pow_128(),
    {
        betasq = push_element(&mut coeffs, betasq, &w[i], q);
        proof {
            coeffs_add(w@.subrange(start as int, i as int), seq![w@[i as int]], q);
            assert(w@.subrange(start as int, i + 1) =~= w@.subrange(start as int, i as int)
                + seq![w@[i as int]]);
        }
    }
    let low = low_bits(betasq, Ghost(sum_sq(coeffs@)));
    (coeffs, low)
}

/// The witness coefficients of the digits of the inner commitments, and the
/// sum of their squares modulo `2^64`.
pub fn ydec_witness(committed_data: &[RingElement], shape: &ChainShape, q: u64) -> (r: (
    Vec<i64>,
    u64,
))
    requires
        q <= i64::MAX,
        shape_ok(*shape),
        committed_data@.len() >= shape.width * shape.a1_rank_padded * shape.num_digits_y,
        forall|i: int|
            0 <= i < shape.width * shape.a1_rank_padded * shape.num_digits_y ==> centerable(
                #[trigger] committed_data@[i],
                q,
            ),
    ensures
        r.0@ == coeffs_of(ydec_elements(*shape, committed_data@), q),
        r.1 == low_word(sum_sq(r.0@)),
{
    let mut coeffs: Vec<i64> = Vec::new();
    let mut betasq: u128 = 0;
    let ghost s = *shape;
    let ghost els = ydec_elements(s, committed_data@);
    let ghost p = s.a1_rank_padded as int;
    let ghost nd = s.num_digits_y as int;
    proof {
        sum_sq_empty();
        shape_lengths(s);
        assert(0 * p * nd == 0) by (nonlinear_arith);
        assert(coeffs@ =~= coeffs_of(els.take(0), q));
    }
    for col in 0..shape.width
        invariant
            q <= i64::MAX,
            s == *shape,
            shape_ok(s),
            committed_data@.len() >= s.width * s.a1_rank_padded * s.num_digits_y,
            forall|i: int|
                0 <= i < s.width * s.a1_rank_padded * s.num_digits_y ==> centerable(
                    #[trigger] committed_data@[i],
                    q,
                ),
            els == ydec_elements(s, committed_data@),
            p == s.a1_rank_padded,
            nd == s.num_digits_y,
            0 <= col * p * nd <= els.len(),
            coeffs@ == coeffs_of(els.take(col * p * nd), q),
            betasq == sum_sq(coeffs@) % two_pow_128(),
    {
        for t in 0..shape.a1_rank_padded
            invariant
                q <= i64::MAX,
                s == *shape,
                shape_ok(s),
                col < s.width,
                committed_data@.len() >= s.width * s.a1_rank_padded * s.num_digits_y,
                forall|i: int|
                    0 <= i < s.width * s.a1_rank_padded * s.num_digits_y ==> centerable(
                        #[trigger] committed_data@[i],
                        q,
                    ),
                els == ydec_elements(s, committed_data@),
                p == s.a1_rank_padded,
                nd == s.num_digits_y,
                0 <= (col * p + t) * nd <= els.len(),
                coeffs@ == coeffs_of(els.take((col * p + t) * nd), q),
                betasq == sum_sq(coeffs@) % two_pow_128(),
        {
            for kk in 0..shape.num_digits_y
                invariant
                    q <= i64::MAX,
                    s == *shape,
                    shape_ok(s),
                    col < s.width,
                    t < s.a1_rank_padded,
                    committed_data@.len() >= s.width * s.a1_rank_padded * s.num_digits_y,
                    forall|i: int|
                        0 <= i < s.width * s.a1_rank_padded * s.num_digits_y ==> centerable(
                            #[trigger] committed_data@[i],
                            q,
                        ),
                    els == ydec_elements(s, committed_data@),
                    p == s.a1_rank_padded,
                    nd == s.num_digits_y,
                    0 <= (col * p + t) * nd + kk <= els.len(),
                    coeffs@ == coeffs_of(els.take((col * p + t) * nd + kk), q),
                    betasq == sum_sq(coeffs@) % two_pow_128(),
            {
                let ghost e = (col * p + t) * nd + kk;
                proof {
                    y_flat_at(s, col as int, t as int, kk as int);
                    mixed_radix_bound(t as int, col as int, p, s.width as int);
                    assert(p * s.width == s.width * p) by (nonlinear_arith);
                    assert(0 <= (t * s.width + col) * nd) by (nonlinear_arith)
                        requires
                            t * s.width + col >= 0,
                            nd >= 0,
                    ;
                    assert(t * s.width >= 0) by (nonlinear_arith)
                        requires
                            t >= 0,
                            s.width >= 0,
                    ;
                }
                let flat: usize = (t * shape.width + col) * shape.num_digits_y + kk;
                betasq = push_element(&mut coeffs, betasq, &committed_data[flat], q);
                proof {
                    coeffs_add(els.take(e), seq![committed_data@[flat as int]], q);
                    assert(els.take(e + 1) =~= els.take(e) + seq![committed_data@[flat as int]]);
                }
            }
            assert((col * p + t) * nd + nd == (col * p + (t + 1)) * nd) by (nonlinear_arith);
        }
        assert(col * p + p == (col + 1) * p) by (nonlinear_arith);
    }
    assert(els.take(s.width * p * nd) =~= els);
    let low = low_bits(betasq, Ghost(sum_sq(coeffs@)));
    (coeffs, low)
}

/// The witness coefficients of the digits of the outer commitment, and the sum
/// of their squares modulo `2^64`.
pub fn c1dec_witness(committed_data: &[RingElement], shape: &ChainShape, q: u64) -> (r: (
    Vec<i64>,
    u64,
))
    requires
        q <= i64::MAX,
        shape.a2_rank * shape.num_digits_c1 <= committed_data@.len(),
        forall|i: int|
            0 <= i < shape.a2_rank * shape.num_digits_c1 ==> centerable(
                #[trigger] committed_data@[i],
                q,
            ),
    ensures
        r.0@ == coeffs_of(c1dec_elements(*shape, committed_data@), q),
        r.1 == low_word(sum_sq(r.0@)),
{
    proof {
        shape_lengths(*shape);
        assert(committed_data.len() == committed_data@.len());
    }
    let n: usize = shape.a2_rank * shape.num_digits_c1;
    w_range_witness(committed_data, 0, n, q)
}

} // verus!
