//! The byte form position by position: where each field of a statement or a
//! witness stands, and which bytes are refused.

use crate::check::phi_pos;
use crate::codec::{
    block_field, elements_at, le_bytes, le_value, le_value_bound, oversized, parse_all_coeffs,
    parse_coeffs, parse_constraint, parse_constraints, parse_statement, parse_vectors,
    parse_witness, phi_pos_nonneg, vector_at, word32, word64, word_powers, DecodeError,
};
use crate::r64::signed;
use crate::statement::{ConstraintView, StatementView};
use crate::sums::sum;
use vstd::arithmetic::power2::{lemma2_to64, lemma_pow2_adds, lemma_pow2_pos, pow2};
use vstd::prelude::*;

verus! {

/// Words are little-endian: each byte weighs 256 times as much as the one before
/// it.
pub proof fn law_words(d: Seq<u8>, pos: int)
    requires
        0 <= pos,
    ensures
        pos + 4 <= d.len() ==> word32(d, pos) == d[pos] + 0x100 * d[pos + 1] + 0x1_0000 * d[pos + 2]
            + 0x100_0000 * d[pos + 3],
        pos + 8 <= d.len() ==> word64(d, pos) == d[pos] + 0x100 * d[pos + 1] + 0x1_0000 * d[pos + 2]
            + 0x100_0000 * d[pos + 3] + 0x1_0000_0000 * d[pos + 4] + 0x100_0000_0000 * d[pos + 5]
            + 0x1_0000_0000_0000 * d[pos + 6] + 0x100_0000_0000_0000 * d[pos + 7],
{
    if pos + 4 <= d.len() {
        value_step(d, pos, pos + 4);
        value_step(d, pos + 1, pos + 4);
        value_step(d, pos + 2, pos + 4);
        value_step(d, pos + 3, pos + 4);
        assert(d.subrange(pos + 4, pos + 4).len() == 0);
    }
    if pos + 8 <= d.len() {
        value_step(d, pos, pos + 8);
        value_step(d, pos + 1, pos + 8);
        value_step(d, pos + 2, pos + 8);
        value_step(d, pos + 3, pos + 8);
        value_step(d, pos + 4, pos + 8);
        value_step(d, pos + 5, pos + 8);
        value_step(d, pos + 6, pos + 8);
        value_step(d, pos + 7, pos + 8);
        assert(d.subrange(pos + 8, pos + 8).len() == 0);
    }
}

/// The first byte of a number is its lowest.
proof fn value_step(d: Seq<u8>, lo: int, hi: int)
    requires
        0 <= lo < hi <= d.len(),
    ensures
        le_value(d.subrange(lo, hi)) == d[lo] + 256 * le_value(d.subrange(lo + 1, hi)),
{
    assert(d.subrange(lo, hi).drop_first() =~= d.subrange(lo + 1, hi));
}

/// Byte `k` of a number is what is left of it above `256^k`, modulo 256.
pub proof fn law_le_bytes(v: int, n: nat, k: int)
    requires
        0 <= v,
        0 <= k < n,
    ensures
        le_bytes(v, n).len() == n,
        le_bytes(v, n)[k] == (v / (pow2((8 * k) as nat) as int)) % 256,
    decreases n,
{
    crate::codec::le_bytes_len(v, n);
    lemma2_to64();
    if k > 0 {
        law_le_bytes(v / 256, (n - 1) as nat, k - 1);
        let e = (8 * (k - 1)) as nat;
        lemma_pow2_adds(8, e);
        lemma_pow2_pos(e);
        vstd::arithmetic::div_mod::lemma_div_denominator(v, 256, pow2(e) as int);
        assert(256 * pow2(e) == pow2((8 * k) as nat));
        assert(le_bytes(v, n)[k] == le_bytes(v / 256, (n - 1) as nat)[k - 1]);
    } else {
        assert(pow2((8 * k) as nat) == 1);
        assert(v / 1 == v);
        assert(le_bytes(v, n)[0] == (v % 256) as u8);
    }
}

/// Words of eight bytes.
proof fn word64_range(d: Seq<u8>, pos: int)
    requires
        0 <= pos,
        pos + 8 <= d.len(),
    ensures
        0 <= word64(d, pos) <= u64::MAX,
{
    word_powers();
    le_value_bound(d.subrange(pos, pos + 8));
}

/// Words of four bytes.
proof fn word32_range(d: Seq<u8>, pos: int)
    requires
        0 <= pos,
        pos + 4 <= d.len(),
    ensures
        0 <= word32(d, pos) <= u32::MAX,
{
    word_powers();
    le_value_bound(d.subrange(pos, pos + 4));
}

/// Bytes are refused for their first word, or else for their second one, or for
/// being too short to have both.
pub proof fn law_preamble(d: Seq<u8>)
    ensures
        parse_statement(d) == Err::<StatementView, DecodeError>(DecodeError::BadMagic) <==> d.len()
            >= 4 && word32(d, 0) != 0x524B_424C,
        parse_statement(d) == Err::<StatementView, DecodeError>(DecodeError::BadVersion)
            <==> d.len() >= 8 && word32(d, 0) == 0x524B_424C && word32(d, 4) != 2,
        parse_witness(d) == Err::<(u64, Seq<Seq<i64>>), DecodeError>(DecodeError::BadMagic)
            <==> d.len() >= 4 && word32(d, 0) != 0x524B_4257,
        parse_witness(d) == Err::<(u64, Seq<Seq<i64>>), DecodeError>(DecodeError::BadVersion)
            <==> d.len() >= 8 && word32(d, 0) == 0x524B_4257 && word32(d, 4) != 2,
{
    constraints_never_preamble(d, 64 + 24 * word64(d, 32), word64(d, 40));
    coeffs_never_preamble(d, 24, word64(d, 16));
}

/// Constraints are not refused for a first or second word.
proof fn constraints_never_preamble(d: Seq<u8>, pos: int, n: int)
    ensures
        match parse_constraints(d, pos, n) {
            Err(e) => e == DecodeError::Truncated || e == DecodeError::TooLarge,
            Ok(_) => true,
        },
    decreases n,
{
    if n > 0 {
        constraints_never_preamble(d, pos, n - 1);
    }
}

/// Witness vectors are not refused for a first or second word.
proof fn coeffs_never_preamble(d: Seq<u8>, pos: int, n: int)
    ensures
        match parse_all_coeffs(d, pos, n) {
            Err(e) => e == DecodeError::Truncated,
            Ok(_) => true,
        },
    decreases n,
{
    if n > 0 {
        coeffs_never_preamble(d, pos, n - 1);
    }
}

/// Bytes are refused as too large only for a word in them that does not fit a
/// machine word. A witness is never refused for that.
pub proof fn law_too_large(d: Seq<u8>)
    ensures
        parse_statement(d) == Err::<StatementView, DecodeError>(DecodeError::TooLarge) ==> exists|
            pos: int,
        |
            0 <= pos && pos + 8 <= d.len() && #[trigger] word64(d, pos) > usize::MAX,
        parse_witness(d) != Err::<(u64, Seq<Seq<i64>>), DecodeError>(DecodeError::TooLarge),
{
    coeffs_never_preamble(d, 24, word64(d, 16));
    if parse_statement(d) == Err::<StatementView, DecodeError>(DecodeError::TooLarge) {
        let n = word64(d, 32);
        word64_range(d, 32);
        if parse_vectors(d, 64, n) is Err {
            let i = choose|i: int| 0 <= i < n && #[trigger] oversized(d, 64, 24, i);
            assert(word64(d, 64 + 24 * i) > usize::MAX);
        } else {
            word64_range(d, 40);
            too_large_word(d, 64 + 24 * n, word64(d, 40));
        }
    }
}

/// The word for which constraints are refused as too large.
proof fn too_large_word(d: Seq<u8>, pos: int, n: int)
    requires
        0 <= pos <= d.len(),
        0 <= n,
        parse_constraints(d, pos, n) == Err::<(Seq<ConstraintView>, int), DecodeError>(
            DecodeError::TooLarge,
        ),
    ensures
        exists|at: int| 0 <= at && at + 8 <= d.len() && #[trigger] word64(d, at) > usize::MAX,
    decreases n,
{
    if parse_constraints(d, pos, n - 1) is Err {
        too_large_word(d, pos, n - 1);
    } else {
        constraints_stand(d, pos, n - 1);
        let p = parse_constraints(d, pos, n - 1)->Ok_0.1;
        let nz = word64(d, p);
        let i = choose|i: int| 0 <= i < 3 * nz && #[trigger] oversized(d, p + 8, 8, i);
        assert(word64(d, p + 8 + 8 * i) > usize::MAX);
    }
}

/// Number of bytes of a constraint: two words, three for each block, and 64 for
/// each factor and for the right-hand side, if there is one.
pub open spec fn constraint_size(c: ConstraintView) -> int {
    16 + 24 * c.idx.len() + 512 * c.phi.len() + if c.b is Some {
        512int
    } else {
        0
    }
}

/// The constraint `c` stands at `p`: the number of its blocks; vector, offset
/// and length of each; a word that is one if a right-hand side follows; the
/// right-hand side; and as many factors as the blocks are long.
pub open spec fn constraint_stands(d: Seq<u8>, p: int, c: ConstraintView) -> bool {
    let nz = c.idx.len() as int;
    let flag = p + 8 + 24 * nz;
    let factors = flag + 8 + if c.b is Some {
        512int
    } else {
        0
    };
    &&& p + constraint_size(c) <= d.len()
    &&& word64(d, p) == nz
    &&& c.off.len() == nz
    &&& c.len.len() == nz
    &&& forall|j: int| 0 <= j < nz ==> #[trigger] c.idx[j] == word64(d, p + 8 + 24 * j)
    &&& forall|j: int| 0 <= j < nz ==> #[trigger] c.off[j] == word64(d, p + 16 + 24 * j)
    &&& forall|j: int| 0 <= j < nz ==> #[trigger] c.len[j] == word64(d, p + 24 + 24 * j)
    &&& c.b is Some <==> word64(d, flag) == 1
    &&& c.b is Some ==> c.b->Some_0.len() == 64
    &&& c.b is Some ==> forall|k: int|
        0 <= k < 64 ==> #[trigger] c.b->Some_0[k] == word64(d, flag + 8 + 8 * k)
    &&& c.phi.len() == sum(0, nz, |j: int| c.len[j] as int)
    &&& forall|i: int| 0 <= i < c.phi.len() ==> (#[trigger] c.phi[i]).len() == 64
    &&& forall|i: int, k: int|
        0 <= i < c.phi.len() && 0 <= k < 64 ==> #[trigger] c.phi[i][k] == word64(
            d,
            factors + 512 * i + 8 * k,
        )
}

/// A constraint that was read stands where it was read.
pub proof fn law_parsed_constraint(d: Seq<u8>, p: int)
    requires
        0 <= p,
        parse_constraint(d, p) is Ok,
    ensures
        constraint_stands(d, p, parse_constraint(d, p)->Ok_0.0),
        parse_constraint(d, p)->Ok_0.1 == p + constraint_size(parse_constraint(d, p)->Ok_0.0),
{
    let (c, end) = parse_constraint(d, p)->Ok_0;
    let nz = word64(d, p);
    word64_range(d, p);
    let blocks = p + 8;
    let flag = blocks + 24 * nz;
    let factors = flag + 8 + if c.b is Some {
        512int
    } else {
        0
    };
    assert forall|j: int, f: int| 0 <= j < nz && 0 <= f < 3 implies #[trigger] block_field(
        d,
        blocks,
        nz,
        f,
    )[j] == word64(d, blocks + 24 * j + 8 * f) by {
        assert(!oversized(d, blocks, 8, 3 * j + f));
        assert(blocks + 8 * (3 * j + f) == blocks + 24 * j + 8 * f);
        word64_range(d, blocks + 24 * j + 8 * f);
    }
    phi_pos_nonneg(c.len, nz);
    assert forall|j: int| 0 <= j < nz implies #[trigger] c.idx[j] == word64(
        d,
        p + 8 + 24 * j,
    ) by {
        assert(block_field(d, blocks, nz, 0)[j] == word64(d, blocks + 24 * j + 8 * 0));
    }
    assert forall|j: int| 0 <= j < nz implies #[trigger] c.off[j] == word64(
        d,
        p + 16 + 24 * j,
    ) by {
        assert(block_field(d, blocks, nz, 1)[j] == word64(d, blocks + 24 * j + 8 * 1));
    }
    assert forall|j: int| 0 <= j < nz implies #[trigger] c.len[j] == word64(
        d,
        p + 24 + 24 * j,
    ) by {
        assert(block_field(d, blocks, nz, 2)[j] == word64(d, blocks + 24 * j + 8 * 2));
    }
    if c.b is Some {
        assert forall|k: int| 0 <= k < 64 implies #[trigger] c.b->Some_0[k] == word64(
            d,
            flag + 8 + 8 * k,
        ) by {
            word64_range(d, flag + 8 + 8 * k);
        }
    }
    assert forall|i: int, k: int| 0 <= i < c.phi.len() && 0 <= k < 64 implies #[trigger] c.phi[i][k]
        == word64(d, factors + 512 * i + 8 * k) by {
        assert(c.phi[i] == elements_at(d, factors, phi_pos(c.len, nz))[i]);
        word64_range(d, factors + 512 * i + 8 * k);
    }
}

/// Where constraint `ci` of a statement begins: behind the header of 64 bytes,
/// the records of 24 bytes each, and the constraints before it.
pub open spec fn constraint_start(s: StatementView, ci: int) -> int {
    64 + 24 * s.vectors.len() + sum(0, ci, |j: int| constraint_size(s.constraints[j]))
}

/// A statement stands at the start of some bytes.
pub open spec fn statement_stands(d: Seq<u8>, s: StatementView) -> bool {
    &&& constraint_start(s, s.constraints.len() as int) <= d.len()
    &&& word32(d, 0) == 0x524B_424C
    &&& word32(d, 4) == 2
    &&& s.q == word64(d, 8)
    &&& s.digest == d.subrange(16, 32)
    &&& s.vectors.len() == word64(d, 32)
    &&& s.constraints.len() == word64(d, 40)
    &&& s.betasq_w_total == word64(d, 48)
    &&& s.betasq_inner_total == word64(d, 56)
    &&& forall|i: int|
        0 <= i < s.vectors.len() ==> {
            &&& (#[trigger] s.vectors[i]).n == word64(d, 64 + 24 * i)
            &&& s.vectors[i].betasq == word64(d, 64 + 24 * i + 8)
            &&& s.vectors[i].role == word32(d, 64 + 24 * i + 16)
            &&& s.vectors[i].flags == word32(d, 64 + 24 * i + 20)
        }
    &&& forall|ci: int|
        0 <= ci < s.constraints.len() ==> constraint_stands(
            d,
            constraint_start(s, ci),
            #[trigger] s.constraints[ci],
        )
}

/// Constraints that were read stand one after the other.
proof fn constraints_stand(d: Seq<u8>, pos: int, n: int)
    requires
        0 <= pos <= d.len(),
        0 <= n,
        parse_constraints(d, pos, n) is Ok,
    ensures
        ({
            let (cs, end) = parse_constraints(d, pos, n)->Ok_0;
            &&& cs.len() == n
            &&& end == pos + sum(0, n, |j: int| constraint_size(cs[j]))
            &&& pos <= end <= d.len()
            &&& forall|ci: int|
                0 <= ci < n ==> constraint_stands(
                    d,
                    pos + sum(0, ci, |j: int| constraint_size(cs[j])),
                    #[trigger] cs[ci],
                )
        }),
    decreases n,
{
    if n > 0 {
        let (cs, end) = parse_constraints(d, pos, n)->Ok_0;
        let (before, p) = parse_constraints(d, pos, n - 1)->Ok_0;
        constraints_stand(d, pos, n - 1);
        law_parsed_constraint(d, p);
        let f = |j: int| constraint_size(before[j]);
        let g = |j: int| constraint_size(cs[j]);
        assert forall|ci: int| 0 <= ci < n implies constraint_stands(
            d,
            pos + sum(0, ci, g),
            #[trigger] cs[ci],
        ) by {
            crate::sums::sum_ext(0, ci, f, g);
            if ci < n - 1 {
                assert(cs[ci] == before[ci]);
            }
        }
        crate::sums::sum_ext(0, n - 1, f, g);
    }
}

/// A statement that was read stands in the bytes, field by field. As what is
/// written is read back, this is also where everything is written.
pub proof fn law_parsed_statement(d: Seq<u8>)
    requires
        parse_statement(d) is Ok,
    ensures
        statement_stands(d, parse_statement(d)->Ok_0),
{
    let s = parse_statement(d)->Ok_0;
    let nv = word64(d, 32);
    let nc = word64(d, 40);
    word64_range(d, 8);
    word64_range(d, 32);
    word64_range(d, 40);
    word64_range(d, 48);
    word64_range(d, 56);
    assert forall|i: int| 0 <= i < s.vectors.len() implies {
        &&& (#[trigger] s.vectors[i]).n == word64(d, 64 + 24 * i)
        &&& s.vectors[i].betasq == word64(d, 64 + 24 * i + 8)
        &&& s.vectors[i].role == word32(d, 64 + 24 * i + 16)
        &&& s.vectors[i].flags == word32(d, 64 + 24 * i + 20)
    } by {
        assert(!oversized(d, 64, 24, i));
        assert(s.vectors[i] == vector_at(d, 64 + 24 * i));
        word64_range(d, 64 + 24 * i);
        word64_range(d, 64 + 24 * i + 8);
        word32_range(d, 64 + 24 * i + 16);
        word32_range(d, 64 + 24 * i + 20);
    }
    constraints_stand(d, 64 + 24 * nv, nc);
}

/// Where vector `i` of a witness begins: behind the header of 24 bytes and the
/// vectors before it, each with a word in front of its coefficients.
pub open spec fn vector_start(w: Seq<Seq<i64>>, i: int) -> int {
    24 + sum(0, i, |j: int| 8 + 8 * (w[j].len() as int))
}

/// The number `x` is `word`, read as two's complement.
pub open spec fn is_signed(x: i64, word: int) -> bool {
    x == word || x == word - 0x1_0000_0000_0000_0000
}

/// A witness vector stands at `p`: the number of its elements, then 64
/// coefficients for each of them.
pub open spec fn vector_stands(d: Seq<u8>, p: int, v: Seq<i64>) -> bool {
    &&& p + 8 + 8 * v.len() <= d.len()
    &&& v.len() == 64 * word64(d, p)
    &&& forall|k: int|
        0 <= k < v.len() ==> is_signed(#[trigger] v[k], word64(d, p + 8 + 8 * k))
}

/// Witness vectors that were read stand one after the other.
proof fn vectors_stand(d: Seq<u8>, pos: int, n: int)
    requires
        0 <= pos <= d.len(),
        0 <= n,
        parse_all_coeffs(d, pos, n) is Ok,
    ensures
        ({
            let (w, end) = parse_all_coeffs(d, pos, n)->Ok_0;
            &&& w.len() == n
            &&& end == pos + sum(0, n, |j: int| 8 + 8 * (w[j].len() as int))
            &&& pos <= end <= d.len()
            &&& forall|i: int|
                0 <= i < n ==> vector_stands(
                    d,
                    pos + sum(0, i, |j: int| 8 + 8 * (w[j].len() as int)),
                    #[trigger] w[i],
                )
        }),
    decreases n,
{
    if n > 0 {
        let (w, end) = parse_all_coeffs(d, pos, n)->Ok_0;
        let (before, p) = parse_all_coeffs(d, pos, n - 1)->Ok_0;
        vectors_stand(d, pos, n - 1);
        word64_range(d, p);
        let v = w[n - 1];
        assert(v == parse_coeffs(d, p)->Ok_0.0);
        assert forall|k: int| 0 <= k < v.len() implies is_signed(
            #[trigger] v[k],
            word64(d, p + 8 + 8 * k),
        ) by {
            word64_range(d, p + 8 + 8 * k);
        }
        let h = |j: int| 8 + 8 * (w[j].len() as int);
        let h0 = |j: int| 8 + 8 * (before[j].len() as int);
        assert forall|i: int| 0 <= i < n implies vector_stands(
            d,
            pos + sum(0, i, h),
            #[trigger] w[i],
        ) by {
            crate::sums::sum_ext(0, i, h0, h);
            if i < n - 1 {
                assert(w[i] == before[i]);
            }
        }
        crate::sums::sum_ext(0, n - 1, h0, h);
    }
}

/// A witness stands at the start of some bytes.
pub open spec fn witness_stands(d: Seq<u8>, q: u64, w: Seq<Seq<i64>>) -> bool {
    &&& vector_start(w, w.len() as int) <= d.len()
    &&& word32(d, 0) == 0x524B_4257
    &&& word32(d, 4) == 2
    &&& q == word64(d, 8)
    &&& w.len() == word64(d, 16)
    &&& forall|i: int| 0 <= i < w.len() ==> vector_stands(d, vector_start(w, i), #[trigger] w[i])
}

/// A witness that was read stands in the bytes, coefficient by coefficient.
pub proof fn law_parsed_witness(d: Seq<u8>)
    requires
        parse_witness(d) is Ok,
    ensures
        ({
            let (q, w) = parse_witness(d)->Ok_0;
            witness_stands(d, q, w)
        }),
{
    word64_range(d, 8);
    word64_range(d, 16);
    vectors_stand(d, 24, word64(d, 16));
}

/// Words within the first `n` bytes are not changed by what follows.
proof fn words_stay(d: Seq<u8>, n: int, pos: int)
    requires
        0 <= pos,
        0 <= n <= d.len(),
    ensures
        pos + 4 <= n ==> word32(d.take(n), pos) == word32(d, pos),
        pos + 8 <= n ==> word64(d.take(n), pos) == word64(d, pos),
{
    if pos + 4 <= n {
        assert(d.take(n).subrange(pos, pos + 4) =~= d.subrange(pos, pos + 4));
    }
    if pos + 8 <= n {
        assert(d.take(n).subrange(pos, pos + 8) =~= d.subrange(pos, pos + 8));
    }
}

/// A constraint that was read is read from the first `n` bytes as well if it
/// ends there, and is truncated otherwise.
proof fn constraint_cut(d: Seq<u8>, pos: int, n: int)
    requires
        0 <= pos <= n <= d.len(),
        parse_constraint(d, pos) is Ok,
    ensures
        parse_constraint(d, pos)->Ok_0.1 <= n ==> parse_constraint(d.take(n), pos)
            == parse_constraint(d, pos),
        parse_constraint(d, pos)->Ok_0.1 > n ==> parse_constraint(d.take(n), pos) == Err::<
            (ConstraintView, int),
            DecodeError,
        >(DecodeError::Truncated),
{
    let e = d.take(n);
    let (c, end) = parse_constraint(d, pos)->Ok_0;
    law_parsed_constraint(d, pos);
    let blocks = pos + 8;
    words_stay(d, n, pos);
    if blocks <= n {
        let nz = word64(d, pos);
        word64_range(d, pos);
        let flag = blocks + 24 * nz;
        words_stay(d, n, flag);
        if flag <= n {
            assert forall|i: int| 0 <= i < 3 * nz implies !#[trigger] oversized(
                e,
                blocks,
                8,
                i,
            ) by {
                words_stay(d, n, blocks + 8 * i);
                assert(!oversized(d, blocks, 8, i));
            }
            assert forall|f: int| 0 <= f < 3 implies #[trigger] block_field(e, blocks, nz, f)
                == block_field(d, blocks, nz, f) by {
                assert forall|i: int| 0 <= i < nz implies block_field(e, blocks, nz, f)[i]
                    == block_field(d, blocks, nz, f)[i] by {
                    words_stay(d, n, blocks + 24 * i + 8 * f);
                }
                assert(block_field(e, blocks, nz, f) =~= block_field(d, blocks, nz, f));
            }
            assert(block_field(e, blocks, nz, 0) == block_field(d, blocks, nz, 0));
            assert(block_field(e, blocks, nz, 1) == block_field(d, blocks, nz, 1));
            assert(block_field(e, blocks, nz, 2) == block_field(d, blocks, nz, 2));
            phi_pos_nonneg(c.len, nz);
            let total = phi_pos(c.len, nz);
            let factors = end - 512 * total;
            if end <= n {
                if c.b is Some {
                    let x = crate::codec::element_at(e, flag + 8);
                    assert forall|k: int| 0 <= k < 64 implies x[k] == c.b->Some_0[k] by {
                        words_stay(d, n, flag + 8 + 8 * k);
                    }
                    assert(x =~= c.b->Some_0);
                }
                assert forall|i: int| 0 <= i < total implies elements_at(e, factors, total)[i]
                    == elements_at(d, factors, total)[i] by {
                    let x = crate::codec::element_at(e, factors + 512 * i);
                    let y = crate::codec::element_at(d, factors + 512 * i);
                    assert forall|k: int| 0 <= k < 64 implies x[k] == y[k] by {
                        words_stay(d, n, factors + 512 * i + 8 * k);
                    }
                    assert(x =~= y);
                }
                assert(elements_at(e, factors, total) =~= elements_at(d, factors, total));
            }
        }
    }
}

/// The same of several constraints.
proof fn constraints_cut(d: Seq<u8>, pos: int, m: int, n: int)
    requires
        0 <= pos <= n <= d.len(),
        0 <= m,
        parse_constraints(d, pos, m) is Ok,
    ensures
        parse_constraints(d, pos, m)->Ok_0.1 <= n ==> parse_constraints(d.take(n), pos, m)
            == parse_constraints(d, pos, m),
        parse_constraints(d, pos, m)->Ok_0.1 > n ==> parse_constraints(d.take(n), pos, m) == Err::<
            (Seq<ConstraintView>, int),
            DecodeError,
        >(DecodeError::Truncated),
    decreases m,
{
    if m > 0 {
        let p = parse_constraints(d, pos, m - 1)->Ok_0.1;
        constraints_stand(d, pos, m - 1);
        constraints_cut(d, pos, m - 1, n);
        law_parsed_constraint(d, p);
        if p <= n {
            constraint_cut(d, p, n);
        }
    }
}

/// A statement is read from the bytes up to its end, and from no fewer: cut
/// anywhere before, they are refused as truncated.
pub proof fn law_statement_cut(d: Seq<u8>, n: int)
    requires
        parse_statement(d) is Ok,
        0 <= n <= d.len(),
    ensures
        ({
            let s = parse_statement(d)->Ok_0;
            let end = constraint_start(s, s.constraints.len() as int);
            &&& n >= end ==> parse_statement(d.take(n)) == parse_statement(d)
            &&& n < end ==> parse_statement(d.take(n)) == Err::<StatementView, DecodeError>(
                DecodeError::Truncated,
            )
        }),
{
    let e = d.take(n);
    let s = parse_statement(d)->Ok_0;
    let nv = word64(d, 32);
    let nc = word64(d, 40);
    law_parsed_statement(d);
    word64_range(d, 32);
    word64_range(d, 40);
    constraints_stand(d, 64 + 24 * nv, nc);
    words_stay(d, n, 0);
    words_stay(d, n, 4);
    words_stay(d, n, 8);
    words_stay(d, n, 32);
    words_stay(d, n, 40);
    words_stay(d, n, 48);
    words_stay(d, n, 56);
    if n >= 64 {
        assert(e.subrange(16, 32) =~= d.subrange(16, 32));
        if 64 + 24 * nv <= n {
            assert forall|i: int| 0 <= i < nv implies !#[trigger] oversized(e, 64, 24, i)
                && vector_at(e, 64 + 24 * i) == vector_at(d, 64 + 24 * i) by {
                assert(!oversized(d, 64, 24, i));
                words_stay(d, n, 64 + 24 * i);
                words_stay(d, n, 64 + 24 * i + 8);
                words_stay(d, n, 64 + 24 * i + 16);
                words_stay(d, n, 64 + 24 * i + 20);
            }
            let a = Seq::new(nv as nat, |i: int| vector_at(e, 64 + 24 * i));
            let b = Seq::new(nv as nat, |i: int| vector_at(d, 64 + 24 * i));
            assert forall|i: int| 0 <= i < nv implies a[i] == b[i] by {
                assert(!oversized(e, 64, 24, i));
            }
            assert(a =~= b);
            constraints_cut(d, 64 + 24 * nv, nc, n);
        }
    }
}

/// The same of witness vectors.
proof fn vectors_cut(d: Seq<u8>, pos: int, m: int, n: int)
    requires
        0 <= pos <= n <= d.len(),
        0 <= m,
        parse_all_coeffs(d, pos, m) is Ok,
    ensures
        parse_all_coeffs(d, pos, m)->Ok_0.1 <= n ==> parse_all_coeffs(d.take(n), pos, m)
            == parse_all_coeffs(d, pos, m),
        parse_all_coeffs(d, pos, m)->Ok_0.1 > n ==> parse_all_coeffs(d.take(n), pos, m) == Err::<
            (Seq<Seq<i64>>, int),
            DecodeError,
        >(DecodeError::Truncated),
    decreases m,
{
    if m > 0 {
        let e = d.take(n);
        let p = parse_all_coeffs(d, pos, m - 1)->Ok_0.1;
        vectors_stand(d, pos, m - 1);
        vectors_cut(d, pos, m - 1, n);
        word64_range(d, p);
        if p <= n {
            words_stay(d, n, p);
            let (v, end) = parse_coeffs(d, p)->Ok_0;
            if end <= n {
                let v2 = parse_coeffs(e, p)->Ok_0.0;
                assert forall|i: int| 0 <= i < v.len() implies v2[i] == v[i] by {
                    words_stay(d, n, p + 8 + 8 * i);
                }
                assert(v2 =~= v);
            }
        }
    }
}

/// A witness is read from the bytes up to its end, and from no fewer.
pub proof fn law_witness_cut(d: Seq<u8>, n: int)
    requires
        parse_witness(d) is Ok,
        0 <= n <= d.len(),
    ensures
        ({
            let w = parse_witness(d)->Ok_0.1;
            let end = vector_start(w, w.len() as int);
            &&& n >= end ==> parse_witness(d.take(n)) == parse_witness(d)
            &&& n < end ==> parse_witness(d.take(n)) == Err::<(u64, Seq<Seq<i64>>), DecodeError>(
                DecodeError::Truncated,
            )
        }),
{
    let nw = word64(d, 16);
    law_parsed_witness(d);
    word64_range(d, 16);
    vectors_stand(d, 24, nw);
    words_stay(d, n, 0);
    words_stay(d, n, 4);
    words_stay(d, n, 8);
    words_stay(d, n, 16);
    if n >= 24 {
        vectors_cut(d, 24, nw, n);
    }
}

/// A constraint that stands at a place is read there.
proof fn standing_constraint_is_read(d: Seq<u8>, p: int, c: ConstraintView)
    requires
        0 <= p,
        constraint_stands(d, p, c),
    ensures
        parse_constraint(d, p) == Ok::<(ConstraintView, int), DecodeError>(
            (c, p + constraint_size(c)),
        ),
{
    let nz = c.idx.len() as int;
    let blocks = p + 8;
    let flag = blocks + 24 * nz;
    assert forall|i: int| 0 <= i < 3 * nz implies !#[trigger] oversized(d, blocks, 8, i) by {
        let j = i / 3;
        assert(i == 3 * j || i == 3 * j + 1 || i == 3 * j + 2);
        assert(c.idx[j] == word64(d, p + 8 + 24 * j));
        assert(c.off[j] == word64(d, p + 16 + 24 * j));
        assert(c.len[j] == word64(d, p + 24 + 24 * j));
    }
    assert(block_field(d, blocks, nz, 0) =~= c.idx);
    assert(block_field(d, blocks, nz, 1) =~= c.off);
    assert(block_field(d, blocks, nz, 2) =~= c.len);
    phi_pos_nonneg(c.len, nz);
    let factors = flag + 8 + if c.b is Some {
        512int
    } else {
        0
    };
    if c.b is Some {
        assert(crate::codec::element_at(d, flag + 8) =~= c.b->Some_0);
    }
    let got = elements_at(d, factors, c.phi.len() as int);
    assert forall|i: int| 0 <= i < c.phi.len() implies got[i] == c.phi[i] by {
        assert forall|k: int| 0 <= k < 64 implies got[i][k] == c.phi[i][k] by {
            assert(c.phi[i][k] == word64(d, factors + 512 * i + 8 * k));
        }
        assert(got[i] =~= c.phi[i]);
    }
    assert(got =~= c.phi);
}

/// Constraints that stand one after the other are read.
proof fn standing_constraints_are_read(d: Seq<u8>, pos: int, cs: Seq<ConstraintView>, n: int)
    requires
        0 <= pos,
        0 <= n <= cs.len(),
        forall|ci: int|
            0 <= ci < n ==> constraint_stands(
                d,
                pos + sum(0, ci, |j: int| constraint_size(cs[j])),
                #[trigger] cs[ci],
            ),
    ensures
        parse_constraints(d, pos, n) == Ok::<(Seq<ConstraintView>, int), DecodeError>(
            (cs.take(n), pos + sum(0, n, |j: int| constraint_size(cs[j]))),
        ),
        0 <= sum(0, n, |j: int| constraint_size(cs[j])),
    decreases n,
{
    if n > 0 {
        standing_constraints_are_read(d, pos, cs, n - 1);
        let p = pos + sum(0, n - 1, |j: int| constraint_size(cs[j]));
        assert(constraint_stands(d, p, cs[n - 1]));
        standing_constraint_is_read(d, p, cs[n - 1]);
        assert(cs.take(n) =~= cs.take(n - 1).push(cs[n - 1]));
    } else {
        assert(cs.take(0) =~= seq![]);
    }
}

/// Whatever bytes a statement stands in, it is read from them: nothing else is
/// asked of them.
pub proof fn law_standing_statement_is_read(d: Seq<u8>, s: StatementView)
    requires
        statement_stands(d, s),
    ensures
        parse_statement(d) == Ok::<StatementView, DecodeError>(s),
{
    let nv = s.vectors.len() as int;
    let nc = s.constraints.len() as int;
    standing_constraints_are_read(d, 64 + 24 * nv, s.constraints, nc);
    assert(s.constraints.take(nc) =~= s.constraints);
    assert forall|i: int| 0 <= i < nv implies !#[trigger] oversized(d, 64, 24, i) by {
        assert(s.vectors[i].n == word64(d, 64 + 24 * i));
    }
    let got = Seq::new(nv as nat, |i: int| vector_at(d, 64 + 24 * i));
    assert forall|i: int| 0 <= i < nv implies got[i] == s.vectors[i] by {
        assert(s.vectors[i].n == word64(d, 64 + 24 * i));
    }
    assert(got =~= s.vectors);
}

/// Witness vectors that stand one after the other are read.
proof fn standing_vectors_are_read(d: Seq<u8>, w: Seq<Seq<i64>>, n: int)
    requires
        0 <= n <= w.len(),
        forall|i: int|
            0 <= i < w.len() ==> vector_stands(d, vector_start(w, i), #[trigger] w[i]),
    ensures
        parse_all_coeffs(d, 24, n) == Ok::<(Seq<Seq<i64>>, int), DecodeError>(
            (w.take(n), vector_start(w, n)),
        ),
        24 <= vector_start(w, n),
    decreases n,
{
    if n > 0 {
        standing_vectors_are_read(d, w, n - 1);
        let p = vector_start(w, n - 1);
        let v = w[n - 1];
        assert(vector_stands(d, p, v));
        let got = parse_coeffs(d, p)->Ok_0.0;
        assert forall|k: int| 0 <= k < v.len() implies got[k] == v[k] by {
            assert(is_signed(v[k], word64(d, p + 8 + 8 * k)));
            word64_range(d, p + 8 + 8 * k);
            let x = word64(d, p + 8 + 8 * k);
            assert(got[k] == signed(x as u64) as i64);
        }
        assert(got =~= v);
        assert(w.take(n) =~= w.take(n - 1).push(v));
    } else {
        assert(w.take(0) =~= seq![]);
    }
}

/// Whatever bytes a witness stands in, it is read from them.
pub proof fn law_standing_witness_is_read(d: Seq<u8>, q: u64, w: Seq<Seq<i64>>)
    requires
        witness_stands(d, q, w),
    ensures
        parse_witness(d) == Ok::<(u64, Seq<Seq<i64>>), DecodeError>((q, w)),
{
    standing_vectors_are_read(d, w, w.len() as int);
    standing_vectors_are_read(d, w, 0);
    assert(w.take(w.len() as int) =~= w);
}

} // verus!
