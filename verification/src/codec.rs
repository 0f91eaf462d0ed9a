//! The byte form of statements and witnesses: little-endian words, lists with
//! their length in front.

use crate::check::{listed, phi_pos};
use crate::r64::{signed, signed_as_word, views, word_as_signed, zero, R64};
use crate::statement::{
    constraint_views, ConstraintSpec, ConstraintView, Statement, StatementView, VectorRecord,
    Witness,
};
use vstd::prelude::*;

verus! {

/// First word of a statement.
pub const MAGIC_STMT: u32 = 0x524B_424C;

/// First word of a witness.
pub const MAGIC_WIT: u32 = 0x524B_4257;

/// Second word of both.
pub const VERSION: u32 = 2;

/// Why bytes are not a statement or a witness.
#[derive(Clone, Copy, Debug, PartialEq, Eq)]
pub enum DecodeError {
    /// The first word is another one.
    BadMagic,
    /// The second word is another one.
    BadVersion,
    /// The bytes end early.
    Truncated,
    /// A length or an index does not fit the machine's word.
    TooLarge,
}

/// The `n` lowest bytes of a number, lowest first.
pub open spec fn le_bytes(v: int, n: nat) -> Seq<u8>
    decreases n,
{
    if n == 0 {
        seq![]
    } else {
        seq![(v % 256) as u8] + le_bytes(v / 256, (n - 1) as nat)
    }
}

/// The number whose bytes are `s`, lowest first.
pub open spec fn le_value(s: Seq<u8>) -> int
    decreases s.len(),
{
    if s.len() == 0 {
        0
    } else {
        s[0] + 256 * le_value(s.drop_first())
    }
}

/// `256` to the power `n`.
pub open spec fn radix_pow(n: nat) -> int
    decreases n,
{
    if n == 0 {
        1
    } else {
        256 * radix_pow((n - 1) as nat)
    }
}

/// Reading back the bytes of a number gives it, if there were enough of them.
pub proof fn law_le_roundtrip(v: int, n: nat)
    requires
        0 <= v < radix_pow(n),
    ensures
        le_bytes(v, n).len() == n,
        le_value(le_bytes(v, n)) == v,
    decreases n,
{
    if n > 0 {
        law_le_roundtrip(v / 256, (n - 1) as nat);
        assert(le_bytes(v, n).drop_first() =~= le_bytes(v / 256, (n - 1) as nat));
    }
}

/// Number of bytes written.
pub proof fn le_bytes_len(v: int, n: nat)
    ensures
        le_bytes(v, n).len() == n,
    decreases n,
{
    if n > 0 {
        le_bytes_len(v / 256, (n - 1) as nat);
    }
}

/// A number read from bytes is below the power of their number.
pub proof fn le_value_bound(s: Seq<u8>)
    ensures
        0 <= le_value(s) < radix_pow(s.len()),
    decreases s.len(),
{
    if s.len() > 0 {
        le_value_bound(s.drop_first());
    }
}

/// The powers that bound words of four and eight bytes.
pub proof fn word_powers()
    ensures
        radix_pow(4) == 0x1_0000_0000,
        radix_pow(8) == 0x1_0000_0000_0000_0000,
{
    reveal_with_fuel(radix_pow, 9);
}

/// The lists `f(0)`, `f(1)`, ... `f(n - 1)` one after the other.
pub open spec fn flat(n: int, f: spec_fn(int) -> Seq<u8>) -> Seq<u8>
    decreases n,
{
    if n <= 0 {
        seq![]
    } else {
        flat(n - 1, f) + f(n - 1)
    }
}

/// The bytes of a ring element.
pub open spec fn element_bytes(e: Seq<u64>) -> Seq<u8> {
    flat(64, |i: int| le_bytes(e[i] as int, 8))
}

/// The bytes of a vector record.
pub open spec fn vector_bytes(v: VectorRecord) -> Seq<u8> {
    le_bytes(v.n as int, 8) + le_bytes(v.betasq as int, 8) + le_bytes(v.role as int, 4) + le_bytes(
        v.flags as int,
        4,
    )
}

/// The bytes of block `i` of a constraint.
pub open spec fn block_bytes(c: ConstraintView, i: int) -> Seq<u8> {
    le_bytes(c.idx[i] as int, 8) + le_bytes(c.off[i] as int, 8) + le_bytes(c.len[i] as int, 8)
}

/// The bytes of the right-hand side of a constraint.
pub open spec fn rhs_bytes(b: Option<Seq<u64>>) -> Seq<u8> {
    match b {
        Some(e) => le_bytes(1, 8) + element_bytes(e),
        None => le_bytes(0, 8),
    }
}

/// The bytes of a constraint.
pub open spec fn constraint_bytes(c: ConstraintView) -> Seq<u8> {
    le_bytes(c.idx.len() as int, 8) + flat(c.idx.len() as int, |i: int| block_bytes(c, i))
        + rhs_bytes(c.b) + flat(c.phi.len() as int, |i: int| element_bytes(c.phi[i]))
}

/// The bytes of a statement up to its vectors.
pub open spec fn header_bytes(s: StatementView) -> Seq<u8> {
    le_bytes(MAGIC_STMT as int, 4) + le_bytes(VERSION as int, 4) + le_bytes(s.q as int, 8)
        + s.digest + le_bytes(s.vectors.len() as int, 8) + le_bytes(s.constraints.len() as int, 8)
        + le_bytes(s.betasq_w_total as int, 8) + le_bytes(s.betasq_inner_total as int, 8)
}

/// The bytes of a statement.
pub open spec fn statement_bytes(s: StatementView) -> Seq<u8> {
    header_bytes(s) + flat(s.vectors.len() as int, |i: int| vector_bytes(s.vectors[i])) + flat(
        s.constraints.len() as int,
        |i: int| constraint_bytes(s.constraints[i]),
    )
}

/// The bytes of a witness vector.
pub open spec fn coeffs_bytes(v: Seq<i64>) -> Seq<u8> {
    le_bytes(v.len() as int / 64, 8) + flat(
        v.len() as int,
        |i: int| le_bytes(v[i] as int % 0x1_0000_0000_0000_0000, 8),
    )
}

/// The bytes of a witness over modulus `q`.
pub open spec fn witness_bytes(q: u64, w: Seq<Seq<i64>>) -> Seq<u8> {
    le_bytes(MAGIC_WIT as int, 4) + le_bytes(VERSION as int, 4) + le_bytes(q as int, 8) + le_bytes(
        w.len() as int,
        8,
    ) + flat(w.len() as int, |i: int| coeffs_bytes(w[i]))
}

/// The 32-bit word at `pos`.
pub open spec fn word32(d: Seq<u8>, pos: int) -> int {
    le_value(d.subrange(pos, pos + 4))
}

/// The 64-bit word at `pos`.
pub open spec fn word64(d: Seq<u8>, pos: int) -> int {
    le_value(d.subrange(pos, pos + 8))
}

/// Word `i` of those that stand every `stride` bytes from `pos` on does not
/// fit the machine's word.
pub open spec fn oversized(d: Seq<u8>, pos: int, stride: int, i: int) -> bool {
    word64(d, pos + stride * i) > usize::MAX
}

/// The ring element at `pos`.
pub open spec fn element_at(d: Seq<u8>, pos: int) -> Seq<u64> {
    Seq::new(64, |i: int| word64(d, pos + 8 * i) as u64)
}

/// The `n` ring elements from `pos` on.
pub open spec fn elements_at(d: Seq<u8>, pos: int, n: int) -> Seq<Seq<u64>> {
    Seq::new(n as nat, |i: int| element_at(d, pos + 512 * i))
}

/// The vector record at `pos`.
pub open spec fn vector_at(d: Seq<u8>, pos: int) -> VectorRecord {
    VectorRecord {
        n: word64(d, pos) as usize,
        betasq: word64(d, pos + 8) as u64,
        role: word32(d, pos + 16) as u32,
        flags: word32(d, pos + 20) as u32,
    }
}

/// What the `n` vector records from `pos` on are.
pub open spec fn parse_vectors(d: Seq<u8>, pos: int, n: int) -> Result<
    Seq<VectorRecord>,
    DecodeError,
> {
    if pos + 24 * n > d.len() {
        Err(DecodeError::Truncated)
    } else if exists|i: int| 0 <= i < n && #[trigger] oversized(d, pos, 24, i) {
        Err(DecodeError::TooLarge)
    } else {
        Ok(Seq::new(n as nat, |i: int| vector_at(d, pos + 24 * i)))
    }
}

/// Entry `f` of each of `n` blocks from `pos` on.
pub open spec fn block_field(d: Seq<u8>, pos: int, n: int, f: int) -> Seq<usize> {
    Seq::new(n as nat, |i: int| word64(d, pos + 24 * i + 8 * f) as usize)
}

/// What the constraint at `pos` is, and where it ends.
pub open spec fn parse_constraint(d: Seq<u8>, pos: int) -> Result<
    (ConstraintView, int),
    DecodeError,
> {
    let nz = word64(d, pos);
    let blocks = pos + 8;
    let flag = blocks + 24 * nz;
    let has_b = word64(d, flag) == 1;
    let factors = flag + 8 + if has_b {
        512int
    } else {
        0
    };
    let len = block_field(d, blocks, nz, 2);
    let total = phi_pos(len, nz);
    if blocks > d.len() || flag > d.len() {
        Err(DecodeError::Truncated)
    } else if exists|i: int| 0 <= i < 3 * nz && #[trigger] oversized(d, blocks, 8, i) {
        Err(DecodeError::TooLarge)
    } else if flag + 8 > d.len() || factors > d.len() || factors + 512 * total > d.len() {
        Err(DecodeError::Truncated)
    } else {
        Ok(
            (
                ConstraintView {
                    idx: block_field(d, blocks, nz, 0),
                    off: block_field(d, blocks, nz, 1),
                    len,
                    b: if has_b {
                        Some(element_at(d, flag + 8))
                    } else {
                        None
                    },
                    phi: elements_at(d, factors, total),
                },
                factors + 512 * total,
            ),
        )
    }
}

/// What the `n` constraints from `pos` on are, and where they end.
pub open spec fn parse_constraints(d: Seq<u8>, pos: int, n: int) -> Result<
    (Seq<ConstraintView>, int),
    DecodeError,
>
    decreases n,
{
    if n <= 0 {
        Ok((seq![], pos))
    } else {
        match parse_constraints(d, pos, n - 1) {
            Err(e) => Err(e),
            Ok((cs, p)) => match parse_constraint(d, p) {
                Err(e) => Err(e),
                Ok((c, end)) => Ok((cs.push(c), end)),
            },
        }
    }
}

/// Checks the first two words.
pub open spec fn preamble_error(d: Seq<u8>, magic: u32) -> Option<DecodeError> {
    if d.len() < 4 {
        Some(DecodeError::Truncated)
    } else if word32(d, 0) != magic {
        Some(DecodeError::BadMagic)
    } else if d.len() < 8 {
        Some(DecodeError::Truncated)
    } else if word32(d, 4) != VERSION {
        Some(DecodeError::BadVersion)
    } else {
        None
    }
}

/// The statement at the start of some bytes. What follows it does not matter.
pub open spec fn parse_statement(d: Seq<u8>) -> Result<StatementView, DecodeError> {
    match preamble_error(d, MAGIC_STMT) {
        Some(e) => Err(e),
        None => if d.len() < 64 {
            Err(DecodeError::Truncated)
        } else {
            match parse_vectors(d, 64, word64(d, 32)) {
                Err(e) => Err(e),
                Ok(vectors) => match parse_constraints(d, 64 + 24 * word64(d, 32), word64(d, 40)) {
                    Err(e) => Err(e),
                    Ok((constraints, _)) => Ok(
                        StatementView {
                            q: word64(d, 8) as u64,
                            digest: d.subrange(16, 32),
                            betasq_w_total: word64(d, 48) as u64,
                            betasq_inner_total: word64(d, 56) as u64,
                            vectors,
                            constraints,
                        },
                    ),
                },
            }
        },
    }
}

/// What the witness vector at `pos` is, and where it ends.
pub open spec fn parse_coeffs(d: Seq<u8>, pos: int) -> Result<(Seq<i64>, int), DecodeError> {
    let n = word64(d, pos);
    if pos + 8 > d.len() || pos + 8 + 512 * n > d.len() {
        Err(DecodeError::Truncated)
    } else {
        Ok(
            (
                Seq::new(
                    (64 * n) as nat,
                    |i: int| signed(word64(d, pos + 8 + 8 * i) as u64) as i64,
                ),
                pos + 8 + 512 * n,
            ),
        )
    }
}

/// What the `n` witness vectors from `pos` on are, and where they end.
pub open spec fn parse_all_coeffs(d: Seq<u8>, pos: int, n: int) -> Result<
    (Seq<Seq<i64>>, int),
    DecodeError,
>
    decreases n,
{
    if n <= 0 {
        Ok((seq![], pos))
    } else {
        match parse_all_coeffs(d, pos, n - 1) {
            Err(e) => Err(e),
            Ok((vs, p)) => match parse_coeffs(d, p) {
                Err(e) => Err(e),
                Ok((v, end)) => Ok((vs.push(v), end)),
            },
        }
    }
}

/// The modulus and the witness at the start of some bytes.
pub open spec fn parse_witness(d: Seq<u8>) -> Result<(u64, Seq<Seq<i64>>), DecodeError> {
    match preamble_error(d, MAGIC_WIT) {
        Some(e) => Err(e),
        None => if d.len() < 24 {
            Err(DecodeError::Truncated)
        } else {
            match parse_all_coeffs(d, 24, word64(d, 16)) {
                Err(e) => Err(e),
                Ok((vs, _)) => Ok((word64(d, 8) as u64, vs)),
            }
        },
    }
}

/// Appends the `n` lowest bytes of `v`.
fn put_bytes(buf: &mut Vec<u8>, v: u64, n: usize)
    ensures
        final(buf)@ == old(buf)@ + le_bytes(v as int, n as nat),
{
    let ghost before = buf@;
    let mut rest: u64 = v;
    assert(buf@ + le_bytes(v as int, n as nat) =~= before + le_bytes(v as int, n as nat));
    for i in 0..n
        invariant
            buf@ + le_bytes(rest as int, (n - i) as nat) == before + le_bytes(v as int, n as nat),
    {
        let ghost prior = buf@;
        buf.push((rest % 256) as u8);
        assert(prior + le_bytes(rest as int, (n - i) as nat) =~= buf@ + le_bytes(
            rest as int / 256,
            (n - i - 1) as nat,
        ));
        rest = rest / 256;
    }
    assert(buf@ + le_bytes(rest as int, 0) =~= buf@);
}

/// Appends a 32-bit word.
pub fn put_u32(buf: &mut Vec<u8>, v: u32)
    ensures
        final(buf)@ == old(buf)@ + le_bytes(v as int, 4),
{
    put_bytes(buf, v as u64, 4);
}

/// Appends a 64-bit word.
pub fn put_u64(buf: &mut Vec<u8>, v: u64)
    ensures
        final(buf)@ == old(buf)@ + le_bytes(v as int, 8),
{
    put_bytes(buf, v, 8);
}

/// Appends a signed number in two's complement.
pub fn put_i64(buf: &mut Vec<u8>, v: i64)
    ensures
        final(buf)@ == old(buf)@ + le_bytes(v as int % 0x1_0000_0000_0000_0000, 8),
{
    proof {
        signed_as_word(v);
    }
    put_bytes(buf, v as u64, 8);
}

/// Appends a ring element.
fn put_element(buf: &mut Vec<u8>, e: &R64)
    ensures
        final(buf)@ == old(buf)@ + element_bytes(e@),
{
    let ghost before = buf@;
    let ghost f = |i: int| le_bytes(e@[i] as int, 8);
    assert(buf@ =~= before + flat(0, f));
    for i in 0..64usize
        invariant
            f == (|i: int| le_bytes(e@[i] as int, 8)),
            buf@ == before + flat(i as int, f),
    {
        put_u64(buf, e[i]);
        assert(buf@ =~= before + flat(i + 1, f));
    }
}

/// Appends a vector record.
fn put_vector(buf: &mut Vec<u8>, v: &VectorRecord)
    ensures
        final(buf)@ == old(buf)@ + vector_bytes(*v),
{
    let ghost before = buf@;
    put_u64(buf, v.n as u64);
    put_u64(buf, v.betasq);
    put_u32(buf, v.role);
    put_u32(buf, v.flags);
    assert(buf@ =~= before + vector_bytes(*v));
}

/// Appends a constraint.
fn put_constraint(buf: &mut Vec<u8>, c: &ConstraintSpec)
    requires
        listed(c@),
    ensures
        final(buf)@ == old(buf)@ + constraint_bytes(c@),
{
    let ghost cv = c@;
    let ghost start = buf@;
    put_u64(buf, c.idx.len() as u64);
    let ghost before = buf@;
    let ghost f = |i: int| block_bytes(cv, i);
    assert(buf@ =~= before + flat(0, f));
    for i in 0..c.idx.len()
        invariant
            cv == c@,
            listed(cv),
            f == (|i: int| block_bytes(cv, i)),
            buf@ == before + flat(i as int, f),
    {
        let ghost prior = buf@;
        put_u64(buf, c.idx[i] as u64);
        put_u64(buf, c.off[i] as u64);
        put_u64(buf, c.len[i] as u64);
        assert(buf@ =~= prior + block_bytes(cv, i as int));
        assert(buf@ =~= before + flat(i + 1, f));
    }
    let ghost middle = buf@;
    match &c.b {
        Some(b) => {
            put_u64(buf, 1);
            put_element(buf, b);
        },
        None => {
            put_u64(buf, 0);
        },
    }
    assert(buf@ =~= middle + rhs_bytes(cv.b));
    let ghost prefix = buf@;
    let ghost g = |i: int| element_bytes(cv.phi[i]);
    assert(buf@ =~= prefix + flat(0, g));
    for i in 0..c.phi.len()
        invariant
            cv == c@,
            g == (|i: int| element_bytes(cv.phi[i])),
            buf@ == prefix + flat(i as int, g),
    {
        put_element(buf, &c.phi[i]);
        assert(buf@ =~= prefix + flat(i + 1, g));
    }
    assert(buf@ =~= start + constraint_bytes(cv));
}

/// Encodes a statement.
pub fn write_statement(stmt: &Statement) -> (r: Vec<u8>)
    requires
        forall|i: int| 0 <= i < stmt@.constraints.len() ==> listed(#[trigger] stmt@.constraints[i]),
    ensures
        r@ == statement_bytes(stmt@),
{
    let ghost sv = stmt@;
    let mut buf: Vec<u8> = Vec::new();
    put_u32(&mut buf, MAGIC_STMT);
    put_u32(&mut buf, VERSION);
    put_u64(&mut buf, stmt.q);
    let ghost before = buf@;
    assert(buf@ =~= before + sv.digest.take(0));
    for i in 0..16usize
        invariant
            sv == stmt@,
            buf@ == before + sv.digest.take(i as int),
    {
        buf.push(stmt.digest[i]);
        assert(buf@ =~= before + sv.digest.take(i + 1));
    }
    assert(sv.digest.take(16) =~= sv.digest);
    put_u64(&mut buf, stmt.vectors.len() as u64);
    put_u64(&mut buf, stmt.constraints.len() as u64);
    put_u64(&mut buf, stmt.betasq_w_total);
    put_u64(&mut buf, stmt.betasq_inner_total);
    assert(buf@ =~= header_bytes(sv));
    let ghost f = |i: int| vector_bytes(sv.vectors[i]);
    assert(buf@ =~= header_bytes(sv) + flat(0, f));
    for i in 0..stmt.vectors.len()
        invariant
            sv == stmt@,
            f == (|i: int| vector_bytes(sv.vectors[i])),
            buf@ == header_bytes(sv) + flat(i as int, f),
    {
        put_vector(&mut buf, &stmt.vectors[i]);
        assert(buf@ =~= header_bytes(sv) + flat(i + 1, f));
    }
    let ghost prefix = buf@;
    let ghost g = |i: int| constraint_bytes(sv.constraints[i]);
    assert(buf@ =~= prefix + flat(0, g));
    for i in 0..stmt.constraints.len()
        invariant
            sv == stmt@,
            forall|i: int| 0 <= i < sv.constraints.len() ==> listed(#[trigger] sv.constraints[i]),
            g == (|i: int| constraint_bytes(sv.constraints[i])),
            buf@ == prefix + flat(i as int, g),
    {
        assert(listed(sv.constraints[i as int]));
        put_constraint(&mut buf, &stmt.constraints[i]);
        assert(buf@ =~= prefix + flat(i + 1, g));
    }
    buf
}

/// Encodes a witness over modulus `q`.
pub fn write_witness(q: u64, wit: &Witness) -> (r: Vec<u8>)
    ensures
        r@ == witness_bytes(q, wit@),
{
    let ghost wv = wit@;
    let mut buf: Vec<u8> = Vec::new();
    put_u32(&mut buf, MAGIC_WIT);
    put_u32(&mut buf, VERSION);
    put_u64(&mut buf, q);
    put_u64(&mut buf, wit.vectors.len() as u64);
    let ghost prefix = buf@;
    let ghost g = |i: int| coeffs_bytes(wv[i]);
    assert(buf@ =~= prefix + flat(0, g));
    for i in 0..wit.vectors.len()
        invariant
            wv == wit@,
            g == (|i: int| coeffs_bytes(wv[i])),
            buf@ == prefix + flat(i as int, g),
    {
        let v: &Vec<i64> = &wit.vectors[i];
        let ghost start = buf@;
        put_u64(&mut buf, (v.len() / 64) as u64);
        let ghost before = buf@;
        let ghost f = |k: int| le_bytes(v@[k] as int % 0x1_0000_0000_0000_0000, 8);
        assert(buf@ =~= before + flat(0, f));
        for k in 0..v.len()
            invariant
                f == (|k: int| le_bytes(v@[k] as int % 0x1_0000_0000_0000_0000, 8)),
                buf@ == before + flat(k as int, f),
        {
            put_i64(&mut buf, v[k]);
            assert(buf@ =~= before + flat(k + 1, f));
        }
        assert(buf@ =~= start + coeffs_bytes(wv[i as int]));
        assert(buf@ =~= prefix + flat(i + 1, g));
    }
    buf
}

/// A position in some bytes.
pub struct Reader<'a> {
    pub data: &'a [u8],
    pub pos: usize,
}

/// The bytes of a stretch are the first one and the rest.
proof fn le_value_step(d: Seq<u8>, lo: int, hi: int)
    requires
        0 <= lo < hi <= d.len(),
    ensures
        le_value(d.subrange(lo, hi)) == d[lo] + 256 * le_value(d.subrange(lo + 1, hi)),
{
    assert(d.subrange(lo, hi).drop_first() =~= d.subrange(lo + 1, hi));
}

impl<'a> Reader<'a> {
    /// Starts at the first byte.
    pub fn new(data: &'a [u8]) -> (r: Self)
        ensures
            r.data == data,
            r.pos == 0,
    {
        Reader { data, pos: 0 }
    }

    /// Number of bytes left.
    pub fn remaining(&self) -> (r: usize)
        requires
            self.pos <= self.data@.len(),
        ensures
            r == self.data@.len() - self.pos,
    {
        self.data.len() - self.pos
    }

    /// Reads a number of `n` bytes.
    fn number(&mut self, n: usize) -> (r: u64)
        requires
            n <= 8,
            old(self).pos + n <= old(self).data@.len(),
        ensures
            r == le_value(old(self).data@.subrange(old(self).pos as int, old(self).pos + n)),
            r < radix_pow(n as nat),
            final(self).data == old(self).data,
            final(self).pos == old(self).pos + n,
    {
        let ghost d = self.data@;
        let ghost p = self.pos as int;
        assert(self.data.len() == d.len());
        let mut v: u64 = 0;
        let mut i: usize = n;
        proof {
            word_powers();
            assert(d.subrange(p + n, p + n).len() == 0);
        }
        while i > 0
            invariant
                self.data@ == d,
                self.data == old(self).data,
                self.pos == p,
                p + n <= d.len() <= usize::MAX,
                i <= n <= 8,
                v == le_value(d.subrange(p + i, p + n)),
                radix_pow(8) == 0x1_0000_0000_0000_0000,
            decreases i,
        {
            proof {
                le_value_step(d, p + i - 1, p + n);
                le_value_bound(d.subrange(p + i - 1, p + n));
                radix_pow_monotone((n - i + 1) as nat, 8);
            }
            i = i - 1;
            v = v * 256 + self.data[self.pos + i] as u64;
        }
        proof {
            le_value_bound(d.subrange(p, p + n));
        }
        self.pos = self.pos + n;
        v
    }

    /// Reads a 32-bit word.
    pub fn u32(&mut self) -> (r: u32)
        requires
            old(self).pos + 4 <= old(self).data@.len(),
        ensures
            r == word32(old(self).data@, old(self).pos as int),
            final(self).data == old(self).data,
            final(self).pos == old(self).pos + 4,
    {
        proof {
            word_powers();
        }
        self.number(4) as u32
    }

    /// Reads a 64-bit word.
    pub fn u64(&mut self) -> (r: u64)
        requires
            old(self).pos + 8 <= old(self).data@.len(),
        ensures
            r == word64(old(self).data@, old(self).pos as int),
            final(self).data == old(self).data,
            final(self).pos == old(self).pos + 8,
    {
        self.number(8)
    }

    /// Reads a signed number.
    pub fn i64(&mut self) -> (r: i64)
        requires
            old(self).pos + 8 <= old(self).data@.len(),
        ensures
            r == signed(word64(old(self).data@, old(self).pos as int) as u64),
            final(self).data == old(self).data,
            final(self).pos == old(self).pos + 8,
    {
        let v: u64 = self.number(8);
        proof {
            word_as_signed(v);
        }
        v as i64
    }

    /// Takes the next `n` bytes.
    pub fn bytes(&mut self, n: usize) -> (r: &'a [u8])
        requires
            old(self).pos + n <= old(self).data@.len(),
        ensures
            r@ == old(self).data@.subrange(old(self).pos as int, old(self).pos + n),
            final(self).data == old(self).data,
            final(self).pos == old(self).pos + n,
    {
        assert(self.data.len() == self.data@.len());
        let s = vstd::slice::slice_subrange(self.data, self.pos, self.pos + n);
        self.pos = self.pos + n;
        s
    }
}

/// Larger exponents give larger powers.
proof fn radix_pow_monotone(m: nat, n: nat)
    requires
        m <= n,
    ensures
        0 < radix_pow(m) <= radix_pow(n),
    decreases n,
{
    if m < n {
        radix_pow_monotone(m, (n - 1) as nat);
    } else if n > 0 {
        radix_pow_monotone((m - 1) as nat, (n - 1) as nat);
    }
}

/// Reads a ring element.
fn read_element(r: &mut Reader<'_>) -> (e: R64)
    requires
        old(r).pos + 512 <= old(r).data@.len(),
    ensures
        e@ == element_at(old(r).data@, old(r).pos as int),
        final(r).data == old(r).data,
        final(r).pos == old(r).pos + 512,
{
    let ghost d = r.data@;
    let ghost p = r.pos as int;
    let mut e = zero();
    for i in 0..64usize
        invariant
            r.data@ == d,
            r.data == old(r).data,
            r.pos == p + 8 * i,
            p + 512 <= d.len(),
            forall|k: int| 0 <= k < i ==> #[trigger] e@[k] == element_at(d, p)[k],
    {
        e[i] = r.u64();
    }
    assert(e@ =~= element_at(d, p));
    e
}

/// Reads the vector records of a statement.
fn read_vectors(r: &mut Reader<'_>, n: u64) -> (v: Result<Vec<VectorRecord>, DecodeError>)
    requires
        old(r).pos <= old(r).data@.len(),
    ensures
        final(r).data == old(r).data,
        match v {
            Ok(v) => {
                &&& parse_vectors(old(r).data@, old(r).pos as int, n as int) == Ok::<
                    Seq<VectorRecord>,
                    DecodeError,
                >(v@)
                &&& final(r).pos == old(r).pos + 24 * n
                &&& final(r).pos <= final(r).data@.len()
            },
            Err(e) => parse_vectors(old(r).data@, old(r).pos as int, n as int) == Err::<
                Seq<VectorRecord>,
                DecodeError,
            >(e),
        },
{
    let ghost d = r.data@;
    let ghost p = r.pos as int;
    if (r.remaining() as u128) < 24 * (n as u128) {
        return Err(DecodeError::Truncated);
    }
    let mut vectors: Vec<VectorRecord> = Vec::new();
    for i in 0..n
        invariant
            r.data@ == d,
            r.data == old(r).data,
            p == old(r).pos,
            r.pos == p + 24 * i,
            p + 24 * n <= d.len(),
            vectors@.len() == i,
            forall|k: int| 0 <= k < i ==> !#[trigger] oversized(d, p, 24, k),
            forall|k: int| 0 <= k < i ==> #[trigger] vectors@[k] == vector_at(d, p + 24 * k),
    {
        let len: u64 = r.u64();
        let betasq: u64 = r.u64();
        let role: u32 = r.u32();
        let flags: u32 = r.u32();
        if len > usize::MAX as u64 {
            assert(oversized(d, p, 24, i as int));
            return Err(DecodeError::TooLarge);
        }
        assert(!oversized(d, p, 24, i as int));
        vectors.push(VectorRecord { n: len as usize, betasq, role, flags });
    }
    assert(vectors@ =~= Seq::new(n as nat, |i: int| vector_at(d, p + 24 * i)));
    Ok(vectors)
}

/// Reads a constraint.
fn read_constraint(r: &mut Reader<'_>) -> (c: Result<ConstraintSpec, DecodeError>)
    requires
        old(r).pos <= old(r).data@.len(),
    ensures
        final(r).data == old(r).data,
        match c {
            Ok(c) => {
                &&& parse_constraint(old(r).data@, old(r).pos as int) == Ok::<
                    (ConstraintView, int),
                    DecodeError,
                >((c@, final(r).pos as int))
                &&& final(r).pos <= final(r).data@.len()
            },
            Err(e) => parse_constraint(old(r).data@, old(r).pos as int) == Err::<
                (ConstraintView, int),
                DecodeError,
            >(e),
        },
{
    let ghost d = r.data@;
    let ghost p = r.pos as int;
    if r.remaining() < 8 {
        return Err(DecodeError::Truncated);
    }
    let nz: u64 = r.u64();
    if (r.remaining() as u128) < 24 * (nz as u128) {
        return Err(DecodeError::Truncated);
    }
    let mut idx: Vec<usize> = Vec::new();
    let mut off: Vec<usize> = Vec::new();
    let mut len: Vec<usize> = Vec::new();
    let mut total: u128 = 0;
    let ghost blocks = p + 8;
    let ghost lens = block_field(d, blocks, nz as int, 2);
    for i in 0..nz
        invariant
            r.data@ == d,
            r.data == old(r).data,
            p == old(r).pos,
            blocks == p + 8,
            nz == word64(d, p),
            r.pos == blocks + 24 * i,
            blocks + 24 * nz <= d.len(),
            idx@.len() == i,
            off@.len() == i,
            len@.len() == i,
            lens == block_field(d, blocks, nz as int, 2),
            total == phi_pos(lens, i as int),
            total <= i * u64::MAX,
            forall|k: int| 0 <= k < 3 * i ==> !#[trigger] oversized(d, blocks, 8, k),
            forall|k: int|
                0 <= k < i ==> #[trigger] idx@[k] == block_field(d, blocks, nz as int, 0)[k],
            forall|k: int|
                0 <= k < i ==> #[trigger] off@[k] == block_field(d, blocks, nz as int, 1)[k],
            forall|k: int| 0 <= k < i ==> #[trigger] len@[k] == lens[k],
    {
        let a: u64 = r.u64();
        let b: u64 = r.u64();
        let c: u64 = r.u64();
        proof {
            assert(blocks + 24 * i == blocks + 8 * (3 * i));
            assert(blocks + 24 * i + 8 == blocks + 8 * (3 * i + 1));
            assert(blocks + 24 * i + 16 == blocks + 8 * (3 * i + 2));
            assert(oversized(d, blocks, 8, 3 * i) == (a > usize::MAX));
            assert(oversized(d, blocks, 8, 3 * i + 1) == (b > usize::MAX));
            assert(oversized(d, blocks, 8, 3 * i + 2) == (c > usize::MAX));
        }
        let max: u64 = usize::MAX as u64;
        if a > max || b > max || c > max {
            return Err(DecodeError::TooLarge);
        }
        idx.push(a as usize);
        off.push(b as usize);
        len.push(c as usize);
        proof {
            assert((i + 1) * u64::MAX == i * u64::MAX + u64::MAX) by (nonlinear_arith);
            assert(i * u64::MAX + u64::MAX <= u128::MAX) by (nonlinear_arith)
                requires
                    0 <= i < 0x1_0000_0000_0000_0000,
            ;
        }
        total = total + c as u128;
    }
    assert(idx@ =~= block_field(d, blocks, nz as int, 0));
    assert(off@ =~= block_field(d, blocks, nz as int, 1));
    assert(len@ =~= lens);
    if r.remaining() < 8 {
        return Err(DecodeError::Truncated);
    }
    let has_b: u64 = r.u64();
    let b: Option<R64> = if has_b == 1 {
        if r.remaining() < 512 {
            return Err(DecodeError::Truncated);
        }
        Some(read_element(r))
    } else {
        None
    };
    if total > (r.remaining() / 512) as u128 {
        return Err(DecodeError::Truncated);
    }
    let count: usize = total as usize;
    let ghost q = r.pos as int;
    let mut phi: Vec<R64> = Vec::new();
    for i in 0..count
        invariant
            r.data@ == d,
            r.data == old(r).data,
            r.pos == q + 512 * i,
            q + 512 * count <= d.len(),
            phi@.len() == i,
            forall|k: int| 0 <= k < i ==> (#[trigger] phi@[k])@ == element_at(d, q + 512 * k),
    {
        let e = read_element(r);
        phi.push(e);
    }
    assert(views(phi@) =~= elements_at(d, q, count as int));
    Ok(ConstraintSpec { idx, off, len, b, phi })
}

/// An error among the first constraints is the error of all of them.
proof fn parse_constraints_err(d: Seq<u8>, pos: int, n: int, m: int)
    requires
        n <= m,
        parse_constraints(d, pos, n) is Err,
    ensures
        parse_constraints(d, pos, m) == parse_constraints(d, pos, n),
    decreases m - n,
{
    if n < m {
        parse_constraints_err(d, pos, n, m - 1);
    }
}

/// An error among the first witness vectors is the error of all of them.
proof fn parse_all_coeffs_err(d: Seq<u8>, pos: int, n: int, m: int)
    requires
        n <= m,
        parse_all_coeffs(d, pos, n) is Err,
    ensures
        parse_all_coeffs(d, pos, m) == parse_all_coeffs(d, pos, n),
    decreases m - n,
{
    if n < m {
        parse_all_coeffs_err(d, pos, n, m - 1);
    }
}

/// Reads the first two words.
fn read_preamble(r: &mut Reader<'_>, magic: u32) -> (v: Result<(), DecodeError>)
    requires
        old(r).pos == 0,
    ensures
        final(r).data == old(r).data,
        match v {
            Ok(_) => {
                &&& preamble_error(old(r).data@, magic) is None
                &&& final(r).pos == 8
                &&& 8 <= final(r).data@.len()
            },
            Err(e) => preamble_error(old(r).data@, magic) == Some(e),
        },
{
    if r.remaining() < 4 {
        return Err(DecodeError::Truncated);
    }
    if r.u32() != magic {
        return Err(DecodeError::BadMagic);
    }
    if r.remaining() < 4 {
        return Err(DecodeError::Truncated);
    }
    if r.u32() != VERSION {
        return Err(DecodeError::BadVersion);
    }
    Ok(())
}

/// Decodes the statement at the start of `data`.
pub fn read_statement(data: &[u8]) -> (r: Result<Statement, DecodeError>)
    ensures
        match r {
            Ok(s) => {
                &&& parse_statement(data@) == Ok::<StatementView, DecodeError>(s@)
                &&& statement_well_formed(s@)
            },
            Err(e) => parse_statement(data@) == Err::<StatementView, DecodeError>(e),
        },
{
    let ghost d = data@;
    let mut r = Reader::new(data);
    match read_preamble(&mut r, MAGIC_STMT) {
        Ok(_) => {},
        Err(e) => {
            return Err(e);
        },
    }
    if r.remaining() < 56 {
        return Err(DecodeError::Truncated);
    }
    let q: u64 = r.u64();
    let raw = r.bytes(16);
    let mut digest = [0u8; 16];
    for i in 0..16usize
        invariant
            raw@.len() == 16,
            forall|k: int| 0 <= k < i ==> #[trigger] digest@[k] == raw@[k],
    {
        digest[i] = raw[i];
    }
    assert(digest@ =~= d.subrange(16, 32));
    let nvec: u64 = r.u64();
    let ncon: u64 = r.u64();
    let betasq_w_total: u64 = r.u64();
    let betasq_inner_total: u64 = r.u64();
    let vectors = match read_vectors(&mut r, nvec) {
        Ok(v) => v,
        Err(e) => {
            return Err(e);
        },
    };
    let ghost start = r.pos as int;
    let mut constraints: Vec<ConstraintSpec> = Vec::new();
    assert(constraint_views(constraints@) =~= seq![]);
    for i in 0..ncon
        invariant
            d == data@,
            r.data == data,
            r.pos <= d.len(),
            preamble_error(d, MAGIC_STMT) is None,
            d.len() >= 64,
            start == 64 + 24 * word64(d, 32),
            parse_vectors(d, 64, word64(d, 32)) is Ok,
            ncon == word64(d, 40),
            parse_constraints(d, start, i as int) == Ok::<
                (Seq<ConstraintView>, int),
                DecodeError,
            >((constraint_views(constraints@), r.pos as int)),
    {
        match read_constraint(&mut r) {
            Ok(c) => {
                let ghost prior = constraints@;
                constraints.push(c);
                assert(constraint_views(constraints@) =~= constraint_views(prior).push(c@));
            },
            Err(e) => {
                proof {
                    parse_constraints_err(d, start, i + 1, ncon as int);
                }
                return Err(e);
            },
        }
    }
    proof {
        law_parsed_is_well_formed(d);
    }
    Ok(Statement { q, digest, betasq_w_total, betasq_inner_total, vectors, constraints })
}

/// Reads a witness vector.
fn read_coeffs(r: &mut Reader<'_>) -> (v: Result<Vec<i64>, DecodeError>)
    requires
        old(r).pos <= old(r).data@.len(),
    ensures
        final(r).data == old(r).data,
        match v {
            Ok(v) => {
                &&& parse_coeffs(old(r).data@, old(r).pos as int) == Ok::<
                    (Seq<i64>, int),
                    DecodeError,
                >((v@, final(r).pos as int))
                &&& final(r).pos <= final(r).data@.len()
            },
            Err(e) => parse_coeffs(old(r).data@, old(r).pos as int) == Err::<
                (Seq<i64>, int),
                DecodeError,
            >(e),
        },
{
    let ghost d = r.data@;
    let ghost p = r.pos as int;
    if r.remaining() < 8 {
        return Err(DecodeError::Truncated);
    }
    let n: u64 = r.u64();
    if n > (r.remaining() / 512) as u64 {
        return Err(DecodeError::Truncated);
    }
    let count: usize = n as usize * 64;
    let mut coeffs: Vec<i64> = Vec::new();
    let ghost goal = Seq::new(
        (64 * n) as nat,
        |i: int| signed(word64(d, p + 8 + 8 * i) as u64) as i64,
    );
    for i in 0..count
        invariant
            r.data@ == d,
            r.data == old(r).data,
            r.pos == p + 8 + 8 * i,
            p + 8 + 512 * n <= d.len(),
            count == 64 * n,
            coeffs@.len() == i,
            goal == Seq::new(
                (64 * n) as nat,
                |i: int| signed(word64(d, p + 8 + 8 * i) as u64) as i64,
            ),
            forall|k: int| 0 <= k < i ==> #[trigger] coeffs@[k] == goal[k],
    {
        let c: i64 = r.i64();
        coeffs.push(c);
    }
    assert(coeffs@ =~= goal);
    Ok(coeffs)
}

/// Decodes the modulus and the witness at the start of `data`.
pub fn read_witness(data: &[u8]) -> (r: Result<(u64, Witness), DecodeError>)
    ensures
        match r {
            Ok((q, w)) => parse_witness(data@) == Ok::<(u64, Seq<Seq<i64>>), DecodeError>((q, w@)),
            Err(e) => parse_witness(data@) == Err::<(u64, Seq<Seq<i64>>), DecodeError>(e),
        },
{
    let ghost d = data@;
    let mut r = Reader::new(data);
    match read_preamble(&mut r, MAGIC_WIT) {
        Ok(_) => {},
        Err(e) => {
            return Err(e);
        },
    }
    if r.remaining() < 16 {
        return Err(DecodeError::Truncated);
    }
    let q: u64 = r.u64();
    let nvec: u64 = r.u64();
    let mut wit = Witness { vectors: Vec::new() };
    assert(wit@ =~= seq![]);
    for i in 0..nvec
        invariant
            d == data@,
            r.data == data,
            r.pos <= d.len(),
            preamble_error(d, MAGIC_WIT) is None,
            d.len() >= 24,
            nvec == word64(d, 16),
            parse_all_coeffs(d, 24, i as int) == Ok::<(Seq<Seq<i64>>, int), DecodeError>(
                (wit@, r.pos as int),
            ),
    {
        match read_coeffs(&mut r) {
            Ok(v) => {
                let ghost prior = wit@;
                wit.vectors.push(v);
                assert(wit@ =~= prior.push(v@));
            },
            Err(e) => {
                proof {
                    parse_all_coeffs_err(d, 24, i + 1, nvec as int);
                }
                return Err(e);
            },
        }
    }
    Ok((q, wit))
}

/// `bytes` stand at `pos` of `d`.
pub open spec fn stands_at(d: Seq<u8>, pos: int, bytes: Seq<u8>) -> bool {
    &&& 0 <= pos
    &&& pos + bytes.len() <= d.len()
    &&& d.subrange(pos, pos + bytes.len()) == bytes
}

/// Of two lists that stand one after the other, each stands at its place.
proof fn stands_split(d: Seq<u8>, pos: int, a: Seq<u8>, b: Seq<u8>)
    requires
        stands_at(d, pos, a + b),
    ensures
        stands_at(d, pos, a),
        stands_at(d, pos + a.len(), b),
{
    let whole = d.subrange(pos, pos + (a + b).len());
    assert(whole.subrange(0, a.len() as int) =~= a);
    assert(whole.subrange(a.len() as int, (a + b).len() as int) =~= b);
    assert(d.subrange(pos, pos + a.len()) =~= whole.subrange(0, a.len() as int));
    assert(d.subrange(pos + a.len(), pos + a.len() + b.len()) =~= whole.subrange(
        a.len() as int,
        (a + b).len() as int,
    ));
}

/// Of lists of `w` bytes each, list `i` stands `i * w` bytes in.
proof fn stands_flat(d: Seq<u8>, pos: int, n: int, w: int, f: spec_fn(int) -> Seq<u8>, i: int)
    requires
        0 <= i < n,
        forall|k: int| 0 <= k < n ==> (#[trigger] f(k)).len() == w,
        stands_at(d, pos, flat(n, f)),
    ensures
        stands_at(d, pos + i * w, f(i)),
    decreases n,
{
    stands_split(d, pos, flat(n - 1, f), f(n - 1));
    flat_len(n - 1, w, f);
    if i < n - 1 {
        stands_flat(d, pos, n - 1, w, f, i);
    }
}

/// The length of lists of `w` bytes each.
proof fn flat_len(n: int, w: int, f: spec_fn(int) -> Seq<u8>)
    requires
        0 <= n,
        forall|k: int| 0 <= k < n ==> (#[trigger] f(k)).len() == w,
    ensures
        flat(n, f).len() == n * w,
    decreases n,
{
    if n > 0 {
        flat_len(n - 1, w, f);
        assert(n * w == (n - 1) * w + w) by (nonlinear_arith);
    } else {
        assert(n * w == 0) by (nonlinear_arith)
            requires
                n == 0,
        ;
    }
}

/// A 64-bit word is read back where it was written.
proof fn word64_back(d: Seq<u8>, pos: int, v: int)
    requires
        0 <= v <= u64::MAX,
        stands_at(d, pos, le_bytes(v, 8)),
    ensures
        word64(d, pos) == v,
        pos + 8 <= d.len(),
{
    word_powers();
    law_le_roundtrip(v, 8);
}

/// A 32-bit word is read back where it was written.
proof fn word32_back(d: Seq<u8>, pos: int, v: int)
    requires
        0 <= v <= u32::MAX,
        stands_at(d, pos, le_bytes(v, 4)),
    ensures
        word32(d, pos) == v,
        pos + 4 <= d.len(),
{
    word_powers();
    law_le_roundtrip(v, 4);
}

/// Number of bytes of a ring element.
proof fn element_bytes_len(e: Seq<u64>)
    ensures
        element_bytes(e).len() == 512,
{
    let f = |i: int| le_bytes(e[i] as int, 8);
    assert forall|k: int| 0 <= k < 64 implies (#[trigger] f(k)).len() == 8 by {
        le_bytes_len(e[k] as int, 8);
    }
    flat_len(64, 8, f);
}

/// A ring element is read back where it was written.
proof fn element_back(d: Seq<u8>, pos: int, e: Seq<u64>)
    requires
        e.len() == 64,
        stands_at(d, pos, element_bytes(e)),
    ensures
        element_at(d, pos) == e,
        pos + 512 <= d.len(),
{
    element_bytes_len(e);
    let f = |i: int| le_bytes(e[i] as int, 8);
    assert forall|k: int| 0 <= k < 64 implies (#[trigger] f(k)).len() == 8 by {
        le_bytes_len(e[k] as int, 8);
    }
    assert forall|i: int| 0 <= i < 64 implies element_at(d, pos)[i] == e[i] by {
        stands_flat(d, pos, 64, 8, f, i);
        word64_back(d, pos + i * 8, e[i] as int);
    }
    assert(element_at(d, pos) =~= e);
}

/// A vector record is read back where it was written.
proof fn vector_back(d: Seq<u8>, pos: int, v: VectorRecord)
    requires
        stands_at(d, pos, vector_bytes(v)),
    ensures
        vector_at(d, pos) == v,
        word64(d, pos) == v.n,
        pos + 24 <= d.len(),
{
    let a = le_bytes(v.n as int, 8);
    let b = le_bytes(v.betasq as int, 8);
    let c = le_bytes(v.role as int, 4);
    let e = le_bytes(v.flags as int, 4);
    le_bytes_len(v.n as int, 8);
    le_bytes_len(v.betasq as int, 8);
    le_bytes_len(v.role as int, 4);
    stands_split(d, pos, a + b + c, e);
    stands_split(d, pos, a + b, c);
    stands_split(d, pos, a, b);
    word64_back(d, pos, v.n as int);
    word64_back(d, pos + 8, v.betasq as int);
    word32_back(d, pos + 16, v.role as int);
    word32_back(d, pos + 20, v.flags as int);
}

/// Number of bytes of a vector record.
proof fn vector_bytes_len(v: VectorRecord)
    ensures
        vector_bytes(v).len() == 24,
{
    le_bytes_len(v.n as int, 8);
    le_bytes_len(v.betasq as int, 8);
    le_bytes_len(v.role as int, 4);
    le_bytes_len(v.flags as int, 4);
}

/// Number of bytes of a block.
proof fn block_bytes_len(c: ConstraintView, i: int)
    ensures
        block_bytes(c, i).len() == 24,
{
    le_bytes_len(c.idx[i] as int, 8);
    le_bytes_len(c.off[i] as int, 8);
    le_bytes_len(c.len[i] as int, 8);
}

/// A constraint whose lists go together: every block has one index, offset
/// and length, and `phi` has as many elements of 64 coefficients as the blocks
/// take.
pub open spec fn well_formed(c: ConstraintView) -> bool {
    &&& c.off.len() == c.idx.len()
    &&& c.len.len() == c.idx.len()
    &&& c.idx.len() <= u64::MAX
    &&& c.phi.len() == phi_pos(c.len, c.idx.len() as int)
    &&& forall|i: int| 0 <= i < c.phi.len() ==> (#[trigger] c.phi[i]).len() == 64
    &&& match c.b {
        Some(b) => b.len() == 64,
        None => true,
    }
}

/// A statement of well-formed constraints.
pub open spec fn statement_well_formed(s: StatementView) -> bool {
    &&& s.digest.len() == 16
    &&& s.vectors.len() <= u64::MAX
    &&& s.constraints.len() <= u64::MAX
    &&& forall|i: int| 0 <= i < s.constraints.len() ==> well_formed(#[trigger] s.constraints[i])
}

/// Every vector holds 64 coefficients for each of its elements.
pub open spec fn witness_well_formed(w: Seq<Seq<i64>>) -> bool {
    &&& w.len() <= u64::MAX
    &&& forall|i: int|
        0 <= i < w.len() ==> (#[trigger] w[i]).len() % 64 == 0 && w[i].len() / 64 <= u64::MAX
}

/// The blocks of a constraint are read back where they were written.
proof fn blocks_back(d: Seq<u8>, pos: int, c: ConstraintView)
    requires
        well_formed(c),
        stands_at(d, pos, flat(c.idx.len() as int, |i: int| block_bytes(c, i))),
    ensures
        block_field(d, pos, c.idx.len() as int, 0) == c.idx,
        block_field(d, pos, c.idx.len() as int, 1) == c.off,
        block_field(d, pos, c.idx.len() as int, 2) == c.len,
        pos + 24 * c.idx.len() <= d.len(),
        forall|i: int| 0 <= i < 3 * c.idx.len() ==> !#[trigger] oversized(d, pos, 8, i),
{
    let n = c.idx.len() as int;
    let f = |i: int| block_bytes(c, i);
    assert forall|k: int| 0 <= k < n implies (#[trigger] f(k)).len() == 24 by {
        block_bytes_len(c, k);
    }
    flat_len(n, 24, f);
    assert forall|i: int| 0 <= i < n implies #[trigger] word64(d, pos + 24 * i) == c.idx[i]
        && word64(d, pos + 24 * i + 8) == c.off[i] && word64(d, pos + 24 * i + 16) == c.len[i] by {
        stands_flat(d, pos, n, 24, f, i);
        let x = le_bytes(c.idx[i] as int, 8);
        let y = le_bytes(c.off[i] as int, 8);
        let z = le_bytes(c.len[i] as int, 8);
        le_bytes_len(c.idx[i] as int, 8);
        le_bytes_len(c.off[i] as int, 8);
        let p = pos + i * 24;
        stands_split(d, p, x + y, z);
        stands_split(d, p, x, y);
        word64_back(d, p, c.idx[i] as int);
        word64_back(d, p + 8, c.off[i] as int);
        word64_back(d, p + 16, c.len[i] as int);
    }
    assert forall|i: int| 0 <= i < n implies block_field(d, pos, n, 0)[i] == c.idx[i]
        && block_field(d, pos, n, 1)[i] == c.off[i] && block_field(d, pos, n, 2)[i] == c.len[i] by {
        assert(word64(d, pos + 24 * i) == c.idx[i]);
    }
    assert(block_field(d, pos, n, 0) =~= c.idx);
    assert(block_field(d, pos, n, 1) =~= c.off);
    assert(block_field(d, pos, n, 2) =~= c.len);
    assert forall|i: int| 0 <= i < 3 * n implies !#[trigger] oversized(d, pos, 8, i) by {
        let k = i / 3;
        assert(word64(d, pos + 24 * k) == c.idx[k]);
        if i % 3 == 0 {
            assert(pos + 8 * i == pos + 24 * k);
        } else if i % 3 == 1 {
            assert(pos + 8 * i == pos + 24 * k + 8);
        } else {
            assert(pos + 8 * i == pos + 24 * k + 16);
        }
    }
}

/// The factors of a constraint are read back where they were written.
proof fn elements_back(d: Seq<u8>, pos: int, phi: Seq<Seq<u64>>)
    requires
        forall|i: int| 0 <= i < phi.len() ==> (#[trigger] phi[i]).len() == 64,
        stands_at(d, pos, flat(phi.len() as int, |i: int| element_bytes(phi[i]))),
    ensures
        elements_at(d, pos, phi.len() as int) == phi,
        flat(phi.len() as int, |i: int| element_bytes(phi[i])).len() == 512 * phi.len(),
{
    let n = phi.len() as int;
    let f = |i: int| element_bytes(phi[i]);
    assert forall|k: int| 0 <= k < n implies (#[trigger] f(k)).len() == 512 by {
        element_bytes_len(phi[k]);
    }
    flat_len(n, 512, f);
    assert forall|i: int| 0 <= i < n implies elements_at(d, pos, n)[i] == phi[i] by {
        stands_flat(d, pos, n, 512, f, i);
        element_back(d, pos + i * 512, phi[i]);
    }
    assert(elements_at(d, pos, n) =~= phi);
}

/// A constraint is read back where it was written.
proof fn constraint_back(d: Seq<u8>, pos: int, c: ConstraintView)
    requires
        well_formed(c),
        stands_at(d, pos, constraint_bytes(c)),
    ensures
        parse_constraint(d, pos) == Ok::<(ConstraintView, int), DecodeError>(
            (c, pos + constraint_bytes(c).len()),
        ),
{
    let n = c.idx.len() as int;
    let count = le_bytes(n, 8);
    let blocks = flat(n, |i: int| block_bytes(c, i));
    let rhs = rhs_bytes(c.b);
    let phi = flat(c.phi.len() as int, |i: int| element_bytes(c.phi[i]));
    let f = |i: int| block_bytes(c, i);
    assert forall|k: int| 0 <= k < n implies (#[trigger] f(k)).len() == 24 by {
        block_bytes_len(c, k);
    }
    flat_len(n, 24, f);
    le_bytes_len(n, 8);
    le_bytes_len(0, 8);
    le_bytes_len(1, 8);
    stands_split(d, pos, count + blocks + rhs, phi);
    stands_split(d, pos, count + blocks, rhs);
    stands_split(d, pos, count, blocks);
    word64_back(d, pos, n);
    blocks_back(d, pos + 8, c);
    let flag = pos + 8 + 24 * n;
    match c.b {
        Some(e) => {
            element_bytes_len(e);
            stands_split(d, flag, le_bytes(1, 8), element_bytes(e));
            word64_back(d, flag, 1);
            element_back(d, flag + 8, e);
        },
        None => {
            word64_back(d, flag, 0);
        },
    }
    elements_back(d, flag + rhs.len(), c.phi);
}

/// Constraints are read back where they were written.
proof fn constraints_back(d: Seq<u8>, pos: int, cs: Seq<ConstraintView>, n: int)
    requires
        0 <= n <= cs.len(),
        forall|i: int| 0 <= i < cs.len() ==> well_formed(#[trigger] cs[i]),
        stands_at(d, pos, flat(n, |i: int| constraint_bytes(cs[i]))),
    ensures
        parse_constraints(d, pos, n) == Ok::<(Seq<ConstraintView>, int), DecodeError>(
            (cs.take(n), pos + flat(n, |i: int| constraint_bytes(cs[i])).len()),
        ),
    decreases n,
{
    let f = |i: int| constraint_bytes(cs[i]);
    if n > 0 {
        stands_split(d, pos, flat(n - 1, f), f(n - 1));
        constraints_back(d, pos, cs, n - 1);
        constraint_back(d, pos + flat(n - 1, f).len(), cs[n - 1]);
        assert(cs.take(n) =~= cs.take(n - 1).push(cs[n - 1]));
    } else {
        assert(cs.take(0) =~= seq![]);
    }
}

/// What `write_statement` writes of a well-formed statement, `read_statement`
/// gives back, whatever follows.
pub proof fn law_statement_roundtrip(s: StatementView, tail: Seq<u8>)
    requires
        statement_well_formed(s),
    ensures
        parse_statement(statement_bytes(s) + tail) == Ok::<StatementView, DecodeError>(s),
{
    let d = statement_bytes(s) + tail;
    let m = le_bytes(MAGIC_STMT as int, 4);
    let v = le_bytes(VERSION as int, 4);
    let q = le_bytes(s.q as int, 8);
    let nv = le_bytes(s.vectors.len() as int, 8);
    let nc = le_bytes(s.constraints.len() as int, 8);
    let wt = le_bytes(s.betasq_w_total as int, 8);
    let it = le_bytes(s.betasq_inner_total as int, 8);
    le_bytes_len(MAGIC_STMT as int, 4);
    le_bytes_len(VERSION as int, 4);
    le_bytes_len(s.q as int, 8);
    le_bytes_len(s.vectors.len() as int, 8);
    le_bytes_len(s.constraints.len() as int, 8);
    le_bytes_len(s.betasq_w_total as int, 8);
    le_bytes_len(s.betasq_inner_total as int, 8);
    let f = |i: int| vector_bytes(s.vectors[i]);
    let g = |i: int| constraint_bytes(s.constraints[i]);
    let vs = flat(s.vectors.len() as int, f);
    let cs = flat(s.constraints.len() as int, g);
    assert(d.subrange(0, d.len() as int) =~= d);
    stands_split(d, 0, statement_bytes(s), tail);
    stands_split(d, 0, header_bytes(s) + vs, cs);
    stands_split(d, 0, header_bytes(s), vs);
    stands_split(d, 0, m + v + q + s.digest + nv + nc + wt, it);
    stands_split(d, 0, m + v + q + s.digest + nv + nc, wt);
    stands_split(d, 0, m + v + q + s.digest + nv, nc);
    stands_split(d, 0, m + v + q + s.digest, nv);
    stands_split(d, 0, m + v + q, s.digest);
    stands_split(d, 0, m + v, q);
    stands_split(d, 0, m, v);
    word32_back(d, 0, MAGIC_STMT as int);
    word32_back(d, 4, VERSION as int);
    word64_back(d, 8, s.q as int);
    word64_back(d, 32, s.vectors.len() as int);
    word64_back(d, 40, s.constraints.len() as int);
    word64_back(d, 48, s.betasq_w_total as int);
    word64_back(d, 56, s.betasq_inner_total as int);
    let n = s.vectors.len() as int;
    assert forall|k: int| 0 <= k < n implies (#[trigger] f(k)).len() == 24 by {
        vector_bytes_len(s.vectors[k]);
    }
    flat_len(n, 24, f);
    assert forall|i: int| 0 <= i < n implies vector_at(d, 64 + 24 * i) == s.vectors[i]
        && !#[trigger] oversized(d, 64, 24, i) by {
        stands_flat(d, 64, n, 24, f, i);
        vector_back(d, 64 + i * 24, s.vectors[i]);
    }
    assert(Seq::new(n as nat, |i: int| vector_at(d, 64 + 24 * i)) =~= s.vectors) by {
        assert forall|i: int| 0 <= i < n implies vector_at(d, 64 + 24 * i) == s.vectors[i] by {
            assert(!oversized(d, 64, 24, i));
        }
    }
    constraints_back(d, 64 + 24 * n, s.constraints, s.constraints.len() as int);
    assert(s.constraints.take(s.constraints.len() as int) =~= s.constraints);
}

/// Well-formed statements are equal exactly when their bytes are.
pub proof fn law_statement_bytes_faithful(a: StatementView, b: StatementView)
    requires
        statement_well_formed(a),
        statement_well_formed(b),
    ensures
        statement_bytes(a) == statement_bytes(b) <==> a == b,
{
    law_statement_roundtrip(a, seq![]);
    law_statement_roundtrip(b, seq![]);
}

/// A witness vector is read back where it was written.
proof fn coeffs_back(d: Seq<u8>, pos: int, v: Seq<i64>)
    requires
        v.len() % 64 == 0,
        v.len() / 64 <= u64::MAX,
        stands_at(d, pos, coeffs_bytes(v)),
    ensures
        parse_coeffs(d, pos) == Ok::<(Seq<i64>, int), DecodeError>(
            (v, pos + coeffs_bytes(v).len()),
        ),
{
    let n = v.len() as int;
    let f = |i: int| le_bytes(v[i] as int % 0x1_0000_0000_0000_0000, 8);
    assert forall|k: int| 0 <= k < n implies (#[trigger] f(k)).len() == 8 by {
        le_bytes_len(v[k] as int % 0x1_0000_0000_0000_0000, 8);
    }
    flat_len(n, 8, f);
    le_bytes_len(n / 64, 8);
    stands_split(d, pos, le_bytes(n / 64, 8), flat(n, f));
    word64_back(d, pos, n / 64);
    let got = Seq::new(
        (64 * (n / 64)) as nat,
        |i: int| signed(word64(d, pos + 8 + 8 * i) as u64) as i64,
    );
    assert forall|i: int| 0 <= i < n implies got[i] == v[i] by {
        stands_flat(d, pos + 8, n, 8, f, i);
        signed_as_word(v[i]);
        word64_back(d, pos + 8 + i * 8, v[i] as int % 0x1_0000_0000_0000_0000);
    }
    assert(got =~= v);
}

/// Witness vectors are read back where they were written.
proof fn all_coeffs_back(d: Seq<u8>, pos: int, w: Seq<Seq<i64>>, n: int)
    requires
        0 <= n <= w.len(),
        witness_well_formed(w),
        stands_at(d, pos, flat(n, |i: int| coeffs_bytes(w[i]))),
    ensures
        parse_all_coeffs(d, pos, n) == Ok::<(Seq<Seq<i64>>, int), DecodeError>(
            (w.take(n), pos + flat(n, |i: int| coeffs_bytes(w[i])).len()),
        ),
    decreases n,
{
    let f = |i: int| coeffs_bytes(w[i]);
    if n > 0 {
        stands_split(d, pos, flat(n - 1, f), f(n - 1));
        all_coeffs_back(d, pos, w, n - 1);
        coeffs_back(d, pos + flat(n - 1, f).len(), w[n - 1]);
        assert(w.take(n) =~= w.take(n - 1).push(w[n - 1]));
    } else {
        assert(w.take(0) =~= seq![]);
    }
}

/// What `write_witness` writes of a well-formed witness, `read_witness` gives
/// back, whatever follows.
pub proof fn law_witness_roundtrip(q: u64, w: Seq<Seq<i64>>, tail: Seq<u8>)
    requires
        witness_well_formed(w),
    ensures
        parse_witness(witness_bytes(q, w) + tail) == Ok::<(u64, Seq<Seq<i64>>), DecodeError>(
            (q, w),
        ),
{
    let d = witness_bytes(q, w) + tail;
    let m = le_bytes(MAGIC_WIT as int, 4);
    let v = le_bytes(VERSION as int, 4);
    let qb = le_bytes(q as int, 8);
    let nw = le_bytes(w.len() as int, 8);
    let f = |i: int| coeffs_bytes(w[i]);
    let ws = flat(w.len() as int, f);
    le_bytes_len(MAGIC_WIT as int, 4);
    le_bytes_len(VERSION as int, 4);
    le_bytes_len(q as int, 8);
    le_bytes_len(w.len() as int, 8);
    assert(d.subrange(0, d.len() as int) =~= d);
    stands_split(d, 0, witness_bytes(q, w), tail);
    stands_split(d, 0, m + v + qb + nw, ws);
    stands_split(d, 0, m + v + qb, nw);
    stands_split(d, 0, m + v, qb);
    stands_split(d, 0, m, v);
    word32_back(d, 0, MAGIC_WIT as int);
    word32_back(d, 4, VERSION as int);
    word64_back(d, 8, q as int);
    word64_back(d, 16, w.len() as int);
    all_coeffs_back(d, 24, w, w.len() as int);
    assert(w.take(w.len() as int) =~= w);
}

/// A constraint that was read is well formed.
proof fn parsed_constraint_well_formed(d: Seq<u8>, pos: int)
    requires
        0 <= pos,
        parse_constraint(d, pos) is Ok,
    ensures
        well_formed(parse_constraint(d, pos)->Ok_0.0),
        parse_constraint(d, pos)->Ok_0.1 >= pos,
{
    le_value_bound(d.subrange(pos, pos + 8));
    word_powers();
    let nz = word64(d, pos);
    let len = block_field(d, pos + 8, nz, 2);
    phi_pos_nonneg(len, nz);
}

/// Factor positions are not negative.
pub proof fn phi_pos_nonneg(len: Seq<usize>, j: int)
    ensures
        0 <= phi_pos(len, j),
    decreases j,
{
    if j > 0 {
        phi_pos_nonneg(len, j - 1);
    }
}

/// Constraints that were read are well formed.
proof fn parsed_constraints_well_formed(d: Seq<u8>, pos: int, n: int)
    requires
        0 <= pos,
        0 <= n,
        parse_constraints(d, pos, n) is Ok,
    ensures
        parse_constraints(d, pos, n)->Ok_0.0.len() == n,
        parse_constraints(d, pos, n)->Ok_0.1 >= pos,
        forall|i: int|
            0 <= i < n ==> well_formed(#[trigger] parse_constraints(d, pos, n)->Ok_0.0[i]),
    decreases n,
{
    if n > 0 {
        parsed_constraints_well_formed(d, pos, n - 1);
        parsed_constraint_well_formed(d, parse_constraints(d, pos, n - 1)->Ok_0.1);
    }
}

/// Whatever is read as a statement is well formed, so that writing and reading
/// it again gives it back.
pub proof fn law_parsed_is_well_formed(d: Seq<u8>)
    requires
        parse_statement(d) is Ok,
    ensures
        statement_well_formed(parse_statement(d)->Ok_0),
        parse_statement(statement_bytes(parse_statement(d)->Ok_0)) == parse_statement(d),
{
    let s = parse_statement(d)->Ok_0;
    word_powers();
    le_value_bound(d.subrange(32, 40));
    le_value_bound(d.subrange(40, 48));
    parsed_constraints_well_formed(d, 64 + 24 * word64(d, 32), word64(d, 40));
    law_statement_roundtrip(s, seq![]);
    assert(statement_bytes(s) + seq![] =~= statement_bytes(s));
}

} // verus!
