//! What the messages say: numbers are in decimal, and every number that comes
//! with an error is told.

use crate::labrador::{message_text, LabradorError};
use crate::text::{decimal, digit_char, signed_decimal};
use vstd::prelude::*;

verus! {

/// The number that a list of decimal digits stands for.
pub open spec fn digits_value(s: Seq<char>) -> int
    decreases s.len(),
{
    if s.len() == 0 {
        0
    } else {
        10 * digits_value(s.drop_last()) + (s.last() as u32 - 48)
    }
}

/// A number in decimal is made of digits, the first of which is no zero if
/// there are several, and they stand for the number.
pub proof fn law_decimal(n: int)
    requires
        n >= 0,
    ensures
        decimal(n).len() >= 1,
        forall|i: int|
            0 <= i < decimal(n).len() ==> 48 <= (#[trigger] decimal(n)[i]) as u32 <= 57,
        decimal(n).len() > 1 ==> decimal(n)[0] as u32 != 48,
        n > 0 ==> decimal(n)[0] as u32 != 48,
        digits_value(decimal(n)) == n,
    decreases n,
{
    reveal_with_fuel(digits_value, 2);
    if n >= 10 {
        law_decimal(n / 10);
        assert(decimal(n).drop_last() =~= decimal(n / 10));
        assert(digit_char(n % 10) as u32 == 48 + n % 10);
    } else {
        assert(decimal(n).drop_last() =~= Seq::empty());
        assert(digit_char(n) as u32 == 48 + n);
    }
}

/// A number in decimal has a minus sign in front of its size if it is negative.
pub proof fn law_signed_decimal(n: int)
    ensures
        n >= 0 ==> signed_decimal(n) == decimal(n),
        n < 0 ==> signed_decimal(n)[0] == '-' && digits_value(signed_decimal(n).drop_first()) == -n,
{
    if n < 0 {
        law_decimal(-n);
        assert(signed_decimal(n).drop_first() =~= decimal(-n));
    }
}

/// A text holds another one somewhere.
pub open spec fn tells(s: Seq<char>, t: Seq<char>) -> bool {
    exists|i: int|
        0 <= i && i + t.len() <= s.len() && #[trigger] s.subrange(i, i + t.len()) == t
}

/// A text holds what stands between two parts of it.
proof fn tells_middle(a: Seq<char>, t: Seq<char>, b: Seq<char>)
    ensures
        tells(a + t + b, t),
{
    let s = a + t + b;
    assert(s.subrange(a.len() as int, (a.len() + t.len()) as int) =~= t);
}

/// A text holds what it did before more was appended.
proof fn tells_more(s: Seq<char>, t: Seq<char>, b: Seq<char>)
    requires
        tells(s, t),
    ensures
        tells(s + b, t),
{
    let i = choose|i: int|
        0 <= i && i + t.len() <= s.len() && #[trigger] s.subrange(i, i + t.len()) == t;
    assert((s + b).subrange(i, i + t.len()) =~= t);
}

/// A text holds its end.
proof fn tells_end(a: Seq<char>, t: Seq<char>)
    ensures
        tells(a + t, t),
{
    assert((a + t).subrange(a.len() as int, (a + t).len() as int) =~= t);
}

/// The message of an error tells every number that comes with it.
pub proof fn law_message_tells_numbers(e: LabradorError)
    ensures
        ({
            let m = message_text(e);
            match e {
                LabradorError::ModulusMismatch { statement, compiled } => {
                    &&& tells(m, decimal(statement as int))
                    &&& tells(m, decimal(compiled as int))
                },
                LabradorError::BlockCount { constraint, nz } => {
                    &&& tells(m, decimal(constraint as int))
                    &&& tells(m, decimal(nz as int))
                },
                LabradorError::BlockOutOfRange { constraint, block, idx } => {
                    &&& tells(m, decimal(constraint as int))
                    &&& tells(m, decimal(block as int))
                    &&& tells(m, decimal(idx as int))
                },
                LabradorError::NotMonotone { constraint, block } => {
                    &&& tells(m, decimal(constraint as int))
                    &&& tells(m, decimal(block as int))
                },
                LabradorError::OffsetNotIncreasing { constraint, block } => {
                    &&& tells(m, decimal(constraint as int))
                    &&& tells(m, decimal(block as int))
                },
                LabradorError::BlockExceedsRank { constraint, block, idx } => {
                    &&& tells(m, decimal(constraint as int))
                    &&& tells(m, decimal(block as int))
                    &&& tells(m, decimal(idx as int))
                },
                LabradorError::CoefficientCount { vector } => tells(m, decimal(vector as int)),
                LabradorError::CoeffTooLarge { vector, magnitude } => {
                    &&& tells(m, decimal(vector as int))
                    &&& tells(m, decimal(magnitude as int))
                    &&& tells(m, decimal(23170))
                },
                LabradorError::InitStatement { code } => tells(m, signed_decimal(code as int)),
                LabradorError::SetVector { vector, code } => {
                    &&& tells(m, decimal(vector as int))
                    &&& tells(m, signed_decimal(code as int))
                },
                LabradorError::NormExceeded { vector, normsq, betasq } => {
                    &&& tells(m, decimal(vector as int))
                    &&& tells(m, decimal(normsq as int))
                    &&& tells(m, decimal(betasq as int))
                },
                LabradorError::SimpleVerify { code } => tells(m, signed_decimal(code as int)),
                LabradorError::CompositeProve { code } => tells(m, signed_decimal(code as int)),
                LabradorError::CompositeVerify { code } => tells(m, signed_decimal(code as int)),
                _ => true,
            }
        }),
{
    let m = message_text(e);
    match e {
        LabradorError::ModulusMismatch { statement, compiled } => {
            told2(
                "statement q "@,
                decimal(statement as int),
                " does not match compiled modulus "@,
                decimal(compiled as int),
            );
        },
        LabradorError::BlockCount { constraint, nz } => {
            told2("constraint "@, decimal(constraint as int), ": nz "@, decimal(nz as int));
            let s = "constraint "@ + decimal(constraint as int) + ": nz "@ + decimal(nz as int);
            tells_more(s, decimal(constraint as int), " out of range"@);
            tells_more(s, decimal(nz as int), " out of range"@);
        },
        LabradorError::BlockOutOfRange { constraint, block, idx } => {
            told3(constraint as int, block as int, " idx "@, idx as int, " out of range"@);
        },
        LabradorError::NotMonotone { constraint, block } => {
            told2("constraint "@, decimal(constraint as int), ": block "@, decimal(block as int));
            let s = "constraint "@ + decimal(constraint as int) + ": block "@ + decimal(
                block as int,
            );
            tells_more(s, decimal(constraint as int), " idx not monotone"@);
            tells_more(s, decimal(block as int), " idx not monotone"@);
        },
        LabradorError::OffsetNotIncreasing { constraint, block } => {
            told2("constraint "@, decimal(constraint as int), ": block "@, decimal(block as int));
            let s = "constraint "@ + decimal(constraint as int) + ": block "@ + decimal(
                block as int,
            );
            tells_more(s, decimal(constraint as int), " offset not strictly increasing"@);
            tells_more(s, decimal(block as int), " offset not strictly increasing"@);
        },
        LabradorError::BlockExceedsRank { constraint, block, idx } => {
            told3(
                constraint as int,
                block as int,
                " off+len exceeds vector "@,
                idx as int,
                " rank"@,
            );
        },
        LabradorError::CoefficientCount { vector } => {
            tells_middle("vector "@, decimal(vector as int), ": witness coefficient count mismatch"@);
        },
        LabradorError::CoeffTooLarge { vector, magnitude } => {
            told2("vector "@, decimal(vector as int), ": |coeff| = "@, decimal(magnitude as int));
            let s = "vector "@ + decimal(vector as int) + ": |coeff| = "@ + decimal(
                magnitude as int,
            );
            tells_more(s, decimal(vector as int), " exceeds "@);
            tells_more(s, decimal(magnitude as int), " exceeds "@);
            tells_more(s + " exceeds "@, decimal(vector as int), decimal(23170));
            tells_more(s + " exceeds "@, decimal(magnitude as int), decimal(23170));
            tells_end(s + " exceeds "@, decimal(23170));
        },
        LabradorError::InitStatement { code } => {
            tells_end("init_smplstmnt_raw failed with code "@, signed_decimal(code as int));
        },
        LabradorError::SetVector { vector, code } => {
            told2(
                "set_witness_vector_raw failed for vector "@,
                decimal(vector as int),
                " with code "@,
                signed_decimal(code as int),
            );
        },
        LabradorError::NormExceeded { vector, normsq, betasq } => {
            told2(
                "witness vector "@,
                decimal(vector as int),
                " recomputed normsq "@,
                decimal(normsq as int),
            );
            let s = "witness vector "@ + decimal(vector as int) + " recomputed normsq "@ + decimal(
                normsq as int,
            );
            let b = " exceeds statement betasq "@;
            tells_more(s, decimal(vector as int), b);
            tells_more(s, decimal(normsq as int), b);
            tells_more(s + b, decimal(vector as int), decimal(betasq as int));
            tells_more(s + b, decimal(normsq as int), decimal(betasq as int));
            tells_end(s + b, decimal(betasq as int));
        },
        LabradorError::SimpleVerify { code } => {
            tells_middle("simple_verify: FAIL (code "@, signed_decimal(code as int), ")"@);
        },
        LabradorError::CompositeProve { code } => {
            tells_middle("composite_prove_simple: FAIL (code "@, signed_decimal(code as int), ")"@);
        },
        LabradorError::CompositeVerify { code } => {
            tells_middle("composite_verify_simple: FAIL (code "@, signed_decimal(code as int), ")"@);
        },
        _ => {},
    }
}

/// A text of four parts holds the second and the last of them.
proof fn told2(a: Seq<char>, x: Seq<char>, b: Seq<char>, y: Seq<char>)
    ensures
        tells(a + x + b + y, x),
        tells(a + x + b + y, y),
{
    tells_middle(a, x, b);
    tells_more(a + x + b, x, y);
    tells_end(a + x + b, y);
}

/// A message about a block holds its three numbers.
proof fn told3(constraint: int, block: int, a: Seq<char>, idx: int, b: Seq<char>)
    ensures
        ({
            let m = "constraint "@ + decimal(constraint) + ": block "@ + decimal(block) + a
                + decimal(idx) + b;
            &&& tells(m, decimal(constraint))
            &&& tells(m, decimal(block))
            &&& tells(m, decimal(idx))
        }),
{
    let s = "constraint "@ + decimal(constraint) + ": block "@ + decimal(block);
    told2("constraint "@, decimal(constraint), ": block "@, decimal(block));
    tells_more(s, decimal(constraint), a);
    tells_more(s, decimal(block), a);
    tells_more(s + a, decimal(constraint), decimal(idx));
    tells_more(s + a, decimal(block), decimal(idx));
    tells_end(s + a, decimal(idx));
    tells_more(s + a + decimal(idx), decimal(constraint), b);
    tells_more(s + a + decimal(idx), decimal(block), b);
    tells_more(s + a + decimal(idx), decimal(idx), b);
}

} // verus!
