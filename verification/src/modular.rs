//! Arithmetic on 64-bit residues.

use vstd::arithmetic::div_mod::{
    lemma_mod_add_multiples_vanish, lemma_mod_bound, lemma_small_mod, lemma_sub_mod_noop,
};
use vstd::prelude::*;

verus! {

/// The residue of `a + b` modulo `q`.
pub fn add_mod(a: u64, b: u64, q: u64) -> (r: u64)
    requires
        q > 0,
    ensures
        r == (a as int + b as int) % (q as int),
        r < q,
{
    let s: u128 = (a as u128 + b as u128) % (q as u128);
    s as u64
}

/// The residue of `a - b` modulo `q`.
pub fn sub_mod(a: u64, b: u64, q: u64) -> (r: u64)
    requires
        q > 0,
    ensures
        r == (a as int - b as int) % (q as int),
        r < q,
{
    let x: u64 = a % q;
    let y: u64 = b % q;
    proof {
        lemma_sub_mod_noop(a as int, b as int, q as int);
        lemma_mod_bound(a as int - b as int, q as int);
    }
    if x >= y {
        proof {
            lemma_small_mod((x - y) as nat, q as nat);
        }
        x - y
    } else {
        proof {
            lemma_small_mod((q - (y - x)) as nat, q as nat);
            lemma_mod_add_multiples_vanish(x as int - y as int, q as int);
        }
        q - (y - x)
    }
}

/// The residue of `a * b` modulo `q`.
pub fn multiply_mod(a: u64, b: u64, q: u64) -> (r: u64)
    requires
        q > 0,
    ensures
        r == (a as int * b as int) % (q as int),
        r < q,
{
    proof {
        assert(a as int * b as int <= u64::MAX as int * u64::MAX as int) by (nonlinear_arith)
            requires
                0 <= a <= u64::MAX,
                0 <= b <= u64::MAX,
        ;
        assert(0 <= a as int * b as int) by (nonlinear_arith)
            requires
                0 <= a,
                0 <= b,
        ;
    }
    let p: u128 = (a as u128) * (b as u128);
    (p % (q as u128)) as u64
}

} // verus!
