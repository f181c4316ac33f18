//! Modular arithmetic facts shared by the byte-level parsers.

use vstd::arithmetic::div_mod::{
    lemma_add_mod_noop, lemma_mod_add_multiples_vanish, lemma_mod_bound, lemma_small_mod,
};
use vstd::prelude::*;

verus! {

/// The number of distinct `usize` values.
pub open spec fn usize_modulus() -> int {
    usize::MAX as int + 1
}

/// One step of a wrapping accumulation: `(n * 10 + d) mod m`, computed from an
/// accumulator that is already reduced and a term that is reduced separately.
pub proof fn lemma_wrap_step(n: int, d: int, m: int)
    requires
        m > 0,
    ensures
        (((n * 10) % m) + (d % m)) % m == (n * 10 + d) % m,
        ((n * 10) % m + d % m) % m >= 0,
        ((n * 10) % m + d % m) % m < m,
{
    lemma_add_mod_noop(n * 10, d, m);
    lemma_mod_bound(n * 10 + d, m);
}

/// A value already below the modulus is its own residue.
pub proof fn lemma_below_modulus(x: int, m: int)
    requires
        0 <= x < m,
    ensures
        x % m == x,
{
    lemma_small_mod(x as nat, m as nat);
}

/// Adding two residues and subtracting the modulus once on overflow is the
/// residue of the sum.
pub proof fn lemma_wrapped_sum(x: int, d: int, m: int)
    requires
        0 <= x < m,
        0 <= d < m,
    ensures
        (if x + d >= m { x + d - m } else { x + d }) == (x + d) % m,
{
    if x + d >= m {
        lemma_small_mod((x + d - m) as nat, m as nat);
        lemma_mod_add_multiples_vanish(x + d - m, m);
    } else {
        lemma_small_mod((x + d) as nat, m as nat);
    }
}

/// The residue of a value within one modulus of zero.
pub proof fn lemma_near_zero_mod(x: int, m: int)
    requires
        -m < x < m,
    ensures
        x % m == if x < 0 {
            x + m
        } else {
            x
        },
{
    if x < 0 {
        lemma_small_mod((x + m) as nat, m as nat);
        lemma_mod_add_multiples_vanish(x, m);
    } else {
        lemma_small_mod(x as nat, m as nat);
    }
}

} // verus!
