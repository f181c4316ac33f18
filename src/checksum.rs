//! The FIX `CheckSum <10>` field: the sum of bytes modulo 256, written as
//! three zero-padded decimal digits.

use crate::arith::lemma_below_modulus;
use vstd::arithmetic::div_mod::{lemma_add_mod_noop, lemma_mod_bound};
use vstd::prelude::*;

verus! {

/// The plain sum of all bytes of `s`.
pub open spec fn byte_sum(s: Seq<u8>) -> int
    decreases s.len(),
{
    if s.len() == 0 {
        0
    } else {
        byte_sum(s.drop_last()) + s.last() as int
    }
}

/// The FIX checksum of `s`: its byte sum modulo 256.
pub open spec fn checksum_of(s: Seq<u8>) -> int {
    byte_sum(s) % 256
}

/// The ASCII digit for `d` in `0..10`.
pub open spec fn digit_byte(d: int) -> u8 {
    (48 + d) as u8
}

/// `n` (below 1000) as exactly three ASCII digits, most significant first.
pub open spec fn three_digits(n: int) -> Seq<u8> {
    seq![digit_byte(n / 100 % 10), digit_byte(n / 10 % 10), digit_byte(n % 10)]
}

/// A computed checksum value, always in `0..256`.
#[derive(Debug, Clone, Copy, PartialEq, Eq, Structural)]
pub struct CheckSum(pub u8);

impl CheckSum {
    /// Sums all bytes of `data` modulo 256.
    pub fn compute(data: &[u8]) -> (r: CheckSum)
        ensures
            r.0 as int == checksum_of(data@),
    {
        let mut sum: u32 = 0;
        let mut i: usize = 0;
        while i < data.len()
            invariant
                i <= data@.len(),
                sum < 256,
                sum as int == checksum_of(data@.take(i as int)),
            decreases data@.len() - i,
        {
            proof {
                let p = data@.take(i as int + 1);
                assert(p.drop_last() == data@.take(i as int));
                assert(p.last() == data@[i as int]);
                lemma_add_mod_noop(byte_sum(data@.take(i as int)), data@[i as int] as int, 256);
                lemma_below_modulus(data@[i as int] as int, 256);
                lemma_below_modulus(sum as int, 256);
                lemma_mod_bound(sum as int + data@[i as int] as int, 256);
            }
            sum = (sum + data[i] as u32) % 256;
            i = i + 1;
        }
        assert(data@.take(i as int) == data@);
        CheckSum(sum as u8)
    }

    /// The three ASCII digits of `self`, zero-padded.
    pub fn digits(&self) -> (r: [u8; 3])
        ensures
            r@ == three_digits(self.0 as int),
    {
        let n = self.0;
        let r = [48u8 + n / 100 % 10, 48u8 + n / 10 % 10, 48u8 + n % 10];
        assert(r@ =~= three_digits(n as int));
        r
    }
}

} // verus!
