//! Decimal digits: their value, the canonical digits of a number, and the
//! wrapping accumulation that the lossy parsers use.

use crate::arith::{lemma_below_modulus, lemma_wrap_step, lemma_wrapped_sum};
use vstd::prelude::*;

verus! {

pub open spec fn is_digit(b: u8) -> bool {
    48 <= b <= 57
}

/// Every byte of `s` is an ASCII digit.
pub open spec fn all_digits(s: Seq<u8>) -> bool {
    forall|i: int| 0 <= i < s.len() ==> is_digit(#[trigger] s[i])
}

/// The number that the digits of `s` spell, most significant first.
pub open spec fn digits_value(s: Seq<u8>) -> nat
    decreases s.len(),
{
    if s.len() == 0 {
        0
    } else {
        digits_value(s.drop_last()) * 10 + (s.last() - 48) as nat
    }
}

/// The canonical decimal digits of `n`: no leading zero, `0` for zero.
pub open spec fn decimal_digits(n: nat) -> Seq<u8>
    decreases n,
{
    if n < 10 {
        seq![(48 + n) as u8]
    } else {
        decimal_digits(n / 10).push((48 + n % 10) as u8)
    }
}

/// `n` written in at least `width` bytes, filled on the left with `fill`.
pub open spec fn padded_digits(n: nat, width: nat, fill: u8) -> Seq<u8> {
    let d = decimal_digits(n);
    if d.len() < width {
        Seq::new((width - d.len()) as nat, |_i: int| fill) + d
    } else {
        d
    }
}

/// The wrapping accumulation `n = n * 10 + (b - '0')` over `s`, modulo `m`.
pub open spec fn lossy_fold(s: Seq<u8>, m: int) -> int
    decreases s.len(),
{
    if s.len() == 0 {
        0
    } else {
        (lossy_fold(s.drop_last(), m) * 10 + s.last() as int - 48) % m
    }
}

pub proof fn lemma_decimal_digits_shape(n: nat)
    ensures
        decimal_digits(n).len() >= 1,
        all_digits(decimal_digits(n)),
        digits_value(decimal_digits(n)) == n,
        is_digit(decimal_digits(n)[0]),
    decreases n,
{
    if n >= 10 {
        lemma_decimal_digits_shape(n / 10);
        let d = decimal_digits(n);
        let p = decimal_digits(n / 10);
        assert(d.drop_last() == p);
        assert(d[0] == p[0]);
        assert forall|i: int| 0 <= i < d.len() implies is_digit(#[trigger] d[i]) by {
            if i < p.len() {
                assert(d[i] == p[i]);
            }
        }
        assert(d.last() == (48 + n % 10) as u8);
        assert(n == (n / 10) * 10 + n % 10);
    } else {
        let d = decimal_digits(n);
        assert(d.drop_last() =~= Seq::<u8>::empty());
        assert(d.last() == (48 + n) as u8);
        assert(digits_value(d) == digits_value(d.drop_last()) * 10 + (d.last() - 48) as nat);
    }
}

/// A prefix of digits spells at most the value of the whole.
pub proof fn lemma_prefix_value(s: Seq<u8>, i: int)
    requires
        0 <= i <= s.len(),
        all_digits(s),
    ensures
        digits_value(s.take(i)) <= digits_value(s),
    decreases s.len() - i,
{
    if i < s.len() {
        lemma_prefix_value(s, i + 1);
        assert(s.take(i + 1).drop_last() == s.take(i));
        assert(is_digit(s[i]));
    } else {
        assert(s.take(i) == s);
    }
}

/// Below the modulus, the wrapping accumulation is the plain value.
pub proof fn lemma_lossy_fold_exact(s: Seq<u8>, m: int)
    requires
        m > 0,
        all_digits(s),
        digits_value(s) < m,
    ensures
        lossy_fold(s, m) == digits_value(s),
    decreases s.len(),
{
    if s.len() > 0 {
        let p = s.drop_last();
        assert(all_digits(p)) by {
            assert forall|i: int| 0 <= i < p.len() implies is_digit(#[trigger] p[i]) by {
                assert(p[i] == s[i]);
            }
        }
        assert(is_digit(s[s.len() - 1]));
        lemma_lossy_fold_exact(p, m);
        lemma_below_modulus(digits_value(s) as int, m);
    }
}

/// One step of the lossy accumulation as the wrapping operations of a machine
/// integer compute it.
pub proof fn lemma_lossy_fold_step(s: Seq<u8>, m: int)
    requires
        m > 256,
        s.len() > 0,
        0 <= lossy_fold(s.drop_last(), m) < m,
    ensures
        lossy_fold(s, m) == {
            let x = (lossy_fold(s.drop_last(), m) * 10) % m;
            let d = (s.last() as int - 48) % m;
            if x + d >= m {
                x + d - m
            } else {
                x + d
            }
        },
        0 <= lossy_fold(s, m) < m,
{
    let n = lossy_fold(s.drop_last(), m);
    let d = s.last() as int - 48;
    lemma_wrap_step(n, d, m);
    vstd::arithmetic::div_mod::lemma_mod_bound(n * 10, m);
    vstd::arithmetic::div_mod::lemma_mod_bound(d, m);
    lemma_wrapped_sum((n * 10) % m, d % m, m);
}

/// Appends the canonical digits of `n`.
pub fn push_decimal(buffer: &mut Vec<u8>, n: u64)
    ensures
        final(buffer)@ == old(buffer)@ + decimal_digits(n as nat),
    decreases n,
{
    if n >= 10 {
        push_decimal(buffer, n / 10);
    }
    buffer.push(48u8 + (n % 10) as u8);
    proof {
        if n >= 10 {
            assert(decimal_digits(n as nat) == decimal_digits((n / 10) as nat).push(
                (48 + n % 10) as u8,
            ));
        }
    }
}

/// Appends `n` padded on the left with `fill` to at least `width` bytes.
pub fn push_padded(buffer: &mut Vec<u8>, n: u64, width: usize, fill: u8)
    ensures
        final(buffer)@ == old(buffer)@ + padded_digits(n as nat, width as nat, fill),
{
    let mut digits: Vec<u8> = Vec::new();
    push_decimal(&mut digits, n);
    assert(digits@ == decimal_digits(n as nat));
    if digits.len() < width {
        let pad = width - digits.len();
        let mut i: usize = 0;
        while i < pad
            invariant
                i <= pad,
                buffer@ == old(buffer)@ + Seq::new(i as nat, |_j: int| fill),
            decreases pad - i,
        {
            buffer.push(fill);
            i += 1;
            assert(buffer@ =~= old(buffer)@ + Seq::new(i as nat, |_j: int| fill));
        }
    }
    buffer.extend_from_slice(digits.as_slice());
    assert(buffer@ =~= old(buffer)@ + padded_digits(n as nat, width as nat, fill));
}

} // verus!
