//! Typed FIX field values: how each is written as bytes, and how bytes are
//! read back, strictly or lossily.

use crate::digits::{
    all_digits, decimal_digits, digits_value, is_digit, lemma_decimal_digits_shape,
    lemma_lossy_fold_exact, lemma_lossy_fold_step, lemma_prefix_value, lossy_fold, padded_digits,
    push_decimal, push_padded,
};
use crate::arith::{lemma_near_zero_mod, usize_modulus};
use crate::checksum::{three_digits, CheckSum};
use vstd::prelude::*;
use vstd::string::StringSliceAdditionalSpecFns;

verus! {

/// A value that can be written to, and read from, the bytes of a FIX field.
pub trait FixFieldValue<'a>: Sized + View {
    type Error;
    type SerializeSettings;

    /// Whether `self` can be written (some types have values out of range).
    spec fn is_valid(&self) -> bool;

    /// The canonical bytes of `self`.
    spec fn encoding(&self) -> Seq<u8>;

    /// The bytes of `self` written with `settings`.
    spec fn encoding_with(&self, settings: Self::SerializeSettings) -> Seq<u8>;

    /// Strict reading of `data` may give `r`.
    spec fn decodes(data: Seq<u8>, r: Result<Self, Self::Error>) -> bool;

    /// Lossy reading of `data` may give `r`.
    spec fn decodes_lossy(data: Seq<u8>, r: Result<Self, Self::Error>) -> bool;

    /// Appends the canonical bytes of `self`; returns how many were written.
    fn serialize(&self, buffer: &mut Vec<u8>) -> (n: usize)
        requires
            self.is_valid(),
        ensures
            final(buffer)@ == old(buffer)@ + self.encoding(),
            n == self.encoding().len(),
    ;

    /// Appends the bytes of `self` written with `settings`.
    fn serialize_with(&self, buffer: &mut Vec<u8>, settings: &Self::SerializeSettings) -> (n:
        usize)
        requires
            self.is_valid(),
        ensures
            final(buffer)@ == old(buffer)@ + self.encoding_with(*settings),
            n == self.encoding_with(*settings).len(),
    ;

    /// Reads `data`, rejecting anything that is not well formed.
    fn deserialize(data: &'a [u8]) -> (r: Result<Self, Self::Error>)
        ensures
            Self::decodes(data@, r),
    ;

    /// Reads `data`, skipping checks that a trusted producer makes redundant.
    fn deserialize_lossy(data: &'a [u8]) -> (r: Result<Self, Self::Error>)
        ensures
            Self::decodes_lossy(data@, r),
    ;

    /// Strict and lossy reading each allow one result for given bytes (one
    /// value as seen through its view, or one error).
    proof fn lemma_decodes_functional(
        data: Seq<u8>,
        r1: Result<Self, Self::Error>,
        r2: Result<Self, Self::Error>,
    )
        requires
            Self::decodes(data, r1) && Self::decodes(data, r2) || Self::decodes_lossy(data, r1)
                && Self::decodes_lossy(data, r2),
        ensures
            match (r1, r2) {
                (Ok(a), Ok(b)) => a@ == b@,
                (Err(e1), Err(e2)) => e1 == e2,
                _ => false,
            },
    ;

    /// Wherever strict reading succeeds, lossy reading gives what strict
    /// reading allows.
    proof fn lemma_lossy_agrees(data: Seq<u8>, v: Self, r: Result<Self, Self::Error>)
        requires
            Self::decodes(data, Ok(v)),
            Self::decodes_lossy(data, r),
        ensures
            Self::decodes(data, r),
    ;
}

/// Fixed-width integer output: at least `len` bytes, filled on the left
/// with `byte`.
#[derive(Debug, Clone, Copy)]
pub struct Padding {
    pub len: usize,
    pub byte: u8,
}

impl Padding {
    /// Zero-padding to `len` digits.
    pub fn zeros(len: usize) -> (r: Self)
        ensures
            r.len == len,
            r.byte == 48,
    {
        Padding { len, byte: 48u8 }
    }
}

/// Whether timestamps are written with milliseconds.
#[derive(Debug, Clone, Copy)]
pub struct WithMilliseconds(pub bool);

/// The text of `b` when it is valid UTF-8.
pub uninterp spec fn utf8_decode(b: Seq<u8>) -> Option<Seq<char>>;

pub open spec fn utf8_valid(b: Seq<u8>) -> bool {
    utf8_decode(b) is Some
}

/// Relies on `std::str::from_utf8`: it succeeds exactly on valid UTF-8 (so
/// always on ASCII), and gives the text that the bytes encode.
#[verifier::external_body]
fn utf8_str(b: &[u8]) -> (r: Option<&str>)
    ensures
        match r {
            Some(s) => utf8_decode(b@) == Some(s@),
            None => utf8_decode(b@) is None,
        },
        (forall|i: int| 0 <= i < b@.len() ==> b@[i] < 128) ==> r is Some,
{
    std::str::from_utf8(b).ok()
}

/// Why an integer field could not be read.
#[derive(Debug, Clone, Copy, PartialEq, Eq, Structural)]
pub enum IntError {
    /// The bytes are not UTF-8.
    InvalidUtf8,
    /// Not a number of this type.
    Other,
}

/// The error for unreadable integer bytes.
pub open spec fn int_error(data: Seq<u8>) -> IntError {
    if utf8_valid(data) {
        IntError::Other
    } else {
        IntError::InvalidUtf8
    }
}

fn int_error_of(data: &[u8]) -> (r: IntError)
    ensures
        r == int_error(data@),
{
    if utf8_str(data).is_some() {
        IntError::Other
    } else {
        IntError::InvalidUtf8
    }
}

/// `s` without a leading `+`.
pub open spec fn unsigned_body(s: Seq<u8>) -> Seq<u8> {
    if s.len() > 0 && s[0] == 43u8 {
        s.drop_first()
    } else {
        s
    }
}

/// The number that `s` spells: an optional `+`, then one or more digits.
pub open spec fn unsigned_text(s: Seq<u8>) -> Option<nat> {
    let body = unsigned_body(s);
    if body.len() > 0 && all_digits(body) {
        Some(digits_value(body))
    } else {
        None
    }
}

/// `s` without a leading `+` or `-`.
pub open spec fn signed_body(s: Seq<u8>) -> Seq<u8> {
    if s.len() > 0 && (s[0] == 43u8 || s[0] == 45u8) {
        s.drop_first()
    } else {
        s
    }
}

pub open spec fn is_negative_text(s: Seq<u8>) -> bool {
    s.len() > 0 && s[0] == 45u8
}

/// The number that `s` spells: an optional `+` or `-`, then one or more
/// digits.
pub open spec fn signed_text(s: Seq<u8>) -> Option<int> {
    let body = signed_body(s);
    if body.len() > 0 && all_digits(body) {
        if is_negative_text(s) {
            Some(-digits_value(body))
        } else {
            Some(digits_value(body) as int)
        }
    } else {
        None
    }
}

/// Strict reading of an unsigned number no larger than `max`.
pub open spec fn unsigned_decoding(data: Seq<u8>, max: nat) -> Result<nat, IntError> {
    match unsigned_text(data) {
        Some(v) => if v <= max {
            Ok(v)
        } else {
            Err(int_error(data))
        },
        None => Err(int_error(data)),
    }
}

/// Strict reading of a signed number in `min..=max`.
pub open spec fn signed_decoding(data: Seq<u8>, min: int, max: int) -> Result<int, IntError> {
    match signed_text(data) {
        Some(v) => if min <= v <= max {
            Ok(v)
        } else {
            Err(int_error(data))
        },
        None => Err(int_error(data)),
    }
}

/// The canonical text of a signed number.
pub open spec fn signed_digits(v: int) -> Seq<u8> {
    if v < 0 {
        seq![45u8] + decimal_digits((-v) as nat)
    } else {
        decimal_digits(v as nat)
    }
}

/// Lossy reading of a signed number on `bits` bits: the wrapping
/// accumulation of the digits, negated after a `-`, as two's complement.
pub open spec fn lossy_signed(s: Seq<u8>, m: int) -> int {
    let u = lossy_fold(signed_body(s), m);
    let w = if is_negative_text(s) {
        (m - u) % m
    } else {
        u
    };
    if w >= m / 2 {
        w - m
    } else {
        w
    }
}

/// Reads the digits of `data` from `start` on; `None` unless there is at
/// least one, all are digits and their value is at most `limit`.
fn parse_digits(data: &[u8], start: usize, end: usize, limit: u64) -> (r: Option<u64>)
    requires
        start <= end <= data@.len(),
    ensures
        ({
            let body = data@.subrange(start as int, end as int);
            r == if body.len() > 0 && all_digits(body) && digits_value(body) <= limit {
                Some(digits_value(body) as u64)
            } else {
                None::<u64>
            }
        }),
{
    let ghost body = data@.subrange(start as int, end as int);
    if start == end {
        return None;
    }
    let mut n: u64 = 0;
    let mut i: usize = start;
    while i < end
        invariant
            start <= i <= end,
            end <= data@.len(),
            body == data@.subrange(start as int, end as int),
            all_digits(body.take(i - start)),
            n as int == digits_value(body.take(i - start)),
            n <= limit,
        decreases end - i,
    {
        let ghost k = i - start;
        proof {
            assert(body.take(k + 1).drop_last() == body.take(k));
            assert(body.take(k + 1).last() == data@[i as int]);
        }
        let b = data[i];
        if b < 48u8 || b > 57u8 {
            assert(!is_digit(body[k]));
            return None;
        }
        let d = (b - 48u8) as u64;
        if d > limit || n > (limit - d) / 10 {
            proof {
                assert(n * 10 + d > limit) by (nonlinear_arith)
                    requires
                        d > limit || n > (limit - d) / 10,
                        d <= 9,
                ;
                if all_digits(body) {
                    lemma_prefix_value(body, k + 1);
                }
            }
            return None;
        }
        proof {
            assert(n * 10 + d <= limit) by (nonlinear_arith)
                requires
                    n <= (limit - d) / 10,
                    d <= limit,
            ;
            assert forall|j: int| 0 <= j < k + 1 implies is_digit(#[trigger] body.take(k + 1)[j]) by {
                if j < k {
                    assert(body.take(k + 1)[j] == body.take(k)[j]);
                }
            }
        }
        n = n * 10 + d;
        i += 1;
    }
    assert(body.take(i - start) == body);
    Some(n)
}

/// Reads a tag's digits in `start..end`: `None` unless all are digits and
/// they spell at most 65535.
pub fn parse_digits_in(data: &[u8], start: usize, end: usize) -> (r: Option<u16>)
    requires
        start <= end <= data@.len(),
    ensures
        ({
            let body = data@.subrange(start as int, end as int);
            r == if body.len() > 0 && all_digits(body) && digits_value(body) <= 65535 {
                Some(digits_value(body) as u16)
            } else {
                None::<u16>
            }
        }),
{
    match parse_digits(data, start, end, 0xffff) {
        Some(v) => Some(v as u16),
        None => None,
    }
}

/// The wrapping accumulation of the bytes of `data` from `start` on, in
/// `u64`.
fn lossy_u64(data: &[u8], start: usize) -> (r: u64)
    requires
        start <= data@.len(),
    ensures
        r as int == lossy_fold(data@.skip(start as int), 0x1_0000_0000_0000_0000),
{
    let ghost m: int = 0x1_0000_0000_0000_0000;
    let ghost body = data@.skip(start as int);
    let mut n: u64 = 0;
    let mut i: usize = start;
    while i < data.len()
        invariant
            start <= i <= data@.len(),
            body == data@.skip(start as int),
            m == 0x1_0000_0000_0000_0000,
            n as int == lossy_fold(body.take(i - start), m),
        decreases data@.len() - i,
    {
        let ghost k = i - start;
        proof {
            assert(body.take(k + 1).drop_last() == body.take(k));
            assert(body.take(k + 1).last() == data@[i as int]);
            lemma_lossy_fold_step(body.take(k + 1), m);
            lemma_near_zero_mod(data@[i as int] as int - 48, m);
        }
        n = n.wrapping_mul(10).wrapping_add((data[i] as u64).wrapping_sub(48u64));
        i += 1;
    }
    assert(body.take(i - start) == body);
    n
}

/// As [`lossy_u64`], in `u32`.
fn lossy_u32(data: &[u8], start: usize) -> (r: u32)
    requires
        start <= data@.len(),
    ensures
        r as int == lossy_fold(data@.skip(start as int), 0x1_0000_0000),
{
    let ghost m: int = 0x1_0000_0000;
    let ghost body = data@.skip(start as int);
    let mut n: u32 = 0;
    let mut i: usize = start;
    while i < data.len()
        invariant
            start <= i <= data@.len(),
            body == data@.skip(start as int),
            m == 0x1_0000_0000,
            n as int == lossy_fold(body.take(i - start), m),
        decreases data@.len() - i,
    {
        let ghost k = i - start;
        proof {
            assert(body.take(k + 1).drop_last() == body.take(k));
            assert(body.take(k + 1).last() == data@[i as int]);
            lemma_lossy_fold_step(body.take(k + 1), m);
            lemma_near_zero_mod(data@[i as int] as int - 48, m);
        }
        n = n.wrapping_mul(10).wrapping_add((data[i] as u32).wrapping_sub(48u32));
        i += 1;
    }
    assert(body.take(i - start) == body);
    n
}

/// Where `unsigned_body` starts.
fn unsigned_start(data: &[u8]) -> (r: usize)
    ensures
        r <= data@.len(),
        data@.skip(r as int) == unsigned_body(data@),
{
    if data.len() > 0 && data[0] == 43u8 {
        1
    } else {
        assert(data@.skip(0) == data@);
        0
    }
}

/// Where `signed_body` starts.
fn signed_start(data: &[u8]) -> (r: usize)
    ensures
        r <= data@.len(),
        data@.skip(r as int) == signed_body(data@),
{
    if data.len() > 0 && (data[0] == 43u8 || data[0] == 45u8) {
        1
    } else {
        assert(data@.skip(0) == data@);
        0
    }
}

/// Strict reading of an unsigned number no larger than `max`.
fn deserialize_unsigned(data: &[u8], max: u64) -> (r: Result<u64, IntError>)
    ensures
        match unsigned_decoding(data@, max as nat) {
            Ok(v) => r == Ok::<u64, IntError>(v as u64),
            Err(e) => r == Err::<u64, IntError>(e),
        },
{
    let start = unsigned_start(data);
    assert(data@.skip(start as int) == data@.subrange(start as int, data@.len() as int));
    match parse_digits(data, start, data.len(), max) {
        Some(v) => Ok(v),
        None => Err(int_error_of(data)),
    }
}

/// Strict reading of a signed number in `-(max + 1)..=max`.
fn deserialize_signed(data: &[u8], max: u64) -> (r: Result<i128, IntError>)
    requires
        max < u64::MAX,
    ensures
        match signed_decoding(data@, -(max + 1), max as int) {
            Ok(v) => r == Ok::<i128, IntError>(v as i128),
            Err(e) => r == Err::<i128, IntError>(e),
        },
{
    let start = signed_start(data);
    let negative = data.len() > 0 && data[0] == 45u8;
    let limit = if negative {
        max + 1
    } else {
        max
    };
    assert(data@.skip(start as int) == data@.subrange(start as int, data@.len() as int));
    match parse_digits(data, start, data.len(), limit) {
        Some(v) => if negative {
            Ok(-(v as i128))
        } else {
            Ok(v as i128)
        },
        None => {
            proof {
                let body = signed_body(data@);
                if body.len() > 0 && all_digits(body) {
                    assert(digits_value(body) > limit);
                }
            }
            Err(int_error_of(data))
        },
    }
}

/// Appends the canonical text of a signed number.
fn push_signed(buffer: &mut Vec<u8>, v: i128)
    requires
        -0x1_0000_0000_0000_0000 < v < 0x1_0000_0000_0000_0000,
    ensures
        final(buffer)@ == old(buffer)@ + signed_digits(v as int),
{
    if v < 0 {
        buffer.push(45u8);
        push_decimal(buffer, (-v) as u64);
        assert(buffer@ =~= old(buffer)@ + signed_digits(v as int));
    } else {
        push_decimal(buffer, v as u64);
    }
}

impl<'a> FixFieldValue<'a> for u32 {
    type Error = IntError;
    type SerializeSettings = Padding;

    open spec fn is_valid(&self) -> bool {
        true
    }

    open spec fn encoding(&self) -> Seq<u8> {
        decimal_digits(*self as nat)
    }

    open spec fn encoding_with(&self, settings: Padding) -> Seq<u8> {
        padded_digits(*self as nat, settings.len as nat, settings.byte)
    }

    open spec fn decodes(data: Seq<u8>, r: Result<u32, IntError>) -> bool {
        match unsigned_decoding(data, u32::MAX as nat) {
            Ok(v) => r == Ok::<u32, IntError>(v as u32),
            Err(e) => r == Err::<u32, IntError>(e),
        }
    }

    open spec fn decodes_lossy(data: Seq<u8>, r: Result<u32, IntError>) -> bool {
        r == Ok::<u32, IntError>(lossy_fold(unsigned_body(data), 0x1_0000_0000) as u32)
    }

    fn serialize(&self, buffer: &mut Vec<u8>) -> (n: usize) {
        let before = buffer.len();
        push_decimal(buffer, *self as u64);
        buffer.len() - before
    }

    fn serialize_with(&self, buffer: &mut Vec<u8>, settings: &Padding) -> (n: usize) {
        let before = buffer.len();
        push_padded(buffer, *self as u64, settings.len, settings.byte);
        buffer.len() - before
    }

    fn deserialize(data: &'a [u8]) -> (r: Result<u32, IntError>) {
        match deserialize_unsigned(data, 0xffff_ffff) {
            Ok(v) => Ok(v as u32),
            Err(e) => Err(e),
        }
    }

    fn deserialize_lossy(data: &'a [u8]) -> (r: Result<u32, IntError>) {
        Ok(lossy_u32(data, unsigned_start(data)))
    }

    proof fn lemma_decodes_functional(
        data: Seq<u8>,
        r1: Result<u32, IntError>,
        r2: Result<u32, IntError>,
    ) {
    }

    proof fn lemma_lossy_agrees(data: Seq<u8>, v: u32, r: Result<u32, IntError>) {
        lemma_unsigned_lossy_exact(data, 0x1_0000_0000);
    }
}

/// On text that strict reading accepts, the lossy accumulation is exact.
pub proof fn lemma_unsigned_lossy_exact(data: Seq<u8>, m: int)
    requires
        m > 0,
        unsigned_text(data) matches Some(v) && v < m,
    ensures
        lossy_fold(unsigned_body(data), m) == unsigned_text(data)->Some_0,
{
    lemma_lossy_fold_exact(unsigned_body(data), m);
}

/// As [`lossy_u64`], in `usize`.
fn lossy_usize(data: &[u8], start: usize) -> (r: usize)
    requires
        start <= data@.len(),
    ensures
        r as int == lossy_fold(data@.skip(start as int), usize_modulus()),
{
    let ghost m: int = usize_modulus();
    let ghost body = data@.skip(start as int);
    let mut n: usize = 0;
    let mut i: usize = start;
    while i < data.len()
        invariant
            start <= i <= data@.len(),
            body == data@.skip(start as int),
            m == usize_modulus(),
            n as int == lossy_fold(body.take(i - start), m),
        decreases data@.len() - i,
    {
        let ghost k = i - start;
        proof {
            assert(body.take(k + 1).drop_last() == body.take(k));
            assert(body.take(k + 1).last() == data@[i as int]);
            lemma_lossy_fold_step(body.take(k + 1), m);
            lemma_near_zero_mod(data@[i as int] as int - 48, m);
        }
        n = n.wrapping_mul(10).wrapping_add((data[i] as usize).wrapping_sub(48usize));
        i += 1;
    }
    assert(body.take(i - start) == body);
    n
}

/// As [`lossy_u64`], in `u16`.
fn lossy_u16(data: &[u8], start: usize) -> (r: u16)
    requires
        start <= data@.len(),
    ensures
        r as int == lossy_fold(data@.skip(start as int), 0x1_0000),
{
    let ghost m: int = 0x1_0000;
    let ghost body = data@.skip(start as int);
    let mut n: u16 = 0;
    let mut i: usize = start;
    while i < data.len()
        invariant
            start <= i <= data@.len(),
            body == data@.skip(start as int),
            m == 0x1_0000,
            n as int == lossy_fold(body.take(i - start), m),
        decreases data@.len() - i,
    {
        let ghost k = i - start;
        proof {
            assert(body.take(k + 1).drop_last() == body.take(k));
            assert(body.take(k + 1).last() == data@[i as int]);
            lemma_lossy_fold_step(body.take(k + 1), m);
            lemma_near_zero_mod(data@[i as int] as int - 48, m);
        }
        n = n.wrapping_mul(10).wrapping_add((data[i] as u16).wrapping_sub(48u16));
        i += 1;
    }
    assert(body.take(i - start) == body);
    n
}

/// Negation modulo `m` of a residue, as `wrapping_sub` from zero computes it.
proof fn lemma_negate_residue(u: int, m: int)
    requires
        0 <= u < m,
    ensures
        (m - u) % m == if u == 0 {
            0
        } else {
            m - u
        },
{
    vstd::arithmetic::div_mod::lemma_mod_add_multiples_vanish(-u, m);
    lemma_near_zero_mod(-u, m);
}

/// On text that strict reading accepts, the lossy signed reading is exact.
pub proof fn lemma_signed_lossy_exact(data: Seq<u8>, m: int)
    requires
        m >= 4,
        m % 2 == 0,
        signed_text(data) matches Some(v) && -(m / 2) <= v < m / 2,
    ensures
        lossy_signed(data, m) == signed_text(data)->Some_0,
{
    let body = signed_body(data);
    lemma_lossy_fold_exact(body, m);
    let d = digits_value(body) as int;
    if is_negative_text(data) {
        lemma_negate_residue(d, m);
    }
}

impl<'a> FixFieldValue<'a> for u64 {
    type Error = IntError;
    type SerializeSettings = ();

    open spec fn is_valid(&self) -> bool {
        true
    }

    open spec fn encoding(&self) -> Seq<u8> {
        decimal_digits(*self as nat)
    }

    open spec fn encoding_with(&self, settings: ()) -> Seq<u8> {
        self.encoding()
    }

    open spec fn decodes(data: Seq<u8>, r: Result<u64, IntError>) -> bool {
        match unsigned_decoding(data, u64::MAX as nat) {
            Ok(v) => r == Ok::<u64, IntError>(v as u64),
            Err(e) => r == Err::<u64, IntError>(e),
        }
    }

    open spec fn decodes_lossy(data: Seq<u8>, r: Result<u64, IntError>) -> bool {
        r == Ok::<u64, IntError>(
            lossy_fold(unsigned_body(data), 0x1_0000_0000_0000_0000) as u64,
        )
    }

    fn serialize(&self, buffer: &mut Vec<u8>) -> (n: usize) {
        let before = buffer.len();
        push_decimal(buffer, *self);
        buffer.len() - before
    }

    fn serialize_with(&self, buffer: &mut Vec<u8>, settings: &()) -> (n: usize) {
        self.serialize(buffer)
    }

    fn deserialize(data: &'a [u8]) -> (r: Result<u64, IntError>) {
        deserialize_unsigned(data, u64::MAX)
    }

    fn deserialize_lossy(data: &'a [u8]) -> (r: Result<u64, IntError>) {
        Ok(lossy_u64(data, unsigned_start(data)))
    }

    proof fn lemma_decodes_functional(
        data: Seq<u8>,
        r1: Result<u64, IntError>,
        r2: Result<u64, IntError>,
    ) {
    }

    proof fn lemma_lossy_agrees(data: Seq<u8>, v: u64, r: Result<u64, IntError>) {
        lemma_unsigned_lossy_exact(data, 0x1_0000_0000_0000_0000);
    }
}

impl<'a> FixFieldValue<'a> for usize {
    type Error = IntError;
    type SerializeSettings = ();

    open spec fn is_valid(&self) -> bool {
        true
    }

    open spec fn encoding(&self) -> Seq<u8> {
        decimal_digits(*self as nat)
    }

    open spec fn encoding_with(&self, settings: ()) -> Seq<u8> {
        self.encoding()
    }

    open spec fn decodes(data: Seq<u8>, r: Result<usize, IntError>) -> bool {
        match unsigned_decoding(data, usize::MAX as nat) {
            Ok(v) => r == Ok::<usize, IntError>(v as usize),
            Err(e) => r == Err::<usize, IntError>(e),
        }
    }

    open spec fn decodes_lossy(data: Seq<u8>, r: Result<usize, IntError>) -> bool {
        r == Ok::<usize, IntError>(lossy_fold(unsigned_body(data), usize_modulus()) as usize)
    }

    fn serialize(&self, buffer: &mut Vec<u8>) -> (n: usize) {
        let before = buffer.len();
        push_decimal(buffer, *self as u64);
        buffer.len() - before
    }

    fn serialize_with(&self, buffer: &mut Vec<u8>, settings: &()) -> (n: usize) {
        self.serialize(buffer)
    }

    fn deserialize(data: &'a [u8]) -> (r: Result<usize, IntError>) {
        let max = usize::MAX as u64;
        assert(max as nat == usize::MAX as nat);
        match deserialize_unsigned(data, max) {
            Ok(v) => {
                assert(unsigned_decoding(data@, usize::MAX as nat) == Ok::<nat, IntError>(
                    v as nat,
                ));
                assert(v <= usize::MAX);
                let r: Result<usize, IntError> = Ok(v as usize);
                assert(r == Ok::<usize, IntError>((v as nat) as usize));
                assert(<usize as FixFieldValue<'a>>::decodes(data@, r));
                r
            },
            Err(e) => {
                assert(unsigned_decoding(data@, usize::MAX as nat) == Err::<nat, IntError>(e));
                let r: Result<usize, IntError> = Err(e);
                assert(<usize as FixFieldValue<'a>>::decodes(data@, r));
                r
            },
        }
    }

    fn deserialize_lossy(data: &'a [u8]) -> (r: Result<usize, IntError>) {
        Ok(lossy_usize(data, unsigned_start(data)))
    }

    proof fn lemma_decodes_functional(
        data: Seq<u8>,
        r1: Result<usize, IntError>,
        r2: Result<usize, IntError>,
    ) {
    }

    proof fn lemma_lossy_agrees(data: Seq<u8>, v: usize, r: Result<usize, IntError>) {
        lemma_unsigned_lossy_exact(data, usize_modulus());
    }
}

impl<'a> FixFieldValue<'a> for i32 {
    type Error = IntError;
    type SerializeSettings = ();

    open spec fn is_valid(&self) -> bool {
        true
    }

    open spec fn encoding(&self) -> Seq<u8> {
        signed_digits(*self as int)
    }

    open spec fn encoding_with(&self, settings: ()) -> Seq<u8> {
        self.encoding()
    }

    open spec fn decodes(data: Seq<u8>, r: Result<i32, IntError>) -> bool {
        match signed_decoding(data, i32::MIN as int, i32::MAX as int) {
            Ok(v) => r == Ok::<i32, IntError>(v as i32),
            Err(e) => r == Err::<i32, IntError>(e),
        }
    }

    open spec fn decodes_lossy(data: Seq<u8>, r: Result<i32, IntError>) -> bool {
        r == Ok::<i32, IntError>(lossy_signed(data, 0x1_0000_0000) as i32)
    }

    fn serialize(&self, buffer: &mut Vec<u8>) -> (n: usize) {
        let before = buffer.len();
        push_signed(buffer, *self as i128);
        buffer.len() - before
    }

    fn serialize_with(&self, buffer: &mut Vec<u8>, settings: &()) -> (n: usize) {
        self.serialize(buffer)
    }

    fn deserialize(data: &'a [u8]) -> (r: Result<i32, IntError>) {
        match deserialize_signed(data, 0x7fff_ffff) {
            Ok(v) => Ok(v as i32),
            Err(e) => Err(e),
        }
    }

    fn deserialize_lossy(data: &'a [u8]) -> (r: Result<i32, IntError>) {
        let u = lossy_u32(data, signed_start(data));
        let negative = data.len() > 0 && data[0] == 45u8;
        proof {
            lemma_negate_residue(u as int, 0x1_0000_0000);
        }
        let w = if negative {
            0u32.wrapping_sub(u)
        } else {
            u
        };
        if w <= 0x7fff_ffff {
            Ok(w as i32)
        } else {
            Ok((w as i64 - 0x1_0000_0000i64) as i32)
        }
    }

    proof fn lemma_decodes_functional(
        data: Seq<u8>,
        r1: Result<i32, IntError>,
        r2: Result<i32, IntError>,
    ) {
    }

    proof fn lemma_lossy_agrees(data: Seq<u8>, v: i32, r: Result<i32, IntError>) {
        lemma_signed_lossy_exact(data, 0x1_0000_0000);
    }
}

impl<'a> FixFieldValue<'a> for i64 {
    type Error = IntError;
    type SerializeSettings = ();

    open spec fn is_valid(&self) -> bool {
        true
    }

    open spec fn encoding(&self) -> Seq<u8> {
        signed_digits(*self as int)
    }

    open spec fn encoding_with(&self, settings: ()) -> Seq<u8> {
        self.encoding()
    }

    open spec fn decodes(data: Seq<u8>, r: Result<i64, IntError>) -> bool {
        match signed_decoding(data, i64::MIN as int, i64::MAX as int) {
            Ok(v) => r == Ok::<i64, IntError>(v as i64),
            Err(e) => r == Err::<i64, IntError>(e),
        }
    }

    open spec fn decodes_lossy(data: Seq<u8>, r: Result<i64, IntError>) -> bool {
        r == Ok::<i64, IntError>(lossy_signed(data, 0x1_0000_0000_0000_0000) as i64)
    }

    fn serialize(&self, buffer: &mut Vec<u8>) -> (n: usize) {
        let before = buffer.len();
        push_signed(buffer, *self as i128);
        buffer.len() - before
    }

    fn serialize_with(&self, buffer: &mut Vec<u8>, settings: &()) -> (n: usize) {
        self.serialize(buffer)
    }

    fn deserialize(data: &'a [u8]) -> (r: Result<i64, IntError>) {
        match deserialize_signed(data, 0x7fff_ffff_ffff_ffff) {
            Ok(v) => Ok(v as i64),
            Err(e) => Err(e),
        }
    }

    fn deserialize_lossy(data: &'a [u8]) -> (r: Result<i64, IntError>) {
        let u = lossy_u64(data, signed_start(data));
        let negative = data.len() > 0 && data[0] == 45u8;
        proof {
            lemma_negate_residue(u as int, 0x1_0000_0000_0000_0000);
        }
        let w = if negative {
            0u64.wrapping_sub(u)
        } else {
            u
        };
        if w <= 0x7fff_ffff_ffff_ffff {
            Ok(w as i64)
        } else {
            Ok((w as i128 - 0x1_0000_0000_0000_0000i128) as i64)
        }
    }

    proof fn lemma_decodes_functional(
        data: Seq<u8>,
        r1: Result<i64, IntError>,
        r2: Result<i64, IntError>,
    ) {
    }

    proof fn lemma_lossy_agrees(data: Seq<u8>, v: i64, r: Result<i64, IntError>) {
        lemma_signed_lossy_exact(data, 0x1_0000_0000_0000_0000);
    }
}

/// A field tag: a number in `1..=65535`.
#[derive(Debug, Clone, Copy, PartialEq, Eq, Structural)]
pub struct TagU16 {
    value: u16,
}

impl TagU16 {
    /// The number of the tag.
    pub closed spec fn spec_get(&self) -> u16 {
        self.value
    }

    /// Every tag is positive.
    pub closed spec fn wf(&self) -> bool {
        self.value != 0
    }

    /// The tag numbered `n`, unless `n` is zero.
    pub fn new(n: u16) -> (r: Option<TagU16>)
        ensures
            n == 0 <==> r is None,
            r matches Some(t) ==> t.spec_get() == n && t.wf(),
    {
        if n == 0 {
            None
        } else {
            Some(TagU16 { value: n })
        }
    }

    /// The tag numbered `n`, which must be positive.
    pub fn from_nonzero(n: u16) -> (r: TagU16)
        requires
            n != 0,
        ensures
            r.spec_get() == n,
            r.wf(),
    {
        TagU16 { value: n }
    }

    pub fn get(&self) -> (r: u16)
        ensures
            r == self.spec_get(),
    {
        self.value
    }
}

impl View for TagU16 {
    type V = TagU16;

    open spec fn view(&self) -> TagU16 {
        *self
    }
}

impl<'a> FixFieldValue<'a> for TagU16 {
    type Error = IntError;
    type SerializeSettings = ();

    open spec fn is_valid(&self) -> bool {
        true
    }

    open spec fn encoding(&self) -> Seq<u8> {
        decimal_digits(self.spec_get() as nat)
    }

    open spec fn encoding_with(&self, settings: ()) -> Seq<u8> {
        self.encoding()
    }

    open spec fn decodes(data: Seq<u8>, r: Result<TagU16, IntError>) -> bool {
        match unsigned_decoding(data, u16::MAX as nat) {
            Ok(v) => if v == 0 {
                r == Err::<TagU16, IntError>(IntError::Other)
            } else {
                r matches Ok(t) && t.spec_get() == v && t.wf()
            },
            Err(e) => r == Err::<TagU16, IntError>(e),
        }
    }

    open spec fn decodes_lossy(data: Seq<u8>, r: Result<TagU16, IntError>) -> bool {
        let v = lossy_fold(unsigned_body(data), 0x1_0000);
        if v == 0 {
            r == Err::<TagU16, IntError>(IntError::Other)
        } else {
            r matches Ok(t) && t.spec_get() == v && t.wf()
        }
    }

    fn serialize(&self, buffer: &mut Vec<u8>) -> (n: usize) {
        let before = buffer.len();
        push_decimal(buffer, self.value as u64);
        buffer.len() - before
    }

    fn serialize_with(&self, buffer: &mut Vec<u8>, settings: &()) -> (n: usize) {
        self.serialize(buffer)
    }

    fn deserialize(data: &'a [u8]) -> (r: Result<TagU16, IntError>) {
        match deserialize_unsigned(data, 0xffff) {
            Ok(v) => match TagU16::new(v as u16) {
                Some(t) => Ok(t),
                None => Err(IntError::Other),
            },
            Err(e) => Err(e),
        }
    }

    fn deserialize_lossy(data: &'a [u8]) -> (r: Result<TagU16, IntError>) {
        match TagU16::new(lossy_u16(data, unsigned_start(data))) {
            Some(t) => Ok(t),
            None => Err(IntError::Other),
        }
    }

    proof fn lemma_decodes_functional(
        data: Seq<u8>,
        r1: Result<TagU16, IntError>,
        r2: Result<TagU16, IntError>,
    ) {
        if r1 is Ok && r2 is Ok {
            assert(r1->Ok_0.value == r2->Ok_0.value);
        }
    }

    proof fn lemma_lossy_agrees(data: Seq<u8>, v: TagU16, r: Result<TagU16, IntError>) {
        lemma_unsigned_lossy_exact(data, 0x1_0000);
    }
}

impl<'a> FixFieldValue<'a> for u8 {
    type Error = IntError;
    type SerializeSettings = ();

    open spec fn is_valid(&self) -> bool {
        true
    }

    open spec fn encoding(&self) -> Seq<u8> {
        seq![*self]
    }

    open spec fn encoding_with(&self, settings: ()) -> Seq<u8> {
        self.encoding()
    }

    /// Exactly one byte.
    open spec fn decodes(data: Seq<u8>, r: Result<u8, IntError>) -> bool {
        if data.len() == 1 {
            r == Ok::<u8, IntError>(data[0])
        } else {
            r == Err::<u8, IntError>(IntError::Other)
        }
    }

    /// The first byte, if any.
    open spec fn decodes_lossy(data: Seq<u8>, r: Result<u8, IntError>) -> bool {
        if data.len() >= 1 {
            r == Ok::<u8, IntError>(data[0])
        } else {
            r == Err::<u8, IntError>(IntError::Other)
        }
    }

    fn serialize(&self, buffer: &mut Vec<u8>) -> (n: usize) {
        buffer.push(*self);
        1
    }

    fn serialize_with(&self, buffer: &mut Vec<u8>, settings: &()) -> (n: usize) {
        self.serialize(buffer)
    }

    fn deserialize(data: &'a [u8]) -> (r: Result<u8, IntError>) {
        if data.len() == 1 {
            Ok(data[0])
        } else {
            Err(IntError::Other)
        }
    }

    fn deserialize_lossy(data: &'a [u8]) -> (r: Result<u8, IntError>) {
        if data.len() >= 1 {
            Ok(data[0])
        } else {
            Err(IntError::Other)
        }
    }

    proof fn lemma_decodes_functional(
        data: Seq<u8>,
        r1: Result<u8, IntError>,
        r2: Result<u8, IntError>,
    ) {
    }

    proof fn lemma_lossy_agrees(data: Seq<u8>, v: u8, r: Result<u8, IntError>) {
    }
}

/// Why a boolean field could not be read.
#[derive(Debug, Clone, Copy, PartialEq, Eq, Structural)]
pub enum BoolError {
    /// Not exactly one byte.
    WrongLength,
    /// Neither `Y` nor `N`.
    InvalidCharacter,
}

impl<'a> FixFieldValue<'a> for bool {
    type Error = BoolError;
    type SerializeSettings = ();

    open spec fn is_valid(&self) -> bool {
        true
    }

    /// `Y` or `N`.
    open spec fn encoding(&self) -> Seq<u8> {
        if *self {
            seq![89u8]
        } else {
            seq![78u8]
        }
    }

    open spec fn encoding_with(&self, settings: ()) -> Seq<u8> {
        self.encoding()
    }

    open spec fn decodes(data: Seq<u8>, r: Result<bool, BoolError>) -> bool {
        r == if data.len() != 1 {
            Err::<bool, BoolError>(BoolError::WrongLength)
        } else if data[0] == 89u8 {
            Ok(true)
        } else if data[0] == 78u8 {
            Ok(false)
        } else {
            Err(BoolError::InvalidCharacter)
        }
    }

    /// One byte, which is `true` exactly when it is `Y`.
    open spec fn decodes_lossy(data: Seq<u8>, r: Result<bool, BoolError>) -> bool {
        r == if data.len() != 1 {
            Err::<bool, BoolError>(BoolError::WrongLength)
        } else {
            Ok(data[0] == 89u8)
        }
    }

    fn serialize(&self, buffer: &mut Vec<u8>) -> (n: usize) {
        let byte = if *self {
            89u8
        } else {
            78u8
        };
        buffer.push(byte);
        1
    }

    fn serialize_with(&self, buffer: &mut Vec<u8>, settings: &()) -> (n: usize) {
        self.serialize(buffer)
    }

    fn deserialize(data: &'a [u8]) -> (r: Result<bool, BoolError>) {
        if data.len() != 1 {
            Err(BoolError::WrongLength)
        } else if data[0] == 89u8 {
            Ok(true)
        } else if data[0] == 78u8 {
            Ok(false)
        } else {
            Err(BoolError::InvalidCharacter)
        }
    }

    fn deserialize_lossy(data: &'a [u8]) -> (r: Result<bool, BoolError>) {
        if data.len() != 1 {
            Err(BoolError::WrongLength)
        } else {
            Ok(data[0] == 89u8)
        }
    }

    proof fn lemma_decodes_functional(
        data: Seq<u8>,
        r1: Result<bool, BoolError>,
        r2: Result<bool, BoolError>,
    ) {
    }

    proof fn lemma_lossy_agrees(data: Seq<u8>, v: bool, r: Result<bool, BoolError>) {
    }
}

impl<'a> FixFieldValue<'a> for &'a [u8] {
    type Error = ();
    type SerializeSettings = ();

    open spec fn is_valid(&self) -> bool {
        true
    }

    /// The bytes themselves.
    open spec fn encoding(&self) -> Seq<u8> {
        self@
    }

    open spec fn encoding_with(&self, settings: ()) -> Seq<u8> {
        self@
    }

    /// Any bytes, as they are.
    open spec fn decodes(data: Seq<u8>, r: Result<&'a [u8], ()>) -> bool {
        r matches Ok(v) && v@ == data
    }

    open spec fn decodes_lossy(data: Seq<u8>, r: Result<&'a [u8], ()>) -> bool {
        r matches Ok(v) && v@ == data
    }

    fn serialize(&self, buffer: &mut Vec<u8>) -> (n: usize) {
        buffer.extend_from_slice(*self);
        self.len()
    }

    fn serialize_with(&self, buffer: &mut Vec<u8>, settings: &()) -> (n: usize) {
        self.serialize(buffer)
    }

    fn deserialize(data: &'a [u8]) -> (r: Result<&'a [u8], ()>) {
        Ok(data)
    }

    fn deserialize_lossy(data: &'a [u8]) -> (r: Result<&'a [u8], ()>) {
        Ok(data)
    }

    proof fn lemma_decodes_functional(
        data: Seq<u8>,
        r1: Result<&'a [u8], ()>,
        r2: Result<&'a [u8], ()>,
    ) {
        if Self::decodes(data, r1) && Self::decodes(data, r2) {
            assert(r1->Ok_0 =~= r2->Ok_0);
        } else {
            assert(r1->Ok_0 =~= r2->Ok_0);
        }
    }

    proof fn lemma_lossy_agrees(data: Seq<u8>, v: &'a [u8], r: Result<&'a [u8], ()>) {
    }
}

/// Text fields: any valid UTF-8.
impl<'a> FixFieldValue<'a> for &'a str {
    type Error = ();
    type SerializeSettings = ();

    open spec fn is_valid(&self) -> bool {
        true
    }

    /// The UTF-8 bytes of the text.
    open spec fn encoding(&self) -> Seq<u8> {
        self.spec_bytes()
    }

    open spec fn encoding_with(&self, settings: ()) -> Seq<u8> {
        self.spec_bytes()
    }

    /// The text that the bytes encode, if they are UTF-8.
    open spec fn decodes(data: Seq<u8>, r: Result<&'a str, ()>) -> bool {
        match utf8_decode(data) {
            Some(text) => r matches Ok(s) && s@ == text,
            None => r == Err::<&'a str, ()>(()),
        }
    }

    open spec fn decodes_lossy(data: Seq<u8>, r: Result<&'a str, ()>) -> bool {
        Self::decodes(data, r)
    }

    fn serialize(&self, buffer: &mut Vec<u8>) -> (n: usize) {
        let bytes = self.as_bytes();
        buffer.extend_from_slice(bytes);
        bytes.len()
    }

    fn serialize_with(&self, buffer: &mut Vec<u8>, settings: &()) -> (n: usize) {
        self.serialize(buffer)
    }

    fn deserialize(data: &'a [u8]) -> (r: Result<&'a str, ()>) {
        match utf8_str(data) {
            Some(text) => Ok(text),
            None => Err(()),
        }
    }

    fn deserialize_lossy(data: &'a [u8]) -> (r: Result<&'a str, ()>) {
        Self::deserialize(data)
    }

    proof fn lemma_decodes_functional(
        data: Seq<u8>,
        r1: Result<&'a str, ()>,
        r2: Result<&'a str, ()>,
    ) {
    }

    proof fn lemma_lossy_agrees(data: Seq<u8>, v: &'a str, r: Result<&'a str, ()>) {
    }
}

/// Relies on `TryFrom<&[u8]> for &[u8; N]`: it succeeds exactly when the
/// slice holds `N` bytes, and then views the same bytes.
#[verifier::external_body]
fn as_array<'a, const N: usize>(data: &'a [u8]) -> (r: Option<&'a [u8; N]>)
    ensures
        match r {
            Some(a) => data@.len() == N && a@ == data@,
            None => data@.len() != N,
        },
{
    <&'a [u8; N]>::try_from(data).ok()
}

/// Fixed-width codes: `Country` (2 bytes), `Currency` (3), `Exchange` (4).
impl<'a, const N: usize> FixFieldValue<'a> for &'a [u8; N] {
    type Error = ();
    type SerializeSettings = ();

    open spec fn is_valid(&self) -> bool {
        true
    }

    open spec fn encoding(&self) -> Seq<u8> {
        self@
    }

    open spec fn encoding_with(&self, settings: ()) -> Seq<u8> {
        self@
    }

    /// Exactly `N` bytes.
    open spec fn decodes(data: Seq<u8>, r: Result<&'a [u8; N], ()>) -> bool {
        if data.len() == N {
            r matches Ok(v) && v@ == data
        } else {
            r == Err::<&'a [u8; N], ()>(())
        }
    }

    open spec fn decodes_lossy(data: Seq<u8>, r: Result<&'a [u8; N], ()>) -> bool {
        Self::decodes(data, r)
    }

    fn serialize(&self, buffer: &mut Vec<u8>) -> (n: usize) {
        let s = self.as_slice();
        buffer.extend_from_slice(s);
        s.len()
    }

    fn serialize_with(&self, buffer: &mut Vec<u8>, settings: &()) -> (n: usize) {
        self.serialize(buffer)
    }

    fn deserialize(data: &'a [u8]) -> (r: Result<&'a [u8; N], ()>) {
        match as_array(data) {
            Some(a) => Ok(a),
            None => Err(()),
        }
    }

    fn deserialize_lossy(data: &'a [u8]) -> (r: Result<&'a [u8; N], ()>) {
        Self::deserialize(data)
    }

    proof fn lemma_decodes_functional(
        data: Seq<u8>,
        r1: Result<&'a [u8; N], ()>,
        r2: Result<&'a [u8; N], ()>,
    ) {
        if r1 is Ok && r2 is Ok {
            assert(*r1->Ok_0 =~= *r2->Ok_0);
        }
    }

    proof fn lemma_lossy_agrees(data: Seq<u8>, v: &'a [u8; N], r: Result<&'a [u8; N], ()>) {
    }
}

impl View for CheckSum {
    type V = CheckSum;

    open spec fn view(&self) -> CheckSum {
        *self
    }
}

impl<'a> FixFieldValue<'a> for CheckSum {
    type Error = ();
    type SerializeSettings = ();

    open spec fn is_valid(&self) -> bool {
        true
    }

    /// Three digits, zero-padded.
    open spec fn encoding(&self) -> Seq<u8> {
        three_digits(self.0 as int)
    }

    open spec fn encoding_with(&self, settings: ()) -> Seq<u8> {
        self.encoding()
    }

    /// Exactly three digits spelling a number below 256.
    open spec fn decodes(data: Seq<u8>, r: Result<CheckSum, ()>) -> bool {
        r == if data.len() == 3 && all_digits(data) && digits_value(data) < 256 {
            Ok::<CheckSum, ()>(CheckSum(digits_value(data) as u8))
        } else {
            Err(())
        }
    }

    open spec fn decodes_lossy(data: Seq<u8>, r: Result<CheckSum, ()>) -> bool {
        Self::decodes(data, r)
    }

    fn serialize(&self, buffer: &mut Vec<u8>) -> (n: usize) {
        let d = self.digits();
        buffer.extend_from_slice(d.as_slice());
        3
    }

    fn serialize_with(&self, buffer: &mut Vec<u8>, settings: &()) -> (n: usize) {
        self.serialize(buffer)
    }

    fn deserialize(data: &'a [u8]) -> (r: Result<CheckSum, ()>) {
        if data.len() != 3 {
            return Err(());
        }
        match parse_digits(data, 0, 3, 255) {
            Some(v) => {
                assert(data@.subrange(0, 3) == data@);
                Ok(CheckSum(v as u8))
            },
            None => {
                assert(data@.subrange(0, 3) == data@);
                Err(())
            },
        }
    }

    fn deserialize_lossy(data: &'a [u8]) -> (r: Result<CheckSum, ()>) {
        Self::deserialize(data)
    }

    proof fn lemma_decodes_functional(
        data: Seq<u8>,
        r1: Result<CheckSum, ()>,
        r2: Result<CheckSum, ()>,
    ) {
    }

    proof fn lemma_lossy_agrees(data: Seq<u8>, v: CheckSum, r: Result<CheckSum, ()>) {
    }
}

/// The largest scale of a [`Decimal`].
pub const MAX_DECIMAL_SCALE: u32 = 28;

/// The largest magnitude of a [`Decimal`] mantissa: 96 bits.
pub const MAX_DECIMAL_MANTISSA: i128 = 0xffff_ffff_ffff_ffff_ffff_ffff;

/// A fixed-point decimal number: `mantissa / 10^scale`.
#[derive(Debug, Clone, Copy, PartialEq, Eq, Structural)]
pub struct Decimal {
    pub mantissa: i128,
    pub scale: u32,
}

impl Decimal {
    /// The mantissa fits in 96 bits and the scale is at most 28.
    pub open spec fn wf(&self) -> bool {
        &&& self.scale <= MAX_DECIMAL_SCALE
        &&& -MAX_DECIMAL_MANTISSA <= self.mantissa <= MAX_DECIMAL_MANTISSA
    }

    /// The decimal `mantissa / 10^scale`, if both are in range.
    pub fn new(mantissa: i128, scale: u32) -> (r: Option<Decimal>)
        ensures
            r matches Some(d) ==> d.wf() && d.mantissa == mantissa && d.scale == scale,
            r is None <==> !(Decimal { mantissa, scale }).wf(),
    {
        if scale <= MAX_DECIMAL_SCALE && -MAX_DECIMAL_MANTISSA <= mantissa && mantissa
            <= MAX_DECIMAL_MANTISSA {
            Some(Decimal { mantissa, scale })
        } else {
            None
        }
    }
}

/// The text of `mantissa / 10^scale`: a `-` for a negative mantissa, then the
/// digits of its magnitude, padded with `0` on the left to at least
/// `scale + 1` digits, with a `.` before the last `scale` of them.
pub open spec fn decimal_text(mantissa: i128, scale: u32) -> Seq<u8> {
    let magnitude = if mantissa < 0 {
        -mantissa
    } else {
        mantissa as int
    };
    let digits = padded_digits(magnitude as nat, scale as nat + 1, 48u8);
    let whole = digits.len() - scale;
    let sign = if mantissa < 0 {
        seq![45u8]
    } else {
        Seq::<u8>::empty()
    };
    if scale == 0 {
        sign + digits
    } else {
        sign + digits.take(whole) + seq![46u8] + digits.skip(whole)
    }
}

/// The mantissa and scale that `rust_decimal` reads from `text`, if any.
pub uninterp spec fn decimal_parse(text: Seq<char>) -> Option<(i128, u32)>;

/// Relies on `rust_decimal::Decimal::from_i128_with_scale` (which panics
/// outside the ranges required here) and its `Display` impl, which writes
/// the sign, the whole digits, and the `scale` fraction digits.
#[verifier::external_body]
fn decimal_to_bytes(mantissa: i128, scale: u32) -> (r: Vec<u8>)
    requires
        scale <= MAX_DECIMAL_SCALE,
        -MAX_DECIMAL_MANTISSA <= mantissa <= MAX_DECIMAL_MANTISSA,
    ensures
        r@ == decimal_text(mantissa, scale),
{
    rust_decimal::Decimal::from_i128_with_scale(mantissa, scale).to_string().into_bytes()
}

/// Relies on `FromStr for rust_decimal::Decimal`; a parsed value always has a
/// 96-bit mantissa and a scale of at most 28.
#[verifier::external_body]
fn parse_decimal(text: &str) -> (r: Option<(i128, u32)>)
    ensures
        r == decimal_parse(text@),
        r matches Some((m, s)) ==> s <= MAX_DECIMAL_SCALE && -MAX_DECIMAL_MANTISSA <= m
            <= MAX_DECIMAL_MANTISSA,
{
    match <rust_decimal::Decimal as std::str::FromStr>::from_str(text) {
        Ok(d) => Some((d.mantissa(), d.scale())),
        Err(_) => None,
    }
}

/// Why a decimal field could not be read.
#[derive(Debug, Clone, Copy, PartialEq, Eq, Structural)]
pub enum DecimalError {
    /// The bytes are not UTF-8.
    NotUtf8,
    /// The text is not a decimal number.
    Other,
}

/// Strict (and lossy) reading of a decimal.
pub open spec fn decimal_decoding(data: Seq<u8>) -> Result<Decimal, DecimalError> {
    match utf8_decode(data) {
        None => Err(DecimalError::NotUtf8),
        Some(text) => match decimal_parse(text) {
            Some((m, s)) => Ok(Decimal { mantissa: m, scale: s }),
            None => Err(DecimalError::Other),
        },
    }
}

impl View for Decimal {
    type V = Decimal;

    open spec fn view(&self) -> Decimal {
        *self
    }
}

impl<'a> FixFieldValue<'a> for Decimal {
    type Error = DecimalError;
    type SerializeSettings = ();

    open spec fn is_valid(&self) -> bool {
        self.wf()
    }

    open spec fn encoding(&self) -> Seq<u8> {
        decimal_text(self.mantissa, self.scale)
    }

    open spec fn encoding_with(&self, settings: ()) -> Seq<u8> {
        self.encoding()
    }

    open spec fn decodes(data: Seq<u8>, r: Result<Decimal, DecimalError>) -> bool {
        r == decimal_decoding(data)
    }

    open spec fn decodes_lossy(data: Seq<u8>, r: Result<Decimal, DecimalError>) -> bool {
        r == decimal_decoding(data)
    }

    fn serialize(&self, buffer: &mut Vec<u8>) -> (n: usize) {
        let text = decimal_to_bytes(self.mantissa, self.scale);
        buffer.extend_from_slice(text.as_slice());
        text.len()
    }

    fn serialize_with(&self, buffer: &mut Vec<u8>, settings: &()) -> (n: usize) {
        self.serialize(buffer)
    }

    fn deserialize(data: &'a [u8]) -> (r: Result<Decimal, DecimalError>) {
        match utf8_str(data) {
            None => Err(DecimalError::NotUtf8),
            Some(text) => match parse_decimal(text) {
                Some((m, s)) => Ok(Decimal { mantissa: m, scale: s }),
                None => Err(DecimalError::Other),
            },
        }
    }

    fn deserialize_lossy(data: &'a [u8]) -> (r: Result<Decimal, DecimalError>) {
        Self::deserialize(data)
    }

    proof fn lemma_decodes_functional(
        data: Seq<u8>,
        r1: Result<Decimal, DecimalError>,
        r2: Result<Decimal, DecimalError>,
    ) {
    }

    proof fn lemma_lossy_agrees(data: Seq<u8>, v: Decimal, r: Result<Decimal, DecimalError>) {
    }
}

/// A UTC date and time of day, field by field.
#[derive(Debug, Clone, Copy, PartialEq, Eq, Structural)]
pub struct Timestamp {
    pub year: u32,
    pub month: u32,
    pub day: u32,
    pub hour: u32,
    pub minute: u32,
    pub second: u32,
    pub nanosecond: u32,
}

/// `YYYYMMDD-HH:MM:SS`, then `.sss` when `millis` is set.
pub open spec fn timestamp_text(t: Timestamp, millis: bool) -> Seq<u8> {
    let main = padded_digits(t.year as nat, 4, 48u8) + padded_digits(t.month as nat, 2, 48u8)
        + padded_digits(t.day as nat, 2, 48u8) + seq![45u8] + padded_digits(t.hour as nat, 2, 48u8)
        + seq![58u8] + padded_digits(t.minute as nat, 2, 48u8) + seq![58u8] + padded_digits(
        t.second as nat,
        2,
        48u8,
    );
    if millis {
        main + seq![46u8] + padded_digits((t.nanosecond / 1_000_000) as nat, 3, 48u8)
    } else {
        main
    }
}

/// The digits of `s` in `from..to` are all present.
pub open spec fn digits_in(s: Seq<u8>, from: int, to: int) -> bool {
    all_digits(s.subrange(from, to))
}

pub open spec fn value_in(s: Seq<u8>, from: int, to: int) -> nat {
    digits_value(s.subrange(from, to))
}

/// `s` has the layout `YYYYMMDD-HH:MM:SS` or `YYYYMMDD-HH:MM:SS.sss`, and
/// its month, day, hour, minute and second are in range.
pub open spec fn timestamp_well_formed(s: Seq<u8>) -> bool {
    &&& s.len() == 17 || s.len() == 21
    &&& digits_in(s, 0, 8) && digits_in(s, 9, 11) && digits_in(s, 12, 14) && digits_in(s, 15, 17)
    &&& s[8] == 45u8 && s[11] == 58u8 && s[14] == 58u8
    &&& s.len() == 21 ==> s[17] == 46u8 && digits_in(s, 18, 21)
    &&& 1 <= value_in(s, 4, 6) <= 12 && 1 <= value_in(s, 6, 8) <= 31
    &&& value_in(s, 9, 11) <= 23 && value_in(s, 12, 14) <= 59 && value_in(s, 15, 17) <= 60
}

/// The timestamp that well-formed text spells.
pub open spec fn timestamp_of(s: Seq<u8>) -> Timestamp {
    Timestamp {
        year: value_in(s, 0, 4) as u32,
        month: value_in(s, 4, 6) as u32,
        day: value_in(s, 6, 8) as u32,
        hour: value_in(s, 9, 11) as u32,
        minute: value_in(s, 12, 14) as u32,
        second: value_in(s, 15, 17) as u32,
        nanosecond: if s.len() == 21 {
            (value_in(s, 18, 21) * 1_000_000) as u32
        } else {
            0
        },
    }
}

/// Reads the digits of `data` in `from..to` (at most four of them).
fn digits_between(data: &[u8], from: usize, to: usize) -> (r: Option<u32>)
    requires
        from < to <= data@.len(),
        to - from <= 4,
    ensures
        r is Some <==> digits_in(data@, from as int, to as int),
        r matches Some(v) ==> v as nat == value_in(data@, from as int, to as int),
{
    let ghost body = data@.subrange(from as int, to as int);
    proof {
        if all_digits(body) {
            lemma_digits_below(body);
        }
    }
    match parse_digits(data, from, to, 9999) {
        Some(v) => Some(v as u32),
        None => None,
    }
}

/// At most four digits spell at most 9999.
proof fn lemma_digits_below(s: Seq<u8>)
    requires
        s.len() <= 4,
        all_digits(s),
    ensures
        digits_value(s) <= 9999,
        s.len() <= 3 ==> digits_value(s) <= 999,
        s.len() <= 2 ==> digits_value(s) <= 99,
        s.len() <= 1 ==> digits_value(s) <= 9,
    decreases s.len(),
{
    if s.len() > 0 {
        let p = s.drop_last();
        assert forall|i: int| 0 <= i < p.len() implies is_digit(#[trigger] p[i]) by {
            assert(p[i] == s[i]);
        }
        assert(is_digit(s[s.len() - 1]));
        lemma_digits_below(p);
    }
}

impl View for Timestamp {
    type V = Timestamp;

    open spec fn view(&self) -> Timestamp {
        *self
    }
}

impl<'a> FixFieldValue<'a> for Timestamp {
    type Error = ();
    type SerializeSettings = WithMilliseconds;

    open spec fn is_valid(&self) -> bool {
        true
    }

    /// With milliseconds.
    open spec fn encoding(&self) -> Seq<u8> {
        timestamp_text(*self, true)
    }

    open spec fn encoding_with(&self, settings: WithMilliseconds) -> Seq<u8> {
        timestamp_text(*self, settings.0)
    }

    open spec fn decodes(data: Seq<u8>, r: Result<Timestamp, ()>) -> bool {
        r == if timestamp_well_formed(data) {
            Ok::<Timestamp, ()>(timestamp_of(data))
        } else {
            Err(())
        }
    }

    open spec fn decodes_lossy(data: Seq<u8>, r: Result<Timestamp, ()>) -> bool {
        Self::decodes(data, r)
    }

    fn serialize(&self, buffer: &mut Vec<u8>) -> (n: usize) {
        self.serialize_with(buffer, &WithMilliseconds(true))
    }

    #[verifier::rlimit(60)]
    fn serialize_with(&self, buffer: &mut Vec<u8>, settings: &WithMilliseconds) -> (n: usize) {
        let before = buffer.len();
        let ghost start = buffer@;
        push_padded(buffer, self.year as u64, 4, 48u8);
        let ghost p = padded_digits(self.year as nat, 4, 48u8);
        assert(buffer@ =~= start + p);
        push_padded(buffer, self.month as u64, 2, 48u8);
        proof { p = p + padded_digits(self.month as nat, 2, 48u8); }
        assert(buffer@ =~= start + p);
        push_padded(buffer, self.day as u64, 2, 48u8);
        proof { p = p + padded_digits(self.day as nat, 2, 48u8); }
        assert(buffer@ =~= start + p);
        buffer.push(45u8);
        proof { p = p + seq![45u8]; }
        assert(buffer@ =~= start + p);
        push_padded(buffer, self.hour as u64, 2, 48u8);
        proof { p = p + padded_digits(self.hour as nat, 2, 48u8); }
        assert(buffer@ =~= start + p);
        buffer.push(58u8);
        proof { p = p + seq![58u8]; }
        assert(buffer@ =~= start + p);
        push_padded(buffer, self.minute as u64, 2, 48u8);
        proof { p = p + padded_digits(self.minute as nat, 2, 48u8); }
        assert(buffer@ =~= start + p);
        buffer.push(58u8);
        proof { p = p + seq![58u8]; }
        assert(buffer@ =~= start + p);
        push_padded(buffer, self.second as u64, 2, 48u8);
        proof { p = p + padded_digits(self.second as nat, 2, 48u8); }
        assert(buffer@ =~= start + p);
        if settings.0 {
            buffer.push(46u8);
            proof { p = p + seq![46u8]; }
            assert(buffer@ =~= start + p);
            push_padded(buffer, (self.nanosecond / 1_000_000) as u64, 3, 48u8);
            proof { p = p + padded_digits((self.nanosecond / 1_000_000) as nat, 3, 48u8); }
            assert(buffer@ =~= start + p);
        }
        assert(p == timestamp_text(*self, settings.0));
        buffer.len() - before
    }

    fn deserialize(data: &'a [u8]) -> (r: Result<Timestamp, ()>) {
        let len = data.len();
        if len != 17 && len != 21 {
            return Err(());
        }
        if data[8] != 45u8 || data[11] != 58u8 || data[14] != 58u8 || (len == 21 && data[17]
            != 46u8) {
            return Err(());
        }
        let ymd_ok = digits_between(data, 0, 4).is_some() && digits_between(data, 4, 8).is_some();
        proof {
            let s = data@;
            assert(s.subrange(0, 8).subrange(0, 4) == s.subrange(0, 4));
            assert(s.subrange(0, 8).subrange(4, 8) == s.subrange(4, 8));
            assert(digits_in(s, 0, 8) <==> digits_in(s, 0, 4) && digits_in(s, 4, 8)) by {
                let a = s.subrange(0, 8);
                if digits_in(s, 0, 4) && digits_in(s, 4, 8) {
                    assert forall|i: int| 0 <= i < 8 implies is_digit(#[trigger] a[i]) by {
                        if i < 4 {
                            assert(a[i] == s.subrange(0, 4)[i]);
                        } else {
                            assert(a[i] == s.subrange(4, 8)[i - 4]);
                        }
                    }
                }
                if digits_in(s, 0, 8) {
                    assert forall|i: int| 0 <= i < 4 implies is_digit(
                        #[trigger] s.subrange(0, 4)[i],
                    ) by {
                        assert(s.subrange(0, 4)[i] == a[i]);
                    }
                    assert forall|i: int| 0 <= i < 4 implies is_digit(
                        #[trigger] s.subrange(4, 8)[i],
                    ) by {
                        assert(s.subrange(4, 8)[i] == a[i + 4]);
                    }
                }
            }
        }
        if !ymd_ok {
            return Err(());
        }
        let year = digits_between(data, 0, 4);
        let month = digits_between(data, 4, 6);
        let day = digits_between(data, 6, 8);
        let hour = digits_between(data, 9, 11);
        let minute = digits_between(data, 12, 14);
        let second = digits_between(data, 15, 17);
        let millis = if len == 21 {
            digits_between(data, 18, 21)
        } else {
            Some(0u32)
        };
        proof {
            let s = data@;
            assert(s.subrange(4, 8).subrange(0, 2) == s.subrange(4, 6));
            assert(s.subrange(4, 8).subrange(2, 4) == s.subrange(6, 8));
            assert forall|i: int| 0 <= i < 2 implies is_digit(#[trigger] s.subrange(4, 6)[i]) by {
                assert(s.subrange(4, 6)[i] == s.subrange(4, 8)[i]);
            }
            assert forall|i: int| 0 <= i < 2 implies is_digit(#[trigger] s.subrange(6, 8)[i]) by {
                assert(s.subrange(6, 8)[i] == s.subrange(4, 8)[i + 2]);
            }
        }
        match (year, month, day, hour, minute, second, millis) {
            (Some(year), Some(month), Some(day), Some(hour), Some(minute), Some(second), Some(ms)) => {
                if month < 1 || month > 12 || day < 1 || day > 31 || hour > 23 || minute > 59
                    || second > 60 {
                    return Err(());
                }
                proof {
                    if len == 21 {
                        lemma_digits_below(data@.subrange(18, 21));
                    }
                }
                let t = Timestamp {
                    year,
                    month,
                    day,
                    hour,
                    minute,
                    second,
                    nanosecond: ms * 1_000_000,
                };
                Ok(t)
            },
            _ => Err(()),
        }
    }

    fn deserialize_lossy(data: &'a [u8]) -> (r: Result<Timestamp, ()>) {
        Self::deserialize(data)
    }

    proof fn lemma_decodes_functional(
        data: Seq<u8>,
        r1: Result<Timestamp, ()>,
        r2: Result<Timestamp, ()>,
    ) {
    }

    proof fn lemma_lossy_agrees(data: Seq<u8>, v: Timestamp, r: Result<Timestamp, ()>) {
    }
}

} // verus!

verus! {

/// Writing an unsigned number and reading it back gives the number.
pub proof fn lemma_unsigned_round_trip(v: nat, max: nat)
    requires
        v <= max,
    ensures
        unsigned_decoding(decimal_digits(v), max) == Ok::<nat, IntError>(v),
{
    lemma_decimal_digits_shape(v);
}

/// Writing a signed number and reading it back gives the number.
pub proof fn lemma_signed_round_trip(v: int, min: int, max: int)
    requires
        min <= v <= max,
    ensures
        signed_decoding(signed_digits(v), min, max) == Ok::<int, IntError>(v),
{
    if v < 0 {
        let d = decimal_digits((-v) as nat);
        lemma_decimal_digits_shape((-v) as nat);
        assert(signed_digits(v).drop_first() == d);
    } else {
        lemma_decimal_digits_shape(v as nat);
    }
}

/// Every `u32` reads back from its bytes.
pub proof fn lemma_round_trip_u32(v: u32)
    ensures
        <u32 as FixFieldValue<'static>>::decodes(
            <u32 as FixFieldValue<'static>>::encoding(&v),
            Ok(v),
        ),
{
    lemma_unsigned_round_trip(v as nat, u32::MAX as nat);
}

/// Every `u64` reads back from its bytes.
pub proof fn lemma_round_trip_u64(v: u64)
    ensures
        <u64 as FixFieldValue<'static>>::decodes(
            <u64 as FixFieldValue<'static>>::encoding(&v),
            Ok(v),
        ),
{
    lemma_unsigned_round_trip(v as nat, u64::MAX as nat);
}

/// Every `usize` reads back from its bytes.
pub proof fn lemma_round_trip_usize(v: usize)
    ensures
        <usize as FixFieldValue<'static>>::decodes(
            <usize as FixFieldValue<'static>>::encoding(&v),
            Ok(v),
        ),
{
    lemma_unsigned_round_trip(v as nat, usize::MAX as nat);
}

/// Every `i32` reads back from its bytes.
pub proof fn lemma_round_trip_i32(v: i32)
    ensures
        <i32 as FixFieldValue<'static>>::decodes(
            <i32 as FixFieldValue<'static>>::encoding(&v),
            Ok(v),
        ),
{
    lemma_signed_round_trip(v as int, i32::MIN as int, i32::MAX as int);
}

/// Every `i64` reads back from its bytes.
pub proof fn lemma_round_trip_i64(v: i64)
    ensures
        <i64 as FixFieldValue<'static>>::decodes(
            <i64 as FixFieldValue<'static>>::encoding(&v),
            Ok(v),
        ),
{
    lemma_signed_round_trip(v as int, i64::MIN as int, i64::MAX as int);
}

/// Every tag reads back from its bytes.
pub proof fn lemma_round_trip_tag(v: TagU16)
    requires
        v.wf(),
    ensures
        <TagU16 as FixFieldValue<'static>>::decodes(
            <TagU16 as FixFieldValue<'static>>::encoding(&v),
            Ok(v),
        ),
{
    lemma_unsigned_round_trip(v.spec_get() as nat, u16::MAX as nat);
}

/// Both booleans read back from their bytes.
pub proof fn lemma_round_trip_bool(v: bool)
    ensures
        <bool as FixFieldValue<'static>>::decodes(
            <bool as FixFieldValue<'static>>::encoding(&v),
            Ok(v),
        ),
{
}

/// Every single byte reads back from itself.
pub proof fn lemma_round_trip_u8(v: u8)
    ensures
        <u8 as FixFieldValue<'static>>::decodes(<u8 as FixFieldValue<'static>>::encoding(&v), Ok(v)),
{
}

/// Byte strings read back as the same bytes.
pub proof fn lemma_round_trip_bytes<'a>(v: &'a [u8])
    ensures
        <&'a [u8] as FixFieldValue<'a>>::decodes(
            <&'a [u8] as FixFieldValue<'a>>::encoding(&v),
            Ok(v),
        ),
{
}

/// Fixed-width codes read back as the same bytes.
pub proof fn lemma_round_trip_code<'a, const N: usize>(v: &'a [u8; N])
    ensures
        <&'a [u8; N] as FixFieldValue<'a>>::decodes(
            <&'a [u8; N] as FixFieldValue<'a>>::encoding(&v),
            Ok(v),
        ),
{
}

} // verus!

verus! {

/// `Self` can be read wherever a `T` is expected.
pub trait SuperDataType<'a, T>: FixFieldValue<'a> where T: FixFieldValue<'a> {

}

impl<'a, T> SuperDataType<'a, T> for T where T: FixFieldValue<'a> {

}

impl<'a> SuperDataType<'a, &'a str> for &'a [u8] {

}

impl<'a> SuperDataType<'a, i64> for &'a [u8] {

}

impl<'a> SuperDataType<'a, u32> for u64 {

}

impl<'a> SuperDataType<'a, i32> for i64 {

}

} // verus!
