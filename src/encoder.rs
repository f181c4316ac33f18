//! Building outgoing frames: header with a reserved body length, fields,
//! then the body length patched in and the checksum appended.

use crate::arith::{lemma_below_modulus, usize_modulus};
use crate::checksum::{checksum_of, digit_byte, three_digits, CheckSum};
use crate::datatypes::{FixFieldValue, TagU16};
use crate::digits::{all_digits, decimal_digits, digits_value, is_digit, lemma_decimal_digits_shape};
use crate::field_access::{fields_bytes, lemma_fields_round_trip, parse_fields, writable_fields, FieldModel};
use crate::raw_decoder::{
    decode_spec, header_scan, lemma_scan_settled, scan_step, Config, DecodeError, FrameLayout,
    HeaderScan,
};
use vstd::arithmetic::div_mod::{lemma_div_denominator, lemma_fundamental_div_mod};
use std::ops::Range;
use vstd::prelude::*;

verus! {

/// A field definition: the tag that values of the field are written under.
#[derive(Debug, Clone, Copy)]
pub struct FieldDef {
    pub tag: TagU16,
}

impl FieldDef {
    pub fn tag(&self) -> (r: TagU16)
        ensures
            r == self.tag,
    {
        self.tag
    }
}

/// `<tag>=<value><sep>`.
pub open spec fn field_bytes(tag: nat, value: Seq<u8>, sep: u8) -> Seq<u8> {
    decimal_digits(tag) + seq![61u8] + value + seq![sep]
}

/// `n` as six decimal digits (modulo one million), most significant first.
pub open spec fn six_digits(n: int) -> Seq<u8> {
    seq![
        digit_byte(n / 100000 % 10),
        digit_byte(n / 10000 % 10),
        digit_byte(n / 1000 % 10),
        digit_byte(n / 100 % 10),
        digit_byte(n / 10 % 10),
        digit_byte(n % 10),
    ]
}

/// The bytes that [`Encoder::start_message`] writes before the body.
pub open spec fn message_head(begin_string: Seq<u8>, sep: u8) -> Seq<u8> {
    field_bytes(8, begin_string, sep) + field_bytes(9, seq![48u8, 48u8, 48u8, 48u8, 48u8, 48u8], sep)
}

/// `buf` with the six digits before `body_start` (and its separator) replaced
/// by the length of what follows `body_start`.
pub open spec fn patch_body_length(buf: Seq<u8>, body_start: int) -> Seq<u8> {
    buf.take(body_start - 7) + six_digits(buf.len() - body_start) + buf.skip(body_start - 1)
}

/// `buf` followed by its `CheckSum <10>` field.
pub open spec fn with_trailer(buf: Seq<u8>, sep: u8) -> Seq<u8> {
    buf + field_bytes(10, three_digits(checksum_of(buf)), sep)
}

/// The finished message for the bytes written so far.
pub open spec fn finished(buf: Seq<u8>, body_start: int, sep: u8) -> Seq<u8> {
    with_trailer(patch_body_length(buf, body_start), sep)
}

/// The complete frame for a `BeginString` and a body (which starts with the
/// `MsgType <35>` field).
pub open spec fn encoded_frame(begin_string: Seq<u8>, body: Seq<u8>, sep: u8) -> Seq<u8> {
    with_trailer(
        field_bytes(8, begin_string, sep) + field_bytes(9, six_digits(body.len() as int), sep)
            + body,
        sep,
    )
}

/// A FIX encoder that owns its output buffer.
#[derive(Debug, Clone)]
pub struct Encoder {
    buffer: Vec<u8>,
    config: Config,
}

impl Encoder {
    pub closed spec fn spec_buffer(&self) -> Seq<u8> {
        self.buffer@
    }

    pub closed spec fn spec_config(&self) -> Config {
        self.config
    }

    /// An encoder writing into `buffer`, with the default configuration.
    pub fn from_buffer(buffer: Vec<u8>) -> (r: Self)
        ensures
            r.spec_buffer() == buffer@,
            r.spec_config().separator == 1,
            r.spec_config().verify_checksum,
    {
        Encoder { buffer, config: Config::default() }
    }

    pub fn buffer(&self) -> (r: &Vec<u8>)
        ensures
            r@ == self.spec_buffer(),
    {
        &self.buffer
    }

    pub fn buffer_mut(&self) -> (r: &Vec<u8>)
        ensures
            r@ == self.spec_buffer(),
    {
        &self.buffer
    }

    pub fn config(&self) -> (r: &Config)
        ensures
            *r == self.spec_config(),
    {
        &self.config
    }

    pub fn config_mut(&mut self) -> (r: &mut Config)
        ensures
            *r == old(self).spec_config(),
            final(self).spec_config() == *final(r),
            final(self).spec_buffer() == old(self).spec_buffer(),
    {
        &mut self.config
    }

    /// Clears the buffer and writes `8=<begin_string>|9=000000|35=<msg_type>|`,
    /// remembering where the body starts.
    pub fn start_message<'a>(&'a mut self, begin_string: &[u8], msg_type: &[u8]) -> (r:
        EncoderHandle<'a>)
        ensures
            r.written() == message_head(begin_string@, old(self).spec_config().separator)
                + field_bytes(35, msg_type@, old(self).spec_config().separator),
            r.body_start() == message_head(begin_string@, old(self).spec_config().separator).len(),
            r.separator() == old(self).spec_config().separator,
            r.config() == old(self).spec_config(),
            r.wf(),
            *final(self) == *final(r.raw_encoder),
    {
        self.buffer.clear();
        let mut state = EncoderHandle { raw_encoder: self, body_start_i: 0 };
        state.set_any(TagU16::from_nonzero(8), begin_string);
        let zeros: [u8; 6] = [48u8; 6];
        assert(zeros@ == seq![48u8, 48u8, 48u8, 48u8, 48u8, 48u8]);
        state.set_any(TagU16::from_nonzero(9), zeros.as_slice());
        state.body_start_i = state.raw_encoder.buffer.len();
        proof {
            lemma_decimal_digits_shape(8);
            lemma_decimal_digits_shape(9);
            assert(decimal_digits(8) == seq![56u8]);
            assert(decimal_digits(9) == seq![57u8]);
        }
        state.set_any(TagU16::from_nonzero(35), msg_type);
        state
    }
}

/// The message being written by an [`Encoder`].
#[derive(Debug)]
pub struct EncoderHandle<'a> {
    /// The encoder being written to.
    pub raw_encoder: &'a mut Encoder,
    /// Where the body starts in the encoder's buffer.
    pub body_start_i: usize,
}

impl<'a> EncoderHandle<'a> {
    /// The bytes written so far.
    pub closed spec fn written(&self) -> Seq<u8> {
        self.raw_encoder.buffer@
    }

    /// Where the body starts: right after the `BodyLength` separator.
    pub closed spec fn body_start(&self) -> int {
        self.body_start_i as int
    }

    pub closed spec fn separator(&self) -> u8 {
        self.raw_encoder.config.separator
    }

    /// The configuration of the encoder being written to.
    pub closed spec fn config(&self) -> Config {
        self.raw_encoder.config
    }

    /// The reserved body-length digits lie before the body start.
    pub open spec fn wf(&self) -> bool {
        8 <= self.body_start() <= self.written().len()
    }

    /// Adds `value` under the tag of `field`.
    pub fn set<'b, V: FixFieldValue<'b>>(&mut self, field: &FieldDef, value: V)
        requires
            value.is_valid(),
        ensures
            final(self).written() == old(self).written() + field_bytes(
                field.tag.spec_get() as nat,
                value.encoding(),
                old(self).separator(),
            ),
            final(self).body_start() == old(self).body_start(),
            final(self).separator() == old(self).separator(),
            final(self).config() == old(self).config(),
            *final(final(self).raw_encoder) == *final(old(self).raw_encoder),
    {
        self.set_any(field.tag(), value)
    }

    /// Adds `<tag>=<value><sep>`.
    pub fn set_any<'b, V: FixFieldValue<'b>>(&mut self, tag: TagU16, value: V)
        requires
            value.is_valid(),
        ensures
            final(self).written() == old(self).written() + field_bytes(
                tag.spec_get() as nat,
                value.encoding(),
                old(self).separator(),
            ),
            final(self).body_start() == old(self).body_start(),
            final(self).separator() == old(self).separator(),
            final(self).config() == old(self).config(),
            *final(final(self).raw_encoder) == *final(old(self).raw_encoder),
    {
        let ghost start = self.raw_encoder.buffer@;
        tag.serialize(&mut self.raw_encoder.buffer);
        self.raw_encoder.buffer.push(61u8);
        value.serialize(&mut self.raw_encoder.buffer);
        let sep = self.raw_encoder.config.separator;
        self.raw_encoder.buffer.push(sep);
        assert(self.raw_encoder.buffer@ =~= start + field_bytes(
            tag.spec_get() as nat,
            value.encoding(),
            sep,
        ));
    }

    /// Appends pre-formatted bytes as they are.
    pub fn raw(&mut self, raw: &[u8])
        ensures
            final(self).written() == old(self).written() + raw@,
            final(self).body_start() == old(self).body_start(),
            final(self).separator() == old(self).separator(),
            final(self).config() == old(self).config(),
            *final(final(self).raw_encoder) == *final(old(self).raw_encoder),
    {
        self.raw_encoder.buffer.extend_from_slice(raw);
    }

    /// Writes the body length and the checksum, and returns the message.
    pub fn wrap(self) -> (r: &'a [u8])
        requires
            self.wf(),
        ensures
            r@ == finished(self.written(), self.body_start(), self.separator()),
            final(self.raw_encoder).spec_buffer() == r@,
            final(self.raw_encoder).spec_config() == self.config(),
    {
        let mut handle = self;
        handle.write_body_length();
        handle.write_checksum();
        let e: &'a mut Encoder = handle.raw_encoder;
        let e: &'a Encoder = e;
        e.buffer.as_slice()
    }

    fn body_length_writable_range(&self) -> (r: Range<usize>)
        requires
            self.wf(),
        ensures
            r.start == self.body_start() - 7,
            r.end == self.body_start() - 1,
    {
        Range { start: self.body_start_i - 7, end: self.body_start_i - 1 }
    }

    fn body_length(&self) -> (r: usize)
        requires
            self.wf(),
        ensures
            r == self.written().len() - self.body_start(),
    {
        self.raw_encoder.buffer.len() - self.body_start_i
    }

    fn write_body_length(&mut self)
        requires
            old(self).wf(),
        ensures
            final(self).written() == patch_body_length(old(self).written(), old(self).body_start()),
            final(self).body_start() == old(self).body_start(),
            final(self).separator() == old(self).separator(),
            final(self).config() == old(self).config(),
            *final(final(self).raw_encoder) == *final(old(self).raw_encoder),
    {
        let n = self.body_length();
        let range = self.body_length_writable_range();
        let i = range.start;
        let ghost buf = self.raw_encoder.buffer@;
        self.raw_encoder.buffer.set(i, to_digit((n / 100000 % 10) as u8));
        self.raw_encoder.buffer.set(i + 1, to_digit((n / 10000 % 10) as u8));
        self.raw_encoder.buffer.set(i + 2, to_digit((n / 1000 % 10) as u8));
        self.raw_encoder.buffer.set(i + 3, to_digit((n / 100 % 10) as u8));
        self.raw_encoder.buffer.set(i + 4, to_digit((n / 10 % 10) as u8));
        self.raw_encoder.buffer.set(i + 5, to_digit((n % 10) as u8));
        assert(self.raw_encoder.buffer@ =~= patch_body_length(buf, self.body_start_i as int));
    }

    fn write_checksum(&mut self)
        ensures
            final(self).written() == with_trailer(old(self).written(), old(self).separator()),
            final(self).body_start() == old(self).body_start(),
            final(self).separator() == old(self).separator(),
            final(self).config() == old(self).config(),
            *final(final(self).raw_encoder) == *final(old(self).raw_encoder),
    {
        let checksum = CheckSum::compute(self.raw_encoder.buffer.as_slice());
        self.set_any(TagU16::from_nonzero(10), checksum);
    }
}

/// The ASCII digit for `d`.
fn to_digit(d: u8) -> (r: u8)
    requires
        d < 10,
    ensures
        r == digit_byte(d as int),
{
    d + 48u8
}

} // verus!

verus! {

/// One more byte: the scan takes one step, unless its header is closed.
proof fn lemma_scan_push(s: Seq<u8>, b: u8, sep: u8)
    ensures
        header_scan(s.push(b), sep) == if header_scan(s, sep).fields >= 2 {
            header_scan(s, sep)
        } else {
            scan_step(header_scan(s, sep), s.len() as int, b, sep)
        },
{
    assert(s.push(b).drop_last() == s);
}

/// The running number of the header scan after the bytes `c`, from `n`.
pub open spec fn scan_number(n: int, c: Seq<u8>) -> int
    decreases c.len(),
{
    if c.len() == 0 {
        n
    } else {
        (scan_number(n, c.drop_last()) * 10 + (c.last() as int - 48) % 256) % usize_modulus()
    }
}

/// Bytes that are neither `=` nor the separator only move the number.
proof fn lemma_scan_plain(s: Seq<u8>, c: Seq<u8>, sep: u8)
    requires
        header_scan(s, sep).fields < 2,
        forall|j: int| 0 <= j < c.len() ==> c[j] != 61u8 && c[j] != sep,
    ensures
        header_scan(s + c, sep) == (HeaderScan {
            body_length: scan_number(header_scan(s, sep).body_length, c),
            ..header_scan(s, sep)
        }),
    decreases c.len(),
{
    if c.len() > 0 {
        let p = c.drop_last();
        lemma_scan_plain(s, p, sep);
        assert(s + c == (s + p).push(c.last()));
        lemma_scan_push(s + p, c.last(), sep);
    } else {
        assert(s + c == s);
    }
}

/// From zero, the number of the scan over digits is their value.
proof fn lemma_scan_number_digits(c: Seq<u8>)
    requires
        all_digits(c),
        c.len() <= 6,
    ensures
        scan_number(0, c) == digits_value(c),
        digits_value(c) < 1_000_000,
    decreases c.len(),
{
    if c.len() > 0 {
        let p = c.drop_last();
        assert forall|i: int| 0 <= i < p.len() implies is_digit(#[trigger] p[i]) by {
            assert(p[i] == c[i]);
        }
        assert(is_digit(c[c.len() - 1]));
        lemma_scan_number_digits(p);
        assert(digits_value(p) < 100_000) by {
            lemma_digits_bound(p);
        }
        lemma_below_modulus(digits_value(c) as int, usize_modulus());
    }
}

/// `k` digits spell less than `10^k`.
proof fn lemma_digits_bound(c: Seq<u8>)
    requires
        all_digits(c),
        c.len() <= 6,
    ensures
        c.len() <= 5 ==> digits_value(c) < 100_000,
        c.len() <= 4 ==> digits_value(c) < 10_000,
        c.len() <= 3 ==> digits_value(c) < 1_000,
        c.len() <= 2 ==> digits_value(c) < 100,
        c.len() <= 1 ==> digits_value(c) < 10,
        digits_value(c) < 1_000_000,
    decreases c.len(),
{
    if c.len() > 0 {
        let p = c.drop_last();
        assert forall|i: int| 0 <= i < p.len() implies is_digit(#[trigger] p[i]) by {
            assert(p[i] == c[i]);
        }
        assert(is_digit(c[c.len() - 1]));
        lemma_digits_bound(p);
    }
}

/// The six reserved digits spell the body length they were written for.
proof fn lemma_six_digits(n: int)
    requires
        0 <= n < 1_000_000,
    ensures
        all_digits(six_digits(n)),
        digits_value(six_digits(n)) == n,
{
    let s = six_digits(n);
    let x1 = n / 10000;
    let x2 = n / 1000;
    let x3 = n / 100;
    let x4 = n / 10;
    lemma_div_denominator(n, 10000, 10);
    lemma_div_denominator(n, 1000, 10);
    lemma_div_denominator(n, 100, 10);
    lemma_div_denominator(n, 10, 10);
    lemma_fundamental_div_mod(x1, 10);
    lemma_fundamental_div_mod(x2, 10);
    lemma_fundamental_div_mod(x3, 10);
    lemma_fundamental_div_mod(x4, 10);
    lemma_fundamental_div_mod(n, 10);
    assert(n / 100000 < 10);
    assert(s.take(5).drop_last() =~= s.take(4));
    assert(s.take(4).drop_last() =~= s.take(3));
    assert(s.take(3).drop_last() =~= s.take(2));
    assert(s.take(2).drop_last() =~= s.take(1));
    assert(s.take(1).drop_last() =~= s.take(0));
    assert(s.drop_last() =~= s.take(5));
    assert(digits_value(s.take(0)) == 0);
    assert(s.take(1).last() == s[0]);
    assert(s[0] as int == 48 + n / 100000 % 10);
    assert(digits_value(s.take(1)) == n / 100000 % 10);
    assert(s.take(2).last() == s[1]);
    assert(s.take(3).last() == s[2]);
    assert(s.take(4).last() == s[3]);
    assert(s.take(5).last() == s[4]);
    assert(s.last() == s[5]);
    assert(digits_value(s.take(2)) == x1);
    assert(digits_value(s.take(3)) == x2);
    assert(digits_value(s.take(4)) == x3);
    assert(digits_value(s.take(5)) == x4);
}

/// What the encoder finishes, for a message started with `begin_string` and
/// continued with `body`, is the frame of the two.
pub proof fn lemma_finished_is_frame(begin_string: Seq<u8>, body: Seq<u8>, sep: u8)
    ensures
        finished(
            message_head(begin_string, sep) + body,
            message_head(begin_string, sep).len() as int,
            sep,
        ) == encoded_frame(begin_string, body, sep),
{
    let head = message_head(begin_string, sep);
    let buf = head + body;
    let l = begin_string.len() as int;
    assert(decimal_digits(8) == seq![56u8]);
    assert(decimal_digits(9) == seq![57u8]);
    assert(head.len() == l + 12);
    assert(patch_body_length(buf, l + 12) =~= field_bytes(8, begin_string, sep) + field_bytes(
        9,
        six_digits(body.len() as int),
        sep,
    ) + body);
}

/// A frame written for a `BeginString` without `=` or separator and a body
/// under a million bytes decodes to exactly that begin string and body.
pub proof fn lemma_frame_decodes(begin_string: Seq<u8>, body: Seq<u8>, config: Config)
    requires
        config.separator != 61u8,
        !is_digit(config.separator),
        !begin_string.contains(61u8),
        !begin_string.contains(config.separator),
        body.len() < 1_000_000,
        encoded_frame(begin_string, body, config.separator).len() <= usize::MAX,
    ensures
        ({
            let frame = encoded_frame(begin_string, body, config.separator);
            let l = begin_string.len() as int;
            &&& decode_spec(frame, config) == Ok::<FrameLayout, DecodeError>(
                FrameLayout {
                    begin_string: Range { start: 2, end: (l + 2) as usize },
                    payload: Range {
                        start: (l + 12) as usize,
                        end: (l + 12 + body.len()) as usize,
                    },
                },
            )
            &&& frame.subrange(2, l + 2) == begin_string
            &&& frame.subrange(l + 12, l + 12 + body.len()) == body
        }),
{
    let sep = config.separator;
    let l = begin_string.len() as int;
    let n = body.len() as int;
    let six = six_digits(n);
    lemma_six_digits(n);
    assert(decimal_digits(8) == seq![56u8]);
    assert(decimal_digits(9) == seq![57u8]);
    assert(decimal_digits(1) == seq![49u8]);
    assert(decimal_digits(10) == seq![49u8, 48u8]);
    let s0 = Seq::<u8>::empty();
    let s1 = s0.push(56u8);
    lemma_scan_push(s0, 56u8, sep);
    let s2 = s1.push(61u8);
    lemma_scan_push(s1, 61u8, sep);
    assert forall|j: int| 0 <= j < begin_string.len() implies begin_string[j] != 61u8
        && begin_string[j] != sep by {
        if begin_string[j] == 61u8 {
            assert(begin_string.contains(61u8));
        }
        if begin_string[j] == sep {
            assert(begin_string.contains(sep));
        }
    }
    lemma_scan_plain(s2, begin_string, sep);
    let s3 = s2 + begin_string;
    let s4 = s3.push(sep);
    lemma_scan_push(s3, sep, sep);
    let s5 = s4.push(57u8);
    lemma_scan_push(s4, 57u8, sep);
    let s6 = s5.push(61u8);
    lemma_scan_push(s5, 61u8, sep);
    assert forall|j: int| 0 <= j < six.len() implies six[j] != 61u8 && six[j] != sep by {
        assert(is_digit(six[j]));
    }
    lemma_scan_plain(s6, six, sep);
    lemma_scan_number_digits(six);
    let s7 = s6 + six;
    let s8 = s7.push(sep);
    lemma_scan_push(s7, sep, sep);
    let h = header_scan(s8, sep);
    assert(h.eq0 == 1 && h.sep0 == l + 2 && h.eq1 == l + 4 && h.sep1 == l + 11 && h.fields == 2
        && h.body_length == n);
    let pre = field_bytes(8, begin_string, sep) + field_bytes(9, six, sep) + body;
    let frame = encoded_frame(begin_string, body, sep);
    assert(frame == pre + field_bytes(10, three_digits(checksum_of(pre)), sep));
    assert(s8 =~= field_bytes(8, begin_string, sep) + field_bytes(9, six, sep));
    assert(frame.take(l + 12) =~= s8);
    lemma_scan_settled(frame, l + 12, sep);
    assert(frame.len() == l + 12 + n + 7);
    assert(frame.take(frame.len() - 7) =~= pre);
    assert(frame.subrange(frame.len() - 4, frame.len() - 1) =~= three_digits(checksum_of(pre)));
    assert(frame.subrange(2, l + 2) =~= begin_string);
    assert(frame.subrange(l + 12, l + 12 + n) =~= body);
}

/// Encoding a message and decoding it gives back its begin string and its
/// fields.
pub proof fn lemma_frame_round_trip(
    begin_string: Seq<u8>,
    fields: Seq<FieldModel>,
    config: Config,
)
    requires
        config.separator != 61u8,
        !is_digit(config.separator),
        !begin_string.contains(61u8),
        !begin_string.contains(config.separator),
        writable_fields(fields, config.separator),
        fields_bytes(fields, config.separator).len() < 1_000_000,
        encoded_frame(begin_string, fields_bytes(fields, config.separator), config.separator).len()
            <= usize::MAX,
    ensures
        ({
            let frame = encoded_frame(
                begin_string,
                fields_bytes(fields, config.separator),
                config.separator,
            );
            &&& decode_spec(frame, config) is Ok
            &&& frame.subrange(
                decode_spec(frame, config)->Ok_0.begin_string.start as int,
                decode_spec(frame, config)->Ok_0.begin_string.end as int,
            ) == begin_string
            &&& parse_fields(
                frame.subrange(
                    decode_spec(frame, config)->Ok_0.payload.start as int,
                    decode_spec(frame, config)->Ok_0.payload.end as int,
                ),
                config.separator,
            ) == Some(fields)
        }),
{
    let body = fields_bytes(fields, config.separator);
    lemma_frame_decodes(begin_string, body, config);
    lemma_fields_round_trip(fields, config.separator);
}

} // verus!
