//! Framing: locating the header fields of a FIX message, checking its body
//! length and checksum, and accumulating a byte stream into whole frames.

use crate::arith::{lemma_below_modulus, lemma_wrap_step, lemma_wrapped_sum, usize_modulus};
use crate::checksum::{byte_sum, checksum_of, three_digits, CheckSum};
use std::ops::Range;
use vstd::prelude::*;

verus! {

/// No frame is shorter than `8=?|9=?|35=?|10=???|`.
pub const MIN_FIX_MESSAGE_LEN_IN_BYTES: usize = 14;

/// The length of the trailing `10=DDD|` field.
pub const FIELD_CHECKSUM_LEN_IN_BYTES: usize = 7;

/// Why a byte slice is not a valid frame.
#[derive(Debug, Clone, Copy, PartialEq, Eq, Structural)]
pub enum DecodeError {
    /// The header structure is malformed.
    Invalid,
    /// Too short, or the declared body length disagrees with the data.
    Length,
    /// The transmitted checksum disagrees with the computed one.
    CheckSum,
}

/// Options shared by decoders and encoders.
#[derive(Debug, Clone, Copy, PartialEq, Eq, Structural)]
pub struct Config {
    /// The byte that terminates each field.
    pub separator: u8,
    /// Whether decoders reject frames whose checksum is wrong.
    pub verify_checksum: bool,
}

impl Config {
    pub fn separator(&self) -> (r: u8)
        ensures
            r == self.separator,
    {
        self.separator
    }

    pub fn verify_checksum(&self) -> (r: bool)
        ensures
            r == self.verify_checksum,
    {
        self.verify_checksum
    }

    pub fn set_separator(&mut self, separator: u8)
        ensures
            *final(self) == (Config { separator, ..*old(self) }),
    {
        self.separator = separator;
    }

    pub fn set_verify_checksum(&mut self, verify: bool)
        ensures
            *final(self) == (Config { verify_checksum: verify, ..*old(self) }),
    {
        self.verify_checksum = verify;
    }
}

impl Default for Config {
    /// `SOH` as separator, checksums verified.
    fn default() -> (r: Config)
        ensures
            r.separator == 1,
            r.verify_checksum,
    {
        Config { separator: 1, verify_checksum: true }
    }
}

/// The state of the left-to-right header scan: positions of the `=` and of
/// the separator of `BeginString` (`eq0`, `sep0`) and of `BodyLength`
/// (`eq1`, `sep1`), how many separators were seen, and the running value of
/// the body length.
pub struct HeaderScan {
    pub eq0: int,
    pub eq1: int,
    pub sep0: int,
    pub sep1: int,
    pub fields: int,
    pub body_length: int,
}

pub open spec fn empty_scan() -> HeaderScan {
    HeaderScan { eq0: 0, eq1: 0, sep0: 0, sep1: 0, fields: 0, body_length: 0 }
}

/// The scan after reading byte `b` at position `i`: `=` records its position
/// and restarts the number, a separator closes the field, anything else is
/// folded into the number as a (wrapping) decimal digit.
pub open spec fn scan_step(st: HeaderScan, i: int, b: u8, sep: u8) -> HeaderScan {
    if b == 61u8 {
        if st.fields == 0 {
            HeaderScan { eq0: i, body_length: 0, ..st }
        } else {
            HeaderScan { eq1: i, body_length: 0, ..st }
        }
    } else if b == sep {
        if st.fields == 0 {
            HeaderScan { sep0: i, fields: 1, ..st }
        } else {
            HeaderScan { sep1: i, fields: 2, ..st }
        }
    } else {
        HeaderScan {
            body_length: (st.body_length * 10 + (b as int - 48) % 256) % usize_modulus(),
            ..st
        }
    }
}

/// The scan over all of `s`; it stops changing once two fields are closed.
pub open spec fn header_scan(s: Seq<u8>, sep: u8) -> HeaderScan
    decreases s.len(),
{
    if s.len() == 0 {
        empty_scan()
    } else {
        let prev = header_scan(s.drop_last(), sep);
        if prev.fields >= 2 {
            prev
        } else {
            scan_step(prev, s.len() - 1, s.last(), sep)
        }
    }
}

/// All four header positions were found (position 0 counts as not found).
pub open spec fn header_accepts(eq0: int, eq1: int, sep0: int, sep1: int) -> bool {
    eq0 != 0 && eq1 != 0 && sep0 != 0 && sep1 != 0
}

/// `s` starts with `8=`, and its second field (after the separator at
/// `sep0`) starts with `9=`.
pub open spec fn frame_tags(s: Seq<u8>, sep0: int) -> bool {
    &&& s.len() >= 2 && s[0] == 56u8 && s[1] == 61u8
    &&& 0 <= sep0 && sep0 + 2 < s.len() && s[sep0 + 1] == 57u8 && s[sep0 + 2] == 61u8
}

/// The header of `s`, if all four positions were found (position 0 counts as
/// not found).
pub open spec fn header_spec(s: Seq<u8>, sep: u8) -> Result<HeaderScan, DecodeError> {
    let h = header_scan(s, sep);
    if header_accepts(h.eq0, h.eq1, h.sep0, h.sep1) {
        Ok(h)
    } else {
        Err(DecodeError::Invalid)
    }
}

/// `data` ends with `10=DDD<sep>`, where `DDD` are the three digits of the
/// sum of every byte before the `10=` field.
pub open spec fn checksum_matches(data: Seq<u8>, sep: u8) -> bool {
    &&& data.len() >= 7
    &&& data[data.len() - 7] == 49u8 && data[data.len() - 6] == 48u8 && data[data.len() - 5] == 61u8
    &&& data[data.len() - 1] == sep
    &&& data.subrange(data.len() - 4, data.len() - 1) == three_digits(
        checksum_of(data.take(data.len() - 7)),
    )
}

/// The header of a frame: as [`header_spec`], and `Invalid` too unless the
/// fields are `8=` and `9=`.
pub open spec fn frame_header(s: Seq<u8>, sep: u8) -> Result<HeaderScan, DecodeError> {
    match header_spec(s, sep) {
        Err(e) => Err(e),
        Ok(h) => if frame_tags(s, h.sep0) {
            Ok(h)
        } else {
            Err(DecodeError::Invalid)
        },
    }
}

/// Where the parts of a frame lie in its bytes.
pub struct FrameLayout {
    pub begin_string: Range<usize>,
    pub payload: Range<usize>,
}

/// What decoding `data` gives: the layout of the frame, or why it is refused.
pub open spec fn decode_spec(data: Seq<u8>, config: Config) -> Result<FrameLayout, DecodeError> {
    if data.len() < MIN_FIX_MESSAGE_LEN_IN_BYTES {
        Err(DecodeError::Length)
    } else {
        match frame_header(data, config.separator) {
            Err(e) => Err(e),
            Ok(h) => {
                let start = h.sep1 + 1;
                if start + h.body_length + FIELD_CHECKSUM_LEN_IN_BYTES != data.len() {
                    Err(DecodeError::Length)
                } else if config.verify_checksum && !checksum_matches(data, config.separator) {
                    Err(DecodeError::CheckSum)
                } else {
                    Ok(
                        FrameLayout {
                            begin_string: Range { start: (h.eq0 + 1) as usize, end: h.sep0 as usize },
                            payload: Range {
                                start: start as usize,
                                end: (start + h.body_length) as usize,
                            },
                        },
                    )
                }
            },
        }
    }
}

/// Once the scan of a prefix has closed two fields, the rest of the input
/// does not matter.
pub proof fn lemma_scan_settled(s: Seq<u8>, i: int, sep: u8)
    requires
        0 <= i <= s.len(),
        header_scan(s.take(i), sep).fields >= 2,
    ensures
        header_scan(s, sep) == header_scan(s.take(i), sep),
    decreases s.len() - i,
{
    if i < s.len() {
        assert(s.take(i + 1).drop_last() == s.take(i));
        lemma_scan_settled(s, i + 1, sep);
    } else {
        assert(s.take(i) == s);
    }
}

/// Positions of the header fields of a frame.
pub struct HeaderInfo {
    pub i_equal_sign0: usize,
    pub i_equal_sign1: usize,
    pub i_sep0: usize,
    pub i_sep1: usize,
    pub body_length: usize,
}

impl HeaderInfo {
    pub open spec fn agrees(&self, h: HeaderScan) -> bool {
        &&& self.i_equal_sign0 as int == h.eq0
        &&& self.i_equal_sign1 as int == h.eq1
        &&& self.i_sep0 as int == h.sep0
        &&& self.i_sep1 as int == h.sep1
        &&& self.body_length as int == h.body_length
    }

    /// The header positions are ordered as the fields are.
    pub open spec fn ordered(&self, len: int) -> bool {
        &&& self.i_equal_sign0 < self.i_sep0
        &&& self.i_sep0 < self.i_equal_sign1
        &&& self.i_equal_sign1 < self.i_sep1
        &&& self.i_sep1 < len
    }

    fn empty() -> (r: Self)
        ensures
            r.agrees(empty_scan()),
    {
        HeaderInfo { i_equal_sign0: 0, i_equal_sign1: 0, i_sep0: 0, i_sep1: 0, body_length: 0 }
    }

    /// The body starts right after the separator of `BodyLength`.
    pub fn start_of_body(&self) -> (r: usize)
        requires
            self.i_sep1 < usize::MAX,
        ensures
            r == self.i_sep1 + 1,
    {
        self.i_sep1 + 1
    }

    pub fn begin_string_range(&self) -> (r: Range<usize>)
        requires
            self.i_equal_sign0 < usize::MAX,
        ensures
            r.start == self.i_equal_sign0 + 1,
            r.end == self.i_sep0,
    {
        Range { start: self.i_equal_sign0 + 1, end: self.i_sep0 }
    }

    pub fn body_range(&self) -> (r: Range<usize>)
        requires
            self.i_sep1 + 1 + self.body_length <= usize::MAX,
        ensures
            r.start == self.i_sep1 + 1,
            r.end == self.i_sep1 + 1 + self.body_length,
    {
        let start = self.start_of_body();
        Range { start, end: start + self.body_length }
    }

    /// Scans `data` up to the end of its second field (or its end), and
    /// returns the positions found and the number of fields closed.
    pub fn scan(data: &[u8], separator: u8) -> (r: (HeaderInfo, usize))
        ensures
            r.0.agrees(header_scan(data@, separator)),
            r.1 as int == header_scan(data@, separator).fields,
            r.1 <= 2,
            r.1 < 2 ==> r.0.i_sep1 == 0,
            r.1 == 2 ==> (r.0.i_equal_sign0 == 0 || r.0.i_equal_sign0 < r.0.i_sep0)
                && r.0.i_sep0 < r.0.i_sep1 && r.0.i_sep1 < data@.len() && (r.0.i_equal_sign1
                == 0 || (r.0.i_sep0 < r.0.i_equal_sign1 && r.0.i_equal_sign1 < r.0.i_sep1)),
    {
        let mut info = HeaderInfo::empty();
        let mut field_i: usize = 0;
        let mut i: usize = 0;
        while field_i < 2 && i < data.len()
            invariant
                i <= data@.len(),
                field_i <= 2,
                header_scan(data@.take(i as int), separator) == (HeaderScan {
                    eq0: info.i_equal_sign0 as int,
                    eq1: info.i_equal_sign1 as int,
                    sep0: info.i_sep0 as int,
                    sep1: info.i_sep1 as int,
                    fields: field_i as int,
                    body_length: info.body_length as int,
                }),
                info.i_equal_sign0 == 0 || info.i_equal_sign0 < i,
                field_i == 0 ==> info.i_sep0 == 0 && info.i_equal_sign1 == 0,
                field_i < 2 ==> info.i_sep1 == 0,
                field_i >= 1 ==> (info.i_equal_sign0 == 0 || info.i_equal_sign0 < info.i_sep0)
                    && info.i_sep0 < i && (info.i_equal_sign1 == 0 || (info.i_sep0
                    < info.i_equal_sign1 && info.i_equal_sign1 < i)),
                field_i == 2 ==> info.i_sep0 < info.i_sep1 && info.i_sep1 < i && (
                info.i_equal_sign1 == 0 || info.i_equal_sign1 < info.i_sep1),
            decreases data@.len() - i,
        {
            proof {
                assert(data@.take(i as int + 1).drop_last() == data@.take(i as int));
                assert(data@.take(i as int + 1).last() == data@[i as int]);
            }
            let byte = data[i];
            if byte == 61u8 {
                if field_i == 0 {
                    info.i_equal_sign0 = i;
                } else {
                    info.i_equal_sign1 = i;
                }
                info.body_length = 0;
            } else if byte == separator {
                if field_i == 0 {
                    info.i_sep0 = i;
                } else {
                    info.i_sep1 = i;
                }
                field_i += 1;
            } else {
                proof {
                    let m = usize_modulus();
                    let n = info.body_length as int;
                    let d = (byte as int - 48) % 256;
                    lemma_wrap_step(n, d, m);
                    lemma_below_modulus(d, m);
                    lemma_wrapped_sum((n * 10) % m, d, m);
                }
                info.body_length = info.body_length.wrapping_mul(10).wrapping_add(
                    byte.wrapping_sub(48u8) as usize,
                );
            }
            i += 1;
        }
        proof {
            if field_i >= 2 {
                lemma_scan_settled(data@, i as int, separator);
            } else {
                assert(data@.take(i as int) == data@);
            }
        }
        (info, field_i)
    }

    /// Locates the `BeginString` and `BodyLength` fields at the start of
    /// `data`; fails with `Invalid` unless all four positions are found.
    pub fn parse(data: &[u8], separator: u8) -> (r: Result<HeaderInfo, DecodeError>)
        ensures
            match r {
                Ok(info) => {
                    &&& header_spec(data@, separator) is Ok
                    &&& info.agrees(header_spec(data@, separator)->Ok_0)
                    &&& info.ordered(data@.len() as int)
                },
                Err(e) => e == DecodeError::Invalid && header_spec(data@, separator) is Err,
            },
    {
        let (info, _) = HeaderInfo::scan(data, separator);
        if header_accepted(&info) {
            Ok(info)
        } else {
            Err(DecodeError::Invalid)
        }
    }
}

/// Whether all four positions of `info` were found.
fn header_accepted(info: &HeaderInfo) -> (r: bool)
    ensures
        r == header_accepts(
            info.i_equal_sign0 as int,
            info.i_equal_sign1 as int,
            info.i_sep0 as int,
            info.i_sep1 as int,
        ),
{
    info.i_equal_sign0 != 0 && info.i_equal_sign1 != 0 && info.i_sep0 != 0 && info.i_sep1 != 0
}

/// Whether `data` starts with `8=` and its second field with `9=`.
fn frame_tags_ok(data: &[u8], sep0: usize) -> (r: bool)
    ensures
        r == frame_tags(data@, sep0 as int),
{
    data.len() >= 2 && data[0] == 56u8 && data[1] == 61u8 && sep0 < data.len() && data.len()
        - sep0 > 2 && data[sep0 + 1] == 57u8 && data[sep0 + 2] == 61u8
}

/// Whether the checksum digits of `data` are right.
fn checksum_is_valid(data: &[u8], sep: u8) -> (r: bool)
    requires
        data@.len() >= 7,
    ensures
        r == checksum_matches(data@, sep),
{
    let len = data.len();
    if data[len - 7] != 49u8 || data[len - 6] != 48u8 || data[len - 5] != 61u8 || data[len - 1]
        != sep {
        return false;
    }
    let (covered, _) = data.split_at(len - 7);
    let digits = CheckSum::compute(covered).digits();
    let r = data[len - 4] == digits[0] && data[len - 3] == digits[1] && data[len - 2] == digits[2];
    proof {
        let tail = data@.subrange(len - 4, len - 1);
        if r {
            assert(tail =~= digits@);
        } else {
            assert(tail[0] != digits@[0] || tail[1] != digits@[1] || tail[2] != digits@[2]);
        }
    }
    r
}

/// A validated FIX message: its bytes, and where its `BeginString` value and
/// its payload (everything between `BodyLength` and `CheckSum`) lie.
#[derive(Debug)]
pub struct RawFrame<'a> {
    pub data: &'a [u8],
    pub begin_string: Range<usize>,
    pub payload: Range<usize>,
}

impl<'a> RawFrame<'a> {
    /// Both ranges lie inside the data.
    pub open spec fn wf(&self) -> bool {
        &&& self.begin_string.start <= self.begin_string.end
        &&& self.begin_string.end <= self.data@.len()
        &&& self.payload.start <= self.payload.end
        &&& self.payload.end <= self.data@.len()
    }

    pub open spec fn layout(&self) -> FrameLayout {
        FrameLayout { begin_string: self.begin_string, payload: self.payload }
    }

    /// The whole message.
    pub fn as_bytes(&self) -> (r: &'a [u8])
        ensures
            r@ == self.data@,
    {
        self.data
    }

    /// The value of `BeginString <8>`.
    pub fn begin_string(&self) -> (r: &'a [u8])
        requires
            self.wf(),
        ensures
            r@ == self.data@.subrange(
                self.begin_string.start as int,
                self.begin_string.end as int,
            ),
    {
        let data: &'a [u8] = self.data;
        &data[self.begin_string.start..self.begin_string.end]
    }

    /// Every field but `BeginString <8>`, `BodyLength <9>` and `CheckSum <10>`.
    pub fn payload(&self) -> (r: &'a [u8])
        requires
            self.wf(),
        ensures
            r@ == self.data@.subrange(self.payload.start as int, self.payload.end as int),
    {
        let data: &'a [u8] = self.data;
        &data[self.payload.start..self.payload.end]
    }
}

/// A decoder that validates single messages.
#[derive(Debug, Clone, Copy)]
pub struct RawDecoder {
    pub config: Config,
}

impl RawDecoder {
    /// A decoder with the default configuration.
    pub fn new() -> (r: Self)
        ensures
            r.config.separator == 1,
            r.config.verify_checksum,
    {
        RawDecoder { config: Config::default() }
    }

    pub fn config(&self) -> (r: &Config)
        ensures
            *r == self.config,
    {
        &self.config
    }

    pub fn config_mut(&mut self) -> (r: &mut Config)
        ensures
            *r == old(self).config,
            final(self).config == *final(r),
    {
        &mut self.config
    }

    /// Checks the length, the header, the body length and (if configured) the
    /// checksum of `data`, and returns the frame found in it.
    pub fn decode<'a>(&self, data: &'a [u8]) -> (r: Result<RawFrame<'a>, DecodeError>)
        ensures
            match r {
                Ok(frame) => {
                    &&& frame.data == data
                    &&& frame.wf()
                    &&& decode_spec(data@, self.config) == Ok::<FrameLayout, DecodeError>(
                        frame.layout(),
                    )
                },
                Err(e) => decode_spec(data@, self.config) == Err::<FrameLayout, DecodeError>(e),
            },
    {
        if data.len() < MIN_FIX_MESSAGE_LEN_IN_BYTES {
            return Err(DecodeError::Length);
        }
        let info = match HeaderInfo::parse(data, self.config.separator) {
            Ok(info) => info,
            Err(e) => return Err(e),
        };
        if !frame_tags_ok(data, info.i_sep0) {
            return Err(DecodeError::Invalid);
        }
        let start = info.start_of_body();
        let len = data.len();
        if start > len - FIELD_CHECKSUM_LEN_IN_BYTES || len - FIELD_CHECKSUM_LEN_IN_BYTES - start
            != info.body_length {
            return Err(DecodeError::Length);
        }
        if self.config.verify_checksum && !checksum_is_valid(data, self.config.separator) {
            return Err(DecodeError::CheckSum);
        }
        let frame = RawFrame {
            data,
            begin_string: info.begin_string_range(),
            payload: info.body_range(),
        };
        assert(frame.layout() == decode_spec(data@, self.config)->Ok_0);
        Ok(frame)
    }
}

impl RawDecoder {
    /// A streaming decoder with this configuration and an empty buffer.
    pub fn buffered(self) -> (r: RawDecoderBuffered)
        ensures
            r.inner() == self,
            r.buffered()@.len() == 0,
            r.poisoned() is None,
    {
        RawDecoderBuffered { decoder: self, buffer: Vec::new(), parsing_err: None }
    }
}

/// How long the buffer of a streaming decoder must grow, given what it holds:
/// to the minimum frame length first, then one byte at a time until the
/// header is closed, then to the full frame that the header announces.
pub open spec fn wanted_len(buf: Seq<u8>, sep: u8) -> Result<int, DecodeError> {
    if buf.len() < MIN_FIX_MESSAGE_LEN_IN_BYTES {
        Ok(MIN_FIX_MESSAGE_LEN_IN_BYTES as int)
    } else if header_scan(buf, sep).fields < 2 {
        if buf.len() < usize::MAX {
            Ok(buf.len() as int + 1)
        } else {
            Err(DecodeError::Length)
        }
    } else {
        match frame_header(buf, sep) {
            Err(e) => Err(e),
            Ok(h) => {
                let total = h.sep1 + 1 + h.body_length + FIELD_CHECKSUM_LEN_IN_BYTES;
                if total < buf.len() || total > usize::MAX {
                    Err(DecodeError::Length)
                } else {
                    Ok(total)
                }
            },
        }
    }
}

/// What a streaming decoder reports for the bytes it holds: nothing yet while
/// the frame is incomplete, else the result of decoding them.
pub open spec fn buffered_frame(buf: Seq<u8>, config: Config) -> Result<
    Option<FrameLayout>,
    DecodeError,
> {
    if buf.len() < MIN_FIX_MESSAGE_LEN_IN_BYTES || header_scan(buf, config.separator).fields < 2 {
        Ok(None)
    } else {
        match frame_header(buf, config.separator) {
            Err(e) => Err(e),
            Ok(h) => {
                if buf.len() < h.sep1 + 1 + h.body_length + FIELD_CHECKSUM_LEN_IN_BYTES {
                    Ok(None)
                } else {
                    match decode_spec(buf, config) {
                        Ok(layout) => Ok(Some(layout)),
                        Err(e) => Err(e),
                    }
                }
            },
        }
    }
}

/// A [`RawDecoder`] that accumulates a byte stream until it holds a whole
/// frame.
#[derive(Debug, Clone)]
pub struct RawDecoderBuffered {
    pub decoder: RawDecoder,
    buffer: Vec<u8>,
    parsing_err: Option<DecodeError>,
}

impl RawDecoderBuffered {
    /// The decoder that validates complete frames.
    pub closed spec fn inner(&self) -> RawDecoder {
        self.decoder
    }

    /// The bytes received so far.
    pub closed spec fn buffered(&self) -> Vec<u8> {
        self.buffer
    }

    /// The error that stopped this decoder, if any.
    pub closed spec fn poisoned(&self) -> Option<DecodeError> {
        self.parsing_err
    }

    pub fn config(&self) -> (r: &Config)
        ensures
            *r == self.inner().config,
    {
        &self.decoder.config
    }

    pub fn config_mut(&mut self) -> (r: &mut Config)
        ensures
            *r == old(self).inner().config,
            final(self).inner().config == *final(r),
            final(self).buffered() == old(self).buffered(),
            final(self).poisoned() == old(self).poisoned(),
    {
        &mut self.decoder.config
    }

    /// Forgets all received bytes and any earlier error.
    pub fn clear(&mut self)
        ensures
            final(self).inner() == old(self).inner(),
            final(self).buffered()@.len() == 0,
            final(self).poisoned() is None,
    {
        self.buffer.clear();
        self.parsing_err = None;
    }

    /// The slice that the caller must fill next: the not yet received tail of
    /// the buffer, grown as [`wanted_len`] says. It is empty, and the decoder
    /// stays (or becomes) poisoned, after an error.
    pub fn supply_buffer(&mut self) -> (r: &mut [u8])
        ensures
            final(self).inner() == old(self).inner(),
            final(self).buffered()@ == old(self).buffered()@ + final(r)@,
            old(self).poisoned() is Some ==> {
                &&& r@.len() == 0
                &&& final(self).poisoned() == old(self).poisoned()
            },
            old(self).poisoned() is None ==> match wanted_len(
                old(self).buffered()@,
                old(self).inner().config.separator,
            ) {
                Ok(total) => {
                    &&& r@.len() == total - old(self).buffered()@.len()
                    &&& forall|i: int| 0 <= i < r@.len() ==> r@[i] == 0
                    &&& final(self).poisoned() is None
                },
                Err(e) => {
                    &&& r@.len() == 0
                    &&& final(self).poisoned() == Some(e)
                },
            },
    {
        let len = self.buffer.len();
        if self.parsing_err.is_some() {
            let (_, tail) = self.buffer.as_mut_slice().split_at_mut(len);
            return tail;
        }
        let sep = self.decoder.config.separator;
        let mut total: usize = MIN_FIX_MESSAGE_LEN_IN_BYTES;
        if len >= MIN_FIX_MESSAGE_LEN_IN_BYTES {
            let (info, fields) = HeaderInfo::scan(self.buffer.as_slice(), sep);
            let mut err: Option<DecodeError> = None;
            if fields < 2 {
                if len < usize::MAX {
                    total = len + 1;
                } else {
                    err = Some(DecodeError::Length);
                }
            } else if !header_accepted(&info) || !frame_tags_ok(self.buffer.as_slice(), info.i_sep0) {
                err = Some(DecodeError::Invalid);
            } else if usize::MAX - info.i_sep1 - 1 < FIELD_CHECKSUM_LEN_IN_BYTES
                || info.body_length > usize::MAX - info.i_sep1 - 1 - FIELD_CHECKSUM_LEN_IN_BYTES {
                err = Some(DecodeError::Length);
            } else {
                total = info.i_sep1 + 1 + info.body_length + FIELD_CHECKSUM_LEN_IN_BYTES;
                if total < len {
                    err = Some(DecodeError::Length);
                }
            }
            if err.is_some() {
                self.parsing_err = err;
                let (_, tail) = self.buffer.as_mut_slice().split_at_mut(len);
                return tail;
            }
        }
        self.buffer.resize(total, 0u8);
        proof {
            assert(self.buffer@.subrange(0, len as int) == old(self).buffer@);
        }
        let (_, tail) = self.buffer.as_mut_slice().split_at_mut(len);
        tail
    }

    /// Checks the header received so far, and poisons the decoder if it is
    /// malformed.
    pub fn parse(&mut self)
        ensures
            final(self).inner() == old(self).inner(),
            final(self).buffered() == old(self).buffered(),
            header_spec(old(self).buffered()@, old(self).inner().config.separator) matches Err(e)
                ==> final(self).poisoned() == Some(e),
            header_spec(old(self).buffered()@, old(self).inner().config.separator) is Ok
                ==> final(self).poisoned() == old(self).poisoned(),
    {
        if let Err(e) = HeaderInfo::parse(self.buffer.as_slice(), self.decoder.config.separator) {
            self.parsing_err = Some(e);
        }
    }

    /// The frame held in the buffer: `None` while it is incomplete, the frame
    /// once all its bytes are in, or the error that refuses it.
    pub fn raw_frame(&self) -> (r: Result<Option<RawFrame<'_>>, DecodeError>)
        ensures
            match r {
                Ok(Some(frame)) => {
                    &&& frame.data@ == self.buffered()@
                    &&& frame.wf()
                    &&& buffered_frame(self.buffered()@, self.inner().config) == Ok::<
                        Option<FrameLayout>,
                        DecodeError,
                    >(Some(frame.layout()))
                },
                Ok(None) => buffered_frame(self.buffered()@, self.inner().config) == Ok::<
                    Option<FrameLayout>,
                    DecodeError,
                >(None),
                Err(e) => buffered_frame(self.buffered()@, self.inner().config) == Err::<
                    Option<FrameLayout>,
                    DecodeError,
                >(e),
            },
    {
        let data = self.buffer.as_slice();
        if data.len() < MIN_FIX_MESSAGE_LEN_IN_BYTES {
            return Ok(None);
        }
        let (info, fields) = HeaderInfo::scan(data, self.decoder.config.separator);
        if fields < 2 {
            return Ok(None);
        }
        if !header_accepted(&info) || !frame_tags_ok(data, info.i_sep0) {
            return Err(DecodeError::Invalid);
        }
        let rest = data.len() - info.i_sep1 - 1;
        if rest < FIELD_CHECKSUM_LEN_IN_BYTES || info.body_length > rest
            - FIELD_CHECKSUM_LEN_IN_BYTES {
            return Ok(None);
        }
        match self.decoder.decode(data) {
            Ok(frame) => Ok(Some(frame)),
            Err(e) => Err(e),
        }
    }
}

} // verus!

verus! {

/// The shape of every scan: at most two fields, no second separator before
/// the second field closes, and a closed header is already complete in the
/// prefix that ends with its second separator.
pub proof fn lemma_scan_shape(s: Seq<u8>, sep: u8)
    ensures
        0 <= header_scan(s, sep).fields <= 2,
        header_scan(s, sep).fields < 2 ==> header_scan(s, sep).sep1 == 0,
        header_scan(s, sep).fields == 0 ==> header_scan(s, sep).eq1 == 0,
        header_scan(s, sep).fields >= 1 ==> 0 <= header_scan(s, sep).sep0 < s.len() && (
        header_scan(s, sep).eq1 == 0 || (header_scan(s, sep).sep0 < header_scan(s, sep).eq1
            && header_scan(s, sep).eq1 < s.len())),
        header_scan(s, sep).fields == 2 ==> {
            &&& header_scan(s, sep).sep0 < header_scan(s, sep).sep1
            &&& header_scan(s, sep).eq1 == 0 || header_scan(s, sep).eq1 < header_scan(s, sep).sep1
            &&& s[header_scan(s, sep).sep1] != 61u8
        },
        header_scan(s, sep).fields == 2 ==> {
            &&& 0 <= header_scan(s, sep).sep1 < s.len()
            &&& header_scan(s.take(header_scan(s, sep).sep1 + 1), sep) == header_scan(s, sep)
        },
    decreases s.len(),
{
    if s.len() > 0 {
        let p = s.drop_last();
        lemma_scan_shape(p, sep);
        let prev = header_scan(p, sep);
        if prev.fields >= 2 {
            assert(s.take(prev.sep1 + 1) == p.take(prev.sep1 + 1));
            assert(s[prev.sep1] == p[prev.sep1]);
        } else {
            assert(s.last() == s[s.len() - 1]);
            let h = header_scan(s, sep);
            if h.fields == 2 {
                assert(s.take(h.sep1 + 1) == s);
            }
        }
    }
}

/// The header of `s` does not depend on the bytes after its second
/// separator.
pub proof fn lemma_header_ignores_rest(s: Seq<u8>, t: Seq<u8>, sep: u8)
    requires
        header_scan(s, sep).fields == 2,
        header_scan(s, sep).sep1 < t.len(),
        t.take(header_scan(s, sep).sep1 + 1) == s.take(header_scan(s, sep).sep1 + 1),
    ensures
        header_scan(t, sep) == header_scan(s, sep),
{
    lemma_scan_shape(s, sep);
    let k = header_scan(s, sep).sep1 + 1;
    lemma_scan_settled(t, k, sep);
}

/// Replacing one byte changes the byte sum by the difference.
pub proof fn lemma_byte_sum_update(s: Seq<u8>, i: int, b: u8)
    requires
        0 <= i < s.len(),
    ensures
        byte_sum(s.update(i, b)) == byte_sum(s) - s[i] + b,
    decreases s.len(),
{
    let u = s.update(i, b);
    if i < s.len() - 1 {
        assert(u.drop_last() == s.drop_last().update(i, b));
        lemma_byte_sum_update(s.drop_last(), i, b);
    } else {
        assert(u.drop_last() == s.drop_last());
    }
}

/// Three digits name the number below 1000 that they were written for.
pub proof fn lemma_three_digits_injective(x: int, y: int)
    requires
        0 <= x < 1000,
        0 <= y < 1000,
        three_digits(x) == three_digits(y),
    ensures
        x == y,
{
    assert(three_digits(x)[0] == three_digits(y)[0]);
    assert(three_digits(x)[1] == three_digits(y)[1]);
    assert(three_digits(x)[2] == three_digits(y)[2]);
    assert(x == 100 * (x / 100 % 10) + 10 * (x / 10 % 10) + x % 10);
    assert(y == 100 * (y / 100 % 10) + 10 * (y / 10 % 10) + y % 10);
}

/// Changing any one byte of the payload of a frame that passes checksum
/// verification makes decoding fail with `CheckSum`: a single byte moves the
/// sum by less than 256, so the sum modulo 256 always changes.
pub proof fn lemma_checksum_detects_change(data: Seq<u8>, config: Config, i: int, b: u8)
    requires
        data.len() <= usize::MAX,
        config.verify_checksum,
        decode_spec(data, config) is Ok,
        decode_spec(data, config)->Ok_0.payload.start <= i < decode_spec(
            data,
            config,
        )->Ok_0.payload.end,
        b != data[i],
    ensures
        decode_spec(data.update(i, b), config) == Err::<FrameLayout, DecodeError>(
            DecodeError::CheckSum,
        ),
{
    let sep = config.separator;
    let t = data.update(i, b);
    let h = header_scan(data, sep);
    lemma_scan_shape(data, sep);
    assert(h.fields == 2);
    assert(0 <= h.sep1 < data.len());
    assert(i > h.sep1);
    assert(t.take(h.sep1 + 1) =~= data.take(h.sep1 + 1));
    lemma_header_ignores_rest(data, t, sep);
    let n = data.len() - 7;
    assert(t.take(n) == data.take(n).update(i, b));
    lemma_byte_sum_update(data.take(n), i, b);
    assert(t.subrange(data.len() - 4, data.len() - 1) == data.subrange(
        data.len() - 4,
        data.len() - 1,
    ));
    let c0 = checksum_of(data.take(n));
    let c1 = checksum_of(t.take(n));
    assert(t[0] == data[0] && t[1] == data[1]);
    assert(t[h.sep0 + 1] == data[h.sep0 + 1] && t[h.sep0 + 2] == data[h.sep0 + 2]);
    assert(t[data.len() - 7] == data[data.len() - 7] && t[data.len() - 6] == data[data.len() - 6]
        && t[data.len() - 5] == data[data.len() - 5] && t[data.len() - 1] == data[data.len() - 1]);
    if checksum_matches(t, sep) {
        lemma_three_digits_injective(c0, c1);
        assert(byte_sum(t.take(n)) == byte_sum(data.take(n)) - data[i] + b);
        assert(false) by {
            let d = b as int - data[i] as int;
            assert(-256 < d < 256 && d != 0);
            vstd::arithmetic::div_mod::lemma_fundamental_div_mod(byte_sum(data.take(n)), 256);
            vstd::arithmetic::div_mod::lemma_fundamental_div_mod(byte_sum(t.take(n)), 256);
        }
    }
}

/// Two inputs that agree on everything after the `BodyLength` separator
/// (as when only the digits of the declared length are rewritten, to any
/// other value and with any number of digits) are not both accepted: if the
/// first decodes, the second, whose declared length differs, fails with
/// `Length`.
pub proof fn lemma_body_length_decides(first: Seq<u8>, second: Seq<u8>, config: Config)
    requires
        decode_spec(first, config) is Ok,
        frame_header(second, config.separator) is Ok,
        second.len() - header_scan(second, config.separator).sep1 == first.len() - header_scan(
            first,
            config.separator,
        ).sep1,
        header_scan(second, config.separator).body_length != header_scan(
            first,
            config.separator,
        ).body_length,
    ensures
        decode_spec(second, config) is Err,
        second.len() >= MIN_FIX_MESSAGE_LEN_IN_BYTES ==> decode_spec(second, config) == Err::<
            FrameLayout,
            DecodeError,
        >(DecodeError::Length),
{
}

} // verus!
