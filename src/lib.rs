//! A FIX tag-value codec: framing, checksums, typed field values and
//! repeating-group access, with their behaviour stated and proved.

pub mod arith;
pub mod checksum;
pub mod datatypes;
pub mod digits;
pub mod encoder;
pub mod field_access;
pub mod raw_decoder;

pub use checksum::CheckSum;
pub use datatypes::{
    BoolError, Decimal, DecimalError, FixFieldValue, IntError, Padding, SuperDataType, TagU16,
    Timestamp, WithMilliseconds,
};
pub use encoder::{Encoder, EncoderHandle, FieldDef};
pub use field_access::{Entries, FieldAccess, FieldGroup, FieldMap, FieldRef, RepeatingGroup};
pub use raw_decoder::{Config, DecodeError, HeaderInfo, RawDecoder, RawDecoderBuffered, RawFrame};
