use fefix::{
    BoolError, CheckSum, Decimal, DecimalError, FixFieldValue, IntError, Padding, TagU16,
    Timestamp, WithMilliseconds,
};

#[test]
fn serialize_bools() {
    let mut buffer = Vec::new();
    assert_eq!(true.serialize(&mut buffer), 1);
    assert_eq!(false.serialize(&mut buffer), 1);
    assert_eq!(&buffer[..], b"YN" as &[u8]);
}

#[test]
fn serialize_bytes() {
    let data: &[&[u8]] = &[b"hello", b"", b" ", b"foo"];
    let mut buffer = Vec::new();
    for slice in data {
        assert_eq!(slice.serialize(&mut buffer), slice.len());
    }
    assert_eq!(&buffer[..], b"hello foo" as &[u8]);
}

#[test]
fn serialize_country() {
    let mut buffer = Vec::new();
    assert_eq!(b"IT".serialize(&mut buffer), 2);
    assert_eq!(&buffer[..], b"IT" as &[u8]);
}

#[test]
fn serialize_currency() {
    let mut buffer = Vec::new();
    assert_eq!(b"USD".serialize(&mut buffer), 3);
    assert_eq!(&buffer[..], b"USD" as &[u8]);
}

#[test]
fn bool_round_trip_and_errors() {
    assert_eq!(bool::deserialize(b"Y"), Ok(true));
    assert_eq!(bool::deserialize(b"N"), Ok(false));
    assert_eq!(bool::deserialize(b"X"), Err(BoolError::InvalidCharacter));
    assert_eq!(bool::deserialize(b"YY"), Err(BoolError::WrongLength));
    assert_eq!(bool::deserialize(b""), Err(BoolError::WrongLength));
    assert_eq!(bool::deserialize_lossy(b"Y"), Ok(true));
    assert_eq!(bool::deserialize_lossy(b"X"), Ok(false));
    assert_eq!(bool::deserialize_lossy(b"YY"), Err(BoolError::WrongLength));
}

#[test]
fn integer_lossy_vs_strict() {
    assert!(u32::deserialize(b"invalid integer").is_err());
    assert!(u32::deserialize_lossy(b"invalid integer").is_ok());
    assert!(i64::deserialize_lossy(b"invalid integer").is_ok());
    assert!(usize::deserialize_lossy(b"invalid integer").is_ok());
    assert_eq!(u32::deserialize(b"invalid integer"), Err(IntError::Other));
}

#[test]
fn integer_values() {
    let mut buffer = Vec::new();
    assert_eq!(1337u32.serialize(&mut buffer), 4);
    assert_eq!(&buffer[..], b"1337");
    assert_eq!(u32::deserialize(b"1337"), Ok(1337));
    assert_eq!(u32::deserialize(b"+7"), Ok(7));
    assert_eq!(u32::deserialize(b"4294967295"), Ok(u32::MAX));
    assert_eq!(u32::deserialize(b"4294967296"), Err(IntError::Other));
    assert_eq!(u32::deserialize(b""), Err(IntError::Other));
    assert_eq!(u32::deserialize(b"-1"), Err(IntError::Other));
    assert_eq!(u32::deserialize(&[0xff, 0x31]), Err(IntError::InvalidUtf8));
    assert_eq!(i32::deserialize(b"-2147483648"), Ok(i32::MIN));
    assert_eq!(i32::deserialize(b"2147483648"), Err(IntError::Other));
    assert_eq!(i64::deserialize(b"-42"), Ok(-42));
    assert_eq!(u64::deserialize(b"18446744073709551615"), Ok(u64::MAX));
    assert_eq!(usize::deserialize(b"0"), Ok(0));
}

#[test]
fn integer_round_trips() {
    for v in [0u32, 1, 9, 10, 99, 100, 65535, u32::MAX] {
        let mut buffer = Vec::new();
        v.serialize(&mut buffer);
        assert_eq!(u32::deserialize(&buffer), Ok(v));
        assert_eq!(u32::deserialize_lossy(&buffer), Ok(v));
    }
    for v in [i64::MIN, -1, 0, 1, i64::MAX] {
        let mut buffer = Vec::new();
        v.serialize(&mut buffer);
        assert_eq!(i64::deserialize(&buffer), Ok(v));
        assert_eq!(i64::deserialize_lossy(&buffer), Ok(v));
    }
    for v in [i32::MIN, -7, 0, i32::MAX] {
        let mut buffer = Vec::new();
        v.serialize(&mut buffer);
        assert_eq!(i32::deserialize(&buffer), Ok(v));
        assert_eq!(i32::deserialize_lossy(&buffer), Ok(v));
    }
    for v in [0u64, 12345678901234, u64::MAX] {
        let mut buffer = Vec::new();
        v.serialize(&mut buffer);
        assert_eq!(u64::deserialize(&buffer), Ok(v));
        assert_eq!(u64::deserialize_lossy(&buffer), Ok(v));
    }
}

#[test]
fn signed_lossy_skips_sign() {
    assert_eq!(i32::deserialize_lossy(b"-123"), Ok(-123));
    assert_eq!(i32::deserialize_lossy(b"+123"), Ok(123));
    assert_eq!(i64::deserialize_lossy(b"-9223372036854775808"), Ok(i64::MIN));
    assert_eq!(u32::deserialize_lossy(b"4294967296"), Ok(0));
    assert_eq!(u32::deserialize_lossy(b""), Ok(0));
}

#[test]
fn padding_never_truncates() {
    let mut buffer = Vec::new();
    assert_eq!(5u32.serialize_with(&mut buffer, &Padding::zeros(3)), 3);
    assert_eq!(&buffer[..], b"005");
    let mut buffer = Vec::new();
    assert_eq!(12345u32.serialize_with(&mut buffer, &Padding::zeros(3)), 5);
    assert_eq!(&buffer[..], b"12345");
    let mut buffer = Vec::new();
    let padding = Padding { len: 4, byte: b' ' };
    assert_eq!(7u32.serialize_with(&mut buffer, &padding), 4);
    assert_eq!(&buffer[..], b"   7");
}

#[test]
fn tags() {
    assert_eq!(TagU16::deserialize(b"35").map(|t| t.get()), Ok(35));
    assert_eq!(TagU16::deserialize(b"0"), Err(IntError::Other));
    assert_eq!(TagU16::deserialize(b"65536"), Err(IntError::Other));
    assert_eq!(TagU16::deserialize_lossy(b"65536"), Err(IntError::Other));
    assert_eq!(TagU16::deserialize_lossy(b"65537").map(|t| t.get()), Ok(1));
    assert!(TagU16::new(0).is_none());
    let mut buffer = Vec::new();
    TagU16::new(146).unwrap().serialize(&mut buffer);
    assert_eq!(&buffer[..], b"146");
}

#[test]
fn single_chars() {
    assert_eq!(u8::deserialize(b"A"), Ok(b'A'));
    assert_eq!(u8::deserialize(b""), Err(IntError::Other));
    assert_eq!(u8::deserialize(b"AB"), Err(IntError::Other));
    assert_eq!(u8::deserialize_lossy(b"AB"), Ok(b'A'));
}

#[test]
fn fixed_width_codes() {
    assert_eq!(<&[u8; 3]>::deserialize(b"USD"), Ok(b"USD"));
    assert_eq!(<&[u8; 3]>::deserialize(b"US"), Err(()));
    assert_eq!(<&[u8; 2]>::deserialize(b"ITA"), Err(()));
    assert_eq!(<&[u8; 4]>::deserialize(b"XNYS"), Ok(b"XNYS"));
    assert_eq!(<&[u8]>::deserialize(b"anything"), Ok(&b"anything"[..]));
}

#[test]
fn checksum_values() {
    assert_eq!(CheckSum::compute(b""), CheckSum(0));
    assert_eq!(CheckSum::compute(&[200, 100]), CheckSum(44));
    let mut buffer = Vec::new();
    CheckSum(7).serialize(&mut buffer);
    assert_eq!(&buffer[..], b"007");
    assert_eq!(CheckSum::deserialize(b"091"), Ok(CheckSum(91)));
    assert_eq!(CheckSum::deserialize(b"256"), Err(()));
    assert_eq!(CheckSum::deserialize(b"91"), Err(()));
}

#[test]
fn decimals() {
    let d = Decimal::new(3141, 3).unwrap();
    let mut buffer = Vec::new();
    assert_eq!(d.serialize(&mut buffer), 5);
    assert_eq!(&buffer[..], b"3.141");
    assert_eq!(Decimal::deserialize(b"3.141"), Ok(d));
    assert_eq!(Decimal::deserialize(b"-0.50"), Ok(Decimal { mantissa: -50, scale: 2 }));
    assert_eq!(Decimal::deserialize(b"abc"), Err(DecimalError::Other));
    assert_eq!(Decimal::deserialize(&[0xff]), Err(DecimalError::NotUtf8));
    assert_eq!(Decimal::deserialize_lossy(b"12"), Ok(Decimal { mantissa: 12, scale: 0 }));
    assert!(Decimal::new(1, 29).is_none());
}

#[test]
fn decimal_round_trip() {
    for (m, s) in [(0i128, 0u32), (1, 0), (-1, 0), (150, 2), (-123456789, 5), (42, 28)] {
        let d = Decimal::new(m, s).unwrap();
        let mut buffer = Vec::new();
        d.serialize(&mut buffer);
        assert_eq!(Decimal::deserialize(&buffer), Ok(d));
    }
}

#[test]
fn timestamps() {
    let t = Timestamp {
        year: 2013,
        month: 4,
        day: 22,
        hour: 12,
        minute: 30,
        second: 0,
        nanosecond: 7_000_000,
    };
    let mut buffer = Vec::new();
    assert_eq!(t.serialize(&mut buffer), 21);
    assert_eq!(&buffer[..], b"20130422-12:30:00.007");
    assert_eq!(Timestamp::deserialize(&buffer), Ok(t));
    let mut buffer = Vec::new();
    assert_eq!(t.serialize_with(&mut buffer, &WithMilliseconds(false)), 17);
    assert_eq!(&buffer[..], b"20130422-12:30:00");
    assert_eq!(
        Timestamp::deserialize(&buffer),
        Ok(Timestamp { nanosecond: 0, ..t })
    );
    assert_eq!(Timestamp::deserialize(b"20131322-12:30:00"), Err(()));
    assert_eq!(Timestamp::deserialize(b"20130422 12:30:00"), Err(()));
    assert_eq!(Timestamp::deserialize(b"20130422-12:30:00.1"), Err(()));
}

#[test]
fn text_fields() {
    let mut buffer = Vec::new();
    assert_eq!("héllo".serialize(&mut buffer), 6);
    assert_eq!(<&str>::deserialize(&buffer), Ok("héllo"));
    assert_eq!(<&str>::deserialize(&[0xff, 0x41]), Err(()));
    assert_eq!(<&str>::deserialize_lossy(b"abc"), Ok("abc"));
}
