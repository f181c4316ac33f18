use fefix::{
    Config, Encoder, FieldAccess, FieldDef, FieldMap, RawDecoder, TagU16,
};

fn encoder() -> Encoder {
    let mut encoder = Encoder::from_buffer(Vec::new());
    encoder.config_mut().set_separator(b'|');
    encoder
}

fn decoder() -> RawDecoder {
    let mut config = Config::default();
    config.set_separator(b'|');
    let mut decoder = RawDecoder::new();
    *decoder.config_mut() = config;
    decoder
}

#[test]
fn encode_heartbeat() {
    let mut encoder = encoder();
    let mut msg = encoder.start_message(b"FIX.4.4", b"0");
    msg.raw(b"49=A|56=B|34=12|52=20100304-07:59:30|");
    let data = msg.wrap();
    assert_eq!(
        data,
        b"8=FIX.4.4|9=000042|35=0|49=A|56=B|34=12|52=20100304-07:59:30|10=216|"
    );
}

#[test]
fn encode_typed_fields() {
    let mut encoder = encoder();
    let mut msg = encoder.start_message(b"FIX.4.2", b"D");
    msg.set_any(TagU16::new(49).unwrap(), &b"AFUNDMGR"[..]);
    msg.set(&FieldDef { tag: TagU16::new(56).unwrap() }, &b"ABROKER"[..]);
    msg.set_any(TagU16::new(15).unwrap(), b"USD");
    msg.set_any(TagU16::new(59).unwrap(), 0u32);
    msg.set_any(TagU16::new(43).unwrap(), true);
    let data = msg.wrap().to_vec();
    let frame = decoder().decode(&data).unwrap();
    assert_eq!(frame.begin_string(), b"FIX.4.2");
    assert_eq!(frame.payload(), b"35=D|49=AFUNDMGR|56=ABROKER|15=USD|59=0|43=Y|");
    assert_eq!(&data[..18], b"8=FIX.4.2|9=000045");
}

#[test]
fn encoder_reuses_buffer() {
    let mut encoder = encoder();
    {
        let mut msg = encoder.start_message(b"FIX.4.4", b"A");
        msg.raw(b"98=0|");
        msg.wrap();
    }
    let mut msg = encoder.start_message(b"FIX.4.4", b"0");
    msg.raw(b"49=A|56=B|34=12|52=20100304-07:59:30|");
    let data = msg.wrap();
    assert!(data.starts_with(b"8=FIX.4.4|9=000042|35=0|"));
    assert!(encoder.buffer().ends_with(b"10=216|"));
    assert_eq!(encoder.config().separator(), b'|');
}

#[test]
fn encoded_frame_round_trip() {
    let mut encoder = encoder();
    let mut msg = encoder.start_message(b"FIXT.1.1", b"8");
    msg.set_any(TagU16::new(11).unwrap(), &b"order-1"[..]);
    msg.set_any(TagU16::new(38).unwrap(), 100u64);
    msg.set_any(TagU16::new(44).unwrap(), -5i64);
    let data = msg.wrap().to_vec();
    let frame = decoder().decode(&data).unwrap();
    let fields = FieldMap::parse(frame.payload(), b'|').unwrap();
    assert_eq!(fields.fv_raw(35), Some(&b"8"[..]));
    assert_eq!(fields.fv_raw(11), Some(&b"order-1"[..]));
    assert_eq!(fields.fv::<u64>(38), Ok(100));
    assert_eq!(fields.fv::<i64>(44), Ok(-5));
}
