use fefix::{Config, DecodeError, RawDecoder};

fn new_decoder() -> RawDecoder {
    let mut config = Config::default();
    config.set_separator(b'|');

    let mut decoder = RawDecoder::new();
    *decoder.config_mut() = config;
    decoder
}

const SAMPLE: &[u8] = b"8=FIX.4.2|9=40|35=D|49=AFUNDMGR|56=ABROKER|15=USD|59=0|10=091|";

#[test]
fn empty_message_is_invalid() {
    let decoder = new_decoder();
    assert!(matches!(
        decoder.decode(&[] as &[u8]),
        Err(DecodeError::Length)
    ));
}

#[test]
fn sample_message_is_valid() {
    let decoder = new_decoder();
    let msg = "8=FIX.4.2|9=40|35=D|49=AFUNDMGR|56=ABROKER|15=USD|59=0|10=091|".as_bytes();
    let frame = decoder.decode(msg).unwrap();
    assert_eq!(frame.begin_string(), b"FIX.4.2");
    assert_eq!(frame.payload(), b"35=D|49=AFUNDMGR|56=ABROKER|15=USD|59=0|");
}

#[test]
fn message_with_only_msg_type_tag_is_valid() {
    let decoder = new_decoder();
    let msg = "8=?|9=5|35=?|10=183|".as_bytes();
    let frame = decoder.decode(msg).unwrap();
    assert_eq!(frame.begin_string(), b"?");
    assert_eq!(frame.payload(), b"35=?|");
}

#[test]
fn message_with_empty_payload_is_invalid() {
    let decoder = new_decoder();
    let msg = "8=?|9=5|10=082|".as_bytes();
    assert!(matches!(decoder.decode(msg), Err(DecodeError::Length)));
}

#[test]
fn message_with_bad_checksum_is_invalid() {
    let mut decoder = new_decoder();
    decoder.config_mut().set_verify_checksum(true);
    let msg = "8=FIX.4.2|9=40|35=D|49=AFUNDMGR|56=ABROKER|15=USD|59=0|10=000|".as_bytes();
    assert!(matches!(decoder.decode(msg), Err(DecodeError::CheckSum)));
}

#[test]
fn edge_cases_dont_cause_panic() {
    let decoder = new_decoder();
    assert!(decoder.decode("8=|9=0|10=225|".as_bytes()).is_err());
    assert!(decoder.decode("8=|9=0|10=|".as_bytes()).is_err());
    assert!(decoder.decode("8====|9=0|10=|".as_bytes()).is_err());
    assert!(decoder.decode("|||9=0|10=|".as_bytes()).is_err());
    assert!(decoder.decode("9999999999999".as_bytes()).is_err());
    assert!(decoder.decode("-9999999999999".as_bytes()).is_err());
    assert!(decoder.decode("==============".as_bytes()).is_err());
    assert!(decoder.decode("9999999999999|".as_bytes()).is_err());
    assert!(decoder.decode("|999999999999=|".as_bytes()).is_err());
    assert!(decoder
        .decode("|999=999999999999999999|=".as_bytes())
        .is_err());
}

#[test]
fn new_buffered_decoder_has_no_current_frame() {
    let decoder = new_decoder().buffered();
    assert!(decoder.raw_frame().unwrap().is_none());
}

#[test]
fn new_buffered_decoder() {
    let stream = {
        let mut stream = Vec::new();
        for _ in 0..42 {
            stream.extend_from_slice(
                b"8=FIX.4.2|9=40|35=D|49=AFUNDMGR|56=ABROKER|15=USD|59=0|10=091|",
            );
        }
        stream
    };
    let mut i = 0;
    let mut decoder = new_decoder().buffered();
    let mut frames = 0;
    let mut frame_seen = false;
    while i < stream.len() {
        let buf = decoder.supply_buffer();
        let n = buf.len();
        buf.clone_from_slice(&stream[i..i + n]);
        i += n;
        let complete = match decoder.raw_frame().unwrap() {
            Some(frame) => {
                assert_eq!(frame.begin_string(), b"FIX.4.2");
                assert_eq!(frame.payload().len(), 40);
                true
            }
            None => false,
        };
        if complete {
            frame_seen = true;
            frames += 1;
            assert_eq!(i, frames * SAMPLE.len());
            decoder.clear();
        }
    }
    assert!(frame_seen);
    assert_eq!(frames, 42);
}

#[test]
fn minimal_valid_frame() {
    let frame = new_decoder().decode(b"8=?|9=5|35=?|10=183|").unwrap();
    assert_eq!(frame.begin_string(), b"?");
    assert_eq!(frame.payload(), b"35=?|");
    assert_eq!(frame.as_bytes(), b"8=?|9=5|35=?|10=183|");
}

#[test]
fn sample_payload_has_declared_length() {
    let frame = new_decoder().decode(SAMPLE).unwrap();
    assert_eq!(frame.payload().len(), 40);
    assert_eq!(frame.begin_string, 2..9);
    assert_eq!(frame.payload, 15..55);
}

#[test]
fn unverified_checksum_is_ignored() {
    let mut decoder = new_decoder();
    decoder.config_mut().set_verify_checksum(false);
    let msg = b"8=FIX.4.2|9=40|35=D|49=AFUNDMGR|56=ABROKER|15=USD|59=0|10=000|";
    assert!(decoder.decode(&msg[..]).is_ok());
}

#[test]
fn flipped_payload_byte_fails_checksum() {
    let decoder = new_decoder();
    for i in 15..55 {
        let mut msg = SAMPLE.to_vec();
        msg[i] ^= 0x20;
        assert!(matches!(decoder.decode(&msg), Err(DecodeError::CheckSum)), "byte {}", i);
    }
}

#[test]
fn body_length_off_by_one_fails() {
    let decoder = new_decoder();
    let longer = b"8=FIX.4.2|9=41|35=D|49=AFUNDMGR|56=ABROKER|15=USD|59=0|10=091|";
    let shorter = b"8=FIX.4.2|9=39|35=D|49=AFUNDMGR|56=ABROKER|15=USD|59=0|10=091|";
    assert!(matches!(decoder.decode(&longer[..]), Err(DecodeError::Length)));
    assert!(matches!(decoder.decode(&shorter[..]), Err(DecodeError::Length)));
}

#[test]
fn malformed_header_is_invalid() {
    let decoder = new_decoder();
    assert!(matches!(
        decoder.decode(&b"|8=FIX.4.2|9=5|35=?|10=000|"[..]),
        Err(DecodeError::Invalid)
    ));
    assert!(matches!(
        decoder.decode(&b"8FIX.4.2|9=5|35=?|10=000|"[..]),
        Err(DecodeError::Invalid)
    ));
}

#[test]
fn default_config_uses_soh() {
    let config = Config::default();
    assert_eq!(config.separator(), 0x01);
    assert!(config.verify_checksum());
    let decoder = RawDecoder::new();
    let msg = b"8=?\x019=5\x0135=?\x0110=";
    let mut data = msg.to_vec();
    let sum: u32 = b"8=?\x019=5\x0135=?\x01".iter().map(|b| *b as u32).sum::<u32>() % 256;
    data.extend_from_slice(format!("{:03}\x01", sum).as_bytes());
    let frame = decoder.decode(&data).unwrap();
    assert_eq!(frame.payload(), b"35=?\x01");
}

#[test]
fn buffered_decoder_reports_bad_checksum() {
    let mut decoder = new_decoder().buffered();
    let msg = b"8=FIX.4.2|9=40|35=D|49=AFUNDMGR|56=ABROKER|15=USD|59=0|10=000|";
    let mut i = 0;
    let mut result = Ok(None);
    while i < msg.len() {
        let buf = decoder.supply_buffer();
        let n = buf.len();
        buf.clone_from_slice(&msg[i..i + n]);
        i += n;
        result = decoder.raw_frame().map(|f| f.map(|f| f.payload().len()));
    }
    assert_eq!(result, Err(DecodeError::CheckSum));
}

#[test]
fn buffered_decoder_poisoned_by_bad_header() {
    let mut decoder = new_decoder().buffered();
    let junk = b"|||||||||||||||||||||";
    let buf = decoder.supply_buffer();
    let n = buf.len();
    buf.clone_from_slice(&junk[..n]);
    assert_eq!(decoder.supply_buffer().len(), 0);
    assert_eq!(decoder.supply_buffer().len(), 0);
    decoder.clear();
    assert_eq!(decoder.supply_buffer().len(), 14);
}

#[test]
fn buffered_parse_poisons_on_invalid_header() {
    let mut decoder = new_decoder().buffered();
    let buf = decoder.supply_buffer();
    buf.clone_from_slice(b"==============");
    decoder.parse();
    assert_eq!(decoder.supply_buffer().len(), 0);
}

#[test]
fn wrong_leading_tags_are_invalid() {
    let decoder = new_decoder();
    assert!(matches!(
        decoder.decode(&b"9=?|9=5|35=?|10=184|"[..]),
        Err(DecodeError::Invalid)
    ));
    assert!(matches!(
        decoder.decode(&b"8=?|7=5|35=?|10=182|"[..]),
        Err(DecodeError::Invalid)
    ));
}

#[test]
fn wrong_trailer_fails_checksum() {
    let decoder = new_decoder();
    assert!(matches!(
        decoder.decode(&b"8=?|9=5|35=?|11=183|"[..]),
        Err(DecodeError::CheckSum)
    ));
    assert!(matches!(
        decoder.decode(&b"8=?|9=5|35=?|10=183;"[..]),
        Err(DecodeError::CheckSum)
    ));
}

#[test]
fn header_parse_needs_only_four_positions() {
    let info = fefix::HeaderInfo::parse(b"X=a|Y=5|", b'|').unwrap();
    assert_eq!(info.begin_string_range(), 2..3);
    assert_eq!(info.start_of_body(), 8);
    assert_eq!(info.body_range(), 8..13);
    assert!(fefix::HeaderInfo::parse(b"X=a|Y5|", b'|').is_err());
    assert!(matches!(
        new_decoder().decode(&b"X=?|Y=5|35=?|10=000|"[..]),
        Err(DecodeError::Invalid)
    ));
}
