//! Size-limit enforcement and rejection of malformed streams.
use mincode::{
    decode, decode_from, encode, DecoderReader, DecodingError, DecodingResult, FloatEncoding,
    Schema, SizeLimit, Value,
};

fn isize_invalid_encoding<T>(res: DecodingResult<T>) {
    match res {
        Ok(_) => panic!("Expecting error"),
        Err(DecodingError::IoError(_)) => panic!("Expecting InvalidEncoding"),
        Err(DecodingError::SizeLimit) => panic!("Expecting InvalidEncoding"),
        Err(DecodingError::InvalidEncoding(_)) => {},
    }
}

#[test]
fn decoding_errors() {
    isize_invalid_encoding(decode(&[0xA][..], FloatEncoding::Normal, &Schema::Bool));
    isize_invalid_encoding(decode(&[1, 0xFF][..], FloatEncoding::Normal, &Schema::Str));
    // Out-of-bounds variant
    let two_variants = Schema::Enum(vec![vec![], vec![]]);
    isize_invalid_encoding(decode(&[5][..], FloatEncoding::Normal, &two_variants));
    isize_invalid_encoding(decode(
        &[5, 0][..],
        FloatEncoding::Normal,
        &Schema::Opt(Box::new(Schema::U8)),
    ));
}

#[test]
fn deserializing_errors() {
    isize_invalid_encoding(decode(&[0xA][..], FloatEncoding::Normal, &Schema::Bool));
    isize_invalid_encoding(decode(&[1, 0xFF][..], FloatEncoding::Normal, &Schema::Str));
    let two_variants = Schema::Enum(vec![vec![], vec![]]);
    isize_invalid_encoding(decode(&[5][..], FloatEncoding::Normal, &two_variants));
    isize_invalid_encoding(decode(
        &[5, 0][..],
        FloatEncoding::Normal,
        &Schema::Opt(Box::new(Schema::U8)),
    ));
}

#[test]
fn decoding_io_errors() {
    // An empty stream ends before any primitive does.
    match decode(&[][..], FloatEncoding::Normal, &Schema::Bool) {
        Err(DecodingError::IoError(_)) => {},
        _ => panic!("Expecting IoError"),
    }
    // A varint whose continuation chain never terminates.
    match decode(&[0x80, 0x80][..], FloatEncoding::Normal, &Schema::U64) {
        Err(DecodingError::IoError(_)) => {},
        _ => panic!("Expecting IoError"),
    }
}

#[test]
fn decoding_overflow_errors() {
    // Eleven continuation groups overflow a 64-bit target.
    let encoded = vec![0xFF, 0xFF, 0xFF, 0xFF, 0xFF, 0xFF, 0xFF, 0xFF, 0xFF, 0xFF, 0x01];
    match decode(&encoded[..], FloatEncoding::Normal, &Schema::U64) {
        Err(DecodingError::SizeLimit) => {},
        _ => panic!("Expecting SizeLimit"),
    }
    // A value wider than the requested 16-bit target.
    let encoded = encode(&Value::U32(0x10000), SizeLimit::Infinite, FloatEncoding::Normal)
        .unwrap();
    match decode(&encoded[..], FloatEncoding::Normal, &Schema::U16) {
        Err(DecodingError::SizeLimit) => {},
        _ => panic!("Expecting SizeLimit"),
    }
}

#[test]
fn too_big_decode() {
    let encoded = vec![128, 128, 128, 1];
    let decoded = decode_from(
        &encoded[..],
        SizeLimit::Bounded(3),
        FloatEncoding::Normal,
        &Schema::U32,
    );
    assert!(decoded.is_err());

    let encoded = vec![128, 128, 128, 1];
    let decoded = decode_from(
        &encoded[..],
        SizeLimit::Bounded(4),
        FloatEncoding::Normal,
        &Schema::U32,
    );
    assert!(decoded.is_ok());

    assert_eq!(decoded.unwrap(), Value::U32(1 << (7 * 3)));
}

#[test]
fn too_big_deserialize() {
    let serialized = vec![128, 128, 128, 1];
    let deserialized = decode_from(
        &serialized[..],
        SizeLimit::Bounded(3),
        FloatEncoding::Normal,
        &Schema::U32,
    );
    assert!(deserialized.is_err());

    let serialized = vec![128, 128, 128, 1];
    let deserialized = decode_from(
        &serialized[..],
        SizeLimit::Bounded(4),
        FloatEncoding::Normal,
        &Schema::U32,
    );
    assert!(deserialized.is_ok());

    assert_eq!(deserialized.unwrap(), Value::U32(1 << (7 * 3)));
}

#[test]
fn char_serialization() {
    let chars = "Aa\0☺♪";
    for c in chars.chars() {
        let encoded = encode(&Value::Char(c), SizeLimit::Bounded(4), FloatEncoding::Normal)
            .expect("serializing char failed");
        let decoded = decode(&encoded, FloatEncoding::Normal, &Schema::Char)
            .expect("deserializing failed");
        assert_eq!(decoded, Value::Char(c));
    }
}

#[test]
fn too_big_char_decode() {
    let encoded = vec![0x41];
    let decoded = decode_from(
        &encoded[..],
        SizeLimit::Bounded(1),
        FloatEncoding::Normal,
        &Schema::Char,
    );
    assert!(decoded.is_ok());
    assert_eq!(decoded.unwrap(), Value::Char('A'));
}

#[test]
fn too_big_char_deserialize() {
    let serialized = vec![0x41];
    let deserialized = decode_from(
        &serialized[..],
        SizeLimit::Bounded(1),
        FloatEncoding::Normal,
        &Schema::Char,
    );
    assert!(deserialized.is_ok());
    assert_eq!(deserialized.unwrap(), Value::Char('A'));
}

#[test]
fn too_big_encode() {
    assert!(encode(&Value::U32(127), SizeLimit::Bounded(1), FloatEncoding::Normal).is_ok());
    assert!(encode(&Value::U32(128), SizeLimit::Bounded(1), FloatEncoding::Normal).is_err());
    assert!(encode(&Value::U32(0), SizeLimit::Bounded(4), FloatEncoding::Normal).is_ok());

    assert!(encode(
        &Value::Str("abcde".to_string()),
        SizeLimit::Bounded(1 + 4),
        FloatEncoding::Normal,
    )
    .is_err());
    assert!(encode(
        &Value::Str("abcde".to_string()),
        SizeLimit::Bounded(1 + 5),
        FloatEncoding::Normal,
    )
    .is_ok());
}

#[test]
fn too_big_serialize() {
    assert!(encode(&Value::U32(127), SizeLimit::Bounded(1), FloatEncoding::Normal).is_ok());
    assert!(encode(&Value::U32(128), SizeLimit::Bounded(1), FloatEncoding::Normal).is_err());
    assert!(encode(&Value::U32(0), SizeLimit::Bounded(4), FloatEncoding::Normal).is_ok());

    assert!(encode(
        &Value::Str("abcde".to_string()),
        SizeLimit::Bounded(1 + 4),
        FloatEncoding::Normal,
    )
    .is_err());
    assert!(encode(
        &Value::Str("abcde".to_string()),
        SizeLimit::Bounded(1 + 5),
        FloatEncoding::Normal,
    )
    .is_ok());
}

#[test]
fn test_oom_protection() {
    // A stream claiming a sequence of 2^64 - 1 bytes, followed by a single
    // byte, must hit the cap instead of allocating.
    let fake = Value::Record(vec![Value::U64(0xffffffffffffffffu64), Value::U8(1)]);
    let x = encode(&fake, SizeLimit::Bounded(11), FloatEncoding::Normal).unwrap();
    let y = decode_from(
        &x[..],
        SizeLimit::Bounded(11),
        FloatEncoding::Normal,
        &Schema::List(Box::new(Schema::U8)),
    );
    match y {
        Err(DecodingError::SizeLimit) => (),
        _ => panic!("error SizeLimit expected"),
    }
}

#[test]
fn test_size_limit_rejects_exactly() {
    // One byte under the exact size fails; the exact size succeeds.
    let v = Value::Record(vec![
        Value::Str("hello".to_string()),
        Value::U32(300),
        Value::Bool(true),
    ]);
    let exact = mincode::encoded_size(&v, FloatEncoding::Normal).unwrap();
    assert!(encode(&v, SizeLimit::Bounded(exact - 1), FloatEncoding::Normal).is_err());
    let bytes = encode(&v, SizeLimit::Bounded(exact), FloatEncoding::Normal).unwrap();
    assert_eq!(bytes.len() as u64, exact);
    // And the bounded reader mirrors it.
    let schema = Schema::Record(vec![Schema::Str, Schema::U32, Schema::Bool]);
    match decode_from(&bytes[..], SizeLimit::Bounded(exact - 1), FloatEncoding::Normal, &schema) {
        Err(DecodingError::SizeLimit) => {},
        _ => panic!("Expecting SizeLimit"),
    }
    assert!(decode_from(&bytes[..], SizeLimit::Bounded(exact), FloatEncoding::Normal, &schema)
        .is_ok());
}

fn expect_desc<T>(res: DecodingResult<T>, desc: &str) {
    match res {
        Err(DecodingError::InvalidEncoding(ib)) => assert_eq!(ib.desc, desc),
        _ => panic!("Expecting InvalidEncoding with desc {desc:?}"),
    }
}

#[test]
fn decoding_error_descriptions() {
    expect_desc(
        decode(&[0xA][..], FloatEncoding::Normal, &Schema::Bool),
        "invalid u8 when decoding bool",
    );
    expect_desc(
        decode(&[5, 0][..], FloatEncoding::Normal, &Schema::Opt(Box::new(Schema::U8))),
        "invalid tag when decoding Option",
    );
    expect_desc(
        decode(&[5][..], FloatEncoding::Normal, &Schema::Enum(vec![vec![], vec![]])),
        "out of bounds tag when reading enum variant",
    );
    expect_desc(
        decode(&[1, 0xFF][..], FloatEncoding::Normal, &Schema::Str),
        "error while decoding utf8 string",
    );
    expect_desc(
        decode(&[0x80][..], FloatEncoding::Normal, &Schema::Char),
        "Invalid char encoding",
    );
}

#[test]
fn error_hook_carries_message() {
    let mut reader = DecoderReader::new(Vec::new(), SizeLimit::Infinite, FloatEncoding::Normal);
    match reader.error("wrong field value") {
        DecodingError::InvalidEncoding(ib) => {
            assert_eq!(ib.desc, "user-induced error");
            assert_eq!(ib.detail, Some("wrong field value".to_string()));
        },
        _ => panic!("Expecting InvalidEncoding"),
    }
    assert_eq!(reader.bytes_read(), 0);
}
