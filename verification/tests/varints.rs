//! Varint wire form: minimality, agreement with the reference coder, and
//! the documented byte patterns.
use mincode::{decode, encode, FloatEncoding, Schema, SizeLimit, Value};

#[test]
fn test_varint_patterns() {
    assert_eq!(
        encode(&Value::U32(127), SizeLimit::Infinite, FloatEncoding::Normal).unwrap(),
        vec![0x7F],
    );
    assert_eq!(
        encode(&Value::U32(128), SizeLimit::Infinite, FloatEncoding::Normal).unwrap(),
        vec![0x80, 0x01],
    );
    assert_eq!(
        encode(&Value::U64(0), SizeLimit::Infinite, FloatEncoding::Normal).unwrap(),
        vec![0x00],
    );
    assert_eq!(
        encode(&Value::I64(-1), SizeLimit::Infinite, FloatEncoding::Normal).unwrap(),
        vec![0x7F],
    );
    assert_eq!(
        encode(&Value::I64(64), SizeLimit::Infinite, FloatEncoding::Normal).unwrap(),
        vec![0xC0, 0x00],
    );
    assert_eq!(
        encode(&Value::I64(-64), SizeLimit::Infinite, FloatEncoding::Normal).unwrap(),
        vec![0x40],
    );
}

#[test]
fn test_varint_minimal_length() {
    // One byte per seven bits of value, never more.
    let cases: Vec<(u64, usize)> = vec![
        (0, 1),
        (1, 1),
        (127, 1),
        (128, 2),
        (16383, 2),
        (16384, 3),
        (u32::MAX as u64, 5),
        (u64::MAX, 10),
    ];
    for (v, expect) in cases {
        let bytes = encode(&Value::U64(v), SizeLimit::Infinite, FloatEncoding::Normal).unwrap();
        assert_eq!(bytes.len(), expect, "v = {v}");
    }
}

#[test]
fn test_varint_agrees_with_reference() {
    let mut values: Vec<u64> = vec![0, 1, 127, 128, 300, 16383, 16384, u32::MAX as u64, u64::MAX];
    let mut x: u64 = 3;
    for _ in 0..64 {
        values.push(x);
        x = x.wrapping_mul(31).wrapping_add(17);
    }
    for v in values {
        let ours = encode(&Value::U64(v), SizeLimit::Infinite, FloatEncoding::Normal).unwrap();
        let mut theirs: Vec<u8> = Vec::new();
        leb128::write::unsigned(&mut theirs, v).unwrap();
        assert_eq!(ours, theirs, "v = {v}");
        let back = leb128::read::unsigned(&mut &ours[..]).unwrap();
        assert_eq!(back, v);
        assert_eq!(
            decode(&theirs, FloatEncoding::Normal, &Schema::U64).unwrap(),
            Value::U64(v),
        );
    }
}

#[test]
fn test_signed_varint_agrees_with_reference() {
    let mut values: Vec<i64> = vec![0, 1, -1, 63, 64, -64, -65, 300, -300, i64::MIN, i64::MAX];
    let mut x: i64 = -3;
    for _ in 0..64 {
        values.push(x);
        x = x.wrapping_mul(-29).wrapping_add(11);
    }
    for v in values {
        let ours = encode(&Value::I64(v), SizeLimit::Infinite, FloatEncoding::Normal).unwrap();
        let mut theirs: Vec<u8> = Vec::new();
        leb128::write::signed(&mut theirs, v).unwrap();
        assert_eq!(ours, theirs, "v = {v}");
        let back = leb128::read::signed(&mut &ours[..]).unwrap();
        assert_eq!(back, v);
        assert_eq!(
            decode(&theirs, FloatEncoding::Normal, &Schema::I64).unwrap(),
            Value::I64(v),
        );
    }
}

#[test]
fn test_non_minimal_varint_accepted() {
    // The reader accepts padded encodings, as the reference reader does.
    assert_eq!(
        decode(&[0x80, 0x00][..], FloatEncoding::Normal, &Schema::U64).unwrap(),
        Value::U64(0),
    );
}

#[test]
fn test_signed_varint_minimal_length() {
    // One byte per seven binary digits, the sign bit included.
    let cases: Vec<(i64, usize)> = vec![
        (0, 1),
        (-1, 1),
        (63, 1),
        (64, 2),
        (-64, 1),
        (-65, 2),
        (8191, 2),
        (8192, 3),
        (-8192, 2),
        (-8193, 3),
        (i64::MAX, 10),
        (i64::MIN, 10),
    ];
    for (v, expect) in cases {
        let bytes = encode(&Value::I64(v), SizeLimit::Infinite, FloatEncoding::Normal).unwrap();
        assert_eq!(bytes.len(), expect, "v = {v}");
    }
}
