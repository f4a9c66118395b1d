//! Round trips over every primitive and aggregate shape.
use mincode::{decode, encode, encoded_size, FloatEncoding, Schema, SizeLimit, Value};

fn the_same(element: Value, schema: Schema, float_enc: FloatEncoding) {
    let size = encoded_size(&element, float_enc).unwrap();
    let encoded = encode(&element, SizeLimit::Infinite, float_enc).unwrap();
    assert_eq!(size, encoded.len() as u64);
    let decoded = decode(&encoded, float_enc, &schema).unwrap();
    assert_eq!(element, decoded);
}

#[test]
fn test_numbers() {
    // unsigned positive
    the_same(Value::U8(5), Schema::U8, FloatEncoding::Normal);
    the_same(Value::U16(5), Schema::U16, FloatEncoding::Normal);
    the_same(Value::U32(5), Schema::U32, FloatEncoding::Normal);
    the_same(Value::U64(5), Schema::U64, FloatEncoding::Normal);
    the_same(Value::Usize(5), Schema::Usize, FloatEncoding::Normal);
    // signed positive
    the_same(Value::I8(5), Schema::I8, FloatEncoding::Normal);
    the_same(Value::I16(5), Schema::I16, FloatEncoding::Normal);
    the_same(Value::I32(5), Schema::I32, FloatEncoding::Normal);
    the_same(Value::I64(5), Schema::I64, FloatEncoding::Normal);
    the_same(Value::Isize(5), Schema::Isize, FloatEncoding::Normal);
    // signed negative
    the_same(Value::I8(-5), Schema::I8, FloatEncoding::Normal);
    the_same(Value::I16(-5), Schema::I16, FloatEncoding::Normal);
    the_same(Value::I32(-5), Schema::I32, FloatEncoding::Normal);
    the_same(Value::I64(-5), Schema::I64, FloatEncoding::Normal);
    the_same(Value::Isize(-5), Schema::Isize, FloatEncoding::Normal);
    // floating
    the_same(Value::F32((-100f32).to_bits()), Schema::F32, FloatEncoding::Normal);
    the_same(Value::F32(0f32.to_bits()), Schema::F32, FloatEncoding::Normal);
    the_same(Value::F32(5f32.to_bits()), Schema::F32, FloatEncoding::Normal);
    the_same(Value::F64((-100f64).to_bits()), Schema::F64, FloatEncoding::Normal);
    the_same(Value::F64(5f64.to_bits()), Schema::F64, FloatEncoding::Normal);
}

#[test]
fn test_number_extremes() {
    the_same(Value::U64(u64::MAX), Schema::U64, FloatEncoding::Normal);
    the_same(Value::U64(0), Schema::U64, FloatEncoding::Normal);
    the_same(Value::I64(i64::MIN), Schema::I64, FloatEncoding::Normal);
    the_same(Value::I64(i64::MAX), Schema::I64, FloatEncoding::Normal);
    the_same(Value::U32(u32::MAX), Schema::U32, FloatEncoding::Normal);
    the_same(Value::I16(i16::MIN), Schema::I16, FloatEncoding::Normal);
    the_same(Value::U8(255), Schema::U8, FloatEncoding::Normal);
    the_same(Value::I8(-128), Schema::I8, FloatEncoding::Normal);
}

#[test]
fn test_string() {
    the_same(Value::Str("".to_string()), Schema::Str, FloatEncoding::Normal);
    the_same(Value::Str("a".to_string()), Schema::Str, FloatEncoding::Normal);
}

#[test]
fn test_tuple() {
    the_same(
        Value::Record(vec![Value::Isize(1)]),
        Schema::Record(vec![Schema::Isize]),
        FloatEncoding::Normal,
    );
    the_same(
        Value::Record(vec![Value::Isize(1), Value::Isize(2), Value::Isize(3)]),
        Schema::Record(vec![Schema::Isize, Schema::Isize, Schema::Isize]),
        FloatEncoding::Normal,
    );
    the_same(
        Value::Record(vec![Value::Isize(1), Value::Str("foo".to_string()), Value::Unit]),
        Schema::Record(vec![Schema::Isize, Schema::Str, Schema::Unit]),
        FloatEncoding::Normal,
    );
}

#[test]
fn test_basic_struct() {
    the_same(
        Value::Record(vec![Value::Isize(-4), Value::Str("foo".to_string()), Value::Usize(10)]),
        Schema::Record(vec![Schema::Isize, Schema::Str, Schema::Usize]),
        FloatEncoding::Normal,
    );
}

#[test]
fn test_nested_struct() {
    let easy_schema = Schema::Record(vec![Schema::Isize, Schema::Str, Schema::Usize]);
    let easy_schema2 = Schema::Record(vec![Schema::Isize, Schema::Str, Schema::Usize]);
    let first = Value::Record(vec![
        Value::Isize(-1),
        Value::Str("foo".to_string()),
        Value::Usize(20),
    ]);
    let second = Value::Record(vec![
        Value::Isize(-100),
        Value::Str("bar".to_string()),
        Value::Usize(20),
    ]);
    the_same(
        Value::Record(vec![first, Value::Usize(100), second]),
        Schema::Record(vec![easy_schema, Schema::Usize, easy_schema2]),
        FloatEncoding::Normal,
    );
}

#[test]
fn test_struct_newtype() {
    the_same(
        Value::Record(vec![Value::Usize(5)]),
        Schema::Record(vec![Schema::Usize]),
        FloatEncoding::Normal,
    );
}

#[test]
fn test_struct_tuple() {
    the_same(
        Value::Record(vec![
            Value::Usize(5),
            Value::Str("hello".to_string()),
            Value::F32(3.2f32.to_bits()),
        ]),
        Schema::Record(vec![Schema::Usize, Schema::Str, Schema::F32]),
        FloatEncoding::Normal,
    );
}

#[test]
fn test_option() {
    the_same(
        Value::Opt(Some(Box::new(Value::Usize(5)))),
        Schema::Opt(Box::new(Schema::Usize)),
        FloatEncoding::Normal,
    );
    the_same(
        Value::Opt(Some(Box::new(Value::Str("foo bar".to_string())))),
        Schema::Opt(Box::new(Schema::Str)),
        FloatEncoding::Normal,
    );
    the_same(Value::Opt(None), Schema::Opt(Box::new(Schema::Usize)), FloatEncoding::Normal);
}

fn test_enum_schema() -> Schema {
    Schema::Enum(vec![
        vec![],
        vec![Schema::Usize],
        vec![Schema::Usize, Schema::Usize],
        vec![],
        vec![Schema::Usize, Schema::F32],
    ])
}

#[test]
fn test_enum() {
    the_same(Value::Enum(0, vec![]), test_enum_schema(), FloatEncoding::Normal);
    the_same(Value::Enum(1, vec![Value::Usize(4)]), test_enum_schema(), FloatEncoding::Normal);
    the_same(
        Value::Enum(2, vec![Value::Usize(4), Value::Usize(5)]),
        test_enum_schema(),
        FloatEncoding::Normal,
    );
    the_same(Value::Enum(3, vec![]), test_enum_schema(), FloatEncoding::Normal);
    the_same(
        Value::Enum(4, vec![Value::Usize(4), Value::F32(3.14159f32.to_bits())]),
        test_enum_schema(),
        FloatEncoding::Normal,
    );
    the_same(
        Value::List(vec![
            Value::Enum(0, vec![]),
            Value::Enum(1, vec![Value::Usize(5)]),
            Value::Enum(3, vec![]),
            Value::Enum(4, vec![Value::Usize(4), Value::F32(1.4f32.to_bits())]),
        ]),
        Schema::List(Box::new(test_enum_schema())),
        FloatEncoding::Normal,
    );
}

#[test]
fn test_vec() {
    let v: Vec<Value> = vec![];
    the_same(Value::List(v), Schema::List(Box::new(Schema::U8)), FloatEncoding::Normal);
    the_same(
        Value::List(vec![Value::U64(1)]),
        Schema::List(Box::new(Schema::U64)),
        FloatEncoding::Normal,
    );
    the_same(
        Value::List(vec![
            Value::U64(1),
            Value::U64(2),
            Value::U64(3),
            Value::U64(4),
            Value::U64(5),
            Value::U64(6),
        ]),
        Schema::List(Box::new(Schema::U64)),
        FloatEncoding::Normal,
    );
}

#[test]
fn test_map() {
    the_same(
        Value::Pairs(vec![
            (Value::U64(4), Value::Str("foo".to_string())),
            (Value::U64(0), Value::Str("bar".to_string())),
        ]),
        Schema::Pairs(Box::new(Schema::U64), Box::new(Schema::Str)),
        FloatEncoding::Normal,
    );
}

#[test]
fn test_bool() {
    the_same(Value::Bool(true), Schema::Bool, FloatEncoding::Normal);
    the_same(Value::Bool(false), Schema::Bool, FloatEncoding::Normal);
}

#[test]
fn test_unicode() {
    the_same(Value::Str("å".to_string()), Schema::Str, FloatEncoding::Normal);
    the_same(Value::Str("aåååååååa".to_string()), Schema::Str, FloatEncoding::Normal);
}

#[test]
fn test_fixed_size_array() {
    let mut first: Vec<Value> = Vec::new();
    for _ in 0..32 {
        first.push(Value::U32(24));
    }
    the_same(Value::List(first), Schema::List(Box::new(Schema::U32)), FloatEncoding::Normal);
    the_same(
        Value::List(vec![
            Value::U64(1),
            Value::U64(2),
            Value::U64(3),
            Value::U64(4),
            Value::U64(5),
            Value::U64(6),
            Value::U64(7),
            Value::U64(8),
        ]),
        Schema::List(Box::new(Schema::U64)),
        FloatEncoding::Normal,
    );
    let mut third: Vec<Value> = Vec::new();
    for _ in 0..19 {
        third.push(Value::U8(0));
    }
    the_same(Value::List(third), Schema::List(Box::new(Schema::U8)), FloatEncoding::Normal);
}

#[test]
fn encode_box() {
    // A box encodes exactly as its referent.
    the_same(Value::I32(5), Schema::I32, FloatEncoding::Normal);
}

#[test]
fn test_refbox_encode() {
    let large_object = Value::List(vec![
        Value::U32(1),
        Value::U32(2),
        Value::U32(3),
        Value::U32(4),
        Value::U32(5),
        Value::U32(6),
    ]);
    let large_map = Value::Pairs(vec![(Value::U32(1), Value::U32(2))]);
    let message_schema = || {
        Schema::Enum(vec![
            vec![Schema::List(Box::new(Schema::U32))],
            vec![Schema::Pairs(Box::new(Schema::U32), Box::new(Schema::U32))],
        ])
    };

    let encoded = encode(
        &Value::Enum(0, vec![large_object]),
        SizeLimit::Infinite,
        FloatEncoding::Normal,
    )
    .unwrap();
    let decoded = decode(&encoded, FloatEncoding::Normal, &message_schema()).unwrap();
    match decoded {
        Value::Enum(0, fields) => assert!(
            fields[0]
                == Value::List(vec![
                    Value::U32(1),
                    Value::U32(2),
                    Value::U32(3),
                    Value::U32(4),
                    Value::U32(5),
                    Value::U32(6),
                ])
        ),
        _ => assert!(false),
    }

    let encoded = encode(&Value::Enum(1, vec![large_map]), SizeLimit::Infinite, FloatEncoding::Normal)
        .unwrap();
    let decoded = decode(&encoded, FloatEncoding::Normal, &message_schema()).unwrap();
    match decoded {
        Value::Enum(1, fields) => {
            assert!(fields[0] == Value::Pairs(vec![(Value::U32(1), Value::U32(2))]))
        },
        _ => assert!(false),
    }
}

#[test]
fn test_strbox_encode() {
    let strx = "hello world";
    let encoded = encode(
        &Value::Str(strx.to_string()),
        SizeLimit::Infinite,
        FloatEncoding::Normal,
    )
    .unwrap();
    let decoded = decode(&encoded, FloatEncoding::Normal, &Schema::Str).unwrap();
    assert!(decoded == Value::Str(strx.to_string()));
}

#[test]
fn test_slicebox_encode() {
    let slice = vec![Value::U32(1), Value::U32(2), Value::U32(3), Value::U32(4), Value::U32(5)];
    let expected = Value::List(slice);
    let encoded = encode(&expected, SizeLimit::Infinite, FloatEncoding::Normal).unwrap();
    let decoded = decode(&encoded, FloatEncoding::Normal, &Schema::List(Box::new(Schema::U32)))
        .unwrap();
    assert!(decoded == expected);
}

#[test]
fn test_multi_strings_encode() {
    assert!(encode(
        &Value::Record(vec![
            Value::Str("foo".to_string()),
            Value::Str("bar".to_string()),
            Value::Str("baz".to_string()),
        ]),
        SizeLimit::Infinite,
        FloatEncoding::Normal,
    )
    .is_ok());
}

#[test]
fn test_proxy_encoded_size() {
    assert!(encoded_size(&Value::U8(0), FloatEncoding::Normal).unwrap() == 1);
    assert!(encoded_size(&Value::U16(0), FloatEncoding::Normal).unwrap() == 1);
    assert!(encoded_size(&Value::U32(0), FloatEncoding::Normal).unwrap() == 1);
    assert!(encoded_size(&Value::U64(0), FloatEncoding::Normal).unwrap() == 1);

    // a string's length travels as one varint
    assert!(encoded_size(&Value::Str("".to_string()), FloatEncoding::Normal).unwrap() == 1);
    assert!(encoded_size(&Value::Str("a".to_string()), FloatEncoding::Normal).unwrap() == 1 + 1);

    assert!(
        encoded_size(
            &Value::List(vec![Value::U32(0), Value::U32(127), Value::U32(2)]),
            FloatEncoding::Normal,
        )
        .unwrap()
            == 1 + 3 * 1
    );
    assert!(
        encoded_size(
            &Value::List(vec![Value::U32(0), Value::U32(128), Value::U32(2)]),
            FloatEncoding::Normal,
        )
        .unwrap()
            == 1 + 1 + 2 + 1
    );
}

#[test]
fn test_serialized_size() {
    assert!(encoded_size(&Value::U8(0), FloatEncoding::Normal).unwrap() == 1);
    assert!(encoded_size(&Value::U16(0), FloatEncoding::Normal).unwrap() == 1);
    assert!(encoded_size(&Value::U32(0), FloatEncoding::Normal).unwrap() == 1);
    assert!(encoded_size(&Value::U64(0), FloatEncoding::Normal).unwrap() == 1);

    assert!(encoded_size(&Value::Str("".to_string()), FloatEncoding::Normal).unwrap() == 1);
    assert!(encoded_size(&Value::Str("a".to_string()), FloatEncoding::Normal).unwrap() == 1 + 1);

    assert!(
        encoded_size(
            &Value::List(vec![Value::U32(0), Value::U32(127), Value::U32(2)]),
            FloatEncoding::Normal,
        )
        .unwrap()
            == 1 + 3 * 1
    );
    assert!(
        encoded_size(
            &Value::List(vec![Value::U32(0), Value::U32(128), Value::U32(2)]),
            FloatEncoding::Normal,
        )
        .unwrap()
            == 1 + 1 + 2 + 1
    );
}

#[test]
fn test_u8_same() {
    the_same(Value::U8(127), Schema::U8, FloatEncoding::Normal);
    the_same(Value::U8(128), Schema::U8, FloatEncoding::Normal);
}

#[test]
fn test_unit_roundtrip() {
    the_same(Value::Unit, Schema::Unit, FloatEncoding::Normal);
    let encoded = encode(&Value::Unit, SizeLimit::Infinite, FloatEncoding::Normal).unwrap();
    assert_eq!(encoded.len(), 0);
}

#[test]
fn test_refbox_serialize() {
    let large_object = Value::List(vec![
        Value::U32(1),
        Value::U32(2),
        Value::U32(3),
        Value::U32(4),
        Value::U32(5),
        Value::U32(6),
    ]);
    let large_map = Value::Pairs(vec![(Value::U32(1), Value::U32(2))]);
    let message_schema = || {
        Schema::Enum(vec![
            vec![Schema::List(Box::new(Schema::U32))],
            vec![Schema::Pairs(Box::new(Schema::U32), Box::new(Schema::U32))],
        ])
    };

    let serialized = encode(
        &Value::Enum(0, vec![large_object]),
        SizeLimit::Infinite,
        FloatEncoding::Normal,
    )
    .unwrap();
    let deserialized = decode(&serialized, FloatEncoding::Normal, &message_schema()).unwrap();
    match deserialized {
        Value::Enum(0, fields) => assert!(
            fields[0]
                == Value::List(vec![
                    Value::U32(1),
                    Value::U32(2),
                    Value::U32(3),
                    Value::U32(4),
                    Value::U32(5),
                    Value::U32(6),
                ])
        ),
        _ => assert!(false),
    }

    let serialized = encode(
        &Value::Enum(1, vec![large_map]),
        SizeLimit::Infinite,
        FloatEncoding::Normal,
    )
    .unwrap();
    let deserialized = decode(&serialized, FloatEncoding::Normal, &message_schema()).unwrap();
    match deserialized {
        Value::Enum(1, fields) => {
            assert!(fields[0] == Value::Pairs(vec![(Value::U32(1), Value::U32(2))]))
        },
        _ => assert!(false),
    }
}

#[test]
fn test_strbox_serialize() {
    let strx = "hello world";
    let serialized = encode(
        &Value::Str(strx.to_string()),
        SizeLimit::Infinite,
        FloatEncoding::Normal,
    )
    .unwrap();
    let deserialized = decode(&serialized, FloatEncoding::Normal, &Schema::Str).unwrap();
    assert!(deserialized == Value::Str(strx.to_string()));
}

#[test]
fn test_slicebox_serialize() {
    let slice = vec![Value::U32(1), Value::U32(2), Value::U32(3), Value::U32(4), Value::U32(5)];
    let expected = Value::List(slice);
    let serialized = encode(&expected, SizeLimit::Infinite, FloatEncoding::Normal).unwrap();
    let deserialized = decode(
        &serialized,
        FloatEncoding::Normal,
        &Schema::List(Box::new(Schema::U32)),
    )
    .unwrap();
    assert!(deserialized == expected);
}

#[test]
fn test_multi_strings_serialize() {
    assert!(encode(
        &Value::Record(vec![
            Value::Str("foo".to_string()),
            Value::Str("bar".to_string()),
            Value::Str("baz".to_string()),
        ]),
        SizeLimit::Infinite,
        FloatEncoding::Normal,
    )
    .is_ok());
}

#[test]
fn test_map_duplicate_keys() {
    // The wire carries pairs as written, even when keys repeat.
    the_same(
        Value::Pairs(vec![
            (Value::U64(1), Value::U64(10)),
            (Value::U64(1), Value::U64(20)),
        ]),
        Schema::Pairs(Box::new(Schema::U64), Box::new(Schema::U64)),
        FloatEncoding::Normal,
    );
}

#[test]
fn test_empty_aggregates() {
    the_same(Value::Record(vec![]), Schema::Record(vec![]), FloatEncoding::Normal);
    the_same(
        Value::Pairs(vec![]),
        Schema::Pairs(Box::new(Schema::U64), Box::new(Schema::Str)),
        FloatEncoding::Normal,
    );
}
