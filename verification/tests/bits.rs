//! Bit-sequence framing: length prefix plus minimal packed bytes.
use bit_vec::BitVec;
use mincode::{decode, encode, encoded_size, BVec, FloatEncoding, Schema, SizeLimit, Value};

fn the_same_bits(element: Value, schema: Schema, float_enc: FloatEncoding) {
    let size = encoded_size(&element, float_enc).unwrap();
    let encoded = encode(&element, SizeLimit::Infinite, float_enc).unwrap();
    assert_eq!(size, encoded.len() as u64);
    let decoded = decode(&encoded, float_enc, &schema).unwrap();
    assert_eq!(element, decoded);
}

#[test]
fn test_bitvec_same() {
    let bitvec = BVec::new(BitVec::from_fn(127, |i| i % 2 == 0));
    let packed: Vec<Value> = bitvec.get().to_bytes().into_iter().map(Value::U8).collect();
    the_same_bits(Value::List(packed), Schema::List(Box::new(Schema::U8)), FloatEncoding::Normal);
    the_same_bits(Value::Bits(bitvec), Schema::Bits, FloatEncoding::Normal);
    the_same_bits(
        Value::Bits(BVec::new(BitVec::from_fn(128, |i| i % 2 == 0))),
        Schema::Bits,
        FloatEncoding::Normal,
    );
    the_same_bits(
        Value::Bits(BVec::new(BitVec::from_fn(254, |i| i % 3 == 0))),
        Schema::Bits,
        FloatEncoding::Normal,
    );
    the_same_bits(
        Value::Bits(BVec::new(BitVec::from_fn(255, |i| i % 4 == 0))),
        Schema::Bits,
        FloatEncoding::Normal,
    );
    let mut bit_len = 0;
    while bit_len < 1000 {
        let bitvec = BVec::new(BitVec::from_fn(bit_len, |i| i % 2 == 0));
        the_same_bits(Value::Bits(bitvec), Schema::Bits, FloatEncoding::Normal);
        let bitvec = BVec::new(BitVec::from_fn(bit_len, |i| i % 3 == 0));
        the_same_bits(Value::Bits(bitvec), Schema::Bits, FloatEncoding::Normal);
        let bitvec = BVec::new(BitVec::from_fn(bit_len, |i| i % 5 == 0));
        the_same_bits(Value::Bits(bitvec), Schema::Bits, FloatEncoding::Normal);
        bit_len += 3;
    }
}

#[test]
fn test_bitvec_min_len() {
    let mut bit_len = 0;
    while bit_len < 1000 {
        let bitvec = BVec::new(BitVec::from_fn(bit_len, |i| i % 3 == 0));
        let byte_len_of_encoded_len = encode(
            &Value::Usize(bitvec.get().len()),
            SizeLimit::Infinite,
            FloatEncoding::Normal,
        )
        .unwrap()
        .len();
        let byte_len_of_vec = if bit_len % 8 == 0 {
            bit_len / 8
        } else {
            bit_len / 8 + 1
        };
        println!("{}, {}, {}", bit_len, byte_len_of_encoded_len, byte_len_of_vec);
        let encoded = encode(&Value::Bits(bitvec), SizeLimit::Infinite, FloatEncoding::Normal)
            .unwrap();
        assert_eq!(encoded.len(), byte_len_of_encoded_len + byte_len_of_vec);
        bit_len += 3;
    }
}

#[test]
fn test_bitset_frame_bytes() {
    // 126 alternating bits: one length byte plus sixteen packed bytes.
    let bits = BVec::new(BitVec::from_fn(126, |i| i % 2 == 0));
    let encoded = encode(&Value::Bits(bits), SizeLimit::Infinite, FloatEncoding::Normal).unwrap();
    assert_eq!(encoded.len(), 17);
    assert_eq!(encoded[0], 126);
}

#[test]
fn test_bitset_trailing_bits_zeroed() {
    // Five set bits: the packed byte keeps them in the high positions.
    let bits = BVec::new(BitVec::from_fn(5, |_| true));
    let encoded = encode(&Value::Bits(bits), SizeLimit::Infinite, FloatEncoding::Normal).unwrap();
    assert_eq!(encoded, vec![5u8, 0b1111_1000]);
}
