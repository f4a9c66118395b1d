//! Float wire modes: lossless round trips for representable values and
//! agreement of the bit-level conversions with the reference crates.
use mincode::{decode, encode, encoded_size, FloatEncoding, Schema, SizeLimit, Value};

fn the_same_float(element: Value, schema: Schema, float_enc: FloatEncoding) {
    let size = encoded_size(&element, float_enc).unwrap();
    let encoded = encode(&element, SizeLimit::Infinite, float_enc).unwrap();
    assert_eq!(size, encoded.len() as u64);
    let decoded = decode(&encoded, float_enc, &schema).unwrap();
    assert_eq!(element, decoded);
}

fn f32_vec(values: &[f32]) -> Value {
    Value::List(values.iter().map(|v| Value::F32(v.to_bits())).collect())
}

#[test]
fn test_float_enc_same() {
    let values = [0.0f32, 2., 4., 6., 8., 10.];
    let schema = || Schema::List(Box::new(Schema::F32));
    the_same_float(f32_vec(&values), schema(), FloatEncoding::Normal);
    the_same_float(f32_vec(&values), schema(), FloatEncoding::F16);
    the_same_float(f32_vec(&values), schema(), FloatEncoding::F32);
    the_same_float(f32_vec(&values), schema(), FloatEncoding::HalvePrecision);

    for i in 0..1000 {
        let v = Value::F32((i as f32).to_bits());
        the_same_float(v.clone_value(), Schema::F32, FloatEncoding::Normal);
        the_same_float(v.clone_value(), Schema::F32, FloatEncoding::F16);
        the_same_float(v.clone_value(), Schema::F32, FloatEncoding::F32);
        the_same_float(v, Schema::F32, FloatEncoding::HalvePrecision);
    }

    for i in 0..1000 {
        let v = Value::F64((i as f64).to_bits());
        the_same_float(v.clone_value(), Schema::F64, FloatEncoding::Normal);
        the_same_float(v.clone_value(), Schema::F64, FloatEncoding::F16);
        the_same_float(v.clone_value(), Schema::F64, FloatEncoding::F32);
        the_same_float(v, Schema::F64, FloatEncoding::HalvePrecision);
    }
}

trait CloneValue {
    fn clone_value(&self) -> Value;
}

impl CloneValue for Value {
    fn clone_value(&self) -> Value {
        match self {
            Value::F32(b) => Value::F32(*b),
            Value::F64(b) => Value::F64(*b),
            _ => panic!("only float values are cloned here"),
        }
    }
}

#[test]
fn test_half_widening_agrees() {
    // Every binary16 pattern widens to the same binary32 pattern the half
    // crate produces.
    for h in 0..=0xFFFFu32 {
        let h = h as u16;
        let ours = mincode::floatenc::f16_to_f32(h);
        let theirs = f32::from(half::f16::from_bits(h)).to_bits();
        if half::f16::from_bits(h).is_nan() {
            assert!(f32::from_bits(ours).is_nan());
        } else {
            assert_eq!(ours, theirs, "h = {:#x}", h);
        }
        let ours64 = mincode::floatenc::f16_to_f64(h);
        let theirs64 = f64::from(half::f16::from_bits(h)).to_bits();
        if half::f16::from_bits(h).is_nan() {
            assert!(f64::from_bits(ours64).is_nan());
        } else {
            assert_eq!(ours64, theirs64, "h = {:#x}", h);
        }
    }
}

#[test]
fn test_half_narrowing_agrees() {
    let mut samples: Vec<f32> = vec![
        0.0,
        -0.0,
        1.0,
        -1.0,
        0.25,
        4.0,
        10.0,
        20.5,
        65504.0,
        65520.0,
        100000.0,
        -65504.0,
        1e-8,
        6.104e-5,
        6.0e-5,
        5.96e-8,
        2.98e-8,
        2.0e-8,
        f32::INFINITY,
        f32::NEG_INFINITY,
        f32::MIN_POSITIVE,
        1.00048828125,
        1.0009765625,
        1.0004883,
        0.333333333,
        3.14159265,
    ];
    for i in 0..3000 {
        samples.push(i as f32 * 0.37);
        samples.push(-(i as f32) * 1.7e-7);
    }
    for v in samples {
        let ours = mincode::floatenc::f32_to_f16(v.to_bits());
        let theirs = half::f16::from_f32(v).to_bits();
        assert_eq!(ours, theirs, "v = {v}");
        let ours64 = mincode::floatenc::f64_to_f16((v as f64).to_bits());
        let theirs64 = half::f16::from_f64(v as f64).to_bits();
        assert_eq!(ours64, theirs64, "v = {v}");
    }
}

#[test]
fn test_std_casts_agree() {
    let samples: Vec<f64> = vec![
        0.0,
        -0.0,
        1.0,
        -1.0,
        0.1,
        1.0000000596046448,
        1.0000000596046449,
        3.141592653589793,
        1e300,
        -1e300,
        1e-300,
        4.9e-324,
        1.401298464324817e-45,
        7.006492321624085e-46,
        f64::INFINITY,
        f64::NEG_INFINITY,
        f64::MIN_POSITIVE,
        3.4028235677973366e38,
        3.402823567797337e38,
    ];
    for v in samples {
        let ours = mincode::floatenc::f64_to_f32(v.to_bits());
        let theirs = (v as f32).to_bits();
        assert_eq!(ours, theirs, "v = {v}");
    }
    for i in 0..5000u32 {
        let v = f64::from_bits(0x3FF0000000000000u64 + (i as u64) * 0x10000071);
        let ours = mincode::floatenc::f64_to_f32(v.to_bits());
        let theirs = (v as f32).to_bits();
        assert_eq!(ours, theirs, "v = {v}");
        let w = f32::from_bits(i * 0x9F0F1);
        if !w.is_nan() {
            assert_eq!(mincode::floatenc::f32_to_f64(w.to_bits()), (w as f64).to_bits());
        }
    }
}

#[test]
fn test_world_snapshot_f16_size() {
    // A record of one varint id and two two-field float records under the
    // half-precision mode: 1 + 1 + 4 * 2 bytes.
    let world = Value::Record(vec![
        Value::U32(127),
        Value::List(vec![
            Value::Record(vec![
                Value::F32(0.25f32.to_bits()),
                Value::F32(4.0f32.to_bits()),
            ]),
            Value::Record(vec![
                Value::F32(10.0f32.to_bits()),
                Value::F32(20.5f32.to_bits()),
            ]),
        ]),
    ]);
    let encoded = encode(&world, SizeLimit::Infinite, FloatEncoding::F16).unwrap();
    assert_eq!(encoded.len(), 10);
    let schema = Schema::Record(vec![
        Schema::U32,
        Schema::List(Box::new(Schema::Record(vec![Schema::F32, Schema::F32]))),
    ]);
    let decoded = decode(&encoded, FloatEncoding::F16, &schema).unwrap();
    assert_eq!(decoded, world);
}
