//! The encoding state machines.
//!
//! [`EncoderWriter`] consumes walker events and appends bytes to its sink;
//! [`SizeChecker`] consumes the same events and only counts bytes against a
//! cap, so a caller can reject an over-sized value before any byte is
//! produced.  Both must agree byte for byte with [`crate::value::enc_val`].
use vstd::prelude::*;
use vstd::utf8::encode_scalar;
use crate::varint::leb_u;
use crate::varint::leb_s;
use crate::varint::lemma_leb_u_len;
use crate::varint::lemma_leb_s_len;
use crate::varint::write_leb_u;
use crate::varint::write_leb_s;
use crate::varint::size_leb_u;
use crate::varint::size_leb_s;
use crate::floatenc::FloatEncoding;
use crate::floatenc::spec_float_sizes;
use crate::floatenc::float_sizes;
use crate::floatenc::f32_wire;
use crate::floatenc::f64_wire;
use crate::floatenc::f32_to_f16;
use crate::floatenc::f64_to_f16;
use crate::floatenc::f64_to_f32;
use crate::floatenc::lemma_f32_wire_len;
use crate::floatenc::lemma_f64_wire_len;
use crate::value::Value;
use crate::value::enc_val;
use crate::value::enc_vals;
use crate::value::enc_pair_vals;
use crate::value::enc_value;
use crate::value::view_values;
use crate::value::view_value_pairs;
use crate::value::lemma_view_values_len;
use crate::value::lemma_view_values_index;
use crate::value::lemma_view_value_pairs_len;
use crate::value::lemma_view_value_pairs_index;
use crate::value::lemma_enc_vals_snoc;
use crate::value::lemma_enc_pair_vals_snoc;
use crate::bitvec::bv_len;
use crate::bitvec::bv_to_bytes;
use crate::SizeLimit;

verus! {

broadcast use vstd::utf8::char_is_scalar;

/// An error that can be produced during encoding.
#[derive(Debug)]
pub enum EncodingError {
    /// An error originating from the underlying sink.
    IoError(std::io::Error),
    /// The value could not be encoded within the given size limit.  This
    /// error is reported before any bytes reach the sink.
    SizeLimit,
}

pub type EncodingResult<T> = Result<T, EncodingError>;

/// Wraps a sink failure as an encoding error.
pub fn wrap_io(err: std::io::Error) -> (r: EncodingError)
    ensures
        r == EncodingError::IoError(err),
{
    EncodingError::IoError(err)
}

impl EncodingError {
    /// A short description of the error, in the error's own words.
    pub fn description(&self) -> (r: &'static str)
        ensures
            self is SizeLimit ==> r@ == "the size limit for encoding has been reached"@,
    {
        match self {
            EncodingError::IoError(_) => "io error while encoding",
            EncodingError::SizeLimit => "the size limit for encoding has been reached",
        }
    }
}

/// The UTF-8 bytes of `c`.
pub fn char_utf8_bytes(c: char) -> (r: Vec<u8>)
    ensures
        r@ == encode_scalar(c as u32),
        1 <= r@.len() <= 4,
{
    let cp: u32 = c as u32;
    let mut out: Vec<u8> = Vec::new();
    if cp <= 0x7F {
        out.push((cp & 0x7F) as u8);
    } else if cp <= 0x7FF {
        out.push(0xC0 | ((cp >> 6) & 0x1F) as u8);
        out.push(0x80 | (cp & 0x3F) as u8);
    } else if cp <= 0xFFFF {
        out.push(0xE0 | ((cp >> 12) & 0x0F) as u8);
        out.push(0x80 | ((cp >> 6) & 0x3F) as u8);
        out.push(0x80 | (cp & 0x3F) as u8);
    } else {
        out.push(0xF0 | ((cp >> 18) & 0x7) as u8);
        out.push(0x80 | ((cp >> 12) & 0x3F) as u8);
        out.push(0x80 | ((cp >> 6) & 0x3F) as u8);
        out.push(0x80 | (cp & 0x3F) as u8);
    }
    proof {
        assert(out@ =~= encode_scalar(c as u32));
    }
    out
}

/// How many bytes the UTF-8 form of `c` takes.
pub fn char_utf8_len(c: char) -> (n: usize)
    ensures
        n == encode_scalar(c as u32).len(),
        1 <= n <= 4,
{
    let cp: u32 = c as u32;
    if cp <= 0x7F {
        1
    } else if cp <= 0x7FF {
        2
    } else if cp <= 0xFFFF {
        3
    } else {
        4
    }
}

/// An encoder that appends the wire form of each event to a byte sink.
pub struct EncoderWriter {
    out: Vec<u8>,
    float_enc: FloatEncoding,
}

impl EncoderWriter {
    /// The bytes written so far, including what the sink already held.
    pub closed spec fn sink(&self) -> Seq<u8> {
        self.out@
    }

    /// The float mode every float event is laid out under.
    pub closed spec fn mode(&self) -> FloatEncoding {
        self.float_enc
    }

    /// Starts encoding onto `w`, laying floats out per `float_enc`.
    pub fn new(w: Vec<u8>, float_enc: FloatEncoding) -> (r: EncoderWriter)
        ensures
            r.sink() == w@,
            r.mode() == float_enc,
    {
        EncoderWriter { out: w, float_enc }
    }

    /// Hands the sink back.
    pub fn into_inner(self) -> (r: Vec<u8>)
        ensures
            r@ == self.sink(),
    {
        self.out
    }

    fn write_unsigned(&mut self, v: u64) -> (r: EncodingResult<()>)
        ensures
            r is Ok,
            final(self).mode() == old(self).mode(),
            final(self).sink() == old(self).sink() + leb_u(v as nat),
    {
        write_leb_u(&mut self.out, v);
        Ok(())
    }

    fn write_signed(&mut self, v: i64) -> (r: EncodingResult<()>)
        ensures
            r is Ok,
            final(self).mode() == old(self).mode(),
            final(self).sink() == old(self).sink() + leb_s(v as int),
    {
        write_leb_s(&mut self.out, v);
        Ok(())
    }

    /// A unit value: no bytes.
    pub fn emit_nil(&mut self) -> (r: EncodingResult<()>)
        ensures
            r is Ok,
            final(self).mode() == old(self).mode(),
            final(self).sink() == old(self).sink(),
    {
        Ok(())
    }

    pub fn emit_usize(&mut self, v: usize) -> (r: EncodingResult<()>)
        ensures
            r is Ok,
            final(self).mode() == old(self).mode(),
            final(self).sink() == old(self).sink() + leb_u(v as nat),
    {
        self.write_unsigned(v as u64)
    }

    pub fn emit_u64(&mut self, v: u64) -> (r: EncodingResult<()>)
        ensures
            r is Ok,
            final(self).mode() == old(self).mode(),
            final(self).sink() == old(self).sink() + leb_u(v as nat),
    {
        self.write_unsigned(v)
    }

    pub fn emit_u32(&mut self, v: u32) -> (r: EncodingResult<()>)
        ensures
            r is Ok,
            final(self).mode() == old(self).mode(),
            final(self).sink() == old(self).sink() + leb_u(v as nat),
    {
        self.write_unsigned(v as u64)
    }

    pub fn emit_u16(&mut self, v: u16) -> (r: EncodingResult<()>)
        ensures
            r is Ok,
            final(self).mode() == old(self).mode(),
            final(self).sink() == old(self).sink() + leb_u(v as nat),
    {
        self.write_unsigned(v as u64)
    }

    /// An 8-bit value travels as one raw byte, not as a varint.
    pub fn emit_u8(&mut self, v: u8) -> (r: EncodingResult<()>)
        ensures
            r is Ok,
            final(self).mode() == old(self).mode(),
            final(self).sink() == old(self).sink() + seq![v],
    {
        self.out.push(v);
        Ok(())
    }

    pub fn emit_isize(&mut self, v: isize) -> (r: EncodingResult<()>)
        ensures
            r is Ok,
            final(self).mode() == old(self).mode(),
            final(self).sink() == old(self).sink() + leb_s(v as int),
    {
        self.write_signed(v as i64)
    }

    pub fn emit_i64(&mut self, v: i64) -> (r: EncodingResult<()>)
        ensures
            r is Ok,
            final(self).mode() == old(self).mode(),
            final(self).sink() == old(self).sink() + leb_s(v as int),
    {
        self.write_signed(v)
    }

    pub fn emit_i32(&mut self, v: i32) -> (r: EncodingResult<()>)
        ensures
            r is Ok,
            final(self).mode() == old(self).mode(),
            final(self).sink() == old(self).sink() + leb_s(v as int),
    {
        self.write_signed(v as i64)
    }

    pub fn emit_i16(&mut self, v: i16) -> (r: EncodingResult<()>)
        ensures
            r is Ok,
            final(self).mode() == old(self).mode(),
            final(self).sink() == old(self).sink() + leb_s(v as int),
    {
        self.write_signed(v as i64)
    }

    /// An 8-bit signed value travels as its raw two's-complement byte.
    pub fn emit_i8(&mut self, v: i8) -> (r: EncodingResult<()>)
        ensures
            r is Ok,
            final(self).mode() == old(self).mode(),
            final(self).sink() == old(self).sink() + seq![v as u8],
    {
        self.out.push(v as u8);
        Ok(())
    }

    /// A boolean travels as one byte: 1 for true, 0 for false.
    pub fn emit_bool(&mut self, v: bool) -> (r: EncodingResult<()>)
        ensures
            r is Ok,
            final(self).mode() == old(self).mode(),
            final(self).sink() == old(self).sink() + seq![
                if v {
                    1u8
                } else {
                    0u8
                },
            ],
    {
        self.out.push(if v {
            1
        } else {
            0
        });
        Ok(())
    }

    /// A 64-bit float pattern, laid out per the writer's mode.
    pub fn emit_f64(&mut self, bits: u64) -> (r: EncodingResult<()>)
        ensures
            r is Ok,
            final(self).mode() == old(self).mode(),
            final(self).sink() == old(self).sink() + f64_wire(old(self).mode(), bits),
    {
        match self.float_enc {
            FloatEncoding::Normal => {
                let mut bytes = vstd::bytes::u64_to_le_bytes(bits);
                self.out.append(&mut bytes);
            },
            FloatEncoding::F16 => {
                let mut bytes = vstd::bytes::u16_to_le_bytes(f64_to_f16(bits));
                self.out.append(&mut bytes);
            },
            FloatEncoding::F32 => {
                let mut bytes = vstd::bytes::u32_to_le_bytes(f64_to_f32(bits));
                self.out.append(&mut bytes);
            },
            FloatEncoding::HalvePrecision => {
                let mut bytes = vstd::bytes::u32_to_le_bytes(f64_to_f32(bits));
                self.out.append(&mut bytes);
            },
        }
        Ok(())
    }

    /// A 32-bit float pattern, laid out per the writer's mode.
    pub fn emit_f32(&mut self, bits: u32) -> (r: EncodingResult<()>)
        ensures
            r is Ok,
            final(self).mode() == old(self).mode(),
            final(self).sink() == old(self).sink() + f32_wire(old(self).mode(), bits),
    {
        match self.float_enc {
            FloatEncoding::Normal => {
                let mut bytes = vstd::bytes::u32_to_le_bytes(bits);
                self.out.append(&mut bytes);
            },
            FloatEncoding::F32 => {
                let mut bytes = vstd::bytes::u32_to_le_bytes(bits);
                self.out.append(&mut bytes);
            },
            FloatEncoding::F16 => {
                let mut bytes = vstd::bytes::u16_to_le_bytes(f32_to_f16(bits));
                self.out.append(&mut bytes);
            },
            FloatEncoding::HalvePrecision => {
                let mut bytes = vstd::bytes::u16_to_le_bytes(f32_to_f16(bits));
                self.out.append(&mut bytes);
            },
        }
        Ok(())
    }

    /// A character travels as its UTF-8 bytes, with no length prefix.
    pub fn emit_char(&mut self, v: char) -> (r: EncodingResult<()>)
        ensures
            r is Ok,
            final(self).mode() == old(self).mode(),
            final(self).sink() == old(self).sink() + encode_scalar(v as u32),
    {
        let mut bytes = char_utf8_bytes(v);
        self.out.append(&mut bytes);
        Ok(())
    }

    /// A string travels as its UTF-8 byte length, then the bytes.
    pub fn emit_str(&mut self, v: &str) -> (r: EncodingResult<()>)
        ensures
            r is Ok,
            final(self).mode() == old(self).mode(),
            final(self).sink() == old(self).sink() + leb_u(vstd::utf8::encode_utf8(v@).len())
                + vstd::utf8::encode_utf8(v@),
    {
        let bytes = v.as_bytes();
        proof {
            vstd::slice::axiom_spec_len(bytes);
        }
        let n = bytes.len();
        let _ = self.emit_usize(n);
        let mut copied = vstd::slice::slice_to_vec(bytes);
        self.out.append(&mut copied);
        Ok(())
    }

    /// Aggregate framing events.  None of these emits bytes except
    /// `emit_enum_variant` (the variant index as a varint), the option tag
    /// bytes, and the length prefixes of sequences and maps.
    pub fn emit_enum(&mut self) -> (r: EncodingResult<()>)
        ensures
            r is Ok,
            final(self).mode() == old(self).mode(),
            final(self).sink() == old(self).sink(),
    {
        Ok(())
    }

    pub fn emit_enum_variant(&mut self, v_id: usize) -> (r: EncodingResult<()>)
        ensures
            r is Ok,
            final(self).mode() == old(self).mode(),
            final(self).sink() == old(self).sink() + leb_u(v_id as nat),
    {
        self.write_unsigned(v_id as u64)
    }

    pub fn emit_enum_variant_arg(&mut self) -> (r: EncodingResult<()>)
        ensures
            r is Ok,
            final(self).mode() == old(self).mode(),
            final(self).sink() == old(self).sink(),
    {
        Ok(())
    }

    pub fn emit_enum_struct_variant(&mut self, v_id: usize) -> (r: EncodingResult<()>)
        ensures
            r is Ok,
            final(self).mode() == old(self).mode(),
            final(self).sink() == old(self).sink() + leb_u(v_id as nat),
    {
        self.emit_enum_variant(v_id)
    }

    pub fn emit_enum_struct_variant_field(&mut self) -> (r: EncodingResult<()>)
        ensures
            r is Ok,
            final(self).mode() == old(self).mode(),
            final(self).sink() == old(self).sink(),
    {
        Ok(())
    }

    pub fn emit_struct(&mut self) -> (r: EncodingResult<()>)
        ensures
            r is Ok,
            final(self).mode() == old(self).mode(),
            final(self).sink() == old(self).sink(),
    {
        Ok(())
    }

    pub fn emit_struct_field(&mut self) -> (r: EncodingResult<()>)
        ensures
            r is Ok,
            final(self).mode() == old(self).mode(),
            final(self).sink() == old(self).sink(),
    {
        Ok(())
    }

    pub fn emit_tuple(&mut self) -> (r: EncodingResult<()>)
        ensures
            r is Ok,
            final(self).mode() == old(self).mode(),
            final(self).sink() == old(self).sink(),
    {
        Ok(())
    }

    pub fn emit_tuple_arg(&mut self) -> (r: EncodingResult<()>)
        ensures
            r is Ok,
            final(self).mode() == old(self).mode(),
            final(self).sink() == old(self).sink(),
    {
        Ok(())
    }

    pub fn emit_tuple_struct(&mut self) -> (r: EncodingResult<()>)
        ensures
            r is Ok,
            final(self).mode() == old(self).mode(),
            final(self).sink() == old(self).sink(),
    {
        self.emit_tuple()
    }

    pub fn emit_tuple_struct_arg(&mut self) -> (r: EncodingResult<()>)
        ensures
            r is Ok,
            final(self).mode() == old(self).mode(),
            final(self).sink() == old(self).sink(),
    {
        self.emit_tuple_arg()
    }

    pub fn emit_option(&mut self) -> (r: EncodingResult<()>)
        ensures
            r is Ok,
            final(self).mode() == old(self).mode(),
            final(self).sink() == old(self).sink(),
    {
        Ok(())
    }

    /// An absent option: a single 0 byte.
    pub fn emit_option_none(&mut self) -> (r: EncodingResult<()>)
        ensures
            r is Ok,
            final(self).mode() == old(self).mode(),
            final(self).sink() == old(self).sink() + seq![0u8],
    {
        self.out.push(0);
        Ok(())
    }

    /// A present option: a single 1 byte, then the payload.
    pub fn emit_option_some(&mut self) -> (r: EncodingResult<()>)
        ensures
            r is Ok,
            final(self).mode() == old(self).mode(),
            final(self).sink() == old(self).sink() + seq![1u8],
    {
        self.out.push(1);
        Ok(())
    }

    /// A sequence opens with its length as a varint.
    pub fn emit_seq(&mut self, len: usize) -> (r: EncodingResult<()>)
        ensures
            r is Ok,
            final(self).mode() == old(self).mode(),
            final(self).sink() == old(self).sink() + leb_u(len as nat),
    {
        self.emit_usize(len)
    }

    pub fn emit_seq_elt(&mut self) -> (r: EncodingResult<()>)
        ensures
            r is Ok,
            final(self).mode() == old(self).mode(),
            final(self).sink() == old(self).sink(),
    {
        Ok(())
    }

    /// A map opens with its pair count as a varint.
    pub fn emit_map(&mut self, len: usize) -> (r: EncodingResult<()>)
        ensures
            r is Ok,
            final(self).mode() == old(self).mode(),
            final(self).sink() == old(self).sink() + leb_u(len as nat),
    {
        self.emit_usize(len)
    }

    pub fn emit_map_elt_key(&mut self) -> (r: EncodingResult<()>)
        ensures
            r is Ok,
            final(self).mode() == old(self).mode(),
            final(self).sink() == old(self).sink(),
    {
        Ok(())
    }

    pub fn emit_map_elt_val(&mut self) -> (r: EncodingResult<()>)
        ensures
            r is Ok,
            final(self).mode() == old(self).mode(),
            final(self).sink() == old(self).sink(),
    {
        Ok(())
    }
}

/// An encoder that only counts bytes against a cap, never producing them.
pub struct SizeChecker {
    /// The cap the running tally is held to.
    pub size_limit: u64,
    /// Bytes the events seen so far would have produced.
    pub written: u64,
    /// Wire width of a 32-bit float under the mode the checker was made with.
    pub float_size_f32: usize,
    /// Wire width of a 64-bit float under the mode the checker was made with.
    pub float_size_f64: usize,
}

impl SizeChecker {
    /// The wire width this checker charges for a 32-bit float.
    pub open spec fn f32_size(&self) -> nat {
        self.float_size_f32 as nat
    }

    /// The wire width this checker charges for a 64-bit float.
    pub open spec fn f64_size(&self) -> nat {
        self.float_size_f64 as nat
    }

    /// Starts a size check against `limit` under float mode `float_enc`.
    pub fn new(limit: u64, float_enc: FloatEncoding) -> (r: SizeChecker)
        ensures
            r.size_limit == limit,
            r.written == 0,
            r.f32_size() == spec_float_sizes(float_enc).0,
            r.f64_size() == spec_float_sizes(float_enc).1,
    {
        let sizes = float_sizes(float_enc);
        SizeChecker { size_limit: limit, written: 0, float_size_f32: sizes.0, float_size_f64: sizes.1 }
    }

    /// Charges `size` raw bytes against the cap.
    pub fn add_raw(&mut self, size: usize) -> (r: EncodingResult<()>)
        ensures
            final(self).size_limit == old(self).size_limit,
            final(self).f32_size() == old(self).f32_size(),
            final(self).f64_size() == old(self).f64_size(),
            r is Ok <==> old(self).written + size <= old(self).size_limit,
            r is Ok ==> final(self).written == old(self).written + size,
            r is Err && old(self).written + size <= u64::MAX ==> final(self).written == old(
                self,
            ).written + size,
            r is Err && old(self).written + size > u64::MAX ==> final(self).written == old(
                self,
            ).written,
            r is Err ==> r matches Err(EncodingError::SizeLimit),
    {
        match self.written.checked_add(size as u64) {
            Some(w) => {
                self.written = w;
                if w <= self.size_limit {
                    Ok(())
                } else {
                    Err(EncodingError::SizeLimit)
                }
            },
            None => Err(EncodingError::SizeLimit),
        }
    }

    /// Charges what the unsigned varint form of `t` takes.
    pub fn add_value_unsigned(&mut self, t: u64) -> (r: EncodingResult<()>)
        ensures
            final(self).size_limit == old(self).size_limit,
            final(self).f32_size() == old(self).f32_size(),
            final(self).f64_size() == old(self).f64_size(),
            r is Ok <==> old(self).written + leb_u(t as nat).len() <= old(self).size_limit,
            r is Ok ==> final(self).written == old(self).written + leb_u(t as nat).len(),
            r is Err ==> r matches Err(EncodingError::SizeLimit),
    {
        proof {
            lemma_leb_u_len(t as nat);
        }
        let n = size_leb_u(t);
        self.add_raw(n)
    }

    /// Charges what the signed varint form of `t` takes.
    pub fn add_value_signed(&mut self, t: i64) -> (r: EncodingResult<()>)
        ensures
            final(self).size_limit == old(self).size_limit,
            final(self).f32_size() == old(self).f32_size(),
            final(self).f64_size() == old(self).f64_size(),
            r is Ok <==> old(self).written + leb_s(t as int).len() <= old(self).size_limit,
            r is Ok ==> final(self).written == old(self).written + leb_s(t as int).len(),
            r is Err ==> r matches Err(EncodingError::SizeLimit),
    {
        proof {
            lemma_leb_s_len(t as int);
        }
        let n = size_leb_s(t);
        self.add_raw(n)
    }
}


/// Walks `value`, issuing one event per node, so the sink grows by exactly
/// the value's encoding.
#[verifier::loop_isolation(false)]
#[verifier::rlimit(100)]
pub fn encode_value(w: &mut EncoderWriter, value: &Value) -> (r: EncodingResult<()>)
    ensures
        r is Ok,
        final(w).mode() == old(w).mode(),
        final(w).sink() == old(w).sink() + enc_value(*value, old(w).mode()),
    decreases value,
{
    let ghost enc = w.mode();
    let ghost start = w.sink();
    match value {
        Value::Unit => {
            let _ = w.emit_nil();
        },
        Value::U8(x) => {
            let _ = w.emit_u8(*x);
        },
        Value::U16(x) => {
            let _ = w.emit_u16(*x);
        },
        Value::U32(x) => {
            let _ = w.emit_u32(*x);
        },
        Value::U64(x) => {
            let _ = w.emit_u64(*x);
        },
        Value::Usize(x) => {
            let _ = w.emit_usize(*x);
        },
        Value::I8(x) => {
            let _ = w.emit_i8(*x);
        },
        Value::I16(x) => {
            let _ = w.emit_i16(*x);
        },
        Value::I32(x) => {
            let _ = w.emit_i32(*x);
        },
        Value::I64(x) => {
            let _ = w.emit_i64(*x);
        },
        Value::Isize(x) => {
            let _ = w.emit_isize(*x);
        },
        Value::Bool(x) => {
            let _ = w.emit_bool(*x);
        },
        Value::Char(c) => {
            let _ = w.emit_char(*c);
        },
        Value::Str(s) => {
            let _ = w.emit_str(s.as_str());
        },
        Value::F32(b) => {
            let _ = w.emit_f32(*b);
        },
        Value::F64(b) => {
            let _ = w.emit_f64(*b);
        },
        Value::Opt(o) => {
            let _ = w.emit_option();
            match o {
                Option::None => {
                    let _ = w.emit_option_none();
                },
                Option::Some(b) => {
                    let _ = w.emit_option_some();
                    let _ = encode_value(w, &**b);
                },
            }
        },
        Value::List(es) => {
            let n = es.len();
            let _ = w.emit_seq(n);
            proof {
                lemma_view_values_len(es@);
            }
            let ghost vals = view_values(es@);
            let mut i: usize = 0;
            while i < n
                invariant
                    i <= n,
                    n == es@.len(),
                    vals == view_values(es@),
                    vals.len() == n,
                    w.mode() == enc,
                    w.sink() == start + leb_u(n as nat) + enc_vals(
                        vals.subrange(0, i as int),
                        enc,
                    ),
                decreases n - i,
            {
                let _ = w.emit_seq_elt();
                let _ = encode_value(w, &es[i]);
                proof {
                    lemma_view_values_index(es@, i as int);
                    lemma_enc_vals_snoc(vals, enc, i as int);
                }
                i = i + 1;
            }
            proof {
                assert(vals.subrange(0, n as int) =~= vals);
            }
        },
        Value::Pairs(ps) => {
            let n = ps.len();
            let _ = w.emit_map(n);
            proof {
                lemma_view_value_pairs_len(ps@);
            }
            let ghost vals = view_value_pairs(ps@);
            let mut i: usize = 0;
            while i < n
                invariant
                    i <= n,
                    n == ps@.len(),
                    vals == view_value_pairs(ps@),
                    vals.len() == n,
                    w.mode() == enc,
                    w.sink() == start + leb_u(n as nat) + enc_pair_vals(
                        vals.subrange(0, i as int),
                        enc,
                    ),
                decreases n - i,
            {
                let _ = w.emit_map_elt_key();
                let _ = encode_value(w, &ps[i].0);
                let _ = w.emit_map_elt_val();
                let _ = encode_value(w, &ps[i].1);
                proof {
                    lemma_view_value_pairs_index(ps@, i as int);
                    crate::value::lemma_enc_pair_vals_snoc(vals, enc, i as int);
                    assert(w.sink() =~= start + leb_u(n as nat) + enc_pair_vals(
                        vals.subrange(0, i + 1),
                        enc,
                    ));
                }
                i = i + 1;
            }
            proof {
                assert(vals.subrange(0, n as int) =~= vals);
            }
        },
        Value::Record(fs) => {
            let _ = w.emit_struct();
            let n = fs.len();
            proof {
                lemma_view_values_len(fs@);
            }
            let ghost vals = view_values(fs@);
            let mut i: usize = 0;
            while i < n
                invariant
                    i <= n,
                    n == fs@.len(),
                    vals == view_values(fs@),
                    vals.len() == n,
                    w.mode() == enc,
                    w.sink() == start + enc_vals(vals.subrange(0, i as int), enc),
                decreases n - i,
            {
                let _ = w.emit_struct_field();
                let _ = encode_value(w, &fs[i]);
                proof {
                    lemma_view_values_index(fs@, i as int);
                    lemma_enc_vals_snoc(vals, enc, i as int);
                }
                i = i + 1;
            }
            proof {
                assert(vals.subrange(0, n as int) =~= vals);
            }
        },
        Value::Enum(idx, fs) => {
            let _ = w.emit_enum();
            let _ = w.emit_enum_variant(*idx);
            let n = fs.len();
            proof {
                lemma_view_values_len(fs@);
            }
            let ghost vals = view_values(fs@);
            let mut i: usize = 0;
            while i < n
                invariant
                    i <= n,
                    n == fs@.len(),
                    vals == view_values(fs@),
                    vals.len() == n,
                    w.mode() == enc,
                    w.sink() == start + leb_u(*idx as nat) + enc_vals(
                        vals.subrange(0, i as int),
                        enc,
                    ),
                decreases n - i,
            {
                let _ = w.emit_enum_variant_arg();
                let _ = encode_value(w, &fs[i]);
                proof {
                    lemma_view_values_index(fs@, i as int);
                    lemma_enc_vals_snoc(vals, enc, i as int);
                }
                i = i + 1;
            }
            proof {
                assert(vals.subrange(0, n as int) =~= vals);
            }
        },
        Value::Bits(b) => {
            let n = bv_len(b.get());
            let _ = w.emit_usize(n);
            let bytes = bv_to_bytes(b.get());
            let m = bytes.len();
            let mut i: usize = 0;
            while i < m
                invariant
                    i <= m,
                    m == bytes@.len(),
                    bytes@ == crate::bitvec::pack_bits(b@),
                    n == b@.len(),
                    w.mode() == enc,
                    w.sink() == start + leb_u(n as nat) + bytes@.subrange(0, i as int),
                decreases m - i,
            {
                let _ = w.emit_u8(bytes[i]);
                proof {
                    assert(bytes@.subrange(0, i as int) + seq![bytes@[i as int]] =~= bytes@
                        .subrange(0, i + 1));
                }
                i = i + 1;
            }
            proof {
                assert(bytes@.subrange(0, m as int) =~= bytes@);
            }
        },
    }
    Ok(())
}

/// Walks `value` against a size checker made for mode `enc`: the check
/// passes exactly when the encoding fits the cap, and the tally then grows
/// by the encoded length.
#[verifier::loop_isolation(false)]
#[verifier::rlimit(100)]
pub(crate) fn size_value(
    sc: &mut SizeChecker,
    value: &Value,
    Ghost(enc): Ghost<FloatEncoding>,
) -> (r: EncodingResult<()>)
    requires
        old(sc).written <= old(sc).size_limit,
        old(sc).f32_size() == spec_float_sizes(enc).0,
        old(sc).f64_size() == spec_float_sizes(enc).1,
    ensures
        final(sc).size_limit == old(sc).size_limit,
        final(sc).f32_size() == old(sc).f32_size(),
        final(sc).f64_size() == old(sc).f64_size(),
        r is Ok <==> old(sc).written + enc_value(*value, enc).len() <= old(sc).size_limit,
        r is Ok ==> final(sc).written == old(sc).written + enc_value(*value, enc).len(),
        r is Err ==> r matches Err(EncodingError::SizeLimit),
    decreases value, 0nat,
{
    match value {
        Value::Unit => Ok(()),
        Value::U8(_) => sc.add_raw(1),
        Value::U16(x) => sc.add_value_unsigned(*x as u64),
        Value::U32(x) => sc.add_value_unsigned(*x as u64),
        Value::U64(x) => sc.add_value_unsigned(*x),
        Value::Usize(x) => sc.add_value_unsigned(*x as u64),
        Value::I8(_) => sc.add_raw(1),
        Value::I16(x) => sc.add_value_signed(*x as i64),
        Value::I32(x) => sc.add_value_signed(*x as i64),
        Value::I64(x) => sc.add_value_signed(*x),
        Value::Isize(x) => sc.add_value_signed(*x as i64),
        Value::Bool(_) => sc.add_raw(1),
        Value::Char(c) => {
            let n = char_utf8_len(*c);
            sc.add_raw(n)
        },
        Value::Str(s) => {
            let bytes = s.as_str().as_bytes();
            proof {
                vstd::slice::axiom_spec_len(bytes);
            }
            let n = bytes.len();
            let r1 = sc.add_value_unsigned(n as u64);
            match r1 {
                Ok(_) => sc.add_raw(n),
                Err(e) => Err(e),
            }
        },
        Value::F32(b) => {
            proof {
                lemma_f32_wire_len(enc, *b);
            }
            let n = sc.float_size_f32;
            sc.add_raw(n)
        },
        Value::F64(b) => {
            proof {
                lemma_f64_wire_len(enc, *b);
            }
            let n = sc.float_size_f64;
            sc.add_raw(n)
        },
        Value::Opt(o) => {
            match o {
                Option::None => sc.add_raw(1),
                Option::Some(b) => {
                    let r1 = sc.add_raw(1);
                    match r1 {
                        Ok(_) => size_value(sc, &**b, Ghost(enc)),
                        Err(e) => Err(e),
                    }
                },
            }
        },
        Value::List(es) => {
            proof {
                lemma_view_values_len(es@);
            }
            let n = es.len();
            let r1 = sc.add_value_unsigned(n as u64);
            match r1 {
                Ok(_) => size_values(sc, es, Ghost(enc)),
                Err(e) => Err(e),
            }
        },
        Value::Pairs(ps) => {
            proof {
                lemma_view_value_pairs_len(ps@);
            }
            let n = ps.len();
            let r1 = sc.add_value_unsigned(n as u64);
            match r1 {
                Ok(_) => size_pairs(sc, ps, Ghost(enc)),
                Err(e) => Err(e),
            }
        },
        Value::Record(fs) => {
            proof {
                lemma_view_values_len(fs@);
            }
            size_values(sc, fs, Ghost(enc))
        },
        Value::Enum(idx, fs) => {
            proof {
                lemma_view_values_len(fs@);
            }
            let r1 = sc.add_value_unsigned(*idx as u64);
            match r1 {
                Ok(_) => size_values(sc, fs, Ghost(enc)),
                Err(e) => Err(e),
            }
        },
        Value::Bits(b) => {
            let n = bv_len(b.get());
            let r1 = sc.add_value_unsigned(n as u64);
            match r1 {
                Ok(_) => {
                    let bytes_len = n / 8 + if n % 8 == 0 {
                        0
                    } else {
                        1
                    };
                    proof {
                        assert(bytes_len == (b@.len() + 7) / 8) by (nonlinear_arith)
                            requires
                                n == b@.len(),
                                bytes_len == n / 8 + if n % 8 == 0 {
                                    0int
                                } else {
                                    1int
                                },
                        ;
                        assert(crate::bitvec::pack_bits(b@).len() == (b@.len() + 7) / 8);
                    }
                    sc.add_raw(bytes_len)
                },
                Err(e) => Err(e),
            }
        },
    }
}

/// Charges a run of values, element by element.
#[verifier::loop_isolation(false)]
#[verifier::rlimit(100)]
fn size_values(sc: &mut SizeChecker, vs: &Vec<Value>, Ghost(enc): Ghost<FloatEncoding>) -> (r:
    EncodingResult<()>)
    requires
        old(sc).written <= old(sc).size_limit,
        old(sc).f32_size() == spec_float_sizes(enc).0,
        old(sc).f64_size() == spec_float_sizes(enc).1,
    ensures
        final(sc).size_limit == old(sc).size_limit,
        final(sc).f32_size() == old(sc).f32_size(),
        final(sc).f64_size() == old(sc).f64_size(),
        r is Ok <==> old(sc).written + enc_vals(view_values(vs@), enc).len() <= old(
            sc,
        ).size_limit,
        r is Ok ==> final(sc).written == old(sc).written + enc_vals(view_values(vs@), enc).len(),
        r is Err ==> r matches Err(EncodingError::SizeLimit),
    decreases vs, 1nat,
{
    let ghost start = sc.written as nat;
    let n = vs.len();
    proof {
        lemma_view_values_len(vs@);
    }
    let ghost vals = view_values(vs@);
    let mut i: usize = 0;
    while i < n
        invariant
            i <= n,
            n == vs@.len(),
            vals == view_values(vs@),
            vals.len() == n,
            sc.f32_size() == spec_float_sizes(enc).0,
            sc.f64_size() == spec_float_sizes(enc).1,
            sc.size_limit == old(sc).size_limit,
            sc.written == start + enc_vals(vals.subrange(0, i as int), enc).len(),
            sc.written <= sc.size_limit,
            start == old(sc).written,
        decreases n - i,
    {
        let r2 = size_value(sc, &vs[i], Ghost(enc));
        proof {
            lemma_view_values_index(vs@, i as int);
            lemma_enc_vals_snoc(vals, enc, i as int);
        }
        match r2 {
            Ok(_) => {},
            Err(e) => {
                proof {
                    crate::value::lemma_enc_vals_split(vals, enc, i + 1);
                }
                return Err(e);
            },
        }
        i = i + 1;
    }
    proof {
        assert(vals.subrange(0, n as int) =~= vals);
    }
    Ok(())
}

/// Charges a run of key-value pairs, key then value.
#[verifier::loop_isolation(false)]
#[verifier::rlimit(100)]
fn size_pairs(
    sc: &mut SizeChecker,
    ps: &Vec<(Value, Value)>,
    Ghost(enc): Ghost<FloatEncoding>,
) -> (r: EncodingResult<()>)
    requires
        old(sc).written <= old(sc).size_limit,
        old(sc).f32_size() == spec_float_sizes(enc).0,
        old(sc).f64_size() == spec_float_sizes(enc).1,
    ensures
        final(sc).size_limit == old(sc).size_limit,
        final(sc).f32_size() == old(sc).f32_size(),
        final(sc).f64_size() == old(sc).f64_size(),
        r is Ok <==> old(sc).written + enc_pair_vals(view_value_pairs(ps@), enc).len() <= old(
            sc,
        ).size_limit,
        r is Ok ==> final(sc).written == old(sc).written + enc_pair_vals(
            view_value_pairs(ps@),
            enc,
        ).len(),
        r is Err ==> r matches Err(EncodingError::SizeLimit),
    decreases ps, 1nat,
{
    let ghost start = sc.written as nat;
    let n = ps.len();
    proof {
        lemma_view_value_pairs_len(ps@);
    }
    let ghost vals = view_value_pairs(ps@);
    let mut i: usize = 0;
    while i < n
        invariant
            i <= n,
            n == ps@.len(),
            vals == view_value_pairs(ps@),
            vals.len() == n,
            sc.f32_size() == spec_float_sizes(enc).0,
            sc.f64_size() == spec_float_sizes(enc).1,
            sc.size_limit == old(sc).size_limit,
            sc.written == start + enc_pair_vals(vals.subrange(0, i as int), enc).len(),
            sc.written <= sc.size_limit,
            start == old(sc).written,
        decreases n - i,
    {
        let rk = size_value(sc, &ps[i].0, Ghost(enc));
        proof {
            lemma_view_value_pairs_index(ps@, i as int);
            lemma_enc_pair_vals_snoc(vals, enc, i as int);
        }
        match rk {
            Ok(_) => {},
            Err(e) => {
                proof {
                    crate::value::lemma_enc_pair_vals_split(vals, enc, i + 1);
                }
                return Err(e);
            },
        }
        let rv = size_value(sc, &ps[i].1, Ghost(enc));
        match rv {
            Ok(_) => {},
            Err(e) => {
                proof {
                    crate::value::lemma_enc_pair_vals_split(vals, enc, i + 1);
                }
                return Err(e);
            },
        }
        i = i + 1;
    }
    proof {
        assert(vals.subrange(0, n as int) =~= vals);
    }
    Ok(())
}

/// Encodes `value` into a fresh buffer under `float_enc`.  A bounded limit
/// is checked up front: an over-long value is rejected before any byte is
/// produced.
pub fn encode(value: &Value, size_limit: SizeLimit, float_enc: FloatEncoding) -> (r: Result<
    Vec<u8>,
    EncodingError,
>)
    ensures
        match size_limit {
            SizeLimit::Infinite => r is Ok,
            SizeLimit::Bounded(n) => r is Ok <==> enc_value(*value, float_enc).len() <= n,
        },
        r matches Ok(bytes) ==> bytes@ == enc_value(*value, float_enc),
        r is Err ==> r matches Err(EncodingError::SizeLimit),
{
    match size_limit {
        SizeLimit::Bounded(n) => {
            let mut sc = SizeChecker::new(n, float_enc);
            match size_value(&mut sc, value, Ghost(float_enc)) {
                Ok(_) => {},
                Err(_) => {
                    return Err(EncodingError::SizeLimit);
                },
            }
        },
        SizeLimit::Infinite => {},
    }
    let mut w = EncoderWriter::new(Vec::new(), float_enc);
    let _ = encode_value(&mut w, value);
    Ok(w.into_inner())
}

/// The exact number of bytes `encode` would produce for `value`, measured
/// without producing them.
pub fn encoded_size(value: &Value, float_enc: FloatEncoding) -> (r: Result<u64, EncodingError>)
    ensures
        r matches Ok(n) ==> n == enc_value(*value, float_enc).len(),
        r is Ok <==> enc_value(*value, float_enc).len() <= u64::MAX,
        r is Err ==> r matches Err(EncodingError::SizeLimit),
{
    let mut sc = SizeChecker::new(u64::MAX, float_enc);
    match size_value(&mut sc, value, Ghost(float_enc)) {
        Ok(_) => Ok(sc.written),
        Err(_) => Err(EncodingError::SizeLimit),
    }
}

} // verus!
