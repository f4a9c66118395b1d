//! The decoding state machine.
//!
//! [`DecoderReader`] consumes bytes from an in-memory stream and answers
//! typed requests, one per wire primitive.  Every consumed byte is counted
//! against the size limit.  Each request's outcome is pinned down by a
//! `step_*` specification function over the stream, the position and the
//! running tally.
use vstd::prelude::*;
use vstd::utf8::valid_first_scalar;
use vstd::utf8::decode_first_scalar;
use vstd::utf8::length_of_first_scalar;
use vstd::utf8::valid_utf8;
use vstd::utf8::decode_utf8;
use vstd::utf8::is_scalar;
use vstd::string::StringSliceAdditionalSpecFns;
use crate::varint::dec_leb_u_at;
use crate::varint::dec_leb_s_at;
use crate::varint::ULebRead;
use crate::varint::SLebRead;
use crate::varint::read_leb_u;
use crate::varint::read_leb_s;
use crate::varint::LebReadErr;
use crate::floatenc::FloatEncoding;
use crate::floatenc::spec_float_sizes;
use crate::floatenc::f16_to_f32_bits;
use crate::floatenc::f16_to_f64_bits;
use crate::floatenc::f32_to_f64_bits;
use crate::floatenc::f16_to_f32;
use crate::floatenc::f16_to_f64;
use crate::floatenc::f32_to_f64;
use crate::SizeLimit;
use crate::value::Val;
use crate::value::Value;
use crate::value::Schema;
use crate::value::view_value;
use crate::value::view_values;
use crate::value::view_value_pairs;

verus! {

/// The stream violated the wire grammar.  Carries a static description
/// and an optional detail string.
#[derive(Eq, PartialEq, Clone, Debug)]
pub struct InvalidEncoding {
    pub desc: &'static str,
    pub detail: Option<String>,
}

impl InvalidEncoding {
    /// The static description.
    pub fn description(&self) -> (r: &'static str)
        ensures
            r == self.desc,
    {
        self.desc
    }
}

/// An error that can be produced during decoding.
///
/// After any error the reader's position is meaningless; the caller must
/// discard any assumption about the source.
#[derive(Debug)]
pub enum DecodingError {
    /// The underlying source failed, or ended before the value did.
    IoError(std::io::Error),
    /// The bytes read do not form a valid encoding of the expected shape.
    /// A stream produced by `encode` never causes this.
    InvalidEncoding(InvalidEncoding),
    /// The size limit was exhausted, a varint overflowed the width it was
    /// read at, or the byte tally itself overflowed.
    SizeLimit,
}

pub type DecodingResult<T> = Result<T, DecodingError>;

impl DecodingError {
    /// A short description of the error, in the error's own words.
    pub fn description(&self) -> (r: &'static str)
        ensures
            self matches DecodingError::InvalidEncoding(ib) ==> r == ib.desc,
            self is SizeLimit ==> r@ == "the size limit for decoding has been reached"@,
    {
        match self {
            DecodingError::IoError(_) => "io error while decoding",
            DecodingError::InvalidEncoding(ib) => ib.desc,
            DecodingError::SizeLimit => "the size limit for decoding has been reached",
        }
    }
}

impl From<std::io::Error> for DecodingError {
    fn from(err: std::io::Error) -> (r: DecodingError) {
        DecodingError::IoError(err)
    }
}

impl vstd::std_specs::convert::FromSpecImpl<std::io::Error> for DecodingError {
    open spec fn obeys_from_spec() -> bool {
        true
    }

    open spec fn from_spec(err: std::io::Error) -> DecodingError {
        DecodingError::IoError(err)
    }
}

/// The three kinds of decoding failure, as the specification names them.
pub enum DecErrKind {
    Io,
    Invalid,
    Size,
}

/// The kind of a decoding error.
pub open spec fn err_kind(e: DecodingError) -> DecErrKind {
    match e {
        DecodingError::IoError(_) => DecErrKind::Io,
        DecodingError::InvalidEncoding(_) => DecErrKind::Invalid,
        DecodingError::SizeLimit => DecErrKind::Size,
    }
}

/// What one typed read request yields: a value with the position and
/// tally after it, or a failure kind.
pub enum Step<T> {
    Good { v: T, end: int, tally: nat },
    Fail { k: DecErrKind },
}

/// Whether the byte meter admits `count` more bytes: the tally must not
/// overflow its 64-bit counter nor pass a bounded cap.
pub open spec fn meter_ok(read: nat, count: nat, lim: SizeLimit) -> bool {
    &&& read + count <= u64::MAX
    &&& match lim {
        SizeLimit::Infinite => true,
        SizeLimit::Bounded(x) => read + count <= x,
    }
}

/// Reading one raw byte: metered first, so an exhausted cap wins over an
/// exhausted stream.
pub open spec fn step_byte(s: Seq<u8>, pos: int, read: nat, lim: SizeLimit) -> Step<u8> {
    if !meter_ok(read, 1, lim) {
        Step::Fail { k: DecErrKind::Size }
    } else if pos < 0 || pos >= s.len() {
        Step::Fail { k: DecErrKind::Io }
    } else {
        Step::Good { v: s[pos], end: pos + 1, tally: read + 1 }
    }
}

/// Reading an unsigned varint: a truncated chain is an I/O failure, an
/// overflowing chain a size failure, and the consumed bytes are metered.
pub open spec fn step_leb_u(s: Seq<u8>, pos: int, read: nat, lim: SizeLimit) -> Step<u64> {
    match dec_leb_u_at(s, pos, 0) {
        ULebRead::Val { v, len } => if meter_ok(read, len, lim) {
            Step::Good { v, end: pos + len, tally: read + len }
        } else {
            Step::Fail { k: DecErrKind::Size }
        },
        ULebRead::Short => Step::Fail { k: DecErrKind::Io },
        ULebRead::Over => Step::Fail { k: DecErrKind::Size },
    }
}

/// Reading a signed varint.
pub open spec fn step_leb_s(s: Seq<u8>, pos: int, read: nat, lim: SizeLimit) -> Step<i64> {
    match dec_leb_s_at(s, pos, 0) {
        SLebRead::Val { v, len } => if meter_ok(read, len, lim) {
            Step::Good { v, end: pos + len, tally: read + len }
        } else {
            Step::Fail { k: DecErrKind::Size }
        },
        SLebRead::Short => Step::Fail { k: DecErrKind::Io },
        SLebRead::Over => Step::Fail { k: DecErrKind::Size },
    }
}

/// Reading an unsigned varint into a narrower width: a value past the
/// width's range is a size failure.
pub open spec fn step_leb_u_max(s: Seq<u8>, pos: int, read: nat, lim: SizeLimit, max: u64) -> Step<
    u64,
> {
    match step_leb_u(s, pos, read, lim) {
        Step::Good { v, end, tally } => if v <= max {
            Step::Good { v, end, tally }
        } else {
            Step::Fail { k: DecErrKind::Size }
        },
        f => f,
    }
}

/// Reading a signed varint into a narrower width.
pub open spec fn step_leb_s_range(
    s: Seq<u8>,
    pos: int,
    read: nat,
    lim: SizeLimit,
    min: i64,
    max: i64,
) -> Step<i64> {
    match step_leb_s(s, pos, read, lim) {
        Step::Good { v, end, tally } => if min <= v <= max {
            Step::Good { v, end, tally }
        } else {
            Step::Fail { k: DecErrKind::Size }
        },
        f => f,
    }
}

/// Reading a boolean: one raw byte that must be 0 or 1.
pub open spec fn step_bool(s: Seq<u8>, pos: int, read: nat, lim: SizeLimit) -> Step<bool> {
    match step_byte(s, pos, read, lim) {
        Step::Good { v, end, tally } => if v == 1 {
            Step::Good { v: true, end, tally }
        } else if v == 0 {
            Step::Good { v: false, end, tally }
        } else {
            Step::Fail { k: DecErrKind::Invalid }
        },
        Step::Fail { k } => Step::Fail { k },
    }
}

/// Reading an option tag: one raw byte that must be 0 or 1.
pub open spec fn step_opt_tag(s: Seq<u8>, pos: int, read: nat, lim: SizeLimit) -> Step<bool> {
    match step_byte(s, pos, read, lim) {
        Step::Good { v, end, tally } => if v == 1 {
            Step::Good { v: true, end, tally }
        } else if v == 0 {
            Step::Good { v: false, end, tally }
        } else {
            Step::Fail { k: DecErrKind::Invalid }
        },
        Step::Fail { k } => Step::Fail { k },
    }
}

/// Reading an enum variant index against `count` variants: an index past
/// the count is an invalid encoding.
pub open spec fn step_variant(s: Seq<u8>, pos: int, read: nat, lim: SizeLimit, count: nat) -> Step<
    usize,
> {
    match step_leb_u_max(s, pos, read, lim, usize::MAX as u64) {
        Step::Good { v, end, tally } => if (v as nat) < count {
            Step::Good { v: v as usize, end, tally }
        } else {
            Step::Fail { k: DecErrKind::Invalid }
        },
        Step::Fail { k } => Step::Fail { k },
    }
}

/// Reading a 32-bit float pattern: the mode's wire width is metered, the
/// raw little-endian pattern is read, and a binary16 wire form widens
/// exactly.
pub open spec fn step_f32(s: Seq<u8>, pos: int, read: nat, lim: SizeLimit, enc: FloatEncoding)
    -> Step<u32> {
    let w = spec_float_sizes(enc).0;
    if !meter_ok(read, w, lim) {
        Step::Fail { k: DecErrKind::Size }
    } else if pos < 0 || pos + w > s.len() {
        Step::Fail { k: DecErrKind::Io }
    } else {
        let v = match enc {
            FloatEncoding::Normal => vstd::bytes::spec_u32_from_le_bytes(
                s.subrange(pos, pos + 4),
            ),
            FloatEncoding::F32 => vstd::bytes::spec_u32_from_le_bytes(s.subrange(pos, pos + 4)),
            FloatEncoding::F16 => f16_to_f32_bits(
                vstd::bytes::spec_u16_from_le_bytes(s.subrange(pos, pos + 2)),
            ),
            FloatEncoding::HalvePrecision => f16_to_f32_bits(
                vstd::bytes::spec_u16_from_le_bytes(s.subrange(pos, pos + 2)),
            ),
        };
        Step::Good { v, end: pos + w, tally: read + w }
    }
}

/// Reading a 64-bit float pattern.
pub open spec fn step_f64(s: Seq<u8>, pos: int, read: nat, lim: SizeLimit, enc: FloatEncoding)
    -> Step<u64> {
    let w = spec_float_sizes(enc).1;
    if !meter_ok(read, w, lim) {
        Step::Fail { k: DecErrKind::Size }
    } else if pos < 0 || pos + w > s.len() {
        Step::Fail { k: DecErrKind::Io }
    } else {
        let v = match enc {
            FloatEncoding::Normal => vstd::bytes::spec_u64_from_le_bytes(
                s.subrange(pos, pos + 8),
            ),
            FloatEncoding::F16 => f16_to_f64_bits(
                vstd::bytes::spec_u16_from_le_bytes(s.subrange(pos, pos + 2)),
            ),
            FloatEncoding::F32 => f32_to_f64_bits(
                vstd::bytes::spec_u32_from_le_bytes(s.subrange(pos, pos + 4)),
            ),
            FloatEncoding::HalvePrecision => f32_to_f64_bits(
                vstd::bytes::spec_u32_from_le_bytes(s.subrange(pos, pos + 4)),
            ),
        };
        Step::Good { v, end: pos + w, tally: read + w }
    }
}

/// Reading a character: the stream must hold a complete, well-formed
/// UTF-8 scalar, whose byte length is then metered.  A missing first byte
/// is an I/O failure; a malformed or truncated scalar is an invalid
/// encoding.
pub open spec fn step_char(s: Seq<u8>, pos: int, read: nat, lim: SizeLimit) -> Step<char> {
    if pos < 0 || pos >= s.len() {
        Step::Fail { k: DecErrKind::Io }
    } else if !valid_first_scalar(s.subrange(pos, s.len() as int)) {
        Step::Fail { k: DecErrKind::Invalid }
    } else {
        let w = length_of_first_scalar(s.subrange(pos, s.len() as int)) as nat;
        let c = decode_first_scalar(s.subrange(pos, s.len() as int)) as char;
        if !meter_ok(read, w, lim) {
            Step::Fail { k: DecErrKind::Size }
        } else {
            Step::Good { v: c, end: pos + w, tally: read + w }
        }
    }
}

/// Reading a string: its byte length as a varint, then exactly that many
/// bytes, metered, which must be valid UTF-8.
pub open spec fn step_str(s: Seq<u8>, pos: int, read: nat, lim: SizeLimit) -> Step<Seq<char>> {
    match step_leb_u_max(s, pos, read, lim, usize::MAX as u64) {
        Step::Good { v: len, end, tally } => if end + len > s.len() {
            Step::Fail { k: DecErrKind::Io }
        } else if !meter_ok(tally, len as nat, lim) {
            Step::Fail { k: DecErrKind::Size }
        } else if !valid_utf8(s.subrange(end, end + len)) {
            Step::Fail { k: DecErrKind::Invalid }
        } else {
            Step::Good {
                v: decode_utf8(s.subrange(end, end + len)),
                end: end + len,
                tally: (tally + len) as nat,
            }
        },
        Step::Fail { k } => Step::Fail { k },
    }
}

/// A decoder that reads one value from an in-memory byte stream.
pub struct DecoderReader {
    input: Vec<u8>,
    pos: usize,
    size_limit: SizeLimit,
    read: u64,
    float_enc: FloatEncoding,
}

/// Relates a typed read request's outcome to its step specification: on
/// success the value, position and tally follow the step; on failure the
/// error has the step's kind.  The stream, limit and mode never change.
pub open spec fn dec_outcome<T>(
    pre: DecoderReader,
    post: DecoderReader,
    r: Result<T, DecodingError>,
    st: Step<T>,
) -> bool {
    &&& post.stream() == pre.stream()
    &&& post.limit() == pre.limit()
    &&& post.mode() == pre.mode()
    &&& post.wf()
    &&& match r {
        Ok(v) => st matches Step::Good { v: v2, end, tally } && v2 == v && post.position() == end
            && post.tally() == tally,
        Err(e) => st matches Step::Fail { k } && k == err_kind(e),
    }
}

proof fn lemma_u8_as_i8(b: u8)
    by (bit_vector)
    ensures
        (b as i8 == 1i8 <==> b == 1u8),
        (b as i8 == 0i8 <==> b == 0u8),
{
}

/// Relies on `std::io::Error::from`: builds the error a reader reports
/// when the stream ends early.
#[verifier::external_body]
fn eof_error() -> std::io::Error {
    std::io::Error::from(std::io::ErrorKind::UnexpectedEof)
}

impl DecoderReader {
    /// The bytes being decoded.
    pub closed spec fn stream(&self) -> Seq<u8> {
        self.input@
    }

    /// The index of the next unread byte.
    pub closed spec fn position(&self) -> int {
        self.pos as int
    }

    /// The byte meter: how many bytes have been counted so far.
    pub closed spec fn tally(&self) -> nat {
        self.read as nat
    }

    /// The cap the meter is held to.
    pub closed spec fn limit(&self) -> SizeLimit {
        self.size_limit
    }

    /// The float mode wire floats are read under.
    pub closed spec fn mode(&self) -> FloatEncoding {
        self.float_enc
    }

    /// The position never leaves the stream.
    pub open spec fn wf(&self) -> bool {
        0 <= self.position() <= self.stream().len()
    }

    /// Starts decoding `input` under `size_limit` and `float_enc`.
    pub fn new(input: Vec<u8>, size_limit: SizeLimit, float_enc: FloatEncoding) -> (r:
        DecoderReader)
        ensures
            r.stream() == input@,
            r.position() == 0,
            r.tally() == 0,
            r.limit() == size_limit,
            r.mode() == float_enc,
            r.wf(),
    {
        DecoderReader { input, pos: 0, size_limit, read: 0, float_enc }
    }

    /// The number of bytes counted so far.
    pub fn bytes_read(&self) -> (r: u64)
        ensures
            r == self.tally(),
    {
        self.read
    }

    /// Counts `count` consumed bytes against the limit; the count fails
    /// without effect when the meter would overflow or pass the cap.
    pub fn read_bytes(&mut self, count: u64) -> (r: DecodingResult<()>)
        ensures
            final(self).stream() == old(self).stream(),
            final(self).position() == old(self).position(),
            final(self).limit() == old(self).limit(),
            final(self).mode() == old(self).mode(),
            r is Ok <==> meter_ok(old(self).tally(), count as nat, old(self).limit()),
            r is Ok ==> final(self).tally() == old(self).tally() + count,
            r is Err ==> (r matches Err(DecodingError::SizeLimit)) && *final(self) == *old(self),
    {
        match self.read.checked_add(count) {
            Some(total) => {
                match self.size_limit {
                    SizeLimit::Infinite => {
                        self.read = total;
                        Ok(())
                    },
                    SizeLimit::Bounded(x) => {
                        if total <= x {
                            self.read = total;
                            Ok(())
                        } else {
                            Err(DecodingError::SizeLimit)
                        }
                    },
                }
            },
            None => Err(DecodingError::SizeLimit),
        }
    }

    /// A unit value: no bytes.
    pub fn read_nil(&mut self) -> (r: DecodingResult<()>)
        ensures
            *final(self) == *old(self),
            r is Ok,
    {
        Ok(())
    }

    /// One raw byte.
    pub fn read_u8(&mut self) -> (r: DecodingResult<u8>)
        requires
            old(self).wf(),
        ensures
            dec_outcome(
                *old(self),
                *final(self),
                r,
                step_byte(old(self).stream(), old(self).position(), old(self).tally(), old(self).limit()),
            ),
    {
        match self.read_bytes(1) {
            Ok(_) => {},
            Err(e) => {
                return Err(e);
            },
        }
        if self.pos >= self.input.len() {
            return Err(DecodingError::IoError(eof_error()));
        }
        let b = self.input[self.pos];
        self.pos = self.pos + 1;
        Ok(b)
    }

    /// One raw byte, as a signed value.
    pub fn read_i8(&mut self) -> (r: DecodingResult<i8>)
        requires
            old(self).wf(),
        ensures
            ({
                let st = step_byte(
                    old(self).stream(),
                    old(self).position(),
                    old(self).tally(),
                    old(self).limit(),
                );
                dec_outcome(
                    *old(self),
                    *final(self),
                    r,
                    match st {
                        Step::Good { v, end, tally } => Step::Good { v: v as i8, end, tally },
                        Step::Fail { k } => Step::Fail { k },
                    },
                )
            }),
    {
        match self.read_u8() {
            Ok(b) => Ok(b as i8),
            Err(e) => Err(e),
        }
    }

    fn read_unsigned(&mut self) -> (r: DecodingResult<u64>)
        requires
            old(self).wf(),
        ensures
            dec_outcome(
                *old(self),
                *final(self),
                r,
                step_leb_u(old(self).stream(), old(self).position(), old(self).tally(), old(self).limit()),
            ),
    {
        match read_leb_u(self.input.as_slice(), self.pos) {
            Ok((v, p)) => {
                let count = p - self.pos;
                match self.read_bytes(count as u64) {
                    Ok(_) => {
                        self.pos = p;
                        Ok(v)
                    },
                    Err(e) => Err(e),
                }
            },
            Err(LebReadErr::Short) => Err(DecodingError::IoError(eof_error())),
            Err(LebReadErr::Over) => Err(DecodingError::SizeLimit),
        }
    }

    fn read_signed(&mut self) -> (r: DecodingResult<i64>)
        requires
            old(self).wf(),
        ensures
            dec_outcome(
                *old(self),
                *final(self),
                r,
                step_leb_s(old(self).stream(), old(self).position(), old(self).tally(), old(self).limit()),
            ),
    {
        match read_leb_s(self.input.as_slice(), self.pos) {
            Ok((v, p)) => {
                let count = p - self.pos;
                match self.read_bytes(count as u64) {
                    Ok(_) => {
                        self.pos = p;
                        Ok(v)
                    },
                    Err(e) => Err(e),
                }
            },
            Err(LebReadErr::Short) => Err(DecodingError::IoError(eof_error())),
            Err(LebReadErr::Over) => Err(DecodingError::SizeLimit),
        }
    }

    /// An unsigned varint that must fit 64 bits.
    pub fn read_u64(&mut self) -> (r: DecodingResult<u64>)
        requires
            old(self).wf(),
        ensures
            dec_outcome(
                *old(self),
                *final(self),
                r,
                step_leb_u(old(self).stream(), old(self).position(), old(self).tally(), old(self).limit()),
            ),
    {
        self.read_unsigned()
    }

    /// An unsigned varint that must fit 32 bits; a larger value is a
    /// size-limit failure.
    pub fn read_u32(&mut self) -> (r: DecodingResult<u32>)
        requires
            old(self).wf(),
        ensures
            ({
                let st = step_leb_u_max(
                    old(self).stream(),
                    old(self).position(),
                    old(self).tally(),
                    old(self).limit(),
                    u32::MAX as u64,
                );
                dec_outcome(
                    *old(self),
                    *final(self),
                    r,
                    match st {
                        Step::Good { v, end, tally } => Step::Good { v: v as u32, end, tally },
                        Step::Fail { k } => Step::Fail { k },
                    },
                )
            }),
    {
        match self.read_unsigned() {
            Ok(v) => {
                if v <= u32::MAX as u64 {
                    Ok(v as u32)
                } else {
                    Err(DecodingError::SizeLimit)
                }
            },
            Err(e) => Err(e),
        }
    }

    /// An unsigned varint that must fit 16 bits.
    pub fn read_u16(&mut self) -> (r: DecodingResult<u16>)
        requires
            old(self).wf(),
        ensures
            ({
                let st = step_leb_u_max(
                    old(self).stream(),
                    old(self).position(),
                    old(self).tally(),
                    old(self).limit(),
                    u16::MAX as u64,
                );
                dec_outcome(
                    *old(self),
                    *final(self),
                    r,
                    match st {
                        Step::Good { v, end, tally } => Step::Good { v: v as u16, end, tally },
                        Step::Fail { k } => Step::Fail { k },
                    },
                )
            }),
    {
        match self.read_unsigned() {
            Ok(v) => {
                if v <= u16::MAX as u64 {
                    Ok(v as u16)
                } else {
                    Err(DecodingError::SizeLimit)
                }
            },
            Err(e) => Err(e),
        }
    }

    /// An unsigned varint that must fit the platform word.
    pub fn read_usize(&mut self) -> (r: DecodingResult<usize>)
        requires
            old(self).wf(),
        ensures
            ({
                let st = step_leb_u_max(
                    old(self).stream(),
                    old(self).position(),
                    old(self).tally(),
                    old(self).limit(),
                    usize::MAX as u64,
                );
                dec_outcome(
                    *old(self),
                    *final(self),
                    r,
                    match st {
                        Step::Good { v, end, tally } => Step::Good { v: v as usize, end, tally },
                        Step::Fail { k } => Step::Fail { k },
                    },
                )
            }),
    {
        match self.read_unsigned() {
            Ok(v) => {
                if v <= usize::MAX as u64 {
                    Ok(v as usize)
                } else {
                    Err(DecodingError::SizeLimit)
                }
            },
            Err(e) => Err(e),
        }
    }

    /// A signed varint that must fit 64 bits.
    pub fn read_i64(&mut self) -> (r: DecodingResult<i64>)
        requires
            old(self).wf(),
        ensures
            dec_outcome(
                *old(self),
                *final(self),
                r,
                step_leb_s(old(self).stream(), old(self).position(), old(self).tally(), old(self).limit()),
            ),
    {
        self.read_signed()
    }

    /// A signed varint that must fit 32 bits.
    pub fn read_i32(&mut self) -> (r: DecodingResult<i32>)
        requires
            old(self).wf(),
        ensures
            ({
                let st = step_leb_s_range(
                    old(self).stream(),
                    old(self).position(),
                    old(self).tally(),
                    old(self).limit(),
                    i32::MIN as i64,
                    i32::MAX as i64,
                );
                dec_outcome(
                    *old(self),
                    *final(self),
                    r,
                    match st {
                        Step::Good { v, end, tally } => Step::Good { v: v as i32, end, tally },
                        Step::Fail { k } => Step::Fail { k },
                    },
                )
            }),
    {
        match self.read_signed() {
            Ok(v) => {
                if i32::MIN as i64 <= v && v <= i32::MAX as i64 {
                    Ok(v as i32)
                } else {
                    Err(DecodingError::SizeLimit)
                }
            },
            Err(e) => Err(e),
        }
    }

    /// A signed varint that must fit 16 bits.
    pub fn read_i16(&mut self) -> (r: DecodingResult<i16>)
        requires
            old(self).wf(),
        ensures
            ({
                let st = step_leb_s_range(
                    old(self).stream(),
                    old(self).position(),
                    old(self).tally(),
                    old(self).limit(),
                    i16::MIN as i64,
                    i16::MAX as i64,
                );
                dec_outcome(
                    *old(self),
                    *final(self),
                    r,
                    match st {
                        Step::Good { v, end, tally } => Step::Good { v: v as i16, end, tally },
                        Step::Fail { k } => Step::Fail { k },
                    },
                )
            }),
    {
        match self.read_signed() {
            Ok(v) => {
                if i16::MIN as i64 <= v && v <= i16::MAX as i64 {
                    Ok(v as i16)
                } else {
                    Err(DecodingError::SizeLimit)
                }
            },
            Err(e) => Err(e),
        }
    }

    /// A signed varint that must fit the platform word.
    pub fn read_isize(&mut self) -> (r: DecodingResult<isize>)
        requires
            old(self).wf(),
        ensures
            ({
                let st = step_leb_s_range(
                    old(self).stream(),
                    old(self).position(),
                    old(self).tally(),
                    old(self).limit(),
                    isize::MIN as i64,
                    isize::MAX as i64,
                );
                dec_outcome(
                    *old(self),
                    *final(self),
                    r,
                    match st {
                        Step::Good { v, end, tally } => Step::Good { v: v as isize, end, tally },
                        Step::Fail { k } => Step::Fail { k },
                    },
                )
            }),
    {
        match self.read_signed() {
            Ok(v) => {
                if isize::MIN as i64 <= v && v <= isize::MAX as i64 {
                    Ok(v as isize)
                } else {
                    Err(DecodingError::SizeLimit)
                }
            },
            Err(e) => Err(e),
        }
    }

    /// A boolean: one byte, 1 or 0; anything else is an invalid encoding.
    pub fn read_bool(&mut self) -> (r: DecodingResult<bool>)
        requires
            old(self).wf(),
        ensures
            dec_outcome(
                *old(self),
                *final(self),
                r,
                step_bool(old(self).stream(), old(self).position(), old(self).tally(), old(self).limit()),
            ),
            r matches Err(DecodingError::InvalidEncoding(ib)) ==> ib.desc@
                == "invalid u8 when decoding bool"@ && ib.detail is None,
    {
        proof {
            let st = step_byte(self.stream(), self.position(), self.tally(), self.limit());
            if let Step::Good { v, .. } = st {
                lemma_u8_as_i8(v);
            }
        }
        match self.read_i8() {
            Ok(x) => {
                if x == 1 {
                    Ok(true)
                } else if x == 0 {
                    Ok(false)
                } else {
                    Err(
                        DecodingError::InvalidEncoding(
                            InvalidEncoding {
                                desc: "invalid u8 when decoding bool",
                                detail: Option::None,
                            },
                        ),
                    )
                }
            },
            Err(e) => Err(e),
        }
    }

    /// An option tag: one byte, 1 for present, 0 for absent.
    pub fn read_option(&mut self) -> (r: DecodingResult<bool>)
        requires
            old(self).wf(),
        ensures
            dec_outcome(
                *old(self),
                *final(self),
                r,
                step_opt_tag(old(self).stream(), old(self).position(), old(self).tally(), old(self).limit()),
            ),
            r matches Err(DecodingError::InvalidEncoding(ib)) ==> ib.desc@
                == "invalid tag when decoding Option"@ && ib.detail is None,
    {
        match self.read_u8() {
            Ok(x) => {
                if x == 1 {
                    Ok(true)
                } else if x == 0 {
                    Ok(false)
                } else {
                    Err(
                        DecodingError::InvalidEncoding(
                            InvalidEncoding {
                                desc: "invalid tag when decoding Option",
                                detail: Option::None,
                            },
                        ),
                    )
                }
            },
            Err(e) => Err(e),
        }
    }

    /// An enum variant index, held below the variant count.
    pub fn read_enum_variant(&mut self, num_variants: usize) -> (r: DecodingResult<usize>)
        requires
            old(self).wf(),
        ensures
            dec_outcome(
                *old(self),
                *final(self),
                r,
                step_variant(
                    old(self).stream(),
                    old(self).position(),
                    old(self).tally(),
                    old(self).limit(),
                    num_variants as nat,
                ),
            ),
            r matches Err(DecodingError::InvalidEncoding(ib)) ==> ib.desc@
                == "out of bounds tag when reading enum variant"@ && ib.detail is None,
    {
        match self.read_usize() {
            Ok(id) => {
                if id < num_variants {
                    Ok(id)
                } else {
                    Err(
                        DecodingError::InvalidEncoding(
                            InvalidEncoding {
                                desc: "out of bounds tag when reading enum variant",
                                detail: Option::None,
                            },
                        ),
                    )
                }
            },
            Err(e) => Err(e),
        }
    }

    /// A 32-bit float pattern from the mode's wire width.
    pub fn read_f32(&mut self) -> (r: DecodingResult<u32>)
        requires
            old(self).wf(),
        ensures
            dec_outcome(
                *old(self),
                *final(self),
                r,
                step_f32(
                    old(self).stream(),
                    old(self).position(),
                    old(self).tally(),
                    old(self).limit(),
                    old(self).mode(),
                ),
            ),
    {
        let w: usize = match self.float_enc {
            FloatEncoding::Normal => 4,
            FloatEncoding::F16 => 2,
            FloatEncoding::F32 => 4,
            FloatEncoding::HalvePrecision => 2,
        };
        match self.read_bytes(w as u64) {
            Ok(_) => {},
            Err(e) => {
                return Err(e);
            },
        }
        if self.input.len() < w || self.pos > self.input.len() - w {
            return Err(DecodingError::IoError(eof_error()));
        }
        let window = vstd::slice::slice_subrange(self.input.as_slice(), self.pos, self.pos + w);
        let v: u32 = match self.float_enc {
            FloatEncoding::Normal => vstd::bytes::u32_from_le_bytes(window),
            FloatEncoding::F32 => vstd::bytes::u32_from_le_bytes(window),
            FloatEncoding::F16 => f16_to_f32(vstd::bytes::u16_from_le_bytes(window)),
            FloatEncoding::HalvePrecision => f16_to_f32(vstd::bytes::u16_from_le_bytes(window)),
        };
        self.pos = self.pos + w;
        Ok(v)
    }

    /// A 64-bit float pattern from the mode's wire width.
    pub fn read_f64(&mut self) -> (r: DecodingResult<u64>)
        requires
            old(self).wf(),
        ensures
            dec_outcome(
                *old(self),
                *final(self),
                r,
                step_f64(
                    old(self).stream(),
                    old(self).position(),
                    old(self).tally(),
                    old(self).limit(),
                    old(self).mode(),
                ),
            ),
    {
        let w: usize = match self.float_enc {
            FloatEncoding::Normal => 8,
            FloatEncoding::F16 => 2,
            FloatEncoding::F32 => 4,
            FloatEncoding::HalvePrecision => 4,
        };
        match self.read_bytes(w as u64) {
            Ok(_) => {},
            Err(e) => {
                return Err(e);
            },
        }
        if self.input.len() < w || self.pos > self.input.len() - w {
            return Err(DecodingError::IoError(eof_error()));
        }
        let window = vstd::slice::slice_subrange(self.input.as_slice(), self.pos, self.pos + w);
        let v: u64 = match self.float_enc {
            FloatEncoding::Normal => vstd::bytes::u64_from_le_bytes(window),
            FloatEncoding::F16 => f16_to_f64(vstd::bytes::u16_from_le_bytes(window)),
            FloatEncoding::F32 => f32_to_f64(vstd::bytes::u32_from_le_bytes(window)),
            FloatEncoding::HalvePrecision => f32_to_f64(vstd::bytes::u32_from_le_bytes(window)),
        };
        self.pos = self.pos + w;
        Ok(v)
    }

    /// A user-signalled domain error: an invalid encoding carrying the
    /// walker's message as its detail.
    pub fn error(&mut self, err: &str) -> (r: DecodingError)
        ensures
            *final(self) == *old(self),
            err_kind(r) == DecErrKind::Invalid,
            r matches DecodingError::InvalidEncoding(
                InvalidEncoding { desc: dsc, detail: Some(d) },
            ) && dsc@ == "user-induced error"@ && d@ == err@,
    {
        DecodingError::InvalidEncoding(
            InvalidEncoding { desc: "user-induced error", detail: Option::Some(err.to_owned()) },
        )
    }
}


/// What sits at one index of a byte sequence: a complete well-formed
/// UTF-8 scalar, something malformed, or the end of the bytes.
pub enum ScalarScan {
    Found { cp: u32, width: usize },
    Bad,
    End,
}

/// Classifies the bytes starting at `i` as one UTF-8 scalar.
fn scan_scalar(bytes: &[u8], i: usize) -> (r: ScalarScan)
    ensures
        ({
            let suffix = bytes@.subrange(i as int, bytes@.len() as int);
            match r {
                ScalarScan::End => i >= bytes@.len(),
                ScalarScan::Found { cp, width } => i < bytes@.len() && valid_first_scalar(suffix)
                    && width == length_of_first_scalar(suffix) && cp == decode_first_scalar(
                    suffix,
                ) && i + width <= bytes@.len() && 1 <= width <= 4 && is_scalar(cp),
                ScalarScan::Bad => i < bytes@.len() && !valid_first_scalar(suffix),
            }
        }),
{
    let n = bytes.len();
    if i >= n {
        return ScalarScan::End;
    }
    let ghost suffix = bytes@.subrange(i as int, bytes@.len() as int);
    proof {
        assert(suffix.len() == n - i);
        assert forall|k: int| 0 <= k < suffix.len() implies suffix[k] == bytes@[i + k] by {}
    }
    let b0 = *vstd::slice::slice_index_get(bytes, i);
    if b0 < 0x80 {
        proof {
            assert((b0 & 0x7f) == b0) by (bit_vector)
                requires
                    b0 < 0x80,
            ;
        }
        return ScalarScan::Found { cp: b0 as u32, width: 1 };
    }
    if b0 < 0xC2 {
        // A continuation byte cannot lead, and 0xC0/0xC1 can only open an
        // overlong two-byte form.
        proof {
            if 0xC0 <= b0 && valid_first_scalar(suffix) {
                let b1 = suffix[1];
                assert(((((b0 & 0x1F) as u32) << 6u32) | ((b1 & 0x3F) as u32)) < 0x80) by (
                bit_vector)
                    requires
                        0xC0 <= b0 <= 0xC1,
                ;
            }
        }
        return ScalarScan::Bad;
    }
    if b0 < 0xE0 {
        if n - i < 2 {
            return ScalarScan::Bad;
        }
        let b1 = *vstd::slice::slice_index_get(bytes, i + 1);
        if !(0x80 <= b1 && b1 <= 0xBF) {
            return ScalarScan::Bad;
        }
        let cp: u32 = (((b0 & 0x1F) as u32) << 6u32) | ((b1 & 0x3F) as u32);
        proof {
            assert(0x80 <= cp <= 0x7FF) by (bit_vector)
                requires
                    cp == ((((b0 & 0x1F) as u32) << 6u32) | ((b1 & 0x3F) as u32)),
                    0xC2 <= b0 <= 0xDF,
            ;
        }
        return ScalarScan::Found { cp, width: 2 };
    }
    if b0 < 0xF0 {
        if n - i < 3 {
            return ScalarScan::Bad;
        }
        let b1 = *vstd::slice::slice_index_get(bytes, i + 1);
        let b2 = *vstd::slice::slice_index_get(bytes, i + 2);
        if !(0x80 <= b1 && b1 <= 0xBF) || !(0x80 <= b2 && b2 <= 0xBF) {
            return ScalarScan::Bad;
        }
        let cp: u32 = ((((b0 & 0x0F) as u32) << 12u32) | (((b1 & 0x3F) as u32) << 6u32)) | ((b2
            & 0x3F) as u32);
        proof {
            assert(cp <= 0xFFFF) by (bit_vector)
                requires
                    cp == (((((b0 & 0x0F) as u32) << 12u32) | (((b1 & 0x3F) as u32) << 6u32)) | ((
                    b2 & 0x3F) as u32)),
            ;
        }
        if cp < 0x800 {
            return ScalarScan::Bad;
        }
        if 0xD800 <= cp && cp <= 0xDFFF {
            return ScalarScan::Bad;
        }
        return ScalarScan::Found { cp, width: 3 };
    }
    if b0 < 0xF5 {
        if n - i < 4 {
            return ScalarScan::Bad;
        }
        let b1 = *vstd::slice::slice_index_get(bytes, i + 1);
        let b2 = *vstd::slice::slice_index_get(bytes, i + 2);
        let b3 = *vstd::slice::slice_index_get(bytes, i + 3);
        if !(0x80 <= b1 && b1 <= 0xBF) || !(0x80 <= b2 && b2 <= 0xBF) || !(0x80 <= b3 && b3
            <= 0xBF) {
            return ScalarScan::Bad;
        }
        let cp: u32 = (((((b0 & 0x7) as u32) << 18u32) | (((b1 & 0x3F) as u32) << 12u32)) | (((b2
            & 0x3F) as u32) << 6u32)) | ((b3 & 0x3F) as u32);
        proof {
            assert(cp <= 0x1FFFFF) by (bit_vector)
                requires
                    cp == ((((((b0 & 0x7) as u32) << 18u32) | (((b1 & 0x3F) as u32) << 12u32)) | (((
                    b2 & 0x3F) as u32) << 6u32)) | ((b3 & 0x3F) as u32)),
            ;
        }
        if cp < 0x10000 || cp > 0x10FFFF {
            return ScalarScan::Bad;
        }
        return ScalarScan::Found { cp, width: 4 };
    }
    // 0xF5 through 0xF7 can only open a value past the last scalar, and
    // 0xF8 and above lead nothing.
    proof {
        if b0 <= 0xF7 && valid_first_scalar(suffix) {
            let b1 = suffix[1];
            let b2 = suffix[2];
            let b3 = suffix[3];
            assert((((((b0 & 0x7) as u32) << 18u32) | (((b1 & 0x3F) as u32) << 12u32)) | (((b2
                & 0x3F) as u32) << 6u32)) | ((b3 & 0x3F) as u32) > 0x10FFFF) by (bit_vector)
                requires
                    0xF5 <= b0 <= 0xF7,
            ;
        }
    }
    ScalarScan::Bad
}

/// Whether `bytes` is entirely valid UTF-8.
fn validate_utf8(bytes: &[u8]) -> (r: bool)
    ensures
        r == valid_utf8(bytes@),
{
    let n = bytes.len();
    let mut i: usize = 0;
    proof {
        assert(bytes@.subrange(0, n as int) =~= bytes@);
    }
    loop
        invariant
            0 <= i <= n,
            n == bytes@.len(),
            valid_utf8(bytes@) == valid_utf8(bytes@.subrange(i as int, n as int)),
        decreases n - i,
    {
        let ghost suffix = bytes@.subrange(i as int, n as int);
        match scan_scalar(bytes, i) {
            ScalarScan::End => {
                proof {
                    assert(suffix.len() == 0);
                }
                return true;
            },
            ScalarScan::Bad => {
                return false;
            },
            ScalarScan::Found { cp, width } => {
                proof {
                    assert(vstd::utf8::pop_first_scalar(suffix) =~= bytes@.subrange(
                        i + width,
                        n as int,
                    ));
                }
                i = i + width;
            },
        }
    }
}

impl DecoderReader {
    /// A character: one complete UTF-8 scalar, whose byte length is
    /// counted against the limit.
    ///
    /// A source that ends before the first byte is an I/O failure, as for
    /// every other primitive; a scalar that is malformed, or truncated
    /// after its leading byte, is an invalid encoding.
    pub fn read_char(&mut self) -> (r: DecodingResult<char>)
        requires
            old(self).wf(),
        ensures
            dec_outcome(
                *old(self),
                *final(self),
                r,
                step_char(old(self).stream(), old(self).position(), old(self).tally(), old(self).limit()),
            ),
            r matches Err(DecodingError::InvalidEncoding(ib)) ==> ib.desc@
                == "Invalid char encoding"@ && ib.detail is None,
    {
        if self.pos >= self.input.len() {
            return Err(DecodingError::IoError(eof_error()));
        }
        match scan_scalar(self.input.as_slice(), self.pos) {
            ScalarScan::End => Err(DecodingError::IoError(eof_error())),
            ScalarScan::Bad => Err(
                DecodingError::InvalidEncoding(
                    InvalidEncoding { desc: "Invalid char encoding", detail: Option::None },
                ),
            ),
            ScalarScan::Found { cp, width } => {
                match self.read_bytes(width as u64) {
                    Ok(_) => {},
                    Err(e) => {
                        return Err(e);
                    },
                }
                let c = char_of_scalar(cp);
                self.pos = self.pos + width;
                Ok(c)
            },
        }
    }

    /// A string: a varint byte length, then that many UTF-8 bytes.
    pub fn read_str(&mut self) -> (r: DecodingResult<String>)
        requires
            old(self).wf(),
        ensures
            ({
                let st = step_str(
                    old(self).stream(),
                    old(self).position(),
                    old(self).tally(),
                    old(self).limit(),
                );
                &&& final(self).stream() == old(self).stream()
                &&& final(self).limit() == old(self).limit()
                &&& final(self).mode() == old(self).mode()
                &&& final(self).wf()
                &&& match r {
                    Ok(v) => st matches Step::Good { v: cs, end, tally } && cs == v@
                        && final(self).position() == end && final(self).tally() == tally,
                    Err(e) => st matches Step::Fail { k } && k == err_kind(e),
                }
                &&& r matches Err(DecodingError::InvalidEncoding(ib)) ==> ib.desc@
                    == "error while decoding utf8 string"@ && ib.detail is None
            }),
    {
        broadcast use vstd::utf8::encode_utf8_decode_utf8;

        let len = match self.read_usize() {
            Ok(len) => len,
            Err(e) => {
                return Err(e);
            },
        };
        if len > self.input.len() - self.pos {
            return Err(DecodingError::IoError(eof_error()));
        }
        match self.read_bytes(len as u64) {
            Ok(_) => {},
            Err(e) => {
                return Err(e);
            },
        }
        let body = vstd::slice::slice_subrange(self.input.as_slice(), self.pos, self.pos + len);
        if !validate_utf8(body) {
            return Err(
                DecodingError::InvalidEncoding(
                    InvalidEncoding {
                        desc: "error while decoding utf8 string",
                        detail: Option::None,
                    },
                ),
            );
        }
        let res = string_from_utf8(body);
        self.pos = self.pos + len;
        Ok(res)
    }

    /// A sequence opens with its element count.
    pub fn read_seq(&mut self) -> (r: DecodingResult<usize>)
        requires
            old(self).wf(),
        ensures
            ({
                let st = step_leb_u_max(
                    old(self).stream(),
                    old(self).position(),
                    old(self).tally(),
                    old(self).limit(),
                    usize::MAX as u64,
                );
                dec_outcome(
                    *old(self),
                    *final(self),
                    r,
                    match st {
                        Step::Good { v, end, tally } => Step::Good { v: v as usize, end, tally },
                        Step::Fail { k } => Step::Fail { k },
                    },
                )
            }),
    {
        self.read_usize()
    }

    /// A map opens with its pair count.
    pub fn read_map(&mut self) -> (r: DecodingResult<usize>)
        requires
            old(self).wf(),
        ensures
            ({
                let st = step_leb_u_max(
                    old(self).stream(),
                    old(self).position(),
                    old(self).tally(),
                    old(self).limit(),
                    usize::MAX as u64,
                );
                dec_outcome(
                    *old(self),
                    *final(self),
                    r,
                    match st {
                        Step::Good { v, end, tally } => Step::Good { v: v as usize, end, tally },
                        Step::Fail { k } => Step::Fail { k },
                    },
                )
            }),
    {
        self.read_usize()
    }

    /// An enum-with-struct-variant index reads like any variant index.
    pub fn read_enum_struct_variant(&mut self, num_variants: usize) -> (r: DecodingResult<usize>)
        requires
            old(self).wf(),
        ensures
            dec_outcome(
                *old(self),
                *final(self),
                r,
                step_variant(
                    old(self).stream(),
                    old(self).position(),
                    old(self).tally(),
                    old(self).limit(),
                    num_variants as nat,
                ),
            ),
    {
        self.read_enum_variant(num_variants)
    }

    /// Transparent framing events: they consume nothing.
    pub fn read_enum(&mut self) -> (r: DecodingResult<()>)
        ensures
            *final(self) == *old(self),
            r is Ok,
    {
        Ok(())
    }

    pub fn read_enum_variant_arg(&mut self) -> (r: DecodingResult<()>)
        ensures
            *final(self) == *old(self),
            r is Ok,
    {
        Ok(())
    }

    pub fn read_enum_struct_variant_field(&mut self) -> (r: DecodingResult<()>)
        ensures
            *final(self) == *old(self),
            r is Ok,
    {
        Ok(())
    }

    pub fn read_struct(&mut self) -> (r: DecodingResult<()>)
        ensures
            *final(self) == *old(self),
            r is Ok,
    {
        Ok(())
    }

    pub fn read_struct_field(&mut self) -> (r: DecodingResult<()>)
        ensures
            *final(self) == *old(self),
            r is Ok,
    {
        Ok(())
    }

    pub fn read_tuple(&mut self) -> (r: DecodingResult<()>)
        ensures
            *final(self) == *old(self),
            r is Ok,
    {
        Ok(())
    }

    pub fn read_tuple_arg(&mut self) -> (r: DecodingResult<()>)
        ensures
            *final(self) == *old(self),
            r is Ok,
    {
        Ok(())
    }

    pub fn read_tuple_struct(&mut self) -> (r: DecodingResult<()>)
        ensures
            *final(self) == *old(self),
            r is Ok,
    {
        self.read_tuple()
    }

    pub fn read_tuple_struct_arg(&mut self) -> (r: DecodingResult<()>)
        ensures
            *final(self) == *old(self),
            r is Ok,
    {
        self.read_tuple_arg()
    }

    pub fn read_seq_elt(&mut self) -> (r: DecodingResult<()>)
        ensures
            *final(self) == *old(self),
            r is Ok,
    {
        Ok(())
    }

    pub fn read_map_elt_key(&mut self) -> (r: DecodingResult<()>)
        ensures
            *final(self) == *old(self),
            r is Ok,
    {
        Ok(())
    }

    pub fn read_map_elt_val(&mut self) -> (r: DecodingResult<()>)
        ensures
            *final(self) == *old(self),
            r is Ok,
    {
        Ok(())
    }
}

/// Relies on `char::from_u32`: every Unicode scalar value converts, and
/// the resulting character carries exactly that value.
#[verifier::external_body]
fn char_of_scalar(cp: u32) -> (c: char)
    requires
        is_scalar(cp),
    ensures
        c == cp as char,
        c as u32 == cp,
{
    match char::from_u32(cp) {
        Some(c) => c,
        None => ' ',
    }
}

/// Builds the string the valid UTF-8 bytes spell.
fn string_from_utf8(bytes: &[u8]) -> (r: String)
    requires
        valid_utf8(bytes@),
    ensures
        r@ == decode_utf8(bytes@),
{
    broadcast use vstd::utf8::encode_utf8_decode_utf8;

    let s = str_from_utf8(bytes);
    s.to_owned()
}

/// Relies on `str::from_utf8`: on valid UTF-8 it returns the borrowed
/// slice spelling exactly these bytes.
#[verifier::external_body]
fn str_from_utf8(bytes: &[u8]) -> (r: &str)
    requires
        valid_utf8(bytes@),
    ensures
        r.spec_bytes() == bytes@,
{
    core::str::from_utf8(bytes).unwrap_or("")
}


/// What decoding a whole value of shape `s` yields.
pub enum DecRes {
    Good { v: Val, end: int, tally: nat },
    Fail { k: DecErrKind },
}

/// What decoding a run of equally-shaped values yields.
pub enum DecListRes {
    Good { vs: Seq<Val>, end: int, tally: nat },
    Fail { k: DecErrKind },
}

/// What decoding a run of key-value pairs yields.
pub enum DecPairsRes {
    Good { ps: Seq<(Val, Val)>, end: int, tally: nat },
    Fail { k: DecErrKind },
}

/// What decoding a run of raw bytes yields.
pub enum DecBytesRes {
    Good { bs: Seq<u8>, end: int, tally: nat },
    Fail { k: DecErrKind },
}

/// What a schema-driven reader starting at `pos` with tally `read` under
/// limit `lim` and float mode `enc` yields for shape `s`: the decoded
/// value's model together with the position and tally after it, or the
/// kind of the first failure.
pub open spec fn dec_val(
    s: Schema,
    stream: Seq<u8>,
    pos: int,
    read: nat,
    lim: SizeLimit,
    enc: FloatEncoding,
) -> DecRes
    decreases s, 1nat, 0nat,
{
    match s {
        Schema::Unit => DecRes::Good { v: Val::Unit, end: pos, tally: read },
        Schema::U8 => match step_byte(stream, pos, read, lim) {
            Step::Good { v, end, tally } => DecRes::Good { v: Val::U8(v), end, tally },
            Step::Fail { k } => DecRes::Fail { k },
        },
        Schema::U16 => match step_leb_u_max(stream, pos, read, lim, u16::MAX as u64) {
            Step::Good { v, end, tally } => DecRes::Good { v: Val::U16(v as u16), end, tally },
            Step::Fail { k } => DecRes::Fail { k },
        },
        Schema::U32 => match step_leb_u_max(stream, pos, read, lim, u32::MAX as u64) {
            Step::Good { v, end, tally } => DecRes::Good { v: Val::U32(v as u32), end, tally },
            Step::Fail { k } => DecRes::Fail { k },
        },
        Schema::U64 => match step_leb_u(stream, pos, read, lim) {
            Step::Good { v, end, tally } => DecRes::Good { v: Val::U64(v), end, tally },
            Step::Fail { k } => DecRes::Fail { k },
        },
        Schema::Usize => match step_leb_u_max(stream, pos, read, lim, usize::MAX as u64) {
            Step::Good { v, end, tally } => DecRes::Good { v: Val::Usize(v as usize), end, tally },
            Step::Fail { k } => DecRes::Fail { k },
        },
        Schema::I8 => match step_byte(stream, pos, read, lim) {
            Step::Good { v, end, tally } => DecRes::Good { v: Val::I8(v as i8), end, tally },
            Step::Fail { k } => DecRes::Fail { k },
        },
        Schema::I16 => match step_leb_s_range(
            stream,
            pos,
            read,
            lim,
            i16::MIN as i64,
            i16::MAX as i64,
        ) {
            Step::Good { v, end, tally } => DecRes::Good { v: Val::I16(v as i16), end, tally },
            Step::Fail { k } => DecRes::Fail { k },
        },
        Schema::I32 => match step_leb_s_range(
            stream,
            pos,
            read,
            lim,
            i32::MIN as i64,
            i32::MAX as i64,
        ) {
            Step::Good { v, end, tally } => DecRes::Good { v: Val::I32(v as i32), end, tally },
            Step::Fail { k } => DecRes::Fail { k },
        },
        Schema::I64 => match step_leb_s(stream, pos, read, lim) {
            Step::Good { v, end, tally } => DecRes::Good { v: Val::I64(v), end, tally },
            Step::Fail { k } => DecRes::Fail { k },
        },
        Schema::Isize => match step_leb_s_range(
            stream,
            pos,
            read,
            lim,
            isize::MIN as i64,
            isize::MAX as i64,
        ) {
            Step::Good { v, end, tally } => DecRes::Good {
                v: Val::Isize(v as isize),
                end,
                tally,
            },
            Step::Fail { k } => DecRes::Fail { k },
        },
        Schema::Bool => match step_bool(stream, pos, read, lim) {
            Step::Good { v, end, tally } => DecRes::Good { v: Val::Bool(v), end, tally },
            Step::Fail { k } => DecRes::Fail { k },
        },
        Schema::Char => match step_char(stream, pos, read, lim) {
            Step::Good { v, end, tally } => DecRes::Good { v: Val::Char(v), end, tally },
            Step::Fail { k } => DecRes::Fail { k },
        },
        Schema::Str => match step_str(stream, pos, read, lim) {
            Step::Good { v, end, tally } => DecRes::Good { v: Val::Str(v), end, tally },
            Step::Fail { k } => DecRes::Fail { k },
        },
        Schema::F32 => match step_f32(stream, pos, read, lim, enc) {
            Step::Good { v, end, tally } => DecRes::Good { v: Val::F32(v), end, tally },
            Step::Fail { k } => DecRes::Fail { k },
        },
        Schema::F64 => match step_f64(stream, pos, read, lim, enc) {
            Step::Good { v, end, tally } => DecRes::Good { v: Val::F64(v), end, tally },
            Step::Fail { k } => DecRes::Fail { k },
        },
        Schema::Opt(t) => match step_opt_tag(stream, pos, read, lim) {
            Step::Good { v: present, end, tally } => if !present {
                DecRes::Good { v: Val::Opt(Option::None), end, tally }
            } else {
                match dec_val(*t, stream, end, tally, lim, enc) {
                    DecRes::Good { v, end: e2, tally: t2 } => DecRes::Good {
                        v: Val::Opt(Option::Some(Box::new(v))),
                        end: e2,
                        tally: t2,
                    },
                    f => f,
                }
            },
            Step::Fail { k } => DecRes::Fail { k },
        },
        Schema::List(t) => match step_leb_u_max(stream, pos, read, lim, usize::MAX as u64) {
            Step::Good { v: n, end, tally } => match dec_list(
                *t,
                n as nat,
                stream,
                end,
                tally,
                lim,
                enc,
            ) {
                DecListRes::Good { vs, end: e2, tally: t2 } => DecRes::Good {
                    v: Val::List(vs),
                    end: e2,
                    tally: t2,
                },
                DecListRes::Fail { k } => DecRes::Fail { k },
            },
            Step::Fail { k } => DecRes::Fail { k },
        },
        Schema::Pairs(_, _) => match step_leb_u_max(stream, pos, read, lim, usize::MAX as u64) {
            Step::Good { v: n, end, tally } => match dec_pairs(
                s,
                n as nat,
                stream,
                end,
                tally,
                lim,
                enc,
            ) {
                DecPairsRes::Good { ps, end: e2, tally: t2 } => DecRes::Good {
                    v: Val::Pairs(ps),
                    end: e2,
                    tally: t2,
                },
                DecPairsRes::Fail { k } => DecRes::Fail { k },
            },
            Step::Fail { k } => DecRes::Fail { k },
        },
        Schema::Record(ss) => match dec_fields(ss@, stream, pos, read, lim, enc) {
            DecListRes::Good { vs, end, tally } => DecRes::Good { v: Val::Record(vs), end, tally },
            DecListRes::Fail { k } => DecRes::Fail { k },
        },
        Schema::Enum(variants) => match step_variant(stream, pos, read, lim, variants@.len()) {
            Step::Good { v: id, end, tally } => match dec_fields(
                variants@[id as int]@,
                stream,
                end,
                tally,
                lim,
                enc,
            ) {
                DecListRes::Good { vs, end: e2, tally: t2 } => DecRes::Good {
                    v: Val::Enum(id, vs),
                    end: e2,
                    tally: t2,
                },
                DecListRes::Fail { k } => DecRes::Fail { k },
            },
            Step::Fail { k } => DecRes::Fail { k },
        },
        Schema::Bits => match step_leb_u_max(stream, pos, read, lim, usize::MAX as u64) {
            Step::Good { v: n, end, tally } => {
                let bl = n as nat / 8 + if n as nat % 8 == 0 {
                    0nat
                } else {
                    1nat
                };
                match dec_bytes(bl, stream, end, tally, lim) {
                    DecBytesRes::Good { bs, end: e2, tally: t2 } => DecRes::Good {
                        v: Val::Bits(crate::bitvec::unpack_bits(bs).subrange(0, n as int)),
                        end: e2,
                        tally: t2,
                    },
                    DecBytesRes::Fail { k } => DecRes::Fail { k },
                }
            },
            Step::Fail { k } => DecRes::Fail { k },
        },
    }
}

/// Decoding `n` values of shape `t`, back to back.
pub open spec fn dec_list(
    t: Schema,
    n: nat,
    stream: Seq<u8>,
    pos: int,
    read: nat,
    lim: SizeLimit,
    enc: FloatEncoding,
) -> DecListRes
    decreases t, 2nat, n,
{
    if n == 0 {
        DecListRes::Good { vs: Seq::empty(), end: pos, tally: read }
    } else {
        match dec_val(t, stream, pos, read, lim, enc) {
            DecRes::Good { v, end, tally } => match dec_list(
                t,
                (n - 1) as nat,
                stream,
                end,
                tally,
                lim,
                enc,
            ) {
                DecListRes::Good { vs, end: e2, tally: t2 } => DecListRes::Good {
                    vs: seq![v] + vs,
                    end: e2,
                    tally: t2,
                },
                f => f,
            },
            DecRes::Fail { k } => DecListRes::Fail { k },
        }
    }
}

/// Decoding `n` key-value pairs of the `Pairs` shape `s`.
pub open spec fn dec_pairs(
    s: Schema,
    n: nat,
    stream: Seq<u8>,
    pos: int,
    read: nat,
    lim: SizeLimit,
    enc: FloatEncoding,
) -> DecPairsRes
    decreases s, 0nat, n,
{
    match s {
        Schema::Pairs(kt, wt) => if n == 0 {
            DecPairsRes::Good { ps: Seq::empty(), end: pos, tally: read }
        } else {
            match dec_val(*kt, stream, pos, read, lim, enc) {
                DecRes::Good { v: kv, end, tally } => match dec_val(
                    *wt,
                    stream,
                    end,
                    tally,
                    lim,
                    enc,
                ) {
                    DecRes::Good { v: wv, end: e2, tally: t2 } => match dec_pairs(
                        s,
                        (n - 1) as nat,
                        stream,
                        e2,
                        t2,
                        lim,
                        enc,
                    ) {
                        DecPairsRes::Good { ps, end: e3, tally: t3 } => DecPairsRes::Good {
                            ps: seq![(kv, wv)] + ps,
                            end: e3,
                            tally: t3,
                        },
                        f => f,
                    },
                    DecRes::Fail { k } => DecPairsRes::Fail { k },
                },
                DecRes::Fail { k } => DecPairsRes::Fail { k },
            }
        },
        _ => DecPairsRes::Fail { k: DecErrKind::Invalid },
    }
}

/// Decoding one value per shape of `ss`, back to back.
pub open spec fn dec_fields(
    ss: Seq<Schema>,
    stream: Seq<u8>,
    pos: int,
    read: nat,
    lim: SizeLimit,
    enc: FloatEncoding,
) -> DecListRes
    decreases ss, 0nat, 0nat,
{
    if ss.len() == 0 {
        DecListRes::Good { vs: Seq::empty(), end: pos, tally: read }
    } else {
        match dec_val(ss[0], stream, pos, read, lim, enc) {
            DecRes::Good { v, end, tally } => match dec_fields(
                ss.drop_first(),
                stream,
                end,
                tally,
                lim,
                enc,
            ) {
                DecListRes::Good { vs, end: e2, tally: t2 } => DecListRes::Good {
                    vs: seq![v] + vs,
                    end: e2,
                    tally: t2,
                },
                f => f,
            },
            DecRes::Fail { k } => DecListRes::Fail { k },
        }
    }
}

/// Decoding `n` raw bytes, each metered.
pub open spec fn dec_bytes(n: nat, stream: Seq<u8>, pos: int, read: nat, lim: SizeLimit)
    -> DecBytesRes
    decreases n,
{
    if n == 0 {
        DecBytesRes::Good { bs: Seq::empty(), end: pos, tally: read }
    } else {
        match step_byte(stream, pos, read, lim) {
            Step::Good { v, end, tally } => match dec_bytes(
                (n - 1) as nat,
                stream,
                end,
                tally,
                lim,
            ) {
                DecBytesRes::Good { bs, end: e2, tally: t2 } => DecBytesRes::Good {
                    bs: seq![v] + bs,
                    end: e2,
                    tally: t2,
                },
                f => f,
            },
            Step::Fail { k } => DecBytesRes::Fail { k },
        }
    }
}


/// Prepends already-decoded values to a run's outcome.
pub open spec fn lift_list(acc: Seq<Val>, r: DecListRes) -> DecListRes {
    match r {
        DecListRes::Good { vs, end, tally } => DecListRes::Good { vs: acc + vs, end, tally },
        f => f,
    }
}

/// Prepends already-decoded pairs to a run's outcome.
pub open spec fn lift_pairs(acc: Seq<(Val, Val)>, r: DecPairsRes) -> DecPairsRes {
    match r {
        DecPairsRes::Good { ps, end, tally } => DecPairsRes::Good { ps: acc + ps, end, tally },
        f => f,
    }
}

/// Prepends already-read bytes to a run's outcome.
pub open spec fn lift_bytes(acc: Seq<u8>, r: DecBytesRes) -> DecBytesRes {
    match r {
        DecBytesRes::Good { bs, end, tally } => DecBytesRes::Good { bs: acc + bs, end, tally },
        f => f,
    }
}

/// Decodes one value of shape `schema`, driving the reader one event at a
/// time; the outcome follows [`dec_val`] exactly.
#[verifier::loop_isolation(false)]
#[verifier::rlimit(100)]
pub fn decode_value(d: &mut DecoderReader, schema: &Schema) -> (r: DecodingResult<Value>)
    requires
        old(d).wf(),
    ensures
        final(d).stream() == old(d).stream(),
        final(d).limit() == old(d).limit(),
        final(d).mode() == old(d).mode(),
        final(d).wf(),
        ({
            let res = dec_val(
                *schema,
                old(d).stream(),
                old(d).position(),
                old(d).tally(),
                old(d).limit(),
                old(d).mode(),
            );
            match r {
                Ok(v) => res matches DecRes::Good { v: vv, end, tally } && vv == v@
                    && final(d).position() == end && final(d).tally() == tally,
                Err(e) => res matches DecRes::Fail { k } && k == err_kind(e),
            }
        }),
    decreases schema, 1nat, 0nat,
{
    match schema {
        Schema::Unit => {
            let _ = d.read_nil();
            Ok(Value::Unit)
        },
        Schema::U8 => match d.read_u8() {
            Ok(v) => Ok(Value::U8(v)),
            Err(e) => Err(e),
        },
        Schema::U16 => match d.read_u16() {
            Ok(v) => Ok(Value::U16(v)),
            Err(e) => Err(e),
        },
        Schema::U32 => match d.read_u32() {
            Ok(v) => Ok(Value::U32(v)),
            Err(e) => Err(e),
        },
        Schema::U64 => match d.read_u64() {
            Ok(v) => Ok(Value::U64(v)),
            Err(e) => Err(e),
        },
        Schema::Usize => match d.read_usize() {
            Ok(v) => Ok(Value::Usize(v)),
            Err(e) => Err(e),
        },
        Schema::I8 => match d.read_i8() {
            Ok(v) => Ok(Value::I8(v)),
            Err(e) => Err(e),
        },
        Schema::I16 => match d.read_i16() {
            Ok(v) => Ok(Value::I16(v)),
            Err(e) => Err(e),
        },
        Schema::I32 => match d.read_i32() {
            Ok(v) => Ok(Value::I32(v)),
            Err(e) => Err(e),
        },
        Schema::I64 => match d.read_i64() {
            Ok(v) => Ok(Value::I64(v)),
            Err(e) => Err(e),
        },
        Schema::Isize => match d.read_isize() {
            Ok(v) => Ok(Value::Isize(v)),
            Err(e) => Err(e),
        },
        Schema::Bool => match d.read_bool() {
            Ok(v) => Ok(Value::Bool(v)),
            Err(e) => Err(e),
        },
        Schema::Char => match d.read_char() {
            Ok(v) => Ok(Value::Char(v)),
            Err(e) => Err(e),
        },
        Schema::Str => match d.read_str() {
            Ok(v) => Ok(Value::Str(v)),
            Err(e) => Err(e),
        },
        Schema::F32 => match d.read_f32() {
            Ok(v) => Ok(Value::F32(v)),
            Err(e) => Err(e),
        },
        Schema::F64 => match d.read_f64() {
            Ok(v) => Ok(Value::F64(v)),
            Err(e) => Err(e),
        },
        Schema::Opt(t) => match d.read_option() {
            Ok(false) => Ok(Value::Opt(Option::None)),
            Ok(true) => match decode_value(d, &**t) {
                Ok(v) => Ok(Value::Opt(Option::Some(Box::new(v)))),
                Err(e) => Err(e),
            },
            Err(e) => Err(e),
        },
        Schema::List(t) => match d.read_seq() {
            Ok(n) => match decode_list(d, &**t, n) {
                Ok(vs) => Ok(Value::List(vs)),
                Err(e) => Err(e),
            },
            Err(e) => Err(e),
        },
        Schema::Pairs(_, _) => match d.read_map() {
            Ok(n) => match decode_pairs(d, schema, n) {
                Ok(ps) => Ok(Value::Pairs(ps)),
                Err(e) => Err(e),
            },
            Err(e) => Err(e),
        },
        Schema::Record(ss) => {
            let _ = d.read_struct();
            match decode_fields(d, ss) {
                Ok(fs) => Ok(Value::Record(fs)),
                Err(e) => Err(e),
            }
        },
        Schema::Enum(variants) => {
            let _ = d.read_enum();
            match d.read_enum_variant(variants.len()) {
                Ok(id) => match decode_fields(d, &variants[id]) {
                    Ok(fs) => Ok(Value::Enum(id, fs)),
                    Err(e) => Err(e),
                },
                Err(e) => Err(e),
            }
        },
        Schema::Bits => decode_bits(d),
    }
}

/// Decodes a bit sequence: its bit length, then one metered byte per
/// eight bits, truncated back to the recorded length.
#[verifier::loop_isolation(false)]
#[verifier::rlimit(100)]
fn decode_bits(d: &mut DecoderReader) -> (r: DecodingResult<Value>)
    requires
        old(d).wf(),
    ensures
        final(d).stream() == old(d).stream(),
        final(d).limit() == old(d).limit(),
        final(d).mode() == old(d).mode(),
        final(d).wf(),
        ({
            let res = dec_val(
                Schema::Bits,
                old(d).stream(),
                old(d).position(),
                old(d).tally(),
                old(d).limit(),
                old(d).mode(),
            );
            match r {
                Ok(v) => res matches DecRes::Good { v: vv, end, tally } && vv == v@
                    && final(d).position() == end && final(d).tally() == tally,
                Err(e) => res matches DecRes::Fail { k } && k == err_kind(e),
            }
        }),
{
    match d.read_usize() {
        Ok(n) => {
            let byte_len = n / 8 + if n % 8 == 0 {
                0
            } else {
                1
            };
            let ghost bl = byte_len as nat;
            let ghost start = *d;
            let mut acc: Vec<u8> = Vec::new();
            let mut i: usize = 0;
            proof {
                assert(Seq::<u8>::empty() + Seq::<u8>::empty() =~= Seq::<u8>::empty());
            }
            while i < byte_len
                invariant
                    i <= byte_len,
                    acc@.len() == i,
                    d.wf(),
                    d.stream() == start.stream(),
                    d.limit() == start.limit(),
                    d.mode() == start.mode(),
                    dec_bytes(bl, start.stream(), start.position(), start.tally(), start.limit())
                        == lift_bytes(
                        acc@,
                        dec_bytes(
                            (bl - i) as nat,
                            d.stream(),
                            d.position(),
                            d.tally(),
                            d.limit(),
                        ),
                    ),
                decreases byte_len - i,
            {
                let ghost pre_acc = acc@;
                match d.read_u8() {
                    Ok(b) => {
                        acc.push(b);
                        proof {
                            let rest = dec_bytes(
                                (bl - (i + 1)) as nat,
                                d.stream(),
                                d.position(),
                                d.tally(),
                                d.limit(),
                            );
                            if let DecBytesRes::Good { bs, .. } = rest {
                                assert(pre_acc + (seq![b] + bs) =~= (pre_acc + seq![b]) + bs);
                            }
                            assert(acc@ =~= pre_acc + seq![b]);
                        }
                        i = i + 1;
                    },
                    Err(e) => {
                        return Err(e);
                    },
                }
            }
            proof {
                if let DecBytesRes::Good { bs, .. } = dec_bytes(
                    0nat,
                    d.stream(),
                    d.position(),
                    d.tally(),
                    d.limit(),
                ) {
                    assert(acc@ + bs =~= acc@);
                }
            }
            let mut bv = crate::bitvec::bv_from_bytes(acc.as_slice());
            proof {
                assert(8 * bl >= n) by (nonlinear_arith)
                    requires
                        bl == n as nat / 8 + if n as nat % 8 == 0 {
                            0nat
                        } else {
                            1nat
                        },
                ;
            }
            crate::bitvec::bv_truncate(&mut bv, n);
            proof {
                let un = crate::bitvec::unpack_bits(acc@);
                if n as nat == un.len() {
                    assert(un.subrange(0, n as int) =~= un);
                }
            }
            Ok(Value::Bits(crate::bitvec::BVec::new(bv)))
        },
        Err(e) => Err(e),
    }
}

/// Decodes `n` values of shape `t`, back to back.
#[verifier::loop_isolation(false)]
#[verifier::rlimit(100)]
fn decode_list(d: &mut DecoderReader, t: &Schema, n: usize) -> (r: DecodingResult<Vec<Value>>)
    requires
        old(d).wf(),
    ensures
        final(d).stream() == old(d).stream(),
        final(d).limit() == old(d).limit(),
        final(d).mode() == old(d).mode(),
        final(d).wf(),
        ({
            let res = dec_list(
                *t,
                n as nat,
                old(d).stream(),
                old(d).position(),
                old(d).tally(),
                old(d).limit(),
                old(d).mode(),
            );
            match r {
                Ok(vs) => res matches DecListRes::Good { vs: m, end, tally } && m == view_values(
                    vs@,
                ) && final(d).position() == end && final(d).tally() == tally,
                Err(e) => res matches DecListRes::Fail { k } && k == err_kind(e),
            }
        }),
    decreases t, 2nat, 0nat,
{
    let ghost start = *d;
    let mut acc: Vec<Value> = Vec::new();
    let mut i: usize = 0;
    proof {
        assert(view_values(Seq::<Value>::empty()) == Seq::<Val>::empty());
    }
    while i < n
        invariant
            i <= n,
            acc@.len() == i,
            d.wf(),
            d.stream() == start.stream(),
            d.limit() == start.limit(),
            d.mode() == start.mode(),
            dec_list(
                *t,
                n as nat,
                start.stream(),
                start.position(),
                start.tally(),
                start.limit(),
                start.mode(),
            ) == lift_list(
                view_values(acc@),
                dec_list(
                    *t,
                    (n - i) as nat,
                    d.stream(),
                    d.position(),
                    d.tally(),
                    d.limit(),
                    d.mode(),
                ),
            ),
        decreases n - i,
    {
        let ghost pre_acc = acc@;
        match decode_value(d, t) {
            Ok(v) => {
                acc.push(v);
                proof {
                    crate::value::lemma_view_values_push(pre_acc, v);
                    let rest = dec_list(
                        *t,
                        (n - (i + 1)) as nat,
                        d.stream(),
                        d.position(),
                        d.tally(),
                        d.limit(),
                        d.mode(),
                    );
                    if let DecListRes::Good { vs, .. } = rest {
                        assert(view_values(pre_acc) + (seq![view_value(v)] + vs) =~= (view_values(
                            pre_acc,
                        ) + seq![view_value(v)]) + vs);
                    }
                    assert(view_values(acc@) =~= view_values(pre_acc) + seq![view_value(v)]);
                }
                i = i + 1;
            },
            Err(e) => {
                return Err(e);
            },
        }
    }
    proof {
        if let DecListRes::Good { vs, .. } = dec_list(
            *t,
            0nat,
            d.stream(),
            d.position(),
            d.tally(),
            d.limit(),
            d.mode(),
        ) {
            assert(view_values(acc@) + vs =~= view_values(acc@));
        }
    }
    Ok(acc)
}

/// Decodes `n` key-value pairs of the `Pairs` shape `s`.
#[verifier::loop_isolation(false)]
#[verifier::rlimit(100)]
fn decode_pairs(d: &mut DecoderReader, s: &Schema, n: usize) -> (r: DecodingResult<
    Vec<(Value, Value)>,
>)
    requires
        old(d).wf(),
        *s matches Schema::Pairs(_, _),
    ensures
        final(d).stream() == old(d).stream(),
        final(d).limit() == old(d).limit(),
        final(d).mode() == old(d).mode(),
        final(d).wf(),
        ({
            let res = dec_pairs(
                *s,
                n as nat,
                old(d).stream(),
                old(d).position(),
                old(d).tally(),
                old(d).limit(),
                old(d).mode(),
            );
            match r {
                Ok(ps) => res matches DecPairsRes::Good { ps: m, end, tally } && m
                    == view_value_pairs(ps@) && final(d).position() == end && final(d).tally()
                    == tally,
                Err(e) => res matches DecPairsRes::Fail { k } && k == err_kind(e),
            }
        }),
    decreases s, 0nat, 0nat,
{
    match s {
        Schema::Pairs(kt, wt) => {
            let ghost start = *d;
            let mut acc: Vec<(Value, Value)> = Vec::new();
            let mut i: usize = 0;
            proof {
                assert(view_value_pairs(Seq::<(Value, Value)>::empty()) == Seq::<
                    (Val, Val),
                >::empty());
            }
            while i < n
                invariant
                    i <= n,
                    acc@.len() == i,
                    d.wf(),
                    d.stream() == start.stream(),
                    d.limit() == start.limit(),
                    d.mode() == start.mode(),
                    dec_pairs(
                        *s,
                        n as nat,
                        start.stream(),
                        start.position(),
                        start.tally(),
                        start.limit(),
                        start.mode(),
                    ) == lift_pairs(
                        view_value_pairs(acc@),
                        dec_pairs(
                            *s,
                            (n - i) as nat,
                            d.stream(),
                            d.position(),
                            d.tally(),
                            d.limit(),
                            d.mode(),
                        ),
                    ),
                decreases n - i,
            {
                let ghost pre_acc = acc@;
                let kv = match decode_value(d, &**kt) {
                    Ok(kv) => kv,
                    Err(e) => {
                        return Err(e);
                    },
                };
                let wv = match decode_value(d, &**wt) {
                    Ok(wv) => wv,
                    Err(e) => {
                        return Err(e);
                    },
                };
                acc.push((kv, wv));
                proof {
                    crate::value::lemma_view_value_pairs_push(pre_acc, (kv, wv));
                    let rest = dec_pairs(
                        *s,
                        (n - (i + 1)) as nat,
                        d.stream(),
                        d.position(),
                        d.tally(),
                        d.limit(),
                        d.mode(),
                    );
                    if let DecPairsRes::Good { ps, .. } = rest {
                        assert(view_value_pairs(pre_acc) + (seq![(view_value(kv), view_value(wv))]
                            + ps) =~= (view_value_pairs(pre_acc) + seq![
                            (view_value(kv), view_value(wv)),
                        ]) + ps);
                    }
                    assert(view_value_pairs(acc@) =~= view_value_pairs(pre_acc) + seq![
                        (view_value(kv), view_value(wv)),
                    ]);
                }
                i = i + 1;
            }
            proof {
                if let DecPairsRes::Good { ps, .. } = dec_pairs(
                    *s,
                    0nat,
                    d.stream(),
                    d.position(),
                    d.tally(),
                    d.limit(),
                    d.mode(),
                ) {
                    assert(view_value_pairs(acc@) + ps =~= view_value_pairs(acc@));
                }
            }
            Ok(acc)
        },
        _ => {
            proof {
                assert(false);
            }
            Err(DecodingError::SizeLimit)
        },
    }
}

/// Decodes one value per shape of `ss`, back to back.
#[verifier::loop_isolation(false)]
#[verifier::rlimit(100)]
fn decode_fields(d: &mut DecoderReader, ss: &Vec<Schema>) -> (r: DecodingResult<Vec<Value>>)
    requires
        old(d).wf(),
    ensures
        final(d).stream() == old(d).stream(),
        final(d).limit() == old(d).limit(),
        final(d).mode() == old(d).mode(),
        final(d).wf(),
        ({
            let res = dec_fields(
                ss@,
                old(d).stream(),
                old(d).position(),
                old(d).tally(),
                old(d).limit(),
                old(d).mode(),
            );
            match r {
                Ok(vs) => res matches DecListRes::Good { vs: m, end, tally } && m == view_values(
                    vs@,
                ) && final(d).position() == end && final(d).tally() == tally,
                Err(e) => res matches DecListRes::Fail { k } && k == err_kind(e),
            }
        }),
    decreases ss, 0nat, 0nat,
{
    let ghost start = *d;
    let n = ss.len();
    let mut acc: Vec<Value> = Vec::new();
    let mut i: usize = 0;
    proof {
        assert(view_values(Seq::<Value>::empty()) == Seq::<Val>::empty());
        assert(ss@.subrange(0, n as int) =~= ss@);
    }
    while i < n
        invariant
            i <= n,
            n == ss@.len(),
            acc@.len() == i,
            d.wf(),
            d.stream() == start.stream(),
            d.limit() == start.limit(),
            d.mode() == start.mode(),
            dec_fields(
                ss@,
                start.stream(),
                start.position(),
                start.tally(),
                start.limit(),
                start.mode(),
            ) == lift_list(
                view_values(acc@),
                dec_fields(
                    ss@.subrange(i as int, n as int),
                    d.stream(),
                    d.position(),
                    d.tally(),
                    d.limit(),
                    d.mode(),
                ),
            ),
        decreases n - i,
    {
        let ghost pre_acc = acc@;
        let ghost sufs = ss@.subrange(i as int, n as int);
        proof {
            assert(sufs[0] == ss@[i as int]);
            assert(sufs.drop_first() =~= ss@.subrange(i + 1, n as int));
        }
        match decode_value(d, &ss[i]) {
            Ok(v) => {
                acc.push(v);
                proof {
                    crate::value::lemma_view_values_push(pre_acc, v);
                    let rest = dec_fields(
                        ss@.subrange(i + 1, n as int),
                        d.stream(),
                        d.position(),
                        d.tally(),
                        d.limit(),
                        d.mode(),
                    );
                    if let DecListRes::Good { vs, .. } = rest {
                        assert(view_values(pre_acc) + (seq![view_value(v)] + vs) =~= (view_values(
                            pre_acc,
                        ) + seq![view_value(v)]) + vs);
                    }
                    assert(view_values(acc@) =~= view_values(pre_acc) + seq![view_value(v)]);
                }
                i = i + 1;
            },
            Err(e) => {
                return Err(e);
            },
        }
    }
    proof {
        assert(ss@.subrange(n as int, n as int) =~= Seq::<Schema>::empty());
        if let DecListRes::Good { vs, .. } = dec_fields(
            ss@.subrange(n as int, n as int),
            d.stream(),
            d.position(),
            d.tally(),
            d.limit(),
            d.mode(),
        ) {
            assert(view_values(acc@) + vs =~= view_values(acc@));
        }
    }
    Ok(acc)
}

/// Decodes one value of shape `schema` from `bytes` with no size limit.
pub fn decode(bytes: &[u8], float_enc: FloatEncoding, schema: &Schema) -> (r: DecodingResult<
    Value,
>)
    ensures
        ({
            let res = dec_val(*schema, bytes@, 0, 0, SizeLimit::Infinite, float_enc);
            match r {
                Ok(v) => res matches DecRes::Good { v: vv, .. } && vv == v@,
                Err(e) => res matches DecRes::Fail { k } && k == err_kind(e),
            }
        }),
{
    let input = vstd::slice::slice_to_vec(bytes);
    let mut d = DecoderReader::new(input, SizeLimit::Infinite, float_enc);
    decode_value(&mut d, schema)
}

/// Decodes one value of shape `schema` from `bytes`, counting every
/// consumed byte against `size_limit`.
pub fn decode_from(
    bytes: &[u8],
    size_limit: SizeLimit,
    float_enc: FloatEncoding,
    schema: &Schema,
) -> (r: DecodingResult<Value>)
    ensures
        ({
            let res = dec_val(*schema, bytes@, 0, 0, size_limit, float_enc);
            match r {
                Ok(v) => res matches DecRes::Good { v: vv, .. } && vv == v@,
                Err(e) => res matches DecRes::Fail { k } && k == err_kind(e),
            }
        }),
{
    let input = vstd::slice::slice_to_vec(bytes);
    let mut d = DecoderReader::new(input, size_limit, float_enc);
    decode_value(&mut d, schema)
}

} // verus!
