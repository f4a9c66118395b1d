//! A compact, schema-driven binary codec: integers are LEB128
//! variable-length coded, floats can be reduced to a narrower wire width,
//! and every operation is metered against an optional byte limit.
use vstd::prelude::*;

pub mod varint;
pub mod floatenc;
pub mod bitvec;
pub mod value;
pub mod writer;
pub mod reader;
pub mod laws;

pub use bitvec::BVec;
pub use floatenc::FloatEncoding;
pub use reader::DecoderReader;
pub use reader::DecodingError;
pub use reader::DecodingResult;
pub use reader::InvalidEncoding;
pub use reader::decode;
pub use reader::decode_from;
pub use value::Schema;
pub use value::Value;
pub use writer::EncoderWriter;
pub use writer::EncodingError;
pub use writer::EncodingResult;
pub use writer::SizeChecker;
pub use writer::encode;
pub use writer::wrap_io;
pub use writer::encoded_size;

verus! {

#[verifier::external_type_specification]
#[verifier::external_body]
pub struct ExIoError(std::io::Error);

/// Optional cap on the total number of bytes one codec operation may
/// produce or consume.
#[derive(Clone, Copy, Debug, PartialEq, Eq, Structural)]
pub enum SizeLimit {
    /// No cap: the operation may transfer any number of bytes.
    Infinite,
    /// The operation fails with a size-limit error as soon as the running
    /// byte tally would exceed this many bytes.
    Bounded(u64),
}

} // verus!
