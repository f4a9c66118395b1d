//! Bit sequences and their packed byte form.
//!
//! A bit sequence travels as its bit length followed by the minimal packed
//! bytes: bit `8 n + k` of the sequence sits at the most-significant-first
//! position `k` of byte `n`, and the unused trailing bits of the last byte
//! are zero.  The in-memory representation is `bit_vec::BitVec`, kept
//! behind a small set of trusted wrappers.
use vstd::prelude::*;
use crate::varint::pow2n;

verus! {

#[verifier::external_type_specification]
#[verifier::external_body]
#[verifier::reject_recursive_types(B)]
pub struct ExBitVec<B>(bit_vec::BitVec<B>);

/// The bits a `BitVec` holds, in index order.
pub uninterp spec fn bits_of(v: bit_vec::BitVec) -> Seq<bool>;

/// 1 when bit `i` of `bits` is set, 0 when clear or absent.
pub open spec fn bit01(bits: Seq<bool>, i: int) -> nat {
    if 0 <= i < bits.len() && bits[i] {
        1
    } else {
        0
    }
}

/// The packed byte holding bits `off .. off + 8`, most significant first.
pub open spec fn byte_at(bits: Seq<bool>, off: int) -> u8 {
    (128 * bit01(bits, off) + 64 * bit01(bits, off + 1) + 32 * bit01(bits, off + 2) + 16 * bit01(
        bits,
        off + 3,
    ) + 8 * bit01(bits, off + 4) + 4 * bit01(bits, off + 5) + 2 * bit01(bits, off + 6) + bit01(
        bits,
        off + 7,
    )) as u8
}

/// The minimal packed form of `bits`: one byte per eight bits, zero padding
/// in the trailing byte.
pub open spec fn pack_bits(bits: Seq<bool>) -> Seq<u8> {
    Seq::new((bits.len() + 7) / 8, |j: int| byte_at(bits, 8 * j))
}

/// Bit `k` (most significant first) of byte `b`.
pub open spec fn byte_bit(b: u8, k: int) -> bool
    recommends
        0 <= k < 8,
{
    (b as nat / pow2n((7 - k) as nat)) % 2 == 1
}

/// Every bit the bytes hold, eight per byte, most significant first.
pub open spec fn unpack_bits(bytes: Seq<u8>) -> Seq<bool> {
    Seq::new(8 * bytes.len(), |i: int| byte_bit(bytes[i / 8], i % 8))
}

proof fn lemma_byte_extract(b0: nat, b1: nat, b2: nat, b3: nat, b4: nat, b5: nat, b6: nat, b7: nat)
    requires
        b0 <= 1 && b1 <= 1 && b2 <= 1 && b3 <= 1 && b4 <= 1 && b5 <= 1 && b6 <= 1 && b7 <= 1,
    ensures
        ({
            let byte = 128 * b0 + 64 * b1 + 32 * b2 + 16 * b3 + 8 * b4 + 4 * b5 + 2 * b6 + b7;
            &&& byte / 128 % 2 == b0
            &&& byte / 64 % 2 == b1
            &&& byte / 32 % 2 == b2
            &&& byte / 16 % 2 == b3
            &&& byte / 8 % 2 == b4
            &&& byte / 4 % 2 == b5
            &&& byte / 2 % 2 == b6
            &&& byte / 1 % 2 == b7
        }),
{
    let byte = 128 * b0 + 64 * b1 + 32 * b2 + 16 * b3 + 8 * b4 + 4 * b5 + 2 * b6 + b7;
    assert(byte / 128 % 2 == b0 && byte / 64 % 2 == b1 && byte / 32 % 2 == b2 && byte / 16 % 2
        == b3 && byte / 8 % 2 == b4 && byte / 4 % 2 == b5 && byte / 2 % 2 == b6 && byte / 1 % 2
        == b7) by (nonlinear_arith)
        requires
            b0 <= 1 && b1 <= 1 && b2 <= 1 && b3 <= 1 && b4 <= 1 && b5 <= 1 && b6 <= 1 && b7 <= 1,
            byte == 128 * b0 + 64 * b1 + 32 * b2 + 16 * b3 + 8 * b4 + 4 * b5 + 2 * b6 + b7,
    ;
}

/// Unpacking the packed form recovers every bit, and the padding is clear.
pub proof fn lemma_pack_unpack(bits: Seq<bool>)
    ensures
        unpack_bits(pack_bits(bits)).len() == 8 * ((bits.len() + 7) / 8),
        forall|i: int|
            0 <= i < 8 * ((bits.len() + 7) / 8) ==> #[trigger] unpack_bits(pack_bits(bits))[i]
                == (i < bits.len() && bits[i]),
{
    let packed = pack_bits(bits);
    let un = unpack_bits(packed);
    assert forall|i: int| 0 <= i < 8 * ((bits.len() + 7) / 8) implies #[trigger] un[i] == (i
        < bits.len() && bits[i]) by {
        let j = i / 8;
        let k = i % 8;
        assert(0 <= k < 8);
        assert(0 <= j < packed.len()) by (nonlinear_arith)
            requires
                0 <= i < 8 * packed.len(),
                j == i / 8,
        ;
        assert(un[i] == byte_bit(packed[j], k));
        assert(packed[j] == byte_at(bits, 8 * j));
        lemma_byte_extract(
            bit01(bits, 8 * j),
            bit01(bits, 8 * j + 1),
            bit01(bits, 8 * j + 2),
            bit01(bits, 8 * j + 3),
            bit01(bits, 8 * j + 4),
            bit01(bits, 8 * j + 5),
            bit01(bits, 8 * j + 6),
            bit01(bits, 8 * j + 7),
        );
        assert(pow2n((7 - k) as nat) == if k == 0 {
            128nat
        } else if k == 1 {
            64nat
        } else if k == 2 {
            32nat
        } else if k == 3 {
            16nat
        } else if k == 4 {
            8nat
        } else if k == 5 {
            4nat
        } else if k == 6 {
            2nat
        } else {
            1nat
        }) by {
            assert(pow2n(0nat) == 1);
            assert(pow2n(1nat) == 2);
            assert(pow2n(2nat) == 4);
            assert(pow2n(3nat) == 8);
            assert(pow2n(4nat) == 16);
            assert(pow2n(5nat) == 32);
            assert(pow2n(6nat) == 64);
            assert(pow2n(7nat) == 128);
        }
        assert(8 * j + k == i) by (nonlinear_arith)
            requires
                j == i / 8,
                k == i % 8,
        ;
    }
}

/// Relies on `BitVec::len`: the number of valid bits the vector holds.
#[verifier::external_body]
pub fn bv_len(v: &bit_vec::BitVec) -> (r: usize)
    ensures
        r == bits_of(*v).len(),
{
    v.len()
}

/// Relies on `BitVec::to_bytes`: one byte per eight bits, each bit at the
/// most-significant-first position of its byte, trailing padding clear.
#[verifier::external_body]
pub fn bv_to_bytes(v: &bit_vec::BitVec) -> (r: Vec<u8>)
    ensures
        r@ == pack_bits(bits_of(*v)),
{
    v.to_bytes()
}

/// Relies on `BitVec::from_bytes`: eight bits per byte, most significant
/// first, so the result holds exactly the unpacked bits.
#[verifier::external_body]
pub fn bv_from_bytes(bytes: &[u8]) -> (r: bit_vec::BitVec)
    ensures
        bits_of(r) == unpack_bits(bytes@),
{
    bit_vec::BitVec::from_bytes(bytes)
}

/// Relies on `BitVec::truncate`: drops every bit past `len` and keeps the
/// vector unchanged when it is already short enough.
#[verifier::external_body]
pub fn bv_truncate(v: &mut bit_vec::BitVec, len: usize)
    ensures
        bits_of(*final(v)) == if len < bits_of(*old(v)).len() {
            bits_of(*old(v)).subrange(0, len as int)
        } else {
            bits_of(*old(v))
        },
{
    v.truncate(len)
}

/// A bit sequence, encoded as its bit length followed by the packed bytes.
#[derive(Debug, PartialEq, Eq)]
pub struct BVec {
    vec: bit_vec::BitVec,
}

impl View for BVec {
    type V = Seq<bool>;

    closed spec fn view(&self) -> Seq<bool> {
        bits_of(self.vec)
    }
}

impl BVec {
    /// Wraps an existing bit vector.
    pub fn new(vec: bit_vec::BitVec) -> (r: Self)
        ensures
            r@ == bits_of(vec),
    {
        BVec { vec }
    }

    /// The wrapped bit vector.
    pub fn get(&self) -> (r: &bit_vec::BitVec)
        ensures
            bits_of(*r) == self@,
    {
        &self.vec
    }

    /// The wrapped bit vector, for mutation.
    pub fn get_mut(&mut self) -> &mut bit_vec::BitVec {
        &mut self.vec
    }
}

} // verus!
