//! Floating-point wire layouts.
//!
//! Floats travel as raw little-endian IEEE 754 bit patterns.  The mode
//! chooses the wire width of each of the two source widths; a narrower
//! wire width rounds to nearest, ties to even, and reading widens back
//! exactly.  All conversions here work on the bit patterns as integers.
use vstd::prelude::*;
use vstd::bytes::spec_u16_to_le_bytes;
use vstd::bytes::spec_u32_to_le_bytes;
use vstd::bytes::spec_u64_to_le_bytes;
use crate::varint::pow2n;

verus! {

/// How floats are laid out on the wire.
#[derive(Clone, Copy, Debug, Hash, Eq, PartialEq, Ord, PartialOrd, Structural)]
pub enum FloatEncoding {
    /// 32-bit floats stay 32 bits wide and 64-bit floats stay 64 bits wide.
    Normal,
    /// Both widths travel as IEEE 754 binary16.
    F16,
    /// Both widths travel as binary32.
    F32,
    /// 32-bit floats travel as binary16 and 64-bit floats as binary32.
    HalvePrecision,
}

/// Wire widths `(bytes per 32-bit float, bytes per 64-bit float)` of a mode.
pub open spec fn spec_float_sizes(enc: FloatEncoding) -> (nat, nat) {
    match enc {
        FloatEncoding::Normal => (4nat, 8nat),
        FloatEncoding::F16 => (2nat, 2nat),
        FloatEncoding::F32 => (4nat, 4nat),
        FloatEncoding::HalvePrecision => (2nat, 4nat),
    }
}

/// Wire widths of a mode, as the size oracle uses them.
pub fn float_sizes(enc: FloatEncoding) -> (r: (usize, usize))
    ensures
        r.0 == spec_float_sizes(enc).0,
        r.1 == spec_float_sizes(enc).1,
{
    match enc {
        FloatEncoding::Normal => (4, 8),
        FloatEncoding::F16 => (2, 2),
        FloatEncoding::F32 => (4, 4),
        FloatEncoding::HalvePrecision => (2, 4),
    }
}

/// Round `sig / 2^sh` to the nearest integer, ties to even.
pub open spec fn rne(sig: nat, sh: nat) -> nat {
    let q = sig / pow2n(sh);
    let r = sig % pow2n(sh);
    if 2 * r > pow2n(sh) || (2 * r == pow2n(sh) && q % 2 == 1) {
        q + 1
    } else {
        q
    }
}

/// Doublings needed to raise `m` to at least `top`.
pub open spec fn norm_up(m: nat, top: nat) -> nat
    recommends
        1 <= m,
    decreases top - m,
{
    if m >= top || m == 0 {
        0
    } else if 2 * m >= top {
        1
    } else {
        1 + norm_up(2 * m, top)
    }
}

/// The binary32 pattern denoting the same value as binary16 pattern `h`.
pub open spec fn f16_to_f32_bits(h: u16) -> u32 {
    let s = (h / 0x8000) as nat;
    let e = ((h / 0x400) % 0x20) as nat;
    let m = (h % 0x400) as nat;
    if e == 0x1f {
        (s * 0x80000000 + 0x7f800000 + m * 0x2000) as u32
    } else if e == 0 {
        if m == 0 {
            (s * 0x80000000) as u32
        } else {
            let k = norm_up(m, 0x400);
            (s * 0x80000000 + (113 - k) * 0x800000 + (m * pow2n(k) - 0x400) * 0x2000) as u32
        }
    } else {
        (s * 0x80000000 + (e + 112) * 0x800000 + m * 0x2000) as u32
    }
}

/// The binary64 pattern denoting the same value as binary16 pattern `h`.
pub open spec fn f16_to_f64_bits(h: u16) -> u64 {
    let s = (h / 0x8000) as nat;
    let e = ((h / 0x400) % 0x20) as nat;
    let m = (h % 0x400) as nat;
    if e == 0x1f {
        (s * 0x8000000000000000 + 0x7ff0000000000000 + m * 0x40000000000) as u64
    } else if e == 0 {
        if m == 0 {
            (s * 0x8000000000000000) as u64
        } else {
            let k = norm_up(m, 0x400);
            (s * 0x8000000000000000 + (1009 - k) * 0x10000000000000 + (m * pow2n(k) - 0x400)
                * 0x40000000000) as u64
        }
    } else {
        (s * 0x8000000000000000 + (e + 1008) * 0x10000000000000 + m * 0x40000000000) as u64
    }
}

/// The binary64 pattern denoting the same value as binary32 pattern `x`.
pub open spec fn f32_to_f64_bits(x: u32) -> u64 {
    let s = (x / 0x80000000) as nat;
    let e = ((x / 0x800000) % 0x100) as nat;
    let m = (x % 0x800000) as nat;
    if e == 0xff {
        (s * 0x8000000000000000 + 0x7ff0000000000000 + m * 0x20000000) as u64
    } else if e == 0 {
        if m == 0 {
            (s * 0x8000000000000000) as u64
        } else {
            let k = norm_up(m, 0x800000);
            (s * 0x8000000000000000 + (897 - k) * 0x10000000000000 + (m * pow2n(k) - 0x800000)
                * 0x20000000) as u64
        }
    } else {
        (s * 0x8000000000000000 + (e + 896) * 0x10000000000000 + m * 0x20000000) as u64
    }
}

/// The binary32 pattern nearest (ties to even) to binary64 pattern `x`.
/// A NaN keeps its truncated payload and is made quiet.
pub open spec fn f64_to_f32_bits(x: u64) -> u32 {
    let s = (x / 0x8000000000000000) as nat;
    let e = ((x / 0x10000000000000) % 0x800) as nat;
    let m = (x % 0x10000000000000) as nat;
    if e == 0x7ff {
        if m == 0 {
            (s * 0x80000000 + 0x7f800000) as u32
        } else {
            (s * 0x80000000 + 0x7fc00000 + (m / 0x20000000) % 0x400000) as u32
        }
    } else {
        let sig = if e == 0 {
            m
        } else {
            (m + 0x10000000000000) as nat
        };
        let xe = if e == 0 {
            1nat
        } else {
            e
        };
        if xe > 896 {
            let q0 = rne(sig, 29);
            let bump: nat = if q0 == 0x1000000 {
                1
            } else {
                0
            };
            let q = if q0 == 0x1000000 {
                0x800000nat
            } else {
                q0
            };
            let ebits = (xe - 896 + bump) as nat;
            if ebits >= 255 {
                (s * 0x80000000 + 0x7f800000) as u32
            } else {
                (s * 0x80000000 + ebits * 0x800000 + (q - 0x800000)) as u32
            }
        } else {
            let q = rne(sig, (926 - xe) as nat);
            if q >= 0x800000 {
                (s * 0x80000000 + 0x800000) as u32
            } else {
                (s * 0x80000000 + q) as u32
            }
        }
    }
}

/// The binary16 pattern nearest (ties to even) to binary64 pattern `x`.
pub open spec fn f64_to_f16_bits(x: u64) -> u16 {
    let s = (x / 0x8000000000000000) as nat;
    let e = ((x / 0x10000000000000) % 0x800) as nat;
    let m = (x % 0x10000000000000) as nat;
    if e == 0x7ff {
        if m == 0 {
            (s * 0x8000 + 0x7c00) as u16
        } else {
            (s * 0x8000 + 0x7e00 + (m / 0x40000000000) % 0x200) as u16
        }
    } else {
        let sig = if e == 0 {
            m
        } else {
            (m + 0x10000000000000) as nat
        };
        let xe = if e == 0 {
            1nat
        } else {
            e
        };
        if xe > 1008 {
            let q0 = rne(sig, 42);
            let bump: nat = if q0 == 0x800 {
                1
            } else {
                0
            };
            let q = if q0 == 0x800 {
                0x400nat
            } else {
                q0
            };
            let ebits = (xe - 1008 + bump) as nat;
            if ebits >= 31 {
                (s * 0x8000 + 0x7c00) as u16
            } else {
                (s * 0x8000 + ebits * 0x400 + (q - 0x400)) as u16
            }
        } else {
            let q = rne(sig, (1051 - xe) as nat);
            if q >= 0x400 {
                (s * 0x8000 + 0x400) as u16
            } else {
                (s * 0x8000 + q) as u16
            }
        }
    }
}

/// The binary16 pattern nearest (ties to even) to binary32 pattern `x`.
pub open spec fn f32_to_f16_bits(x: u32) -> u16 {
    let s = (x / 0x80000000) as nat;
    let e = ((x / 0x800000) % 0x100) as nat;
    let m = (x % 0x800000) as nat;
    if e == 0xff {
        if m == 0 {
            (s * 0x8000 + 0x7c00) as u16
        } else {
            (s * 0x8000 + 0x7e00 + (m / 0x2000) % 0x200) as u16
        }
    } else {
        let sig = if e == 0 {
            m
        } else {
            (m + 0x800000) as nat
        };
        let xe = if e == 0 {
            1nat
        } else {
            e
        };
        if xe > 112 {
            let q0 = rne(sig, 13);
            let bump: nat = if q0 == 0x800 {
                1
            } else {
                0
            };
            let q = if q0 == 0x800 {
                0x400nat
            } else {
                q0
            };
            let ebits = (xe - 112 + bump) as nat;
            if ebits >= 31 {
                (s * 0x8000 + 0x7c00) as u16
            } else {
                (s * 0x8000 + ebits * 0x400 + (q - 0x400)) as u16
            }
        } else {
            let q = rne(sig, (126 - xe) as nat);
            if q >= 0x400 {
                (s * 0x8000 + 0x400) as u16
            } else {
                (s * 0x8000 + q) as u16
            }
        }
    }
}

/// Bytes a 32-bit float with pattern `bits` occupies on the wire under `enc`.
pub open spec fn f32_wire(enc: FloatEncoding, bits: u32) -> Seq<u8> {
    match enc {
        FloatEncoding::Normal => spec_u32_to_le_bytes(bits),
        FloatEncoding::F32 => spec_u32_to_le_bytes(bits),
        FloatEncoding::F16 => spec_u16_to_le_bytes(f32_to_f16_bits(bits)),
        FloatEncoding::HalvePrecision => spec_u16_to_le_bytes(f32_to_f16_bits(bits)),
    }
}

/// Bytes a 64-bit float with pattern `bits` occupies on the wire under `enc`.
pub open spec fn f64_wire(enc: FloatEncoding, bits: u64) -> Seq<u8> {
    match enc {
        FloatEncoding::Normal => spec_u64_to_le_bytes(bits),
        FloatEncoding::F16 => spec_u16_to_le_bytes(f64_to_f16_bits(bits)),
        FloatEncoding::F32 => spec_u32_to_le_bytes(f64_to_f32_bits(bits)),
        FloatEncoding::HalvePrecision => spec_u32_to_le_bytes(f64_to_f32_bits(bits)),
    }
}

/// Values of `pow2n` up to the 64-bit range, by unfolding.
pub proof fn lemma_pow2n_values()
    ensures
        pow2n(0nat) == 0x1,
        pow2n(1nat) == 0x2,
        pow2n(2nat) == 0x4,
        pow2n(3nat) == 0x8,
        pow2n(4nat) == 0x10,
        pow2n(5nat) == 0x20,
        pow2n(6nat) == 0x40,
        pow2n(7nat) == 0x80,
        pow2n(8nat) == 0x100,
        pow2n(9nat) == 0x200,
        pow2n(10nat) == 0x400,
        pow2n(11nat) == 0x800,
        pow2n(12nat) == 0x1000,
        pow2n(13nat) == 0x2000,
        pow2n(14nat) == 0x4000,
        pow2n(15nat) == 0x8000,
        pow2n(16nat) == 0x10000,
        pow2n(17nat) == 0x20000,
        pow2n(18nat) == 0x40000,
        pow2n(19nat) == 0x80000,
        pow2n(20nat) == 0x100000,
        pow2n(21nat) == 0x200000,
        pow2n(22nat) == 0x400000,
        pow2n(23nat) == 0x800000,
        pow2n(24nat) == 0x1000000,
        pow2n(25nat) == 0x2000000,
        pow2n(26nat) == 0x4000000,
        pow2n(27nat) == 0x8000000,
        pow2n(28nat) == 0x10000000,
        pow2n(29nat) == 0x20000000,
        pow2n(30nat) == 0x40000000,
        pow2n(31nat) == 0x80000000,
        pow2n(32nat) == 0x100000000,
        pow2n(33nat) == 0x200000000,
        pow2n(34nat) == 0x400000000,
        pow2n(35nat) == 0x800000000,
        pow2n(36nat) == 0x1000000000,
        pow2n(37nat) == 0x2000000000,
        pow2n(38nat) == 0x4000000000,
        pow2n(39nat) == 0x8000000000,
        pow2n(40nat) == 0x10000000000,
        pow2n(41nat) == 0x20000000000,
        pow2n(42nat) == 0x40000000000,
        pow2n(43nat) == 0x80000000000,
        pow2n(44nat) == 0x100000000000,
        pow2n(45nat) == 0x200000000000,
        pow2n(46nat) == 0x400000000000,
        pow2n(47nat) == 0x800000000000,
        pow2n(48nat) == 0x1000000000000,
        pow2n(49nat) == 0x2000000000000,
        pow2n(50nat) == 0x4000000000000,
        pow2n(51nat) == 0x8000000000000,
        pow2n(52nat) == 0x10000000000000,
        pow2n(53nat) == 0x20000000000000,
        pow2n(54nat) == 0x40000000000000,
        pow2n(55nat) == 0x80000000000000,
        pow2n(56nat) == 0x100000000000000,
        pow2n(57nat) == 0x200000000000000,
        pow2n(58nat) == 0x400000000000000,
        pow2n(59nat) == 0x800000000000000,
        pow2n(60nat) == 0x1000000000000000,
        pow2n(61nat) == 0x2000000000000000,
        pow2n(62nat) == 0x4000000000000000,
        pow2n(63nat) == 0x8000000000000000,
        pow2n(64nat) == 0x10000000000000000,
{
    assert(pow2n(0nat) == 0x1);
    assert(pow2n(1nat) == 0x2);
    assert(pow2n(2nat) == 0x4);
    assert(pow2n(3nat) == 0x8);
    assert(pow2n(4nat) == 0x10);
    assert(pow2n(5nat) == 0x20);
    assert(pow2n(6nat) == 0x40);
    assert(pow2n(7nat) == 0x80);
    assert(pow2n(8nat) == 0x100);
    assert(pow2n(9nat) == 0x200);
    assert(pow2n(10nat) == 0x400);
    assert(pow2n(11nat) == 0x800);
    assert(pow2n(12nat) == 0x1000);
    assert(pow2n(13nat) == 0x2000);
    assert(pow2n(14nat) == 0x4000);
    assert(pow2n(15nat) == 0x8000);
    assert(pow2n(16nat) == 0x10000);
    assert(pow2n(17nat) == 0x20000);
    assert(pow2n(18nat) == 0x40000);
    assert(pow2n(19nat) == 0x80000);
    assert(pow2n(20nat) == 0x100000);
    assert(pow2n(21nat) == 0x200000);
    assert(pow2n(22nat) == 0x400000);
    assert(pow2n(23nat) == 0x800000);
    assert(pow2n(24nat) == 0x1000000);
    assert(pow2n(25nat) == 0x2000000);
    assert(pow2n(26nat) == 0x4000000);
    assert(pow2n(27nat) == 0x8000000);
    assert(pow2n(28nat) == 0x10000000);
    assert(pow2n(29nat) == 0x20000000);
    assert(pow2n(30nat) == 0x40000000);
    assert(pow2n(31nat) == 0x80000000);
    assert(pow2n(32nat) == 0x100000000);
    assert(pow2n(33nat) == 0x200000000);
    assert(pow2n(34nat) == 0x400000000);
    assert(pow2n(35nat) == 0x800000000);
    assert(pow2n(36nat) == 0x1000000000);
    assert(pow2n(37nat) == 0x2000000000);
    assert(pow2n(38nat) == 0x4000000000);
    assert(pow2n(39nat) == 0x8000000000);
    assert(pow2n(40nat) == 0x10000000000);
    assert(pow2n(41nat) == 0x20000000000);
    assert(pow2n(42nat) == 0x40000000000);
    assert(pow2n(43nat) == 0x80000000000);
    assert(pow2n(44nat) == 0x100000000000);
    assert(pow2n(45nat) == 0x200000000000);
    assert(pow2n(46nat) == 0x400000000000);
    assert(pow2n(47nat) == 0x800000000000);
    assert(pow2n(48nat) == 0x1000000000000);
    assert(pow2n(49nat) == 0x2000000000000);
    assert(pow2n(50nat) == 0x4000000000000);
    assert(pow2n(51nat) == 0x8000000000000);
    assert(pow2n(52nat) == 0x10000000000000);
    assert(pow2n(53nat) == 0x20000000000000);
    assert(pow2n(54nat) == 0x40000000000000);
    assert(pow2n(55nat) == 0x80000000000000);
    assert(pow2n(56nat) == 0x100000000000000);
    assert(pow2n(57nat) == 0x200000000000000);
    assert(pow2n(58nat) == 0x400000000000000);
    assert(pow2n(59nat) == 0x800000000000000);
    assert(pow2n(60nat) == 0x1000000000000000);
    assert(pow2n(61nat) == 0x2000000000000000);
    assert(pow2n(62nat) == 0x4000000000000000);
    assert(pow2n(63nat) == 0x8000000000000000);
    assert(pow2n(64nat) == 0x10000000000000000);
}

pub proof fn lemma_pow2n_mono(a: nat, b: nat)
    requires
        a <= b,
    ensures
        pow2n(a) <= pow2n(b),
    decreases b,
{
    if a < b && b > 0 {
        lemma_pow2n_mono(a, (b - 1) as nat);
        assert(pow2n(b) == 2 * pow2n((b - 1) as nat));
        assert(pow2n((b - 1) as nat) >= 1) by {
            lemma_pow2n_pos((b - 1) as nat);
        }
    }
}

pub proof fn lemma_pow2n_pos(k: nat)
    ensures
        pow2n(k) >= 1,
    decreases k,
{
    if k > 0 {
        lemma_pow2n_pos((k - 1) as nat);
    }
}

/// Rounding sits between truncation and truncation plus one.
pub proof fn lemma_rne_bounds(sig: nat, sh: nat)
    ensures
        sig / pow2n(sh) <= rne(sig, sh) <= sig / pow2n(sh) + 1,
{
}

/// A significand below the tie point of a large shift rounds to zero.
proof fn lemma_rne_zero(sig: nat, sh: nat)
    requires
        sig < 0x20000000000000,
        sh >= 54,
    ensures
        rne(sig, sh) == 0,
{
    lemma_pow2n_values();
    lemma_pow2n_mono(54nat, sh);
    assert(pow2n(sh) >= 0x40000000000000);
    assert(sig / pow2n(sh) == 0) by {
        vstd::arithmetic::div_mod::lemma_basic_div(sig as int, pow2n(sh) as int);
    }
    assert(sig % pow2n(sh) == sig) by {
        vstd::arithmetic::div_mod::lemma_small_mod(sig, pow2n(sh));
    }
}

/// `2^k`, executable.
fn pow2_u64(k: u64) -> (r: u64)
    requires
        k <= 63,
    ensures
        r as nat == pow2n(k as nat),
{
    proof {
        lemma_pow2n_values();
    }
    let mut r: u64 = 1;
    let mut i: u64 = 0;
    while i < k
        invariant
            i <= k <= 63,
            r as nat == pow2n(i as nat),
        decreases k - i,
    {
        proof {
            lemma_pow2n_values();
            lemma_pow2n_mono((i + 1) as nat, 63nat);
            assert(pow2n((i + 1) as nat) == 2 * pow2n(i as nat));
        }
        r = r * 2;
        i = i + 1;
    }
    r
}

/// Round `sig / 2^sh` to nearest, ties to even, executable.
fn rne_exec(sig: u64, sh: u64) -> (r: u64)
    requires
        sig < 0x20000000000000,
    ensures
        r as nat == rne(sig as nat, sh as nat),
{
    if sh >= 54 {
        proof {
            lemma_rne_zero(sig as nat, sh as nat);
        }
        0
    } else {
        let p = pow2_u64(sh);
        proof {
            lemma_pow2n_pos(sh as nat);
            lemma_pow2n_values();
            lemma_pow2n_mono(sh as nat, 53nat);
        }
        let q = sig / p;
        let r = sig % p;
        if 2 * r > p || (2 * r == p && q % 2 == 1) {
            q + 1
        } else {
            q
        }
    }
}

/// Doubles `m` until it reaches `top`; returns the doubling count and the
/// raised value.
fn norm_up_exec(m: u64, top: u64) -> (r: (u64, u64))
    requires
        1 <= m < top,
        top <= 0x800000,
    ensures
        r.0 as nat == norm_up(m as nat, top as nat),
        r.1 as nat == m as nat * pow2n(r.0 as nat),
        top <= r.1 < 2 * top,
        r.0 <= 23,
{
    let mut k: u64 = 0;
    let mut m2: u64 = m;
    proof {
        assert(pow2n(0nat) == 1);
    }
    while m2 < top
        invariant
            1 <= m2 < 2 * top,
            top <= 0x800000,
            m2 as nat == m as nat * pow2n(k as nat),
            norm_up(m as nat, top as nat) == k as nat + norm_up(m2 as nat, top as nat),
            k <= 23,
        decreases 2 * top - m2,
    {
        proof {
            assert(norm_up(m2 as nat, top as nat) == 1 + norm_up((2 * m2) as nat, top as nat));
            assert((2 * m2) as nat == m as nat * pow2n((k + 1) as nat)) by (nonlinear_arith)
                requires
                    m2 as nat == m as nat * pow2n(k as nat),
                    pow2n((k + 1) as nat) == 2 * pow2n(k as nat),
            ;
            assert(pow2n((k + 1) as nat) == 2 * pow2n(k as nat));
            assert(k < 23) by {
                if k >= 23 {
                    lemma_pow2n_values();
                    lemma_pow2n_mono(23nat, k as nat);
                    assert(m as nat * pow2n(k as nat) >= pow2n(k as nat)) by (nonlinear_arith)
                        requires
                            m >= 1,
                    ;
                }
            }
        }
        m2 = m2 * 2;
        k = k + 1;
    }
    (k, m2)
}


proof fn lemma_sign64(x: u64)
    ensures
        x / 0x8000000000000000 == if x >= 0x8000000000000000 {
            1nat
        } else {
            0nat
        },
{
    if x >= 0x8000000000000000 {
        assert(x / 0x8000000000000000 == 1) by (nonlinear_arith)
            requires
                0x8000000000000000 <= x <= 0xffffffffffffffff,
        ;
    } else {
        assert(x / 0x8000000000000000 == 0) by (nonlinear_arith)
            requires
                x < 0x8000000000000000,
        ;
    }
}

proof fn lemma_sign32(x: u32)
    ensures
        x / 0x80000000 == if x >= 0x80000000 {
            1nat
        } else {
            0nat
        },
{
    if x >= 0x80000000 {
        assert(x / 0x80000000 == 1) by (nonlinear_arith)
            requires
                0x80000000 <= x <= 0xffffffff,
        ;
    } else {
        assert(x / 0x80000000 == 0) by (nonlinear_arith)
            requires
                x < 0x80000000,
        ;
    }
}

proof fn lemma_sign16(h: u16)
    ensures
        h / 0x8000 == if h >= 0x8000 {
            1nat
        } else {
            0nat
        },
{
    if h >= 0x8000 {
        assert(h / 0x8000 == 1) by (nonlinear_arith)
            requires
                0x8000 <= h <= 0xffff,
        ;
    } else {
        assert(h / 0x8000 == 0) by (nonlinear_arith)
            requires
                h < 0x8000,
        ;
    }
}

proof fn lemma_norm_k_small(m: nat, top: nat, k: nat, m2: nat)
    requires
        1 <= m,
        m2 == m * pow2n(k),
        m2 < 2 * top,
        top <= 0x800000,
    ensures
        k <= 23,
{
    if k > 23 {
        lemma_pow2n_values();
        lemma_pow2n_mono(24nat, k);
        assert(m * pow2n(k) >= pow2n(k)) by (nonlinear_arith)
            requires
                m >= 1,
        ;
    }
}

/// Exact widening of a binary16 pattern to binary32.
pub fn f16_to_f32(h: u16) -> (r: u32)
    ensures
        r == f16_to_f32_bits(h),
{
    proof {
        lemma_sign16(h);
    }
    let sbits: u32 = if h >= 0x8000 {
        0x80000000
    } else {
        0
    };
    let e: u16 = (h / 0x400) % 0x20;
    let m: u16 = h % 0x400;
    if e == 0x1f {
        sbits + 0x7f800000 + (m as u32) * 0x2000
    } else if e == 0 {
        if m == 0 {
            sbits
        } else {
            let km = norm_up_exec(m as u64, 0x400);
            proof {
                lemma_norm_k_small(m as nat, 0x400nat, km.0 as nat, km.1 as nat);
            }
            sbits + (113 - km.0 as u32) * 0x800000 + (km.1 as u32 - 0x400) * 0x2000
        }
    } else {
        sbits + (e as u32 + 112) * 0x800000 + (m as u32) * 0x2000
    }
}

/// Exact widening of a binary16 pattern to binary64.
pub fn f16_to_f64(h: u16) -> (r: u64)
    ensures
        r == f16_to_f64_bits(h),
{
    proof {
        lemma_sign16(h);
    }
    let sbits: u64 = if h >= 0x8000 {
        0x8000000000000000
    } else {
        0
    };
    let e: u16 = (h / 0x400) % 0x20;
    let m: u16 = h % 0x400;
    if e == 0x1f {
        sbits + 0x7ff0000000000000 + (m as u64) * 0x40000000000
    } else if e == 0 {
        if m == 0 {
            sbits
        } else {
            let km = norm_up_exec(m as u64, 0x400);
            proof {
                lemma_norm_k_small(m as nat, 0x400nat, km.0 as nat, km.1 as nat);
            }
            sbits + (1009 - km.0) * 0x10000000000000 + (km.1 - 0x400) * 0x40000000000
        }
    } else {
        sbits + (e as u64 + 1008) * 0x10000000000000 + (m as u64) * 0x40000000000
    }
}

/// Exact widening of a binary32 pattern to binary64.
pub fn f32_to_f64(x: u32) -> (r: u64)
    ensures
        r == f32_to_f64_bits(x),
{
    proof {
        lemma_sign32(x);
    }
    let sbits: u64 = if x >= 0x80000000 {
        0x8000000000000000
    } else {
        0
    };
    let e: u32 = (x / 0x800000) % 0x100;
    let m: u32 = x % 0x800000;
    if e == 0xff {
        sbits + 0x7ff0000000000000 + (m as u64) * 0x20000000
    } else if e == 0 {
        if m == 0 {
            sbits
        } else {
            let km = norm_up_exec(m as u64, 0x800000);
            proof {
                lemma_norm_k_small(m as nat, 0x800000nat, km.0 as nat, km.1 as nat);
            }
            sbits + (897 - km.0) * 0x10000000000000 + (km.1 - 0x800000) * 0x20000000
        }
    } else {
        sbits + (e as u64 + 896) * 0x10000000000000 + (m as u64) * 0x20000000
    }
}

/// Nearest binary32 pattern (ties to even) below a binary64 pattern.
pub fn f64_to_f32(x: u64) -> (r: u32)
    ensures
        r == f64_to_f32_bits(x),
{
    proof {
        lemma_sign64(x);
        lemma_pow2n_values();
    }
    let sbits: u32 = if x >= 0x8000000000000000 {
        0x80000000
    } else {
        0
    };
    let e: u64 = (x / 0x10000000000000) % 0x800;
    let m: u64 = x % 0x10000000000000;
    if e == 0x7ff {
        if m == 0 {
            sbits + 0x7f800000
        } else {
            sbits + 0x7fc00000 + ((m / 0x20000000) % 0x400000) as u32
        }
    } else {
        let sig: u64 = if e == 0 {
            m
        } else {
            m + 0x10000000000000
        };
        let xe: u64 = if e == 0 {
            1
        } else {
            e
        };
        if xe > 896 {
            let q0 = rne_exec(sig, 29);
            proof {
                lemma_rne_bounds(sig as nat, 29nat);
                assert(sig / 0x20000000 < 0x1000000) by (nonlinear_arith)
                    requires
                        sig < 0x20000000000000,
                ;
                assert(sig / 0x20000000 >= 0x800000) by (nonlinear_arith)
                    requires
                        sig >= 0x10000000000000,
                ;
            }
            let qe = if q0 == 0x1000000 {
                (0x800000u64, xe - 896 + 1)
            } else {
                (q0, xe - 896)
            };
            if qe.1 >= 255 {
                sbits + 0x7f800000
            } else {
                sbits + (qe.1 as u32) * 0x800000 + (qe.0 as u32 - 0x800000)
            }
        } else {
            let q = rne_exec(sig, 926 - xe);
            proof {
                lemma_rne_bounds(sig as nat, (926 - xe) as nat);
                lemma_pow2n_pos((926 - xe) as nat);
            }
            if q >= 0x800000 {
                sbits + 0x800000
            } else {
                sbits + q as u32
            }
        }
    }
}

/// Nearest binary16 pattern (ties to even) below a binary64 pattern.
pub fn f64_to_f16(x: u64) -> (r: u16)
    ensures
        r == f64_to_f16_bits(x),
{
    proof {
        lemma_sign64(x);
        lemma_pow2n_values();
    }
    let sbits: u16 = if x >= 0x8000000000000000 {
        0x8000
    } else {
        0
    };
    let e: u64 = (x / 0x10000000000000) % 0x800;
    let m: u64 = x % 0x10000000000000;
    if e == 0x7ff {
        if m == 0 {
            sbits + 0x7c00
        } else {
            sbits + 0x7e00 + ((m / 0x40000000000) % 0x200) as u16
        }
    } else {
        let sig: u64 = if e == 0 {
            m
        } else {
            m + 0x10000000000000
        };
        let xe: u64 = if e == 0 {
            1
        } else {
            e
        };
        if xe > 1008 {
            let q0 = rne_exec(sig, 42);
            proof {
                lemma_rne_bounds(sig as nat, 42nat);
                assert(sig / 0x40000000000 < 0x800) by (nonlinear_arith)
                    requires
                        sig < 0x20000000000000,
                ;
                assert(sig / 0x40000000000 >= 0x400) by (nonlinear_arith)
                    requires
                        sig >= 0x10000000000000,
                ;
            }
            let qe = if q0 == 0x800 {
                (0x400u64, xe - 1008 + 1)
            } else {
                (q0, xe - 1008)
            };
            if qe.1 >= 31 {
                sbits + 0x7c00
            } else {
                sbits + (qe.1 as u16) * 0x400 + (qe.0 as u16 - 0x400)
            }
        } else {
            let q = rne_exec(sig, 1051 - xe);
            proof {
                lemma_rne_bounds(sig as nat, (1051 - xe) as nat);
                lemma_pow2n_pos((1051 - xe) as nat);
            }
            if q >= 0x400 {
                sbits + 0x400
            } else {
                sbits + q as u16
            }
        }
    }
}

/// Nearest binary16 pattern (ties to even) below a binary32 pattern.
pub fn f32_to_f16(x: u32) -> (r: u16)
    ensures
        r == f32_to_f16_bits(x),
{
    proof {
        lemma_sign32(x);
        lemma_pow2n_values();
    }
    let sbits: u16 = if x >= 0x80000000 {
        0x8000
    } else {
        0
    };
    let e: u32 = (x / 0x800000) % 0x100;
    let m: u32 = x % 0x800000;
    if e == 0xff {
        if m == 0 {
            sbits + 0x7c00
        } else {
            sbits + 0x7e00 + ((m / 0x2000) % 0x200) as u16
        }
    } else {
        let sig: u32 = if e == 0 {
            m
        } else {
            m + 0x800000
        };
        let xe: u32 = if e == 0 {
            1
        } else {
            e
        };
        if xe > 112 {
            let q0 = rne_exec(sig as u64, 13);
            proof {
                lemma_rne_bounds(sig as nat, 13nat);
                assert(sig / 0x2000 < 0x800) by (nonlinear_arith)
                    requires
                        sig < 0x1000000,
                ;
                assert(sig / 0x2000 >= 0x400) by (nonlinear_arith)
                    requires
                        sig >= 0x800000,
                ;
            }
            let qe = if q0 == 0x800 {
                (0x400u64, xe - 112 + 1)
            } else {
                (q0, xe - 112)
            };
            if qe.1 >= 31 {
                sbits + 0x7c00
            } else {
                sbits + (qe.1 as u16) * 0x400 + (qe.0 as u16 - 0x400)
            }
        } else {
            let q = rne_exec(sig as u64, (126 - xe) as u64);
            proof {
                lemma_rne_bounds(sig as nat, (126 - xe) as nat);
                lemma_pow2n_pos((126 - xe) as nat);
            }
            if q >= 0x400 {
                sbits + 0x400
            } else {
                sbits + q as u16
            }
        }
    }
}

pub proof fn lemma_f32_wire_len(enc: FloatEncoding, bits: u32)
    ensures
        f32_wire(enc, bits).len() == spec_float_sizes(enc).0,
{
    vstd::bytes::lemma_auto_spec_u16_to_from_le_bytes();
    vstd::bytes::lemma_auto_spec_u32_to_from_le_bytes();
}

pub proof fn lemma_f64_wire_len(enc: FloatEncoding, bits: u64)
    ensures
        f64_wire(enc, bits).len() == spec_float_sizes(enc).1,
{
    vstd::bytes::lemma_auto_spec_u16_to_from_le_bytes();
    vstd::bytes::lemma_auto_spec_u32_to_from_le_bytes();
    vstd::bytes::lemma_auto_spec_u64_to_from_le_bytes();
}

} // verus!
