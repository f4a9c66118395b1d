//! LEB128 variable-length integer coding.
//!
//! Unsigned values are split into seven-bit groups, least-significant group
//! first; every byte but the last carries a set continuation bit.  Signed
//! values use the sign-extended variant: the terminating byte has its
//! continuation bit clear and bit six equal to the sign of the value.
use vstd::prelude::*;
use vstd::arithmetic::div_mod::lemma_fundamental_div_mod;
use vstd::math::abs;

verus! {

/// Bytes of the unsigned LEB128 encoding of `n`.
pub open spec fn leb_u(n: nat) -> Seq<u8>
    decreases n,
{
    if n < 128 {
        seq![n as u8]
    } else {
        seq![(128 + n % 128) as u8] + leb_u(n / 128)
    }
}

/// Number of bytes in the unsigned LEB128 encoding of `n`.
pub open spec fn leb_u_len(n: nat) -> nat
    decreases n,
{
    if n < 128 {
        1
    } else {
        1 + leb_u_len(n / 128)
    }
}

/// Bytes of the signed (sign-extended) LEB128 encoding of `n`.
pub open spec fn leb_s(n: int) -> Seq<u8>
    decreases abs(n),
{
    if -64 <= n < 64 {
        seq![(n % 128) as u8]
    } else {
        seq![(128 + n % 128) as u8] + leb_s(n / 128)
    }
}

/// Number of bytes in the signed LEB128 encoding of `n`.
pub open spec fn leb_s_len(n: int) -> nat
    decreases abs(n),
{
    if -64 <= n < 64 {
        1
    } else {
        1 + leb_s_len(n / 128)
    }
}

/// Number of binary digits needed to write `n`, with zero needing none.
pub open spec fn bits_needed(n: nat) -> nat
    decreases n,
{
    if n == 0 {
        0
    } else {
        1 + bits_needed(n / 2)
    }
}

pub broadcast proof fn lemma_leb_u_len(n: nat)
    ensures
        #[trigger] leb_u(n).len() == leb_u_len(n),
    decreases n,
{
    if n >= 128 {
        lemma_leb_u_len(n / 128);
    }
}

pub broadcast proof fn lemma_leb_s_len(n: int)
    ensures
        #[trigger] leb_s(n).len() == leb_s_len(n),
    decreases abs(n),
{
    if !(-64 <= n < 64) {
        lemma_leb_s_len(n / 128);
    }
}

proof fn lemma_bits_needed_div128(n: nat)
    requires
        n >= 128,
    ensures
        bits_needed(n) == 7 + bits_needed(n / 128),
{
    assert(n / 2 / 2 == n / 4 && n / 4 / 2 == n / 8 && n / 8 / 2 == n / 16 && n / 16 / 2 == n / 32
        && n / 32 / 2 == n / 64 && n / 64 / 2 == n / 128) by (nonlinear_arith);
    assert(n / 2 >= 64 && n / 4 >= 32 && n / 8 >= 16 && n / 16 >= 8 && n / 32 >= 4 && n / 64 >= 2)
        by (nonlinear_arith)
        requires
            n >= 128,
    ;
    assert(bits_needed(n) == 1 + bits_needed(n / 2));
    assert(bits_needed(n / 2) == 1 + bits_needed(n / 4));
    assert(bits_needed(n / 4) == 1 + bits_needed(n / 8));
    assert(bits_needed(n / 8) == 1 + bits_needed(n / 16));
    assert(bits_needed(n / 16) == 1 + bits_needed(n / 32));
    assert(bits_needed(n / 32) == 1 + bits_needed(n / 64));
    assert(bits_needed(n / 64) == 1 + bits_needed(n / 128));
}

/// `2^k`.
pub open spec fn pow2n(k: nat) -> nat
    decreases k,
{
    if k == 0 {
        1
    } else {
        2 * pow2n((k - 1) as nat)
    }
}

proof fn lemma_bits_needed_upper(n: nat, k: nat)
    requires
        n < pow2n(k),
    ensures
        bits_needed(n) <= k,
    decreases k,
{
    if n > 0 {
        assert(k > 0) by {
            if k == 0 {
                assert(pow2n(0nat) == 1);
            }
        }
        assert(pow2n(k) == 2 * pow2n((k - 1) as nat));
        assert(n / 2 < pow2n((k - 1) as nat)) by (nonlinear_arith)
            requires
                n < 2 * pow2n((k - 1) as nat),
        ;
        lemma_bits_needed_upper(n / 2, (k - 1) as nat);
    }
}

/// The unsigned encoding is minimal: it spends exactly one byte per seven
/// binary digits of the value, and one byte for zero.
pub proof fn lemma_leb_u_minimal(n: nat)
    ensures
        leb_u(n).len() == if n == 0 {
            1nat
        } else {
            ((bits_needed(n) + 6) / 7) as nat
        },
    decreases n,
{
    lemma_leb_u_len(n);
    if n == 0 {
    } else if n < 128 {
        assert(bits_needed(n) <= 7) by {
            assert(pow2n(0nat) == 1);
            assert(pow2n(1nat) == 2);
            assert(pow2n(2nat) == 4);
            assert(pow2n(3nat) == 8);
            assert(pow2n(4nat) == 16);
            assert(pow2n(5nat) == 32);
            assert(pow2n(6nat) == 64);
            assert(pow2n(7nat) == 128);
            lemma_bits_needed_upper(n, 7nat);
        }
        assert(bits_needed(n) >= 1);
    } else {
        lemma_leb_u_minimal(n / 128);
        lemma_leb_u_len(n / 128);
        lemma_bits_needed_div128(n);
        assert(n / 128 != 0) by (nonlinear_arith)
            requires
                n >= 128,
        ;
    }
}


/// Binary digits needed to write `n` as a signed value, sign bit included.
pub open spec fn sbits_needed(n: int) -> nat {
    if n >= 0 {
        bits_needed(n as nat) + 1
    } else {
        bits_needed((-n - 1) as nat) + 1
    }
}

proof fn lemma_bits_needed_lower(n: nat, k: nat)
    requires
        n >= pow2n(k),
    ensures
        bits_needed(n) >= k + 1,
    decreases k,
{
    if k == 0 {
        assert(pow2n(0nat) == 1);
    } else {
        assert(pow2n(k) == 2 * pow2n((k - 1) as nat));
        assert(n / 2 >= pow2n((k - 1) as nat)) by (nonlinear_arith)
            requires
                n >= 2 * pow2n((k - 1) as nat),
        ;
        lemma_bits_needed_lower(n / 2, (k - 1) as nat);
    }
}

proof fn lemma_bits_needed_64_127(m: nat)
    requires
        64 <= m < 128,
    ensures
        bits_needed(m) == 7,
{
    assert(pow2n(0nat) == 1);
    assert(pow2n(1nat) == 2);
    assert(pow2n(2nat) == 4);
    assert(pow2n(3nat) == 8);
    assert(pow2n(4nat) == 16);
    assert(pow2n(5nat) == 32);
    assert(pow2n(6nat) == 64);
    assert(pow2n(7nat) == 128);
    lemma_bits_needed_upper(m, 7nat);
    lemma_bits_needed_lower(m, 6nat);
}

proof fn lemma_neg_div128(m: nat)
    ensures
        (-(m as int) - 1) / 128 == -(m as int / 128) - 1,
{
    lemma_fundamental_div_mod(m as int, 128);
    let a = m as int / 128;
    let b = m as int % 128;
    assert(-(m as int) - 1 == 128 * (-a - 1) + (127 - b)) by (nonlinear_arith)
        requires
            m as int == 128 * a + b,
    ;
    vstd::arithmetic::div_mod::lemma_fundamental_div_mod_converse(
        -(m as int) - 1,
        128,
        -a - 1,
        127 - b,
    );
}

proof fn lemma_sbits_div128(n: int)
    requires
        !(-64 <= n < 64),
    ensures
        sbits_needed(n) == 7 + sbits_needed(n / 128),
{
    if n >= 64 {
        if n >= 128 {
            lemma_bits_needed_div128(n as nat);
            assert(n as nat / 128 == (n / 128) as nat);
            assert(n / 128 >= 1);
        } else {
            lemma_bits_needed_64_127(n as nat);
            assert(n / 128 == 0);
        }
    } else {
        let m = (-n - 1) as nat;
        assert(m >= 64);
        lemma_neg_div128(m);
        assert(n / 128 == -(m as int / 128) - 1);
        assert(n / 128 < 0);
        assert((-(n / 128) - 1) as nat == m / 128);
        if m >= 128 {
            lemma_bits_needed_div128(m);
        } else {
            lemma_bits_needed_64_127(m);
            assert(m / 128 == 0);
        }
    }
}

/// The signed encoding is minimal: it spends exactly one byte per seven
/// binary digits of the value, the sign bit included.
pub proof fn lemma_leb_s_minimal(n: int)
    ensures
        leb_s(n).len() == ((sbits_needed(n) + 6) / 7) as nat,
    decreases abs(n),
{
    lemma_leb_s_len(n);
    if -64 <= n < 64 {
        let m: nat = if n >= 0 {
            n as nat
        } else {
            (-n - 1) as nat
        };
        assert(m < 64);
        assert(pow2n(0nat) == 1);
        assert(pow2n(1nat) == 2);
        assert(pow2n(2nat) == 4);
        assert(pow2n(3nat) == 8);
        assert(pow2n(4nat) == 16);
        assert(pow2n(5nat) == 32);
        assert(pow2n(6nat) == 64);
        lemma_bits_needed_upper(m, 6nat);
        assert(sbits_needed(n) <= 7);
        assert(sbits_needed(n) >= 1);
    } else {
        lemma_leb_s_minimal(n / 128);
        lemma_leb_s_len(n / 128);
        lemma_sbits_div128(n);
    }
}

/// Result of reading one LEB128 group sequence from a byte stream.
pub enum ULebRead {
    /// A value was assembled from `len` bytes.
    Val { v: u64, len: nat },
    /// The stream ended before the terminating byte.
    Short,
    /// The continuation chain ran past what a 64-bit value can hold.
    Over,
}

pub enum SLebRead {
    Val { v: i64, len: nat },
    Short,
    Over,
}

/// What reading an unsigned LEB128 value at `pos` yields, `depth` groups
/// into the chain.  The tenth group may only be 0 or 1: anything else
/// cannot fit in the 64-bit target and is an overflow.
pub open spec fn dec_leb_u_at(s: Seq<u8>, pos: int, depth: nat) -> ULebRead
    decreases 10 - depth,
{
    if pos < 0 || pos >= s.len() {
        ULebRead::Short
    } else {
        let b = s[pos];
        if depth >= 9 {
            if b == 0 || b == 1 {
                ULebRead::Val { v: b as u64, len: 1 }
            } else {
                ULebRead::Over
            }
        } else if b < 128 {
            ULebRead::Val { v: b as u64, len: 1 }
        } else {
            match dec_leb_u_at(s, pos + 1, (depth + 1) as nat) {
                ULebRead::Val { v, len } => ULebRead::Val {
                    v: ((b - 128) + 128 * v) as u64,
                    len: len + 1,
                },
                e => e,
            }
        }
    }
}

/// What reading a signed LEB128 value at `pos` yields.  The value of a
/// terminating byte is sign-extended; the tenth group may only be 0 or 0x7f.
pub open spec fn dec_leb_s_at(s: Seq<u8>, pos: int, depth: nat) -> SLebRead
    decreases 10 - depth,
{
    if pos < 0 || pos >= s.len() {
        SLebRead::Short
    } else {
        let b = s[pos];
        if depth >= 9 {
            if b == 0 {
                SLebRead::Val { v: 0, len: 1 }
            } else if b == 0x7f {
                SLebRead::Val { v: -1i64, len: 1 }
            } else {
                SLebRead::Over
            }
        } else if b < 128 {
            SLebRead::Val {
                v: if b >= 64 {
                    (b - 128) as i64
                } else {
                    b as i64
                },
                len: 1,
            }
        } else {
            match dec_leb_s_at(s, pos + 1, (depth + 1) as nat) {
                SLebRead::Val { v, len } => SLebRead::Val {
                    v: ((b - 128) + 128 * v) as i64,
                    len: len + 1,
                },
                e => e,
            }
        }
    }
}

/// Any unsigned group chain read `depth` groups in is below `2^(64 - 7 depth)`.
pub proof fn lemma_dec_leb_u_bound(s: Seq<u8>, pos: int, depth: nat)
    requires
        depth <= 9,
    ensures
        dec_leb_u_at(s, pos, depth) matches ULebRead::Val { v, len } ==> v < pow128(
            (9 - depth) as nat,
        ) * 2 && 1 <= len <= 10 - depth,
    decreases 10 - depth,
{
    if 0 <= pos < s.len() {
        let b = s[pos];
        if depth >= 9 {
        } else if b < 128 {
            assert(pow128((9 - depth) as nat) * 2 >= 128 * 2) by {
                lemma_pow128_bounds((9 - depth) as nat);
                assert(pow128((9 - depth) as nat) >= 128) by {
                    lemma_pow128_increases(1, (9 - depth) as nat);
                }
            }
        } else {
            lemma_dec_leb_u_bound(s, pos + 1, (depth + 1) as nat);
            if let ULebRead::Val { v, len } = dec_leb_u_at(s, pos + 1, (depth + 1) as nat) {
                assert(pow128((9 - depth) as nat) == 128 * pow128((8 - depth) as nat));
                assert((b - 128) + 128 * v < 128 * (pow128((8 - depth) as nat) * 2)) by (
                nonlinear_arith)
                    requires
                        v < pow128((8 - depth) as nat) * 2,
                        b < 256,
                        b >= 128,
                ;
                assert(128 * (pow128((8 - depth) as nat) * 2) == pow128((9 - depth) as nat) * 2)
                    by (nonlinear_arith)
                    requires
                        pow128((9 - depth) as nat) == 128 * pow128((8 - depth) as nat),
                ;
            }
        }
    }
}

/// `128^n`.
pub open spec fn pow128(n: nat) -> nat
    decreases n,
{
    if n == 0 {
        1
    } else {
        128 * pow128((n - 1) as nat)
    }
}

pub proof fn lemma_pow128_unfolded()
    ensures
        pow128(8nat) == 0x100000000000000,
        pow128(9nat) == 0x8000000000000000,
{
    assert(pow128(0nat) == 1);
    assert(pow128(1nat) == 128);
    assert(pow128(2nat) == 0x4000);
    assert(pow128(3nat) == 0x200000);
    assert(pow128(4nat) == 0x10000000);
    assert(pow128(5nat) == 0x800000000);
    assert(pow128(6nat) == 0x40000000000);
    assert(pow128(7nat) == 0x2000000000000);
    assert(pow128(8nat) == 0x100000000000000);
    assert(pow128(9nat) == 0x8000000000000000);
}

proof fn lemma_pow128_bounds(n: nat)
    ensures
        pow128(n) >= 1,
    decreases n,
{
    if n > 0 {
        lemma_pow128_bounds((n - 1) as nat);
    }
}

proof fn lemma_pow128_increases(a: nat, b: nat)
    requires
        a <= b,
    ensures
        pow128(a) <= pow128(b),
    decreases b,
{
    if a < b && b > 0 {
        lemma_pow128_increases(a, (b - 1) as nat);
        lemma_pow128_bounds((b - 1) as nat);
    }
}

/// Any signed group chain read `depth` groups in lies in the signed range
/// of `63 - 7 depth` bits.
pub proof fn lemma_dec_leb_s_bound(s: Seq<u8>, pos: int, depth: nat)
    requires
        depth <= 9,
    ensures
        dec_leb_s_at(s, pos, depth) matches SLebRead::Val { v, len } ==> -pow128(
            (9 - depth) as nat,
        ) <= v < pow128((9 - depth) as nat) && 1 <= len <= 10 - depth,
    decreases 10 - depth,
{
    if 0 <= pos < s.len() {
        let b = s[pos];
        if depth >= 9 {
            assert(pow128(0nat) == 1);
        } else if b < 128 {
            assert(pow128(1nat) == 128 * pow128(0nat) && pow128(0nat) == 1);
            lemma_pow128_increases(1, (9 - depth) as nat);
        } else {
            lemma_dec_leb_s_bound(s, pos + 1, (depth + 1) as nat);
            if let SLebRead::Val { v, len } = dec_leb_s_at(s, pos + 1, (depth + 1) as nat) {
                let p = pow128((8 - depth) as nat);
                assert(pow128((9 - depth) as nat) == 128 * p);
                assert(-(128 * p) <= (b - 128) + 128 * v < 128 * p) by (nonlinear_arith)
                    requires
                        -p <= v < p,
                        128 <= b < 256,
                ;
            }
        }
    }
}

/// Reading back the unsigned encoding of `n` yields `n` and consumes
/// exactly the encoding.
pub proof fn lemma_leb_u_round_trip(s: Seq<u8>, pos: int, n: nat, depth: nat)
    requires
        depth <= 9,
        n < pow128((9 - depth) as nat) * 2,
        0 <= pos,
        pos + leb_u(n).len() <= s.len(),
        s.subrange(pos, pos + leb_u(n).len() as int) == leb_u(n),
    ensures
        dec_leb_u_at(s, pos, depth) == (ULebRead::Val { v: n as u64, len: leb_u(n).len() }),
    decreases 10 - depth,
{
    let e = leb_u(n);
    assert(s[pos] == e[0]);
    if n < 128 {
        if depth >= 9 {
            assert(n < 2);
        }
    } else {
        assert(depth < 9) by {
            if depth >= 9 {
                assert(pow128(0nat) * 2 == 2);
            }
        }
        let rest = leb_u(n / 128);
        assert(e[0] == (128 + n % 128) as u8);
        assert(e.len() == 1 + rest.len());
        assert(s.subrange(pos + 1, pos + 1 + rest.len() as int) == rest) by {
            assert forall|i: int| 0 <= i < rest.len() implies s.subrange(
                pos + 1,
                pos + 1 + rest.len() as int,
            )[i] == rest[i] by {
                assert(s[pos + 1 + i] == e[1 + i]);
            }
            assert(s.subrange(pos + 1, pos + 1 + rest.len() as int) =~= rest);
        }
        assert(n / 128 < pow128((9 - (depth + 1)) as nat) * 2) by (nonlinear_arith)
            requires
                n < pow128((9 - depth) as nat) * 2,
                pow128((9 - depth) as nat) == 128 * pow128((8 - depth) as nat),
                depth < 9,
        ;
        lemma_leb_u_round_trip(s, pos + 1, n / 128, (depth + 1) as nat);
        let b = s[pos];
        assert(n < 0x10000000000000000) by {
            lemma_pow128_increases((9 - depth) as nat, 9nat);
            lemma_pow128_unfolded();
        }
        assert(n / 128 < 0x10000000000000000);
        assert((n / 128) as u64 == n / 128);
        assert((b - 128) + 128 * ((n / 128) as u64) == n) by {
            lemma_fundamental_div_mod(n as int, 128);
            assert(b == (128 + n % 128) as u8);
        }
    }
}

/// Reading back the signed encoding of `n` yields `n` and consumes exactly
/// the encoding.
pub proof fn lemma_leb_s_round_trip(s: Seq<u8>, pos: int, n: int, depth: nat)
    requires
        depth <= 9,
        -pow128((9 - depth) as nat) <= n < pow128((9 - depth) as nat),
        0 <= pos,
        pos + leb_s(n).len() <= s.len(),
        s.subrange(pos, pos + leb_s(n).len() as int) == leb_s(n),
    ensures
        dec_leb_s_at(s, pos, depth) == (SLebRead::Val { v: n as i64, len: leb_s(n).len() }),
    decreases 10 - depth,
{
    let e = leb_s(n);
    assert(s[pos] == e[0]);
    if -64 <= n < 64 {
        let b = e[0];
        assert(b == (n % 128) as u8);
        if depth >= 9 {
            assert(pow128(0nat) == 1);
            assert(n == 0 || n == -1);
            if n == -1 {
                assert((-1int) % 128 == 127);
            }
        } else {
            if n >= 0 {
                assert(n % 128 == n);
                assert(b < 64);
            } else {
                assert(n % 128 == n + 128);
                assert(b >= 64);
                assert((b - 128) as i64 == n);
            }
        }
    } else {
        assert(depth < 9) by {
            if depth >= 9 {
                assert(pow128(0nat) == 1);
            }
        }
        let rest = leb_s(n / 128);
        assert(e[0] == (128 + n % 128) as u8);
        assert(e.len() == 1 + rest.len());
        assert(s.subrange(pos + 1, pos + 1 + rest.len() as int) == rest) by {
            assert forall|i: int| 0 <= i < rest.len() implies s.subrange(
                pos + 1,
                pos + 1 + rest.len() as int,
            )[i] == rest[i] by {
                assert(s[pos + 1 + i] == e[1 + i]);
            }
            assert(s.subrange(pos + 1, pos + 1 + rest.len() as int) =~= rest);
        }
        let p = pow128((8 - depth) as nat);
        assert(pow128((9 - depth) as nat) == 128 * p);
        assert(-p <= n / 128 < p) by (nonlinear_arith)
            requires
                -(128 * p) <= n < 128 * p,
                p >= 1,
        ;
        lemma_pow128_bounds((8 - depth) as nat);
        lemma_leb_s_round_trip(s, pos + 1, n / 128, (depth + 1) as nat);
        let b = s[pos];
        assert(-0x8000000000000000 <= n / 128 < 0x8000000000000000) by {
            lemma_pow128_increases((8 - depth) as nat, 9nat);
            lemma_pow128_unfolded();
        }
        assert((n / 128) as i64 == n / 128);
        assert(-0x8000000000000000 <= n < 0x8000000000000000) by {
            lemma_pow128_increases((9 - depth) as nat, 9nat);
            lemma_pow128_unfolded();
        }
        assert((b - 128) + 128 * ((n / 128) as i64) == n) by {
            lemma_fundamental_div_mod(n, 128);
            assert(b == (128 + n % 128) as u8);
        }
    }
}

/// Appends the unsigned LEB128 encoding of `v` to `out`.
pub fn write_leb_u(out: &mut Vec<u8>, v: u64)
    ensures
        final(out)@ == old(out)@ + leb_u(v as nat),
{
    let ghost full = leb_u(v as nat);
    let ghost start = out@;
    let mut n: u64 = v;
    let ghost mut done: Seq<u8> = Seq::empty();
    loop
        invariant
            start == old(out)@,
            full == leb_u(v as nat),
            out@ == start + done,
            full == done + leb_u(n as nat),
        decreases n,
    {
        proof {
            assert(leb_u(n as nat).len() >= 1);
        }
        if n < 128 {
            out.push(n as u8);
            proof {
                assert(out@ =~= start + full);
            }
            return ;
        } else {
            let b: u8 = (128 + n % 128) as u8;
            out.push(b);
            proof {
                done = done + seq![b];
                assert(full == done + leb_u((n / 128) as nat)) by {
                    assert(leb_u(n as nat) == seq![b] + leb_u((n / 128) as nat));
                    assert(full =~= done + leb_u((n / 128) as nat));
                }
            }
            n = n / 128;
        }
    }
}

/// Appends the signed LEB128 encoding of `v` to `out`.
pub fn write_leb_s(out: &mut Vec<u8>, v: i64)
    ensures
        final(out)@ == old(out)@ + leb_s(v as int),
{
    let ghost full = leb_s(v as int);
    let ghost start = out@;
    // Work on the two's-complement image of the remaining value: `m` below
    // is the signed value still to be emitted and `u` its 64-bit image.
    let mut u: u64 = v as u64;
    let ghost mut m: int = v as int;
    let ghost mut done: Seq<u8> = Seq::empty();
    proof {
        assert(u as int == v as int + if v < 0 {
            0x10000000000000000int
        } else {
            0int
        }) by (bit_vector)
            requires
                u == v as u64,
        ;
    }
    loop
        invariant
            start == old(out)@,
            full == leb_s(v as int),
            out@ == start + done,
            full == done + leb_s(m),
            -0x8000000000000000 <= m < 0x8000000000000000,
            u == if m >= 0 {
                m
            } else {
                m + 0x10000000000000000
            },
        decreases abs(m),
    {
        proof {
            assert(leb_s(m).len() >= 1);
        }
        let b: u8 = (u % 128) as u8;
        proof {
            if m < 0 {
                assert((m + 0x10000000000000000) % 128 == m % 128) by {
                    vstd::arithmetic::div_mod::lemma_mod_multiples_vanish(
                        0x200000000000000,
                        m,
                        128,
                    );
                }
            }
            assert(b == m % 128);
        }
        if u < 0x8000000000000000 {
            // non-negative remainder
            if u < 64 {
                out.push(b);
                proof {
                    assert(out@ =~= start + full);
                }
                return ;
            } else {
                out.push(128 + b % 128);
                proof {
                    assert(0 <= m % 128 < 128);
                    assert((128 + b % 128) == (128 + m % 128) as u8);
                    done = done + seq![(128 + m % 128) as u8];
                    assert(full =~= done + leb_s(m / 128));
                    m = m / 128;
                }
                u = u / 128;
            }
        } else {
            // negative remainder: m == u - 2^64
            if u >= 0xffffffffffffffc0 {
                // -64 <= m < 0
                out.push(b);
                proof {
                    assert(out@ =~= start + full);
                }
                return ;
            } else {
                out.push(128 + b % 128);
                proof {
                    assert(0 <= m % 128 < 128);
                    assert((128 + b % 128) == (128 + m % 128) as u8);
                    done = done + seq![(128 + m % 128) as u8];
                    assert(full =~= done + leb_s(m / 128));
                }
                let ghost m0 = m;
                proof {
                    m = m / 128;
                    assert((m0 + 0x10000000000000000) / 128 == m0 / 128 + 0x200000000000000)
                        by {
                        vstd::arithmetic::div_mod::lemma_hoist_over_denominator(
                            m0,
                            0x200000000000000,
                            128,
                        );
                    }
                }
                u = u / 128 + 0xfe00000000000000;
            }
        }
    }
}

/// Number of bytes `write_leb_u` would append for `v`.
pub fn size_leb_u(v: u64) -> (n: usize)
    ensures
        n == leb_u_len(v as nat),
        1 <= n <= 10,
{
    let mut n: u64 = v;
    let mut count: usize = 0;
    loop
        invariant
            leb_u_len(v as nat) == count + leb_u_len(n as nat),
            count <= 9,
            n < pow128((9 - count) as nat) * 2 || count == 0,
        decreases n,
    {
        if n < 128 {
            return count + 1;
        }
        proof {
            if count == 0 {
                assert(n < pow128(9nat) * 2) by {
                    lemma_pow128_unfolded();
                }
            }
            assert(n / 128 < pow128((8 - count) as nat) * 2) by (nonlinear_arith)
                requires
                    n < pow128((9 - count) as nat) * 2,
                    pow128((9 - count) as nat) == 128 * pow128((8 - count) as nat),
                    count <= 8,
            ;
            assert(count < 9) by {
                if count == 9 {
                    assert(pow128(0nat) * 2 == 2);
                }
            }
        }
        n = n / 128;
        count = count + 1;
    }
}

/// Number of bytes `write_leb_s` would append for `v`.
pub fn size_leb_s(v: i64) -> (n: usize)
    ensures
        n == leb_s_len(v as int),
        1 <= n <= 10,
{
    let mut scratch: Vec<u8> = Vec::new();
    write_leb_s(&mut scratch, v);
    proof {
        lemma_leb_s_len(v as int);
        lemma_leb_s_len_le_10(v as int);
    }
    scratch.len()
}

proof fn lemma_leb_s_len_le_10(n: int)
    requires
        -0x8000000000000000 <= n < 0x8000000000000000,
    ensures
        leb_s_len(n) <= 10,
{
    lemma_pow128_unfolded();
    lemma_leb_s_len_bound(n, 9nat);
}

proof fn lemma_leb_s_len_bound(n: int, k: nat)
    requires
        -pow128(k) <= n < pow128(k),
    ensures
        leb_s_len(n) <= k + 1,
    decreases k,
{
    if -64 <= n < 64 {
    } else {
        assert(k > 0) by {
            if k == 0 {
                assert(pow128(0nat) == 1);
            }
        }
        let p = pow128((k - 1) as nat);
        assert(pow128(k) == 128 * p);
        assert(-p <= n / 128 < p) by (nonlinear_arith)
            requires
                -(128 * p) <= n < 128 * p,
                p >= 1,
        ;
        lemma_leb_s_len_bound(n / 128, (k - 1) as nat);
    }
}

proof fn lemma_leb_u_len_le_10(n: nat)
    requires
        n < 0x10000000000000000,
    ensures
        leb_u_len(n) <= 10,
{
    lemma_pow128_unfolded();
    lemma_leb_u_len_bound(n, 9nat);
}

proof fn lemma_leb_u_len_bound(n: nat, k: nat)
    requires
        n < pow128(k) * 2,
    ensures
        leb_u_len(n) <= k + 1,
    decreases k,
{
    if n < 128 {
    } else {
        assert(k > 0) by {
            if k == 0 {
                assert(pow128(0nat) == 1);
            }
        }
        let p = pow128((k - 1) as nat);
        assert(pow128(k) == 128 * p);
        assert(n / 128 < p * 2) by (nonlinear_arith)
            requires
                n < (128 * p) * 2,
                p >= 1,
        ;
        lemma_leb_u_len_bound(n / 128, (k - 1) as nat);
    }
}

/// Reads an unsigned LEB128 value from `input` starting at `start`.
/// Returns the value and the position of the first byte after it.
pub fn read_leb_u(input: &[u8], start: usize) -> (r: Result<(u64, usize), LebReadErr>)
    ensures
        match r {
            Ok((v, p)) => start < p <= input@.len() && dec_leb_u_at(input@, start as int, 0)
                == (ULebRead::Val { v, len: (p - start) as nat }),
            Err(LebReadErr::Short) => dec_leb_u_at(input@, start as int, 0) == ULebRead::Short,
            Err(LebReadErr::Over) => dec_leb_u_at(input@, start as int, 0) == ULebRead::Over,
        },
{
    read_leb_u_rec(input, start, 0)
}

/// Reads a signed LEB128 value from `input` starting at `start`.
pub fn read_leb_s(input: &[u8], start: usize) -> (r: Result<(i64, usize), LebReadErr>)
    ensures
        match r {
            Ok((v, p)) => start < p <= input@.len() && dec_leb_s_at(input@, start as int, 0)
                == (SLebRead::Val { v, len: (p - start) as nat }),
            Err(LebReadErr::Short) => dec_leb_s_at(input@, start as int, 0) == SLebRead::Short,
            Err(LebReadErr::Over) => dec_leb_s_at(input@, start as int, 0) == SLebRead::Over,
        },
{
    read_leb_s_rec(input, start, 0)
}

/// Why a LEB128 read failed: the stream ran out, or the value overflowed
/// the 64-bit target.
pub enum LebReadErr {
    Short,
    Over,
}

fn read_leb_u_rec(input: &[u8], pos: usize, depth: usize) -> (r: Result<
    (u64, usize),
    LebReadErr,
>)
    requires
        depth <= 9,
    ensures
        match r {
            Ok((v, p)) => pos < p <= input@.len() && dec_leb_u_at(input@, pos as int, depth as nat)
                == (ULebRead::Val { v, len: (p - pos) as nat }),
            Err(LebReadErr::Short) => dec_leb_u_at(input@, pos as int, depth as nat)
                == ULebRead::Short,
            Err(LebReadErr::Over) => dec_leb_u_at(input@, pos as int, depth as nat)
                == ULebRead::Over,
        },
    decreases 10 - depth,
{
    if pos >= input.len() {
        return Err(LebReadErr::Short);
    }
    let b = input[pos];
    if depth >= 9 {
        if b == 0 || b == 1 {
            Ok(((b as u64), pos + 1))
        } else {
            Err(LebReadErr::Over)
        }
    } else if b < 128 {
        Ok(((b as u64), pos + 1))
    } else {
        match read_leb_u_rec(input, pos + 1, depth + 1) {
            Ok((v, p)) => {
                proof {
                    lemma_dec_leb_u_bound(input@, pos + 1 as int, (depth + 1) as nat);
                    lemma_pow128_increases((8 - depth) as nat, 8nat);
                    lemma_pow128_unfolded();
                    assert(128 * v <= 128 * (pow128((8 - depth) as nat) * 2 - 1)) by (
                    nonlinear_arith)
                        requires
                            v < pow128((8 - depth) as nat) * 2,
                    ;
                    assert(128 * (pow128((8 - depth) as nat) * 2 - 1) < 0x10000000000000000) by (
                    nonlinear_arith)
                        requires
                            pow128((8 - depth) as nat) <= 0x100000000000000,
                    ;
                }
                let v2: u64 = (b - 128) as u64 + 128 * v;
                Ok((v2, p))
            },
            Err(e) => Err(e),
        }
    }
}

fn read_leb_s_rec(input: &[u8], pos: usize, depth: usize) -> (r: Result<
    (i64, usize),
    LebReadErr,
>)
    requires
        depth <= 9,
    ensures
        match r {
            Ok((v, p)) => pos < p <= input@.len() && dec_leb_s_at(input@, pos as int, depth as nat)
                == (SLebRead::Val { v, len: (p - pos) as nat }),
            Err(LebReadErr::Short) => dec_leb_s_at(input@, pos as int, depth as nat)
                == SLebRead::Short,
            Err(LebReadErr::Over) => dec_leb_s_at(input@, pos as int, depth as nat)
                == SLebRead::Over,
        },
    decreases 10 - depth,
{
    if pos >= input.len() {
        return Err(LebReadErr::Short);
    }
    let b = input[pos];
    if depth >= 9 {
        if b == 0 {
            Ok((0i64, pos + 1))
        } else if b == 0x7f {
            Ok((-1i64, pos + 1))
        } else {
            Err(LebReadErr::Over)
        }
    } else if b < 128 {
        if b >= 64 {
            Ok(((b as i64) - 128, pos + 1))
        } else {
            Ok((b as i64, pos + 1))
        }
    } else {
        match read_leb_s_rec(input, pos + 1, depth + 1) {
            Ok((v, p)) => {
                proof {
                    lemma_dec_leb_s_bound(input@, pos + 1 as int, (depth + 1) as nat);
                    lemma_pow128_increases((8 - depth) as nat, 8nat);
                    lemma_pow128_unfolded();
                    assert(-0x8000000000000000 <= (b - 128) + 128 * v < 0x8000000000000000) by (
                    nonlinear_arith)
                        requires
                            -pow128((8 - depth) as nat) <= v < pow128((8 - depth) as nat),
                            pow128((8 - depth) as nat) <= 0x100000000000000,
                            128 <= b < 256,
                    ;
                }
                let v2: i64 = ((b - 128) as i64) + 128 * v;
                Ok((v2, p))
            },
            Err(e) => Err(e),
        }
    }
}

} // verus!
