//! The laws the codec obeys, proved once and for all: a decoder driven by
//! a matching schema inverts the encoder, losing only what the float mode
//! discards, and a bounded reader rejects exactly the streams that do not
//! fit its cap.
use vstd::prelude::*;
use vstd::utf8::encode_scalar;
use vstd::utf8::encode_utf8;
use vstd::utf8::valid_first_scalar;
use vstd::utf8::decode_first_scalar;
use vstd::utf8::length_of_first_scalar;
use crate::varint::leb_u;
use crate::varint::leb_s;
use crate::varint::leb_u_len;
use crate::varint::dec_leb_u_at;
use crate::varint::dec_leb_s_at;
use crate::varint::ULebRead;
use crate::varint::SLebRead;
use crate::varint::lemma_leb_u_round_trip;
use crate::varint::lemma_leb_s_round_trip;
use crate::varint::lemma_leb_u_len;
use crate::floatenc::FloatEncoding;
use crate::bitvec::pack_bits;
use crate::bitvec::unpack_bits;
use crate::bitvec::lemma_pack_unpack;
use crate::value::Val;
use crate::value::Schema;
use crate::value::val_matches;
use crate::value::vals_match_elem;
use crate::value::pairs_match;
use crate::value::vals_match_fields;
use crate::value::val_sized;
use crate::value::vals_sized;
use crate::value::pair_vals_sized;
use crate::value::enc_val;
use crate::value::enc_vals;
use crate::value::enc_pair_vals;
use crate::value::project_val;
use crate::value::project_vals;
use crate::value::project_pair_vals;
use crate::value::lemma_project_normal_identity;
use crate::reader::meter_ok;
use crate::reader::DecRes;
use crate::reader::DecListRes;
use crate::reader::DecPairsRes;
use crate::reader::DecBytesRes;
use crate::reader::DecErrKind;
use crate::reader::dec_val;
use crate::reader::dec_list;
use crate::reader::dec_pairs;
use crate::reader::dec_fields;
use crate::reader::dec_bytes;
use crate::SizeLimit;

verus! {

broadcast use
    vstd::seq::group_seq_axioms,
    vstd::utf8::char_is_scalar,
    vstd::utf8::char_u32_cast,
    vstd::utf8::encode_utf8_valid_utf8,
    vstd::utf8::encode_utf8_decode_utf8,
;

/// The meter admits a sum exactly when it admits each part in turn.
proof fn lemma_meter_compose(read: nat, a: nat, b: nat, lim: SizeLimit)
    ensures
        meter_ok(read, a + b, lim) <==> (meter_ok(read, a, lim) && meter_ok(
            (read + a) as nat,
            b,
            lim,
        )),
{
}

/// A window equal to a concatenation splits into two adjacent windows.
proof fn lemma_window_split(stream: Seq<u8>, pos: int, x: Seq<u8>, y: Seq<u8>)
    requires
        0 <= pos,
        pos + x.len() + y.len() <= stream.len(),
        stream.subrange(pos, pos + x.len() + y.len()) == x + y,
    ensures
        stream.subrange(pos, pos + x.len() as int) == x,
        stream.subrange(pos + x.len() as int, pos + x.len() + y.len()) == y,
{
    let w = stream.subrange(pos, pos + x.len() + y.len());
    assert forall|i: int| 0 <= i < x.len() implies stream.subrange(pos, pos + x.len() as int)[i]
        == x[i] by {
        assert(w[i] == (x + y)[i]);
    }
    assert(stream.subrange(pos, pos + x.len() as int) =~= x);
    assert forall|i: int| 0 <= i < y.len() implies stream.subrange(
        pos + x.len() as int,
        pos + x.len() + y.len(),
    )[i] == y[i] by {
        assert(w[x.len() + i] == (x + y)[x.len() + i]);
    }
    assert(stream.subrange(pos + x.len() as int, pos + x.len() + y.len()) =~= y);
}

proof fn lemma_leb_u_rt_top(stream: Seq<u8>, pos: int, n: nat)
    requires
        n <= u64::MAX,
        0 <= pos,
        pos + leb_u(n).len() <= stream.len(),
        stream.subrange(pos, pos + leb_u(n).len() as int) == leb_u(n),
    ensures
        dec_leb_u_at(stream, pos, 0) == (ULebRead::Val { v: n as u64, len: leb_u(n).len() }),
{
    crate::varint::lemma_pow128_unfolded();
    lemma_leb_u_round_trip(stream, pos, n, 0);
}

proof fn lemma_leb_s_rt_top(stream: Seq<u8>, pos: int, n: int)
    requires
        i64::MIN <= n <= i64::MAX,
        0 <= pos,
        pos + leb_s(n).len() <= stream.len(),
        stream.subrange(pos, pos + leb_s(n).len() as int) == leb_s(n),
    ensures
        dec_leb_s_at(stream, pos, 0) == (SLebRead::Val { v: n as i64, len: leb_s(n).len() }),
{
    crate::varint::lemma_pow128_unfolded();
    lemma_leb_s_round_trip(stream, pos, n, 0);
}

/// Reading raw bytes off a window yields exactly the window, when the
/// meter admits it.
proof fn lemma_dec_bytes_window(bs: Seq<u8>, stream: Seq<u8>, pos: int, read: nat, lim: SizeLimit)
    requires
        0 <= pos,
        pos + bs.len() <= stream.len(),
        stream.subrange(pos, pos + bs.len() as int) == bs,
        meter_ok(read, 0, lim),
    ensures
        dec_bytes(bs.len(), stream, pos, read, lim) == if meter_ok(read, bs.len(), lim) {
            DecBytesRes::Good { bs, end: pos + bs.len(), tally: (read + bs.len()) as nat }
        } else {
            DecBytesRes::Fail { k: DecErrKind::Size }
        },
    decreases bs.len(),
{
    if bs.len() == 0 {
        assert(dec_bytes(0, stream, pos, read, lim) == (DecBytesRes::Good {
            bs: Seq::<u8>::empty(),
            end: pos,
            tally: read,
        }));
        assert(bs =~= Seq::<u8>::empty());
    } else {
        let head = bs[0];
        let rest = bs.drop_first();
        assert(seq![head] + rest =~= bs);
        lemma_window_split(stream, pos, seq![head], rest);
        assert(stream[pos] == stream.subrange(pos, pos + 1)[0]);
        assert(stream[pos] == head);
        lemma_meter_compose(read, 1, rest.len(), lim);
        if meter_ok(read, 1, lim) {
            lemma_dec_bytes_window(rest, stream, pos + 1, (read + 1) as nat, lim);
            if meter_ok((read + 1) as nat, rest.len(), lim) {
                assert(seq![head] + rest =~= bs);
            }
        }
    }
}

/// A stream whose window holds a whole UTF-8 scalar starts with exactly
/// that scalar, whatever follows.
proof fn lemma_scalar_window(c: char, stream: Seq<u8>, pos: int)
    requires
        0 <= pos,
        pos + encode_scalar(c as u32).len() <= stream.len(),
        stream.subrange(pos, pos + encode_scalar(c as u32).len() as int) == encode_scalar(
            c as u32,
        ),
    ensures
        ({
            let sfx = stream.subrange(pos, stream.len() as int);
            &&& valid_first_scalar(sfx)
            &&& length_of_first_scalar(sfx) == encode_scalar(c as u32).len()
            &&& decode_first_scalar(sfx) == c as u32
        }),
{
    let chars = seq![c];
    let enc = encode_scalar(c as u32);
    assert(chars.drop_first() =~= Seq::<char>::empty());
    assert(encode_utf8(Seq::<char>::empty()) == Seq::<u8>::empty());
    assert(encode_utf8(chars) == enc + Seq::<u8>::empty());
    assert(enc + Seq::<u8>::empty() =~= enc);
    vstd::utf8::encode_utf8_first_scalar(chars);
    assert(valid_first_scalar(enc));
    assert(length_of_first_scalar(enc) == enc.len());
    assert(decode_first_scalar(enc) == c as u32);
    let sfx = stream.subrange(pos, stream.len() as int);
    assert(sfx.len() >= enc.len());
    assert forall|j: int| 0 <= j < enc.len() implies sfx[j] == enc[j] by {
        assert(stream.subrange(pos, pos + enc.len() as int)[j] == enc[j]);
    }
    assert(valid_first_scalar(sfx) && length_of_first_scalar(sfx) == enc.len()
        && decode_first_scalar(sfx) == c as u32) by {
        assert(sfx[0] == enc[0]);
        if enc.len() >= 2 {
            assert(sfx[1] == enc[1]);
        }
        if enc.len() >= 3 {
            assert(sfx[2] == enc[2]);
        }
        if enc.len() >= 4 {
            assert(sfx[3] == enc[3]);
        }
    }
}

proof fn lemma_i8_casts(x: i8, b: u8)
    by (bit_vector)
    ensures
        ((x as u8) as i8) == x,
        ((b as i8) as u8) == b,
{
}


proof fn lemma_case_str(cs: Seq<char>, stream: Seq<u8>, pos: int, read: nat, lim: SizeLimit, enc: FloatEncoding)
    requires
        encode_utf8(cs).len() <= usize::MAX,
        0 <= pos,
        pos + enc_val(Val::Str(cs), enc).len() <= stream.len(),
        stream.subrange(pos, pos + enc_val(Val::Str(cs), enc).len() as int) == enc_val(
            Val::Str(cs),
            enc,
        ),
        meter_ok(read, 0, lim),
    ensures
        dec_val(Schema::Str, stream, pos, read, lim, enc) == ({
            let n = enc_val(Val::Str(cs), enc).len();
            if meter_ok(read, n, lim) {
                DecRes::Good { v: Val::Str(cs), end: pos + n, tally: (read + n) as nat }
            } else {
                DecRes::Fail { k: DecErrKind::Size }
            }
        }),
{
    let body = encode_utf8(cs);
    let lenb = leb_u(body.len());
    lemma_window_split(stream, pos, lenb, body);
    lemma_leb_u_rt_top(stream, pos, body.len());
    lemma_meter_compose(read, lenb.len(), body.len(), lim);
}

proof fn lemma_case_char(c: char, stream: Seq<u8>, pos: int, read: nat, lim: SizeLimit, enc: FloatEncoding)
    requires
        0 <= pos,
        pos + enc_val(Val::Char(c), enc).len() <= stream.len(),
        stream.subrange(pos, pos + enc_val(Val::Char(c), enc).len() as int) == enc_val(
            Val::Char(c),
            enc,
        ),
        meter_ok(read, 0, lim),
    ensures
        dec_val(Schema::Char, stream, pos, read, lim, enc) == ({
            let n = enc_val(Val::Char(c), enc).len();
            if meter_ok(read, n, lim) {
                DecRes::Good { v: Val::Char(c), end: pos + n, tally: (read + n) as nat }
            } else {
                DecRes::Fail { k: DecErrKind::Size }
            }
        }),
{
    lemma_scalar_window(c, stream, pos);
}

proof fn lemma_case_f32(b: u32, stream: Seq<u8>, pos: int, read: nat, lim: SizeLimit, enc: FloatEncoding)
    requires
        0 <= pos,
        pos + enc_val(Val::F32(b), enc).len() <= stream.len(),
        stream.subrange(pos, pos + enc_val(Val::F32(b), enc).len() as int) == enc_val(
            Val::F32(b),
            enc,
        ),
        meter_ok(read, 0, lim),
    ensures
        dec_val(Schema::F32, stream, pos, read, lim, enc) == ({
            let n = enc_val(Val::F32(b), enc).len();
            if meter_ok(read, n, lim) {
                DecRes::Good {
                    v: project_val(Val::F32(b), enc),
                    end: pos + n,
                    tally: (read + n) as nat,
                }
            } else {
                DecRes::Fail { k: DecErrKind::Size }
            }
        }),
{
    crate::floatenc::lemma_f32_wire_len(enc, b);
    vstd::bytes::lemma_auto_spec_u16_to_from_le_bytes();
    vstd::bytes::lemma_auto_spec_u32_to_from_le_bytes();
}

proof fn lemma_case_f64(b: u64, stream: Seq<u8>, pos: int, read: nat, lim: SizeLimit, enc: FloatEncoding)
    requires
        0 <= pos,
        pos + enc_val(Val::F64(b), enc).len() <= stream.len(),
        stream.subrange(pos, pos + enc_val(Val::F64(b), enc).len() as int) == enc_val(
            Val::F64(b),
            enc,
        ),
        meter_ok(read, 0, lim),
    ensures
        dec_val(Schema::F64, stream, pos, read, lim, enc) == ({
            let n = enc_val(Val::F64(b), enc).len();
            if meter_ok(read, n, lim) {
                DecRes::Good {
                    v: project_val(Val::F64(b), enc),
                    end: pos + n,
                    tally: (read + n) as nat,
                }
            } else {
                DecRes::Fail { k: DecErrKind::Size }
            }
        }),
{
    crate::floatenc::lemma_f64_wire_len(enc, b);
    vstd::bytes::lemma_auto_spec_u16_to_from_le_bytes();
    vstd::bytes::lemma_auto_spec_u32_to_from_le_bytes();
    vstd::bytes::lemma_auto_spec_u64_to_from_le_bytes();
}

proof fn lemma_case_bits(bits: Seq<bool>, stream: Seq<u8>, pos: int, read: nat, lim: SizeLimit, enc: FloatEncoding)
    requires
        bits.len() <= usize::MAX,
        0 <= pos,
        pos + enc_val(Val::Bits(bits), enc).len() <= stream.len(),
        stream.subrange(pos, pos + enc_val(Val::Bits(bits), enc).len() as int) == enc_val(
            Val::Bits(bits),
            enc,
        ),
        meter_ok(read, 0, lim),
    ensures
        dec_val(Schema::Bits, stream, pos, read, lim, enc) == ({
            let n = enc_val(Val::Bits(bits), enc).len();
            if meter_ok(read, n, lim) {
                DecRes::Good { v: Val::Bits(bits), end: pos + n, tally: (read + n) as nat }
            } else {
                DecRes::Fail { k: DecErrKind::Size }
            }
        }),
{
    let lenb = leb_u(bits.len());
    let packed = pack_bits(bits);
    lemma_window_split(stream, pos, lenb, packed);
    lemma_leb_u_rt_top(stream, pos, bits.len());
    lemma_meter_compose(read, lenb.len(), packed.len(), lim);
    let bl = bits.len() / 8 + if bits.len() % 8 == 0 {
        0nat
    } else {
        1nat
    };
    assert(bl == (bits.len() + 7) / 8) by (nonlinear_arith)
        requires
            bl == bits.len() / 8 + if bits.len() % 8 == 0 {
                0nat
            } else {
                1nat
            },
    ;
    assert(packed.len() == bl);
    if meter_ok(read, lenb.len(), lim) {
        lemma_dec_bytes_window(packed, stream, pos + lenb.len(), (read + lenb.len()) as nat, lim);
        if meter_ok((read + lenb.len()) as nat, packed.len(), lim) {
            lemma_pack_unpack(bits);
            assert(8 * bl >= bits.len()) by (nonlinear_arith)
                requires
                    bl == (bits.len() + 7) / 8,
            ;
            assert(unpack_bits(packed).subrange(0, bits.len() as int) =~= bits);
        }
    }
}

/// A matching schema decodes an encoded value back to its projection
/// under the float mode, consuming exactly the encoding; when the meter
/// does not admit the encoding, the read fails with the size-limit kind.
#[verifier::rlimit(100)]
pub proof fn lemma_decode_inverts_encode(
    v: Val,
    s: Schema,
    stream: Seq<u8>,
    pos: int,
    read: nat,
    lim: SizeLimit,
    enc: FloatEncoding,
)
    requires
        val_matches(v, s),
        val_sized(v),
        0 <= pos,
        pos + enc_val(v, enc).len() <= stream.len(),
        stream.subrange(pos, pos + enc_val(v, enc).len() as int) == enc_val(v, enc),
        meter_ok(read, 0, lim),
    ensures
        dec_val(s, stream, pos, read, lim, enc) == ({
            let n = enc_val(v, enc).len();
            if meter_ok(read, n, lim) {
                DecRes::Good { v: project_val(v, enc), end: pos + n, tally: (read + n) as nat }
            } else {
                DecRes::Fail { k: DecErrKind::Size }
            }
        }),
    decreases v, 2nat, 0nat,
{
    let e = enc_val(v, enc);
    let n = e.len();
    match v {
        Val::Unit => {
        },
        Val::U8(x) => {
            assert(stream[pos] == stream.subrange(pos, pos + 1)[0]);
        },
        Val::U16(x) => {
            lemma_leb_u_rt_top(stream, pos, x as nat);
        },
        Val::U32(x) => {
            lemma_leb_u_rt_top(stream, pos, x as nat);
        },
        Val::U64(x) => {
            lemma_leb_u_rt_top(stream, pos, x as nat);
        },
        Val::Usize(x) => {
            lemma_leb_u_rt_top(stream, pos, x as nat);
        },
        Val::I8(x) => {
            assert(stream[pos] == stream.subrange(pos, pos + 1)[0]);
            lemma_i8_casts(x, x as u8);
        },
        Val::I16(x) => {
            lemma_leb_s_rt_top(stream, pos, x as int);
        },
        Val::I32(x) => {
            lemma_leb_s_rt_top(stream, pos, x as int);
        },
        Val::I64(x) => {
            lemma_leb_s_rt_top(stream, pos, x as int);
        },
        Val::Isize(x) => {
            lemma_leb_s_rt_top(stream, pos, x as int);
        },
        Val::Bool(x) => {
            assert(stream[pos] == stream.subrange(pos, pos + 1)[0]);
        },
        Val::Char(c) => {
            lemma_case_char(c, stream, pos, read, lim, enc);
        },
        Val::Str(cs) => {
            lemma_case_str(cs, stream, pos, read, lim, enc);
        },
        Val::F32(b) => {
            lemma_case_f32(b, stream, pos, read, lim, enc);
        },
        Val::F64(b) => {
            lemma_case_f64(b, stream, pos, read, lim, enc);
        },
        Val::Opt(o) => {
            match o {
                Option::None => {
                    assert(stream[pos] == stream.subrange(pos, pos + 1)[0]);
                },
                Option::Some(b) => {
                    let inner = enc_val(*b, enc);
                    lemma_window_split(stream, pos, seq![1u8], inner);
                    assert(stream[pos] == stream.subrange(pos, pos + 1)[0]);
                    lemma_meter_compose(read, 1, inner.len(), lim);
                    if meter_ok(read, 1, lim) {
                        if let Schema::Opt(t) = s {
                            lemma_decode_inverts_encode(
                                *b,
                                *t,
                                stream,
                                pos + 1,
                                (read + 1) as nat,
                                lim,
                                enc,
                            );
                        }
                    }
                },
            }
        },
        Val::List(es) => {
            if let Schema::List(t) = s {
                let lenb = leb_u(es.len());
                let bodyb = enc_vals(es, enc);
                lemma_window_split(stream, pos, lenb, bodyb);
                lemma_leb_u_rt_top(stream, pos, es.len());
                lemma_meter_compose(read, lenb.len(), bodyb.len(), lim);
                if meter_ok(read, lenb.len(), lim) {
                    lemma_decode_inverts_vals(
                        es,
                        *t,
                        stream,
                        pos + lenb.len(),
                        (read + lenb.len()) as nat,
                        lim,
                        enc,
                    );
                }
            }
        },
        Val::Pairs(ps) => {
            if let Schema::Pairs(_, _) = s {
                let lenb = leb_u(ps.len());
                let bodyb = enc_pair_vals(ps, enc);
                lemma_window_split(stream, pos, lenb, bodyb);
                lemma_leb_u_rt_top(stream, pos, ps.len());
                lemma_meter_compose(read, lenb.len(), bodyb.len(), lim);
                if meter_ok(read, lenb.len(), lim) {
                    lemma_decode_inverts_pairs(
                        ps,
                        s,
                        ps.len(),
                        stream,
                        pos + lenb.len(),
                        (read + lenb.len()) as nat,
                        lim,
                        enc,
                    );
                }
            }
        },
        Val::Record(fs) => {
            if let Schema::Record(ss) = s {
                lemma_decode_inverts_fields(fs, ss@, stream, pos, read, lim, enc);
            }
        },
        Val::Enum(i, fs) => {
            if let Schema::Enum(variants) = s {
                let lenb = leb_u(i as nat);
                let bodyb = enc_vals(fs, enc);
                lemma_window_split(stream, pos, lenb, bodyb);
                lemma_leb_u_rt_top(stream, pos, i as nat);
                lemma_meter_compose(read, lenb.len(), bodyb.len(), lim);
                if meter_ok(read, lenb.len(), lim) {
                    lemma_decode_inverts_fields(
                        fs,
                        variants[i as int]@,
                        stream,
                        pos + lenb.len(),
                        (read + lenb.len()) as nat,
                        lim,
                        enc,
                    );
                }
            }
        },
        Val::Bits(bits) => {
            lemma_case_bits(bits, stream, pos, read, lim, enc);
        },
    }
}

/// Element runs decode back to their projections.
proof fn lemma_decode_inverts_vals(
    vs: Seq<Val>,
    t: Schema,
    stream: Seq<u8>,
    pos: int,
    read: nat,
    lim: SizeLimit,
    enc: FloatEncoding,
)
    requires
        vals_match_elem(vs, t),
        vals_sized(vs),
        0 <= pos,
        pos + enc_vals(vs, enc).len() <= stream.len(),
        stream.subrange(pos, pos + enc_vals(vs, enc).len() as int) == enc_vals(vs, enc),
        meter_ok(read, 0, lim),
    ensures
        dec_list(t, vs.len(), stream, pos, read, lim, enc) == ({
            let n = enc_vals(vs, enc).len();
            if meter_ok(read, n, lim) {
                DecListRes::Good {
                    vs: project_vals(vs, enc),
                    end: pos + n,
                    tally: (read + n) as nat,
                }
            } else {
                DecListRes::Fail { k: DecErrKind::Size }
            }
        }),
    decreases vs, 3nat, 0nat,
{
    if vs.len() == 0 {
    } else {
        let head = enc_val(vs[0], enc);
        let rest = enc_vals(vs.drop_first(), enc);
        lemma_window_split(stream, pos, head, rest);
        lemma_meter_compose(read, head.len(), rest.len(), lim);
        lemma_decode_inverts_encode(vs[0], t, stream, pos, read, lim, enc);
        if meter_ok(read, head.len(), lim) {
            lemma_decode_inverts_vals(
                vs.drop_first(),
                t,
                stream,
                pos + head.len(),
                (read + head.len()) as nat,
                lim,
                enc,
            );
        }
    }
}

/// Pair runs decode back to their projections.
proof fn lemma_decode_inverts_pairs(
    ps: Seq<(Val, Val)>,
    s: Schema,
    count: nat,
    stream: Seq<u8>,
    pos: int,
    read: nat,
    lim: SizeLimit,
    enc: FloatEncoding,
)
    requires
        s matches Schema::Pairs(kt, wt) && pairs_match(ps, *kt, *wt),
        count == ps.len(),
        pair_vals_sized(ps),
        0 <= pos,
        pos + enc_pair_vals(ps, enc).len() <= stream.len(),
        stream.subrange(pos, pos + enc_pair_vals(ps, enc).len() as int) == enc_pair_vals(ps, enc),
        meter_ok(read, 0, lim),
    ensures
        dec_pairs(s, count, stream, pos, read, lim, enc) == ({
            let n = enc_pair_vals(ps, enc).len();
            if meter_ok(read, n, lim) {
                DecPairsRes::Good {
                    ps: project_pair_vals(ps, enc),
                    end: pos + n,
                    tally: (read + n) as nat,
                }
            } else {
                DecPairsRes::Fail { k: DecErrKind::Size }
            }
        }),
    decreases ps, 3nat, 0nat,
{
    if let Schema::Pairs(kt, wt) = s {
        if ps.len() == 0 {
        } else {
            let kb = enc_val(ps[0].0, enc);
            let wb = enc_val(ps[0].1, enc);
            let rest = enc_pair_vals(ps.drop_first(), enc);
            assert(enc_pair_vals(ps, enc) == kb + wb + rest);
            assert(kb + wb + rest =~= kb + (wb + rest));
            lemma_window_split(stream, pos, kb, wb + rest);
            lemma_window_split(stream, pos + kb.len(), wb, rest);
            lemma_meter_compose(read, kb.len(), wb.len() + rest.len(), lim);
            lemma_meter_compose((read + kb.len()) as nat, wb.len(), rest.len(), lim);
            lemma_decode_inverts_encode(ps[0].0, *kt, stream, pos, read, lim, enc);
            if meter_ok(read, kb.len(), lim) {
                lemma_decode_inverts_encode(
                    ps[0].1,
                    *wt,
                    stream,
                    pos + kb.len(),
                    (read + kb.len()) as nat,
                    lim,
                    enc,
                );
                if meter_ok((read + kb.len()) as nat, wb.len(), lim) {
                    lemma_decode_inverts_pairs(
                        ps.drop_first(),
                        s,
                        (count - 1) as nat,
                        stream,
                        pos + kb.len() + wb.len(),
                        (read + kb.len() + wb.len()) as nat,
                        lim,
                        enc,
                    );
                }
            }
        }
    }
}

/// Field runs decode back to their projections.
proof fn lemma_decode_inverts_fields(
    vs: Seq<Val>,
    ss: Seq<Schema>,
    stream: Seq<u8>,
    pos: int,
    read: nat,
    lim: SizeLimit,
    enc: FloatEncoding,
)
    requires
        vals_match_fields(vs, ss),
        vals_sized(vs),
        0 <= pos,
        pos + enc_vals(vs, enc).len() <= stream.len(),
        stream.subrange(pos, pos + enc_vals(vs, enc).len() as int) == enc_vals(vs, enc),
        meter_ok(read, 0, lim),
    ensures
        dec_fields(ss, stream, pos, read, lim, enc) == ({
            let n = enc_vals(vs, enc).len();
            if meter_ok(read, n, lim) {
                DecListRes::Good {
                    vs: project_vals(vs, enc),
                    end: pos + n,
                    tally: (read + n) as nat,
                }
            } else {
                DecListRes::Fail { k: DecErrKind::Size }
            }
        }),
    decreases vs, 3nat, 0nat,
{
    if vs.len() == 0 {
    } else {
        let head = enc_val(vs[0], enc);
        let rest = enc_vals(vs.drop_first(), enc);
        lemma_window_split(stream, pos, head, rest);
        lemma_meter_compose(read, head.len(), rest.len(), lim);
        lemma_decode_inverts_encode(vs[0], ss[0], stream, pos, read, lim, enc);
        if meter_ok(read, head.len(), lim) {
            lemma_decode_inverts_fields(
                vs.drop_first(),
                ss.drop_first(),
                stream,
                pos + head.len(),
                (read + head.len()) as nat,
                lim,
                enc,
            );
        }
    }
}

/// Round trip with full-width floats: decoding the encoding of any
/// matching value under the `Normal` mode yields the value itself.
pub proof fn lemma_round_trip_normal(v: Val, s: Schema)
    requires
        val_matches(v, s),
        val_sized(v),
        enc_val(v, FloatEncoding::Normal).len() <= u64::MAX,
    ensures
        dec_val(
            s,
            enc_val(v, FloatEncoding::Normal),
            0,
            0,
            SizeLimit::Infinite,
            FloatEncoding::Normal,
        ) == (DecRes::Good {
            v,
            end: enc_val(v, FloatEncoding::Normal).len() as int,
            tally: enc_val(v, FloatEncoding::Normal).len(),
        }),
{
    let e = enc_val(v, FloatEncoding::Normal);
    assert(e.subrange(0, e.len() as int) =~= e);
    lemma_decode_inverts_encode(v, s, e, 0, 0, SizeLimit::Infinite, FloatEncoding::Normal);
    lemma_project_normal_identity(v);
}

/// Round trip under any float mode: decoding the encoding yields the
/// value's projection through the mode's wire widths.
pub proof fn lemma_round_trip_mode(v: Val, s: Schema, enc: FloatEncoding)
    requires
        val_matches(v, s),
        val_sized(v),
        enc_val(v, enc).len() <= u64::MAX,
    ensures
        dec_val(s, enc_val(v, enc), 0, 0, SizeLimit::Infinite, enc) == (DecRes::Good {
            v: project_val(v, enc),
            end: enc_val(v, enc).len() as int,
            tally: enc_val(v, enc).len(),
        }),
{
    let e = enc_val(v, enc);
    assert(e.subrange(0, e.len() as int) =~= e);
    lemma_decode_inverts_encode(v, s, e, 0, 0, SizeLimit::Infinite, enc);
}

/// A reader whose cap is one byte short of the encoding rejects it with
/// the size-limit kind.
pub proof fn lemma_bounded_read_rejects(v: Val, s: Schema, enc: FloatEncoding, cap: u64)
    requires
        val_matches(v, s),
        val_sized(v),
        cap < enc_val(v, enc).len(),
    ensures
        dec_val(s, enc_val(v, enc), 0, 0, SizeLimit::Bounded(cap), enc) == (DecRes::Fail {
            k: DecErrKind::Size,
        }),
{
    let e = enc_val(v, enc);
    assert(e.subrange(0, e.len() as int) =~= e);
    lemma_decode_inverts_encode(v, s, e, 0, 0, SizeLimit::Bounded(cap), enc);
}

/// A bit sequence of any length round-trips bit for bit.
pub proof fn lemma_bits_round_trip(bits: Seq<bool>, enc: FloatEncoding)
    requires
        bits.len() <= usize::MAX,
        enc_val(Val::Bits(bits), enc).len() <= u64::MAX,
    ensures
        dec_val(Schema::Bits, enc_val(Val::Bits(bits), enc), 0, 0, SizeLimit::Infinite, enc)
            == (DecRes::Good {
            v: Val::Bits(bits),
            end: enc_val(Val::Bits(bits), enc).len() as int,
            tally: enc_val(Val::Bits(bits), enc).len(),
        }),
{
    lemma_round_trip_mode(Val::Bits(bits), Schema::Bits, enc);
}

/// The encoded form of a bit sequence is its length as a varint followed
/// by one byte per eight bits, rounded up.
pub proof fn lemma_bits_frame_size(bits: Seq<bool>, enc: FloatEncoding)
    ensures
        enc_val(Val::Bits(bits), enc).len() == leb_u_len(bits.len()) + (bits.len() + 7) / 8,
{
    lemma_leb_u_len(bits.len());
}

} // verus!
