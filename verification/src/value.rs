//! The values the codec carries, their mathematical model, and the shape
//! descriptions a reader follows.
//!
//! The stream itself is schema-driven: it holds no type tags, so the
//! reader is handed a [`Schema`] describing the shape it should expect,
//! and the writer walks a [`Value`] emitting events.  [`Val`] is the
//! mathematical model of a value: strings become character sequences and
//! bit vectors become boolean sequences.
use vstd::prelude::*;
use vstd::utf8::encode_scalar;
use vstd::utf8::encode_utf8;
use crate::varint::leb_u;
use crate::varint::leb_s;
use crate::floatenc::FloatEncoding;
use crate::floatenc::f32_wire;
use crate::floatenc::f64_wire;
use crate::bitvec::BVec;
use crate::bitvec::pack_bits;

verus! {

broadcast use vstd::seq::group_seq_axioms;

/// A value the codec can carry.  Aggregates nest arbitrarily.
#[derive(Debug, PartialEq)]
pub enum Value {
    /// The unit value; it occupies no bytes.
    Unit,
    U8(u8),
    U16(u16),
    U32(u32),
    U64(u64),
    Usize(usize),
    I8(i8),
    I16(i16),
    I32(i32),
    I64(i64),
    Isize(isize),
    Bool(bool),
    Char(char),
    Str(String),
    /// A 32-bit float, carried as its IEEE 754 bit pattern.
    F32(u32),
    /// A 64-bit float, carried as its IEEE 754 bit pattern.
    F64(u64),
    /// An optional value: one tag byte, then the payload if present.
    Opt(Option<Box<Value>>),
    /// A sequence: its length, then the elements back to back.
    List(Vec<Value>),
    /// A map: its pair count, then alternating keys and values.
    Pairs(Vec<(Value, Value)>),
    /// A struct or tuple: the fields back to back, with no framing.
    Record(Vec<Value>),
    /// An enum value: the variant index, then the variant's fields.
    Enum(usize, Vec<Value>),
    /// A bit sequence: its bit length, then the packed bytes.
    Bits(BVec),
}

/// The mathematical model of a [`Value`].
pub enum Val {
    Unit,
    U8(u8),
    U16(u16),
    U32(u32),
    U64(u64),
    Usize(usize),
    I8(i8),
    I16(i16),
    I32(i32),
    I64(i64),
    Isize(isize),
    Bool(bool),
    Char(char),
    Str(Seq<char>),
    F32(u32),
    F64(u64),
    Opt(Option<Box<Val>>),
    List(Seq<Val>),
    Pairs(Seq<(Val, Val)>),
    Record(Seq<Val>),
    Enum(usize, Seq<Val>),
    Bits(Seq<bool>),
}

/// The shape a reader expects at one point of the stream.
#[derive(Debug)]
pub enum Schema {
    Unit,
    U8,
    U16,
    U32,
    U64,
    Usize,
    I8,
    I16,
    I32,
    I64,
    Isize,
    Bool,
    Char,
    Str,
    F32,
    F64,
    Opt(Box<Schema>),
    List(Box<Schema>),
    Pairs(Box<Schema>, Box<Schema>),
    Record(Vec<Schema>),
    /// One entry per variant: the shapes of that variant's fields.
    Enum(Vec<Vec<Schema>>),
    Bits,
}

/// The model of a value.
pub open spec fn view_value(v: Value) -> Val
    decreases v,
{
    match v {
        Value::Unit => Val::Unit,
        Value::U8(x) => Val::U8(x),
        Value::U16(x) => Val::U16(x),
        Value::U32(x) => Val::U32(x),
        Value::U64(x) => Val::U64(x),
        Value::Usize(x) => Val::Usize(x),
        Value::I8(x) => Val::I8(x),
        Value::I16(x) => Val::I16(x),
        Value::I32(x) => Val::I32(x),
        Value::I64(x) => Val::I64(x),
        Value::Isize(x) => Val::Isize(x),
        Value::Bool(x) => Val::Bool(x),
        Value::Char(x) => Val::Char(x),
        Value::Str(s) => Val::Str(s@),
        Value::F32(x) => Val::F32(x),
        Value::F64(x) => Val::F64(x),
        Value::Opt(o) => Val::Opt(
            match o {
                Option::None => Option::None,
                Option::Some(b) => Option::Some(Box::new(view_value(*b))),
            },
        ),
        Value::List(es) => Val::List(view_values(es@)),
        Value::Pairs(ps) => Val::Pairs(view_value_pairs(ps@)),
        Value::Record(fs) => Val::Record(view_values(fs@)),
        Value::Enum(i, fs) => Val::Enum(i, view_values(fs@)),
        Value::Bits(b) => Val::Bits(b@),
    }
}

/// The models of a sequence of values, in order.
pub open spec fn view_values(vs: Seq<Value>) -> Seq<Val>
    decreases vs,
{
    if vs.len() == 0 {
        Seq::empty()
    } else {
        seq![view_value(vs[0])] + view_values(vs.drop_first())
    }
}

/// The models of a sequence of key-value pairs, in order.
pub open spec fn view_value_pairs(ps: Seq<(Value, Value)>) -> Seq<(Val, Val)>
    decreases ps,
{
    if ps.len() == 0 {
        Seq::empty()
    } else {
        seq![(view_value(ps[0].0), view_value(ps[0].1))] + view_value_pairs(ps.drop_first())
    }
}

impl View for Value {
    type V = Val;

    open spec fn view(&self) -> Val {
        view_value(*self)
    }
}

pub broadcast proof fn lemma_view_values_len(vs: Seq<Value>)
    ensures
        #[trigger] view_values(vs).len() == vs.len(),
    decreases vs,
{
    if vs.len() > 0 {
        lemma_view_values_len(vs.drop_first());
    }
}

pub broadcast proof fn lemma_view_values_index(vs: Seq<Value>, i: int)
    requires
        0 <= i < vs.len(),
    ensures
        #[trigger] view_values(vs)[i] == view_value(vs[i]),
    decreases vs,
{
    lemma_view_values_len(vs);
    if i > 0 {
        lemma_view_values_index(vs.drop_first(), i - 1);
    }
}

pub broadcast proof fn lemma_view_value_pairs_len(ps: Seq<(Value, Value)>)
    ensures
        #[trigger] view_value_pairs(ps).len() == ps.len(),
    decreases ps,
{
    if ps.len() > 0 {
        lemma_view_value_pairs_len(ps.drop_first());
    }
}

pub broadcast proof fn lemma_view_value_pairs_index(ps: Seq<(Value, Value)>, i: int)
    requires
        0 <= i < ps.len(),
    ensures
        #[trigger] view_value_pairs(ps)[i] == (view_value(ps[i].0), view_value(ps[i].1)),
    decreases ps,
{
    lemma_view_value_pairs_len(ps);
    if i > 0 {
        lemma_view_value_pairs_index(ps.drop_first(), i - 1);
    }
}

/// Whether a value has the shape a schema describes.
pub open spec fn val_matches(v: Val, s: Schema) -> bool
    decreases v, 0nat, 0nat,
{
    match (v, s) {
        (Val::Unit, Schema::Unit) => true,
        (Val::U8(_), Schema::U8) => true,
        (Val::U16(_), Schema::U16) => true,
        (Val::U32(_), Schema::U32) => true,
        (Val::U64(_), Schema::U64) => true,
        (Val::Usize(_), Schema::Usize) => true,
        (Val::I8(_), Schema::I8) => true,
        (Val::I16(_), Schema::I16) => true,
        (Val::I32(_), Schema::I32) => true,
        (Val::I64(_), Schema::I64) => true,
        (Val::Isize(_), Schema::Isize) => true,
        (Val::Bool(_), Schema::Bool) => true,
        (Val::Char(_), Schema::Char) => true,
        (Val::Str(_), Schema::Str) => true,
        (Val::F32(_), Schema::F32) => true,
        (Val::F64(_), Schema::F64) => true,
        (Val::Opt(o), Schema::Opt(t)) => match o {
            Option::None => true,
            Option::Some(b) => val_matches(*b, *t),
        },
        (Val::List(es), Schema::List(t)) => vals_match_elem(es, *t),
        (Val::Pairs(ps), Schema::Pairs(k, w)) => pairs_match(ps, *k, *w),
        (Val::Record(fs), Schema::Record(ss)) => vals_match_fields(fs, ss@),
        (Val::Enum(i, fs), Schema::Enum(variants)) => i < variants.len() && vals_match_fields(
            fs,
            variants[i as int]@,
        ),
        (Val::Bits(_), Schema::Bits) => true,
        _ => false,
    }
}

/// Whether every element of `vs` has the shape `t`.
pub open spec fn vals_match_elem(vs: Seq<Val>, t: Schema) -> bool
    decreases vs, 1nat, 0nat,
{
    if vs.len() == 0 {
        true
    } else {
        val_matches(vs[0], t) && vals_match_elem(vs.drop_first(), t)
    }
}

/// Whether every key matches `k` and every value matches `w`.
pub open spec fn pairs_match(ps: Seq<(Val, Val)>, k: Schema, w: Schema) -> bool
    decreases ps, 1nat, 0nat,
{
    if ps.len() == 0 {
        true
    } else {
        val_matches(ps[0].0, k) && val_matches(ps[0].1, w) && pairs_match(ps.drop_first(), k, w)
    }
}

/// Whether the fields match the field shapes pointwise.
pub open spec fn vals_match_fields(vs: Seq<Val>, ss: Seq<Schema>) -> bool
    decreases vs, 1nat, 0nat,
{
    &&& vs.len() == ss.len()
    &&& if vs.len() == 0 {
        true
    } else {
        val_matches(vs[0], ss[0]) && vals_match_fields(vs.drop_first(), ss.drop_first())
    }
}

/// The bytes that encode `v` under float mode `enc`.
pub open spec fn enc_val(v: Val, enc: FloatEncoding) -> Seq<u8>
    decreases v, 0nat,
{
    match v {
        Val::Unit => Seq::empty(),
        Val::U8(x) => seq![x],
        Val::U16(x) => leb_u(x as nat),
        Val::U32(x) => leb_u(x as nat),
        Val::U64(x) => leb_u(x as nat),
        Val::Usize(x) => leb_u(x as nat),
        Val::I8(x) => seq![x as u8],
        Val::I16(x) => leb_s(x as int),
        Val::I32(x) => leb_s(x as int),
        Val::I64(x) => leb_s(x as int),
        Val::Isize(x) => leb_s(x as int),
        Val::Bool(x) => seq![
            if x {
                1u8
            } else {
                0u8
            },
        ],
        Val::Char(c) => encode_scalar(c as u32),
        Val::Str(cs) => leb_u(encode_utf8(cs).len()) + encode_utf8(cs),
        Val::F32(b) => f32_wire(enc, b),
        Val::F64(b) => f64_wire(enc, b),
        Val::Opt(o) => match o {
            Option::None => seq![0u8],
            Option::Some(b) => seq![1u8] + enc_val(*b, enc),
        },
        Val::List(es) => leb_u(es.len()) + enc_vals(es, enc),
        Val::Pairs(ps) => leb_u(ps.len()) + enc_pair_vals(ps, enc),
        Val::Record(fs) => enc_vals(fs, enc),
        Val::Enum(i, fs) => leb_u(i as nat) + enc_vals(fs, enc),
        Val::Bits(bits) => leb_u(bits.len()) + pack_bits(bits),
    }
}

/// The bytes that encode each element of `vs`, back to back.
pub open spec fn enc_vals(vs: Seq<Val>, enc: FloatEncoding) -> Seq<u8>
    decreases vs, 1nat,
{
    if vs.len() == 0 {
        Seq::empty()
    } else {
        enc_val(vs[0], enc) + enc_vals(vs.drop_first(), enc)
    }
}

/// The bytes that encode each pair of `ps`: key then value, back to back.
pub open spec fn enc_pair_vals(ps: Seq<(Val, Val)>, enc: FloatEncoding) -> Seq<u8>
    decreases ps, 1nat,
{
    if ps.len() == 0 {
        Seq::empty()
    } else {
        enc_val(ps[0].0, enc) + enc_val(ps[0].1, enc) + enc_pair_vals(ps.drop_first(), enc)
    }
}

/// The bytes that encode the model of `v`: what every writer produces.
pub open spec fn enc_value(v: Value, enc: FloatEncoding) -> Seq<u8> {
    enc_val(v@, enc)
}

/// The encoding of a sequence splits at any index.
pub proof fn lemma_enc_vals_split(vs: Seq<Val>, enc: FloatEncoding, i: int)
    requires
        0 <= i <= vs.len(),
    ensures
        enc_vals(vs, enc) == enc_vals(vs.subrange(0, i), enc) + enc_vals(
            vs.subrange(i, vs.len() as int),
            enc,
        ),
    decreases i,
{
    if i == 0 {
        assert(vs.subrange(0, 0) =~= Seq::<Val>::empty());
        assert(vs.subrange(0, vs.len() as int) =~= vs);
        assert(Seq::<u8>::empty() + enc_vals(vs, enc) =~= enc_vals(vs, enc));
    } else {
        let rest = vs.drop_first();
        lemma_enc_vals_split(rest, enc, i - 1);
        assert(vs.subrange(0, i).drop_first() =~= rest.subrange(0, i - 1));
        assert(vs.subrange(0, i)[0] == vs[0]);
        assert(vs.subrange(i, vs.len() as int) =~= rest.subrange(i - 1, rest.len() as int));
        assert(enc_vals(vs.subrange(0, i), enc) == enc_val(vs[0], enc) + enc_vals(
            rest.subrange(0, i - 1),
            enc,
        ));
        assert((enc_val(vs[0], enc) + enc_vals(rest.subrange(0, i - 1), enc)) + enc_vals(
            rest.subrange(i - 1, rest.len() as int),
            enc,
        ) =~= enc_val(vs[0], enc) + (enc_vals(rest.subrange(0, i - 1), enc) + enc_vals(
            rest.subrange(i - 1, rest.len() as int),
            enc,
        )));
    }
}

/// Extending the encoded prefix by one element appends that element's bytes.
pub proof fn lemma_enc_vals_snoc(vs: Seq<Val>, enc: FloatEncoding, i: int)
    requires
        0 <= i < vs.len(),
    ensures
        enc_vals(vs.subrange(0, i + 1), enc) == enc_vals(vs.subrange(0, i), enc) + enc_val(
            vs[i],
            enc,
        ),
{
    let pre = vs.subrange(0, i + 1);
    lemma_enc_vals_split(pre, enc, i);
    assert(pre.subrange(0, i) =~= vs.subrange(0, i));
    let last = pre.subrange(i, pre.len() as int);
    assert(last.len() == 1 && last[0] == vs[i]);
    assert(last.drop_first() =~= Seq::<Val>::empty());
    assert(enc_vals(Seq::<Val>::empty(), enc) == Seq::<u8>::empty());
    assert(enc_vals(last, enc) == enc_val(last[0], enc) + enc_vals(last.drop_first(), enc));
    assert(enc_vals(last, enc) == enc_val(vs[i], enc) + Seq::<u8>::empty());
    assert(enc_val(vs[i], enc) + Seq::<u8>::empty() =~= enc_val(vs[i], enc));
}

/// The encoding of a pair sequence splits at any index.
pub proof fn lemma_enc_pair_vals_split(ps: Seq<(Val, Val)>, enc: FloatEncoding, i: int)
    requires
        0 <= i <= ps.len(),
    ensures
        enc_pair_vals(ps, enc) == enc_pair_vals(ps.subrange(0, i), enc) + enc_pair_vals(
            ps.subrange(i, ps.len() as int),
            enc,
        ),
    decreases i,
{
    if i == 0 {
        assert(ps.subrange(0, 0) =~= Seq::<(Val, Val)>::empty());
        assert(ps.subrange(0, ps.len() as int) =~= ps);
        assert(Seq::<u8>::empty() + enc_pair_vals(ps, enc) =~= enc_pair_vals(ps, enc));
    } else {
        let rest = ps.drop_first();
        lemma_enc_pair_vals_split(rest, enc, i - 1);
        assert(ps.subrange(0, i).drop_first() =~= rest.subrange(0, i - 1));
        assert(ps.subrange(0, i)[0] == ps[0]);
        assert(ps.subrange(i, ps.len() as int) =~= rest.subrange(i - 1, rest.len() as int));
        assert(enc_pair_vals(ps.subrange(0, i), enc) == enc_val(ps[0].0, enc) + enc_val(
            ps[0].1,
            enc,
        ) + enc_pair_vals(rest.subrange(0, i - 1), enc));
        let h = enc_val(ps[0].0, enc) + enc_val(ps[0].1, enc);
        assert((h + enc_pair_vals(rest.subrange(0, i - 1), enc)) + enc_pair_vals(
            rest.subrange(i - 1, rest.len() as int),
            enc,
        ) =~= h + (enc_pair_vals(rest.subrange(0, i - 1), enc) + enc_pair_vals(
            rest.subrange(i - 1, rest.len() as int),
            enc,
        )));
    }
}

/// Extending the encoded prefix by one pair appends that pair's bytes.
pub proof fn lemma_enc_pair_vals_snoc(ps: Seq<(Val, Val)>, enc: FloatEncoding, i: int)
    requires
        0 <= i < ps.len(),
    ensures
        enc_pair_vals(ps.subrange(0, i + 1), enc) == enc_pair_vals(ps.subrange(0, i), enc)
            + enc_val(ps[i].0, enc) + enc_val(ps[i].1, enc),
{
    let pre = ps.subrange(0, i + 1);
    lemma_enc_pair_vals_split(pre, enc, i);
    assert(pre.subrange(0, i) =~= ps.subrange(0, i));
    let last = pre.subrange(i, pre.len() as int);
    assert(last.len() == 1 && last[0] == ps[i]);
    assert(last.drop_first() =~= Seq::<(Val, Val)>::empty());
    assert(enc_pair_vals(Seq::<(Val, Val)>::empty(), enc) == Seq::<u8>::empty());
    assert(enc_pair_vals(last, enc) == enc_val(last[0].0, enc) + enc_val(last[0].1, enc)
        + enc_pair_vals(last.drop_first(), enc));
    assert(enc_pair_vals(last, enc) == enc_val(ps[i].0, enc) + enc_val(ps[i].1, enc)
        + Seq::<u8>::empty());
    assert(enc_pair_vals(ps.subrange(0, i), enc) + (enc_val(ps[i].0, enc) + enc_val(ps[i].1, enc)
        + Seq::<u8>::empty()) =~= enc_pair_vals(ps.subrange(0, i), enc) + enc_val(ps[i].0, enc)
        + enc_val(ps[i].1, enc));
}


pub proof fn lemma_view_values_push(vs: Seq<Value>, x: Value)
    ensures
        view_values(vs.push(x)) == view_values(vs).push(view_value(x)),
    decreases vs,
{
    if vs.len() == 0 {
        assert(vs.push(x).drop_first() =~= Seq::<Value>::empty());
        assert(view_values(Seq::<Value>::empty()) == Seq::<Val>::empty());
        assert(view_values(vs.push(x)) =~= view_values(vs).push(view_value(x)));
    } else {
        assert(vs.push(x).drop_first() =~= vs.drop_first().push(x));
        lemma_view_values_push(vs.drop_first(), x);
        assert(vs.push(x)[0] == vs[0]);
        assert(view_values(vs.push(x)) == seq![view_value(vs[0])] + view_values(
            vs.drop_first().push(x),
        ));
        assert(seq![view_value(vs[0])] + view_values(vs.drop_first()).push(view_value(x))
            =~= (seq![view_value(vs[0])] + view_values(vs.drop_first())).push(view_value(x)));
    }
}

pub proof fn lemma_view_value_pairs_push(ps: Seq<(Value, Value)>, x: (Value, Value))
    ensures
        view_value_pairs(ps.push(x)) == view_value_pairs(ps).push(
            (view_value(x.0), view_value(x.1)),
        ),
    decreases ps,
{
    if ps.len() == 0 {
        assert(ps.push(x).drop_first() =~= Seq::<(Value, Value)>::empty());
        assert(view_value_pairs(Seq::<(Value, Value)>::empty()) == Seq::<(Val, Val)>::empty());
        assert(view_value_pairs(ps.push(x)) =~= view_value_pairs(ps).push(
            (view_value(x.0), view_value(x.1)),
        ));
    } else {
        assert(ps.push(x).drop_first() =~= ps.drop_first().push(x));
        lemma_view_value_pairs_push(ps.drop_first(), x);
        assert(ps.push(x)[0] == ps[0]);
        assert(view_value_pairs(ps.push(x)) == seq![(view_value(ps[0].0), view_value(ps[0].1))]
            + view_value_pairs(ps.drop_first().push(x)));
        assert(seq![(view_value(ps[0].0), view_value(ps[0].1))] + view_value_pairs(
            ps.drop_first(),
        ).push((view_value(x.0), view_value(x.1))) =~= (seq![
            (view_value(ps[0].0), view_value(ps[0].1)),
        ] + view_value_pairs(ps.drop_first())).push((view_value(x.0), view_value(x.1))));
    }
}


/// Whether every length in the value fits the platform word, as it does
/// for any value actually held in memory.
pub open spec fn val_sized(v: Val) -> bool
    decreases v, 0nat,
{
    match v {
        Val::Str(cs) => encode_utf8(cs).len() <= usize::MAX,
        Val::Opt(o) => match o {
            Option::None => true,
            Option::Some(b) => val_sized(*b),
        },
        Val::List(es) => es.len() <= usize::MAX && vals_sized(es),
        Val::Pairs(ps) => ps.len() <= usize::MAX && pair_vals_sized(ps),
        Val::Record(fs) => vals_sized(fs),
        Val::Enum(_, fs) => vals_sized(fs),
        Val::Bits(bits) => bits.len() <= usize::MAX,
        _ => true,
    }
}

pub open spec fn vals_sized(vs: Seq<Val>) -> bool
    decreases vs, 1nat,
{
    if vs.len() == 0 {
        true
    } else {
        val_sized(vs[0]) && vals_sized(vs.drop_first())
    }
}

pub open spec fn pair_vals_sized(ps: Seq<(Val, Val)>) -> bool
    decreases ps, 1nat,
{
    if ps.len() == 0 {
        true
    } else {
        val_sized(ps[0].0) && val_sized(ps[0].1) && pair_vals_sized(ps.drop_first())
    }
}

/// The lossy projection a round trip under `enc` applies: floats pass
/// through the mode's wire width and back, everything else is unchanged.
pub open spec fn project_val(v: Val, enc: FloatEncoding) -> Val
    decreases v, 0nat,
{
    match v {
        Val::F32(b) => Val::F32(
            match enc {
                FloatEncoding::Normal => b,
                FloatEncoding::F32 => b,
                FloatEncoding::F16 => crate::floatenc::f16_to_f32_bits(
                    crate::floatenc::f32_to_f16_bits(b),
                ),
                FloatEncoding::HalvePrecision => crate::floatenc::f16_to_f32_bits(
                    crate::floatenc::f32_to_f16_bits(b),
                ),
            },
        ),
        Val::F64(b) => Val::F64(
            match enc {
                FloatEncoding::Normal => b,
                FloatEncoding::F16 => crate::floatenc::f16_to_f64_bits(
                    crate::floatenc::f64_to_f16_bits(b),
                ),
                FloatEncoding::F32 => crate::floatenc::f32_to_f64_bits(
                    crate::floatenc::f64_to_f32_bits(b),
                ),
                FloatEncoding::HalvePrecision => crate::floatenc::f32_to_f64_bits(
                    crate::floatenc::f64_to_f32_bits(b),
                ),
            },
        ),
        Val::Opt(o) => Val::Opt(
            match o {
                Option::None => Option::None,
                Option::Some(b) => Option::Some(Box::new(project_val(*b, enc))),
            },
        ),
        Val::List(es) => Val::List(project_vals(es, enc)),
        Val::Pairs(ps) => Val::Pairs(project_pair_vals(ps, enc)),
        Val::Record(fs) => Val::Record(project_vals(fs, enc)),
        Val::Enum(i, fs) => Val::Enum(i, project_vals(fs, enc)),
        _ => v,
    }
}

pub open spec fn project_vals(vs: Seq<Val>, enc: FloatEncoding) -> Seq<Val>
    decreases vs, 1nat,
{
    if vs.len() == 0 {
        Seq::empty()
    } else {
        seq![project_val(vs[0], enc)] + project_vals(vs.drop_first(), enc)
    }
}

pub open spec fn project_pair_vals(ps: Seq<(Val, Val)>, enc: FloatEncoding) -> Seq<(Val, Val)>
    decreases ps, 1nat,
{
    if ps.len() == 0 {
        Seq::empty()
    } else {
        seq![(project_val(ps[0].0, enc), project_val(ps[0].1, enc))] + project_pair_vals(
            ps.drop_first(),
            enc,
        )
    }
}

/// Under the full-width mode the projection changes nothing.
pub proof fn lemma_project_normal_identity(v: Val)
    ensures
        project_val(v, FloatEncoding::Normal) == v,
    decreases v, 0nat,
{
    match v {
        Val::Opt(o) => match o {
            Option::Some(b) => {
                lemma_project_normal_identity(*b);
            },
            Option::None => {},
        },
        Val::List(es) => {
            lemma_project_vals_normal_identity(es);
        },
        Val::Pairs(ps) => {
            lemma_project_pair_vals_normal_identity(ps);
        },
        Val::Record(fs) => {
            lemma_project_vals_normal_identity(fs);
        },
        Val::Enum(_, fs) => {
            lemma_project_vals_normal_identity(fs);
        },
        _ => {},
    }
}

proof fn lemma_project_vals_normal_identity(vs: Seq<Val>)
    ensures
        project_vals(vs, FloatEncoding::Normal) == vs,
    decreases vs, 1nat,
{
    if vs.len() > 0 {
        lemma_project_normal_identity(vs[0]);
        lemma_project_vals_normal_identity(vs.drop_first());
        assert(seq![vs[0]] + vs.drop_first() =~= vs);
    }
}

proof fn lemma_project_pair_vals_normal_identity(ps: Seq<(Val, Val)>)
    ensures
        project_pair_vals(ps, FloatEncoding::Normal) == ps,
    decreases ps, 1nat,
{
    if ps.len() > 0 {
        lemma_project_normal_identity(ps[0].0);
        lemma_project_normal_identity(ps[0].1);
        lemma_project_pair_vals_normal_identity(ps.drop_first());
        assert((ps[0].0, ps[0].1) == ps[0]);
        assert(seq![ps[0]] + ps.drop_first() =~= ps);
    }
}

} // verus!
