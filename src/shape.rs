use vstd::prelude::*;

use crate::format::{supported, supported_all, supported_variants};

verus! {

/// One alternative of a tagged union: its discriminant and the shapes of its
/// payload fields, in order.
#[derive(Debug)]
pub struct Variant {
    pub discriminant: u32,
    pub fields: Vec<Shape>,
}

/// What is being encoded or decoded. Encoder and decoder must be handed the
/// same shape for the same value.
#[derive(Debug)]
pub enum Shape {
    Bool,
    U8,
    I8,
    U16,
    I16,
    U32,
    I32,
    U64,
    I64,
    /// A character of a single byte.
    Char,
    /// An `i32` as a variable-length integer of at most five bytes.
    VarInt,
    /// An `i64` as a variable-length integer of at most ten bytes.
    VarLong,
    /// A string: its UTF-8 length as a variable-length integer, then the bytes.
    Text,
    /// A record or a tuple: the fields one after the other, with no framing.
    Tuple(Vec<Shape>),
    /// A tagged union: a discriminant, then the matching variant's fields.
    Union(Vec<Variant>),
    /// A sequence preceded by its element count.
    Sized(Box<Shape>),
    /// A sequence with no count, which runs to the end of the input.
    Unsized(Box<Shape>),
    /// An optional value: not supported.
    Optional(Box<Shape>),
    /// An open key-value map: not supported.
    KeyValue(Box<Shape>, Box<Shape>),
    /// A self-describing value: not supported.
    Any,
}

/// A value to encode, or one that was decoded.
#[derive(Debug, PartialEq)]
pub enum Value {
    Bool(bool),
    U8(u8),
    I8(i8),
    U16(u16),
    I16(i16),
    U32(u32),
    I32(i32),
    U64(u64),
    I64(i64),
    Char(char),
    Text(String),
    Tuple(Vec<Value>),
    /// A discriminant and the payload fields of its variant.
    Union(u32, Vec<Value>),
    /// The elements of a sequence, whichever sizing policy its shape has.
    List(Vec<Value>),
}

/// The mathematical content of a [`Value`].
pub enum Datum {
    Bool(bool),
    U8(u8),
    I8(i8),
    U16(u16),
    I16(i16),
    U32(u32),
    I32(i32),
    U64(u64),
    I64(i64),
    Char(char),
    Text(Seq<char>),
    Tuple(Seq<Datum>),
    Union(u32, Seq<Datum>),
    List(Seq<Datum>),
}

pub open spec fn model(v: Value) -> Datum
    decreases v, 0nat,
{
    match v {
        Value::Bool(b) => Datum::Bool(b),
        Value::U8(x) => Datum::U8(x),
        Value::I8(x) => Datum::I8(x),
        Value::U16(x) => Datum::U16(x),
        Value::I16(x) => Datum::I16(x),
        Value::U32(x) => Datum::U32(x),
        Value::I32(x) => Datum::I32(x),
        Value::U64(x) => Datum::U64(x),
        Value::I64(x) => Datum::I64(x),
        Value::Char(c) => Datum::Char(c),
        Value::Text(s) => Datum::Text(s@),
        Value::Tuple(vs) => Datum::Tuple(models(vs@)),
        Value::Union(k, vs) => Datum::Union(k, models(vs@)),
        Value::List(vs) => Datum::List(models(vs@)),
    }
}

pub open spec fn models(vs: Seq<Value>) -> Seq<Datum>
    decreases vs, 0nat,
{
    if vs.len() == 0 {
        Seq::empty()
    } else {
        models(vs.subrange(0, vs.len() - 1)).push(model(vs[vs.len() - 1]))
    }
}

impl View for Value {
    type V = Datum;

    open spec fn view(&self) -> Datum {
        model(*self)
    }
}

/// Whether no part of `shape` is unsupported.
pub fn is_supported(shape: &Shape) -> (r: bool)
    ensures
        r == supported(*shape),
    decreases shape, 2nat,
{
    match shape {
        Shape::Tuple(fields) => all_supported(fields),
        Shape::Union(variants) => variants_supported(variants),
        Shape::Sized(e) => is_supported(e),
        Shape::Unsized(e) => is_supported(e),
        Shape::Optional(_) => false,
        Shape::KeyValue(_, _) => false,
        Shape::Any => false,
        _ => true,
    }
}

/// Whether no field of any of `variants` has an unsupported part.
pub fn variants_supported(variants: &Vec<Variant>) -> (r: bool)
    ensures
        r == supported_variants(variants@),
    decreases variants, 3nat,
{
    let mut ok = true;
    let mut i: usize = 0;
    while i < variants.len()
        invariant
            i <= variants@.len(),
            ok == supported_variants(variants@.take(i as int)),
        decreases variants.len() - i,
    {
        let b = all_supported(&variants[i].fields);
        proof {
            let n = i as int + 1;
            assert(variants@.take(n).subrange(0, n - 1) =~= variants@.take(n - 1));
        }
        ok = ok && b;
        i = i + 1;
    }
    proof {
        assert(variants@.take(i as int) =~= variants@);
    }
    ok
}

/// Whether no part of any of `shapes` is unsupported.
pub fn all_supported(shapes: &Vec<Shape>) -> (r: bool)
    ensures
        r == supported_all(shapes@),
    decreases shapes, 3nat,
{
    let mut ok = true;
    let mut i: usize = 0;
    while i < shapes.len()
        invariant
            i <= shapes@.len(),
            ok == supported_all(shapes@.take(i as int)),
        decreases shapes.len() - i,
    {
        let b = is_supported(&shapes[i]);
        proof {
            let n = i as int + 1;
            assert(shapes@.take(n).subrange(0, n - 1) =~= shapes@.take(n - 1));
        }
        ok = ok && b;
        i = i + 1;
    }
    proof {
        assert(shapes@.take(i as int) =~= shapes@);
    }
    ok
}

pub proof fn lemma_models(vs: Seq<Value>)
    ensures
        models(vs).len() == vs.len(),
        forall|i: int| 0 <= i < vs.len() ==> #[trigger] models(vs)[i] == model(vs[i]),
    decreases vs.len(),
{
    if vs.len() > 0 {
        lemma_models(vs.subrange(0, vs.len() - 1));
    }
}

pub proof fn lemma_models_push(vs: Seq<Value>, v: Value)
    ensures
        models(vs.push(v)) == models(vs).push(model(v)),
{
    assert(vs.push(v).subrange(0, vs.len() as int) =~= vs);
}

} // verus!
