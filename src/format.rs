//! The wire format, as mathematics: what bytes a datum of a shape encodes to,
//! and what a shape decodes from given bytes.
use vstd::prelude::*;
use vstd::utf8::{decode_utf8, encode_utf8, valid_utf8};

use crate::error::Error;
use crate::shape::{Datum, Shape, Variant};

verus! {

/// Two to the 32nd power: the span of a 32-bit integer.
pub open spec fn span32() -> int {
    0x1_0000_0000
}

/// Two to the 64th power: the span of a 64-bit integer.
pub open spec fn span64() -> int {
    0x1_0000_0000_0000_0000
}

/// The unsigned bit pattern of a signed `x` in a width of `span` values.
pub open spec fn unsigned(x: int, span: int) -> nat {
    (if x >= 0 { x } else { x + span }) as nat
}

/// The signed integer whose bit pattern is `n`, in a width of `span` values.
pub open spec fn signed(n: nat, span: int) -> int {
    if 2 * n < span { n as int } else { n - span }
}

/// The variable-length encoding of `n`: seven bits per byte, low bits first,
/// the high bit set on every byte but the last.
pub open spec fn leb(n: nat) -> Seq<u8>
    decreases n,
{
    if n < 128 {
        seq![n as u8]
    } else {
        seq![(n % 128 + 128) as u8] + leb(n / 128)
    }
}

/// The `w` low bytes of `n`, most significant first.
pub open spec fn be(n: nat, w: nat) -> Seq<u8>
    decreases w,
{
    if w == 0 {
        Seq::empty()
    } else {
        be(n / 256, (w - 1) as nat).push((n % 256) as u8)
    }
}

/// The number that the bytes `b` spell, most significant first.
pub open spec fn be_value(b: Seq<u8>) -> nat
    decreases b.len(),
{
    if b.len() == 0 {
        0
    } else {
        be_value(b.drop_last()) * 256 + b.last() as nat
    }
}

/// The index of the first variant with discriminant `k`.
pub open spec fn is_first_variant(vs: Seq<Variant>, k: u32, i: int) -> bool {
    &&& 0 <= i < vs.len()
    &&& vs[i].discriminant == k
    &&& forall|j: int| 0 <= j < i ==> vs[j].discriminant != k
}

pub open spec fn variant_index(vs: Seq<Variant>, k: u32) -> Option<int> {
    if exists|i: int| is_first_variant(vs, k, i) {
        Some(choose|i: int| is_first_variant(vs, k, i))
    } else {
        None
    }
}

/// The byte that encodes a boolean.
pub open spec fn bool_byte(b: bool) -> u8 {
    if b { 1 } else { 0 }
}

/// Shapes with no unsupported part anywhere inside them.
pub open spec fn supported(s: Shape) -> bool
    decreases s, 0nat,
{
    match s {
        Shape::Tuple(fs) => supported_all(fs@),
        Shape::Union(vs) => supported_variants(vs@),
        Shape::Sized(e) => supported(*e),
        Shape::Unsized(e) => supported(*e),
        Shape::Optional(_) => false,
        Shape::KeyValue(_, _) => false,
        Shape::Any => false,
        _ => true,
    }
}

pub open spec fn supported_all(ss: Seq<Shape>) -> bool
    decreases ss, 0nat,
{
    if ss.len() == 0 {
        true
    } else {
        supported_all(ss.subrange(0, ss.len() - 1)) && supported(ss[ss.len() - 1])
    }
}

pub open spec fn supported_variants(vs: Seq<Variant>) -> bool
    decreases vs, 0nat,
{
    if vs.len() == 0 {
        true
    } else {
        supported_variants(vs.subrange(0, vs.len() - 1)) && supported_all(vs[vs.len() - 1].fields@)
    }
}

/// What the datum `d` of shape `s` encodes to, or the error that encoding it
/// meets first.
pub open spec fn encoded(d: Datum, s: Shape) -> Result<Seq<u8>, Error>
    decreases s, 0nat,
{
    match s {
        Shape::Bool => match d {
            Datum::Bool(b) => Ok(seq![bool_byte(b)]),
            _ => Err(Error::InvalidData),
        },
        Shape::U8 => match d {
            Datum::U8(x) => Ok(be(x as nat, 1)),
            _ => Err(Error::InvalidData),
        },
        Shape::I8 => match d {
            Datum::I8(x) => Ok(be(unsigned(x as int, 0x100), 1)),
            _ => Err(Error::InvalidData),
        },
        Shape::U16 => match d {
            Datum::U16(x) => Ok(be(x as nat, 2)),
            _ => Err(Error::InvalidData),
        },
        Shape::I16 => match d {
            Datum::I16(x) => Ok(be(unsigned(x as int, 0x1_0000), 2)),
            _ => Err(Error::InvalidData),
        },
        Shape::U32 => match d {
            Datum::U32(x) => Ok(be(x as nat, 4)),
            _ => Err(Error::InvalidData),
        },
        Shape::I32 => match d {
            Datum::I32(x) => Ok(be(unsigned(x as int, span32()), 4)),
            _ => Err(Error::InvalidData),
        },
        Shape::U64 => match d {
            Datum::U64(x) => Ok(be(x as nat, 8)),
            _ => Err(Error::InvalidData),
        },
        Shape::I64 => match d {
            Datum::I64(x) => Ok(be(unsigned(x as int, span64()), 8)),
            _ => Err(Error::InvalidData),
        },
        Shape::Char => match d {
            Datum::Char(c) => if (c as u32) < 256 {
                Ok(seq![c as u8])
            } else {
                Err(Error::Unimplemented)
            },
            _ => Err(Error::InvalidData),
        },
        Shape::VarInt => match d {
            Datum::I32(x) => Ok(leb(unsigned(x as int, span32()))),
            _ => Err(Error::InvalidData),
        },
        Shape::VarLong => match d {
            Datum::I64(x) => Ok(leb(unsigned(x as int, span64()))),
            _ => Err(Error::InvalidData),
        },
        Shape::Text => match d {
            Datum::Text(cs) => if encode_utf8(cs).len() <= i32::MAX {
                Ok(leb(encode_utf8(cs).len()) + encode_utf8(cs))
            } else {
                Err(Error::InvalidData)
            },
            _ => Err(Error::InvalidData),
        },
        Shape::Tuple(fs) => match d {
            Datum::Tuple(ds) => if ds.len() == fs@.len() {
                encoded_fields(ds, fs@)
            } else {
                Err(Error::InvalidData)
            },
            _ => Err(Error::InvalidData),
        },
        Shape::Union(vs) => match d {
            Datum::Union(k, ds) => match variant_index(vs@, k) {
                Some(i) => if ds.len() == vs@[i].fields@.len() {
                    match encoded_fields(ds, vs@[i].fields@) {
                        Ok(b) => Ok(leb(k as nat) + b),
                        Err(e) => Err(e),
                    }
                } else {
                    Err(Error::InvalidData)
                },
                None => Err(Error::InvalidData),
            },
            _ => Err(Error::InvalidData),
        },
        Shape::Sized(e) => if !supported(*e) {
            Err(Error::Unimplemented)
        } else {
            match d {
                Datum::List(ds) => encoded_sized(ds, *e),
                _ => Err(Error::InvalidData),
            }
        },
        Shape::Unsized(e) => if !supported(*e) {
            Err(Error::Unimplemented)
        } else {
            match d {
                Datum::List(ds) => encoded_items(ds, *e),
                _ => Err(Error::InvalidData),
            }
        },
        Shape::Optional(_) => Err(Error::Unimplemented),
        Shape::KeyValue(_, _) => Err(Error::Unimplemented),
        Shape::Any => Err(Error::Unimplemented),
    }
}

/// The encodings that fail before a byte is written: an unsupported shape,
/// a value of another kind than its shape, a character wider than a byte, a
/// string or a sequence too long for an `i32` length, a record or variant
/// with the wrong number of fields, a discriminant that no variant declares.
pub open spec fn refused(d: Datum, s: Shape) -> bool {
    match s {
        Shape::Bool => !(d is Bool),
        Shape::U8 => !(d is U8),
        Shape::I8 => !(d is I8),
        Shape::U16 => !(d is U16),
        Shape::I16 => !(d is I16),
        Shape::U32 => !(d is U32),
        Shape::I32 => !(d is I32),
        Shape::U64 => !(d is U64),
        Shape::I64 => !(d is I64),
        Shape::VarInt => !(d is I32),
        Shape::VarLong => !(d is I64),
        Shape::Char => match d {
            Datum::Char(c) => (c as u32) >= 256,
            _ => true,
        },
        Shape::Text => match d {
            Datum::Text(cs) => encode_utf8(cs).len() > i32::MAX,
            _ => true,
        },
        Shape::Tuple(fs) => match d {
            Datum::Tuple(ds) => ds.len() != fs@.len(),
            _ => true,
        },
        Shape::Union(vs) => match d {
            Datum::Union(k, ds) => match variant_index(vs@, k) {
                Some(i) => ds.len() != vs@[i].fields@.len(),
                None => true,
            },
            _ => true,
        },
        Shape::Sized(e) => !supported(*e) || match d {
            Datum::List(ds) => ds.len() > i32::MAX,
            _ => true,
        },
        Shape::Unsized(e) => !supported(*e) || !(d is List),
        _ => true,
    }
}

/// The encodings of the fields `ds` of shapes `ss`, one after the other.
pub open spec fn encoded_fields(ds: Seq<Datum>, ss: Seq<Shape>) -> Result<Seq<u8>, Error>
    decreases ss, 0nat,
{
    if ss.len() == 0 {
        Ok(Seq::empty())
    } else {
        match encoded_fields(ds.subrange(0, ss.len() - 1), ss.subrange(0, ss.len() - 1)) {
            Ok(b) => match encoded(ds[ss.len() - 1], ss[ss.len() - 1]) {
                Ok(c) => Ok(b + c),
                Err(e) => Err(e),
            },
            Err(e) => Err(e),
        }
    }
}

/// A length-prefixed sequence: the count of `ds`, then their encodings.
pub open spec fn encoded_sized(ds: Seq<Datum>, s: Shape) -> Result<Seq<u8>, Error>
    decreases s, ds.len() + 1,
{
    if ds.len() <= i32::MAX {
        match encoded_items(ds, s) {
            Ok(b) => Ok(leb(ds.len()) + b),
            Err(e) => Err(e),
        }
    } else {
        Err(Error::InvalidData)
    }
}

/// The encodings of the elements `ds`, all of shape `s`, one after the other.
pub open spec fn encoded_items(ds: Seq<Datum>, s: Shape) -> Result<Seq<u8>, Error>
    decreases s, ds.len(),
{
    if ds.len() == 0 {
        Ok(Seq::empty())
    } else {
        match encoded_items(ds.drop_last(), s) {
            Ok(b) => match encoded(ds.last(), s) {
                Ok(c) => Ok(b + c),
                Err(e) => Err(e),
            },
            Err(e) => Err(e),
        }
    }
}

/// `w` bytes read as a big-endian number, and what follows them.
pub open spec fn fixed(inp: Seq<u8>, w: nat) -> Result<(nat, Seq<u8>), Error> {
    if inp.len() < w {
        Err(Error::Eof)
    } else {
        Ok((be_value(inp.take(w as int)), inp.skip(w as int)))
    }
}

/// A variable-length integer of at most `cap` bytes, and what follows it.
pub open spec fn read_leb(inp: Seq<u8>, cap: nat) -> Result<(nat, Seq<u8>), Error>
    decreases cap,
{
    if inp.len() == 0 {
        Err(Error::Eof)
    } else if inp[0] < 128 {
        Ok((inp[0] as nat, inp.skip(1)))
    } else if cap <= 1 {
        Err(Error::InvalidData)
    } else {
        match read_leb(inp.skip(1), (cap - 1) as nat) {
            Ok((v, r)) => Ok((((inp[0] - 128) + 128 * v) as nat, r)),
            Err(e) => Err(e),
        }
    }
}

/// A variable-length `i32`, and what follows it.
pub open spec fn read_varint(inp: Seq<u8>) -> Result<(int, Seq<u8>), Error> {
    match read_leb(inp, 5) {
        Ok((n, r)) => Ok((signed(n % (span32() as nat), span32()), r)),
        Err(e) => Err(e),
    }
}

/// A varint that counts bytes or elements, and what follows it.
pub open spec fn read_length(inp: Seq<u8>) -> Result<(nat, Seq<u8>), Error> {
    match read_varint(inp) {
        Ok((n, r)) => if n < 0 {
            Err(Error::InvalidData)
        } else {
            Ok((n as nat, r))
        },
        Err(e) => Err(e),
    }
}

/// What `String::from_utf8_lossy` makes of bytes that are not valid UTF-8.
pub uninterp spec fn utf8_lossy(b: Seq<u8>) -> Seq<char>;

/// The text of the bytes `b`: their characters where they are valid UTF-8,
/// else the lossy reading that replaces each invalid sequence.
pub open spec fn text_of(b: Seq<u8>) -> Seq<char> {
    if valid_utf8(b) {
        decode_utf8(b)
    } else {
        utf8_lossy(b)
    }
}

/// The datum that shape `s` decodes from the front of `inp`, and the bytes
/// after it; or the error that decoding meets first.
pub open spec fn decoded(s: Shape, inp: Seq<u8>) -> Result<(Datum, Seq<u8>), Error>
    decreases s, 0nat,
{
    match s {
        Shape::Bool => match fixed(inp, 1) {
            Ok((n, r)) => if n == 0 {
                Ok((Datum::Bool(false), r))
            } else if n == 1 {
                Ok((Datum::Bool(true), r))
            } else {
                Err(Error::InvalidData)
            },
            Err(e) => Err(e),
        },
        Shape::U8 => match fixed(inp, 1) {
            Ok((n, r)) => Ok((Datum::U8(n as u8), r)),
            Err(e) => Err(e),
        },
        Shape::I8 => match fixed(inp, 1) {
            Ok((n, r)) => Ok((Datum::I8(signed(n, 0x100) as i8), r)),
            Err(e) => Err(e),
        },
        Shape::U16 => match fixed(inp, 2) {
            Ok((n, r)) => Ok((Datum::U16(n as u16), r)),
            Err(e) => Err(e),
        },
        Shape::I16 => match fixed(inp, 2) {
            Ok((n, r)) => Ok((Datum::I16(signed(n, 0x1_0000) as i16), r)),
            Err(e) => Err(e),
        },
        Shape::U32 => match fixed(inp, 4) {
            Ok((n, r)) => Ok((Datum::U32(n as u32), r)),
            Err(e) => Err(e),
        },
        Shape::I32 => match fixed(inp, 4) {
            Ok((n, r)) => Ok((Datum::I32(signed(n, span32()) as i32), r)),
            Err(e) => Err(e),
        },
        Shape::U64 => match fixed(inp, 8) {
            Ok((n, r)) => Ok((Datum::U64(n as u64), r)),
            Err(e) => Err(e),
        },
        Shape::I64 => match fixed(inp, 8) {
            Ok((n, r)) => Ok((Datum::I64(signed(n, span64()) as i64), r)),
            Err(e) => Err(e),
        },
        Shape::Char => match fixed(inp, 1) {
            Ok((n, r)) => Ok((Datum::Char((n as u8) as char), r)),
            Err(e) => Err(e),
        },
        Shape::VarInt => match read_varint(inp) {
            Ok((n, r)) => Ok((Datum::I32(n as i32), r)),
            Err(e) => Err(e),
        },
        Shape::VarLong => match read_leb(inp, 10) {
            Ok((n, r)) => Ok((Datum::I64(signed(n % (span64() as nat), span64()) as i64), r)),
            Err(e) => Err(e),
        },
        Shape::Text => match read_length(inp) {
            Ok((n, r)) => if r.len() < n {
                Err(Error::Eof)
            } else {
                Ok((Datum::Text(text_of(r.take(n as int))), r.skip(n as int)))
            },
            Err(e) => Err(e),
        },
        Shape::Tuple(fs) => match decoded_fields(fs@, inp) {
            Ok((ds, r)) => Ok((Datum::Tuple(ds), r)),
            Err(e) => Err(e),
        },
        Shape::Union(vs) => match read_varint(inp) {
            Ok((n, r)) => match variant_index(vs@, unsigned(n, span32()) as u32) {
                Some(i) => match decoded_fields(vs@[i].fields@, r) {
                    Ok((ds, r2)) => Ok((Datum::Union(unsigned(n, span32()) as u32, ds), r2)),
                    Err(e) => Err(e),
                },
                None => Err(Error::InvalidData),
            },
            Err(e) => Err(e),
        },
        Shape::Sized(e) => if !supported(*e) {
            Err(Error::Unimplemented)
        } else {
            match decoded_sized(*e, inp) {
                Ok((ds, r)) => Ok((Datum::List(ds), r)),
                Err(e) => Err(e),
            }
        },
        Shape::Unsized(e) => if !supported(*e) {
            Err(Error::Unimplemented)
        } else {
            match decoded_rest(*e, inp) {
                Ok((ds, r)) => Ok((Datum::List(ds), r)),
                Err(e) => Err(e),
            }
        },
        Shape::Optional(_) => Err(Error::Unimplemented),
        Shape::KeyValue(_, _) => Err(Error::Unimplemented),
        Shape::Any => Err(Error::Unimplemented),
    }
}

/// Fields of shapes `ss`, decoded one after the other from the front of `inp`.
pub open spec fn decoded_fields(ss: Seq<Shape>, inp: Seq<u8>) -> Result<(Seq<Datum>, Seq<u8>), Error>
    decreases ss, 0nat,
{
    if ss.len() == 0 {
        Ok((Seq::empty(), inp))
    } else {
        match decoded_fields(ss.subrange(0, ss.len() - 1), inp) {
            Ok((ds, r)) => match decoded(ss[ss.len() - 1], r) {
                Ok((d, r2)) => Ok((ds.push(d), r2)),
                Err(e) => Err(e),
            },
            Err(e) => Err(e),
        }
    }
}

/// A length-prefixed sequence of elements of shape `s`. A count read as an
/// `i32` is always below 2^31; the bound is written out to show that the
/// recursion ends.
pub open spec fn decoded_sized(s: Shape, inp: Seq<u8>) -> Result<(Seq<Datum>, Seq<u8>), Error>
    decreases s, 0x8000_0000nat,
{
    match read_length(inp) {
        Ok((n, r)) => if n < 0x8000_0000 {
            decoded_count(s, n, r)
        } else {
            Err(Error::InvalidData)
        },
        Err(e) => Err(e),
    }
}

/// `n` elements of shape `s`, decoded one after the other from the front of `inp`.
pub open spec fn decoded_count(s: Shape, n: nat, inp: Seq<u8>) -> Result<(Seq<Datum>, Seq<u8>), Error>
    decreases s, n,
{
    if n == 0 {
        Ok((Seq::empty(), inp))
    } else {
        match decoded_count(s, (n - 1) as nat, inp) {
            Ok((ds, r)) => match decoded(s, r) {
                Ok((d, r2)) => Ok((ds.push(d), r2)),
                Err(e) => Err(e),
            },
            Err(e) => Err(e),
        }
    }
}

/// Elements of shape `s`, decoded until `inp` is used up. An element that
/// would consume nothing while bytes remain cannot use them up.
pub open spec fn decoded_rest(s: Shape, inp: Seq<u8>) -> Result<(Seq<Datum>, Seq<u8>), Error>
    decreases s, inp.len(),
{
    if inp.len() == 0 {
        Ok((Seq::empty(), inp))
    } else {
        match decoded(s, inp) {
            Ok((d, r)) => if r.len() < inp.len() {
                match decoded_rest(s, r) {
                    Ok((ds, r2)) => Ok((seq![d] + ds, r2)),
                    Err(e) => Err(e),
                }
            } else {
                Err(Error::InvalidData)
            },
            Err(e) => Err(e),
        }
    }
}

/// Where the reading of a variable-length integer of at most `cap` bytes
/// stops when it fails: at the end of the input, or just after the byte that
/// reaches the cap.
pub open spec fn leb_halt(inp: Seq<u8>, cap: nat) -> Seq<u8>
    decreases cap,
{
    if inp.len() == 0 {
        inp
    } else if inp[0] < 128 {
        inp.skip(1)
    } else if cap <= 1 {
        inp.skip(1)
    } else {
        leb_halt(inp.skip(1), (cap - 1) as nat)
    }
}

/// Where reading a length stops when it fails: inside the varint, or after
/// a varint that is negative.
pub open spec fn length_halt(inp: Seq<u8>) -> Seq<u8> {
    match read_varint(inp) {
        Ok((_, r)) => r,
        Err(_) => leb_halt(inp, 5),
    }
}

/// The bytes left unread when decoding shape `s` from the front of `inp`
/// fails. A fixed-width value checks the length before it reads; a boolean
/// reads its byte before it judges it; a composite stops inside the part
/// that failed, and reads nothing after it.
pub open spec fn halt(s: Shape, inp: Seq<u8>) -> Seq<u8>
    decreases s, 0nat,
{
    match s {
        Shape::Bool => if inp.len() == 0 {
            inp
        } else {
            inp.skip(1)
        },
        Shape::VarInt => leb_halt(inp, 5),
        Shape::VarLong => leb_halt(inp, 10),
        Shape::Text => match read_length(inp) {
            Ok((_, r)) => r,
            Err(_) => length_halt(inp),
        },
        Shape::Tuple(fs) => halt_fields(fs@, inp),
        Shape::Union(vs) => match read_varint(inp) {
            Ok((n, r)) => match variant_index(vs@, unsigned(n, span32()) as u32) {
                Some(i) => halt_fields(vs@[i].fields@, r),
                None => r,
            },
            Err(_) => leb_halt(inp, 5),
        },
        Shape::Sized(e) => if !supported(*e) {
            inp
        } else {
            halt_sized(*e, inp)
        },
        Shape::Unsized(e) => if !supported(*e) {
            inp
        } else {
            halt_rest(*e, inp)
        },
        _ => inp,
    }
}

/// Where decoding the fields `ss` stops: inside the first field that fails.
pub open spec fn halt_fields(ss: Seq<Shape>, inp: Seq<u8>) -> Seq<u8>
    decreases ss, 0nat,
{
    if ss.len() == 0 {
        inp
    } else {
        match decoded_fields(ss.subrange(0, ss.len() - 1), inp) {
            Ok((_, r)) => halt(ss[ss.len() - 1], r),
            Err(_) => halt_fields(ss.subrange(0, ss.len() - 1), inp),
        }
    }
}

/// Where decoding a length-prefixed sequence stops: inside its count, or
/// inside the first element that fails.
pub open spec fn halt_sized(s: Shape, inp: Seq<u8>) -> Seq<u8>
    decreases s, 0x8000_0000nat,
{
    match read_length(inp) {
        Ok((n, r)) => if n < 0x8000_0000 {
            halt_count(s, n, r)
        } else {
            r
        },
        Err(_) => length_halt(inp),
    }
}

/// Where decoding `n` elements stops: inside the first element that fails.
pub open spec fn halt_count(s: Shape, n: nat, inp: Seq<u8>) -> Seq<u8>
    decreases s, n,
{
    if n == 0 {
        inp
    } else {
        match decoded_count(s, (n - 1) as nat, inp) {
            Ok((_, r)) => halt(s, r),
            Err(_) => halt_count(s, (n - 1) as nat, inp),
        }
    }
}

/// Where decoding elements to the end of the input stops: inside the first
/// element that fails, or after one that consumed nothing.
pub open spec fn halt_rest(s: Shape, inp: Seq<u8>) -> Seq<u8>
    decreases s, inp.len(),
{
    if inp.len() == 0 {
        inp
    } else {
        match decoded(s, inp) {
            Ok((_, r)) => if r.len() < inp.len() {
                halt_rest(s, r)
            } else {
                r
            },
            Err(_) => halt(s, inp),
        }
    }
}

/// Two hundred fifty-six to the power `w`.
pub open spec fn pow256(w: nat) -> nat
    decreases w,
{
    if w == 0 { 1 } else { 256 * pow256((w - 1) as nat) }
}

/// One hundred twenty-eight to the power `w`.
pub open spec fn pow128(w: nat) -> nat
    decreases w,
{
    if w == 0 { 1 } else { 128 * pow128((w - 1) as nat) }
}

pub proof fn lemma_pow256_mono(a: nat, b: nat)
    requires
        a <= b,
    ensures
        pow256(a) <= pow256(b),
    decreases b,
{
    if a < b {
        lemma_pow256_mono(a, (b - 1) as nat);
    }
}

pub proof fn lemma_pow128_mono(a: nat, b: nat)
    requires
        a <= b,
    ensures
        pow128(a) <= pow128(b),
    decreases b,
{
    if a < b {
        lemma_pow128_mono(a, (b - 1) as nat);
    }
}

pub proof fn lemma_be_value_push(b: Seq<u8>, x: u8)
    ensures
        be_value(b.push(x)) == be_value(b) * 256 + x,
{
    assert(b.push(x).drop_last() =~= b);
}

pub proof fn lemma_be_value_bound(b: Seq<u8>)
    ensures
        be_value(b) < pow256(b.len()),
    decreases b.len(),
{
    if b.len() > 0 {
        lemma_be_value_bound(b.drop_last());
        let v = be_value(b.drop_last());
        let p = pow256(b.drop_last().len());
        assert(v * 256 + b.last() < p * 256) by (nonlinear_arith)
            requires v < p, b.last() < 256;
    }
}

/// Encoding fields stops at the first field that fails.
pub proof fn lemma_encoded_fields_err(ds: Seq<Datum>, ss: Seq<Shape>, i: int)
    requires
        0 <= i <= ss.len(),
        ss.len() <= ds.len(),
        encoded_fields(ds.take(i), ss.take(i)) is Err,
    ensures
        encoded_fields(ds, ss) == encoded_fields(ds.take(i), ss.take(i)),
    decreases ss.len(),
{
    if i == ss.len() {
        assert(ss.take(i) =~= ss);
        if ds.len() > ss.len() {
            lemma_encoded_fields_extra(ds, ss);
        } else {
            assert(ds.take(i) =~= ds);
        }
    } else {
        let n = ss.len() - 1;
        let ds2 = ds.subrange(0, n);
        let ss2 = ss.subrange(0, n);
        assert(ds2.take(i) =~= ds.take(i));
        assert(ss2.take(i) =~= ss.take(i));
        lemma_encoded_fields_err(ds2, ss2, i);
    }
}

/// Only as many data as there are shapes take part in encoding fields.
pub proof fn lemma_encoded_fields_extra(ds: Seq<Datum>, ss: Seq<Shape>)
    requires
        ss.len() <= ds.len(),
    ensures
        encoded_fields(ds, ss) == encoded_fields(ds.take(ss.len() as int), ss),
    decreases ss.len(),
{
    if ss.len() > 0 {
        let n = ss.len() - 1;
        assert(ds.take(ss.len() as int).subrange(0, n) =~= ds.subrange(0, n).take(n));
        assert(ds.subrange(0, n).take(n) =~= ds.subrange(0, n));
        assert(ds.take(ss.len() as int)[n] == ds[n]);
    }
}

/// Encoding elements stops at the first element that fails.
pub proof fn lemma_encoded_items_err(ds: Seq<Datum>, s: Shape, i: int)
    requires
        0 <= i <= ds.len(),
        encoded_items(ds.take(i), s) is Err,
    ensures
        encoded_items(ds, s) == encoded_items(ds.take(i), s),
    decreases ds.len(),
{
    if i == ds.len() {
        assert(ds.take(i) =~= ds);
    } else {
        assert(ds.drop_last().take(i) =~= ds.take(i));
        lemma_encoded_items_err(ds.drop_last(), s, i);
    }
}

/// Decoding fields stops at the first field that fails.
pub proof fn lemma_decoded_fields_err(ss: Seq<Shape>, inp: Seq<u8>, i: int)
    requires
        0 <= i <= ss.len(),
        decoded_fields(ss.take(i), inp) is Err,
    ensures
        decoded_fields(ss, inp) == decoded_fields(ss.take(i), inp),
        halt_fields(ss, inp) == halt_fields(ss.take(i), inp),
    decreases ss.len(),
{
    if i == ss.len() {
        assert(ss.take(i) =~= ss);
    } else {
        let ss2 = ss.subrange(0, ss.len() - 1);
        assert(ss2.take(i) =~= ss.take(i));
        lemma_decoded_fields_err(ss2, inp, i);
    }
}

/// Decoding a counted run of elements stops at the first element that fails.
pub proof fn lemma_decoded_count_err(s: Shape, n: nat, inp: Seq<u8>, i: nat)
    requires
        i <= n,
        decoded_count(s, i, inp) is Err,
    ensures
        decoded_count(s, n, inp) == decoded_count(s, i, inp),
        halt_count(s, n, inp) == halt_count(s, i, inp),
    decreases n,
{
    if i < n {
        lemma_decoded_count_err(s, (n - 1) as nat, inp, i);
    }
}

} // verus!
