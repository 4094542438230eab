use vstd::prelude::*;
use vstd::utf8::encode_utf8;

use crate::error::Error;
use crate::format::{
    be, bool_byte, encoded, refused, encoded_fields, is_first_variant, leb, lemma_encoded_fields_err, span32,
    span64, unsigned, variant_index,
};
use crate::shape::{is_supported, lemma_models, model, models, Shape, Value, Variant};
use crate::types::{varint, varlong, vec_sized, vec_unsized};

verus! {

/// An encoder: an output buffer that only grows.
pub struct Serializer {
    pub(crate) output: Vec<u8>,
}

/// Encodes `value`, of shape `shape`, into a new buffer.
pub fn to_bytes(value: &Value, shape: &Shape) -> (r: Result<Vec<u8>, Error>)
    ensures
        match encoded(value@, *shape) {
            Ok(b) => r matches Ok(out) && out@ == b,
            Err(e) => r == Err::<Vec<u8>, Error>(e),
        },
{
    let mut serializer = Serializer::new();
    match serializer.serialize_value(value, shape) {
        Ok(()) => Ok(serializer.into_bytes()),
        Err(e) => Err(e),
    }
}

/// The index of the first variant of `variants` with discriminant `k`.
pub(crate) fn find_variant(variants: &Vec<Variant>, k: u32) -> (r: Option<usize>)
    ensures
        r matches Some(i) ==> variant_index(variants@, k) == Some(i as int),
        r is None ==> variant_index(variants@, k) is None,
{
    let mut i: usize = 0;
    while i < variants.len()
        invariant
            i <= variants@.len(),
            forall|j: int| 0 <= j < i ==> variants@[j].discriminant != k,
        decreases variants.len() - i,
    {
        if variants[i].discriminant == k {
            assert(is_first_variant(variants@, k, i as int));
            assert(forall|j: int| is_first_variant(variants@, k, j) ==> j == i);
            return Some(i);
        }
        i = i + 1;
    }
    None
}

impl Serializer {
    /// The bytes written so far.
    pub open(crate) spec fn bytes(&self) -> Seq<u8> {
        self.output@
    }

    /// An encoder with an empty buffer.
    pub fn new() -> (s: Serializer)
        ensures
            s.bytes() == Seq::<u8>::empty(),
    {
        Serializer { output: Vec::new() }
    }

    /// Hands over the bytes written.
    pub fn into_bytes(self) -> (r: Vec<u8>)
        ensures
            r@ == self.bytes(),
    {
        self.output
    }

    /// Appends the low `w` bytes of `n`, most significant first.
    fn push_be(&mut self, n: u64, w: usize)
        ensures
            old(self).bytes().is_prefix_of(final(self).bytes()),
            final(self).bytes() == old(self).bytes() + be(n as nat, w as nat),
        decreases w,
    {
        if w > 0 {
            self.push_be(n / 256, w - 1);
            self.output.push((n % 256) as u8);
        } else {
            assert(old(self).bytes() + be(n as nat, 0) =~= old(self).bytes());
        }
    }

    pub fn serialize_bool(&mut self, v: bool) -> (r: Result<(), Error>)
        ensures
            old(self).bytes().is_prefix_of(final(self).bytes()),
            r is Ok,
            final(self).bytes() == old(self).bytes().push(bool_byte(v)),
    {
        self.output.push(if v { 1u8 } else { 0u8 });
        Ok(())
    }

    pub fn serialize_u8(&mut self, v: u8) -> (r: Result<(), Error>)
        ensures
            old(self).bytes().is_prefix_of(final(self).bytes()),
            r is Ok,
            final(self).bytes() == old(self).bytes() + be(v as nat, 1),
    {
        self.push_be(v as u64, 1);
        Ok(())
    }

    pub fn serialize_i8(&mut self, v: i8) -> (r: Result<(), Error>)
        ensures
            old(self).bytes().is_prefix_of(final(self).bytes()),
            r is Ok,
            final(self).bytes() == old(self).bytes() + be(unsigned(v as int, 0x100), 1),
    {
        let bits: u64 = if v >= 0 { v as u64 } else { (v as i64 + 0x100) as u64 };
        self.push_be(bits, 1);
        Ok(())
    }

    pub fn serialize_u16(&mut self, v: u16) -> (r: Result<(), Error>)
        ensures
            old(self).bytes().is_prefix_of(final(self).bytes()),
            r is Ok,
            final(self).bytes() == old(self).bytes() + be(v as nat, 2),
    {
        self.push_be(v as u64, 2);
        Ok(())
    }

    pub fn serialize_i16(&mut self, v: i16) -> (r: Result<(), Error>)
        ensures
            old(self).bytes().is_prefix_of(final(self).bytes()),
            r is Ok,
            final(self).bytes() == old(self).bytes() + be(unsigned(v as int, 0x1_0000), 2),
    {
        let bits: u64 = if v >= 0 { v as u64 } else { (v as i64 + 0x1_0000) as u64 };
        self.push_be(bits, 2);
        Ok(())
    }

    pub fn serialize_u32(&mut self, v: u32) -> (r: Result<(), Error>)
        ensures
            old(self).bytes().is_prefix_of(final(self).bytes()),
            r is Ok,
            final(self).bytes() == old(self).bytes() + be(v as nat, 4),
    {
        self.push_be(v as u64, 4);
        Ok(())
    }

    pub fn serialize_i32(&mut self, v: i32) -> (r: Result<(), Error>)
        ensures
            old(self).bytes().is_prefix_of(final(self).bytes()),
            r is Ok,
            final(self).bytes() == old(self).bytes() + be(unsigned(v as int, span32()), 4),
    {
        let bits: u64 = if v >= 0 { v as u64 } else { (v as i64 + 0x1_0000_0000) as u64 };
        self.push_be(bits, 4);
        Ok(())
    }

    pub fn serialize_u64(&mut self, v: u64) -> (r: Result<(), Error>)
        ensures
            old(self).bytes().is_prefix_of(final(self).bytes()),
            r is Ok,
            final(self).bytes() == old(self).bytes() + be(v as nat, 8),
    {
        self.push_be(v, 8);
        Ok(())
    }

    pub fn serialize_i64(&mut self, v: i64) -> (r: Result<(), Error>)
        ensures
            old(self).bytes().is_prefix_of(final(self).bytes()),
            r is Ok,
            final(self).bytes() == old(self).bytes() + be(unsigned(v as int, span64()), 8),
    {
        let bits: u64 = if v >= 0 {
            v as u64
        } else {
            (v as i128 + 0x1_0000_0000_0000_0000) as u64
        };
        self.push_be(bits, 8);
        Ok(())
    }

    /// A character of one byte; wider ones are not supported.
    pub fn serialize_char(&mut self, v: char) -> (r: Result<(), Error>)
        ensures
            old(self).bytes().is_prefix_of(final(self).bytes()),
            (v as u32) < 256 ==> r is Ok && final(self).bytes() == old(self).bytes().push(v as u8),
            (v as u32) >= 256 ==> r == Err::<(), Error>(Error::Unimplemented) && final(self).bytes()
                == old(self).bytes(),
    {
        let code = v as u32;
        if code < 256 {
            self.output.push(code as u8);
            Ok(())
        } else {
            Err(Error::Unimplemented)
        }
    }

    /// Appends raw bytes.
    pub fn serialize_bytes(&mut self, v: &[u8]) -> (r: Result<(), Error>)
        ensures
            old(self).bytes().is_prefix_of(final(self).bytes()),
            r is Ok,
            final(self).bytes() == old(self).bytes() + v@,
    {
        let mut i: usize = 0;
        while i < v.len()
            invariant
                i <= v@.len(),
                self.bytes() == old(self).bytes() + v@.take(i as int),
            decreases v.len() - i,
        {
            self.output.push(v[i]);
            i = i + 1;
            assert(self.bytes() =~= old(self).bytes() + v@.take(i as int));
        }
        assert(v@.take(i as int) =~= v@);
        Ok(())
    }

    /// A string: its UTF-8 length as a varint, then its bytes. A string too
    /// long for an `i32` length is refused.
    pub fn serialize_str(&mut self, v: &str) -> (r: Result<(), Error>)
        ensures
            old(self).bytes().is_prefix_of(final(self).bytes()),
            encode_utf8(v@).len() <= i32::MAX ==> r is Ok && final(self).bytes() == old(self).bytes()
                + leb(encode_utf8(v@).len()) + encode_utf8(v@),
            encode_utf8(v@).len() > i32::MAX ==> r == Err::<(), Error>(Error::InvalidData)
                && final(self).bytes() == old(self).bytes(),
    {
        let bytes = v.as_bytes();
        if bytes.len() > 0x7fff_ffff {
            return Err(Error::InvalidData);
        }
        let prefix = varint::to_bytes(bytes.len() as i32);
        let _ = self.serialize_bytes(prefix.as_slice());
        let _ = self.serialize_bytes(bytes);
        Ok(())
    }

    /// The discriminant of a variant with no payload.
    pub fn serialize_unit_variant(&mut self, variant_index: u32) -> (r: Result<(), Error>)
        ensures
            old(self).bytes().is_prefix_of(final(self).bytes()),
            r is Ok,
            final(self).bytes() == old(self).bytes() + leb(variant_index as nat),
    {
        let prefix = varint::leb_bytes(variant_index as u64);
        self.serialize_bytes(prefix.as_slice())
    }
    /// Encodes `value` by its shape: the traversal that every composite
    /// shape goes through, on this one buffer.
    pub fn serialize_value(&mut self, value: &Value, shape: &Shape) -> (r: Result<(), Error>)
        ensures
            old(self).bytes().is_prefix_of(final(self).bytes()),
            match encoded(value@, *shape) {
                Ok(b) => r is Ok && final(self).bytes() == old(self).bytes() + b,
                Err(e) => r == Err::<(), Error>(e),
            },
            refused(value@, *shape) ==> final(self).bytes() == old(self).bytes(),
        decreases shape, 0nat,
    {
        match shape {
            Shape::Bool => match value {
                Value::Bool(v) => {
                    let r = self.serialize_bool(*v);
                    assert(self.bytes() =~= old(self).bytes() + seq![bool_byte(*v)]);
                    r
                },
                _ => Err(Error::InvalidData),
            },
            Shape::U8 => match value {
                Value::U8(v) => self.serialize_u8(*v),
                _ => Err(Error::InvalidData),
            },
            Shape::I8 => match value {
                Value::I8(v) => self.serialize_i8(*v),
                _ => Err(Error::InvalidData),
            },
            Shape::U16 => match value {
                Value::U16(v) => self.serialize_u16(*v),
                _ => Err(Error::InvalidData),
            },
            Shape::I16 => match value {
                Value::I16(v) => self.serialize_i16(*v),
                _ => Err(Error::InvalidData),
            },
            Shape::U32 => match value {
                Value::U32(v) => self.serialize_u32(*v),
                _ => Err(Error::InvalidData),
            },
            Shape::I32 => match value {
                Value::I32(v) => self.serialize_i32(*v),
                _ => Err(Error::InvalidData),
            },
            Shape::U64 => match value {
                Value::U64(v) => self.serialize_u64(*v),
                _ => Err(Error::InvalidData),
            },
            Shape::I64 => match value {
                Value::I64(v) => self.serialize_i64(*v),
                _ => Err(Error::InvalidData),
            },
            Shape::Char => match value {
                Value::Char(v) => {
                    let r = self.serialize_char(*v);
                    assert((*v as u32) < 256 ==> self.bytes() =~= old(self).bytes() + seq![*v as u8]);
                    r
                },
                _ => Err(Error::InvalidData),
            },
            Shape::VarInt => match value {
                Value::I32(v) => varint::serialize(v, self),
                _ => Err(Error::InvalidData),
            },
            Shape::VarLong => match value {
                Value::I64(v) => varlong::serialize(v, self),
                _ => Err(Error::InvalidData),
            },
            Shape::Text => match value {
                Value::Text(v) => {
                    let r = self.serialize_str(v.as_str());
                    assert(encode_utf8(v@).len() <= i32::MAX ==> self.bytes() =~= old(self).bytes()
                        + (leb(encode_utf8(v@).len()) + encode_utf8(v@)));
                    r
                },
                _ => Err(Error::InvalidData),
            },
            Shape::Tuple(fields) => match value {
                Value::Tuple(vs) => {
                    proof {
                        lemma_models(vs@);
                    }
                    if vs.len() == fields.len() {
                        self.serialize_fields(vs, fields)
                    } else {
                        Err(Error::InvalidData)
                    }
                },
                _ => Err(Error::InvalidData),
            },
            Shape::Union(variants) => match value {
                Value::Union(k, vs) => {
                    proof {
                        lemma_models(vs@);
                    }
                    match find_variant(variants, *k) {
                        Some(i) => {
                            assert(variant_index(variants@, *k) == Some(i as int));
                            if vs.len() == variants[i].fields.len() {
                                let ghost before = self.bytes();
                                let _ = self.serialize_unit_variant(*k);
                                let r = self.serialize_fields(vs, &variants[i].fields);
                                proof {
                                    match encoded_fields(models(vs@), variants@[i as int].fields@) {
                                        Ok(b) => {
                                            assert(self.bytes() =~= before + (leb(*k as nat) + b));
                                        },
                                        Err(_) => {},
                                    }
                                }
                                r
                            } else {
                                Err(Error::InvalidData)
                            }
                        },
                        None => Err(Error::InvalidData),
                    }
                },
                _ => Err(Error::InvalidData),
            },
            Shape::Sized(elem) => if !is_supported(elem) {
                Err(Error::Unimplemented)
            } else {
                match value {
                Value::List(vs) => {
                    proof {
                        lemma_models(vs@);
                    }
                    vec_sized::serialize(vs, elem, self)
                },
                _ => Err(Error::InvalidData),
                }
            },
            Shape::Unsized(elem) => if !is_supported(elem) {
                Err(Error::Unimplemented)
            } else {
                match value {
                Value::List(vs) => vec_unsized::serialize(vs, elem, self),
                _ => Err(Error::InvalidData),
                }
            },
            Shape::Optional(_) => Err(Error::Unimplemented),
            Shape::KeyValue(_, _) => Err(Error::Unimplemented),
            Shape::Any => Err(Error::Unimplemented),
        }
    }

    /// Encodes the fields of a record or a variant in order, with no framing.
    pub fn serialize_fields(&mut self, values: &Vec<Value>, fields: &Vec<Shape>) -> (r: Result<(), Error>)
        requires
            values@.len() == fields@.len(),
        ensures
            old(self).bytes().is_prefix_of(final(self).bytes()),
            match encoded_fields(models(values@), fields@) {
                Ok(b) => r is Ok && final(self).bytes() == old(self).bytes() + b,
                Err(e) => r == Err::<(), Error>(e),
            },
        decreases fields, 1nat,
    {
        let ghost ds = models(values@);
        proof {
            lemma_models(values@);
        }
        let ghost mut written: Seq<u8> = Seq::empty();
        let mut i: usize = 0;
        while i < fields.len()
            invariant
                i <= fields@.len(),
                values@.len() == fields@.len(),
                ds == models(values@),
                ds.len() == values@.len(),
                forall|j: int| 0 <= j < values@.len() ==> #[trigger] ds[j] == model(values@[j]),
                self.bytes() == old(self).bytes() + written,
                encoded_fields(ds.take(i as int), fields@.take(i as int)) == Ok::<Seq<u8>, Error>(written),
            decreases fields.len() - i,
        {
            let ghost before = self.bytes();
            let r = self.serialize_value(&values[i], &fields[i]);
            proof {
                let n = i as int + 1;
                assert(ds.take(n).subrange(0, n - 1) =~= ds.take(n - 1));
                assert(fields@.take(n).subrange(0, n - 1) =~= fields@.take(n - 1));
                assert(ds.take(n)[n - 1] == values@[i as int]@);
                assert(fields@.take(n)[n - 1] == fields@[i as int]);
            }
            match r {
                Ok(()) => {
                proof {
                    match crate::format::encoded(values@[i as int]@, fields@[i as int]) {
                        Ok(c) => {
                            assert(self.bytes().skip(before.len() as int) =~= c);
                        },
                        Err(_) => {},
                    }
                }
            },
                Err(e) => {
                    proof {
                        lemma_encoded_fields_err(ds, fields@, i as int + 1);
                        assert(ds.take(fields@.len() as int) =~= ds);
                    }
                    return Err(e);
                },
            }
            proof {
                written = written + (self.bytes().skip(before.len() as int));
                assert(self.bytes() =~= old(self).bytes() + written);
            }
            i = i + 1;
        }
        proof {
            assert(ds.take(i as int) =~= ds);
            assert(fields@.take(i as int) =~= fields@);
        }
        Ok(())
    }
}

} // verus!
