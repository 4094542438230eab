use vstd::prelude::*;
use vstd::slice::slice_to_vec;
use vstd::utf8::{decode_utf8, valid_utf8};

use crate::error::Error;
use crate::ser::find_variant;
use crate::shape::{is_supported, lemma_models_push, models, Datum, Shape, Value, Variant};
use crate::types::{varint, varlong, vec_sized, vec_unsized};
use crate::format::{
    be_value, fixed, lemma_be_value_bound, lemma_be_value_push, lemma_pow128_mono,
    lemma_pow256_mono, pow128, pow256, read_leb, read_length, decoded, decoded_fields,
    lemma_decoded_fields_err, span32, unsigned, utf8_lossy, halt, halt_fields, leb_halt,
    length_halt,
};

verus! {

/// Relies on `String::from_utf8_lossy`: bytes that are valid UTF-8 give their
/// own characters; others give a text with U+FFFD in place of each invalid
/// sequence, which depends on the bytes alone.
#[verifier::external_body]
fn text_of_bytes(b: &[u8]) -> (s: String)
    ensures
        valid_utf8(b@) ==> s@ == decode_utf8(b@),
        !valid_utf8(b@) ==> s@ == utf8_lossy(b@),
{
    String::from_utf8_lossy(b).into_owned()
}

/// Decodes a value of shape `shape` from the front of `data`; bytes after it
/// are left unread.
pub fn from_bytes(data: &[u8], shape: &Shape) -> (r: Result<Value, Error>)
    ensures
        match decoded(*shape, data@) {
            Ok((d, _)) => r matches Ok(v) && v@ == d,
            Err(e) => r == Err::<Value, Error>(e),
        },
{
    let mut deserializer = Deserializer::new(slice_to_vec(data));
    deserializer.deserialize_value(shape)
}

/// A decoder: a read position in a fixed buffer of bytes, which only moves
/// forward.
pub struct Deserializer {
    pub(crate) input: Vec<u8>,
    pub(crate) pos: usize,
}

impl Deserializer {
    /// The bytes not yet read.
    pub open(crate) spec fn rest(&self) -> Seq<u8> {
        self.input@.subrange(self.pos as int, self.input@.len() as int)
    }

    /// The whole buffer, read or not.
    pub open(crate) spec fn buffer(&self) -> Seq<u8> {
        self.input@
    }

    /// How many bytes have been read.
    pub open(crate) spec fn position(&self) -> nat {
        self.pos as nat
    }

    pub open(crate) spec fn wf(&self) -> bool {
        self.pos <= self.input@.len()
    }

    /// A decoder at the start of `input`.
    pub fn new(input: Vec<u8>) -> (d: Deserializer)
        ensures
            d.wf(),
            d.rest() == input@,
            d.buffer() == input@,
            d.position() == 0,
    {
        let d = Deserializer { input, pos: 0 };
        assert(d.rest() =~= d.input@);
        d
    }

    /// Whether every byte has been read.
    pub fn is_empty(&self) -> (r: bool)
        requires
            self.wf(),
        ensures
            r == (self.rest().len() == 0),
    {
        self.pos == self.input.len()
    }

    /// How many bytes are left to read.
    pub fn remaining(&self) -> (n: usize)
        requires
            self.wf(),
        ensures
            n == self.rest().len(),
    {
        self.input.len() - self.pos
    }

    /// Reads one byte.
    pub fn read_byte(&mut self) -> (r: Result<u8, Error>)
        requires
            old(self).wf(),
        ensures
            final(self).wf(),
            final(self).buffer() == old(self).buffer(),
            old(self).position() <= final(self).position(),
            old(self).rest().len() == 0 ==> r == Err::<u8, Error>(Error::Eof) && final(self).position()
                == old(self).position(),
            old(self).rest().len() > 0 ==> r == Ok::<u8, Error>(old(self).rest()[0])
                && final(self).rest() == old(self).rest().skip(1) && final(self).position() == old(self).position()
                + 1,
    {
        if self.pos < self.input.len() {
            let b = self.input[self.pos];
            self.pos = self.pos + 1;
            proof {
                assert(self.rest() =~= old(self).rest().skip(1));
            }
            Ok(b)
        } else {
            Err(Error::Eof)
        }
    }

    pub fn deserialize_u8(&mut self) -> (r: Result<u8, Error>)
        requires
            old(self).wf(),
        ensures
            final(self).wf(),
            final(self).buffer() == old(self).buffer(),
            old(self).position() <= final(self).position(),
            match decoded(Shape::U8, old(self).rest()) {
                Ok((d, rest)) => r matches Ok(v) && d == Datum::U8(v) && final(self).rest() == rest,
                Err(e) => r == Err::<u8, Error>(e) && final(self).rest() == halt(
                    Shape::U8,
                    old(self).rest(),
                ),
            },
    {
        proof {
            reveal_with_fuel(pow256, 9);
        }
        match self.read_be(1) {
            Ok(n) => Ok(n as u8),
            Err(e) => Err(e),
        }
    }

    pub fn deserialize_i8(&mut self) -> (r: Result<i8, Error>)
        requires
            old(self).wf(),
        ensures
            final(self).wf(),
            final(self).buffer() == old(self).buffer(),
            old(self).position() <= final(self).position(),
            match decoded(Shape::I8, old(self).rest()) {
                Ok((d, rest)) => r matches Ok(v) && d == Datum::I8(v) && final(self).rest() == rest,
                Err(e) => r == Err::<i8, Error>(e) && final(self).rest() == halt(
                    Shape::I8,
                    old(self).rest(),
                ),
            },
    {
        proof {
            reveal_with_fuel(pow256, 9);
        }
        match self.read_be(1) {
            Ok(n) => Ok(if n < 0x80 { n as i8 } else { (n as i16 - 0x100) as i8 }),
            Err(e) => Err(e),
        }
    }

    pub fn deserialize_u16(&mut self) -> (r: Result<u16, Error>)
        requires
            old(self).wf(),
        ensures
            final(self).wf(),
            final(self).buffer() == old(self).buffer(),
            old(self).position() <= final(self).position(),
            match decoded(Shape::U16, old(self).rest()) {
                Ok((d, rest)) => r matches Ok(v) && d == Datum::U16(v) && final(self).rest() == rest,
                Err(e) => r == Err::<u16, Error>(e) && final(self).rest() == halt(
                    Shape::U16,
                    old(self).rest(),
                ),
            },
    {
        proof {
            reveal_with_fuel(pow256, 9);
        }
        match self.read_be(2) {
            Ok(n) => Ok(n as u16),
            Err(e) => Err(e),
        }
    }

    pub fn deserialize_i16(&mut self) -> (r: Result<i16, Error>)
        requires
            old(self).wf(),
        ensures
            final(self).wf(),
            final(self).buffer() == old(self).buffer(),
            old(self).position() <= final(self).position(),
            match decoded(Shape::I16, old(self).rest()) {
                Ok((d, rest)) => r matches Ok(v) && d == Datum::I16(v) && final(self).rest() == rest,
                Err(e) => r == Err::<i16, Error>(e) && final(self).rest() == halt(
                    Shape::I16,
                    old(self).rest(),
                ),
            },
    {
        proof {
            reveal_with_fuel(pow256, 9);
        }
        match self.read_be(2) {
            Ok(n) => Ok(if n < 0x8000 { n as i16 } else { (n as i32 - 0x1_0000) as i16 }),
            Err(e) => Err(e),
        }
    }

    pub fn deserialize_u32(&mut self) -> (r: Result<u32, Error>)
        requires
            old(self).wf(),
        ensures
            final(self).wf(),
            final(self).buffer() == old(self).buffer(),
            old(self).position() <= final(self).position(),
            match decoded(Shape::U32, old(self).rest()) {
                Ok((d, rest)) => r matches Ok(v) && d == Datum::U32(v) && final(self).rest() == rest,
                Err(e) => r == Err::<u32, Error>(e) && final(self).rest() == halt(
                    Shape::U32,
                    old(self).rest(),
                ),
            },
    {
        proof {
            reveal_with_fuel(pow256, 9);
        }
        match self.read_be(4) {
            Ok(n) => Ok(n as u32),
            Err(e) => Err(e),
        }
    }

    pub fn deserialize_i32(&mut self) -> (r: Result<i32, Error>)
        requires
            old(self).wf(),
        ensures
            final(self).wf(),
            final(self).buffer() == old(self).buffer(),
            old(self).position() <= final(self).position(),
            match decoded(Shape::I32, old(self).rest()) {
                Ok((d, rest)) => r matches Ok(v) && d == Datum::I32(v) && final(self).rest() == rest,
                Err(e) => r == Err::<i32, Error>(e) && final(self).rest() == halt(
                    Shape::I32,
                    old(self).rest(),
                ),
            },
    {
        proof {
            reveal_with_fuel(pow256, 9);
        }
        match self.read_be(4) {
            Ok(n) => Ok(if n < 0x8000_0000 { n as i32 } else { (n as i64 - 0x1_0000_0000) as i32 }),
            Err(e) => Err(e),
        }
    }

    pub fn deserialize_u64(&mut self) -> (r: Result<u64, Error>)
        requires
            old(self).wf(),
        ensures
            final(self).wf(),
            final(self).buffer() == old(self).buffer(),
            old(self).position() <= final(self).position(),
            match decoded(Shape::U64, old(self).rest()) {
                Ok((d, rest)) => r matches Ok(v) && d == Datum::U64(v) && final(self).rest() == rest,
                Err(e) => r == Err::<u64, Error>(e) && final(self).rest() == halt(
                    Shape::U64,
                    old(self).rest(),
                ),
            },
    {
        proof {
            reveal_with_fuel(pow256, 9);
        }
        match self.read_be(8) {
            Ok(n) => Ok(n),
            Err(e) => Err(e),
        }
    }

    pub fn deserialize_i64(&mut self) -> (r: Result<i64, Error>)
        requires
            old(self).wf(),
        ensures
            final(self).wf(),
            final(self).buffer() == old(self).buffer(),
            old(self).position() <= final(self).position(),
            match decoded(Shape::I64, old(self).rest()) {
                Ok((d, rest)) => r matches Ok(v) && d == Datum::I64(v) && final(self).rest() == rest,
                Err(e) => r == Err::<i64, Error>(e) && final(self).rest() == halt(
                    Shape::I64,
                    old(self).rest(),
                ),
            },
    {
        proof {
            reveal_with_fuel(pow256, 9);
        }
        match self.read_be(8) {
            Ok(n) => Ok(if n < 0x8000_0000_0000_0000 { n as i64 } else { (n as i128 - 0x1_0000_0000_0000_0000) as i64 }),
            Err(e) => Err(e),
        }
    }

    pub fn deserialize_char(&mut self) -> (r: Result<char, Error>)
        requires
            old(self).wf(),
        ensures
            final(self).wf(),
            final(self).buffer() == old(self).buffer(),
            old(self).position() <= final(self).position(),
            match decoded(Shape::Char, old(self).rest()) {
                Ok((d, rest)) => r matches Ok(v) && d == Datum::Char(v) && final(self).rest() == rest,
                Err(e) => r == Err::<char, Error>(e) && final(self).rest() == halt(
                    Shape::Char,
                    old(self).rest(),
                ),
            },
    {
        proof {
            reveal_with_fuel(pow256, 9);
        }
        match self.read_be(1) {
            Ok(n) => Ok((n as u8) as char),
            Err(e) => Err(e),
        }
    }

    /// A boolean byte: 1 is true, 0 is false, anything else is invalid.
    pub fn deserialize_bool(&mut self) -> (r: Result<bool, Error>)
        requires
            old(self).wf(),
        ensures
            final(self).wf(),
            final(self).buffer() == old(self).buffer(),
            old(self).position() <= final(self).position(),
            match decoded(Shape::Bool, old(self).rest()) {
                Ok((d, rest)) => r matches Ok(v) && d == Datum::Bool(v) && final(self).rest() == rest,
                Err(e) => r == Err::<bool, Error>(e) && final(self).rest() == halt(
                    Shape::Bool,
                    old(self).rest(),
                ),
            },
    {
        proof {
            reveal_with_fuel(pow256, 9);
        }
        match self.read_be(1) {
            Ok(n) => if n == 1 {
                Ok(true)
            } else if n == 0 {
                Ok(false)
            } else {
                Err(Error::InvalidData)
            },
            Err(e) => Err(e),
        }
    }

    /// A varint that counts bytes or elements: a negative one is invalid.
    pub fn read_length(&mut self) -> (r: Result<usize, Error>)
        requires
            old(self).wf(),
        ensures
            final(self).wf(),
            final(self).buffer() == old(self).buffer(),
            old(self).position() <= final(self).position(),
            match read_length(old(self).rest()) {
                Ok((n, rest)) => r matches Ok(v) && v == n && n < 0x8000_0000
                    && final(self).rest() == rest,
                Err(e) => r == Err::<usize, Error>(e) && final(self).rest() == length_halt(
                    old(self).rest(),
                ),
            },
    {
        match varint::deserialize(self) {
            Ok(n) => if n < 0 {
                Err(Error::InvalidData)
            } else {
                Ok(n as usize)
            },
            Err(e) => Err(e),
        }
    }

    /// A string: a varint byte length, then that many bytes of UTF-8, with
    /// invalid sequences replaced.
    pub fn deserialize_string(&mut self) -> (r: Result<String, Error>)
        requires
            old(self).wf(),
        ensures
            final(self).wf(),
            final(self).buffer() == old(self).buffer(),
            old(self).position() <= final(self).position(),
            match decoded(Shape::Text, old(self).rest()) {
                Ok((d, rest)) => r matches Ok(v) && d == Datum::Text(v@) && final(self).rest() == rest,
                Err(e) => r == Err::<String, Error>(e) && final(self).rest() == halt(
                    Shape::Text,
                    old(self).rest(),
                ),
            },
    {
        let len = match self.read_length() {
            Ok(n) => n,
            Err(e) => {
                return Err(e);
            },
        };
        if self.input.len() - self.pos < len {
            return Err(Error::Eof);
        }
        let ghost cur = self.rest();
        let text = text_of_bytes(&self.input.as_slice()[self.pos..self.pos + len]);
        proof {
            assert(self.input@.subrange(self.pos as int, self.pos + len) =~= cur.take(len as int));
        }
        self.pos = self.pos + len;
        proof {
            assert(self.rest() =~= cur.skip(len as int));
        }
        Ok(text)
    }

    /// Reads `w` bytes as a big-endian number.
    pub(crate) fn read_be(&mut self, w: usize) -> (r: Result<u64, Error>)
        requires
            old(self).wf(),
            w <= 8,
        ensures
            final(self).wf(),
            final(self).buffer() == old(self).buffer(),
            old(self).position() <= final(self).position(),
            match fixed(old(self).rest(), w as nat) {
                Ok((n, rest)) => r == Ok::<u64, Error>(n as u64) && final(self).rest() == rest
                    && n < pow256(w as nat),
                Err(e) => r == Err::<u64, Error>(e) && final(self).position() == old(self).position(),
            },
    {
        if self.input.len() - self.pos < w {
            return Err(Error::Eof);
        }
        let ghost start = self.rest();
        let mut acc: u64 = 0;
        let mut i: usize = 0;
        while i < w
            invariant
                self.wf(),
                w <= 8,
                i <= w,
                start.len() >= w,
                start == old(self).rest(),
                self.input@ == old(self).buffer(),
                self.pos == old(self).position() + i,
                acc as nat == be_value(start.take(i as int)),
            decreases w - i,
        {
            assert(self.pos < self.input.len());
            let b = self.input[self.pos];
            proof {
                assert(b == start[i as int]);
                assert(start.take(i as int + 1) =~= start.take(i as int).push(b));
                lemma_be_value_push(start.take(i as int), b);
                lemma_be_value_bound(start.take(i as int + 1));
                lemma_pow256_mono(i as nat + 1, 8);
                assert(pow256(8) == 0x1_0000_0000_0000_0000) by {
                    reveal_with_fuel(pow256, 9);
                }
            }
            acc = acc * 256 + b as u64;
            self.pos = self.pos + 1;
            i = i + 1;
        }
        proof {
            assert(self.rest() =~= start.skip(w as int));
            assert(start.take(i as int) =~= start.take(w as int));
            lemma_be_value_bound(start.take(w as int));
        }
        Ok(acc)
    }

    /// Reads a variable-length integer of at most `cap` bytes.
    pub(crate) fn read_leb(&mut self, cap: usize) -> (r: Result<u128, Error>)
        requires
            old(self).wf(),
            1 <= cap <= 10,
        ensures
            final(self).wf(),
            final(self).buffer() == old(self).buffer(),
            old(self).position() <= final(self).position(),
            match read_leb(old(self).rest(), cap as nat) {
                Ok((n, rest)) => r matches Ok(x) && x as nat == n && final(self).rest() == rest,
                Err(e) => r == Err::<u128, Error>(e) && final(self).rest() == leb_halt(
                    old(self).rest(),
                    cap as nat,
                ),
            },
            final(self).position() <= old(self).position() + cap,
    {
        let ghost start = self.rest();
        let mut acc: u128 = 0;
        let mut mult: u128 = 1;
        let mut count: usize = 0;
        loop
            invariant
                self.wf(),
                cap <= 10,
                count < cap,
                start == old(self).rest(),
                self.buffer() == old(self).buffer(),
                self.position() == old(self).position() + count,
                leb_halt(start, cap as nat) == leb_halt(self.rest(), (cap - count) as nat),
                mult as nat == pow128(count as nat),
                acc < mult,
                read_leb(start, cap as nat) == match read_leb(self.rest(), (cap - count) as nat) {
                    Ok((v, rest)) => Ok(((acc + mult * v) as nat, rest)),
                    Err(e) => Err(e),
                },
            decreases cap - count,
        {
            let ghost cur = self.rest();
            proof {
                lemma_pow128_mono(count as nat + 1, 10);
                assert(pow128(10) == 0x40_0000_0000_0000_0000) by {
                    reveal_with_fuel(pow128, 11);
                }
            }
            let b = match self.read_byte() {
                Ok(b) => b,
                Err(e) => {
                    assert(read_leb(cur, (cap - count) as nat) == Err::<(nat, Seq<u8>), Error>(
                        Error::Eof,
                    ));
                    return Err(e);
                },
            };
            proof {
                assert(cur[0] == b);
            }
            if b < 128 {
                proof {
                    assert(mult * b <= mult * 127) by (nonlinear_arith)
                        requires b < 128;
                    assert(read_leb(cur, (cap - count) as nat) == Ok::<(nat, Seq<u8>), Error>(
                        (b as nat, self.rest()),
                    ));
                }
                return Ok(acc + mult * b as u128);
            }
            if count + 1 >= cap {
                assert(read_leb(cur, (cap - count) as nat) == Err::<(nat, Seq<u8>), Error>(
                    Error::InvalidData,
                ));
                return Err(Error::InvalidData);
            }
            proof {
                let m = mult as int;
                let a = acc as int;
                let x = b - 128;
                assert(a + m * x < m * 128) by (nonlinear_arith)
                    requires 0 <= a < m, 0 <= x < 128;
                assert(self.rest() =~= cur.skip(1));
                match read_leb(cur.skip(1), (cap - count - 1) as nat) {
                    Ok((v, _)) => {
                        let v = v as int;
                        assert(a + m * (x + 128 * v) == (a + m * x) + (m * 128) * v)
                            by (nonlinear_arith);
                    },
                    Err(_) => {},
                }
            }
            acc = acc + mult * (b - 128) as u128;
            mult = mult * 128;
            count = count + 1;
        }
    }

    /// Decodes a value of shape `shape`: the traversal that every composite
    /// shape goes through, on this one cursor.
    pub fn deserialize_value(&mut self, shape: &Shape) -> (r: Result<Value, Error>)
        requires
            old(self).wf(),
        ensures
            final(self).wf(),
            final(self).buffer() == old(self).buffer(),
            old(self).position() <= final(self).position(),
            match decoded(*shape, old(self).rest()) {
                Ok((d, rest)) => r matches Ok(v) && v@ == d && final(self).rest() == rest,
                Err(e) => r == Err::<Value, Error>(e) && final(self).rest() == halt(
                    *shape,
                    old(self).rest(),
                ),
            },
            shape is Optional || shape is KeyValue || shape is Any ==> final(self).position()
                == old(self).position(),
        decreases shape, 0nat,
    {
        match shape {
            Shape::Bool => match self.deserialize_bool() {
                Ok(v) => Ok(Value::Bool(v)),
                Err(e) => Err(e),
            },
            Shape::U8 => match self.deserialize_u8() {
                Ok(v) => Ok(Value::U8(v)),
                Err(e) => Err(e),
            },
            Shape::I8 => match self.deserialize_i8() {
                Ok(v) => Ok(Value::I8(v)),
                Err(e) => Err(e),
            },
            Shape::U16 => match self.deserialize_u16() {
                Ok(v) => Ok(Value::U16(v)),
                Err(e) => Err(e),
            },
            Shape::I16 => match self.deserialize_i16() {
                Ok(v) => Ok(Value::I16(v)),
                Err(e) => Err(e),
            },
            Shape::U32 => match self.deserialize_u32() {
                Ok(v) => Ok(Value::U32(v)),
                Err(e) => Err(e),
            },
            Shape::I32 => match self.deserialize_i32() {
                Ok(v) => Ok(Value::I32(v)),
                Err(e) => Err(e),
            },
            Shape::U64 => match self.deserialize_u64() {
                Ok(v) => Ok(Value::U64(v)),
                Err(e) => Err(e),
            },
            Shape::I64 => match self.deserialize_i64() {
                Ok(v) => Ok(Value::I64(v)),
                Err(e) => Err(e),
            },
            Shape::Char => match self.deserialize_char() {
                Ok(v) => Ok(Value::Char(v)),
                Err(e) => Err(e),
            },
            Shape::VarInt => match varint::deserialize(self) {
                Ok(v) => Ok(Value::I32(v)),
                Err(e) => Err(e),
            },
            Shape::VarLong => match varlong::deserialize(self) {
                Ok(v) => Ok(Value::I64(v)),
                Err(e) => Err(e),
            },
            Shape::Text => match self.deserialize_string() {
                Ok(v) => Ok(Value::Text(v)),
                Err(e) => Err(e),
            },
            Shape::Tuple(fields) => match self.deserialize_tuple(fields) {
                Ok(vs) => Ok(Value::Tuple(vs)),
                Err(e) => Err(e),
            },
            Shape::Union(variants) => self.deserialize_enum(variants),
            Shape::Sized(elem) => if !is_supported(elem) {
                Err(Error::Unimplemented)
            } else {
                match vec_sized::deserialize(self, elem) {
                    Ok(vs) => Ok(Value::List(vs)),
                    Err(e) => Err(e),
                }
            },
            Shape::Unsized(elem) => if !is_supported(elem) {
                Err(Error::Unimplemented)
            } else {
                match vec_unsized::deserialize(self, elem) {
                    Ok(vs) => Ok(Value::List(vs)),
                    Err(e) => Err(e),
                }
            },
            Shape::Optional(_) => Err(Error::Unimplemented),
            Shape::KeyValue(_, _) => Err(Error::Unimplemented),
            Shape::Any => Err(Error::Unimplemented),
        }
    }

    /// A tagged union: the discriminant as a varint, then the fields of the
    /// first variant that declares it. An unknown discriminant is invalid.
    pub fn deserialize_enum(&mut self, variants: &Vec<Variant>) -> (r: Result<Value, Error>)
        requires
            old(self).wf(),
        ensures
            final(self).wf(),
            final(self).buffer() == old(self).buffer(),
            old(self).position() <= final(self).position(),
            match decoded(Shape::Union(*variants), old(self).rest()) {
                Ok((d, rest)) => r matches Ok(v) && v@ == d && final(self).rest() == rest,
                Err(e) => r == Err::<Value, Error>(e) && final(self).rest() == halt(
                    Shape::Union(*variants),
                    old(self).rest(),
                ),
            },
        decreases variants, 1nat,
    {
        let n = match varint::deserialize(self) {
            Ok(n) => n,
            Err(e) => {
                return Err(e);
            },
        };
        let k: u32 = if n >= 0 {
            n as u32
        } else {
            (n as i64 + 0x1_0000_0000) as u32
        };
        assert(k == unsigned(n as int, span32()) as u32);
        match find_variant(variants, k) {
            Some(i) => match self.deserialize_tuple(&variants[i].fields) {
                Ok(vs) => Ok(Value::Union(k, vs)),
                Err(e) => Err(e),
            },
            None => Err(Error::InvalidData),
        }
    }

    /// The fields of a record, a tuple or a variant, in order.
    pub fn deserialize_tuple(&mut self, fields: &Vec<Shape>) -> (r: Result<Vec<Value>, Error>)
        requires
            old(self).wf(),
        ensures
            final(self).wf(),
            final(self).buffer() == old(self).buffer(),
            old(self).position() <= final(self).position(),
            match decoded_fields(fields@, old(self).rest()) {
                Ok((ds, rest)) => r matches Ok(vs) && models(vs@) == ds && final(self).rest() == rest,
                Err(e) => r == Err::<Vec<Value>, Error>(e) && final(self).rest() == halt_fields(
                    fields@,
                    old(self).rest(),
                ),
            },
        decreases fields, 1nat,
    {
        let ghost start = self.rest();
        let mut out: Vec<Value> = Vec::new();
        let mut i: usize = 0;
        while i < fields.len()
            invariant
                self.wf(),
                i <= fields@.len(),
                start == old(self).rest(),
                self.buffer() == old(self).buffer(),
                old(self).position() <= self.position(),
                decoded_fields(fields@.take(i as int), start) == Ok::<(Seq<Datum>, Seq<u8>), Error>(
                    (models(out@), self.rest()),
                ),
            decreases fields.len() - i,
        {
            let ghost cur = self.rest();
            let r = self.deserialize_value(&fields[i]);
            proof {
                let n = i as int + 1;
                assert(fields@.take(n).subrange(0, n - 1) =~= fields@.take(n - 1));
                assert(fields@.take(n)[n - 1] == fields@[i as int]);
            }
            match r {
                Ok(v) => {
                    proof {
                        lemma_models_push(out@, v);
                    }
                    out.push(v);
                },
                Err(e) => {
                    proof {
                        lemma_decoded_fields_err(fields@, start, i as int + 1);
                        assert(fields@.take(fields@.len() as int) =~= fields@);
                    }
                    return Err(e);
                },
            }
            i = i + 1;
        }
        proof {
            assert(fields@.take(i as int) =~= fields@);
        }
        Ok(out)
    }
}

} // verus!
