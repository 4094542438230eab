use vstd::prelude::*;

use crate::de::Deserializer;
use crate::error::Error;
use crate::format::{leb, leb_halt, read_varint, span32, unsigned};
use crate::ser::Serializer;

verus! {

/// The variable-length encoding of `n`.
pub(crate) fn leb_bytes(n: u64) -> (out: Vec<u8>)
    ensures
        out@ == leb(n as nat),
{
    let mut value = n;
    let mut out: Vec<u8> = Vec::new();
    loop
        invariant
            out@ + leb(value as nat) == leb(n as nat),
        decreases value,
    {
        if value < 128 {
            out.push(value as u8);
            return out;
        }
        let ghost before = out@;
        let ghost v0 = value as nat;
        out.push((value % 128 + 128) as u8);
        value = value / 128;
        assert(leb(v0) == seq![(v0 % 128 + 128) as u8] + leb(v0 / 128));
        assert(out@ + leb(value as nat) =~= before + leb(v0));
    }
}

/// The bit pattern of `x`.
fn bits_of(x: i32) -> (r: u32)
    ensures
        r as nat == unsigned(x as int, span32()),
{
    if x >= 0 {
        x as u32
    } else {
        (x as i64 + 0x1_0000_0000) as u32
    }
}

/// The varint bytes of `varint`: its unsigned bit pattern, seven bits at a time.
pub fn to_bytes(varint: i32) -> (out: Vec<u8>)
    ensures
        out@ == leb(unsigned(varint as int, span32())),
{
    leb_bytes(bits_of(varint) as u64)
}

/// Writes `varint` as a varint.
pub fn serialize(varint: &i32, serializer: &mut Serializer) -> (r: Result<(), Error>)
    ensures
        r is Ok,
        old(serializer).bytes().is_prefix_of(final(serializer).bytes()),
        final(serializer).bytes() == old(serializer).bytes() + leb(
            unsigned(*varint as int, span32()),
        ),
{
    let bytes = to_bytes(*varint);
    serializer.serialize_bytes(bytes.as_slice())
}

} // verus!

verus! {

/// Reads a varint: at most five bytes, seven bits each, low bits first.
pub struct VarIntVisitor;

impl VarIntVisitor {
    pub fn visit_seq(self, d: &mut Deserializer) -> (r: Result<i32, Error>)
        requires
            old(d).wf(),
        ensures
            final(d).wf(),
            final(d).position() <= old(d).position() + 5,
            final(d).buffer() == old(d).buffer(),
            old(d).position() <= final(d).position(),
            match read_varint(old(d).rest()) {
                Ok((n, rest)) => r == Ok::<i32, Error>(n as i32) && final(d).rest() == rest,
                Err(e) => r == Err::<i32, Error>(e) && final(d).rest() == leb_halt(old(d).rest(), 5),
            },
    {
        match d.read_leb(5) {
            Ok(n) => {
                let bits = (n % 0x1_0000_0000) as u32;
                if bits < 0x8000_0000 {
                    Ok(bits as i32)
                } else {
                    Ok((bits as i64 - 0x1_0000_0000) as i32)
                }
            },
            Err(e) => Err(e),
        }
    }
}

/// Reads a varint.
pub fn deserialize(d: &mut Deserializer) -> (r: Result<i32, Error>)
    requires
        old(d).wf(),
    ensures
        final(d).wf(),
        final(d).buffer() == old(d).buffer(),
        old(d).position() <= final(d).position(),
        match read_varint(old(d).rest()) {
            Ok((n, rest)) => r == Ok::<i32, Error>(n as i32) && final(d).rest() == rest,
            Err(e) => r == Err::<i32, Error>(e) && final(d).rest() == leb_halt(old(d).rest(), 5),
        },
{
    VarIntVisitor.visit_seq(d)
}

} // verus!
