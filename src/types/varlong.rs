use vstd::prelude::*;

use crate::de::Deserializer;
use crate::error::Error;
use crate::format::{decoded, halt, leb, span64, unsigned};
use crate::shape::{Datum, Shape};
use crate::ser::Serializer;
use crate::types::varint::leb_bytes;

verus! {

/// Writes `varlong` as a variable-length integer of its unsigned bit pattern.
pub fn serialize(varlong: &i64, serializer: &mut Serializer) -> (r: Result<(), Error>)
    ensures
        r is Ok,
        old(serializer).bytes().is_prefix_of(final(serializer).bytes()),
        final(serializer).bytes() == old(serializer).bytes() + leb(
            unsigned(*varlong as int, span64()),
        ),
{
    let x = *varlong;
    let bits: u64 = if x >= 0 {
        x as u64
    } else {
        (x as i128 + 0x1_0000_0000_0000_0000) as u64
    };
    let bytes = leb_bytes(bits);
    serializer.serialize_bytes(bytes.as_slice())
}

} // verus!

verus! {

/// Reads a variable-length integer of at most ten bytes as an `i64`.
pub fn deserialize(d: &mut Deserializer) -> (r: Result<i64, Error>)
    requires
        old(d).wf(),
    ensures
        final(d).wf(),
        final(d).position() <= old(d).position() + 10,
        final(d).buffer() == old(d).buffer(),
        old(d).position() <= final(d).position(),
        match decoded(Shape::VarLong, old(d).rest()) {
            Ok((v, rest)) => r matches Ok(x) && v == Datum::I64(x) && final(d).rest() == rest,
            Err(e) => r == Err::<i64, Error>(e) && final(d).rest() == halt(
                Shape::VarLong,
                old(d).rest(),
            ),
        },
{
    match d.read_leb(10) {
        Ok(n) => {
            let bits = (n % 0x1_0000_0000_0000_0000) as u64;
            if bits < 0x8000_0000_0000_0000 {
                Ok(bits as i64)
            } else {
                Ok((bits as i128 - 0x1_0000_0000_0000_0000) as i64)
            }
        },
        Err(e) => Err(e),
    }
}

} // verus!
