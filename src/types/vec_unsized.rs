use vstd::prelude::*;

use crate::de::Deserializer;
use crate::error::Error;
use crate::format::{decoded_rest, encoded_items, halt, halt_rest};
use crate::ser::Serializer;
use crate::shape::{lemma_models_push, models, Datum, Shape, Value};
use crate::types::vec_sized::serialize_items;

verus! {

/// Writes the elements of `vec`, of shape `elem`, back to back, with no count
/// and no terminator.
pub fn serialize(vec: &Vec<Value>, elem: &Shape, serializer: &mut Serializer) -> (r: Result<(), Error>)
    ensures
        old(serializer).bytes().is_prefix_of(final(serializer).bytes()),
        match encoded_items(models(vec@), *elem) {
            Ok(b) => r is Ok && final(serializer).bytes() == old(serializer).bytes() + b,
            Err(e) => r == Err::<(), Error>(e),
        },
    decreases elem, 2nat,
{
    serialize_items(vec, elem, serializer)
}

} // verus!

verus! {

/// Reads elements of shape `elem` until the input is used up. The end of the
/// input before an element ends the sequence; inside an element it is an
/// error. An element that consumes no byte while input remains is invalid.
pub fn deserialize(d: &mut Deserializer, elem: &Shape) -> (r: Result<Vec<Value>, Error>)
    requires
        old(d).wf(),
    ensures
        final(d).wf(),
        final(d).buffer() == old(d).buffer(),
        old(d).position() <= final(d).position(),
        match decoded_rest(*elem, old(d).rest()) {
            Ok((ds, rest)) => r matches Ok(vs) && models(vs@) == ds && final(d).rest() == rest,
            Err(e) => r == Err::<Vec<Value>, Error>(e) && final(d).rest() == halt_rest(
                *elem,
                old(d).rest(),
            ),
        },
    decreases elem, 1nat,
{
    let ghost start = d.rest();
    let mut out: Vec<Value> = Vec::new();
    while !d.is_empty()
        invariant
            d.wf(),
            start == old(d).rest(),
            d.buffer() == old(d).buffer(),
            old(d).position() <= d.position(),
            halt_rest(*elem, start) == halt_rest(*elem, d.rest()),
            decoded_rest(*elem, start) == match decoded_rest(*elem, d.rest()) {
                Ok((ds, rest)) => Ok((models(out@) + ds, rest)),
                Err(e) => Err(e),
            },
        decreases d.rest().len(),
    {
        let ghost cur = d.rest();
        let before = d.remaining();
        let r = d.deserialize_value(elem);
        match r {
            Ok(v) => {
                if d.remaining() >= before {
                    return Err(Error::InvalidData);
                }
                proof {
                    lemma_models_push(out@, v);
                    match decoded_rest(*elem, d.rest()) {
                        Ok((ds, rest)) => {
                            assert(models(out@) + (seq![v@] + ds) =~= models(out@).push(v@) + ds);
                        },
                        Err(_) => {},
                    }
                }
                out.push(v);
            },
            Err(e) => {
                return Err(e);
            },
        }
    }
    proof {
        assert(models(out@) + Seq::<Datum>::empty() =~= models(out@));
    }
    Ok(out)
}

} // verus!
