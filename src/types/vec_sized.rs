use vstd::prelude::*;

use crate::de::Deserializer;
use crate::error::Error;
use crate::format::{
    decoded_count, decoded_sized, halt_count, halt_sized, read_length, encoded_items, encoded_sized, leb,
    lemma_decoded_count_err, lemma_encoded_items_err,
};
use crate::ser::Serializer;
use crate::shape::{lemma_models, lemma_models_push, model, models, Datum, Shape, Value};

verus! {

/// Writes a length-prefixed sequence: the element count as a varint, then
/// each element of shape `elem`.
pub fn serialize(vec: &Vec<Value>, elem: &Shape, serializer: &mut Serializer) -> (r: Result<(), Error>)
    ensures
        old(serializer).bytes().is_prefix_of(final(serializer).bytes()),
        vec@.len() > i32::MAX ==> final(serializer).bytes() == old(serializer).bytes(),
        match encoded_sized(models(vec@), *elem) {
            Ok(b) => r is Ok && final(serializer).bytes() == old(serializer).bytes() + b,
            Err(e) => r == Err::<(), Error>(e),
        },
    decreases elem, 2nat,
{
    proof {
        lemma_models(vec@);
    }
    if vec.len() > 0x7fff_ffff {
        return Err(Error::InvalidData);
    }
    let ghost before = serializer.bytes();
    let prefix = crate::types::varint::to_bytes(vec.len() as i32);
    let _ = serializer.serialize_bytes(prefix.as_slice());
    let r = serialize_items(vec, elem, serializer);
    proof {
        match encoded_items(models(vec@), *elem) {
            Ok(b) => {
                assert(serializer.bytes() =~= before + (leb(vec@.len()) + b));
            },
            Err(_) => {},
        }
    }
    r
}

/// Writes each element of `vec`, of shape `elem`, one after the other.
pub(crate) fn serialize_items(vec: &Vec<Value>, elem: &Shape, serializer: &mut Serializer) -> (r: Result<(), Error>)
    ensures
        old(serializer).bytes().is_prefix_of(final(serializer).bytes()),
        match encoded_items(models(vec@), *elem) {
            Ok(b) => r is Ok && final(serializer).bytes() == old(serializer).bytes() + b,
            Err(e) => r == Err::<(), Error>(e),
        },
    decreases elem, 1nat,
{
    let ghost ds = models(vec@);
    proof {
        lemma_models(vec@);
    }
    let ghost mut written: Seq<u8> = Seq::empty();
    let mut i: usize = 0;
    while i < vec.len()
        invariant
            i <= vec@.len(),
            ds == models(vec@),
            ds.len() == vec@.len(),
            forall|j: int| 0 <= j < vec@.len() ==> #[trigger] ds[j] == model(vec@[j]),
            serializer.bytes() == old(serializer).bytes() + written,
            encoded_items(ds.take(i as int), *elem) == Ok::<Seq<u8>, Error>(written),
        decreases vec.len() - i,
    {
        let ghost before = serializer.bytes();
        let r = serializer.serialize_value(&vec[i], elem);
        proof {
            let n = i as int + 1;
            assert(ds.take(n).drop_last() =~= ds.take(n - 1));
            assert(ds.take(n).last() == vec@[i as int]@);
        }
        match r {
            Ok(()) => {
                proof {
                    match crate::format::encoded(vec@[i as int]@, *elem) {
                        Ok(c) => {
                            assert(serializer.bytes().skip(before.len() as int) =~= c);
                        },
                        Err(_) => {},
                    }
                }
            },
            Err(e) => {
                proof {
                    lemma_encoded_items_err(ds, *elem, i as int + 1);
                }
                return Err(e);
            },
        }
        proof {
            written = written + serializer.bytes().skip(before.len() as int);
            assert(serializer.bytes() =~= old(serializer).bytes() + written);
        }
        i = i + 1;
    }
    proof {
        assert(ds.take(i as int) =~= ds);
    }
    Ok(())
}

} // verus!

verus! {

/// Reads a length-prefixed sequence: a varint count, then that many elements
/// of shape `elem`. A negative count is invalid.
pub fn deserialize(d: &mut Deserializer, elem: &Shape) -> (r: Result<Vec<Value>, Error>)
    requires
        old(d).wf(),
    ensures
        final(d).wf(),
        final(d).buffer() == old(d).buffer(),
        old(d).position() <= final(d).position(),
        match decoded_sized(*elem, old(d).rest()) {
            Ok((ds, rest)) => r matches Ok(vs) && models(vs@) == ds && final(d).rest() == rest,
            Err(e) => r == Err::<Vec<Value>, Error>(e) && final(d).rest() == halt_sized(
                *elem,
                old(d).rest(),
            ),
        },
    decreases elem, 1nat,
{
    let len = match d.read_length() {
        Ok(n) => n,
        Err(e) => {
            return Err(e);
        },
    };
    let ghost start = d.rest();
    let mut out: Vec<Value> = Vec::new();
    let mut i: usize = 0;
    while i < len
        invariant
            d.wf(),
            i <= len,
            len < 0x8000_0000,
            d.buffer() == old(d).buffer(),
            old(d).position() <= d.position(),
            read_length(old(d).rest()) == Ok::<(nat, Seq<u8>), Error>((len as nat, start)),
            decoded_count(*elem, i as nat, start) == Ok::<(Seq<Datum>, Seq<u8>), Error>(
                (models(out@), d.rest()),
            ),
        decreases len - i,
    {
        let r = d.deserialize_value(elem);
        match r {
            Ok(v) => {
                proof {
                    lemma_models_push(out@, v);
                }
                out.push(v);
            },
            Err(e) => {
                proof {
                    lemma_decoded_count_err(*elem, len as nat, start, i as nat + 1);
                }
                return Err(e);
            },
        }
        i = i + 1;
    }
    Ok(out)
}

} // verus!
