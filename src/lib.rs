//! A schema-driven binary codec. A [`Shape`] says what a value is made of;
//! the encoder writes a [`Value`] of that shape as bytes and the decoder reads
//! it back, with no tags in the bytes but the discriminants of unions.
//! `format` defines the wire format; `laws` proves what it guarantees.
use vstd::prelude::*;

mod de;
mod error;
pub mod format;
pub mod laws;
mod ser;
mod shape;
pub mod types;

pub use de::{from_bytes, Deserializer};
pub use error::Error;
pub use ser::{to_bytes, Serializer};
pub use shape::{Datum, Shape, Value, Variant};
