//! Serialization conveniences around [`Encoder`].
//!
//! All output is packed: composites carry definite-length headers and
//! headers use the minimal width, so the bytes are deterministic for a
//! given value — the form needed for digital signatures.

use vstd::prelude::*;

use crate::encode::Encoder;
use crate::value::Value;
use crate::wire::enc;
use crate::Error;

verus! {

/// Serialize to a byte vector: the canonical encoding of the value.
pub fn to_vec(value: &Value) -> (r: Result<Vec<u8>, Error>)
    ensures
        r matches Ok(b) && b@ == enc(value@),
{
    crate::to_vec(value)
}

/// Serialize to a byte vector with packed (definite-length only)
/// encoding.  Every encoding this crate produces is already packed,
/// so this is the same as [`to_vec`]; it exists so that callers can
/// name the deterministic form explicitly.
pub fn to_vec_packed(value: &Value) -> (r: Result<Vec<u8>, Error>)
    ensures
        r matches Ok(b) && b@ == enc(value@),
{
    crate::to_vec(value)
}

/// A serializer for CBOR encoding: an [`Encoder`] under the name that
/// callers of the serialization API expect.  Its view is the bytes
/// written so far.
pub struct Serializer {
    encoder: Encoder,
}

impl View for Serializer {
    type V = Seq<u8>;

    closed spec fn view(&self) -> Seq<u8> {
        self.encoder@
    }
}

impl Serializer {
    /// Create a new CBOR serializer with an empty output buffer.
    pub fn new() -> (r: Serializer)
        ensures
            r@ == Seq::<u8>::empty(),
    {
        Serializer { encoder: Encoder::new() }
    }

    /// Switch to the packed, canonical format.  Output is always
    /// packed, so this returns the serializer unchanged; it exists
    /// for callers that name the format explicitly.
    pub fn packed_format(self) -> (r: Self)
        ensures
            r@ == self@,
    {
        self
    }

    /// Serialize one value into the buffer.
    pub fn write_value(&mut self, value: &Value) -> (r: Result<(), Error>)
        ensures
            r is Ok,
            final(self)@ == old(self)@ + enc(value@),
    {
        self.encoder.write_value(value)
    }

    /// Consume the serializer and return the bytes written.
    pub fn into_inner(self) -> (r: Vec<u8>)
        ensures
            r@ == self@,
    {
        self.encoder.into_inner()
    }
}

} // verus!
