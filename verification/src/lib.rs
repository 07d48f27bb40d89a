//! A CBOR (Concise Binary Object Representation) encoder/decoder with
//! support for tagged types.
//!
//! The crate covers the CBOR major types 0-7 with definite- and
//! indefinite-length framing, a dynamic [`Value`] representation for
//! untyped data, a tag-carrying wrapper type [`Tagged`], and
//! convenience encoders for the common tag registry entries
//! (date/time, URIs, base64 variants, and RFC 8746 typed numeric
//! arrays).
//!
//! Output is canonical: every composite is emitted with a
//! definite-length header and integers use the minimal header width.
//! Indefinite-length framing is accepted on decode and can be produced
//! explicitly through the streaming methods of [`Encoder`], but is
//! never produced implicitly.
//!
//! Every encoder and decoder entry point carries a contract against
//! the byte-level specification in [`wire`]; the round-trip law is
//! proved in [`roundtrip`].

use vstd::prelude::*;

pub mod decode;
pub mod encode;
pub mod model;
pub mod roundtrip;
pub mod ser;
pub mod tags;
pub mod value;
pub mod wire;

pub use decode::Decoder;
pub use encode::Encoder;
pub use encode::SerializeVec;
pub use tags::Tagged;
pub use value::Value;

use wire::{enc, hdr, packed_be16, packed_be32, packed_be64, packed_le16, packed_le32, packed_le64};
use model::ValueModel;

verus! {

broadcast use vstd::std_specs::vec::group_vec_axioms;

/// Everything that can go wrong while encoding or decoding.
///
/// Decoding never panics on malformed input: a single malformed byte
/// anywhere aborts the whole decode with one of these values and a
/// partial structure is never returned.
#[derive(Debug, Clone, Copy, PartialEq, Eq, Structural)]
pub enum Error {
    /// Failure of an underlying byte sink or source.
    Io,
    /// The input ended in the middle of an item.
    Eof,
    /// A text string did not hold valid UTF-8.
    InvalidUtf8,
    /// Malformed framing: an invalid header code, a wrong-shape chunk
    /// inside an indefinite-length string, an integer that does not fit
    /// the signed 64-bit range, or a wrong entry count where a fixed
    /// shape was required.
    Syntax,
    /// A complete value was decoded but bytes were left over.
    TrailingData,
    /// The input held no bytes at all.
    EmptyInput,
    /// A value's shape cannot be mapped to any framing rule.
    Unrepresentable,
}

/// Serializes a value to a CBOR byte vector: exactly the canonical
/// encoding of its model.
pub fn to_vec(value: &Value) -> (r: Result<Vec<u8>, Error>)
    ensures
        r matches Ok(b) && b@ == enc(value@),
{
    let mut encoder = Encoder::new();
    let _ = encoder.write_value(value);
    Ok(encoder.into_inner())
}

/// Deserializes a value from CBOR bytes.
///
/// Empty input is rejected as [`Error::EmptyInput`]; bytes left over
/// after one complete item are rejected as [`Error::TrailingData`];
/// otherwise the result is exactly what [`wire::dec`] prescribes for
/// the input.  Whatever the input, a decoded value is well-formed:
/// its mappings are key-sorted with unique keys.
pub fn from_slice(slice: &[u8]) -> (r: Result<Value, Error>)
    ensures
        slice@.len() == 0 ==> r == Err::<Value, Error>(Error::EmptyInput),
        slice@.len() > 0 ==> (match wire::dec(slice@, 0) {
            Ok((v, p)) => if p == slice@.len() {
                r matches Ok(rv) && rv@ == v
            } else {
                r == Err::<Value, Error>(Error::TrailingData)
            },
            Err(e) => r == Err::<Value, Error>(e),
        }),
        r matches Ok(rv) ==> model::wf(rv@),
{
    let n = slice.len();
    proof {
        wire::lemma_dec_wf(slice@, 0);
    }
    if n == 0 {
        return Err(Error::EmptyInput);
    }
    let mut decoder = Decoder::from_slice(slice);
    let value = match decoder.read_value() {
        Ok(v) => v,
        Err(e) => {
            return Err(e);
        },
    };
    if decoder.remaining() > 0 {
        return Err(Error::TrailingData);
    }
    Ok(value)
}

/// Encode a tagged value: tag framing, then the value's canonical
/// bytes, appended to the caller's buffer.
pub fn encode_tagged(out: &mut Vec<u8>, tag: u64, value: &Value) -> (r: Result<(), Error>)
    ensures
        r is Ok,
        final(out)@ == old(out)@ + hdr(6, tag) + enc(value@),
{
    let mut encoder = Encoder::new();
    let _ = encoder.write_tag(tag);
    let _ = encoder.write_value(value);
    let mut bytes = encoder.into_inner();
    out.append(&mut bytes);
    proof {
        assert(final(out)@ =~= old(out)@ + hdr(6, tag) + enc(value@));
    }
    Ok(())
}

/// Helper to encode a date/time string (tag 0).
pub fn encode_datetime_string(out: &mut Vec<u8>, datetime: &str) -> (r: Result<(), Error>)
    ensures
        r is Ok,
        final(out)@ == old(out)@ + hdr(6, 0) + enc(ValueModel::Text(datetime@)),
{
    encode_tagged_text(out, 0, datetime)
}

/// Helper to encode an epoch timestamp (tag 1).
pub fn encode_epoch_datetime(out: &mut Vec<u8>, epoch: i64) -> (r: Result<(), Error>)
    ensures
        r is Ok,
        final(out)@ == old(out)@ + hdr(6, 1) + enc(ValueModel::Int(epoch)),
{
    let mut encoder = Encoder::new();
    let _ = encoder.write_tag(1);
    let _ = encoder.write_i64(epoch);
    let mut bytes = encoder.into_inner();
    out.append(&mut bytes);
    proof {
        assert(final(out)@ =~= old(out)@ + hdr(6, 1) + enc(ValueModel::Int(epoch)));
    }
    Ok(())
}

/// Helper to encode a URI (tag 32).
pub fn encode_uri(out: &mut Vec<u8>, uri: &str) -> (r: Result<(), Error>)
    ensures
        r is Ok,
        final(out)@ == old(out)@ + hdr(6, 32) + enc(ValueModel::Text(uri@)),
{
    encode_tagged_text(out, 32, uri)
}

/// Helper to encode base64url data (tag 33).
pub fn encode_base64url(out: &mut Vec<u8>, data: &str) -> (r: Result<(), Error>)
    ensures
        r is Ok,
        final(out)@ == old(out)@ + hdr(6, 33) + enc(ValueModel::Text(data@)),
{
    encode_tagged_text(out, 33, data)
}

/// Helper to encode base64 data (tag 34).
pub fn encode_base64(out: &mut Vec<u8>, data: &str) -> (r: Result<(), Error>)
    ensures
        r is Ok,
        final(out)@ == old(out)@ + hdr(6, 34) + enc(ValueModel::Text(data@)),
{
    encode_tagged_text(out, 34, data)
}

/// Tag framing followed by a text string.
fn encode_tagged_text(out: &mut Vec<u8>, tag: u64, text: &str) -> (r: Result<(), Error>)
    ensures
        r is Ok,
        final(out)@ == old(out)@ + hdr(6, tag) + enc(ValueModel::Text(text@)),
{
    let mut encoder = Encoder::new();
    let _ = encoder.write_tag(tag);
    let _ = encoder.write_text(text);
    let mut bytes = encoder.into_inner();
    out.append(&mut bytes);
    proof {
        assert(final(out)@ =~= old(out)@ + hdr(6, tag) + enc(ValueModel::Text(text@)));
    }
    Ok(())
}

/// Tag framing followed by a byte string.
fn encode_tagged_bytes(out: &mut Vec<u8>, tag: u64, bytes: &Vec<u8>) -> (r: Result<(), Error>)
    ensures
        r is Ok,
        final(out)@ == old(out)@ + hdr(6, tag) + enc(ValueModel::Bytes(bytes@)),
{
    let mut encoder = Encoder::new();
    let _ = encoder.write_tag(tag);
    let _ = encoder.write_bytes(bytes.as_slice());
    let mut b = encoder.into_inner();
    out.append(&mut b);
    proof {
        assert(final(out)@ =~= old(out)@ + hdr(6, tag) + enc(ValueModel::Bytes(bytes@)));
    }
    Ok(())
}

/// Helper to encode a uint8 array (tag 64): the bytes themselves,
/// tagged.
pub fn encode_uint8_array(out: &mut Vec<u8>, data: &[u8]) -> (r: Result<(), Error>)
    ensures
        r is Ok,
        final(out)@ == old(out)@ + hdr(6, 64) + enc(ValueModel::Bytes(data@)),
{
    let mut encoder = Encoder::new();
    let _ = encoder.write_tag(64);
    let _ = encoder.write_bytes(data);
    let mut b = encoder.into_inner();
    out.append(&mut b);
    proof {
        assert(final(out)@ =~= old(out)@ + hdr(6, 64) + enc(ValueModel::Bytes(data@)));
    }
    Ok(())
}

/// The elements packed big-endian, two bytes each.
#[verifier::loop_isolation(false)]
fn pack_be16(data: &[u16]) -> (r: Vec<u8>)
    ensures
        r@ == packed_be16(data@),
{
    let mut out: Vec<u8> = Vec::new();
    let mut i: usize = 0;
    proof {
        assert(data@.take(0) =~= Seq::<u16>::empty());
    }
    while i < data.len()
        invariant
            i <= data.len(),
            out@ == packed_be16(data@.take(i as int)),
        decreases data.len() - i,
    {
        let v = data[i];
        let t1 = v / 256;
        out.push((t1 % 256) as u8);
        out.push((v % 256) as u8);
        proof {
            reveal_with_fuel(wire::be_bytes, 4);
            assert(data@.take(i as int + 1).drop_last() =~= data@.take(i as int));
            assert(out@ =~= packed_be16(data@.take(i as int)) + wire::be_bytes(
                data@[i as int] as nat,
                2,
            ));
        }
        i = i + 1;
    }
    proof {
        assert(data@.take(data@.len() as int) =~= data@);
    }
    out
}

/// The elements packed big-endian, four bytes each.
#[verifier::loop_isolation(false)]
fn pack_be32(data: &[u32]) -> (r: Vec<u8>)
    ensures
        r@ == packed_be32(data@),
{
    let mut out: Vec<u8> = Vec::new();
    let mut i: usize = 0;
    proof {
        assert(data@.take(0) =~= Seq::<u32>::empty());
    }
    while i < data.len()
        invariant
            i <= data.len(),
            out@ == packed_be32(data@.take(i as int)),
        decreases data.len() - i,
    {
        let v = data[i];
        let t1 = v / 256;
        let t2 = t1 / 256;
        let t3 = t2 / 256;
        out.push((t3 % 256) as u8);
        out.push((t2 % 256) as u8);
        out.push((t1 % 256) as u8);
        out.push((v % 256) as u8);
        proof {
            reveal_with_fuel(wire::be_bytes, 6);
            assert(data@.take(i as int + 1).drop_last() =~= data@.take(i as int));
            assert(out@ =~= packed_be32(data@.take(i as int)) + wire::be_bytes(
                data@[i as int] as nat,
                4,
            ));
        }
        i = i + 1;
    }
    proof {
        assert(data@.take(data@.len() as int) =~= data@);
    }
    out
}

/// The elements packed big-endian, eight bytes each.
#[verifier::loop_isolation(false)]
fn pack_be64(data: &[u64]) -> (r: Vec<u8>)
    ensures
        r@ == packed_be64(data@),
{
    let mut out: Vec<u8> = Vec::new();
    let mut i: usize = 0;
    proof {
        assert(data@.take(0) =~= Seq::<u64>::empty());
    }
    while i < data.len()
        invariant
            i <= data.len(),
            out@ == packed_be64(data@.take(i as int)),
        decreases data.len() - i,
    {
        let v = data[i];
        let t1 = v / 256;
        let t2 = t1 / 256;
        let t3 = t2 / 256;
        let t4 = t3 / 256;
        let t5 = t4 / 256;
        let t6 = t5 / 256;
        let t7 = t6 / 256;
        out.push((t7 % 256) as u8);
        out.push((t6 % 256) as u8);
        out.push((t5 % 256) as u8);
        out.push((t4 % 256) as u8);
        out.push((t3 % 256) as u8);
        out.push((t2 % 256) as u8);
        out.push((t1 % 256) as u8);
        out.push((v % 256) as u8);
        proof {
            reveal_with_fuel(wire::be_bytes, 10);
            assert(data@.take(i as int + 1).drop_last() =~= data@.take(i as int));
            assert(out@ =~= packed_be64(data@.take(i as int)) + wire::be_bytes(
                data@[i as int] as nat,
                8,
            ));
        }
        i = i + 1;
    }
    proof {
        assert(data@.take(data@.len() as int) =~= data@);
    }
    out
}

/// The elements packed little-endian, two bytes each.
#[verifier::loop_isolation(false)]
fn pack_le16(data: &[u16]) -> (r: Vec<u8>)
    ensures
        r@ == packed_le16(data@),
{
    let mut out: Vec<u8> = Vec::new();
    let mut i: usize = 0;
    proof {
        assert(data@.take(0) =~= Seq::<u16>::empty());
    }
    while i < data.len()
        invariant
            i <= data.len(),
            out@ == packed_le16(data@.take(i as int)),
        decreases data.len() - i,
    {
        let v = data[i];
        let t1 = v / 256;
        out.push((v % 256) as u8);
        out.push((t1 % 256) as u8);
        proof {
            reveal_with_fuel(wire::le_bytes, 4);
            assert(data@.take(i as int + 1).drop_last() =~= data@.take(i as int));
            assert(out@ =~= packed_le16(data@.take(i as int)) + wire::le_bytes(
                data@[i as int] as nat,
                2,
            ));
        }
        i = i + 1;
    }
    proof {
        assert(data@.take(data@.len() as int) =~= data@);
    }
    out
}

/// The elements packed little-endian, four bytes each.
#[verifier::loop_isolation(false)]
fn pack_le32(data: &[u32]) -> (r: Vec<u8>)
    ensures
        r@ == packed_le32(data@),
{
    let mut out: Vec<u8> = Vec::new();
    let mut i: usize = 0;
    proof {
        assert(data@.take(0) =~= Seq::<u32>::empty());
    }
    while i < data.len()
        invariant
            i <= data.len(),
            out@ == packed_le32(data@.take(i as int)),
        decreases data.len() - i,
    {
        let v = data[i];
        let t1 = v / 256;
        let t2 = t1 / 256;
        let t3 = t2 / 256;
        out.push((v % 256) as u8);
        out.push((t1 % 256) as u8);
        out.push((t2 % 256) as u8);
        out.push((t3 % 256) as u8);
        proof {
            reveal_with_fuel(wire::le_bytes, 6);
            assert(data@.take(i as int + 1).drop_last() =~= data@.take(i as int));
            assert(out@ =~= packed_le32(data@.take(i as int)) + wire::le_bytes(
                data@[i as int] as nat,
                4,
            ));
        }
        i = i + 1;
    }
    proof {
        assert(data@.take(data@.len() as int) =~= data@);
    }
    out
}

/// The elements packed little-endian, eight bytes each.
#[verifier::loop_isolation(false)]
fn pack_le64(data: &[u64]) -> (r: Vec<u8>)
    ensures
        r@ == packed_le64(data@),
{
    let mut out: Vec<u8> = Vec::new();
    let mut i: usize = 0;
    proof {
        assert(data@.take(0) =~= Seq::<u64>::empty());
    }
    while i < data.len()
        invariant
            i <= data.len(),
            out@ == packed_le64(data@.take(i as int)),
        decreases data.len() - i,
    {
        let v = data[i];
        let t1 = v / 256;
        let t2 = t1 / 256;
        let t3 = t2 / 256;
        let t4 = t3 / 256;
        let t5 = t4 / 256;
        let t6 = t5 / 256;
        let t7 = t6 / 256;
        out.push((v % 256) as u8);
        out.push((t1 % 256) as u8);
        out.push((t2 % 256) as u8);
        out.push((t3 % 256) as u8);
        out.push((t4 % 256) as u8);
        out.push((t5 % 256) as u8);
        out.push((t6 % 256) as u8);
        out.push((t7 % 256) as u8);
        proof {
            reveal_with_fuel(wire::le_bytes, 10);
            assert(data@.take(i as int + 1).drop_last() =~= data@.take(i as int));
            assert(out@ =~= packed_le64(data@.take(i as int)) + wire::le_bytes(
                data@[i as int] as nat,
                8,
            ));
        }
        i = i + 1;
    }
    proof {
        assert(data@.take(data@.len() as int) =~= data@);
    }
    out
}

/// Helper to encode a uint16 big-endian array (tag 65).
pub fn encode_uint16be_array(out: &mut Vec<u8>, data: &[u16]) -> (r: Result<(), Error>)
    ensures
        r is Ok,
        final(out)@ == old(out)@ + hdr(6, 65) + enc(ValueModel::Bytes(packed_be16(data@))),
{
    let bytes = pack_be16(data);
    encode_tagged_bytes(out, 65, &bytes)
}

/// Helper to encode a uint32 big-endian array (tag 66).
pub fn encode_uint32be_array(out: &mut Vec<u8>, data: &[u32]) -> (r: Result<(), Error>)
    ensures
        r is Ok,
        final(out)@ == old(out)@ + hdr(6, 66) + enc(ValueModel::Bytes(packed_be32(data@))),
{
    let bytes = pack_be32(data);
    encode_tagged_bytes(out, 66, &bytes)
}

/// Helper to encode a uint64 big-endian array (tag 67).
pub fn encode_uint64be_array(out: &mut Vec<u8>, data: &[u64]) -> (r: Result<(), Error>)
    ensures
        r is Ok,
        final(out)@ == old(out)@ + hdr(6, 67) + enc(ValueModel::Bytes(packed_be64(data@))),
{
    let bytes = pack_be64(data);
    encode_tagged_bytes(out, 67, &bytes)
}

/// Helper to encode a uint16 little-endian array (tag 69).
pub fn encode_uint16le_array(out: &mut Vec<u8>, data: &[u16]) -> (r: Result<(), Error>)
    ensures
        r is Ok,
        final(out)@ == old(out)@ + hdr(6, 69) + enc(ValueModel::Bytes(packed_le16(data@))),
{
    let bytes = pack_le16(data);
    encode_tagged_bytes(out, 69, &bytes)
}

/// Helper to encode a uint32 little-endian array (tag 70).
pub fn encode_uint32le_array(out: &mut Vec<u8>, data: &[u32]) -> (r: Result<(), Error>)
    ensures
        r is Ok,
        final(out)@ == old(out)@ + hdr(6, 70) + enc(ValueModel::Bytes(packed_le32(data@))),
{
    let bytes = pack_le32(data);
    encode_tagged_bytes(out, 70, &bytes)
}

/// Helper to encode a uint64 little-endian array (tag 71).
pub fn encode_uint64le_array(out: &mut Vec<u8>, data: &[u64]) -> (r: Result<(), Error>)
    ensures
        r is Ok,
        final(out)@ == old(out)@ + hdr(6, 71) + enc(ValueModel::Bytes(packed_le64(data@))),
{
    let bytes = pack_le64(data);
    encode_tagged_bytes(out, 71, &bytes)
}

} // verus!
