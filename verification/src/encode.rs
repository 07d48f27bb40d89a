//! The encoder: canonical CBOR bytes into an owned buffer.
//!
//! Every method appends exactly the bytes that [`crate::wire`]
//! prescribes.  Composites whose element count is known are streamed
//! directly; [`SerializeVec`] buffers the children of a composite
//! whose count is discovered only after enumerating them, and still
//! emits a definite-length header.  The indefinite-length methods are
//! an explicit, opt-in escape hatch and are never invoked implicitly.

use vstd::prelude::*;

use crate::wire;
use crate::wire::{be_bytes, enc, enc_pairs, enc_seq, hdr};
use crate::model::ValueModel;
use crate::value::{lemma_view_pairs_index, lemma_view_pairs_len, lemma_view_seq_index,
    lemma_view_seq_len, view_pairs, view_seq, Value};
use crate::Error;

verus! {

broadcast use vstd::std_specs::vec::group_vec_axioms, vstd::seq::axiom_seq_index_decreases,
    vstd::seq::axiom_seq_subrange_decreases;

/// Streams canonical CBOR into an owned byte buffer.
///
/// An encoder is created per operation and discarded after one
/// top-level value; [`Encoder::into_inner`] hands the bytes back.
/// Its view is the bytes written so far.
pub struct Encoder {
    buf: Vec<u8>,
}

impl View for Encoder {
    type V = Seq<u8>;

    closed spec fn view(&self) -> Seq<u8> {
        self.buf@
    }
}

impl Encoder {
    /// Creates an encoder with an empty output buffer.
    pub fn new() -> (r: Encoder)
        ensures
            r@ == Seq::<u8>::empty(),
    {
        Encoder { buf: Vec::new() }
    }

    /// Consume the encoder and return the bytes written.
    pub fn into_inner(self) -> (r: Vec<u8>)
        ensures
            r@ == self@,
    {
        self.buf
    }

    /// Write a minimal-width header carrying `value` under major type
    /// `major`.
    pub fn write_type_value(&mut self, major: u8, value: u64) -> (r: Result<(), Error>)
        requires
            major < 8,
        ensures
            r is Ok,
            final(self)@ == old(self)@ + hdr(major, value),
    {
        let base: u8 = major * 32;
        if value < 24 {
            self.buf.push(base + value as u8);
            proof {
                assert(final(self)@ =~= old(self)@ + hdr(major, value));
            }
        } else if value < 256 {
            self.buf.push(base + 24);
            self.buf.push(value as u8);
            proof {
                assert(final(self)@ =~= old(self)@ + hdr(major, value));
            }
        } else if value < 65536 {
            self.buf.push(base + 25);
            let t1 = value / 256;
            self.buf.push((t1 % 256) as u8);
            self.buf.push((value % 256) as u8);
            proof {
                reveal_with_fuel(be_bytes, 4);
                assert(final(self)@ =~= old(self)@ + hdr(major, value));
            }
        } else if value < 4294967296 {
            self.buf.push(base + 26);
            let t1 = value / 256;
            let t2 = t1 / 256;
            let t3 = t2 / 256;
            self.buf.push((t3 % 256) as u8);
            self.buf.push((t2 % 256) as u8);
            self.buf.push((t1 % 256) as u8);
            self.buf.push((value % 256) as u8);
            proof {
                reveal_with_fuel(be_bytes, 6);
                assert(final(self)@ =~= old(self)@ + hdr(major, value));
            }
        } else {
            self.buf.push(base + 27);
            let t1 = value / 256;
            let t2 = t1 / 256;
            let t3 = t2 / 256;
            let t4 = t3 / 256;
            let t5 = t4 / 256;
            let t6 = t5 / 256;
            let t7 = t6 / 256;
            self.buf.push((t7 % 256) as u8);
            self.buf.push((t6 % 256) as u8);
            self.buf.push((t5 % 256) as u8);
            self.buf.push((t4 % 256) as u8);
            self.buf.push((t3 % 256) as u8);
            self.buf.push((t2 % 256) as u8);
            self.buf.push((t1 % 256) as u8);
            self.buf.push((value % 256) as u8);
            proof {
                reveal_with_fuel(be_bytes, 10);
                assert(final(self)@ =~= old(self)@ + hdr(major, value));
            }
        }
        Ok(())
    }

    /// Write a tag header (major type 6) with the given tag number.
    pub fn write_tag(&mut self, tag: u64) -> (r: Result<(), Error>)
        ensures
            r is Ok,
            final(self)@ == old(self)@ + hdr(6, tag),
    {
        self.write_type_value(6, tag)
    }

    /// Start an indefinite-length array.
    pub fn write_array_indefinite(&mut self) -> (r: Result<(), Error>)
        ensures
            r is Ok,
            final(self)@ == old(self)@ + seq![0x9fu8],
    {
        self.buf.push(0x9f);
        proof {
            assert(final(self)@ =~= old(self)@ + seq![0x9fu8]);
        }
        Ok(())
    }

    /// Start an indefinite-length map.
    pub fn write_map_indefinite(&mut self) -> (r: Result<(), Error>)
        ensures
            r is Ok,
            final(self)@ == old(self)@ + seq![0xbfu8],
    {
        self.buf.push(0xbf);
        proof {
            assert(final(self)@ =~= old(self)@ + seq![0xbfu8]);
        }
        Ok(())
    }

    /// Write a break marker to end an indefinite-length collection.
    pub fn write_break(&mut self) -> (r: Result<(), Error>)
        ensures
            r is Ok,
            final(self)@ == old(self)@ + seq![wire::BREAK],
    {
        self.buf.push(0xff);
        proof {
            assert(final(self)@ =~= old(self)@ + seq![wire::BREAK]);
        }
        Ok(())
    }

    /// Write a boolean as the simple value 20 or 21.
    pub fn write_bool(&mut self, v: bool) -> (r: Result<(), Error>)
        ensures
            r is Ok,
            final(self)@ == old(self)@ + enc(ValueModel::Bool(v)),
    {
        self.buf.push(if v {
            0xf5
        } else {
            0xf4
        });
        proof {
            assert(final(self)@ =~= old(self)@ + enc(ValueModel::Bool(v)));
        }
        Ok(())
    }

    /// Write the null simple value.
    pub fn write_null(&mut self) -> (r: Result<(), Error>)
        ensures
            r is Ok,
            final(self)@ == old(self)@ + enc(ValueModel::Null),
    {
        self.buf.push(0xf6);
        proof {
            assert(final(self)@ =~= old(self)@ + enc(ValueModel::Null));
        }
        Ok(())
    }

    /// Write an unsigned integer under major type 0 with minimal
    /// width.
    pub fn write_u64(&mut self, v: u64) -> (r: Result<(), Error>)
        ensures
            r is Ok,
            final(self)@ == old(self)@ + hdr(0, v),
    {
        self.write_type_value(0, v)
    }

    /// Write a signed integer: major type 0 for `v >= 0`, else major
    /// type 1 carrying `-1 - v`.
    pub fn write_i64(&mut self, v: i64) -> (r: Result<(), Error>)
        ensures
            r is Ok,
            final(self)@ == old(self)@ + enc(ValueModel::Int(v)),
    {
        if v >= 0 {
            self.write_type_value(0, v as u64)
        } else {
            let nv = -(v + 1);
            self.write_type_value(1, nv as u64)
        }
    }

    /// Write the given bits as a 64-bit float: the simple-value header
    /// 27 followed by the bits big-endian.
    pub fn write_f64_bits(&mut self, bits: u64) -> (r: Result<(), Error>)
        ensures
            r is Ok,
            final(self)@ == old(self)@ + enc(ValueModel::Float(bits)),
    {
        self.buf.push(0xfb);
        let t1 = bits / 256;
        let t2 = t1 / 256;
        let t3 = t2 / 256;
        let t4 = t3 / 256;
        let t5 = t4 / 256;
        let t6 = t5 / 256;
        let t7 = t6 / 256;
        self.buf.push((t7 % 256) as u8);
        self.buf.push((t6 % 256) as u8);
        self.buf.push((t5 % 256) as u8);
        self.buf.push((t4 % 256) as u8);
        self.buf.push((t3 % 256) as u8);
        self.buf.push((t2 % 256) as u8);
        self.buf.push((t1 % 256) as u8);
        self.buf.push((bits % 256) as u8);
        proof {
            reveal_with_fuel(be_bytes, 10);
            assert(final(self)@ =~= old(self)@ + enc(ValueModel::Float(bits)));
        }
        Ok(())
    }

    /// Write the given bits as a 32-bit float: the simple-value header
    /// 26 followed by the bits big-endian.
    pub fn write_f32_bits(&mut self, bits: u32) -> (r: Result<(), Error>)
        ensures
            r is Ok,
            final(self)@ == old(self)@ + seq![0xfau8] + be_bytes(bits as nat, 4),
    {
        self.buf.push(0xfa);
        let t1 = bits / 256;
        let t2 = t1 / 256;
        let t3 = t2 / 256;
        self.buf.push((t3 % 256) as u8);
        self.buf.push((t2 % 256) as u8);
        self.buf.push((t1 % 256) as u8);
        self.buf.push((bits % 256) as u8);
        proof {
            reveal_with_fuel(be_bytes, 6);
            assert(final(self)@ =~= old(self)@ + seq![0xfau8] + be_bytes(bits as nat, 4));
        }
        Ok(())
    }

    /// Write a byte string: major type 2 header, then the bytes
    /// unchanged.
    pub fn write_bytes(&mut self, v: &[u8]) -> (r: Result<(), Error>)
        ensures
            r is Ok,
            final(self)@ == old(self)@ + enc(ValueModel::Bytes(v@)),
    {
        let n = v.len();
        let _ = self.write_type_value(2, n as u64);
        self.buf.extend_from_slice(v);
        proof {
            assert(final(self)@ =~= old(self)@ + enc(ValueModel::Bytes(v@)));
        }
        Ok(())
    }

    /// Write a text string: major type 3 header carrying the UTF-8
    /// byte length, then the UTF-8 bytes.
    pub fn write_text(&mut self, v: &str) -> (r: Result<(), Error>)
        ensures
            r is Ok,
            final(self)@ == old(self)@ + enc(ValueModel::Text(v@)),
    {
        let mut b = v.as_bytes_vec();
        let n = b.len();
        let _ = self.write_type_value(3, n as u64);
        self.buf.append(&mut b);
        proof {
            assert(final(self)@ =~= old(self)@ + enc(ValueModel::Text(v@)));
        }
        Ok(())
    }

    /// Encode one [`Value`]: exactly the canonical bytes of its model
    /// are appended, with a definite-length header on every composite.
    #[verifier::loop_isolation(false)]
    pub fn write_value(&mut self, value: &Value) -> (r: Result<(), Error>)
        ensures
            r is Ok,
            final(self)@ == old(self)@ + enc(value@),
        decreases value, 1int, 0int,
    {
        match value {
            Value::Null => self.write_null(),
            Value::Bool(b) => self.write_bool(*b),
            Value::Integer(i) => self.write_i64(*i),
            Value::Float(bits) => self.write_f64_bits(*bits),
            Value::Bytes(b) => self.write_bytes(b.as_slice()),
            Value::Text(t) => self.write_text(t.as_str()),
            Value::Array(a) => {
                proof {
                    lemma_view_seq_len(a@);
                }
                let _ = self.write_type_value(4, a.len() as u64);
                let ghost base = self@;
                let ghost vs = view_seq(a@);
                let mut i: usize = 0;
                proof {
                    assert(vs.take(0) =~= Seq::<ValueModel>::empty());
                }
                while i < a.len()
                    invariant
                        i <= a.len(),
                        self@ == base + enc_seq(vs.take(i as int)),
                    decreases a.len() - i,
                {
                    proof {
                        assert(decreases_to!(*a => a@));
                        assert(decreases_to!(a@ => a@[i as int]));
                        lemma_view_seq_index(a@, i as int);
                    }
                    let _ = self.write_value(&a[i]);
                    proof {
                        assert(vs.take(i as int + 1).drop_last() =~= vs.take(i as int));
                        assert(enc_seq(vs.take(i as int + 1)) == enc_seq(vs.take(i as int)) + enc(
                            vs[i as int],
                        ));
                        assert(self@ =~= base + enc_seq(vs.take(i as int + 1)));
                    }
                    i = i + 1;
                }
                proof {
                    assert(vs.take(a@.len() as int) =~= vs);
                    assert(self@ =~= old(self)@ + enc(value@));
                }
                Ok(())
            },
            Value::Mapping(m) => {
                proof {
                    lemma_view_pairs_len(m@);
                }
                let _ = self.write_type_value(5, m.len() as u64);
                let ghost base = self@;
                let ghost ps = view_pairs(m@);
                let mut i: usize = 0;
                proof {
                    assert(ps.take(0) =~= Seq::<(ValueModel, ValueModel)>::empty());
                }
                while i < m.len()
                    invariant
                        i <= m.len(),
                        self@ == base + enc_pairs(ps.take(i as int)),
                    decreases m.len() - i,
                {
                    proof {
                        assert(decreases_to!(*m => m@));
                        assert(decreases_to!(m@ => m@[i as int]));
                        lemma_view_pairs_index(m@, i as int);
                    }
                    let _ = self.write_value(&m[i].0);
                    let _ = self.write_value(&m[i].1);
                    proof {
                        assert(ps.take(i as int + 1).drop_last() =~= ps.take(i as int));
                        assert(enc_pairs(ps.take(i as int + 1)) == enc_pairs(ps.take(i as int))
                            + enc(ps[i as int].0) + enc(ps[i as int].1));
                        assert(self@ =~= base + enc_pairs(ps.take(i as int + 1)));
                    }
                    i = i + 1;
                }
                proof {
                    assert(ps.take(m@.len() as int) =~= ps);
                    assert(self@ =~= old(self)@ + enc(value@));
                }
                Ok(())
            },
            Value::Tag(n, x) => {
                let _ = self.write_type_value(6, *n);
                let _ = self.write_value(&**x);
                proof {
                    assert(self@ =~= old(self)@ + enc(value@));
                }
                Ok(())
            },
        }
    }

    /// Append already-encoded bytes unchanged.
    fn append_bytes(&mut self, bytes: &Vec<u8>) -> (r: ())
        ensures
            final(self)@ == old(self)@ + bytes@,
    {
        self.buf.extend_from_slice(bytes.as_slice());
    }

    /// Write an optional value: an absent value encodes as null, a
    /// present one as itself.
    pub fn write_optional(&mut self, value: Option<&Value>) -> (r: Result<(), Error>)
        ensures
            r is Ok,
            final(self)@ == old(self)@ + (match value {
                Some(inner) => enc(inner@),
                None => enc(ValueModel::Null),
            }),
    {
        match value {
            Some(inner) => self.write_value(inner),
            None => self.write_null(),
        }
    }

    /// Write a single-field wrapper: a 1-element array holding the
    /// inner value, keeping the distinction between a wrapper around
    /// an item and the item itself.
    pub fn write_wrapper(&mut self, value: &Value) -> (r: Result<(), Error>)
        ensures
            r is Ok,
            final(self)@ == old(self)@ + hdr(4, 1) + enc(value@),
    {
        let _ = self.write_type_value(4, 1);
        let _ = self.write_value(value);
        proof {
            assert(self@ =~= old(self)@ + hdr(4, 1) + enc(value@));
        }
        Ok(())
    }

    /// Write a unit variant: its name as a text string.
    pub fn write_unit_variant(&mut self, name: &str) -> (r: Result<(), Error>)
        ensures
            r is Ok,
            final(self)@ == old(self)@ + enc(ValueModel::Text(name@)),
    {
        self.write_text(name)
    }

    /// Begin a data-carrying variant: a single-entry mapping header
    /// and the variant name as its key.  The caller writes the
    /// payload next, as the entry's value.
    pub fn write_variant_name(&mut self, name: &str) -> (r: Result<(), Error>)
        ensures
            r is Ok,
            final(self)@ == old(self)@ + hdr(5, 1) + enc(ValueModel::Text(name@)),
    {
        let _ = self.write_type_value(5, 1);
        let _ = self.write_text(name);
        proof {
            assert(self@ =~= old(self)@ + hdr(5, 1) + enc(ValueModel::Text(name@)));
        }
        Ok(())
    }
}

/// Concatenation of a sequence of byte sequences.
pub open spec fn cat(bufs: Seq<Seq<u8>>) -> Seq<u8>
    decreases bufs.len(),
{
    if bufs.len() == 0 {
        Seq::empty()
    } else {
        cat(bufs.drop_last()) + bufs.last()
    }
}

/// Concatenation of a sequence of key-value byte sequence pairs,
/// each as key then value.
pub open spec fn cat_pairs(bufs: Seq<(Seq<u8>, Seq<u8>)>) -> Seq<u8>
    decreases bufs.len(),
{
    if bufs.len() == 0 {
        Seq::empty()
    } else {
        cat_pairs(bufs.drop_last()) + bufs.last().0 + bufs.last().1
    }
}

/// Buffers the encoded children of a composite whose element count
/// is discovered only after enumerating them.  Each child arrives as
/// its already-encoded bytes; [`SerializeVec::end`] counts the
/// children, writes a definite-length header, and flushes the
/// buffered bytes, so indefinite-length output is never produced.
pub enum SerializeVec {
    /// An array under construction.
    Array {
        /// The encoded elements, in order.
        buffer: Vec<Vec<u8>>,
    },
    /// A mapping under construction.
    Mapping {
        /// The encoded key-value pairs, in order.
        buffer: Vec<(Vec<u8>, Vec<u8>)>,
        /// A key whose value has not arrived yet.
        pending_key: Option<Vec<u8>>,
    },
}

impl SerializeVec {
    /// The buffered element encodings of an array under
    /// construction.
    pub open spec fn array_elems(&self) -> Seq<Seq<u8>> {
        match self {
            SerializeVec::Array { buffer } => buffer@.map_values(|b: Vec<u8>| b@),
            SerializeVec::Mapping { .. } => Seq::empty(),
        }
    }

    /// The buffered entry encodings of a mapping under construction.
    pub open spec fn map_entries(&self) -> Seq<(Seq<u8>, Seq<u8>)> {
        match self {
            SerializeVec::Array { .. } => Seq::empty(),
            SerializeVec::Mapping { buffer, .. } => buffer@.map_values(
                |p: (Vec<u8>, Vec<u8>)| (p.0@, p.1@),
            ),
        }
    }

    /// The key, if any, whose value has not arrived yet.
    pub open spec fn pending(&self) -> Option<Seq<u8>> {
        match self {
            SerializeVec::Array { .. } => None,
            SerializeVec::Mapping { pending_key, .. } => match pending_key {
                Some(k) => Some(k@),
                None => None,
            },
        }
    }

    /// Begin buffering an array of unknown length.
    pub fn new_array() -> (r: SerializeVec)
        ensures
            r is Array,
            r.array_elems() == Seq::<Seq<u8>>::empty(),
    {
        let r = SerializeVec::Array { buffer: Vec::new() };
        proof {
            assert(r.array_elems() =~= Seq::<Seq<u8>>::empty());
        }
        r
    }

    /// Begin buffering a mapping of unknown length.
    pub fn new_map() -> (r: SerializeVec)
        ensures
            r is Mapping,
            r.map_entries() == Seq::<(Seq<u8>, Seq<u8>)>::empty(),
            r.pending() is None,
    {
        let r = SerializeVec::Mapping { buffer: Vec::new(), pending_key: None };
        proof {
            assert(r.map_entries() =~= Seq::<(Seq<u8>, Seq<u8>)>::empty());
        }
        r
    }

    /// Buffer one encoded element of an array under construction;
    /// on a mapping this is a shape error.
    pub fn serialize_element(&mut self, bytes: Vec<u8>) -> (r: Result<(), Error>)
        ensures
            (*old(self)) is Array ==> r is Ok && (*final(self)) is Array && final(self).array_elems()
                == old(self).array_elems().push(bytes@),
            (*old(self)) is Mapping ==> r == Err::<(), Error>(Error::Unrepresentable) && *final(self)
                == *old(self),
    {
        match self {
            SerializeVec::Array { buffer } => {
                buffer.push(bytes);
                proof {
                    assert(self.array_elems() =~= old(self).array_elems().push(bytes@));
                }
                Ok(())
            },
            SerializeVec::Mapping { .. } => Err(Error::Unrepresentable),
        }
    }

    /// Buffer one encoded key of a mapping under construction; on an
    /// array this is a shape error.
    pub fn serialize_key(&mut self, bytes: Vec<u8>) -> (r: Result<(), Error>)
        ensures
            (*old(self)) is Mapping ==> r is Ok && (*final(self)) is Mapping && final(self).map_entries()
                == old(self).map_entries() && final(self).pending() == Some(bytes@),
            (*old(self)) is Array ==> r == Err::<(), Error>(Error::Unrepresentable) && *final(self)
                == *old(self),
    {
        match self {
            SerializeVec::Mapping { pending_key, .. } => {
                *pending_key = Some(bytes);
                Ok(())
            },
            SerializeVec::Array { .. } => Err(Error::Unrepresentable),
        }
    }

    /// Buffer one encoded value of a mapping under construction,
    /// pairing it with the pending key; without a pending key, or on
    /// an array, this is a shape error.
    pub fn serialize_value(&mut self, bytes: Vec<u8>) -> (r: Result<(), Error>)
        ensures
            (*old(self)) is Mapping && old(self).pending() is Some ==> r is Ok && (*final(self))
                is Mapping && final(self).map_entries() == old(self).map_entries().push(
                (old(self).pending()->0, bytes@),
            ) && final(self).pending() is None,
            (*old(self)) is Mapping && old(self).pending() is None ==> r == Err::<(), Error>(
                Error::Unrepresentable,
            ) && *final(self) == *old(self),
            (*old(self)) is Array ==> r == Err::<(), Error>(Error::Unrepresentable) && *final(self)
                == *old(self),
    {
        match self {
            SerializeVec::Mapping { buffer, pending_key } => {
                let k = match pending_key.take() {
                    Some(k) => k,
                    None => {
                        return Err(Error::Unrepresentable);
                    },
                };
                buffer.push((k, bytes));
                proof {
                    assert(self.map_entries() =~= old(self).map_entries().push(
                        (old(self).pending()->0, bytes@),
                    ));
                }
                Ok(())
            },
            SerializeVec::Array { .. } => Err(Error::Unrepresentable),
        }
    }

    /// Emit the buffered composite: a definite-length header carrying
    /// the counted children, then their bytes in order.  A mapping
    /// with a key still waiting for its value is a shape error, and
    /// nothing is written.
    #[verifier::loop_isolation(false)]
    pub fn end(self, encoder: &mut Encoder) -> (r: Result<(), Error>)
        ensures
            self is Array ==> r is Ok && final(encoder)@ == old(encoder)@ + hdr(
                4,
                self.array_elems().len() as u64,
            ) + cat(self.array_elems()),
            self is Mapping && self.pending() is None ==> r is Ok && final(encoder)@ == old(
                encoder,
            )@ + hdr(5, self.map_entries().len() as u64) + cat_pairs(self.map_entries()),
            self is Mapping && self.pending() is Some ==> r == Err::<(), Error>(
                Error::Unrepresentable,
            ) && final(encoder)@ == old(encoder)@,
    {
        match self {
            SerializeVec::Array { buffer } => {
                let ghost elems = buffer@.map_values(|b: Vec<u8>| b@);
                let _ = encoder.write_type_value(4, buffer.len() as u64);
                let ghost base = encoder@;
                let mut i: usize = 0;
                proof {
                    assert(cat(elems.take(0)) =~= Seq::<u8>::empty());
                    assert(base =~= base + cat(elems.take(0)));
                }
                while i < buffer.len()
                    invariant
                        i <= buffer.len(),
                        encoder@ == base + cat(elems.take(i as int)),
                    decreases buffer.len() - i,
                {
                    encoder.append_bytes(&buffer[i]);
                    proof {
                        assert(elems.take(i as int + 1).drop_last() =~= elems.take(i as int));
                        assert(elems.take(i as int + 1).last() == buffer@[i as int]@);
                        assert(encoder@ =~= base + cat(elems.take(i as int + 1)));
                    }
                    i = i + 1;
                }
                proof {
                    assert(elems.take(buffer@.len() as int) =~= elems);
                }
                Ok(())
            },
            SerializeVec::Mapping { buffer, pending_key } => {
                if pending_key.is_some() {
                    return Err(Error::Unrepresentable);
                }
                let ghost entries = buffer@.map_values(|p: (Vec<u8>, Vec<u8>)| (p.0@, p.1@));
                let _ = encoder.write_type_value(5, buffer.len() as u64);
                let ghost base = encoder@;
                let mut i: usize = 0;
                proof {
                    assert(cat_pairs(entries.take(0)) =~= Seq::<u8>::empty());
                    assert(base =~= base + cat_pairs(entries.take(0)));
                }
                while i < buffer.len()
                    invariant
                        i <= buffer.len(),
                        encoder@ == base + cat_pairs(entries.take(i as int)),
                    decreases buffer.len() - i,
                {
                    encoder.append_bytes(&buffer[i].0);
                    encoder.append_bytes(&buffer[i].1);
                    proof {
                        assert(entries.take(i as int + 1).drop_last() =~= entries.take(i as int));
                        assert(entries.take(i as int + 1).last() == (buffer@[i as int].0@, buffer@[
                            i as int].1@));
                        assert(encoder@ =~= base + cat_pairs(entries.take(i as int + 1)));
                    }
                    i = i + 1;
                }
                proof {
                    assert(entries.take(buffer@.len() as int) =~= entries);
                }
                Ok(())
            },
        }
    }
}

} // verus!
