//! The decoder: single-pass, pull-based reconstruction from bytes.
//!
//! A [`Decoder`] is bound to one in-memory input and consumed item by
//! item.  Every method is verified against the wire specification in
//! [`crate::wire`]: the value or error [`Decoder::read_value`]
//! returns, and the read position after a success, are exactly what
//! [`crate::wire::dec`] prescribes for the input bytes.  After an
//! error the position is deliberately unspecified: a decode aborts as
//! a whole.

use vstd::prelude::*;

use vstd::arithmetic::power2::{lemma2_to64, lemma2_to64_rest, lemma_pow2_adds,
    lemma_pow2_strictly_increases, lemma_pow2_unfold, pow2};

use crate::model::ValueModel;
use crate::value::{map_insert_pair, view_pairs, view_seq, Value};
use crate::wire;
use crate::wire::{dec, dec_chunks, dec_elems, dec_elems_indef, dec_pairs, dec_pairs_indef,
    dec_tag, dec_text_chunks, extra_len, head_val, lemma_be_val_bound, lemma_dec_bounds,
    lemma_p256_le, msb_pos, p256, widen_f32_bits};
use crate::Error;

verus! {

broadcast use vstd::std_specs::vec::group_vec_axioms, vstd::seq::axiom_seq_index_decreases,
    vstd::seq::axiom_seq_subrange_decreases;

/// Relies on `String::from_utf8`: it returns `Ok` exactly when the
/// bytes are valid UTF-8, and the string then holds their decoding.
#[verifier::external_body]
fn string_from_utf8(b: Vec<u8>) -> (r: Option<String>)
    ensures
        match r {
            Some(t) => vstd::utf8::valid_utf8(b@) && t@ == vstd::utf8::decode_utf8(b@),
            None => !vstd::utf8::valid_utf8(b@),
        },
{
    match String::from_utf8(b) {
        Ok(t) => Some(t),
        Err(_) => None,
    }
}

/// Pull-based CBOR decoder over an owned byte buffer.
pub struct Decoder {
    input: Vec<u8>,
    pos: usize,
}

impl Decoder {
    /// The bytes being decoded.
    pub closed spec fn bytes(&self) -> Seq<u8> {
        self.input@
    }

    /// The current read position.
    pub closed spec fn at(&self) -> int {
        self.pos as int
    }

    /// The position never passes the end of the input.
    pub open spec fn wf(&self) -> bool {
        self.at() <= self.bytes().len()
    }

    /// Creates a decoder positioned at the start of the given bytes.
    pub fn new(input: Vec<u8>) -> (r: Decoder)
        ensures
            r.bytes() == input@,
            r.at() == 0,
            r.wf(),
    {
        Decoder { input, pos: 0 }
    }

    /// Creates a decoder over a copy of the given byte slice.
    pub fn from_slice(input: &[u8]) -> (r: Decoder)
        ensures
            r.bytes() == input@,
            r.at() == 0,
            r.wf(),
    {
        Decoder { input: vstd::slice::slice_to_vec(input), pos: 0 }
    }

    /// Number of bytes not yet consumed.
    pub fn remaining(&self) -> (r: usize)
        requires
            self.wf(),
        ensures
            r == self.bytes().len() - self.at(),
    {
        self.input.len() - self.pos
    }

    /// Read one byte, advancing past it.
    pub fn read_u8(&mut self) -> (r: Result<u8, Error>)
        requires
            old(self).wf(),
        ensures
            final(self).bytes() == old(self).bytes(),
            final(self).wf(),
            old(self).at() < old(self).bytes().len() ==> r == Ok::<u8, Error>(
                old(self).bytes()[old(self).at()],
            ) && final(self).at() == old(self).at() + 1,
            old(self).at() >= old(self).bytes().len() ==> r == Err::<u8, Error>(Error::Eof)
                && final(self).at() == old(self).at(),
    {
        if self.pos < self.input.len() {
            let b = self.input[self.pos];
            self.pos = self.pos + 1;
            Ok(b)
        } else {
            Err(Error::Eof)
        }
    }

    /// Look at the next byte without consuming it.
    pub fn peek_u8(&self) -> (r: Result<u8, Error>)
        requires
            self.wf(),
        ensures
            self.at() < self.bytes().len() ==> r == Ok::<u8, Error>(self.bytes()[self.at()]),
            self.at() >= self.bytes().len() ==> r == Err::<u8, Error>(Error::Eof),
    {
        if self.pos < self.input.len() {
            Ok(self.input[self.pos])
        } else {
            Err(Error::Eof)
        }
    }

    /// Whether the next byte is the break marker, without consuming
    /// it.
    pub fn is_break(&self) -> (r: Result<bool, Error>)
        requires
            self.wf(),
        ensures
            self.at() < self.bytes().len() ==> r == Ok::<bool, Error>(
                self.bytes()[self.at()] == wire::BREAK,
            ),
            self.at() >= self.bytes().len() ==> r == Err::<bool, Error>(Error::Eof),
    {
        match self.peek_u8() {
            Ok(b) => Ok(b == 0xff),
            Err(e) => Err(e),
        }
    }

    /// Consume one byte, which must be the break marker.  The byte is
    /// consumed whether or not it is the break marker; at end of
    /// input nothing is consumed.
    pub fn read_break(&mut self) -> (r: Result<(), Error>)
        requires
            old(self).wf(),
        ensures
            final(self).bytes() == old(self).bytes(),
            final(self).wf(),
            old(self).at() >= old(self).bytes().len() ==> r == Err::<(), Error>(Error::Eof)
                && final(self).at() == old(self).at(),
            old(self).at() < old(self).bytes().len() ==> final(self).at() == old(self).at() + 1
                && if old(self).bytes()[old(self).at()] == wire::BREAK {
                r == Ok::<(), Error>(())
            } else {
                r == Err::<(), Error>(Error::Syntax)
            },
    {
        match self.read_u8() {
            Ok(b) => {
                if b == 0xff {
                    Ok(())
                } else {
                    Err(Error::Syntax)
                }
            },
            Err(e) => Err(e),
        }
    }

    /// Read an `nbytes`-wide big-endian unsigned integer.
    #[verifier::loop_isolation(false)]
    fn read_uint(&mut self, nbytes: usize) -> (r: Result<u64, Error>)
        requires
            old(self).wf(),
            nbytes <= 8,
        ensures
            final(self).bytes() == old(self).bytes(),
            final(self).wf(),
            old(self).at() + nbytes > old(self).bytes().len() ==> r == Err::<u64, Error>(Error::Eof)
                && final(self).at() == old(self).at(),
            old(self).at() + nbytes <= old(self).bytes().len() ==> (r matches Ok(v) && v as nat
                == wire::be_val(old(self).bytes().subrange(old(self).at(), old(self).at() + nbytes))
                && final(self).at() == old(self).at() + nbytes),
    {
        if self.input.len() - self.pos < nbytes {
            return Err(Error::Eof);
        }
        let start = self.pos;
        let mut val: u64 = 0;
        let mut i: usize = 0;
        proof {
            assert(self.bytes().subrange(start as int, start as int) =~= Seq::<u8>::empty());
        }
        while i < nbytes
            invariant
                i <= nbytes,
                self.pos == start,
                val as nat == wire::be_val(self.bytes().subrange(start as int, start + i)),
            decreases nbytes - i,
        {
            let ghost pre = self.bytes().subrange(start as int, start + i);
            proof {
                lemma_be_val_bound(pre);
                lemma_p256_le(pre.len(), 7);
                assert(p256(7) == 0x100000000000000) by {
                    reveal_with_fuel(p256, 8);
                }
            }
            let b = self.input[start + i];
            val = val * 256 + (b as u64);
            proof {
                let post = self.bytes().subrange(start as int, start + i + 1);
                assert(post.drop_last() =~= pre);
                assert(post.last() == self.bytes()[start + i]);
            }
            i = i + 1;
        }
        self.pos = start + nbytes;
        Ok(val)
    }

    /// Read the length field introduced by additional info `info`:
    /// `Some` of the carried value for a definite width, `None` for
    /// the indefinite marker 31, and a syntax error for any other
    /// code.  The extension bytes, if any, are consumed.
    pub fn read_length(&mut self, info: u8) -> (r: Result<Option<u64>, Error>)
        requires
            old(self).wf(),
        ensures
            final(self).bytes() == old(self).bytes(),
            final(self).wf(),
            info == 31 ==> r == Ok::<Option<u64>, Error>(None) && final(self).at() == old(
                self,
            ).at(),
            27 < info < 31 ==> r == Err::<Option<u64>, Error>(Error::Syntax),
            info > 31 ==> r == Err::<Option<u64>, Error>(Error::Syntax),
            info <= 27 ==> if old(self).at() + extra_len(info) > old(self).bytes().len() {
                r == Err::<Option<u64>, Error>(Error::Eof) && final(self).at() == old(self).at()
            } else {
                (r matches Ok(Some(v)) && v as nat == head_val(
                    old(self).bytes(),
                    old(self).at() - 1,
                    info,
                ) && final(self).at() == old(self).at() + extra_len(info))
            },
    {
        if info < 24 {
            Ok(Some(info as u64))
        } else if info == 24 {
            match self.read_uint(1) {
                Ok(v) => Ok(Some(v)),
                Err(e) => Err(e),
            }
        } else if info == 25 {
            match self.read_uint(2) {
                Ok(v) => Ok(Some(v)),
                Err(e) => Err(e),
            }
        } else if info == 26 {
            match self.read_uint(4) {
                Ok(v) => Ok(Some(v)),
                Err(e) => Err(e),
            }
        } else if info == 27 {
            match self.read_uint(8) {
                Ok(v) => Ok(Some(v)),
                Err(e) => Err(e),
            }
        } else if info == 31 {
            Ok(None)
        } else {
            Err(Error::Syntax)
        }
    }

    /// Read a two-byte big-endian unsigned integer.
    pub fn read_u16(&mut self) -> (r: Result<u16, Error>)
        requires
            old(self).wf(),
        ensures
            final(self).bytes() == old(self).bytes(),
            final(self).wf(),
            old(self).at() + 2 > old(self).bytes().len() ==> r == Err::<u16, Error>(Error::Eof),
            old(self).at() + 2 <= old(self).bytes().len() ==> (r matches Ok(v) && v as nat
                == wire::be_val(old(self).bytes().subrange(old(self).at(), old(self).at() + 2))
                && final(self).at() == old(self).at() + 2),
    {
        match self.read_uint(2) {
            Ok(v) => {
                proof {
                    lemma_be_val_bound(old(self).bytes().subrange(old(self).at(), old(self).at() + 2));
                    assert(p256(2) == 65536) by {
                        reveal_with_fuel(p256, 3);
                    }
                }
                Ok(v as u16)
            },
            Err(e) => Err(e),
        }
    }

    /// Read a four-byte big-endian unsigned integer.
    pub fn read_u32(&mut self) -> (r: Result<u32, Error>)
        requires
            old(self).wf(),
        ensures
            final(self).bytes() == old(self).bytes(),
            final(self).wf(),
            old(self).at() + 4 > old(self).bytes().len() ==> r == Err::<u32, Error>(Error::Eof),
            old(self).at() + 4 <= old(self).bytes().len() ==> (r matches Ok(v) && v as nat
                == wire::be_val(old(self).bytes().subrange(old(self).at(), old(self).at() + 4))
                && final(self).at() == old(self).at() + 4),
    {
        match self.read_uint(4) {
            Ok(v) => {
                proof {
                    lemma_be_val_bound(old(self).bytes().subrange(old(self).at(), old(self).at() + 4));
                    assert(p256(4) == 0x100000000) by {
                        reveal_with_fuel(p256, 5);
                    }
                }
                Ok(v as u32)
            },
            Err(e) => Err(e),
        }
    }

    /// Read an eight-byte big-endian unsigned integer.
    pub fn read_u64(&mut self) -> (r: Result<u64, Error>)
        requires
            old(self).wf(),
        ensures
            final(self).bytes() == old(self).bytes(),
            final(self).wf(),
            old(self).at() + 8 > old(self).bytes().len() ==> r == Err::<u64, Error>(Error::Eof),
            old(self).at() + 8 <= old(self).bytes().len() ==> (r matches Ok(v) && v as nat
                == wire::be_val(old(self).bytes().subrange(old(self).at(), old(self).at() + 8))
                && final(self).at() == old(self).at() + 8),
    {
        self.read_uint(8)
    }

    /// Read exactly `n` raw bytes.
    #[verifier::loop_isolation(false)]
    fn read_exact_vec(&mut self, n: u64) -> (r: Result<Vec<u8>, Error>)
        requires
            old(self).wf(),
        ensures
            final(self).bytes() == old(self).bytes(),
            final(self).wf(),
            old(self).at() + n > old(self).bytes().len() ==> r == Err::<Vec<u8>, Error>(Error::Eof)
                && final(self).at() == old(self).at(),
            old(self).at() + n <= old(self).bytes().len() ==> (r matches Ok(v) && v@ == old(
                self,
            ).bytes().subrange(old(self).at(), old(self).at() + n) && final(self).at() == old(
                self,
            ).at() + n),
    {
        if n > (self.input.len() - self.pos) as u64 {
            return Err(Error::Eof);
        }
        let nn = n as usize;
        let start = self.pos;
        let mut out: Vec<u8> = Vec::new();
        let mut i: usize = 0;
        while i < nn
            invariant
                i <= nn,
                self.pos == start,
                out@ =~= self.bytes().subrange(start as int, start + i),
            decreases nn - i,
        {
            out.push(self.input[start + i]);
            proof {
                assert(out@ =~= self.bytes().subrange(start as int, start + i + 1));
            }
            i = i + 1;
        }
        self.pos = start + nn;
        Ok(out)
    }

    /// Read a tag header (major type 6) and return its tag number,
    /// leaving the position on the tagged content.
    pub fn read_tag(&mut self) -> (r: Result<u64, Error>)
        requires
            old(self).wf(),
        ensures
            final(self).bytes() == old(self).bytes(),
            final(self).wf(),
            match dec_tag(old(self).bytes(), old(self).at()) {
                Ok((t, p)) => r == Ok::<u64, Error>(t) && final(self).at() == p,
                Err(e) => r == Err::<u64, Error>(e),
            },
    {
        let initial = match self.read_u8() {
            Ok(b) => b,
            Err(e) => {
                return Err(e);
            },
        };
        let major = initial / 32;
        let info = initial % 32;
        if major != 6 {
            return Err(Error::Syntax);
        }
        match self.read_length(info) {
            Ok(Some(tag)) => Ok(tag),
            Ok(None) => Err(Error::Syntax),
            Err(e) => Err(e),
        }
    }

    /// Read the concatenated payload of definite-length chunks of
    /// major type `major` up to a break marker.
    #[verifier::loop_isolation(false)]
    fn read_chunks(&mut self, major: u8) -> (r: Result<Vec<u8>, Error>)
        requires
            old(self).wf(),
        ensures
            final(self).bytes() == old(self).bytes(),
            final(self).wf(),
            (match dec_chunks(old(self).bytes(), old(self).at(), major) {
                Ok((b, p)) => r matches Ok(v) && v@ == b && final(self).at() == p,
                Err(e) => r == Err::<Vec<u8>, Error>(e),
            }),
    {
        let ghost s = self.bytes();
        let ghost pos0 = self.at();
        let mut out: Vec<u8> = Vec::new();
        loop
            invariant
                self.wf(),
                self.bytes() == s,
                0 <= self.at() <= s.len(),
                dec_chunks(s, pos0, major) == (match dec_chunks(s, self.at(), major) {
                    Ok((b2, p2)) => Ok::<(Seq<u8>, int), Error>((out@ + b2, p2)),
                    Err(e) => Err::<(Seq<u8>, int), Error>(e),
                }),
            decreases s.len() - self.at(),
        {
            let br = match self.is_break() {
                Ok(b) => b,
                Err(e) => {
                    return Err(e);
                },
            };
            if br {
                let _ = self.read_break();
                proof {
                    assert(out@ + Seq::<u8>::empty() =~= out@);
                }
                return Ok(out);
            }
            let initial = match self.read_u8() {
                Ok(b) => b,
                Err(e) => {
                    return Err(e);
                },
            };
            let cmaj = initial / 32;
            let cinfo = initial % 32;
            if cmaj != major {
                return Err(Error::Syntax);
            }
            let ghost c = self.at() - 1;
            let n = match self.read_length(cinfo) {
                Ok(Some(n)) => n,
                Ok(None) => {
                    return Err(Error::Syntax);
                },
                Err(e) => {
                    return Err(e);
                },
            };
            let mut chunk = match self.read_exact_vec(n) {
                Ok(chunk) => chunk,
                Err(e) => {
                    return Err(e);
                },
            };
            let ghost pre = out@;
            out.append(&mut chunk);
            proof {
                let p2 = c + 1 + extra_len(cinfo);
                assert(dec_chunks(s, c, major) == (match dec_chunks(s, p2 + n, major) {
                    Ok((rest, p3)) => Ok::<(Seq<u8>, int), Error>((s.subrange(p2, p2 + n as int)
                        + rest, p3)),
                    Err(e) => Err::<(Seq<u8>, int), Error>(e),
                }));
                match dec_chunks(s, p2 + n, major) {
                    Ok((rest, p3)) => {
                        assert(pre + (s.subrange(p2, p2 + n as int) + rest) =~= out@ + rest);
                    },
                    Err(_) => {},
                }
            }
        }
    }

    /// Read the concatenated characters of definite-length text
    /// chunks up to a break marker, validating each chunk's payload
    /// as UTF-8 on its own.
    #[verifier::loop_isolation(false)]
    fn read_text_chunks(&mut self) -> (r: Result<String, Error>)
        requires
            old(self).wf(),
        ensures
            final(self).bytes() == old(self).bytes(),
            final(self).wf(),
            (match dec_text_chunks(old(self).bytes(), old(self).at()) {
                Ok((t, p)) => r matches Ok(v) && v@ == t && final(self).at() == p,
                Err(e) => r == Err::<String, Error>(e),
            }),
    {
        let ghost s = self.bytes();
        let ghost pos0 = self.at();
        let mut out = String::new();
        loop
            invariant
                self.wf(),
                self.bytes() == s,
                0 <= self.at() <= s.len(),
                dec_text_chunks(s, pos0) == (match dec_text_chunks(s, self.at()) {
                    Ok((t2, p2)) => Ok::<(Seq<char>, int), Error>((out@ + t2, p2)),
                    Err(e) => Err::<(Seq<char>, int), Error>(e),
                }),
            decreases s.len() - self.at(),
        {
            let br = match self.is_break() {
                Ok(b) => b,
                Err(e) => {
                    return Err(e);
                },
            };
            if br {
                let _ = self.read_break();
                proof {
                    assert(out@ + Seq::<char>::empty() =~= out@);
                }
                return Ok(out);
            }
            let initial = match self.read_u8() {
                Ok(b) => b,
                Err(e) => {
                    return Err(e);
                },
            };
            let cmaj = initial / 32;
            let cinfo = initial % 32;
            if cmaj != 3 {
                return Err(Error::Syntax);
            }
            let ghost c = self.at() - 1;
            let n = match self.read_length(cinfo) {
                Ok(Some(n)) => n,
                Ok(None) => {
                    return Err(Error::Syntax);
                },
                Err(e) => {
                    return Err(e);
                },
            };
            let chunk_bytes = match self.read_exact_vec(n) {
                Ok(b) => b,
                Err(e) => {
                    return Err(e);
                },
            };
            let chunk = match string_from_utf8(chunk_bytes) {
                Some(t) => t,
                None => {
                    return Err(Error::InvalidUtf8);
                },
            };
            let ghost pre = out@;
            out.append(chunk.as_str());
            proof {
                let p2 = c + 1 + extra_len(cinfo);
                let b = s.subrange(p2, p2 + n as int);
                assert(dec_text_chunks(s, c) == (match dec_text_chunks(s, p2 + n) {
                    Ok((rest, p3)) => Ok::<(Seq<char>, int), Error>(
                        (vstd::utf8::decode_utf8(b) + rest, p3),
                    ),
                    Err(e) => Err::<(Seq<char>, int), Error>(e),
                }));
                match dec_text_chunks(s, p2 + n) {
                    Ok((rest, p3)) => {
                        assert(pre + (vstd::utf8::decode_utf8(b) + rest) =~= out@ + rest);
                    },
                    Err(_) => {},
                }
            }
        }
    }

    /// Read exactly `n` consecutive items.
    #[verifier::loop_isolation(false)]
    #[verifier::rlimit(60)]
    fn read_elems(&mut self, n: u64) -> (r: Result<Vec<Value>, Error>)
        requires
            old(self).wf(),
        ensures
            final(self).bytes() == old(self).bytes(),
            final(self).wf(),
            (match dec_elems(old(self).bytes(), old(self).at(), n as int) {
                Ok((es, p)) => r matches Ok(v) && view_seq(v@) == es && final(self).at() == p,
                Err(e) => r == Err::<Vec<Value>, Error>(e),
            }),
        decreases self.bytes().len() - self.at(), 1int, n,
    {
        let ghost s = self.bytes();
        let ghost pos0 = self.at();
        let mut elems: Vec<Value> = Vec::new();
        let mut rem: u64 = n;
        proof {
            assert(view_seq(Seq::<Value>::empty()) =~= Seq::<ValueModel>::empty());
        }
        loop
            invariant
                self.wf(),
                self.bytes() == s,
                pos0 <= self.at() <= s.len(),
                dec_elems(s, pos0, n as int) == (match dec_elems(s, self.at(), rem as int) {
                    Ok((es, p)) => Ok::<(Seq<ValueModel>, int), Error>(
                        (view_seq(elems@) + es, p),
                    ),
                    Err(e) => Err::<(Seq<ValueModel>, int), Error>(e),
                }),
            decreases rem,
        {
            if rem == 0 {
                proof {
                    assert(view_seq(elems@) + Seq::<ValueModel>::empty() =~= view_seq(elems@));
                }
                return Ok(elems);
            }
            let ghost c = self.at();
            proof {
                lemma_dec_bounds(s, c);
            }
            let v = match self.read_value() {
                Ok(v) => v,
                Err(e) => {
                    return Err(e);
                },
            };
            let ghost pre = elems@;
            elems.push(v);
            rem = rem - 1;
            proof {
                assert(elems@.drop_last() =~= pre);
                assert(view_seq(elems@) =~= view_seq(pre) + seq![v@]);
                match dec_elems(s, self.at(), rem as int) {
                    Ok((rest, p3)) => {
                        assert(view_seq(pre) + (seq![v@] + rest) =~= view_seq(elems@) + rest);
                    },
                    Err(_) => {},
                }
            }
        }
    }

    /// Read consecutive items up to a break marker, which is
    /// consumed.
    #[verifier::loop_isolation(false)]
    #[verifier::rlimit(60)]
    fn read_elems_indef(&mut self) -> (r: Result<Vec<Value>, Error>)
        requires
            old(self).wf(),
        ensures
            final(self).bytes() == old(self).bytes(),
            final(self).wf(),
            (match dec_elems_indef(old(self).bytes(), old(self).at()) {
                Ok((es, p)) => r matches Ok(v) && view_seq(v@) == es && final(self).at() == p,
                Err(e) => r == Err::<Vec<Value>, Error>(e),
            }),
        decreases self.bytes().len() - self.at(), 1int, 0int,
    {
        let ghost s = self.bytes();
        let ghost pos0 = self.at();
        let mut elems: Vec<Value> = Vec::new();
        proof {
            assert(view_seq(Seq::<Value>::empty()) =~= Seq::<ValueModel>::empty());
        }
        loop
            invariant
                self.wf(),
                self.bytes() == s,
                pos0 <= self.at() <= s.len(),
                dec_elems_indef(s, pos0) == (match dec_elems_indef(s, self.at()) {
                    Ok((es, p)) => Ok::<(Seq<ValueModel>, int), Error>(
                        (view_seq(elems@) + es, p),
                    ),
                    Err(e) => Err::<(Seq<ValueModel>, int), Error>(e),
                }),
            decreases s.len() - self.at(),
        {
            let br = match self.is_break() {
                Ok(b) => b,
                Err(e) => {
                    return Err(e);
                },
            };
            if br {
                let _ = self.read_break();
                proof {
                    assert(view_seq(elems@) + Seq::<ValueModel>::empty() =~= view_seq(elems@));
                }
                return Ok(elems);
            }
            let ghost c = self.at();
            proof {
                lemma_dec_bounds(s, c);
            }
            let v = match self.read_value() {
                Ok(v) => v,
                Err(e) => {
                    return Err(e);
                },
            };
            let ghost pre = elems@;
            elems.push(v);
            proof {
                assert(elems@.drop_last() =~= pre);
                assert(view_seq(elems@) =~= view_seq(pre) + seq![v@]);
                match dec_elems_indef(s, self.at()) {
                    Ok((rest, p3)) => {
                        assert(view_seq(pre) + (seq![v@] + rest) =~= view_seq(elems@) + rest);
                    },
                    Err(_) => {},
                }
            }
        }
    }

    /// Read exactly `n` key-value pairs into key-sorted entries; a
    /// later duplicate key replaces the earlier entry.
    #[verifier::loop_isolation(false)]
    #[verifier::rlimit(60)]
    fn read_pairs(&mut self, n: u64) -> (r: Result<Vec<(Value, Value)>, Error>)
        requires
            old(self).wf(),
        ensures
            final(self).bytes() == old(self).bytes(),
            final(self).wf(),
            (match dec_pairs(old(self).bytes(), old(self).at(), n as int) {
                Ok((ps, p)) => r matches Ok(v) && view_pairs(v@) == crate::model::map_from_pairs(
                    ps,
                ) && final(self).at() == p,
                Err(e) => r == Err::<Vec<(Value, Value)>, Error>(e),
            }),
        decreases self.bytes().len() - self.at(), 1int, n,
    {
        let ghost s = self.bytes();
        let ghost pos0 = self.at();
        let mut entries: Vec<(Value, Value)> = Vec::new();
        let mut rem: u64 = n;
        let ghost gps = Seq::<(ValueModel, ValueModel)>::empty();
        proof {
            assert(view_pairs(Seq::<(Value, Value)>::empty())
                =~= Seq::<(ValueModel, ValueModel)>::empty());
        }
        loop
            invariant
                self.wf(),
                self.bytes() == s,
                pos0 <= self.at() <= s.len(),
                view_pairs(entries@) == crate::model::map_from_pairs(gps),
                dec_pairs(s, pos0, n as int) == (match dec_pairs(s, self.at(), rem as int) {
                    Ok((ps2, p)) => Ok::<(Seq<(ValueModel, ValueModel)>, int), Error>(
                        (gps + ps2, p),
                    ),
                    Err(e) => Err::<(Seq<(ValueModel, ValueModel)>, int), Error>(e),
                }),
            decreases rem,
        {
            if rem == 0 {
                proof {
                    assert(gps + Seq::<(ValueModel, ValueModel)>::empty() =~= gps);
                }
                return Ok(entries);
            }
            let ghost c = self.at();
            proof {
                lemma_dec_bounds(s, c);
            }
            let k = match self.read_value() {
                Ok(k) => k,
                Err(e) => {
                    return Err(e);
                },
            };
            proof {
                lemma_dec_bounds(s, self.at());
            }
            let v = match self.read_value() {
                Ok(v) => v,
                Err(e) => {
                    return Err(e);
                },
            };
            let ghost gk = k@;
            let ghost gv = v@;
            map_insert_pair(&mut entries, k, v);
            rem = rem - 1;
            proof {
                let gps2 = gps + seq![(gk, gv)];
                assert(gps2.drop_last() =~= gps);
                assert(crate::model::map_from_pairs(gps2) == crate::model::map_insert(
                    crate::model::map_from_pairs(gps),
                    gk,
                    gv,
                ));
                match dec_pairs(s, self.at(), rem as int) {
                    Ok((rest, p3)) => {
                        assert(gps + (seq![(gk, gv)] + rest) =~= gps2 + rest);
                    },
                    Err(_) => {},
                }
            }
            proof {
                gps = gps + seq![(gk, gv)];
            }
        }
    }

    /// Read key-value pairs up to a break marker into key-sorted
    /// entries; a later duplicate key replaces the earlier entry.
    #[verifier::loop_isolation(false)]
    #[verifier::rlimit(60)]
    fn read_pairs_indef(&mut self) -> (r: Result<Vec<(Value, Value)>, Error>)
        requires
            old(self).wf(),
        ensures
            final(self).bytes() == old(self).bytes(),
            final(self).wf(),
            (match dec_pairs_indef(old(self).bytes(), old(self).at()) {
                Ok((ps, p)) => r matches Ok(v) && view_pairs(v@) == crate::model::map_from_pairs(
                    ps,
                ) && final(self).at() == p,
                Err(e) => r == Err::<Vec<(Value, Value)>, Error>(e),
            }),
        decreases self.bytes().len() - self.at(), 1int, 0int,
    {
        let ghost s = self.bytes();
        let ghost pos0 = self.at();
        let mut entries: Vec<(Value, Value)> = Vec::new();
        let ghost gps = Seq::<(ValueModel, ValueModel)>::empty();
        proof {
            assert(view_pairs(Seq::<(Value, Value)>::empty())
                =~= Seq::<(ValueModel, ValueModel)>::empty());
        }
        loop
            invariant
                self.wf(),
                self.bytes() == s,
                pos0 <= self.at() <= s.len(),
                view_pairs(entries@) == crate::model::map_from_pairs(gps),
                dec_pairs_indef(s, pos0) == (match dec_pairs_indef(s, self.at()) {
                    Ok((ps2, p)) => Ok::<(Seq<(ValueModel, ValueModel)>, int), Error>(
                        (gps + ps2, p),
                    ),
                    Err(e) => Err::<(Seq<(ValueModel, ValueModel)>, int), Error>(e),
                }),
            decreases s.len() - self.at(),
        {
            let br = match self.is_break() {
                Ok(b) => b,
                Err(e) => {
                    return Err(e);
                },
            };
            if br {
                let _ = self.read_break();
                proof {
                    assert(gps + Seq::<(ValueModel, ValueModel)>::empty() =~= gps);
                }
                return Ok(entries);
            }
            let ghost c = self.at();
            proof {
                lemma_dec_bounds(s, c);
            }
            let k = match self.read_value() {
                Ok(k) => k,
                Err(e) => {
                    return Err(e);
                },
            };
            proof {
                lemma_dec_bounds(s, self.at());
            }
            let v = match self.read_value() {
                Ok(v) => v,
                Err(e) => {
                    return Err(e);
                },
            };
            let ghost gk = k@;
            let ghost gv = v@;
            map_insert_pair(&mut entries, k, v);
            proof {
                let gps2 = gps + seq![(gk, gv)];
                assert(gps2.drop_last() =~= gps);
                assert(crate::model::map_from_pairs(gps2) == crate::model::map_insert(
                    crate::model::map_from_pairs(gps),
                    gk,
                    gv,
                ));
                match dec_pairs_indef(s, self.at()) {
                    Ok((rest, p3)) => {
                        assert(gps + (seq![(gk, gv)] + rest) =~= gps2 + rest);
                    },
                    Err(_) => {},
                }
            }
            proof {
                gps = gps + seq![(gk, gv)];
            }
        }
    }

    /// Decode one item, returning its dynamic representation.
    ///
    /// The result, the errors, and the position after a successful
    /// call are exactly what [`dec`] prescribes for the input bytes
    /// at the position before the call: tags pass through
    /// transparently, indefinite-length composites and chunked
    /// strings are accepted, and a malformed byte aborts the decode
    /// with the prescribed error.  After an error the read position
    /// is wherever decoding stopped, deliberately left unspecified:
    /// a decode aborts as a whole, and a decoder is not meant to be
    /// resumed past an error.
    #[verifier::loop_isolation(false)]
    #[verifier::rlimit(100)]
    pub fn read_value(&mut self) -> (r: Result<Value, Error>)
        requires
            old(self).wf(),
        ensures
            final(self).bytes() == old(self).bytes(),
            final(self).wf(),
            (match dec(old(self).bytes(), old(self).at()) {
                Ok((v, p)) => r matches Ok(rv) && rv@ == v && final(self).at() == p,
                Err(e) => r == Err::<Value, Error>(e),
            }),
        decreases self.bytes().len() - self.at(), 0int, 0int,
    {
        let ghost s = self.bytes();
        let ghost pos0 = self.at();
        let initial = match self.read_u8() {
            Ok(b) => b,
            Err(e) => {
                return Err(e);
            },
        };
        let major = initial / 32;
        let info = initial % 32;
        if major == 0 || major == 1 {
            let v = match self.read_length(info) {
                Ok(Some(v)) => v,
                Ok(None) => {
                    return Err(Error::Syntax);
                },
                Err(e) => {
                    return Err(e);
                },
            };
            if v <= 0x7fffffffffffffff {
                if major == 0 {
                    Ok(Value::Integer(v as i64))
                } else {
                    Ok(Value::Integer(-1 - (v as i64)))
                }
            } else {
                Err(Error::Syntax)
            }
        } else if major == 2 {
            if info == 31 {
                match self.read_chunks(2) {
                    Ok(b) => Ok(Value::Bytes(b)),
                    Err(e) => Err(e),
                }
            } else {
                let n = match self.read_length(info) {
                    Ok(Some(n)) => n,
                    Ok(None) => {
                        return Err(Error::Syntax);
                    },
                    Err(e) => {
                        return Err(e);
                    },
                };
                match self.read_exact_vec(n) {
                    Ok(b) => Ok(Value::Bytes(b)),
                    Err(e) => Err(e),
                }
            }
        } else if major == 3 {
            if info == 31 {
                match self.read_text_chunks() {
                    Ok(t) => Ok(Value::Text(t)),
                    Err(e) => Err(e),
                }
            } else {
                let n = match self.read_length(info) {
                    Ok(Some(n)) => n,
                    Ok(None) => {
                        return Err(Error::Syntax);
                    },
                    Err(e) => {
                        return Err(e);
                    },
                };
                let b = match self.read_exact_vec(n) {
                    Ok(b) => b,
                    Err(e) => {
                        return Err(e);
                    },
                };
                match string_from_utf8(b) {
                    Some(t) => Ok(Value::Text(t)),
                    None => Err(Error::InvalidUtf8),
                }
            }
        } else if major == 4 {
            if info == 31 {
                match self.read_elems_indef() {
                    Ok(v) => Ok(Value::Array(v)),
                    Err(e) => Err(e),
                }
            } else {
                let n = match self.read_length(info) {
                    Ok(Some(n)) => n,
                    Ok(None) => {
                        return Err(Error::Syntax);
                    },
                    Err(e) => {
                        return Err(e);
                    },
                };
                match self.read_elems(n) {
                    Ok(v) => Ok(Value::Array(v)),
                    Err(e) => Err(e),
                }
            }
        } else if major == 5 {
            if info == 31 {
                match self.read_pairs_indef() {
                    Ok(v) => Ok(Value::Mapping(v)),
                    Err(e) => Err(e),
                }
            } else {
                let n = match self.read_length(info) {
                    Ok(Some(n)) => n,
                    Ok(None) => {
                        return Err(Error::Syntax);
                    },
                    Err(e) => {
                        return Err(e);
                    },
                };
                match self.read_pairs(n) {
                    Ok(v) => Ok(Value::Mapping(v)),
                    Err(e) => Err(e),
                }
            }
        } else if major == 6 {
            match self.read_length(info) {
                Ok(Some(_tag)) => self.read_value(),
                Ok(None) => Err(Error::Syntax),
                Err(e) => Err(e),
            }
        } else {
            if info == 20 {
                Ok(Value::Bool(false))
            } else if info == 21 {
                Ok(Value::Bool(true))
            } else if info == 22 {
                Ok(Value::Null)
            } else if info == 26 {
                match self.read_u32() {
                    Ok(b) => {
                        proof {
                            lemma_be_val_bound(s.subrange(pos0 + 1, pos0 + 5));
                            assert(p256(4) == 0x100000000) by {
                                reveal_with_fuel(p256, 5);
                            }
                        }
                        Ok(Value::Float(widen_f32_bits_exec(b)))
                    },
                    Err(e) => Err(e),
                }
            } else if info == 27 {
                match self.read_u64() {
                    Ok(b) => {
                        proof {
                            lemma_be_val_bound(s.subrange(pos0 + 1, pos0 + 9));
                            assert(p256(8) == 0x10000000000000000) by {
                                reveal_with_fuel(p256, 9);
                            }
                        }
                        Ok(Value::Float(b))
                    },
                    Err(e) => Err(e),
                }
            } else {
                Err(Error::Syntax)
            }
        }
    }
}

impl Decoder {
    /// Decode an optional item: the canonical null encoding yields
    /// `None`; anything else decodes as the present item.
    pub fn read_optional(&mut self) -> (r: Result<Option<Value>, Error>)
        requires
            old(self).wf(),
        ensures
            final(self).bytes() == old(self).bytes(),
            final(self).wf(),
            (match wire::dec_optional(old(self).bytes(), old(self).at()) {
                Ok((v, p)) => (match v {
                    Some(inner) => r matches Ok(Some(rv)) && rv@ == inner,
                    None => r == Ok::<Option<Value>, Error>(None),
                }) && final(self).at() == p,
                Err(e) => r == Err::<Option<Value>, Error>(e),
            }),
    {
        let b = match self.peek_u8() {
            Ok(b) => b,
            Err(e) => {
                return Err(e);
            },
        };
        if b == 0xf6 {
            let _ = self.read_u8();
            Ok(None)
        } else {
            match self.read_value() {
                Ok(v) => Ok(Some(v)),
                Err(e) => Err(e),
            }
        }
    }

    /// Decode a single-field wrapper: either a 1-element array
    /// holding the inner value (canonical form) or the bare inner
    /// value (legacy form); a wrapping array of any other length is
    /// an error.
    pub fn read_wrapper(&mut self) -> (r: Result<Value, Error>)
        requires
            old(self).wf(),
        ensures
            final(self).bytes() == old(self).bytes(),
            final(self).wf(),
            (match wire::dec_wrapper(old(self).bytes(), old(self).at()) {
                Ok((v, p)) => r matches Ok(rv) && rv@ == v && final(self).at() == p,
                Err(e) => r == Err::<Value, Error>(e),
            }),
    {
        let b = match self.peek_u8() {
            Ok(b) => b,
            Err(e) => {
                return Err(e);
            },
        };
        if b / 32 == 4 {
            let initial = match self.read_u8() {
                Ok(b) => b,
                Err(e) => {
                    return Err(e);
                },
            };
            let info = initial % 32;
            match self.read_length(info) {
                Ok(Some(n)) => {
                    if n == 1 {
                        self.read_value()
                    } else {
                        Err(Error::Syntax)
                    }
                },
                Ok(None) => Err(Error::Syntax),
                Err(e) => Err(e),
            }
        } else {
            self.read_value()
        }
    }

    /// Decode an enumerated variant: a text string yields a unit
    /// variant's name, a single-entry mapping yields a data-carrying
    /// variant's name and payload, and any other shape is an error.
    pub fn read_variant(&mut self) -> (r: Result<(String, Option<Value>), Error>)
        requires
            old(self).wf(),
        ensures
            final(self).bytes() == old(self).bytes(),
            final(self).wf(),
            (match wire::dec_variant(old(self).bytes(), old(self).at()) {
                Ok(((name, data), p)) => (r matches Ok(rv) && rv.0@ == name && (match data {
                    Some(inner) => rv.1 matches Some(d) && d@ == inner,
                    None => rv.1 is None,
                }) && final(self).at() == p),
                Err(e) => r matches Err(re) && re == e,
            }),
    {
        let b = match self.peek_u8() {
            Ok(b) => b,
            Err(e) => {
                return Err(e);
            },
        };
        let major = b / 32;
        if major == 3 {
            let initial = match self.read_u8() {
                Ok(b) => b,
                Err(e) => {
                    return Err(e);
                },
            };
            let info = initial % 32;
            if info == 31 {
                return Err(Error::Syntax);
            }
            let n = match self.read_length(info) {
                Ok(Some(n)) => n,
                Ok(None) => {
                    return Err(Error::Syntax);
                },
                Err(e) => {
                    return Err(e);
                },
            };
            let bytes = match self.read_exact_vec(n) {
                Ok(v) => v,
                Err(e) => {
                    return Err(e);
                },
            };
            match string_from_utf8(bytes) {
                Some(name) => Ok((name, None)),
                None => Err(Error::InvalidUtf8),
            }
        } else if major == 5 {
            let initial = match self.read_u8() {
                Ok(b) => b,
                Err(e) => {
                    return Err(e);
                },
            };
            let info = initial % 32;
            let n = match self.read_length(info) {
                Ok(Some(n)) => n,
                Ok(None) => {
                    return Err(Error::Syntax);
                },
                Err(e) => {
                    return Err(e);
                },
            };
            if n != 1 {
                return Err(Error::Syntax);
            }
            let key = match self.read_value() {
                Ok(k) => k,
                Err(e) => {
                    return Err(e);
                },
            };
            let name = match key {
                Value::Text(name) => name,
                _ => {
                    return Err(Error::Syntax);
                },
            };
            match self.read_value() {
                Ok(v) => Ok((name, Some(v))),
                Err(e) => Err(e),
            }
        } else {
            Err(Error::Syntax)
        }
    }
}

/// Position of the highest set bit of a positive value, computed by
/// repeated halving.
fn msb_pos_exec(f: u64) -> (r: u64)
    requires
        f >= 1,
    ensures
        r as nat == msb_pos(f as nat),
        r <= 63,
    decreases f,
{
    proof {
        lemma_msb_pos_le(f as nat);
    }
    let mut m: u64 = 0;
    let mut t: u64 = f;
    while t > 1
        invariant
            t >= 1,
            msb_pos(f as nat) == m + msb_pos(t as nat),
            msb_pos(f as nat) <= 63,
        decreases t,
    {
        t = t / 2;
        m = m + 1;
    }
    m
}

/// The highest-bit position of a 64-bit value is below 64.
proof fn lemma_msb_pos_le(f: nat)
    requires
        f < 0x10000000000000000,
    ensures
        msb_pos(f) <= 63,
{
    assert(pow2(64) == 0x10000000000000000) by {
        lemma2_to64_rest();
    }
    lemma_msb_pos_bound(f, 63);
}

/// `msb_pos` is bounded by any exponent whose power covers the value.
proof fn lemma_msb_pos_bound(f: nat, k: nat)
    requires
        f < pow2(k + 1),
    ensures
        msb_pos(f) <= k,
    decreases f,
{
    if f > 1 {
        if k == 0 {
            assert(pow2(1) == 2) by {
                lemma2_to64();
            }
        } else {
            lemma_pow2_unfold(k + 1);
            lemma_msb_pos_bound(f / 2, (k - 1) as nat);
        }
    }
}

/// The power at the highest-bit position brackets the value.
proof fn lemma_msb_pos_bracket(f: nat)
    requires
        f >= 1,
    ensures
        pow2(msb_pos(f)) <= f < 2 * pow2(msb_pos(f)),
    decreases f,
{
    if f <= 1 {
        assert(pow2(0) == 1) by {
            lemma2_to64();
        }
    } else {
        lemma_msb_pos_bracket(f / 2);
        lemma_pow2_unfold(msb_pos(f) as nat);
    }
}

/// The power of two, as a 64-bit value.
fn pow2_u64(n: u64) -> (r: u64)
    requires
        n <= 63,
    ensures
        r as nat == pow2(n as nat),
{
    let mut p: u64 = 1;
    let mut i: u64 = 0;
    proof {
        assert(pow2(0) == 1) by {
            lemma2_to64();
        }
    }
    while i < n
        invariant
            i <= n,
            n <= 63,
            p as nat == pow2(i as nat),
        decreases n - i,
    {
        proof {
            lemma_pow2_unfold(i as nat + 1);
            lemma_pow2_strictly_increases(i as nat, 63);
            assert(pow2(63) == 0x8000000000000000) by {
                lemma2_to64_rest();
            }
        }
        p = p * 2;
        i = i + 1;
    }
    p
}

/// Widen an IEEE-754 binary32 bit pattern to the binary64 bit pattern
/// of the same value.
pub fn widen_f32_bits_exec(b: u32) -> (r: u64)
    ensures
        r == widen_f32_bits(b),
{
    let s: u64 = (b / 0x80000000) as u64;
    let e: u64 = ((b / 0x800000) % 256) as u64;
    let f: u64 = (b % 0x800000) as u64;
    if e == 255 {
        s * 0x8000000000000000 + 0x7ff0000000000000 + f * 0x20000000
    } else if e > 0 {
        s * 0x8000000000000000 + (e + 896) * 0x10000000000000 + f * 0x20000000
    } else if f == 0 {
        s * 0x8000000000000000
    } else {
        let m = msb_pos_exec(f);
        proof {
            lemma_msb_pos_bracket(f as nat);
            assert(pow2(23) == 0x800000) by {
                lemma2_to64();
            }
            lemma_msb_pos_bound(f as nat, 22);
        }
        let pl = pow2_u64(m);
        let ph = pow2_u64(52 - m);
        proof {
            lemma_pow2_adds(m as nat, (52 - m) as nat);
            assert(pow2(52) == 0x10000000000000) by {
                lemma2_to64_rest();
            }
            let fa = f as int;
            let pla = pl as int;
            let pha = ph as int;
            assert(pla * pha == 0x10000000000000);
            assert((fa - pla) * pha < 0x10000000000000) by (nonlinear_arith)
                requires
                    0 <= fa - pla,
                    fa - pla < pla,
                    pla * pha == 0x10000000000000,
                    pha >= 0;
        }
        s * 0x8000000000000000 + (m + 874) * 0x10000000000000 + (f - pl) * ph
    }
}

} // verus!
