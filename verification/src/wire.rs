//! Byte-level specification of the wire format.
//!
//! [`enc`] gives the canonical bytes of a [`ValueModel`]: every
//! composite carries a definite-length header and every header uses the
//! minimal width for its value.  [`dec`] gives the meaning of an
//! arbitrary byte sequence from a position: the item found there and
//! the position after it, or the error that decoding it must raise.
//! [`dec`] also accepts the indefinite-length framings, which [`enc`]
//! never produces.
//!
//! The executable [`crate::Encoder`] and [`crate::Decoder`] are
//! verified against these two functions.

use vstd::prelude::*;

use crate::model::{ValueModel, map_from_pairs};
use crate::Error;

verus! {

broadcast use vstd::seq::axiom_seq_index_decreases, vstd::seq::axiom_seq_subrange_decreases;

/// The break marker ending an indefinite-length composite.
pub const BREAK: u8 = 0xff;

/// Value of a big-endian byte sequence.
pub open spec fn be_val(b: Seq<u8>) -> nat
    decreases b.len(),
{
    if b.len() == 0 {
        0
    } else {
        be_val(b.drop_last()) * 256 + b.last() as nat
    }
}

/// The `n`-byte big-endian encoding of `v` (mod 256^n).
pub open spec fn be_bytes(v: nat, n: nat) -> Seq<u8>
    decreases n,
{
    if n == 0 {
        Seq::empty()
    } else {
        be_bytes(v / 256, (n - 1) as nat) + seq![(v % 256) as u8]
    }
}

/// The initial byte of an item: 3-bit major type, 5-bit additional
/// info.
pub open spec fn initial_byte(major: u8, info: u8) -> u8 {
    (major * 32 + info) as u8
}

/// Minimal-width header carrying `v` under major type `major`: the
/// value is embedded if below 24, else a 1-, 2-, 4- or 8-byte
/// big-endian extension follows, chosen by magnitude.
pub open spec fn hdr(major: u8, v: u64) -> Seq<u8> {
    if v < 24 {
        seq![initial_byte(major, v as u8)]
    } else if v < 256 {
        seq![initial_byte(major, 24), v as u8]
    } else if v < 65536 {
        seq![initial_byte(major, 25)] + be_bytes(v as nat, 2)
    } else if v < 4294967296 {
        seq![initial_byte(major, 26)] + be_bytes(v as nat, 4)
    } else {
        seq![initial_byte(major, 27)] + be_bytes(v as nat, 8)
    }
}

/// Canonical encoding of a model value.
pub open spec fn enc(v: ValueModel) -> Seq<u8>
    decreases v, 1int, 0int,
{
    match v {
        ValueModel::Null => seq![0xf6u8],
        ValueModel::Bool(b) => if b {
            seq![0xf5u8]
        } else {
            seq![0xf4u8]
        },
        ValueModel::Int(i) => if i >= 0 {
            hdr(0, i as u64)
        } else {
            hdr(1, (-1 - i as int) as u64)
        },
        ValueModel::Float(bits) => seq![0xfbu8] + be_bytes(bits as nat, 8),
        ValueModel::Bytes(b) => hdr(2, b.len() as u64) + b,
        ValueModel::Text(t) => hdr(3, vstd::utf8::encode_utf8(t).len() as u64)
            + vstd::utf8::encode_utf8(t),
        ValueModel::Array(a) => hdr(4, a.len() as u64) + enc_seq(a),
        ValueModel::Mapping(m) => hdr(5, m.len() as u64) + enc_pairs(m),
        ValueModel::Tag(n, x) => hdr(6, n) + enc(*x),
    }
}

/// Concatenated encodings of the elements of a sequence.
pub open spec fn enc_seq(a: Seq<ValueModel>) -> Seq<u8>
    decreases a, 0int, a.len(),
{
    if a.len() == 0 {
        Seq::empty()
    } else {
        enc_seq(a.drop_last()) + enc(a.last())
    }
}

/// Concatenated encodings of the entries of a mapping, each as key
/// then value.
pub open spec fn enc_pairs(m: Seq<(ValueModel, ValueModel)>) -> Seq<u8>
    decreases m, 0int, m.len(),
{
    if m.len() == 0 {
        Seq::empty()
    } else {
        enc_pairs(m.drop_last()) + enc(m.last().0) + enc(m.last().1)
    }
}

/// Number of extension bytes following the initial byte for additional
/// info `info` (meaningful for `info <= 27`).
pub open spec fn extra_len(info: u8) -> int {
    if info < 24 {
        0
    } else if info == 24 {
        1
    } else if info == 25 {
        2
    } else if info == 26 {
        4
    } else {
        8
    }
}

/// The value carried by a definite-length header whose initial byte
/// stands at `pos` with additional info `info`.
pub open spec fn head_val(s: Seq<u8>, pos: int, info: u8) -> nat {
    if info < 24 {
        info as nat
    } else {
        be_val(s.subrange(pos + 1, pos + 1 + extra_len(info)))
    }
}

/// Position of the highest set bit of `f` (0 for `f <= 1`).
pub open spec fn msb_pos(f: nat) -> nat
    decreases f,
{
    if f <= 1 {
        0
    } else {
        1 + msb_pos(f / 2)
    }
}

/// Widening of an IEEE-754 binary32 bit pattern to the binary64 bit
/// pattern of the same value: the exponent is rebiased, the fraction
/// shifted, subnormals normalized, and an infinity or NaN keeps its
/// class (and a NaN its payload bits).
pub open spec fn widen_f32_bits(b: u32) -> u64 {
    let s = (b as nat) / 0x80000000;
    let e = ((b as nat) / 0x800000) % 256;
    let f = (b as nat) % 0x800000;
    if e == 255 {
        (s * 0x8000000000000000 + 0x7ff0000000000000 + f * 0x20000000) as u64
    } else if e > 0 {
        (s * 0x8000000000000000 + (e + 896) * 0x10000000000000 + f * 0x20000000) as u64
    } else if f == 0 {
        (s * 0x8000000000000000) as u64
    } else {
        let m = msb_pos(f);
        (s * 0x8000000000000000 + (m + 874) * 0x10000000000000 + (f - vstd::arithmetic::power2::pow2(m))
            * vstd::arithmetic::power2::pow2((52 - m) as nat)) as u64
    }
}

/// Meaning of the bytes of `s` from position `pos` as one item: the
/// decoded value and the position after it, or the error that decoding
/// must raise.  A tag header is consumed and its content decoded as if
/// untagged; an unsigned or negative integer beyond the signed 64-bit
/// range, an invalid header code, a break outside an indefinite-length
/// composite, and an unknown simple value are syntax errors; running
/// out of bytes anywhere is `Eof`.  Each text string, and each chunk
/// of an indefinite-length text string on its own, must be
/// well-formed UTF-8, else `InvalidUtf8`.
pub open spec fn dec(s: Seq<u8>, pos: int) -> Result<(ValueModel, int), Error>
    decreases s.len() - pos, 0int, 0int,
{
    if pos < 0 || pos >= s.len() {
        Err(Error::Eof)
    } else {
        let ib = s[pos];
        let major = ib / 32;
        let info = ib % 32;
        let p2 = pos + 1 + extra_len(info);
        if major == 0 || major == 1 {
            if info > 27 {
                Err(Error::Syntax)
            } else if p2 > s.len() {
                Err(Error::Eof)
            } else {
                let v = head_val(s, pos, info);
                if v > i64::MAX as nat {
                    Err(Error::Syntax)
                } else if major == 0 {
                    Ok((ValueModel::Int(v as i64), p2))
                } else {
                    Ok((ValueModel::Int((-1 - v as int) as i64), p2))
                }
            }
        } else if major == 2 {
            if info == 31 {
                match dec_chunks(s, pos + 1, 2) {
                    Err(e) => Err(e),
                    Ok((b, p)) => Ok((ValueModel::Bytes(b), p)),
                }
            } else if info > 27 {
                Err(Error::Syntax)
            } else if p2 > s.len() {
                Err(Error::Eof)
            } else {
                let n = head_val(s, pos, info);
                if p2 + n > s.len() {
                    Err(Error::Eof)
                } else {
                    Ok((ValueModel::Bytes(s.subrange(p2, p2 + n)), p2 + n))
                }
            }
        } else if major == 3 {
            if info == 31 {
                match dec_text_chunks(s, pos + 1) {
                    Err(e) => Err(e),
                    Ok((t, p)) => Ok((ValueModel::Text(t), p)),
                }
            } else if info > 27 {
                Err(Error::Syntax)
            } else if p2 > s.len() {
                Err(Error::Eof)
            } else {
                let n = head_val(s, pos, info);
                if p2 + n > s.len() {
                    Err(Error::Eof)
                } else {
                    let b = s.subrange(p2, p2 + n);
                    if vstd::utf8::valid_utf8(b) {
                        Ok((ValueModel::Text(vstd::utf8::decode_utf8(b)), p2 + n))
                    } else {
                        Err(Error::InvalidUtf8)
                    }
                }
            }
        } else if major == 4 {
            if info == 31 {
                match dec_elems_indef(s, pos + 1) {
                    Err(e) => Err(e),
                    Ok((es, p)) => Ok((ValueModel::Array(es), p)),
                }
            } else if info > 27 {
                Err(Error::Syntax)
            } else if p2 > s.len() {
                Err(Error::Eof)
            } else {
                match dec_elems(s, p2, head_val(s, pos, info) as int) {
                    Err(e) => Err(e),
                    Ok((es, p)) => Ok((ValueModel::Array(es), p)),
                }
            }
        } else if major == 5 {
            if info == 31 {
                match dec_pairs_indef(s, pos + 1) {
                    Err(e) => Err(e),
                    Ok((ps, p)) => Ok((ValueModel::Mapping(map_from_pairs(ps)), p)),
                }
            } else if info > 27 {
                Err(Error::Syntax)
            } else if p2 > s.len() {
                Err(Error::Eof)
            } else {
                match dec_pairs(s, p2, head_val(s, pos, info) as int) {
                    Err(e) => Err(e),
                    Ok((ps, p)) => Ok((ValueModel::Mapping(map_from_pairs(ps)), p)),
                }
            }
        } else if major == 6 {
            if info > 27 {
                Err(Error::Syntax)
            } else if p2 > s.len() {
                Err(Error::Eof)
            } else {
                dec(s, p2)
            }
        } else {
            if info == 20 {
                Ok((ValueModel::Bool(false), pos + 1))
            } else if info == 21 {
                Ok((ValueModel::Bool(true), pos + 1))
            } else if info == 22 {
                Ok((ValueModel::Null, pos + 1))
            } else if info == 26 {
                if pos + 5 > s.len() {
                    Err(Error::Eof)
                } else {
                    Ok((
                        ValueModel::Float(widen_f32_bits(be_val(s.subrange(pos + 1, pos + 5)) as u32)),
                        pos + 5,
                    ))
                }
            } else if info == 27 {
                if pos + 9 > s.len() {
                    Err(Error::Eof)
                } else {
                    Ok((ValueModel::Float(be_val(s.subrange(pos + 1, pos + 9)) as u64), pos + 9))
                }
            } else {
                Err(Error::Syntax)
            }
        }
    }
}

/// The concatenated characters of definite-length text chunks from
/// position `pos` up to a break marker, which is consumed.  Each
/// chunk's payload must be well-formed UTF-8 on its own; a chunk of
/// another major type, or an indefinite-length chunk, is a syntax
/// error.
pub open spec fn dec_text_chunks(s: Seq<u8>, pos: int) -> Result<(Seq<char>, int), Error>
    decreases s.len() - pos, 0int, 0int,
{
    if pos < 0 || pos >= s.len() {
        Err(Error::Eof)
    } else if s[pos] == BREAK {
        Ok((Seq::empty(), pos + 1))
    } else {
        let ib = s[pos];
        let info = ib % 32;
        if ib / 32 != 3 {
            Err(Error::Syntax)
        } else if info > 27 {
            Err(Error::Syntax)
        } else {
            let p2 = pos + 1 + extra_len(info);
            if p2 > s.len() {
                Err(Error::Eof)
            } else {
                let n = head_val(s, pos, info);
                if p2 + n > s.len() {
                    Err(Error::Eof)
                } else {
                    let b = s.subrange(p2, p2 + n);
                    if !vstd::utf8::valid_utf8(b) {
                        Err(Error::InvalidUtf8)
                    } else {
                        match dec_text_chunks(s, p2 + n) {
                            Err(e) => Err(e),
                            Ok((rest, p3)) => Ok((vstd::utf8::decode_utf8(b) + rest, p3)),
                        }
                    }
                }
            }
        }
    }
}

/// Meaning of the bytes of `s` from position `pos` as a tag header:
/// the tag number and the position of the tagged content.  Anything
/// but a definite-length header of major type 6 is an error.
pub open spec fn dec_tag(s: Seq<u8>, pos: int) -> Result<(u64, int), Error> {
    if pos < 0 || pos >= s.len() {
        Err(Error::Eof)
    } else {
        let ib = s[pos];
        let info = ib % 32;
        if ib / 32 != 6 {
            Err(Error::Syntax)
        } else if info > 27 {
            Err(Error::Syntax)
        } else if pos + 1 + extra_len(info) > s.len() {
            Err(Error::Eof)
        } else {
            Ok((head_val(s, pos, info) as u64, pos + 1 + extra_len(info)))
        }
    }
}

/// Exactly `n` consecutive items from position `pos`.
pub open spec fn dec_elems(s: Seq<u8>, pos: int, n: int) -> Result<(Seq<ValueModel>, int), Error>
    decreases s.len() - pos, 1int, n,
{
    if n <= 0 {
        Ok((Seq::empty(), pos))
    } else {
        match dec(s, pos) {
            Err(e) => Err(e),
            Ok((v, p)) => if !(pos < p <= s.len()) {
                Err(Error::Syntax)
            } else {
                match dec_elems(s, p, n - 1) {
                    Err(e) => Err(e),
                    Ok((rest, p2)) => Ok((seq![v] + rest, p2)),
                }
            },
        }
    }
}

/// Consecutive items from position `pos` up to a break marker, which
/// is consumed.
pub open spec fn dec_elems_indef(s: Seq<u8>, pos: int) -> Result<(Seq<ValueModel>, int), Error>
    decreases s.len() - pos, 1int, 0int,
{
    if pos < 0 || pos >= s.len() {
        Err(Error::Eof)
    } else if s[pos] == BREAK {
        Ok((Seq::empty(), pos + 1))
    } else {
        match dec(s, pos) {
            Err(e) => Err(e),
            Ok((v, p)) => if !(pos < p <= s.len()) {
                Err(Error::Syntax)
            } else {
                match dec_elems_indef(s, p) {
                    Err(e) => Err(e),
                    Ok((rest, p2)) => Ok((seq![v] + rest, p2)),
                }
            },
        }
    }
}

/// Exactly `n` consecutive key-value pairs from position `pos`, in
/// wire order.
pub open spec fn dec_pairs(s: Seq<u8>, pos: int, n: int) -> Result<
    (Seq<(ValueModel, ValueModel)>, int),
    Error,
>
    decreases s.len() - pos, 1int, n,
{
    if n <= 0 {
        Ok((Seq::empty(), pos))
    } else {
        match dec(s, pos) {
            Err(e) => Err(e),
            Ok((k, p1)) => if !(pos < p1 <= s.len()) {
                Err(Error::Syntax)
            } else {
                match dec(s, p1) {
                    Err(e) => Err(e),
                    Ok((v, p2)) => if !(p1 < p2 <= s.len()) {
                        Err(Error::Syntax)
                    } else {
                        match dec_pairs(s, p2, n - 1) {
                            Err(e) => Err(e),
                            Ok((rest, p3)) => Ok((seq![(k, v)] + rest, p3)),
                        }
                    },
                }
            },
        }
    }
}

/// Consecutive key-value pairs from position `pos` up to a break
/// marker, which is consumed.
pub open spec fn dec_pairs_indef(s: Seq<u8>, pos: int) -> Result<
    (Seq<(ValueModel, ValueModel)>, int),
    Error,
>
    decreases s.len() - pos, 1int, 0int,
{
    if pos < 0 || pos >= s.len() {
        Err(Error::Eof)
    } else if s[pos] == BREAK {
        Ok((Seq::empty(), pos + 1))
    } else {
        match dec(s, pos) {
            Err(e) => Err(e),
            Ok((k, p1)) => if !(pos < p1 <= s.len()) {
                Err(Error::Syntax)
            } else {
                match dec(s, p1) {
                    Err(e) => Err(e),
                    Ok((v, p2)) => if !(p1 < p2 <= s.len()) {
                        Err(Error::Syntax)
                    } else {
                        match dec_pairs_indef(s, p2) {
                            Err(e) => Err(e),
                            Ok((rest, p3)) => Ok((seq![(k, v)] + rest, p3)),
                        }
                    },
                }
            },
        }
    }
}

/// The concatenated payload of definite-length chunks of major type
/// `major` from position `pos` up to a break marker, which is
/// consumed.  A chunk of another major type, or an indefinite-length
/// chunk, is a syntax error.
pub open spec fn dec_chunks(s: Seq<u8>, pos: int, major: u8) -> Result<(Seq<u8>, int), Error>
    decreases s.len() - pos, 0int, 0int,
{
    if pos < 0 || pos >= s.len() {
        Err(Error::Eof)
    } else if s[pos] == BREAK {
        Ok((Seq::empty(), pos + 1))
    } else {
        let ib = s[pos];
        let info = ib % 32;
        if ib / 32 != major {
            Err(Error::Syntax)
        } else if info > 27 {
            Err(Error::Syntax)
        } else {
            let p2 = pos + 1 + extra_len(info);
            if p2 > s.len() {
                Err(Error::Eof)
            } else {
                let n = head_val(s, pos, info);
                if p2 + n > s.len() {
                    Err(Error::Eof)
                } else {
                    match dec_chunks(s, p2 + n, major) {
                        Err(e) => Err(e),
                        Ok((rest, p3)) => Ok((s.subrange(p2, p2 + n) + rest, p3)),
                    }
                }
            }
        }
    }
}

/// Reading text chunks up to a break moves the position forward and
/// stays inside the input.
pub proof fn lemma_dec_text_chunks_bounds(s: Seq<u8>, pos: int)
    ensures
        dec_text_chunks(s, pos) matches Ok((t, p)) ==> pos < p <= s.len(),
    decreases s.len() - pos, 0int, 0int,
{
    if 0 <= pos < s.len() && s[pos] != BREAK {
        let ib = s[pos];
        let info = ib % 32;
        if ib / 32 == 3 && info <= 27 {
            let p2 = pos + 1 + extra_len(info);
            if p2 <= s.len() {
                let n = head_val(s, pos, info);
                if p2 + n <= s.len() {
                    lemma_dec_text_chunks_bounds(s, p2 + n);
                }
            }
        }
    }
}

/// The `n`-byte little-endian encoding of `v` (mod 256^n).
pub open spec fn le_bytes(v: nat, n: nat) -> Seq<u8>
    decreases n,
{
    if n == 0 {
        Seq::empty()
    } else {
        seq![(v % 256) as u8] + le_bytes(v / 256, (n - 1) as nat)
    }
}

/// The packed big-endian bytes of a 16-bit element sequence.
pub open spec fn packed_be16(s: Seq<u16>) -> Seq<u8>
    decreases s.len(),
{
    if s.len() == 0 {
        Seq::empty()
    } else {
        packed_be16(s.drop_last()) + be_bytes(s.last() as nat, 2)
    }
}

/// The packed big-endian bytes of a 32-bit element sequence.
pub open spec fn packed_be32(s: Seq<u32>) -> Seq<u8>
    decreases s.len(),
{
    if s.len() == 0 {
        Seq::empty()
    } else {
        packed_be32(s.drop_last()) + be_bytes(s.last() as nat, 4)
    }
}

/// The packed big-endian bytes of a 64-bit element sequence.
pub open spec fn packed_be64(s: Seq<u64>) -> Seq<u8>
    decreases s.len(),
{
    if s.len() == 0 {
        Seq::empty()
    } else {
        packed_be64(s.drop_last()) + be_bytes(s.last() as nat, 8)
    }
}

/// The packed little-endian bytes of a 16-bit element sequence.
pub open spec fn packed_le16(s: Seq<u16>) -> Seq<u8>
    decreases s.len(),
{
    if s.len() == 0 {
        Seq::empty()
    } else {
        packed_le16(s.drop_last()) + le_bytes(s.last() as nat, 2)
    }
}

/// The packed little-endian bytes of a 32-bit element sequence.
pub open spec fn packed_le32(s: Seq<u32>) -> Seq<u8>
    decreases s.len(),
{
    if s.len() == 0 {
        Seq::empty()
    } else {
        packed_le32(s.drop_last()) + le_bytes(s.last() as nat, 4)
    }
}

/// The packed little-endian bytes of a 64-bit element sequence.
pub open spec fn packed_le64(s: Seq<u64>) -> Seq<u8>
    decreases s.len(),
{
    if s.len() == 0 {
        Seq::empty()
    } else {
        packed_le64(s.drop_last()) + le_bytes(s.last() as nat, 8)
    }
}

/// Tag-aware decode: the optional outer tag number, the item after
/// it, and the position after both.  An untagged item decodes with no
/// tag number; a tagged one has its tag number reported and the rest
/// decoded as usual.
pub open spec fn dec_tagged(s: Seq<u8>, pos: int) -> Result<((Option<u64>, ValueModel), int), Error> {
    if pos < 0 || pos >= s.len() {
        Err(Error::Eof)
    } else if s[pos] / 32 == 6 {
        match dec_tag(s, pos) {
            Err(e) => Err(e),
            Ok((t, p)) => match dec(s, p) {
                Err(e) => Err(e),
                Ok((v, p2)) => Ok(((Some(t), v), p2)),
            },
        }
    } else {
        match dec(s, pos) {
            Err(e) => Err(e),
            Ok((v, p)) => Ok(((None::<u64>, v), p)),
        }
    }
}

/// Single-field wrapper decode: a 1-element array unwraps to its
/// element (canonical form); any other array length is an error; a
/// non-array item is accepted bare (legacy form).
pub open spec fn dec_wrapper(s: Seq<u8>, pos: int) -> Result<(ValueModel, int), Error> {
    if pos < 0 || pos >= s.len() {
        Err(Error::Eof)
    } else {
        let ib = s[pos];
        let info = ib % 32;
        if ib / 32 == 4 {
            if info > 27 {
                Err(Error::Syntax)
            } else if pos + 1 + extra_len(info) > s.len() {
                Err(Error::Eof)
            } else if head_val(s, pos, info) != 1 {
                Err(Error::Syntax)
            } else {
                dec(s, pos + 1 + extra_len(info))
            }
        } else {
            dec(s, pos)
        }
    }
}

/// Optional decode: the canonical null encoding means absent;
/// anything else decodes as the present item.
pub open spec fn dec_optional(s: Seq<u8>, pos: int) -> Result<(Option<ValueModel>, int), Error> {
    if pos < 0 || pos >= s.len() {
        Err(Error::Eof)
    } else if s[pos] == 0xf6 {
        Ok((None::<ValueModel>, pos + 1))
    } else {
        match dec(s, pos) {
            Err(e) => Err(e),
            Ok((v, p)) => Ok((Some(v), p)),
        }
    }
}

/// Enumerated-variant decode: a definite-length text string names a
/// unit variant; a single-entry mapping with a text key names a
/// data-carrying variant whose payload is the entry's value; any
/// other shape is an error.
pub open spec fn dec_variant(s: Seq<u8>, pos: int) -> Result<
    ((Seq<char>, Option<ValueModel>), int),
    Error,
> {
    if pos < 0 || pos >= s.len() {
        Err(Error::Eof)
    } else {
        let ib = s[pos];
        let major = ib / 32;
        let info = ib % 32;
        let p2 = pos + 1 + extra_len(info);
        if major == 3 {
            if info > 27 || info == 31 {
                Err(Error::Syntax)
            } else if p2 > s.len() {
                Err(Error::Eof)
            } else {
                let n = head_val(s, pos, info);
                if p2 + n > s.len() {
                    Err(Error::Eof)
                } else {
                    let b = s.subrange(p2, p2 + n);
                    if vstd::utf8::valid_utf8(b) {
                        Ok(((vstd::utf8::decode_utf8(b), None::<ValueModel>), p2 + n))
                    } else {
                        Err(Error::InvalidUtf8)
                    }
                }
            }
        } else if major == 5 {
            if info > 27 || info == 31 {
                Err(Error::Syntax)
            } else if p2 > s.len() {
                Err(Error::Eof)
            } else if head_val(s, pos, info) != 1 {
                Err(Error::Syntax)
            } else {
                match dec(s, p2) {
                    Err(e) => Err(e),
                    Ok((k, p3)) => match k {
                        ValueModel::Text(name) => match dec(s, p3) {
                            Err(e) => Err(e),
                            Ok((v, p4)) => Ok(((name, Some(v)), p4)),
                        },
                        _ => Err(Error::Syntax),
                    },
                }
            }
        } else {
            Err(Error::Syntax)
        }
    }
}

/// 256 to the power `n`: the number of values of an `n`-byte field.
pub open spec fn p256(n: nat) -> nat
    decreases n,
{
    if n == 0 {
        1nat
    } else {
        256 * p256((n - 1) as nat)
    }
}

/// A big-endian byte sequence holds a value below 256 to its length.
pub proof fn lemma_be_val_bound(b: Seq<u8>)
    ensures
        be_val(b) < p256(b.len()),
    decreases b.len(),
{
    if b.len() > 0 {
        lemma_be_val_bound(b.drop_last());
    }
}

/// `p256` grows with its argument.
pub proof fn lemma_p256_le(a: nat, b: nat)
    requires
        a <= b,
    ensures
        p256(a) <= p256(b),
    decreases b,
{
    if a < b && b > 0 {
        lemma_p256_le(a, (b - 1) as nat);
    }
}

/// A successful decode moves the position forward and stays inside
/// the input.
pub proof fn lemma_dec_bounds(s: Seq<u8>, pos: int)
    ensures
        dec(s, pos) matches Ok((v, p)) ==> pos < p <= s.len(),
    decreases s.len() - pos, 0int, 0int,
{
    if 0 <= pos < s.len() {
        let ib = s[pos];
        let major = ib / 32;
        let info = ib % 32;
        let p2 = pos + 1 + extra_len(info);
        if major == 2 {
            if info == 31 {
                lemma_dec_chunks_bounds(s, pos + 1, major);
            }
        } else if major == 3 {
            if info == 31 {
                lemma_dec_text_chunks_bounds(s, pos + 1);
            }
        } else if major == 4 {
            if info == 31 {
                lemma_dec_elems_indef_bounds(s, pos + 1);
            } else if info <= 27 && p2 <= s.len() {
                lemma_dec_elems_bounds(s, p2, head_val(s, pos, info) as int);
            }
        } else if major == 5 {
            if info == 31 {
                lemma_dec_pairs_indef_bounds(s, pos + 1);
            } else if info <= 27 && p2 <= s.len() {
                lemma_dec_pairs_bounds(s, p2, head_val(s, pos, info) as int);
            }
        } else if major == 6 {
            if info <= 27 && p2 <= s.len() {
                lemma_dec_bounds(s, p2);
            }
        }
    }
}

/// Decoding `n` items from a position inside the input ends inside
/// the input, at or after that position.
pub proof fn lemma_dec_elems_bounds(s: Seq<u8>, pos: int, n: int)
    requires
        0 <= pos <= s.len(),
    ensures
        dec_elems(s, pos, n) matches Ok((es, p)) ==> pos <= p <= s.len(),
    decreases s.len() - pos, 1int, n,
{
    if n > 0 {
        lemma_dec_bounds(s, pos);
        match dec(s, pos) {
            Ok((v, p)) => {
                if pos < p <= s.len() {
                    lemma_dec_elems_bounds(s, p, n - 1);
                }
            },
            Err(_) => {},
        }
    }
}

/// Decoding items up to a break moves the position forward and stays
/// inside the input.
pub proof fn lemma_dec_elems_indef_bounds(s: Seq<u8>, pos: int)
    ensures
        dec_elems_indef(s, pos) matches Ok((es, p)) ==> pos < p <= s.len(),
    decreases s.len() - pos, 1int, 0int,
{
    if 0 <= pos < s.len() && s[pos] != BREAK {
        lemma_dec_bounds(s, pos);
        match dec(s, pos) {
            Ok((v, p)) => {
                if pos < p <= s.len() {
                    lemma_dec_elems_indef_bounds(s, p);
                }
            },
            Err(_) => {},
        }
    }
}

/// Decoding `n` key-value pairs from a position inside the input ends
/// inside the input, at or after that position.
pub proof fn lemma_dec_pairs_bounds(s: Seq<u8>, pos: int, n: int)
    requires
        0 <= pos <= s.len(),
    ensures
        dec_pairs(s, pos, n) matches Ok((ps, p)) ==> pos <= p <= s.len(),
    decreases s.len() - pos, 1int, n,
{
    if n > 0 {
        lemma_dec_bounds(s, pos);
        match dec(s, pos) {
            Ok((k, p1)) => {
                if pos < p1 <= s.len() {
                    lemma_dec_bounds(s, p1);
                    match dec(s, p1) {
                        Ok((v, p2)) => {
                            if p1 < p2 <= s.len() {
                                lemma_dec_pairs_bounds(s, p2, n - 1);
                            }
                        },
                        Err(_) => {},
                    }
                }
            },
            Err(_) => {},
        }
    }
}

/// Decoding key-value pairs up to a break moves the position forward
/// and stays inside the input.
pub proof fn lemma_dec_pairs_indef_bounds(s: Seq<u8>, pos: int)
    ensures
        dec_pairs_indef(s, pos) matches Ok((ps, p)) ==> pos < p <= s.len(),
    decreases s.len() - pos, 1int, 0int,
{
    if 0 <= pos < s.len() && s[pos] != BREAK {
        lemma_dec_bounds(s, pos);
        match dec(s, pos) {
            Ok((k, p1)) => {
                if pos < p1 <= s.len() {
                    lemma_dec_bounds(s, p1);
                    match dec(s, p1) {
                        Ok((v, p2)) => {
                            if p1 < p2 <= s.len() {
                                lemma_dec_pairs_indef_bounds(s, p2);
                            }
                        },
                        Err(_) => {},
                    }
                }
            },
            Err(_) => {},
        }
    }
}

/// Reading string chunks up to a break moves the position forward and
/// stays inside the input.
pub proof fn lemma_dec_chunks_bounds(s: Seq<u8>, pos: int, major: u8)
    ensures
        dec_chunks(s, pos, major) matches Ok((b, p)) ==> pos < p <= s.len(),
    decreases s.len() - pos, 0int, 0int,
{
    if 0 <= pos < s.len() && s[pos] != BREAK {
        let ib = s[pos];
        let info = ib % 32;
        if ib / 32 == major && info <= 27 {
            let p2 = pos + 1 + extra_len(info);
            if p2 <= s.len() {
                let n = head_val(s, pos, info);
                if p2 + n <= s.len() {
                    lemma_dec_chunks_bounds(s, p2 + n, major);
                }
            }
        }
    }
}

/// An eight-byte field holds a value below 2^64.
pub proof fn lemma_be_val_u64(b: Seq<u8>)
    requires
        b.len() <= 8,
    ensures
        be_val(b) < 0x10000000000000000,
{
    lemma_be_val_bound(b);
    lemma_p256_le(b.len(), 8);
    assert(p256(8) == 0x10000000000000000) by {
        reveal_with_fuel(p256, 9);
    }
}

/// A definite-length header value fits in 64 bits.
pub proof fn lemma_head_val_u64(s: Seq<u8>, pos: int, info: u8)
    requires
        info <= 27,
        0 <= pos,
        pos + 1 + extra_len(info) <= s.len(),
    ensures
        head_val(s, pos, info) < 0x10000000000000000,
{
    if info >= 24 {
        lemma_be_val_u64(s.subrange(pos + 1, pos + 1 + extra_len(info)));
    }
}

/// Whatever the input, a decoded item is well-formed: its mappings
/// are key-sorted with well-formed entries, and every string and
/// composite fits a 64-bit length.
pub proof fn lemma_dec_wf(s: Seq<u8>, pos: int)
    requires
        s.len() < 0x10000000000000000,
    ensures
        dec(s, pos) matches Ok((v, p)) ==> crate::model::wf(v),
    decreases s.len() - pos, 0int, 0int,
{
    if 0 <= pos < s.len() {
        let ib = s[pos];
        let major = ib / 32;
        let info = ib % 32;
        let p2 = pos + 1 + extra_len(info);
        if major == 2 {
            if info == 31 {
                lemma_dec_chunks_len(s, pos + 1, major);
            }
        } else if major == 3 {
            if info == 31 {
                lemma_dec_text_chunks_wf(s, pos + 1);
            } else if info <= 27 && p2 <= s.len() {
                let n = head_val(s, pos, info);
                if p2 + n <= s.len() {
                    if vstd::utf8::valid_utf8(s.subrange(p2, p2 + n)) {
                        vstd::utf8::decode_utf8_encode_utf8(s.subrange(p2, p2 + n));
                    }
                }
            }
        } else if major == 4 {
            if info == 31 {
                lemma_dec_elems_indef_bounds(s, pos + 1);
                lemma_dec_elems_indef_wf(s, pos + 1);
            } else if info <= 27 && p2 <= s.len() {
                lemma_head_val_u64(s, pos, info);
                lemma_dec_elems_wf(s, p2, head_val(s, pos, info) as int);
            }
        } else if major == 5 {
            if info == 31 {
                lemma_dec_pairs_indef_bounds(s, pos + 1);
                lemma_dec_pairs_indef_wf(s, pos + 1);
                match dec_pairs_indef(s, pos + 1) {
                    Ok((ps, p)) => {
                        crate::model::lemma_map_from_pairs_wf(ps);
                    },
                    Err(_) => {},
                }
            } else if info <= 27 && p2 <= s.len() {
                lemma_head_val_u64(s, pos, info);
                lemma_dec_pairs_wf(s, p2, head_val(s, pos, info) as int);
                match dec_pairs(s, p2, head_val(s, pos, info) as int) {
                    Ok((ps, p)) => {
                        crate::model::lemma_map_from_pairs_wf(ps);
                    },
                    Err(_) => {},
                }
            }
        } else if major == 6 {
            if info <= 27 && p2 <= s.len() {
                lemma_dec_wf(s, p2);
            }
        }
    }
}

/// Decoding `n` items yields exactly `n` well-formed items.
pub proof fn lemma_dec_elems_wf(s: Seq<u8>, pos: int, n: int)
    requires
        s.len() < 0x10000000000000000,
        0 <= pos <= s.len(),
    ensures
        dec_elems(s, pos, n) matches Ok((es, p)) ==> crate::model::wf_seq(es) && es.len() == (if n
            >= 0 {
            n
        } else {
            0
        }),
    decreases s.len() - pos, 1int, n,
{
    if n > 0 {
        lemma_dec_wf(s, pos);
        lemma_dec_bounds(s, pos);
        match dec(s, pos) {
            Ok((v, p)) => {
                if pos < p <= s.len() {
                    lemma_dec_elems_wf(s, p, n - 1);
                    match dec_elems(s, p, n - 1) {
                        Ok((rest, p2)) => {
                            assert((seq![v] + rest)[0] == v);
                            assert((seq![v] + rest).drop_first() =~= rest);
                        },
                        Err(_) => {},
                    }
                }
            },
            Err(_) => {},
        }
    }
}

/// Decoding items up to a break yields well-formed items, no more of
/// them than bytes consumed.
pub proof fn lemma_dec_elems_indef_wf(s: Seq<u8>, pos: int)
    requires
        s.len() < 0x10000000000000000,
    ensures
        dec_elems_indef(s, pos) matches Ok((es, p)) ==> crate::model::wf_seq(es) && es.len() <= p
            - pos,
    decreases s.len() - pos, 1int, 0int,
{
    if 0 <= pos < s.len() && s[pos] != BREAK {
        lemma_dec_wf(s, pos);
        lemma_dec_bounds(s, pos);
        match dec(s, pos) {
            Ok((v, p)) => {
                if pos < p <= s.len() {
                    lemma_dec_elems_indef_wf(s, p);
                    match dec_elems_indef(s, p) {
                        Ok((rest, p2)) => {
                            assert((seq![v] + rest)[0] == v);
                            assert((seq![v] + rest).drop_first() =~= rest);
                        },
                        Err(_) => {},
                    }
                }
            },
            Err(_) => {},
        }
    }
}

/// Decoding `n` key-value pairs yields at most `n` well-formed pairs.
pub proof fn lemma_dec_pairs_wf(s: Seq<u8>, pos: int, n: int)
    requires
        s.len() < 0x10000000000000000,
        0 <= pos <= s.len(),
    ensures
        dec_pairs(s, pos, n) matches Ok((ps, p)) ==> crate::model::wf_pairs(ps) && ps.len() <= (
        if n >= 0 {
            n
        } else {
            0
        }),
    decreases s.len() - pos, 1int, n,
{
    if n > 0 {
        lemma_dec_wf(s, pos);
        lemma_dec_bounds(s, pos);
        match dec(s, pos) {
            Ok((k, p1)) => {
                if pos < p1 <= s.len() {
                    lemma_dec_wf(s, p1);
                    lemma_dec_bounds(s, p1);
                    match dec(s, p1) {
                        Ok((v, p2)) => {
                            if p1 < p2 <= s.len() {
                                lemma_dec_pairs_wf(s, p2, n - 1);
                                match dec_pairs(s, p2, n - 1) {
                                    Ok((rest, p3)) => {
                                        assert((seq![(k, v)] + rest)[0] == (k, v));
                                        assert((seq![(k, v)] + rest).drop_first() =~= rest);
                                    },
                                    Err(_) => {},
                                }
                            }
                        },
                        Err(_) => {},
                    }
                }
            },
            Err(_) => {},
        }
    }
}

/// Decoding key-value pairs up to a break yields well-formed pairs,
/// no more of them than bytes consumed.
pub proof fn lemma_dec_pairs_indef_wf(s: Seq<u8>, pos: int)
    requires
        s.len() < 0x10000000000000000,
    ensures
        dec_pairs_indef(s, pos) matches Ok((ps, p)) ==> crate::model::wf_pairs(ps) && ps.len() <= p
            - pos,
    decreases s.len() - pos, 1int, 0int,
{
    if 0 <= pos < s.len() && s[pos] != BREAK {
        lemma_dec_wf(s, pos);
        lemma_dec_bounds(s, pos);
        match dec(s, pos) {
            Ok((k, p1)) => {
                if pos < p1 <= s.len() {
                    lemma_dec_wf(s, p1);
                    lemma_dec_bounds(s, p1);
                    match dec(s, p1) {
                        Ok((v, p2)) => {
                            if p1 < p2 <= s.len() {
                                lemma_dec_pairs_indef_wf(s, p2);
                                match dec_pairs_indef(s, p2) {
                                    Ok((rest, p3)) => {
                                        assert((seq![(k, v)] + rest)[0] == (k, v));
                                        assert((seq![(k, v)] + rest).drop_first() =~= rest);
                                    },
                                    Err(_) => {},
                                }
                            }
                        },
                        Err(_) => {},
                    }
                }
            },
            Err(_) => {},
        }
    }
}

/// The payload gathered from string chunks is no longer than the
/// bytes consumed.
pub proof fn lemma_dec_chunks_len(s: Seq<u8>, pos: int, major: u8)
    ensures
        dec_chunks(s, pos, major) matches Ok((b, p)) ==> pos < p <= s.len() && b.len() <= p - pos,
    decreases s.len() - pos, 0int, 0int,
{
    lemma_dec_chunks_bounds(s, pos, major);
    if 0 <= pos < s.len() && s[pos] != BREAK {
        let ib = s[pos];
        let info = ib % 32;
        if ib / 32 == major && info <= 27 {
            let p2 = pos + 1 + extra_len(info);
            if p2 <= s.len() {
                let n = head_val(s, pos, info);
                if p2 + n <= s.len() {
                    lemma_dec_chunks_len(s, p2 + n, major);
                }
            }
        }
    }
}


/// The UTF-8 encoding of a concatenation is the concatenation of the
/// encodings.
pub proof fn lemma_encode_utf8_concat(a: Seq<char>, b: Seq<char>)
    ensures
        vstd::utf8::encode_utf8(a + b) == vstd::utf8::encode_utf8(a) + vstd::utf8::encode_utf8(b),
    decreases a.len(),
{
    if a.len() == 0 {
        assert(a + b =~= b);
        assert(vstd::utf8::encode_utf8(a) + vstd::utf8::encode_utf8(b) =~= vstd::utf8::encode_utf8(
            b,
        ));
    } else {
        assert((a + b)[0] == a[0]);
        assert((a + b).drop_first() =~= a.drop_first() + b);
        lemma_encode_utf8_concat(a.drop_first(), b);
        assert(vstd::utf8::encode_utf8(a + b) =~= vstd::utf8::encode_utf8(a)
            + vstd::utf8::encode_utf8(b));
    }
}

/// The characters gathered from text chunks re-encode to no more
/// bytes than were consumed.
pub proof fn lemma_dec_text_chunks_wf(s: Seq<u8>, pos: int)
    ensures
        dec_text_chunks(s, pos) matches Ok((t, p)) ==> pos < p <= s.len()
            && vstd::utf8::encode_utf8(t).len() <= p - pos,
    decreases s.len() - pos, 0int, 0int,
{
    lemma_dec_text_chunks_bounds(s, pos);
    if 0 <= pos < s.len() && s[pos] != BREAK {
        let ib = s[pos];
        let info = ib % 32;
        if ib / 32 == 3 && info <= 27 {
            let p2 = pos + 1 + extra_len(info);
            if p2 <= s.len() {
                let n = head_val(s, pos, info);
                if p2 + n <= s.len() {
                    let b = s.subrange(p2, p2 + n);
                    if vstd::utf8::valid_utf8(b) {
                        vstd::utf8::decode_utf8_encode_utf8(b);
                        lemma_dec_text_chunks_wf(s, p2 + n);
                        match dec_text_chunks(s, p2 + n) {
                            Ok((rest, p3)) => {
                                lemma_encode_utf8_concat(vstd::utf8::decode_utf8(b), rest);
                            },
                            Err(_) => {},
                        }
                    }
                }
            }
        }
    }
}

} // verus!
