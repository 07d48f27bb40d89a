//! The round-trip law: decoding the canonical encoding of a value
//! yields that value.
//!
//! [`lemma_round_trip`] states it for every well-formed, tag-free
//! model value; tag framing is excluded because the generic decode
//! path consumes tags transparently, and [`lemma_round_trip_tagged`]
//! states exactly what happens then: the inner value comes back.

use vstd::prelude::*;

use crate::model::{lemma_map_from_pairs_sorted, tag_free, tag_free_pairs, tag_free_seq, wf,
    wf_pairs, wf_seq, ValueModel};
use crate::wire::{be_bytes, be_val, dec, dec_elems, dec_pairs, enc, enc_pairs, enc_seq, extra_len,
    hdr, head_val, initial_byte, p256};
use crate::Error;

verus! {

broadcast use vstd::seq::axiom_seq_index_decreases, vstd::seq::axiom_seq_subrange_decreases;

/// A big-endian field has the width asked for.
pub proof fn lemma_be_bytes_len(v: nat, n: nat)
    ensures
        be_bytes(v, n).len() == n,
    decreases n,
{
    if n > 0 {
        lemma_be_bytes_len(v / 256, (n - 1) as nat);
    }
}

/// A big-endian field carries back the value it was built from, as
/// long as the value fits the width.
pub proof fn lemma_be_bytes_val(v: nat, n: nat)
    requires
        v < p256(n),
    ensures
        be_bytes(v, n).len() == n,
        be_val(be_bytes(v, n)) == v,
    decreases n,
{
    lemma_be_bytes_len(v, n);
    if n > 0 {
        lemma_be_bytes_val(v / 256, (n - 1) as nat);
        let b = be_bytes(v, n);
        assert(b.drop_last() =~= be_bytes(v / 256, (n - 1) as nat));
        assert(b.last() == (v % 256) as u8);
    }
}

/// A stretch of `s` equal to a concatenation splits into a stretch
/// equal to each part.
pub proof fn lemma_subrange_concat(s: Seq<u8>, pos: int, x: Seq<u8>, y: Seq<u8>)
    requires
        0 <= pos,
        pos + x.len() + y.len() <= s.len(),
        s.subrange(pos, pos + x.len() + y.len()) == x + y,
    ensures
        s.subrange(pos, pos + x.len() as int) == x,
        s.subrange(pos + x.len(), pos + x.len() + y.len()) == y,
{
    assert forall|i: int| 0 <= i < x.len() implies s.subrange(pos, pos + x.len() as int)[i]
        == x[i] by {
        assert(s.subrange(pos, pos + x.len() + y.len())[i] == (x + y)[i]);
    }
    assert(s.subrange(pos, pos + x.len() as int) =~= x);
    assert forall|i: int| 0 <= i < y.len() implies s.subrange(
        pos + x.len(),
        pos + x.len() + y.len(),
    )[i] == y[i] by {
        assert(s.subrange(pos, pos + x.len() + y.len())[x.len() + i] == (x + y)[x.len() + i]);
        assert(s.subrange(pos, pos + x.len() + y.len())[x.len() + i] == s[pos + x.len() + i]);
        assert(s.subrange(pos + x.len(), pos + x.len() + y.len())[i] == s[pos + x.len() + i]);
        assert((x + y)[x.len() + i] == y[i]);
    }
    assert(s.subrange(pos + x.len(), pos + x.len() + y.len()) =~= y);
}

/// Every encoding starts with at least one byte.
pub proof fn lemma_enc_len_pos(v: ValueModel)
    ensures
        enc(v).len() >= 1,
{
    match v {
        ValueModel::Int(i) => {
            if i >= 0 {
                lemma_hdr_len(0, i as u64);
            } else {
                lemma_hdr_len(1, (-1 - i as int) as u64);
            }
        },
        ValueModel::Bytes(b) => {
            lemma_hdr_len(2, b.len() as u64);
        },
        ValueModel::Text(t) => {
            lemma_hdr_len(3, vstd::utf8::encode_utf8(t).len() as u64);
        },
        ValueModel::Array(a) => {
            lemma_hdr_len(4, a.len() as u64);
        },
        ValueModel::Mapping(m) => {
            lemma_hdr_len(5, m.len() as u64);
        },
        ValueModel::Tag(n, x) => {
            lemma_hdr_len(6, n);
        },
        _ => {},
    }
}

/// A header is one initial byte plus at most eight extension bytes.
pub proof fn lemma_hdr_len(major: u8, n: u64)
    ensures
        1 <= hdr(major, n).len() <= 9,
{
    if n < 24 {
    } else if n < 256 {
    } else if n < 65536 {
        lemma_be_bytes_len(n as nat, 2);
    } else if n < 4294967296 {
        lemma_be_bytes_len(n as nat, 4);
    } else {
        lemma_be_bytes_len(n as nat, 8);
    }
}

/// Decoding a minimal-width header finds the major type and value it
/// was built from, with the read position after its last byte.
pub proof fn lemma_hdr_dec(major: u8, n: u64, s: Seq<u8>, pos: int)
    requires
        major < 8,
        0 <= pos,
        pos + hdr(major, n).len() <= s.len(),
        s.subrange(pos, pos + hdr(major, n).len() as int) == hdr(major, n),
    ensures
        1 <= hdr(major, n).len() <= 9,
        pos < s.len(),
        s[pos] / 32 == major,
        s[pos] % 32 <= 27,
        extra_len(s[pos] % 32) == hdr(major, n).len() - 1,
        head_val(s, pos, s[pos] % 32) == n as nat,
{
    lemma_hdr_len(major, n);
    let h = hdr(major, n);
    assert(s[pos] == h[0]);
    if n < 24 {
        assert(h[0] == initial_byte(major, n as u8));
        assert(s[pos] / 32 == major && s[pos] % 32 == n) by {
            assert(major * 32 + n < 256);
        }
    } else {
        let k: nat = if n < 256 {
            1
        } else if n < 65536 {
            2
        } else if n < 4294967296 {
            4
        } else {
            8
        };
        let info: u8 = if n < 256 {
            24
        } else if n < 65536 {
            25
        } else if n < 4294967296 {
            26
        } else {
            27
        };
        assert(p256(1) == 256 && p256(2) == 65536 && p256(4) == 4294967296 && p256(8)
            == 0x10000000000000000) by {
            reveal_with_fuel(p256, 9);
        }
        lemma_be_bytes_val(n as nat, k);
        if n < 256 {
            assert(h =~= seq![initial_byte(major, 24)] + be_bytes(n as nat, 1)) by {
                reveal_with_fuel(be_bytes, 3);
            }
        }
        assert(h == seq![initial_byte(major, info)] + be_bytes(n as nat, k));
        assert(s[pos] / 32 == major && s[pos] % 32 == info) by {
            assert(major * 32 + info < 256);
        }
        lemma_subrange_concat(s, pos, seq![initial_byte(major, info)], be_bytes(n as nat, k));
        assert(s.subrange(pos + 1, pos + 1 + k) == be_bytes(n as nat, k));
    }
}

/// A nonempty element sequence encodes as its first element's bytes
/// followed by the rest's.
pub proof fn lemma_enc_seq_first(a: Seq<ValueModel>)
    requires
        a.len() > 0,
    ensures
        enc_seq(a) == enc(a[0]) + enc_seq(a.drop_first()),
    decreases a, 0int, a.len(),
{
    if a.len() == 1 {
        assert(a.drop_last() =~= Seq::<ValueModel>::empty());
        assert(a.drop_first() =~= Seq::<ValueModel>::empty());
        assert(enc_seq(a) =~= enc(a[0]) + enc_seq(a.drop_first()));
    } else {
        lemma_enc_seq_first(a.drop_last());
        assert(a.drop_last()[0] == a[0]);
        assert(a.drop_last().drop_first() =~= a.drop_first().drop_last());
        assert(a.drop_first().last() == a.last());
        assert(enc_seq(a.drop_first()) == enc_seq(a.drop_first().drop_last()) + enc(a.last()));
        assert(enc_seq(a) =~= enc(a[0]) + enc_seq(a.drop_first()));
    }
}

/// A nonempty entry sequence encodes as its first entry's key and
/// value bytes followed by the rest's.
pub proof fn lemma_enc_pairs_first(m: Seq<(ValueModel, ValueModel)>)
    requires
        m.len() > 0,
    ensures
        enc_pairs(m) == enc(m[0].0) + enc(m[0].1) + enc_pairs(m.drop_first()),
    decreases m, 0int, m.len(),
{
    if m.len() == 1 {
        assert(m.drop_last() =~= Seq::<(ValueModel, ValueModel)>::empty());
        assert(m.drop_first() =~= Seq::<(ValueModel, ValueModel)>::empty());
        assert(enc_pairs(m) =~= enc(m[0].0) + enc(m[0].1) + enc_pairs(m.drop_first()));
    } else {
        lemma_enc_pairs_first(m.drop_last());
        assert(m.drop_last()[0] == m[0]);
        assert(m.drop_last().drop_first() =~= m.drop_first().drop_last());
        assert(m.drop_first().last() == m.last());
        assert(enc_pairs(m.drop_first()) == enc_pairs(m.drop_first().drop_last()) + enc(
            m.last().0,
        ) + enc(m.last().1));
        assert(enc_pairs(m) =~= enc(m[0].0) + enc(m[0].1) + enc_pairs(m.drop_first()));
    }
}

/// Decoding at a position where the canonical encoding of a
/// well-formed, tag-free value stands yields that value and stops
/// right after its bytes.
pub proof fn lemma_dec_enc_at(v: ValueModel, s: Seq<u8>, pos: int)
    requires
        wf(v),
        tag_free(v),
        0 <= pos,
        pos + enc(v).len() <= s.len(),
        s.subrange(pos, pos + enc(v).len() as int) == enc(v),
    ensures
        dec(s, pos) == Ok::<(ValueModel, int), Error>((v, pos + enc(v).len())),
    decreases v, 1int, 0int,
{
    lemma_enc_len_pos(v);
    assert(s[pos] == enc(v)[0]);
    match v {
        ValueModel::Null => {
            assert(s[pos] == 0xf6);
        },
        ValueModel::Bool(b) => {
            assert(s[pos] == if b {
                0xf5u8
            } else {
                0xf4u8
            });
        },
        ValueModel::Int(i) => {
            if i >= 0 {
                lemma_hdr_dec(0, i as u64, s, pos);
            } else {
                lemma_hdr_dec(1, (-1 - i as int) as u64, s, pos);
            }
        },
        ValueModel::Float(bits) => {
            assert(s[pos] == 0xfb);
            assert(p256(8) == 0x10000000000000000) by {
                reveal_with_fuel(p256, 9);
            }
            lemma_be_bytes_val(bits as nat, 8);
            lemma_subrange_concat(s, pos, seq![0xfbu8], be_bytes(bits as nat, 8));
            assert(s.subrange(pos + 1, pos + 9) == be_bytes(bits as nat, 8));
        },
        ValueModel::Bytes(b) => {
            let h = hdr(2, b.len() as u64);
            lemma_hdr_len(2, b.len() as u64);
            lemma_subrange_concat(s, pos, h, b);
            lemma_hdr_dec(2, b.len() as u64, s, pos);
        },
        ValueModel::Text(t) => {
            let u = vstd::utf8::encode_utf8(t);
            let h = hdr(3, u.len() as u64);
            lemma_hdr_len(3, u.len() as u64);
            lemma_subrange_concat(s, pos, h, u);
            lemma_hdr_dec(3, u.len() as u64, s, pos);
            vstd::utf8::encode_utf8_valid_utf8(t);
            vstd::utf8::encode_utf8_decode_utf8(t);
        },
        ValueModel::Array(a) => {
            let h = hdr(4, a.len() as u64);
            lemma_hdr_len(4, a.len() as u64);
            lemma_subrange_concat(s, pos, h, enc_seq(a));
            lemma_hdr_dec(4, a.len() as u64, s, pos);
            lemma_dec_enc_seq(a, s, pos + h.len());
        },
        ValueModel::Mapping(m) => {
            let h = hdr(5, m.len() as u64);
            lemma_hdr_len(5, m.len() as u64);
            lemma_subrange_concat(s, pos, h, enc_pairs(m));
            lemma_hdr_dec(5, m.len() as u64, s, pos);
            lemma_dec_enc_pairs(m, s, pos + h.len());
            lemma_map_from_pairs_sorted(m);
        },
        ValueModel::Tag(_, _) => {
            assert(false);
        },
    }
}

/// Decoding a run of encoded elements yields them all, in order.
pub proof fn lemma_dec_enc_seq(a: Seq<ValueModel>, s: Seq<u8>, pos: int)
    requires
        wf_seq(a),
        tag_free_seq(a),
        0 <= pos,
        pos + enc_seq(a).len() <= s.len(),
        s.subrange(pos, pos + enc_seq(a).len() as int) == enc_seq(a),
    ensures
        dec_elems(s, pos, a.len() as int) == Ok::<(Seq<ValueModel>, int), Error>(
            (a, pos + enc_seq(a).len()),
        ),
    decreases a, 0int, a.len(),
{
    if a.len() == 0 {
        assert(a =~= Seq::<ValueModel>::empty());
    } else {
        lemma_enc_seq_first(a);
        let e0 = enc(a[0]);
        let rest = enc_seq(a.drop_first());
        lemma_enc_len_pos(a[0]);
        lemma_subrange_concat(s, pos, e0, rest);
        lemma_dec_enc_at(a[0], s, pos);
        lemma_dec_enc_seq(a.drop_first(), s, pos + e0.len());
        assert(seq![a[0]] + a.drop_first() =~= a);
    }
}

/// Decoding a run of encoded key-value pairs yields them all, in
/// wire order.
pub proof fn lemma_dec_enc_pairs(m: Seq<(ValueModel, ValueModel)>, s: Seq<u8>, pos: int)
    requires
        wf_pairs(m),
        tag_free_pairs(m),
        0 <= pos,
        pos + enc_pairs(m).len() <= s.len(),
        s.subrange(pos, pos + enc_pairs(m).len() as int) == enc_pairs(m),
    ensures
        dec_pairs(s, pos, m.len() as int) == Ok::<(Seq<(ValueModel, ValueModel)>, int), Error>(
            (m, pos + enc_pairs(m).len()),
        ),
    decreases m, 0int, m.len(),
{
    if m.len() == 0 {
        assert(m =~= Seq::<(ValueModel, ValueModel)>::empty());
    } else {
        lemma_enc_pairs_first(m);
        let ek = enc(m[0].0);
        let ev = enc(m[0].1);
        let rest = enc_pairs(m.drop_first());
        lemma_enc_len_pos(m[0].0);
        lemma_enc_len_pos(m[0].1);
        assert(ek + ev + rest =~= ek + (ev + rest));
        lemma_subrange_concat(s, pos, ek, ev + rest);
        lemma_dec_enc_at(m[0].0, s, pos);
        lemma_subrange_concat(s, pos + ek.len(), ev, rest);
        lemma_dec_enc_at(m[0].1, s, pos + ek.len());
        lemma_dec_enc_pairs(m.drop_first(), s, pos + ek.len() + ev.len());
        assert(seq![m[0]] + m.drop_first() =~= m);
    }
}

/// Round trip: for every well-formed, tag-free value, decoding its
/// canonical encoding yields exactly that value and consumes exactly
/// its bytes.
pub proof fn lemma_round_trip(v: ValueModel)
    requires
        wf(v),
        tag_free(v),
    ensures
        dec(enc(v), 0) == Ok::<(ValueModel, int), Error>((v, enc(v).len() as int)),
{
    assert(enc(v).subrange(0, enc(v).len() as int) =~= enc(v));
    lemma_dec_enc_at(v, enc(v), 0);
}

/// Tag transparency: decoding tag framing around a well-formed,
/// tag-free value through the generic decode path yields the inner
/// value, with the tag number consumed and discarded.
pub proof fn lemma_round_trip_tagged(n: u64, v: ValueModel)
    requires
        wf(v),
        tag_free(v),
    ensures
        dec(hdr(6, n) + enc(v), 0) == Ok::<(ValueModel, int), Error>(
            (v, (hdr(6, n) + enc(v)).len() as int),
        ),
{
    let s = hdr(6, n) + enc(v);
    lemma_hdr_len(6, n);
    lemma_enc_len_pos(v);
    assert(s.subrange(0, s.len() as int) =~= s);
    lemma_subrange_concat(s, 0, hdr(6, n), enc(v));
    lemma_hdr_dec(6, n, s, 0);
    lemma_dec_enc_at(v, s, hdr(6, n).len() as int);
}

} // verus!
