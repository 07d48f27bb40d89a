//! Mathematical model of a CBOR item.
//!
//! [`ValueModel`] is the specification-level counterpart of the
//! executable [`crate::Value`]: byte and text strings become sequences,
//! maps become key-sorted sequences of pairs, and a float is carried as
//! the bits of its IEEE-754 binary64 form.  The byte format itself is
//! specified in [`crate::wire`] over this datatype.

use vstd::prelude::*;

verus! {

broadcast use vstd::seq::axiom_seq_index_decreases, vstd::seq::axiom_seq_subrange_decreases;

/// Specification-level shape of a decoded or encodable CBOR item.
#[verifier::ext_equal]
pub enum ValueModel {
    /// The null simple value.
    Null,
    /// A boolean simple value.
    Bool(bool),
    /// A signed integer (major types 0 and 1).
    Int(i64),
    /// A floating-point value, carried as the bits of its IEEE-754
    /// binary64 representation.
    Float(u64),
    /// A byte string.
    Bytes(Seq<u8>),
    /// A text string, as its character sequence.
    Text(Seq<char>),
    /// An array of items.
    Array(Seq<ValueModel>),
    /// A mapping, as a sequence of key-value pairs whose keys are
    /// strictly increasing in the structural order [`cmp`].
    Mapping(Seq<(ValueModel, ValueModel)>),
    /// A tagged item: the tag number and the item it wraps.
    Tag(u64, Box<ValueModel>),
}

/// Rank of a variant in the structural order: values of different
/// shapes are ordered by shape first.
pub open spec fn rank(v: ValueModel) -> int {
    match v {
        ValueModel::Null => 0,
        ValueModel::Bool(_) => 1,
        ValueModel::Int(_) => 2,
        ValueModel::Float(_) => 3,
        ValueModel::Bytes(_) => 4,
        ValueModel::Text(_) => 5,
        ValueModel::Array(_) => 6,
        ValueModel::Mapping(_) => 7,
        ValueModel::Tag(_, _) => 8,
    }
}

/// Three-way comparison of two integers: -1, 0 or 1.
pub open spec fn cmp_int(a: int, b: int) -> int {
    if a < b {
        -1
    } else if a > b {
        1
    } else {
        0
    }
}

/// Total structural order over [`ValueModel`]: variants are ordered by
/// [`rank`], and within a variant the payloads compare
/// lexicographically.  Text strings compare by their UTF-8 bytes, which
/// orders them by code point.  This order keeps mapping keys unique and
/// deterministic; it is not claimed to match any externally mandated
/// canonical sort.
pub open spec fn cmp(a: ValueModel, b: ValueModel) -> int
    decreases a, 1int, 0int,
{
    if rank(a) != rank(b) {
        cmp_int(rank(a), rank(b))
    } else {
        match (a, b) {
            (ValueModel::Null, ValueModel::Null) => 0,
            (ValueModel::Bool(x), ValueModel::Bool(y)) => {
                if x == y {
                    0
                } else if !x {
                    -1
                } else {
                    1
                }
            },
            (ValueModel::Int(x), ValueModel::Int(y)) => cmp_int(x as int, y as int),
            (ValueModel::Float(x), ValueModel::Float(y)) => cmp_int(x as int, y as int),
            (ValueModel::Bytes(x), ValueModel::Bytes(y)) => cmp_bytes(x, y),
            (ValueModel::Text(x), ValueModel::Text(y)) => cmp_bytes(
                vstd::utf8::encode_utf8(x),
                vstd::utf8::encode_utf8(y),
            ),
            (ValueModel::Array(x), ValueModel::Array(y)) => cmp_seq(x, y),
            (ValueModel::Mapping(x), ValueModel::Mapping(y)) => cmp_pairs(x, y),
            (ValueModel::Tag(n, x), ValueModel::Tag(m, y)) => {
                if n != m {
                    cmp_int(n as int, m as int)
                } else {
                    cmp(*x, *y)
                }
            },
            _ => 0,
        }
    }
}

/// Lexicographic three-way comparison of byte sequences.
pub open spec fn cmp_bytes(a: Seq<u8>, b: Seq<u8>) -> int
    decreases a.len(),
{
    if a.len() == 0 && b.len() == 0 {
        0
    } else if a.len() == 0 {
        -1
    } else if b.len() == 0 {
        1
    } else if a[0] != b[0] {
        cmp_int(a[0] as int, b[0] as int)
    } else {
        cmp_bytes(a.drop_first(), b.drop_first())
    }
}

/// Lexicographic three-way comparison of item sequences.
pub open spec fn cmp_seq(a: Seq<ValueModel>, b: Seq<ValueModel>) -> int
    decreases a, 0int, a.len(),
{
    if a.len() == 0 && b.len() == 0 {
        0
    } else if a.len() == 0 {
        -1
    } else if b.len() == 0 {
        1
    } else {
        let c = cmp(a[0], b[0]);
        if c != 0 {
            c
        } else {
            cmp_seq(a.drop_first(), b.drop_first())
        }
    }
}

/// Lexicographic three-way comparison of pair sequences: a pair
/// compares by key first, then value.
pub open spec fn cmp_pairs(a: Seq<(ValueModel, ValueModel)>, b: Seq<(ValueModel, ValueModel)>) -> int
    decreases a, 0int, a.len(),
{
    if a.len() == 0 && b.len() == 0 {
        0
    } else if a.len() == 0 {
        -1
    } else if b.len() == 0 {
        1
    } else {
        let ck = cmp(a[0].0, b[0].0);
        if ck != 0 {
            ck
        } else {
            let cv = cmp(a[0].1, b[0].1);
            if cv != 0 {
                cv
            } else {
                cmp_pairs(a.drop_first(), b.drop_first())
            }
        }
    }
}

/// The keys of a pair sequence are strictly increasing in the
/// structural order (hence unique).
pub open spec fn sorted_pairs(m: Seq<(ValueModel, ValueModel)>) -> bool {
    forall|i: int, j: int| 0 <= i < j < m.len() ==> cmp(#[trigger] m[i].0, #[trigger] m[j].0) < 0
}

/// Well-formed model value: every mapping anywhere inside it is
/// key-sorted, and every string and composite is short enough for a
/// 64-bit length header.  Encoding is defined for any value; values
/// held in the executable [`crate::Value`] satisfy the bounds by
/// construction, and the round-trip law assumes well-formedness.
pub open spec fn wf(v: ValueModel) -> bool
    decreases v, 1int, 0int,
{
    match v {
        ValueModel::Bytes(b) => b.len() < 0x10000000000000000,
        ValueModel::Text(t) => vstd::utf8::encode_utf8(t).len() < 0x10000000000000000,
        ValueModel::Array(a) => a.len() < 0x10000000000000000 && wf_seq(a),
        ValueModel::Mapping(m) => m.len() < 0x10000000000000000 && sorted_pairs(m) && wf_pairs(m),
        ValueModel::Tag(_, x) => wf(*x),
        _ => true,
    }
}

/// Every element of the sequence is well-formed.
pub open spec fn wf_seq(a: Seq<ValueModel>) -> bool
    decreases a, 0int, a.len(),
{
    if a.len() == 0 {
        true
    } else {
        wf(a[0]) && wf_seq(a.drop_first())
    }
}

/// Every key and value of the pair sequence is well-formed.
pub open spec fn wf_pairs(m: Seq<(ValueModel, ValueModel)>) -> bool
    decreases m, 0int, m.len(),
{
    if m.len() == 0 {
        true
    } else {
        wf(m[0].0) && wf(m[0].1) && wf_pairs(m.drop_first())
    }
}

/// No tag node stands anywhere inside the value.  The generic decode
/// path consumes tag framing transparently, so only tag-free values
/// come back from it unchanged.
pub open spec fn tag_free(v: ValueModel) -> bool
    decreases v, 1int, 0int,
{
    match v {
        ValueModel::Array(a) => tag_free_seq(a),
        ValueModel::Mapping(m) => tag_free_pairs(m),
        ValueModel::Tag(_, _) => false,
        _ => true,
    }
}

/// No tag node stands anywhere inside any element.
pub open spec fn tag_free_seq(a: Seq<ValueModel>) -> bool
    decreases a, 0int, a.len(),
{
    if a.len() == 0 {
        true
    } else {
        tag_free(a[0]) && tag_free_seq(a.drop_first())
    }
}

/// No tag node stands anywhere inside any key or value.
pub open spec fn tag_free_pairs(m: Seq<(ValueModel, ValueModel)>) -> bool
    decreases m, 0int, m.len(),
{
    if m.len() == 0 {
        true
    } else {
        tag_free(m[0].0) && tag_free(m[0].1) && tag_free_pairs(m.drop_first())
    }
}

/// The structural order is antisymmetric: swapping the arguments
/// negates the comparison.
pub proof fn lemma_cmp_antisym(a: ValueModel, b: ValueModel)
    ensures
        cmp(a, b) == -cmp(b, a),
    decreases a, 1int, 0int,
{
    if rank(a) == rank(b) {
        match (a, b) {
            (ValueModel::Bytes(x), ValueModel::Bytes(y)) => {
                lemma_cmp_bytes_antisym(x, y);
            },
            (ValueModel::Text(x), ValueModel::Text(y)) => {
                lemma_cmp_bytes_antisym(vstd::utf8::encode_utf8(x), vstd::utf8::encode_utf8(y));
            },
            (ValueModel::Array(x), ValueModel::Array(y)) => {
                lemma_cmp_seq_antisym(x, y);
            },
            (ValueModel::Mapping(x), ValueModel::Mapping(y)) => {
                lemma_cmp_pairs_antisym(x, y);
            },
            (ValueModel::Tag(n, x), ValueModel::Tag(m, y)) => {
                if n == m {
                    lemma_cmp_antisym(*x, *y);
                }
            },
            _ => {},
        }
    }
}

/// Byte-sequence comparison is antisymmetric.
pub proof fn lemma_cmp_bytes_antisym(a: Seq<u8>, b: Seq<u8>)
    ensures
        cmp_bytes(a, b) == -cmp_bytes(b, a),
    decreases a.len(),
{
    if a.len() > 0 && b.len() > 0 && a[0] == b[0] {
        lemma_cmp_bytes_antisym(a.drop_first(), b.drop_first());
    }
}

/// Item-sequence comparison is antisymmetric.
pub proof fn lemma_cmp_seq_antisym(a: Seq<ValueModel>, b: Seq<ValueModel>)
    ensures
        cmp_seq(a, b) == -cmp_seq(b, a),
    decreases a, 0int, a.len(),
{
    if a.len() > 0 && b.len() > 0 {
        lemma_cmp_antisym(a[0], b[0]);
        if cmp(a[0], b[0]) == 0 {
            lemma_cmp_seq_antisym(a.drop_first(), b.drop_first());
        }
    }
}

/// Pair-sequence comparison is antisymmetric.
pub proof fn lemma_cmp_pairs_antisym(a: Seq<(ValueModel, ValueModel)>, b: Seq<(ValueModel, ValueModel)>)
    ensures
        cmp_pairs(a, b) == -cmp_pairs(b, a),
    decreases a, 0int, a.len(),
{
    if a.len() > 0 && b.len() > 0 {
        lemma_cmp_antisym(a[0].0, b[0].0);
        if cmp(a[0].0, b[0].0) == 0 {
            lemma_cmp_antisym(a[0].1, b[0].1);
            if cmp(a[0].1, b[0].1) == 0 {
                lemma_cmp_pairs_antisym(a.drop_first(), b.drop_first());
            }
        }
    }
}

/// The structural order separates distinct values: comparing equal
/// means being equal.  Together with [`lemma_cmp_antisym`] this makes
/// the order total, so sorted mapping keys are unique.
pub proof fn lemma_cmp_eq(a: ValueModel, b: ValueModel)
    requires
        cmp(a, b) == 0,
    ensures
        a == b,
    decreases a, 1int, 0int,
{
    match (a, b) {
        (ValueModel::Bytes(x), ValueModel::Bytes(y)) => {
            lemma_cmp_bytes_eq(x, y);
        },
        (ValueModel::Text(x), ValueModel::Text(y)) => {
            lemma_cmp_bytes_eq(vstd::utf8::encode_utf8(x), vstd::utf8::encode_utf8(y));
            vstd::utf8::encode_utf8_decode_utf8(x);
            vstd::utf8::encode_utf8_decode_utf8(y);
        },
        (ValueModel::Array(x), ValueModel::Array(y)) => {
            lemma_cmp_seq_eq(x, y);
        },
        (ValueModel::Mapping(x), ValueModel::Mapping(y)) => {
            lemma_cmp_pairs_eq(x, y);
        },
        (ValueModel::Tag(n, x), ValueModel::Tag(m, y)) => {
            lemma_cmp_eq(*x, *y);
        },
        _ => {},
    }
}

/// Byte sequences that compare equal are equal.
pub proof fn lemma_cmp_bytes_eq(a: Seq<u8>, b: Seq<u8>)
    requires
        cmp_bytes(a, b) == 0,
    ensures
        a == b,
    decreases a.len(),
{
    if a.len() == 0 {
        assert(a =~= b);
    } else {
        lemma_cmp_bytes_eq(a.drop_first(), b.drop_first());
        assert forall|i: int| 0 <= i < a.len() implies a[i] == b[i] by {
            if i > 0 {
                assert(a.drop_first()[i - 1] == b.drop_first()[i - 1]);
            }
        }
        assert(a =~= b);
    }
}

/// Item sequences that compare equal are equal.
pub proof fn lemma_cmp_seq_eq(a: Seq<ValueModel>, b: Seq<ValueModel>)
    requires
        cmp_seq(a, b) == 0,
    ensures
        a == b,
    decreases a, 0int, a.len(),
{
    if a.len() == 0 {
        assert(a =~= b);
    } else {
        lemma_cmp_eq(a[0], b[0]);
        lemma_cmp_seq_eq(a.drop_first(), b.drop_first());
        assert forall|i: int| 0 <= i < a.len() implies a[i] == b[i] by {
            if i > 0 {
                assert(a.drop_first()[i - 1] == b.drop_first()[i - 1]);
            }
        }
        assert(a =~= b);
    }
}

/// Pair sequences that compare equal are equal.
pub proof fn lemma_cmp_pairs_eq(a: Seq<(ValueModel, ValueModel)>, b: Seq<(ValueModel, ValueModel)>)
    requires
        cmp_pairs(a, b) == 0,
    ensures
        a == b,
    decreases a, 0int, a.len(),
{
    if a.len() == 0 {
        assert(a =~= b);
    } else {
        lemma_cmp_eq(a[0].0, b[0].0);
        lemma_cmp_eq(a[0].1, b[0].1);
        lemma_cmp_pairs_eq(a.drop_first(), b.drop_first());
        assert forall|i: int| 0 <= i < a.len() implies a[i] == b[i] by {
            if i > 0 {
                assert(a.drop_first()[i - 1] == b.drop_first()[i - 1]);
            }
        }
        assert(a =~= b);
    }
}

/// The structural order is transitive on its strict part.
pub proof fn lemma_cmp_trans(a: ValueModel, b: ValueModel, c: ValueModel)
    requires
        cmp(a, b) < 0,
        cmp(b, c) < 0,
    ensures
        cmp(a, c) < 0,
    decreases a, 1int, 0int,
{
    if rank(a) < rank(b) || rank(b) < rank(c) {
        return ;
    }
    match (a, b, c) {
        (ValueModel::Bytes(x), ValueModel::Bytes(y), ValueModel::Bytes(z)) => {
            lemma_cmp_bytes_trans(x, y, z);
        },
        (ValueModel::Text(x), ValueModel::Text(y), ValueModel::Text(z)) => {
            lemma_cmp_bytes_trans(
                vstd::utf8::encode_utf8(x),
                vstd::utf8::encode_utf8(y),
                vstd::utf8::encode_utf8(z),
            );
        },
        (ValueModel::Array(x), ValueModel::Array(y), ValueModel::Array(z)) => {
            lemma_cmp_seq_trans(x, y, z);
        },
        (ValueModel::Mapping(x), ValueModel::Mapping(y), ValueModel::Mapping(z)) => {
            lemma_cmp_pairs_trans(x, y, z);
        },
        (ValueModel::Tag(n, x), ValueModel::Tag(m, y), ValueModel::Tag(o, z)) => {
            if n == m && m == o {
                lemma_cmp_trans(*x, *y, *z);
            }
        },
        _ => {},
    }
}

/// Lexicographic byte comparison is transitive on its strict part.
pub proof fn lemma_cmp_bytes_trans(a: Seq<u8>, b: Seq<u8>, c: Seq<u8>)
    requires
        cmp_bytes(a, b) < 0,
        cmp_bytes(b, c) < 0,
    ensures
        cmp_bytes(a, c) < 0,
    decreases a.len(),
{
    if a.len() > 0 && b.len() > 0 && c.len() > 0 && a[0] == b[0] && b[0] == c[0] {
        lemma_cmp_bytes_trans(a.drop_first(), b.drop_first(), c.drop_first());
    }
}

/// Lexicographic item comparison is transitive on its strict part.
pub proof fn lemma_cmp_seq_trans(a: Seq<ValueModel>, b: Seq<ValueModel>, c: Seq<ValueModel>)
    requires
        cmp_seq(a, b) < 0,
        cmp_seq(b, c) < 0,
    ensures
        cmp_seq(a, c) < 0,
    decreases a, 0int, a.len(),
{
    if a.len() > 0 && b.len() > 0 && c.len() > 0 {
        let ab = cmp(a[0], b[0]);
        let bc = cmp(b[0], c[0]);
        if ab == 0 {
            lemma_cmp_eq(a[0], b[0]);
        }
        if bc == 0 {
            lemma_cmp_eq(b[0], c[0]);
        }
        if ab < 0 && bc < 0 {
            lemma_cmp_trans(a[0], b[0], c[0]);
        } else if ab == 0 && bc == 0 {
            lemma_cmp_seq_trans(a.drop_first(), b.drop_first(), c.drop_first());
        }
    }
}

/// Lexicographic pair comparison is transitive on its strict part.
pub proof fn lemma_cmp_pairs_trans(
    a: Seq<(ValueModel, ValueModel)>,
    b: Seq<(ValueModel, ValueModel)>,
    c: Seq<(ValueModel, ValueModel)>,
)
    requires
        cmp_pairs(a, b) < 0,
        cmp_pairs(b, c) < 0,
    ensures
        cmp_pairs(a, c) < 0,
    decreases a, 0int, a.len(),
{
    if a.len() > 0 && b.len() > 0 && c.len() > 0 {
        let abk = cmp(a[0].0, b[0].0);
        let bck = cmp(b[0].0, c[0].0);
        if abk == 0 {
            lemma_cmp_eq(a[0].0, b[0].0);
        }
        if bck == 0 {
            lemma_cmp_eq(b[0].0, c[0].0);
        }
        if abk < 0 && bck < 0 {
            lemma_cmp_trans(a[0].0, b[0].0, c[0].0);
        } else if abk == 0 && bck == 0 {
            let abv = cmp(a[0].1, b[0].1);
            let bcv = cmp(b[0].1, c[0].1);
            if abv == 0 {
                lemma_cmp_eq(a[0].1, b[0].1);
            }
            if bcv == 0 {
                lemma_cmp_eq(b[0].1, c[0].1);
            }
            if abv < 0 && bcv < 0 {
                lemma_cmp_trans(a[0].1, b[0].1, c[0].1);
            } else if abv == 0 && bcv == 0 {
                lemma_cmp_pairs_trans(a.drop_first(), b.drop_first(), c.drop_first());
            }
        }
    }
}

/// Inserting a key greater than every present key appends the entry.
pub proof fn lemma_map_insert_append(m: Seq<(ValueModel, ValueModel)>, k: ValueModel, v: ValueModel)
    requires
        forall|i: int| 0 <= i < m.len() ==> cmp(#[trigger] m[i].0, k) < 0,
    ensures
        map_insert(m, k, v) == m.push((k, v)),
    decreases m.len(),
{
    if m.len() == 0 {
        assert(map_insert(m, k, v) =~= m.push((k, v)));
    } else {
        lemma_cmp_antisym(k, m[0].0);
        lemma_map_insert_append(m.drop_first(), k, v);
        assert(m.drop_first().push((k, v)) =~= (seq![m[0]] + m.drop_first().push((k, v))).drop_first());
        assert(map_insert(m, k, v) =~= m.push((k, v)));
    }
}

/// Rebuilding an already key-sorted pair sequence entry by entry
/// leaves it unchanged.
pub proof fn lemma_map_from_pairs_sorted(m: Seq<(ValueModel, ValueModel)>)
    requires
        sorted_pairs(m),
    ensures
        map_from_pairs(m) == m,
    decreases m.len(),
{
    if m.len() > 0 {
        assert(sorted_pairs(m.drop_last()));
        lemma_map_from_pairs_sorted(m.drop_last());
        lemma_map_insert_append(m.drop_last(), m.last().0, m.last().1);
        assert(m.drop_last().push((m.last().0, m.last().1)) =~= m);
    }
}

/// Insert a key-value pair into a key-sorted pair sequence, keeping it
/// sorted; an entry with an equal key is replaced.
pub open spec fn map_insert(
    m: Seq<(ValueModel, ValueModel)>,
    k: ValueModel,
    v: ValueModel,
) -> Seq<(ValueModel, ValueModel)>
    decreases m.len(),
{
    if m.len() == 0 {
        seq![(k, v)]
    } else {
        let c = cmp(k, m[0].0);
        if c < 0 {
            seq![(k, v)] + m
        } else if c == 0 {
            seq![(k, v)] + m.drop_first()
        } else {
            seq![m[0]] + map_insert(m.drop_first(), k, v)
        }
    }
}

/// Inserting adds at most one entry.
pub proof fn lemma_map_insert_len(m: Seq<(ValueModel, ValueModel)>, k: ValueModel, v: ValueModel)
    ensures
        map_insert(m, k, v).len() <= m.len() + 1,
    decreases m.len(),
{
    if m.len() > 0 && cmp(k, m[0].0) > 0 {
        lemma_map_insert_len(m.drop_first(), k, v);
    }
}

/// Every key after an insert is the inserted key or one of the old
/// keys.
pub proof fn lemma_map_insert_keys(m: Seq<(ValueModel, ValueModel)>, k: ValueModel, v: ValueModel)
    ensures
        forall|j: int| 0 <= j < map_insert(m, k, v).len() ==> (#[trigger] map_insert(m, k, v)[j]).0
            == k || (exists|i: int| 0 <= i < m.len() && map_insert(m, k, v)[j].0 == #[trigger] m[
            i].0),
    decreases m.len(),
{
    let r = map_insert(m, k, v);
    if m.len() == 0 {
    } else {
        let c = cmp(k, m[0].0);
        if c > 0 {
            lemma_map_insert_keys(m.drop_first(), k, v);
            let rr = map_insert(m.drop_first(), k, v);
            assert forall|j: int| 0 <= j < r.len() implies (#[trigger] r[j]).0 == k || (exists|
                i: int,
            | 0 <= i < m.len() && r[j].0 == #[trigger] m[i].0) by {
                if j == 0 {
                    assert(r[0].0 == m[0].0);
                } else {
                    assert(r[j] == rr[j - 1]);
                    if rr[j - 1].0 != k {
                        let i0 = choose|i0: int|
                            0 <= i0 < m.drop_first().len() && rr[j - 1].0 == #[trigger] m.drop_first()[
                                i0].0;
                        assert(m.drop_first()[i0] == m[i0 + 1]);
                    }
                }
            }
        }
    }
}

/// Inserting into a key-sorted pair sequence keeps it key-sorted.
pub proof fn lemma_map_insert_sorted(m: Seq<(ValueModel, ValueModel)>, k: ValueModel, v: ValueModel)
    requires
        sorted_pairs(m),
    ensures
        sorted_pairs(map_insert(m, k, v)),
    decreases m.len(),
{
    let r = map_insert(m, k, v);
    if m.len() == 0 {
    } else {
        let c = cmp(k, m[0].0);
        if c < 0 {
            assert forall|i: int, j: int| 0 <= i < j < r.len() implies cmp(
                #[trigger] r[i].0,
                #[trigger] r[j].0,
            ) < 0 by {
                if i == 0 {
                    assert(r[j].0 == m[j - 1].0);
                    if j == 1 {
                    } else {
                        lemma_cmp_trans(k, m[0].0, m[j - 1].0);
                    }
                } else {
                    assert(r[i].0 == m[i - 1].0 && r[j].0 == m[j - 1].0);
                }
            }
        } else if c == 0 {
            lemma_cmp_eq(k, m[0].0);
            assert forall|i: int, j: int| 0 <= i < j < r.len() implies cmp(
                #[trigger] r[i].0,
                #[trigger] r[j].0,
            ) < 0 by {
                if i == 0 {
                    assert(r[j].0 == m[j].0);
                    assert(cmp(m[0].0, m[j].0) < 0);
                } else {
                    assert(r[i].0 == m[i].0 && r[j].0 == m[j].0);
                }
            }
        } else {
            assert(sorted_pairs(m.drop_first())) by {
                assert forall|i: int, j: int|
                    0 <= i < j < m.drop_first().len() implies cmp(
                    #[trigger] m.drop_first()[i].0,
                    #[trigger] m.drop_first()[j].0,
                ) < 0 by {
                    assert(m.drop_first()[i] == m[i + 1] && m.drop_first()[j] == m[j + 1]);
                }
            }
            lemma_map_insert_sorted(m.drop_first(), k, v);
            lemma_map_insert_keys(m.drop_first(), k, v);
            lemma_cmp_antisym(k, m[0].0);
            let rr = map_insert(m.drop_first(), k, v);
            assert forall|i: int, j: int| 0 <= i < j < r.len() implies cmp(
                #[trigger] r[i].0,
                #[trigger] r[j].0,
            ) < 0 by {
                if i == 0 {
                    assert(r[0] == m[0]);
                    assert(r[j] == rr[j - 1]);
                    if rr[j - 1].0 == k {
                        assert(cmp(m[0].0, k) < 0);
                    } else {
                        let i0 = choose|i0: int|
                            0 <= i0 < m.drop_first().len() && rr[j - 1].0 == #[trigger] m.drop_first()[
                                i0].0;
                        assert(m.drop_first()[i0] == m[i0 + 1]);
                        assert(cmp(m[0].0, m[i0 + 1].0) < 0);
                    }
                } else {
                    assert(r[i] == rr[i - 1] && r[j] == rr[j - 1]);
                }
            }
        }
    }
}

/// Inserting a well-formed key and value into well-formed entries
/// keeps every entry well-formed.
pub proof fn lemma_map_insert_wf(m: Seq<(ValueModel, ValueModel)>, k: ValueModel, v: ValueModel)
    requires
        wf_pairs(m),
        wf(k),
        wf(v),
    ensures
        wf_pairs(map_insert(m, k, v)),
    decreases m.len(),
{
    let r = map_insert(m, k, v);
    if m.len() == 0 {
        assert(r[0] == (k, v));
        assert(r.drop_first() =~= Seq::<(ValueModel, ValueModel)>::empty());
        assert(wf_pairs(r.drop_first()));
    } else {
        let c = cmp(k, m[0].0);
        if c < 0 {
            assert(r[0] == (k, v));
            assert(r.drop_first() =~= m);
        } else if c == 0 {
            assert(r[0] == (k, v));
            assert(r.drop_first() =~= m.drop_first());
        } else {
            lemma_map_insert_wf(m.drop_first(), k, v);
            assert(r[0] == m[0]);
            assert(r.drop_first() =~= map_insert(m.drop_first(), k, v));
        }
    }
}

/// Dropping the last entry keeps well-formedness, and that entry was
/// well-formed.
pub proof fn lemma_wf_pairs_drop_last(ps: Seq<(ValueModel, ValueModel)>)
    requires
        wf_pairs(ps),
        ps.len() > 0,
    ensures
        wf_pairs(ps.drop_last()),
        wf(ps.last().0),
        wf(ps.last().1),
    decreases ps.len(),
{
    if ps.len() == 1 {
        assert(ps.drop_last() =~= Seq::<(ValueModel, ValueModel)>::empty());
    } else {
        lemma_wf_pairs_drop_last(ps.drop_first());
        assert(ps.drop_first().last() == ps.last());
        assert(ps.drop_last()[0] == ps[0]);
        assert(ps.drop_last().drop_first() =~= ps.drop_first().drop_last());
    }
}

/// A mapping built from well-formed pairs in any wire order is
/// key-sorted, holds well-formed entries, and is no longer than the
/// pairs it was built from.
pub proof fn lemma_map_from_pairs_wf(ps: Seq<(ValueModel, ValueModel)>)
    requires
        wf_pairs(ps),
    ensures
        sorted_pairs(map_from_pairs(ps)),
        wf_pairs(map_from_pairs(ps)),
        map_from_pairs(ps).len() <= ps.len(),
{
    lemma_map_from_pairs_wf_rec(ps);
}

proof fn lemma_map_from_pairs_wf_rec(ps: Seq<(ValueModel, ValueModel)>)
    requires
        wf_pairs(ps),
    ensures
        sorted_pairs(map_from_pairs(ps)),
        wf_pairs(map_from_pairs(ps)),
        map_from_pairs(ps).len() <= ps.len(),
    decreases ps.len(),
{
    if ps.len() > 0 {
        lemma_wf_pairs_drop_last(ps);
        lemma_map_from_pairs_wf_rec(ps.drop_last());
        let base = map_from_pairs(ps.drop_last());
        lemma_map_insert_sorted(base, ps.last().0, ps.last().1);
        lemma_map_insert_wf(base, ps.last().0, ps.last().1);
        lemma_map_insert_len(base, ps.last().0, ps.last().1);
    }
}

/// Build a key-sorted mapping from pairs in wire order, inserting each
/// in turn; a later duplicate key replaces the earlier entry.
pub open spec fn map_from_pairs(ps: Seq<(ValueModel, ValueModel)>) -> Seq<(ValueModel, ValueModel)>
    decreases ps.len(),
{
    if ps.len() == 0 {
        Seq::empty()
    } else {
        map_insert(map_from_pairs(ps.drop_last()), ps.last().0, ps.last().1)
    }
}

} // verus!
