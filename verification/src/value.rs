//! Dynamic CBOR value type for working with untyped CBOR data.
//!
//! [`Value`] can represent any decodable item without knowing its type
//! at compile time.  Its specification-level view is a
//! [`ValueModel`]; every contract about encoding and decoding is
//! stated over that view.
//!
//! A mapping is kept as a vector of key-value pairs whose keys are
//! strictly increasing in the structural order [`Value::cmp`], so keys
//! stay unique and iteration is deterministic.

use vstd::prelude::*;

use crate::model;
use crate::model::ValueModel;

verus! {

broadcast use vstd::std_specs::vec::group_vec_axioms, vstd::seq::axiom_seq_index_decreases,
    vstd::seq::axiom_seq_subrange_decreases;

/// Dynamic representation of one CBOR item.
#[derive(Debug, PartialEq)]
pub enum Value {
    /// Null value.
    Null,
    /// Boolean value.
    Bool(bool),
    /// Integer value (signed 64-bit).
    Integer(i64),
    /// Floating point value, carried as the bits of its IEEE-754
    /// binary64 representation.
    Float(u64),
    /// Byte string.
    Bytes(Vec<u8>),
    /// Text string.
    Text(String),
    /// Array of values.
    Array(Vec<Value>),
    /// Mapping of values, as key-sorted key-value pairs.
    Mapping(Vec<(Value, Value)>),
    /// Tagged value (tag number, boxed content).
    Tag(u64, Box<Value>),
}

/// Model of a sequence of values.
pub open spec fn view_seq(s: Seq<Value>) -> Seq<ValueModel>
    decreases s, 0int, s.len(),
{
    if s.len() == 0 {
        Seq::empty()
    } else {
        view_seq(s.drop_last()) + seq![s.last()@]
    }
}

/// Model of a sequence of key-value pairs.
pub open spec fn view_pairs(s: Seq<(Value, Value)>) -> Seq<(ValueModel, ValueModel)>
    decreases s, 0int, s.len(),
{
    if s.len() == 0 {
        Seq::empty()
    } else {
        view_pairs(s.drop_last()) + seq![(s.last().0@, s.last().1@)]
    }
}

impl View for Value {
    type V = ValueModel;

    open spec fn view(&self) -> ValueModel
        decreases self, 1int, 0int,
    {
        match self {
            Value::Null => ValueModel::Null,
            Value::Bool(b) => ValueModel::Bool(*b),
            Value::Integer(i) => ValueModel::Int(*i),
            Value::Float(bits) => ValueModel::Float(*bits),
            Value::Bytes(b) => ValueModel::Bytes(b@),
            Value::Text(t) => ValueModel::Text(t@),
            Value::Array(a) => ValueModel::Array(view_seq(a@)),
            Value::Mapping(m) => ValueModel::Mapping(view_pairs(m@)),
            Value::Tag(n, x) => ValueModel::Tag(*n, Box::new((**x)@)),
        }
    }
}

impl Clone for Value {
    /// Deep copy: the copy has the same model as the original.
    #[verifier::loop_isolation(false)]
    fn clone(&self) -> (r: Self)
        ensures
            r@ == self@,
        decreases self, 1int, 0int,
    {
        match self {
            Value::Null => Value::Null,
            Value::Bool(b) => Value::Bool(*b),
            Value::Integer(i) => Value::Integer(*i),
            Value::Float(bits) => Value::Float(*bits),
            Value::Bytes(b) => Value::Bytes(b.clone()),
            Value::Text(t) => Value::Text(t.clone()),
            Value::Array(a) => {
                let mut out: Vec<Value> = Vec::new();
                let mut i: usize = 0;
                while i < a.len()
                    invariant
                        i <= a.len(),
                        out@.len() == i,
                        forall|j: int| 0 <= j < i ==> out@[j]@ == a@[j]@,
                    decreases a.len() - i,
                {
                    proof {
                        assert(decreases_to!(*a => a@));
                        assert(decreases_to!(a@ => a@[i as int]));
                    }
                    out.push(a[i].clone());
                    i = i + 1;
                }
                proof {
                    lemma_view_seq_len(out@);
                    lemma_view_seq_len(a@);
                    assert forall|j: int| 0 <= j < a@.len() implies view_seq(out@)[j] == view_seq(
                        a@,
                    )[j] by {
                        lemma_view_seq_index(out@, j);
                        lemma_view_seq_index(a@, j);
                    }
                    assert(view_seq(out@) =~= view_seq(a@));
                }
                Value::Array(out)
            },
            Value::Mapping(m) => {
                let mut out: Vec<(Value, Value)> = Vec::new();
                let mut i: usize = 0;
                while i < m.len()
                    invariant
                        i <= m.len(),
                        out@.len() == i,
                        forall|j: int| 0 <= j < i ==> (#[trigger] out@[j]).0@ == m@[j].0@ && out@[j].1@
                            == m@[j].1@,
                    decreases m.len() - i,
                {
                    proof {
                        assert(decreases_to!(*m => m@));
                        assert(decreases_to!(m@ => m@[i as int]));
                    }
                    let k = m[i].0.clone();
                    let v = m[i].1.clone();
                    out.push((k, v));
                    i = i + 1;
                }
                proof {
                    lemma_view_pairs_len(out@);
                    lemma_view_pairs_len(m@);
                    assert forall|j: int| 0 <= j < m@.len() implies view_pairs(out@)[j]
                        == view_pairs(m@)[j] by {
                        lemma_view_pairs_index(out@, j);
                        lemma_view_pairs_index(m@, j);
                    }
                    assert(view_pairs(out@) =~= view_pairs(m@));
                }
                Value::Mapping(out)
            },
            Value::Tag(n, x) => Value::Tag(*n, Box::new((**x).clone())),
        }
    }
}

/// The length of a modelled sequence is the length of its source.
pub proof fn lemma_view_seq_len(s: Seq<Value>)
    ensures
        view_seq(s).len() == s.len(),
    decreases s.len(),
{
    if s.len() > 0 {
        lemma_view_seq_len(s.drop_last());
        assert(view_seq(s) == view_seq(s.drop_last()) + seq![s.last()@]);
    }
}

/// Each element of a modelled sequence is the model of its source
/// element.
pub proof fn lemma_view_seq_index(s: Seq<Value>, i: int)
    requires
        0 <= i < s.len(),
    ensures
        view_seq(s).len() == s.len(),
        view_seq(s)[i] == s[i]@,
    decreases s.len(),
{
    lemma_view_seq_len(s);
    lemma_view_seq_len(s.drop_last());
    assert(view_seq(s) == view_seq(s.drop_last()) + seq![s.last()@]);
    if i < s.len() - 1 {
        lemma_view_seq_index(s.drop_last(), i);
    }
}

/// The length of a modelled pair sequence is the length of its source.
pub proof fn lemma_view_pairs_len(s: Seq<(Value, Value)>)
    ensures
        view_pairs(s).len() == s.len(),
    decreases s.len(),
{
    if s.len() > 0 {
        lemma_view_pairs_len(s.drop_last());
        assert(view_pairs(s) == view_pairs(s.drop_last()) + seq![(s.last().0@, s.last().1@)]);
    }
}

/// Each entry of a modelled pair sequence is the model of its source
/// entry.
pub proof fn lemma_view_pairs_index(s: Seq<(Value, Value)>, i: int)
    requires
        0 <= i < s.len(),
    ensures
        view_pairs(s).len() == s.len(),
        view_pairs(s)[i] == (s[i].0@, s[i].1@),
    decreases s.len(),
{
    lemma_view_pairs_len(s);
    lemma_view_pairs_len(s.drop_last());
    assert(view_pairs(s) == view_pairs(s.drop_last()) + seq![(s.last().0@, s.last().1@)]);
    if i < s.len() - 1 {
        lemma_view_pairs_index(s.drop_last(), i);
    }
}

impl Value {
    /// Rank of the variant in the structural order.
    pub fn rank_code(&self) -> (r: u8)
        ensures
            r as int == model::rank(self@),
    {
        match self {
            Value::Null => 0,
            Value::Bool(_) => 1,
            Value::Integer(_) => 2,
            Value::Float(_) => 3,
            Value::Bytes(_) => 4,
            Value::Text(_) => 5,
            Value::Array(_) => 6,
            Value::Mapping(_) => 7,
            Value::Tag(_, _) => 8,
        }
    }

    /// Returns true if the value is null.
    pub fn is_null(&self) -> (r: bool)
        ensures
            r == (self@ is Null),
    {
        matches!(self, Value::Null)
    }

    /// Returns true if the value is a boolean.
    pub fn is_bool(&self) -> (r: bool)
        ensures
            r == (self@ is Bool),
    {
        matches!(self, Value::Bool(_))
    }

    /// Returns true if the value is an integer.
    pub fn is_integer(&self) -> (r: bool)
        ensures
            r == (self@ is Int),
    {
        matches!(self, Value::Integer(_))
    }

    /// Returns true if the value is a float.
    pub fn is_float(&self) -> (r: bool)
        ensures
            r == (self@ is Float),
    {
        matches!(self, Value::Float(_))
    }

    /// Returns true if the value is a byte string.
    pub fn is_bytes(&self) -> (r: bool)
        ensures
            r == (self@ is Bytes),
    {
        matches!(self, Value::Bytes(_))
    }

    /// Returns true if the value is a text string.
    pub fn is_text(&self) -> (r: bool)
        ensures
            r == (self@ is Text),
    {
        matches!(self, Value::Text(_))
    }

    /// Returns true if the value is an array.
    pub fn is_array(&self) -> (r: bool)
        ensures
            r == (self@ is Array),
    {
        matches!(self, Value::Array(_))
    }

    /// Returns true if the value is a mapping.
    pub fn is_map(&self) -> (r: bool)
        ensures
            r == (self@ is Mapping),
    {
        matches!(self, Value::Mapping(_))
    }

    /// Returns true if the value is tagged.
    pub fn is_tag(&self) -> (r: bool)
        ensures
            r == (self@ is Tag),
    {
        matches!(self, Value::Tag(_, _))
    }

    /// Returns the value as a boolean, if it is one.
    pub fn as_bool(&self) -> (r: Option<bool>)
        ensures
            r == (match self@ {
                ValueModel::Bool(b) => Some(b),
                _ => None::<bool>,
            }),
    {
        match self {
            Value::Bool(b) => Some(*b),
            _ => None,
        }
    }

    /// Returns the value as an integer, if it is one.
    pub fn as_i64(&self) -> (r: Option<i64>)
        ensures
            r == (match self@ {
                ValueModel::Int(i) => Some(i),
                _ => None::<i64>,
            }),
    {
        match self {
            Value::Integer(i) => Some(*i),
            _ => None,
        }
    }

    /// Returns the bits of the value's IEEE-754 binary64 form, if it
    /// is a float.
    pub fn as_float_bits(&self) -> (r: Option<u64>)
        ensures
            r == (match self@ {
                ValueModel::Float(bits) => Some(bits),
                _ => None::<u64>,
            }),
    {
        match self {
            Value::Float(bits) => Some(*bits),
            _ => None,
        }
    }

    /// Returns the value as bytes, if it is a byte string.
    pub fn as_bytes(&self) -> (r: Option<&Vec<u8>>)
        ensures
            match self@ {
                ValueModel::Bytes(b) => r is Some && r->0@ == b,
                _ => r is None,
            },
    {
        match self {
            Value::Bytes(b) => Some(b),
            _ => None,
        }
    }

    /// Returns the value as text, if it is a text string.
    pub fn as_str(&self) -> (r: Option<&String>)
        ensures
            match self@ {
                ValueModel::Text(t) => r is Some && r->0@ == t,
                _ => r is None,
            },
    {
        match self {
            Value::Text(t) => Some(t),
            _ => None,
        }
    }

    /// Returns the value as an array, if it is one.
    pub fn as_array(&self) -> (r: Option<&Vec<Value>>)
        ensures
            match self@ {
                ValueModel::Array(a) => r is Some && view_seq(r->0@) == a,
                _ => r is None,
            },
    {
        match self {
            Value::Array(a) => Some(a),
            _ => None,
        }
    }

    /// Returns the value as a mapping's key-sorted entries, if it is
    /// one.
    pub fn as_map(&self) -> (r: Option<&Vec<(Value, Value)>>)
        ensures
            match self@ {
                ValueModel::Mapping(m) => r is Some && view_pairs(r->0@) == m,
                _ => r is None,
            },
    {
        match self {
            Value::Mapping(m) => Some(m),
            _ => None,
        }
    }

    /// Returns the tag number and inner value, if this is a tagged
    /// value.
    pub fn as_tag(&self) -> (r: Option<(u64, &Value)>)
        ensures
            match self@ {
                ValueModel::Tag(n, x) => r is Some && (r->0).0 == n && ((r->0).1)@ == *x,
                _ => r is None,
            },
    {
        match self {
            Value::Tag(n, x) => Some((*n, &**x)),
            _ => None,
        }
    }

    /// Three-way structural comparison: -1, 0 or 1 as `self` stands
    /// before, equal to or after `other` in the total structural
    /// order.
    #[verifier::loop_isolation(false)]
    pub fn cmp(&self, other: &Value) -> (r: i8)
        ensures
            r as int == model::cmp(self@, other@),
        decreases self, 1int, 0int,
    {
        let ra = self.rank_code();
        let rb = other.rank_code();
        if ra < rb {
            -1
        } else if ra > rb {
            1
        } else {
            match (self, other) {
                (Value::Null, Value::Null) => 0,
                (Value::Bool(x), Value::Bool(y)) => {
                    if *x == *y {
                        0
                    } else if !*x {
                        -1
                    } else {
                        1
                    }
                },
                (Value::Integer(x), Value::Integer(y)) => {
                    if *x < *y {
                        -1
                    } else if *x > *y {
                        1
                    } else {
                        0
                    }
                },
                (Value::Float(x), Value::Float(y)) => {
                    if *x < *y {
                        -1
                    } else if *x > *y {
                        1
                    } else {
                        0
                    }
                },
                (Value::Bytes(x), Value::Bytes(y)) => cmp_bytes_vec(x, y),
                (Value::Text(x), Value::Text(y)) => {
                    let bx = x.as_str().as_bytes_vec();
                    let by = y.as_str().as_bytes_vec();
                    cmp_bytes_vec(&bx, &by)
                },
                (Value::Array(x), Value::Array(y)) => {
                    proof {
                        lemma_view_seq_len(x@);
                        lemma_view_seq_len(y@);
                        assert(view_seq(x@).skip(0) =~= view_seq(x@));
                        assert(view_seq(y@).skip(0) =~= view_seq(y@));
                    }
                    let mut i: usize = 0;
                    loop
                        invariant
                            i <= x.len(),
                            i <= y.len(),
                            model::cmp_seq(view_seq(x@), view_seq(y@)) == model::cmp_seq(
                                view_seq(x@).skip(i as int),
                                view_seq(y@).skip(i as int),
                            ),
                            view_seq(x@).len() == x@.len(),
                            view_seq(y@).len() == y@.len(),
                        decreases x.len() - i,
                    {
                        proof {
                            lemma_view_seq_len(x@);
                            lemma_view_seq_len(y@);
                        }
                        if i == x.len() || i == y.len() {
                            let r: i8 = if x.len() == y.len() {
                                0
                            } else if i == x.len() {
                                -1
                            } else {
                                1
                            };
                            assert(r as int == model::cmp_seq(
                                view_seq(x@).skip(i as int),
                                view_seq(y@).skip(i as int),
                            ));
                            return r;
                        }
                        proof {
                            assert(decreases_to!(*x => x@));
                            assert(decreases_to!(x@ => x@[i as int]));
                        }
                        let c = x[i].cmp(&y[i]);
                        proof {
                            lemma_view_seq_index(x@, i as int);
                            lemma_view_seq_index(y@, i as int);
                            assert(view_seq(x@).skip(i as int)[0] == x@[i as int]@);
                            assert(view_seq(y@).skip(i as int)[0] == y@[i as int]@);
                            assert(view_seq(x@).skip(i as int).drop_first() =~= view_seq(x@).skip(
                                i as int + 1,
                            ));
                            assert(view_seq(y@).skip(i as int).drop_first() =~= view_seq(y@).skip(
                                i as int + 1,
                            ));
                        }
                        if c != 0 {
                            return c;
                        }
                        i = i + 1;
                    }
                },
                (Value::Mapping(x), Value::Mapping(y)) => {
                    proof {
                        lemma_view_pairs_len(x@);
                        lemma_view_pairs_len(y@);
                        assert(view_pairs(x@).skip(0) =~= view_pairs(x@));
                        assert(view_pairs(y@).skip(0) =~= view_pairs(y@));
                    }
                    let mut i: usize = 0;
                    loop
                        invariant
                            i <= x.len(),
                            i <= y.len(),
                            model::cmp_pairs(view_pairs(x@), view_pairs(y@)) == model::cmp_pairs(
                                view_pairs(x@).skip(i as int),
                                view_pairs(y@).skip(i as int),
                            ),
                            view_pairs(x@).len() == x@.len(),
                            view_pairs(y@).len() == y@.len(),
                        decreases x.len() - i,
                    {
                        proof {
                            lemma_view_pairs_len(x@);
                            lemma_view_pairs_len(y@);
                        }
                        if i == x.len() || i == y.len() {
                            let r: i8 = if x.len() == y.len() {
                                0
                            } else if i == x.len() {
                                -1
                            } else {
                                1
                            };
                            assert(r as int == model::cmp_pairs(
                                view_pairs(x@).skip(i as int),
                                view_pairs(y@).skip(i as int),
                            ));
                            return r;
                        }
                        proof {
                            assert(decreases_to!(*x => x@));
                            assert(decreases_to!(x@ => x@[i as int]));
                        }
                        let ck = x[i].0.cmp(&y[i].0);
                        proof {
                            lemma_view_pairs_index(x@, i as int);
                            lemma_view_pairs_index(y@, i as int);
                            assert(view_pairs(x@).skip(i as int)[0] == (x@[i as int].0@, x@[i as int].1@));
                            assert(view_pairs(y@).skip(i as int)[0] == (y@[i as int].0@, y@[i as int].1@));
                            assert(view_pairs(x@).skip(i as int).drop_first() =~= view_pairs(
                                x@,
                            ).skip(i as int + 1));
                            assert(view_pairs(y@).skip(i as int).drop_first() =~= view_pairs(
                                y@,
                            ).skip(i as int + 1));
                        }
                        if ck != 0 {
                            return ck;
                        }
                        let cv = x[i].1.cmp(&y[i].1);
                        if cv != 0 {
                            return cv;
                        }
                        i = i + 1;
                    }
                },
                (Value::Tag(n, x), Value::Tag(m, y)) => {
                    if *n < *m {
                        -1
                    } else if *n > *m {
                        1
                    } else {
                        (**x).cmp(&**y)
                    }
                },
                _ => {
                    proof {
                        assert(false);
                    }
                    0
                },
            }
        }
    }
}

/// Lexicographic three-way comparison of byte vectors.
#[verifier::loop_isolation(false)]
pub fn cmp_bytes_vec(a: &Vec<u8>, b: &Vec<u8>) -> (r: i8)
    ensures
        r as int == model::cmp_bytes(a@, b@),
{
    proof {
        assert(a@.skip(0) =~= a@);
        assert(b@.skip(0) =~= b@);
    }
    let mut i: usize = 0;
    loop
        invariant
            i <= a.len(),
            i <= b.len(),
            model::cmp_bytes(a@, b@) == model::cmp_bytes(a@.skip(i as int), b@.skip(i as int)),
        decreases a.len() - i,
    {
        if i == a.len() || i == b.len() {
            let r: i8 = if a.len() == b.len() {
                0
            } else if i == a.len() {
                -1
            } else {
                1
            };
            return r;
        }
        let x = a[i];
        let y = b[i];
        proof {
            assert(a@.skip(i as int)[0] == a@[i as int]);
            assert(b@.skip(i as int)[0] == b@[i as int]);
            assert(a@.skip(i as int).drop_first() =~= a@.skip(i as int + 1));
            assert(b@.skip(i as int).drop_first() =~= b@.skip(i as int + 1));
        }
        if x < y {
            return -1;
        }
        if x > y {
            return 1;
        }
        i = i + 1;
    }
}

/// Unfolding of [`model::map_insert`] past a prefix of keys that all
/// stand before `k`.
proof fn lemma_map_insert_skip(
    m: Seq<(ValueModel, ValueModel)>,
    k: ValueModel,
    v: ValueModel,
    i: int,
)
    requires
        0 <= i <= m.len(),
        forall|j: int| 0 <= j < i ==> model::cmp(k, #[trigger] m[j].0) > 0,
    ensures
        model::map_insert(m, k, v) == m.subrange(0, i) + model::map_insert(m.skip(i), k, v),
    decreases i,
{
    if i == 0 {
        assert(m.skip(0) =~= m);
        assert(model::map_insert(m, k, v) =~= m.subrange(0, 0) + model::map_insert(m.skip(0), k, v));
    } else {
        lemma_map_insert_skip(m, k, v, i - 1);
        assert(m.skip(i - 1).len() > 0);
        assert(m.skip(i - 1)[0] == m[i - 1]);
        assert(model::cmp(k, m[i - 1].0) > 0);
        assert(model::map_insert(m.skip(i - 1), k, v) == seq![m[i - 1]] + model::map_insert(
            m.skip(i - 1).drop_first(),
            k,
            v,
        ));
        assert(m.skip(i - 1).drop_first() =~= m.skip(i));
        assert(m.subrange(0, i - 1) + (seq![m[i - 1]] + model::map_insert(m.skip(i), k, v))
            =~= m.subrange(0, i) + model::map_insert(m.skip(i), k, v));
    }
}

/// Insert a key-value pair into a key-sorted entry vector, keeping it
/// sorted; an entry with an equal key is replaced.
#[verifier::loop_isolation(false)]
pub fn map_insert_pair(m: &mut Vec<(Value, Value)>, k: Value, v: Value)
    ensures
        view_pairs(final(m)@) == model::map_insert(view_pairs(old(m)@), k@, v@),
{
    let ghost gm = view_pairs(old(m)@);
    proof {
        lemma_view_pairs_len(old(m)@);
    }
    let mut i: usize = 0;
    loop
        invariant
            i <= m.len(),
            *m == *old(m),
            gm == view_pairs(m@),
            gm.len() == m@.len(),
            forall|j: int| 0 <= j < i ==> model::cmp(k@, #[trigger] gm[j].0) > 0,
        decreases m.len() - i,
    {
        if i == m.len() {
            proof {
                lemma_map_insert_skip(gm, k@, v@, i as int);
                assert(gm.skip(i as int) =~= Seq::<(ValueModel, ValueModel)>::empty());
            }
            let ghost old_m = m@;
            m.push((k, v));
            proof {
                assert(m@.drop_last() =~= old_m);
                assert(view_pairs(m@) =~= gm.subrange(0, gm.len() as int) + seq![(k@, v@)]);
                assert(gm.subrange(0, gm.len() as int) =~= gm);
            }
            return ;
        }
        let c = k.cmp(&m[i].0);
        proof {
            lemma_view_pairs_index(m@, i as int);
        }
        if c < 0 {
            proof {
                lemma_map_insert_skip(gm, k@, v@, i as int);
                assert(gm.skip(i as int).len() > 0);
                assert(gm.skip(i as int)[0] == gm[i as int]);
                assert(model::map_insert(gm.skip(i as int), k@, v@) == seq![(k@, v@)] + gm.skip(
                    i as int,
                ));
            }
            let ghost old_m = m@;
            m.insert(i, (k, v));
            proof {
                lemma_view_pairs_of_insert(old_m, i as int, (k, v));
                assert(view_pairs(m@) =~= gm.subrange(0, i as int) + (seq![(k@, v@)] + gm.skip(
                    i as int,
                )));
            }
            return ;
        } else if c == 0 {
            proof {
                lemma_map_insert_skip(gm, k@, v@, i as int);
                assert(gm.skip(i as int).len() > 0);
                assert(gm.skip(i as int)[0] == gm[i as int]);
                assert(model::map_insert(gm.skip(i as int), k@, v@) == seq![(k@, v@)] + gm.skip(
                    i as int,
                ).drop_first());
                assert(gm.skip(i as int).drop_first() =~= gm.skip(i as int + 1));
            }
            let ghost old_m = m@;
            m.remove(i);
            proof {
                lemma_view_pairs_of_remove(old_m, i as int);
            }
            let ghost mid_m = m@;
            m.insert(i, (k, v));
            proof {
                lemma_view_pairs_of_insert(mid_m, i as int, (k, v));
                assert(old_m.remove(i as int).take(i as int) =~= old_m.take(i as int));
                assert(old_m.remove(i as int).skip(i as int) =~= old_m.skip(i as int + 1));
                assert(view_pairs(m@) =~= gm.subrange(0, i as int) + (seq![(k@, v@)] + gm.skip(
                    i as int + 1,
                )));
            }
            return ;
        }
        i = i + 1;
    }
}

/// The model of a pair vector after `insert` is the model with the
/// pair's model inserted.
proof fn lemma_view_pairs_of_insert(s: Seq<(Value, Value)>, i: int, p: (Value, Value))
    requires
        0 <= i <= s.len(),
    ensures
        view_pairs(s.insert(i, p)) =~= view_pairs(s).insert(i, (p.0@, p.1@)),
{
    lemma_view_pairs_len(s);
    lemma_view_pairs_len(s.insert(i, p));
    assert forall|j: int| 0 <= j < s.len() + 1 implies view_pairs(s.insert(i, p))[j] == view_pairs(
        s,
    ).insert(i, (p.0@, p.1@))[j] by {
        lemma_view_pairs_index(s.insert(i, p), j);
        if j < i {
            lemma_view_pairs_index(s, j);
        } else if j > i {
            lemma_view_pairs_index(s, j - 1);
        }
    }
}

/// The model of a pair vector after `remove` is the model with that
/// entry removed.
proof fn lemma_view_pairs_of_remove(s: Seq<(Value, Value)>, i: int)
    requires
        0 <= i < s.len(),
    ensures
        view_pairs(s.remove(i)) =~= view_pairs(s).remove(i),
{
    lemma_view_pairs_len(s);
    lemma_view_pairs_len(s.remove(i));
    assert forall|j: int| 0 <= j < s.len() - 1 implies view_pairs(s.remove(i))[j] == view_pairs(
        s,
    ).remove(i)[j] by {
        lemma_view_pairs_index(s.remove(i), j);
        if j < i {
            lemma_view_pairs_index(s, j);
        } else {
            lemma_view_pairs_index(s, j + 1);
        }
    }
}

} // verus!
