//! Tagged values: an optional tag number paired with an inner value.
//!
//! `tag = None` means full transparency: the value encodes and decodes
//! exactly as the bare inner value.  `tag = Some(n)` encodes as CBOR
//! tag framing (major type 6) followed by the inner value.
//!
//! Decoding is dual-mode: the tag-aware entry point
//! [`Tagged::read_value`] inspects the next item for tag framing, and
//! the shape-inferred [`Tagged::from_value`] reinterprets an already
//! decoded item, accepting an explicit `{tag, value}` record shape for
//! sources that cannot carry tag framing.

use vstd::prelude::*;

use crate::decode::Decoder;
use crate::encode::Encoder;
use crate::model::ValueModel;
use crate::value::{lemma_view_pairs_index, lemma_view_pairs_len, view_pairs, Value};
use crate::wire::{dec_tagged, enc, hdr};
use crate::Error;

verus! {

/// A tagged CBOR value.
#[derive(Debug, Clone, PartialEq)]
pub struct Tagged<T> {
    /// The CBOR tag number (optional for compatibility).
    pub tag: Option<u64>,
    /// The tagged value.
    pub value: T,
}

impl<T> Tagged<T> {
    /// Create a new tagged value.
    pub fn new(tag: Option<u64>, value: T) -> (r: Self)
        ensures
            r.tag == tag,
            r.value == value,
    {
        Tagged { tag, value }
    }
}

/// The tag number and inner value that the explicit-record shape of a
/// mapping stands for: `{tag: n, value: x}` names tag `n` with value
/// `x`, `{value: x}` and `{tag: null, value: x}` name an untagged
/// value `x`, and any other item stands for itself, untagged.
pub open spec fn tagged_of_model(m: ValueModel) -> (Option<u64>, ValueModel) {
    match m {
        ValueModel::Mapping(es) => {
            if es.len() == 2 && es[0].0 == ValueModel::Text("tag"@) && es[1].0 == ValueModel::Text(
                "value"@,
            ) {
                match es[0].1 {
                    ValueModel::Int(n) => if n >= 0 {
                        (Some(n as u64), es[1].1)
                    } else {
                        (None::<u64>, m)
                    },
                    ValueModel::Null => (None::<u64>, es[1].1),
                    _ => (None::<u64>, m),
                }
            } else if es.len() == 1 && es[0].0 == ValueModel::Text("value"@) {
                (None::<u64>, es[0].1)
            } else {
                (None::<u64>, m)
            }
        },
        _ => (None::<u64>, m),
    }
}

/// Whether the value is exactly the given text.
fn is_text_key(v: &Value, key: &String) -> (r: bool)
    ensures
        r == (v@ == ValueModel::Text(key@)),
{
    match v {
        Value::Text(t) => t.eq(key),
        _ => false,
    }
}

impl Tagged<Value> {
    /// Encode: `Some(n)` emits tag framing then the inner value;
    /// `None` emits only the inner value, with no framing at all.
    pub fn write(&self, encoder: &mut Encoder) -> (r: Result<(), Error>)
        ensures
            r is Ok,
            final(encoder)@ == old(encoder)@ + (match self.tag {
                Some(n) => hdr(6, n) + enc(self.value@),
                None => enc(self.value@),
            }),
    {
        match self.tag {
            Some(n) => {
                let _ = encoder.write_tag(n);
                let _ = encoder.write_value(&self.value);
                proof {
                    assert(final(encoder)@ =~= old(encoder)@ + (hdr(6, n) + enc(self.value@)));
                }
                Ok(())
            },
            None => encoder.write_value(&self.value),
        }
    }

    /// Tag-aware decode: if the next item is tag framing, consume the
    /// tag number and decode the inner value from the remainder;
    /// otherwise decode the inner value directly, with no tag.
    pub fn read_value(decoder: &mut Decoder) -> (r: Result<Tagged<Value>, Error>)
        requires
            old(decoder).wf(),
        ensures
            final(decoder).bytes() == old(decoder).bytes(),
            final(decoder).wf(),
            (match dec_tagged(old(decoder).bytes(), old(decoder).at()) {
                Ok(((t, v), p)) => r matches Ok(rv) && rv.tag == t && rv.value@ == v
                    && final(decoder).at() == p,
                Err(e) => r matches Err(re) && re == e,
            }),
    {
        let b = match decoder.peek_u8() {
            Ok(b) => b,
            Err(e) => {
                return Err(e);
            },
        };
        if b / 32 == 6 {
            let tag = match decoder.read_tag() {
                Ok(t) => t,
                Err(e) => {
                    return Err(e);
                },
            };
            match decoder.read_value() {
                Ok(v) => Ok(Tagged { tag: Some(tag), value: v }),
                Err(e) => Err(e),
            }
        } else {
            match decoder.read_value() {
                Ok(v) => Ok(Tagged { tag: None, value: v }),
                Err(e) => Err(e),
            }
        }
    }

    /// Shape-inferred decode of an already decoded item: a mapping is
    /// first interpreted as an explicit `{tag, value}` record, and
    /// only if its shape does not match is the whole item taken as
    /// the untagged value itself.
    pub fn from_value(v: Value) -> (r: Tagged<Value>)
        ensures
            r.tag == tagged_of_model(v@).0,
            r.value@ == tagged_of_model(v@).1,
    {
        let tag_key = String::from_str("tag");
        let value_key = String::from_str("value");
        match v {
            Value::Mapping(mut es) => {
                let ghost orig = es@;
                proof {
                    lemma_view_pairs_len(orig);
                    if orig.len() > 0 {
                        lemma_view_pairs_index(orig, 0);
                    }
                    if orig.len() > 1 {
                        lemma_view_pairs_index(orig, 1);
                    }
                }
                if es.len() == 2 {
                    let keys_ok = is_text_key(&es[0].0, &tag_key) && is_text_key(
                        &es[1].0,
                        &value_key,
                    );
                    let kind: u8 = if keys_ok {
                        match &es[0].1 {
                            Value::Integer(n) => if *n >= 0 {
                                1
                            } else {
                                0
                            },
                            Value::Null => 2,
                            _ => 0,
                        }
                    } else {
                        0
                    };
                    if kind != 0 {
                        let last = match es.pop() {
                            Some(p) => p,
                            None => {
                                proof {
                                    assert(false);
                                }
                                return Tagged { tag: None, value: Value::Null };
                            },
                        };
                        let first = match es.pop() {
                            Some(p) => p,
                            None => {
                                proof {
                                    assert(false);
                                }
                                return Tagged { tag: None, value: Value::Null };
                            },
                        };
                        proof {
                            assert(first == orig[0]);
                            assert(last == orig[1]);
                            assert(v@ == ValueModel::Mapping(view_pairs(orig)));
                            assert(view_pairs(orig)[1].1 == last.1@);
                            assert(view_pairs(orig)[0].0 == first.0@);
                        }
                        if kind == 1 {
                            match first.1 {
                                Value::Integer(n) => {
                                    return Tagged { tag: Some(n as u64), value: last.1 };
                                },
                                _ => {
                                    proof {
                                        assert(false);
                                    }
                                    return Tagged { tag: None, value: Value::Null };
                                },
                            }
                        } else {
                            return Tagged { tag: None, value: last.1 };
                        }
                    }
                    Tagged { tag: None, value: Value::Mapping(es) }
                } else if es.len() == 1 {
                    let key_ok = is_text_key(&es[0].0, &value_key);
                    if key_ok {
                        let last = match es.pop() {
                            Some(p) => p,
                            None => {
                                proof {
                                    assert(false);
                                }
                                return Tagged { tag: None, value: Value::Null };
                            },
                        };
                        proof {
                            assert(last == orig[0]);
                            assert(v@ == ValueModel::Mapping(view_pairs(orig)));
                            assert(view_pairs(orig)[0].1 == last.1@);
                        }
                        return Tagged { tag: None, value: last.1 };
                    }
                    Tagged { tag: None, value: Value::Mapping(es) }
                } else {
                    Tagged { tag: None, value: Value::Mapping(es) }
                }
            },
            other => Tagged { tag: None, value: other },
        }
    }
}

} // verus!
