//! The tagged wrapper, the single-field wrapper and the other
//! lookahead-based decode shapes.

use c2pa_cbor::{to_vec, Decoder, Encoder, Error, Tagged, Value};

#[test]
fn test_tagged_deserialize_from_cbor() {
    // A tagged value round-trips through CBOR with its tag number
    let tagged_original = Tagged::new(Some(32), Value::Text("https://example.com".to_string()));
    let mut encoder = Encoder::new();
    tagged_original.write(&mut encoder).unwrap();
    let cbor = encoder.into_inner();

    let mut decoder = Decoder::new(cbor);
    let tagged_decoded = Tagged::read_value(&mut decoder).unwrap();

    assert_eq!(tagged_decoded.tag, Some(32));
    assert_eq!(
        tagged_decoded.value,
        Value::Text("https://example.com".to_string())
    );
}

#[test]
fn test_tagged_untagged_transparent() {
    // Without a tag, the wrapper is fully transparent
    let tagged = Tagged::new(None, Value::Integer(42));
    let mut encoder = Encoder::new();
    tagged.write(&mut encoder).unwrap();
    let cbor = encoder.into_inner();
    assert_eq!(cbor, vec![0x18, 0x2a]);

    let mut decoder = Decoder::new(cbor);
    let decoded = Tagged::read_value(&mut decoder).unwrap();
    assert_eq!(decoded.tag, None);
    assert_eq!(decoded.value, Value::Integer(42));
}

#[test]
fn test_tagged_from_value_record() {
    // An explicit {tag, value} record names its tag
    let record = Value::Mapping(vec![
        (Value::Text("tag".to_string()), Value::Integer(32)),
        (
            Value::Text("value".to_string()),
            Value::Text("https://example.com".to_string()),
        ),
    ]);
    let tagged = Tagged::from_value(record);
    assert_eq!(tagged.tag, Some(32));
    assert_eq!(tagged.value, Value::Text("https://example.com".to_string()));
}

#[test]
fn test_tagged_from_value_null_tag() {
    let record = Value::Mapping(vec![
        (Value::Text("tag".to_string()), Value::Null),
        (Value::Text("value".to_string()), Value::Integer(9)),
    ]);
    let tagged = Tagged::from_value(record);
    assert_eq!(tagged.tag, None);
    assert_eq!(tagged.value, Value::Integer(9));
}

#[test]
fn test_tagged_from_value_plain() {
    // A plain value stays itself, untagged
    let tagged = Tagged::from_value(Value::Text("https://example.com".to_string()));
    assert_eq!(tagged.tag, None);
    assert_eq!(tagged.value, Value::Text("https://example.com".to_string()));

    // A mapping of another shape is taken whole
    let other = Value::Mapping(vec![(Value::Text("name".to_string()), Value::Integer(1))]);
    let tagged_other = Tagged::from_value(other.clone());
    assert_eq!(tagged_other.tag, None);
    assert_eq!(tagged_other.value, other);
}

#[test]
fn test_wrapper_array_form() {
    // A 1-element array containing a mapping decodes as a wrapper
    // around that mapping
    let inner = Value::Mapping(vec![(Value::Text("k".to_string()), Value::Integer(1))]);
    let wrapped = Value::Array(vec![inner.clone()]);
    let bytes = to_vec(&wrapped).unwrap();

    let mut decoder = Decoder::new(bytes);
    let unwrapped = decoder.read_wrapper().unwrap();
    assert_eq!(unwrapped, inner);
}

#[test]
fn test_wrapper_legacy_bare_form() {
    // A bare mapping (no wrapping array) also decodes as the same
    // wrapper, for backward compatibility
    let inner = Value::Mapping(vec![(Value::Text("k".to_string()), Value::Integer(1))]);
    let bytes = to_vec(&inner).unwrap();

    let mut decoder = Decoder::new(bytes);
    let unwrapped = decoder.read_wrapper().unwrap();
    assert_eq!(unwrapped, inner);
}

#[test]
fn test_wrapper_wrong_length() {
    // A wrapping array of any other length is an error
    let bytes = to_vec(&Value::Array(vec![Value::Integer(1), Value::Integer(2)])).unwrap();
    let mut decoder = Decoder::new(bytes);
    assert_eq!(decoder.read_wrapper(), Err(Error::Syntax));
}

#[test]
fn test_wrapper_encode() {
    // Encoding a wrapper emits the canonical 1-element array form
    let mut encoder = Encoder::new();
    encoder.write_wrapper(&Value::Integer(42)).unwrap();
    let bytes = encoder.into_inner();
    assert_eq!(bytes, vec![0x81, 0x18, 0x2a]);
}

#[test]
fn test_optional_roundtrip() {
    // Null decodes as absent; anything else as present
    let mut encoder = Encoder::new();
    encoder.write_optional(None).unwrap();
    encoder.write_optional(Some(&Value::Integer(5))).unwrap();
    let bytes = encoder.into_inner();
    assert_eq!(bytes, vec![0xf6, 0x05]);

    let mut decoder = Decoder::new(bytes);
    assert_eq!(decoder.read_optional().unwrap(), None);
    assert_eq!(decoder.read_optional().unwrap(), Some(Value::Integer(5)));
}

#[test]
fn test_variant_unit() {
    // A unit variant travels as its name
    let mut encoder = Encoder::new();
    encoder.write_unit_variant("Temporal").unwrap();
    let bytes = encoder.into_inner();

    let mut decoder = Decoder::new(bytes);
    let (name, data) = decoder.read_variant().unwrap();
    assert_eq!(name.as_str(), "Temporal");
    assert_eq!(data, None);
}

#[test]
fn test_variant_with_data() {
    // A data-carrying variant travels as a single-entry mapping
    let mut encoder = Encoder::new();
    encoder.write_variant_name("Newtype").unwrap();
    encoder.write_value(&Value::Integer(7)).unwrap();
    let bytes = encoder.into_inner();
    assert_eq!(bytes[0], (5 << 5) | 1);

    let mut decoder = Decoder::new(bytes);
    let (name, data) = decoder.read_variant().unwrap();
    assert_eq!(name.as_str(), "Newtype");
    assert_eq!(data, Some(Value::Integer(7)));
}

#[test]
fn test_variant_wrong_arity() {
    // A mapping with two entries is not a variant
    let bytes = to_vec(&Value::Mapping(vec![
        (Value::Text("a".to_string()), Value::Integer(1)),
        (Value::Text("b".to_string()), Value::Integer(2)),
    ]))
    .unwrap();
    let mut decoder = Decoder::new(bytes);
    assert_eq!(decoder.read_variant(), Err(Error::Syntax));
}

#[test]
fn test_encode_tagged_value() {
    let mut buf = Vec::new();
    c2pa_cbor::encode_tagged(&mut buf, 1, &Value::Integer(1363896240)).unwrap();
    assert_eq!(buf, vec![0xc1, 0x1a, 0x51, 0x4b, 0x67, 0xb0]);
}

#[test]
fn test_decoder_primitives() {
    let mut decoder = Decoder::new(vec![0x12, 0x34, 0x56, 0x78, 0xff]);
    assert_eq!(decoder.peek_u8().unwrap(), 0x12);
    assert_eq!(decoder.read_u8().unwrap(), 0x12);
    assert_eq!(decoder.read_u16().unwrap(), 0x3456);
    assert!(decoder.is_break().unwrap() == false);
    assert_eq!(decoder.read_u8().unwrap(), 0x78);
    assert!(decoder.is_break().unwrap());
    decoder.read_break().unwrap();
    assert_eq!(decoder.read_u8(), Err(Error::Eof));
}
