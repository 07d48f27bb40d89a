//! The dynamic value type: construction, inspection, ordering and
//! round trips, including the float widening used on decode.

use c2pa_cbor::{from_slice, to_vec, Value};

#[test]
fn test_value_null() {
    let value = Value::Null;
    assert!(value.is_null());

    let bytes = to_vec(&value).unwrap();
    let decoded = from_slice(&bytes).unwrap();
    assert_eq!(value, decoded);
}

#[test]
fn test_value_bool() {
    let value = Value::Bool(true);
    assert!(value.is_bool());
    assert_eq!(value.as_bool(), Some(true));

    let bytes = to_vec(&value).unwrap();
    let decoded = from_slice(&bytes).unwrap();
    assert_eq!(value, decoded);
}

#[test]
fn test_value_integer() {
    let value = Value::Integer(42);
    assert!(value.is_integer());
    assert_eq!(value.as_i64(), Some(42));

    let bytes = to_vec(&value).unwrap();
    let decoded = from_slice(&bytes).unwrap();
    assert_eq!(value, decoded);
}

#[test]
fn test_value_text() {
    let value = Value::Text("hello".to_string());
    assert!(value.is_text());
    assert_eq!(value.as_str().unwrap().as_str(), "hello");

    let bytes = to_vec(&value).unwrap();
    let decoded = from_slice(&bytes).unwrap();
    assert_eq!(value, decoded);
}

#[test]
fn test_value_array() {
    let value = Value::Array(vec![Value::Integer(1), Value::Integer(2), Value::Integer(3)]);
    assert!(value.is_array());
    assert_eq!(value.as_array().unwrap().len(), 3);

    let bytes = to_vec(&value).unwrap();
    let decoded = from_slice(&bytes).unwrap();
    assert_eq!(value, decoded);
}

#[test]
fn test_value_map() {
    let value = Value::Mapping(vec![(Value::Text("key".to_string()), Value::Integer(42))]);
    assert!(value.is_map());

    let bytes = to_vec(&value).unwrap();
    let decoded = from_slice(&bytes).unwrap();
    assert_eq!(value, decoded);
}

#[test]
fn test_value_bytes() {
    let value = Value::Bytes(vec![1, 2, 3, 4, 5]);
    assert!(value.is_bytes());
    assert_eq!(value.as_bytes(), Some(&vec![1, 2, 3, 4, 5]));

    let bytes = to_vec(&value).unwrap();
    let decoded = from_slice(&bytes).unwrap();
    assert_eq!(value, decoded);
}

#[test]
fn test_value_float_and_tag_getters() {
    let f = Value::Float(1.5f64.to_bits());
    assert!(f.is_float());
    assert_eq!(f.as_float_bits(), Some(1.5f64.to_bits()));

    let t = Value::Tag(32, Box::new(Value::Text("x".to_string())));
    assert!(t.is_tag());
    let (n, inner) = t.as_tag().unwrap();
    assert_eq!(n, 32);
    assert_eq!(inner, &Value::Text("x".to_string()));
}

#[test]
fn test_value_clone_deep() {
    let value = Value::Array(vec![
        Value::Mapping(vec![(Value::Integer(1), Value::Bytes(vec![9, 8]))]),
        Value::Tag(7, Box::new(Value::Text("inner".to_string()))),
    ]);
    let copy = value.clone();
    assert_eq!(copy, value);
}

#[test]
fn test_value_cmp_order() {
    // Shapes order by kind first
    assert_eq!(Value::Null.cmp(&Value::Bool(false)), -1);
    assert_eq!(Value::Bool(false).cmp(&Value::Bool(true)), -1);
    assert_eq!(Value::Integer(3).cmp(&Value::Integer(3)), 0);
    assert_eq!(Value::Integer(4).cmp(&Value::Integer(3)), 1);
    // Texts order by code point
    assert_eq!(
        Value::Text("abc".to_string()).cmp(&Value::Text("abd".to_string())),
        -1
    );
    assert_eq!(
        Value::Text("b".to_string()).cmp(&Value::Text("ab".to_string())),
        1
    );
    // Arrays order lexicographically, shorter prefix first
    assert_eq!(
        Value::Array(vec![Value::Integer(1)]).cmp(&Value::Array(vec![
            Value::Integer(1),
            Value::Integer(2)
        ])),
        -1
    );
}

#[test]
fn test_map_duplicate_key_replaces() {
    // Decoding a map with a duplicate key keeps the later value
    // a2 01 02 01 03 = {1: 2, 1: 3}
    let decoded = from_slice(&[0xa2, 0x01, 0x02, 0x01, 0x03]).unwrap();
    assert_eq!(decoded, Value::Mapping(vec![(Value::Integer(1), Value::Integer(3))]));
}

#[test]
fn test_map_unsorted_keys_accepted() {
    // Unsorted keys on the wire are accepted and come back key-sorted
    // a2 03 04 01 02 = {3: 4, 1: 2}
    let decoded = from_slice(&[0xa2, 0x03, 0x04, 0x01, 0x02]).unwrap();
    assert_eq!(
        decoded,
        Value::Mapping(vec![
            (Value::Integer(1), Value::Integer(2)),
            (Value::Integer(3), Value::Integer(4)),
        ])
    );
}

#[test]
fn test_float32_widening_matches_cast() {
    // Decoding a 32-bit float widens it to the same binary64 value
    // that the standard cast produces
    let cases: Vec<u32> = vec![
        0x00000000, // 0.0
        0x80000000, // -0.0
        0x3f800000, // 1.0
        0x40490fdb, // pi, approximately
        0xc2280000, // -42.0
        0x7f800000, // infinity
        0xff800000, // -infinity
        0x00000001, // smallest subnormal
        0x00400001, // a subnormal with a longer fraction
        0x007fffff, // largest subnormal
        0x7f7fffff, // largest finite
    ];
    for bits in cases {
        let input = vec![
            0xfa,
            (bits >> 24) as u8,
            (bits >> 16) as u8,
            (bits >> 8) as u8,
            bits as u8,
        ];
        let decoded = from_slice(&input).unwrap();
        let expected = (f32::from_bits(bits) as f64).to_bits();
        assert_eq!(decoded, Value::Float(expected), "widening 0x{:08x}", bits);
    }
}

#[test]
fn test_float64_bits_roundtrip() {
    let input = vec![0xfb, 0xc0, 0x10, 0x66, 0x66, 0x66, 0x66, 0x66, 0x66];
    let decoded = from_slice(&input).unwrap();
    assert_eq!(decoded, Value::Float((-4.1f64).to_bits()));
    assert_eq!(to_vec(&decoded).unwrap(), input);
}
